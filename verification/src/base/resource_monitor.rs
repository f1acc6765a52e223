//! A memory limit for operations, checked against the memory the process
//! holds.

use sysinfo::{MemoryRefreshKind, Pid, Process, ProcessRefreshKind, ProcessesToUpdate, RefreshKind, System};
use vstd::prelude::*;

verus! {

/// `sysinfo::System`: the figures of the machine, as last refreshed.
#[verifier::external_type_specification]
#[verifier::external_body]
pub struct ExSystem(System);

/// `sysinfo::Pid`: a process id.
#[verifier::external_type_specification]
#[verifier::external_body]
pub struct ExPid(Pid);

/// `sysinfo::Process`: one process of a `System`.
#[verifier::external_type_specification]
#[verifier::external_body]
pub struct ExProcess(Process);

/// Bytes in a megabyte.
pub const BYTES_PER_MB: u64 = 1048576;

/// Why an operation may not proceed.
#[derive(Debug, Clone, Copy, PartialEq, Eq, Structural)]
pub enum SafetyError {
    /// The operation would take the process past its memory limit.
    InsufficientMemory { required_mb: u64, available_mb: u64, limit_mb: u64 },
}

/// The default limit: 80% of the machine's memory.
pub open spec fn default_limit_mb(total_mb: int) -> int {
    total_mb * 80 / 100
}

/// The outcome of a check of `estimated_mb` more megabytes when `used_mb`
/// are held under `limit_mb`: refused when the sum passes the limit, with
/// what is left under it.
pub open spec fn check_outcome(used_mb: int, estimated_mb: int, limit_mb: int) -> Result<(), SafetyError> {
    if used_mb + estimated_mb > limit_mb {
        Err(
            SafetyError::InsufficientMemory {
                required_mb: estimated_mb as u64,
                available_mb: (if limit_mb > used_mb {
                    limit_mb - used_mb
                } else {
                    0
                }) as u64,
                limit_mb: limit_mb as u64,
            },
        )
    } else {
        Ok(())
    }
}

/// Decide whether `estimated_mb` more megabytes fit under `limit_mb` when
/// `used_mb` are held.
pub fn check_memory_limit(used_mb: u64, estimated_mb: u64, limit_mb: u64) -> (r: Result<(), SafetyError>)
    ensures
        r == check_outcome(used_mb as int, estimated_mb as int, limit_mb as int),
{
    if estimated_mb > limit_mb || used_mb > limit_mb - estimated_mb {
        Err(
            SafetyError::InsufficientMemory {
                required_mb: estimated_mb,
                available_mb: limit_mb.saturating_sub(used_mb),
                limit_mb,
            },
        )
    } else {
        Ok(())
    }
}

/// Whole megabytes in `bytes`.
pub open spec fn mb_of(bytes: u64) -> int {
    bytes as int / BYTES_PER_MB as int
}

/// Megabytes in use: the process's resident bytes when it could be read,
/// and otherwise the machine's total less what is still available (none
/// when more is reported available than there is).
pub open spec fn used_mb_spec(process_bytes: Option<u64>, total_bytes: u64, available_bytes: u64) -> int {
    match process_bytes {
        Some(b) => mb_of(b),
        None => if total_bytes > available_bytes {
            (total_bytes - available_bytes) / BYTES_PER_MB as int
        } else {
            0
        },
    }
}

/// Megabytes in use, from the process's resident bytes when it could be
/// read, and otherwise from the machine's total and available bytes.
pub fn used_mb_of(process_bytes: Option<u64>, total_bytes: u64, available_bytes: u64) -> (r: u64)
    ensures
        r == used_mb_spec(process_bytes, total_bytes, available_bytes),
{
    match process_bytes {
        Some(b) => b / BYTES_PER_MB,
        None => total_bytes.saturating_sub(available_bytes) / BYTES_PER_MB,
    }
}

/// The default limit for a machine of `total_mb` megabytes.
pub fn default_memory_limit_mb(total_mb: u64) -> (r: u64)
    requires
        total_mb <= 0x00ff_ffff_ffff_ffff,
    ensures
        r == default_limit_mb(total_mb as int),
{
    (total_mb * 80) / 100
}

/// `System::new_with_specifics` with memory figures only, loaded at once.
#[verifier::external_body]
fn memory_system() -> System {
    System::new_with_specifics(RefreshKind::new().with_memory(MemoryRefreshKind::everything()))
}

/// `sysinfo::get_current_pid`, with its error dropped.
#[verifier::external_body]
fn current_pid() -> Option<Pid> {
    sysinfo::get_current_pid().ok()
}

/// `System::refresh_memory`.
#[verifier::external_body]
fn refresh_memory(system: &mut System) {
    system.refresh_memory()
}

/// `System::refresh_processes_specifics` for the memory of one process,
/// keeping dead processes.
#[verifier::external_body]
fn refresh_process_memory(system: &mut System, pid: Pid) {
    let _ = system.refresh_processes_specifics(ProcessesToUpdate::Some(&[pid]), false, ProcessRefreshKind::new().with_memory());
}

/// `System::total_memory`: the machine's memory in bytes.
#[verifier::external_body]
fn total_memory_bytes(system: &System) -> u64 {
    system.total_memory()
}

/// `System::available_memory`: the memory in bytes that can still be given out.
#[verifier::external_body]
fn available_memory_bytes(system: &System) -> u64 {
    system.available_memory()
}

/// `System::process`: the process with id `pid`, if it was loaded.
#[verifier::external_body]
fn find_process(system: &System, pid: Pid) -> Option<&Process> {
    system.process(pid)
}

/// `Process::memory`: the process's resident memory in bytes.
#[verifier::external_body]
fn process_memory_bytes(process: &Process) -> u64 {
    process.memory()
}

/// A memory limit, checked against what the current process holds.
#[derive(Debug)]
pub struct ResourceMonitor {
    system: System,
    memory_limit_mb: u64,
    process_pid: Option<Pid>,
}

impl ResourceMonitor {
    /// The limit in megabytes.
    pub closed spec fn limit(&self) -> u64 {
        self.memory_limit_mb
    }

    /// A monitor with the default limit: 80% of the machine's memory, in
    /// whole megabytes.
    pub fn new() -> (m: Self)
        ensures
            exists|total_bytes: u64| m.limit() == default_limit_mb(mb_of(total_bytes)),
    {
        let system = memory_system();
        let total_bytes = total_memory_bytes(&system);
        let total_mb = total_bytes / BYTES_PER_MB;
        let limit = default_memory_limit_mb(total_mb);
        let m = Self::with_memory_limit(limit);
        assert(m.limit() == default_limit_mb(mb_of(total_bytes)));
        m
    }

    /// A monitor with a limit of `memory_limit_mb` megabytes.
    pub fn with_memory_limit(memory_limit_mb: u64) -> (m: Self)
        ensures
            m.limit() == memory_limit_mb,
    {
        let mut system = memory_system();
        let process_pid = current_pid();
        match process_pid {
            Some(pid) => refresh_process_memory(&mut system, pid),
            None => {},
        }
        ResourceMonitor { system, memory_limit_mb, process_pid }
    }

    /// The limit in megabytes.
    pub fn get_memory_limit_mb(&self) -> (r: u64)
        ensures
            r == self.limit(),
    {
        self.memory_limit_mb
    }

    /// The machine's memory in megabytes.
    pub fn total_memory_mb(&mut self) -> (r: u64)
        ensures
            final(self).limit() == old(self).limit(),
            exists|total_bytes: u64| r == mb_of(total_bytes),
    {
        refresh_memory(&mut self.system);
        let total_bytes = total_memory_bytes(&self.system);
        let r = total_bytes / BYTES_PER_MB;
        assert(r == mb_of(total_bytes));
        r
    }

    /// Megabytes held by this process, or, when the process cannot be read,
    /// by the whole machine.
    pub fn used_memory_mb(&mut self) -> (r: u64)
        ensures
            final(self).limit() == old(self).limit(),
            exists|process_bytes: Option<u64>, total_bytes: u64, available_bytes: u64|
                r == used_mb_spec(process_bytes, total_bytes, available_bytes),
    {
        refresh_memory(&mut self.system);
        let process_bytes = match self.process_pid {
            Some(pid) => {
                refresh_process_memory(&mut self.system, pid);
                match find_process(&self.system, pid) {
                    Some(process) => Some(process_memory_bytes(process)),
                    None => None,
                }
            },
            None => None,
        };
        let total = total_memory_bytes(&self.system);
        let available = available_memory_bytes(&self.system);
        let r = used_mb_of(process_bytes, total, available);
        assert(r == used_mb_spec(process_bytes, total, available));
        r
    }

    /// Whether `estimated_mb` more megabytes fit under the limit, given what
    /// the process holds now: refused, with what is left, when they do not.
    pub fn can_proceed(&mut self, estimated_mb: u64) -> (r: Result<(), SafetyError>)
        ensures
            final(self).limit() == old(self).limit(),
            exists|process_bytes: Option<u64>, total_bytes: u64, available_bytes: u64|
                r == check_outcome(
                    used_mb_spec(process_bytes, total_bytes, available_bytes),
                    estimated_mb as int,
                    old(self).limit() as int,
                ),
    {
        let used = self.used_memory_mb();
        let ghost (p, t, a) = choose|p: Option<u64>, t: u64, a: u64| used == used_mb_spec(p, t, a);
        let r = check_memory_limit(used, estimated_mb, self.memory_limit_mb);
        assert(r == check_outcome(used_mb_spec(p, t, a), estimated_mb as int, old(self).limit() as int));
        r
    }
}

} // verus!
