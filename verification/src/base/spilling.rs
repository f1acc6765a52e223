//! Spilling memory-heavy state to disk.

use std::path::PathBuf;
use vstd::prelude::*;

verus! {

/// `std::path::PathBuf`, carried through unread.
#[verifier::external_type_specification]
#[verifier::external_body]
pub struct ExPathBuf(PathBuf);

/// State that can move to disk when memory is short and come back.
pub trait Spillable: Send + Sync {
    /// Estimated memory held, in bytes.
    fn estimated_memory_bytes(&self) -> u64;

    /// Write the state to disk and release it from memory.
    fn spill_to_disk(&mut self) -> Result<SpillHandle, SpillError>;

    /// Read the state back from a handle that spilling returned.
    fn restore_from_disk(&mut self, handle: SpillHandle) -> Result<(), SpillError>;

    /// Whether the state is on disk.
    fn is_spilled(&self) -> bool;
}

/// Where spilled data lies and how large it is.
#[derive(Debug)]
pub struct SpillHandle {
    /// The file holding the data.
    pub path: PathBuf,
    /// Its size in bytes.
    pub size_bytes: u64,
}

/// Why spilling or restoring failed.
#[derive(Debug)]
pub enum SpillError {
    /// The file system failed.
    Io(std::io::Error),
    /// The data could not be encoded or decoded.
    Serialization(String),
    /// The state is on disk already.
    AlreadySpilled,
    /// The state is not on disk, so there is nothing to restore.
    NotSpilled,
}

/// Whether an operation should spill: when its estimate exceeds half the
/// memory limit.
pub fn should_spill(estimated_mb: u64, memory_limit_mb: u64) -> (b: bool)
    ensures
        b == (estimated_mb > memory_limit_mb / 2),
{
    estimated_mb > memory_limit_mb / 2
}

} // verus!
