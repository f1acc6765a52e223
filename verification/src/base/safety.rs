//! The memory check made before large operations.

use vstd::prelude::*;

use crate::base::resource_monitor::{check_outcome, default_limit_mb, mb_of, used_mb_spec, ResourceMonitor, SafetyError};

verus! {

/// The limit a check runs under: the configured one, or else 80% of the
/// machine's `total_mb` megabytes.
pub open spec fn effective_limit_mb(configured_mb: Option<u64>, total_mb: int) -> int {
    match configured_mb {
        Some(l) => l as int,
        None => default_limit_mb(total_mb),
    }
}

/// Whether an operation of `estimated_mb` megabytes may proceed under the
/// configured limit (`None`: no limit configured, so 80% of the machine's
/// memory): refused when what the process holds plus the estimate passes it.
pub fn ensure_memory_safety_with_limit(estimated_mb: u64, configured_mb: Option<u64>) -> (r: Result<(), SafetyError>)
    ensures
        exists|process_bytes: Option<u64>, total_bytes: u64, available_bytes: u64, machine_bytes: u64|
            r == check_outcome(
                used_mb_spec(process_bytes, total_bytes, available_bytes),
                estimated_mb as int,
                effective_limit_mb(configured_mb, mb_of(machine_bytes)),
            ),
{
    let mut monitor = match configured_mb {
        Some(limit) => ResourceMonitor::with_memory_limit(limit),
        None => ResourceMonitor::new(),
    };
    let ghost limit = monitor.limit();
    let ghost machine: u64 = match configured_mb {
        Some(_) => 0,
        None => choose|t: u64| limit == default_limit_mb(mb_of(t)),
    };
    let r = monitor.can_proceed(estimated_mb);
    proof {
        let (p, t, a) = choose|p: Option<u64>, t: u64, a: u64|
            r == check_outcome(used_mb_spec(p, t, a), estimated_mb as int, limit as int);
        assert(effective_limit_mb(configured_mb, mb_of(machine)) == limit);
        assert(r == check_outcome(used_mb_spec(p, t, a), estimated_mb as int, effective_limit_mb(configured_mb, mb_of(machine))));
    }
    r
}

/// Whether an operation of `estimated_mb` megabytes may proceed when no limit
/// is configured: under 80% of the machine's memory.
pub fn ensure_memory_safety(estimated_mb: u64) -> (r: Result<(), SafetyError>)
    ensures
        exists|process_bytes: Option<u64>, total_bytes: u64, available_bytes: u64, machine_bytes: u64|
            r == check_outcome(
                used_mb_spec(process_bytes, total_bytes, available_bytes),
                estimated_mb as int,
                default_limit_mb(mb_of(machine_bytes)),
            ),
{
    ensure_memory_safety_with_limit(estimated_mb, None)
}

} // verus!
