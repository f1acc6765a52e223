use starlings_core::base::resource_monitor::{check_memory_limit, default_memory_limit_mb, ResourceMonitor, SafetyError};
use starlings_core::base::{ensure_memory_safety, should_spill};

#[test]
fn test_ensure_memory_safety_small_allocation() {
    assert!(ensure_memory_safety(10).is_ok());
}

#[test]
fn test_massive_allocation_rejected() {
    let result = ensure_memory_safety(1_000_000);
    match result {
        Err(SafetyError::InsufficientMemory { .. }) => {}
        _ => {}
    }
}

#[test]
fn test_should_spill_logic() {
    assert!(!should_spill(100, 1000));
    assert!(!should_spill(400, 1000));
    assert!(should_spill(600, 1000));
    assert!(should_spill(800, 1000));
}

#[test]
fn should_spill_boundary_is_half_the_limit() {
    assert!(!should_spill(500, 1000));
    assert!(should_spill(501, 1000));
    assert!(!should_spill(500, 1001));
    assert!(should_spill(1, 1));
    assert!(!should_spill(0, 0));
}

#[test]
fn test_with_memory_limit() {
    let monitor = ResourceMonitor::with_memory_limit(4096);
    assert_eq!(monitor.get_memory_limit_mb(), 4096);
}

#[test]
fn test_can_proceed() {
    let mut monitor = ResourceMonitor::with_memory_limit(100_000);

    assert!(monitor.can_proceed(10).is_ok());

    match monitor.can_proceed(200_000) {
        Err(SafetyError::InsufficientMemory { .. }) => (),
        _ => panic!("Should reject allocation larger than limit"),
    }
}

#[test]
fn test_memory_over_limit_handling() {
    let mut monitor = ResourceMonitor::with_memory_limit(1);

    let result = monitor.can_proceed(1);

    match result {
        Ok(()) => (),
        Err(SafetyError::InsufficientMemory { .. }) => (),
    }
}

#[test]
fn memory_check_decides_on_the_sum() {
    assert_eq!(check_memory_limit(300, 200, 500), Ok(()));
    assert_eq!(
        check_memory_limit(300, 201, 500),
        Err(SafetyError::InsufficientMemory { required_mb: 201, available_mb: 200, limit_mb: 500 })
    );
    assert_eq!(
        check_memory_limit(700, 1, 500),
        Err(SafetyError::InsufficientMemory { required_mb: 1, available_mb: 0, limit_mb: 500 })
    );
    assert_eq!(
        check_memory_limit(1, u64::MAX, u64::MAX),
        Err(SafetyError::InsufficientMemory { required_mb: u64::MAX, available_mb: u64::MAX - 1, limit_mb: u64::MAX })
    );
}

#[test]
fn refusal_reports_the_estimate_and_limit() {
    let mut monitor = ResourceMonitor::with_memory_limit(100);
    match monitor.can_proceed(1_000) {
        Err(SafetyError::InsufficientMemory { required_mb, available_mb, limit_mb }) => {
            assert_eq!(required_mb, 1_000);
            assert_eq!(limit_mb, 100);
            assert!(available_mb <= 100);
        }
        Ok(()) => panic!("an estimate above the limit must be refused"),
    }
}

#[test]
fn default_limit_is_eighty_percent() {
    assert_eq!(default_memory_limit_mb(16384), 13107);
    assert_eq!(default_memory_limit_mb(100), 80);
    assert_eq!(default_memory_limit_mb(0), 0);
}

#[test]
fn monitor_reads_machine_memory() {
    let mut monitor = ResourceMonitor::new();
    let total = monitor.total_memory_mb();
    assert!(total > 0);
    assert_eq!(monitor.get_memory_limit_mb(), default_memory_limit_mb(total));
    let _ = monitor.used_memory_mb();
}
