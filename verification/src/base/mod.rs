pub mod io_types;
pub mod key;
pub mod resource_monitor;
pub mod safety;
pub mod spilling;

pub use key::Key;
pub use resource_monitor::{ResourceMonitor, SafetyError};
pub use safety::{ensure_memory_safety, ensure_memory_safety_with_limit};
pub use spilling::{should_spill, SpillError, SpillHandle, Spillable};
