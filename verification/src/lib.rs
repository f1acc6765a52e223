//! Entity resolution hierarchies: records are merged into entities as a
//! similarity threshold is lowered, and the resulting partitions are compared
//! with pair-counting metrics.

pub mod base;
pub mod frame;
pub mod hierarchy;
pub mod metrics;
pub mod expressions;
