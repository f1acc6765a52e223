//! Metric types of the expression interface.

pub mod types;
pub mod utils;

pub use types::MetricType;
pub use utils::MetricError;
