//! Errors of metric computation through expressions.

use vstd::prelude::*;

use crate::expressions::types::MetricType;

verus! {

/// A metric used where it does not apply.
#[derive(Debug, Clone, Copy, PartialEq, Eq, Structural)]
pub enum MetricError {
    /// A comparison metric asked of a single partition.
    ComparisonMetricUsedForSingle(MetricType),
    /// A single-partition metric asked of a comparison.
    SingleMetricUsedForComparison(MetricType),
}

/// Whether `metric` can be computed for a single partition: `Ok` for the
/// entity count and the entropy, the error naming the metric otherwise.
pub fn check_single_metric(metric: &MetricType) -> (r: Result<(), MetricError>)
    ensures
        r == (if metric.compares() {
            Err(MetricError::ComparisonMetricUsedForSingle(*metric))
        } else {
            Ok(())
        }),
        r is Ok <==> (*metric is EntityCount || *metric is Entropy),
        r is Err ==> r == Err::<(), MetricError>(MetricError::ComparisonMetricUsedForSingle(*metric)),
{
    match metric {
        MetricType::EntityCount | MetricType::Entropy => Ok(()),
        _ => Err(MetricError::ComparisonMetricUsedForSingle(*metric)),
    }
}

} // verus!
