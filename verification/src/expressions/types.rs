//! Metric types requested through expressions.

use vstd::prelude::*;

verus! {

/// A metric to compute for one collection or between two.
#[derive(Debug, Clone, Copy, PartialEq, Eq, Structural)]
pub enum MetricType {
    F1,
    Precision,
    Recall,
    ARI,
    NMI,
    VMeasure,
    BCubedPrecision,
    BCubedRecall,
    EntityCount,
    Entropy,
}

impl MetricType {
    /// Whether the metric compares collections: the evaluation metrics do,
    /// the entity count and the entropy do not.
    pub open spec fn compares(self) -> bool {
        match self {
            MetricType::F1 | MetricType::Precision | MetricType::Recall | MetricType::ARI | MetricType::NMI
            | MetricType::VMeasure | MetricType::BCubedPrecision | MetricType::BCubedRecall => true,
            MetricType::EntityCount | MetricType::Entropy => false,
        }
    }

    /// Whether this metric needs two or more collections: every metric but
    /// the entity count and the entropy does.
    pub fn requires_comparison(&self) -> (b: bool)
        ensures
            b == self.compares(),
            b == !(*self is EntityCount || *self is Entropy),
    {
        match self {
            MetricType::F1 | MetricType::Precision | MetricType::Recall | MetricType::ARI | MetricType::NMI
            | MetricType::VMeasure | MetricType::BCubedPrecision | MetricType::BCubedRecall => true,
            MetricType::EntityCount | MetricType::Entropy => false,
        }
    }
}

/// Exactly the entity count and the entropy describe a single partition;
/// every other metric, ARI among them, compares two.
pub proof fn lemma_single_partition_metrics(m: MetricType)
    ensures
        m.compares() <==> !(m is EntityCount || m is Entropy),
        m is ARI ==> m.compares(),
{
}

} // verus!
