//! Kinds of comparison and metric, and what they cost.

pub mod common;
pub mod counts_bound;
pub mod delta;
pub mod delta_update;
pub mod merge_rebuild;
pub mod record;

use vstd::prelude::*;

verus! {

/// What is being compared.
#[derive(Debug, Clone, Copy, PartialEq, Eq, Structural)]
pub enum ComparisonType {
    /// Statistics of one partition, no comparison.
    Single,
    /// One partition against one partition.
    PointPoint { same_collection: bool },
    /// A sweep of partitions against one partition.
    SweepPoint { same_collection: bool },
    /// Every partition of one sweep against every partition of another.
    SweepSweep { same_collection: bool },
}

/// The kind of comparison of `count1` partitions against `count2` of them,
/// or against none: one against one or one alone, a sweep against one or
/// alone, and otherwise a sweep against a sweep.
pub fn comparison_type_of(count1: usize, count2: Option<usize>, same_collection: bool) -> (c: ComparisonType)
    ensures
        c == match count2 {
            None => if count1 == 1 {
                ComparisonType::Single
            } else {
                ComparisonType::SweepPoint { same_collection }
            },
            Some(n) => if n == 1 && count1 == 1 {
                ComparisonType::PointPoint { same_collection }
            } else if n == 1 {
                ComparisonType::SweepPoint { same_collection }
            } else {
                ComparisonType::SweepSweep { same_collection }
            },
        },
{
    match count2 {
        None => if count1 == 1 {
            ComparisonType::Single
        } else {
            ComparisonType::SweepPoint { same_collection }
        },
        Some(n) => if n == 1 && count1 == 1 {
            ComparisonType::PointPoint { same_collection }
        } else if n == 1 {
            ComparisonType::SweepPoint { same_collection }
        } else {
            ComparisonType::SweepSweep { same_collection }
        },
    }
}

/// The record algorithm takes comparisons across collections and sweeps
/// against sweeps.
pub open spec fn record_handles(c: ComparisonType) -> bool {
    match c {
        ComparisonType::SweepSweep { .. } => true,
        ComparisonType::PointPoint { same_collection } => !same_collection,
        ComparisonType::SweepPoint { same_collection } => !same_collection,
        ComparisonType::Single => false,
    }
}

/// The delta algorithm takes one partition alone and comparisons within one
/// collection against a single partition.
pub open spec fn delta_handles(c: ComparisonType) -> bool {
    match c {
        ComparisonType::Single => true,
        ComparisonType::PointPoint { same_collection } => same_collection,
        ComparisonType::SweepPoint { same_collection } => same_collection,
        ComparisonType::SweepSweep { .. } => false,
    }
}

/// Whether the record algorithm takes `c`.
pub fn record_can_handle(c: &ComparisonType) -> (b: bool)
    ensures
        b == record_handles(*c),
{
    match c {
        ComparisonType::SweepSweep { .. } => true,
        ComparisonType::PointPoint { same_collection } => !*same_collection,
        ComparisonType::SweepPoint { same_collection } => !*same_collection,
        ComparisonType::Single => false,
    }
}

/// Whether the delta algorithm takes `c`.
pub fn delta_can_handle(c: &ComparisonType) -> (b: bool)
    ensures
        b == delta_handles(*c),
{
    match c {
        ComparisonType::Single => true,
        ComparisonType::PointPoint { same_collection } => *same_collection,
        ComparisonType::SweepPoint { same_collection } => *same_collection,
        ComparisonType::SweepSweep { .. } => false,
    }
}

/// Every kind of comparison is taken by exactly one of the two algorithms.
pub proof fn lemma_exactly_one_algorithm(c: ComparisonType)
    ensures
        record_handles(c) != delta_handles(c),
{
}

/// What an algorithm expects a comparison to cost.
#[derive(Debug, Clone)]
pub struct ComplexityEstimate {
    /// Big-O notation, such as "O(r)".
    pub notation: String,
    /// Estimated number of operations.
    pub expected_ops: u64,
    /// Human-readable description.
    pub description: String,
}

/// The metrics that can be computed.
#[derive(Debug, Clone, Copy, PartialEq, Eq, Hash, Structural)]
pub enum MetricType {
    F1,
    Precision,
    Recall,
    ARI,
    NMI,
    VMeasure,
    BCubedPrecision,
    BCubedRecall,
    EntityCount,
    Entropy,
}

impl MetricType {
    /// Whether the metric compares two partitions: all but the entity count
    /// and the entropy, which describe a single one.
    pub open spec fn compares(self) -> bool {
        !(self is EntityCount || self is Entropy)
    }

    /// Whether this metric needs two partitions.
    pub fn requires_comparison(&self) -> (b: bool)
        ensures
            b == self.compares(),
    {
        match self {
            MetricType::EntityCount | MetricType::Entropy => false,
            _ => true,
        }
    }

    /// The display name of the metric.
    pub fn name(&self) -> (s: &'static str)
        ensures
            s@ == metric_name(*self),
    {
        match self {
            MetricType::F1 => "f1",
            MetricType::Precision => "precision",
            MetricType::Recall => "recall",
            MetricType::ARI => "ari",
            MetricType::NMI => "nmi",
            MetricType::VMeasure => "v_measure",
            MetricType::BCubedPrecision => "bcubed_precision",
            MetricType::BCubedRecall => "bcubed_recall",
            MetricType::EntityCount => "entity_count",
            MetricType::Entropy => "entropy",
        }
    }
}

/// The display name of each metric.
pub open spec fn metric_name(m: MetricType) -> Seq<char> {
    match m {
        MetricType::F1 => "f1"@,
        MetricType::Precision => "precision"@,
        MetricType::Recall => "recall"@,
        MetricType::ARI => "ari"@,
        MetricType::NMI => "nmi"@,
        MetricType::VMeasure => "v_measure"@,
        MetricType::BCubedPrecision => "bcubed_precision"@,
        MetricType::BCubedRecall => "bcubed_recall"@,
        MetricType::EntityCount => "entity_count"@,
        MetricType::Entropy => "entropy"@,
    }
}

} // verus!
