//! Counts of record pairs from comparing two partitions.

use vstd::prelude::*;

verus! {

/// Record pairs of two partitions, by whether each keeps them together.
#[derive(Debug, Clone, Copy)]
pub struct ContingencyTable {
    /// Pairs together in both partitions.
    pub true_positives: u32,
    /// Pairs together in the first, apart in the second.
    pub false_positives: u32,
    /// Pairs apart in the first, together in the second.
    pub false_negatives: u32,
    /// Pairs apart in both.
    pub true_negatives: u32,
}

} // verus!
