//! Weights of partitions held in a memory-bounded cache.

use vstd::prelude::*;

use crate::hierarchy::partition::PartitionLevel;

verus! {

/// Weighs a cached partition by its estimated bytes; never by zero, since a
/// cache does not evict weightless items.
#[derive(Debug, Clone, Copy, Default)]
pub struct PartitionWeighter;

impl PartitionWeighter {
    /// The weight of `val`: its estimated bytes, at least one.
    pub fn weight(&self, _key: &u32, val: &PartitionLevel) -> (w: u64)
        ensures
            w == if val.memory_estimate() < 1 {
                1
            } else {
                val.memory_estimate()
            },
    {
        let bytes = val.memory_usage_bytes();
        if bytes < 1 {
            1
        } else {
            bytes
        }
    }
}

} // verus!
