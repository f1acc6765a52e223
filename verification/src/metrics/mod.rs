//! Pair-counting comparison of partitions.

pub mod algorithms;
pub mod contingency;
pub mod types;
