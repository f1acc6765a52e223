pub mod bitmap;
pub mod bitmap_pool;
pub mod event_codec;
pub mod builder;
pub mod counting;
pub mod incremental;
pub mod mapped;
pub mod memory_cache;
pub mod merge_event;
pub mod partition;
pub mod relation;
pub mod sorting;
pub mod storage;
pub mod union_find;

pub use merge_event::MergeEvent;
