use roaring::RoaringBitmap;
use std::collections::VecDeque;
use vstd::prelude::*;

use crate::hierarchy::bitmap::{bitmap_clear, bitmap_new, bitmap_set, bitmap_wf};

verus! {

/// Which pool a bitmap belongs to.
#[derive(Debug, Clone, Copy, PartialEq, Eq)]
pub enum PoolSizeClass {
    Small,
    Large,
}

/// Number of bitmaps each pool keeps, and the size hint that separates them.
pub const DEFAULT_SMALL_POOL_SIZE: usize = 1000;

pub const DEFAULT_LARGE_POOL_SIZE: usize = 100;

pub const SMALL_THRESHOLD: u32 = 1000;

/// The class a size hint falls in.
pub open spec fn class_for(size_hint: u32) -> PoolSizeClass {
    if size_hint < SMALL_THRESHOLD {
        PoolSizeClass::Small
    } else {
        PoolSizeClass::Large
    }
}

/// Bitmaps kept for reuse, in two pools by expected size, each with a cap.
#[derive(Debug)]
pub struct BitmapPool {
    small_pool: VecDeque<RoaringBitmap>,
    large_pool: VecDeque<RoaringBitmap>,
    max_small: usize,
    max_large: usize,
}

/// How many bitmaps are waiting in each pool.
#[derive(Debug, Clone)]
pub struct BitmapPoolStats {
    pub small_available: usize,
    pub large_available: usize,
    pub total_available: usize,
}

impl BitmapPool {
    pub closed spec fn small_count(&self) -> nat {
        self.small_pool@.len()
    }

    pub closed spec fn large_count(&self) -> nat {
        self.large_pool@.len()
    }

    pub closed spec fn small_cap(&self) -> nat {
        self.max_small as nat
    }

    pub closed spec fn large_cap(&self) -> nat {
        self.max_large as nat
    }

    /// Pools stay within their caps, and the caps add up within `usize`.
    pub closed spec fn wf(&self) -> bool {
        &&& self.small_pool@.len() <= self.max_small
        &&& self.large_pool@.len() <= self.max_large
        &&& self.max_small + self.max_large <= usize::MAX
    }

    /// Pools with the default caps.
    pub fn new() -> (p: Self)
        ensures
            p.wf(),
            p.small_count() == 0,
            p.large_count() == 0,
            p.small_cap() == DEFAULT_SMALL_POOL_SIZE,
            p.large_cap() == DEFAULT_LARGE_POOL_SIZE,
    {
        Self::with_capacity(DEFAULT_SMALL_POOL_SIZE, DEFAULT_LARGE_POOL_SIZE)
    }

    /// Caps scaled with the number of edges: times 1 up to 10 000 edges,
    /// 2 up to 100 000, 5 up to 1 000 000 and 10 beyond, and at most
    /// 10 000 small and 1 000 large bitmaps.
    pub fn new_for_scale(num_edges: usize) -> (p: Self)
        ensures
            p.wf(),
            p.small_count() == 0,
            p.large_count() == 0,
            p.small_cap() == vstd::math::min(DEFAULT_SMALL_POOL_SIZE * scale_factor(num_edges), 10_000),
            p.large_cap() == vstd::math::min(DEFAULT_LARGE_POOL_SIZE * scale_factor(num_edges), 1_000),
    {
        let scale: usize = if num_edges <= 10_000 {
            1
        } else if num_edges <= 100_000 {
            2
        } else if num_edges <= 1_000_000 {
            5
        } else {
            10
        };
        let small = DEFAULT_SMALL_POOL_SIZE * scale;
        let large = DEFAULT_LARGE_POOL_SIZE * scale;
        let small = if small < 10_000 { small } else { 10_000 };
        let large = if large < 1_000 { large } else { 1_000 };
        Self::with_capacity(small, large)
    }

    /// Empty pools with the given caps.
    pub fn with_capacity(max_small: usize, max_large: usize) -> (p: Self)
        requires
            max_small + max_large <= usize::MAX,
        ensures
            p.wf(),
            p.small_count() == 0,
            p.large_count() == 0,
            p.small_cap() == max_small,
            p.large_cap() == max_large,
    {
        BitmapPool {
            small_pool: VecDeque::with_capacity(max_small),
            large_pool: VecDeque::with_capacity(max_large),
            max_small,
            max_large,
        }
    }

    /// An empty bitmap, reused from the pool of the hint's class when one is waiting.
    pub fn get(&mut self, size_hint: u32) -> (r: (RoaringBitmap, PoolSizeClass))
        requires
            old(self).wf(),
        ensures
            final(self).wf(),
            bitmap_wf(r.0),
            bitmap_set(r.0) == Set::<u32>::empty(),
            r.1 == class_for(size_hint),
            final(self).small_cap() == old(self).small_cap(),
            final(self).large_cap() == old(self).large_cap(),
            final(self).small_count() == (if r.1 == PoolSizeClass::Small && old(self).small_count() > 0 {
                (old(self).small_count() - 1) as nat
            } else {
                old(self).small_count()
            }),
            final(self).large_count() == (if r.1 == PoolSizeClass::Large && old(self).large_count() > 0 {
                (old(self).large_count() - 1) as nat
            } else {
                old(self).large_count()
            }),
    {
        let small = size_hint < SMALL_THRESHOLD;
        let taken = if small {
            self.small_pool.pop_front()
        } else {
            self.large_pool.pop_front()
        };
        let class = if small { PoolSizeClass::Small } else { PoolSizeClass::Large };
        match taken {
            Some(mut bitmap) => {
                bitmap_clear(&mut bitmap);
                (bitmap, class)
            },
            None => (bitmap_new(), class),
        }
    }

    /// Return a bitmap, emptied, to the pool of `size_class` unless that pool is full.
    pub fn put(&mut self, bitmap: RoaringBitmap, size_class: PoolSizeClass)
        requires
            old(self).wf(),
        ensures
            final(self).wf(),
            final(self).small_cap() == old(self).small_cap(),
            final(self).large_cap() == old(self).large_cap(),
            final(self).small_count() == (if size_class == PoolSizeClass::Small && old(self).small_count()
                < old(self).small_cap() {
                old(self).small_count() + 1
            } else {
                old(self).small_count()
            }),
            final(self).large_count() == (if size_class == PoolSizeClass::Large && old(self).large_count()
                < old(self).large_cap() {
                old(self).large_count() + 1
            } else {
                old(self).large_count()
            }),
    {
        let mut bitmap = bitmap;
        bitmap_clear(&mut bitmap);
        match size_class {
            PoolSizeClass::Small => {
                if self.small_pool.len() < self.max_small {
                    self.small_pool.push_back(bitmap);
                }
            },
            PoolSizeClass::Large => {
                if self.large_pool.len() < self.max_large {
                    self.large_pool.push_back(bitmap);
                }
            },
        }
    }

    /// Bitmaps waiting in each pool.
    pub fn stats(&self) -> (s: BitmapPoolStats)
        requires
            self.wf(),
        ensures
            s.small_available == self.small_count(),
            s.large_available == self.large_count(),
            s.total_available == self.small_count() + self.large_count(),
    {
        let small = self.small_pool.len();
        let large = self.large_pool.len();
        BitmapPoolStats { small_available: small, large_available: large, total_available: small + large }
    }

    /// Drop every waiting bitmap.
    pub fn clear(&mut self)
        requires
            old(self).wf(),
        ensures
            final(self).wf(),
            final(self).small_count() == 0,
            final(self).large_count() == 0,
            final(self).small_cap() == old(self).small_cap(),
            final(self).large_cap() == old(self).large_cap(),
    {
        self.small_pool.clear();
        self.large_pool.clear();
    }

    /// Empty pools with the same caps.
    pub fn duplicate(&self) -> (p: Self)
        requires
            self.wf(),
        ensures
            p.wf(),
            p.small_count() == 0,
            p.large_count() == 0,
            p.small_cap() == self.small_cap(),
            p.large_cap() == self.large_cap(),
    {
        Self::with_capacity(self.max_small, self.max_large)
    }
}

/// Multiplier of the default caps for a number of edges.
pub open spec fn scale_factor(num_edges: usize) -> int {
    if num_edges <= 10_000 {
        1
    } else if num_edges <= 100_000 {
        2
    } else if num_edges <= 1_000_000 {
        5
    } else {
        10
    }
}

impl Default for BitmapPool {
    fn default() -> (p: Self)
        ensures
            p.wf(),
            p.small_count() == 0,
            p.large_count() == 0,
            p.small_cap() == DEFAULT_SMALL_POOL_SIZE,
            p.large_cap() == DEFAULT_LARGE_POOL_SIZE,
    {
        Self::new()
    }
}

} // verus!
