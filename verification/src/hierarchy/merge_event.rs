use roaring::RoaringBitmap;
use vstd::prelude::*;

use crate::hierarchy::bitmap::{
    bitmap_clone, bitmap_contains, bitmap_len, bitmap_min, bitmap_set, bitmap_wf, lemma_u32_set_finite,
};

verus! {

/// One binary merge: the entity `child_nodes` is absorbed, at `threshold`,
/// into the entity whose smallest record is `parent_id`. Only the absorbed
/// side is stored, so all events of a hierarchy together hold each record
/// at most once.
///
/// Thresholds are fixed-point similarity values in millionths
/// (`1_000_000` stands for a similarity of 1).
#[derive(Debug)]
pub struct MergeEvent {
    pub threshold: i64,
    pub parent_id: u32,
    pub child_nodes: RoaringBitmap,
}

impl MergeEvent {
    /// The records absorbed by this merge.
    pub open spec fn child_set(&self) -> Set<u32> {
        bitmap_set(self.child_nodes)
    }

    /// An event absorbs at least one record, held in a well-formed bitmap.
    pub open spec fn wf(&self) -> bool {
        &&& bitmap_wf(self.child_nodes)
        &&& self.child_set() != Set::<u32>::empty()
    }

    /// A merge event; the absorbed entity must not be empty.
    pub fn new(threshold: i64, parent_id: u32, child_nodes: RoaringBitmap) -> (e: Self)
        requires
            bitmap_wf(child_nodes),
            bitmap_set(child_nodes) != Set::<u32>::empty(),
        ensures
            e.wf(),
            e.threshold == threshold,
            e.parent_id == parent_id,
            e.child_set() == bitmap_set(child_nodes),
    {
        MergeEvent { threshold, parent_id, child_nodes }
    }

    /// Canonical identifier of the absorbed entity: its smallest record.
    pub fn child_id(&self) -> (id: u32)
        requires
            self.wf(),
        ensures
            self.child_set().contains(id),
            forall|v: u32| #[trigger] self.child_set().contains(v) ==> id <= v,
    {
        match bitmap_min(&self.child_nodes) {
            Some(m) => m,
            None => {
                proof {
                    assert(false);
                }
                0
            },
        }
    }

    /// Records absorbed plus one for the surviving entity (whose size is not stored).
    pub fn total_entities(&self) -> (n: u64)
        requires
            bitmap_wf(self.child_nodes),
        ensures
            self.child_set().finite(),
            n == self.child_set().len() + 1,
    {
        let len = bitmap_len(&self.child_nodes);
        proof {
            lemma_u32_set_finite(self.child_set());
            lemma_u32_set_len_bound(self.child_set());
        }
        len + 1
    }

    /// Whether `record_id` is among the absorbed records (the surviving side is not stored).
    pub fn affects_record(&self, record_id: u32) -> (b: bool)
        requires
            bitmap_wf(self.child_nodes),
        ensures
            b == self.child_set().contains(record_id),
    {
        bitmap_contains(&self.child_nodes, record_id)
    }

    /// The threshold at which the merge happens.
    pub fn threshold(&self) -> (t: i64)
        ensures
            t == self.threshold,
    {
        self.threshold
    }

    /// A copy with the same threshold, parent and absorbed records.
    pub fn duplicate(&self) -> (e: Self)
        requires
            bitmap_wf(self.child_nodes),
        ensures
            bitmap_wf(e.child_nodes),
            e.threshold == self.threshold,
            e.parent_id == self.parent_id,
            e.child_set() == self.child_set(),
    {
        MergeEvent {
            threshold: self.threshold,
            parent_id: self.parent_id,
            child_nodes: bitmap_clone(&self.child_nodes),
        }
    }
}

/// A finite set of `u32` has at most `2^32` elements.
pub proof fn lemma_u32_set_len_bound(s: Set<u32>)
    requires
        s.finite(),
    ensures
        s.len() <= 0x1_0000_0000,
{
    let f = |v: u32| v as int;
    let mapped = s.map(f);
    let ints = vstd::set_lib::set_int_range(0, 0x1_0000_0000);
    assert(vstd::relations::injective_on(f, s));
    vstd::set_lib::lemma_map_size(s, mapped, f);
    vstd::set_lib::lemma_int_range(0, 0x1_0000_0000);
    assert forall|x: int| #[trigger] mapped.contains(x) implies ints.contains(x) by {
        let v = choose|v: u32| s.contains(v) && f(v) == x;
    }
    vstd::set_lib::lemma_len_subset(mapped, ints);
}

} // verus!
