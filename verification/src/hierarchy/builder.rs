use roaring::RoaringBitmap;
use vstd::prelude::*;

use crate::hierarchy::bitmap::{
    all_bitmaps_wf, bitmap_wf, bitmap_clone, bitmap_insert, bitmap_len, bitmap_min, bitmap_new, bitmap_serialized_size,
    bitmap_set, bitmap_union_with, bitmap_values, lemma_u32_set_finite, mapping_failed_message,
    mapping_too_large_message,
};
use crate::hierarchy::bitmap_pool::{BitmapPool, PoolSizeClass};
use crate::hierarchy::merge_event::MergeEvent;
use crate::hierarchy::sorting::{
    flatten_groups, group_edges, group_edges_by_threshold, holds_range, sort_edges_descending,
    sorted_positions,
};
use crate::hierarchy::storage::{bitmaps_wf, event_view, events_view, InMemoryStorage};
use crate::hierarchy::union_find::{
    canonical, is_partition_into_classes, listed, max_elements, merged_reps, nested_view, UnionFind,
    UnionFindBackend, VecBackend,
};
use crate::hierarchy::partition::{bitmap_sets, PartitionLevel};
use crate::hierarchy::relation::{
    absorb, absorbed, components_at, cut, edges_within, held, identity, join, join_all,
    lemma_absorb_empty, lemma_absorb_insert, lemma_classes_transfer, lemma_components_order_free,
    lemma_join_all_append, lemma_join_all_congruent, lemma_join_all_len, lemma_join_congruent,
    lemma_pairs_at_or_above_within, lemma_same_partition_refl, lemma_same_partition_sym,
    lemma_replay_length, lemma_same_partition_trans, lemma_union_step, pairs_at_or_above, partition_at, replay,
    same_partition, sets_are_classes,
};
use crate::hierarchy::incremental::IncrementalPartitionBuilder;
use crate::hierarchy::counting::{
    absorbs_one_entity, entity_count, events_absorb_entities, leads, lemma_events_per_threshold,
};
use std::sync::Arc;

verus! {

/// The records whose representative is `r`.
pub open spec fn class_of(reps: Seq<int>, r: int) -> Set<u32> {
    Set::new(|v: u32| (v as int) < reps.len() && reps[v as int] == r)
}

/// Every event absorbs records below `n` into a parent below `n`.
pub open spec fn events_well_formed(events: Seq<(i64, u32, Set<u32>)>, n: int) -> bool {
    forall|k: int|
        0 <= k < events.len() ==> {
            let e = #[trigger] events[k];
            &&& (e.1 as int) < n
            &&& forall|v: u32| #[trigger] e.2.contains(v) ==> (v as int) < n
        }
}

/// Every event's parent is smaller than every record it absorbs: the parent
/// is the smallest record of the merged entity.
pub open spec fn parents_smallest(events: Seq<(i64, u32, Set<u32>)>) -> bool {
    forall|k: int, v: u32| 0 <= k < events.len() && #[trigger] events[k].2.contains(v) ==> events[k].1 < v
}

/// Thresholds never rise along the list.
pub open spec fn thresholds_descending(events: Seq<(i64, u32, Set<u32>)>) -> bool {
    forall|a: int, b: int| 0 <= a < b < events.len() ==> (#[trigger] events[a]).0 >= (#[trigger] events[b]).0
}

/// Some edge has weight `w`.
pub open spec fn is_edge_weight(edges: Seq<(u32, u32, i64)>, w: i64) -> bool {
    exists|j: int| 0 <= j < edges.len() && #[trigger] edges[j].2 == w
}

/// One of the first `g` groups has threshold `t`.
pub open spec fn is_group_threshold(groups: Seq<(i64, Vec<(u32, u32)>)>, g: int, t: i64) -> bool {
    exists|a: int| 0 <= a < g && #[trigger] groups[a].0 == t
}

/// The entity of event `k`'s parent once the event is applied.
pub open spec fn merged_entity(events: Seq<(i64, u32, Set<u32>)>, n: nat, k: int) -> Set<u32> {
    let after = replay(identity(n), events.take(k + 1));
    class_of(after, after[events[k].1 as int])
}

/// `s` gives the figures of event `k`: the size of the merged entity, and
/// the larger of the parent's entity before the event and the set absorbed.
pub open spec fn describes_event(events: Seq<(i64, u32, Set<u32>)>, n: nat, k: int, s: MergeStats) -> bool {
    let before = replay(identity(n), events.take(k));
    let parent_size = class_of(before, before[events[k].1 as int]).len();
    let child_size = events[k].2.len();
    &&& s.merged_size == merged_entity(events, n, k).len()
    &&& s.largest_input_size == if parent_size < child_size {
        child_size
    } else {
        parent_size
    }
}

/// Growth figures of one merge, for detecting chain-shaped inputs.
#[derive(Debug, Clone, Copy)]
pub struct MergeStats {
    /// Records in the merged entity.
    pub merged_size: u64,
    /// Records in the larger of the two entities merged.
    pub largest_input_size: u64,
    /// Serialized size in bytes of the merged entity's bitmap.
    pub merged_bytes: usize,
}

/// Builds merge events from edges given in groups of equal threshold,
/// highest threshold first, with a union-find over the records and one
/// bitmap per multi-record entity.
pub struct HierarchyBuilder {
    uf: UnionFind<VecBackend>,
    active: Vec<Option<RoaringBitmap>>,
    storage: InMemoryStorage,
    pool: BitmapPool,
    last_threshold: Option<i64>,
    done: Ghost<Seq<(i64, Vec<(u32, u32)>)>>,
    marks: Ghost<Seq<int>>,
}

impl HierarchyBuilder {
    /// Representative of every record in the current union-find.
    pub closed spec fn reps(&self) -> Seq<int> {
        self.uf@
    }

    /// Events produced so far.
    pub closed spec fn events(&self) -> Seq<(i64, u32, Set<u32>)> {
        self.storage@
    }

    /// Threshold of the group processed last, if any.
    pub closed spec fn last(&self) -> Option<i64> {
        self.last_threshold
    }

    /// Number of records.
    pub open spec fn num_records(&self) -> nat {
        self.reps().len()
    }

    /// The groups of edges processed so far, in order.
    pub closed spec fn groups(&self) -> Seq<(i64, Vec<(u32, u32)>)> {
        self.done@
    }

    /// The events of each processed group come after those of the groups
    /// before it, and the events up to the end of a group rebuild what that
    /// group and those before it join.
    pub closed spec fn tracks_groups(&self) -> bool {
        let groups = self.done@;
        let marks = self.marks@;
        let events = self.storage@;
        let n = self.uf@.len();
        let g = groups.len();
        &&& forall|a: int, b: int| 0 <= a < b < g ==> (#[trigger] groups[a]).0 > (#[trigger] groups[b]).0
        &&& forall|k: int| 0 <= k < g ==> edges_within((#[trigger] groups[k]).1@, n as int)
        &&& g == 0 ==> self.last_threshold is None
        &&& g > 0 ==> self.last_threshold == Some(groups[g - 1].0)
        &&& marks.len() == g + 1
        &&& marks[0] == 0
        &&& marks[g as int] == events.len()
        &&& forall|a: int| 0 <= a <= g ==> 0 <= #[trigger] marks[a] <= events.len()
        &&& forall|a: int, idx: int|
            #![trigger marks[a], events[idx]]
            0 <= a < g && marks[a] <= idx < events.len() ==> events[idx].0 <= groups[a].0
        &&& forall|a: int, idx: int|
            #![trigger marks[a], events[idx]]
            1 <= a <= g && 0 <= idx < marks[a] ==> events[idx].0 >= groups[a - 1].0
        &&& forall|a: int|
            0 <= a <= g ==> same_partition(
                replay(identity(n), events.take(#[trigger] marks[a])),
                join_all(identity(n), group_pairs(groups.take(a))),
            )
        &&& same_partition(self.uf@, join_all(identity(n), group_pairs(groups)))
    }

    pub closed spec fn wf(&self) -> bool {
        let reps = self.uf@;
        let n = reps.len();
        &&& self.uf.wf()
        &&& canonical(reps)
        &&& n <= max_elements()
        &&& self.active@.len() == n
        &&& self.pool.wf()
        &&& forall|r: int|
            0 <= r < n && reps[r] == r ==> match #[trigger] self.active@[r] {
                Some(b) => bitmap_wf(b) && bitmap_set(b) == class_of(reps, r),
                None => class_of(reps, r) == set![r as u32],
            }
        &&& forall|r: int| 0 <= r < n && reps[r] != r ==> #[trigger] self.active@[r] is None
        &&& events_well_formed(self.storage@, n as int)
        &&& events_absorb_entities(self.storage@, n)
        &&& parents_smallest(self.storage@)
        &&& thresholds_descending(self.storage@)
        &&& same_partition(reps, replay(identity(n), self.storage@))
        &&& match self.last_threshold {
            Some(t) => forall|k: int| 0 <= k < self.storage@.len() ==> (#[trigger] self.storage@[k]).0 >= t,
            None => self.storage@.len() == 0,
        }
    }

    /// A builder over `num_records` singleton records, with a bitmap pool
    /// sized for `num_edges` edges.
    pub fn new(num_records: usize, num_edges: usize) -> (b: Self)
        requires
            num_records <= max_elements(),
        ensures
            b.wf(),
            b.reps() == Seq::new(num_records as nat, |i: int| i),
            b.events() == Seq::<(i64, u32, Set<u32>)>::empty(),
            b.last() is None,
            b.tracks_groups(),
            b.groups() == Seq::<(i64, Vec<(u32, u32)>)>::empty(),
    {
        let uf = UnionFind::new_vec(num_records);
        let mut active: Vec<Option<RoaringBitmap>> = Vec::new();
        let mut i: usize = 0;
        while i < num_records
            invariant
                i <= num_records,
                active@.len() == i,
                forall|j: int| 0 <= j < i ==> #[trigger] active@[j] is None,
            decreases num_records - i,
        {
            active.push(None);
            i = i + 1;
        }
        let b = HierarchyBuilder {
            uf,
            active,
            storage: InMemoryStorage::new(),
            pool: BitmapPool::new_for_scale(num_edges),
            last_threshold: None,
            done: Ghost(Seq::empty()),
            marks: Ghost(Seq::<int>::empty().push(0int)),
        };
        proof {
            let reps = b.uf@;
            b.uf.lemma_canonical();
            assert(reps =~= identity(num_records as nat));
            lemma_same_partition_refl(reps);
            assert forall|r: int| 0 <= r < num_records && reps[r] == r implies match #[trigger] b.active@[r] {
                Some(bm) => bitmap_wf(bm) && bitmap_set(bm) == class_of(reps, r),
                None => class_of(reps, r) == set![r as u32],
            } by {
                assert(class_of(reps, r) =~= set![r as u32]);
            }
            assert(b.storage@.take(0) =~= b.storage@);
            assert(b.done@.take(0) =~= b.done@);
            assert(group_pairs(b.done@) =~= Seq::<(u32, u32)>::empty());
        }
        b
    }

    /// Take the bitmap of the entity rooted at `root`, or a singleton bitmap
    /// of `record` when the entity has a single record.
    fn take_component(&mut self, root: usize, record: u32) -> (b: RoaringBitmap)
        requires
            old(self).pool.wf(),
            (root as int) < old(self).active@.len(),
            (record as int) < old(self).reps().len(),
            old(self).reps()[record as int] == root,
            match old(self).active@[root as int] {
                Some(b) => bitmap_wf(b) && bitmap_set(b) == class_of(old(self).reps(), root as int),
                None => class_of(old(self).reps(), root as int) == set![root as u32],
            },
        ensures
            bitmap_wf(b),
            bitmap_set(b) == class_of(old(self).reps(), root as int),
            final(self).uf == old(self).uf,
            final(self).storage == old(self).storage,
            final(self).last_threshold == old(self).last_threshold,
            final(self).done == old(self).done,
            final(self).marks == old(self).marks,
            final(self).pool.wf(),
            final(self).active@ == old(self).active@.update(root as int, None),
    {
        let taken = self.active[root].take();
        match taken {
            Some(b) => b,
            None => {
                let (mut b, _) = self.pool.get(1);
                bitmap_insert(&mut b, record);
                proof {
                    let reps = old(self).uf@;
                    assert(class_of(reps, root as int).contains(record));
                    assert(record == root as u32);
                    assert(bitmap_set(b) =~= set![record]);
                }
                b
            },
        }
    }

    /// Process one edge of the current group: when its endpoints are in
    /// different entities, merge them and record the event.
    fn process_edge(&mut self, threshold: i64, src: u32, dst: u32) -> (r: Option<MergeStats>)
        requires
            old(self).wf(),
            old(self).last() == Some(threshold),
            (src as int) < old(self).num_records(),
            (dst as int) < old(self).num_records(),
        ensures
            final(self).wf(),
            final(self).last() == Some(threshold),
            final(self).num_records() == old(self).num_records(),
            final(self).events().len() >= old(self).events().len(),
            final(self).events().subrange(0, old(self).events().len() as int) == old(self).events(),
            forall|k: int|
                old(self).events().len() <= k < final(self).events().len() ==> (#[trigger] final(self).events()[k]).0
                    == threshold,
            same_partition(final(self).reps(), join(old(self).reps(), src as int, dst as int)),
            final(self).done == old(self).done,
            final(self).marks == old(self).marks,
            r is None ==> final(self).events() == old(self).events(),
            r matches Some(s) ==> final(self).events().len() == old(self).events().len() + 1 && describes_event(
                final(self).events(),
                final(self).num_records(),
                old(self).events().len() as int,
                s,
            ),
    {
        let ghost reps0 = self.uf@;
        let ghost n = reps0.len();
        let root_src = self.uf.find(src as usize);
        let root_dst = self.uf.find(dst as usize);
        if root_src == root_dst {
            proof {
                assert(self.storage@.subrange(0, self.storage@.len() as int) =~= self.storage@);
                assert(join(reps0, src as int, dst as int) =~= reps0);
                lemma_same_partition_refl(reps0);
            }
            return None;
        }
        let ghost class_src = class_of(reps0, root_src as int);
        let ghost class_dst = class_of(reps0, root_dst as int);
        let ghost active0 = self.active@;
        proof {
            assert(reps0[root_src as int] == root_src);
            assert(reps0[root_dst as int] == root_dst);
        }
        let component_src = self.take_component(root_src, src);
        assert(self.active@[root_dst as int] == active0[root_dst as int]);
        let component_dst = self.take_component(root_dst, dst);
        proof {
            assert(class_src.contains(src));
            assert(class_dst.contains(dst));
        }
        let min_src = match bitmap_min(&component_src) {
            Some(m) => m,
            None => {
                proof {
                    assert(bitmap_set(component_src).contains(src));
                }
                0
            },
        };
        let min_dst = match bitmap_min(&component_dst) {
            Some(m) => m,
            None => {
                proof {
                    assert(bitmap_set(component_dst).contains(dst));
                }
                0
            },
        };
        proof {
            assert(class_src.contains(min_src));
            assert(class_dst.contains(min_dst));
            assert(min_src != min_dst);
        }
        let src_is_parent = min_src < min_dst;
        let parent_id = if src_is_parent { min_src } else { min_dst };
        let child_nodes = if src_is_parent {
            bitmap_clone(&component_dst)
        } else {
            bitmap_clone(&component_src)
        };
        self.uf.union(src as usize, dst as usize);
        let new_root = self.uf.find(src as usize);
        let len_src = bitmap_len(&component_src);
        let len_dst = bitmap_len(&component_dst);
        proof {
            lemma_u32_set_finite(class_src);
            lemma_u32_set_finite(class_dst);
            crate::hierarchy::merge_event::lemma_u32_set_len_bound(class_src);
            crate::hierarchy::merge_event::lemma_u32_set_len_bound(class_dst);
        }
        let total = len_src + len_dst;
        let hint = if total <= 0xffff_ffff { total as u32 } else { (total - 0x1_0000_0000) as u32 };
        let (mut merged, _) = self.pool.get(hint);
        bitmap_union_with(&mut merged, &component_src);
        bitmap_union_with(&mut merged, &component_dst);
        let merged_size = bitmap_len(&merged);
        let merged_bytes = bitmap_serialized_size(&merged);
        let largest = if len_src < len_dst { len_dst } else { len_src };
        let stats = MergeStats { merged_size, largest_input_size: largest, merged_bytes };
        let event = MergeEvent::new(threshold, parent_id, child_nodes);
        let ghost ev = (threshold, parent_id, bitmap_set(child_nodes));
        let ghost storage0 = self.storage@;
        let _ = self.storage.push(event);
        let ghost reps1 = self.uf@;
        let ghost winner = new_root as int;
        self.active.set(new_root, Some(merged));
        proof {
            let loser = if winner == root_src as int { root_dst as int } else { root_src as int };
            assert(reps1 == merged_reps(reps0, root_src as int, root_dst as int, winner));
            assert(winner == root_src || winner == root_dst);
            // the merged entity is the union of the two classes
            assert(class_of(reps1, winner) =~= class_src.union(class_dst));
            assert(bitmap_set(merged) =~= class_src.union(class_dst));
            // classes of untouched roots are unchanged
            assert forall|r: int| 0 <= r < n && reps1[r] == r implies match #[trigger] self.active@[r] {
                Some(b) => bitmap_wf(b) && bitmap_set(b) == class_of(reps1, r),
                None => class_of(reps1, r) == set![r as u32],
            } by {
                if r != winner {
                    assert(reps0[r] == r);
                    assert(r != root_src && r != root_dst);
                    assert(class_of(reps1, r) =~= class_of(reps0, r));
                    assert(self.active@[r] == active0[r]);
                }
            }
            assert forall|r: int| 0 <= r < n && reps1[r] != r implies #[trigger] self.active@[r] is None by {
                if reps0[r] == r {
                    assert(r == loser);
                } else {
                    assert(r != winner);
                }
            }
            // the event
            let child = ev.2;
            if src_is_parent {
                assert(child == class_dst);
            } else {
                assert(child == class_src);
            }
            assert forall|v: u32| #[trigger] child.contains(v) implies parent_id < v && (v as int) < n by {
                if src_is_parent {
                    assert(class_dst.contains(v));
                    assert(min_dst <= v);
                } else {
                    assert(class_src.contains(v));
                    assert(min_src <= v);
                }
            }
            assert(self.storage@ == storage0.push(ev));
            assert(self.storage@.subrange(0, storage0.len() as int) =~= storage0);
            // the union joins the classes of the two endpoints
            lemma_same_partition_refl(reps0);
            lemma_union_step(reps0, reps0, src as int, dst as int, winner);
            // the event absorbs one class into the parent, in the replayed partition too
            let r0 = replay(identity(n), storage0);
            assert(self.storage@.drop_last() =~= storage0);
            assert(replay(identity(n), self.storage@) == absorb(r0, parent_id as int, child));
            let c: u32 = if src_is_parent { dst } else { src };
            assert(child == class_of(reps0, reps0[c as int])) by {
                if src_is_parent {
                    assert(child =~= class_of(reps0, reps0[c as int]));
                } else {
                    assert(child =~= class_of(reps0, reps0[c as int]));
                }
            }
            lemma_absorb_class(reps0, r0, parent_id as int, c);
            // the event absorbs one entity of the replayed partition, not the parent's
            assert(class_of(r0, r0[c as int]) =~= child) by {
                assert forall|v: u32| child.contains(v) == class_of(r0, r0[c as int]).contains(v) by {
                    if (v as int) < n {
                        assert((reps0[v as int] == reps0[c as int]) == (r0[v as int] == r0[c as int]));
                    }
                }
            }
            assert(r0[c as int] != r0[parent_id as int]) by {
                if src_is_parent {
                    assert(class_src.contains(parent_id));
                } else {
                    assert(class_dst.contains(parent_id));
                }
                assert((reps0[c as int] == reps0[parent_id as int]) == (r0[c as int] == r0[parent_id as int]));
            }
            assert forall|w: int| 0 <= w < parent_id implies #[trigger] r0[w] != r0[parent_id as int] by {
                assert((reps0[w] == reps0[parent_id as int]) == (r0[w] == r0[parent_id as int]));
                if reps0[w] == reps0[parent_id as int] {
                    if src_is_parent {
                        assert(class_src.contains(parent_id));
                        assert(class_src.contains(w as u32));
                    } else {
                        assert(class_dst.contains(parent_id));
                        assert(class_dst.contains(w as u32));
                    }
                }
            }
            lemma_replay_length(identity(n), storage0);
            assert(leads(r0, parent_id as int));
            // the figures of the merge
            let after = replay(identity(n), self.storage@.take(storage0.len() as int + 1));
            assert(self.storage@.take(storage0.len() as int + 1) =~= self.storage@);
            assert(self.storage@.take(storage0.len() as int) =~= storage0);
            let parent_class = if src_is_parent { class_src } else { class_dst };
            assert(class_of(r0, r0[parent_id as int]) =~= parent_class) by {
                assert forall|v: u32| parent_class.contains(v) == class_of(r0, r0[parent_id as int]).contains(v) by {
                    if src_is_parent {
                        assert(class_src.contains(parent_id));
                    } else {
                        assert(class_dst.contains(parent_id));
                    }
                    if (v as int) < n {
                        assert((reps0[v as int] == reps0[parent_id as int]) == (r0[v as int] == r0[parent_id as int]));
                    }
                }
            }
            assert(merged_entity(self.storage@, n, storage0.len() as int) =~= class_src.union(class_dst)) by {
                assert(after == join(r0, parent_id as int, c as int));
                assert forall|v: u32| class_src.union(class_dst).contains(v) == class_of(after, after[parent_id as int]).contains(v) by {
                    if src_is_parent {
                        assert(class_src.contains(parent_id));
                    } else {
                        assert(class_dst.contains(parent_id));
                    }
                    if (v as int) < n {
                        assert((reps0[v as int] == reps0[parent_id as int]) == (r0[v as int] == r0[parent_id as int]));
                        assert((reps0[v as int] == reps0[c as int]) == (r0[v as int] == r0[c as int]));
                    }
                }
            }
            assert(class_of(replay(identity(n), self.storage@.take(storage0.len() as int)), replay(identity(n), self.storage@.take(storage0.len() as int))[parent_id as int]) == parent_class);
            assert(self.storage@[storage0.len() as int].2 == child);
            assert(describes_event(self.storage@, n, storage0.len() as int, stats));
            assert forall|k: int| 0 <= k < self.storage@.len() implies #[trigger] absorbs_one_entity(self.storage@, n, k) by {
                if k < storage0.len() {
                    assert(self.storage@.take(k) =~= storage0.take(k));
                    assert(self.storage@[k] == storage0[k]);
                    assert(absorbs_one_entity(storage0, n, k));
                } else {
                    assert(self.storage@.take(k) =~= storage0);
                    assert(self.storage@[k] == ev);
                    assert(class_of(r0, r0[c as int]) == self.storage@[k].2);
                }
            }
            if src_is_parent {
                assert(class_src.contains(parent_id));
            } else {
                assert(class_dst.contains(parent_id));
            }
            lemma_join_congruent(reps0, r0, src as int, dst as int, parent_id as int, c as int);
            lemma_same_partition_trans(reps1, join(reps0, src as int, dst as int), join(r0, parent_id as int, c as int));
            lemma_same_partition_trans(reps0, reps0, reps0);
            assert forall|k: int| 0 <= k < self.storage@.len() implies (#[trigger] self.storage@[k]).0 >= threshold by {
                if k < storage0.len() {
                    assert(storage0[k].0 >= threshold);
                }
            }
            assert forall|a: int, b: int| 0 <= a < b < self.storage@.len() implies (
            #[trigger] self.storage@[a]).0 >= (#[trigger] self.storage@[b]).0 by {
                if b < storage0.len() {
                    assert(storage0[a].0 >= storage0[b].0);
                } else {
                    assert(storage0[a].0 >= threshold);
                }
            }
            assert forall|k: int, v: u32| 0 <= k < self.storage@.len() && #[trigger] self.storage@[k].2.contains(v) implies self.storage@[k].1 < v by {
                if k < storage0.len() {
                    assert(self.storage@[k] == storage0[k]);
                } else {
                    assert(self.storage@[k] == ev);
                }
            }
            assert forall|k: int| 0 <= k < self.storage@.len() implies {
                let e = #[trigger] self.storage@[k];
                &&& (e.1 as int) < n
                &&& forall|v: u32| #[trigger] e.2.contains(v) ==> (v as int) < n
            } by {
                if k < storage0.len() {
                    assert(self.storage@[k] == storage0[k]);
                } else {
                    assert(self.storage@[k] == ev);
                    if src_is_parent {
                        assert(class_src.contains(parent_id));
                    } else {
                        assert(class_dst.contains(parent_id));
                    }
                }
            }
        }
        Some(stats)
    }

    /// Process a group of edges sharing `threshold`, which must be below the
    /// threshold of every earlier group. Returns the figures of each merge
    /// made, one per new event and in the same order.
    pub fn process_group(&mut self, threshold: i64, edges: &Vec<(u32, u32)>) -> (stats: Vec<MergeStats>)
        requires
            old(self).wf(),
            old(self).tracks_groups(),
            old(self).last() matches Some(t) ==> threshold < t,
            forall|k: int|
                0 <= k < edges@.len() ==> (#[trigger] edges@[k]).0 < old(self).num_records()
                    && edges@[k].1 < old(self).num_records(),
        ensures
            final(self).wf(),
            final(self).tracks_groups(),
            final(self).groups() == old(self).groups().push((threshold, *edges)),
            final(self).last() == Some(threshold),
            final(self).num_records() == old(self).num_records(),
            final(self).events().len() >= old(self).events().len(),
            final(self).events().subrange(0, old(self).events().len() as int) == old(self).events(),
            forall|k: int|
                old(self).events().len() <= k < final(self).events().len() ==> (#[trigger] final(self).events()[k]).0
                    == threshold,
            same_partition(final(self).reps(), join_all(old(self).reps(), edges@)),
            stats@.len() == final(self).events().len() - old(self).events().len(),
            forall|i: int|
                0 <= i < stats@.len() ==> describes_event(
                    final(self).events(),
                    final(self).num_records(),
                    old(self).events().len() + i,
                    #[trigger] stats@[i],
                ),
    {
        let ghost events0 = self.storage@;
        let ghost reps0 = self.uf@;
        self.last_threshold = Some(threshold);
        proof {
            assert forall|k: int| 0 <= k < self.storage@.len() implies (#[trigger] self.storage@[k]).0 >= threshold by {
                match old(self).last_threshold {
                    Some(t) => {
                        assert(self.storage@[k].0 >= t);
                    },
                    None => {},
                }
            }
        }
        let mut stats: Vec<MergeStats> = Vec::new();
        let mut i: usize = 0;
        proof {
            assert(edges@.take(0) =~= Seq::<(u32, u32)>::empty());
            lemma_same_partition_refl(reps0);
        }
        while i < edges.len()
            invariant
                self.wf(),
                self.last() == Some(threshold),
                self.num_records() == old(self).num_records(),
                i <= edges@.len(),
                forall|k: int|
                    0 <= k < edges@.len() ==> (#[trigger] edges@[k]).0 < old(self).num_records()
                        && edges@[k].1 < old(self).num_records(),
                self.events().len() >= events0.len(),
                self.events().subrange(0, events0.len() as int) == events0,
                forall|k: int| events0.len() <= k < self.events().len() ==> (#[trigger] self.events()[k]).0 == threshold,
                reps0 == old(self).reps(),
                events0 == old(self).events(),
                self.done == old(self).done,
                self.marks == old(self).marks,
                same_partition(self.reps(), join_all(reps0, edges@.take(i as int))),
                stats@.len() == self.events().len() - events0.len(),
                forall|j: int|
                    0 <= j < stats@.len() ==> describes_event(
                        self.events(),
                        self.num_records(),
                        events0.len() + j,
                        #[trigger] stats@[j],
                    ),
            decreases edges@.len() - i,
        {
            let (src, dst) = edges[i];
            let ghost before = self.events();
            let ghost reps_before = self.reps();
            let ghost stats_before = stats@;
            match self.process_edge(threshold, src, dst) {
                Some(s) => stats.push(s),
                None => {},
            }
            proof {
                assert forall|j: int| 0 <= j < stats@.len() implies describes_event(
                    self.events(),
                    self.num_records(),
                    events0.len() + j,
                    #[trigger] stats@[j],
                ) by {
                    if j < stats_before.len() {
                        assert(stats@[j] == stats_before[j]);
                        lemma_describes_prefix(before, self.events(), self.num_records(), events0.len() + j, stats@[j]);
                    }
                }
                assert(self.events().subrange(0, events0.len() as int) =~= self.events().subrange(
                    0,
                    before.len() as int,
                ).subrange(0, events0.len() as int));
                assert forall|k: int| events0.len() <= k < self.events().len() implies (#[trigger] self.events()[k]).0
                    == threshold by {
                    if k < before.len() {
                        assert(self.events().subrange(0, before.len() as int)[k] == before[k]);
                    }
                }
                let prefix = edges@.take(i as int);
                let j0 = join_all(reps0, prefix);
                assert(edges@.take(i + 1).drop_last() =~= prefix);
                assert(edges@.take(i + 1).last() == (src, dst));
                lemma_join_all_len(reps0, prefix);
                lemma_join_congruent(reps_before, j0, src as int, dst as int, src as int, dst as int);
                lemma_same_partition_trans(self.reps(), join(reps_before, src as int, dst as int), join(j0, src as int, dst as int));
            }
            i = i + 1;
        }
        proof {
            assert(edges@.take(edges@.len() as int) =~= edges@);
        }
        let ghost groups0 = self.done@;
        let ghost marks0 = self.marks@;
        self.done = Ghost(self.done@.push((threshold, *edges)));
        self.marks = Ghost(self.marks@.push(self.storage@.len() as int));
        proof {
            assert(self.done@.drop_last() =~= groups0);
            self.lemma_tracks_next_group(old(self), threshold, edges@, groups0, marks0, events0, reps0);
        }
        stats
    }

    /// After a group is processed and recorded, the events still follow the groups.
    proof fn lemma_tracks_next_group(
        &self,
        before: &Self,
        threshold: i64,
        pairs: Seq<(u32, u32)>,
        groups0: Seq<(i64, Vec<(u32, u32)>)>,
        marks0: Seq<int>,
        events0: Seq<(i64, u32, Set<u32>)>,
        reps0: Seq<int>,
    )
        requires
            before.wf(),
            before.tracks_groups(),
            self.wf(),
            groups0 == before.done@,
            marks0 == before.marks@,
            events0 == before.storage@,
            reps0 == before.uf@,
            before.last() matches Some(t) ==> threshold < t,
            edges_within(pairs, reps0.len() as int),
            self.uf@.len() == reps0.len(),
            self.last_threshold == Some(threshold),
            self.done@.len() == groups0.len() + 1,
            self.done@.drop_last() == groups0,
            self.done@.last().0 == threshold,
            self.done@.last().1@ == pairs,
            self.marks@ == marks0.push(self.storage@.len() as int),
            self.storage@.len() >= events0.len(),
            self.storage@.subrange(0, events0.len() as int) == events0,
            forall|k: int| events0.len() <= k < self.storage@.len() ==> (#[trigger] self.storage@[k]).0 == threshold,
            same_partition(self.uf@, join_all(reps0, pairs)),
        ensures
            self.tracks_groups(),
    {
        let n = reps0.len();
        let g = groups0.len() as int;
        let groups1 = self.done@;
        let marks1 = self.marks@;
        let events1 = self.storage@;
        assert forall|m: int| 0 <= m < events0.len() implies #[trigger] events1[m] == events0[m] by {
            assert(events1.subrange(0, events0.len() as int)[m] == events0[m]);
        }
        assert forall|k: int| 0 <= k < g implies #[trigger] groups1[k] == groups0[k] by {
            assert(groups1.drop_last()[k] == groups1[k]);
        }
        // earlier groups lie above the new threshold
        assert forall|a: int| 0 <= a < g implies (#[trigger] groups0[a]).0 > threshold by {
            assert(before.last_threshold == Some(groups0[g - 1].0));
            if a < g - 1 {
                assert(groups0[a].0 > groups0[g - 1].0);
            }
        }
        assert forall|a: int, b: int| 0 <= a < b < g + 1 implies (#[trigger] groups1[a]).0 > (#[trigger] groups1[b]).0 by {
            if b == g {
                assert(groups1[a] == groups0[a]);
            } else {
                assert(groups1[a] == groups0[a]);
                assert(groups1[b] == groups0[b]);
            }
        }
        assert forall|k: int| 0 <= k < g + 1 implies edges_within((#[trigger] groups1[k]).1@, n as int) by {
            if k < g {
                assert(groups1[k] == groups0[k]);
            }
        }
        assert forall|a: int, idx: int|
            #![trigger marks1[a], events1[idx]]
            0 <= a < g + 1 && marks1[a] <= idx < events1.len() implies events1[idx].0 <= groups1[a].0 by {
            if a < g {
                assert(marks1[a] == marks0[a]);
                assert(groups1[a] == groups0[a]);
                if idx < events0.len() {
                    assert(events1[idx] == events0[idx]);
                    assert(marks0[a] <= idx < events0.len());
                } else {
                    assert(groups0[a].0 > threshold);
                }
            } else {
                assert(marks1[a] == marks0[g]);
            }
        }
        assert forall|a: int, idx: int|
            #![trigger marks1[a], events1[idx]]
            1 <= a <= g + 1 && 0 <= idx < marks1[a] implies events1[idx].0 >= groups1[a - 1].0 by {
            if a <= g {
                assert(marks1[a] == marks0[a]);
                assert(events1[idx] == events0[idx]);
                assert(0 <= idx < marks0[a]);
                assert(groups1[a - 1] == groups0[a - 1]);
            } else if idx < events0.len() {
                assert(events1[idx] == events0[idx]);
                assert(g >= 1);
                assert(0 <= idx < marks0[g]);
                assert(events0[idx].0 >= groups0[g - 1].0);
                assert(groups0[g - 1].0 > threshold);
            } else {
                assert(events1[idx].0 == threshold);
            }
        }
        // the partition of the new group
        let gp = group_pairs(groups0);
        let j0 = join_all(identity(n), gp);
        assert(groups1.take(g + 1) =~= groups1);
        assert(group_pairs(groups1) == gp + pairs);
        lemma_join_all_len(identity(n), gp);
        lemma_join_all_congruent(reps0, j0, pairs);
        lemma_join_all_append(identity(n), gp, pairs);
        lemma_same_partition_trans(self.uf@, join_all(reps0, pairs), join_all(j0, pairs));
        assert(events1.take(events1.len() as int) =~= events1);
        lemma_same_partition_sym(self.uf@, replay(identity(n), events1));
        lemma_same_partition_trans(replay(identity(n), events1), self.uf@, join_all(identity(n), group_pairs(groups1)));
        assert forall|a: int|
            0 <= a <= g + 1 implies same_partition(
                replay(identity(n), events1.take(#[trigger] marks1[a])),
                join_all(identity(n), group_pairs(groups1.take(a))),
            ) by {
            if a <= g {
                assert(marks1[a] == marks0[a]);
                assert(events1.take(marks0[a]) =~= events0.take(marks0[a]));
                assert(groups1.take(a) =~= groups0.take(a));
            }
        }
        assert forall|a: int| 0 <= a <= g + 1 implies 0 <= #[trigger] marks1[a] <= events1.len() by {
            if a <= g {
                assert(marks1[a] == marks0[a]);
            }
        }
    }

    /// Return the remaining entity bitmaps to the pool and hand over the
    /// events. At every threshold `t`, the events at or above `t` put
    /// together exactly the records that the processed edges at or above `t`
    /// connect.
    pub fn finish(self) -> (h: PartitionHierarchy)
        requires
            self.wf(),
            self.tracks_groups(),
        ensures
            forall|t: i64|
                same_partition(
                    #[trigger] partition_at(h.events(), h.records(), t),
                    components_at(flatten_groups(self.groups()), h.records(), t),
                ),
            forall|t: i64|
                cut(h.events(), t) + entity_count(#[trigger] components_at(flatten_groups(self.groups()), h.records(), t))
                    == h.records(),
            h.wf(),
            h.records() == self.num_records(),
            h.events() == self.events(),
            thresholds_descending(h.events()),
            parents_smallest(h.events()),
            events_absorb_entities(h.events(), h.records()),
    {
        let HierarchyBuilder { uf, active, storage, pool, last_threshold, done, marks } = self;
        let mut pool = pool;
        let mut storage = storage;
        let mut active = active;
        let mut i: usize = 0;
        let n = active.len();
        while i < n
            invariant
                i <= n,
                pool.wf(),
                active@.len() == n,
            decreases n - i,
        {
            let taken = active[i].take();
            match taken {
                Some(b) => pool.put(b, PoolSizeClass::Small),
                None => {},
            }
            i = i + 1;
        }
        let _ = storage.sync();
        proof {
            uf.lemma_canonical();
            let n = uf@.len();
            assert forall|t: i64| same_partition(
                #[trigger] partition_at(storage@, n, t),
                components_at(flatten_groups(done@), n, t),
            ) by {
                lemma_group_components(storage@, done@, marks@, n, t);
            }
            lemma_event_counts(storage@, flatten_groups(done@), n);
        }
        PartitionHierarchy { num_records: n, storage, bitmap_pool: pool }
    }
}

/// Merge events of a set of records, from which the partition at any
/// threshold is rebuilt.
pub struct PartitionHierarchy {
    num_records: usize,
    storage: InMemoryStorage,
    bitmap_pool: BitmapPool,
}

impl PartitionHierarchy {
    /// The events, in the order they were made.
    pub closed spec fn events(&self) -> Seq<(i64, u32, Set<u32>)> {
        self.storage@
    }

    /// Number of records.
    pub closed spec fn records(&self) -> nat {
        self.num_records as nat
    }

    pub closed spec fn wf(&self) -> bool {
        &&& self.num_records <= max_elements()
        &&& events_well_formed(self.storage@, self.num_records as int)
        &&& self.bitmap_pool.wf()
    }

    /// No events over `num_records` records.
    fn empty(num_records: usize) -> (h: Self)
        requires
            num_records <= max_elements(),
        ensures
            h.wf(),
            h.records() == num_records,
            h.events() == Seq::<(i64, u32, Set<u32>)>::empty(),
    {
        PartitionHierarchy { num_records, storage: InMemoryStorage::new(), bitmap_pool: BitmapPool::new() }
    }

    /// The hierarchy of `edges` (source, target, threshold) over
    /// `num_records` records: edges are taken highest threshold first, in
    /// input order within a threshold, and every edge joining two entities
    /// records one merge event, at the edge's threshold, whose parent is the
    /// smallest record of the merged entity and whose children are the
    /// records of the other entity. At every threshold `t`, the events at or
    /// above `t` put together exactly the records that edges at or above `t`
    /// connect, and number the records less the components those edges leave.
    pub fn from_edges(edges: Vec<(u32, u32, i64)>, num_records: usize) -> (h: Self)
        requires
            num_records <= max_elements(),
            forall|k: int| 0 <= k < edges@.len() ==> (#[trigger] edges@[k]).0 < num_records && edges@[k].1 < num_records,
        ensures
            h.wf(),
            h.records() == num_records,
            events_well_formed(h.events(), num_records as int),
            thresholds_descending(h.events()),
            parents_smallest(h.events()),
            events_absorb_entities(h.events(), num_records as nat),
            forall|k: int| 0 <= k < h.events().len() ==> is_edge_weight(edges@, #[trigger] h.events()[k].0),
            forall|t: i64|
                same_partition(
                    #[trigger] partition_at(h.events(), num_records as nat, t),
                    components_at(edges@, num_records as nat, t),
                ),
            forall|t: i64|
                cut(h.events(), t) + entity_count(#[trigger] components_at(edges@, num_records as nat, t))
                    == num_records,
            h.events().len() + entity_count(components_at(edges@, num_records as nat, i64::MIN)) == num_records,
    {
        let ghost n = num_records as nat;
        if edges.len() == 0 {
            let h = Self::empty(num_records);
            proof {
                assert forall|t: i64| same_partition(
                    #[trigger] partition_at(h.events(), n, t),
                    components_at(edges@, n, t),
                ) by {
                    let pred = |e: (u32, u32, i64)| e.2 >= t;
                    edges@.lemma_filter_len(pred);
                    assert(pairs_at_or_above(edges@, t) =~= Seq::<(u32, u32)>::empty());
                    assert(h.events().take(cut(h.events(), t) as int) =~= h.events());
                    lemma_same_partition_refl(identity(n));
                }
                lemma_event_counts(h.events(), edges@, n);
            }
            return h;
        }
        let num_edges = edges.len();
        let sorted = sort_edges_descending(&edges);
        let ghost order = choose|order: Seq<usize>| {
            &&& holds_range(order, 0, edges@.len() as int)
            &&& sorted_positions(edges@.map_values(|e: (u32, u32, i64)| e.2), order)
            &&& forall|k: int| 0 <= k < sorted@.len() ==> #[trigger] sorted@[k] == edges@[order[k] as int]
        };
        proof {
            assert forall|k: int| 0 <= k < sorted@.len() implies (#[trigger] sorted@[k]).0 < num_records
                && sorted@[k].1 < num_records by {
                assert(order.contains(order[k]));
                assert(sorted@[k] == edges@[order[k] as int]);
            }
        }
        let groups = group_edges_by_threshold(&sorted);
        let mut builder = HierarchyBuilder::new(num_records, num_edges);
        let mut g: usize = 0;
        proof {
            assert(groups@.take(0) =~= Seq::<(i64, Vec<(u32, u32)>)>::empty());
        }
        while g < groups.len()
            invariant
                g <= groups@.len(),
                builder.wf(),
                builder.num_records() == num_records,
                n == num_records,
                num_records <= max_elements(),
                flatten_groups(groups@) == sorted@,
                forall|k: int| 0 <= k < sorted@.len() ==> (#[trigger] sorted@[k]).0 < num_records && sorted@[k].1 < num_records,
                forall|a: int, b: int| 0 <= a < b < groups@.len() ==> (#[trigger] groups@[a]).0 > (#[trigger] groups@[b]).0,
                g == 0 ==> builder.last() is None,
                g > 0 ==> builder.last() == Some(groups@[g - 1].0),
                builder.tracks_groups(),
                builder.groups() == groups@.take(g as int),
                forall|idx: int|
                    0 <= idx < builder.events().len() ==> is_group_threshold(
                        groups@,
                        g as int,
                        #[trigger] builder.events()[idx].0,
                    ),
            decreases groups@.len() - g,
        {
            let threshold = groups[g].0;
            proof {
                lemma_group_edges_in_range(groups@, g as int, num_records as int);
            }
            let ghost events0 = builder.events();
            let _ = builder.process_group(threshold, &groups[g].1);
            proof {
                assert(groups@.take(g + 1) =~= groups@.take(g as int).push((threshold, groups@[g as int].1)));
                let events1 = builder.events();
                assert forall|m: int| 0 <= m < events0.len() implies #[trigger] events1[m] == events0[m] by {
                    assert(events1.subrange(0, events0.len() as int)[m] == events0[m]);
                }
                assert forall|idx: int| 0 <= idx < events1.len() implies is_group_threshold(
                    groups@,
                    g + 1,
                    #[trigger] events1[idx].0,
                ) by {
                    if idx < events0.len() {
                        assert(events1[idx] == events0[idx]);
                        assert(is_group_threshold(groups@, g as int, events0[idx].0));
                        let a = choose|a: int| 0 <= a < g && #[trigger] groups@[a].0 == events0[idx].0;
                        assert(groups@[a].0 == events1[idx].0);
                    } else {
                        assert(groups@[g as int].0 == events1[idx].0);
                    }
                }
            }
            g = g + 1;
        }
        let h = builder.finish();
        proof {
            assert(groups@.take(groups@.len() as int) =~= groups@);
            assert forall|t: i64| same_partition(
                #[trigger] partition_at(h.events(), n, t),
                components_at(edges@, n, t),
            ) by {
                lemma_sorted_components(edges@, sorted@, order, n, t);
                lemma_same_partition_trans(
                    partition_at(h.events(), n, t),
                    components_at(sorted@, n, t),
                    components_at(edges@, n, t),
                );
            }
            lemma_event_counts(h.events(), edges@, n);
            assert forall|k: int| 0 <= k < h.events().len() implies is_edge_weight(edges@, #[trigger] h.events()[k].0) by {
                lemma_group_threshold_is_weight(groups@, sorted@, edges@, order, h.events()[k].0);
            }
        }
        h
    }

    /// Number of records.
    pub fn num_records(&self) -> (n: usize)
        ensures
            n == self.records(),
    {
        self.num_records
    }

    /// Number of merge events.
    pub fn merge_events_count(&self) -> (n: usize)
        ensures
            n == self.events().len(),
    {
        self.storage.len()
    }

    /// The storage of the merge events.
    pub fn storage(&self) -> (s: &InMemoryStorage)
        ensures
            s@ == self.events(),
    {
        &self.storage
    }

    /// Copies of all merge events, in order.
    pub fn get_merge_events(&self) -> (v: Vec<MergeEvent>)
        ensures
            events_view(v@) == self.events(),
            bitmaps_wf(v@),
    {
        match self.storage.iter() {
            Ok(v) => v,
            Err(_) => {
                proof {
                    assert(false);
                }
                Vec::new()
            },
        }
    }

    /// A hierarchy holding `merge_events` over `num_records` records.
    pub fn from_merge_events(merge_events: Vec<MergeEvent>, num_records: usize) -> (h: Self)
        requires
            num_records <= max_elements(),
            bitmaps_wf(merge_events@),
            events_well_formed(events_view(merge_events@), num_records as int),
        ensures
            h.wf(),
            h.records() == num_records,
            h.events() == events_view(merge_events@),
    {
        let storage = InMemoryStorage::from_events(merge_events);
        PartitionHierarchy { num_records, storage, bitmap_pool: BitmapPool::new() }
    }
}

impl PartitionHierarchy {
    /// Apply, in order, the events whose threshold is at least `threshold`
    /// (stopping at the first one below it), then read off the entities.
    fn apply_merges_to_union_find<B: UnionFindBackend>(
        &self,
        uf: &mut UnionFind<B>,
        threshold: i64,
    ) -> (p: PartitionLevel)
        requires
            self.wf(),
            old(uf).wf(),
            old(uf)@ == identity(self.records()),
        ensures
            p.threshold_spec() == threshold,
            sets_are_classes(p.entity_sets(), partition_at(self.events(), self.records(), threshold)),
    {
        let events = self.get_merge_events();
        let n = self.num_records;
        let ghost evs = self.events();
        let ghost base = identity(n as nat);
        proof {
            assert(evs.take(0) =~= Seq::<(i64, u32, Set<u32>)>::empty());
            lemma_same_partition_refl(base);
        }
        let mut k: usize = 0;
        while k < events.len() && events[k].threshold >= threshold
            invariant
                self.wf(),
                n == self.records(),
                evs == self.events(),
                events_view(events@) == evs,
                bitmaps_wf(events@),
                base == identity(n as nat),
                k <= events@.len(),
                uf.wf(),
                uf@.len() == n,
                forall|m: int| 0 <= m < k ==> (#[trigger] evs[m]).0 >= threshold,
                same_partition(uf@, replay(base, evs.take(k as int))),
            decreases events@.len() - k,
        {
            let ghost before = replay(base, evs.take(k as int));
            proof {
                assert(evs[k as int] == event_view(events@[k as int]));
                let e = evs[k as int];
                assert forall|x: u32| #[trigger] e.2.contains(x) implies (x as int) < uf@.len() by {}
                lemma_replay_step(base, evs, k as int);
            }
            apply_event(uf, events[k].parent_id, &events[k].child_nodes, Ghost(before));
            k = k + 1;
        }
        proof {
            lemma_cut_exact(evs, threshold, k as int);
        }
        let comps = uf.get_all_components();
        proof {
            uf.lemma_canonical();
        }
        let entities = components_to_bitmaps(&comps, Ghost(uf@));
        let p = PartitionLevel::new(threshold, entities);
        proof {
            assert(p.entity_sets() =~= bitmap_sets(entities@));
            lemma_classes_transfer(p.entity_sets(), uf@, partition_at(evs, n as nat, threshold));
        }
        p
    }

    /// The partition at `threshold` (in millionths, within `0..=1_000_000`):
    /// the entities are exactly the classes of the records once the events
    /// at or above the threshold are applied. Large record counts use a
    /// memory-mapped union-find, and the in-memory one when the mapping
    /// cannot be made.
    pub fn at_threshold(&self, threshold: i64) -> (p: Arc<PartitionLevel>)
        requires
            self.wf(),
            0 <= threshold <= 1_000_000,
        ensures
            p.threshold_spec() == threshold,
            sets_are_classes(p.entity_sets(), partition_at(self.events(), self.records(), threshold)),
    {
        let partition = match self.reconstruct_at_threshold(threshold) {
            Ok(p) => p,
            Err(_) => {
                let mut uf = UnionFind::new_vec(self.num_records);
                self.apply_merges_to_union_find(&mut uf, threshold)
            },
        };
        Arc::new(partition)
    }

    /// Whether a union-find over `n` records is estimated, at 64 bytes per
    /// record, to take over 100 MB, and is then kept in a memory mapping.
    pub open spec fn needs_mapping(n: nat) -> bool {
        n > usize::MAX / 64 || (n * 64) / (1024 * 1024) > 100
    }

    /// The partition at `threshold`, with the union-find chosen by the
    /// estimated memory (64 bytes per record; over 100 MB is mapped).
    fn reconstruct_at_threshold(&self, threshold: i64) -> (r: Result<PartitionLevel, String>)
        requires
            self.wf(),
        ensures
            !Self::needs_mapping(self.records()) ==> r is Ok,
            r matches Ok(p) ==> p.threshold_spec() == threshold && sets_are_classes(
                p.entity_sets(),
                partition_at(self.events(), self.records(), threshold),
            ),
    {
        let num_records = self.num_records;
        let large = num_records > usize::MAX / 64 || (num_records * 64) / (1024 * 1024) > 100;
        self.reconstruct_with_backend(threshold, large)
    }

    /// The partition at `threshold` with a memory-mapped union-find when
    /// `use_mmap` holds; fails only when the mapping cannot be made, and
    /// always when the mapping's five bytes per record would not fit a `usize`.
    pub fn reconstruct_with_backend(&self, threshold: i64, use_mmap: bool) -> (r: Result<PartitionLevel, String>)
        requires
            self.wf(),
        ensures
            !use_mmap ==> r is Ok,
            use_mmap && self.records() > usize::MAX / 5 ==> r is Err,
            r matches Ok(p) ==> p.threshold_spec() == threshold && sets_are_classes(
                p.entity_sets(),
                partition_at(self.events(), self.records(), threshold),
            ),
    {
        let num_records = self.num_records;
        if use_mmap {
            if num_records > usize::MAX / 5 {
                return Err(mapping_too_large_message(num_records));
            }
            match UnionFind::new_mmap(num_records) {
                Ok(uf) => {
                    let mut uf = uf;
                    Ok(self.apply_merges_to_union_find(&mut uf, threshold))
                },
                Err(e) => Err(mapping_failed_message(e)),
            }
        } else {
            let mut uf = UnionFind::new_vec(num_records);
            Ok(self.apply_merges_to_union_find(&mut uf, threshold))
        }
    }

    /// The events below `from_threshold` and at or above `to_threshold`
    /// (exclusive of the start, inclusive of the end), in order, scanning
    /// from the first event below `from_threshold` and stopping at the first
    /// below `to_threshold`.
    pub fn get_merge_events_between(&self, from_threshold: i64, to_threshold: i64) -> (r: Result<Vec<MergeEvent>, String>)
        requires
            from_threshold >= to_threshold,
        ensures
            r matches Ok(v) && events_view(v@) == events_between(self.events(), from_threshold, to_threshold),
            thresholds_descending(self.events()) ==> (r matches Ok(v) && events_view(v@) == self.events().filter(
                in_range(from_threshold, to_threshold),
            )),
    {
        let ghost evs = self.events();
        proof {
            if thresholds_descending(evs) {
                lemma_between_is_range(evs, from_threshold, to_threshold);
            }
        }
        let n = self.storage.len();
        let mut out: Vec<MergeEvent> = Vec::new();
        let mut i: usize = 0;
        while i < n
            invariant
                i <= n,
                n == evs.len(),
                evs == self.events(),
                events_view(out@) == events_between(evs.take(i as int), from_threshold, to_threshold),
                scan_state(evs.take(i as int), from_threshold, to_threshold) == ScanState::Scanning,
                thresholds_descending(evs) ==> events_between(evs, from_threshold, to_threshold) == evs.filter(
                    in_range(from_threshold, to_threshold),
                ),
            decreases n - i,
        {
            let merge = match self.storage.get(i) {
                Ok(Some(m)) => m,
                _ => {
                    proof {
                        assert(false);
                    }
                    return Ok(out);
                },
            };
            proof {
                lemma_between_step(evs, i as int, from_threshold, to_threshold);
            }
            if merge.threshold >= from_threshold {
                i = i + 1;
                continue;
            }
            if merge.threshold >= to_threshold {
                let copy = merge.duplicate();
                let ghost before_out = out@;
                out.push(copy);
                proof {
                    assert(events_view(out@) =~= events_view(before_out).push(event_view(copy)));
                }
            } else {
                proof {
                    lemma_between_stops(evs, i as int, from_threshold, to_threshold);
                }
                return Ok(out);
            }
            i = i + 1;
        }
        proof {
            assert(evs.take(n as int) =~= evs);
        }
        Ok(out)
    }
}

impl PartitionHierarchy {
    /// Partitions at each of `thresholds`, built incrementally from the
    /// highest threshold down and returned in the order given.
    pub fn build_partitions_incrementally(&self, thresholds: &[i64]) -> (v: Vec<Arc<PartitionLevel>>)
        requires
            self.wf(),
            thresholds_descending(self.events()),
        ensures
            v@.len() == thresholds@.len(),
            forall|i: int|
                0 <= i < v@.len() ==> (#[trigger] v@[i]).threshold_spec() == thresholds@[i]
                    && sets_are_classes(v@[i].entity_sets(), partition_at(self.events(), self.records(), thresholds@[i])),
    {
        let mut builder = IncrementalPartitionBuilder::new(self.num_records);
        match builder.build_multiple(thresholds, &self.storage) {
            Ok(v) => v,
            Err(_) => {
                proof {
                    assert(false);
                }
                Vec::new()
            },
        }
    }
}

/// Where a scan for the events between two thresholds stands.
pub enum ScanState {
    Scanning,
    Stopped,
}

/// State of the scan after the given events.
pub open spec fn scan_state(events: Seq<(i64, u32, Set<u32>)>, from: i64, to: i64) -> ScanState
    decreases events.len(),
{
    if events.len() == 0 {
        ScanState::Scanning
    } else {
        match scan_state(events.drop_last(), from, to) {
            ScanState::Stopped => ScanState::Stopped,
            ScanState::Scanning => {
                let t = events.last().0;
                if t >= from || t >= to {
                    ScanState::Scanning
                } else {
                    ScanState::Stopped
                }
            },
        }
    }
}

/// The events a scan collects: below `from`, at or above `to`, up to the
/// first event (below `from`) under `to`.
pub open spec fn events_between(events: Seq<(i64, u32, Set<u32>)>, from: i64, to: i64) -> Seq<(i64, u32, Set<u32>)>
    decreases events.len(),
{
    if events.len() == 0 {
        Seq::empty()
    } else {
        let prior = events_between(events.drop_last(), from, to);
        match scan_state(events.drop_last(), from, to) {
            ScanState::Stopped => prior,
            ScanState::Scanning => {
                let e = events.last();
                if e.0 >= from {
                    prior
                } else if e.0 >= to {
                    prior.push(e)
                } else {
                    prior
                }
            },
        }
    }
}

/// Whether an event's threshold is below `from` and at or above `to`.
pub open spec fn in_range(from: i64, to: i64) -> spec_fn((i64, u32, Set<u32>)) -> bool {
    |e: (i64, u32, Set<u32>)| to <= e.0 && e.0 < from
}

/// On events whose thresholds never rise, the scan collects exactly those
/// below `from` and at or above `to`.
pub proof fn lemma_between_is_range(evs: Seq<(i64, u32, Set<u32>)>, from: i64, to: i64)
    requires
        thresholds_descending(evs),
    ensures
        events_between(evs, from, to) == evs.filter(in_range(from, to)),
        scan_state(evs, from, to) == ScanState::Stopped ==> evs.len() > 0 && evs.last().0 < to,
    decreases evs.len(),
{
    if evs.len() > 0 {
        let d = evs.drop_last();
        assert forall|a: int, b: int| 0 <= a < b < d.len() implies (#[trigger] d[a]).0 >= (#[trigger] d[b]).0 by {
            assert(evs[a].0 >= evs[b].0);
        }
        lemma_between_is_range(d, from, to);
        if d.len() > 0 {
            assert(evs[d.len() - 1].0 >= evs[evs.len() - 1].0);
        }
        let p = in_range(from, to);
        let e = evs.last();
        reveal(Seq::filter);
        assert(evs.filter(p) == if p(e) {
            d.filter(p).push(e)
        } else {
            d.filter(p)
        });
        match scan_state(d, from, to) {
            ScanState::Stopped => {
                assert(!p(e));
            },
            ScanState::Scanning => {
                if e.0 >= from {
                    assert(!p(e));
                } else if e.0 >= to {
                    assert(p(e));
                } else {
                    assert(!p(e));
                }
            },
        }
    } else {
        reveal(Seq::filter);
        assert(evs.filter(in_range(from, to)) =~= Seq::<(i64, u32, Set<u32>)>::empty());
    }
}

proof fn lemma_between_step(evs: Seq<(i64, u32, Set<u32>)>, i: int, from: i64, to: i64)
    requires
        0 <= i < evs.len(),
    ensures
        evs.take(i + 1).drop_last() == evs.take(i),
        evs.take(i + 1).last() == evs[i],
{
    assert(evs.take(i + 1).drop_last() =~= evs.take(i));
}

/// Once the scan stops, nothing more is collected.
proof fn lemma_between_stops(evs: Seq<(i64, u32, Set<u32>)>, i: int, from: i64, to: i64)
    requires
        0 <= i < evs.len(),
        scan_state(evs.take(i), from, to) == ScanState::Scanning,
        evs[i].0 < from,
        evs[i].0 < to,
    ensures
        events_between(evs, from, to) == events_between(evs.take(i), from, to),
{
    lemma_between_step(evs, i, from, to);
    assert(scan_state(evs.take(i + 1), from, to) == ScanState::Stopped);
    assert(events_between(evs.take(i + 1), from, to) == events_between(evs.take(i), from, to));
    lemma_between_frozen(evs, i + 1, from, to);
}

/// After the scan has stopped at a prefix, the whole list collects what the prefix did.
proof fn lemma_between_frozen(evs: Seq<(i64, u32, Set<u32>)>, i: int, from: i64, to: i64)
    requires
        0 <= i <= evs.len(),
        scan_state(evs.take(i), from, to) == ScanState::Stopped,
    ensures
        events_between(evs, from, to) == events_between(evs.take(i), from, to),
        scan_state(evs, from, to) == ScanState::Stopped,
    decreases evs.len() - i,
{
    if i == evs.len() {
        assert(evs.take(i) =~= evs);
    } else {
        lemma_between_step(evs, i, from, to);
        lemma_between_frozen(evs, i + 1, from, to);
    }
}

/// The number of leading events at or above `t`, when the first `k` are
/// and the next one (if any) is not.
pub(crate) proof fn lemma_cut_exact(events: Seq<(i64, u32, Set<u32>)>, t: i64, k: int)
    requires
        0 <= k <= events.len(),
        forall|m: int| 0 <= m < k ==> (#[trigger] events[m]).0 >= t,
        k == events.len() || events[k].0 < t,
    ensures
        cut(events, t) == k,
    decreases k,
{
    if k > 0 {
        let rest = events.drop_first();
        assert forall|m: int| 0 <= m < k - 1 implies (#[trigger] rest[m]).0 >= t by {
            assert(rest[m] == events[m + 1]);
        }
        if k < events.len() {
            assert(rest[k - 1] == events[k]);
        }
        lemma_cut_exact(rest, t, k - 1);
    }
}

/// Replaying one more event absorbs it.
pub(crate) proof fn lemma_replay_step(base: Seq<int>, events: Seq<(i64, u32, Set<u32>)>, k: int)
    requires
        0 <= k < events.len(),
    ensures
        replay(base, events.take(k + 1)) == absorb(replay(base, events.take(k)), events[k].1 as int, events[k].2),
{
    assert(events.take(k + 1).drop_last() =~= events.take(k));
}

/// Unite `parent` with each absorbed record in turn.
pub(crate) fn apply_event<B: UnionFindBackend>(uf: &mut UnionFind<B>, parent: u32, child: &RoaringBitmap, Ghost(base): Ghost<Seq<int>>)
    requires
        old(uf).wf(),
        bitmap_wf(*child),
        same_partition(old(uf)@, base),
        (parent as int) < old(uf)@.len(),
        forall|x: u32| #[trigger] bitmap_set(*child).contains(x) ==> (x as int) < old(uf)@.len(),
    ensures
        final(uf).wf(),
        final(uf)@.len() == old(uf)@.len(),
        same_partition(final(uf)@, absorb(base, parent as int, bitmap_set(*child))),
{
    let vals = bitmap_values(child);
    let ghost s = bitmap_set(*child);
    let ghost p = parent as int;
    proof {
        lemma_absorb_empty(base, p);
        assert(vals@.subrange(0, 0).to_set() =~= Set::<u32>::empty());
    }
    let mut j: usize = 0;
    while j < vals.len()
        invariant
            j <= vals@.len(),
            uf.wf(),
            uf@.len() == old(uf)@.len(),
            base.len() == uf@.len(),
            0 <= p < uf@.len(),
            p == parent as int,
            vals@.to_set() == s,
            forall|x: u32| #[trigger] s.contains(x) ==> (x as int) < uf@.len(),
            same_partition(uf@, absorb(base, p, vals@.subrange(0, j as int).to_set())),
        decreases vals@.len() - j,
    {
        let c = vals[j];
        let ghost u = uf@;
        let ghost sj = vals@.subrange(0, j as int).to_set();
        proof {
            assert(vals@.to_set().contains(c));
            let pre = vals@.subrange(0, j as int);
            assert forall|x: u32| #[trigger] sj.contains(x) implies (x as int) < base.len() by {
                let w = choose|w: int| 0 <= w < pre.len() && #[trigger] pre[w] == x;
                assert(vals@[w] == x);
                assert(vals@.to_set().contains(x));
            }
        }
        let ghost winner = uf.union_winner(u[p], u[c as int]);
        uf.union(parent as usize, c as usize);
        proof {
            lemma_union_step(u, absorb(base, p, sj), p, c as int, winner);
            lemma_absorb_insert(base, p, sj, c);
            let full = vals@.subrange(0, j + 1);
            let pre = vals@.subrange(0, j as int);
            assert(full =~= pre.push(c));
            assert(full.to_set() =~= sj.insert(c)) by {
                assert forall|x: u32| #[trigger] full.to_set().contains(x) == sj.insert(c).contains(x) by {
                    if full.contains(x) {
                        let w = choose|w: int| 0 <= w < full.len() && #[trigger] full[w] == x;
                        if w < j {
                            assert(pre[w] == x);
                        }
                    }
                    if pre.contains(x) {
                        let w = choose|w: int| 0 <= w < pre.len() && #[trigger] pre[w] == x;
                        assert(full[w] == x);
                    }
                    if x == c {
                        assert(full[j as int] == x);
                    }
                }
            }
        }
        j = j + 1;
    }
    proof {
        assert(vals@.subrange(0, vals@.len() as int) =~= vals@);
    }
}

/// One bitmap per component, holding the component's elements.
pub(crate) fn components_to_bitmaps(comps: &Vec<Vec<usize>>, Ghost(reps): Ghost<Seq<int>>) -> (bs: Vec<RoaringBitmap>)
    requires
        is_partition_into_classes(nested_view(comps@), reps),
        reps.len() <= max_elements(),
    ensures
        all_bitmaps_wf(bs@),
        sets_are_classes(bitmap_sets(bs@), reps),
{
    let ghost cs = nested_view(comps@);
    let mut bs: Vec<RoaringBitmap> = Vec::new();
    let mut k: usize = 0;
    while k < comps.len()
        invariant
            k <= comps@.len(),
            cs == nested_view(comps@),
            is_partition_into_classes(cs, reps),
            reps.len() <= max_elements(),
            bs@.len() == k,
            all_bitmaps_wf(bs@),
            forall|m: int| 0 <= m < k ==> #[trigger] bitmap_set(bs@[m]) == comp_set(cs[m]),
        decreases comps@.len() - k,
    {
        let comp = &comps[k];
        proof {
            assert(cs[k as int] == comp@);
        }
        let mut b = bitmap_new();
        let mut j: usize = 0;
        while j < comp.len()
            invariant
                j <= comp@.len(),
                comp@ == cs[k as int],
                is_partition_into_classes(cs, reps),
                reps.len() <= max_elements(),
                0 <= k < cs.len(),
                bitmap_wf(b),
                bitmap_set(b) == comp_set(comp@.subrange(0, j as int)),
            decreases comp@.len() - j,
        {
            let x = comp[j];
            proof {
                assert(cs[k as int][j as int] == x);
                assert((x as int) < reps.len());
            }
            bitmap_insert(&mut b, x as u32);
            proof {
                assert(comp@.subrange(0, j + 1) =~= comp@.subrange(0, j as int).push(x));
                assert(bitmap_set(b) =~= comp_set(comp@.subrange(0, j + 1))) by {
                    assert forall|v: u32| #[trigger] comp_set(comp@.subrange(0, j + 1)).contains(v) == bitmap_set(b).contains(v) by {
                        let pre = comp@.subrange(0, j as int);
                        let full = pre.push(x);
                        if full.contains(v as usize) && v as usize != x {
                            let w = choose|w: int| 0 <= w < full.len() && #[trigger] full[w] == v as usize;
                            assert(pre[w] == v as usize);
                        }
                        if pre.contains(v as usize) {
                            let w = choose|w: int| 0 <= w < pre.len() && #[trigger] pre[w] == v as usize;
                            assert(full[w] == v as usize);
                        }
                        if v == x as u32 {
                            assert(pre.push(x)[j as int] == x);
                        }
                    }
                }
            }
            j = j + 1;
        }
        proof {
            assert(comp@.subrange(0, comp@.len() as int) =~= comp@);
        }
        bs.push(b);
        k = k + 1;
    }
    proof {
        lemma_comp_sets_are_classes(cs, reps, bitmap_sets(bs@));
    }
    bs
}

/// The records of a component, as `u32`.
pub open spec fn comp_set(c: Seq<usize>) -> Set<u32> {
    Set::new(|v: u32| c.contains(v as usize))
}

proof fn lemma_comp_sets_are_classes(cs: Seq<Seq<usize>>, reps: Seq<int>, sets: Seq<Set<u32>>)
    requires
        is_partition_into_classes(cs, reps),
        reps.len() <= max_elements(),
        sets.len() == cs.len(),
        forall|m: int| 0 <= m < cs.len() ==> #[trigger] sets[m] == comp_set(cs[m]),
    ensures
        sets_are_classes(sets, reps),
{
    assert forall|k: int| 0 <= k < sets.len() implies #[trigger] sets[k] != Set::<u32>::empty() by {
        let x = cs[k][0];
        assert((x as int) < reps.len());
        assert(cs[k].contains(x));
        assert(((x as u32) as usize) == x);
        assert(sets[k].contains(x as u32));
    }
    assert forall|k: int, v: u32, w: u32|
        0 <= k < sets.len() && #[trigger] sets[k].contains(v) && #[trigger] sets[k].contains(w) implies (
    v as int) < reps.len() && (w as int) < reps.len() && reps[v as int] == reps[w as int] by {
        let a = choose|a: int| 0 <= a < cs[k].len() && cs[k][a] == v as usize;
        let b = choose|b: int| 0 <= b < cs[k].len() && cs[k][b] == w as usize;
        assert(reps[cs[k][a] as int] == reps[cs[k][0] as int]);
        assert(reps[cs[k][b] as int] == reps[cs[k][0] as int]);
    }
    assert forall|k1: int, k2: int, v: u32, w: u32|
        0 <= k1 < sets.len() && 0 <= k2 < sets.len() && k1 != k2 && #[trigger] sets[k1].contains(v)
            && #[trigger] sets[k2].contains(w) implies reps[v as int] != reps[w as int] by {
        let a = choose|a: int| 0 <= a < cs[k1].len() && cs[k1][a] == v as usize;
        let b = choose|b: int| 0 <= b < cs[k2].len() && cs[k2][b] == w as usize;
        assert(reps[cs[k1][a] as int] == reps[cs[k1][0] as int]);
        assert(reps[cs[k2][b] as int] == reps[cs[k2][0] as int]);
        assert(reps[cs[k1][0] as int] != reps[cs[k2][0] as int]);
    }
    assert forall|x: int| 0 <= x < reps.len() implies #[trigger] held(sets, x) by {
        assert(listed(cs, x));
        let (c, j) = choose|c: int, j: int| 0 <= c < cs.len() && 0 <= j < cs[c].len() && #[trigger] cs[c][j] == x;
        assert(cs[c].contains(x as usize));
        assert(sets[c].contains(x as u32));
    }
}

/// Absorbing a whole class of `u` into `p` joins `p` with any member of it,
/// in every partition that puts the same pairs together as `u`.
pub(crate) proof fn lemma_absorb_class(u: Seq<int>, r: Seq<int>, p: int, c: u32)
    requires
        same_partition(u, r),
        0 <= p < u.len(),
        (c as int) < u.len(),
    ensures
        absorb(r, p, class_of(u, u[c as int])) == join(r, p, c as int),
{
    let s = class_of(u, u[c as int]);
    assert(s.contains(c));
    assert forall|v: int| 0 <= v < r.len() implies #[trigger] absorb(r, p, s)[v] == join(r, p, c as int)[v] by {
        if absorbed(r, p, s, v) && r[v] != r[p] {
            let w = choose|w: u32| #[trigger] s.contains(w) && r[v] == r[w as int];
            assert((u[w as int] == u[c as int]) == (r[w as int] == r[c as int]));
        }
        if r[v] == r[c as int] {
            assert(absorbed(r, p, s, v));
        }
    }
    assert(absorb(r, p, s) =~= join(r, p, c as int));
}

/// The pairs of all groups, in order.
pub open spec fn group_pairs(groups: Seq<(i64, Vec<(u32, u32)>)>) -> Seq<(u32, u32)>
    decreases groups.len(),
{
    if groups.len() == 0 {
        Seq::empty()
    } else {
        group_pairs(groups.drop_last()) + groups.last().1@
    }
}

/// A pair occurs in the groups' pairs exactly when some group holds it.
proof fn lemma_group_pairs_contains(groups: Seq<(i64, Vec<(u32, u32)>)>, p: (u32, u32))
    ensures
        group_pairs(groups).contains(p) <==> exists|k: int| 0 <= k < groups.len() && (#[trigger] groups[k]).1@.contains(p),
    decreases groups.len(),
{
    if groups.len() > 0 {
        let init = groups.drop_last();
        lemma_group_pairs_contains(init, p);
        let a = group_pairs(init);
        let b = groups.last().1@;
        assert(group_pairs(groups) == a + b);
        if (a + b).contains(p) {
            let m = choose|m: int| 0 <= m < (a + b).len() && (a + b)[m] == p;
            if m < a.len() {
                assert(a[m] == p);
                assert(a.contains(p));
                let k = choose|k: int| 0 <= k < init.len() && (#[trigger] init[k]).1@.contains(p);
                assert(groups[k] == init[k]);
            } else {
                assert(b[m - a.len()] == p);
                assert(b.contains(p));
                assert(groups[groups.len() - 1].1@.contains(p));
            }
        }
        if exists|k: int| 0 <= k < groups.len() && (#[trigger] groups[k]).1@.contains(p) {
            let k = choose|k: int| 0 <= k < groups.len() && (#[trigger] groups[k]).1@.contains(p);
            if k < init.len() {
                assert(init[k] == groups[k]);
                assert(a.contains(p));
                let m = choose|m: int| 0 <= m < a.len() && a[m] == p;
                assert((a + b)[m] == p);
            } else {
                let m = choose|m: int| 0 <= m < b.len() && b[m] == p;
                assert((a + b)[a.len() + m] == p);
            }
        }
    }
}

/// An edge occurs in the flattened groups exactly when some group of its
/// weight holds its pair.
proof fn lemma_flatten_contains(groups: Seq<(i64, Vec<(u32, u32)>)>, x: (u32, u32, i64))
    ensures
        flatten_groups(groups).contains(x) <==> exists|k: int|
            0 <= k < groups.len() && (#[trigger] groups[k]).0 == x.2 && groups[k].1@.contains((x.0, x.1)),
    decreases groups.len(),
{
    if groups.len() > 0 {
        let init = groups.drop_last();
        let last = groups.last();
        lemma_flatten_contains(init, x);
        let a = flatten_groups(init);
        let b = group_edges(last.0, last.1@);
        assert(flatten_groups(groups) == a + b);
        if (a + b).contains(x) {
            let m = choose|m: int| 0 <= m < (a + b).len() && (a + b)[m] == x;
            if m < a.len() {
                assert(a[m] == x);
                assert(a.contains(x));
                let k = choose|k: int| 0 <= k < init.len() && (#[trigger] init[k]).0 == x.2 && init[k].1@.contains((x.0, x.1));
                assert(groups[k] == init[k]);
            } else {
                let j = m - a.len();
                assert(b[j] == x);
                assert(last.1@[j] == (x.0, x.1));
                assert(last.1@.contains((x.0, x.1)));
                assert(groups[groups.len() - 1] == last);
            }
        }
        if exists|k: int| 0 <= k < groups.len() && (#[trigger] groups[k]).0 == x.2 && groups[k].1@.contains((x.0, x.1)) {
            let k = choose|k: int| 0 <= k < groups.len() && (#[trigger] groups[k]).0 == x.2 && groups[k].1@.contains((x.0, x.1));
            if k < init.len() {
                assert(init[k] == groups[k]);
                assert(a.contains(x));
                let m = choose|m: int| 0 <= m < a.len() && a[m] == x;
                assert((a + b)[m] == x);
            } else {
                assert(groups[k] == last);
                let j = choose|j: int| 0 <= j < last.1@.len() && last.1@[j] == (x.0, x.1);
                assert(b[j] == x);
                assert((a + b)[a.len() + j] == x);
            }
        }
    }
}

/// The pairs of leading groups whose edges lie below `n` lie below `n`.
proof fn lemma_group_pairs_within(groups: Seq<(i64, Vec<(u32, u32)>)>, n: int)
    requires
        forall|k: int| 0 <= k < groups.len() ==> edges_within((#[trigger] groups[k]).1@, n),
    ensures
        edges_within(group_pairs(groups), n),
    decreases groups.len(),
{
    if groups.len() > 0 {
        let init = groups.drop_last();
        assert forall|k: int| 0 <= k < init.len() implies edges_within((#[trigger] init[k]).1@, n) by {
            assert(init[k] == groups[k]);
        }
        lemma_group_pairs_within(init, n);
        assert(edges_within(groups[groups.len() - 1].1@, n));
    }
}

/// With strictly falling thresholds, the groups at or above `t` are a prefix.
proof fn lemma_group_split(groups: Seq<(i64, Vec<(u32, u32)>)>, t: i64) -> (g: int)
    requires
        forall|a: int, b: int| 0 <= a < b < groups.len() ==> (#[trigger] groups[a]).0 > (#[trigger] groups[b]).0,
    ensures
        0 <= g <= groups.len(),
        forall|k: int| 0 <= k < g ==> (#[trigger] groups[k]).0 >= t,
        forall|k: int| g <= k < groups.len() ==> (#[trigger] groups[k]).0 < t,
    decreases groups.len(),
{
    if groups.len() == 0 {
        0
    } else {
        let init = groups.drop_last();
        assert forall|a: int, b: int| 0 <= a < b < init.len() implies (#[trigger] init[a]).0 > (#[trigger] init[b]).0 by {
            assert(init[a] == groups[a] && init[b] == groups[b]);
        }
        let g0 = lemma_group_split(init, t);
        if g0 == init.len() && groups.last().0 >= t {
            assert forall|k: int| 0 <= k < groups.len() implies (#[trigger] groups[k]).0 >= t by {
                if k < init.len() {
                    assert(init[k] == groups[k]);
                }
            }
            groups.len() as int
        } else {
            assert forall|k: int| 0 <= k < g0 implies (#[trigger] groups[k]).0 >= t by {
                assert(init[k] == groups[k]);
            }
            assert forall|k: int| g0 <= k < groups.len() implies (#[trigger] groups[k]).0 < t by {
                if k < init.len() {
                    assert(init[k] == groups[k]);
                } else if g0 < init.len() {
                    assert(init[g0] == groups[g0]);
                    assert(groups[g0].0 > groups[k].0);
                }
            }
            g0
        }
    }
}

/// Every edge of group `g` has both endpoints below `n`.
proof fn lemma_group_edges_in_range(groups: Seq<(i64, Vec<(u32, u32)>)>, g: int, n: int)
    requires
        0 <= g < groups.len(),
        forall|k: int|
            0 <= k < flatten_groups(groups).len() ==> (#[trigger] flatten_groups(groups)[k]).0 < n
                && flatten_groups(groups)[k].1 < n,
    ensures
        forall|k: int|
            0 <= k < groups[g].1@.len() ==> (#[trigger] groups[g].1@[k]).0 < n && groups[g].1@[k].1 < n,
    decreases groups.len(),
{
    let init = groups.drop_last();
    let last = groups.last();
    let f = flatten_groups(groups);
    assert(f == flatten_groups(init) + group_edges(last.0, last.1@));
    if g == groups.len() - 1 {
        assert forall|k: int| 0 <= k < groups[g].1@.len() implies (#[trigger] groups[g].1@[k]).0 < n
            && groups[g].1@[k].1 < n by {
            let idx = flatten_groups(init).len() + k;
            assert(f[idx] == group_edges(last.0, last.1@)[k]);
        }
    } else {
        assert forall|k: int| 0 <= k < flatten_groups(init).len() implies (#[trigger] flatten_groups(init)[k]).0
            < n && flatten_groups(init)[k].1 < n by {
            assert(f[k] == flatten_groups(init)[k]);
        }
        lemma_group_edges_in_range(init, g, n);
        assert(init[g] == groups[g]);
    }
}

/// How many events stand at or above every threshold, and in all, when the
/// events rebuild the components of `edges` and each absorbs one entity.
proof fn lemma_event_counts(events: Seq<(i64, u32, Set<u32>)>, edges: Seq<(u32, u32, i64)>, n: nat)
    requires
        events_absorb_entities(events, n),
        events_well_formed(events, n as int),
        forall|t: i64| same_partition(#[trigger] partition_at(events, n, t), components_at(edges, n, t)),
    ensures
        forall|t: i64| cut(events, t) + entity_count(#[trigger] components_at(edges, n, t)) == n,
        events.len() + entity_count(components_at(edges, n, i64::MIN)) == n,
{
    assert forall|t: i64| cut(events, t) + entity_count(#[trigger] components_at(edges, n, t)) == n by {
        assert(same_partition(partition_at(events, n, t), components_at(edges, n, t)));
        lemma_events_per_threshold(events, edges, n, t);
    }
    lemma_cut_exact(events, i64::MIN, events.len() as int);
}

/// The threshold of a group of the sorted edges is the weight of some edge.
proof fn lemma_group_threshold_is_weight(
    groups: Seq<(i64, Vec<(u32, u32)>)>,
    sorted: Seq<(u32, u32, i64)>,
    edges: Seq<(u32, u32, i64)>,
    order: Seq<usize>,
    t: i64,
)
    requires
        flatten_groups(groups) == sorted,
        forall|g: int| 0 <= g < groups.len() ==> (#[trigger] groups[g]).1@.len() > 0,
        holds_range(order, 0, edges.len() as int),
        sorted.len() == edges.len(),
        forall|k: int| 0 <= k < sorted.len() ==> #[trigger] sorted[k] == edges[order[k] as int],
        is_group_threshold(groups, groups.len() as int, t),
    ensures
        is_edge_weight(edges, t),
{
    let a = choose|a: int| 0 <= a < groups.len() && #[trigger] groups[a].0 == t;
    let pair = groups[a].1@[0];
    assert(groups[a].1@.contains(pair));
    let x = (pair.0, pair.1, t);
    lemma_flatten_contains(groups, x);
    assert(sorted.contains(x));
    let j = choose|j: int| 0 <= j < sorted.len() && sorted[j] == x;
    assert(sorted[j] == edges[order[j] as int]);
    assert(order.contains(order[j]));
    assert(edges[order[j] as int].2 == t);
}

/// The figures of an event stay true of it when events are appended.
proof fn lemma_describes_prefix(
    a: Seq<(i64, u32, Set<u32>)>,
    b: Seq<(i64, u32, Set<u32>)>,
    n: nat,
    k: int,
    s: MergeStats,
)
    requires
        0 <= k < a.len() <= b.len(),
        b.subrange(0, a.len() as int) == a,
        describes_event(a, n, k, s),
    ensures
        describes_event(b, n, k, s),
{
    assert(b.take(k) =~= a.take(k));
    assert(b.take(k + 1) =~= a.take(k + 1));
    assert(b[k] == b.subrange(0, a.len() as int)[k]);
}

/// `s` lies within one of `sets`.
pub open spec fn within_one(s: Set<u32>, sets: Seq<Set<u32>>) -> bool {
    exists|j: int| 0 <= j < sets.len() && s.subset_of(#[trigger] sets[j])
}

/// Lowering the threshold only merges entities: every entity of the
/// partition at `high` lies within one entity of the partition at `low`.
pub proof fn lemma_entities_nested(
    events: Seq<(i64, u32, Set<u32>)>,
    n: nat,
    low: i64,
    high: i64,
    fine: Seq<Set<u32>>,
    coarse: Seq<Set<u32>>,
)
    requires
        low <= high,
        sets_are_classes(fine, partition_at(events, n, high)),
        sets_are_classes(coarse, partition_at(events, n, low)),
    ensures
        forall|i: int| 0 <= i < fine.len() ==> within_one(#[trigger] fine[i], coarse),
{
    let at_high = partition_at(events, n, high);
    let at_low = partition_at(events, n, low);
    crate::hierarchy::relation::lemma_partition_monotone(events, n, low, high);
    assert forall|i: int| 0 <= i < fine.len() implies within_one(#[trigger] fine[i], coarse) by {
        assert(fine[i] != Set::<u32>::empty());
        let v = choose|v: u32| fine[i].contains(v);
        if !fine[i].contains(v) {
            assert(fine[i] =~= Set::<u32>::empty());
        }
        assert((v as int) < at_high.len());
        assert(held(coarse, v as int));
        let j = choose|j: int| 0 <= j < coarse.len() && #[trigger] coarse[j].contains(v as int as u32);
        assert forall|w: u32| fine[i].contains(w) implies coarse[j].contains(w) by {
            assert((w as int) < at_high.len() && at_high[v as int] == at_high[w as int]);
            assert(at_low[v as int] == at_low[w as int]);
            assert(held(coarse, w as int));
            let j2 = choose|j2: int| 0 <= j2 < coarse.len() && #[trigger] coarse[j2].contains(w as int as u32);
            if j2 != j {
                assert(at_low[v as int] != at_low[w as int]);
            }
        }
        assert(fine[i].subset_of(coarse[j]));
    }
}

/// Lowering the threshold never raises the number of entities, for events
/// that each absorb one other entity, as those of `from_edges` do.
pub proof fn lemma_entity_count_falls(
    events: Seq<(i64, u32, Set<u32>)>,
    n: nat,
    low: i64,
    high: i64,
    fine: Seq<Set<u32>>,
    coarse: Seq<Set<u32>>,
)
    requires
        n <= max_elements(),
        events_well_formed(events, n as int),
        events_absorb_entities(events, n),
        low <= high,
        sets_are_classes(fine, partition_at(events, n, high)),
        sets_are_classes(coarse, partition_at(events, n, low)),
    ensures
        coarse.len() <= fine.len(),
{
    crate::hierarchy::relation::lemma_partition_monotone(events, n, low, high);
    crate::hierarchy::counting::lemma_classes_count(fine, partition_at(events, n, high));
    crate::hierarchy::counting::lemma_classes_count(coarse, partition_at(events, n, low));
    crate::hierarchy::counting::lemma_count_monotone(events, n, low, high);
}

/// Every edge of the flattened groups has its endpoints below `n` when
/// every group's pairs do.
proof fn lemma_flatten_within(groups: Seq<(i64, Vec<(u32, u32)>)>, n: int)
    requires
        forall|k: int| 0 <= k < groups.len() ==> edges_within((#[trigger] groups[k]).1@, n),
    ensures
        forall|k: int|
            0 <= k < flatten_groups(groups).len() ==> (#[trigger] flatten_groups(groups)[k]).0 < n
                && flatten_groups(groups)[k].1 < n,
    decreases groups.len(),
{
    if groups.len() > 0 {
        let init = groups.drop_last();
        let last = groups.last();
        assert forall|k: int| 0 <= k < init.len() implies edges_within((#[trigger] init[k]).1@, n) by {
            assert(init[k] == groups[k]);
        }
        lemma_flatten_within(init, n);
        let a = flatten_groups(init);
        let b = group_edges(last.0, last.1@);
        assert(flatten_groups(groups) == a + b);
        assert(edges_within(groups[groups.len() - 1].1@, n));
        assert forall|k: int| 0 <= k < (a + b).len() implies (#[trigger] (a + b)[k]).0 < n && (a + b)[k].1 < n by {
            if k >= a.len() {
                assert(b[k - a.len()] == (last.1@[k - a.len()].0, last.1@[k - a.len()].1, last.0));
            }
        }
    }
}

/// The pairs of the groups at or above `t` are those of the flattened
/// edges at or above `t`.
proof fn lemma_leading_groups_pairs_flat(groups: Seq<(i64, Vec<(u32, u32)>)>, g: int, t: i64, n: int)
    requires
        0 <= g <= groups.len(),
        forall|k: int| 0 <= k < g ==> (#[trigger] groups[k]).0 >= t,
        forall|k: int| g <= k < groups.len() ==> (#[trigger] groups[k]).0 < t,
        forall|k: int|
            0 <= k < flatten_groups(groups).len() ==> (#[trigger] flatten_groups(groups)[k]).0 < n
                && flatten_groups(groups)[k].1 < n,
    ensures
        forall|p: (u32, u32)|
            group_pairs(groups.take(g)).contains(p) <==> pairs_at_or_above(flatten_groups(groups), t).contains(p),
{
    let edges = flatten_groups(groups);
    lemma_pairs_at_or_above_within(edges, n, t);
    let lead = groups.take(g);
    assert forall|p: (u32, u32)| group_pairs(lead).contains(p) implies pairs_at_or_above(edges, t).contains(p) by {
        lemma_group_pairs_contains(lead, p);
        let k = choose|k: int| 0 <= k < lead.len() && (#[trigger] lead[k]).1@.contains(p);
        assert(lead[k] == groups[k]);
        let x = (p.0, p.1, groups[k].0);
        lemma_flatten_contains(groups, x);
        assert(edges.contains(x));
        let idx = choose|idx: int| 0 <= idx < edges.len() && edges[idx] == x;
        assert(0 <= idx < edges.len() && (#[trigger] edges[idx]).2 >= t && edges[idx].0 == p.0 && edges[idx].1 == p.1);
    }
    assert forall|p: (u32, u32)| pairs_at_or_above(edges, t).contains(p) implies group_pairs(lead).contains(p) by {
        let i = choose|i: int| 0 <= i < edges.len() && (#[trigger] edges[i]).2 >= t && edges[i].0 == p.0 && edges[i].1 == p.1;
        let x = edges[i];
        assert(edges.contains(x));
        lemma_flatten_contains(groups, x);
        let k = choose|k: int| 0 <= k < groups.len() && (#[trigger] groups[k]).0 == x.2 && groups[k].1@.contains((x.0, x.1));
        assert(k < g);
        assert(lead[k] == groups[k]);
        assert((x.0, x.1) == p);
        lemma_group_pairs_contains(lead, p);
    }
}

/// The partition that events recorded group by group give at `t` is the set
/// of components of the groups' edges at or above `t`.
proof fn lemma_group_components(
    events: Seq<(i64, u32, Set<u32>)>,
    groups: Seq<(i64, Vec<(u32, u32)>)>,
    marks: Seq<int>,
    n: nat,
    t: i64,
)
    requires
        forall|a: int, b: int| 0 <= a < b < groups.len() ==> (#[trigger] groups[a]).0 > (#[trigger] groups[b]).0,
        forall|k: int| 0 <= k < groups.len() ==> edges_within((#[trigger] groups[k]).1@, n as int),
        marks.len() == groups.len() + 1,
        marks[0] == 0,
        marks[groups.len() as int] == events.len(),
        forall|a: int| 0 <= a <= groups.len() ==> 0 <= #[trigger] marks[a] <= events.len(),
        forall|a: int, idx: int|
            #![trigger marks[a], events[idx]]
            0 <= a < groups.len() && marks[a] <= idx < events.len() ==> events[idx].0 <= groups[a].0,
        forall|a: int, idx: int|
            #![trigger marks[a], events[idx]]
            1 <= a <= groups.len() && 0 <= idx < marks[a] ==> events[idx].0 >= groups[a - 1].0,
        forall|a: int|
            0 <= a <= groups.len() ==> same_partition(
                replay(identity(n), events.take(#[trigger] marks[a])),
                join_all(identity(n), group_pairs(groups.take(a))),
            ),
    ensures
        same_partition(partition_at(events, n, t), components_at(flatten_groups(groups), n, t)),
{
    let edges = flatten_groups(groups);
    let g = lemma_group_split(groups, t);
    let mark = marks[g];
    assert forall|m: int| 0 <= m < mark implies (#[trigger] events[m]).0 >= t by {
        assert(g >= 1);
        assert(events[m].0 >= groups[g - 1].0);
    }
    if g < groups.len() && mark < events.len() {
        assert(events[mark].0 <= groups[g].0);
    }
    lemma_cut_exact(events, t, mark);
    assert(partition_at(events, n, t) == replay(identity(n), events.take(mark)));
    lemma_flatten_within(groups, n as int);
    lemma_leading_groups_pairs_flat(groups, g, t, n as int);
    assert forall|k: int| 0 <= k < groups.take(g).len() implies edges_within((#[trigger] groups.take(g)[k]).1@, n as int) by {
        assert(groups.take(g)[k] == groups[k]);
    }
    lemma_group_pairs_within(groups.take(g), n as int);
    lemma_pairs_at_or_above_within(edges, n as int, t);
    lemma_components_order_free(n, group_pairs(groups.take(g)), pairs_at_or_above(edges, t));
    lemma_same_partition_trans(
        partition_at(events, n, t),
        join_all(identity(n), group_pairs(groups.take(g))),
        components_at(edges, n, t),
    );
}

/// Reordering the edges does not change their components at any threshold.
proof fn lemma_sorted_components(
    edges: Seq<(u32, u32, i64)>,
    sorted: Seq<(u32, u32, i64)>,
    order: Seq<usize>,
    n: nat,
    t: i64,
)
    requires
        sorted.len() == edges.len(),
        edges.len() <= usize::MAX,
        holds_range(order, 0, edges.len() as int),
        forall|k: int| 0 <= k < sorted.len() ==> #[trigger] sorted[k] == edges[order[k] as int],
        forall|k: int| 0 <= k < edges.len() ==> (#[trigger] edges[k]).0 < n && edges[k].1 < n,
    ensures
        same_partition(components_at(sorted, n, t), components_at(edges, n, t)),
{
    assert forall|k: int| 0 <= k < sorted.len() implies (#[trigger] sorted[k]).0 < n && sorted[k].1 < n by {
        assert(order.contains(order[k]));
    }
    lemma_pairs_at_or_above_within(edges, n as int, t);
    lemma_pairs_at_or_above_within(sorted, n as int, t);
    assert forall|p: (u32, u32)| pairs_at_or_above(sorted, t).contains(p) <==> pairs_at_or_above(edges, t).contains(p) by {
        if pairs_at_or_above(sorted, t).contains(p) {
            let k = choose|k: int| 0 <= k < sorted.len() && (#[trigger] sorted[k]).2 >= t && sorted[k].0 == p.0 && sorted[k].1 == p.1;
            assert(order.contains(order[k]));
            let e = order[k] as int;
            assert(0 <= e < edges.len() && (#[trigger] edges[e]).2 >= t && edges[e].0 == p.0 && edges[e].1 == p.1);
        }
        if pairs_at_or_above(edges, t).contains(p) {
            let i = choose|i: int| 0 <= i < edges.len() && (#[trigger] edges[i]).2 >= t && edges[i].0 == p.0 && edges[i].1 == p.1;
            assert(order.contains(i as usize));
            let k = choose|k: int| 0 <= k < order.len() && order[k] == i as usize;
            assert(sorted[k] == edges[order[k] as int]);
            assert(0 <= k < sorted.len() && (#[trigger] sorted[k]).2 >= t && sorted[k].0 == p.0 && sorted[k].1 == p.1);
        }
    }
    lemma_components_order_free(n, pairs_at_or_above(sorted, t), pairs_at_or_above(edges, t));
}

/// `sets` lists `s`.
pub open spec fn lists(sets: Seq<Set<u32>>, s: Set<u32>) -> bool {
    exists|j: int| 0 <= j < sets.len() && #[trigger] sets[j] == s
}

/// Two listings of the classes of one partition hold the same entities, so
/// partitions built incrementally and those rebuilt at a threshold agree.
pub proof fn lemma_classes_agree(a: Seq<Set<u32>>, b: Seq<Set<u32>>, reps: Seq<int>)
    requires
        sets_are_classes(a, reps),
        sets_are_classes(b, reps),
    ensures
        forall|i: int| 0 <= i < a.len() ==> lists(b, #[trigger] a[i]),
{
    assert forall|i: int| 0 <= i < a.len() implies lists(b, #[trigger] a[i]) by {
        assert(a[i] != Set::<u32>::empty());
        let v = choose|v: u32| a[i].contains(v);
        if !a[i].contains(v) {
            assert(a[i] =~= Set::<u32>::empty());
        }
        assert((v as int) < reps.len());
        assert(held(b, v as int));
        let j = choose|j: int| 0 <= j < b.len() && #[trigger] b[j].contains(v as int as u32);
        assert forall|w: u32| a[i].contains(w) == b[j].contains(w) by {
            if a[i].contains(w) {
                assert((w as int) < reps.len() && reps[v as int] == reps[w as int]);
                assert(held(b, w as int));
                let j2 = choose|j2: int| 0 <= j2 < b.len() && #[trigger] b[j2].contains(w as int as u32);
                if j2 != j {
                    assert(reps[v as int] != reps[w as int]);
                }
            }
            if b[j].contains(w) {
                assert((w as int) < reps.len() && reps[v as int] == reps[w as int]);
                assert(held(a, w as int));
                let i2 = choose|i2: int| 0 <= i2 < a.len() && #[trigger] a[i2].contains(w as int as u32);
                if i2 != i {
                    assert(reps[v as int] != reps[w as int]);
                }
            }
        }
        assert(a[i] =~= b[j]);
    }
}

/// What the cut keeps: the leading events at or above `t`, up to the first
/// below it.
proof fn lemma_cut_props(events: Seq<(i64, u32, Set<u32>)>, t: i64)
    ensures
        cut(events, t) <= events.len(),
        forall|m: int| 0 <= m < cut(events, t) ==> (#[trigger] events[m]).0 >= t,
        cut(events, t) < events.len() ==> events[cut(events, t) as int].0 < t,
    decreases events.len(),
{
    if events.len() > 0 && events[0].0 >= t {
        let rest = events.drop_first();
        lemma_cut_props(rest, t);
        assert forall|m: int| 0 <= m < cut(events, t) implies (#[trigger] events[m]).0 >= t by {
            if m > 0 {
                assert(events[m] == rest[m - 1]);
            }
        }
        if cut(events, t) < events.len() {
            assert(events[cut(events, t) as int] == rest[cut(rest, t) as int]);
        }
    }
}

/// A filter that keeps exactly one stretch of a list gives that stretch.
proof fn lemma_filter_stretch(
    s: Seq<(i64, u32, Set<u32>)>,
    p: spec_fn((i64, u32, Set<u32>)) -> bool,
    lo: int,
    hi: int,
)
    requires
        0 <= lo <= hi <= s.len(),
        forall|k: int| 0 <= k < s.len() ==> (p(#[trigger] s[k]) <==> lo <= k < hi),
    ensures
        s.filter(p) == s.subrange(lo, hi),
    decreases s.len(),
{
    reveal(Seq::filter);
    if s.len() > 0 {
        let d = s.drop_last();
        let lo2 = if lo < d.len() { lo } else { d.len() as int };
        let hi2 = if hi < d.len() { hi } else { d.len() as int };
        assert forall|k: int| 0 <= k < d.len() implies (p(#[trigger] d[k]) <==> lo2 <= k < hi2) by {
            assert(d[k] == s[k]);
        }
        lemma_filter_stretch(d, p, lo2, hi2);
        assert(p(s[s.len() - 1]) == (lo <= s.len() - 1 < hi));
        if lo <= s.len() - 1 && s.len() - 1 < hi {
            assert(s.subrange(lo, hi) =~= d.subrange(lo2, hi2).push(s.last()));
        } else {
            assert(s.subrange(lo, hi) =~= d.subrange(lo2, hi2));
        }
    }
}

/// Applying to the partition at `from` the events that a range query from
/// `from` down to `to` returns gives the partition at `to`: a sweep that
/// moves from threshold to threshold by these events rebuilds, at each
/// threshold, the partition that a query there gives.
pub proof fn lemma_window_replay(events: Seq<(i64, u32, Set<u32>)>, n: nat, from: i64, to: i64)
    requires
        thresholds_descending(events),
        to <= from,
    ensures
        replay(partition_at(events, n, from), events.filter(in_range(from, to))) == partition_at(events, n, to),
{
    let c0 = cut(events, from) as int;
    let c1 = cut(events, to) as int;
    lemma_cut_props(events, from);
    lemma_cut_props(events, to);
    crate::hierarchy::relation::lemma_cut_monotone(events, to, from);
    let p = in_range(from, to);
    assert forall|k: int| 0 <= k < events.len() implies (p(#[trigger] events[k]) <==> c0 <= k < c1) by {
        if k < c0 {
            assert(events[k].0 >= from);
        } else {
            assert(events[k].0 < from) by {
                if k > c0 {
                    assert(events[c0].0 >= events[k].0);
                }
            }
            if k < c1 {
                assert(events[k].0 >= to);
            } else {
                assert(events[k].0 < to) by {
                    if k > c1 {
                        assert(events[c1].0 >= events[k].0);
                    }
                }
            }
        }
    }
    lemma_filter_stretch(events, p, c0, c1);
    assert(events.take(c1) =~= events.take(c0) + events.subrange(c0, c1));
    crate::hierarchy::relation::lemma_replay_append(identity(n), events.take(c0), events.subrange(c0, c1));
}

} // verus!
