use std::collections::HashMap;
use std::sync::Arc;
use vstd::prelude::*;

use crate::hierarchy::bitmap::{bitmap_set, bitmap_wf};
use crate::hierarchy::builder::{
    apply_event, components_to_bitmaps, events_well_formed, lemma_cut_exact, lemma_replay_step,
    thresholds_descending,
};
use crate::hierarchy::partition::{bitmap_sets, PartitionLevel};
use crate::hierarchy::relation::{
    cut, identity, lemma_classes_transfer, lemma_same_partition_refl, partition_at, replay,
    same_partition, sets_are_classes,
};
use crate::hierarchy::sorting::sort_positions_descending;
use crate::hierarchy::storage::{event_view, InMemoryStorage};
use crate::hierarchy::union_find::{max_elements, UnionFind, VecBackend};

verus! {

/// Rebuilds partitions at falling thresholds by applying, from the
/// union-find kept at the last threshold, only the events in between.
pub struct IncrementalPartitionBuilder {
    num_records: usize,
    last_threshold: Option<i64>,
    union_find: Option<UnionFind<VecBackend>>,
    /// Smallest record of each entity root that absorbed records.
    canonical_ids: HashMap<usize, u32>,
    built_from: Ghost<Seq<(i64, u32, Set<u32>)>>,
}

/// Under descending thresholds, the events at or above `t` are exactly the
/// first `cut(events, t)`.
pub proof fn lemma_cut_descending(events: Seq<(i64, u32, Set<u32>)>, t: i64)
    requires
        thresholds_descending(events),
    ensures
        cut(events, t) <= events.len(),
        forall|m: int| 0 <= m < events.len() ==> (m < cut(events, t) <==> (#[trigger] events[m]).0 >= t),
{
    lemma_cut_basic(events, t);
    let c = cut(events, t) as int;
    assert forall|m: int| 0 <= m < events.len() implies (m < c <==> (#[trigger] events[m]).0 >= t) by {
        if m >= c {
            assert(events[c].0 < t);
            if m > c {
                assert(events[c].0 >= events[m].0);
            }
        }
    }
}

/// The leading events counted by `cut` are at or above `t`, and the next one is below.
pub proof fn lemma_cut_basic(events: Seq<(i64, u32, Set<u32>)>, t: i64)
    ensures
        cut(events, t) <= events.len(),
        forall|m: int| 0 <= m < cut(events, t) ==> (#[trigger] events[m]).0 >= t,
        cut(events, t) == events.len() || events[cut(events, t) as int].0 < t,
    decreases events.len(),
{
    if events.len() > 0 && events[0].0 >= t {
        let rest = events.drop_first();
        lemma_cut_basic(rest, t);
        assert forall|m: int| 0 <= m < cut(events, t) implies (#[trigger] events[m]).0 >= t by {
            if m > 0 {
                assert(events[m] == rest[m - 1]);
            }
        }
        if cut(events, t) < events.len() {
            assert(events[cut(events, t) as int] == rest[cut(rest, t) as int]);
        }
    }
}

impl IncrementalPartitionBuilder {
    /// Number of records.
    pub closed spec fn records(&self) -> nat {
        self.num_records as nat
    }

    /// The events the kept union-find was built from, if one is kept.
    pub closed spec fn state_events(&self) -> Option<Seq<(i64, u32, Set<u32>)>> {
        if self.union_find is Some {
            Some(self.built_from@)
        } else {
            None
        }
    }

    pub closed spec fn wf(&self) -> bool {
        &&& self.num_records <= max_elements()
        &&& (self.last_threshold is Some) == (self.union_find is Some)
        &&& match self.union_find {
            Some(uf) => {
                &&& uf.wf()
                &&& uf@.len() == self.num_records
                &&& same_partition(uf@, partition_at(self.built_from@, self.num_records as nat, self.last_threshold->0))
            },
            None => true,
        }
    }

    /// A builder for `num_records` records with nothing built yet.
    pub fn new(num_records: usize) -> (b: Self)
        requires
            num_records <= max_elements(),
        ensures
            b.wf(),
            b.records() == num_records,
            b.state_events() is None,
    {
        IncrementalPartitionBuilder {
            num_records,
            last_threshold: None,
            union_find: None,
            canonical_ids: HashMap::new(),
            built_from: Ghost(Seq::empty()),
        }
    }

    /// The partition at `threshold` of the events in `storage`: built from
    /// the kept union-find when `threshold` is not above the last one, from
    /// scratch otherwise.
    pub fn build_at_threshold(&mut self, threshold: i64, storage: &InMemoryStorage) -> (r: Result<Arc<PartitionLevel>, String>)
        requires
            old(self).wf(),
            events_well_formed(storage@, old(self).records() as int),
            thresholds_descending(storage@),
            old(self).state_events() matches Some(e) ==> e == storage@,
        ensures
            final(self).wf(),
            final(self).records() == old(self).records(),
            final(self).state_events() == Some(storage@),
            r matches Ok(p) && p.threshold_spec() == threshold && sets_are_classes(
                p.entity_sets(),
                partition_at(storage@, old(self).records(), threshold),
            ),
    {
        let incremental = match self.last_threshold {
            Some(last) => last >= threshold,
            None => false,
        };
        if incremental {
            self.apply_incremental_updates(threshold, storage)
        } else {
            self.build_from_scratch(threshold, storage)
        }
    }

    /// Partitions at each of `thresholds`, built highest threshold first so
    /// that each build continues from the previous one; returned in the
    /// order of `thresholds`.
    pub fn build_multiple(&mut self, thresholds: &[i64], storage: &InMemoryStorage) -> (r: Result<Vec<Arc<PartitionLevel>>, String>)
        requires
            old(self).wf(),
            events_well_formed(storage@, old(self).records() as int),
            thresholds_descending(storage@),
            old(self).state_events() matches Some(e) ==> e == storage@,
        ensures
            final(self).wf(),
            final(self).records() == old(self).records(),
            r matches Ok(v) && v@.len() == thresholds@.len() && forall|i: int|
                0 <= i < v@.len() ==> (#[trigger] v@[i]).threshold_spec() == thresholds@[i]
                    && sets_are_classes(v@[i].entity_sets(), partition_at(storage@, old(self).records(), thresholds@[i])),
    {
        let n = thresholds.len();
        let mut keys: Vec<i64> = Vec::with_capacity(n);
        let mut i: usize = 0;
        while i < n
            invariant
                i <= n,
                n == thresholds@.len(),
                keys@ == thresholds@.subrange(0, i as int),
            decreases n - i,
        {
            keys.push(thresholds[i]);
            i = i + 1;
            proof {
                assert(keys@ =~= thresholds@.subrange(0, i as int));
            }
        }
        proof {
            assert(keys@ =~= thresholds@);
        }
        let order = sort_positions_descending(&keys);
        let mut slots: Vec<Option<Arc<PartitionLevel>>> = Vec::new();
        let mut j: usize = 0;
        while j < n
            invariant
                j <= n,
                slots@.len() == j,
                forall|m: int| 0 <= m < j ==> #[trigger] slots@[m] is None,
            decreases n - j,
        {
            slots.push(None);
            j = j + 1;
        }
        proof {
            assert forall|m: int| 0 <= m < n implies match #[trigger] slots@[m] {
                Some(p) => p.threshold_spec() == thresholds@[m] && sets_are_classes(
                    p.entity_sets(),
                    partition_at(storage@, old(self).records(), thresholds@[m]),
                ),
                None => exists|q: int| 0 <= q < n && order@[q] == m,
            } by {
                assert(order@.contains(m as usize));
            }
        }
        let mut k: usize = 0;
        while k < n
            invariant
                k <= n,
                n == thresholds@.len(),
                keys@ == thresholds@,
                order@.len() == n,
                forall|x: usize| #[trigger] order@.contains(x) <==> x < n,
                slots@.len() == n,
                self.wf(),
                self.records() == old(self).records(),
                events_well_formed(storage@, old(self).records() as int),
                thresholds_descending(storage@),
                self.state_events() matches Some(e) ==> e == storage@,
                forall|m: int|
                    0 <= m < n ==> match #[trigger] slots@[m] {
                        Some(p) => p.threshold_spec() == thresholds@[m] && sets_are_classes(
                            p.entity_sets(),
                            partition_at(storage@, old(self).records(), thresholds@[m]),
                        ),
                        None => exists|q: int| k <= q < n && order@[q] == m,
                    },
            decreases n - k,
        {
            assert(order@.contains(order@[k as int]));
            let pos = order[k];
            let partition = match self.build_at_threshold(keys[pos], storage) {
                Ok(p) => p,
                Err(e) => {
                    return Err(e);
                },
            };
            let ghost before = slots@;
            slots.set(pos, Some(partition));
            proof {
                assert forall|m: int| 0 <= m < n implies match #[trigger] slots@[m] {
                    Some(p) => p.threshold_spec() == thresholds@[m] && sets_are_classes(
                        p.entity_sets(),
                        partition_at(storage@, old(self).records(), thresholds@[m]),
                    ),
                    None => exists|q: int| k + 1 <= q < n && order@[q] == m,
                } by {
                    if m != pos as int {
                        assert(slots@[m] == before[m]);
                        if before[m] is None {
                            let q = choose|q: int| k <= q < n && order@[q] == m;
                            if q == k {
                                assert(order@[q] == pos);
                            }
                        }
                    }
                }
            }
            k = k + 1;
        }
        let mut results: Vec<Arc<PartitionLevel>> = Vec::with_capacity(n);
        let mut m: usize = 0;
        while m < n
            invariant
                m <= n,
                n == thresholds@.len(),
                slots@.len() == n,
                results@.len() == m,
                forall|q: int|
                    0 <= q < n ==> match #[trigger] slots@[q] {
                        Some(p) => p.threshold_spec() == thresholds@[q] && sets_are_classes(
                            p.entity_sets(),
                            partition_at(storage@, old(self).records(), thresholds@[q]),
                        ),
                        None => exists|z: int| n <= z < n && order@[z] == q,
                    },
                forall|q: int|
                    0 <= q < m ==> (#[trigger] results@[q]).threshold_spec() == thresholds@[q]
                        && sets_are_classes(results@[q].entity_sets(), partition_at(storage@, old(self).records(), thresholds@[q])),
            decreases n - m,
        {
            match &slots[m] {
                Some(p) => {
                    results.push(p.clone());
                },
                None => {
                    proof {
                        assert(false);
                    }
                    return Ok(results);
                },
            }
            m = m + 1;
        }
        Ok(results)
    }

    /// All events at or above `threshold`, applied to a fresh union-find.
    fn build_from_scratch(&mut self, threshold: i64, storage: &InMemoryStorage) -> (r: Result<Arc<PartitionLevel>, String>)
        requires
            old(self).wf(),
            events_well_formed(storage@, old(self).records() as int),
        ensures
            final(self).wf(),
            final(self).records() == old(self).records(),
            final(self).state_events() == Some(storage@),
            r matches Ok(p) && p.threshold_spec() == threshold && sets_are_classes(
                p.entity_sets(),
                partition_at(storage@, old(self).records(), threshold),
            ),
    {
        let n = self.num_records;
        let mut uf = UnionFind::new_vec(n);
        self.canonical_ids.clear();
        let ghost evs = storage@;
        let ghost base = identity(n as nat);
        proof {
            assert(evs.take(0) =~= Seq::<(i64, u32, Set<u32>)>::empty());
            lemma_same_partition_refl(base);
        }
        let len = storage.len();
        let mut k: usize = 0;
        while k < len
            invariant
                k <= len,
                len == evs.len(),
                evs == storage@,
                events_well_formed(evs, n as int),
                base == identity(n as nat),
                n == self.num_records,
                n <= max_elements(),
                uf.wf(),
                uf@.len() == n,
                forall|m: int| 0 <= m < k ==> (#[trigger] evs[m]).0 >= threshold,
                same_partition(uf@, replay(base, evs.take(k as int))),
            ensures
                k < len ==> evs[k as int].0 < threshold,
            decreases len - k,
        {
            let merge = match storage.get(k) {
                Ok(Some(e)) => e,
                _ => {
                    proof {
                        assert(false);
                    }
                    return Err(String::new());
                },
            };
            if merge.threshold < threshold {
                break;
            }
            proof {
                lemma_replay_step(base, evs, k as int);
            }
            self.apply_merge_event(&mut uf, merge, Ghost(replay(base, evs.take(k as int))), Ghost(n as int));
            k = k + 1;
        }
        proof {
            if k < len {
                assert(evs[k as int].0 < threshold);
            }
            lemma_cut_exact(evs, threshold, k as int);
        }
        self.last_threshold = Some(threshold);
        self.union_find = Some(uf.copy());
        self.built_from = Ghost(evs);
        Ok(Arc::new(Self::build_partition_from_uf(&mut uf, threshold, Ghost(partition_at(evs, n as nat, threshold)))))
    }

    /// The events strictly below the last threshold and at or above
    /// `threshold`, applied to a copy of the kept union-find.
    fn apply_incremental_updates(&mut self, threshold: i64, storage: &InMemoryStorage) -> (r: Result<Arc<PartitionLevel>, String>)
        requires
            old(self).wf(),
            old(self).last_threshold matches Some(last) && last >= threshold,
            events_well_formed(storage@, old(self).records() as int),
            thresholds_descending(storage@),
            old(self).state_events() matches Some(e) ==> e == storage@,
        ensures
            final(self).wf(),
            final(self).records() == old(self).records(),
            final(self).state_events() == Some(storage@),
            r matches Ok(p) && p.threshold_spec() == threshold && sets_are_classes(
                p.entity_sets(),
                partition_at(storage@, old(self).records(), threshold),
            ),
    {
        let n = self.num_records;
        let last = match self.last_threshold {
            Some(t) => t,
            None => {
                proof {
                    assert(false);
                }
                0
            },
        };
        let mut uf = match &self.union_find {
            Some(u) => u.copy(),
            None => {
                proof {
                    assert(false);
                }
                UnionFind::new_vec(n)
            },
        };
        let ghost evs = storage@;
        let ghost base = identity(n as nat);
        let ghost c0 = cut(evs, last) as int;
        proof {
            lemma_cut_descending(evs, last);
            lemma_cut_descending(evs, threshold);
        }
        let len = storage.len();
        let mut i: usize = 0;
        while i < len
            invariant
                i <= len,
                len == evs.len(),
                evs == storage@,
                events_well_formed(evs, n as int),
                thresholds_descending(evs),
                base == identity(n as nat),
                n == self.num_records,
                n <= max_elements(),
                last >= threshold,
                c0 == cut(evs, last),
                c0 <= len,
                forall|m: int| 0 <= m < evs.len() ==> (m < c0 <==> (#[trigger] evs[m]).0 >= last),
                uf.wf(),
                uf@.len() == n,
                forall|m: int| 0 <= m < i ==> (#[trigger] evs[m]).0 >= threshold,
                same_partition(uf@, replay(base, evs.take(if i < c0 { c0 } else { i as int }))),
            ensures
                i < len ==> evs[i as int].0 < threshold,
            decreases len - i,
        {
            let merge = match storage.get(i) {
                Ok(Some(e)) => e,
                _ => {
                    proof {
                        assert(false);
                    }
                    return Err(String::new());
                },
            };
            if merge.threshold >= last {
                i = i + 1;
                continue;
            }
            if merge.threshold < threshold {
                break;
            }
            proof {
                assert(i >= c0);
                lemma_replay_step(base, evs, i as int);
            }
            self.apply_merge_event(&mut uf, merge, Ghost(replay(base, evs.take(i as int))), Ghost(n as int));
            i = i + 1;
        }
        proof {
            if i < len {
                assert(evs[i as int].0 < threshold);
                assert(evs[i as int].0 < last);
                assert(i >= c0);
            } else {
                if c0 > i {
                    assert(false);
                }
            }
            lemma_cut_exact(evs, threshold, i as int);
        }
        self.last_threshold = Some(threshold);
        self.union_find = Some(uf.copy());
        self.built_from = Ghost(evs);
        Ok(Arc::new(Self::build_partition_from_uf(&mut uf, threshold, Ghost(partition_at(evs, n as nat, threshold)))))
    }

    /// Unite the event's parent with each absorbed record, and note the
    /// parent as the canonical record of the resulting root.
    fn apply_merge_event(&mut self, uf: &mut UnionFind<VecBackend>, merge: &crate::hierarchy::merge_event::MergeEvent, Ghost(base): Ghost<Seq<int>>, Ghost(n): Ghost<int>)
        requires
            old(uf).wf(),
            old(uf)@.len() == n,
            same_partition(old(uf)@, base),
            (merge.parent_id as int) < n,
            bitmap_wf(merge.child_nodes),
            forall|x: u32| #[trigger] bitmap_set(merge.child_nodes).contains(x) ==> (x as int) < n,
        ensures
            final(uf).wf(),
            final(uf)@.len() == n,
            same_partition(final(uf)@, crate::hierarchy::relation::absorb(base, merge.parent_id as int, bitmap_set(merge.child_nodes))),
            final(self).num_records == old(self).num_records,
            final(self).last_threshold == old(self).last_threshold,
            final(self).union_find == old(self).union_find,
            final(self).built_from == old(self).built_from,
    {
        apply_event(uf, merge.parent_id, &merge.child_nodes, Ghost(base));
        let root = uf.find(merge.parent_id as usize);
        self.canonical_ids.insert(root, merge.parent_id);
    }

    /// The classes of the union-find as entities at `threshold`.
    fn build_partition_from_uf(uf: &mut UnionFind<VecBackend>, threshold: i64, Ghost(target): Ghost<Seq<int>>) -> (p: PartitionLevel)
        requires
            old(uf).wf(),
            same_partition(old(uf)@, target),
        ensures
            p.threshold_spec() == threshold,
            sets_are_classes(p.entity_sets(), target),
    {
        let comps = uf.get_all_components();
        proof {
            uf.lemma_canonical();
        }
        let entities = components_to_bitmaps(&comps, Ghost(uf@));
        let p = PartitionLevel::new(threshold, entities);
        proof {
            assert(p.entity_sets() =~= bitmap_sets(entities@));
            lemma_classes_transfer(p.entity_sets(), uf@, target);
        }
        p
    }
}

} // verus!
