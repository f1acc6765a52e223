use vstd::prelude::*;

use crate::hierarchy::builder::{class_of, events_well_formed, lemma_absorb_class};
use crate::hierarchy::relation::{
    components_at, cut, held, identity, join, lemma_replay_length, lemma_same_partition_refl, partition_at, replay,
    same_partition, sets_are_classes,
};

verus! {

/// Whether `v` is the smallest record of its entity.
pub open spec fn leads(reps: Seq<int>, v: int) -> bool {
    0 <= v < reps.len() && forall|w: int| 0 <= w < v ==> #[trigger] reps[w] != reps[v]
}

/// The smallest record of each entity.
pub open spec fn leaders(reps: Seq<int>) -> Set<int> {
    Set::new(|v: int| leads(reps, v))
}

/// Number of entities of a partition.
pub open spec fn entity_count(reps: Seq<int>) -> nat {
    leaders(reps).len()
}

/// Event `k` absorbs exactly one entity of the partition that the events
/// before it make, and not the entity of its own parent, which is the
/// smallest record of its entity.
pub open spec fn absorbs_one_entity(events: Seq<(i64, u32, Set<u32>)>, n: nat, k: int) -> bool {
    let r = replay(identity(n), events.take(k));
    &&& leads(r, events[k].1 as int)
    &&& exists|c: u32|
        (c as int) < n && r[c as int] != r[events[k].1 as int] && #[trigger] class_of(r, r[c as int]) == events[k].2
}

/// Every event absorbs exactly one other entity.
pub open spec fn events_absorb_entities(events: Seq<(i64, u32, Set<u32>)>, n: nat) -> bool {
    forall|k: int| 0 <= k < events.len() ==> #[trigger] absorbs_one_entity(events, n, k)
}

/// There are finitely many entities, at most one per record.
pub proof fn lemma_leaders_finite(reps: Seq<int>)
    ensures
        leaders(reps).finite(),
        leaders(reps).len() <= reps.len(),
{
    let range = vstd::set_lib::set_int_range(0, reps.len() as int);
    vstd::set_lib::lemma_int_range(0, reps.len() as int);
    assert(leaders(reps).subset_of(range));
    vstd::set_lib::lemma_len_subset(leaders(reps), range);
}

/// Before any merge every record is an entity of its own.
pub proof fn lemma_identity_count(n: nat)
    ensures
        entity_count(identity(n)) == n,
{
    let range = vstd::set_lib::set_int_range(0, n as int);
    vstd::set_lib::lemma_int_range(0, n as int);
    assert(leaders(identity(n)) =~= range);
}

/// Partitions that put the same pairs together have the same entities.
pub proof fn lemma_count_same_partition(a: Seq<int>, b: Seq<int>)
    requires
        same_partition(a, b),
    ensures
        leaders(a) == leaders(b),
        entity_count(a) == entity_count(b),
{
    assert forall|v: int| leads(a, v) == leads(b, v) by {
        if 0 <= v < a.len() {
            assert forall|w: int| 0 <= w < v implies (a[w] != a[v]) == (b[w] != b[v]) by {
                assert((a[w] == a[v]) == (b[w] == b[v]));
            }
        }
    }
    assert(leaders(a) =~= leaders(b));
}

/// Every record has a smallest record of its entity at or below it.
proof fn lemma_has_leader(reps: Seq<int>, v: int) -> (l: int)
    requires
        0 <= v < reps.len(),
    ensures
        leads(reps, l),
        l <= v,
        reps[l] == reps[v],
    decreases v,
{
    if leads(reps, v) {
        v
    } else {
        let w = choose|w: int| 0 <= w < v && #[trigger] reps[w] == reps[v];
        lemma_has_leader(reps, w)
    }
}

/// Joining two different entities leaves one entity fewer.
pub proof fn lemma_join_count(r: Seq<int>, p: int, c: int)
    requires
        0 <= p < r.len(),
        0 <= c < r.len(),
        r[p] != r[c],
    ensures
        entity_count(join(r, p, c)) + 1 == entity_count(r),
{
    let j = join(r, p, c);
    let lp = lemma_has_leader(r, p);
    let lc = lemma_has_leader(r, c);
    let m = if lp < lc { lc } else { lp };
    let low = if lp < lc { lp } else { lc };
    assert(j.len() == r.len());
    assert forall|v: int| #[trigger] leads(j, v) == (leads(r, v) && v != m) by {
        if 0 <= v < r.len() {
            let merged = r[v] == r[p] || r[v] == r[c];
            if !merged {
                assert(j[v] == r[v]);
                assert forall|w: int| 0 <= w < v implies (j[w] != j[v]) == (r[w] != r[v]) by {
                    if r[w] == r[p] || r[w] == r[c] {
                        assert(j[w] == r[p]);
                    } else {
                        assert(j[w] == r[w]);
                    }
                }
                assert(r[m] == r[p] || r[m] == r[c]);
            } else {
                assert(j[v] == r[p]);
                if leads(j, v) {
                    assert forall|w: int| 0 <= w < v implies r[w] != r[v] by {
                        if r[w] == r[v] {
                            assert(j[w] == r[p]);
                            assert(j[w] == j[v]);
                        }
                    }
                    if v == m {
                        assert(j[low] == r[p]);
                        assert(low < v);
                        assert(j[low] != j[v]);
                    }
                }
                if leads(r, v) && v != m {
                    if r[v] == r[p] {
                        if v != lp {
                            if v < lp {
                                assert(r[v] != r[lp]);
                            } else {
                                assert(r[lp] != r[v]);
                            }
                        }
                    } else {
                        if v != lc {
                            if v < lc {
                                assert(r[v] != r[lc]);
                            } else {
                                assert(r[lc] != r[v]);
                            }
                        }
                    }
                    assert(v == low);
                    assert forall|w: int| 0 <= w < v implies j[w] != j[v] by {
                        if r[w] == r[p] {
                            assert(r[w] != r[lp]);
                        } else if r[w] == r[c] {
                            assert(r[w] != r[lc]);
                        } else {
                            assert(j[w] == r[w]);
                        }
                    }
                }
            }
        }
    }
    assert(leaders(j) =~= leaders(r).remove(m));
    lemma_leaders_finite(r);
    assert(leaders(r).contains(m));
}

/// With every event absorbing one other entity, the first `k` events leave
/// `n - k` entities.
pub proof fn lemma_event_count(events: Seq<(i64, u32, Set<u32>)>, n: nat, k: int)
    requires
        events_absorb_entities(events, n),
        events_well_formed(events, n as int),
        0 <= k <= events.len(),
    ensures
        k + entity_count(replay(identity(n), events.take(k))) == n,
    decreases k,
{
    if k == 0 {
        assert(events.take(0) =~= Seq::<(i64, u32, Set<u32>)>::empty());
        lemma_identity_count(n);
    } else {
        lemma_event_count(events, n, k - 1);
        let before = events.take(k - 1);
        let r = replay(identity(n), before);
        assert(events.take(k).drop_last() =~= before);
        assert(events.take(k).last() == events[k - 1]);
        assert(absorbs_one_entity(events, n, k - 1));
        let e = events[k - 1];
        let c = choose|c: u32|
            (c as int) < n && r[c as int] != r[e.1 as int] && #[trigger] class_of(r, r[c as int]) == e.2;
        lemma_replay_length(identity(n), before);
        lemma_same_partition_refl(r);
        lemma_absorb_class(r, r, e.1 as int, c);
        lemma_join_count(r, e.1 as int, c as int);
    }
}

/// The events at or above `t` number the records less the entities that
/// the edges at or above `t` leave, when they rebuild those entities.
pub proof fn lemma_events_per_threshold(
    events: Seq<(i64, u32, Set<u32>)>,
    edges: Seq<(u32, u32, i64)>,
    n: nat,
    t: i64,
)
    requires
        events_absorb_entities(events, n),
        events_well_formed(events, n as int),
        same_partition(partition_at(events, n, t), components_at(edges, n, t)),
    ensures
        cut(events, t) + entity_count(components_at(edges, n, t)) == n,
{
    crate::hierarchy::relation::lemma_cut_le_len(events, t);
    lemma_event_count(events, n, cut(events, t) as int);
    lemma_count_same_partition(partition_at(events, n, t), components_at(edges, n, t));
}

/// The set of `sets` that holds `v`.
pub open spec fn holder(sets: Seq<Set<u32>>, v: int) -> int {
    choose|k: int| 0 <= k < sets.len() && #[trigger] sets[k].contains(v as u32)
}

/// Sets that are exactly the classes of `reps` are as many as its entities.
pub proof fn lemma_classes_count(sets: Seq<Set<u32>>, reps: Seq<int>)
    requires
        sets_are_classes(sets, reps),
        reps.len() <= u32::MAX + 1,
    ensures
        sets.len() == entity_count(reps),
{
    let x = leaders(reps);
    let range = vstd::set_lib::set_int_range(0, sets.len() as int);
    let f = |l: int| holder(sets, l);
    lemma_leaders_finite(reps);
    assert forall|l: int| x.contains(l) implies 0 <= #[trigger] f(l) < sets.len() && sets[f(l)].contains(l as u32) by {
        assert(held(sets, l));
    }
    assert(vstd::relations::injective_on(f, x)) by {
        assert forall|l1: int, l2: int| x.contains(l1) && x.contains(l2) && #[trigger] f(l1) == #[trigger] f(l2) implies l1 == l2 by {
            let k = f(l1);
            assert(sets[k].contains(l1 as u32) && sets[k].contains(l2 as u32));
            assert(reps[l1] == reps[l2]);
            if l1 < l2 {
                assert(reps[l1] != reps[l2]);
            } else if l2 < l1 {
                assert(reps[l2] != reps[l1]);
            }
        }
    }
    assert forall|k: int| #[trigger] range.contains(k) implies x.map(f).contains(k) by {
        assert(sets[k] != Set::<u32>::empty());
        let v = choose|v: u32| sets[k].contains(v);
        if !sets[k].contains(v) {
            assert(sets[k] =~= Set::<u32>::empty());
        }
        assert((v as int) < reps.len());
        let l = lemma_has_leader(reps, v as int);
        assert(x.contains(l));
        let k2 = f(l);
        assert(sets[k2].contains(l as u32));
        assert(reps[l] == reps[v as int]);
        if k2 != k {
            assert(reps[v as int] != reps[(l as u32) as int]);
        }
        assert(f(l) == k);
    }
    assert(x.map(f) =~= range);
    vstd::set_lib::lemma_int_range(0, sets.len() as int);
    vstd::set_lib::lemma_map_size(x, range, f);
}

/// With every event absorbing one other entity, lowering the threshold
/// never raises the number of entities.
pub proof fn lemma_count_monotone(events: Seq<(i64, u32, Set<u32>)>, n: nat, low: i64, high: i64)
    requires
        events_absorb_entities(events, n),
        events_well_formed(events, n as int),
        low <= high,
    ensures
        entity_count(partition_at(events, n, low)) <= entity_count(partition_at(events, n, high)),
{
    crate::hierarchy::relation::lemma_cut_monotone(events, low, high);
    crate::hierarchy::relation::lemma_cut_le_len(events, low);
    lemma_event_count(events, n, cut(events, low) as int);
    lemma_event_count(events, n, cut(events, high) as int);
}

} // verus!
