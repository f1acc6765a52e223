use roaring::RoaringBitmap;
use std::collections::HashMap;
use vstd::prelude::*;

use crate::hierarchy::bitmap::{bitmap_insert, bitmap_is_empty, bitmap_new, bitmap_set, bitmap_values, bitmap_wf};
use crate::hierarchy::builder::PartitionHierarchy;
use crate::hierarchy::merge_event::MergeEvent;
use crate::hierarchy::builder::events_well_formed;
use crate::hierarchy::relation::{absorb, absorbed, cut, identity, lemma_replay_length, partition_at, replay};
use crate::hierarchy::storage::{bitmaps_wf, event_view, events_view};

verus! {

broadcast use vstd::std_specs::hash::group_hash_axioms;

/// Record indices of one data context mapped to those of another.
pub struct TranslationMap {
    old_to_new: HashMap<u32, u32>,
}

/// The translations of the members of `s` that have one.
pub open spec fn translate_set(m: Map<u32, u32>, s: Set<u32>) -> Set<u32> {
    Set::new(|n: u32| exists|o: u32| #[trigger] s.contains(o) && m.contains_key(o) && m[o] == n)
}

/// Events with parent and records translated; events whose records all lack
/// a translation are dropped. `None` when some parent lacks one.
pub open spec fn translate_events(m: Map<u32, u32>, evs: Seq<(i64, u32, Set<u32>)>) -> Option<Seq<(i64, u32, Set<u32>)>>
    decreases evs.len(),
{
    if evs.len() == 0 {
        Some(Seq::empty())
    } else {
        match translate_events(m, evs.drop_last()) {
            None => None,
            Some(prior) => {
                let e = evs.last();
                if !m.contains_key(e.1) {
                    None
                } else {
                    let kids = translate_set(m, e.2);
                    if kids == Set::<u32>::empty() {
                        Some(prior)
                    } else {
                        Some(prior.push((e.0, m[e.1], kids)))
                    }
                }
            },
        }
    }
}

impl View for TranslationMap {
    type V = Map<u32, u32>;

    closed spec fn view(&self) -> Map<u32, u32> {
        self.old_to_new@
    }
}

impl TranslationMap {
    /// An empty map.
    pub fn new() -> (m: Self)
        ensures
            m@ == Map::<u32, u32>::empty(),
    {
        TranslationMap { old_to_new: HashMap::new() }
    }

    /// Map `old_idx` to `new_idx`.
    pub fn insert(&mut self, old_idx: u32, new_idx: u32)
        ensures
            final(self)@ == old(self)@.insert(old_idx, new_idx),
    {
        self.old_to_new.insert(old_idx, new_idx);
    }

    /// The new index of `old_idx`, if it has one.
    pub fn translate(&self, old_idx: u32) -> (r: Option<u32>)
        ensures
            r == (if self@.contains_key(old_idx) {
                Some(self@[old_idx])
            } else {
                None
            }),
    {
        match self.old_to_new.get(&old_idx) {
            Some(v) => Some(*v),
            None => None,
        }
    }

    /// The new indices of the members of `old_bitmap` that have one.
    pub fn translate_bitmap(&self, old_bitmap: &RoaringBitmap) -> (b: RoaringBitmap)
        requires
            bitmap_wf(*old_bitmap),
        ensures
            bitmap_wf(b),
            bitmap_set(b) == translate_set(self@, bitmap_set(*old_bitmap)),
    {
        let values = bitmap_values(old_bitmap);
        let ghost s = bitmap_set(*old_bitmap);
        let ghost m = self@;
        let mut new_bitmap = bitmap_new();
        let mut i: usize = 0;
        while i < values.len()
            invariant
                i <= values@.len(),
                values@.to_set() == s,
                m == self@,
                bitmap_wf(new_bitmap),
                bitmap_set(new_bitmap) == translate_set(m, values@.subrange(0, i as int).to_set()),
            decreases values@.len() - i,
        {
            let old_idx = values[i];
            let ghost pre = values@.subrange(0, i as int);
            let ghost full = values@.subrange(0, i + 1);
            let ghost before = bitmap_set(new_bitmap);
            match self.translate(old_idx) {
                Some(new_idx) => {
                    bitmap_insert(&mut new_bitmap, new_idx);
                },
                None => {},
            }
            proof {
                assert(full =~= pre.push(old_idx));
                assert(bitmap_set(new_bitmap) =~= translate_set(m, full.to_set())) by {
                    assert forall|n: u32| #[trigger] translate_set(m, full.to_set()).contains(n) == bitmap_set(new_bitmap).contains(n) by {
                        if translate_set(m, full.to_set()).contains(n) {
                            let o = choose|o: u32| #[trigger] full.to_set().contains(o) && m.contains_key(o) && m[o] == n;
                            let w = choose|w: int| 0 <= w < full.len() && #[trigger] full[w] == o;
                            if w < i {
                                assert(pre[w] == o);
                                assert(pre.to_set().contains(o));
                            }
                        }
                        if before.contains(n) {
                            let o = choose|o: u32| #[trigger] pre.to_set().contains(o) && m.contains_key(o) && m[o] == n;
                            let w = choose|w: int| 0 <= w < pre.len() && #[trigger] pre[w] == o;
                            assert(full[w] == o);
                            assert(full.to_set().contains(o));
                        }
                        if m.contains_key(old_idx) && n == m[old_idx] {
                            assert(full[i as int] == old_idx);
                            assert(full.to_set().contains(old_idx));
                        }
                    }
                }
            }
            i = i + 1;
        }
        proof {
            assert(values@.subrange(0, values@.len() as int) =~= values@);
        }
        new_bitmap
    }
}

/// The hierarchy's events with records translated by `translation_map`;
/// fails when a parent has no translation, and drops events left with no
/// records.
pub fn translate_merge_events(hierarchy: &PartitionHierarchy, translation_map: &TranslationMap) -> (r: Result<Vec<MergeEvent>, String>)
    ensures
        match translate_events(translation_map@, hierarchy.events()) {
            Some(t) => r matches Ok(v) && events_view(v@) == t,
            None => r is Err,
        },
{
    let source_merges = hierarchy.get_merge_events();
    let ghost evs = hierarchy.events();
    let ghost m = translation_map@;
    let mut translated: Vec<MergeEvent> = Vec::new();
    let mut i: usize = 0;
    proof {
        assert(evs.take(0) =~= Seq::<(i64, u32, Set<u32>)>::empty());
    }
    while i < source_merges.len()
        invariant
            i <= source_merges@.len(),
            events_view(source_merges@) == evs,
            bitmaps_wf(source_merges@),
            bitmaps_wf(translated@),
            evs == hierarchy.events(),
            m == translation_map@,
            translate_events(m, evs.take(i as int)) == Some(events_view(translated@)),
        decreases source_merges@.len() - i,
    {
        let merge = &source_merges[i];
        proof {
            assert(evs.take(i + 1).drop_last() =~= evs.take(i as int));
            assert(evs.take(i + 1).last() == event_view(*merge));
        }
        let new_parent_id = match translation_map.translate(merge.parent_id) {
            Some(p) => p,
            None => {
                proof {
                    assert(!m.contains_key(evs.take(i + 1).last().1));
                    assert(translate_events(m, evs.take(i + 1)) is None);
                    lemma_translate_fails_forever(m, evs, i + 1);
                }
                return Err(parent_translation_message(merge.parent_id));
            },
        };
        let new_child_nodes = translation_map.translate_bitmap(&merge.child_nodes);
        if !bitmap_is_empty(&new_child_nodes) {
            let ghost before = translated@;
            let event = MergeEvent::new(merge.threshold, new_parent_id, new_child_nodes);
            translated.push(event);
            proof {
                assert(events_view(translated@) =~= events_view(before).push(event_view(event)));
            }
        }
        i = i + 1;
    }
    proof {
        assert(evs.take(source_merges@.len() as int) =~= evs);
    }
    Ok(translated)
}

/// Once a prefix fails to translate, every longer list fails.
proof fn lemma_translate_fails_forever(m: Map<u32, u32>, evs: Seq<(i64, u32, Set<u32>)>, k: int)
    requires
        0 <= k <= evs.len(),
        translate_events(m, evs.take(k)) is None,
    ensures
        translate_events(m, evs) is None,
    decreases evs.len() - k,
{
    if k == evs.len() {
        assert(evs.take(k) =~= evs);
    } else {
        assert(evs.take(k + 1).drop_last() =~= evs.take(k));
        lemma_translate_fails_forever(m, evs, k + 1);
    }
}

/// The message for a parent record with no translation.
#[verifier::external_body]
fn parent_translation_message(parent_id: u32) -> String {
    format!("Failed to translate parent_id {}", parent_id)
}

/// `m` sends the records below `n` one to one to records below `n2`.
pub open spec fn renames(m: Map<u32, u32>, n: nat, n2: nat) -> bool {
    &&& forall|i: u32| (i as int) < n ==> #[trigger] m.contains_key(i) && (m[i] as int) < n2
    &&& forall|i: u32, j: u32| (i as int) < n && (j as int) < n && #[trigger] m[i] == #[trigger] m[j] ==> i == j
}

/// Every event absorbs at least one record.
pub open spec fn children_nonempty(evs: Seq<(i64, u32, Set<u32>)>) -> bool {
    forall|k: int| 0 <= k < evs.len() ==> (#[trigger] evs[k]).2 != Set::<u32>::empty()
}

/// The events renamed by `m`, each kept.
pub open spec fn renamed_events(m: Map<u32, u32>, evs: Seq<(i64, u32, Set<u32>)>) -> Seq<(i64, u32, Set<u32>)> {
    evs.map_values(|e: (i64, u32, Set<u32>)| (e.0, m[e.1], translate_set(m, e.2)))
}

/// Records `i` and `j` are together in `r` exactly when their names are
/// together in `r2`, and the class of a renamed record holds only renamed
/// records.
pub open spec fn corresponds(m: Map<u32, u32>, r: Seq<int>, r2: Seq<int>, n: nat, n2: nat) -> bool {
    &&& r.len() == n
    &&& r2.len() == n2
    &&& forall|i: u32, j: u32|
        (i as int) < n && (j as int) < n ==> ((r[i as int] == r[j as int]) == (#[trigger] r2[m[i] as int]
            == #[trigger] r2[m[j] as int]))
    &&& forall|i: u32, w: int|
        (i as int) < n && 0 <= w < n2 && #[trigger] r2[w] == #[trigger] r2[m[i] as int] ==> exists|o: u32|
            (o as int) < n && m[o] as int == w
}

/// Absorbing an event keeps the correspondence with its renamed form.
proof fn lemma_absorb_corresponds(
    m: Map<u32, u32>,
    r: Seq<int>,
    r2: Seq<int>,
    n: nat,
    n2: nat,
    p: u32,
    kids: Set<u32>,
)
    requires
        renames(m, n, n2),
        corresponds(m, r, r2, n, n2),
        (p as int) < n,
        forall|c: u32| #[trigger] kids.contains(c) ==> (c as int) < n,
    ensures
        corresponds(m, absorb(r, p as int, kids), absorb(r2, m[p] as int, translate_set(m, kids)), n, n2),
{
    let a = absorb(r, p as int, kids);
    let mk = translate_set(m, kids);
    let a2 = absorb(r2, m[p] as int, mk);
    assert(m.contains_key(p));
    assert forall|i: u32| (i as int) < n implies absorbed(r, p as int, kids, i as int) == absorbed(
        r2,
        m[p] as int,
        mk,
        m[i] as int,
    ) by {
        assert((r[i as int] == r[p as int]) == (r2[m[i] as int] == r2[m[p] as int]));
        if exists|c: u32| #[trigger] kids.contains(c) && r[i as int] == r[c as int] {
            let c = choose|c: u32| #[trigger] kids.contains(c) && r[i as int] == r[c as int];
            assert(r2[m[i] as int] == r2[m[c] as int]);
            assert(mk.contains(m[c]));
        }
        if exists|c2: u32| #[trigger] mk.contains(c2) && r2[m[i] as int] == r2[c2 as int] {
            let c2 = choose|c2: u32| #[trigger] mk.contains(c2) && r2[m[i] as int] == r2[c2 as int];
            let o = choose|o: u32| #[trigger] kids.contains(o) && m.contains_key(o) && m[o] == c2;
            assert(r[i as int] == r[o as int]);
        }
    }
    assert forall|i: u32, j: u32| (i as int) < n && (j as int) < n implies ((a[i as int] == a[j as int]) == (
    #[trigger] a2[m[i] as int] == #[trigger] a2[m[j] as int])) by {
        assert(m.contains_key(i) && m.contains_key(j));
        assert(absorbed(r, p as int, kids, i as int) == absorbed(r2, m[p] as int, mk, m[i] as int));
        assert(absorbed(r, p as int, kids, j as int) == absorbed(r2, m[p] as int, mk, m[j] as int));
        assert((r[i as int] == r[j as int]) == (r2[m[i] as int] == r2[m[j] as int]));
        assert((r[j as int] == r[p as int]) == (r2[m[j] as int] == r2[m[p] as int]));
        assert((r[i as int] == r[p as int]) == (r2[m[i] as int] == r2[m[p] as int]));
    }
    assert forall|i: u32, w: int|
        (i as int) < n && 0 <= w < n2 && #[trigger] a2[w] == #[trigger] a2[m[i] as int] implies exists|o: u32|
            (o as int) < n && m[o] as int == w by {
        assert(m.contains_key(i));
        assert(absorbed(r, p as int, kids, i as int) == absorbed(r2, m[p] as int, mk, m[i] as int));
        if absorbed(r2, m[p] as int, mk, w) {
            if r2[w] == r2[m[p] as int] {
                assert(r2[w] == r2[m[p] as int]);
            } else {
                let c2 = choose|c2: u32| #[trigger] mk.contains(c2) && r2[w] == r2[c2 as int];
                let o = choose|o: u32| #[trigger] kids.contains(o) && m.contains_key(o) && m[o] == c2;
                assert(r2[w] == r2[m[o] as int]);
            }
        } else if absorbed(r2, m[p] as int, mk, m[i] as int) {
            assert(r2[w] == r2[m[p] as int]);
        } else {
            assert(r2[w] == r2[m[i] as int]);
        }
    }
}

/// Replaying the events and their renamed forms keeps the correspondence.
proof fn lemma_replay_corresponds(m: Map<u32, u32>, evs: Seq<(i64, u32, Set<u32>)>, n: nat, n2: nat)
    requires
        renames(m, n, n2),
        events_well_formed(evs, n as int),
    ensures
        corresponds(m, replay(identity(n), evs), replay(identity(n2), renamed_events(m, evs)), n, n2),
    decreases evs.len(),
{
    if evs.len() == 0 {
        assert(renamed_events(m, evs) =~= Seq::<(i64, u32, Set<u32>)>::empty());
        let r2 = identity(n2);
        assert forall|i: u32, w: int|
            (i as int) < n && 0 <= w < n2 && #[trigger] r2[w] == #[trigger] r2[m[i] as int] implies exists|o: u32|
                (o as int) < n && m[o] as int == w by {
            assert(m.contains_key(i));
            assert(m[i] as int == w);
        }
        assert forall|i: u32, j: u32| (i as int) < n && (j as int) < n implies ((identity(n)[i as int] == identity(
            n,
        )[j as int]) == (#[trigger] r2[m[i] as int] == #[trigger] r2[m[j] as int])) by {
            assert(m.contains_key(i) && m.contains_key(j));
        }
    } else {
        let d = evs.drop_last();
        let e = evs.last();
        assert(events_well_formed(d, n as int)) by {
            assert forall|k: int| 0 <= k < d.len() implies {
                let x = #[trigger] d[k];
                &&& (x.1 as int) < n
                &&& forall|v: u32| #[trigger] x.2.contains(v) ==> (v as int) < n
            } by {
                assert(d[k] == evs[k]);
            }
        }
        lemma_replay_corresponds(m, d, n, n2);
        assert(renamed_events(m, evs).drop_last() =~= renamed_events(m, d));
        assert(evs[evs.len() - 1] == e);
        lemma_replay_length(identity(n), d);
        lemma_replay_length(identity(n2), renamed_events(m, d));
        lemma_absorb_corresponds(
            m,
            replay(identity(n), d),
            replay(identity(n2), renamed_events(m, d)),
            n,
            n2,
            e.1,
            e.2,
        );
    }
}

/// With every record translated, an event is dropped only when it absorbs
/// nothing, so events that each absorb something are all kept, renamed.
proof fn lemma_translate_keeps_all(m: Map<u32, u32>, evs: Seq<(i64, u32, Set<u32>)>, n: nat, n2: nat)
    requires
        renames(m, n, n2),
        events_well_formed(evs, n as int),
        children_nonempty(evs),
    ensures
        translate_events(m, evs) == Some(renamed_events(m, evs)),
    decreases evs.len(),
{
    if evs.len() == 0 {
        assert(renamed_events(m, evs) =~= Seq::<(i64, u32, Set<u32>)>::empty());
    } else {
        let d = evs.drop_last();
        let e = evs.last();
        assert(evs[evs.len() - 1] == e);
        assert forall|k: int| 0 <= k < d.len() implies #[trigger] d[k] == evs[k] by {}
        lemma_translate_keeps_all(m, d, n, n2);
        assert(e.2 != Set::<u32>::empty());
        if !(exists|c: u32| e.2.contains(c)) {
            assert(e.2 =~= Set::<u32>::empty());
        }
        let c = choose|c: u32| e.2.contains(c);
        assert((c as int) < n);
        assert(m.contains_key(c));
        assert(translate_set(m, e.2).contains(m[c]));
        assert(renamed_events(m, evs) =~= renamed_events(m, d).push((e.0, m[e.1], translate_set(m, e.2))));
    }
}

/// Renaming keeps every event's threshold, so it keeps the cut.
proof fn lemma_renamed_cut(m: Map<u32, u32>, evs: Seq<(i64, u32, Set<u32>)>, t: i64)
    ensures
        cut(renamed_events(m, evs), t) == cut(evs, t),
    decreases evs.len(),
{
    if evs.len() > 0 {
        assert(renamed_events(m, evs).drop_first() =~= renamed_events(m, evs.drop_first()));
        lemma_renamed_cut(m, evs.drop_first(), t);
    }
}

/// A hierarchy translated to new record names keeps its partitions: at
/// every threshold, two records share an entity exactly when their new
/// names do, when every record has a distinct new name and every event
/// absorbs something.
pub proof fn lemma_translated_partitions(m: Map<u32, u32>, evs: Seq<(i64, u32, Set<u32>)>, n: nat, n2: nat, t: i64)
    requires
        renames(m, n, n2),
        events_well_formed(evs, n as int),
        children_nonempty(evs),
    ensures
        translate_events(m, evs) matches Some(te) && forall|i: u32, j: u32|
            (i as int) < n && (j as int) < n ==> ((partition_at(evs, n, t)[i as int] == partition_at(evs, n, t)[j as int])
                == (#[trigger] partition_at(te, n2, t)[m[i] as int] == #[trigger] partition_at(te, n2, t)[m[j] as int])),
{
    lemma_translate_keeps_all(m, evs, n, n2);
    let te = renamed_events(m, evs);
    lemma_renamed_cut(m, evs, t);
    let c = cut(evs, t) as int;
    crate::hierarchy::relation::lemma_cut_le_len(evs, t);
    assert(te.take(c) =~= renamed_events(m, evs.take(c)));
    assert(events_well_formed(evs.take(c), n as int)) by {
        assert forall|k: int| 0 <= k < evs.take(c).len() implies {
            let x = #[trigger] evs.take(c)[k];
            &&& (x.1 as int) < n
            &&& forall|v: u32| #[trigger] x.2.contains(v) ==> (v as int) < n
        } by {
            assert(evs.take(c)[k] == evs[k]);
        }
    }
    lemma_replay_corresponds(m, evs.take(c), n, n2);
}

/// Translating one event more: when its parent has no translation the
/// whole translation fails; when it has one and some record it absorbs
/// does too, the event is kept, with the translated parent and exactly the
/// translations of those of its records that have one, the others left
/// out; when none of its records translates, it is dropped.
pub proof fn lemma_translate_next_event(m: Map<u32, u32>, evs: Seq<(i64, u32, Set<u32>)>, e: (i64, u32, Set<u32>))
    requires
        translate_events(m, evs) is Some,
    ensures
        !m.contains_key(e.1) ==> translate_events(m, evs.push(e)) is None,
        m.contains_key(e.1) && (exists|o: u32| #[trigger] e.2.contains(o) && m.contains_key(o)) ==> {
            let prior = translate_events(m, evs).unwrap();
            &&& translate_events(m, evs.push(e)) is Some
            &&& translate_events(m, evs.push(e)).unwrap().len() == prior.len() + 1
            &&& translate_events(m, evs.push(e)).unwrap().drop_last() == prior
            &&& translate_events(m, evs.push(e)).unwrap().last().0 == e.0
            &&& translate_events(m, evs.push(e)).unwrap().last().1 == m[e.1]
            &&& forall|o: u32|
                #[trigger] e.2.contains(o) && m.contains_key(o) ==> translate_events(m, evs.push(e)).unwrap().last().2.contains(
                    m[o],
                )
            &&& forall|x: u32|
                #[trigger] translate_events(m, evs.push(e)).unwrap().last().2.contains(x) ==> exists|o: u32|
                    #[trigger] e.2.contains(o) && m.contains_key(o) && m[o] == x
        },
        m.contains_key(e.1) && !(exists|o: u32| #[trigger] e.2.contains(o) && m.contains_key(o)) ==> translate_events(
            m,
            evs.push(e),
        ) == translate_events(m, evs),
{
    let pushed = evs.push(e);
    assert(pushed.drop_last() =~= evs);
    assert(pushed.last() == e);
    let kids = translate_set(m, e.2);
    if m.contains_key(e.1) {
        if exists|o: u32| #[trigger] e.2.contains(o) && m.contains_key(o) {
            let o = choose|o: u32| #[trigger] e.2.contains(o) && m.contains_key(o);
            assert(kids.contains(m[o]));
            assert(kids != Set::<u32>::empty());
            let prior = translate_events(m, evs).unwrap();
            let t = prior.push((e.0, m[e.1], kids));
            assert(translate_events(m, pushed) == Some(t));
            assert(t.drop_last() =~= prior);
        } else {
            assert(kids =~= Set::<u32>::empty());
        }
    }
}

} // verus!
