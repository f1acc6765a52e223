//! Moving the sizes and overlaps kept for a sweep to a new partition of the
//! records in one step: each new entity takes over what the old entities it
//! holds had.

use roaring::RoaringBitmap;
use std::collections::HashMap;
use vstd::prelude::*;

use crate::hierarchy::bitmap::{all_bitmaps_wf, bitmap_set, bitmap_values, bitmap_wf, lemma_u32_set_finite};
use crate::hierarchy::partition::{sum_u32, PartitionLevel};
use crate::metrics::algorithms::delta::{
    add_row, canonical, canonical_id, lemma_added_rows, lookup, marginals_upto, overlap_row, overlap_row_of, overlap_table,
    row_of, rows_view, DeltaState,
};
use crate::metrics::algorithms::merge_rebuild::{disjoint_entities, lemma_distinct_ids, lemma_marginals_shape, set_sizes};

verus! {

broadcast use vstd::std_specs::hash::group_hash_axioms;

/// The ids of the old entities that `e` holds.
pub open spec fn held_ids(e: Set<u32>, rows: Map<u32, u32>) -> Set<u32> {
    e.filter(|x: u32| rows.contains_key(x))
}

/// The total size of the old entities with the given ids.
pub open spec fn size_sum(ids: Set<u32>, rows: Map<u32, u32>) -> int
    decreases ids.len(),
{
    if ids.finite() && ids.len() > 0 {
        proof {
            assert(ids.contains(ids.choose())) by {
                if !(exists|y: u32| ids.contains(y)) {
                    assert(ids =~= Set::<u32>::empty());
                }
            }
        }
        lookup(rows, ids.choose()) + size_sum(ids.remove(ids.choose()), rows)
    } else {
        0
    }
}

/// Taking any one id out of a set splits its total size.
pub proof fn lemma_size_sum_remove(ids: Set<u32>, a: u32, rows: Map<u32, u32>)
    requires
        ids.finite(),
        ids.contains(a),
    ensures
        size_sum(ids, rows) == lookup(rows, a) + size_sum(ids.remove(a), rows),
    decreases ids.len(),
{
    let x = ids.choose();
    assert(ids.contains(x));
    if x != a {
        lemma_size_sum_remove(ids.remove(x), a, rows);
        lemma_size_sum_remove(ids.remove(a), x, rows);
        assert(ids.remove(x).remove(a) =~= ids.remove(a).remove(x));
    }
}

/// Adding a new id adds its size.
pub proof fn lemma_size_sum_insert(ids: Set<u32>, a: u32, rows: Map<u32, u32>)
    requires
        ids.finite(),
        !ids.contains(a),
    ensures
        size_sum(ids.insert(a), rows) == lookup(rows, a) + size_sum(ids, rows),
{
    lemma_size_sum_remove(ids.insert(a), a, rows);
    assert(ids.insert(a).remove(a) =~= ids);
}

/// A subset has no larger total size.
proof fn lemma_size_sum_subset(small: Set<u32>, large: Set<u32>, rows: Map<u32, u32>)
    requires
        large.finite(),
        small.subset_of(large),
    ensures
        size_sum(small, rows) <= size_sum(large, rows),
    decreases large.len(),
{
    vstd::set_lib::lemma_len_subset(small, large);
    if !(large =~= small) {
        assert(exists|b: u32| large.contains(b) && !small.contains(b)) by {
            if !(exists|b: u32| large.contains(b) && !small.contains(b)) {
                assert(large =~= small);
            }
        }
        let b = choose|b: u32| large.contains(b) && !small.contains(b);
        lemma_size_sum_remove(large, b, rows);
        lemma_size_sum_subset(small, large.remove(b), rows);
    }
}

/// A set of at most one id has a total size within a `u32`.
proof fn lemma_size_sum_small(ids: Set<u32>, rows: Map<u32, u32>)
    requires
        ids.finite(),
        ids.len() <= 1,
    ensures
        size_sum(ids, rows) <= u32::MAX,
        ids.len() == 1 ==> ids =~= set![ids.choose()],
{
    if ids.len() == 1 {
        let x = ids.choose();
        assert(ids.contains(x)) by {
            if !(exists|y: u32| ids.contains(y)) {
                assert(ids =~= Set::<u32>::empty());
            }
        }
        lemma_size_sum_remove(ids, x, rows);
        assert(ids.remove(x) =~= Set::<u32>::empty()) by {
            assert(ids.remove(x).len() == 0);
            if !(ids.remove(x) =~= Set::<u32>::empty()) {
                let y = choose|y: u32| ids.remove(x).contains(y);
                assert(ids.remove(x).contains(y));
            }
        }
        assert(ids =~= set![x]) by {
            assert forall|y: u32| ids.contains(y) implies y == x by {
                if y != x {
                    assert(ids.remove(x).contains(y));
                }
            }
        }
    } else {
        assert(ids =~= Set::<u32>::empty());
    }
}

/// How many of `values` are ids of old entities, the first of them, and
/// their total size; `None` once that total passes the largest `u32`.
fn held_summary(values: &Vec<u32>, rows: &HashMap<u32, u32>) -> (r: Option<(usize, u32, u32)>)
    requires
        forall|i: int, j: int| 0 <= i < j < values@.len() ==> values@[i] < values@[j],
    ensures
        r is None <==> size_sum(held_ids(values@.to_set(), rows@), rows@) > u32::MAX,
        r matches Some(t) ==> {
            &&& t.0 == held_ids(values@.to_set(), rows@).len()
            &&& t.2 == size_sum(held_ids(values@.to_set(), rows@), rows@)
            &&& t.0 >= 1 ==> held_ids(values@.to_set(), rows@).contains(t.1)
        },
{
    let mut count: usize = 0;
    let mut first: u32 = 0;
    let mut sum: u32 = 0;
    let mut i: usize = 0;
    proof {
        assert(held_ids(values@.take(0).to_set(), rows@) =~= Set::<u32>::empty());
    }
    while i < values.len()
        invariant
            i <= values@.len(),
            forall|a: int, b: int| 0 <= a < b < values@.len() ==> values@[a] < values@[b],
            count == held_ids(values@.take(i as int).to_set(), rows@).len(),
            count <= i,
            sum == size_sum(held_ids(values@.take(i as int).to_set(), rows@), rows@),
            count >= 1 ==> held_ids(values@.take(i as int).to_set(), rows@).contains(first),
        decreases values@.len() - i,
    {
        let x = values[i];
        let ghost before = held_ids(values@.take(i as int).to_set(), rows@);
        let ghost after = held_ids(values@.take(i + 1).to_set(), rows@);
        proof {
            assert(values@.take(i + 1) =~= values@.take(i as int).push(x));
            values@.take(i as int).lemma_push_to_set_commute(x);
            assert(!values@.take(i as int).to_set().contains(x)) by {
                let t = values@.take(i as int);
                if t.to_set().contains(x) {
                    let j = choose|j: int| 0 <= j < t.len() && #[trigger] t[j] == x;
                    assert(values@[j] < values@[i as int]);
                }
            }
            lemma_u32_set_finite(before);
        }
        match rows.get(&x) {
            Some(size) => {
                proof {
                    assert(after =~= before.insert(x));
                    lemma_size_sum_insert(before, x, rows@);
                }
                if sum as u64 + *size as u64 > u32::MAX as u64 {
                    proof {
                        lemma_u32_set_finite(held_ids(values@.to_set(), rows@));
                        assert(after.subset_of(held_ids(values@.to_set(), rows@))) by {
                            let t = values@.take(i + 1);
                            assert forall|y: u32| after.contains(y) implies held_ids(values@.to_set(), rows@).contains(y) by {
                                let j = choose|j: int| 0 <= j < t.len() && #[trigger] t[j] == y;
                                assert(values@[j] == y);
                            }
                        }
                        lemma_size_sum_subset(after, held_ids(values@.to_set(), rows@), rows@);
                    }
                    return None;
                }
                if count == 0 {
                    first = x;
                }
                count = count + 1;
                sum = sum + *size;
            },
            None => {
                proof {
                    assert(after =~= before);
                }
            },
        }
        i = i + 1;
    }
    proof {
        assert(values@.take(values@.len() as int) =~= values@);
    }
    Some((count, first, sum))
}

/// The size a new entity gets: the total size of the old entities it
/// holds, or its own size when it holds none.
pub open spec fn updated_size(e: Set<u32>, rows: Map<u32, u32>) -> u32 {
    if held_ids(e, rows).len() == 0 {
        e.len() as u32
    } else {
        size_sum(held_ids(e, rows), rows) as u32
    }
}

/// The size each new entity gets.
pub open spec fn updated_sizes(sets: Seq<Set<u32>>, rows: Map<u32, u32>) -> Seq<u32> {
    sets.map_values(|e: Set<u32>| updated_size(e, rows))
}

/// The row a new entity gets: that of the one old entity it holds, its
/// overlaps with `others` recomputed when it holds several, and none when
/// it holds none.
pub open spec fn updated_row(
    e: Set<u32>,
    rows: Map<u32, u32>,
    cells: Map<u32, Map<u32, u32>>,
    others: Seq<Set<u32>>,
) -> Map<u32, u32> {
    if held_ids(e, rows).len() == 1 {
        row_of(cells, held_ids(e, rows).choose())
    } else if held_ids(e, rows).len() >= 2 {
        overlap_row(e, others, others.len() as int)
    } else {
        Map::empty()
    }
}

/// The rows of the first `k` new entities, under their canonical ids,
/// keeping only rows with some overlap.
pub open spec fn updated_table(
    sets: Seq<Set<u32>>,
    rows: Map<u32, u32>,
    cells: Map<u32, Map<u32, u32>>,
    others: Seq<Set<u32>>,
    k: int,
) -> Map<u32, Map<u32, u32>>
    decreases k,
{
    if k <= 0 {
        Map::empty()
    } else {
        let prev = updated_table(sets, rows, cells, others, k - 1);
        let row = updated_row(sets[k - 1], rows, cells, others);
        if row.dom() == Set::<u32>::empty() {
            prev
        } else {
            prev.insert(canonical(sets[k - 1]), row)
        }
    }
}

/// Whether the record count and every new size fit in a `u32`.
pub open spec fn update_fits(sets: Seq<Set<u32>>, sizes: Seq<u32>, rows: Map<u32, u32>) -> bool {
    &&& sum_u32(sizes) <= u32::MAX
    &&& forall|k: int| 0 <= k < sets.len() ==> size_sum(held_ids(#[trigger] sets[k], rows), rows) <= u32::MAX
}

/// The sum of a `u32` sequence, when it fits in a `u32`.
fn checked_total(sizes: &[u32]) -> (r: Option<u32>)
    ensures
        r is Some <==> sum_u32(sizes@) <= u32::MAX,
        r matches Some(t) ==> t == sum_u32(sizes@),
{
    let mut total: u32 = 0;
    let mut i: usize = 0;
    while i < sizes.len()
        invariant
            i <= sizes@.len(),
            total == sum_u32(sizes@.subrange(0, i as int)),
        decreases sizes@.len() - i,
    {
        proof {
            assert(sizes@.subrange(0, i + 1).drop_last() =~= sizes@.subrange(0, i as int));
            assert(sizes@.subrange(0, i + 1).last() == sizes@[i as int]);
        }
        match total.checked_add(sizes[i]) {
            Some(t) => {
                total = t;
            },
            None => {
                proof {
                    crate::hierarchy::partition::lemma_sum_prefix_le(sizes@, i + 1);
                }
                return None;
            },
        }
        i = i + 1;
    }
    proof {
        assert(sizes@.subrange(0, sizes@.len() as int) =~= sizes@);
    }
    Some(total)
}

impl DeltaState {
    /// The row a new entity gets against `entities2`, given how many old
    /// entities it holds and the first of them.
    fn entity_row(&self, entity: &RoaringBitmap, count: usize, first: u32, entities2: &[RoaringBitmap]) -> (row: HashMap<
        u32,
        u32,
    >)
        requires
            bitmap_wf(*entity),
            all_bitmaps_wf(entities2@),
            forall|j: int| 0 <= j < entities2@.len() ==> bitmap_set(#[trigger] entities2@[j]) != Set::<u32>::empty(),
            held_ids(bitmap_set(*entity), self.rows()).finite(),
            count == held_ids(bitmap_set(*entity), self.rows()).len(),
            count >= 1 ==> held_ids(bitmap_set(*entity), self.rows()).contains(first),
        ensures
            row@ == updated_row(
                bitmap_set(*entity),
                self.rows(),
                self.cells(),
                entities2@.map_values(|b: RoaringBitmap| bitmap_set(b)),
            ),
    {
        let ghost held = held_ids(bitmap_set(*entity), self.rows());
        let ghost cells0 = self.cells();
        if count == 1 {
            proof {
                lemma_size_sum_small(held, self.rows());
                assert(held.choose() == first);
            }
            let mut copy: HashMap<u32, u32> = HashMap::new();
            let ghost empty = copy@;
            match self.contingency_table.get(&first) {
                Some(old_row) => {
                    add_row(&mut copy, old_row);
                    proof {
                        lemma_added_rows(copy@, empty, old_row@);
                        assert(copy@ =~= row_of(cells0, first));
                    }
                },
                None => {
                    proof {
                        assert(copy@ =~= row_of(cells0, first));
                    }
                },
            }
            copy
        } else if count >= 2 {
            overlap_row_of(entity, entities2)
        } else {
            HashMap::new()
        }
    }

    /// What the update gives one new entity: its canonical id, its size,
    /// and, against `others`, its row; `None` when the total size of the
    /// old entities it holds passes the largest `u32`.
    fn entity_update(&self, entity: &RoaringBitmap, size: u32, others: Option<&[RoaringBitmap]>) -> (r: Option<
        (u32, u32, Option<HashMap<u32, u32>>),
    >)
        requires
            bitmap_wf(*entity),
            bitmap_set(*entity) != Set::<u32>::empty(),
            size == bitmap_set(*entity).len() as u32,
            others matches Some(e2) ==> all_bitmaps_wf(e2@),
            others matches Some(e2) ==> forall|j: int|
                0 <= j < e2@.len() ==> bitmap_set(#[trigger] e2@[j]) != Set::<u32>::empty(),
        ensures
            r is None <==> size_sum(held_ids(bitmap_set(*entity), self.rows()), self.rows()) > u32::MAX,
            r matches Some(t) ==> {
                &&& t.0 == canonical(bitmap_set(*entity))
                &&& t.1 == updated_size(bitmap_set(*entity), self.rows())
                &&& match others {
                    Some(e2) => t.2 matches Some(row) && row@ == updated_row(
                        bitmap_set(*entity),
                        self.rows(),
                        self.cells(),
                        e2@.map_values(|b: RoaringBitmap| bitmap_set(b)),
                    ),
                    None => t.2 is None,
                }
            },
    {
        let ghost e = bitmap_set(*entity);
        let ghost held = held_ids(e, self.rows());
        let id = canonical_id(entity);
        let values = bitmap_values(entity);
        proof {
            assert(values@.to_set() == e);
            lemma_u32_set_finite(held);
        }
        let (count, first, sum) = match held_summary(&values, &self.row_marginals) {
            None => {
                return None;
            },
            Some(t) => t,
        };
        let new_size = if count == 0 {
            size
        } else {
            sum
        };
        let row = match others {
            None => None,
            Some(entities2) => Some(self.entity_row(entity, count, first, entities2)),
        };
        Some((id, new_size, row))
    }

    /// Move to `new_partition1` in one step, when every size fits in a
    /// `u32`: each new entity takes, under its canonical id, the total size
    /// of the old entities it holds (its own size when it holds none), and,
    /// against `partition2`, the row of the one old entity it holds, or its
    /// overlaps recomputed when it holds several. False, with the state
    /// left as it was, when the record count or a size would pass the
    /// largest `u32`.
    #[verifier::rlimit(100)]
    #[verifier::spinoff_prover]
    pub fn try_incremental_update(&mut self, new_partition1: &PartitionLevel, partition2: Option<&PartitionLevel>) -> (ok: bool)
        requires
            new_partition1.wf(),
            disjoint_entities(new_partition1.entity_sets()),
            partition2 matches Some(p2) ==> p2.wf() && forall|k: int|
                0 <= k < p2.entity_sets().len() ==> #[trigger] p2.entity_sets()[k] != Set::<u32>::empty(),
        ensures
            ok == update_fits(new_partition1.entity_sets(), new_partition1.sizes(), old(self).rows()),
            ok ==> final(self).rows() == marginals_upto(
                new_partition1.entity_sets(),
                updated_sizes(new_partition1.entity_sets(), old(self).rows()),
                new_partition1.entity_sets().len() as int,
            ),
            ok ==> final(self).cells() == match partition2 {
                Some(p2) => updated_table(
                    new_partition1.entity_sets(),
                    old(self).rows(),
                    old(self).cells(),
                    p2.entity_sets(),
                    new_partition1.entity_sets().len() as int,
                ),
                None => Map::<u32, Map<u32, u32>>::empty(),
            },
            ok ==> final(self).total_records == sum_u32(new_partition1.sizes()),
            !ok ==> final(self).rows() == old(self).rows() && final(self).cells() == old(self).cells()
                && final(self).total_records == old(self).total_records,
            final(self).col_marginals == old(self).col_marginals,
    {
        proof {
            new_partition1.lemma_sizes();
        }
        let entities1 = new_partition1.entities();
        let sizes1 = new_partition1.entity_sizes();
        let ghost sets = new_partition1.entity_sets();
        let ghost rows0 = self.rows();
        let ghost cells0 = self.cells();
        let ghost others_sets = match partition2 {
            Some(p2) => p2.entity_sets(),
            None => Seq::<Set<u32>>::empty(),
        };
        let total = match checked_total(sizes1) {
            Some(t) => t,
            None => {
                return false;
            },
        };
        let others: Option<&[RoaringBitmap]> = match partition2 {
            Some(p2) => Some(p2.entities()),
            None => None,
        };
        proof {
            match partition2 {
                Some(p2) => {
                    let e2 = others.unwrap();
                    assert forall|j: int| 0 <= j < e2@.len() implies bitmap_set(#[trigger] e2@[j]) != Set::<u32>::empty() by {
                        assert(p2.entity_sets()[j] == bitmap_set(e2@[j]));
                    }
                    assert(e2@.map_values(|b: RoaringBitmap| bitmap_set(b)) =~= p2.entity_sets());
                },
                None => {},
            }
            assert forall|j: int| 0 <= j < sets.len() implies #[trigger] sizes1@[j] == bitmap_set(entities1@[j]).len() as u32
                && sets[j] == bitmap_set(entities1@[j]) by {}
        }
        let mut new_rows: HashMap<u32, u32> = HashMap::new();
        let mut new_table: HashMap<u32, HashMap<u32, u32>> = HashMap::new();
        let mut k: usize = 0;
        proof {
            assert(new_rows@ =~= marginals_upto(sets, updated_sizes(sets, rows0), 0));
            assert(rows_view(new_table@) =~= Map::<u32, Map<u32, u32>>::empty());
        }
        while k < entities1.len()
            invariant
                k <= entities1@.len(),
                sets == new_partition1.entity_sets(),
                sets.len() == entities1@.len(),
                all_bitmaps_wf(entities1@),
                sizes1@.len() == entities1@.len(),
                forall|j: int|
                    0 <= j < sets.len() ==> #[trigger] sizes1@[j] == bitmap_set(entities1@[j]).len() as u32
                        && sets[j] == bitmap_set(entities1@[j]),
                disjoint_entities(sets),
                rows0 == self.rows(),
                cells0 == self.cells(),
                rows0 == old(self).rows(),
                cells0 == old(self).cells(),
                self.total_records == old(self).total_records,
                self.col_marginals == old(self).col_marginals,
                others matches Some(e2) ==> all_bitmaps_wf(e2@),
                others matches Some(e2) ==> forall|j: int|
                    0 <= j < e2@.len() ==> bitmap_set(#[trigger] e2@[j]) != Set::<u32>::empty(),
                others matches Some(e2) ==> e2@.map_values(|b: RoaringBitmap| bitmap_set(b)) == others_sets,
                new_rows@ == marginals_upto(sets, updated_sizes(sets, rows0), k as int),
                rows_view(new_table@) == if others is Some {
                    updated_table(sets, rows0, cells0, others_sets, k as int)
                } else {
                    Map::<u32, Map<u32, u32>>::empty()
                },
                forall|j: int| 0 <= j < k ==> size_sum(held_ids(#[trigger] sets[j], rows0), rows0) <= u32::MAX,
            decreases entities1@.len() - k,
        {
            proof {
                assert(sizes1@[k as int] == bitmap_set(entities1@[k as int]).len() as u32 && sets[k as int] == bitmap_set(
                    entities1@[k as int],
                ));
                assert(sets[k as int] != Set::<u32>::empty());
            }
            let (id, size, row) = match self.entity_update(&entities1[k], sizes1[k], others) {
                None => {
                    proof {
                        assert(size_sum(held_ids(sets[k as int], rows0), rows0) > u32::MAX);
                    }
                    return false;
                },
                Some(t) => t,
            };
            proof {
                assert(updated_sizes(sets, rows0)[k as int] == updated_size(sets[k as int], rows0));
            }
            new_rows.insert(id, size);
            match row {
                Some(r) => {
                    if r.len() > 0 {
                        new_table.insert(id, r);
                    } else {
                        proof {
                            assert(r@.dom() =~= Set::<u32>::empty());
                        }
                    }
                },
                None => {},
            }
            proof {
                assert(new_rows@ =~= marginals_upto(sets, updated_sizes(sets, rows0), k + 1));
                if others is Some {
                    assert(rows_view(new_table@) =~= updated_table(sets, rows0, cells0, others_sets, k + 1));
                } else {
                    assert(rows_view(new_table@) =~= Map::<u32, Map<u32, u32>>::empty());
                }
            }
            k = k + 1;
        }
        self.row_marginals = new_rows;
        self.contingency_table = new_table;
        self.total_records = total;
        true
    }

    /// Move to `new_partition1` in one step: each new entity takes, under
    /// its canonical id, the total size of the old entities it holds (its
    /// own size when it holds none), and, against `partition2`, the row of
    /// the one old entity it holds, or its overlaps recomputed when it holds
    /// several.
    pub fn incremental_update(&mut self, new_partition1: &PartitionLevel, partition2: Option<&PartitionLevel>)
        requires
            new_partition1.wf(),
            disjoint_entities(new_partition1.entity_sets()),
            partition2 matches Some(p2) ==> p2.wf() && forall|k: int|
                0 <= k < p2.entity_sets().len() ==> #[trigger] p2.entity_sets()[k] != Set::<u32>::empty(),
            update_fits(new_partition1.entity_sets(), new_partition1.sizes(), old(self).rows()),
        ensures
            final(self).rows() == marginals_upto(
                new_partition1.entity_sets(),
                updated_sizes(new_partition1.entity_sets(), old(self).rows()),
                new_partition1.entity_sets().len() as int,
            ),
            final(self).cells() == match partition2 {
                Some(p2) => updated_table(
                    new_partition1.entity_sets(),
                    old(self).rows(),
                    old(self).cells(),
                    p2.entity_sets(),
                    new_partition1.entity_sets().len() as int,
                ),
                None => Map::<u32, Map<u32, u32>>::empty(),
            },
            final(self).total_records == sum_u32(new_partition1.sizes()),
            final(self).col_marginals == old(self).col_marginals,
    {
        let applied = self.try_incremental_update(new_partition1, partition2);
        assert(applied);
    }
}

/// Whether `new` is made of whole entities of `old`: each old entity lies
/// within a new one, and each record of a new entity lies in an old one.
pub open spec fn coarsens(new: Seq<Set<u32>>, old: Seq<Set<u32>>) -> bool {
    &&& forall|i: int| 0 <= i < old.len() ==> exists|k: int| 0 <= k < new.len() && (#[trigger] old[i]).subset_of(new[k])
    &&& forall|k: int, x: u32|
        0 <= k < new.len() && #[trigger] new[k].contains(x) ==> exists|i: int| 0 <= i < old.len() && old[i].contains(x)
}

/// The records of the old entities whose canonical ids are in `ids`.
pub open spec fn union_of(ids: Set<u32>, old: Seq<Set<u32>>) -> Set<u32> {
    Set::new(|x: u32| exists|i: int| 0 <= i < old.len() && ids.contains(canonical(old[i])) && old[i].contains(x))
}

/// Splitting one old entity off a union of old entities.
proof fn lemma_union_split(ids: Set<u32>, old: Seq<Set<u32>>, i: int)
    requires
        disjoint_entities(old),
        0 <= i < old.len(),
        ids.contains(canonical(old[i])),
    ensures
        union_of(ids, old) =~= old[i] + union_of(ids.remove(canonical(old[i])), old),
        old[i].disjoint(union_of(ids.remove(canonical(old[i])), old)),
{
    let c = canonical(old[i]);
    let rest = union_of(ids.remove(c), old);
    lemma_distinct_ids(old);
    assert forall|x: u32| union_of(ids, old).contains(x) implies (old[i] + rest).contains(x) by {
        let j = choose|j: int| 0 <= j < old.len() && ids.contains(canonical(old[j])) && old[j].contains(x);
        if j != i {
            assert(canonical(old[j]) != canonical(old[i]));
            assert(ids.remove(c).contains(canonical(old[j])));
        }
    }
    assert forall|x: u32| (old[i] + rest).contains(x) implies union_of(ids, old).contains(x) by {
        if !old[i].contains(x) {
            let j = choose|j: int| 0 <= j < old.len() && ids.remove(c).contains(canonical(old[j])) && old[j].contains(x);
            assert(ids.contains(canonical(old[j])));
        }
    }
    assert forall|x: u32| old[i].contains(x) implies !rest.contains(x) by {
        if rest.contains(x) {
            let j = choose|j: int| 0 <= j < old.len() && ids.remove(c).contains(canonical(old[j])) && old[j].contains(x);
            assert(j != i);
            assert(old[i].disjoint(old[j]));
        }
    }
}

/// The total size of old entities, by their canonical ids, is the size of
/// their union.
proof fn lemma_size_sum_union(ids: Set<u32>, old: Seq<Set<u32>>)
    requires
        ids.finite(),
        disjoint_entities(old),
        forall|c: u32| #[trigger] ids.contains(c) ==> exists|i: int| 0 <= i < old.len() && canonical(old[i]) == c,
        forall|i: int| 0 <= i < old.len() ==> (#[trigger] old[i]).len() <= u32::MAX,
    ensures
        size_sum(ids, marginals_upto(old, set_sizes(old), old.len() as int)) == union_of(ids, old).len(),
    decreases ids.len(),
{
    let rows = marginals_upto(old, set_sizes(old), old.len() as int);
    if ids.len() == 0 {
        assert(ids =~= Set::<u32>::empty()) by {
            if !(ids =~= Set::<u32>::empty()) {
                let y = choose|y: u32| ids.contains(y);
                assert(ids.contains(y));
            }
        }
        assert(union_of(ids, old) =~= Set::<u32>::empty());
    } else {
        assert(exists|y: u32| ids.contains(y)) by {
            if !(exists|y: u32| ids.contains(y)) {
                assert(ids =~= Set::<u32>::empty());
            }
        }
        let c = choose|y: u32| ids.contains(y);
        let i = choose|i: int| 0 <= i < old.len() && canonical(old[i]) == c;
        lemma_size_sum_remove(ids, c, rows);
        lemma_size_sum_union(ids.remove(c), old);
        lemma_distinct_ids(old);
        lemma_marginals_shape(old, set_sizes(old), old.len() as int);
        assert(rows[canonical(old[i])] == set_sizes(old)[i]);
        lemma_union_split(ids, old, i);
        lemma_u32_set_finite(old[i]);
        lemma_u32_set_finite(union_of(ids.remove(c), old));
        vstd::set_lib::lemma_set_disjoint_lens(old[i], union_of(ids.remove(c), old));
    }
}

/// Under a coarsening, an old entity lies in the new entity that holds its
/// canonical id, and each record of a new entity lies in an old entity
/// within it.
proof fn lemma_coarse_members(old: Seq<Set<u32>>, new: Seq<Set<u32>>, k: int)
    requires
        disjoint_entities(old),
        disjoint_entities(new),
        coarsens(new, old),
        0 <= k < new.len(),
    ensures
        forall|i: int| 0 <= i < old.len() ==> (old[i].subset_of(new[k]) <==> new[k].contains(#[trigger] canonical(old[i]))),
        forall|x: u32| #[trigger] new[k].contains(x) ==> exists|i: int| 0 <= i < old.len() && old[i].contains(x) && old[i].subset_of(new[k]),
{
    assert forall|i: int| 0 <= i < old.len() implies (old[i].subset_of(new[k]) <==> new[k].contains(
        #[trigger] canonical(old[i]),
    )) by {
        assert(old[i] != Set::<u32>::empty());
        crate::metrics::algorithms::merge_rebuild::lemma_canonical(old[i]);
        let k2 = choose|k2: int| 0 <= k2 < new.len() && old[i].subset_of(new[k2]);
        if k2 != k {
            assert(new[k2].contains(canonical(old[i])));
            assert(new[k2].disjoint(new[k]));
        }
    }
    assert forall|x: u32| #[trigger] new[k].contains(x) implies exists|i: int|
        0 <= i < old.len() && old[i].contains(x) && old[i].subset_of(new[k]) by {
        let i = choose|i: int| 0 <= i < old.len() && old[i].contains(x);
        let k2 = choose|k2: int| 0 <= k2 < new.len() && old[i].subset_of(new[k2]);
        if k2 != k {
            assert(new[k2].contains(x));
            assert(new[k2].disjoint(new[k]));
        }
    }
}

/// Under a coarsening, a new entity is the union of the old entities it
/// holds.
proof fn lemma_coarse_union(old: Seq<Set<u32>>, new: Seq<Set<u32>>, k: int)
    requires
        disjoint_entities(old),
        disjoint_entities(new),
        coarsens(new, old),
        0 <= k < new.len(),
    ensures
        union_of(held_ids(new[k], marginals_upto(old, set_sizes(old), old.len() as int)), old) == new[k],
        forall|c: u32|
            #[trigger] held_ids(new[k], marginals_upto(old, set_sizes(old), old.len() as int)).contains(c) ==> exists|i: int|
                0 <= i < old.len() && canonical(old[i]) == c,
{
    let rows = marginals_upto(old, set_sizes(old), old.len() as int);
    let e = new[k];
    let held = held_ids(e, rows);
    lemma_distinct_ids(old);
    lemma_marginals_shape(old, set_sizes(old), old.len() as int);
    lemma_coarse_members(old, new, k);
    assert forall|c: u32| #[trigger] held.contains(c) implies exists|i: int| 0 <= i < old.len() && canonical(old[i]) == c by {
        assert(rows.contains_key(c));
    }
    assert forall|x: u32| union_of(held, old).contains(x) implies e.contains(x) by {
        let i = choose|i: int| 0 <= i < old.len() && held.contains(canonical(old[i])) && old[i].contains(x);
        assert(e.contains(canonical(old[i])));
    }
    assert forall|x: u32| e.contains(x) implies union_of(held, old).contains(x) by {
        let i = choose|i: int| 0 <= i < old.len() && old[i].contains(x) && old[i].subset_of(new[k]);
        assert(new[k].contains(canonical(old[i])));
        assert(rows.contains_key(canonical(old[i])));
        assert(held.contains(canonical(old[i])));
    }
    assert(union_of(held, old) =~= e);
}

/// Under a coarsening, a new entity holds at least one old entity.
proof fn lemma_held_nonempty(old: Seq<Set<u32>>, new: Seq<Set<u32>>, k: int)
    requires
        disjoint_entities(old),
        disjoint_entities(new),
        coarsens(new, old),
        0 <= k < new.len(),
    ensures
        held_ids(new[k], marginals_upto(old, set_sizes(old), old.len() as int)).len() >= 1,
{
    let rows = marginals_upto(old, set_sizes(old), old.len() as int);
    let held = held_ids(new[k], rows);
    lemma_u32_set_finite(held);
    assert(new[k] != Set::<u32>::empty());
    crate::metrics::algorithms::merge_rebuild::lemma_canonical(new[k]);
    let x = canonical(new[k]);
    lemma_coarse_members(old, new, k);
    assert(new[k].contains(x));
    let i = choose|i: int| 0 <= i < old.len() && old[i].contains(x) && old[i].subset_of(new[k]);
    lemma_distinct_ids(old);
    lemma_marginals_shape(old, set_sizes(old), old.len() as int);
    assert(new[k].contains(canonical(old[i])));
    assert(rows.contains_key(canonical(old[i])));
    assert(held.contains(canonical(old[i])));
    if held.len() == 0 {
        held.lemma_len0_is_empty();
    }
}

/// Under a coarsening, a new entity that holds only one old entity is
/// that one.
proof fn lemma_held_single(old: Seq<Set<u32>>, new: Seq<Set<u32>>, k: int)
    requires
        disjoint_entities(old),
        disjoint_entities(new),
        coarsens(new, old),
        0 <= k < new.len(),
        held_ids(new[k], marginals_upto(old, set_sizes(old), old.len() as int)).len() == 1,
    ensures
        exists|i: int|
            0 <= i < old.len() && new[k] == old[i] && held_ids(new[k], marginals_upto(old, set_sizes(old), old.len() as int)).choose()
                == canonical(old[i]),
{
    let rows = marginals_upto(old, set_sizes(old), old.len() as int);
    let held = held_ids(new[k], rows);
    lemma_u32_set_finite(held);
    lemma_size_sum_small(held, rows);
    let c = held.choose();
    assert(held.contains(c));
    lemma_coarse_union(old, new, k);
    let i = choose|i: int| 0 <= i < old.len() && canonical(old[i]) == c;
    lemma_single_union(held, old, i);
}

/// The union of one old entity is that entity.
proof fn lemma_single_union(held: Set<u32>, old: Seq<Set<u32>>, i: int)
    requires
        disjoint_entities(old),
        0 <= i < old.len(),
        held == set![canonical(old[i])],
    ensures
        union_of(held, old) == old[i],
{
    lemma_distinct_ids(old);
    assert forall|x: u32| union_of(held, old).contains(x) implies old[i].contains(x) by {
        let j = choose|j: int| 0 <= j < old.len() && held.contains(canonical(old[j])) && old[j].contains(x);
        assert(canonical(old[j]) == canonical(old[i]));
    }
    assert forall|x: u32| old[i].contains(x) implies union_of(held, old).contains(x) by {
        assert(held.contains(canonical(old[i])));
    }
    assert(union_of(held, old) =~= old[i]);
}

/// Under a coarsening, the old entities a new entity holds have sizes
/// adding up to its own, there is at least one, and when there is only
/// one the new entity is that old one.
proof fn lemma_held_of_coarse(old: Seq<Set<u32>>, new: Seq<Set<u32>>, k: int)
    requires
        disjoint_entities(old),
        disjoint_entities(new),
        coarsens(new, old),
        0 <= k < new.len(),
        forall|j: int| 0 <= j < new.len() ==> (#[trigger] new[j]).len() <= u32::MAX,
    ensures
        size_sum(
            held_ids(new[k], marginals_upto(old, set_sizes(old), old.len() as int)),
            marginals_upto(old, set_sizes(old), old.len() as int),
        ) == new[k].len(),
        held_ids(new[k], marginals_upto(old, set_sizes(old), old.len() as int)).len() >= 1,
        held_ids(new[k], marginals_upto(old, set_sizes(old), old.len() as int)).len() == 1 ==> exists|i: int|
            0 <= i < old.len() && new[k] == old[i] && held_ids(new[k], marginals_upto(old, set_sizes(old), old.len() as int)).choose()
                == canonical(old[i]),
{
    let rows = marginals_upto(old, set_sizes(old), old.len() as int);
    let e = new[k];
    let held = held_ids(e, rows);
    lemma_u32_set_finite(held);
    assert(size_sum(held, rows) == e.len()) by {
        lemma_coarse_union(old, new, k);
        assert forall|i: int| 0 <= i < old.len() implies (#[trigger] old[i]).len() <= u32::MAX by {
            let k2 = choose|k2: int| 0 <= k2 < new.len() && old[i].subset_of(new[k2]);
            lemma_u32_set_finite(new[k2]);
            vstd::set_lib::lemma_len_subset(old[i], new[k2]);
        }
        lemma_size_sum_union(held, old);
    }
    lemma_held_nonempty(old, new, k);
    if held.len() == 1 {
        lemma_held_single(old, new, k);
    }
}

/// Tables built row by row agree when every row does.
proof fn lemma_updated_table_is_rebuild(
    new: Seq<Set<u32>>,
    rows: Map<u32, u32>,
    cells: Map<u32, Map<u32, u32>>,
    others: Seq<Set<u32>>,
    k: int,
)
    requires
        0 <= k <= new.len(),
        forall|j: int|
            0 <= j < k ==> updated_row(#[trigger] new[j], rows, cells, others) == overlap_row(new[j], others, others.len() as int),
    ensures
        updated_table(new, rows, cells, others, k) == overlap_table(new, others, k),
    decreases k,
{
    if k > 0 {
        lemma_updated_table_is_rebuild(new, rows, cells, others, k - 1);
        assert(updated_row(new[k - 1], rows, cells, others) == overlap_row(new[k - 1], others, others.len() as int));
    }
}

/// Moving the sizes and overlaps of a partition to a coarser one, made of
/// whole entities of it, gives the sizes and overlaps of the coarser one
/// itself: the one-step update matches a rebuild, and never overflows when
/// the coarser partition's record count fits in a `u32`.
pub proof fn lemma_update_matches_rebuild(old: &PartitionLevel, new: &PartitionLevel, p2: &PartitionLevel)
    requires
        old.wf(),
        new.wf(),
        disjoint_entities(old.entity_sets()),
        disjoint_entities(new.entity_sets()),
        coarsens(new.entity_sets(), old.entity_sets()),
        forall|k: int| 0 <= k < new.entity_sets().len() ==> (#[trigger] new.entity_sets()[k]).len() <= u32::MAX,
        sum_u32(new.sizes()) <= u32::MAX,
    ensures
        update_fits(
            new.entity_sets(),
            new.sizes(),
            marginals_upto(old.entity_sets(), old.sizes(), old.entity_sets().len() as int),
        ),
        marginals_upto(
            new.entity_sets(),
            updated_sizes(
                new.entity_sets(),
                marginals_upto(old.entity_sets(), old.sizes(), old.entity_sets().len() as int),
            ),
            new.entity_sets().len() as int,
        ) == marginals_upto(new.entity_sets(), new.sizes(), new.entity_sets().len() as int),
        updated_table(
            new.entity_sets(),
            marginals_upto(old.entity_sets(), old.sizes(), old.entity_sets().len() as int),
            overlap_table(old.entity_sets(), p2.entity_sets(), old.entity_sets().len() as int),
            p2.entity_sets(),
            new.entity_sets().len() as int,
        ) == overlap_table(new.entity_sets(), p2.entity_sets(), new.entity_sets().len() as int),
{
    let olds = old.entity_sets();
    let news = new.entity_sets();
    let others = p2.entity_sets();
    old.lemma_sizes();
    new.lemma_sizes();
    assert(old.sizes() =~= set_sizes(olds)) by {
        assert forall|i: int| 0 <= i < olds.len() implies old.sizes()[i] == set_sizes(olds)[i] by {
            assert(olds[i] == bitmap_set(old.entity_bitmaps()[i]));
        }
    }
    assert(new.sizes() =~= set_sizes(news)) by {
        assert forall|i: int| 0 <= i < news.len() implies new.sizes()[i] == set_sizes(news)[i] by {
            assert(news[i] == bitmap_set(new.entity_bitmaps()[i]));
        }
    }
    let rows = marginals_upto(olds, set_sizes(olds), olds.len() as int);
    let cells = overlap_table(olds, others, olds.len() as int);
    lemma_distinct_ids(olds);
    assert forall|k: int| 0 <= k < news.len() implies {
        &&& size_sum(held_ids(#[trigger] news[k], rows), rows) <= u32::MAX
        &&& updated_sizes(news, rows)[k] == set_sizes(news)[k]
        &&& updated_row(news[k], rows, cells, others) == overlap_row(news[k], others, others.len() as int)
    } by {
        lemma_held_of_coarse(olds, news, k);
        let held = held_ids(news[k], rows);
        if held.len() == 1 {
            let i = choose|i: int| 0 <= i < olds.len() && news[k] == olds[i] && held.choose() == canonical(olds[i]);
            crate::metrics::algorithms::merge_rebuild::lemma_row_of_entity(olds, others, i);
        }
    }
    assert(updated_sizes(news, rows) =~= set_sizes(news));
    lemma_updated_table_is_rebuild(news, rows, cells, others, news.len() as int);
}

/// What a sweep does with the state it holds when it reaches its next
/// partition.
#[derive(Debug, Clone, Copy, PartialEq, Eq, Structural)]
pub enum SweepStep {
    /// Build the state afresh.
    Rebuild,
    /// Move the state to the new partition in one step.
    Update,
    /// The threshold went up by no more than the gap, which a sweep down a
    /// hierarchy never does.
    Rising,
}

/// Whether the columns of a state are those of `partition2`: none without
/// it, and otherwise one per entity, under its canonical id.
pub open spec fn same_columns(cols: Map<u32, u32>, partition2: Option<Seq<Set<u32>>>) -> bool {
    match partition2 {
        None => cols.len() == 0,
        Some(sets) => cols.len() == sets.len() && forall|k: int|
            0 <= k < sets.len() ==> #[trigger] sets[k] != Set::<u32>::empty() && cols.contains_key(canonical(sets[k])),
    }
}

/// Some smallest record of `s` is a column of `cols`.
pub open spec fn smallest_is_column(cols: Map<u32, u32>, s: Set<u32>) -> bool {
    exists|c: u32| #[trigger] s.contains(c) && (forall|v: u32| s.contains(v) ==> c <= v) && cols.contains_key(c)
}

/// A state keeps the columns of a fixed partition exactly when it has one
/// column per entity and every entity's smallest record is among them: a
/// partition with as many entities but some entity whose smallest record
/// is not a column is another partition.
pub proof fn lemma_same_columns_means(cols: Map<u32, u32>, sets: Seq<Set<u32>>)
    ensures
        same_columns(cols, Some(sets)) <==> (cols.len() == sets.len() && forall|k: int|
            0 <= k < sets.len() ==> smallest_is_column(cols, #[trigger] sets[k])),
{
    if same_columns(cols, Some(sets)) {
        assert forall|k: int| 0 <= k < sets.len() implies smallest_is_column(cols, #[trigger] sets[k]) by {
            crate::metrics::algorithms::merge_rebuild::lemma_canonical(sets[k]);
            let c = canonical(sets[k]);
            assert(sets[k].contains(c));
        }
    }
    if cols.len() == sets.len() && forall|k: int| 0 <= k < sets.len() ==> smallest_is_column(cols, #[trigger] sets[k]) {
        assert forall|k: int| 0 <= k < sets.len() implies #[trigger] sets[k] != Set::<u32>::empty() && cols.contains_key(
            canonical(sets[k]),
        ) by {
            assert(smallest_is_column(cols, sets[k]));
            let c = choose|c: u32| #[trigger] sets[k].contains(c) && (forall|v: u32| sets[k].contains(v) ==> c <= v)
                && cols.contains_key(c);
            assert(sets[k].contains(c));
            crate::metrics::algorithms::merge_rebuild::lemma_canonical_is(sets[k], c);
        }
    }
}

/// The step from `last_threshold` to `threshold`, both in millionths: a
/// rise of more than `rebuild_gap` starts afresh, a smaller rise is refused,
/// and a fall of at most `rebuild_gap` against the same fixed partition
/// updates in place; anything else rebuilds.
pub open spec fn step_for(last_threshold: i64, threshold: i64, rebuild_gap: i64, same: bool) -> SweepStep {
    let diff = last_threshold - threshold;
    if diff < -rebuild_gap {
        SweepStep::Rebuild
    } else if diff < 0 {
        SweepStep::Rising
    } else if diff <= rebuild_gap && same {
        SweepStep::Update
    } else {
        SweepStep::Rebuild
    }
}

impl DeltaState {
    /// Whether the columns of this state are those of `partition2`.
    fn same_columns_as(&self, partition2: Option<&PartitionLevel>) -> (r: bool)
        ensures
            r == same_columns(
                self.col_marginals@,
                match partition2 {
                    Some(p2) => Some(p2.entity_sets()),
                    None => None,
                },
            ),
            r ==> match partition2 {
                Some(p2) => self.col_marginals@.len() == p2.entity_sets().len() && forall|k: int|
                    0 <= k < p2.entity_sets().len() ==> smallest_is_column(
                        self.col_marginals@,
                        #[trigger] p2.entity_sets()[k],
                    ),
                None => self.col_marginals@.len() == 0,
            },
    {
        proof {
            match partition2 {
                Some(p2) => lemma_same_columns_means(self.col_marginals@, p2.entity_sets()),
                None => {},
            }
        }
        match partition2 {
            None => self.col_marginals.len() == 0,
            Some(p2) => {
                let entities = p2.entities();
                let ghost sets = p2.entity_sets();
                if self.col_marginals.len() != entities.len() {
                    return false;
                }
                let mut k: usize = 0;
                while k < entities.len()
                    invariant
                        k <= entities@.len(),
                        partition2 == Some(p2),
                        sets == p2.entity_sets(),
                        entities@ == p2.entity_bitmaps(),
                        all_bitmaps_wf(entities@),
                        sets.len() == entities@.len(),
                        self.col_marginals@.len() == sets.len(),
                        forall|j: int|
                            0 <= j < k ==> #[trigger] sets[j] != Set::<u32>::empty() && self.col_marginals@.contains_key(
                                canonical(sets[j]),
                            ),
                    decreases entities@.len() - k,
                {
                    proof {
                        assert(sets[k as int] == bitmap_set(entities@[k as int]));
                    }
                    match crate::hierarchy::bitmap::bitmap_min(&entities[k]) {
                        None => {
                            proof {
                                assert(!(sets[k as int] != Set::<u32>::empty()));
                            }
                            return false;
                        },
                        Some(m) => {
                            proof {
                                crate::metrics::algorithms::merge_rebuild::lemma_canonical_is(sets[k as int], m);
                            }
                            if !self.col_marginals.contains_key(&m) {
                                proof {
                                    assert(!self.col_marginals@.contains_key(canonical(sets[k as int])));
                                }
                                return false;
                            }
                        },
                    }
                    k = k + 1;
                }
                true
            },
        }
    }

    /// The step a sweep takes with this state, last moved to
    /// `last_threshold`, on reaching a partition at `threshold` to be
    /// compared with `partition2`; thresholds and `rebuild_gap` are in
    /// millionths.
    pub fn sweep_step(&self, last_threshold: i64, threshold: i64, rebuild_gap: i64, partition2: Option<&PartitionLevel>) -> (s:
        SweepStep)
        ensures
            s == step_for(
                last_threshold,
                threshold,
                rebuild_gap,
                same_columns(
                    self.col_marginals@,
                    match partition2 {
                        Some(p2) => Some(p2.entity_sets()),
                        None => None,
                    },
                ),
            ),
            s == SweepStep::Update ==> 0 <= last_threshold - threshold <= rebuild_gap && match partition2 {
                Some(p2) => self.col_marginals@.len() == p2.entity_sets().len() && forall|k: int|
                    0 <= k < p2.entity_sets().len() ==> smallest_is_column(
                        self.col_marginals@,
                        #[trigger] p2.entity_sets()[k],
                    ),
                None => self.col_marginals@.len() == 0,
            },
    {
        let diff = last_threshold as i128 - threshold as i128;
        if diff < -(rebuild_gap as i128) {
            SweepStep::Rebuild
        } else if diff < 0 {
            SweepStep::Rising
        } else if diff <= rebuild_gap as i128 && self.same_columns_as(partition2) {
            SweepStep::Update
        } else {
            SweepStep::Rebuild
        }
    }
}

} // verus!
