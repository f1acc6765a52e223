//! The contingency table of a sweep down one hierarchy, kept by the
//! canonical id of each entity (its smallest record) and updated by merge
//! events instead of being rebuilt.

use roaring::RoaringBitmap;
use std::collections::HashMap;
use vstd::prelude::*;

use crate::hierarchy::bitmap::{all_bitmaps_wf, bitmap_intersection_len, bitmap_min, bitmap_set, bitmap_wf};
use crate::hierarchy::merge_event::MergeEvent;
use crate::hierarchy::partition::{sum_u32, PartitionLevel};

verus! {

broadcast use vstd::std_specs::hash::group_hash_axioms;

/// What a map of counts holds for `k`, zero when absent.
pub open spec fn lookup(m: Map<u32, u32>, k: u32) -> int {
    if m.contains_key(k) {
        m[k] as int
    } else {
        0
    }
}

/// The smallest member of a set: the canonical id of an entity.
pub open spec fn canonical(s: Set<u32>) -> u32 {
    choose|m: u32| s.contains(m) && forall|x: u32| #[trigger] s.contains(x) ==> m <= x
}

/// The rows of a table, each as a map from column to count.
pub open spec fn rows_view(t: Map<u32, HashMap<u32, u32>>) -> Map<u32, Map<u32, u32>> {
    Map::new(|k: u32| t.contains_key(k), |k: u32| t[k]@)
}

/// Row `r` of a table, empty when absent.
pub open spec fn row_of(cells: Map<u32, Map<u32, u32>>, r: u32) -> Map<u32, u32> {
    if cells.contains_key(r) {
        cells[r]
    } else {
        Map::empty()
    }
}

/// Two rows added column by column.
pub open spec fn added_rows(a: Map<u32, u32>, b: Map<u32, u32>) -> Map<u32, u32> {
    Map::new(|c: u32| a.contains_key(c) || b.contains_key(c), |c: u32| (lookup(a, c) + lookup(b, c)) as u32)
}

/// The sizes after entity `child` is absorbed into `parent`.
pub open spec fn merged_marginals(rows: Map<u32, u32>, parent: u32, child: u32) -> Map<u32, u32> {
    let kept = if parent != child {
        rows.remove(child)
    } else {
        rows
    };
    kept.insert(parent, (lookup(rows, parent) + lookup(rows, child)) as u32)
}

/// The table after row `child` is added into row `parent`.
pub open spec fn merged_cells(cells: Map<u32, Map<u32, u32>>, parent: u32, child: u32) -> Map<u32, Map<u32, u32>> {
    let merged = if parent != child {
        added_rows(row_of(cells, parent), row_of(cells, child))
    } else {
        row_of(cells, parent)
    };
    let rest = cells.remove(parent).remove(child);
    if merged.dom() == Set::<u32>::empty() {
        rest
    } else {
        rest.insert(parent, merged)
    }
}

/// Whether absorbing `child` into `parent` keeps every count within a `u32`.
pub open spec fn merge_fits(rows: Map<u32, u32>, cells: Map<u32, Map<u32, u32>>, parent: u32, child: u32, with_cells: bool) -> bool {
    &&& lookup(rows, parent) + lookup(rows, child) <= u32::MAX
    &&& (with_cells && parent != child) ==> forall|c: u32|
        #[trigger] lookup(row_of(cells, parent), c) + lookup(row_of(cells, child), c) <= u32::MAX
}

/// Sizes and table after absorbing each `(parent, child)` in turn; `None`
/// when a count would pass the largest `u32`.
pub open spec fn merges_applied(
    rows: Map<u32, u32>,
    cells: Map<u32, Map<u32, u32>>,
    merges: Seq<(u32, u32)>,
    with_cells: bool,
) -> Option<(Map<u32, u32>, Map<u32, Map<u32, u32>>)>
    decreases merges.len(),
{
    if merges.len() == 0 {
        Some((rows, cells))
    } else {
        match merges_applied(rows, cells, merges.drop_last(), with_cells) {
            None => None,
            Some(state) => {
                let (p, c) = merges.last();
                if merge_fits(state.0, state.1, p, c, with_cells) {
                    Some(
                        (
                            merged_marginals(state.0, p, c),
                            if with_cells {
                                merged_cells(state.1, p, c)
                            } else {
                                state.1
                            },
                        ),
                    )
                } else {
                    None
                }
            },
        }
    }
}

/// The `(parent, child)` of each event: the parent record and the
/// canonical id of the absorbed entity.
pub open spec fn merge_pairs(events: Seq<MergeEvent>) -> Seq<(u32, u32)> {
    events.map_values(|e: MergeEvent| (e.parent_id, canonical(e.child_set())))
}

/// Each entity's canonical id with its size, later entities first.
pub open spec fn marginals_upto(sets: Seq<Set<u32>>, sizes: Seq<u32>, k: int) -> Map<u32, u32>
    decreases k,
{
    if k <= 0 {
        Map::empty()
    } else {
        marginals_upto(sets, sizes, k - 1).insert(canonical(sets[k - 1]), sizes[k - 1])
    }
}

/// The nonzero overlaps of `s` with the first `j` entities of `others`.
pub open spec fn overlap_row(s: Set<u32>, others: Seq<Set<u32>>, j: int) -> Map<u32, u32>
    decreases j,
{
    if j <= 0 {
        Map::empty()
    } else {
        let prev = overlap_row(s, others, j - 1);
        let overlap = s.intersect(others[j - 1]).len() as u32;
        if overlap > 0 {
            prev.insert(canonical(others[j - 1]), overlap)
        } else {
            prev
        }
    }
}

/// The rows of the first `k` entities of `sets` against `others`, keeping
/// only rows with some overlap.
pub open spec fn overlap_table(sets: Seq<Set<u32>>, others: Seq<Set<u32>>, k: int) -> Map<u32, Map<u32, u32>>
    decreases k,
{
    if k <= 0 {
        Map::empty()
    } else {
        let prev = overlap_table(sets, others, k - 1);
        let row = overlap_row(sets[k - 1], others, others.len() as int);
        if row.dom() == Set::<u32>::empty() {
            prev
        } else {
            prev.insert(canonical(sets[k - 1]), row)
        }
    }
}

/// Entity sizes and overlaps of a partition against a fixed one, by
/// canonical id.
pub struct DeltaState {
    /// Row id to column id to the records the two entities share.
    pub contingency_table: HashMap<u32, HashMap<u32, u32>>,
    /// Size of each entity of the swept partition.
    pub row_marginals: HashMap<u32, u32>,
    /// Size of each entity of the fixed partition.
    pub col_marginals: HashMap<u32, u32>,
    /// Records in the swept partition.
    pub total_records: u32,
}

/// The canonical id of a non-empty entity.
pub(crate) fn canonical_id(entity: &RoaringBitmap) -> (id: u32)
    requires
        bitmap_wf(*entity),
        bitmap_set(*entity) != Set::<u32>::empty(),
    ensures
        id == canonical(bitmap_set(*entity)),
{
    match bitmap_min(entity) {
        Some(m) => {
            proof {
                let s = bitmap_set(*entity);
                let c = canonical(s);
                assert(s.contains(m) && forall|x: u32| #[trigger] s.contains(x) ==> m <= x);
                assert(c <= m && m <= c);
            }
            m
        },
        None => {
            proof {
                assert(false);
            }
            0
        },
    }
}

/// Add the counts of `row` into `acc`.
pub(crate) fn add_row(acc: &mut HashMap<u32, u32>, row: &HashMap<u32, u32>)
    requires
        forall|c: u32| #[trigger] lookup(old(acc)@, c) + lookup(row@, c) <= u32::MAX,
    ensures
        forall|c: u32| #[trigger] lookup(final(acc)@, c) == lookup(old(acc)@, c) + lookup(row@, c),
        forall|c: u32| #[trigger] final(acc)@.contains_key(c) <==> old(acc)@.contains_key(c) || row@.contains_key(c),
{
    let ghost acc0 = acc@;
    for entry in it: row.iter()
        invariant
            forall|c: u32| #[trigger] lookup(acc0, c) + lookup(row@, c) <= u32::MAX,
            forall|i: int|
                0 <= i < it.seq().len() ==> row@.contains_key(*(#[trigger] it.seq()[i]).0) && row@[*it.seq()[i].0]
                    == *it.seq()[i].1,
            it.seq().no_duplicates(),
            forall|c: u32| #[trigger] row@.contains_key(c) ==> seen(it.seq(), it.seq().len() as int, c),
            forall|c: u32| #[trigger] seen(it.seq(), it.index() as int, c) ==> row@.contains_key(c),
            forall|c: u32|
                #[trigger] acc@.contains_key(c) <==> acc0.contains_key(c) || seen(it.seq(), it.index() as int, c),
            forall|c: u32|
                #[trigger] lookup(acc@, c) == lookup(acc0, c) + if seen(it.seq(), it.index() as int, c) {
                    lookup(row@, c)
                } else {
                    0
                },
    {
        let (c, v) = entry;
        proof {
            let s = it.seq();
            let k = it.index() as int;
            assert(s[k] == entry);
            assert(!seen(s, k, *c)) by {
                if seen(s, k, *c) {
                    let i = choose|i: int| 0 <= i < k && *s[i].0 == *c;
                    assert(*s[i].1 == row@[*c]);
                    assert(s[i] == s[k]);
                }
            }
            assert(lookup(acc@, *c) == lookup(acc0, *c));
            assert(lookup(acc0, *c) + lookup(row@, *c) <= u32::MAX);
            assert(row@.contains_key(*s[k].0) && row@[*s[k].0] == *s[k].1);
        }
        let ghost acc1 = acc@;
        let cur = match acc.get(c) {
            Some(x) => *x,
            None => 0,
        };
        acc.insert(*c, cur + *v);
        proof {
            let s = it.seq();
            let k = it.index() as int;
            assert forall|d: u32| #[trigger] seen(s, k + 1, d) == (seen(s, k, d) || d == *c) by {
                if seen(s, k + 1, d) && !seen(s, k, d) {
                    let i = choose|i: int| 0 <= i < k + 1 && *s[i].0 == d;
                    assert(i == k);
                }
                if d == *c {
                    assert(*s[k].0 == d);
                }
            }
            assert forall|d: u32| #[trigger] lookup(acc@, d) == lookup(acc0, d) + if seen(s, k + 1, d) {
                lookup(row@, d)
            } else {
                0
            } by {
                assert(seen(s, k + 1, d) == (seen(s, k, d) || d == *c));
                if d != *c {
                    assert(lookup(acc@, d) == lookup(acc1, d));
                }
            }
            assert forall|d: u32| #[trigger] acc@.contains_key(d) <==> acc0.contains_key(d) || seen(s, k + 1, d) by {
                assert(seen(s, k + 1, d) == (seen(s, k, d) || d == *c));
            }
            assert forall|d: u32| #[trigger] seen(s, k + 1, d) implies row@.contains_key(d) by {
                assert(seen(s, k + 1, d) == (seen(s, k, d) || d == *c));
            }
        }
    }
}

/// The counts of two rows added, as `add_row` leaves them.
pub(crate) proof fn lemma_added_rows(result: Map<u32, u32>, acc: Map<u32, u32>, row: Map<u32, u32>)
    requires
        forall|c: u32| #[trigger] lookup(result, c) == lookup(acc, c) + lookup(row, c),
        forall|c: u32| #[trigger] result.contains_key(c) <==> acc.contains_key(c) || row.contains_key(c),
    ensures
        result == added_rows(acc, row),
{
    assert forall|c: u32| #[trigger] result.contains_key(c) implies result[c] == added_rows(acc, row)[c] by {
        assert(lookup(result, c) == lookup(acc, c) + lookup(row, c));
    }
    assert(result =~= added_rows(acc, row));
}

/// Whether some of the first `n` entries of `s` has key `c`.
pub open spec fn seen(s: Seq<(&u32, &u32)>, n: int, c: u32) -> bool {
    exists|i: int| 0 <= i < n && *s[i].0 == c
}

impl DeltaState {
    /// The entity sizes of the swept partition.
    pub open spec fn rows(&self) -> Map<u32, u32> {
        self.row_marginals@
    }

    /// The table as maps.
    pub open spec fn cells(&self) -> Map<u32, Map<u32, u32>> {
        rows_view(self.contingency_table@)
    }

    /// The state of `partition1` against `partition2`, or against nothing.
    pub fn build_initial_state(partition1: &PartitionLevel, partition2: Option<&PartitionLevel>) -> (s: Self)
        requires
            partition1.wf(),
            forall|k: int| 0 <= k < partition1.entity_sets().len() ==> #[trigger] partition1.entity_sets()[k] != Set::<u32>::empty(),
            sum_u32(partition1.sizes()) <= u32::MAX,
            partition2 matches Some(p2) ==> p2.wf() && forall|k: int|
                0 <= k < p2.entity_sets().len() ==> #[trigger] p2.entity_sets()[k] != Set::<u32>::empty(),
        ensures
            s.rows() == marginals_upto(partition1.entity_sets(), partition1.sizes(), partition1.entity_sets().len() as int),
            s.total_records == sum_u32(partition1.sizes()),
            match partition2 {
                Some(p2) => {
                    &&& s.col_marginals@ == marginals_upto(p2.entity_sets(), p2.sizes(), p2.entity_sets().len() as int)
                    &&& s.cells() == overlap_table(partition1.entity_sets(), p2.entity_sets(), partition1.entity_sets().len() as int)
                },
                None => s.col_marginals@ == Map::<u32, u32>::empty() && s.cells() == Map::<u32, Map<u32, u32>>::empty(),
            },
    {
        proof {
            partition1.lemma_sizes();
            match partition2 {
                Some(p2) => p2.lemma_sizes(),
                None => {},
            }
        }
        let entities1 = partition1.entities();
        let sizes1 = partition1.entity_sizes();
        proof {
            assert forall|k: int| 0 <= k < entities1@.len() implies bitmap_set(#[trigger] entities1@[k]) != Set::<u32>::empty() by {
                assert(partition1.entity_sets()[k] == bitmap_set(entities1@[k]));
            }
        }
        let row_marginals = marginals_of(entities1, sizes1);
        let total_records = partition1.total_records();
        let mut state = DeltaState {
            contingency_table: HashMap::new(),
            row_marginals,
            col_marginals: HashMap::new(),
            total_records,
        };
        proof {
            assert(state.cells() =~= Map::<u32, Map<u32, u32>>::empty());
        }
        match partition2 {
            Some(p2) => {
                let entities2 = p2.entities();
                proof {
                    assert forall|k: int| 0 <= k < entities2@.len() implies bitmap_set(#[trigger] entities2@[k]) != Set::<u32>::empty() by {
                        assert(p2.entity_sets()[k] == bitmap_set(entities2@[k]));
                    }
                }
                state.col_marginals = marginals_of(entities2, p2.entity_sizes());
                state.contingency_table = overlaps_of(entities1, entities2);
            },
            None => {},
        }
        state
    }

    /// Absorb entity `child` into entity `parent`: their sizes add up under
    /// `parent`, and, when the table is kept, so do their rows.
    pub fn apply_merge(&mut self, parent: u32, child: u32, with_cells: bool)
        requires
            merge_fits(old(self).rows(), old(self).cells(), parent, child, with_cells),
        ensures
            final(self).rows() == merged_marginals(old(self).rows(), parent, child),
            final(self).cells() == if with_cells {
                merged_cells(old(self).cells(), parent, child)
            } else {
                old(self).cells()
            },
            final(self).col_marginals == old(self).col_marginals,
            final(self).total_records == old(self).total_records,
    {
        let ghost rows0 = self.rows();
        let ghost cells0 = self.cells();
        let parent_size = match self.row_marginals.get(&parent) {
            Some(s) => *s,
            None => 0,
        };
        let child_size = match self.row_marginals.get(&child) {
            Some(s) => *s,
            None => 0,
        };
        if child != parent {
            self.row_marginals.remove(&child);
        }
        self.row_marginals.insert(parent, parent_size + child_size);
        proof {
            assert(self.rows() =~= merged_marginals(rows0, parent, child));
        }
        if with_cells {
            let mut merged: HashMap<u32, u32> = HashMap::new();
            let ghost table0 = self.contingency_table@;
            match self.contingency_table.remove(&parent) {
                Some(row) => {
                    proof {
                        assert(row@ == row_of(cells0, parent));
                    }
                    let ghost empty = merged@;
                    add_row(&mut merged, &row);
                    proof {
                        lemma_added_rows(merged@, empty, row@);
                        assert(merged@ =~= row_of(cells0, parent));
                    }
                },
                None => {
                    proof {
                        assert(merged@ =~= row_of(cells0, parent));
                    }
                },
            }
            let ghost after_parent = merged@;
            let ghost table1 = self.contingency_table@;
            match self.contingency_table.remove(&child) {
                Some(row) => {
                    proof {
                        assert(child != parent);
                        assert(row@ == row_of(cells0, child));
                    }
                    add_row(&mut merged, &row);
                    proof {
                        lemma_added_rows(merged@, after_parent, row@);
                    }
                },
                None => {
                    proof {
                        if child != parent {
                            assert(!cells0.contains_key(child));
                            assert(row_of(cells0, child) =~= Map::<u32, u32>::empty());
                            assert(merged@ =~= added_rows(after_parent, Map::<u32, u32>::empty()));
                        }
                    }
                },
            }
            proof {
                let expect = if parent != child {
                    added_rows(row_of(cells0, parent), row_of(cells0, child))
                } else {
                    row_of(cells0, parent)
                };
                assert(merged@ =~= expect);
                assert(rows_view(self.contingency_table@) =~= cells0.remove(parent).remove(child));
            }
            if merged.len() > 0 {
                self.contingency_table.insert(parent, merged);
                proof {
                    assert(self.cells() =~= merged_cells(cells0, parent, child));
                }
            } else {
                proof {
                    assert(merged@.dom() =~= Set::<u32>::empty());
                    assert(self.cells() =~= merged_cells(cells0, parent, child));
                }
            }
        }
    }

    /// Absorb the child of each event into its parent, in order.
    pub fn incremental_update_with_merges(&mut self, merge_events: &[MergeEvent], with_cells: bool)
        requires
            forall|k: int| 0 <= k < merge_events@.len() ==> (#[trigger] merge_events@[k]).wf(),
            merges_applied(old(self).rows(), old(self).cells(), merge_pairs(merge_events@), with_cells) is Some,
        ensures
            merges_applied(old(self).rows(), old(self).cells(), merge_pairs(merge_events@), with_cells) == Some(
                (final(self).rows(), final(self).cells()),
            ),
            final(self).col_marginals == old(self).col_marginals,
            final(self).total_records == old(self).total_records,
    {
        let applied = self.try_incremental_update_with_merges(merge_events, with_cells);
        assert(applied);
    }
}

/// Whether each count of `a`, added to the count of `b` in the same
/// column, stays within a `u32`.
fn rows_fit(a: &HashMap<u32, u32>, b: &HashMap<u32, u32>) -> (r: bool)
    ensures
        r == forall|c: u32| #[trigger] lookup(a@, c) + lookup(b@, c) <= u32::MAX,
{
    for entry in it: b.iter()
        invariant
            forall|i: int|
                0 <= i < it.seq().len() ==> b@.contains_key(*(#[trigger] it.seq()[i]).0) && b@[*it.seq()[i].0]
                    == *it.seq()[i].1,
            forall|c: u32| #[trigger] b@.contains_key(c) ==> seen(it.seq(), it.seq().len() as int, c),
            forall|c: u32| #[trigger] seen(it.seq(), it.index() as int, c) ==> lookup(a@, c) + lookup(b@, c) <= u32::MAX,
            it.index() == it.seq().len() ==> forall|c: u32| #[trigger] lookup(a@, c) + lookup(b@, c) <= u32::MAX,
    {
        let (c, v) = entry;
        proof {
            let s = it.seq();
            let k = it.index() as int;
            assert(s[k] == entry);
            assert(b@.contains_key(*s[k].0) && b@[*s[k].0] == *s[k].1);
        }
        let x = match a.get(c) {
            Some(x) => *x,
            None => 0,
        };
        if x as u64 + *v as u64 > u32::MAX as u64 {
            proof {
                assert(lookup(a@, *c) + lookup(b@, *c) > u32::MAX);
            }
            return false;
        }
        proof {
            let s = it.seq();
            let k = it.index() as int;
            assert forall|d: u32| #[trigger] seen(s, k + 1, d) implies lookup(a@, d) + lookup(b@, d) <= u32::MAX by {
                if !seen(s, k, d) {
                    let i = choose|i: int| 0 <= i < k + 1 && *s[i].0 == d;
                    assert(i == k);
                }
            }
            assert forall|c: u32| k + 1 == s.len() implies #[trigger] lookup(a@, c) + lookup(b@, c) <= u32::MAX by {
                if b@.contains_key(c) {
                    assert(seen(s, s.len() as int, c));
                }
            }
        }
    }
    true
}

impl DeltaState {
    /// Whether absorbing `child` into `parent` keeps every count within a
    /// `u32`.
    fn merge_fits_now(&self, parent: u32, child: u32, with_cells: bool) -> (r: bool)
        ensures
            r == merge_fits(self.rows(), self.cells(), parent, child, with_cells),
    {
        let parent_size = match self.row_marginals.get(&parent) {
            Some(s) => *s,
            None => 0,
        };
        let child_size = match self.row_marginals.get(&child) {
            Some(s) => *s,
            None => 0,
        };
        if parent_size as u64 + child_size as u64 > u32::MAX as u64 {
            return false;
        }
        if !with_cells || parent == child {
            return true;
        }
        let empty: HashMap<u32, u32> = HashMap::new();
        let parent_row = match self.contingency_table.get(&parent) {
            Some(row) => row,
            None => &empty,
        };
        let child_row = match self.contingency_table.get(&child) {
            Some(row) => row,
            None => &empty,
        };
        proof {
            assert(parent_row@ =~= row_of(self.cells(), parent));
            assert(child_row@ =~= row_of(self.cells(), child));
        }
        rows_fit(parent_row, child_row)
    }

    /// Absorb the child of each event into its parent, in order, while every
    /// count stays within a `u32`. False when some merge would pass it: the
    /// merges before that one are applied, it and those after are not.
    pub fn try_incremental_update_with_merges(&mut self, merge_events: &[MergeEvent], with_cells: bool) -> (r: bool)
        requires
            forall|k: int| 0 <= k < merge_events@.len() ==> (#[trigger] merge_events@[k]).wf(),
        ensures
            r == merges_applied(old(self).rows(), old(self).cells(), merge_pairs(merge_events@), with_cells) is Some,
            r ==> merges_applied(old(self).rows(), old(self).cells(), merge_pairs(merge_events@), with_cells) == Some(
                (final(self).rows(), final(self).cells()),
            ),
            !r ==> exists|k: int|
                0 <= k < merge_events@.len() && merges_applied(
                    old(self).rows(),
                    old(self).cells(),
                    #[trigger] merge_pairs(merge_events@).take(k),
                    with_cells,
                ) == Some((final(self).rows(), final(self).cells())) && merges_applied(
                    old(self).rows(),
                    old(self).cells(),
                    merge_pairs(merge_events@).take(k + 1),
                    with_cells,
                ) is None,
            final(self).col_marginals == old(self).col_marginals,
            final(self).total_records == old(self).total_records,
    {
        let ghost rows0 = self.rows();
        let ghost cells0 = self.cells();
        let ghost pairs = merge_pairs(merge_events@);
        let mut i: usize = 0;
        proof {
            assert(pairs.take(0) =~= Seq::<(u32, u32)>::empty());
        }
        while i < merge_events.len()
            invariant
                i <= merge_events@.len(),
                pairs == merge_pairs(merge_events@),
                forall|k: int| 0 <= k < merge_events@.len() ==> (#[trigger] merge_events@[k]).wf(),
                merges_applied(rows0, cells0, pairs.take(i as int), with_cells) == Some((self.rows(), self.cells())),
                rows0 == old(self).rows(),
                cells0 == old(self).cells(),
                self.col_marginals == old(self).col_marginals,
                self.total_records == old(self).total_records,
            decreases merge_events@.len() - i,
        {
            let event = &merge_events[i];
            let parent = event.parent_id;
            let child = event.child_id();
            proof {
                assert(child == canonical(event.child_set())) by {
                    let s = event.child_set();
                    let c = canonical(s);
                    assert(s.contains(child) && forall|x: u32| #[trigger] s.contains(x) ==> child <= x);
                    assert(c <= child && child <= c);
                }
                assert(pairs[i as int] == (parent, child));
            }
            if !self.merge_fits_now(parent, child, with_cells) {
                proof {
                    lemma_merge_step(rows0, cells0, pairs, with_cells, i as int, (self.rows(), self.cells()));
                    lemma_merges_fail_later(rows0, cells0, pairs, with_cells, i + 1);
                }
                return false;
            }
            proof {
                lemma_merge_step(rows0, cells0, pairs, with_cells, i as int, (self.rows(), self.cells()));
            }
            self.apply_merge(parent, child, with_cells);
            i = i + 1;
        }
        proof {
            assert(pairs.take(merge_events@.len() as int) =~= pairs);
        }
        true
    }
}

/// One more merge on top of a prefix: applied when it fits, and otherwise
/// the run of merges stops there.
proof fn lemma_merge_step(
    rows: Map<u32, u32>,
    cells: Map<u32, Map<u32, u32>>,
    merges: Seq<(u32, u32)>,
    with_cells: bool,
    i: int,
    state: (Map<u32, u32>, Map<u32, Map<u32, u32>>),
)
    requires
        0 <= i < merges.len(),
        merges_applied(rows, cells, merges.take(i), with_cells) == Some(state),
    ensures
        merge_fits(state.0, state.1, merges[i].0, merges[i].1, with_cells) ==> merges_applied(
            rows,
            cells,
            merges.take(i + 1),
            with_cells,
        ) == Some(
            (
                merged_marginals(state.0, merges[i].0, merges[i].1),
                if with_cells {
                    merged_cells(state.1, merges[i].0, merges[i].1)
                } else {
                    state.1
                },
            ),
        ),
        !merge_fits(state.0, state.1, merges[i].0, merges[i].1, with_cells) ==> merges_applied(
            rows,
            cells,
            merges.take(i + 1),
            with_cells,
        ) is None,
{
    assert(merges.take(i + 1).drop_last() =~= merges.take(i));
    assert(merges.take(i + 1).last() == merges[i]);
}

/// When the merges of a prefix do not all apply, those of the whole run do
/// not either.
proof fn lemma_merges_fail_later(
    rows: Map<u32, u32>,
    cells: Map<u32, Map<u32, u32>>,
    merges: Seq<(u32, u32)>,
    with_cells: bool,
    k: int,
)
    requires
        0 <= k <= merges.len(),
        merges_applied(rows, cells, merges.take(k), with_cells) is None,
    ensures
        merges_applied(rows, cells, merges, with_cells) is None,
{
    if merges_applied(rows, cells, merges, with_cells) is Some {
        lemma_merges_prefix(rows, cells, merges, with_cells, k);
    }
}

/// When all merges apply, so do those of every prefix.
proof fn lemma_merges_prefix(
    rows: Map<u32, u32>,
    cells: Map<u32, Map<u32, u32>>,
    merges: Seq<(u32, u32)>,
    with_cells: bool,
    k: int,
)
    requires
        0 <= k <= merges.len(),
        merges_applied(rows, cells, merges, with_cells) is Some,
    ensures
        merges_applied(rows, cells, merges.take(k), with_cells) is Some,
    decreases merges.len() - k,
{
    if k < merges.len() {
        lemma_merges_prefix(rows, cells, merges, with_cells, k + 1);
        assert(merges.take(k + 1).drop_last() =~= merges.take(k));
    } else {
        assert(merges.take(k) =~= merges);
    }
}

/// Each entity's canonical id with its size.
fn marginals_of(entities: &[RoaringBitmap], sizes: &[u32]) -> (m: HashMap<u32, u32>)
    requires
        entities@.len() == sizes@.len(),
        all_bitmaps_wf(entities@),
        forall|k: int| 0 <= k < entities@.len() ==> bitmap_set(#[trigger] entities@[k]) != Set::<u32>::empty(),
    ensures
        m@ == marginals_upto(entities@.map_values(|b: RoaringBitmap| bitmap_set(b)), sizes@, entities@.len() as int),
{
    let ghost sets = entities@.map_values(|b: RoaringBitmap| bitmap_set(b));
    let mut m: HashMap<u32, u32> = HashMap::new();
    let mut k: usize = 0;
    proof {
        assert(m@ =~= marginals_upto(sets, sizes@, 0));
    }
    while k < entities.len()
        invariant
            k <= entities@.len(),
            entities@.len() == sizes@.len(),
            sets == entities@.map_values(|b: RoaringBitmap| bitmap_set(b)),
            all_bitmaps_wf(entities@),
            forall|j: int| 0 <= j < entities@.len() ==> bitmap_set(#[trigger] entities@[j]) != Set::<u32>::empty(),
            m@ == marginals_upto(sets, sizes@, k as int),
        decreases entities@.len() - k,
    {
        let id = canonical_id(&entities[k]);
        m.insert(id, sizes[k]);
        k = k + 1;
    }
    m
}

/// The nonzero overlaps of `entity` with each entity of `entities2`, under
/// their canonical ids.
pub(crate) fn overlap_row_of(entity: &RoaringBitmap, entities2: &[RoaringBitmap]) -> (row: HashMap<u32, u32>)
    requires
        bitmap_wf(*entity),
        all_bitmaps_wf(entities2@),
        forall|k: int| 0 <= k < entities2@.len() ==> bitmap_set(#[trigger] entities2@[k]) != Set::<u32>::empty(),
    ensures
        row@ == overlap_row(
            bitmap_set(*entity),
            entities2@.map_values(|b: RoaringBitmap| bitmap_set(b)),
            entities2@.len() as int,
        ),
{
    let ghost sets2 = entities2@.map_values(|b: RoaringBitmap| bitmap_set(b));
    let mut row: HashMap<u32, u32> = HashMap::new();
    let mut j: usize = 0;
    proof {
        assert(row@ =~= overlap_row(bitmap_set(*entity), sets2, 0));
    }
    while j < entities2.len()
        invariant
            j <= entities2@.len(),
            sets2 == entities2@.map_values(|b: RoaringBitmap| bitmap_set(b)),
            bitmap_wf(*entity),
            all_bitmaps_wf(entities2@),
            forall|i: int| 0 <= i < entities2@.len() ==> bitmap_set(#[trigger] entities2@[i]) != Set::<u32>::empty(),
            row@ == overlap_row(bitmap_set(*entity), sets2, j as int),
        decreases entities2@.len() - j,
    {
        let overlap = bitmap_intersection_len(entity, &entities2[j]) as u32;
        if overlap > 0 {
            let id = canonical_id(&entities2[j]);
            row.insert(id, overlap);
        }
        j = j + 1;
    }
    row
}

/// The rows of nonzero overlaps of each entity of `entities1` with the
/// entities of `entities2`.
fn overlaps_of(entities1: &[RoaringBitmap], entities2: &[RoaringBitmap]) -> (t: HashMap<u32, HashMap<u32, u32>>)
    requires
        all_bitmaps_wf(entities1@),
        forall|k: int| 0 <= k < entities1@.len() ==> bitmap_set(#[trigger] entities1@[k]) != Set::<u32>::empty(),
        all_bitmaps_wf(entities2@),
        forall|k: int| 0 <= k < entities2@.len() ==> bitmap_set(#[trigger] entities2@[k]) != Set::<u32>::empty(),
    ensures
        rows_view(t@) == overlap_table(
            entities1@.map_values(|b: RoaringBitmap| bitmap_set(b)),
            entities2@.map_values(|b: RoaringBitmap| bitmap_set(b)),
            entities1@.len() as int,
        ),
{
    let ghost sets1 = entities1@.map_values(|b: RoaringBitmap| bitmap_set(b));
    let ghost sets2 = entities2@.map_values(|b: RoaringBitmap| bitmap_set(b));
    let mut table: HashMap<u32, HashMap<u32, u32>> = HashMap::new();
    let mut k: usize = 0;
    proof {
        assert(rows_view(table@) =~= overlap_table(sets1, sets2, 0));
    }
    while k < entities1.len()
        invariant
            k <= entities1@.len(),
            sets1 == entities1@.map_values(|b: RoaringBitmap| bitmap_set(b)),
            sets2 == entities2@.map_values(|b: RoaringBitmap| bitmap_set(b)),
            all_bitmaps_wf(entities1@),
            forall|j: int| 0 <= j < entities1@.len() ==> bitmap_set(#[trigger] entities1@[j]) != Set::<u32>::empty(),
            all_bitmaps_wf(entities2@),
            forall|j: int| 0 <= j < entities2@.len() ==> bitmap_set(#[trigger] entities2@[j]) != Set::<u32>::empty(),
            rows_view(table@) == overlap_table(sets1, sets2, k as int),
        decreases entities1@.len() - k,
    {
        let row = overlap_row_of(&entities1[k], entities2);
        let ghost table0 = table@;
        if row.len() > 0 {
            let id = canonical_id(&entities1[k]);
            table.insert(id, row);
            proof {
                assert(rows_view(table@) =~= overlap_table(sets1, sets2, k + 1));
            }
        } else {
            proof {
                assert(row@.dom() =~= Set::<u32>::empty());
            }
        }
        k = k + 1;
    }
    table
}

} // verus!
