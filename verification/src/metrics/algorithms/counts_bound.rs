//! Why the pair counts of two partitions of at most `u32::MAX` records
//! always fit in a `u64`.

use vstd::prelude::*;

use crate::hierarchy::partition::{last_holder, sum_u32, PartitionLevel};
use crate::metrics::algorithms::merge_rebuild::disjoint_entities;
use crate::metrics::algorithms::common::{
    cell_entity, missing_pairs, overlap_pairs, pairs_among, pairs_together, total_entity_pairs,
};
use crate::metrics::algorithms::record::{cells_upto, counts_fit, entity_index, has_cell, marginals};

verus! {

proof fn lemma_pairs_nonneg(a: int)
    ensures
        pairs_among(a) >= 0,
{
    if a >= 2 {
        assert(a * (a - 1) >= 0) by (nonlinear_arith)
            requires
                a >= 2,
        ;
    }
}

/// Two groups hold no more pairs apart than together.
proof fn lemma_pairs_superadditive(a: int, b: int)
    requires
        a >= 0,
        b >= 0,
    ensures
        pairs_among(a) + pairs_among(b) <= pairs_among(a + b),
{
    assert((a + b) * (a + b - 1) == a * (a - 1) + b * (b - 1) + 2 * a * b) by (nonlinear_arith);
    assert(a * b >= 0) by (nonlinear_arith)
        requires
            a >= 0,
            b >= 0,
    ;
    lemma_pairs_nonneg(a);
    lemma_pairs_nonneg(b);
    if a >= 2 && b >= 2 {
        assert(a * (a - 1) / 2 + b * (b - 1) / 2 <= (a + b) * (a + b - 1) / 2) by (nonlinear_arith)
            requires
                (a + b) * (a + b - 1) == a * (a - 1) + b * (b - 1) + 2 * a * b,
                a * b >= 0,
                a >= 2,
                b >= 2,
        ;
    } else if a >= 2 {
        assert(a * (a - 1) / 2 <= (a + b) * (a + b - 1) / 2) by (nonlinear_arith)
            requires
                a >= 2,
                b >= 0,
        ;
    } else if b >= 2 {
        assert(b * (b - 1) / 2 <= (a + b) * (a + b - 1) / 2) by (nonlinear_arith)
            requires
                b >= 2,
                a >= 0,
        ;
    }
}

/// More records hold at least as many pairs.
proof fn lemma_pairs_monotone(a: int, b: int)
    requires
        0 <= a <= b,
    ensures
        pairs_among(a) <= pairs_among(b),
{
    lemma_pairs_superadditive(a, b - a);
    lemma_pairs_nonneg(b - a);
}

/// The records in the cells of `entity` (its row, or its column).
pub open spec fn entity_total(cells: Seq<((usize, usize), u32)>, entity: usize, by_row: bool) -> int
    decreases cells.len(),
{
    if cells.len() == 0 {
        0
    } else {
        entity_total(cells.drop_last(), entity, by_row) + if cell_entity(cells.last(), by_row) == entity {
            cells.last().1 as int
        } else {
            0
        }
    }
}

/// The pairs an entity keeps together are at most the pairs among the
/// records of its cells.
proof fn lemma_together_le_total(cells: Seq<((usize, usize), u32)>, entity: usize, by_row: bool)
    ensures
        0 <= entity_total(cells, entity, by_row),
        0 <= pairs_together(cells, entity, by_row) <= pairs_among(entity_total(cells, entity, by_row)),
    decreases cells.len(),
{
    if cells.len() > 0 {
        let d = cells.drop_last();
        lemma_together_le_total(d, entity, by_row);
        lemma_pairs_nonneg(cells.last().1 as int);
        if cell_entity(cells.last(), by_row) == entity {
            lemma_pairs_superadditive(entity_total(d, entity, by_row), cells.last().1 as int);
            lemma_pairs_monotone(pairs_together(d, entity, by_row), pairs_among(entity_total(d, entity, by_row)));
        }
    }
}

/// Counting one more record in cell `k` counts one more in its row and
/// column and leaves the others.
proof fn lemma_total_bump(cells: Seq<((usize, usize), u32)>, k: int, entity: usize, by_row: bool)
    requires
        0 <= k < cells.len(),
        cells[k].1 < u32::MAX,
    ensures
        entity_total(cells.update(k, (cells[k].0, (cells[k].1 + 1) as u32)), entity, by_row) == entity_total(
            cells,
            entity,
            by_row,
        ) + if cell_entity(cells[k], by_row) == entity {
            1int
        } else {
            0int
        },
    decreases cells.len(),
{
    let u = cells.update(k, (cells[k].0, (cells[k].1 + 1) as u32));
    if k == cells.len() - 1 {
        assert(u.drop_last() =~= cells.drop_last());
    } else {
        lemma_total_bump(cells.drop_last(), k, entity, by_row);
        assert(u.drop_last() =~= cells.drop_last().update(k, (cells[k].0, (cells[k].1 + 1) as u32)));
        assert(u.last() == cells.last());
    }
}

/// A cell holds no more records than its row.
proof fn lemma_cell_le_total(cells: Seq<((usize, usize), u32)>, k: int, by_row: bool)
    requires
        0 <= k < cells.len(),
    ensures
        cells[k].1 <= entity_total(cells, cell_entity(cells[k], by_row), by_row),
    decreases cells.len(),
{
    let e = cell_entity(cells[k], by_row);
    lemma_together_le_total(cells.drop_last(), e, by_row);
    if k < cells.len() - 1 {
        lemma_cell_le_total(cells.drop_last(), k, by_row);
        assert(cells.drop_last()[k] == cells[k]);
    }
}

/// The records below `r` that `idx` puts in entity `i`.
pub open spec fn count_in(idx: Seq<Option<usize>>, i: usize, r: int) -> int
    decreases r,
{
    if r <= 0 {
        0
    } else {
        count_in(idx, i, r - 1) + if idx[r - 1] == Some(i) {
            1int
        } else {
            0int
        }
    }
}

proof fn lemma_count_in_le(idx: Seq<Option<usize>>, i: usize, r: int)
    requires
        r >= 0,
    ensures
        0 <= count_in(idx, i, r) <= r,
    decreases r,
{
    if r > 0 {
        lemma_count_in_le(idx, i, r - 1);
    }
}

/// The cells of an entity hold no more records than the entity has among
/// the records counted.
proof fn lemma_cells_within_rows(first: Seq<Option<usize>>, second: Seq<Option<usize>>, r: int, i: usize)
    requires
        0 <= r <= u32::MAX,
    ensures
        entity_total(cells_upto(first, second, r), i, true) <= count_in(first, i, r),
        entity_total(cells_upto(first, second, r), i, false) <= count_in(second, i, r),
    decreases r,
{
    if r > 0 {
        let prev = cells_upto(first, second, r - 1);
        lemma_cells_within_rows(first, second, r - 1, i);
        match (first[r - 1], second[r - 1]) {
            (Some(a), Some(b)) => {
                if has_cell(prev, (a, b)) {
                    let k = choose|k: int| 0 <= k < prev.len() && (#[trigger] prev[k]).0 == (a, b);
                    lemma_cells_within_rows(first, second, r - 1, a);
                    lemma_cell_le_total(prev, k, true);
                    lemma_count_in_le(first, a, r - 1);
                    assert(prev[k].1 < u32::MAX);
                    assert(cells_upto(first, second, r) == prev.update(k, ((a, b), (prev[k].1 + 1) as u32)));
                    lemma_total_bump(prev, k, i, true);
                    lemma_total_bump(prev, k, i, false);
                } else {
                    assert(cells_upto(first, second, r) == prev.push(((a, b), 1u32)));
                    assert(prev.push(((a, b), 1u32)).drop_last() =~= prev);
                }
            },
            _ => {},
        }
    }
}

/// Every cell's row is an entity some record below `r` falls in.
proof fn lemma_cells_rows(first: Seq<Option<usize>>, second: Seq<Option<usize>>, r: int, k1: int)
    requires
        0 <= r <= first.len(),
        forall|v: int| 0 <= v < r ==> (#[trigger] first[v] matches Some(a) ==> (a as int) < k1),
    ensures
        forall|k: int|
            0 <= k < cells_upto(first, second, r).len() ==> ((#[trigger] cells_upto(first, second, r)[k]).0.0 as int)
                < k1,
    decreases r,
{
    if r > 0 {
        lemma_cells_rows(first, second, r - 1, k1);
        let prev = cells_upto(first, second, r - 1);
        match (first[r - 1], second[r - 1]) {
            (Some(a), Some(b)) => {
                if has_cell(prev, (a, b)) {
                    let k = choose|k: int| 0 <= k < prev.len() && (#[trigger] prev[k]).0 == (a, b);
                    assert(cells_upto(first, second, r) == prev.update(k, ((a, b), (prev[k].1 + 1) as u32)));
                } else {
                    assert(cells_upto(first, second, r) == prev.push(((a, b), 1u32)));
                }
            },
            _ => {},
        }
    }
}

/// The pairs that the first `k` rows keep together.
pub open spec fn together_sum(cells: Seq<((usize, usize), u32)>, k: int) -> int
    decreases k,
{
    if k <= 0 {
        0
    } else {
        together_sum(cells, k - 1) + pairs_together(cells, (k - 1) as usize, true)
    }
}

proof fn lemma_together_sum_push(cells: Seq<((usize, usize), u32)>, c: ((usize, usize), u32), k: int)
    requires
        0 <= k <= usize::MAX,
    ensures
        together_sum(cells.push(c), k) == together_sum(cells, k) + if (c.0.0 as int) < k {
            pairs_among(c.1 as int)
        } else {
            0
        },
    decreases k,
{
    assert(cells.push(c).drop_last() =~= cells);
    if k > 0 {
        lemma_together_sum_push(cells, c, k - 1);
        let e = (k - 1) as usize;
        assert(e as int == k - 1);
        assert(pairs_together(cells.push(c), e, true) == pairs_together(cells, e, true) + if cell_entity(c, true)
            == e {
            pairs_among(c.1 as int)
        } else {
            0
        });
    }
}

/// When every cell's row is below `k`, the pairs together in both
/// partitions are those the first `k` rows keep together.
proof fn lemma_overlap_by_rows(cells: Seq<((usize, usize), u32)>, k: int)
    requires
        0 <= k <= usize::MAX,
        forall|m: int| 0 <= m < cells.len() ==> ((#[trigger] cells[m]).0.0 as int) < k,
    ensures
        overlap_pairs(cells) == together_sum(cells, k),
    decreases cells.len(),
{
    if cells.len() == 0 {
        assert(together_sum(cells, k) == 0) by {
            lemma_together_sum_empty(cells, k);
        }
    } else {
        let d = cells.drop_last();
        assert forall|m: int| 0 <= m < d.len() implies ((#[trigger] d[m]).0.0 as int) < k by {
            assert(d[m] == cells[m]);
        }
        lemma_overlap_by_rows(d, k);
        assert(cells == d.push(cells.last()));
        lemma_together_sum_push(d, cells.last(), k);
    }
}

proof fn lemma_together_sum_empty(cells: Seq<((usize, usize), u32)>, k: int)
    requires
        cells.len() == 0,
    ensures
        together_sum(cells, k) == 0,
    decreases k,
{
    if k > 0 {
        lemma_together_sum_empty(cells, k - 1);
    }
}

/// What a row costs: the pairs it keeps together, and those it splits.
pub open spec fn row_cost(size: u32, together: int) -> int {
    together + if size > 1 && pairs_among(size as int) - together > 0 {
        pairs_among(size as int) - together
    } else {
        0
    }
}

/// The costs of the first `k` rows.
pub open spec fn cost_sum(sizes: Seq<u32>, cells: Seq<((usize, usize), u32)>, k: int) -> int
    decreases k,
{
    if k <= 0 {
        0
    } else {
        cost_sum(sizes, cells, k - 1) + row_cost(sizes[k - 1], pairs_together(cells, (k - 1) as usize, true))
    }
}

/// The pairs the rows keep together plus those they split, row by row.
proof fn lemma_rows_cost(sizes: Seq<u32>, cells: Seq<((usize, usize), u32)>, k: int)
    requires
        0 <= k <= sizes.len(),
    ensures
        together_sum(cells, k) + missing_pairs(marginals(sizes).take(k), cells, true) == cost_sum(sizes, cells, k),
    decreases k,
{
    if k == 0 {
        assert(marginals(sizes).take(0) =~= Seq::<(usize, u32)>::empty());
    } else {
        lemma_rows_cost(sizes, cells, k - 1);
        assert(marginals(sizes).take(k).drop_last() =~= marginals(sizes).take(k - 1));
        assert(marginals(sizes).take(k).last() == ((k - 1) as usize, sizes[k - 1]));
    }
}

/// Entities hold no more pairs than their records together.
proof fn lemma_entity_pairs_le_pairs_of_sum(sizes: Seq<u32>)
    ensures
        total_entity_pairs(sizes) <= pairs_among(sum_u32(sizes)),
        sum_u32(sizes) >= 0,
    decreases sizes.len(),
{
    if sizes.len() > 0 {
        lemma_entity_pairs_le_pairs_of_sum(sizes.drop_last());
        lemma_pairs_superadditive(sum_u32(sizes.drop_last()), sizes.last() as int);
    }
}

/// Rows that split no more than all their pairs cost no more than the
/// pairs within them.
proof fn lemma_cost_le_pairs(sizes: Seq<u32>, cells: Seq<((usize, usize), u32)>, k: int)
    requires
        0 <= k <= sizes.len(),
        forall|i: int| 0 <= i < k ==> pairs_together(cells, i as usize, true) <= pairs_among(#[trigger] sizes[i] as int),
    ensures
        cost_sum(sizes, cells, k) <= total_entity_pairs(sizes.take(k)),
    decreases k,
{
    if k > 0 {
        lemma_cost_le_pairs(sizes, cells, k - 1);
        assert(sizes.take(k).drop_last() =~= sizes.take(k - 1));
        assert(sizes.take(k).last() == sizes[k - 1]);
        assert(pairs_together(cells, (k - 1) as usize, true) <= pairs_among(sizes[k - 1] as int));
    }
}

/// The pairs the columns split are at most the pairs within them.
proof fn lemma_missing_le_pairs(marg: Seq<(usize, u32)>, cells: Seq<((usize, usize), u32)>, by_row: bool)
    ensures
        missing_pairs(marg, cells, by_row) <= total_entity_pairs(marg.map_values(|m: (usize, u32)| m.1)),
    decreases marg.len(),
{
    if marg.len() > 0 {
        lemma_missing_le_pairs(marg.drop_last(), cells, by_row);
        assert(marg.map_values(|m: (usize, u32)| m.1).drop_last() =~= marg.drop_last().map_values(
            |m: (usize, u32)| m.1,
        ));
        lemma_together_le_total(cells, marg.last().0, by_row);
        lemma_pairs_nonneg(marg.last().1 as int);
    }
}

/// The records `idx` puts in entity `i` below `r`, as a set.
pub open spec fn counted(idx: Seq<Option<usize>>, i: usize, r: int) -> Set<u32> {
    Set::new(|v: u32| (v as int) < r && idx[v as int] == Some(i))
}

proof fn lemma_counted_len(idx: Seq<Option<usize>>, i: usize, r: int)
    requires
        0 <= r <= 0x1_0000_0000,
    ensures
        counted(idx, i, r).finite(),
        counted(idx, i, r).len() == count_in(idx, i, r),
    decreases r,
{
    if r == 0 {
        assert(counted(idx, i, r) =~= Set::<u32>::empty());
    } else {
        lemma_counted_len(idx, i, r - 1);
        let v = (r - 1) as u32;
        assert(v as int == r - 1);
        if idx[r - 1] == Some(i) {
            assert(counted(idx, i, r) =~= counted(idx, i, r - 1).insert(v));
        } else {
            assert(counted(idx, i, r) =~= counted(idx, i, r - 1));
        }
    }
}

/// The last set holding a record holds it.
proof fn lemma_last_holder_holds(sets: Seq<Set<u32>>, x: u32)
    requires
        sets.len() <= usize::MAX,
    ensures
        last_holder(sets, x) matches Some(i) ==> (i as int) < sets.len() && sets[i as int].contains(x),
    decreases sets.len(),
{
    if sets.len() > 0 && !sets.last().contains(x) {
        lemma_last_holder_holds(sets.drop_last(), x);
        match last_holder(sets.drop_last(), x) {
            Some(i) => {
                assert(sets.drop_last()[i as int] == sets[i as int]);
            },
            None => {},
        }
    }
}

/// An entity has no more records below `n` than it has records.
proof fn lemma_row_count_le_size(sets: Seq<Set<u32>>, n: nat, i: usize)
    requires
        n <= u32::MAX,
        sets.len() <= usize::MAX,
    ensures
        count_in(entity_index(sets, n), i, n as int) <= sets[i as int].len() || (i as int) >= sets.len(),
{
    let idx = entity_index(sets, n);
    lemma_counted_len(idx, i, n as int);
    if (i as int) < sets.len() {
        assert forall|v: u32| #[trigger] counted(idx, i, n as int).contains(v) implies sets[i as int].contains(v) by {
            lemma_last_holder_holds(sets, v);
        }
        crate::hierarchy::bitmap::lemma_u32_set_finite(sets[i as int]);
        vstd::set_lib::lemma_len_subset(counted(idx, i, n as int), sets[i as int]);
    }
}

/// A set of `u32` that misses some value has fewer than `2^32` elements.
proof fn lemma_u32_set_missing_len(s: Set<u32>, w: u32)
    requires
        s.finite(),
        !s.contains(w),
    ensures
        s.len() < 0x1_0000_0000,
{
    let f = |v: u32| v as int;
    let mapped = s.map(f);
    let ints = vstd::set_lib::set_int_range(0, 0x1_0000_0000).remove(w as int);
    assert(vstd::relations::injective_on(f, s));
    vstd::set_lib::lemma_map_size(s, mapped, f);
    vstd::set_lib::lemma_int_range(0, 0x1_0000_0000);
    assert forall|x: int| #[trigger] mapped.contains(x) implies ints.contains(x) by {
        let v = choose|v: u32| s.contains(v) && f(v) == x;
    }
    vstd::set_lib::lemma_len_subset(mapped, ints);
}

/// The union of the first `k` sets.
pub open spec fn union_upto(sets: Seq<Set<u32>>, k: int) -> Set<u32>
    decreases k,
{
    if k <= 0 {
        Set::empty()
    } else {
        union_upto(sets, k - 1) + sets[k - 1]
    }
}

/// Stored sizes of disjoint sets of `u32` add up to at most `2^32`.
proof fn lemma_disjoint_sizes(sets: Seq<Set<u32>>, sizes: Seq<u32>, k: int)
    requires
        0 <= k <= sets.len(),
        sizes.len() == sets.len(),
        forall|i: int| 0 <= i < sizes.len() ==> #[trigger] sizes[i] == sets[i].len() as u32,
        forall|a: int, b: int| 0 <= a < sets.len() && 0 <= b < sets.len() && a != b ==> #[trigger] sets[a].disjoint(
            #[trigger] sets[b],
        ),
    ensures
        union_upto(sets, k).finite(),
        sum_u32(sizes.take(k)) <= union_upto(sets, k).len(),
        union_upto(sets, k).len() <= 0x1_0000_0000,
    decreases k,
{
    if k == 0 {
        assert(sizes.take(0) =~= Seq::<u32>::empty());
    } else {
        lemma_disjoint_sizes(sets, sizes, k - 1);
        let u = union_upto(sets, k - 1);
        let s = sets[k - 1];
        crate::hierarchy::bitmap::lemma_u32_set_finite(s);
        assert(u.disjoint(s)) by {
            assert forall|v: u32| u.contains(v) implies !s.contains(v) by {
                lemma_union_upto_member(sets, k - 1, v);
                let j = choose|j: int| 0 <= j < k - 1 && sets[j].contains(v);
                assert(sets[j].disjoint(sets[k - 1]));
            }
        }
        vstd::set_lib::lemma_set_disjoint_lens(u, s);
        assert(sizes.take(k).drop_last() =~= sizes.take(k - 1));
        assert(sizes.take(k).last() == sizes[k - 1]);
        assert(sizes[k - 1] as int <= s.len());
        crate::hierarchy::merge_event::lemma_u32_set_len_bound(u + s);
    }
}

proof fn lemma_union_upto_member(sets: Seq<Set<u32>>, k: int, v: u32)
    requires
        k >= 0,
    ensures
        union_upto(sets, k).contains(v) ==> exists|j: int| 0 <= j < k && sets[j].contains(v),
    decreases k,
{
    if k > 0 {
        lemma_union_upto_member(sets, k - 1, v);
    }
}

/// A row costs at most the larger of its pairs and the pairs it keeps together.
proof fn lemma_row_cost_le(size: u32, together: int, bound: int)
    requires
        together >= 0,
        pairs_among(size as int) <= bound,
        together <= bound,
    ensures
        row_cost(size, together) <= bound,
{
}

/// The pair counts of two partitions whose entities are disjoint, over at
/// most `u32::MAX` records and with the first's sizes adding up to at most
/// `u32::MAX`, fit in a `u64`: the pairs the first keeps together or splits
/// are at most the pairs among `u32::MAX` records, and those the second
/// splits at most the pairs among `2^32`.
pub proof fn lemma_disjoint_counts_fit(p1: PartitionLevel, p2: PartitionLevel, n: nat)
    requires
        p1.wf(),
        p2.wf(),
        p1.entity_bitmaps().len() <= usize::MAX,
        p2.entity_bitmaps().len() <= usize::MAX,
        n <= u32::MAX,
        sum_u32(p1.sizes()) <= u32::MAX,
        disjoint_entities(p1.entity_sets()),
        disjoint_entities(p2.entity_sets()),
    ensures
        counts_fit(p1, p2, n),
{
    let sets1 = p1.entity_sets();
    let sets2 = p2.entity_sets();
    let s1 = p1.sizes();
    let s2 = p2.sizes();
    p1.lemma_sizes();
    p2.lemma_sizes();
    let first = entity_index(sets1, n);
    let second = entity_index(sets2, n);
    let cells = cells_upto(first, second, n as int);
    let k1 = sets1.len() as int;
    let big = pairs_among(u32::MAX as int);
    assert forall|i: int| 0 <= i < s1.len() implies #[trigger] s1[i] == sets1[i].len() as u32 by {}
    assert forall|i: int| 0 <= i < s2.len() implies #[trigger] s2[i] == sets2[i].len() as u32 by {}
    // every cell's row is an entity of the first partition
    assert forall|v: int| 0 <= v < n implies (#[trigger] first[v] matches Some(a) ==> (a as int) < k1) by {
        lemma_last_holder_holds(sets1, v as u32);
    }
    lemma_cells_rows(first, second, n as int, k1);
    lemma_overlap_by_rows(cells, k1);
    lemma_rows_cost(s1, cells, k1);
    assert(marginals(s1).take(k1) =~= marginals(s1));
    // each row keeps together at most the pairs among its records below n
    assert forall|i: int| 0 <= i < k1 implies #[trigger] pairs_together(cells, i as usize, true) <= pairs_among(
        count_in(first, i as usize, n as int),
    ) && count_in(first, i as usize, n as int) <= n && pairs_together(cells, i as usize, true) >= 0 by {
        lemma_cells_within_rows(first, second, n as int, i as usize);
        lemma_together_le_total(cells, i as usize, true);
        lemma_count_in_le(first, i as usize, n as int);
        lemma_pairs_monotone(entity_total(cells, i as usize, true), count_in(first, i as usize, n as int));
    }
    let all_fit = forall|i: int| 0 <= i < k1 ==> (#[trigger] sets1[i]).len() <= u32::MAX;
    if all_fit {
        assert forall|i: int| 0 <= i < k1 implies pairs_together(cells, i as usize, true) <= pairs_among(
            #[trigger] s1[i] as int,
        ) by {
            assert(sets1[i].len() <= u32::MAX);
            lemma_row_count_le_size(sets1, n, i as usize);
            lemma_count_in_le(first, i as usize, n as int);
            assert(s1[i] as int == sets1[i].len());
            lemma_pairs_monotone(count_in(first, i as usize, n as int), s1[i] as int);
        }
        lemma_cost_le_pairs(s1, cells, k1);
        assert(s1.take(k1) =~= s1);
        lemma_entity_pairs_le_pairs_of_sum(s1);
        lemma_pairs_monotone(sum_u32(s1), u32::MAX as int);
    } else {
        let i0 = choose|i: int| 0 <= i < k1 && (#[trigger] sets1[i]).len() > u32::MAX;
        crate::hierarchy::bitmap::lemma_u32_set_finite(sets1[i0]);
        if k1 >= 2 {
            let j = if i0 == 0 { 1int } else { 0int };
            assert(sets1[j] != Set::<u32>::empty());
            if !(exists|w: u32| sets1[j].contains(w)) {
                assert(sets1[j] =~= Set::<u32>::empty());
            }
            let w = choose|w: u32| sets1[j].contains(w);
            assert(sets1[i0].disjoint(sets1[j]));
            lemma_u32_set_missing_len(sets1[i0], w);
        }
        assert(k1 == 1);
        lemma_pairs_monotone(n as int, u32::MAX as int);
        lemma_count_in_le(first, 0, n as int);
        lemma_pairs_monotone(count_in(first, 0, n as int), n as int);
        lemma_pairs_monotone(s1[0] as int, u32::MAX as int);
        lemma_row_cost_le(s1[0], pairs_together(cells, 0, true), big);
        assert(cost_sum(s1, cells, 1) == cost_sum(s1, cells, 0) + row_cost(s1[0], pairs_together(cells, 0, true)));
    }
    // the second partition splits at most the pairs among 2^32 records
    lemma_missing_le_pairs(marginals(s2), cells, false);
    assert(marginals(s2).map_values(|m: (usize, u32)| m.1) =~= s2);
    lemma_entity_pairs_le_pairs_of_sum(s2);
    lemma_disjoint_sizes(sets2, s2, s2.len() as int);
    assert(s2.take(s2.len() as int) =~= s2);
    lemma_pairs_monotone(sum_u32(s2), 0x1_0000_0000);
    assert(pairs_among(u32::MAX as int) + pairs_among(0x1_0000_0000) <= u64::MAX);
}

} // verus!
