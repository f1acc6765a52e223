//! Folding one entity into another in the sizes and overlaps kept for a
//! sweep gives the sizes and overlaps of the merged partition itself.

use vstd::prelude::*;

use crate::hierarchy::bitmap::{bitmap_set, lemma_u32_set_finite};
use crate::hierarchy::partition::PartitionLevel;
use crate::metrics::algorithms::delta::{
    added_rows, canonical, lookup, marginals_upto, merge_fits, merged_cells, merged_marginals, merges_applied,
    overlap_row, overlap_table, row_of,
};

verus! {

/// Nonempty entities, no two sharing a record.
pub open spec fn disjoint_entities(sets: Seq<Set<u32>>) -> bool {
    &&& forall|k: int| 0 <= k < sets.len() ==> #[trigger] sets[k] != Set::<u32>::empty()
    &&& forall|k: int, l: int|
        0 <= k < sets.len() && 0 <= l < sets.len() && k != l ==> #[trigger] sets[k].disjoint(#[trigger] sets[l])
}

/// The entities with entity `j` folded into entity `i`.
pub open spec fn absorbed(sets: Seq<Set<u32>>, i: int, j: int) -> Seq<Set<u32>> {
    sets.update(i, sets[i] + sets[j]).remove(j)
}

/// No two of the first `n` entities share a canonical id.
pub open spec fn distinct_ids(sets: Seq<Set<u32>>, n: int) -> bool {
    forall|k: int, l: int| 0 <= k < n && 0 <= l < n && k != l ==> #[trigger] canonical(sets[k]) != #[trigger] canonical(sets[l])
}

/// A nonempty set of records holds its canonical id, the least of them.
pub proof fn lemma_canonical(s: Set<u32>)
    requires
        s != Set::<u32>::empty(),
    ensures
        s.contains(canonical(s)),
        forall|x: u32| #[trigger] s.contains(x) ==> canonical(s) <= x,
    decreases s.len(),
{
    lemma_u32_set_finite(s);
    assert(exists|x: u32| s.contains(x)) by {
        if !(exists|x: u32| s.contains(x)) {
            assert(s =~= Set::<u32>::empty());
        }
    }
    let a = s.choose();
    let r = s.remove(a);
    if r == Set::<u32>::empty() {
        assert forall|x: u32| #[trigger] s.contains(x) implies a <= x by {
            if x != a {
                assert(r.contains(x));
            }
        }
        assert(s.contains(a) && forall|x: u32| #[trigger] s.contains(x) ==> a <= x);
    } else {
        lemma_canonical(r);
        let m = canonical(r);
        let w = if a <= m {
            a
        } else {
            m
        };
        assert forall|x: u32| #[trigger] s.contains(x) implies w <= x by {
            if x != a {
                assert(r.contains(x));
            }
        }
        assert(s.contains(w) && forall|x: u32| #[trigger] s.contains(x) ==> w <= x);
    }
}

/// The least record of a set is its canonical id.
pub proof fn lemma_canonical_is(s: Set<u32>, m: u32)
    requires
        s.contains(m),
        forall|x: u32| #[trigger] s.contains(x) ==> m <= x,
    ensures
        canonical(s) == m,
{
    lemma_canonical(s);
}

/// A union takes the canonical id of the part holding the smaller one.
proof fn lemma_canonical_union(x: Set<u32>, y: Set<u32>)
    requires
        x != Set::<u32>::empty(),
        y != Set::<u32>::empty(),
        canonical(x) < canonical(y),
    ensures
        canonical(x + y) == canonical(x),
{
    lemma_canonical(x);
    lemma_canonical(y);
    let m = canonical(x);
    assert forall|z: u32| #[trigger] (x + y).contains(z) implies m <= z by {
        if y.contains(z) {
            assert(canonical(y) <= z);
        }
    }
    lemma_canonical_is(x + y, m);
}

/// Disjoint nonempty entities have distinct canonical ids.
pub proof fn lemma_distinct_ids(sets: Seq<Set<u32>>)
    requires
        disjoint_entities(sets),
    ensures
        distinct_ids(sets, sets.len() as int),
{
    assert forall|k: int, l: int| 0 <= k < sets.len() && 0 <= l < sets.len() && k != l implies #[trigger] canonical(
        sets[k],
    ) != #[trigger] canonical(sets[l]) by {
        assert(sets[k] != Set::<u32>::empty());
        assert(sets[l] != Set::<u32>::empty());
        lemma_canonical(sets[k]);
        lemma_canonical(sets[l]);
        assert(sets[k].disjoint(sets[l]));
    }
}

/// The sizes map holds each entity's size under its canonical id, and
/// nothing else.
pub proof fn lemma_marginals_shape(sets: Seq<Set<u32>>, sizes: Seq<u32>, n: int)
    requires
        0 <= n <= sets.len(),
        n <= sizes.len(),
        distinct_ids(sets, n),
    ensures
        forall|k: int|
            0 <= k < n ==> marginals_upto(sets, sizes, n).contains_key(#[trigger] canonical(sets[k]))
                && marginals_upto(sets, sizes, n)[canonical(sets[k])] == sizes[k],
        forall|c: u32|
            #[trigger] marginals_upto(sets, sizes, n).contains_key(c) ==> exists|k: int|
                0 <= k < n && #[trigger] canonical(sets[k]) == c,
    decreases n,
{
    if n > 0 {
        assert(distinct_ids(sets, n - 1));
        lemma_marginals_shape(sets, sizes, n - 1);
        let prev = marginals_upto(sets, sizes, n - 1);
        let last = canonical(sets[n - 1]);
        assert forall|k: int| 0 <= k < n implies marginals_upto(sets, sizes, n).contains_key(
            #[trigger] canonical(sets[k]),
        ) && marginals_upto(sets, sizes, n)[canonical(sets[k])] == sizes[k] by {
            if k < n - 1 {
                assert(canonical(sets[k]) != last);
                assert(prev.contains_key(canonical(sets[k])));
            }
        }
        assert forall|c: u32| #[trigger] marginals_upto(sets, sizes, n).contains_key(c) implies exists|k: int|
            0 <= k < n && #[trigger] canonical(sets[k]) == c by {
            if c != last {
                assert(prev.contains_key(c));
                let k = choose|k: int| 0 <= k < n - 1 && #[trigger] canonical(sets[k]) == c;
                assert(0 <= k < n && canonical(sets[k]) == c);
            } else {
                assert(canonical(sets[n - 1]) == c);
            }
        }
    }
}

/// A row holds the records shared with each other entity, under that
/// entity's canonical id, when there are any, and nothing else.
proof fn lemma_row_shape(s: Set<u32>, others: Seq<Set<u32>>, m: int)
    requires
        0 <= m <= others.len(),
        distinct_ids(others, m),
    ensures
        forall|l: int|
            0 <= l < m ==> (overlap_row(s, others, m).contains_key(#[trigger] canonical(others[l])) <==> (
            s.intersect(others[l]).len() as u32) > 0),
        forall|l: int|
            0 <= l < m && (s.intersect(others[l]).len() as u32) > 0 ==> overlap_row(s, others, m)[#[trigger] canonical(
                others[l],
            )] == s.intersect(others[l]).len() as u32,
        forall|c: u32|
            #[trigger] overlap_row(s, others, m).contains_key(c) ==> exists|l: int|
                0 <= l < m && #[trigger] canonical(others[l]) == c,
    decreases m,
{
    if m > 0 {
        assert(distinct_ids(others, m - 1));
        lemma_row_shape(s, others, m - 1);
        let prev = overlap_row(s, others, m - 1);
        let last = canonical(others[m - 1]);
        assert forall|l: int| 0 <= l < m implies (overlap_row(s, others, m).contains_key(
            #[trigger] canonical(others[l]),
        ) <==> (s.intersect(others[l]).len() as u32) > 0) by {
            if l < m - 1 {
                assert(canonical(others[l]) != last);
                assert(prev.contains_key(canonical(others[l])) <==> (s.intersect(others[l]).len() as u32) > 0);
            }
        }
        assert forall|l: int|
            0 <= l < m && (s.intersect(others[l]).len() as u32) > 0 implies overlap_row(
            s,
            others,
            m,
        )[#[trigger] canonical(others[l])] == s.intersect(others[l]).len() as u32 by {
            if l < m - 1 {
                assert(canonical(others[l]) != last);
                assert(prev.contains_key(canonical(others[l])));
            }
        }
        assert forall|c: u32| #[trigger] overlap_row(s, others, m).contains_key(c) implies exists|l: int|
            0 <= l < m && #[trigger] canonical(others[l]) == c by {
            if c != last {
                assert(prev.contains_key(c));
                let l = choose|l: int| 0 <= l < m - 1 && #[trigger] canonical(others[l]) == c;
                assert(0 <= l < m && canonical(others[l]) == c);
            } else {
                assert(canonical(others[m - 1]) == c);
            }
        }
    }
}


/// An entity's row of overlaps against every entity of `others`.
pub open spec fn full_row(s: Set<u32>, others: Seq<Set<u32>>) -> Map<u32, u32> {
    overlap_row(s, others, others.len() as int)
}

/// The table holds each entity's row under its canonical id when the row
/// is not empty, and nothing else.
proof fn lemma_table_shape(sets: Seq<Set<u32>>, others: Seq<Set<u32>>, n: int)
    requires
        0 <= n <= sets.len(),
        distinct_ids(sets, n),
    ensures
        forall|k: int|
            0 <= k < n ==> (overlap_table(sets, others, n).contains_key(#[trigger] canonical(sets[k])) <==> full_row(
                sets[k],
                others,
            ).dom() != Set::<u32>::empty()),
        forall|k: int|
            0 <= k < n && full_row(sets[k], others).dom() != Set::<u32>::empty() ==> overlap_table(
                sets,
                others,
                n,
            )[#[trigger] canonical(sets[k])] == full_row(sets[k], others),
        forall|c: u32|
            #[trigger] overlap_table(sets, others, n).contains_key(c) ==> exists|k: int|
                0 <= k < n && #[trigger] canonical(sets[k]) == c,
    decreases n,
{
    if n > 0 {
        assert(distinct_ids(sets, n - 1));
        lemma_table_shape(sets, others, n - 1);
        let prev = overlap_table(sets, others, n - 1);
        let last = canonical(sets[n - 1]);
        assert forall|k: int| 0 <= k < n implies (overlap_table(sets, others, n).contains_key(
            #[trigger] canonical(sets[k]),
        ) <==> full_row(sets[k], others).dom() != Set::<u32>::empty()) by {
            if k < n - 1 {
                assert(canonical(sets[k]) != last);
                assert(prev.contains_key(canonical(sets[k])) <==> full_row(sets[k], others).dom() != Set::<u32>::empty());
            }
        }
        assert forall|k: int|
            0 <= k < n && full_row(sets[k], others).dom() != Set::<u32>::empty() implies overlap_table(
            sets,
            others,
            n,
        )[#[trigger] canonical(sets[k])] == full_row(sets[k], others) by {
            if k < n - 1 {
                assert(canonical(sets[k]) != last);
                assert(prev.contains_key(canonical(sets[k])));
            }
        }
        assert forall|c: u32| #[trigger] overlap_table(sets, others, n).contains_key(c) implies exists|k: int|
            0 <= k < n && #[trigger] canonical(sets[k]) == c by {
            if c != last {
                assert(prev.contains_key(c));
                let k = choose|k: int| 0 <= k < n - 1 && #[trigger] canonical(sets[k]) == c;
                assert(0 <= k < n && canonical(sets[k]) == c);
            } else {
                assert(canonical(sets[n - 1]) == c);
            }
        }
    }
}

/// The records two disjoint entities share with a third add up, and stay
/// within the sizes of the two.
proof fn lemma_shared_adds(x: Set<u32>, y: Set<u32>, o: Set<u32>)
    requires
        x.disjoint(y),
    ensures
        (x + y).intersect(o).len() == x.intersect(o).len() + y.intersect(o).len(),
        x.intersect(o).len() <= x.len(),
        y.intersect(o).len() <= y.len(),
{
    lemma_u32_set_finite(x);
    lemma_u32_set_finite(y);
    lemma_u32_set_finite(x.intersect(o));
    lemma_u32_set_finite(y.intersect(o));
    assert((x + y).intersect(o) =~= x.intersect(o) + y.intersect(o));
    assert(x.intersect(o).disjoint(y.intersect(o)));
    vstd::set_lib::lemma_set_disjoint_lens(x.intersect(o), y.intersect(o));
    vstd::set_lib::lemma_len_intersect(x, o);
    vstd::set_lib::lemma_len_intersect(y, o);
}

/// The row of two disjoint entities together is the sum of their rows.
proof fn lemma_row_added(x: Set<u32>, y: Set<u32>, others: Seq<Set<u32>>)
    requires
        x.disjoint(y),
        x.len() + y.len() <= u32::MAX,
        disjoint_entities(others),
    ensures
        full_row(x + y, others) == added_rows(full_row(x, others), full_row(y, others)),
        forall|c: u32| #[trigger] lookup(full_row(x, others), c) + lookup(full_row(y, others), c) <= u32::MAX,
{
    let m = others.len() as int;
    lemma_distinct_ids(others);
    lemma_row_shape(x, others, m);
    lemma_row_shape(y, others, m);
    lemma_row_shape(x + y, others, m);
    let rx = full_row(x, others);
    let ry = full_row(y, others);
    let rxy = full_row(x + y, others);
    let sum = added_rows(rx, ry);
    assert forall|l: int| 0 <= l < m implies {
        &&& lookup(rx, #[trigger] canonical(others[l])) == x.intersect(others[l]).len()
        &&& lookup(ry, canonical(others[l])) == y.intersect(others[l]).len()
        &&& lookup(rxy, canonical(others[l])) == (x + y).intersect(others[l]).len()
        &&& (x + y).intersect(others[l]).len() == x.intersect(others[l]).len() + y.intersect(others[l]).len()
        &&& (x + y).intersect(others[l]).len() <= u32::MAX
    } by {
        lemma_shared_adds(x, y, others[l]);
    }
    assert forall|c: u32| #[trigger] lookup(rx, c) + lookup(ry, c) <= u32::MAX by {
        if rx.contains_key(c) || ry.contains_key(c) {
            let l = if rx.contains_key(c) {
                choose|l: int| 0 <= l < m && #[trigger] canonical(others[l]) == c
            } else {
                choose|l: int| 0 <= l < m && #[trigger] canonical(others[l]) == c
            };
            assert(canonical(others[l]) == c);
        }
    }
    assert forall|c: u32| #[trigger] rxy.contains_key(c) <==> sum.contains_key(c) by {
        if rxy.contains_key(c) || rx.contains_key(c) || ry.contains_key(c) {
            let l = choose|l: int| 0 <= l < m && #[trigger] canonical(others[l]) == c;
            assert(canonical(others[l]) == c);
        }
    }
    assert forall|c: u32| #[trigger] rxy.contains_key(c) implies rxy[c] == sum[c] by {
        let l = choose|l: int| 0 <= l < m && #[trigger] canonical(others[l]) == c;
        assert(canonical(others[l]) == c);
    }
    assert(rxy =~= sum);
}


/// Where entity `k` of the absorbed entities came from.
pub open spec fn source(j: int, k: int) -> int {
    if k < j {
        k
    } else {
        k + 1
    }
}

/// Position of entity `l` among the absorbed entities, for `l != j`.
pub open spec fn target(j: int, l: int) -> int {
    if l < j {
        l
    } else {
        l - 1
    }
}

/// Each absorbed entity is an old one, the merged one keeping the old
/// parent's canonical id; no two share a canonical id.
proof fn lemma_absorbed_entities(sets: Seq<Set<u32>>, i: int, j: int)
    requires
        disjoint_entities(sets),
        0 <= i < sets.len(),
        0 <= j < sets.len(),
        i != j,
        canonical(sets[i]) < canonical(sets[j]),
    ensures
        absorbed(sets, i, j).len() == sets.len() - 1,
        forall|k: int|
            0 <= k < sets.len() - 1 ==> #[trigger] absorbed(sets, i, j)[k] == if source(j, k) == i {
                sets[i] + sets[j]
            } else {
                sets[source(j, k)]
            },
        forall|k: int|
            0 <= k < sets.len() - 1 ==> #[trigger] canonical(absorbed(sets, i, j)[k]) == canonical(sets[source(j, k)]),
        distinct_ids(absorbed(sets, i, j), sets.len() - 1),
        distinct_ids(sets, sets.len() as int),
{
    let t = absorbed(sets, i, j);
    lemma_distinct_ids(sets);
    assert(sets[i] != Set::<u32>::empty());
    assert(sets[j] != Set::<u32>::empty());
    lemma_canonical_union(sets[i], sets[j]);
    assert forall|k: int| 0 <= k < sets.len() - 1 implies #[trigger] canonical(t[k]) == canonical(
        sets[source(j, k)],
    ) by {
        if source(j, k) == i {
            assert(t[k] == sets[i] + sets[j]);
        }
    }
    assert forall|k: int, l: int|
        0 <= k < sets.len() - 1 && 0 <= l < sets.len() - 1 && k != l implies #[trigger] canonical(t[k])
        != #[trigger] canonical(t[l]) by {
        assert(canonical(t[k]) == canonical(sets[source(j, k)]));
        assert(canonical(t[l]) == canonical(sets[source(j, l)]));
    }
}

/// Folding entity `j` into entity `i` in the sizes map gives the sizes map
/// of the absorbed entities.
proof fn lemma_absorb_marginals(sets: Seq<Set<u32>>, sizes: Seq<u32>, merged_sizes: Seq<u32>, i: int, j: int)
    requires
        disjoint_entities(sets),
        0 <= i < sets.len(),
        0 <= j < sets.len(),
        i != j,
        canonical(sets[i]) < canonical(sets[j]),
        sets[i].len() + sets[j].len() <= u32::MAX,
        sizes.len() == sets.len(),
        forall|k: int| 0 <= k < sets.len() ==> #[trigger] sizes[k] == sets[k].len() as u32,
        merged_sizes.len() == sets.len() - 1,
        forall|k: int|
            0 <= k < sets.len() - 1 ==> #[trigger] merged_sizes[k] == absorbed(sets, i, j)[k].len() as u32,
    ensures
        lookup(marginals_upto(sets, sizes, sets.len() as int), canonical(sets[i])) + lookup(
            marginals_upto(sets, sizes, sets.len() as int),
            canonical(sets[j]),
        ) <= u32::MAX,
        merged_marginals(marginals_upto(sets, sizes, sets.len() as int), canonical(sets[i]), canonical(sets[j]))
            == marginals_upto(absorbed(sets, i, j), merged_sizes, sets.len() - 1),
{
    let n = sets.len() as int;
    let t = absorbed(sets, i, j);
    let ci = canonical(sets[i]);
    let cj = canonical(sets[j]);
    lemma_absorbed_entities(sets, i, j);
    lemma_marginals_shape(sets, sizes, n);
    lemma_marginals_shape(t, merged_sizes, n - 1);
    let before = marginals_upto(sets, sizes, n);
    let after = marginals_upto(t, merged_sizes, n - 1);
    let merged = merged_marginals(before, ci, cj);
    lemma_u32_set_finite(sets[i]);
    lemma_u32_set_finite(sets[j]);
    assert(sets[i].disjoint(sets[j]));
    vstd::set_lib::lemma_set_disjoint_lens(sets[i], sets[j]);
    let ti = target(j, i);
    assert(source(j, ti) == i);
    assert(t[ti] == sets[i] + sets[j]);
    assert(canonical(sets[i]) == ci);
    assert(before[ci] == sizes[i]);
    assert(before[cj] == sizes[j]);
    assert(canonical(t[ti]) == ci);
    assert(after[ci] == merged_sizes[ti]);
    assert forall|c: u32| #[trigger] merged.contains_key(c) <==> after.contains_key(c) by {
        if c == ci {
        } else if c == cj {
            if after.contains_key(c) {
                let k = choose|k: int| 0 <= k < n - 1 && #[trigger] canonical(t[k]) == c;
                assert(canonical(t[k]) == canonical(sets[source(j, k)]));
                assert(canonical(sets[source(j, k)]) != canonical(sets[j]));
            }
        } else {
            if before.contains_key(c) {
                let l = choose|l: int| 0 <= l < n && #[trigger] canonical(sets[l]) == c;
                assert(l != i && l != j);
                assert(source(j, target(j, l)) == l);
                assert(canonical(t[target(j, l)]) == canonical(sets[l]));
            }
            if after.contains_key(c) {
                let k = choose|k: int| 0 <= k < n - 1 && #[trigger] canonical(t[k]) == c;
                assert(canonical(t[k]) == canonical(sets[source(j, k)]));
            }
        }
    }
    assert forall|c: u32| #[trigger] merged.contains_key(c) implies merged[c] == after[c] by {
        if c != ci {
            let l = choose|l: int| 0 <= l < n && #[trigger] canonical(sets[l]) == c;
            assert(l != i && l != j);
            let k = target(j, l);
            assert(source(j, k) == l);
            assert(canonical(t[k]) == canonical(sets[l]));
            assert(t[k] == sets[l]);
        }
    }
    assert(merged =~= after);
}


/// The row kept for an entity, present or not, is its full row.
pub proof fn lemma_row_of_entity(sets: Seq<Set<u32>>, others: Seq<Set<u32>>, k: int)
    requires
        0 <= k < sets.len(),
        distinct_ids(sets, sets.len() as int),
    ensures
        row_of(overlap_table(sets, others, sets.len() as int), canonical(sets[k])) == full_row(sets[k], others),
{
    lemma_table_shape(sets, others, sets.len() as int);
    let r = full_row(sets[k], others);
    if r.dom() == Set::<u32>::empty() {
        assert(r =~= Map::<u32, u32>::empty()) by {
            assert forall|c: u32| !r.contains_key(c) by {
                assert(!r.dom().contains(c));
            }
        }
    }
}

/// Folding entity `j` into entity `i` in the table of overlaps gives the
/// table of the absorbed entities.
proof fn lemma_absorb_cells(sets: Seq<Set<u32>>, others: Seq<Set<u32>>, i: int, j: int)
    requires
        disjoint_entities(sets),
        disjoint_entities(others),
        0 <= i < sets.len(),
        0 <= j < sets.len(),
        i != j,
        canonical(sets[i]) < canonical(sets[j]),
        sets[i].len() + sets[j].len() <= u32::MAX,
    ensures
        forall|c: u32|
            #[trigger] lookup(row_of(overlap_table(sets, others, sets.len() as int), canonical(sets[i])), c) + lookup(
                row_of(overlap_table(sets, others, sets.len() as int), canonical(sets[j])),
                c,
            ) <= u32::MAX,
        merged_cells(overlap_table(sets, others, sets.len() as int), canonical(sets[i]), canonical(sets[j]))
            == overlap_table(absorbed(sets, i, j), others, sets.len() - 1),
{
    let n = sets.len() as int;
    let t = absorbed(sets, i, j);
    let ci = canonical(sets[i]);
    let cj = canonical(sets[j]);
    lemma_absorbed_entities(sets, i, j);
    lemma_table_shape(sets, others, n);
    lemma_table_shape(t, others, n - 1);
    lemma_row_of_entity(sets, others, i);
    lemma_row_of_entity(sets, others, j);
    assert(sets[i].disjoint(sets[j]));
    lemma_row_added(sets[i], sets[j], others);
    let before = overlap_table(sets, others, n);
    let after = overlap_table(t, others, n - 1);
    let result = merged_cells(before, ci, cj);
    let joined = added_rows(row_of(before, ci), row_of(before, cj));
    let ti = target(j, i);
    assert(source(j, ti) == i);
    assert(t[ti] == sets[i] + sets[j]);
    assert(canonical(t[ti]) == ci);
    assert(joined == full_row(t[ti], others));
    assert forall|c: u32| #[trigger] result.contains_key(c) <==> after.contains_key(c) by {
        if c == ci {
        } else if c == cj {
            if after.contains_key(c) {
                let k = choose|k: int| 0 <= k < n - 1 && #[trigger] canonical(t[k]) == c;
                assert(canonical(t[k]) == canonical(sets[source(j, k)]));
                assert(canonical(sets[source(j, k)]) != canonical(sets[j]));
            }
        } else {
            if before.contains_key(c) {
                let l = choose|l: int| 0 <= l < n && #[trigger] canonical(sets[l]) == c;
                assert(l != i && l != j);
                assert(source(j, target(j, l)) == l);
                assert(canonical(t[target(j, l)]) == canonical(sets[l]));
                assert(t[target(j, l)] == sets[l]);
            }
            if after.contains_key(c) {
                let k = choose|k: int| 0 <= k < n - 1 && #[trigger] canonical(t[k]) == c;
                assert(canonical(t[k]) == canonical(sets[source(j, k)]));
                assert(source(j, k) != i && source(j, k) != j);
                assert(t[k] == sets[source(j, k)]);
            }
        }
    }
    assert forall|c: u32| #[trigger] result.contains_key(c) implies result[c] == after[c] by {
        if c != ci {
            let l = choose|l: int| 0 <= l < n && #[trigger] canonical(sets[l]) == c;
            assert(l != i && l != j);
            let k = target(j, l);
            assert(source(j, k) == l);
            assert(canonical(t[k]) == canonical(sets[l]));
            assert(t[k] == sets[l]);
        }
    }
    assert(result =~= after);
}

/// Folding entity `j` of `p1` into its entity `i`, whose canonical id is the
/// smaller, turns the sizes and overlaps built for `p1` against `p2` into
/// those built for `merged`, the partition with the two entities as one: a
/// sweep that applies the merge keeps what a rebuild would give, and the
/// merge always fits.
pub proof fn lemma_merge_matches_rebuild(
    p1: &PartitionLevel,
    merged: &PartitionLevel,
    p2: &PartitionLevel,
    i: int,
    j: int,
)
    requires
        p1.wf(),
        merged.wf(),
        p2.wf(),
        disjoint_entities(p1.entity_sets()),
        disjoint_entities(p2.entity_sets()),
        0 <= i < p1.entity_sets().len(),
        0 <= j < p1.entity_sets().len(),
        i != j,
        canonical(p1.entity_sets()[i]) < canonical(p1.entity_sets()[j]),
        p1.entity_sets()[i].len() + p1.entity_sets()[j].len() <= u32::MAX,
        merged.entity_sets() == absorbed(p1.entity_sets(), i, j),
    ensures
        merge_fits(
            marginals_upto(p1.entity_sets(), p1.sizes(), p1.entity_sets().len() as int),
            overlap_table(p1.entity_sets(), p2.entity_sets(), p1.entity_sets().len() as int),
            canonical(p1.entity_sets()[i]),
            canonical(p1.entity_sets()[j]),
            true,
        ),
        merged_marginals(
            marginals_upto(p1.entity_sets(), p1.sizes(), p1.entity_sets().len() as int),
            canonical(p1.entity_sets()[i]),
            canonical(p1.entity_sets()[j]),
        ) == marginals_upto(merged.entity_sets(), merged.sizes(), merged.entity_sets().len() as int),
        merged_cells(
            overlap_table(p1.entity_sets(), p2.entity_sets(), p1.entity_sets().len() as int),
            canonical(p1.entity_sets()[i]),
            canonical(p1.entity_sets()[j]),
        ) == overlap_table(merged.entity_sets(), p2.entity_sets(), merged.entity_sets().len() as int),
{
    p1.lemma_sizes();
    merged.lemma_sizes();
    let sets = p1.entity_sets();
    assert forall|k: int| 0 <= k < sets.len() implies #[trigger] p1.sizes()[k] == sets[k].len() as u32 by {
        assert(sets[k] == bitmap_set(p1.entity_bitmaps()[k]));
    }
    assert(absorbed(sets, i, j).len() == sets.len() - 1);
    assert(merged.entity_bitmaps().len() == merged.entity_sets().len());
    assert forall|k: int| 0 <= k < sets.len() - 1 implies #[trigger] merged.sizes()[k] == absorbed(sets, i, j)[k].len() as u32 by {
        assert(merged.entity_sets()[k] == bitmap_set(merged.entity_bitmaps()[k]));
    }
    lemma_absorb_marginals(sets, p1.sizes(), merged.sizes(), i, j);
    lemma_absorb_cells(sets, p2.entity_sets(), i, j);
}


/// The size of each entity, as a `u32`.
pub open spec fn set_sizes(sets: Seq<Set<u32>>) -> Seq<u32> {
    sets.map_values(|s: Set<u32>| s.len() as u32)
}

/// The entities after folding, in turn, entity `.1` of each step into its
/// entity `.0`.
pub open spec fn absorbed_all(sets: Seq<Set<u32>>, steps: Seq<(int, int)>) -> Seq<Set<u32>>
    decreases steps.len(),
{
    if steps.len() == 0 {
        sets
    } else {
        absorbed(absorbed_all(sets, steps.drop_last()), steps.last().0, steps.last().1)
    }
}

/// Whether each step folds one entity into another whose canonical id is
/// smaller, with their sizes together within a `u32`.
pub open spec fn valid_steps(sets: Seq<Set<u32>>, steps: Seq<(int, int)>) -> bool
    decreases steps.len(),
{
    if steps.len() == 0 {
        true
    } else {
        let prev = absorbed_all(sets, steps.drop_last());
        let (i, j) = steps.last();
        &&& valid_steps(sets, steps.drop_last())
        &&& 0 <= i < prev.len()
        &&& 0 <= j < prev.len()
        &&& i != j
        &&& canonical(prev[i]) < canonical(prev[j])
        &&& prev[i].len() + prev[j].len() <= u32::MAX
    }
}

/// The canonical ids of the two entities of each step, parent first.
pub open spec fn step_ids(sets: Seq<Set<u32>>, steps: Seq<(int, int)>) -> Seq<(u32, u32)>
    decreases steps.len(),
{
    if steps.len() == 0 {
        Seq::empty()
    } else {
        let prev = absorbed_all(sets, steps.drop_last());
        step_ids(sets, steps.drop_last()).push((canonical(prev[steps.last().0]), canonical(prev[steps.last().1])))
    }
}

/// Folding two disjoint entities into one keeps the entities disjoint.
proof fn lemma_absorbed_disjoint(sets: Seq<Set<u32>>, i: int, j: int)
    requires
        disjoint_entities(sets),
        0 <= i < sets.len(),
        0 <= j < sets.len(),
        i != j,
    ensures
        disjoint_entities(absorbed(sets, i, j)),
{
    let t = absorbed(sets, i, j);
    let n = sets.len() - 1;
    assert(t.len() == n);
    assert forall|k: int| 0 <= k < n implies #[trigger] t[k] == if source(j, k) == i {
        sets[i] + sets[j]
    } else {
        sets[source(j, k)]
    } by {}
    assert forall|k: int| 0 <= k < n implies #[trigger] t[k] != Set::<u32>::empty() by {
        let l = source(j, k);
        assert(sets[l] != Set::<u32>::empty());
        if l == i {
            if t[k] == Set::<u32>::empty() {
                let x = choose|x: u32| sets[i].contains(x);
                assert(exists|x: u32| sets[i].contains(x)) by {
                    if !(exists|x: u32| sets[i].contains(x)) {
                        assert(sets[i] =~= Set::<u32>::empty());
                    }
                }
                assert(t[k].contains(x));
            }
        }
    }
    assert forall|k: int, l: int| 0 <= k < n && 0 <= l < n && k != l implies #[trigger] t[k].disjoint(#[trigger] t[l]) by {
        let a = source(j, k);
        let b = source(j, l);
        assert(a != b);
        if a == i {
            assert(sets[i].disjoint(sets[b]));
            assert(sets[j].disjoint(sets[b]));
        } else if b == i {
            assert(sets[a].disjoint(sets[i]));
            assert(sets[a].disjoint(sets[j]));
        } else {
            assert(sets[a].disjoint(sets[b]));
        }
    }
}

/// Applying the merges of a run of steps, one after the other, to the sizes
/// and overlaps of a partition gives the sizes and overlaps of the partition
/// the steps lead to: a sweep that updates in place matches a rebuild at
/// every threshold, and no merge of the run overflows.
pub proof fn lemma_merges_match_rebuild(sets: Seq<Set<u32>>, others: Seq<Set<u32>>, steps: Seq<(int, int)>)
    requires
        disjoint_entities(sets),
        disjoint_entities(others),
        valid_steps(sets, steps),
    ensures
        disjoint_entities(absorbed_all(sets, steps)),
        merges_applied(
            marginals_upto(sets, set_sizes(sets), sets.len() as int),
            overlap_table(sets, others, sets.len() as int),
            step_ids(sets, steps),
            true,
        ) == Some(
            (
                marginals_upto(absorbed_all(sets, steps), set_sizes(absorbed_all(sets, steps)), absorbed_all(sets, steps).len() as int),
                overlap_table(absorbed_all(sets, steps), others, absorbed_all(sets, steps).len() as int),
            ),
        ),
    decreases steps.len(),
{
    if steps.len() > 0 {
        let rest = steps.drop_last();
        lemma_merges_match_rebuild(sets, others, rest);
        let prev = absorbed_all(sets, rest);
        let (i, j) = steps.last();
        let ids = step_ids(sets, steps);
        assert(ids.drop_last() =~= step_ids(sets, rest));
        assert(ids.last() == (canonical(prev[i]), canonical(prev[j])));
        lemma_absorbed_disjoint(prev, i, j);
        let fin = absorbed(prev, i, j);
        assert(fin.len() == prev.len() - 1);
        assert forall|k: int| 0 <= k < prev.len() implies #[trigger] set_sizes(prev)[k] == prev[k].len() as u32 by {}
        assert forall|k: int| 0 <= k < prev.len() - 1 implies #[trigger] set_sizes(fin)[k] == fin[k].len() as u32 by {}
        lemma_absorb_marginals(prev, set_sizes(prev), set_sizes(fin), i, j);
        lemma_absorb_cells(prev, others, i, j);
    }
}


} // verus!
