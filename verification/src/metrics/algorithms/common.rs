//! Pair counts shared by the metric computations.

use std::collections::HashMap;
use vstd::prelude::*;

verus! {

broadcast use vstd::std_specs::hash::group_hash_axioms;

/// The number of unordered pairs among `n` items.
pub open spec fn pairs_among(n: int) -> int {
    if n < 2 {
        0
    } else {
        n * (n - 1) / 2
    }
}

/// `n` choose 2.
pub fn choose_2(n: u32) -> (r: u64)
    ensures
        r == pairs_among(n as int),
{
    if n < 2 {
        0
    } else {
        let a = n as u64;
        let b = (n - 1) as u64;
        assert(a * b <= 0xffff_fffe_0000_0001) by (nonlinear_arith)
            requires
                a <= 0xffff_ffff,
                b <= 0xffff_ffff,
        ;
        a * b / 2
    }
}

/// The pairs within all entities of the given sizes.
pub open spec fn total_entity_pairs(sizes: Seq<u32>) -> int
    decreases sizes.len(),
{
    if sizes.len() == 0 {
        0
    } else {
        total_entity_pairs(sizes.drop_last()) + pairs_among(sizes.last() as int)
    }
}

proof fn lemma_pairs_among_nonneg(n: int)
    ensures
        pairs_among(n) >= 0,
{
    if n >= 2 {
        assert(n * (n - 1) >= 0) by (nonlinear_arith)
            requires
                n >= 2,
        ;
    }
}

/// A prefix holds no more pairs than the whole list.
proof fn lemma_entity_pairs_prefix(sizes: Seq<u32>, k: int)
    requires
        0 <= k <= sizes.len(),
    ensures
        0 <= total_entity_pairs(sizes.take(k)) <= total_entity_pairs(sizes),
    decreases sizes.len(),
{
    if sizes.len() > 0 {
        lemma_pairs_among_nonneg(sizes.last() as int);
        if k == sizes.len() {
            assert(sizes.take(k) =~= sizes);
            lemma_entity_pairs_prefix(sizes.drop_last(), k - 1);
            assert(sizes.drop_last().take(k - 1) =~= sizes.drop_last());
        } else {
            assert(sizes.drop_last().take(k) =~= sizes.take(k));
            lemma_entity_pairs_prefix(sizes.drop_last(), k);
        }
    }
}

/// Taking one entity out of the list takes its pairs out of the total.
proof fn lemma_entity_pairs_remove(sizes: Seq<u32>, i: int)
    requires
        0 <= i < sizes.len(),
    ensures
        total_entity_pairs(sizes) == total_entity_pairs(sizes.remove(i)) + pairs_among(sizes[i] as int),
    decreases sizes.len(),
{
    if i == sizes.len() - 1 {
        assert(sizes.remove(i) =~= sizes.drop_last());
    } else {
        lemma_entity_pairs_remove(sizes.drop_last(), i);
        assert(sizes.remove(i).drop_last() =~= sizes.drop_last().remove(i));
        assert(sizes.remove(i).last() == sizes.last());
    }
}

/// The pairs within entities do not depend on the order the entities are
/// listed in: any rearrangement of the sizes gives the same total.
pub proof fn lemma_entity_pairs_permutation(a: Seq<u32>, b: Seq<u32>)
    requires
        a.to_multiset() == b.to_multiset(),
    ensures
        total_entity_pairs(a) == total_entity_pairs(b),
    decreases a.len(),
{
    broadcast use vstd::seq_lib::group_to_multiset_ensures;

    if a.len() == 0 {
        assert(b.to_multiset().len() == 0);
    } else {
        let x = a.last();
        let rest = a.drop_last();
        assert(a =~= rest.push(x));
        assert(a.to_multiset().count(x) > 0);
        assert(b.contains(x));
        let i = choose|i: int| 0 <= i < b.len() && b[i] == x;
        assert(b.remove(i).to_multiset() =~= b.to_multiset().remove(x));
        assert(rest.to_multiset() =~= a.to_multiset().remove(x));
        lemma_entity_pairs_permutation(rest, b.remove(i));
        lemma_entity_pairs_remove(b, i);
    }
}

/// The pairs within all entities of the given sizes.
pub fn sum_entity_pair_counts(entity_sizes: &[u32]) -> (r: u64)
    requires
        total_entity_pairs(entity_sizes@) <= u64::MAX,
    ensures
        r == total_entity_pairs(entity_sizes@),
{
    let mut total: u64 = 0;
    let mut i: usize = 0;
    while i < entity_sizes.len()
        invariant
            i <= entity_sizes@.len(),
            total == total_entity_pairs(entity_sizes@.take(i as int)),
            total_entity_pairs(entity_sizes@) <= u64::MAX,
        decreases entity_sizes@.len() - i,
    {
        proof {
            assert(entity_sizes@.take(i + 1).drop_last() =~= entity_sizes@.take(i as int));
            lemma_entity_pairs_prefix(entity_sizes@, i + 1);
        }
        total = total + choose_2(entity_sizes[i]);
        i = i + 1;
    }
    proof {
        assert(entity_sizes@.take(entity_sizes@.len() as int) =~= entity_sizes@);
    }
    total
}

/// The pairs within all overlap cells: pairs together in both partitions.
pub open spec fn overlap_pairs(overlaps: Seq<((usize, usize), u32)>) -> int
    decreases overlaps.len(),
{
    if overlaps.len() == 0 {
        0
    } else {
        overlap_pairs(overlaps.drop_last()) + pairs_among(overlaps.last().1 as int)
    }
}

/// The entity a cell belongs to: its row in the first partition, or its
/// column in the second.
pub open spec fn cell_entity(cell: ((usize, usize), u32), by_row: bool) -> usize {
    if by_row {
        cell.0.0
    } else {
        cell.0.1
    }
}

/// The pairs of `entity` that are together in both partitions.
pub open spec fn pairs_together(overlaps: Seq<((usize, usize), u32)>, entity: usize, by_row: bool) -> int
    decreases overlaps.len(),
{
    if overlaps.len() == 0 {
        0
    } else {
        pairs_together(overlaps.drop_last(), entity, by_row) + if cell_entity(overlaps.last(), by_row) == entity {
            pairs_among(overlaps.last().1 as int)
        } else {
            0
        }
    }
}

/// The pairs within each entity of more than one record that the other
/// partition keeps apart, summed over the entities listed with their sizes.
pub open spec fn missing_pairs(marginals: Seq<(usize, u32)>, overlaps: Seq<((usize, usize), u32)>, by_row: bool) -> int
    decreases marginals.len(),
{
    if marginals.len() == 0 {
        0
    } else {
        let m = marginals.last();
        let missing = pairs_among(m.1 as int) - pairs_together(overlaps, m.0, by_row);
        missing_pairs(marginals.drop_last(), overlaps, by_row) + if m.1 > 1 && missing > 0 {
            missing
        } else {
            0
        }
    }
}

/// What a map of counts holds for `k`, zero when absent.
pub open spec fn count_of(m: Map<usize, u64>, k: usize) -> int {
    if m.contains_key(k) {
        m[k] as int
    } else {
        0
    }
}

/// The four kinds of record pair when one partition is compared with another.
#[derive(Debug, Clone, Copy)]
pub struct PairCounts {
    /// Pairs together in both.
    pub true_positives: u64,
    /// Pairs together in the first, apart in the second.
    pub false_positives: u64,
    /// Pairs apart in the first, together in the second.
    pub false_negatives: u64,
    /// The remaining pairs.
    pub true_negatives: u64,
}

proof fn lemma_overlap_pairs_prefix(overlaps: Seq<((usize, usize), u32)>, k: int)
    requires
        0 <= k <= overlaps.len(),
    ensures
        0 <= overlap_pairs(overlaps.take(k)) <= overlap_pairs(overlaps),
    decreases overlaps.len(),
{
    if overlaps.len() > 0 {
        lemma_pairs_among_nonneg(overlaps.last().1 as int);
        if k == overlaps.len() {
            assert(overlaps.take(k) =~= overlaps);
            lemma_overlap_pairs_prefix(overlaps.drop_last(), k - 1);
            assert(overlaps.drop_last().take(k - 1) =~= overlaps.drop_last());
        } else {
            assert(overlaps.drop_last().take(k) =~= overlaps.take(k));
            lemma_overlap_pairs_prefix(overlaps.drop_last(), k);
        }
    }
}

proof fn lemma_together_le_overlap(overlaps: Seq<((usize, usize), u32)>, entity: usize, by_row: bool)
    ensures
        0 <= pairs_together(overlaps, entity, by_row) <= overlap_pairs(overlaps),
    decreases overlaps.len(),
{
    if overlaps.len() > 0 {
        lemma_pairs_among_nonneg(overlaps.last().1 as int);
        lemma_together_le_overlap(overlaps.drop_last(), entity, by_row);
    }
}

proof fn lemma_missing_prefix(marginals: Seq<(usize, u32)>, overlaps: Seq<((usize, usize), u32)>, by_row: bool, k: int)
    requires
        0 <= k <= marginals.len(),
    ensures
        0 <= missing_pairs(marginals.take(k), overlaps, by_row) <= missing_pairs(marginals, overlaps, by_row),
    decreases marginals.len(),
{
    if marginals.len() > 0 {
        if k == marginals.len() {
            assert(marginals.take(k) =~= marginals);
            lemma_missing_prefix(marginals.drop_last(), overlaps, by_row, k - 1);
            assert(marginals.drop_last().take(k - 1) =~= marginals.drop_last());
        } else {
            assert(marginals.drop_last().take(k) =~= marginals.take(k));
            lemma_missing_prefix(marginals.drop_last(), overlaps, by_row, k);
        }
    }
}

/// Add `amount` to the count held for `key`.
fn add_count(counts: &mut HashMap<usize, u64>, key: usize, amount: u64)
    requires
        count_of(old(counts)@, key) + amount <= u64::MAX,
    ensures
        final(counts)@ == old(counts)@.insert(key, (count_of(old(counts)@, key) + amount) as u64),
{
    let current = match counts.get(&key) {
        Some(v) => *v,
        None => 0,
    };
    counts.insert(key, current + amount);
}

/// Sum of `missing_pairs` over `marginals`, with the pairs kept together
/// read from `together`; `None` when it passes the largest `u64`.
fn sum_missing(
    marginals: &[(usize, u32)],
    together: &HashMap<usize, u64>,
    Ghost(overlaps): Ghost<Seq<((usize, usize), u32)>>,
    Ghost(by_row): Ghost<bool>,
) -> (r: Option<u64>)
    requires
        forall|e: usize| #[trigger] count_of(together@, e) == pairs_together(overlaps, e, by_row),
    ensures
        r is Some <==> missing_pairs(marginals@, overlaps, by_row) <= u64::MAX,
        r matches Some(v) ==> v == missing_pairs(marginals@, overlaps, by_row),
{
    let mut total: u64 = 0;
    let mut i: usize = 0;
    while i < marginals.len()
        invariant
            i <= marginals@.len(),
            total == missing_pairs(marginals@.take(i as int), overlaps, by_row),
            forall|e: usize| #[trigger] count_of(together@, e) == pairs_together(overlaps, e, by_row),
        decreases marginals@.len() - i,
    {
        let (entity_id, size) = marginals[i];
        proof {
            assert(marginals@.take(i + 1).drop_last() =~= marginals@.take(i as int));
            assert(marginals@.take(i + 1).last() == (entity_id, size));
            lemma_missing_prefix(marginals@, overlaps, by_row, i + 1);
            assert(count_of(together@, entity_id) == pairs_together(overlaps, entity_id, by_row));
        }
        if size > 1 {
            let all_pairs = choose_2(size);
            let also_together = match together.get(&entity_id) {
                Some(v) => *v,
                None => 0,
            };
            match total.checked_add(all_pairs.saturating_sub(also_together)) {
                Some(t) => {
                    total = t;
                },
                None => {
                    return None;
                },
            }
        }
        i = i + 1;
    }
    proof {
        assert(marginals@.take(marginals@.len() as int) =~= marginals@);
    }
    Some(total)
}

impl PairCounts {
    /// The pair counts of a contingency table, when their sum fits in a
    /// `u64`: `overlaps` lists the records shared by an entity of the first
    /// partition (row) and one of the second (column), the marginals list
    /// each entity with its size, and `total_records` is the number of
    /// records compared. `None` when the counts would pass the largest `u64`.
    pub fn try_from_contingency_data(
        overlaps: &[((usize, usize), u32)],
        row_marginals: &[(usize, u32)],
        col_marginals: &[(usize, u32)],
        total_records: u32,
    ) -> (r: Option<Self>)
        ensures
            r is Some <==> overlap_pairs(overlaps@) + missing_pairs(row_marginals@, overlaps@, true) + missing_pairs(
                col_marginals@,
                overlaps@,
                false,
            ) <= u64::MAX,
            r matches Some(c) ==> {
                &&& c.true_positives == overlap_pairs(overlaps@)
                &&& c.false_positives == missing_pairs(row_marginals@, overlaps@, true)
                &&& c.false_negatives == missing_pairs(col_marginals@, overlaps@, false)
                &&& c.true_negatives == if pairs_among(total_records as int) > c.true_positives + c.false_positives
                    + c.false_negatives {
                    pairs_among(total_records as int) - (c.true_positives + c.false_positives + c.false_negatives)
                } else {
                    0
                }
            },
    {
        proof {
            lemma_missing_prefix(row_marginals@, overlaps@, true, 0);
            lemma_missing_prefix(col_marginals@, overlaps@, false, 0);
            assert(row_marginals@.take(0) =~= Seq::<(usize, u32)>::empty());
            assert(col_marginals@.take(0) =~= Seq::<(usize, u32)>::empty());
            lemma_overlap_pairs_prefix(overlaps@, 0);
        }
        let mut true_positives: u64 = 0;
        let mut rows_together: HashMap<usize, u64> = HashMap::new();
        let mut cols_together: HashMap<usize, u64> = HashMap::new();
        let mut i: usize = 0;
        while i < overlaps.len()
            invariant
                i <= overlaps@.len(),
                true_positives == overlap_pairs(overlaps@.take(i as int)),
                forall|e: usize| #[trigger] count_of(rows_together@, e) == pairs_together(overlaps@.take(i as int), e, true),
                forall|e: usize| #[trigger] count_of(cols_together@, e) == pairs_together(overlaps@.take(i as int), e, false),
                missing_pairs(row_marginals@, overlaps@, true) >= 0,
                missing_pairs(col_marginals@, overlaps@, false) >= 0,
            decreases overlaps@.len() - i,
        {
            let ((e1, e2), overlap) = overlaps[i];
            let ghost prefix = overlaps@.take(i as int);
            let ghost next = overlaps@.take(i + 1);
            proof {
                assert(next.drop_last() =~= prefix);
                assert(next.last() == ((e1, e2), overlap));
                lemma_overlap_pairs_prefix(overlaps@, i + 1);
                lemma_together_le_overlap(next, e1, true);
                lemma_together_le_overlap(next, e2, false);
                assert(count_of(rows_together@, e1) == pairs_together(prefix, e1, true));
                assert(count_of(cols_together@, e2) == pairs_together(prefix, e2, false));
            }
            let ghost rows0 = rows_together@;
            let ghost cols0 = cols_together@;
            if overlap > 1 {
                let pairs = choose_2(overlap);
                match true_positives.checked_add(pairs) {
                    Some(t) => {
                        true_positives = t;
                    },
                    None => {
                        return None;
                    },
                }
                add_count(&mut rows_together, e1, pairs);
                add_count(&mut cols_together, e2, pairs);
            }
            proof {
                assert forall|e: usize| #[trigger] count_of(rows_together@, e) == pairs_together(next, e, true) by {
                    assert(count_of(rows0, e) == pairs_together(prefix, e, true));
                    assert(pairs_together(next, e, true) == pairs_together(prefix, e, true) + if e1 == e {
                        pairs_among(overlap as int)
                    } else {
                        0
                    });
                }
                assert forall|e: usize| #[trigger] count_of(cols_together@, e) == pairs_together(next, e, false) by {
                    assert(count_of(cols0, e) == pairs_together(prefix, e, false));
                    assert(pairs_together(next, e, false) == pairs_together(prefix, e, false) + if e2 == e {
                        pairs_among(overlap as int)
                    } else {
                        0
                    });
                }
            }
            i = i + 1;
        }
        proof {
            assert(overlaps@.take(overlaps@.len() as int) =~= overlaps@);
        }
        let false_positives = match sum_missing(row_marginals, &rows_together, Ghost(overlaps@), Ghost(true)) {
            Some(v) => v,
            None => {
                return None;
            },
        };
        let false_negatives = match sum_missing(col_marginals, &cols_together, Ghost(overlaps@), Ghost(false)) {
            Some(v) => v,
            None => {
                return None;
            },
        };
        let apart = match true_positives.checked_add(false_positives) {
            Some(v) => v,
            None => {
                return None;
            },
        };
        let counted = match apart.checked_add(false_negatives) {
            Some(v) => v,
            None => {
                return None;
            },
        };
        let total_pairs = choose_2(total_records);
        let true_negatives = total_pairs.saturating_sub(counted);
        Some(PairCounts { true_positives, false_positives, false_negatives, true_negatives })
    }

    /// The pair counts of a contingency table: `overlaps` lists the records
    /// shared by an entity of the first partition (row) and one of the
    /// second (column), the marginals list each entity with its size, and
    /// `total_records` is the number of records compared.
    pub fn from_contingency_data(
        overlaps: &[((usize, usize), u32)],
        row_marginals: &[(usize, u32)],
        col_marginals: &[(usize, u32)],
        total_records: u32,
    ) -> (r: Self)
        requires
            overlap_pairs(overlaps@) + missing_pairs(row_marginals@, overlaps@, true) + missing_pairs(
                col_marginals@,
                overlaps@,
                false,
            ) <= u64::MAX,
        ensures
            r.true_positives == overlap_pairs(overlaps@),
            r.false_positives == missing_pairs(row_marginals@, overlaps@, true),
            r.false_negatives == missing_pairs(col_marginals@, overlaps@, false),
            r.true_negatives == if pairs_among(total_records as int) > r.true_positives + r.false_positives
                + r.false_negatives {
                pairs_among(total_records as int) - (r.true_positives + r.false_positives + r.false_negatives)
            } else {
                0
            },
    {
        match Self::try_from_contingency_data(overlaps, row_marginals, col_marginals, total_records) {
            Some(c) => c,
            None => {
                proof {
                    assert(false);
                }
                PairCounts { true_positives: 0, false_positives: 0, false_negatives: 0, true_negatives: 0 }
            },
        }
    }
}

/// The cells with the two partitions' roles exchanged.
pub open spec fn transposed(overlaps: Seq<((usize, usize), u32)>) -> Seq<((usize, usize), u32)> {
    overlaps.map_values(|c: ((usize, usize), u32)| ((c.0.1, c.0.0), c.1))
}

proof fn lemma_transposed_cells(overlaps: Seq<((usize, usize), u32)>, entity: usize, by_row: bool)
    ensures
        overlap_pairs(transposed(overlaps)) == overlap_pairs(overlaps),
        pairs_together(transposed(overlaps), entity, by_row) == pairs_together(overlaps, entity, !by_row),
    decreases overlaps.len(),
{
    if overlaps.len() > 0 {
        lemma_transposed_cells(overlaps.drop_last(), entity, by_row);
        assert(transposed(overlaps).drop_last() =~= transposed(overlaps.drop_last()));
    }
}

proof fn lemma_transposed_missing(marginals: Seq<(usize, u32)>, overlaps: Seq<((usize, usize), u32)>, by_row: bool)
    ensures
        missing_pairs(marginals, transposed(overlaps), by_row) == missing_pairs(marginals, overlaps, !by_row),
    decreases marginals.len(),
{
    if marginals.len() > 0 {
        lemma_transposed_missing(marginals.drop_last(), overlaps, by_row);
        lemma_transposed_cells(overlaps, marginals.last().0, by_row);
    }
}

/// Exchanging the two partitions (transposing the cells and swapping the
/// marginals) keeps the pairs together in both and swaps the pairs together
/// only in the first with those together only in the second.
pub proof fn lemma_transpose_swaps_errors(
    overlaps: Seq<((usize, usize), u32)>,
    row_marginals: Seq<(usize, u32)>,
    col_marginals: Seq<(usize, u32)>,
)
    ensures
        overlap_pairs(transposed(overlaps)) == overlap_pairs(overlaps),
        missing_pairs(col_marginals, transposed(overlaps), true) == missing_pairs(col_marginals, overlaps, false),
        missing_pairs(row_marginals, transposed(overlaps), false) == missing_pairs(row_marginals, overlaps, true),
{
    lemma_transposed_cells(overlaps, 0, true);
    lemma_transposed_missing(col_marginals, overlaps, true);
    lemma_transposed_missing(row_marginals, overlaps, false);
}

} // verus!
