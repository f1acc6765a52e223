//! Contingency tables built in one pass over the records.

use std::collections::HashMap;
use vstd::prelude::*;

use crate::hierarchy::partition::{holder_of, sum_u32, PartitionLevel};
use crate::metrics::algorithms::common::{missing_pairs, overlap_pairs, pairs_among, PairCounts};
use crate::metrics::algorithms::merge_rebuild::disjoint_entities;

verus! {

broadcast use vstd::std_specs::hash::group_hash_axioms;

/// The entity holding each record below `n`, as a reverse index gives it.
pub open spec fn entity_index(sets: Seq<Set<u32>>, n: nat) -> Seq<Option<usize>> {
    Seq::new(n, |r: int| holder_of(sets, r))
}

/// The records below `r` that entity `a` of the first index and entity `b`
/// of the second share.
pub open spec fn shared_records(first: Seq<Option<usize>>, second: Seq<Option<usize>>, a: usize, b: usize, r: int) -> nat
    decreases r,
{
    if r <= 0 {
        0
    } else {
        shared_records(first, second, a, b, r - 1) + if first[r - 1] == Some(a) && second[r - 1] == Some(b) {
            1nat
        } else {
            0nat
        }
    }
}

/// Whether some cell of `cells` is for the pair of entities `key`.
pub open spec fn has_cell(cells: Seq<((usize, usize), u32)>, key: (usize, usize)) -> bool {
    exists|k: int| 0 <= k < cells.len() && (#[trigger] cells[k]).0 == key
}

/// The cells of the records below `r`, each pair of entities listed once
/// where it first shares a record, with the number of records it shares.
pub open spec fn cells_upto(first: Seq<Option<usize>>, second: Seq<Option<usize>>, r: int) -> Seq<((usize, usize), u32)>
    decreases r,
{
    if r <= 0 {
        Seq::empty()
    } else {
        let prev = cells_upto(first, second, r - 1);
        match (first[r - 1], second[r - 1]) {
            (Some(a), Some(b)) => if has_cell(prev, (a, b)) {
                let k = choose|k: int| 0 <= k < prev.len() && (#[trigger] prev[k]).0 == (a, b);
                prev.update(k, ((a, b), (prev[k].1 + 1) as u32))
            } else {
                prev.push(((a, b), 1u32))
            },
            _ => prev,
        }
    }
}

/// `cells` lists, once each, exactly the pairs of entities that share
/// records below `r`, with how many they share.
pub open spec fn counts_shared(cells: Seq<((usize, usize), u32)>, first: Seq<Option<usize>>, second: Seq<Option<usize>>, r: int) -> bool {
    &&& forall|k: int|
        0 <= k < cells.len() ==> (#[trigger] cells[k]).1 == shared_records(first, second, cells[k].0.0, cells[k].0.1, r)
            && cells[k].1 > 0
    &&& forall|k: int, l: int| 0 <= k < l < cells.len() ==> (#[trigger] cells[k]).0 != (#[trigger] cells[l]).0
    &&& forall|a: usize, b: usize| #[trigger] shared_records(first, second, a, b, r) > 0 ==> has_cell(cells, (a, b))
}

/// Each entity with its size.
pub open spec fn marginals(sizes: Seq<u32>) -> Seq<(usize, u32)> {
    Seq::new(sizes.len(), |k: int| (k as usize, sizes[k]))
}

/// The key under which a pair of entities is found.
pub open spec fn cell_code(a: u64, b: u64) -> u128 {
    ((a as u128) << 64u128) | (b as u128)
}

proof fn lemma_cell_code_injective(a: u64, b: u64, c: u64, d: u64)
    requires
        cell_code(a, b) == cell_code(c, d),
    ensures
        a == c && b == d,
{
    assert(((a as u128) << 64u128) | (b as u128) == ((c as u128) << 64u128) | (d as u128) ==> a == c && b == d)
        by (bit_vector);
}

proof fn lemma_shared_le(first: Seq<Option<usize>>, second: Seq<Option<usize>>, a: usize, b: usize, r: int)
    requires
        r >= 0,
    ensures
        shared_records(first, second, a, b, r) <= r,
    decreases r,
{
    if r > 0 {
        lemma_shared_le(first, second, a, b, r - 1);
    }
}

/// Two partitions compared through the records they hold: the records each
/// pair of entities shares, each entity's size, and the resulting pair counts.
#[derive(Debug, Clone)]
pub struct RecordState {
    /// Pairs of entity positions (first partition, second) that share records, with how many.
    pub nonzero_cells: Vec<((usize, usize), u32)>,
    /// Each entity position of the first partition with its size.
    pub row_marginals: Vec<(usize, u32)>,
    /// Each entity position of the second partition with its size.
    pub col_marginals: Vec<(usize, u32)>,
    /// Records in the first partition.
    pub total_records: u32,
    /// Pairs together in both.
    pub true_positives: u64,
    /// Pairs together in the first, apart in the second.
    pub false_positives: u64,
    /// Pairs apart in the first, together in the second.
    pub false_negatives: u64,
    /// The remaining pairs.
    pub true_negatives: u64,
}

impl RecordState {
    /// The pair counts follow from the cells, marginals and total.
    pub open spec fn counts_follow(&self) -> bool {
        let tp = overlap_pairs(self.nonzero_cells@);
        let fp = missing_pairs(self.row_marginals@, self.nonzero_cells@, true);
        let fn_ = missing_pairs(self.col_marginals@, self.nonzero_cells@, false);
        let all = pairs_among(self.total_records as int);
        &&& self.true_positives == tp
        &&& self.false_positives == fp
        &&& self.false_negatives == fn_
        &&& self.true_negatives == if all > tp + fp + fn_ {
            all - (tp + fp + fn_)
        } else {
            0
        }
    }

    /// An empty table.
    pub fn new() -> (s: Self)
        ensures
            s.nonzero_cells@.len() == 0,
            s.row_marginals@.len() == 0,
            s.col_marginals@.len() == 0,
            s.total_records == 0,
            s.counts_follow(),
    {
        RecordState {
            nonzero_cells: Vec::new(),
            row_marginals: Vec::new(),
            col_marginals: Vec::new(),
            total_records: 0,
            true_positives: 0,
            false_positives: 0,
            false_negatives: 0,
            true_negatives: 0,
        }
    }

    /// Recompute the pair counts from the cells, marginals and total.
    pub fn compute_and_cache_pair_counts(&mut self)
        requires
            overlap_pairs(old(self).nonzero_cells@) + missing_pairs(old(self).row_marginals@, old(self).nonzero_cells@, true)
                + missing_pairs(old(self).col_marginals@, old(self).nonzero_cells@, false) <= u64::MAX,
        ensures
            final(self).nonzero_cells == old(self).nonzero_cells,
            final(self).row_marginals == old(self).row_marginals,
            final(self).col_marginals == old(self).col_marginals,
            final(self).total_records == old(self).total_records,
            final(self).counts_follow(),
    {
        let counts = PairCounts::from_contingency_data(
            self.nonzero_cells.as_slice(),
            self.row_marginals.as_slice(),
            self.col_marginals.as_slice(),
            self.total_records,
        );
        self.true_positives = counts.true_positives;
        self.false_positives = counts.false_positives;
        self.false_negatives = counts.false_negatives;
        self.true_negatives = counts.true_negatives;
    }

    /// The table of two partitions over the first `num_records` records:
    /// every record held by an entity of each partition counts once in the
    /// cell of those two entities. `None` when the pair counts of the table
    /// would pass the largest `u64`.
    pub fn try_from_partitions(
        partition1: &PartitionLevel,
        partition2: &PartitionLevel,
        num_records: usize,
        generation: u64,
    ) -> (r: Option<Self>)
        requires
            num_records <= u32::MAX,
            sum_u32(partition1.sizes()) <= u32::MAX,
        ensures
            r is Some <==> counts_fit(*partition1, *partition2, num_records as nat),
            r matches Some(s) ==> s.is_table_of(*partition1, *partition2, num_records as nat),
            disjoint_pair(*partition1, *partition2) ==> r is Some,
    {
        let entities1 = partition1.num_entities();
        let entities2 = partition2.num_entities();
        proof {
            if disjoint_pair(*partition1, *partition2) {
                crate::metrics::algorithms::counts_bound::lemma_disjoint_counts_fit(
                    *partition1,
                    *partition2,
                    num_records as nat,
                );
            }
        }
        let record_to_entity1 = partition1.get_record_to_entity_index(num_records, generation);
        let record_to_entity2 = partition2.get_record_to_entity_index(num_records, generation);
        let ghost first = entity_index(partition1.entity_sets(), num_records as nat);
        let ghost second = entity_index(partition2.entity_sets(), num_records as nat);
        proof {
            assert(record_to_entity1.index@ =~= first);
            assert(record_to_entity2.index@ =~= second);
        }
        let total_records = partition1.total_records();
        let row_marginals = marginals_of(partition1.entity_sizes());
        let col_marginals = marginals_of(partition2.entity_sizes());
        let nonzero_cells = count_cells(&record_to_entity1.index, &record_to_entity2.index);
        match PairCounts::try_from_contingency_data(
            nonzero_cells.as_slice(),
            row_marginals.as_slice(),
            col_marginals.as_slice(),
            total_records,
        ) {
            Some(counts) => Some(
                RecordState {
                    nonzero_cells,
                    row_marginals,
                    col_marginals,
                    total_records,
                    true_positives: counts.true_positives,
                    false_positives: counts.false_positives,
                    false_negatives: counts.false_negatives,
                    true_negatives: counts.true_negatives,
                },
            ),
            None => None,
        }
    }

    /// The table of two partitions over the first `num_records` records:
    /// every record held by an entity of each partition counts once in the
    /// cell of those two entities.
    pub fn from_partitions(
        partition1: &PartitionLevel,
        partition2: &PartitionLevel,
        num_records: usize,
        generation: u64,
    ) -> (s: Self)
        requires
            num_records <= u32::MAX,
            sum_u32(partition1.sizes()) <= u32::MAX,
            counts_fit(*partition1, *partition2, num_records as nat),
        ensures
            s.is_table_of(*partition1, *partition2, num_records as nat),
    {
        match Self::try_from_partitions(partition1, partition2, num_records, generation) {
            Some(s) => s,
            None => {
                proof {
                    assert(false);
                }
                Self::new()
            },
        }
    }

    /// This state is the table of `partition1` against `partition2` over
    /// the first `num_records` records, with its pair counts.
    pub open spec fn is_table_of(&self, partition1: PartitionLevel, partition2: PartitionLevel, num_records: nat) -> bool {
        let first = entity_index(partition1.entity_sets(), num_records);
        let second = entity_index(partition2.entity_sets(), num_records);
        &&& self.nonzero_cells@ == cells_upto(first, second, num_records as int)
        &&& counts_shared(self.nonzero_cells@, first, second, num_records as int)
        &&& self.row_marginals@ == marginals(partition1.sizes())
        &&& self.col_marginals@ == marginals(partition2.sizes())
        &&& self.total_records == sum_u32(partition1.sizes())
        &&& self.counts_follow()
    }
}

/// A pair of partitions has one table: any two states that are its table,
/// such as the one a sweep builds for the pair and the one built for the
/// pair alone, agree in every field.
pub proof fn lemma_table_unique(
    a: RecordState,
    b: RecordState,
    partition1: PartitionLevel,
    partition2: PartitionLevel,
    num_records: nat,
)
    requires
        a.is_table_of(partition1, partition2, num_records),
        b.is_table_of(partition1, partition2, num_records),
    ensures
        a.nonzero_cells@ == b.nonzero_cells@,
        a.row_marginals@ == b.row_marginals@,
        a.col_marginals@ == b.col_marginals@,
        a.total_records == b.total_records,
        a.true_positives == b.true_positives,
        a.false_positives == b.false_positives,
        a.false_negatives == b.false_negatives,
        a.true_negatives == b.true_negatives,
{
}

/// Both partitions are well formed and their entities disjoint, as the
/// partitions of a hierarchy are.
pub open spec fn disjoint_pair(partition1: PartitionLevel, partition2: PartitionLevel) -> bool {
    &&& partition1.wf()
    &&& partition2.wf()
    &&& disjoint_entities(partition1.entity_sets())
    &&& disjoint_entities(partition2.entity_sets())
}

/// Whether the pair counts of the table of `partition1` against
/// `partition2` over the first `num_records` records fit in a `u64`.
pub open spec fn counts_fit(partition1: PartitionLevel, partition2: PartitionLevel, num_records: nat) -> bool {
    let cells = cells_upto(
        entity_index(partition1.entity_sets(), num_records),
        entity_index(partition2.entity_sets(), num_records),
        num_records as int,
    );
    overlap_pairs(cells) + missing_pairs(marginals(partition1.sizes()), cells, true) + missing_pairs(
        marginals(partition2.sizes()),
        cells,
        false,
    ) <= u64::MAX
}

/// Comparison of partitions of different collections through the records
/// they hold.
pub struct RecordAlgorithm {}

impl RecordAlgorithm {
    /// The algorithm; it keeps no state.
    pub fn new() -> (a: Self)
        ensures
            a == (RecordAlgorithm {  }),
    {
        RecordAlgorithm {  }
    }

    /// The table of every partition of the first sweep against every
    /// partition of the second, over the first `num_records` records, row
    /// by row. `None` when the pair counts of some table would pass the
    /// largest `u64`.
    pub fn build_all_sweep_tables(
        &mut self,
        partitions1: &[PartitionLevel],
        partitions2: &[PartitionLevel],
        num_records: usize,
        generation: u64,
    ) -> (r: Option<Vec<Vec<RecordState>>>)
        requires
            num_records <= u32::MAX,
            forall|i: int| 0 <= i < partitions1@.len() ==> sum_u32(#[trigger] partitions1@[i].sizes()) <= u32::MAX,
        ensures
            r is Some <==> forall|i: int, j: int|
                0 <= i < partitions1@.len() && 0 <= j < partitions2@.len() ==> counts_fit(
                    #[trigger] partitions1@[i],
                    #[trigger] partitions2@[j],
                    num_records as nat,
                ),
            r matches Some(tables) ==> {
                &&& tables@.len() == partitions1@.len()
                &&& forall|i: int| 0 <= i < partitions1@.len() ==> (#[trigger] tables@[i])@.len() == partitions2@.len()
                &&& forall|i: int, j: int|
                    0 <= i < partitions1@.len() && 0 <= j < partitions2@.len() ==> (#[trigger] tables@[i]@[j]).is_table_of(
                        partitions1@[i],
                        partitions2@[j],
                        num_records as nat,
                    )
            },
            (forall|i: int, j: int|
                0 <= i < partitions1@.len() && 0 <= j < partitions2@.len() ==> disjoint_pair(
                    #[trigger] partitions1@[i],
                    #[trigger] partitions2@[j],
                )) ==> r is Some,
    {
        let mut tables: Vec<Vec<RecordState>> = Vec::with_capacity(partitions1.len());
        let mut i: usize = 0;
        while i < partitions1.len()
            invariant
                i <= partitions1@.len(),
                num_records <= u32::MAX,
                forall|k: int| 0 <= k < partitions1@.len() ==> sum_u32(#[trigger] partitions1@[k].sizes()) <= u32::MAX,
                tables@.len() == i,
                forall|k: int| 0 <= k < i ==> (#[trigger] tables@[k])@.len() == partitions2@.len(),
                forall|k: int, j: int|
                    0 <= k < i && 0 <= j < partitions2@.len() ==> (#[trigger] tables@[k]@[j]).is_table_of(
                        partitions1@[k],
                        partitions2@[j],
                        num_records as nat,
                    ),
                forall|k: int, j: int|
                    0 <= k < i && 0 <= j < partitions2@.len() ==> counts_fit(
                        #[trigger] partitions1@[k],
                        #[trigger] partitions2@[j],
                        num_records as nat,
                    ),
            decreases partitions1@.len() - i,
        {
            let mut row: Vec<RecordState> = Vec::with_capacity(partitions2.len());
            let mut j: usize = 0;
            while j < partitions2.len()
                invariant
                    i < partitions1@.len(),
                    j <= partitions2@.len(),
                    num_records <= u32::MAX,
                    sum_u32(partitions1@[i as int].sizes()) <= u32::MAX,
                    row@.len() == j,
                    forall|l: int|
                        0 <= l < j ==> (#[trigger] row@[l]).is_table_of(
                            partitions1@[i as int],
                            partitions2@[l],
                            num_records as nat,
                        ),
                    forall|l: int| 0 <= l < j ==> counts_fit(partitions1@[i as int], #[trigger] partitions2@[l], num_records as nat),
                decreases partitions2@.len() - j,
            {
                match RecordState::try_from_partitions(&partitions1[i], &partitions2[j], num_records, generation) {
                    Some(table) => {
                        row.push(table);
                    },
                    None => {
                        proof {
                            assert(!disjoint_pair(partitions1@[i as int], partitions2@[j as int]));
                        }
                        return None;
                    },
                }
                j = j + 1;
            }
            tables.push(row);
            i = i + 1;
        }
        Some(tables)
    }
}

impl Default for RecordAlgorithm {
    fn default() -> (a: Self)
        ensures
            a == (RecordAlgorithm {  }),
    {
        RecordAlgorithm::new()
    }
}

/// Each position of `sizes` with its size.
fn marginals_of(sizes: &[u32]) -> (m: Vec<(usize, u32)>)
    ensures
        m@ == marginals(sizes@),
{
    let mut m: Vec<(usize, u32)> = Vec::with_capacity(sizes.len());
    let mut k: usize = 0;
    while k < sizes.len()
        invariant
            k <= sizes@.len(),
            m@ == marginals(sizes@.subrange(0, k as int)),
        decreases sizes@.len() - k,
    {
        m.push((k, sizes[k]));
        k = k + 1;
        proof {
            assert(m@ =~= marginals(sizes@.subrange(0, k as int)));
        }
    }
    proof {
        assert(sizes@.subrange(0, sizes@.len() as int) =~= sizes@);
    }
    m
}

/// The cells of two reverse indices, counted in one pass over the records.
fn count_cells(first: &Vec<Option<usize>>, second: &Vec<Option<usize>>) -> (cells: Vec<((usize, usize), u32)>)
    requires
        first@.len() == second@.len(),
        first@.len() <= u32::MAX,
    ensures
        cells@ == cells_upto(first@, second@, first@.len() as int),
        counts_shared(cells@, first@, second@, first@.len() as int),
{
    let n = first.len();
    let mut cells: Vec<((usize, usize), u32)> = Vec::new();
    let mut positions: HashMap<u128, usize> = HashMap::new();
    let mut r: usize = 0;
    while r < n
        invariant
            r <= n,
            n == first@.len(),
            n == second@.len(),
            n <= u32::MAX,
            cells@ == cells_upto(first@, second@, r as int),
            counts_shared(cells@, first@, second@, r as int),
            forall|k: int|
                0 <= k < cells@.len() ==> positions@.contains_key(cell_code((#[trigger] cells@[k]).0.0 as u64, cells@[k].0.1 as u64))
                    && positions@[cell_code(cells@[k].0.0 as u64, cells@[k].0.1 as u64)] == k,
            forall|c: u128|
                #[trigger] positions@.contains_key(c) ==> positions@[c] < cells@.len() && cell_code(
                    cells@[positions@[c] as int].0.0 as u64,
                    cells@[positions@[c] as int].0.1 as u64,
                ) == c,
        decreases n - r,
    {
        let ghost prev = cells@;
        match (first[r], second[r]) {
            (Some(a), Some(b)) => {
                let code: u128 = ((a as u64 as u128) << 64u128) | (b as u64 as u128);
                let ghost key = (a, b);
                match positions.get(&code) {
                    Some(p) => {
                        let p = *p;
                        proof {
                            let q = cells@[p as int].0;
                            lemma_cell_code_injective(q.0 as u64, q.1 as u64, a as u64, b as u64);
                            assert(q == key);
                            assert(has_cell(prev, key));
                            let k = choose|k: int| 0 <= k < prev.len() && (#[trigger] prev[k]).0 == key;
                            assert(k == p) by {
                                if k != p {
                                    assert(prev[k].0 == prev[p as int].0);
                                }
                            }
                            lemma_shared_le(first@, second@, a, b, r as int);
                        }
                        let count = cells[p].1;
                        cells.set(p, ((a, b), count + 1));
                        proof {
                            lemma_step_existing(prev, cells@, first@, second@, r as int, p as int, key);
                        }
                    },
                    None => {
                        proof {
                            assert(!has_cell(prev, key)) by {
                                if has_cell(prev, key) {
                                    let k = choose|k: int| 0 <= k < prev.len() && (#[trigger] prev[k]).0 == key;
                                    assert(positions@.contains_key(cell_code(prev[k].0.0 as u64, prev[k].0.1 as u64)));
                                }
                            }
                        }
                        let ghost positions0 = positions@;
                        let len = cells.len();
                        cells.push(((a, b), 1));
                        positions.insert(code, len);
                        proof {
                            lemma_step_new(prev, cells@, first@, second@, r as int, key);
                            assert forall|k: int|
                                0 <= k < cells@.len() implies positions@.contains_key(
                                cell_code((#[trigger] cells@[k]).0.0 as u64, cells@[k].0.1 as u64),
                            ) && positions@[cell_code(cells@[k].0.0 as u64, cells@[k].0.1 as u64)] == k by {
                                if k < len {
                                    assert(cells@[k] == prev[k]);
                                    if cell_code(prev[k].0.0 as u64, prev[k].0.1 as u64) == code {
                                        lemma_cell_code_injective(prev[k].0.0 as u64, prev[k].0.1 as u64, a as u64, b as u64);
                                        assert(has_cell(prev, key));
                                    }
                                }
                            }
                            assert forall|c: u128| #[trigger] positions@.contains_key(c) implies positions@[c]
                                < cells@.len() && cell_code(
                                cells@[positions@[c] as int].0.0 as u64,
                                cells@[positions@[c] as int].0.1 as u64,
                            ) == c by {
                                if c != code {
                                    assert(positions0.contains_key(c));
                                }
                            }
                        }
                    },
                }
            },
            _ => {
                proof {
                    lemma_step_none(prev, first@, second@, r as int);
                }
            },
        }
        r = r + 1;
    }
    cells
}

/// A record held in both partitions by a pair already listed adds one to
/// its cell.
proof fn lemma_step_existing(
    prev: Seq<((usize, usize), u32)>,
    next: Seq<((usize, usize), u32)>,
    first: Seq<Option<usize>>,
    second: Seq<Option<usize>>,
    r: int,
    p: int,
    key: (usize, usize),
)
    requires
        0 <= r < first.len(),
        first[r] == Some(key.0),
        second[r] == Some(key.1),
        prev == cells_upto(first, second, r),
        counts_shared(prev, first, second, r),
        0 <= p < prev.len(),
        prev[p].0 == key,
        prev[p].1 + 1 <= u32::MAX,
        next == prev.update(p, (key, (prev[p].1 + 1) as u32)),
    ensures
        next == cells_upto(first, second, r + 1),
        counts_shared(next, first, second, r + 1),
{
    assert(has_cell(prev, key));
    let k = choose|k: int| 0 <= k < prev.len() && (#[trigger] prev[k]).0 == key;
    assert(k == p) by {
        if k != p {
            if k < p {
                assert(prev[k].0 != prev[p].0);
            } else {
                assert(prev[p].0 != prev[k].0);
            }
        }
    }
    assert forall|k2: int| 0 <= k2 < next.len() implies (#[trigger] next[k2]).1 == shared_records(
        first,
        second,
        next[k2].0.0,
        next[k2].0.1,
        r + 1,
    ) && next[k2].1 > 0 by {
        assert(prev[k2].1 == shared_records(first, second, prev[k2].0.0, prev[k2].0.1, r));
    }
    assert forall|k2: int, l: int| 0 <= k2 < l < next.len() implies (#[trigger] next[k2]).0 != (#[trigger] next[l]).0 by {
        assert(prev[k2].0 != prev[l].0);
    }
    assert forall|a: usize, b: usize| #[trigger] shared_records(first, second, a, b, r + 1) > 0 implies has_cell(
        next,
        (a, b),
    ) by {
        if (a, b) == key {
            assert(next[p].0 == key);
        } else {
            assert(shared_records(first, second, a, b, r) > 0);
            let m = choose|m: int| 0 <= m < prev.len() && (#[trigger] prev[m]).0 == (a, b);
            assert(next[m].0 == (a, b));
        }
    }
}

/// A record held in both partitions by a pair not listed yet opens its cell.
proof fn lemma_step_new(
    prev: Seq<((usize, usize), u32)>,
    next: Seq<((usize, usize), u32)>,
    first: Seq<Option<usize>>,
    second: Seq<Option<usize>>,
    r: int,
    key: (usize, usize),
)
    requires
        0 <= r < first.len(),
        first[r] == Some(key.0),
        second[r] == Some(key.1),
        prev == cells_upto(first, second, r),
        counts_shared(prev, first, second, r),
        !has_cell(prev, key),
        next == prev.push((key, 1u32)),
    ensures
        next == cells_upto(first, second, r + 1),
        counts_shared(next, first, second, r + 1),
{
    assert(shared_records(first, second, key.0, key.1, r) == 0) by {
        if shared_records(first, second, key.0, key.1, r) > 0 {
            assert(has_cell(prev, key));
        }
    }
    assert forall|k2: int| 0 <= k2 < next.len() implies (#[trigger] next[k2]).1 == shared_records(
        first,
        second,
        next[k2].0.0,
        next[k2].0.1,
        r + 1,
    ) && next[k2].1 > 0 by {
        if k2 < prev.len() {
            assert(prev[k2].1 == shared_records(first, second, prev[k2].0.0, prev[k2].0.1, r));
            assert(prev[k2].0 != key) by {
                if prev[k2].0 == key {
                    assert(has_cell(prev, key));
                }
            }
        }
    }
    assert forall|k2: int, l: int| 0 <= k2 < l < next.len() implies (#[trigger] next[k2]).0 != (#[trigger] next[l]).0 by {
        if l < prev.len() {
            assert(prev[k2].0 != prev[l].0);
        } else {
            if prev[k2].0 == key {
                assert(has_cell(prev, key));
            }
        }
    }
    assert forall|a: usize, b: usize| #[trigger] shared_records(first, second, a, b, r + 1) > 0 implies has_cell(
        next,
        (a, b),
    ) by {
        if (a, b) == key {
            assert(next[prev.len() as int].0 == key);
        } else {
            assert(shared_records(first, second, a, b, r) > 0);
            let m = choose|m: int| 0 <= m < prev.len() && (#[trigger] prev[m]).0 == (a, b);
            assert(next[m].0 == (a, b));
        }
    }
}

/// A record missing from either partition changes no cell.
proof fn lemma_step_none(prev: Seq<((usize, usize), u32)>, first: Seq<Option<usize>>, second: Seq<Option<usize>>, r: int)
    requires
        0 <= r < first.len(),
        first[r] is None || second[r] is None,
        prev == cells_upto(first, second, r),
        counts_shared(prev, first, second, r),
    ensures
        prev == cells_upto(first, second, r + 1),
        counts_shared(prev, first, second, r + 1),
{
    assert forall|k2: int| 0 <= k2 < prev.len() implies (#[trigger] prev[k2]).1 == shared_records(
        first,
        second,
        prev[k2].0.0,
        prev[k2].0.1,
        r + 1,
    ) && prev[k2].1 > 0 by {
        assert(prev[k2].1 == shared_records(first, second, prev[k2].0.0, prev[k2].0.1, r));
    }
    assert forall|a: usize, b: usize| #[trigger] shared_records(first, second, a, b, r + 1) > 0 implies has_cell(
        prev,
        (a, b),
    ) by {
        assert(shared_records(first, second, a, b, r) > 0);
    }
}

} // verus!
