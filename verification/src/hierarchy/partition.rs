use roaring::RoaringBitmap;
use vstd::prelude::*;

use crate::hierarchy::bitmap::{
    all_bitmaps_wf, bitmap_contains, bitmap_len, bitmap_serialized_size, bitmap_set, bitmap_values, bitmap_wf,
    serialized_total,
};
use crate::hierarchy::storage::saturated;

verus! {

/// Reverse index from record to the entity holding it.
#[derive(Debug)]
pub struct RecordToEntityIndex {
    /// Entity of each record below the record count, `None` when no entity holds it.
    pub index: Vec<Option<usize>>,
    /// Generation of the data the index was built for.
    pub generation: u64,
}

/// Sum of a sequence of `u32`.
pub open spec fn sum_u32(s: Seq<u32>) -> int
    decreases s.len(),
{
    if s.len() == 0 {
        0
    } else {
        sum_u32(s.drop_last()) + s.last()
    }
}

/// The sets held by a list of bitmaps.
pub open spec fn bitmap_sets(bs: Seq<RoaringBitmap>) -> Seq<Set<u32>> {
    bs.map_values(|b: RoaringBitmap| bitmap_set(b))
}

/// The largest position of a set holding `r`, if any.
pub open spec fn last_holder(sets: Seq<Set<u32>>, r: u32) -> Option<usize>
    decreases sets.len(),
{
    if sets.len() == 0 {
        None
    } else if sets.last().contains(r) {
        Some((sets.len() - 1) as usize)
    } else {
        last_holder(sets.drop_last(), r)
    }
}

/// The last set holding record `x`; `None` for values no `u32` can hold.
pub open spec fn holder_of(sets: Seq<Set<u32>>, x: int) -> Option<usize> {
    if 0 <= x <= u32::MAX {
        last_holder(sets, x as u32)
    } else {
        None
    }
}

/// The entities of a partition at one threshold: disjoint sets of records,
/// with their sizes computed once.
#[derive(Debug)]
pub struct PartitionLevel {
    threshold: i64,
    entities: Vec<RoaringBitmap>,
    entity_sizes: Vec<u32>,
}

impl PartitionLevel {
    /// The entities' bitmaps are well formed.
    #[verifier::type_invariant]
    spec fn entity_bitmaps_wf(self) -> bool {
        all_bitmaps_wf(self.entities@)
    }

    /// Estimated bytes held: the partition itself plus the serialized size of
    /// every entity, saturating at the largest `u64`.
    pub open spec fn memory_estimate(&self) -> int {
        saturated((vstd::layout::size_of::<PartitionLevel>() + serialized_total(self.entity_bitmaps())) as int)
    }

    /// The threshold the partition was taken at.
    pub closed spec fn threshold_spec(&self) -> i64 {
        self.threshold
    }

    /// The entities, as bitmaps.
    pub closed spec fn entity_bitmaps(&self) -> Seq<RoaringBitmap> {
        self.entities@
    }

    /// The entities, as sets of records.
    pub open spec fn entity_sets(&self) -> Seq<Set<u32>> {
        bitmap_sets(self.entity_bitmaps())
    }

    /// The stored size of each entity.
    pub closed spec fn sizes(&self) -> Seq<u32> {
        self.entity_sizes@
    }

    pub closed spec fn wf(&self) -> bool {
        &&& self.entity_sizes@.len() == self.entities@.len()
        &&& forall|k: int|
            0 <= k < self.entities@.len() ==> #[trigger] self.entity_sizes@[k] == bitmap_set(
                self.entities@[k],
            ).len() as u32
    }

    /// A well-formed partition holds one size per entity, its record count.
    pub proof fn lemma_sizes(&self)
        requires
            self.wf(),
        ensures
            self.sizes().len() == self.entity_bitmaps().len(),
            forall|k: int|
                0 <= k < self.sizes().len() ==> #[trigger] self.sizes()[k] == bitmap_set(self.entity_bitmaps()[k]).len() as u32,
    {
    }

    /// A partition of `entities` at `threshold`; each size is the entity's
    /// record count taken as a `u32`.
    pub fn new(threshold: i64, entities: Vec<RoaringBitmap>) -> (p: Self)
        requires
            all_bitmaps_wf(entities@),
        ensures
            p.wf(),
            p.threshold_spec() == threshold,
            p.entity_bitmaps() == entities@,
            p.sizes().len() == entities@.len(),
            forall|k: int|
                0 <= k < entities@.len() ==> #[trigger] p.sizes()[k] == bitmap_set(entities@[k]).len() as u32,
    {
        let mut entity_sizes: Vec<u32> = Vec::with_capacity(entities.len());
        let mut k: usize = 0;
        while k < entities.len()
            invariant
                k <= entities@.len(),
                all_bitmaps_wf(entities@),
                entity_sizes@.len() == k,
                forall|j: int|
                    0 <= j < k ==> #[trigger] entity_sizes@[j] == bitmap_set(entities@[j]).len() as u32,
            decreases entities@.len() - k,
        {
            let len = bitmap_len(&entities[k]);
            entity_sizes.push(len as u32);
            k = k + 1;
        }
        PartitionLevel { threshold, entities, entity_sizes }
    }

    /// Position of each record below `num_records` in the last entity that holds it.
    fn build_record_to_entity_index(&self, num_records: usize, generation: u64) -> (r: RecordToEntityIndex)
        ensures
            r.generation == generation,
            r.index@.len() == num_records,
            forall|x: int| 0 <= x < num_records ==> #[trigger] r.index@[x] == holder_of(self.entity_sets(), x),
    {
        let mut index: Vec<Option<usize>> = Vec::with_capacity(num_records);
        let mut i: usize = 0;
        while i < num_records
            invariant
                i <= num_records,
                index@.len() == i,
                forall|j: int| 0 <= j < i ==> #[trigger] index@[j] is None,
            decreases num_records - i,
        {
            index.push(None);
            i = i + 1;
        }
        let ghost sets = self.entity_sets();
        proof {
            use_type_invariant(self);
        }
        let mut k: usize = 0;
        while k < self.entities.len()
            invariant
                k <= self.entities@.len(),
                all_bitmaps_wf(self.entities@),
                sets == self.entity_sets(),
                sets.len() == self.entities@.len(),
                index@.len() == num_records,
                num_records <= usize::MAX,
                forall|x: int|
                    0 <= x < num_records ==> #[trigger] index@[x] == holder_of(sets.subrange(0, k as int), x),
            decreases self.entities@.len() - k,
        {
            let values = bitmap_values(&self.entities[k]);
            let ghost before = index@;
            let mut j: usize = 0;
            while j < values.len()
                invariant
                    j <= values@.len(),
                    index@.len() == num_records,
                    forall|x: int|
                        0 <= x < num_records ==> #[trigger] index@[x] == (if x <= u32::MAX && values@.subrange(0, j as int).contains(x as u32) {
                            Some(k)
                        } else {
                            before[x]
                        }),
                decreases values@.len() - j,
            {
                let record = values[j];
                let ghost prev = index@;
                if (record as usize) < num_records {
                    index.set(record as usize, Some(k));
                }
                proof {
                    assert(values@.subrange(0, j + 1) =~= values@.subrange(0, j as int).push(record));
                    assert forall|x: int| 0 <= x < num_records implies #[trigger] index@[x] == (if x <= u32::MAX && values@.subrange(
                        0,
                        j + 1,
                    ).contains(x as u32) {
                        Some(k)
                    } else {
                        before[x]
                    }) by {
                        lemma_push_contains_u32(values@.subrange(0, j as int), record, x as u32);
                        if x == record as int {
                        } else if x <= u32::MAX {
                            assert(x as u32 != record);
                        }
                    }
                }
                j = j + 1;
            }
            proof {
                assert(values@.subrange(0, values@.len() as int) =~= values@);
                let sub = sets.subrange(0, k + 1);
                assert(sub.drop_last() =~= sets.subrange(0, k as int));
                assert(sub.last() == sets[k as int]);
                assert(sets[k as int] == bitmap_set(self.entities@[k as int]));
                assert forall|x: int| 0 <= x < num_records implies #[trigger] index@[x] == holder_of(sub, x) by {
                    if x <= u32::MAX {
                        assert(values@.to_set().contains(x as u32) == values@.contains(x as u32));
                    }
                }
            }
            k = k + 1;
        }
        proof {
            assert(sets.subrange(0, sets.len() as int) =~= sets);
        }
        RecordToEntityIndex { index, generation }
    }

    /// Entity of `record_idx`, from an index built for `num_records` records
    /// at `current_generation`; `None` when no entity holds the record or it
    /// is not below `num_records`.
    pub fn get_entity_for_record_with_generation(
        &self,
        record_idx: usize,
        num_records: usize,
        current_generation: u64,
    ) -> (r: Option<usize>)
        ensures
            r == (if record_idx < num_records {
                holder_of(self.entity_sets(), record_idx as int)
            } else {
                None
            }),
    {
        let cache = self.build_record_to_entity_index(num_records, current_generation);
        if cache.generation != current_generation {
            return None;
        }
        if record_idx < cache.index.len() {
            cache.index[record_idx]
        } else {
            None
        }
    }

    /// The reverse index for `num_records` records at `generation`.
    pub fn get_record_to_entity_index(&self, num_records: usize, generation: u64) -> (r: RecordToEntityIndex)
        ensures
            r.generation == generation,
            r.index@.len() == num_records,
            forall|x: int| 0 <= x < num_records ==> #[trigger] r.index@[x] == holder_of(self.entity_sets(), x),
    {
        self.build_record_to_entity_index(num_records, generation)
    }

    /// The threshold of this partition.
    pub fn threshold(&self) -> (t: i64)
        ensures
            t == self.threshold_spec(),
    {
        self.threshold
    }

    /// Estimated bytes held: the partition itself plus the serialized size of
    /// every entity, saturating at the largest `u64`.
    pub fn memory_usage_bytes(&self) -> (r: u64)
        ensures
            r == self.memory_estimate(),
    {
        proof {
            use_type_invariant(self);
        }
        let base_size = core::mem::size_of::<PartitionLevel>() as u64;
        let mut entities_size: u64 = 0;
        let mut i: usize = 0;
        proof {
            assert(self.entities@.take(0) =~= Seq::<RoaringBitmap>::empty());
        }
        while i < self.entities.len()
            invariant
                i <= self.entities@.len(),
                all_bitmaps_wf(self.entities@),
                entities_size == saturated(serialized_total(self.entities@.take(i as int)) as int),
            decreases self.entities@.len() - i,
        {
            let bytes = bitmap_serialized_size(&self.entities[i]) as u64;
            proof {
                assert(self.entities@.take(i + 1).drop_last() =~= self.entities@.take(i as int));
                assert(self.entities@.take(i + 1).last() == self.entities@[i as int]);
            }
            entities_size = entities_size.saturating_add(bytes);
            i = i + 1;
        }
        proof {
            assert(self.entities@.take(self.entities@.len() as int) =~= self.entities@);
        }
        base_size.saturating_add(entities_size)
    }

    /// The entities, as well-formed bitmaps.
    pub fn entities(&self) -> (e: &[RoaringBitmap])
        ensures
            e@ == self.entity_bitmaps(),
            all_bitmaps_wf(e@),
    {
        proof {
            use_type_invariant(self);
        }
        self.entities.as_slice()
    }

    /// Number of entities.
    pub fn num_entities(&self) -> (n: usize)
        ensures
            n == self.entity_bitmaps().len(),
    {
        self.entities.len()
    }

    /// The stored entity sizes.
    pub fn entity_sizes(&self) -> (s: &[u32])
        ensures
            s@ == self.sizes(),
    {
        self.entity_sizes.as_slice()
    }

    /// Sum of the entity sizes.
    pub fn total_records(&self) -> (t: u32)
        requires
            sum_u32(self.sizes()) <= u32::MAX,
        ensures
            t == sum_u32(self.sizes()),
    {
        let mut total: u32 = 0;
        let mut k: usize = 0;
        while k < self.entity_sizes.len()
            invariant
                k <= self.entity_sizes@.len(),
                sum_u32(self.entity_sizes@) <= u32::MAX,
                total == sum_u32(self.entity_sizes@.subrange(0, k as int)),
            decreases self.entity_sizes@.len() - k,
        {
            proof {
                let s = self.entity_sizes@;
                assert(s.subrange(0, k + 1).drop_last() =~= s.subrange(0, k as int));
                lemma_sum_prefix_le(s, k + 1);
            }
            total = total + self.entity_sizes[k];
            k = k + 1;
        }
        proof {
            assert(self.entity_sizes@.subrange(0, self.entity_sizes@.len() as int) =~= self.entity_sizes@);
        }
        total
    }

    /// Whether some entity holds `record_id`.
    pub fn contains_record(&self, record_id: u32) -> (b: bool)
        ensures
            b == exists|k: int| 0 <= k < self.entity_sets().len() && #[trigger] self.entity_sets()[k].contains(record_id),
    {
        match self.find_entity_for_record(record_id) {
            Some(k) => {
                assert(self.entity_sets()[k as int].contains(record_id));
                true
            },
            None => false,
        }
    }

    /// Position of the first entity holding `record_id`.
    pub fn find_entity_for_record(&self, record_id: u32) -> (r: Option<usize>)
        ensures
            match r {
                Some(k) => (k as int) < self.entity_sets().len() && self.entity_sets()[k as int].contains(record_id)
                    && forall|j: int| 0 <= j < k ==> !(#[trigger] self.entity_sets()[j]).contains(record_id),
                None => forall|j: int| 0 <= j < self.entity_sets().len() ==> !(#[trigger] self.entity_sets()[j]).contains(record_id),
            },
    {
        proof {
            use_type_invariant(self);
        }
        let mut k: usize = 0;
        while k < self.entities.len()
            invariant
                k <= self.entities@.len(),
                all_bitmaps_wf(self.entities@),
                forall|j: int| 0 <= j < k ==> !(#[trigger] self.entity_sets()[j]).contains(record_id),
            decreases self.entities@.len() - k,
        {
            if bitmap_contains(&self.entities[k], record_id) {
                return Some(k);
            }
            k = k + 1;
        }
        None
    }
}

proof fn lemma_push_contains_u32(s: Seq<u32>, x: u32, y: u32)
    ensures
        s.push(x).contains(y) <==> s.contains(y) || y == x,
{
    if s.contains(y) {
        let k = choose|k: int| 0 <= k < s.len() && s[k] == y;
        assert(s.push(x)[k] == y);
    }
    if y == x {
        assert(s.push(x)[s.len() as int] == y);
    }
    if s.push(x).contains(y) {
        let k = choose|k: int| 0 <= k < s.push(x).len() && s.push(x)[k] == y;
        if k < s.len() {
            assert(s[k] == y);
        }
    }
}

/// A prefix sums to no more than the whole sequence.
pub(crate) proof fn lemma_sum_prefix_le(s: Seq<u32>, k: int)
    requires
        0 <= k <= s.len(),
    ensures
        sum_u32(s.subrange(0, k)) <= sum_u32(s),
    decreases s.len() - k,
{
    if k < s.len() {
        lemma_sum_prefix_le(s, k + 1);
        assert(s.subrange(0, k + 1).drop_last() =~= s.subrange(0, k));
    } else {
        assert(s.subrange(0, k) =~= s);
    }
}

} // verus!
