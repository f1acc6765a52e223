use roaring::RoaringBitmap;
use vstd::prelude::*;

verus! {

/// `roaring::RoaringBitmap`: a compressed set of `u32`, held as containers,
/// one per high half of its values. The contracts below hold for bitmaps
/// that are well formed (`bitmap_wf`), as roaring's constructors, insertions
/// and set operations build them; `deserialize_from` does not check this, so
/// the library never keeps a bitmap read from bytes (see `event_codec`).
#[verifier::external_type_specification]
#[verifier::external_body]
pub struct ExRoaringBitmap(RoaringBitmap);

/// The values a bitmap's containers hold: each container's key as the high
/// half, joined with each low half it stores.
pub uninterp spec fn bitmap_set(b: RoaringBitmap) -> Set<u32>;

/// The bitmap's containers are in increasing key order, no key repeats,
/// none is empty and none stores more than 4096 values as an array: the
/// shape that roaring's constructors, insertions and set operations keep
/// and that its searches, counts and serialization rely on.
pub uninterp spec fn bitmap_wf(b: RoaringBitmap) -> bool;

/// What `serialized_size` counts for a bitmap: eight bytes of header, and
/// per container eight bytes plus two per value of an array store, or 8192
/// for a bitmap store. Which store a container uses is roaring's choice.
pub uninterp spec fn bitmap_serialized_len(b: RoaringBitmap) -> nat;

/// Every bitmap of the list is well formed.
pub open spec fn all_bitmaps_wf(bs: Seq<RoaringBitmap>) -> bool {
    forall|k: int| 0 <= k < bs.len() ==> bitmap_wf(#[trigger] bs[k])
}

/// The serialized sizes of a list of bitmaps, added up.
pub open spec fn serialized_total(bs: Seq<RoaringBitmap>) -> nat
    decreases bs.len(),
{
    if bs.len() == 0 {
        0
    } else {
        serialized_total(bs.drop_last()) + bitmap_serialized_len(bs.last())
    }
}

/// The most bytes a well-formed bitmap serializes to: its header and at most
/// 2^16 containers (one per high half), each of at most 8 + 8192 bytes.
pub open spec fn max_serialized_len() -> int {
    8int + 65536int * (8int + 8192int)
}

/// `RoaringBitmap::new`: the empty set.
#[verifier::external_body]
pub(crate) fn bitmap_new() -> (b: RoaringBitmap)
    ensures
        bitmap_wf(b),
        bitmap_set(b) == Set::<u32>::empty(),
{
    RoaringBitmap::new()
}

/// `RoaringBitmap::insert`: adds `v`, keeping the containers in order;
/// returns whether it was absent.
#[verifier::external_body]
pub(crate) fn bitmap_insert(b: &mut RoaringBitmap, v: u32) -> (added: bool)
    requires
        bitmap_wf(*old(b)),
    ensures
        bitmap_wf(*final(b)),
        bitmap_set(*final(b)) == bitmap_set(*old(b)).insert(v),
        added == !bitmap_set(*old(b)).contains(v),
{
    b.insert(v)
}

/// `RoaringBitmap::contains`.
#[verifier::external_body]
pub(crate) fn bitmap_contains(b: &RoaringBitmap, v: u32) -> (r: bool)
    requires
        bitmap_wf(*b),
    ensures
        r == bitmap_set(*b).contains(v),
{
    b.contains(v)
}

/// `RoaringBitmap::len`: the number of values.
#[verifier::external_body]
pub(crate) fn bitmap_len(b: &RoaringBitmap) -> (r: u64)
    requires
        bitmap_wf(*b),
    ensures
        r == bitmap_set(*b).len(),
{
    b.len()
}

/// `RoaringBitmap::is_empty`.
#[verifier::external_body]
pub(crate) fn bitmap_is_empty(b: &RoaringBitmap) -> (r: bool)
    requires
        bitmap_wf(*b),
    ensures
        r == (bitmap_set(*b) == Set::<u32>::empty()),
{
    b.is_empty()
}

/// `RoaringBitmap::min`: the smallest value, `None` for the empty set.
#[verifier::external_body]
pub(crate) fn bitmap_min(b: &RoaringBitmap) -> (r: Option<u32>)
    requires
        bitmap_wf(*b),
    ensures
        r is None <==> bitmap_set(*b) == Set::<u32>::empty(),
        r matches Some(m) ==> bitmap_set(*b).contains(m) && forall|v: u32|
            #[trigger] bitmap_set(*b).contains(v) ==> m <= v,
{
    b.min()
}

/// `RoaringBitmap::clear`: empties the set.
#[verifier::external_body]
pub(crate) fn bitmap_clear(b: &mut RoaringBitmap)
    ensures
        bitmap_wf(*final(b)),
        bitmap_set(*final(b)) == Set::<u32>::empty(),
{
    b.clear()
}

/// `RoaringBitmap |= &RoaringBitmap`: set union in place.
#[verifier::external_body]
pub(crate) fn bitmap_union_with(b: &mut RoaringBitmap, other: &RoaringBitmap)
    requires
        bitmap_wf(*old(b)),
        bitmap_wf(*other),
    ensures
        bitmap_wf(*final(b)),
        bitmap_set(*final(b)) == bitmap_set(*old(b)).union(bitmap_set(*other)),
{
    *b |= other;
}

/// `RoaringBitmap::clone`: the same set.
#[verifier::external_body]
pub(crate) fn bitmap_clone(b: &RoaringBitmap) -> (c: RoaringBitmap)
    requires
        bitmap_wf(*b),
    ensures
        bitmap_wf(c),
        bitmap_set(c) == bitmap_set(*b),
{
    b.clone()
}

/// `RoaringBitmap::iter`, collected: the values in strictly ascending order,
/// which the crate documents as the order of its iterator.
#[verifier::external_body]
pub(crate) fn bitmap_values(b: &RoaringBitmap) -> (v: Vec<u32>)
    requires
        bitmap_wf(*b),
    ensures
        v@.to_set() == bitmap_set(*b),
        forall|i: int, j: int| 0 <= i < j < v@.len() ==> v@[i] < v@[j],
{
    b.iter().collect()
}

/// `RoaringBitmap::intersection_len`: the number of values both hold.
#[verifier::external_body]
pub(crate) fn bitmap_intersection_len(a: &RoaringBitmap, b: &RoaringBitmap) -> (r: u64)
    requires
        bitmap_wf(*a),
        bitmap_wf(*b),
    ensures
        r == bitmap_set(*a).intersect(bitmap_set(*b)).len(),
{
    a.intersection_len(b)
}

/// `RoaringBitmap::serialized_size`: bytes of the portable serialization,
/// within `max_serialized_len()` for a well-formed bitmap.
#[verifier::external_body]
pub(crate) fn bitmap_serialized_size(b: &RoaringBitmap) -> (r: usize)
    requires
        bitmap_wf(*b),
    ensures
        r == bitmap_serialized_len(*b),
        r <= max_serialized_len(),
{
    b.serialized_size()
}

/// The message for a union-find mapping that could not be made.
#[verifier::external_body]
pub(crate) fn mapping_failed_message(e: std::io::Error) -> String {
    format!("Failed to create memory-mapped union-find: {}", e)
}

/// The message for a union-find too large to map.
#[verifier::external_body]
pub(crate) fn mapping_too_large_message(num_records: usize) -> String {
    format!("Failed to create memory-mapped union-find: {} records do not fit a mapping", num_records)
}

/// Every set of `u32` is finite.
pub proof fn lemma_u32_set_finite(s: Set<u32>)
    ensures
        s.finite(),
{
    <u32 as vstd::set_lib::FiniteFull>::full_properties();
    vstd::set_lib::lemma_set_subset_finite(Set::<u32>::full(), s);
}

} // verus!
