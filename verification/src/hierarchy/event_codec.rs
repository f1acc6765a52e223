//! The byte format of a stored merge event: the threshold as eight
//! little-endian bytes, the parent as four, then the length of the child
//! bitmap as four and the bitmap in the standard Roaring format.

use roaring::RoaringBitmap;
use vstd::prelude::*;
use vstd::slice::slice_subrange;

use crate::hierarchy::bitmap::{
    bitmap_insert, bitmap_is_empty, bitmap_new, bitmap_serialized_len, bitmap_set, bitmap_wf, max_serialized_len,
};
use crate::hierarchy::merge_event::MergeEvent;
use crate::hierarchy::storage::{event_view, StorageError};

verus! {

/// The values of the bitmap that `RoaringBitmap::deserialize_from` reads
/// from these bytes, as its iterator hands them out, or `None` when it
/// refuses them.
pub uninterp spec fn bitmap_decoded(bytes: Seq<u8>) -> Option<Set<u32>>;

/// `RoaringBitmap::serialize_into`, writing into a fresh vector: exactly the
/// bytes `serialized_size` counts, and reading them back gives the same
/// values. roaring's source passes on only the writer's errors, and std
/// documents that writing into a `Vec<u8>` appends to it, growing it as
/// needed, so it does not fail. The bitmap must be well formed: an empty
/// container would make its count wrap.
#[verifier::external_body]
fn bitmap_serialize(b: &RoaringBitmap) -> (r: Result<Vec<u8>, std::io::Error>)
    requires
        bitmap_wf(*b),
    ensures
        r is Ok,
        r matches Ok(bytes) ==> bitmap_decoded(bytes@) == Some(bitmap_set(*b)) && bytes@.len()
            == bitmap_serialized_len(*b) && bytes@.len() <= max_serialized_len(),
{
    let mut bytes: Vec<u8> = Vec::new();
    match b.serialize_into(&mut bytes) {
        Ok(()) => Ok(bytes),
        Err(e) => Err(e),
    }
}

/// `RoaringBitmap::deserialize_from` over a byte slice, the values of the
/// bitmap read handed out through its iterator. The bitmap is not kept:
/// roaring does not check that the containers it reads are in order or
/// that no two share a high half, so only its values are taken, possibly
/// out of order or repeated.
#[verifier::external_body]
fn bitmap_deserialize(data: &[u8]) -> (r: Result<Vec<u32>, std::io::Error>)
    ensures
        r is Ok <==> bitmap_decoded(data@) is Some,
        r matches Ok(v) ==> bitmap_decoded(data@) == Some(v@.to_set()),
{
    match RoaringBitmap::deserialize_from(data) {
        Ok(b) => Ok(b.iter().collect()),
        Err(e) => Err(e),
    }
}

/// The message for bytes that are not a bitmap.
#[verifier::external_body]
fn deserialization_failed_message(e: std::io::Error) -> String {
    format!("Bitmap deserialization failed: {}", e)
}

/// The four little-endian bytes of `x`.
pub open spec fn u32_bytes(x: u32) -> Seq<u8> {
    seq![(x & 0xff) as u8, ((x >> 8u32) & 0xff) as u8, ((x >> 16u32) & 0xff) as u8, ((x >> 24u32) & 0xff) as u8]
}

/// The eight little-endian bytes of `x`.
pub open spec fn u64_bytes(x: u64) -> Seq<u8> {
    seq![
        (x & 0xff) as u8,
        ((x >> 8u64) & 0xff) as u8,
        ((x >> 16u64) & 0xff) as u8,
        ((x >> 24u64) & 0xff) as u8,
        ((x >> 32u64) & 0xff) as u8,
        ((x >> 40u64) & 0xff) as u8,
        ((x >> 48u64) & 0xff) as u8,
        ((x >> 56u64) & 0xff) as u8,
    ]
}

/// The little-endian `u32` at `off`.
pub open spec fn le_u32(b: Seq<u8>, off: int) -> u32 {
    (b[off] as u32) | ((b[off + 1] as u32) << 8u32) | ((b[off + 2] as u32) << 16u32) | ((b[off + 3] as u32) << 24u32)
}

/// The little-endian `u64` at `off`.
pub open spec fn le_u64(b: Seq<u8>, off: int) -> u64 {
    (b[off] as u64) | ((b[off + 1] as u64) << 8u64) | ((b[off + 2] as u64) << 16u64) | ((b[off + 3] as u64) << 24u64)
        | ((b[off + 4] as u64) << 32u64) | ((b[off + 5] as u64) << 40u64) | ((b[off + 6] as u64) << 48u64) | ((b[off
        + 7] as u64) << 56u64)
}

/// The stored form of an event whose child bitmap is written as `bitmap`.
pub open spec fn event_record(threshold: i64, parent_id: u32, bitmap: Seq<u8>) -> Seq<u8> {
    u64_bytes(threshold as u64) + u32_bytes(parent_id) + u32_bytes(bitmap.len() as u32) + bitmap
}

/// The event that `data` holds: `None` when it is shorter than its header,
/// when the bitmap it announces runs past its end, or when that bitmap is
/// not valid or holds no record.
pub open spec fn decode_event(data: Seq<u8>) -> Option<(i64, u32, Set<u32>)> {
    if data.len() < 16 {
        None
    } else {
        let size = le_u32(data, 12) as int;
        if 16 + size > data.len() {
            None
        } else {
            match bitmap_decoded(data.subrange(16, 16 + size)) {
                Some(s) => if s == Set::<u32>::empty() {
                    None
                } else {
                    Some((le_u64(data, 0) as i64, le_u32(data, 8), s))
                },
                None => None,
            }
        }
    }
}

proof fn lemma_u32_roundtrip(x: u32)
    ensures
        ((x & 0xff) as u8 as u32) | ((((x >> 8u32) & 0xff) as u8 as u32) << 8u32) | ((((x >> 16u32) & 0xff) as u8
            as u32) << 16u32) | ((((x >> 24u32) & 0xff) as u8 as u32) << 24u32) == x,
{
    assert(((x & 0xff) as u8 as u32) | ((((x >> 8u32) & 0xff) as u8 as u32) << 8u32) | ((((x >> 16u32) & 0xff)
        as u8 as u32) << 16u32) | ((((x >> 24u32) & 0xff) as u8 as u32) << 24u32) == x) by (bit_vector);
}

proof fn lemma_u64_roundtrip(x: u64)
    ensures
        ((x & 0xff) as u8 as u64) | ((((x >> 8u64) & 0xff) as u8 as u64) << 8u64) | ((((x >> 16u64) & 0xff) as u8
            as u64) << 16u64) | ((((x >> 24u64) & 0xff) as u8 as u64) << 24u64) | ((((x >> 32u64) & 0xff) as u8
            as u64) << 32u64) | ((((x >> 40u64) & 0xff) as u8 as u64) << 40u64) | ((((x >> 48u64) & 0xff) as u8
            as u64) << 48u64) | ((((x >> 56u64) & 0xff) as u8 as u64) << 56u64) == x,
{
    assert(((x & 0xff) as u8 as u64) | ((((x >> 8u64) & 0xff) as u8 as u64) << 8u64) | ((((x >> 16u64) & 0xff)
        as u8 as u64) << 16u64) | ((((x >> 24u64) & 0xff) as u8 as u64) << 24u64) | ((((x >> 32u64) & 0xff) as u8
        as u64) << 32u64) | ((((x >> 40u64) & 0xff) as u8 as u64) << 40u64) | ((((x >> 48u64) & 0xff) as u8
        as u64) << 48u64) | ((((x >> 56u64) & 0xff) as u8 as u64) << 56u64) == x) by (bit_vector);
}

proof fn lemma_i64_bits(t: i64)
    ensures
        (t as u64) as i64 == t,
{
    assert((t as u64) as i64 == t) by (bit_vector);
}

/// Reading the fields back from an event's stored form gives the event.
pub proof fn lemma_event_roundtrip(threshold: i64, parent_id: u32, bitmap: Seq<u8>, children: Set<u32>)
    requires
        bitmap.len() <= u32::MAX,
        bitmap_decoded(bitmap) == Some(children),
        children != Set::<u32>::empty(),
    ensures
        decode_event(event_record(threshold, parent_id, bitmap)) == Some((threshold, parent_id, children)),
{
    let data = event_record(threshold, parent_id, bitmap);
    let t = threshold as u64;
    let n = bitmap.len() as u32;
    assert(data.len() == 16 + bitmap.len());
    lemma_u64_roundtrip(t);
    lemma_u32_roundtrip(parent_id);
    lemma_u32_roundtrip(n);
    lemma_i64_bits(threshold);
    assert(le_u64(data, 0) == t);
    assert(le_u32(data, 8) == parent_id);
    assert(le_u32(data, 12) == n);
    assert(data.subrange(16, 16 + bitmap.len() as int) =~= bitmap);
}

/// Append the four little-endian bytes of `x`.
fn push_u32(buf: &mut Vec<u8>, x: u32)
    ensures
        final(buf)@ == old(buf)@ + u32_bytes(x),
{
    buf.push((x & 0xff) as u8);
    buf.push(((x >> 8u32) & 0xff) as u8);
    buf.push(((x >> 16u32) & 0xff) as u8);
    buf.push(((x >> 24u32) & 0xff) as u8);
    assert(buf@ =~= old(buf)@ + u32_bytes(x));
}

/// Append the eight little-endian bytes of `x`.
fn push_u64(buf: &mut Vec<u8>, x: u64)
    ensures
        final(buf)@ == old(buf)@ + u64_bytes(x),
{
    buf.push((x & 0xff) as u8);
    buf.push(((x >> 8u64) & 0xff) as u8);
    buf.push(((x >> 16u64) & 0xff) as u8);
    buf.push(((x >> 24u64) & 0xff) as u8);
    buf.push(((x >> 32u64) & 0xff) as u8);
    buf.push(((x >> 40u64) & 0xff) as u8);
    buf.push(((x >> 48u64) & 0xff) as u8);
    buf.push(((x >> 56u64) & 0xff) as u8);
    assert(buf@ =~= old(buf)@ + u64_bytes(x));
}

/// The little-endian `u32` at `off`.
fn read_u32(data: &[u8], off: usize) -> (r: u32)
    requires
        off + 4 <= data@.len(),
    ensures
        r == le_u32(data@, off as int),
{
    (data[off] as u32) | ((data[off + 1] as u32) << 8u32) | ((data[off + 2] as u32) << 16u32) | ((data[off + 3] as u32)
        << 24u32)
}

/// The little-endian `u64` at `off`.
fn read_u64(data: &[u8], off: usize) -> (r: u64)
    requires
        off + 8 <= data@.len(),
    ensures
        r == le_u64(data@, off as int),
{
    (data[off] as u64) | ((data[off + 1] as u64) << 8u64) | ((data[off + 2] as u64) << 16u64) | ((data[off + 3] as u64)
        << 24u64) | ((data[off + 4] as u64) << 32u64) | ((data[off + 5] as u64) << 40u64) | ((data[off + 6] as u64)
        << 48u64) | ((data[off + 7] as u64) << 56u64)
}

/// The stored form of `event`; writing into memory never fails.
pub fn serialize_event(event: &MergeEvent) -> (r: Result<Vec<u8>, StorageError>)
    requires
        bitmap_wf(event.child_nodes),
    ensures
        r is Ok,
        r matches Ok(bytes) ==> exists|bitmap: Seq<u8>|
            {
                &&& bitmap.len() <= u32::MAX
                &&& bitmap_decoded(bitmap) == Some(event.child_set())
                &&& bytes@ == event_record(event.threshold, event.parent_id, bitmap)
            },
{
    let bitmap_data = match bitmap_serialize(&event.child_nodes) {
        Ok(b) => b,
        Err(_) => {
            proof {
                assert(false);
            }
            return Err(StorageError::Serialization("Bitmap serialization failed".to_owned()));
        },
    };
    if bitmap_data.len() > 0xffff_ffff {
        return Err(StorageError::Serialization(bitmap_too_large_message()));
    }
    let mut buffer: Vec<u8> = Vec::new();
    push_u64(&mut buffer, event.threshold as u64);
    push_u32(&mut buffer, event.parent_id);
    push_u32(&mut buffer, bitmap_data.len() as u32);
    let ghost header = buffer@;
    let mut i: usize = 0;
    while i < bitmap_data.len()
        invariant
            i <= bitmap_data@.len(),
            buffer@ == header + bitmap_data@.subrange(0, i as int),
        decreases bitmap_data@.len() - i,
    {
        buffer.push(bitmap_data[i]);
        i = i + 1;
        proof {
            assert(buffer@ =~= header + bitmap_data@.subrange(0, i as int));
        }
    }
    proof {
        assert(bitmap_data@.subrange(0, bitmap_data@.len() as int) =~= bitmap_data@);
        assert(buffer@ =~= event_record(event.threshold, event.parent_id, bitmap_data@));
    }
    Ok(buffer)
}

/// The message for a bitmap longer than its length field can count.
fn bitmap_too_large_message() -> (m: String)
    ensures
        m@ == "Bitmap data too large"@,
{
    "Bitmap data too large".to_owned()
}

/// A bitmap holding exactly `values`.
fn bitmap_of_values(values: &Vec<u32>) -> (b: RoaringBitmap)
    ensures
        bitmap_wf(b),
        bitmap_set(b) == values@.to_set(),
{
    let mut b = bitmap_new();
    let mut i: usize = 0;
    proof {
        assert(values@.take(0).to_set() =~= Set::<u32>::empty());
    }
    while i < values.len()
        invariant
            i <= values@.len(),
            bitmap_wf(b),
            bitmap_set(b) == values@.take(i as int).to_set(),
        decreases values@.len() - i,
    {
        bitmap_insert(&mut b, values[i]);
        proof {
            assert(values@.take(i + 1) =~= values@.take(i as int).push(values@[i as int]));
            values@.take(i as int).lemma_push_to_set_commute(values@[i as int]);
        }
        i = i + 1;
    }
    proof {
        assert(values@.take(values@.len() as int) =~= values@);
    }
    b
}

/// The event stored in `data`, as `decode_event` reads it.
pub fn deserialize_event(data: &[u8]) -> (r: Result<MergeEvent, StorageError>)
    ensures
        match decode_event(data@) {
            Some(v) => r matches Ok(e) && e.wf() && event_view(e) == v,
            None => r is Err,
        },
{
    if data.len() < 16 {
        return Err(StorageError::Serialization("Data too short".to_owned()));
    }
    let threshold = read_u64(data, 0) as i64;
    let parent_id = read_u32(data, 8);
    let bitmap_size = read_u32(data, 12) as usize;
    if bitmap_size > data.len() - 16 {
        return Err(StorageError::Serialization("Bitmap data truncated".to_owned()));
    }
    let slice = slice_subrange(data, 16, 16 + bitmap_size);
    let values = match bitmap_deserialize(slice) {
        Ok(v) => v,
        Err(e) => {
            return Err(StorageError::Serialization(deserialization_failed_message(e)));
        },
    };
    let child_nodes = bitmap_of_values(&values);
    if bitmap_is_empty(&child_nodes) {
        return Err(StorageError::Serialization("child_nodes cannot be empty".to_owned()));
    }
    Ok(MergeEvent::new(threshold, parent_id, child_nodes))
}

} // verus!
