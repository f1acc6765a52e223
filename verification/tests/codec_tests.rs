use roaring::RoaringBitmap;
use starlings_core::hierarchy::event_codec::{deserialize_event, serialize_event};
use starlings_core::hierarchy::merge_event::MergeEvent;
use starlings_core::hierarchy::storage::StorageError;

fn create_test_merge_event(threshold: i64, num_records: u32) -> MergeEvent {
    let mut child_bitmap = RoaringBitmap::new();
    for i in 0..num_records {
        child_bitmap.insert(10 + i);
    }
    MergeEvent::new(threshold, 0, child_bitmap)
}

#[test]
fn test_disk_storage_serialization() {
    let event = create_test_merge_event(750_000, 3);

    let serialized = serialize_event(&event).unwrap();
    let deserialized = deserialize_event(&serialized).unwrap();

    assert_eq!(deserialized.threshold, event.threshold);
    assert_eq!(deserialized.parent_id, event.parent_id);
    assert_eq!(deserialized.child_nodes, event.child_nodes);
}

#[test]
fn stored_event_layout() {
    let mut child = RoaringBitmap::new();
    child.insert(7);
    let event = MergeEvent::new(-2, 0x0102_0304, child);
    let bytes = serialize_event(&event).unwrap();
    assert_eq!(&bytes[0..8], &(-2i64).to_le_bytes());
    assert_eq!(&bytes[8..12], &[4, 3, 2, 1]);
    let size = u32::from_le_bytes([bytes[12], bytes[13], bytes[14], bytes[15]]) as usize;
    assert_eq!(bytes.len(), 16 + size);
    let back = RoaringBitmap::deserialize_from(&bytes[16..]).unwrap();
    assert_eq!(back.iter().collect::<Vec<u32>>(), vec![7]);
}

#[test]
fn roundtrip_of_many_events() {
    for (t, n, parent) in [(0i64, 1u32, 0u32), (1_000_000, 70_000, 5), (i64::MIN, 2, u32::MAX), (i64::MAX, 3, 9)] {
        let mut child = RoaringBitmap::new();
        child.insert_range(100..100 + n);
        let event = MergeEvent::new(t, parent, child);
        let back = deserialize_event(&serialize_event(&event).unwrap()).unwrap();
        assert_eq!(back.threshold, t);
        assert_eq!(back.parent_id, parent);
        assert_eq!(back.child_nodes, event.child_nodes);
    }
}

fn serialization_message(r: Result<MergeEvent, StorageError>) -> String {
    match r {
        Err(StorageError::Serialization(m)) => m,
        Err(e) => panic!("unexpected error {:?}", e),
        Ok(_) => panic!("expected an error"),
    }
}

#[test]
fn short_data_is_refused() {
    assert_eq!(serialization_message(deserialize_event(&[0u8; 15])), "Data too short");
    assert_eq!(serialization_message(deserialize_event(&[])), "Data too short");
}

#[test]
fn truncated_bitmap_is_refused() {
    let event = create_test_merge_event(1, 2);
    let bytes = serialize_event(&event).unwrap();
    let cut = &bytes[..bytes.len() - 1];
    assert_eq!(serialization_message(deserialize_event(cut)), "Bitmap data truncated");
}

#[test]
fn invalid_bitmap_is_refused() {
    let mut bytes = vec![0u8; 16];
    bytes[12] = 4;
    bytes.extend_from_slice(&[1, 2, 3, 4]);
    let message = serialization_message(deserialize_event(&bytes));
    assert!(message.starts_with("Bitmap deserialization failed: "));
}

#[test]
fn empty_bitmap_is_refused() {
    let mut empty = Vec::new();
    RoaringBitmap::new().serialize_into(&mut empty).unwrap();
    let mut bytes = vec![0u8; 12];
    bytes.extend_from_slice(&(empty.len() as u32).to_le_bytes());
    bytes.extend_from_slice(&empty);
    assert_eq!(serialization_message(deserialize_event(&bytes)), "child_nodes cannot be empty");
}
