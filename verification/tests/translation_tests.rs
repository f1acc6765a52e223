use roaring::RoaringBitmap;
use starlings_core::frame::translation::{translate_merge_events, TranslationMap};
use starlings_core::hierarchy::builder::PartitionHierarchy;

#[test]
fn test_translation_map() {
    let mut map = TranslationMap::new();
    map.insert(0, 10);
    map.insert(1, 11);
    map.insert(2, 12);

    assert_eq!(map.translate(0), Some(10));
    assert_eq!(map.translate(1), Some(11));
    assert_eq!(map.translate(2), Some(12));
    assert_eq!(map.translate(3), None);
}

#[test]
fn test_translate_bitmap() {
    let mut map = TranslationMap::new();
    map.insert(0, 10);
    map.insert(1, 11);
    map.insert(2, 12);

    let mut old_bitmap = RoaringBitmap::new();
    old_bitmap.insert(0);
    old_bitmap.insert(1);
    old_bitmap.insert(3);

    let new_bitmap = map.translate_bitmap(&old_bitmap);
    assert!(new_bitmap.contains(10));
    assert!(new_bitmap.contains(11));
    assert!(!new_bitmap.contains(3));
    assert_eq!(new_bitmap.len(), 2);
}

#[test]
fn translated_events_carry_new_indices() {
    let hierarchy = PartitionHierarchy::from_edges(vec![(0, 1, 900_000), (1, 2, 800_000)], 3);
    let mut map = TranslationMap::new();
    map.insert(0, 5);
    map.insert(1, 3);
    map.insert(2, 4);
    let translated = translate_merge_events(&hierarchy, &map).unwrap();
    assert_eq!(translated.len(), 2);
    assert_eq!(translated[0].threshold, 900_000);
    assert_eq!(translated[0].parent_id, 5);
    assert_eq!(translated[0].child_nodes.iter().collect::<Vec<u32>>(), vec![3]);
    assert_eq!(translated[1].parent_id, 5);
    assert_eq!(translated[1].child_nodes.iter().collect::<Vec<u32>>(), vec![4]);
}

#[test]
fn translation_fails_on_a_parent_without_one() {
    let hierarchy = PartitionHierarchy::from_edges(vec![(0, 1, 900_000)], 2);
    let mut map = TranslationMap::new();
    map.insert(1, 1);
    let result = translate_merge_events(&hierarchy, &map);
    assert_eq!(result.err(), Some("Failed to translate parent_id 0".to_string()));
}

#[test]
fn events_without_translated_children_are_dropped() {
    let hierarchy = PartitionHierarchy::from_edges(vec![(0, 1, 900_000), (0, 2, 800_000)], 3);
    let mut map = TranslationMap::new();
    map.insert(0, 0);
    map.insert(2, 1);
    let translated = translate_merge_events(&hierarchy, &map).unwrap();
    assert_eq!(translated.len(), 1);
    assert_eq!(translated[0].threshold, 800_000);
    assert_eq!(translated[0].child_nodes.iter().collect::<Vec<u32>>(), vec![1]);
}
