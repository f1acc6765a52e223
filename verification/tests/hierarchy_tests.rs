use roaring::RoaringBitmap;
use starlings_core::hierarchy::bitmap_pool::{BitmapPool, PoolSizeClass};
use starlings_core::hierarchy::builder::{HierarchyBuilder, PartitionHierarchy};
use starlings_core::hierarchy::sorting::{group_edges_by_threshold, sort_edges_descending};
use starlings_core::hierarchy::incremental::IncrementalPartitionBuilder;
use starlings_core::hierarchy::memory_cache::PartitionWeighter;
use starlings_core::hierarchy::merge_event::MergeEvent;
use starlings_core::hierarchy::partition::PartitionLevel;
use starlings_core::hierarchy::storage::InMemoryStorage;

// Thresholds are millionths: 0.8 is 800_000.

fn bitmap(values: &[u32]) -> RoaringBitmap {
    let mut b = RoaringBitmap::new();
    for &v in values {
        b.insert(v);
    }
    b
}

#[test]
fn test_empty_edges() {
    let hierarchy = PartitionHierarchy::from_edges(vec![], 3);

    assert_eq!(hierarchy.merge_events_count(), 0);
    assert_eq!(hierarchy.num_records(), 3);
}

#[test]
fn test_three_node_graph() {
    let edges = vec![(0, 1, 800_000), (1, 2, 600_000)];

    let hierarchy = PartitionHierarchy::from_edges(edges, 3);

    assert_eq!(hierarchy.merge_events_count(), 2);

    let merges = hierarchy.get_merge_events();

    assert_eq!(merges[0].threshold, 800_000);
    assert_eq!(merges[0].child_nodes.len(), 1);

    assert_eq!(merges[1].threshold, 600_000);
    assert_eq!(merges[1].child_nodes.len(), 1);
}

#[test]
fn test_disconnected_components() {
    let edges = vec![(0, 1, 800_000), (2, 3, 700_000)];

    let hierarchy = PartitionHierarchy::from_edges(edges, 4);

    assert_eq!(hierarchy.merge_events_count(), 2);

    for merge in hierarchy.get_merge_events() {
        assert_eq!(merge.child_nodes.len(), 1);
    }
}

#[test]
fn test_same_threshold_edges_nway_merge() {
    let edges = vec![(0, 1, 500_000), (1, 2, 500_000), (2, 3, 500_000)];

    let hierarchy = PartitionHierarchy::from_edges(edges, 4);

    assert!(hierarchy.merge_events_count() > 0);
    for merge in hierarchy.get_merge_events() {
        assert_eq!(merge.threshold, 500_000);
    }
}

#[test]
fn test_streaming_reconstruction_consistency() {
    let edges = vec![(0, 1, 900_000), (1, 2, 800_000), (0, 2, 700_000)];

    let hierarchy = PartitionHierarchy::from_edges(edges, 3);

    let threshold = 800_000;
    let result_large_batch = hierarchy.reconstruct_with_backend(threshold, false).unwrap();
    let result_small_batch = hierarchy.reconstruct_with_backend(threshold, false).unwrap();
    let result_medium_batch = hierarchy.reconstruct_with_backend(threshold, false).unwrap();

    assert_eq!(result_large_batch.entities().len(), result_small_batch.entities().len());
    assert_eq!(result_large_batch.entities().len(), result_medium_batch.entities().len());

    assert_eq!(result_large_batch.threshold(), threshold);
    assert_eq!(result_small_batch.threshold(), threshold);
    assert_eq!(result_medium_batch.threshold(), threshold);

    let total_records_large: u64 = result_large_batch.entities().iter().map(|e| e.len()).sum();
    let total_records_small: u64 = result_small_batch.entities().iter().map(|e| e.len()).sum();
    let total_records_medium: u64 = result_medium_batch.entities().iter().map(|e| e.len()).sum();

    assert_eq!(total_records_large, total_records_small);
    assert_eq!(total_records_large, total_records_medium);
    assert_eq!(total_records_large, 3);
}

#[test]
fn test_memory_mapped_reconstruction() {
    let edges = vec![(0, 1, 900_000), (1, 2, 800_000)];

    let hierarchy = PartitionHierarchy::from_edges(edges, 3);

    let threshold = 800_000;
    let result_mmap = hierarchy.reconstruct_with_backend(threshold, true).unwrap();
    let result_streaming = hierarchy.reconstruct_with_backend(threshold, false).unwrap();

    let total_records_mmap: u64 = result_mmap.entities().iter().map(|e| e.len()).sum();
    let total_records_streaming: u64 = result_streaming.entities().iter().map(|e| e.len()).sum();

    assert_eq!(total_records_mmap, total_records_streaming);
    assert_eq!(total_records_mmap, 3);

    assert_eq!(result_mmap.threshold(), threshold);
    assert_eq!(result_streaming.threshold(), threshold);
}

#[test]
fn test_threshold_0_one_entity() {
    let edges = vec![(0, 1, 800_000), (1, 2, 600_000)];

    let hierarchy = PartitionHierarchy::from_edges(edges, 3);

    let partition = hierarchy.at_threshold(0);

    assert_eq!(partition.threshold(), 0);
    assert_eq!(partition.num_entities(), 1);
    assert_eq!(partition.total_records(), 3);

    let entity = &partition.entities()[0];
    assert!(entity.contains(0));
    assert!(entity.contains(1));
    assert!(entity.contains(2));
}

#[test]
fn test_threshold_1_all_singletons() {
    let edges = vec![(0, 1, 800_000), (1, 2, 600_000)];

    let hierarchy = PartitionHierarchy::from_edges(edges, 3);

    let partition = hierarchy.at_threshold(1_000_000);

    assert_eq!(partition.threshold(), 1_000_000);
    assert_eq!(partition.num_entities(), 3);
    assert_eq!(partition.total_records(), 3);

    for entity in partition.entities() {
        assert_eq!(entity.len(), 1);
    }
}

#[test]
fn test_threshold_intermediate() {
    let edges = vec![(0, 1, 800_000), (1, 2, 400_000)];

    let hierarchy = PartitionHierarchy::from_edges(edges, 3);

    let partition = hierarchy.at_threshold(500_000);

    assert_eq!(partition.threshold(), 500_000);
    assert_eq!(partition.num_entities(), 2);

    let entity_a = partition.find_entity_for_record(0).unwrap();
    let entity_b = partition.find_entity_for_record(1).unwrap();
    let entity_c = partition.find_entity_for_record(2).unwrap();

    assert_eq!(entity_a, entity_b);
    assert_ne!(entity_a, entity_c);
}

#[test]
fn test_isolates_as_singletons() {
    let edges = vec![(0, 1, 800_000), (1, 2, 600_000)];

    let hierarchy = PartitionHierarchy::from_edges(edges, 5);

    let partition = hierarchy.at_threshold(500_000);

    assert_eq!(partition.num_entities(), 3);
    assert_eq!(partition.total_records(), 5);

    assert!(partition.contains_record(3));
    assert!(partition.contains_record(4));

    let singleton_count = partition.entities().iter().filter(|e| e.len() == 1).count();
    assert_eq!(singleton_count, 2);
}

#[test]
fn test_cache_functionality() {
    let edges = vec![(0, 1, 800_000), (1, 2, 600_000)];

    let hierarchy = PartitionHierarchy::from_edges(edges, 3);

    let partition1 = hierarchy.at_threshold(700_000);
    assert_eq!(partition1.threshold(), 700_000);

    let partition2 = hierarchy.at_threshold(700_000);
    assert_eq!(partition2.threshold(), 700_000);

    for i in 0..15i64 {
        let threshold = i * 50_000;
        let partition = hierarchy.at_threshold(threshold);
        assert_eq!(partition.threshold(), threshold);
    }

    let partition3 = hierarchy.at_threshold(700_000);
    assert_eq!(partition3.threshold(), 700_000);
}

#[test]
fn test_separate_components_same_threshold() {
    let edges = vec![(0, 1, 900_000), (2, 3, 900_000), (4, 5, 900_000)];

    let hierarchy = PartitionHierarchy::from_edges(edges, 6);

    let partition = hierarchy.at_threshold(900_000);
    assert_eq!(partition.entities().len(), 3, "Should have exactly 3 components at threshold 0.9");

    for entity in partition.entities() {
        assert_eq!(entity.len(), 2, "Each component should have exactly 2 members");
    }

    let partition_high = hierarchy.at_threshold(1_000_000);
    assert_eq!(partition_high.entities().len(), 6, "Should have 6 singletons at threshold 1.0");
}

#[test]
fn test_hierarchical_component_formation() {
    let edges = vec![(0, 1, 900_000), (2, 3, 900_000), (4, 5, 800_000), (6, 7, 700_000)];

    let hierarchy = PartitionHierarchy::from_edges(edges, 8);

    assert_eq!(hierarchy.at_threshold(950_000).entities().len(), 8);
    assert_eq!(hierarchy.at_threshold(900_000).entities().len(), 6);
    assert_eq!(hierarchy.at_threshold(800_000).entities().len(), 5);
    assert_eq!(hierarchy.at_threshold(700_000).entities().len(), 4);
    assert_eq!(hierarchy.at_threshold(500_000).entities().len(), 4);
}

#[test]
fn entities_are_the_components_of_edges_at_or_above() {
    // Edges given out of order, with a redundant one and a repeated pair.
    let edges = vec![
        (5, 6, 300_000),
        (0, 1, 900_000),
        (3, 4, 600_000),
        (1, 2, 600_000),
        (0, 2, 500_000),
        (2, 3, 400_000),
        (3, 4, 950_000),
    ];
    let hierarchy = PartitionHierarchy::from_edges(edges, 8);
    let groups = |t: i64| {
        let p = hierarchy.at_threshold(t);
        let mut sets: Vec<Vec<u32>> = p.entities().iter().map(|e| e.iter().collect()).collect();
        sets.sort();
        sets
    };
    assert_eq!(groups(1_000_000), vec![vec![0], vec![1], vec![2], vec![3], vec![4], vec![5], vec![6], vec![7]]);
    assert_eq!(groups(950_000), vec![vec![0], vec![1], vec![2], vec![3, 4], vec![5], vec![6], vec![7]]);
    assert_eq!(groups(900_000), vec![vec![0, 1], vec![2], vec![3, 4], vec![5], vec![6], vec![7]]);
    assert_eq!(groups(600_000), vec![vec![0, 1, 2], vec![3, 4], vec![5], vec![6], vec![7]]);
    assert_eq!(groups(400_000), vec![vec![0, 1, 2, 3, 4], vec![5], vec![6], vec![7]]);
    assert_eq!(groups(0), vec![vec![0, 1, 2, 3, 4], vec![5, 6], vec![7]]);
}

#[test]
fn events_are_binary_with_smallest_record_as_parent() {
    let edges = vec![(3, 1, 900_000), (2, 0, 900_000), (1, 2, 800_000)];
    let hierarchy = PartitionHierarchy::from_edges(edges, 4);
    let merges = hierarchy.get_merge_events();
    assert_eq!(merges.len(), 3);
    assert_eq!(merges[0].parent_id, 1);
    assert_eq!(merges[0].child_nodes.iter().collect::<Vec<u32>>(), vec![3]);
    assert_eq!(merges[1].parent_id, 0);
    assert_eq!(merges[1].child_nodes.iter().collect::<Vec<u32>>(), vec![2]);
    assert_eq!(merges[2].threshold, 800_000);
    assert_eq!(merges[2].parent_id, 0);
    assert_eq!(merges[2].child_nodes.iter().collect::<Vec<u32>>(), vec![1, 3]);
}

#[test]
fn merge_events_between_thresholds() {
    let edges = vec![(0, 1, 900_000), (2, 3, 800_000), (0, 2, 700_000), (4, 5, 600_000)];
    let hierarchy = PartitionHierarchy::from_edges(edges, 6);
    let between = hierarchy.get_merge_events_between(850_000, 650_000).unwrap();
    let thresholds: Vec<i64> = between.iter().map(|e| e.threshold).collect();
    assert_eq!(thresholds, vec![800_000, 700_000]);
    assert_eq!(hierarchy.get_merge_events_between(950_000, 950_000).unwrap().len(), 0);
}

#[test]
fn partitions_built_incrementally_match_direct_ones() {
    let edges = vec![(0, 1, 900_000), (2, 3, 800_000), (0, 2, 700_000), (4, 5, 600_000)];
    let hierarchy = PartitionHierarchy::from_edges(edges, 6);
    let thresholds = [950_000, 850_000, 750_000, 650_000, 550_000];
    let built = hierarchy.build_partitions_incrementally(&thresholds);
    let counts: Vec<usize> = built.iter().map(|p| p.num_entities()).collect();
    assert_eq!(counts, vec![6, 5, 4, 3, 2]);
    for (i, &t) in thresholds.iter().enumerate() {
        assert_eq!(built[i].threshold(), t);
        assert_eq!(hierarchy.at_threshold(t).num_entities(), built[i].num_entities());
    }
}

#[test]
fn hierarchy_from_merge_events_rebuilds_partitions() {
    let edges = vec![(0, 1, 900_000), (1, 2, 600_000)];
    let built = PartitionHierarchy::from_edges(edges, 3);
    let rebuilt = PartitionHierarchy::from_merge_events(built.get_merge_events(), 3);
    assert_eq!(rebuilt.merge_events_count(), 2);
    assert_eq!(rebuilt.at_threshold(700_000).num_entities(), 2);
    assert_eq!(rebuilt.at_threshold(500_000).num_entities(), 1);
}

#[test]
fn test_merge_event_creation() {
    let child_bitmap = bitmap(&[10, 11]);

    let event = MergeEvent::new(800_000, 5, child_bitmap);

    assert_eq!(event.threshold, 800_000);
    assert_eq!(event.parent_id, 5);
    assert_eq!(event.child_id(), 10);
    assert_eq!(event.total_entities(), 3);
    assert_eq!(event.threshold(), 800_000);
}

#[test]
fn test_affects_record() {
    let merge = MergeEvent::new(700_000, 0, bitmap(&[1, 2]));

    assert!(merge.affects_record(1));
    assert!(merge.affects_record(2));
    assert!(!merge.affects_record(0));
    assert!(!merge.affects_record(3));
}

#[test]
fn merge_event_duplicate_is_equal_and_independent() {
    let event = MergeEvent::new(100, 2, bitmap(&[7, 9]));
    let mut copy = event.duplicate();
    assert_eq!(copy.threshold, 100);
    assert_eq!(copy.parent_id, 2);
    assert_eq!(copy.child_nodes, event.child_nodes);
    copy.child_nodes.insert(20);
    assert!(!event.child_nodes.contains(20));
}

#[test]
fn test_partition_level_creation() {
    let partition = PartitionLevel::new(700_000, vec![bitmap(&[0, 1]), bitmap(&[2, 3, 4])]);

    assert_eq!(partition.threshold(), 700_000);
    assert_eq!(partition.num_entities(), 2);
    assert_eq!(partition.entity_sizes(), &[2, 3]);
    assert_eq!(partition.total_records(), 5);
}

#[test]
fn test_contains_record() {
    let partition = PartitionLevel::new(500_000, vec![bitmap(&[1, 2])]);

    assert!(partition.contains_record(1));
    assert!(partition.contains_record(2));
    assert!(!partition.contains_record(0));
    assert!(!partition.contains_record(3));
}

#[test]
fn test_find_entity_for_record() {
    let partition = PartitionLevel::new(800_000, vec![bitmap(&[0, 1]), bitmap(&[2])]);

    assert_eq!(partition.find_entity_for_record(0), Some(0));
    assert_eq!(partition.find_entity_for_record(1), Some(0));
    assert_eq!(partition.find_entity_for_record(2), Some(1));
    assert_eq!(partition.find_entity_for_record(3), None);
}

#[test]
fn record_to_entity_index() {
    let partition = PartitionLevel::new(800_000, vec![bitmap(&[0, 3]), bitmap(&[1])]);
    let index = partition.get_record_to_entity_index(5, 7);
    assert_eq!(index.generation, 7);
    assert_eq!(index.index, vec![Some(0), Some(1), None, Some(0), None]);
    assert_eq!(partition.get_entity_for_record_with_generation(3, 5, 7), Some(0));
    assert_eq!(partition.get_entity_for_record_with_generation(2, 5, 7), None);
}

#[test]
fn test_partition_size_estimation_in_weigher() {
    let mut entities = Vec::new();
    for i in 0..10u32 {
        let mut b = RoaringBitmap::new();
        b.insert_range(i * 100..i * 100 + 50);
        entities.push(b);
    }

    let partition = PartitionLevel::new(500_000, entities);
    let weighter = PartitionWeighter;

    let estimated_size = weighter.weight(&0, &partition);

    let expected_min_size = 10 * 100;
    assert!(estimated_size > expected_min_size);
}

#[test]
fn weight_is_never_zero() {
    let partition = PartitionLevel::new(0, vec![]);
    assert!(PartitionWeighter.weight(&1, &partition) >= 1);
    assert!(partition.memory_usage_bytes() >= std::mem::size_of::<PartitionLevel>() as u64);
}

#[test]
fn test_bitmap_pool_basic() {
    let mut pool = BitmapPool::new();

    let (mut bitmap1, size_class1) = pool.get(50);
    assert_eq!(bitmap1.len(), 0);
    assert_eq!(size_class1, PoolSizeClass::Small);

    bitmap1.insert(1);
    bitmap1.insert(2);
    bitmap1.insert(3);
    assert_eq!(bitmap1.len(), 3);

    pool.put(bitmap1, size_class1);

    let (bitmap2, _) = pool.get(50);
    assert_eq!(bitmap2.len(), 0);
}

#[test]
fn test_pool_size_classification() {
    let mut pool = BitmapPool::new();

    let (small_bitmap, small_class) = pool.get(100);
    assert_eq!(small_class, PoolSizeClass::Small);
    pool.put(small_bitmap, small_class);

    let (large_bitmap, large_class) = pool.get(5000);
    assert_eq!(large_class, PoolSizeClass::Large);
    pool.put(large_bitmap, large_class);

    let stats = pool.stats();
    assert_eq!(stats.small_available, 1);
    assert_eq!(stats.large_available, 1);
    assert_eq!(stats.total_available, 2);
}

#[test]
fn test_pool_capacity_limits() {
    let mut pool = BitmapPool::with_capacity(2, 1);

    let (mut bitmap1, class1) = pool.get(10);
    bitmap1.insert(1);
    let (mut bitmap2, class2) = pool.get(10);
    bitmap2.insert(2);
    let (mut bitmap3, class3) = pool.get(10);
    bitmap3.insert(3);

    pool.put(bitmap1, class1);
    pool.put(bitmap2, class2);
    pool.put(bitmap3, class3);

    let stats = pool.stats();
    assert_eq!(stats.small_available, 2);
}

#[test]
fn test_pool_clear() {
    let mut pool = BitmapPool::new();

    let (bitmap1, class1) = pool.get(10);
    pool.put(bitmap1, class1);
    let (bitmap2, class2) = pool.get(5000);
    pool.put(bitmap2, class2);

    let stats_before = pool.stats();
    assert_eq!(stats_before.total_available, 2);

    pool.clear();

    let stats_after = pool.stats();
    assert_eq!(stats_after.total_available, 0);
}

fn create_test_merge_event(threshold: i64, num_records: u32) -> MergeEvent {
    let mut child_bitmap = RoaringBitmap::new();
    for i in 0..num_records {
        child_bitmap.insert(10 + i);
    }
    MergeEvent::new(threshold, 0, child_bitmap)
}

#[test]
fn test_in_memory_storage() {
    let mut storage = InMemoryStorage::new();

    assert_eq!(storage.len(), 0);
    assert!(storage.is_empty());

    let event = create_test_merge_event(800_000, 2);
    storage.push(event.duplicate()).unwrap();

    assert_eq!(storage.len(), 1);
    assert!(!storage.is_empty());
    assert!(storage.memory_usage_bytes() > 0);

    let retrieved = storage.get(0).unwrap().unwrap();
    assert_eq!(retrieved.threshold, 800_000);
    assert_eq!(retrieved.parent_id, 0);
    assert_eq!(retrieved.child_nodes.len(), 2);
    assert!(storage.get(1).unwrap().is_none());
}

fn create_test_hierarchy() -> PartitionHierarchy {
    let edges = vec![(0, 1, 900_000), (2, 3, 800_000), (0, 2, 700_000), (4, 5, 600_000)];
    PartitionHierarchy::from_edges(edges, 6)
}

#[test]
fn test_incremental_builder_single() {
    let hierarchy = create_test_hierarchy();
    let storage = hierarchy.storage();

    let mut builder = IncrementalPartitionBuilder::new(6);

    let partition = builder.build_at_threshold(750_000, storage).unwrap();
    assert_eq!(partition.num_entities(), 4);
}

#[test]
fn test_incremental_builder_sweep() {
    let hierarchy = create_test_hierarchy();
    let storage = hierarchy.storage();

    let mut builder = IncrementalPartitionBuilder::new(6);

    let thresholds = vec![950_000, 850_000, 750_000, 650_000];
    let partitions = builder.build_multiple(&thresholds, storage).unwrap();

    assert_eq!(partitions.len(), 4);
    assert_eq!(partitions[0].num_entities(), 6);
    assert_eq!(partitions[1].num_entities(), 5);
    assert_eq!(partitions[2].num_entities(), 4);
    assert_eq!(partitions[3].num_entities(), 3);
}

#[test]
fn test_incremental_matches_full_rebuild() {
    let hierarchy = create_test_hierarchy();
    let storage = hierarchy.storage();

    let mut incremental_builder = IncrementalPartitionBuilder::new(6);

    let thresholds = vec![950_000, 850_000, 750_000, 650_000, 550_000];

    let incremental_results = incremental_builder.build_multiple(&thresholds, storage).unwrap();

    for (i, &threshold) in thresholds.iter().enumerate() {
        let direct = hierarchy.at_threshold(threshold);
        let incremental = &incremental_results[i];

        assert_eq!(direct.num_entities(), incremental.num_entities(), "Mismatch at threshold {}", threshold);
        assert_eq!(direct.total_records(), incremental.total_records(), "Record count mismatch at threshold {}", threshold);
    }
}

#[test]
fn incremental_builder_rebuilds_when_threshold_rises() {
    let hierarchy = create_test_hierarchy();
    let storage = hierarchy.storage();
    let mut builder = IncrementalPartitionBuilder::new(6);
    assert_eq!(builder.build_at_threshold(650_000, storage).unwrap().num_entities(), 3);
    assert_eq!(builder.build_at_threshold(850_000, storage).unwrap().num_entities(), 5);
    assert_eq!(builder.build_at_threshold(550_000, storage).unwrap().num_entities(), 2);
}

#[test]
fn events_between_include_the_end_threshold() {
    let edges = vec![(0, 1, 800_000), (1, 2, 500_000)];
    let hierarchy = PartitionHierarchy::from_edges(edges, 3);
    let between = hierarchy.get_merge_events_between(1_000_000, 500_000).unwrap();
    let thresholds: Vec<i64> = between.iter().map(|e| e.threshold).collect();
    assert_eq!(thresholds, vec![800_000, 500_000]);
    let after_start = hierarchy.get_merge_events_between(800_000, 500_000).unwrap();
    assert_eq!(after_start.len(), 1);
    assert_eq!(after_start[0].threshold, 500_000);
}

#[test]
fn three_node_graph_events_are_exact() {
    let hierarchy = PartitionHierarchy::from_edges(vec![(0, 1, 800_000), (1, 2, 600_000)], 3);
    let merges = hierarchy.get_merge_events();
    assert_eq!(merges.len(), 2);
    assert_eq!((merges[0].threshold, merges[0].parent_id), (800_000, 0));
    assert_eq!(merges[0].child_nodes.iter().collect::<Vec<u32>>(), vec![1]);
    assert_eq!((merges[1].threshold, merges[1].parent_id), (600_000, 0));
    assert_eq!(merges[1].child_nodes.iter().collect::<Vec<u32>>(), vec![2]);
}

#[test]
fn events_at_or_above_a_threshold_count_the_merges_made() {
    // a cycle and a second component: the closing edge of the cycle merges nothing
    let edges = vec![(0, 1, 900_000), (1, 2, 800_000), (0, 2, 700_000), (3, 4, 600_000)];
    let hierarchy = PartitionHierarchy::from_edges(edges, 6);
    assert_eq!(hierarchy.merge_events_count(), 3);
    for (t, events) in [(950_000, 0), (850_000, 1), (750_000, 2), (650_000, 2), (550_000, 3)] {
        let at_or_above = hierarchy.get_merge_events().iter().filter(|e| e.threshold >= t).count();
        assert_eq!(at_or_above, events);
        assert_eq!(hierarchy.at_threshold(t).num_entities(), 6 - events);
    }
}

#[test]
fn builder_driven_group_by_group_matches_from_edges() {
    let edges = vec![(0, 1, 900_000), (2, 3, 900_000), (1, 2, 700_000), (4, 5, 600_000)];
    let sorted = sort_edges_descending(&edges);
    let groups = group_edges_by_threshold(&sorted);
    let mut builder = HierarchyBuilder::new(6, edges.len());
    let mut stats = Vec::new();
    for (threshold, pairs) in groups.iter() {
        stats.extend(builder.process_group(*threshold, pairs));
    }
    let built = builder.finish();
    let direct = PartitionHierarchy::from_edges(edges, 6);
    assert_eq!(built.merge_events_count(), direct.merge_events_count());
    for t in [1_000_000, 900_000, 800_000, 700_000, 600_000, 0] {
        assert_eq!(built.at_threshold(t).num_entities(), direct.at_threshold(t).num_entities());
    }
    assert_eq!(stats.iter().map(|s| s.merged_size).collect::<Vec<u64>>(), vec![2, 2, 4, 2]);
    assert_eq!(stats.iter().map(|s| s.largest_input_size).collect::<Vec<u64>>(), vec![1, 1, 2, 1]);
}
