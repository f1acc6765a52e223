use roaring::RoaringBitmap;
use starlings_core::base::resource_monitor::used_mb_of;
use starlings_core::hierarchy::memory_cache::PartitionWeighter;
use starlings_core::hierarchy::partition::PartitionLevel;
use starlings_core::metrics::algorithms::common::{sum_entity_pair_counts, PairCounts};
use starlings_core::metrics::algorithms::record::RecordState;
use starlings_core::metrics::algorithms::{delta_can_handle, record_can_handle, ComparisonType};

fn bitmap(values: &[u32]) -> RoaringBitmap {
    let mut b = RoaringBitmap::new();
    for &v in values {
        b.insert(v);
    }
    b
}

#[test]
fn used_megabytes_from_the_process_or_the_machine() {
    assert_eq!(used_mb_of(Some(3 * 1_048_576 + 5), 0, 0), 3);
    assert_eq!(used_mb_of(None, 10 * 1_048_576 + 1, 4 * 1_048_576), 6);
    assert_eq!(used_mb_of(None, 4 * 1_048_576, 10 * 1_048_576), 0);
}

#[test]
fn partition_memory_is_its_size_plus_serialized_entities() {
    // {1, 2, 3}: header 8, one array container 8 + 3 * 2; {70000}: 8 + 8 + 2
    let partition = PartitionLevel::new(0, vec![bitmap(&[1, 2, 3]), bitmap(&[70_000])]);
    let expected = std::mem::size_of::<PartitionLevel>() as u64 + 22 + 18;
    assert_eq!(partition.memory_usage_bytes(), expected);
    assert_eq!(PartitionWeighter.weight(&7, &partition), expected);
}

#[test]
fn entity_pairs_ignore_the_order_of_entities() {
    assert_eq!(sum_entity_pair_counts(&[3, 2, 1]), 4);
    assert_eq!(sum_entity_pair_counts(&[1, 3, 2]), 4);
    assert_eq!(sum_entity_pair_counts(&[]), 0);
}

#[test]
fn exchanging_the_partitions_swaps_the_errors() {
    let overlaps = vec![((0, 0), 2), ((0, 1), 1), ((1, 1), 2)];
    let rows = vec![(0, 3), (1, 2)];
    let cols = vec![(0, 2), (1, 3)];
    let forward = PairCounts::from_contingency_data(&overlaps, &rows, &cols, 5);
    let swapped: Vec<((usize, usize), u32)> = overlaps.iter().map(|&((a, b), n)| ((b, a), n)).collect();
    let backward = PairCounts::from_contingency_data(&swapped, &cols, &rows, 5);
    assert_eq!(forward.true_positives, backward.true_positives);
    assert_eq!(forward.false_positives, backward.false_negatives);
    assert_eq!(forward.false_negatives, backward.false_positives);
    assert_eq!(forward.true_negatives, backward.true_negatives);
    assert_eq!((forward.true_positives, forward.false_positives, forward.false_negatives), (2, 2, 2));
}

#[test]
fn every_comparison_goes_to_exactly_one_algorithm() {
    let kinds = [
        ComparisonType::Single,
        ComparisonType::PointPoint { same_collection: true },
        ComparisonType::PointPoint { same_collection: false },
        ComparisonType::SweepPoint { same_collection: true },
        ComparisonType::SweepPoint { same_collection: false },
        ComparisonType::SweepSweep { same_collection: true },
        ComparisonType::SweepSweep { same_collection: false },
    ];
    for kind in kinds {
        assert_ne!(record_can_handle(&kind), delta_can_handle(&kind));
    }
    assert!(delta_can_handle(&ComparisonType::Single));
    assert!(record_can_handle(&ComparisonType::SweepSweep { same_collection: true }));
}

#[test]
fn tables_of_disjoint_partitions_always_fit() {
    let p1 = PartitionLevel::new(0, vec![bitmap(&[0, 1, 2]), bitmap(&[3, 4])]);
    let p2 = PartitionLevel::new(0, vec![bitmap(&[0, 3]), bitmap(&[1, 2, 4])]);
    let table = RecordState::try_from_partitions(&p1, &p2, 5, 0).unwrap();
    // only records 1 and 2 are together in both
    assert_eq!(table.true_positives, 1);
    assert_eq!(table.false_positives, 3);
    assert_eq!(table.false_negatives, 3);
    assert_eq!(table.true_negatives, 3);
}
