use starlings_core::expressions::types::MetricType;
use starlings_core::expressions::utils::{check_single_metric, MetricError};
use starlings_core::metrics::algorithms::common::{choose_2, sum_entity_pair_counts, PairCounts};
use starlings_core::metrics::algorithms::{comparison_type_of, ComparisonType, MetricType as CoreMetricType};
use starlings_core::metrics::contingency;
use starlings_core::metrics::types::ContingencyTable;

#[test]
fn test_choose_2() {
    assert_eq!(choose_2(0), 0);
    assert_eq!(choose_2(1), 0);
    assert_eq!(choose_2(2), 1);
    assert_eq!(choose_2(3), 3);
    assert_eq!(choose_2(4), 6);
    assert_eq!(choose_2(10), 45);
}

#[test]
fn choose_2_at_the_largest_input() {
    assert_eq!(choose_2(u32::MAX), 9_223_372_030_412_324_865);
    assert_eq!(contingency::choose_2(u32::MAX), 9_223_372_030_412_324_865);
    for n in 0..50u32 {
        assert_eq!(choose_2(n), contingency::choose_2(n));
    }
}

#[test]
fn test_pair_counts_computation() {
    let overlaps = vec![((0usize, 0usize), 3u32), ((0, 1), 1), ((1, 0), 2)];
    let row_marginals = vec![(0usize, 4u32), (1, 2)];
    let col_marginals = vec![(0usize, 5u32), (1, 1)];

    let counts = PairCounts::from_contingency_data(&overlaps, &row_marginals, &col_marginals, 6);

    assert_eq!(counts.true_positives, 4);
}

#[test]
fn pair_counts_of_a_full_table() {
    // rows {0,1,2,3} and {4,5}; columns {0,1,2,4,5} and {3}
    let overlaps = vec![((0usize, 0usize), 3u32), ((0, 1), 1), ((1, 0), 2)];
    let row_marginals = vec![(0usize, 4u32), (1, 2)];
    let col_marginals = vec![(0usize, 5u32), (1, 1)];
    let counts = PairCounts::from_contingency_data(&overlaps, &row_marginals, &col_marginals, 6);
    assert_eq!(counts.true_positives, 4);
    // row 0: 6 pairs, 3 kept together; row 1: 1 pair, kept together
    assert_eq!(counts.false_positives, 3);
    // column 0: 10 pairs, 4 kept together; column 1: none
    assert_eq!(counts.false_negatives, 6);
    // 15 pairs in all
    assert_eq!(counts.true_negatives, 2);
    assert_eq!(
        counts.true_positives + counts.false_positives + counts.false_negatives + counts.true_negatives,
        choose_2(6)
    );
}

#[test]
fn pair_counts_of_identical_partitions() {
    let overlaps = vec![((0usize, 0usize), 3u32), ((1, 1), 2)];
    let marginals = vec![(0usize, 3u32), (1, 2)];
    let counts = PairCounts::from_contingency_data(&overlaps, &marginals, &marginals, 5);
    assert_eq!(counts.true_positives, 4);
    assert_eq!(counts.false_positives, 0);
    assert_eq!(counts.false_negatives, 0);
    assert_eq!(counts.true_negatives, 6);
}

#[test]
fn pair_counts_of_empty_table() {
    let counts = PairCounts::from_contingency_data(&[], &[], &[], 0);
    assert_eq!(counts.true_positives, 0);
    assert_eq!(counts.false_positives, 0);
    assert_eq!(counts.false_negatives, 0);
    assert_eq!(counts.true_negatives, 0);
}

#[test]
fn sum_of_entity_pairs() {
    assert_eq!(sum_entity_pair_counts(&[]), 0);
    assert_eq!(sum_entity_pair_counts(&[1, 1, 1]), 0);
    assert_eq!(sum_entity_pair_counts(&[3, 4, 2]), 3 + 6 + 1);
}

#[test]
fn test_metric_type_requires_comparison() {
    assert!(MetricType::F1.requires_comparison());
    assert!(MetricType::Precision.requires_comparison());
    assert!(MetricType::Recall.requires_comparison());

    assert!(!MetricType::EntityCount.requires_comparison());
    assert!(!MetricType::Entropy.requires_comparison());
}

#[test]
fn core_metric_types_and_names() {
    let all = [
        (CoreMetricType::F1, "f1", true),
        (CoreMetricType::Precision, "precision", true),
        (CoreMetricType::Recall, "recall", true),
        (CoreMetricType::ARI, "ari", true),
        (CoreMetricType::NMI, "nmi", true),
        (CoreMetricType::VMeasure, "v_measure", true),
        (CoreMetricType::BCubedPrecision, "bcubed_precision", true),
        (CoreMetricType::BCubedRecall, "bcubed_recall", true),
        (CoreMetricType::EntityCount, "entity_count", false),
        (CoreMetricType::Entropy, "entropy", false),
    ];
    for (metric, name, compares) in all.iter() {
        assert_eq!(metric.name(), *name);
        assert_eq!(metric.requires_comparison(), *compares);
    }
}

#[test]
fn single_metric_check() {
    assert_eq!(check_single_metric(&MetricType::EntityCount), Ok(()));
    assert_eq!(check_single_metric(&MetricType::Entropy), Ok(()));
    assert_eq!(
        check_single_metric(&MetricType::F1),
        Err(MetricError::ComparisonMetricUsedForSingle(MetricType::F1))
    );
    assert_eq!(
        check_single_metric(&MetricType::BCubedRecall),
        Err(MetricError::ComparisonMetricUsedForSingle(MetricType::BCubedRecall))
    );
}

#[test]
fn comparison_types_compare_by_value() {
    assert_eq!(ComparisonType::PointPoint { same_collection: true }, ComparisonType::PointPoint { same_collection: true });
    assert_ne!(ComparisonType::PointPoint { same_collection: true }, ComparisonType::PointPoint { same_collection: false });
    assert_ne!(ComparisonType::Single, ComparisonType::SweepSweep { same_collection: false });
}

#[test]
fn contingency_table_holds_counts() {
    let t = ContingencyTable { true_positives: 1, false_positives: 2, false_negatives: 3, true_negatives: 4 };
    let c = t;
    assert_eq!(c.true_positives + c.false_positives + c.false_negatives + c.true_negatives, 10);
}


use roaring::RoaringBitmap;
use starlings_core::hierarchy::partition::PartitionLevel;
use starlings_core::metrics::algorithms::record::{RecordAlgorithm, RecordState};

fn partition(entities: &[&[u32]]) -> PartitionLevel {
    let mut bitmaps = Vec::new();
    for e in entities {
        let mut b = RoaringBitmap::new();
        for &r in e.iter() {
            b.insert(r);
        }
        bitmaps.push(b);
    }
    PartitionLevel::new(0, bitmaps)
}

#[test]
fn record_state_counts_shared_records() {
    let p1 = partition(&[&[0, 1, 2, 3], &[4, 5]]);
    let p2 = partition(&[&[0, 1, 2, 4, 5], &[3]]);
    let state = RecordState::from_partitions(&p1, &p2, 6, 1);
    let mut cells = state.nonzero_cells.clone();
    cells.sort();
    assert_eq!(cells, vec![((0, 0), 3), ((0, 1), 1), ((1, 0), 2)]);
    assert_eq!(state.row_marginals, vec![(0, 4), (1, 2)]);
    assert_eq!(state.col_marginals, vec![(0, 5), (1, 1)]);
    assert_eq!(state.total_records, 6);
    assert_eq!(state.true_positives, 4);
    assert_eq!(state.false_positives, 3);
    assert_eq!(state.false_negatives, 6);
    assert_eq!(state.true_negatives, 2);
}

#[test]
fn record_state_of_identical_partitions() {
    let p = partition(&[&[0, 2], &[1, 3, 4]]);
    let state = RecordState::from_partitions(&p, &p, 5, 0);
    assert_eq!(state.true_positives, 4);
    assert_eq!(state.false_positives, 0);
    assert_eq!(state.false_negatives, 0);
    assert_eq!(state.true_negatives, 6);
    assert_eq!(state.nonzero_cells, vec![((0, 0), 2), ((1, 1), 3)]);
}

#[test]
fn record_state_ignores_records_past_the_count() {
    let p1 = partition(&[&[0, 1, 9]]);
    let p2 = partition(&[&[0, 1], &[9]]);
    let state = RecordState::from_partitions(&p1, &p2, 5, 0);
    assert_eq!(state.nonzero_cells, vec![((0, 0), 2)]);
    assert_eq!(state.total_records, 3);
}

#[test]
fn empty_record_state() {
    let mut state = RecordState::new();
    assert_eq!(state.total_records, 0);
    state.compute_and_cache_pair_counts();
    assert_eq!(state.true_positives + state.false_positives + state.false_negatives + state.true_negatives, 0);
}

#[test]
fn checked_pair_counts_agree_when_they_fit() {
    let overlaps = vec![((0, 0), 3), ((1, 1), 2)];
    let rows = vec![(0, 4), (1, 2)];
    let cols = vec![(0, 3), (1, 3)];
    let checked = PairCounts::try_from_contingency_data(&overlaps, &rows, &cols, 6).unwrap();
    let plain = PairCounts::from_contingency_data(&overlaps, &rows, &cols, 6);
    assert_eq!(checked.true_positives, plain.true_positives);
    assert_eq!(checked.false_positives, plain.false_positives);
    assert_eq!(checked.false_negatives, plain.false_negatives);
    assert_eq!(checked.true_negatives, plain.true_negatives);
    assert_eq!(checked.true_positives, 4);
    assert_eq!(checked.false_positives, 3);
    assert_eq!(checked.false_negatives, 2);
    assert_eq!(checked.true_negatives, 6);
}

#[test]
fn checked_pair_counts_refuse_an_overflow() {
    let overlaps = vec![((0, 0), u32::MAX), ((1, 1), u32::MAX), ((2, 2), u32::MAX)];
    assert!(PairCounts::try_from_contingency_data(&overlaps, &[], &[], 0).is_none());
}

#[test]
fn checked_record_state_matches_the_plain_one() {
    let p1 = partition(&[&[0, 1, 2], &[3]]);
    let p2 = partition(&[&[0, 1], &[2, 3]]);
    let checked = RecordState::try_from_partitions(&p1, &p2, 4, 0).unwrap();
    let plain = RecordState::from_partitions(&p1, &p2, 4, 0);
    assert_eq!(checked.nonzero_cells, plain.nonzero_cells);
    assert_eq!(checked.true_positives, plain.true_positives);
    assert_eq!(checked.false_positives, plain.false_positives);
    assert_eq!(checked.false_negatives, plain.false_negatives);
    assert_eq!(checked.true_negatives, plain.true_negatives);
}

#[test]
fn sweep_tables_match_tables_built_one_by_one() {
    let sweep1 = vec![partition(&[&[0], &[1], &[2], &[3]]), partition(&[&[0, 1], &[2, 3]])];
    let sweep2 = vec![partition(&[&[0, 2], &[1, 3]]), partition(&[&[0, 1, 2, 3]]), partition(&[&[3]])];
    let mut algorithm = RecordAlgorithm::new();
    let tables = algorithm.build_all_sweep_tables(&sweep1, &sweep2, 4, 0).unwrap();
    assert_eq!(tables.len(), 2);
    for (i, row) in tables.iter().enumerate() {
        assert_eq!(row.len(), 3);
        for (j, table) in row.iter().enumerate() {
            let single = RecordState::from_partitions(&sweep1[i], &sweep2[j], 4, 0);
            assert_eq!(table.nonzero_cells, single.nonzero_cells);
            assert_eq!(table.row_marginals, single.row_marginals);
            assert_eq!(table.col_marginals, single.col_marginals);
            assert_eq!(table.true_positives, single.true_positives);
            assert_eq!(table.false_positives, single.false_positives);
            assert_eq!(table.false_negatives, single.false_negatives);
            assert_eq!(table.true_negatives, single.true_negatives);
        }
    }
    assert_eq!(tables[1][1].true_positives, 2);
    assert_eq!(tables[1][1].false_negatives, 4);
    assert_eq!(tables[1][0].true_positives, 0);
}

#[test]
fn comparison_types_of_partition_counts() {
    assert_eq!(comparison_type_of(1, None, true), ComparisonType::Single);
    assert_eq!(comparison_type_of(1, Some(1), false), ComparisonType::PointPoint { same_collection: false });
    assert_eq!(comparison_type_of(4, Some(1), true), ComparisonType::SweepPoint { same_collection: true });
    assert_eq!(comparison_type_of(4, None, false), ComparisonType::SweepPoint { same_collection: false });
    assert_eq!(comparison_type_of(1, Some(3), true), ComparisonType::SweepSweep { same_collection: true });
    assert_eq!(comparison_type_of(2, Some(3), false), ComparisonType::SweepSweep { same_collection: false });
}
