use roaring::RoaringBitmap;
use starlings_core::hierarchy::builder::PartitionHierarchy;
use starlings_core::hierarchy::merge_event::MergeEvent;
use starlings_core::hierarchy::partition::PartitionLevel;
use starlings_core::metrics::algorithms::delta::DeltaState;
use starlings_core::metrics::algorithms::delta_update::SweepStep;
use std::collections::HashMap;

fn partition(entities: &[&[u32]]) -> PartitionLevel {
    let mut bitmaps = Vec::new();
    for e in entities {
        let mut b = RoaringBitmap::new();
        for &r in e.iter() {
            b.insert(r);
        }
        bitmaps.push(b);
    }
    PartitionLevel::new(0, bitmaps)
}

fn map(entries: &[(u32, u32)]) -> HashMap<u32, u32> {
    entries.iter().copied().collect()
}

#[test]
fn delta_state_of_two_partitions() {
    let p1 = partition(&[&[0, 1, 2], &[3, 4]]);
    let p2 = partition(&[&[0, 1], &[2, 3, 4]]);
    let state = DeltaState::build_initial_state(&p1, Some(&p2));
    assert_eq!(state.row_marginals, map(&[(0, 3), (3, 2)]));
    assert_eq!(state.col_marginals, map(&[(0, 2), (2, 3)]));
    assert_eq!(state.total_records, 5);
    assert_eq!(state.contingency_table.len(), 2);
    assert_eq!(state.contingency_table[&0], map(&[(0, 2), (2, 1)]));
    assert_eq!(state.contingency_table[&3], map(&[(2, 2)]));
}

#[test]
fn delta_state_of_one_partition() {
    let p1 = partition(&[&[4], &[1, 2]]);
    let state = DeltaState::build_initial_state(&p1, None);
    assert_eq!(state.row_marginals, map(&[(4, 1), (1, 2)]));
    assert!(state.col_marginals.is_empty());
    assert!(state.contingency_table.is_empty());
    assert_eq!(state.total_records, 3);
}

#[test]
fn merge_adds_sizes_and_rows() {
    let p1 = partition(&[&[0, 1, 2], &[3, 4]]);
    let p2 = partition(&[&[0, 1], &[2, 3, 4]]);
    let mut state = DeltaState::build_initial_state(&p1, Some(&p2));
    state.apply_merge(0, 3, true);
    assert_eq!(state.row_marginals, map(&[(0, 5)]));
    assert_eq!(state.contingency_table.len(), 1);
    assert_eq!(state.contingency_table[&0], map(&[(0, 2), (2, 3)]));
}

#[test]
fn merge_without_table_leaves_it() {
    let p1 = partition(&[&[0], &[1]]);
    let mut state = DeltaState::build_initial_state(&p1, None);
    state.apply_merge(0, 1, false);
    assert_eq!(state.row_marginals, map(&[(0, 2)]));
    assert!(state.contingency_table.is_empty());
}

#[test]
fn merges_of_events_match_a_rebuild() {
    let edges = vec![(0, 1, 900_000), (2, 3, 800_000), (1, 3, 700_000), (4, 5, 600_000)];
    let hierarchy = PartitionHierarchy::from_edges(edges, 6);
    let reference = partition(&[&[0, 2, 4], &[1, 3, 5]]);
    let high = hierarchy.at_threshold(850_000);
    let low = hierarchy.at_threshold(650_000);
    let mut state = DeltaState::build_initial_state(&high, Some(&reference));
    let events: Vec<MergeEvent> = hierarchy.get_merge_events_between(850_000, 650_000).unwrap();
    state.incremental_update_with_merges(&events, true);
    let rebuilt = DeltaState::build_initial_state(&low, Some(&reference));
    assert_eq!(state.row_marginals, rebuilt.row_marginals);
    assert_eq!(state.contingency_table, rebuilt.contingency_table);
    assert_eq!(state.total_records, rebuilt.total_records);
}

#[test]
fn single_merge_matches_rebuild_of_merged_partition() {
    let p1 = partition(&[&[5, 6], &[0, 2], &[1, 3, 4]]);
    let p2 = partition(&[&[0, 1, 5], &[2, 3], &[4, 6]]);
    let mut state = DeltaState::build_initial_state(&p1, Some(&p2));
    state.apply_merge(0, 1, true);
    let merged = partition(&[&[5, 6], &[0, 1, 2, 3, 4]]);
    let rebuilt = DeltaState::build_initial_state(&merged, Some(&p2));
    assert_eq!(state.row_marginals, rebuilt.row_marginals);
    assert_eq!(state.contingency_table, rebuilt.contingency_table);
    assert_eq!(state.row_marginals, map(&[(5, 2), (0, 5)]));
    assert_eq!(state.contingency_table[&0], map(&[(0, 2), (2, 2), (4, 1)]));
}

#[test]
fn checked_merges_apply_when_they_fit() {
    let edges = vec![(0, 1, 900_000), (2, 3, 800_000), (1, 3, 700_000)];
    let hierarchy = PartitionHierarchy::from_edges(edges, 4);
    let reference = partition(&[&[0, 2], &[1, 3]]);
    let high = hierarchy.at_threshold(950_000);
    let low = hierarchy.at_threshold(650_000);
    let mut state = DeltaState::build_initial_state(&high, Some(&reference));
    let events: Vec<MergeEvent> = hierarchy.get_merge_events_between(950_000, 650_000).unwrap();
    assert!(state.try_incremental_update_with_merges(&events, true));
    let rebuilt = DeltaState::build_initial_state(&low, Some(&reference));
    assert_eq!(state.row_marginals, rebuilt.row_marginals);
    assert_eq!(state.contingency_table, rebuilt.contingency_table);
}

#[test]
fn checked_merges_stop_before_an_overflow() {
    let mut state = DeltaState {
        contingency_table: HashMap::new(),
        row_marginals: map(&[(0, u32::MAX), (5, 1)]),
        col_marginals: HashMap::new(),
        total_records: 0,
    };
    let mut child = RoaringBitmap::new();
    child.insert(5);
    let events = vec![MergeEvent::new(500_000, 0, child)];
    assert!(!state.try_incremental_update_with_merges(&events, false));
    assert_eq!(state.row_marginals, map(&[(0, u32::MAX), (5, 1)]));
}

#[test]
fn one_step_update_matches_a_rebuild() {
    let edges = vec![(0, 1, 900_000), (2, 3, 800_000), (1, 3, 700_000), (4, 5, 600_000)];
    let hierarchy = PartitionHierarchy::from_edges(edges, 6);
    let reference = partition(&[&[0, 2, 4], &[1, 3, 5]]);
    let high = hierarchy.at_threshold(850_000);
    let low = hierarchy.at_threshold(550_000);
    let mut state = DeltaState::build_initial_state(&high, Some(&reference));
    state.incremental_update(&low, Some(&reference));
    let rebuilt = DeltaState::build_initial_state(&low, Some(&reference));
    assert_eq!(state.row_marginals, rebuilt.row_marginals);
    assert_eq!(state.contingency_table, rebuilt.contingency_table);
    assert_eq!(state.total_records, rebuilt.total_records);
    assert_eq!(state.row_marginals, map(&[(0, 4), (4, 2)]));
}

#[test]
fn one_step_update_keeps_rows_of_unmerged_entities() {
    let old = partition(&[&[0, 1], &[2], &[3]]);
    let reference = partition(&[&[0, 2], &[1, 3]]);
    let mut state = DeltaState::build_initial_state(&old, Some(&reference));
    let new = partition(&[&[0, 1], &[2, 3], &[7]]);
    state.incremental_update(&new, Some(&reference));
    assert_eq!(state.row_marginals, map(&[(0, 2), (2, 2), (7, 1)]));
    assert_eq!(state.contingency_table.len(), 2);
    assert_eq!(state.contingency_table[&0], map(&[(0, 1), (1, 1)]));
    assert_eq!(state.contingency_table[&2], map(&[(0, 1), (1, 1)]));
    assert_eq!(state.total_records, 5);
}

#[test]
fn one_step_update_refuses_an_overflow() {
    let mut state = DeltaState {
        contingency_table: HashMap::new(),
        row_marginals: map(&[(0, u32::MAX), (5, 1)]),
        col_marginals: HashMap::new(),
        total_records: 0,
    };
    let new = partition(&[&[0, 5]]);
    assert!(!state.try_incremental_update(&new, None));
    assert_eq!(state.row_marginals, map(&[(0, u32::MAX), (5, 1)]));
}

#[test]
fn sweep_steps_follow_the_threshold_and_the_fixed_partition() {
    let p1 = partition(&[&[0, 1], &[2]]);
    let p2 = partition(&[&[0, 2], &[1]]);
    let other = partition(&[&[0, 1, 2]]);
    let state = DeltaState::build_initial_state(&p1, Some(&p2));
    assert_eq!(state.sweep_step(800_000, 750_000, 100_000, Some(&p2)), SweepStep::Update);
    assert_eq!(state.sweep_step(800_000, 800_000, 100_000, Some(&p2)), SweepStep::Update);
    assert_eq!(state.sweep_step(800_000, 650_000, 100_000, Some(&p2)), SweepStep::Rebuild);
    assert_eq!(state.sweep_step(800_000, 850_000, 100_000, Some(&p2)), SweepStep::Rising);
    assert_eq!(state.sweep_step(800_000, 950_000, 100_000, Some(&p2)), SweepStep::Rebuild);
    assert_eq!(state.sweep_step(800_000, 750_000, 100_000, Some(&other)), SweepStep::Rebuild);
    assert_eq!(state.sweep_step(800_000, 750_000, 100_000, None), SweepStep::Rebuild);
    let single = DeltaState::build_initial_state(&p1, None);
    assert_eq!(single.sweep_step(800_000, 750_000, 100_000, None), SweepStep::Update);
}

fn pairs(n: u32) -> f64 {
    let n = n as f64;
    n * (n - 1.0) / 2.0
}

/// Precision, recall and F1 of the pair counts a state holds.
fn pair_metrics(state: &DeltaState) -> [f64; 3] {
    let tp: f64 = state.contingency_table.values().flat_map(|row| row.values()).map(|&c| pairs(c)).sum();
    let predicted: f64 = state.row_marginals.values().map(|&c| pairs(c)).sum();
    let actual: f64 = state.col_marginals.values().map(|&c| pairs(c)).sum();
    let precision = if predicted > 0.0 { tp / predicted } else { 0.0 };
    let recall = if actual > 0.0 { tp / actual } else { 0.0 };
    let f1 = if precision + recall > 0.0 { 2.0 * precision * recall / (precision + recall) } else { 0.0 };
    [precision, recall, f1]
}

#[test]
fn test_incremental_correctness() {
    let edges = vec![
        (0, 1, 500_000),
        (2, 3, 500_000),
        (4, 5, 500_000),
        (1, 2, 700_000),
        (6, 7, 700_000),
        (8, 9, 700_000),
        (3, 4, 900_000),
        (7, 8, 900_000),
        (10, 11, 900_000),
    ];
    let hierarchy = PartitionHierarchy::from_edges(edges.clone(), 20);
    let hierarchy2 = PartitionHierarchy::from_edges(vec![(0, 1, 600_000), (2, 3, 800_000), (4, 5, 900_000)], 20);
    let thresholds = [950_000, 900_000, 800_000, 700_000, 600_000, 500_000, 400_000];
    let partitions1: Vec<std::sync::Arc<PartitionLevel>> = thresholds.iter().map(|&t| hierarchy.at_threshold(t)).collect();
    let partition2 = hierarchy2.at_threshold(700_000);

    let mut state = DeltaState::build_initial_state(&partitions1[0], Some(&partition2));
    let mut incremental_results = vec![pair_metrics(&state)];
    for p1 in &partitions1[1..] {
        state.incremental_update(&**p1, Some(&partition2));
        incremental_results.push(pair_metrics(&state));
    }
    let rebuild_results: Vec<[f64; 3]> = partitions1
        .iter()
        .map(|p1| pair_metrics(&DeltaState::build_initial_state(p1, Some(&partition2))))
        .collect();

    assert_eq!(incremental_results.len(), rebuild_results.len());
    for (i, (inc, reb)) in incremental_results.iter().zip(rebuild_results.iter()).enumerate() {
        for m in 0..3 {
            assert!(
                (inc[m] - reb[m]).abs() < 1e-10,
                "Mismatch at threshold {} for metric {}: incremental={}, rebuild={}",
                thresholds[i],
                m,
                inc[m],
                reb[m]
            );
        }
    }
    for (_, _, threshold) in &edges {
        assert!(*threshold >= 0 && *threshold <= 1_000_000);
    }
}
