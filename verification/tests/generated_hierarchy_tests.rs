use fastrand::Rng;
use starlings_core::hierarchy::builder::PartitionHierarchy;

// Synthetic entity-resolution edges whose hierarchy ends in a known number
// of entities, and the hierarchy checks made on them.

/// A merge planned between two groups of records, with its threshold.
#[derive(Clone)]
struct PlannedMerge {
    component1: Vec<u32>,
    component2: Vec<u32>,
    threshold: f64,
}

/// Weighted edges over `n` records (one fewer when `n` is odd) whose
/// hierarchy ends in exactly half as many entities at threshold 0.0: the
/// final clusters are laid out first, each is merged pair by pair at planned
/// thresholds, and noise edges are added inside clusters only. With
/// `num_thresholds` the weights are snapped to that many evenly spaced
/// values; without it they are jittered slightly.
fn generate_entity_resolution_edges(n: usize, num_thresholds: Option<usize>) -> Vec<(u32, u32, f64)> {
    let mut rng = Rng::new();
    let effective_n = if n % 2 == 0 { n } else { n - 1 };
    let num_final_clusters = effective_n / 2;

    let final_clusters = design_final_clusters(effective_n, num_final_clusters, &mut rng);
    let merge_plan = plan_merge_history(&final_clusters, &mut rng);
    let mut edges = generate_structural_edges(&merge_plan);

    let target_total_edges = n * 5;
    let noise_count = target_total_edges.saturating_sub(edges.len());
    edges.extend(generate_noise_edges(&final_clusters, noise_count, &mut rng));

    match num_thresholds {
        None => apply_pgo_jitter(&mut edges, &mut rng),
        Some(count) => snap_to_discrete_thresholds(&mut edges, count),
    }

    edges.sort_by(|a, b| (a.0, a.1).cmp(&(b.0, b.1)));
    edges.dedup_by(|a, b| a.0 == b.0 && a.1 == b.1);
    if edges.len() <= 100_000 {
        rng.shuffle(&mut edges);
    }
    edges
}

/// The final clusters: `num_clusters` runs of consecutive record ids, each
/// of at least two records, the leftover records spread at random.
fn design_final_clusters(effective_n: usize, num_clusters: usize, rng: &mut Rng) -> Vec<Vec<u32>> {
    let mut cluster_sizes = vec![2; num_clusters];
    let mut remaining = effective_n - num_clusters * 2;
    for cluster_size in cluster_sizes.iter_mut() {
        if remaining == 0 {
            break;
        }
        if rng.f64() < 0.3 {
            let add = remaining.clamp(1, 2);
            remaining -= add;
            *cluster_size += add;
        }
    }
    while remaining > 0 {
        let cluster_idx = rng.usize(0..num_clusters);
        cluster_sizes[cluster_idx] += 1;
        remaining -= 1;
    }

    let mut clusters = Vec::new();
    let mut entity_id = 0u32;
    for &size in &cluster_sizes {
        let mut cluster = Vec::with_capacity(size);
        for _ in 0..size {
            cluster.push(entity_id);
            entity_id += 1;
        }
        clusters.push(cluster);
    }
    clusters
}

/// The merges that build every cluster, with their thresholds.
fn plan_merge_history(final_clusters: &[Vec<u32>], rng: &mut Rng) -> Vec<PlannedMerge> {
    let mut merge_events = Vec::new();
    for cluster in final_clusters {
        if cluster.len() > 1 {
            merge_events.extend(plan_cluster_merges(cluster, rng));
        }
    }
    assign_merge_thresholds(&mut merge_events, rng);
    merge_events
}

/// Merges of random pairs of the cluster's parts until one part is left.
fn plan_cluster_merges(cluster: &[u32], rng: &mut Rng) -> Vec<PlannedMerge> {
    let mut merges = Vec::new();
    if cluster.len() <= 1 {
        return merges;
    }
    let mut components: Vec<Vec<u32>> = cluster.iter().map(|&id| vec![id]).collect();
    while components.len() > 1 {
        let idx1 = rng.usize(0..components.len());
        let mut idx2 = rng.usize(0..components.len());
        while idx2 == idx1 {
            idx2 = rng.usize(0..components.len());
        }
        let (comp1, comp2) = if idx1 < idx2 {
            let comp2 = components.remove(idx2);
            let comp1 = components.remove(idx1);
            (comp1, comp2)
        } else {
            let comp1 = components.remove(idx1);
            let comp2 = components.remove(idx2);
            (comp1, comp2)
        };
        merges.push(PlannedMerge { component1: comp1.clone(), component2: comp2.clone(), threshold: 0.0 });
        let mut merged = comp1;
        merged.extend(comp2);
        components.push(merged);
    }
    merges
}

/// Thresholds for the planned merges: the first half spread over
/// [0.85, 0.99], the rest over [0.05, 0.85] with more of them low, each
/// with a little jitter.
fn assign_merge_thresholds(merge_events: &mut [PlannedMerge], rng: &mut Rng) {
    let total_events = merge_events.len();
    for (i, merge_event) in merge_events.iter_mut().enumerate() {
        let progress = (i as f64) / (total_events as f64);
        merge_event.threshold = if progress < 0.5 {
            0.85 + (progress / 0.5) * 0.14
        } else {
            let adjusted_progress = (progress - 0.5) / 0.5;
            0.05 + adjusted_progress.powf(1.5) * 0.80
        };
        merge_event.threshold += (rng.f64() - 0.5) * 0.02;
        merge_event.threshold = merge_event.threshold.clamp(0.05, 0.99);
    }
}

/// One edge per planned merge, between the first records of its two parts.
fn generate_structural_edges(merge_plan: &[PlannedMerge]) -> Vec<(u32, u32, f64)> {
    merge_plan.iter().map(|m| (m.component1[0], m.component2[0], m.threshold)).collect()
}

/// Up to `target_count` edges inside clusters, with weights in [0.1, 0.9]:
/// sampled pairs for large targets, and otherwise three to five distinct
/// weights for every pair.
fn generate_noise_edges(final_clusters: &[Vec<u32>], target_count: usize, rng: &mut Rng) -> Vec<(u32, u32, f64)> {
    let mut edges = Vec::with_capacity(target_count);
    if target_count > 1_000_000 {
        let mut generated = 0;
        for cluster in final_clusters {
            if cluster.len() < 2 || generated >= target_count {
                break;
            }
            let cluster_edge_budget = (target_count - generated).min(cluster.len() * cluster.len());
            for _ in 0..cluster_edge_budget {
                if generated >= target_count {
                    break;
                }
                let i = rng.usize(0..cluster.len());
                let mut j = rng.usize(0..cluster.len());
                if i == j {
                    j = (j + 1) % cluster.len();
                }
                let (e1, e2) = if cluster[i] < cluster[j] { (cluster[i], cluster[j]) } else { (cluster[j], cluster[i]) };
                edges.push((e1, e2, 0.1 + rng.f64() * 0.8));
                generated += 1;
            }
        }
    } else {
        let mut edge_set = std::collections::HashSet::new();
        for cluster in final_clusters {
            if cluster.len() < 2 {
                continue;
            }
            for i in 0..cluster.len() {
                for j in (i + 1)..cluster.len() {
                    let (e1, e2) =
                        if cluster[i] < cluster[j] { (cluster[i], cluster[j]) } else { (cluster[j], cluster[i]) };
                    let num_edges_for_pair = 3 + rng.usize(0..3);
                    for _ in 0..num_edges_for_pair {
                        if edges.len() >= target_count {
                            break;
                        }
                        let threshold = 0.1 + rng.f64() * 0.8;
                        let edge_key = (e1, e2, (threshold * 1000.0).round() as i32);
                        if edge_set.insert(edge_key) {
                            edges.push((e1, e2, threshold));
                        }
                    }
                }
            }
        }
    }
    edges
}

/// Uniform jitter of at most 0.001 on every weight, kept within [0, 1].
fn apply_pgo_jitter(edges: &mut [(u32, u32, f64)], rng: &mut Rng) {
    for (_, _, threshold) in edges.iter_mut() {
        let jitter = (rng.f64() - 0.5) * 0.002;
        *threshold = (*threshold + jitter).clamp(0.0, 1.0);
    }
}

/// Every weight snapped to the nearest of `num_thresholds` evenly spaced
/// values from 0.0, the top one taken as 0.999 so that no edge sits at 1.0.
fn snap_to_discrete_thresholds(edges: &mut [(u32, u32, f64)], num_thresholds: usize) {
    for (_, _, threshold) in edges.iter_mut() {
        let discrete_step = 1.0 / (num_thresholds - 1) as f64;
        let closest_index = (*threshold / discrete_step).round() as usize;
        let clamped_index = closest_index.min(num_thresholds - 1);
        *threshold = if clamped_index == num_thresholds - 1 { 0.999 } else { clamped_index as f64 * discrete_step };
    }
}

/// Weights in millionths, rounded as six decimal places are.
fn in_millionths(edges: Vec<(u32, u32, f64)>) -> Vec<(u32, u32, i64)> {
    edges.into_iter().map(|(i, j, w)| (i, j, (w * 1_000_000.0).round() as i64)).collect()
}

#[test]
fn test_entity_resolution_hierarchy_validation() {
    let n = 1000;
    let edges = generate_entity_resolution_edges(n, None);
    let hierarchy = PartitionHierarchy::from_edges(in_millionths(edges), n);

    let entities_at_1_0 = hierarchy.at_threshold(1_000_000).entities().len();
    let entities_at_0_0 = hierarchy.at_threshold(0).entities().len();
    assert_eq!(entities_at_1_0, n, "Should have {} entities at threshold 1.0", n);
    assert_eq!(entities_at_0_0, n / 2, "Should have {} entities at threshold 0.0", n / 2);

    let test_thresholds = [
        1_000_000, 900_000, 800_000, 700_000, 600_000, 500_000, 400_000, 300_000, 200_000, 100_000, 0,
    ];
    let entity_counts: Vec<usize> =
        test_thresholds.iter().map(|&t| hierarchy.at_threshold(t).entities().len()).collect();
    for i in 1..entity_counts.len() {
        assert!(
            entity_counts[i - 1] >= entity_counts[i],
            "Entity count should decrease monotonically: {} >= {} at indices {}, {}",
            entity_counts[i - 1],
            entity_counts[i],
            i - 1,
            i
        );
    }
}

#[test]
fn entities_nest_as_the_threshold_falls() {
    let n = 200;
    let edges = generate_entity_resolution_edges(n, None);
    let hierarchy = PartitionHierarchy::from_edges(in_millionths(edges), n);
    let thresholds = [1_000_000, 900_000, 700_000, 500_000, 300_000, 0];
    for pair in thresholds.windows(2) {
        let fine = hierarchy.at_threshold(pair[0]);
        let coarse = hierarchy.at_threshold(pair[1]);
        for entity in fine.entities() {
            let first = entity.min().unwrap();
            let holder = coarse.entities().iter().find(|e| e.contains(first)).unwrap();
            assert!(entity.is_subset(holder));
        }
    }
}

#[test]
fn event_count_is_records_less_final_entities() {
    let n = 300;
    let edges = generate_entity_resolution_edges(n, None);
    let weights: Vec<i64> = in_millionths(edges.clone()).iter().map(|e| e.2).collect();
    let hierarchy = PartitionHierarchy::from_edges(in_millionths(edges), n);
    let final_entities = hierarchy.at_threshold(0).entities().len();
    assert_eq!(hierarchy.merge_events_count(), n - final_entities);
    for event in hierarchy.get_merge_events() {
        assert!(weights.contains(&event.threshold));
        assert!(!event.child_nodes.contains(event.parent_id));
    }
}
