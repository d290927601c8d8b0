use std::collections::HashSet;

use cluster_resolution::data::{CellSample, Cluster, ClusterStabilityData, ResolutionData};
use cluster_resolution::error::StabilityError;
use cluster_resolution::natural::Natural;
use cluster_resolution::ratio::Ratio;

fn number_as_float(number: &Natural) -> f64 {
    number
        .limbs()
        .iter()
        .rev()
        .fold(0.0, |value, limb| value * 4294967296.0 + (*limb as f64))
}

fn fraction_as_float(ratio: &Ratio) -> f64 {
    number_as_float(ratio.numerator()) / number_as_float(ratio.denominator())
}

/// An integer that orders resolutions as their values do.
fn key_of(resolution: f64) -> u64 {
    let bits = resolution.to_bits();
    if bits >> 63 == 1 {
        !bits
    } else {
        bits | (1u64 << 63)
    }
}

fn cells_of(clusters: &[usize]) -> Vec<CellSample> {
    clusters
        .iter()
        .enumerate()
        .map(|(index, cluster)| CellSample::new(index + 1, *cluster))
        .collect()
}

#[test]
fn test_group_by_cluster() {
    let clusters = [0usize, 1, 2, 4];
    let cells_per_cluster: usize = 10;
    let all_cells: Vec<CellSample> = clusters
        .iter()
        .flat_map(|cluster| {
            ((cluster * cells_per_cluster)..((cluster + 1) * cells_per_cluster))
                .map(|cell_id| CellSample::new(cell_id, *cluster))
        })
        .collect();
    let mut grouped_cells = ResolutionData::group_by_cluster(&all_cells);
    // Cell clusters need to be sorted for the test, so that the order of the vector matches the order of clusters.
    grouped_cells.sort_by(|a, b| {
        a.cells()
            .iter()
            .sum::<usize>()
            .cmp(&b.cells().iter().sum::<usize>())
    });
    assert_eq!(grouped_cells.len(), clusters.len());
    for (i, cell_cluster) in grouped_cells.iter().enumerate() {
        let cells = cell_cluster.cells();
        assert_eq!(cells.len(), cells_per_cluster as usize);
        assert!(cells
            .iter()
            .all(|cell| { *cell < (clusters[i] + 1) * cells_per_cluster }))
    }
}

#[test]
fn test_group_by_cluster_empty() {
    let all_cells_empty: Vec<CellSample> = Vec::new();
    let grouped_cells = ResolutionData::group_by_cluster(&all_cells_empty);
    assert!(grouped_cells.is_empty());
}

#[test]
fn test_resolution_data_new() {
    let clusters = [0usize, 1, 2, 4];
    let cells_per_cluster: usize = 10;
    let all_cells: Vec<CellSample> = clusters
        .iter()
        .flat_map(|cluster| {
            ((cluster * cells_per_cluster)..((cluster + 1) * cells_per_cluster))
                .map(|cell_id| CellSample::new(cell_id, *cluster))
        })
        .collect();
    let resolution = 0.42;
    let data = ResolutionData::new(key_of(resolution), &all_cells);
    assert_eq!(data.resolution(), key_of(resolution));
    assert_eq!(data.clusters(), clusters.len());
    let mut grouped_cells = data.clustered_cells().clone();
    // Cell clusters need to be sorted for the test, so that the order of the vector matches the order of clusters.
    grouped_cells.sort_by(|a, b| {
        a.cells()
            .iter()
            .sum::<usize>()
            .cmp(&b.cells().iter().sum::<usize>())
    });
    assert_eq!(grouped_cells.len(), clusters.len());
    for (i, cell_cluster) in grouped_cells.iter().enumerate() {
        let cells = cell_cluster.cells();
        assert_eq!(cells.len(), cells_per_cluster as usize);
        assert!(cells
            .iter()
            .all(|cell| { *cell < (clusters[i] + 1) * cells_per_cluster }))
    }
}

#[test]
fn test_cluster_relative_cluster_size() {
    let cells = HashSet::from_iter([0usize, 1, 2, 4]);
    let total_cell_count = 10;
    let cluster_id = 42;
    let cluster = Cluster::new(cluster_id, cells.clone(), total_cell_count);
    assert_eq!(cluster.cluster_id(), cluster_id);
    assert_eq!(cluster.total_cell_count(), total_cell_count);
    assert_eq!(cells.len(), cluster.cells().len());
    assert_eq!(cells.len(), cells.intersection(cluster.cells()).count());
    assert!((0.4 - fraction_as_float(&cluster.relative_cluster_size())).abs() <= 4.0 * f64::EPSILON);
}

#[test]
fn test_cluster_best_parent() {
    let parent_clusters: Vec<Cluster> = [
        vec![8, 9, 10, 11, 12, 13],
        vec![0usize, 1, 4],
        vec![2, 5, 6, 7],
    ]
    .into_iter()
    .enumerate()
    .map(|(i, cells)| Cluster::new(i, HashSet::from_iter(cells), 13))
    .collect();
    let empty_parents: Vec<Cluster> = Vec::new();
    let cells = HashSet::from_iter([0usize, 1, 2, 4]);
    let total_cell_count = 10;
    let cluster_id = 42;
    let cluster = Cluster::new(cluster_id, cells.clone(), total_cell_count);

    assert_eq!(cluster.best_parent(&parent_clusters), Ok(1));
    assert!(cluster.best_parent(&empty_parents).is_err());
}

#[test]
fn best_parent_holds_the_largest_share() {
    let coarse: Vec<Cluster> = [vec![0usize, 3, 6], vec![1, 4, 7], vec![2, 5, 8]]
        .into_iter()
        .enumerate()
        .map(|(i, cells)| Cluster::new(i + 20, HashSet::from_iter(cells), 9))
        .collect();
    let fine = Cluster::new(5, HashSet::from_iter([0usize, 1, 4, 7]), 9);
    assert_eq!(fine.best_parent_position(&coarse), Ok(1));
    assert_eq!(fine.best_parent(&coarse), Ok(21));
}

#[test]
fn best_parent_is_the_first_of_equal_shares() {
    let coarse: Vec<Cluster> = [vec![9usize], vec![0, 1], vec![2, 3], vec![4]]
        .into_iter()
        .enumerate()
        .map(|(i, cells)| Cluster::new(i, HashSet::from_iter(cells), 6))
        .collect();
    let fine = Cluster::new(0, HashSet::from_iter([0usize, 1, 2, 3, 4]), 6);
    assert_eq!(fine.best_parent_position(&coarse), Ok(1));
    assert_eq!(fine.best_parent(&coarse), Ok(1));
}

#[test]
fn best_parent_fails_without_cells_or_without_parents() {
    let coarse = vec![Cluster::new(0, HashSet::from_iter([0usize, 1]), 2)];
    let none: Vec<Cluster> = Vec::new();
    let empty = Cluster::new(1, HashSet::new(), 2);
    let full = Cluster::new(1, HashSet::from_iter([0usize]), 2);
    assert_eq!(empty.best_parent(&coarse), Err(StabilityError::EmptyChildCluster));
    assert_eq!(empty.best_parent(&none), Err(StabilityError::EmptyChildCluster));
    assert_eq!(full.best_parent(&none), Err(StabilityError::NoMatchingParent));
    assert_eq!(full.best_parent_position(&none), Err(StabilityError::NoMatchingParent));
    assert_eq!(full.best_parent(&coarse), Ok(0));
}

#[test]
fn clusters_come_by_ascending_label_with_their_cells() {
    let cells = vec![
        CellSample::new(10, 7),
        CellSample::new(11, 3),
        CellSample::new(12, 7),
        CellSample::new(13, 5),
        CellSample::new(14, 3),
    ];
    let clusters = ResolutionData::group_by_cluster(&cells);
    let labels: Vec<usize> = clusters.iter().map(|cluster| cluster.cluster_id()).collect();
    assert_eq!(labels, vec![3, 5, 7]);
    assert_eq!(clusters[0].cells(), &HashSet::from_iter([11usize, 14]));
    assert_eq!(clusters[1].cells(), &HashSet::from_iter([13usize]));
    assert_eq!(clusters[2].cells(), &HashSet::from_iter([10usize, 12]));
    assert!(clusters.iter().all(|cluster| cluster.total_cell_count() == 5));
    assert_eq!(clusters[2].absolute_cluster_size(), 2);
    let copy = clusters[2].clone();
    assert_eq!(copy.cells(), clusters[2].cells());
    assert_eq!(copy.cluster_id(), 7);
}

#[test]
fn stabilities_are_taken_for_the_clusters_of_the_finer_clustering() {
    let coarse = ResolutionData::new(1, &cells_of(&[0, 0, 0, 1, 1, 1]));
    let fine = ResolutionData::new(2, &cells_of(&[0, 0, 1, 1, 2, 2]));
    let forwards = ClusterStabilityData::from_clustering(&coarse, &fine).unwrap();
    let backwards = ClusterStabilityData::from_clustering(&fine, &coarse).unwrap();
    for data in [&forwards, &backwards] {
        assert_eq!(data.clusters_parent(), 2);
        assert_eq!(data.clusters_child(), 3);
        assert_eq!(data.parent_resolution(), 1);
        assert_eq!(data.child_resolution(), 2);
        let stabilities = data.stabilities();
        assert_eq!(stabilities.len(), 3);
        assert!(stabilities[0].has_same_value(&Ratio::new(1, 1)));
        assert!(stabilities[1].has_same_value(&Ratio::new(1, 2)));
        assert!(stabilities[2].has_same_value(&Ratio::new(1, 1)));
        assert!(data.mean_stability().has_same_value(&Ratio::new(5, 6)));
    }
    // The mean is the sum over the product of the denominators, divided by the number.
    let mean = forwards.mean_stability();
    assert!(mean.numerator().equals(&Natural::from_usize(4 * 4 * 4 + 2 * 4 * 4 + 4 * 4 * 4)));
    assert!(mean.denominator().equals(&Natural::from_usize(4 * 4 * 4 * 3)));
}

#[test]
fn equal_cluster_counts_cannot_be_related() {
    let first = ResolutionData::new(1, &cells_of(&[0, 0, 1, 1]));
    let second = ResolutionData::new(5, &cells_of(&[0, 1, 1, 0]));
    assert_eq!(
        ClusterStabilityData::from_clustering(&first, &second).err(),
        Some(StabilityError::EqualClusterCounts)
    );
    let empty = ResolutionData::new(0, &[]);
    assert_eq!(empty.clusters(), 0);
    let against_empty = ClusterStabilityData::from_clustering(&empty, &first).unwrap();
    assert_eq!(against_empty.clusters_parent(), 0);
    assert!(against_empty.mean_stability().has_same_value(&Ratio::new(0, 1)));
}

#[test]
fn every_failure_has_its_message() {
    assert_eq!(StabilityError::EmptyChildCluster.message(), "The child cluster is empty.");
    assert_eq!(
        StabilityError::EqualClusterCounts.message(),
        "The number of clusters is identical."
    );
    assert_eq!(
        StabilityError::NoMatchingParent.message(),
        "No parent clusters have been supplied."
    );
    assert_eq!(
        StabilityError::MissingResolutionInPool.message(),
        "The resolution pool does not contain all branch resolutions."
    );
}

#[test]
fn a_clustering_of_many_cells_is_scored_exactly() {
    let cells = 3000usize;
    let coarse: Vec<usize> = (0..cells).map(|cell| cell % 3).collect();
    let fine: Vec<usize> = (0..cells).map(|cell| cell % 6).collect();
    let finest: Vec<usize> = (0..cells).map(|cell| cell % 30).collect();
    let first = ResolutionData::new(1, &cells_of(&coarse));
    let second = ResolutionData::new(2, &cells_of(&fine));
    let third = ResolutionData::new(3, &cells_of(&finest));
    let nested = ClusterStabilityData::from_clustering(&first, &second).unwrap();
    assert!(nested.mean_stability().has_same_value(&Ratio::new(1, 1)));
    let crossed = ClusterStabilityData::from_clustering(&third, &second).unwrap();
    assert_eq!(crossed.clusters_child(), 30);
    assert!(crossed.mean_stability().has_same_value(&Ratio::new(1, 1)));
    let split = ClusterStabilityData::from_clustering(&third, &first).unwrap();
    assert!(split.mean_stability().has_same_value(&Ratio::new(1, 1)));
    let coarse_against_fine = ClusterStabilityData::from_clustering(
        &ResolutionData::new(4, &cells_of(&(0..cells).map(|cell| cell % 4).collect::<Vec<usize>>())),
        &second,
    )
    .unwrap();
    // Each of the six clusters falls evenly into two of the four clusters.
    assert!(coarse_against_fine.mean_stability().has_same_value(&Ratio::new(1, 2)));
}
