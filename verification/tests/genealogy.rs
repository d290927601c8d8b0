use std::rc::Rc;

use cluster_resolution::data::{CellSample, ResolutionData};
use cluster_resolution::error::StabilityError;
use cluster_resolution::genealogy::{
    branch_to_resolution_data, trim_branch, ClusterGenealogyEntry, ClusterGenealogyNode,
};
use cluster_resolution::graph::{to_graph, ResolutionNode};

fn resolution_data(resolution: u64, labels: &[usize]) -> ResolutionData {
    let cells: Vec<CellSample> = labels
        .iter()
        .enumerate()
        .map(|(index, cluster)| CellSample::new(index + 1, *cluster))
        .collect();
    ResolutionData::new(resolution, &cells)
}

fn pool() -> Vec<ResolutionData> {
    vec![
        resolution_data(30, &[0, 0, 1, 1, 2, 2, 2, 2]),
        resolution_data(40, &[0, 0, 1, 1, 2, 2, 3, 3]),
        resolution_data(10, &[0, 0, 0, 0, 0, 0, 0, 0]),
        resolution_data(20, &[6, 6, 6, 6, 4, 4, 4, 4]),
    ]
}

fn children(entry: &ClusterGenealogyEntry) -> Vec<(usize, Vec<usize>)> {
    entry
        .nodes()
        .iter()
        .map(|node| (node.cluster_id(), node.child_clusters().clone()))
        .collect()
}

#[test]
fn nodes_collect_and_sort_their_children() {
    let mut node = ClusterGenealogyNode::new(4);
    assert_eq!(node.cluster_id(), 4);
    assert!(node.child_clusters().is_empty());
    node.add_child_cluster(9);
    node.add_child_cluster(2);
    node.add_child_cluster(5);
    node.add_child_cluster(2);
    assert_eq!(node.child_clusters(), &vec![9, 2, 5, 2]);
    node.sort();
    assert_eq!(node.child_clusters(), &vec![2, 2, 5, 9]);
    assert_eq!(node.clone().child_clusters(), &vec![2, 2, 5, 9]);
}

#[test]
fn entries_sort_their_nodes_and_the_children_of_each() {
    let data = resolution_data(77, &[3, 1, 2]);
    let mut first = ClusterGenealogyNode::new(3);
    first.add_child_cluster(8);
    first.add_child_cluster(1);
    let second = ClusterGenealogyNode::new(1);
    let mut third = ClusterGenealogyNode::new(2);
    third.add_child_cluster(5);
    let entry = ClusterGenealogyEntry::new(&data, vec![first, second, third]);
    assert_eq!(entry.number_of_clusters(), 3);
    assert_eq!(entry.resolution(), 77);
    assert_eq!(children(&entry), vec![(1, vec![]), (2, vec![5]), (3, vec![1, 8])]);
    assert_eq!(children(&entry.clone()), children(&entry));
}

#[test]
fn lineage_relates_every_cluster_to_its_best_parent() {
    let pool = pool();
    let data: Vec<&ResolutionData> = vec![&pool[3], &pool[0], &pool[2]];
    let entries = ClusterGenealogyEntry::from_resolution_data(&data).unwrap();
    let counts: Vec<usize> = entries.iter().map(|entry| entry.number_of_clusters()).collect();
    let resolutions: Vec<u64> = entries.iter().map(|entry| entry.resolution()).collect();
    assert_eq!(counts, vec![1, 2, 3]);
    assert_eq!(resolutions, vec![10, 20, 30]);
    assert_eq!(children(&entries[0]), vec![(0, vec![4, 6])]);
    assert_eq!(children(&entries[1]), vec![(4, vec![2]), (6, vec![0, 1])]);
    assert_eq!(children(&entries[2]), vec![(0, vec![]), (1, vec![]), (2, vec![])]);
}

#[test]
fn lineage_of_nothing_is_empty() {
    assert!(ClusterGenealogyEntry::from_resolution_data(&[]).unwrap().is_empty());
}

#[test]
fn lineage_of_one_clustering_has_no_children() {
    let only = resolution_data(3, &[5, 2, 5]);
    let entries = ClusterGenealogyEntry::from_resolution_data(&[&only]).unwrap();
    assert_eq!(entries.len(), 1);
    assert_eq!(children(&entries[0]), vec![(2, vec![]), (5, vec![])]);
}

#[test]
fn clusters_without_any_parent_fail() {
    let nothing = resolution_data(1, &[]);
    let something = resolution_data(2, &[0, 1]);
    assert_eq!(
        ClusterGenealogyEntry::from_resolution_data(&[&something, &nothing]).err(),
        Some(StabilityError::NoMatchingParent)
    );
    assert_eq!(
        ClusterGenealogyEntry::from_resolution_data(&[&nothing, &something]).err(),
        Some(StabilityError::NoMatchingParent)
    );
    let entries = ClusterGenealogyEntry::from_resolution_data(&[&nothing, &nothing]).unwrap();
    assert_eq!(entries.len(), 2);
    assert!(entries[0].nodes().is_empty());
}

#[test]
fn equal_cluster_counts_keep_the_order_in_which_they_came() {
    let first = resolution_data(1, &[0, 0, 1, 1]);
    let second = resolution_data(2, &[0, 1, 1, 1]);
    let entries = ClusterGenealogyEntry::from_resolution_data(&[&first, &second]).unwrap();
    let resolutions: Vec<u64> = entries.iter().map(|entry| entry.resolution()).collect();
    assert_eq!(resolutions, vec![1, 2]);
    // The first one is taken as the finer of the two.
    assert_eq!(children(&entries[0]), vec![(0, vec![]), (1, vec![])]);
    assert_eq!(children(&entries[1]), vec![(0, vec![0]), (1, vec![1])]);
}

#[test]
fn branch_resolutions_are_looked_up_in_the_pool() {
    let pool = pool();
    let leaves = to_graph(&pool);
    let branch = ResolutionNode::branch(&leaves[0]);
    let found = branch_to_resolution_data(&branch, &pool).unwrap();
    let counts: Vec<usize> = found.iter().map(|data| data.clusters()).collect();
    assert_eq!(counts, vec![4, 3, 2, 1]);
    assert!(std::ptr::eq(found[0], &pool[1]));
    assert!(branch_to_resolution_data(&[], &pool).unwrap().is_empty());
}

#[test]
fn the_first_clustering_of_a_resolution_is_found() {
    let twice = vec![resolution_data(8, &[0, 1]), resolution_data(8, &[0, 0])];
    let branch = vec![Rc::new(ResolutionNode::new(8, 1))];
    let found = branch_to_resolution_data(&branch, &twice).unwrap();
    assert_eq!(found.len(), 1);
    assert!(std::ptr::eq(found[0], &twice[0]));
}

#[test]
fn a_resolution_that_the_pool_lacks_fails() {
    let pool = pool();
    let branch = vec![Rc::new(ResolutionNode::new(10, 1)), Rc::new(ResolutionNode::new(11, 2))];
    assert_eq!(
        branch_to_resolution_data(&branch, &pool).err(),
        Some(StabilityError::MissingResolutionInPool)
    );
    assert_eq!(
        branch_to_resolution_data(&branch, &[]).err(),
        Some(StabilityError::MissingResolutionInPool)
    );
}

#[test]
fn trimming_stops_for_good_at_the_first_unstable_node() {
    let leaves = to_graph(&pool());
    let branch = ResolutionNode::branch(&leaves[0]);
    let threshold = 0.95;
    // Predicted stabilities at 1, 2, 3 and 4 clusters.
    let predicted = [0.97, 0.96, 0.90, 0.95];
    let stable: Vec<bool> = branch
        .iter()
        .map(|node| predicted[node.number_of_clusters() - 1] >= threshold)
        .collect();
    assert_eq!(stable, vec![true, false, true, true]);
    let trimmed = trim_branch(&branch, &stable);
    let counts: Vec<usize> = trimmed.iter().map(|node| node.number_of_clusters()).collect();
    assert_eq!(counts, vec![1, 2]);
    assert!(Rc::ptr_eq(&trimmed[0], &branch[3]));
    assert!(Rc::ptr_eq(&trimmed[1], &branch[2]));
}

#[test]
fn trimming_keeps_a_stable_branch_whole_by_ascending_cluster_count() {
    let leaves = to_graph(&pool());
    let branch = ResolutionNode::branch(&leaves[0]);
    let trimmed = trim_branch(&branch, &[true, true, true, true]);
    let counts: Vec<usize> = trimmed.iter().map(|node| node.number_of_clusters()).collect();
    assert_eq!(counts, vec![1, 2, 3, 4]);
    assert!(trim_branch(&branch, &[true, true, true, false]).is_empty());
    assert!(trim_branch(&[], &[]).is_empty());
}

#[test]
fn a_node_without_a_verdict_counts_as_unstable() {
    let leaves = to_graph(&pool());
    let branch = ResolutionNode::branch(&leaves[0]);
    // Verdicts for the nodes of 4 and 3 clusters only.
    assert!(trim_branch(&branch, &[true, true]).is_empty());
    let trimmed = trim_branch(&branch[2..], &[true]);
    assert!(trimmed.is_empty());
    let root_only = trim_branch(&branch[3..], &[true, false]);
    assert_eq!(root_only.len(), 1);
}
