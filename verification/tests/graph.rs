use std::rc::Rc;

use cluster_resolution::data::{CellSample, ResolutionData};
use cluster_resolution::graph::{
    aggregate_by_number_of_clusters, regression_points, to_graph, top_leaf, ResolutionNode,
};
use cluster_resolution::ratio::Ratio;

fn clustering(resolution: u64, labels: &[usize]) -> ResolutionData {
    let cells: Vec<CellSample> = labels
        .iter()
        .enumerate()
        .map(|(index, cluster)| CellSample::new(index + 1, *cluster))
        .collect();
    ResolutionData::new(resolution, &cells)
}

/// Four layers, given out of order; the layer of two clusters holds two clusterings.
fn four_layers() -> Vec<ResolutionData> {
    vec![
        clustering(30, &[0, 0, 1, 1, 2, 2, 2, 2]),
        clustering(25, &[0, 0, 0, 1, 1, 1, 1, 1]),
        clustering(40, &[0, 0, 1, 1, 2, 2, 3, 3]),
        clustering(10, &[0, 0, 0, 0, 0, 0, 0, 0]),
        clustering(20, &[0, 0, 0, 0, 1, 1, 1, 1]),
    ]
}

fn sum_of_edges(branch: &[Rc<ResolutionNode>]) -> Ratio {
    let mut sum = Ratio::zero();
    for node in branch.iter().rev() {
        if let Some(stability) = node.optimal_stability() {
            sum = sum.plus(stability);
        }
    }
    sum
}

#[test]
fn empty_input_gives_an_empty_graph() {
    assert!(to_graph(&[]).is_empty());
    assert!(aggregate_by_number_of_clusters(&[]).is_empty());
}

#[test]
fn clusterings_are_aggregated_by_their_number_of_clusters() {
    let map = aggregate_by_number_of_clusters(&four_layers());
    assert_eq!(map.len(), 4);
    assert_eq!(map[&1], vec![3]);
    assert_eq!(map[&2], vec![1, 4]);
    assert_eq!(map[&3], vec![0]);
    assert_eq!(map[&4], vec![2]);
}

#[test]
fn leaves_hold_the_path_of_the_largest_total_stability() {
    let leaves = to_graph(&four_layers());
    assert_eq!(leaves.len(), 1);
    let branch = ResolutionNode::branch(&leaves[0]);
    let resolutions: Vec<u64> = branch.iter().map(|node| node.resolution()).collect();
    let counts: Vec<usize> = branch.iter().map(|node| node.number_of_clusters()).collect();
    let depths: Vec<usize> = branch.iter().map(|node| node.depth()).collect();
    assert_eq!(resolutions, vec![40, 30, 20, 10]);
    assert_eq!(counts, vec![4, 3, 2, 1]);
    assert_eq!(depths, vec![3, 2, 1, 0]);
    assert!(leaves[0].total_stability().has_same_value(&Ratio::new(3, 1)));
    assert!(leaves[0].mean_total_stability().has_same_value(&Ratio::new(1, 1)));
    assert!(branch[3].optimal_parent().is_none());
    assert!(branch[3].optimal_stability().is_none());
    assert!(branch[3].total_stability().has_same_value(&Ratio::new(0, 1)));
    assert!(branch[3].mean_total_stability().has_same_value(&Ratio::new(1, 1)));
    assert_eq!(branch[0].optimal_parent().as_ref().unwrap().resolution(), 30);
}

#[test]
fn total_stability_is_the_sum_along_the_branch_and_depth_its_length() {
    let leaves = to_graph(&four_layers());
    let mut seen = 0;
    for leaf in leaves.iter() {
        for node in ResolutionNode::branch(leaf).iter() {
            let branch = ResolutionNode::branch(node);
            let sum = sum_of_edges(&branch);
            assert!(node.total_stability().numerator().equals(sum.numerator()));
            assert!(node.total_stability().denominator().equals(sum.denominator()));
            assert_eq!(node.depth(), branch.len() - 1);
            seen += 1;
        }
    }
    assert_eq!(seen, 4);
}

#[test]
fn a_parent_of_lower_total_is_passed_over() {
    // Below the clustering of resolution 25 the middle cluster of resolution 30 is split
    // evenly, so that the mean stability of that transition is 5/6.
    let pool = vec![
        clustering(10, &[0, 0, 0, 0, 0, 0, 0, 0]),
        clustering(25, &[0, 0, 0, 1, 1, 1, 1, 1]),
        clustering(30, &[0, 0, 1, 1, 2, 2, 2, 2]),
    ];
    let leaves = to_graph(&pool);
    assert_eq!(leaves.len(), 1);
    assert!(leaves[0].optimal_stability().as_ref().unwrap().has_same_value(&Ratio::new(5, 6)));
    assert!(leaves[0].total_stability().has_same_value(&Ratio::new(11, 6)));
    assert!(leaves[0].mean_total_stability().has_same_value(&Ratio::new(11, 12)));
}

#[test]
fn equal_totals_prefer_the_parent_of_larger_resolution() {
    let pool = vec![
        clustering(10, &[0, 0, 0, 0]),
        clustering(21, &[0, 0, 1, 1]),
        clustering(27, &[1, 1, 0, 0]),
        clustering(23, &[0, 0, 1, 1]),
        clustering(30, &[0, 1, 2, 2]),
        clustering(31, &[0, 0, 1, 2]),
    ];
    let leaves = to_graph(&pool);
    let resolutions: Vec<u64> = leaves.iter().map(|leaf| leaf.resolution()).collect();
    assert_eq!(resolutions, vec![30, 31]);
    for leaf in leaves.iter() {
        assert_eq!(leaf.optimal_parent().as_ref().unwrap().resolution(), 27);
        assert_eq!(leaf.depth(), 2);
    }
}

#[test]
fn equal_totals_and_resolutions_keep_the_first_parent() {
    let pool = vec![
        clustering(5, &[0, 0, 1, 1]),
        clustering(5, &[1, 1, 0, 0]),
        clustering(9, &[0, 1, 2, 2]),
    ];
    let leaves = to_graph(&pool);
    assert_eq!(leaves.len(), 1);
    let parent = leaves[0].optimal_parent().as_ref().unwrap();
    assert_eq!(parent.resolution(), 5);
    assert_eq!(parent.depth(), 0);
    assert!(leaves[0].total_stability().has_same_value(&Ratio::new(1, 1)));
}

#[test]
fn nodes_are_built_from_their_parents() {
    let root = Rc::new(ResolutionNode::new(7, 2));
    assert_eq!(root.resolution(), 7);
    assert_eq!(root.number_of_clusters(), 2);
    assert_eq!(root.depth(), 0);
    let child = Rc::new(ResolutionNode::new_with_parent(8, 3, &root, Ratio::new(1, 2)));
    let grandchild = ResolutionNode::new_with_parent(9, 5, &child, Ratio::new(1, 3));
    assert_eq!(grandchild.depth(), 2);
    assert!(grandchild.total_stability().has_same_value(&Ratio::new(5, 6)));
    assert!(grandchild.mean_total_stability().has_same_value(&Ratio::new(5, 12)));
    assert!(grandchild.optimal_stability().as_ref().unwrap().has_same_value(&Ratio::new(1, 3)));
    let branch = ResolutionNode::branch(&Rc::new(grandchild));
    assert_eq!(branch.len(), 3);
    assert_eq!(branch[2].resolution(), 7);
}

#[test]
fn regression_points_leave_out_the_root() {
    let leaves = to_graph(&four_layers());
    let branch = ResolutionNode::branch(&leaves[0]);
    let points = regression_points(&branch);
    let counts: Vec<usize> = points.iter().map(|point| point.0).collect();
    assert_eq!(counts, vec![4, 3, 2]);
    assert!(points.iter().all(|point| point.1.has_same_value(&Ratio::new(1, 1))));
    assert!(regression_points(&[]).is_empty());
}

#[test]
fn the_top_leaf_has_the_largest_total_and_is_the_last_of_its_kind() {
    assert_eq!(top_leaf(&[]), None);
    let root = Rc::new(ResolutionNode::new(1, 1));
    let leaves = vec![
        Rc::new(ResolutionNode::new_with_parent(2, 2, &root, Ratio::new(1, 2))),
        Rc::new(ResolutionNode::new_with_parent(3, 2, &root, Ratio::new(3, 4))),
        Rc::new(ResolutionNode::new_with_parent(4, 2, &root, Ratio::new(2, 3))),
        Rc::new(ResolutionNode::new_with_parent(5, 2, &root, Ratio::new(6, 8))),
        Rc::new(ResolutionNode::new_with_parent(6, 2, &root, Ratio::new(1, 4))),
    ];
    assert_eq!(top_leaf(&leaves), Some(3));
    assert_eq!(top_leaf(&leaves[..3]), Some(1));
    assert_eq!(top_leaf(&leaves[..1]), Some(0));
}
