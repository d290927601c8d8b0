use std::collections::HashSet;

use cluster_resolution::error::StabilityError;
use cluster_resolution::natural::Natural;
use cluster_resolution::optimisation::{
    cluster_overlap_absolute, cluster_overlap_relative, cluster_overlaps_relative,
    cluster_stability,
};
use cluster_resolution::ratio::Ratio;

fn natural_as_float(number: &Natural) -> f64 {
    number
        .limbs()
        .iter()
        .rev()
        .fold(0.0, |value, limb| value * 4294967296.0 + (*limb as f64))
}

fn ratio_as_float(ratio: &Ratio) -> f64 {
    natural_as_float(ratio.numerator()) / natural_as_float(ratio.denominator())
}

fn close(expected: f64, observed: f64) -> bool {
    (expected - observed).abs() <= 4.0 * f64::EPSILON
}

#[test]
fn test_cluster_overlap_absolute_partial() {
    let set_a: HashSet<usize> = HashSet::from_iter(vec![0usize, 1, 2, 3, 7]);
    let set_b: HashSet<usize> = HashSet::from_iter(vec![0usize, 3, 9, 24, 42, 84, 182881821]);
    // Overlap with each other.
    assert_eq!(2, cluster_overlap_absolute(&set_a, &set_b));
    assert_eq!(2, cluster_overlap_absolute(&set_b, &set_a));
    // Overlap with self.
    assert_eq!(set_a.len(), cluster_overlap_absolute(&set_a, &set_a));
    assert_eq!(set_b.len(), cluster_overlap_absolute(&set_b, &set_b));
}

#[test]
fn test_cluster_overlap_full() {
    let set_a: HashSet<usize> = HashSet::from_iter(vec![0usize, 1, 2, 3, 7]);
    let set_b: HashSet<usize> = HashSet::from_iter(vec![7usize, 1, 3, 0, 2]);
    assert_eq!(set_a.len(), set_b.len());
    // Overlap with each other.
    assert_eq!(set_a.len(), cluster_overlap_absolute(&set_a, &set_b));
    assert_eq!(set_a.len(), cluster_overlap_absolute(&set_b, &set_a));
    // Overlap with self.
    assert_eq!(set_a.len(), cluster_overlap_absolute(&set_a, &set_a));
    assert_eq!(set_a.len(), cluster_overlap_absolute(&set_b, &set_b));
}

#[test]
fn test_cluster_overlap_none() {
    let set_a: HashSet<usize> = HashSet::from_iter(vec![0usize, 1, 2, 3, 7]);
    let set_b: HashSet<usize> = HashSet::from_iter(vec![8usize, 9, 10, 11, 42]);
    assert_eq!(0, cluster_overlap_absolute(&set_a, &set_b));
    assert_eq!(0, cluster_overlap_absolute(&set_b, &set_a));
}

#[test]
fn test_cluster_overlap_empty() {
    let set_full: HashSet<usize> = HashSet::from_iter(vec![0usize, 1, 2, 3, 7]);
    let set_empty: HashSet<usize> = HashSet::new();
    assert_eq!(0, cluster_overlap_absolute(&set_empty, &set_empty));
    assert_eq!(0, cluster_overlap_absolute(&set_full, &set_empty));
    assert_eq!(0, cluster_overlap_absolute(&set_empty, &set_full));
}

#[test]
fn test_cluster_overlap_relative_empty_child_cluster() {
    let cluster_parent: HashSet<usize> = HashSet::from_iter(vec![0usize, 1]);
    let cluster_child: HashSet<usize> = HashSet::new();
    // Overlap with each other.
    assert!(cluster_overlap_relative(&cluster_parent, &cluster_child).is_err());
}

#[test]
fn test_cluster_overlap_relative_larger_child_cluster() {
    let cluster_parent: HashSet<usize> = HashSet::from_iter(vec![0usize, 1]);
    let cluster_child: HashSet<usize> = HashSet::from_iter(vec![0usize, 1, 3, 4, 5, 6, 10, 11]);
    assert!(close(
        0.25,
        ratio_as_float(&cluster_overlap_relative(&cluster_parent, &cluster_child).unwrap())
    ));
}

#[test]
fn test_cluster_overlap_relative_larger_parent_cluster() {
    let cluster_parent: HashSet<usize> = HashSet::from_iter(vec![0usize, 1, 3, 4, 5, 6, 10, 11]);
    let cluster_child_full: HashSet<usize> = HashSet::from_iter(vec![0usize, 1, 4]);
    let cluster_child_partial: HashSet<usize> = HashSet::from_iter(vec![0usize, 12, 13, 14, 15]);
    let cluster_child_none: HashSet<usize> = HashSet::from_iter(vec![12, 13, 14, 15]);
    assert!(close(
        1.0,
        ratio_as_float(&cluster_overlap_relative(&cluster_parent, &cluster_child_full).unwrap())
    ));
    assert!(close(
        0.2,
        ratio_as_float(&cluster_overlap_relative(&cluster_parent, &cluster_child_partial).unwrap())
    ));
    assert!(close(
        0.0,
        ratio_as_float(&cluster_overlap_relative(&cluster_parent, &cluster_child_none).unwrap())
    ));
}

#[test]
fn test_cluster_overlaps_relative() {
    let clusters_parent: Vec<HashSet<usize>> = vec![
        HashSet::from_iter(vec![0usize, 3, 6]),
        HashSet::from_iter(vec![1usize, 4, 7]),
        HashSet::from_iter(vec![2usize, 5, 8]),
    ];
    let parents: Vec<&HashSet<usize>> = clusters_parent.iter().collect();
    let cluster_child: HashSet<usize> = HashSet::from_iter(vec![0usize, 1, 4, 7]);
    let expected_overlaps: Vec<f64> = vec![0.25, 0.75, 0.0];
    let observed_overlaps = cluster_overlaps_relative(&parents, &cluster_child).unwrap();

    for (i, expected_overlap) in expected_overlaps.into_iter().enumerate() {
        assert!(close(expected_overlap, ratio_as_float(&observed_overlaps[i])));
    }
}

#[test]
fn test_cluster_overlaps_empty() {
    let clusters_parent: Vec<HashSet<usize>> = vec![
        HashSet::from_iter(vec![0usize, 3, 6]),
        HashSet::from_iter(vec![1usize, 4, 7]),
        HashSet::from_iter(vec![2usize, 5, 8]),
    ];
    let parents: Vec<&HashSet<usize>> = clusters_parent.iter().collect();
    let cluster_child: HashSet<usize> = HashSet::new();
    assert!(cluster_overlaps_relative(&parents, &cluster_child).is_err());
}

#[test]
fn test_cluster_stability() {
    let clusters_parent: Vec<HashSet<usize>> = vec![
        HashSet::from_iter(vec![0usize, 3, 6]),
        HashSet::from_iter(vec![1usize, 4, 7]),
        HashSet::from_iter(vec![2usize, 5, 8]),
    ];
    let parents: Vec<&HashSet<usize>> = clusters_parent.iter().collect();
    let cluster_child: HashSet<usize> = HashSet::from_iter(vec![0usize, 1, 4, 7]);
    assert!(close(0.625, ratio_as_float(&cluster_stability(&parents, &cluster_child).unwrap())));
}

#[test]
fn test_cluster_stability_child_empty() {
    let clusters_parent: Vec<HashSet<usize>> = vec![
        HashSet::from_iter(vec![0usize, 3, 6]),
        HashSet::from_iter(vec![1usize, 4, 7]),
        HashSet::from_iter(vec![2usize, 5, 8]),
    ];
    let parents: Vec<&HashSet<usize>> = clusters_parent.iter().collect();
    let cluster_child: HashSet<usize> = HashSet::new();
    assert!(cluster_stability(&parents, &cluster_child).is_err());
}

#[test]
fn relative_overlap_is_the_exact_fraction() {
    let parent: HashSet<usize> = HashSet::from_iter(vec![0usize, 1]);
    let child: HashSet<usize> = HashSet::from_iter(vec![0usize, 1, 3, 4, 5, 6, 10, 11]);
    let share = cluster_overlap_relative(&parent, &child).unwrap();
    assert!(share.numerator().equals(&Natural::from_usize(2)));
    assert!(share.denominator().equals(&Natural::from_usize(8)));
    assert!(share.has_same_value(&Ratio::new(1, 4)));
    assert!(!share.has_same_value(&Ratio::new(2, 2)));
}

#[test]
fn stability_is_the_sum_of_squares_over_the_squared_size() {
    let clusters_parent: Vec<HashSet<usize>> = vec![
        HashSet::from_iter(vec![0usize, 3, 6]),
        HashSet::from_iter(vec![1usize, 4, 7]),
        HashSet::from_iter(vec![2usize, 5, 8]),
    ];
    let parents: Vec<&HashSet<usize>> = clusters_parent.iter().collect();
    let child: HashSet<usize> = HashSet::from_iter(vec![0usize, 1, 4, 7]);
    let stability = cluster_stability(&parents, &child).unwrap();
    assert!(stability.numerator().equals(&Natural::from_usize(10)));
    assert!(stability.denominator().equals(&Natural::from_usize(16)));
    assert!(stability.has_same_value(&Ratio::new(5, 8)));
}

#[test]
fn relative_overlaps_of_a_disjoint_cover_sum_to_one() {
    let clusters_parent: Vec<HashSet<usize>> = vec![
        HashSet::from_iter(vec![0usize, 3, 6]),
        HashSet::from_iter(vec![1usize, 4, 7]),
        HashSet::from_iter(vec![2usize, 5, 8]),
    ];
    let parents: Vec<&HashSet<usize>> = clusters_parent.iter().collect();
    let child: HashSet<usize> = HashSet::from_iter(vec![0usize, 1, 2, 4, 5]);
    let overlaps = cluster_overlaps_relative(&parents, &child).unwrap();
    let mut sum = Ratio::zero();
    for overlap in overlaps.iter() {
        sum = sum.plus(overlap);
    }
    assert!(sum.has_same_value(&Ratio::new(1, 1)));
}

#[test]
fn stability_is_one_for_a_child_within_one_parent() {
    let clusters_parent: Vec<HashSet<usize>> = vec![
        HashSet::from_iter(vec![0usize, 3, 6]),
        HashSet::from_iter(vec![1usize, 4, 7]),
    ];
    let parents: Vec<&HashSet<usize>> = clusters_parent.iter().collect();
    let inside: HashSet<usize> = HashSet::from_iter(vec![1usize, 7]);
    let across: HashSet<usize> = HashSet::from_iter(vec![1usize, 3, 7]);
    assert!(cluster_stability(&parents, &inside).unwrap().has_same_value(&Ratio::new(1, 1)));
    let split = cluster_stability(&parents, &across).unwrap();
    assert!(split.is_less_than(&Ratio::new(1, 1)));
    assert!(split.has_same_value(&Ratio::new(5, 9)));
}

#[test]
fn stability_of_an_even_split_is_one_over_the_number_of_parents() {
    let clusters_parent: Vec<HashSet<usize>> = vec![
        HashSet::from_iter(vec![0usize, 1, 20]),
        HashSet::from_iter(vec![2usize, 3, 21]),
        HashSet::from_iter(vec![4usize, 5, 22]),
    ];
    let parents: Vec<&HashSet<usize>> = clusters_parent.iter().collect();
    let child: HashSet<usize> = HashSet::from_iter(vec![0usize, 1, 2, 3, 4, 5]);
    assert!(cluster_stability(&parents, &child).unwrap().has_same_value(&Ratio::new(1, 3)));
}

#[test]
fn empty_child_fails_whatever_the_parents_hold() {
    let empty: HashSet<usize> = HashSet::new();
    let full: HashSet<usize> = HashSet::from_iter(vec![1usize, 2]);
    let no_parents: Vec<&HashSet<usize>> = Vec::new();
    let some_parents: Vec<&HashSet<usize>> = vec![&full, &empty];
    assert_eq!(
        cluster_overlap_relative(&empty, &empty).err(),
        Some(StabilityError::EmptyChildCluster)
    );
    assert_eq!(
        cluster_overlap_relative(&full, &empty).err(),
        Some(StabilityError::EmptyChildCluster)
    );
    assert_eq!(
        cluster_overlaps_relative(&no_parents, &empty).err(),
        Some(StabilityError::EmptyChildCluster)
    );
    assert_eq!(
        cluster_stability(&some_parents, &empty).err(),
        Some(StabilityError::EmptyChildCluster)
    );
    assert!(cluster_overlap_relative(&empty, &full).is_ok());
    assert!(cluster_stability(&no_parents, &full).unwrap().has_same_value(&Ratio::new(0, 1)));
}
