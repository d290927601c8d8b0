//! Overlap and stability scores between clusters given as sets of cell IDs.

use crate::error::StabilityError;
use crate::natural::Natural;
use crate::ratio::{Fraction, Ratio};
use std::collections::HashSet;
use vstd::prelude::*;
use vstd::std_specs::iter::IteratorSpec;

verus! {

broadcast use {vstd::group_vstd_default, vstd::std_specs::hash::group_hash_axioms};

/// The number of cells that two clusters share.
pub open spec fn overlap(cluster_a: Set<usize>, cluster_b: Set<usize>) -> nat {
    cluster_a.intersect(cluster_b).len()
}

/// The share of the child's cells that lie in the parent.
pub open spec fn relative_overlap(parent: Set<usize>, child: Set<usize>) -> Fraction {
    Fraction { numerator: overlap(parent, child), denominator: child.len() }
}

/// The share of the child's cells that lie in each of the parents.
pub open spec fn relative_overlaps(parents: Seq<Set<usize>>, child: Set<usize>) -> Seq<Fraction> {
    Seq::new(parents.len(), |i: int| relative_overlap(parents[i], child))
}

/// The number of cells that the child shares with the parents, summed over the parents.
pub open spec fn overlap_total(parents: Seq<Set<usize>>, child: Set<usize>) -> nat
    decreases parents.len(),
{
    if parents.len() == 0 {
        0
    } else {
        overlap_total(parents.drop_last(), child) + overlap(parents.last(), child)
    }
}

/// The squares of the numbers of cells that the child shares with each parent, summed.
pub open spec fn squared_overlaps(parents: Seq<Set<usize>>, child: Set<usize>) -> nat
    decreases parents.len(),
{
    if parents.len() == 0 {
        0
    } else {
        squared_overlaps(parents.drop_last(), child) + overlap(parents.last(), child) * overlap(
            parents.last(),
            child,
        )
    }
}

/// The stability of the child against the parents: the sum of its squared relative overlaps.
pub open spec fn stability(parents: Seq<Set<usize>>, child: Set<usize>) -> Fraction {
    Fraction {
        numerator: squared_overlaps(parents, child),
        denominator: child.len() * child.len(),
    }
}

/// The sets of cells that a list of borrowed clusters holds.
pub open spec fn cell_sets(clusters: Seq<&HashSet<usize>>) -> Seq<Set<usize>> {
    Seq::new(clusters.len(), |i: int| clusters[i]@)
}

/// The cells of a cluster are finitely many.
pub proof fn lemma_cluster_is_finite(cluster: &HashSet<usize>)
    ensures
        cluster@.finite(),
{
    let cells = vstd::std_specs::hash::spec_hash_keys_iter(cluster).remaining();
    assert(cells.unref().to_set() == cluster@);
}

/// Returns the number of cells overlapping between the 2 clusters.
pub fn cluster_overlap_absolute(cluster_a: &HashSet<usize>, cluster_b: &HashSet<usize>) -> (count:
    usize)
    ensures
        count == overlap(cluster_a@, cluster_b@),
{
    let mut count: usize = 0;
    let ghost mut seen: Set<usize> = Set::empty();
    assert(seen.intersect(cluster_b@) =~= Set::<usize>::empty());
    assert(cluster_a@.len() == cluster_a.len());
    for cell in iter: cluster_a.iter()
        invariant
            iter.seq().unref().to_set() == cluster_a@,
            iter.seq().no_duplicates(),
            iter.seq().len() == cluster_a@.len(),
            cluster_a@.len() <= usize::MAX,
            seen.finite(),
            seen.subset_of(cluster_a@),
            seen.len() == iter.index(),
            forall|x: usize|
                seen.contains(x) <==> exists|j: int| 0 <= j < iter.index() && *iter.seq()[j] == x,
            count == seen.intersect(cluster_b@).len(),
            count <= iter.index(),
    {
        proof {
            let x = *cell;
            assert(!seen.contains(x));
            assert(iter.seq().unref()[iter.index()] == x);
            assert(iter.seq().unref().to_set().contains(x));
            if cluster_b@.contains(x) {
                assert(seen.insert(x).intersect(cluster_b@) =~= seen.intersect(cluster_b@).insert(
                    x,
                ));
            } else {
                assert(seen.insert(x).intersect(cluster_b@) =~= seen.intersect(cluster_b@));
            }
            seen = seen.insert(x);
        }
        if cluster_b.contains(cell) {
            count = count + 1;
        }
    }
    proof {
        vstd::set_lib::lemma_subset_equality(seen, cluster_a@);
    }
    count
}

/// Returns the relative overlap of the child cluster with the parent cluster.
/// Fails if the child cluster is empty.
pub fn cluster_overlap_relative(cluster_parent: &HashSet<usize>, cluster_child: &HashSet<usize>) -> (
    result: Result<Ratio, StabilityError>
)
    ensures
        cluster_child@.len() == 0 <==> result == Err::<Ratio, StabilityError>(
            StabilityError::EmptyChildCluster,
        ),
        cluster_child@.len() > 0 <==> result is Ok,
        result is Ok ==> result->Ok_0@ == relative_overlap(cluster_parent@, cluster_child@),
{
    if cluster_child.len() == 0 {
        Err(StabilityError::EmptyChildCluster)
    } else {
        let shared = cluster_overlap_absolute(cluster_parent, cluster_child);
        Ok(Ratio::new(shared, cluster_child.len()))
    }
}

/// Returns the relative overlaps of the child cluster with each of the parent clusters.
/// Fails if the child cluster is empty.
pub fn cluster_overlaps_relative(
    clusters_parent: &[&HashSet<usize>],
    cluster_child: &HashSet<usize>,
) -> (result: Result<Vec<Ratio>, StabilityError>)
    ensures
        cluster_child@.len() == 0 <==> result == Err::<Vec<Ratio>, StabilityError>(
            StabilityError::EmptyChildCluster,
        ),
        cluster_child@.len() > 0 <==> result is Ok,
        result is Ok ==> result->Ok_0@.map_values(|ratio: Ratio| ratio@) == relative_overlaps(
            cell_sets(clusters_parent@),
            cluster_child@,
        ),
{
    if cluster_child.len() == 0 {
        return Err(StabilityError::EmptyChildCluster);
    }
    let mut overlaps: Vec<Ratio> = Vec::new();
    let mut position: usize = 0;
    while position < clusters_parent.len()
        invariant
            position <= clusters_parent.len(),
            cluster_child@.len() > 0,
            overlaps.len() == position,
            forall|i: int|
                0 <= i < position ==> overlaps[i]@ == relative_overlap(
                    clusters_parent[i]@,
                    cluster_child@,
                ),
        decreases clusters_parent.len() - position,
    {
        match cluster_overlap_relative(clusters_parent[position], cluster_child) {
            Ok(share) => {
                overlaps.push(share);
            },
            Err(error) => {
                return Err(error);
            },
        }
        position = position + 1;
    }
    assert(overlaps@.map_values(|ratio: Ratio| ratio@) =~= relative_overlaps(
        cell_sets(clusters_parent@),
        cluster_child@,
    ));
    Ok(overlaps)
}

/// Returns the stability of the child cluster compared to the parent clusters:
/// the sum of the squared relative overlaps. Fails if the child cluster is empty.
pub fn cluster_stability(clusters_parent: &[&HashSet<usize>], cluster_child: &HashSet<usize>) -> (
    result: Result<Ratio, StabilityError>
)
    ensures
        cluster_child@.len() == 0 <==> result == Err::<Ratio, StabilityError>(
            StabilityError::EmptyChildCluster,
        ),
        cluster_child@.len() > 0 <==> result is Ok,
        result is Ok ==> result->Ok_0@ == stability(cell_sets(clusters_parent@), cluster_child@),
{
    let overlaps = match cluster_overlaps_relative(clusters_parent, cluster_child) {
        Ok(overlaps) => overlaps,
        Err(error) => {
            return Err(error);
        },
    };
    let ghost parents = cell_sets(clusters_parent@);
    let ghost shares = relative_overlaps(parents, cluster_child@);
    let mut squares = Natural::zero();
    let mut position: usize = 0;
    assert(parents.take(0) =~= Seq::<Set<usize>>::empty());
    assert(overlaps@.map_values(|ratio: Ratio| ratio@).len() == overlaps.len());
    assert(shares.len() == parents.len());
    while position < overlaps.len()
        invariant
            position <= overlaps.len(),
            overlaps.len() == parents.len(),
            overlaps@.map_values(|ratio: Ratio| ratio@) == shares,
            shares == relative_overlaps(parents, cluster_child@),
            squares@ == squared_overlaps(parents.take(position as int), cluster_child@),
        decreases overlaps.len() - position,
    {
        let shared = overlaps[position].numerator();
        let square = shared.times(shared);
        proof {
            assert(overlaps@.map_values(|ratio: Ratio| ratio@)[position as int]
                == overlaps[position as int]@);
            assert(shares[position as int] == relative_overlap(
                parents[position as int],
                cluster_child@,
            ));
            let longer = parents.take(position + 1);
            assert(longer.drop_last() =~= parents.take(position as int));
            assert(longer.last() == parents[position as int]);
        }
        squares = squares.plus(&square);
        position = position + 1;
    }
    assert(parents.take(position as int) =~= parents);
    let size = Natural::from_usize(cluster_child.len());
    Ok(Ratio::from_naturals(squares, size.times(&size)))
}

} // verus!
