//! Clusters of cells, clusterings at one resolution, and the stabilities between two of them.

use crate::error::StabilityError;
use crate::optimisation::{
    cell_sets, cluster_overlaps_relative, cluster_stability, lemma_cluster_is_finite, overlap,
    relative_overlaps, stability,
};
use crate::ratio::{fraction_sum, lemma_fraction_sum_is_defined, Fraction, Ratio};
use crate::arrangement::{ascending_keys, strictly_ascending};
use std::collections::{HashMap, HashSet};
use vstd::prelude::*;

verus! {

broadcast use {vstd::group_vstd_default, vstd::std_specs::hash::group_hash_axioms};

/// What a cluster holds.
pub struct ClusterModel {
    pub cluster_id: usize,
    pub total_cell_count: usize,
    pub cells: Set<usize>,
}

/// The cells of one cluster of a clustering.
#[derive(Debug)]
pub struct Cluster {
    /// The identifier of the cluster, as the input names it.
    cluster_id: usize,
    /// The number of cells in all clusters of the clustering.
    total_cell_count: usize,
    /// The IDs of the cells in this cluster.
    cells: HashSet<usize>,
}

impl View for Cluster {
    type V = ClusterModel;

    closed spec fn view(&self) -> ClusterModel {
        ClusterModel {
            cluster_id: self.cluster_id,
            total_cell_count: self.total_cell_count,
            cells: self.cells@,
        }
    }
}

/// A set with the same cells.
pub fn copy_cells(cells: &HashSet<usize>) -> (copy: HashSet<usize>)
    ensures
        copy@ == cells@,
{
    let mut copy: HashSet<usize> = HashSet::new();
    for cell in iter: cells.iter()
        invariant
            iter.seq().unref().to_set() == cells@,
            iter.seq().no_duplicates(),
            iter.seq().len() == cells@.len(),
            copy@.finite(),
            copy@.subset_of(cells@),
            copy@.len() == iter.index(),
            forall|x: usize|
                copy@.contains(x) <==> exists|j: int| 0 <= j < iter.index() && *iter.seq()[j] == x,
    {
        proof {
            assert(!copy@.contains(*cell));
            assert(iter.seq().unref()[iter.index()] == *cell);
            assert(iter.seq().unref().to_set().contains(*cell));
        }
        copy.insert(*cell);
    }
    proof {
        lemma_cluster_is_finite(cells);
        vstd::set_lib::lemma_subset_equality(copy@, cells@);
    }
    copy
}

impl Clone for Cluster {
    fn clone(&self) -> (copy: Cluster)
        ensures
            copy@ == self@,
    {
        Cluster {
            cluster_id: self.cluster_id,
            total_cell_count: self.total_cell_count,
            cells: copy_cells(&self.cells),
        }
    }
}

/// The sets of cells of a list of clusters.
pub open spec fn cells_of(clusters: Seq<ClusterModel>) -> Seq<Set<usize>> {
    Seq::new(clusters.len(), |i: int| clusters[i].cells)
}

/// What a list of clusters holds.
pub open spec fn cluster_models(clusters: Seq<Cluster>) -> Seq<ClusterModel> {
    Seq::new(clusters.len(), |i: int| clusters[i]@)
}

/// Whether `position` is the first among the parents that shares the most cells with the child.
pub open spec fn is_best_parent(parents: Seq<ClusterModel>, child: Set<usize>, position: int) -> bool {
    &&& 0 <= position < parents.len()
    &&& forall|i: int|
        0 <= i < parents.len() ==> overlap(parents[i].cells, child) <= overlap(
            parents[position].cells,
            child,
        )
    &&& forall|i: int|
        0 <= i < position ==> overlap(parents[i].cells, child) < overlap(
            parents[position].cells,
            child,
        )
}

/// At most one position is that of the best parent.
pub proof fn lemma_best_parent_is_unique(
    parents: Seq<ClusterModel>,
    child: Set<usize>,
    first: int,
    second: int,
)
    requires
        is_best_parent(parents, child, first),
        is_best_parent(parents, child, second),
    ensures
        first == second,
{
    if first < second {
        assert(overlap(parents[first].cells, child) < overlap(parents[second].cells, child));
        assert(overlap(parents[second].cells, child) <= overlap(parents[first].cells, child));
    } else if second < first {
        assert(overlap(parents[second].cells, child) < overlap(parents[first].cells, child));
        assert(overlap(parents[first].cells, child) <= overlap(parents[second].cells, child));
    }
}

/// The position among the first `upto` parents of the first one that shares the most cells
/// with the child.
pub open spec fn best_parent_among(parents: Seq<ClusterModel>, child: Set<usize>, upto: nat) -> int
    decreases upto,
{
    if upto <= 1 {
        0
    } else {
        let before = best_parent_among(parents, child, (upto - 1) as nat);
        if overlap(parents[before].cells, child) < overlap(parents[upto - 1].cells, child) {
            upto - 1
        } else {
            before
        }
    }
}

/// Among at least one parent, one is the best.
pub proof fn lemma_best_parent_exists(parents: Seq<ClusterModel>, child: Set<usize>, upto: nat)
    requires
        1 <= upto <= parents.len(),
    ensures
        is_best_parent(parents.take(upto as int), child, best_parent_among(parents, child, upto)),
    decreases upto,
{
    let best = best_parent_among(parents, child, upto);
    let taken = parents.take(upto as int);
    if upto > 1 {
        lemma_best_parent_exists(parents, child, (upto - 1) as nat);
        let before = best_parent_among(parents, child, (upto - 1) as nat);
        let shorter = parents.take(upto - 1);
        assert forall|i: int| 0 <= i < taken.len() implies overlap(taken[i].cells, child)
            <= overlap(taken[best].cells, child) by {
            if i < upto - 1 {
                assert(shorter[i] == taken[i]);
                assert(shorter[before] == taken[before]);
            }
        }
        assert forall|i: int| 0 <= i < best implies overlap(taken[i].cells, child) < overlap(
            taken[best].cells,
            child,
        ) by {
            assert(shorter[i] == taken[i]);
            assert(shorter[before] == taken[before]);
        }
    }
}

/// Two fractions over the same denominator compare as their numerators do.
pub proof fn lemma_common_denominator(first: nat, second: nat, denominator: nat)
    requires
        denominator > 0,
    ensures
        (Fraction { numerator: first, denominator }).is_less_than(
            Fraction { numerator: second, denominator },
        ) <==> first < second,
{
    assert(first * denominator < second * denominator <==> first < second) by (nonlinear_arith)
        requires
            denominator > 0,
    ;
}

impl Cluster {
    /// Creates a new cluster from its identifier, its cells and the number of cells in all
    /// clusters combined.
    pub fn new(cluster_id: usize, cells: HashSet<usize>, total_cell_count: usize) -> (cluster: Self)
        ensures
            cluster@ == (ClusterModel { cluster_id, total_cell_count, cells: cells@ }),
    {
        Self { cluster_id, total_cell_count, cells }
    }

    /// The identifier of the cluster, as the input names it.
    pub fn cluster_id(&self) -> (cluster_id: usize)
        ensures
            cluster_id == self@.cluster_id,
    {
        self.cluster_id
    }

    /// The number of cells in all clusters of the clustering.
    pub fn total_cell_count(&self) -> (total_cell_count: usize)
        ensures
            total_cell_count == self@.total_cell_count,
    {
        self.total_cell_count
    }

    /// The IDs of the cells in this cluster.
    pub fn cells(&self) -> (cells: &HashSet<usize>)
        ensures
            cells@ == self@.cells,
    {
        &self.cells
    }

    /// Returns the absolute size (number of cells) of this cluster.
    pub fn absolute_cluster_size(&self) -> (size: usize)
        ensures
            size == self@.cells.len(),
    {
        self.cells.len()
    }

    /// Returns the size of this cluster relative to the number of cells in all clusters.
    pub fn relative_cluster_size(&self) -> (size: Ratio)
        ensures
            size@ == (Fraction {
                numerator: self@.cells.len(),
                denominator: self@.total_cell_count as nat,
            }),
    {
        Ratio::new(self.cells.len(), self.total_cell_count)
    }

    /// Returns the position of the best matching parent among the specified clusters: the
    /// first of those that hold the largest share of this cluster's cells.
    pub fn best_parent_position(&self, potential_parents: &[Cluster]) -> (result: Result<
        usize,
        StabilityError,
    >)
        ensures
            self@.cells.len() == 0 <==> result == Err::<usize, StabilityError>(
                StabilityError::EmptyChildCluster,
            ),
            self@.cells.len() > 0 && potential_parents@.len() == 0 <==> result == Err::<
                usize,
                StabilityError,
            >(StabilityError::NoMatchingParent),
            self@.cells.len() > 0 && potential_parents@.len() > 0 <==> result is Ok,
            result is Ok ==> is_best_parent(
                cluster_models(potential_parents@),
                self@.cells,
                result->Ok_0 as int,
            ),
    {
        let ghost parents = cluster_models(potential_parents@);
        let mut parent_cells: Vec<&HashSet<usize>> = Vec::new();
        let mut position: usize = 0;
        while position < potential_parents.len()
            invariant
                position <= potential_parents.len(),
                parent_cells.len() == position,
                forall|i: int| 0 <= i < position ==> parent_cells[i]@ == potential_parents[i]@.cells,
            decreases potential_parents.len() - position,
        {
            parent_cells.push(potential_parents[position].cells());
            position = position + 1;
        }
        assert(cell_sets(parent_cells@) =~= cells_of(parents));
        let overlaps = match cluster_overlaps_relative(parent_cells.as_slice(), &self.cells) {
            Ok(overlaps) => overlaps,
            Err(error) => {
                return Err(error);
            },
        };
        if potential_parents.len() == 0 {
            return Err(StabilityError::NoMatchingParent);
        }
        let ghost shares = relative_overlaps(cells_of(parents), self@.cells);
        assert(overlaps@.map_values(|ratio: Ratio| ratio@).len() == overlaps.len());
        assert forall|i: int| 0 <= i < overlaps.len() implies overlaps[i]@ == (Fraction {
            numerator: overlap(parents[i].cells, self@.cells),
            denominator: self@.cells.len(),
        }) by {
            assert(overlaps@.map_values(|ratio: Ratio| ratio@)[i] == overlaps[i]@);
            assert(shares[i] == crate::optimisation::relative_overlap(
                cells_of(parents)[i],
                self@.cells,
            ));
        }
        let mut best: usize = 0;
        let mut candidate: usize = 1;
        while candidate < overlaps.len()
            invariant
                1 <= candidate <= overlaps.len(),
                overlaps.len() == parents.len(),
                self@.cells.len() > 0,
                forall|i: int|
                    0 <= i < overlaps.len() ==> overlaps[i]@ == (Fraction {
                        numerator: overlap(parents[i].cells, self@.cells),
                        denominator: self@.cells.len(),
                    }),
                best < candidate,
                forall|i: int|
                    0 <= i < candidate ==> overlap(parents[i].cells, self@.cells) <= overlap(
                        parents[best as int].cells,
                        self@.cells,
                    ),
                forall|i: int|
                    0 <= i < best ==> overlap(parents[i].cells, self@.cells) < overlap(
                        parents[best as int].cells,
                        self@.cells,
                    ),
            decreases overlaps.len() - candidate,
        {
            proof {
                lemma_common_denominator(
                    overlap(parents[best as int].cells, self@.cells),
                    overlap(parents[candidate as int].cells, self@.cells),
                    self@.cells.len(),
                );
            }
            if overlaps[best].is_less_than(&overlaps[candidate]) {
                best = candidate;
            }
            candidate = candidate + 1;
        }
        Ok(best)
    }

    /// Returns the identifier of the best matching parent among the specified clusters: the
    /// first of those that hold the largest share of this cluster's cells. Fails if this
    /// cluster is empty or if there are no parents.
    pub fn best_parent(&self, potential_parents: &[Cluster]) -> (result: Result<
        usize,
        StabilityError,
    >)
        ensures
            self@.cells.len() == 0 <==> result == Err::<usize, StabilityError>(
                StabilityError::EmptyChildCluster,
            ),
            self@.cells.len() > 0 && potential_parents@.len() == 0 <==> result == Err::<
                usize,
                StabilityError,
            >(StabilityError::NoMatchingParent),
            self@.cells.len() > 0 && potential_parents@.len() > 0 <==> result is Ok,
            result is Ok ==> exists|position: int|
                is_best_parent(cluster_models(potential_parents@), self@.cells, position)
                    && result->Ok_0 == potential_parents[position]@.cluster_id,
    {
        match self.best_parent_position(potential_parents) {
            Ok(position) => {
                assert(is_best_parent(
                    cluster_models(potential_parents@),
                    self@.cells,
                    position as int,
                ));
                Ok(potential_parents[position].cluster_id())
            },
            Err(error) => Err(error),
        }
    }
}

/// A single cell with the cluster that it belongs to.
#[derive(Clone, Copy, Debug)]
pub struct CellSample {
    /// The ID of the cell.
    pub id: usize,
    /// The cluster the cell belongs to.
    pub cluster: usize,
}

impl CellSample {
    /// Creates a new cell with a specified ID and the ID of the cluster it belongs to.
    pub fn new(id: usize, cluster: usize) -> (cell: Self)
        ensures
            cell.id == id,
            cell.cluster == cluster,
    {
        Self { id, cluster }
    }

    /// The ID of the cell.
    pub fn id(&self) -> (id: usize)
        ensures
            id == self.id,
    {
        self.id
    }

    /// The cluster the cell belongs to.
    pub fn cluster(&self) -> (cluster: usize)
        ensures
            cluster == self.cluster,
    {
        self.cluster
    }
}

/// The IDs of the cells that carry the given cluster label.
pub open spec fn cells_with_label(cells: Seq<CellSample>, label: usize) -> Set<usize> {
    Set::new(
        |id: usize|
            exists|j: int| 0 <= j < cells.len() && cells[j].cluster == label && cells[j].id == id,
    )
}

/// The identifiers of a list of clusters.
pub open spec fn cluster_ids(clusters: Seq<ClusterModel>) -> Seq<usize> {
    Seq::new(clusters.len(), |i: int| clusters[i].cluster_id)
}

/// Whether the clusters are the cells grouped by their cluster label: one cluster for each
/// label that occurs, by ascending label, each with the IDs of the cells of its label and
/// with the number of all cells.
pub open spec fn is_grouping(cells: Seq<CellSample>, clusters: Seq<ClusterModel>) -> bool {
    &&& strictly_ascending(cluster_ids(clusters))
    &&& forall|i: int|
        0 <= i < clusters.len() ==> {
            &&& (#[trigger] clusters[i]).cells == cells_with_label(cells, clusters[i].cluster_id)
            &&& clusters[i].cells.finite()
            &&& clusters[i].cells.len() > 0
            &&& clusters[i].total_cell_count == cells.len()
        }
    &&& forall|j: int|
        0 <= j < cells.len() ==> cluster_ids(clusters).contains((#[trigger] cells[j]).cluster)
}

/// What a clustering at one resolution holds.
pub struct ResolutionModel {
    pub resolution: u64,
    pub clusters: Seq<ClusterModel>,
}

impl ResolutionModel {
    /// The clusters stand by ascending identifier, each of them has cells, and all of them
    /// hold the same number of cells in all clusters.
    pub open spec fn well_formed(self) -> bool {
        &&& strictly_ascending(cluster_ids(self.clusters))
        &&& forall|i: int|
            0 <= i < self.clusters.len() ==> (#[trigger] self.clusters[i]).cells.finite()
                && self.clusters[i].cells.len() > 0
        &&& forall|i: int, j: int|
            0 <= i < j < self.clusters.len() ==> (#[trigger] self.clusters[i]).total_cell_count
                == (#[trigger] self.clusters[j]).total_cell_count
    }
}

/// The cells of one clustering, grouped by cluster, with the resolution of the clustering.
///
/// The resolution is held as an integer that orders the resolutions as their values do.
#[derive(Debug)]
pub struct ResolutionData {
    /// The resolution used for clustering.
    resolution: u64,
    /// The cells grouped by cluster.
    clustered_cells: Vec<Cluster>,
}

impl View for ResolutionData {
    type V = ResolutionModel;

    closed spec fn view(&self) -> ResolutionModel {
        ResolutionModel {
            resolution: self.resolution,
            clusters: cluster_models(self.clustered_cells@),
        }
    }
}

/// The number of clusters of a clustering fits a machine integer.
pub proof fn lemma_cluster_count_fits(data: ResolutionData)
    ensures
        data@.clusters.len() <= usize::MAX,
{
    assert(data@.clusters.len() == data.clustered_cells.len());
}

impl ResolutionData {
    /// Every clustering is well formed.
    #[verifier::type_invariant]
    pub open spec fn is_valid(self) -> bool {
        self@.well_formed()
    }

    /// Creates the clustering of the specified cells at the specified resolution.
    pub fn new(resolution: u64, cells: &[CellSample]) -> (data: Self)
        ensures
            data@.resolution == resolution,
            is_grouping(cells@, data@.clusters),
    {
        let clustered_cells = Self::group_by_cluster(cells);
        Self { resolution, clustered_cells }
    }

    /// The resolution used for clustering.
    pub fn resolution(&self) -> (resolution: u64)
        ensures
            resolution == self@.resolution,
    {
        self.resolution
    }

    /// The cells grouped by cluster.
    pub fn clustered_cells(&self) -> (clusters: &Vec<Cluster>)
        ensures
            cluster_models(clusters@) == self@.clusters,
    {
        &self.clustered_cells
    }

    /// Returns the number of clusters the cells are grouped into.
    pub fn clusters(&self) -> (count: usize)
        ensures
            count == self@.clusters.len(),
    {
        self.clustered_cells.len()
    }

    /// Groups the cells by their respective clusters, by ascending cluster label.
    pub fn group_by_cluster(cells: &[CellSample]) -> (clusters: Vec<Cluster>)
        ensures
            is_grouping(cells@, cluster_models(clusters@)),
    {
        let total_cell_number = cells.len();
        let mut map: HashMap<usize, HashSet<usize>> = HashMap::new();
        let mut position: usize = 0;
        while position < cells.len()
            invariant
                position <= cells.len(),
                forall|label: usize|
                    map@.contains_key(label) <==> exists|j: int|
                        0 <= j < position && cells[j].cluster == label,
                forall|label: usize|
                    map@.contains_key(label) ==> (#[trigger] map@[label])@ == cells_with_label(
                        cells@.take(position as int),
                        label,
                    ),
            decreases cells.len() - position,
        {
            let label = cells[position].cluster;
            let id = cells[position].id;
            let ghost before = map@;
            let ghost shorter = cells@.take(position as int);
            let ghost longer = cells@.take(position + 1);
            let mut members = match map.remove(&label) {
                Some(members) => members,
                None => HashSet::new(),
            };
            proof {
                assert(members@ =~= cells_with_label(shorter, label)) by {
                    if !before.contains_key(label) {
                        assert forall|id: usize| !cells_with_label(shorter, label).contains(
                            id,
                        ) by {
                            if cells_with_label(shorter, label).contains(id) {
                                let j = choose|j: int|
                                    0 <= j < shorter.len() && shorter[j].cluster == label
                                        && shorter[j].id == id;
                                assert(cells[j].cluster == label);
                            }
                        }
                    }
                }
            }
            members.insert(id);
            map.insert(label, members);
            proof {
                assert forall|other: usize| map@.contains_key(other) implies (#[trigger] map@[other])@
                    == cells_with_label(longer, other) by {
                    let grown = cells_with_label(longer, other);
                    let old_cells = cells_with_label(shorter, other);
                    assert forall|cell: usize| old_cells.contains(cell) implies grown.contains(
                        cell,
                    ) by {
                        let j = choose|j: int|
                            0 <= j < shorter.len() && shorter[j].cluster == other && shorter[j].id
                                == cell;
                        assert(longer[j].cluster == other && longer[j].id == cell);
                    }
                    assert forall|cell: usize| grown.contains(cell) implies old_cells.contains(
                        cell,
                    ) || (other == label && cell == id) by {
                        let j = choose|j: int|
                            0 <= j < longer.len() && longer[j].cluster == other && longer[j].id
                                == cell;
                        if j < position {
                            assert(shorter[j].cluster == other && shorter[j].id == cell);
                        }
                    }
                    if other == label {
                        assert(longer[position as int].cluster == label && longer[position as int].id
                            == id);
                        assert(map@[other]@ =~= grown);
                    } else {
                        assert(map@[other] == before[other]);
                        assert(before[other]@ =~= grown);
                    }
                }
                assert forall|other: usize| map@.contains_key(other) <==> exists|j: int|
                    0 <= j < position + 1 && cells[j].cluster == other by {
                    if other == label {
                        assert(cells[position as int].cluster == other);
                    }
                }
            }
            position = position + 1;
        }
        assert(cells@.take(position as int) =~= cells@);
        let labels = ascending_keys(&map);
        let ghost grouped = map@;
        assert forall|i: int| 0 <= i < labels.len() implies map@.contains_key(
            #[trigger] labels[i],
        ) by {
            assert(labels@.contains(labels@[i]));
        }
        let mut clusters: Vec<Cluster> = Vec::new();
        let mut next: usize = 0;
        while next < labels.len()
            invariant
                next <= labels.len(),
                strictly_ascending(labels@),
                clusters.len() == next,
                total_cell_number == cells.len(),
                forall|label: usize| grouped.contains_key(label) <==> labels@.contains(label),
                forall|label: usize|
                    grouped.contains_key(label) ==> (#[trigger] grouped[label])@
                        == cells_with_label(cells@, label),
                forall|label: usize|
                    grouped.contains_key(label) <==> exists|j: int|
                        0 <= j < cells.len() && cells[j].cluster == label,
                forall|i: int|
                    next <= i < labels.len() ==> map@.contains_key(#[trigger] labels[i]) && map@[labels[i]]
                        == grouped[labels[i]],
                forall|i: int|
                    0 <= i < next ==> (#[trigger] clusters[i])@ == (ClusterModel {
                        cluster_id: labels[i],
                        total_cell_count: total_cell_number,
                        cells: cells_with_label(cells@, labels[i]),
                    }),
            decreases labels.len() - next,
        {
            let label = labels[next];
            assert(labels@.contains(label));
            match map.remove(&label) {
                Some(members) => {
                    clusters.push(Cluster::new(label, members, total_cell_number));
                },
                None => {},
            }
            next = next + 1;
        }
        proof {
            let models = cluster_models(clusters@);
            assert(cluster_ids(models) =~= labels@);
            assert forall|i: int| 0 <= i < models.len() implies {
                &&& (#[trigger] models[i]).cells == cells_with_label(cells@, models[i].cluster_id)
                &&& models[i].cells.finite()
                &&& models[i].cells.len() > 0
                &&& models[i].total_cell_count == cells.len()
            } by {
                assert(models[i] == clusters[i]@);
                let label = labels[i];
                assert(labels@.contains(label));
                let j = choose|j: int| 0 <= j < cells.len() && cells[j].cluster == label;
                assert(cells_with_label(cells@, label).contains(cells[j].id));
                lemma_cluster_is_finite(&clusters[i].cells);
            }
            assert forall|j: int| 0 <= j < cells.len() implies cluster_ids(models).contains(
                (#[trigger] cells[j]).cluster,
            ) by {
                assert(grouped.contains_key(cells[j].cluster));
            }
        }
        clusters
    }
}

/// The fractions that a list of ratios holds.
pub open spec fn ratio_values(ratios: Seq<Ratio>) -> Seq<Fraction> {
    Seq::new(ratios.len(), |i: int| ratios[i]@)
}

/// The mean of a list of fractions: their sum divided by their number.
pub open spec fn mean_of(fractions: Seq<Fraction>) -> Fraction {
    fraction_sum(fractions).divided_by(fractions.len())
}

/// The stability of each cluster of the child clustering against the clusters of the parent.
pub open spec fn stabilities_between(parent: ResolutionModel, child: ResolutionModel) -> Seq<
    Fraction,
> {
    Seq::new(
        child.clusters.len(),
        |j: int| stability(cells_of(parent.clusters), child.clusters[j].cells),
    )
}

/// What the stability data of two clusterings holds.
pub struct StabilityModel {
    pub clusters_parent: usize,
    pub clusters_child: usize,
    pub parent_resolution: u64,
    pub child_resolution: u64,
    pub stabilities: Seq<Fraction>,
}

/// The clustering with fewer clusters of the two.
pub open spec fn parent_of(first: ResolutionModel, second: ResolutionModel) -> ResolutionModel {
    if first.clusters.len() < second.clusters.len() {
        first
    } else {
        second
    }
}

/// The clustering with more clusters of the two.
pub open spec fn child_of(first: ResolutionModel, second: ResolutionModel) -> ResolutionModel {
    if first.clusters.len() < second.clusters.len() {
        second
    } else {
        first
    }
}

/// The stability data of two clusterings with different numbers of clusters.
pub open spec fn stability_between(first: ResolutionModel, second: ResolutionModel) -> StabilityModel {
    let parent = parent_of(first, second);
    let child = child_of(first, second);
    StabilityModel {
        clusters_parent: parent.clusters.len() as usize,
        clusters_child: child.clusters.len() as usize,
        parent_resolution: parent.resolution,
        child_resolution: child.resolution,
        stabilities: stabilities_between(parent, child),
    }
}

/// The mean stability of the clusters of the clustering with more clusters against the
/// clustering with fewer clusters.
pub open spec fn mean_stability_between(first: ResolutionModel, second: ResolutionModel) -> Fraction {
    mean_of(stabilities_between(parent_of(first, second), child_of(first, second)))
}

/// The mean stability between two well-formed clusterings with different numbers of
/// clusters has a denominator other than zero.
pub proof fn lemma_mean_stability_is_defined(first: ResolutionModel, second: ResolutionModel)
    requires
        first.well_formed(),
        second.well_formed(),
        first.clusters.len() != second.clusters.len(),
    ensures
        mean_stability_between(first, second).is_defined(),
{
    let parent = parent_of(first, second);
    let child = child_of(first, second);
    let stabilities = stabilities_between(parent, child);
    assert forall|j: int| 0 <= j < stabilities.len() implies stabilities[j].is_defined() by {
        let size = child.clusters[j].cells.len();
        assert(size * size > 0) by (nonlinear_arith)
            requires
                size > 0,
        ;
    }
    lemma_fraction_sum_is_defined(stabilities);
    let sum = fraction_sum(stabilities);
    assert(sum.denominator * stabilities.len() > 0) by (nonlinear_arith)
        requires
            sum.denominator > 0,
            stabilities.len() > 0,
    ;
}

/// The stabilities of the clusters of one clustering against the clusters of another.
pub struct ClusterStabilityData {
    /// The number of clusters in the parent clustering.
    clusters_parent: usize,
    /// The number of clusters in the child clustering.
    clusters_child: usize,
    /// The resolution the parent clustering was performed at.
    parent_resolution: u64,
    /// The resolution the child clustering was performed at.
    child_resolution: u64,
    /// The stabilities of each child cluster.
    stabilities: Vec<Ratio>,
}

impl View for ClusterStabilityData {
    type V = StabilityModel;

    closed spec fn view(&self) -> StabilityModel {
        StabilityModel {
            clusters_parent: self.clusters_parent,
            clusters_child: self.clusters_child,
            parent_resolution: self.parent_resolution,
            child_resolution: self.child_resolution,
            stabilities: ratio_values(self.stabilities@),
        }
    }
}

impl ClusterStabilityData {
    /// Creates the stability data of two clusterings performed at different resolutions: the
    /// one with fewer clusters is the parent. Fails if both have the same number of clusters.
    pub fn from_clustering(clustering_a: &ResolutionData, clustering_b: &ResolutionData) -> (result:
        Result<Self, StabilityError>)
        ensures
            clustering_a@.clusters.len() == clustering_b@.clusters.len() <==> result is Err,
            result is Err ==> result->Err_0 == StabilityError::EqualClusterCounts,
            result is Ok ==> result->Ok_0@ == stability_between(clustering_a@, clustering_b@),
    {
        let (parent_data, child_data) = if clustering_a.clusters() < clustering_b.clusters() {
            (clustering_a, clustering_b)
        } else if clustering_a.clusters() > clustering_b.clusters() {
            (clustering_b, clustering_a)
        } else {
            return Err(StabilityError::EqualClusterCounts);
        };
        proof {
            use_type_invariant(child_data);
        }
        let parents = parent_data.clustered_cells();
        let children = child_data.clustered_cells();
        let mut parent_cells: Vec<&HashSet<usize>> = Vec::new();
        let mut position: usize = 0;
        while position < parents.len()
            invariant
                position <= parents.len(),
                parent_cells.len() == position,
                forall|i: int| 0 <= i < position ==> parent_cells[i]@ == parents[i]@.cells,
            decreases parents.len() - position,
        {
            parent_cells.push(parents[position].cells());
            position = position + 1;
        }
        assert(cell_sets(parent_cells@) =~= cells_of(parent_data@.clusters));
        let mut stabilities: Vec<Ratio> = Vec::new();
        let mut child: usize = 0;
        while child < children.len()
            invariant
                child <= children.len(),
                stabilities.len() == child,
                child_data@.well_formed(),
                cluster_models(children@) == child_data@.clusters,
                cell_sets(parent_cells@) == cells_of(parent_data@.clusters),
                forall|j: int|
                    0 <= j < child ==> stabilities[j]@ == stability(
                        cells_of(parent_data@.clusters),
                        child_data@.clusters[j].cells,
                    ),
            decreases children.len() - child,
        {
            assert(child_data@.clusters[child as int] == children[child as int]@);
            match cluster_stability(parent_cells.as_slice(), children[child].cells()) {
                Ok(value) => {
                    stabilities.push(value);
                },
                Err(error) => {
                    return Err(error);
                },
            }
            child = child + 1;
        }
        assert(ratio_values(stabilities@) =~= stabilities_between(parent_data@, child_data@));
        Ok(
            Self {
                clusters_parent: parent_data.clusters(),
                clusters_child: child_data.clusters(),
                parent_resolution: parent_data.resolution(),
                child_resolution: child_data.resolution(),
                stabilities,
            },
        )
    }

    /// The number of clusters in the parent clustering.
    pub fn clusters_parent(&self) -> (count: usize)
        ensures
            count == self@.clusters_parent,
    {
        self.clusters_parent
    }

    /// The number of clusters in the child clustering.
    pub fn clusters_child(&self) -> (count: usize)
        ensures
            count == self@.clusters_child,
    {
        self.clusters_child
    }

    /// The resolution the parent clustering was performed at.
    pub fn parent_resolution(&self) -> (resolution: u64)
        ensures
            resolution == self@.parent_resolution,
    {
        self.parent_resolution
    }

    /// The resolution the child clustering was performed at.
    pub fn child_resolution(&self) -> (resolution: u64)
        ensures
            resolution == self@.child_resolution,
    {
        self.child_resolution
    }

    /// The stabilities of each child cluster.
    pub fn stabilities(&self) -> (stabilities: &Vec<Ratio>)
        ensures
            ratio_values(stabilities@) == self@.stabilities,
    {
        &self.stabilities
    }

    /// Returns the mean stability of all child clusters.
    pub fn mean_stability(&self) -> (mean: Ratio)
        ensures
            mean@ == mean_of(self@.stabilities),
    {
        let ghost values = ratio_values(self.stabilities@);
        let mut sum = Ratio::zero();
        let mut position: usize = 0;
        assert(values.take(0) =~= Seq::<Fraction>::empty());
        while position < self.stabilities.len()
            invariant
                position <= self.stabilities.len(),
                values == ratio_values(self.stabilities@),
                sum@ == fraction_sum(values.take(position as int)),
            decreases self.stabilities.len() - position,
        {
            proof {
                let longer = values.take(position + 1);
                assert(longer.drop_last() =~= values.take(position as int));
                assert(longer.last() == self.stabilities[position as int]@);
            }
            sum = sum.plus(&self.stabilities[position]);
            position = position + 1;
        }
        assert(values.take(position as int) =~= values);
        sum.divided_by(self.stabilities.len())
    }
}

} // verus!
