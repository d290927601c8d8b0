//! The lineage of the clusters of a branch: for every cluster, the clusters of the next
//! finer clustering that stem from it.

use crate::arrangement::{arranged, is_stable_order, sorted_numbers, sorted_positions, stable_order};
use crate::data::{
    best_parent_among, cluster_ids, cluster_models, is_best_parent, lemma_best_parent_exists,
    lemma_best_parent_is_unique, lemma_cluster_count_fits, ClusterModel, ResolutionData,
    ResolutionModel,
};
use crate::error::StabilityError;
use crate::graph::{clustering_models, node_models, NodeModel, ResolutionNode};
use std::rc::Rc;
use vstd::prelude::*;

verus! {

/// What a node of the lineage holds.
pub struct LineageNode {
    pub cluster_id: usize,
    pub child_clusters: Seq<usize>,
}

/// A node in the cluster lineage over different clustering resolutions.
#[derive(Debug)]
pub struct ClusterGenealogyNode {
    /// The ID of the cluster.
    cluster_id: usize,
    /// The IDs of the clusters of the next finer clustering that stem from this cluster.
    child_clusters: Vec<usize>,
}

impl View for ClusterGenealogyNode {
    type V = LineageNode;

    closed spec fn view(&self) -> LineageNode {
        LineageNode { cluster_id: self.cluster_id, child_clusters: self.child_clusters@ }
    }
}

impl Clone for ClusterGenealogyNode {
    fn clone(&self) -> (copy: Self)
        ensures
            copy@ == self@,
    {
        let mut child_clusters: Vec<usize> = Vec::new();
        let mut position: usize = 0;
        while position < self.child_clusters.len()
            invariant
                position <= self.child_clusters.len(),
                child_clusters@ =~= self.child_clusters@.take(position as int),
            decreases self.child_clusters.len() - position,
        {
            child_clusters.push(self.child_clusters[position]);
            position = position + 1;
        }
        assert(self.child_clusters@.take(position as int) =~= self.child_clusters@);
        Self { cluster_id: self.cluster_id, child_clusters }
    }
}

/// The node with its children in ascending order.
pub open spec fn with_sorted_children(node: LineageNode) -> LineageNode {
    LineageNode {
        cluster_id: node.cluster_id,
        child_clusters: arranged(node.child_clusters, stable_order(node.child_clusters)),
    }
}

impl ClusterGenealogyNode {
    /// Creates a new node with the specified cluster ID and no children.
    pub fn new(cluster_id: usize) -> (node: Self)
        ensures
            node@ == (LineageNode { cluster_id, child_clusters: Seq::empty() }),
    {
        Self { cluster_id, child_clusters: Vec::new() }
    }

    /// The ID of the cluster.
    pub fn cluster_id(&self) -> (cluster_id: usize)
        ensures
            cluster_id == self@.cluster_id,
    {
        self.cluster_id
    }

    /// The IDs of the clusters of the next finer clustering that stem from this cluster.
    pub fn child_clusters(&self) -> (child_clusters: &Vec<usize>)
        ensures
            child_clusters@ == self@.child_clusters,
    {
        &self.child_clusters
    }

    /// Adds a child cluster to this parent cluster.
    pub fn add_child_cluster(&mut self, child_cluster_id: usize)
        ensures
            final(self)@ == (LineageNode {
                cluster_id: old(self)@.cluster_id,
                child_clusters: old(self)@.child_clusters.push(child_cluster_id),
            }),
    {
        self.child_clusters.push(child_cluster_id);
    }

    /// Sorts the child clusters by ascending cluster ID.
    pub fn sort(&mut self)
        ensures
            final(self)@ == with_sorted_children(old(self)@),
    {
        self.child_clusters = sorted_numbers(&self.child_clusters);
    }
}

/// What an entry of the lineage holds.
pub struct LineageEntry {
    pub number_of_clusters: usize,
    pub resolution: u64,
    pub nodes: Seq<LineageNode>,
}

/// The lineage of all clusters of the clustering at one resolution.
#[derive(Debug)]
pub struct ClusterGenealogyEntry {
    /// The number of clusters present at this resolution.
    number_of_clusters: usize,
    /// The resolution of the clustering.
    resolution: u64,
    /// The nodes of the clusters, by ascending cluster ID.
    nodes: Vec<ClusterGenealogyNode>,
}

/// What a list of lineage nodes holds.
pub open spec fn lineage_nodes(nodes: Seq<ClusterGenealogyNode>) -> Seq<LineageNode> {
    Seq::new(nodes.len(), |i: int| nodes[i]@)
}

/// What a list of lineage entries holds.
pub open spec fn lineage_entries(entries: Seq<ClusterGenealogyEntry>) -> Seq<LineageEntry> {
    Seq::new(entries.len(), |i: int| entries[i]@)
}

impl View for ClusterGenealogyEntry {
    type V = LineageEntry;

    closed spec fn view(&self) -> LineageEntry {
        LineageEntry {
            number_of_clusters: self.number_of_clusters,
            resolution: self.resolution,
            nodes: lineage_nodes(self.nodes@),
        }
    }
}

impl Clone for ClusterGenealogyEntry {
    fn clone(&self) -> (copy: Self)
        ensures
            copy@ == self@,
    {
        let mut nodes: Vec<ClusterGenealogyNode> = Vec::new();
        let mut position: usize = 0;
        while position < self.nodes.len()
            invariant
                position <= self.nodes.len(),
                nodes.len() == position,
                forall|i: int| 0 <= i < position ==> nodes[i]@ == self.nodes[i]@,
            decreases self.nodes.len() - position,
        {
            nodes.push(self.nodes[position].clone());
            position = position + 1;
        }
        assert(lineage_nodes(nodes@) =~= lineage_nodes(self.nodes@));
        Self { number_of_clusters: self.number_of_clusters, resolution: self.resolution, nodes }
    }
}

/// The cluster IDs of a list of nodes.
pub open spec fn node_ids(nodes: Seq<LineageNode>) -> Seq<usize> {
    Seq::new(nodes.len(), |i: int| nodes[i].cluster_id)
}

/// The nodes, each with its children in ascending order.
pub open spec fn all_with_sorted_children(nodes: Seq<LineageNode>) -> Seq<LineageNode> {
    Seq::new(nodes.len(), |i: int| with_sorted_children(nodes[i]))
}

/// The entry of a clustering with the given nodes: the children of every node by ascending
/// cluster ID, and the nodes themselves by ascending cluster ID, nodes with the same ID in
/// the order in which they came.
pub open spec fn entry_of(clustering: ResolutionModel, nodes: Seq<LineageNode>) -> LineageEntry {
    LineageEntry {
        number_of_clusters: clustering.clusters.len() as usize,
        resolution: clustering.resolution,
        nodes: arranged(all_with_sorted_children(nodes), stable_order(node_ids(nodes))),
    }
}

impl ClusterGenealogyEntry {
    /// Creates the lineage entry of a clustering from the nodes of its clusters.
    pub fn new(resolution_data: &ResolutionData, nodes: Vec<ClusterGenealogyNode>) -> (entry: Self)
        ensures
            entry@ == entry_of(resolution_data@, lineage_nodes(nodes@)),
    {
        let mut sorted: Vec<ClusterGenealogyNode> = Vec::new();
        let mut ids: Vec<usize> = Vec::new();
        let mut position: usize = 0;
        while position < nodes.len()
            invariant
                position <= nodes.len(),
                sorted.len() == position,
                ids.len() == position,
                forall|i: int| 0 <= i < position ==> sorted[i]@ == with_sorted_children(nodes[i]@),
                forall|i: int| 0 <= i < position ==> ids[i] == nodes[i]@.cluster_id,
            decreases nodes.len() - position,
        {
            let mut node = nodes[position].clone();
            node.sort();
            ids.push(node.cluster_id());
            sorted.push(node);
            position = position + 1;
        }
        assert(ids@ =~= node_ids(lineage_nodes(nodes@)));
        let order = sorted_positions(&ids);
        let mut arranged_nodes: Vec<ClusterGenealogyNode> = Vec::new();
        let mut place: usize = 0;
        while place < order.len()
            invariant
                place <= order.len(),
                is_stable_order(ids@, order@),
                ids.len() == sorted.len(),
                arranged_nodes.len() == place,
                forall|i: int| 0 <= i < place ==> arranged_nodes[i]@ == sorted[order[i] as int]@,
            decreases order.len() - place,
        {
            arranged_nodes.push(sorted[order[place]].clone());
            place = place + 1;
        }
        assert(lineage_nodes(arranged_nodes@) =~= arranged(
            all_with_sorted_children(lineage_nodes(nodes@)),
            order@,
        ));
        Self {
            number_of_clusters: resolution_data.clusters(),
            resolution: resolution_data.resolution(),
            nodes: arranged_nodes,
        }
    }

    /// Creates a lineage entry that holds the given values as they are.
    pub fn from_parts(
        number_of_clusters: usize,
        resolution: u64,
        nodes: Vec<ClusterGenealogyNode>,
    ) -> (entry: Self)
        ensures
            entry@ == (LineageEntry {
                number_of_clusters,
                resolution,
                nodes: lineage_nodes(nodes@),
            }),
    {
        Self { number_of_clusters, resolution, nodes }
    }

    /// The number of clusters present at this resolution.
    pub fn number_of_clusters(&self) -> (count: usize)
        ensures
            count == self@.number_of_clusters,
    {
        self.number_of_clusters
    }

    /// The resolution of the clustering.
    pub fn resolution(&self) -> (resolution: u64)
        ensures
            resolution == self@.resolution,
    {
        self.resolution
    }

    /// The nodes of the clusters, by ascending cluster ID.
    pub fn nodes(&self) -> (nodes: &Vec<ClusterGenealogyNode>)
        ensures
            lineage_nodes(nodes@) == self@.nodes,
    {
        &self.nodes
    }
}

/// The IDs of those of the first `upto` child clusters whose best parent stands at position
/// `parent` among the parents, in the order of the child clusters.
pub open spec fn children_among(
    children: Seq<ClusterModel>,
    parents: Seq<ClusterModel>,
    parent: int,
    upto: nat,
) -> Seq<usize>
    decreases upto,
{
    if upto == 0 {
        Seq::empty()
    } else {
        let before = children_among(children, parents, parent, (upto - 1) as nat);
        if is_best_parent(parents, children[upto - 1].cells, parent) {
            before.push(children[upto - 1].cluster_id)
        } else {
            before
        }
    }
}

/// The nodes of the clusters of the finest clustering: none has children.
pub open spec fn leaf_nodes(clustering: ResolutionModel) -> Seq<LineageNode> {
    Seq::new(
        clustering.clusters.len(),
        |i: int|
            LineageNode {
                cluster_id: clustering.clusters[i].cluster_id,
                child_clusters: Seq::empty(),
            },
    )
}

/// The nodes of the clusters of the clustering `top`, each with the clusters of the finer
/// clustering `bottom` of which it is the best parent.
pub open spec fn parent_nodes(top: ResolutionModel, bottom: ResolutionModel) -> Seq<LineageNode> {
    Seq::new(
        top.clusters.len(),
        |i: int|
            LineageNode {
                cluster_id: top.clusters[i].cluster_id,
                child_clusters: children_among(
                    bottom.clusters,
                    top.clusters,
                    i,
                    bottom.clusters.len(),
                ),
            },
    )
}

/// What a list of borrowed clusterings holds.
pub open spec fn borrowed_models(data: Seq<&ResolutionData>) -> Seq<ResolutionModel> {
    Seq::new(data.len(), |i: int| data[i]@)
}

/// Keys by which the clusterings stand in descending order of their number of clusters.
pub open spec fn descending_keys(data: Seq<ResolutionModel>) -> Seq<usize> {
    Seq::new(data.len(), |i: int| (usize::MAX - data[i].clusters.len()) as usize)
}

/// The entries of the clusterings in the given order, which runs from the finest clustering
/// to the coarsest: the first has nodes without children, and every later one has the
/// clusters of the one before it as children.
pub open spec fn lineage_steps(data: Seq<ResolutionModel>, order: Seq<usize>) -> Seq<LineageEntry> {
    Seq::new(
        order.len(),
        |k: int|
            if k == 0 {
                entry_of(data[order[0] as int], leaf_nodes(data[order[0] as int]))
            } else {
                entry_of(
                    data[order[k] as int],
                    parent_nodes(data[order[k] as int], data[order[k - 1] as int]),
                )
            },
    )
}

/// The numbers of clusters of a list of entries.
pub open spec fn entry_counts(entries: Seq<LineageEntry>) -> Seq<usize> {
    Seq::new(entries.len(), |i: int| entries[i].number_of_clusters)
}

/// The lineage of the clusterings: they are related from the finest to the coarsest,
/// clusterings with the same number of clusters in the order in which they came, and the
/// entries stand by ascending number of clusters.
pub open spec fn genealogy(data: Seq<ResolutionModel>) -> Seq<LineageEntry> {
    let steps = lineage_steps(data, stable_order(descending_keys(data)));
    arranged(steps, stable_order(entry_counts(steps)))
}

/// Whether a clustering without clusters stands beside one with clusters, so that the
/// clusters of the latter find no parent.
pub open spec fn lacks_parents(data: Seq<ResolutionModel>) -> bool {
    exists|i: int, j: int|
        0 <= i < data.len() && 0 <= j < data.len() && data[i].clusters.len() == 0
            && data[j].clusters.len() > 0
}

/// The nodes of the clusters of a clustering, without children.
fn leaves_of(clustering: &ResolutionData) -> (nodes: Vec<ClusterGenealogyNode>)
    ensures
        lineage_nodes(nodes@) == leaf_nodes(clustering@),
{
    let clusters = clustering.clustered_cells();
    let mut nodes: Vec<ClusterGenealogyNode> = Vec::new();
    let mut position: usize = 0;
    while position < clusters.len()
        invariant
            position <= clusters.len(),
            cluster_models(clusters@) == clustering@.clusters,
            nodes.len() == position,
            forall|i: int|
                0 <= i < position ==> nodes[i]@ == (LineageNode {
                    cluster_id: clustering@.clusters[i].cluster_id,
                    child_clusters: Seq::empty(),
                }),
        decreases clusters.len() - position,
    {
        assert(cluster_models(clusters@)[position as int] == clusters[position as int]@);
        nodes.push(ClusterGenealogyNode::new(clusters[position].cluster_id()));
        position = position + 1;
    }
    assert(lineage_nodes(nodes@) =~= leaf_nodes(clustering@));
    nodes
}

/// The nodes of the clusters of the clustering `top`, each with the clusters of the finer
/// clustering `bottom` of which it is the best parent. Fails if `bottom` has clusters and
/// `top` has none.
fn parents_of(top: &ResolutionData, bottom: &ResolutionData) -> (result: Result<
    Vec<ClusterGenealogyNode>,
    StabilityError,
>)
    ensures
        top@.clusters.len() == 0 && bottom@.clusters.len() > 0 <==> result is Err,
        result is Err ==> result->Err_0 == StabilityError::NoMatchingParent,
        result is Ok ==> lineage_nodes(result->Ok_0@) == parent_nodes(top@, bottom@),
{
    let parents = top.clustered_cells();
    let children = bottom.clustered_cells();
    proof {
        use_type_invariant(bottom);
    }
    let mut chosen: Vec<usize> = Vec::new();
    let mut child: usize = 0;
    while child < children.len()
        invariant
            child <= children.len(),
            cluster_models(parents@) == top@.clusters,
            cluster_models(children@) == bottom@.clusters,
            bottom@.well_formed(),
            chosen.len() == child,
            child > 0 ==> parents.len() > 0,
            forall|c: int|
                0 <= c < child ==> is_best_parent(
                    top@.clusters,
                    bottom@.clusters[c].cells,
                    #[trigger] chosen[c] as int,
                ),
        decreases children.len() - child,
    {
        assert(cluster_models(children@)[child as int] == children[child as int]@);
        match children[child].best_parent_position(parents.as_slice()) {
            Ok(position) => {
                chosen.push(position);
            },
            Err(error) => {
                return Err(error);
            },
        }
        child = child + 1;
    }
    let mut nodes: Vec<ClusterGenealogyNode> = Vec::new();
    let mut parent: usize = 0;
    while parent < parents.len()
        invariant
            parent <= parents.len(),
            cluster_models(parents@) == top@.clusters,
            cluster_models(children@) == bottom@.clusters,
            chosen.len() == children.len(),
            forall|c: int|
                0 <= c < children.len() ==> is_best_parent(
                    top@.clusters,
                    bottom@.clusters[c].cells,
                    #[trigger] chosen[c] as int,
                ),
            nodes.len() == parent,
            forall|i: int| 0 <= i < parent ==> nodes[i]@ == parent_nodes(top@, bottom@)[i],
        decreases parents.len() - parent,
    {
        assert(cluster_models(parents@)[parent as int] == parents[parent as int]@);
        let mut node = ClusterGenealogyNode::new(parents[parent].cluster_id());
        let mut child: usize = 0;
        while child < children.len()
            invariant
                child <= children.len(),
                parent < parents.len(),
                cluster_models(parents@) == top@.clusters,
                cluster_models(children@) == bottom@.clusters,
                chosen.len() == children.len(),
                forall|c: int|
                    0 <= c < children.len() ==> is_best_parent(
                        top@.clusters,
                        bottom@.clusters[c].cells,
                        #[trigger] chosen[c] as int,
                    ),
                node@ == (LineageNode {
                    cluster_id: top@.clusters[parent as int].cluster_id,
                    child_clusters: children_among(
                        bottom@.clusters,
                        top@.clusters,
                        parent as int,
                        child as nat,
                    ),
                }),
            decreases children.len() - child,
        {
            proof {
                assert(cluster_models(children@)[child as int] == children[child as int]@);
                assert(is_best_parent(
                    top@.clusters,
                    bottom@.clusters[child as int].cells,
                    chosen[child as int] as int,
                ));
                if is_best_parent(top@.clusters, bottom@.clusters[child as int].cells, parent as int) {
                    lemma_best_parent_is_unique(
                        top@.clusters,
                        bottom@.clusters[child as int].cells,
                        parent as int,
                        chosen[child as int] as int,
                    );
                }
            }
            if chosen[child] == parent {
                node.add_child_cluster(children[child].cluster_id());
            }
            child = child + 1;
        }
        nodes.push(node);
        parent = parent + 1;
    }
    assert(lineage_nodes(nodes@) =~= parent_nodes(top@, bottom@));
    Ok(nodes)
}

impl ClusterGenealogyEntry {
    /// Builds the lineage of the clusters of a set of clusterings. Fails if one clustering
    /// has clusters and another has none.
    pub fn from_resolution_data(data: &[&ResolutionData]) -> (result: Result<
        Vec<ClusterGenealogyEntry>,
        StabilityError,
    >)
        ensures
            lacks_parents(borrowed_models(data@)) <==> result is Err,
            result is Err ==> result->Err_0 == StabilityError::NoMatchingParent,
            result is Ok ==> lineage_entries(result->Ok_0@) == genealogy(borrowed_models(data@)),
    {
        let ghost models = borrowed_models(data@);
        let mut keys: Vec<usize> = Vec::new();
        let mut position: usize = 0;
        while position < data.len()
            invariant
                position <= data.len(),
                models == borrowed_models(data@),
                keys.len() == position,
                forall|i: int|
                    0 <= i < position ==> keys[i] == usize::MAX - models[i].clusters.len(),
            decreases data.len() - position,
        {
            assert(models[position as int] == data[position as int]@);
            keys.push(usize::MAX - data[position].clusters());
            position = position + 1;
        }
        assert(keys@ =~= descending_keys(models));
        let order = sorted_positions(&keys);
        let mut entries: Vec<ClusterGenealogyEntry> = Vec::new();
        if data.len() == 0 {
            assert(lineage_entries(entries@) =~= genealogy(models)) by {
                let steps = lineage_steps(models, order@);
                assert(steps.len() == 0);
                crate::arrangement::lemma_stable_order_exists(entry_counts(steps));
            }
            return Ok(entries);
        }
        proof {
            assert forall|a: int, b: int| 0 <= a < b < order.len() implies models[order[a] as int].clusters.len()
                >= models[order[b] as int].clusters.len() by {
                assert(crate::arrangement::comes_before(keys@, order[a], order[b]));
                lemma_cluster_count_fits(*data[order[a] as int]);
                lemma_cluster_count_fits(*data[order[b] as int]);
            }
        }
        let bottom_resolution = data[order[0]];
        assert(models[order[0] as int] == bottom_resolution@);
        entries.push(ClusterGenealogyEntry::new(bottom_resolution, leaves_of(bottom_resolution)));
        let mut step: usize = 1;
        while step < order.len()
            invariant
                1 <= step <= order.len(),
                models == borrowed_models(data@),
                is_stable_order(keys@, order@),
                keys.len() == data.len(),
                entries.len() == step,
                forall|k: int|
                    0 <= k < step ==> (#[trigger] entries[k])@ == lineage_steps(models, order@)[k],
                models[order[0] as int].clusters.len() == 0 || forall|k: int|
                    0 <= k < step ==> models[#[trigger] order[k] as int].clusters.len() > 0,
            decreases order.len() - step,
        {
            let top_resolution = data[order[step]];
            let bottom_resolution = data[order[step - 1]];
            assert(models[order[step as int] as int] == top_resolution@);
            assert(models[order[step - 1] as int] == bottom_resolution@);
            let nodes = match parents_of(top_resolution, bottom_resolution) {
                Ok(nodes) => nodes,
                Err(error) => {
                    assert(lacks_parents(models));
                    return Err(error);
                },
            };
            entries.push(ClusterGenealogyEntry::new(top_resolution, nodes));
            step = step + 1;
        }
        proof {
            if lacks_parents(models) {
                let (i, j) = choose|i: int, j: int|
                    0 <= i < models.len() && 0 <= j < models.len() && models[i].clusters.len() == 0
                        && models[j].clusters.len() > 0;
                assert(crate::arrangement::lists(order@, i as nat));
                assert(crate::arrangement::lists(order@, j as nat));
                let a = choose|a: int| 0 <= a < order.len() && order[a] == i as nat;
                let b = choose|b: int| 0 <= b < order.len() && order[b] == j as nat;
                if models[order[0] as int].clusters.len() == 0 {
                    if b > 0 {
                        assert(models[order[0] as int].clusters.len()
                            >= models[order[b] as int].clusters.len());
                    }
                } else {
                    assert(models[order[a] as int].clusters.len() > 0);
                }
            }
        }
        let ghost steps = lineage_entries(entries@);
        assert(steps =~= lineage_steps(models, order@));
        let mut counts: Vec<usize> = Vec::new();
        let mut place: usize = 0;
        while place < entries.len()
            invariant
                place <= entries.len(),
                counts.len() == place,
                forall|i: int| 0 <= i < place ==> counts[i] == entries[i]@.number_of_clusters,
            decreases entries.len() - place,
        {
            counts.push(entries[place].number_of_clusters());
            place = place + 1;
        }
        assert(counts@ =~= entry_counts(steps));
        let ascending = sorted_positions(&counts);
        let mut sorted: Vec<ClusterGenealogyEntry> = Vec::new();
        let mut place: usize = 0;
        while place < ascending.len()
            invariant
                place <= ascending.len(),
                is_stable_order(counts@, ascending@),
                counts.len() == entries.len(),
                sorted.len() == place,
                forall|i: int| 0 <= i < place ==> sorted[i]@ == entries[ascending[i] as int]@,
            decreases ascending.len() - place,
        {
            sorted.push(entries[ascending[place]].clone());
            place = place + 1;
        }
        assert(lineage_entries(sorted@) =~= arranged(steps, ascending@));
        Ok(sorted)
    }
}

/// Whether a clustering of the pool has the given resolution.
pub open spec fn holds_resolution(pool: Seq<ResolutionModel>, resolution: u64) -> bool {
    exists|i: int| 0 <= i < pool.len() && pool[i].resolution == resolution
}

/// Whether the clustering at the given position is the first of the pool with the given
/// resolution.
pub open spec fn is_first_match(pool: Seq<ResolutionModel>, resolution: u64, position: int) -> bool {
    &&& 0 <= position < pool.len()
    &&& pool[position].resolution == resolution
    &&& forall|j: int| 0 <= j < position ==> pool[j].resolution != resolution
}

/// Whether `found` is the first clustering of the pool with the given resolution.
pub open spec fn is_first_with_resolution(
    resolutions: Seq<ResolutionData>,
    resolution: u64,
    found: ResolutionData,
) -> bool {
    exists|i: int|
        is_first_match(clustering_models(resolutions), resolution, i) && found == resolutions[i]
}

/// Returns, for every node of the branch, the first clustering of the pool that has the
/// resolution of the node. Fails if the pool holds no clustering with the resolution of
/// some node.
pub fn branch_to_resolution_data<'a>(
    branch: &[Rc<ResolutionNode>],
    resolutions: &'a [ResolutionData],
) -> (result: Result<Vec<&'a ResolutionData>, StabilityError>)
    ensures
        (forall|k: int|
            0 <= k < branch@.len() ==> holds_resolution(
                clustering_models(resolutions@),
                (#[trigger] branch@[k])@.resolution,
            )) <==> result is Ok,
        result is Err ==> result->Err_0 == StabilityError::MissingResolutionInPool,
        result is Ok ==> result->Ok_0@.len() == branch@.len(),
        result is Ok ==> forall|k: int|
            0 <= k < branch@.len() ==> is_first_with_resolution(
                resolutions@,
                branch@[k]@.resolution,
                *(#[trigger] result->Ok_0@[k]),
            ),
{
    let ghost pool = clustering_models(resolutions@);
    let mut branch_resolution_data: Vec<&'a ResolutionData> = Vec::new();
    let mut place: usize = 0;
    while place < branch.len()
        invariant
            place <= branch.len(),
            pool == clustering_models(resolutions@),
            branch_resolution_data.len() == place,
            forall|k: int|
                0 <= k < place ==> holds_resolution(pool, (#[trigger] branch@[k])@.resolution),
            forall|k: int|
                0 <= k < place ==> is_first_with_resolution(
                    resolutions@,
                    branch@[k]@.resolution,
                    *(#[trigger] branch_resolution_data@[k]),
                ),
        decreases branch.len() - place,
    {
        let wanted = branch[place].resolution();
        let mut position: usize = 0;
        while position < resolutions.len() && resolutions[position].resolution() != wanted
            invariant
                position <= resolutions.len(),
                pool == clustering_models(resolutions@),
                forall|j: int| 0 <= j < position ==> pool[j].resolution != wanted,
            decreases resolutions.len() - position,
        {
            assert(pool[position as int] == resolutions[position as int]@);
            position = position + 1;
        }
        if position == resolutions.len() {
            assert(!holds_resolution(pool, branch@[place as int]@.resolution));
            return Err(StabilityError::MissingResolutionInPool);
        }
        assert(pool[position as int] == resolutions[position as int]@);
        assert(is_first_match(pool, wanted, position as int));
        assert(is_first_with_resolution(resolutions@, wanted, resolutions@[position as int]));
        branch_resolution_data.push(&resolutions[position]);
        place = place + 1;
    }
    Ok(branch_resolution_data)
}

/// The numbers of clusters of a list of nodes.
pub open spec fn cluster_counts(nodes: Seq<NodeModel>) -> Seq<usize> {
    Seq::new(nodes.len(), |i: int| nodes[i].number_of_clusters)
}

/// Whether the node at the given position of a branch was found stable. A node for which
/// no verdict is given counts as not stable.
pub open spec fn is_stable_at(verdicts: Seq<bool>, position: int) -> bool {
    0 <= position < verdicts.len() && verdicts[position]
}

/// Removes all nodes from the branch that come after the first node that was not found
/// stable, that node included, when the nodes are taken by ascending number of clusters:
/// a later node is discarded even where it was itself found stable. `stable` holds, for
/// every node of the branch, whether the stability predicted for its number of clusters
/// reaches the threshold. The root is taken like any other node: it is kept where it was
/// found stable, and where it was not, nothing is kept.
pub fn trim_branch(branch: &[Rc<ResolutionNode>], stable: &[bool]) -> (trimmed: Vec<
    Rc<ResolutionNode>,
>)
    ensures
        trimmed@.len() <= branch@.len(),
        trimmed@ == arranged(branch@, stable_order(cluster_counts(node_models(branch@)))).take(
            trimmed@.len() as int,
        ),
        forall|k: int|
            0 <= k < trimmed@.len() ==> is_stable_at(
                stable@,
                #[trigger] stable_order(cluster_counts(node_models(branch@)))[k] as int,
            ),
        trimmed@.len() < branch@.len() ==> !is_stable_at(
            stable@,
            stable_order(cluster_counts(node_models(branch@)))[trimmed@.len() as int] as int,
        ),
{
    let mut counts: Vec<usize> = Vec::new();
    let mut position: usize = 0;
    while position < branch.len()
        invariant
            position <= branch.len(),
            counts.len() == position,
            forall|i: int| 0 <= i < position ==> counts[i] == branch@[i]@.number_of_clusters,
        decreases branch.len() - position,
    {
        counts.push(branch[position].number_of_clusters());
        position = position + 1;
    }
    assert(counts@ =~= cluster_counts(node_models(branch@)));
    let order = sorted_positions(&counts);
    let mut trimmed_branch: Vec<Rc<ResolutionNode>> = Vec::new();
    let mut place: usize = 0;
    let mut crossed = false;
    while place < order.len() && !crossed
        invariant
            place <= order.len(),
            order.len() == branch.len(),
            is_stable_order(counts@, order@),
            counts.len() == branch.len(),
            !crossed ==> trimmed_branch.len() == place,
            crossed ==> trimmed_branch.len() < branch.len() && !is_stable_at(
                stable@,
                order[trimmed_branch.len() as int] as int,
            ),
            forall|k: int| 0 <= k < trimmed_branch.len() ==> trimmed_branch[k] == branch@[order[k] as int],
            forall|k: int|
                0 <= k < trimmed_branch.len() ==> is_stable_at(stable@, #[trigger] order[k] as int),
        decreases order.len() - place, if crossed { 0int } else { 1int },
    {
        let node = order[place];
        if node < stable.len() && stable[node] {
            trimmed_branch.push(Rc::clone(&branch[node]));
            place = place + 1;
        } else {
            crossed = true;
        }
    }
    assert(trimmed_branch@ =~= arranged(branch@, order@).take(trimmed_branch@.len() as int));
    trimmed_branch
}

/// A cluster is among the children of a parent exactly if that parent is the best parent of
/// a child cluster with its identifier.
pub proof fn lemma_children_are_those_of_best_parent(
    children: Seq<ClusterModel>,
    parents: Seq<ClusterModel>,
    parent: int,
    upto: nat,
    cluster_id: usize,
)
    requires
        upto <= children.len(),
    ensures
        children_among(children, parents, parent, upto).contains(cluster_id) <==> exists|c: int|
            0 <= c < upto && children[c].cluster_id == cluster_id && is_best_parent(
                parents,
                children[c].cells,
                parent,
            ),
    decreases upto,
{
    if upto > 0 {
        let before = children_among(children, parents, parent, (upto - 1) as nat);
        let listed = children_among(children, parents, parent, upto);
        lemma_children_are_those_of_best_parent(
            children,
            parents,
            parent,
            (upto - 1) as nat,
            cluster_id,
        );
        if listed.contains(cluster_id) {
            let i = choose|i: int| 0 <= i < listed.len() && listed[i] == cluster_id;
            if i < before.len() {
                assert(before[i] == cluster_id);
            } else {
                assert(children[upto - 1].cluster_id == cluster_id);
            }
        }
        if exists|c: int|
            0 <= c < upto && children[c].cluster_id == cluster_id && is_best_parent(
                parents,
                children[c].cells,
                parent,
            ) {
            let c = choose|c: int|
                0 <= c < upto && children[c].cluster_id == cluster_id && is_best_parent(
                    parents,
                    children[c].cells,
                    parent,
                );
            if c < upto - 1 {
                assert(before.contains(cluster_id));
                let i = choose|i: int| 0 <= i < before.len() && before[i] == cluster_id;
                assert(listed[i] == cluster_id);
            } else {
                assert(listed[before.len() as int] == cluster_id);
            }
        }
    }
}

/// Every cluster of the finer clustering is a child of exactly one cluster of the coarser
/// clustering, if that has clusters: of its best parent.
pub proof fn lemma_every_cluster_has_one_parent(
    top: ResolutionModel,
    bottom: ResolutionModel,
    child: int,
)
    requires
        top.clusters.len() > 0,
        bottom.well_formed(),
        0 <= child < bottom.clusters.len(),
    ensures
        exists|parent: int|
            0 <= parent < top.clusters.len() && is_best_parent(
                top.clusters,
                bottom.clusters[child].cells,
                parent,
            ),
        forall|parent: int|
            0 <= parent < top.clusters.len() ==> ((#[trigger] parent_nodes(
                top,
                bottom,
            )[parent]).child_clusters.contains(bottom.clusters[child].cluster_id) <==> is_best_parent(
                top.clusters,
                bottom.clusters[child].cells,
                parent,
            )),
{
    let cells = bottom.clusters[child].cells;
    let cluster_id = bottom.clusters[child].cluster_id;
    lemma_best_parent_exists(top.clusters, cells, top.clusters.len());
    assert(top.clusters.take(top.clusters.len() as int) =~= top.clusters);
    let best = best_parent_among(top.clusters, cells, top.clusters.len());
    assert(is_best_parent(top.clusters, cells, best));
    assert forall|parent: int| 0 <= parent < top.clusters.len() implies ((#[trigger] parent_nodes(
        top,
        bottom,
    )[parent]).child_clusters.contains(cluster_id) <==> is_best_parent(
        top.clusters,
        cells,
        parent,
    )) by {
        lemma_children_are_those_of_best_parent(
            bottom.clusters,
            top.clusters,
            parent,
            bottom.clusters.len(),
            cluster_id,
        );
        if exists|c: int|
            0 <= c < bottom.clusters.len() && bottom.clusters[c].cluster_id == cluster_id
                && is_best_parent(top.clusters, bottom.clusters[c].cells, parent) {
            let c = choose|c: int|
                0 <= c < bottom.clusters.len() && bottom.clusters[c].cluster_id == cluster_id
                    && is_best_parent(top.clusters, bottom.clusters[c].cells, parent);
            assert(cluster_ids(bottom.clusters)[c] == cluster_ids(bottom.clusters)[child]);
            if c < child {
                assert(cluster_ids(bottom.clusters)[c] < cluster_ids(bottom.clusters)[child]);
            } else if child < c {
                assert(cluster_ids(bottom.clusters)[child] < cluster_ids(bottom.clusters)[c]);
            }
        }
    }
}

} // verus!
