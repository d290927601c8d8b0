//! The graph of clusterings, layered by number of clusters, in which every clustering points
//! to the parent through which the summed stability from a root is largest.

use crate::arrangement::{ascending_keys, strictly_ascending};
use crate::data::{
    lemma_mean_stability_is_defined, mean_stability_between, ClusterStabilityData, ResolutionData,
    ResolutionModel,
};
use crate::ratio::{
    fraction_sum, lemma_at_most_carries_over, lemma_at_most_then_less, lemma_plus_keeps_order,
    lemma_same_value_compares_alike, lemma_sum_is_defined, Fraction, Ratio,
};
use std::collections::HashMap;
use std::rc::Rc;
use vstd::prelude::*;

verus! {

broadcast use {vstd::group_vstd_default, vstd::std_specs::hash::group_hash_axioms};

/// What a node of the resolution graph holds, with the nodes it descends from.
pub struct NodeModel {
    pub resolution: u64,
    pub number_of_clusters: usize,
    pub optimal_parent: Option<Box<NodeModel>>,
    pub optimal_stability: Option<Fraction>,
    pub total_stability: Fraction,
    pub depth: usize,
}

impl NodeModel {
    /// The chain from the node to its root, the node first.
    pub open spec fn branch(self) -> Seq<NodeModel>
        decreases self,
    {
        match self.optimal_parent {
            None => seq![self],
            Some(parent) => seq![self] + parent.branch(),
        }
    }

    /// The stabilities of the transitions from the root to the node, the root's first.
    pub open spec fn edge_stabilities(self) -> Seq<Fraction>
        decreases self,
    {
        match (self.optimal_parent, self.optimal_stability) {
            (Some(parent), Some(stability)) => parent.edge_stabilities().push(stability),
            _ => Seq::empty(),
        }
    }

    /// A root has no stability, a total of zero and depth zero. Any other node has the
    /// stability of the transition from its parent, its parent's total plus that stability,
    /// and its parent's depth plus one; and its parent is well formed.
    pub open spec fn well_formed(self) -> bool
        decreases self,
    {
        match self.optimal_parent {
            None => {
                &&& self.optimal_stability is None
                &&& self.total_stability == (Fraction { numerator: 0, denominator: 1 })
                &&& self.depth == 0
            },
            Some(parent) => {
                &&& parent.well_formed()
                &&& self.optimal_stability is Some
                &&& self.total_stability == parent.total_stability.plus(
                    self.optimal_stability->Some_0,
                )
                &&& self.depth == parent.depth + 1
            },
        }
    }
}

/// The total stability of a well-formed node is the sum of the stabilities of the
/// transitions along its branch, and its depth is the number of those transitions.
pub proof fn lemma_total_is_sum_along_branch(node: NodeModel)
    requires
        node.well_formed(),
    ensures
        node.total_stability == fraction_sum(node.edge_stabilities()),
        node.depth == node.branch().len() - 1,
        node.edge_stabilities().len() == node.depth,
        forall|i: int|
            0 <= i < node.depth ==> Some(#[trigger] node.edge_stabilities()[i])
                == node.branch()[node.depth - 1 - i].optimal_stability,
    decreases node,
{
    match node.optimal_parent {
        None => {},
        Some(parent) => {
            lemma_total_is_sum_along_branch(*parent);
            let edges = node.edge_stabilities();
            assert(edges.drop_last() =~= parent.edge_stabilities());
            assert forall|i: int| 0 <= i < node.depth implies Some(#[trigger] edges[i])
                == node.branch()[node.depth - 1 - i].optimal_stability by {
                if i < parent.depth {
                    assert(edges[i] == parent.edge_stabilities()[i]);
                    assert(node.branch()[node.depth - 1 - i] == parent.branch()[parent.depth - 1
                        - i]);
                } else {
                    assert(node.branch()[0] == node);
                }
            }
        },
    }
}

/// A node of the resolution graph: one clustering with its optimal parent.
pub struct ResolutionNode {
    /// The resolution of the clustering.
    resolution: u64,
    /// The number of clusters of the clustering.
    number_of_clusters: usize,
    /// The optimal parent node.
    optimal_parent: Option<Rc<ResolutionNode>>,
    /// The stability of the transition from the optimal parent.
    optimal_stability: Option<Ratio>,
    /// The sum of the stabilities of the transitions from the root to this node.
    total_stability: Ratio,
    /// The number of transitions from the root to this node.
    depth: usize,
}

impl ResolutionNode {
    /// What the node holds, with the nodes it descends from.
    pub closed spec fn model(self) -> NodeModel
        decreases self,
    {
        NodeModel {
            resolution: self.resolution,
            number_of_clusters: self.number_of_clusters,
            optimal_parent: match self.optimal_parent {
                None => None,
                Some(parent) => Some(Box::new(parent.model())),
            },
            optimal_stability: match self.optimal_stability {
                None => None,
                Some(stability) => Some(stability@),
            },
            total_stability: self.total_stability@,
            depth: self.depth,
        }
    }
}

impl View for ResolutionNode {
    type V = NodeModel;

    open spec fn view(&self) -> NodeModel {
        self.model()
    }
}

/// What a list of shared nodes holds.
pub open spec fn node_models(nodes: Seq<Rc<ResolutionNode>>) -> Seq<NodeModel> {
    Seq::new(nodes.len(), |i: int| nodes[i].model())
}

/// The root node of a clustering.
pub open spec fn root_node(resolution: u64, number_of_clusters: usize) -> NodeModel {
    NodeModel {
        resolution,
        number_of_clusters,
        optimal_parent: None,
        optimal_stability: None,
        total_stability: Fraction { numerator: 0, denominator: 1 },
        depth: 0,
    }
}

/// The node of a clustering below the given parent.
pub open spec fn child_node(
    resolution: u64,
    number_of_clusters: usize,
    parent: NodeModel,
    stability: Fraction,
) -> NodeModel {
    NodeModel {
        resolution,
        number_of_clusters,
        optimal_parent: Some(Box::new(parent)),
        optimal_stability: Some(stability),
        total_stability: parent.total_stability.plus(stability),
        depth: (parent.depth + 1) as usize,
    }
}

impl ResolutionNode {
    /// Creates a new root node.
    pub fn new(resolution: u64, number_of_clusters: usize) -> (node: Self)
        ensures
            node@ == root_node(resolution, number_of_clusters),
            node@.well_formed(),
    {
        Self {
            resolution,
            number_of_clusters,
            optimal_parent: None,
            optimal_stability: None,
            total_stability: Ratio::zero(),
            depth: 0,
        }
    }

    /// Creates a new child node of the given parent, reached by a transition of the given
    /// stability.
    pub fn new_with_parent(
        resolution: u64,
        number_of_clusters: usize,
        optimal_parent: &Rc<Self>,
        optimal_stability: Ratio,
    ) -> (node: Self)
        requires
            optimal_parent@.depth < usize::MAX,
        ensures
            node@ == child_node(
                resolution,
                number_of_clusters,
                optimal_parent@,
                optimal_stability@,
            ),
            optimal_parent@.well_formed() ==> node@.well_formed(),
    {
        let optimal_parent = Rc::clone(optimal_parent);
        let total_stability = optimal_parent.total_stability.plus(&optimal_stability);
        let depth = optimal_parent.depth + 1;
        Self {
            resolution,
            number_of_clusters,
            optimal_parent: Some(optimal_parent),
            optimal_stability: Some(optimal_stability),
            total_stability,
            depth,
        }
    }

    /// The resolution of the clustering.
    pub fn resolution(&self) -> (resolution: u64)
        ensures
            resolution == self@.resolution,
    {
        self.resolution
    }

    /// The number of clusters of the clustering.
    pub fn number_of_clusters(&self) -> (count: usize)
        ensures
            count == self@.number_of_clusters,
    {
        self.number_of_clusters
    }

    /// The optimal parent node, if the node is no root.
    pub fn optimal_parent(&self) -> (parent: &Option<Rc<Self>>)
        ensures
            parent is Some == self@.optimal_parent is Some,
            parent is Some ==> parent->Some_0@ == *self@.optimal_parent->Some_0,
    {
        &self.optimal_parent
    }

    /// The stability of the transition from the optimal parent, if the node is no root.
    pub fn optimal_stability(&self) -> (stability: &Option<Ratio>)
        ensures
            stability is Some == self@.optimal_stability is Some,
            stability is Some ==> stability->Some_0@ == self@.optimal_stability->Some_0,
    {
        &self.optimal_stability
    }

    /// The sum of the stabilities of the transitions from the root to this node.
    pub fn total_stability(&self) -> (total: &Ratio)
        ensures
            total@ == self@.total_stability,
    {
        &self.total_stability
    }

    /// The number of transitions from the root to this node.
    pub fn depth(&self) -> (depth: usize)
        ensures
            depth == self@.depth,
    {
        self.depth
    }

    /// Returns the mean stability of the transitions from the root to this node, and one
    /// for a root, which has no transition.
    pub fn mean_total_stability(&self) -> (mean: Ratio)
        ensures
            mean@ == if self@.depth < 1 {
                Fraction { numerator: 1, denominator: 1 }
            } else {
                self@.total_stability.divided_by(self@.depth as nat)
            },
    {
        if self.depth < 1 {
            Ratio::new(1, 1)
        } else {
            self.total_stability.divided_by(self.depth)
        }
    }

    /// Returns the branch leading to the specified node, starting with the specified node
    /// and tracing back to a root node.
    pub fn branch(node: &Rc<Self>) -> (branch: Vec<Rc<Self>>)
        ensures
            node_models(branch@) == node@.branch(),
    {
        let mut branch: Vec<Rc<Self>> = Vec::new();
        let mut current: &Rc<Self> = node;
        branch.push(Rc::clone(current));
        loop
            invariant
                branch.len() > 0,
                node_models(branch@) + current@.branch().drop_first() == node@.branch(),
            ensures
                node_models(branch@) == node@.branch(),
            decreases current@.branch().len(),
        {
            match &current.optimal_parent {
                None => {
                    assert(current@.branch().drop_first() =~= Seq::<NodeModel>::empty());
                    assert(node_models(branch@) + Seq::<NodeModel>::empty() =~= node_models(
                        branch@,
                    ));
                    break ;
                },
                Some(parent) => {
                    let ghost before = node_models(branch@);
                    branch.push(Rc::clone(parent));
                    proof {
                        assert(current@.branch().drop_first() =~= parent@.branch());
                        assert(node_models(branch@) =~= before.push(parent@));
                        assert(before.push(parent@) + parent@.branch().drop_first() =~= before
                            + parent@.branch());
                    }
                    current = parent;
                },
            }
        }
        branch
    }
}

/// What a list of clusterings holds.
pub open spec fn clustering_models(resolutions: Seq<ResolutionData>) -> Seq<ResolutionModel> {
    Seq::new(resolutions.len(), |i: int| resolutions[i]@)
}

/// The positions below `upto` of the clusterings of the pool that have `count` clusters, in
/// ascending order.
pub open spec fn positions_with_count(pool: Seq<ResolutionModel>, count: nat, upto: nat) -> Seq<
    usize,
>
    decreases upto,
{
    if upto == 0 {
        Seq::empty()
    } else {
        let before = positions_with_count(pool, count, (upto - 1) as nat);
        if pool[upto - 1].clusters.len() == count {
            before.push((upto - 1) as usize)
        } else {
            before
        }
    }
}

/// The layer of the clusterings with `count` clusters: their positions in the pool, in
/// ascending order.
pub open spec fn layer(pool: Seq<ResolutionModel>, count: nat) -> Seq<usize> {
    positions_with_count(pool, count, pool.len())
}

/// Whether a clustering of the pool has `count` clusters.
pub open spec fn has_count(pool: Seq<ResolutionModel>, count: nat) -> bool {
    exists|i: int| 0 <= i < pool.len() && pool[i].clusters.len() == count
}

/// A layer lists, in ascending order, exactly the positions of the clusterings with its
/// number of clusters.
pub proof fn lemma_positions_with_count(pool: Seq<ResolutionModel>, count: nat, upto: nat)
    requires
        upto <= pool.len() <= usize::MAX,
    ensures
        strictly_ascending(positions_with_count(pool, count, upto)),
        forall|position: usize|
            positions_with_count(pool, count, upto).contains(position) <==> position < upto
                && pool[position as int].clusters.len() == count,
    decreases upto,
{
    if upto > 0 {
        let before = positions_with_count(pool, count, (upto - 1) as nat);
        let listed = positions_with_count(pool, count, upto);
        lemma_positions_with_count(pool, count, (upto - 1) as nat);
        assert forall|position: usize| listed.contains(position) <==> position < upto
            && pool[position as int].clusters.len() == count by {
            if listed.contains(position) {
                let i = choose|i: int| 0 <= i < listed.len() && listed[i] == position;
                if i < before.len() {
                    assert(before.contains(before[i]));
                }
            }
            if position < upto && pool[position as int].clusters.len() == count {
                if position == upto - 1 {
                    assert(listed[before.len() as int] == position);
                } else {
                    assert(before.contains(position));
                    let i = choose|i: int| 0 <= i < before.len() && before[i] == position;
                    assert(listed[i] == position);
                }
            }
        }
        assert forall|i: int, j: int| 0 <= i < j < listed.len() implies listed[i] < listed[j] by {
            assert(before.contains(before[i]));
        }
    }
}

/// Aggregates the clusterings by number of clusters present: for every number of clusters
/// that occurs, the positions of the clusterings with that number, in ascending order.
pub fn aggregate_by_number_of_clusters(resolutions: &[ResolutionData]) -> (map: HashMap<
    usize,
    Vec<usize>,
>)
    ensures
        forall|count: usize|
            map@.contains_key(count) <==> has_count(clustering_models(resolutions@), count as nat),
        forall|count: usize|
            map@.contains_key(count) ==> (#[trigger] map@[count])@ == layer(
                clustering_models(resolutions@),
                count as nat,
            ),
{
    let ghost pool = clustering_models(resolutions@);
    let mut map: HashMap<usize, Vec<usize>> = HashMap::new();
    let mut position: usize = 0;
    while position < resolutions.len()
        invariant
            position <= resolutions.len(),
            pool == clustering_models(resolutions@),
            forall|count: usize|
                map@.contains_key(count) <==> exists|i: int|
                    0 <= i < position && pool[i].clusters.len() == count,
            forall|count: usize|
                map@.contains_key(count) ==> (#[trigger] map@[count])@ == positions_with_count(
                    pool,
                    count as nat,
                    position as nat,
                ),
        decreases resolutions.len() - position,
    {
        let number_of_clusters = resolutions[position].clusters();
        let ghost before = map@;
        let mut cluster_data = match map.remove(&number_of_clusters) {
            Some(cluster_data) => cluster_data,
            None => Vec::new(),
        };
        proof {
            assert(pool[position as int] == resolutions[position as int]@);
            if !before.contains_key(number_of_clusters) {
                lemma_positions_with_count(pool, number_of_clusters as nat, position as nat);
                let listed = positions_with_count(pool, number_of_clusters as nat, position as nat);
                if listed.len() > 0 {
                    assert(listed.contains(listed[0]));
                }
                assert(listed =~= Seq::<usize>::empty());
            }
        }
        cluster_data.push(position);
        map.insert(number_of_clusters, cluster_data);
        proof {
            assert forall|count: usize| map@.contains_key(count) implies (#[trigger] map@[count])@
                == positions_with_count(pool, count as nat, (position + 1) as nat) by {
                if count != number_of_clusters {
                    assert(map@[count] == before[count]);
                    assert(before.contains_key(count));
                }
            }
            assert forall|count: usize| map@.contains_key(count) <==> exists|i: int|
                0 <= i < position + 1 && pool[i].clusters.len() == count by {
                if count == number_of_clusters {
                    assert(pool[position as int].clusters.len() == count);
                }
            }
        }
        position = position + 1;
    }
    map
}

/// Whether no clustering of the pool has fewer than `count` clusters.
pub open spec fn is_lowest_count(pool: Seq<ResolutionModel>, count: nat) -> bool {
    forall|i: int| 0 <= i < pool.len() ==> pool[i].clusters.len() >= count
}

/// Whether no clustering of the pool has more than `count` clusters, and one has as many.
pub open spec fn is_highest_count(pool: Seq<ResolutionModel>, count: nat) -> bool {
    &&& has_count(pool, count)
    &&& forall|i: int| 0 <= i < pool.len() ==> pool[i].clusters.len() <= count
}

/// Whether `previous` is the largest number of clusters in the pool below `count`.
pub open spec fn is_previous_count(pool: Seq<ResolutionModel>, count: nat, previous: nat) -> bool {
    &&& has_count(pool, previous)
    &&& previous < count
    &&& forall|i: int|
        0 <= i < pool.len() && pool[i].clusters.len() < count ==> pool[i].clusters.len() <= previous
}

/// The largest number of clusters in the pool below `count`.
pub open spec fn previous_count(pool: Seq<ResolutionModel>, count: nat) -> nat {
    choose|previous: nat| is_previous_count(pool, count, previous)
}

/// Whether a candidate with the first total and parent resolution is preferred to one with
/// the second: its total is larger, or the totals have the same value and its parent's
/// resolution is larger.
pub open spec fn is_preferred(
    total: Fraction,
    resolution: u64,
    other_total: Fraction,
    other_resolution: u64,
) -> bool {
    other_total.is_less_than(total) || (other_total.has_same_value(total) && other_resolution
        < resolution)
}

/// The total stability that the clustering at position `child` reaches through the
/// clustering at position `parent`, which has fewer clusters.
pub open spec fn candidate_total(pool: Seq<ResolutionModel>, child: int, parent: int) -> Fraction
    decreases pool[child].clusters.len(), 0nat, 0nat,
{
    if pool[parent].clusters.len() < pool[child].clusters.len() {
        optimal_node(pool, parent).total_stability.plus(
            mean_stability_between(pool[child], pool[parent]),
        )
    } else {
        Fraction { numerator: 0, denominator: 1 }
    }
}

/// The place among the first `upto` candidates of the parent that is best for the
/// clustering at position `child`: the candidates are taken in turn, and one replaces the
/// best so far where it is preferred to it.
pub open spec fn best_candidate(
    pool: Seq<ResolutionModel>,
    child: int,
    candidates: Seq<usize>,
    upto: nat,
) -> int
    decreases pool[child].clusters.len(), 1nat, upto,
{
    if upto <= 1 {
        0
    } else {
        let before = best_candidate(pool, child, candidates, (upto - 1) as nat);
        let next = upto - 1;
        if is_preferred(
            candidate_total(pool, child, candidates[next] as int),
            pool[candidates[next] as int].resolution,
            candidate_total(pool, child, candidates[before] as int),
            pool[candidates[before] as int].resolution,
        ) {
            next
        } else {
            before
        }
    }
}

/// The position of the optimal parent of the clustering at position `child`: the best of
/// the clusterings of the layer just below.
pub open spec fn optimal_parent(pool: Seq<ResolutionModel>, child: int) -> int
    decreases pool[child].clusters.len(), 2nat, 0nat,
{
    let candidates = layer(pool, previous_count(pool, pool[child].clusters.len()));
    candidates[best_candidate(pool, child, candidates, candidates.len())] as int
}

/// The node of the clustering at the given position of the pool: a root in the lowest
/// layer, and otherwise the child of the node of its optimal parent.
pub open spec fn optimal_node(pool: Seq<ResolutionModel>, position: int) -> NodeModel
    decreases pool[position].clusters.len(), 3nat, 0nat,
{
    let clustering = pool[position];
    let parent = optimal_parent(pool, position);
    if pool[parent].clusters.len() < clustering.clusters.len() && !is_lowest_count(
        pool,
        clustering.clusters.len(),
    ) {
        child_node(
            clustering.resolution,
            clustering.clusters.len() as usize,
            optimal_node(pool, parent),
            mean_stability_between(clustering, pool[parent]),
        )
    } else {
        root_node(clustering.resolution, clustering.clusters.len() as usize)
    }
}

/// The nodes of the clusterings at the given positions of the pool.
pub open spec fn layer_nodes(pool: Seq<ResolutionModel>, positions: Seq<usize>) -> Seq<NodeModel> {
    Seq::new(positions.len(), |i: int| optimal_node(pool, positions[i] as int))
}

/// Every node of the graph is well formed, and its depth is at most the number of clusters
/// of its clustering.
pub proof fn lemma_optimal_node_is_well_formed(pool: Seq<ResolutionModel>, position: int)
    requires
        pool[position].clusters.len() <= usize::MAX,
    ensures
        optimal_node(pool, position).well_formed(),
        optimal_node(pool, position).depth <= pool[position].clusters.len(),
    decreases pool[position].clusters.len(),
{
    let clustering = pool[position];
    let parent = optimal_parent(pool, position);
    if pool[parent].clusters.len() < clustering.clusters.len() && !is_lowest_count(
        pool,
        clustering.clusters.len(),
    ) {
        lemma_optimal_node_is_well_formed(pool, parent);
    }
}

/// The node of the clustering at position `child`, built below the best of the nodes of the
/// layer just below it.
fn optimal_child(
    resolutions: &[ResolutionData],
    child: usize,
    parents: &Vec<usize>,
    parent_nodes: &Vec<Rc<ResolutionNode>>,
) -> (node: ResolutionNode)
    requires
        child < resolutions.len(),
        parents.len() > 0,
        parents.len() == parent_nodes.len(),
        is_previous_count(
            clustering_models(resolutions@),
            clustering_models(resolutions@)[child as int].clusters.len(),
            previous_count(
                clustering_models(resolutions@),
                clustering_models(resolutions@)[child as int].clusters.len(),
            ),
        ),
        parents@ == layer(
            clustering_models(resolutions@),
            previous_count(
                clustering_models(resolutions@),
                clustering_models(resolutions@)[child as int].clusters.len(),
            ),
        ),
        node_models(parent_nodes@) == layer_nodes(clustering_models(resolutions@), parents@),
    ensures
        node@ == optimal_node(clustering_models(resolutions@), child as int),
{
    let ghost pool = clustering_models(resolutions@);
    let resolution = &resolutions[child];
    let number_of_clusters = resolution.clusters();
    let ghost previous = previous_count(pool, number_of_clusters as nat);
    proof {
        assert(pool[child as int] == resolution@);
        lemma_positions_with_count(pool, previous, pool.len());
    }
    let mut best: usize = 0;
    let mut best_mean: Option<Ratio> = None;
    let mut best_total: Option<Ratio> = None;
    let mut candidate: usize = 0;
    while candidate < parents.len()
        invariant
            candidate <= parents.len(),
            parents.len() == parent_nodes.len(),
            parents.len() > 0,
            child < resolutions.len(),
            pool == clustering_models(resolutions@),
            pool[child as int] == resolution@,
            number_of_clusters == resolution@.clusters.len(),
            previous < number_of_clusters,
            node_models(parent_nodes@) == layer_nodes(pool, parents@),
            forall|position: usize|
                parents@.contains(position) <==> position < pool.len()
                    && pool[position as int].clusters.len() == previous,
            candidate == 0 ==> best_mean is None && best_total is None && best == 0,
            candidate > 0 ==> {
                &&& best < candidate
                &&& best == best_candidate(pool, child as int, parents@, candidate as nat)
                &&& best_mean is Some
                &&& best_total is Some
                &&& best_mean->Some_0@ == mean_stability_between(
                    pool[child as int],
                    pool[parents[best as int] as int],
                )
                &&& best_total->Some_0@ == candidate_total(
                    pool,
                    child as int,
                    parents[best as int] as int,
                )
            },
        decreases parents.len() - candidate,
    {
        let parent = parents[candidate];
        assert(parents@.contains(parents@[candidate as int]));
        assert(parents@.contains(parents@[best as int]));
        let previous_resolution = &resolutions[parent];
        proof {
            assert(pool[parent as int] == previous_resolution@);
            assert(pool[parents[best as int] as int] == resolutions[parents[best as int] as int]@);
            assert(node_models(parent_nodes@)[candidate as int] == parent_nodes[candidate as int]@);
            assert(parent_nodes[candidate as int]@ == optimal_node(pool, parent as int));
        }
        let stability_data = ClusterStabilityData::from_clustering(
            resolution,
            previous_resolution,
        ).unwrap();
        let mean = stability_data.mean_stability();
        let total = parent_nodes[candidate].total_stability().plus(&mean);
        assert(total@ == candidate_total(pool, child as int, parent as int));
        let preferred = match &best_total {
            None => true,
            Some(current) => current.is_less_than(&total) || (current.has_same_value(&total)
                && resolutions[parents[best]].resolution() < previous_resolution.resolution()),
        };
        proof {
            if candidate > 0 {
                assert(best_candidate(pool, child as int, parents@, (candidate + 1) as nat) == (
                if preferred {
                    candidate as int
                } else {
                    best as int
                }));
            }
        }
        if preferred {
            best = candidate;
            best_mean = Some(mean);
            best_total = Some(total);
        }
        candidate = candidate + 1;
    }
    proof {
        let chosen = parents[best as int] as int;
        assert(parents@.contains(parents@[best as int]));
        assert(optimal_parent(pool, child as int) == chosen);
        assert(pool[chosen].clusters.len() < pool[child as int].clusters.len());
        assert(!is_lowest_count(pool, pool[child as int].clusters.len()));
        assert(node_models(parent_nodes@)[best as int] == parent_nodes[best as int]@);
        lemma_optimal_node_is_well_formed(pool, chosen);
    }
    ResolutionNode::new_with_parent(
        resolution.resolution(),
        number_of_clusters,
        &parent_nodes[best],
        best_mean.unwrap(),
    )
}

/// There is only one largest number of clusters below any number.
pub proof fn lemma_previous_count_is_unique(
    pool: Seq<ResolutionModel>,
    count: nat,
    first: nat,
    second: nat,
)
    requires
        is_previous_count(pool, count, first),
        is_previous_count(pool, count, second),
    ensures
        first == second,
{
    let i = choose|i: int| 0 <= i < pool.len() && pool[i].clusters.len() == first;
    let j = choose|j: int| 0 <= j < pool.len() && pool[j].clusters.len() == second;
    assert(pool[i].clusters.len() <= second);
    assert(pool[j].clusters.len() <= first);
}

/// The root nodes of the clusterings at the given positions, which lie in the lowest layer.
fn root_layer(resolutions: &[ResolutionData], positions: &Vec<usize>) -> (nodes: Vec<
    Rc<ResolutionNode>,
>)
    requires
        forall|m: int|
            0 <= m < positions.len() ==> (#[trigger] positions[m]) < resolutions.len()
                && is_lowest_count(
                clustering_models(resolutions@),
                clustering_models(resolutions@)[positions[m] as int].clusters.len(),
            ),
    ensures
        node_models(nodes@) == layer_nodes(clustering_models(resolutions@), positions@),
{
    let ghost pool = clustering_models(resolutions@);
    let mut nodes: Vec<Rc<ResolutionNode>> = Vec::new();
    let mut place: usize = 0;
    while place < positions.len()
        invariant
            place <= positions.len(),
            pool == clustering_models(resolutions@),
            nodes.len() == place,
            forall|m: int|
                0 <= m < positions.len() ==> (#[trigger] positions[m]) < resolutions.len()
                    && is_lowest_count(pool, pool[positions[m] as int].clusters.len()),
            forall|m: int|
                0 <= m < place ==> (#[trigger] nodes[m])@ == optimal_node(pool, positions[m] as int),
        decreases positions.len() - place,
    {
        let position = positions[place];
        let resolution = &resolutions[position];
        assert(pool[position as int] == resolution@);
        let node = ResolutionNode::new(resolution.resolution(), resolution.clusters());
        nodes.push(Rc::new(node));
        place = place + 1;
    }
    assert(node_models(nodes@) =~= layer_nodes(pool, positions@));
    nodes
}

/// The nodes of the clusterings at the given positions, each built below the best node of
/// the layer just below.
fn child_layer(
    resolutions: &[ResolutionData],
    positions: &Vec<usize>,
    parents: &Vec<usize>,
    parent_nodes: &Vec<Rc<ResolutionNode>>,
) -> (nodes: Vec<Rc<ResolutionNode>>)
    requires
        parents.len() > 0,
        parents.len() == parent_nodes.len(),
        node_models(parent_nodes@) == layer_nodes(clustering_models(resolutions@), parents@),
        forall|m: int|
            0 <= m < positions.len() ==> {
                let pool = clustering_models(resolutions@);
                let count = pool[(#[trigger] positions[m]) as int].clusters.len();
                &&& positions[m] < resolutions.len()
                &&& is_previous_count(pool, count, previous_count(pool, count))
                &&& parents@ == layer(pool, previous_count(pool, count))
            },
    ensures
        node_models(nodes@) == layer_nodes(clustering_models(resolutions@), positions@),
{
    let ghost pool = clustering_models(resolutions@);
    let mut nodes: Vec<Rc<ResolutionNode>> = Vec::new();
    let mut place: usize = 0;
    while place < positions.len()
        invariant
            place <= positions.len(),
            pool == clustering_models(resolutions@),
            nodes.len() == place,
            parents.len() > 0,
            parents.len() == parent_nodes.len(),
            node_models(parent_nodes@) == layer_nodes(pool, parents@),
            forall|m: int|
                0 <= m < positions.len() ==> {
                    let count = pool[(#[trigger] positions[m]) as int].clusters.len();
                    &&& positions[m] < resolutions.len()
                    &&& is_previous_count(pool, count, previous_count(pool, count))
                    &&& parents@ == layer(pool, previous_count(pool, count))
                },
            forall|m: int|
                0 <= m < place ==> (#[trigger] nodes[m])@ == optimal_node(pool, positions[m] as int),
        decreases positions.len() - place,
    {
        let position = positions[place];
        let node = optimal_child(resolutions, position, parents, parent_nodes);
        nodes.push(Rc::new(node));
        place = place + 1;
    }
    assert(node_models(nodes@) =~= layer_nodes(pool, positions@));
    nodes
}

/// Returns the leaf nodes of the resolution graph: the nodes of the clusterings with the
/// most clusters, in the order of the clusterings. The clusterings are ordered in layers by
/// their number of clusters. Those of the lowest layer are roots; every other one hangs
/// below the clustering of the layer just below through which its total stability is
/// largest, and of those with the same total below the one with the largest resolution.
pub fn to_graph(resolutions: &[ResolutionData]) -> (leaves: Vec<Rc<ResolutionNode>>)
    ensures
        resolutions@.len() == 0 ==> leaves@.len() == 0,
        forall|highest: nat|
            is_highest_count(clustering_models(resolutions@), highest) ==> node_models(leaves@)
                == layer_nodes(
                clustering_models(resolutions@),
                layer(clustering_models(resolutions@), highest),
            ),
        forall|i: int| 0 <= i < leaves@.len() ==> (#[trigger] leaves@[i])@.well_formed(),
{
    let ghost pool = clustering_models(resolutions@);
    let map = aggregate_by_number_of_clusters(resolutions);
    let ordered_cluster_keys = ascending_keys(&map);
    let mut potential_parent_nodes: Vec<Rc<ResolutionNode>> = Vec::new();
    if ordered_cluster_keys.len() == 0 {
        proof {
            if resolutions@.len() > 0 {
                lemma_count_is_key(resolutions, 0, map@, ordered_cluster_keys@);
            }
            assert forall|highest: nat| !is_highest_count(pool, highest) by {
                if is_highest_count(pool, highest) {
                    let i = choose|i: int| 0 <= i < pool.len() && pool[i].clusters.len() == highest;
                    lemma_count_is_key(resolutions, i, map@, ordered_cluster_keys@);
                }
            }
        }
        return potential_parent_nodes;
    }
    let mut index: usize = 0;
    assert(pool.len() == resolutions.len());
    while index < ordered_cluster_keys.len()
        invariant
            index <= ordered_cluster_keys.len(),
            ordered_cluster_keys.len() > 0,
            pool.len() <= usize::MAX,
            pool == clustering_models(resolutions@),
            strictly_ascending(ordered_cluster_keys@),
            forall|count: usize| map@.contains_key(count) <==> ordered_cluster_keys@.contains(count),
            forall|count: usize| map@.contains_key(count) <==> has_count(pool, count as nat),
            forall|count: usize|
                map@.contains_key(count) ==> (#[trigger] map@[count])@ == layer(pool, count as nat),
            index > 0 ==> node_models(potential_parent_nodes@) == layer_nodes(
                pool,
                layer(pool, ordered_cluster_keys[index - 1] as nat),
            ),
        decreases ordered_cluster_keys.len() - index,
    {
        let cluster_key = ordered_cluster_keys[index];
        assert(ordered_cluster_keys@.contains(ordered_cluster_keys@[index as int]));
        let positions = map.get(&cluster_key).unwrap();
        proof {
            lemma_positions_with_count(pool, cluster_key as nat, pool.len());
        }
        let nodes = if index == 0 {
            proof {
                assert forall|i: int| 0 <= i < pool.len() implies pool[i].clusters.len()
                    >= cluster_key by {
                    lemma_count_is_key(resolutions, i, map@, ordered_cluster_keys@);
                    let j = choose|j: int|
                        0 <= j < ordered_cluster_keys.len() && ordered_cluster_keys[j]
                            == pool[i].clusters.len();
                }
                assert forall|m: int| 0 <= m < positions.len() implies (#[trigger] positions[m])
                    < resolutions.len() && is_lowest_count(
                    pool,
                    pool[positions[m] as int].clusters.len(),
                ) by {
                    assert(positions@.contains(positions@[m]));
                }
            }
            root_layer(resolutions, positions)
        } else {
            let previous_key = ordered_cluster_keys[index - 1];
            assert(ordered_cluster_keys@.contains(ordered_cluster_keys@[index - 1]));
            let previous_positions = map.get(&previous_key).unwrap();
            proof {
                lemma_positions_with_count(pool, previous_key as nat, pool.len());
                assert(has_count(pool, previous_key as nat));
                let witness = choose|i: int|
                    0 <= i < pool.len() && pool[i].clusters.len() == previous_key;
                assert(previous_positions@.contains(witness as usize));
                assert(is_previous_count(pool, cluster_key as nat, previous_key as nat)) by {
                    assert forall|i: int|
                        0 <= i < pool.len() && pool[i].clusters.len()
                            < cluster_key implies pool[i].clusters.len() <= previous_key by {
                        lemma_count_is_key(resolutions, i, map@, ordered_cluster_keys@);
                        let j = choose|j: int|
                            0 <= j < ordered_cluster_keys.len() && ordered_cluster_keys[j]
                                == pool[i].clusters.len();
                        if j > index - 1 {
                            if j > index {
                                assert(ordered_cluster_keys[index as int] < ordered_cluster_keys[j]);
                            }
                        } else if j < index - 1 {
                            assert(ordered_cluster_keys[j] < ordered_cluster_keys[index - 1]);
                        }
                    }
                }
                lemma_previous_count_is_unique(
                    pool,
                    cluster_key as nat,
                    previous_key as nat,
                    previous_count(pool, cluster_key as nat),
                );
                assert forall|m: int| 0 <= m < positions.len() implies {
                    let count = pool[(#[trigger] positions[m]) as int].clusters.len();
                    &&& positions[m] < resolutions.len()
                    &&& is_previous_count(pool, count, previous_count(pool, count))
                    &&& previous_positions@ == layer(pool, previous_count(pool, count))
                } by {
                    assert(positions@.contains(positions@[m]));
                }
            }
            child_layer(resolutions, positions, previous_positions, &potential_parent_nodes)
        };
        potential_parent_nodes = nodes;
        index = index + 1;
    }
    proof {
        let last = ordered_cluster_keys[index - 1];
        assert(ordered_cluster_keys@.contains(ordered_cluster_keys@[index - 1]));
        let positions = layer(pool, last as nat);
        lemma_positions_with_count(pool, last as nat, pool.len());
        assert forall|i: int| 0 <= i < potential_parent_nodes@.len() implies (
        #[trigger] potential_parent_nodes@[i])@.well_formed() by {
            assert(node_models(potential_parent_nodes@)[i] == potential_parent_nodes@[i]@);
            assert(positions.contains(positions[i]));
            lemma_optimal_node_is_well_formed(pool, positions[i] as int);
        }
        assert forall|highest: nat| is_highest_count(pool, highest) implies highest == last by {
            let i = choose|i: int| 0 <= i < pool.len() && pool[i].clusters.len() == highest;
            lemma_count_is_key(resolutions, i, map@, ordered_cluster_keys@);
            let j = choose|j: int|
                0 <= j < ordered_cluster_keys.len() && ordered_cluster_keys[j] == highest;
            if j < index - 1 {
                assert(ordered_cluster_keys[j] < ordered_cluster_keys[index - 1]);
            }
            let k = choose|k: int| 0 <= k < pool.len() && pool[k].clusters.len() == last;
        }
    }
    potential_parent_nodes
}

/// The number of clusters of every clustering is a key of the map of layers.
proof fn lemma_count_is_key(
    resolutions: &[ResolutionData],
    position: int,
    map: Map<usize, Vec<usize>>,
    keys: Seq<usize>,
)
    requires
        0 <= position < resolutions@.len(),
        forall|count: usize| map.contains_key(count) <==> keys.contains(count),
        forall|count: usize|
            map.contains_key(count) <==> has_count(clustering_models(resolutions@), count as nat),
    ensures
        clustering_models(resolutions@)[position].clusters.len() <= usize::MAX,
        keys.contains(clustering_models(resolutions@)[position].clusters.len() as usize),
{
    let pool = clustering_models(resolutions@);
    crate::data::lemma_cluster_count_fits(resolutions@[position]);
    assert(has_count(pool, pool[position].clusters.len()));
}

/// The points through which the stability curve of a branch is laid: for each of the first
/// `upto` nodes that is no root, its number of clusters and the stability of the transition
/// from its parent, in the order of the nodes.
pub open spec fn stability_points(nodes: Seq<NodeModel>, upto: nat) -> Seq<(usize, Fraction)>
    decreases upto,
{
    if upto == 0 {
        Seq::empty()
    } else {
        let before = stability_points(nodes, (upto - 1) as nat);
        match nodes[upto - 1].optimal_stability {
            Some(stability) => before.push((nodes[upto - 1].number_of_clusters, stability)),
            None => before,
        }
    }
}

/// What a list of points holds.
pub open spec fn point_values(points: Seq<(usize, Ratio)>) -> Seq<(usize, Fraction)> {
    Seq::new(points.len(), |i: int| (points[i].0, points[i].1@))
}

/// Returns the points through which the stability curve of a branch is laid: for each node
/// of the branch that is no root, its number of clusters and the stability of the
/// transition from its parent.
pub fn regression_points(branch: &[Rc<ResolutionNode>]) -> (points: Vec<(usize, Ratio)>)
    ensures
        point_values(points@) == stability_points(node_models(branch@), branch@.len()),
{
    let ghost nodes = node_models(branch@);
    let mut points: Vec<(usize, Ratio)> = Vec::new();
    let mut position: usize = 0;
    while position < branch.len()
        invariant
            position <= branch.len(),
            nodes == node_models(branch@),
            point_values(points@) == stability_points(nodes, position as nat),
        decreases branch.len() - position,
    {
        let ghost before = point_values(points@);
        assert(nodes[position as int] == branch@[position as int]@);
        match branch[position].optimal_stability() {
            Some(stability) => {
                points.push((branch[position].number_of_clusters(), stability.clone()));
                assert(point_values(points@) =~= before.push(
                    (nodes[position as int].number_of_clusters, stability@),
                ));
            },
            None => {},
        }
        position = position + 1;
    }
    points
}

/// The place among the first `upto` nodes of the node with the largest total stability, and
/// of the last such node where several have it: the nodes are taken in turn, and one
/// replaces the best so far unless its total is smaller.
pub open spec fn top_node(nodes: Seq<NodeModel>, upto: nat) -> int
    decreases upto,
{
    if upto <= 1 {
        0
    } else {
        let before = top_node(nodes, (upto - 1) as nat);
        if nodes[upto - 1].total_stability.is_less_than(nodes[before].total_stability) {
            before
        } else {
            upto - 1
        }
    }
}

/// Returns the place of the leaf with the largest total stability, and of the last such
/// leaf where several have it; none if there are no leaves.
pub fn top_leaf(leaves: &[Rc<ResolutionNode>]) -> (place: Option<usize>)
    ensures
        leaves@.len() == 0 <==> place is None,
        place is Some ==> place->Some_0 == top_node(node_models(leaves@), leaves@.len()),
        place is Some ==> place->Some_0 < leaves@.len(),
{
    if leaves.len() == 0 {
        return None;
    }
    let ghost nodes = node_models(leaves@);
    let mut best: usize = 0;
    let mut position: usize = 1;
    while position < leaves.len()
        invariant
            1 <= position <= leaves.len(),
            nodes == node_models(leaves@),
            best < position,
            best == top_node(nodes, position as nat),
        decreases leaves.len() - position,
    {
        assert(nodes[position as int] == leaves@[position as int]@);
        assert(nodes[best as int] == leaves@[best as int]@);
        if !leaves[position].total_stability().is_less_than(leaves[best].total_stability()) {
            best = position;
        }
        position = position + 1;
    }
    Some(best)
}

/// Whether every clustering of the pool is well formed.
pub open spec fn all_well_formed(pool: Seq<ResolutionModel>) -> bool {
    forall|i: int| 0 <= i < pool.len() ==> (#[trigger] pool[i]).well_formed()
}

/// Among the first clusterings of a pool of which one has fewer than `count` clusters, the
/// largest number of clusters below `count`.
proof fn lemma_largest_count_below(pool: Seq<ResolutionModel>, count: nat, upto: nat) -> (largest:
    nat)
    requires
        upto <= pool.len(),
        exists|i: int| 0 <= i < upto && pool[i].clusters.len() < count,
    ensures
        largest < count,
        exists|i: int| 0 <= i < upto && pool[i].clusters.len() == largest,
        forall|i: int| 0 <= i < upto && pool[i].clusters.len() < count ==> pool[i].clusters.len()
            <= largest,
    decreases upto,
{
    let last = pool[upto - 1].clusters.len();
    if exists|i: int| 0 <= i < upto - 1 && pool[i].clusters.len() < count {
        let before = lemma_largest_count_below(pool, count, (upto - 1) as nat);
        let witness = choose|i: int| 0 <= i < upto - 1 && pool[i].clusters.len() == before;
        if before < last < count {
            assert(pool[upto - 1].clusters.len() == last);
            last
        } else {
            assert(pool[witness].clusters.len() == before);
            before
        }
    } else {
        assert(pool[upto - 1].clusters.len() == last);
        last
    }
}

/// Below every number of clusters that is not the lowest of the pool there is a largest one.
pub proof fn lemma_previous_count_exists(pool: Seq<ResolutionModel>, count: nat)
    requires
        !is_lowest_count(pool, count),
    ensures
        is_previous_count(pool, count, previous_count(pool, count)),
{
    let largest = lemma_largest_count_below(pool, count, pool.len());
    assert(is_previous_count(pool, count, largest));
}

/// The best of at least one candidate is one of them.
pub proof fn lemma_best_candidate_is_one_of_them(
    pool: Seq<ResolutionModel>,
    child: int,
    candidates: Seq<usize>,
    upto: nat,
)
    requires
        1 <= upto,
    ensures
        0 <= best_candidate(pool, child, candidates, upto) < upto,
    decreases upto,
{
    if upto > 1 {
        lemma_best_candidate_is_one_of_them(pool, child, candidates, (upto - 1) as nat);
    }
}

/// The optimal parent of a clustering above the lowest layer lies in the layer just below.
pub proof fn lemma_optimal_parent_lies_just_below(pool: Seq<ResolutionModel>, child: int)
    requires
        pool.len() <= usize::MAX,
        !is_lowest_count(pool, pool[child].clusters.len()),
    ensures
        0 <= optimal_parent(pool, child) < pool.len(),
        is_previous_count(
            pool,
            pool[child].clusters.len(),
            pool[optimal_parent(pool, child)].clusters.len(),
        ),
{
    let count = pool[child].clusters.len();
    let previous = previous_count(pool, count);
    lemma_previous_count_exists(pool, count);
    let candidates = layer(pool, previous);
    lemma_positions_with_count(pool, previous, pool.len());
    let witness = choose|i: int| 0 <= i < pool.len() && pool[i].clusters.len() == previous;
    assert(candidates.contains(witness as usize));
    lemma_best_candidate_is_one_of_them(pool, child, candidates, candidates.len());
    let best = best_candidate(pool, child, candidates, candidates.len());
    assert(candidates.contains(candidates[best]));
}

/// The total stability of every node of the graph of well-formed clusterings has a
/// denominator other than zero.
pub proof fn lemma_optimal_total_is_defined(pool: Seq<ResolutionModel>, position: int)
    requires
        pool.len() <= usize::MAX,
        all_well_formed(pool),
        0 <= position < pool.len(),
    ensures
        optimal_node(pool, position).total_stability.is_defined(),
    decreases pool[position].clusters.len(),
{
    let clustering = pool[position];
    let parent = optimal_parent(pool, position);
    if pool[parent].clusters.len() < clustering.clusters.len() && !is_lowest_count(
        pool,
        clustering.clusters.len(),
    ) {
        lemma_optimal_parent_lies_just_below(pool, position);
        lemma_optimal_total_is_defined(pool, parent);
        lemma_mean_stability_is_defined(clustering, pool[parent]);
        lemma_sum_is_defined(
            optimal_node(pool, parent).total_stability,
            mean_stability_between(clustering, pool[parent]),
        );
    }
}

/// The total stability that a clustering reaches through a clustering with fewer clusters
/// has a denominator other than zero, if the clusterings are well formed.
pub proof fn lemma_candidate_total_is_defined(pool: Seq<ResolutionModel>, child: int, parent: int)
    requires
        pool.len() <= usize::MAX,
        all_well_formed(pool),
        0 <= child < pool.len(),
        0 <= parent < pool.len(),
    ensures
        candidate_total(pool, child, parent).is_defined(),
{
    if pool[parent].clusters.len() < pool[child].clusters.len() {
        lemma_optimal_total_is_defined(pool, parent);
        lemma_mean_stability_is_defined(pool[child], pool[parent]);
        lemma_sum_is_defined(
            optimal_node(pool, parent).total_stability,
            mean_stability_between(pool[child], pool[parent]),
        );
    }
}

/// A candidate that is preferred to a second one is preferred to every candidate that is
/// not preferred to the second one.
pub proof fn lemma_preference_carries_over(
    first_total: Fraction,
    first_resolution: u64,
    second_total: Fraction,
    second_resolution: u64,
    third_total: Fraction,
    third_resolution: u64,
)
    requires
        first_total.is_defined(),
        second_total.is_defined(),
        third_total.is_defined(),
        !is_preferred(first_total, first_resolution, second_total, second_resolution),
        is_preferred(third_total, third_resolution, second_total, second_resolution),
    ensures
        is_preferred(third_total, third_resolution, first_total, first_resolution),
        !is_preferred(first_total, first_resolution, third_total, third_resolution),
{
    if second_total.is_less_than(third_total) {
        lemma_at_most_then_less(first_total, second_total, third_total);
    } else {
        lemma_same_value_compares_alike(first_total, second_total, third_total);
    }
}

/// No candidate is preferred to the best candidate, and the best candidate is preferred to
/// every candidate that stands before it.
pub proof fn lemma_best_candidate_is_best(
    pool: Seq<ResolutionModel>,
    child: int,
    candidates: Seq<usize>,
    upto: nat,
    other: int,
)
    requires
        pool.len() <= usize::MAX,
        all_well_formed(pool),
        0 <= child < pool.len(),
        upto <= candidates.len(),
        forall|i: int| 0 <= i < candidates.len() ==> candidates[i] < pool.len(),
        0 <= other < upto,
    ensures
        !is_preferred(
            candidate_total(pool, child, candidates[other] as int),
            pool[candidates[other] as int].resolution,
            candidate_total(
                pool,
                child,
                candidates[best_candidate(pool, child, candidates, upto)] as int,
            ),
            pool[candidates[best_candidate(pool, child, candidates, upto)] as int].resolution,
        ),
        other < best_candidate(pool, child, candidates, upto) ==> is_preferred(
            candidate_total(
                pool,
                child,
                candidates[best_candidate(pool, child, candidates, upto)] as int,
            ),
            pool[candidates[best_candidate(pool, child, candidates, upto)] as int].resolution,
            candidate_total(pool, child, candidates[other] as int),
            pool[candidates[other] as int].resolution,
        ),
    decreases upto,
{
    if upto > 1 {
        let shorter = (upto - 1) as nat;
        let before = best_candidate(pool, child, candidates, shorter);
        let next = upto - 1;
        lemma_best_candidate_is_one_of_them(pool, child, candidates, shorter);
        lemma_candidate_total_is_defined(pool, child, candidates[next] as int);
        lemma_candidate_total_is_defined(pool, child, candidates[before] as int);
        lemma_candidate_total_is_defined(pool, child, candidates[other] as int);
        if other < next {
            lemma_best_candidate_is_best(pool, child, candidates, shorter, other);
            if best_candidate(pool, child, candidates, upto) == next {
                lemma_preference_carries_over(
                    candidate_total(pool, child, candidates[other] as int),
                    pool[candidates[other] as int].resolution,
                    candidate_total(pool, child, candidates[before] as int),
                    pool[candidates[before] as int].resolution,
                    candidate_total(pool, child, candidates[next] as int),
                    pool[candidates[next] as int].resolution,
                );
            }
        }
    }
}

/// Whether the clustering at position `parent` lies in the layer just below the layer of the
/// clustering at position `child`.
pub open spec fn lies_just_below(pool: Seq<ResolutionModel>, child: int, parent: int) -> bool {
    &&& 0 <= parent < pool.len()
    &&& is_previous_count(pool, pool[child].clusters.len(), pool[parent].clusters.len())
}

/// Every clustering above the lowest layer hangs below the clustering of the layer just
/// below through which its total stability is largest: no clustering of that layer gives
/// a larger total, nor the same total with a larger resolution, and the clusterings of
/// that layer which stand before the parent give a smaller total, or the same total with
/// a smaller resolution.
pub proof fn lemma_optimal_parent_is_best(pool: Seq<ResolutionModel>, child: int, other: int)
    requires
        pool.len() <= usize::MAX,
        all_well_formed(pool),
        0 <= child < pool.len(),
        lies_just_below(pool, child, other),
    ensures
        lies_just_below(pool, child, optimal_parent(pool, child)),
        !is_preferred(
            candidate_total(pool, child, other),
            pool[other].resolution,
            candidate_total(pool, child, optimal_parent(pool, child)),
            pool[optimal_parent(pool, child)].resolution,
        ),
        other < optimal_parent(pool, child) ==> is_preferred(
            candidate_total(pool, child, optimal_parent(pool, child)),
            pool[optimal_parent(pool, child)].resolution,
            candidate_total(pool, child, other),
            pool[other].resolution,
        ),
{
    let count = pool[child].clusters.len();
    assert(!is_lowest_count(pool, count));
    lemma_optimal_parent_lies_just_below(pool, child);
    lemma_previous_count_exists(pool, count);
    let previous = previous_count(pool, count);
    lemma_previous_count_is_unique(pool, count, previous, pool[other].clusters.len());
    let candidates = layer(pool, previous);
    lemma_positions_with_count(pool, previous, pool.len());
    assert(candidates.contains(other as usize));
    let place = choose|i: int| 0 <= i < candidates.len() && candidates[i] == other as usize;
    assert forall|i: int| 0 <= i < candidates.len() implies candidates[i] < pool.len() by {
        assert(candidates.contains(candidates[i]));
    }
    lemma_best_candidate_is_best(pool, child, candidates, candidates.len(), place);
    let best = best_candidate(pool, child, candidates, candidates.len());
    lemma_best_candidate_is_one_of_them(pool, child, candidates, candidates.len());
    if other < candidates[best] {
        if place >= best {
            if place > best {
                assert(candidates[best] < candidates[place]);
            }
        }
    }
}

/// Every node on the branch of a well-formed node is well formed.
pub proof fn lemma_branch_is_well_formed(node: NodeModel, place: int)
    requires
        node.well_formed(),
        0 <= place < node.branch().len(),
    ensures
        node.branch()[place].well_formed(),
    decreases node,
{
    match node.optimal_parent {
        None => {},
        Some(parent) => {
            if place > 0 {
                lemma_branch_is_well_formed(*parent, place - 1);
            }
        },
    }
}

/// Whether the parent of every node on the branch of the node has fewer clusters than the
/// node itself.
pub open spec fn descends(node: NodeModel) -> bool
    decreases node,
{
    match node.optimal_parent {
        None => true,
        Some(parent) => parent.number_of_clusters < node.number_of_clusters && descends(*parent),
    }
}

/// Every node of the graph stands for its clustering, and along its branch the number of
/// clusters falls from node to node, down to a root.
pub proof fn lemma_optimal_node_descends(pool: Seq<ResolutionModel>, position: int)
    requires
        pool.len() <= usize::MAX,
        0 <= position < pool.len(),
        forall|i: int| 0 <= i < pool.len() ==> pool[i].clusters.len() <= usize::MAX,
    ensures
        optimal_node(pool, position).resolution == pool[position].resolution,
        optimal_node(pool, position).number_of_clusters == pool[position].clusters.len(),
        optimal_node(pool, position).optimal_parent is None <==> is_lowest_count(
            pool,
            pool[position].clusters.len(),
        ),
        descends(optimal_node(pool, position)),
    decreases pool[position].clusters.len(),
{
    let clustering = pool[position];
    if !is_lowest_count(pool, clustering.clusters.len()) {
        lemma_optimal_parent_lies_just_below(pool, position);
        lemma_optimal_node_descends(pool, optimal_parent(pool, position));
    }
}

/// Whether the positions are a path through the layers of the pool: it starts in the
/// lowest layer, and every later clustering lies in the layer just above the one before it.
pub open spec fn is_layer_path(pool: Seq<ResolutionModel>, path: Seq<int>) -> bool {
    &&& path.len() > 0
    &&& forall|i: int| 0 <= i < path.len() ==> 0 <= #[trigger] path[i] < pool.len()
    &&& is_lowest_count(pool, pool[path[0]].clusters.len())
    &&& forall|i: int|
        0 < i < path.len() ==> is_previous_count(
            pool,
            pool[#[trigger] path[i]].clusters.len(),
            pool[path[i - 1]].clusters.len(),
        )
}

/// The sum of the mean stabilities of the transitions along a path.
pub open spec fn path_total(pool: Seq<ResolutionModel>, path: Seq<int>) -> Fraction
    decreases path.len(),
{
    if path.len() <= 1 {
        Fraction { numerator: 0, denominator: 1 }
    } else {
        path_total(pool, path.drop_last()).plus(
            mean_stability_between(pool[path.last()], pool[path[path.len() - 2]]),
        )
    }
}

/// The total stability of a node of the graph is the largest that any path through the
/// layers reaches at its clustering: no path to it has a larger total.
pub proof fn lemma_no_path_is_more_stable(pool: Seq<ResolutionModel>, path: Seq<int>)
    requires
        pool.len() <= usize::MAX,
        all_well_formed(pool),
        is_layer_path(pool, path),
    ensures
        path_total(pool, path).is_defined(),
        !optimal_node(pool, path.last()).total_stability.is_less_than(path_total(pool, path)),
    decreases path.len(),
{
    let child = path.last();
    if path.len() > 1 {
        let front = path.drop_last();
        let other = path[path.len() - 2];
        assert(front.last() == other);
        assert(is_layer_path(pool, front)) by {
            assert forall|i: int| 0 < i < front.len() implies is_previous_count(
                pool,
                pool[#[trigger] front[i]].clusters.len(),
                pool[front[i - 1]].clusters.len(),
            ) by {
                assert(front[i] == path[i]);
            }
            assert(front[0] == path[0]);
        }
        lemma_no_path_is_more_stable(pool, front);
        assert(is_previous_count(
            pool,
            pool[path[path.len() - 1]].clusters.len(),
            pool[path[path.len() - 2]].clusters.len(),
        ));
        let mean = mean_stability_between(pool[child], pool[other]);
        let parent = optimal_parent(pool, child);
        lemma_optimal_parent_is_best(pool, child, other);
        lemma_mean_stability_is_defined(pool[child], pool[other]);
        lemma_optimal_total_is_defined(pool, other);
        lemma_candidate_total_is_defined(pool, child, other);
        lemma_candidate_total_is_defined(pool, child, parent);
        lemma_sum_is_defined(path_total(pool, front), mean);
        lemma_plus_keeps_order(
            path_total(pool, front),
            optimal_node(pool, other).total_stability,
            mean,
        );
        lemma_at_most_carries_over(
            path_total(pool, path),
            candidate_total(pool, child, other),
            candidate_total(pool, child, parent),
        );
    }
}

} // verus!
