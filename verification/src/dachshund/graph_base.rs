//! What every graph offers, and what makes a graph well formed.

use vstd::prelude::*;
use vstd::seq_lib::seq_to_set_is_finite;
use fxhash::FxHashMap;
use crate::dachshund::id_types::NodeId;
use crate::dachshund::node::NodeBase;
use crate::dachshund::sums::sum_to;

verus! {

/// The sum of the degrees of the nodes listed in `ids`, each looked up in
/// `nodes`.
pub open spec fn degree_sum<N: NodeBase>(nodes: Map<i64, N>, ids: Seq<NodeId>) -> nat
    decreases ids.len(),
{
    if ids.len() == 0 {
        0
    } else {
        degree_sum(nodes, ids.drop_last()) + nodes[ids.last().id].edges_view().len()
    }
}

/// What holds of every kind of graph: the identifier list names each node of
/// the mapping once and nothing else, each node is stored under its own
/// identifier, each half-edge leads to a node of the graph, and the half-edges
/// can be counted in a machine word.
pub open spec fn well_formed<N: NodeBase>(nodes: Map<i64, N>, ids: Seq<NodeId>) -> bool {
    &&& ids.no_duplicates()
    &&& forall|n: NodeId| ids.contains(n) <==> #[trigger] nodes.contains_key(n.id)
    &&& forall|k: i64| #[trigger] nodes.contains_key(k) ==> nodes[k].id_view() == (NodeId { id: k })
    &&& forall|k: i64, j: int|
        nodes.contains_key(k) && 0 <= j < nodes[k].edges_view().len() ==> nodes.contains_key(
            #[trigger] nodes[k].edges_view()[j].id,
        )
    &&& degree_sum(nodes, ids) <= usize::MAX
}

/// The capabilities shared by every kind of graph: a mapping from node
/// identifiers to nodes, and a list of the identifiers that fixes the order in
/// which the nodes are visited.
pub trait GraphBase: Sized {
    /// The kind of node that the graph holds.
    type NodeType: NodeBase;

    /// The nodes, each under the integer of its identifier.
    spec fn nodes_view(&self) -> Map<i64, Self::NodeType>;

    /// The identifiers in iteration order.
    spec fn ids_view(&self) -> Seq<NodeId>;

    /// The identifiers of the other side of a bipartite graph, where the
    /// graph keeps such a list.
    spec fn non_core_ids_view(&self) -> Option<Seq<NodeId>>;

    /// The invariants of this kind of graph.
    spec fn wf(&self) -> bool;

    /// Every kind of graph is at least well formed.
    proof fn lemma_wf(&self)
        requires
            self.wf(),
        ensures
            well_formed(self.nodes_view(), self.ids_view()),
    ;

    /// Each edge is counted at both of its ends, so the degrees add up to an
    /// even number: twice the number of edges.
    proof fn lemma_degree_sum_even(&self)
        requires
            self.wf(),
        ensures
            degree_sum(self.nodes_view(), self.ids_view()) % 2 == 0,
    ;

    /// The identifiers of all nodes, in iteration order.
    fn get_core_ids(&self) -> (r: &Vec<NodeId>)
        ensures
            r@ == self.ids_view(),
    ;

    /// The identifiers of the nodes of the other side, where the graph has
    /// two sides.
    fn get_non_core_ids(&self) -> (r: Option<&Vec<NodeId>>)
        ensures
            match r {
                Some(v) => self.non_core_ids_view() == Some(v@),
                None => self.non_core_ids_view() is None,
            },
    ;

    /// The identifiers of all nodes, in iteration order.
    fn get_ids_iter(&self) -> (r: Vec<NodeId>)
        ensures
            r@ == self.ids_view(),
    ;

    /// The nodes, in iteration order.
    fn get_nodes_iter(&self) -> (r: Vec<&Self::NodeType>)
        requires
            self.wf(),
        ensures
            r@.len() == self.ids_view().len(),
            forall|i: int|
                0 <= i < r@.len() ==> *(#[trigger] r@[i]) == self.nodes_view()[self.ids_view()[i].id],
    ;

    /// Hands out the node mapping for changes. Whatever the caller does to
    /// it becomes the graph's mapping; the identifier list stays as it was.
    fn get_mut_nodes(&mut self) -> (r: &mut FxHashMap<i64, Self::NodeType>)
        ensures
            r@ == old(self).nodes_view(),
            final(self).nodes_view() == final(r)@,
            final(self).ids_view() == old(self).ids_view(),
            final(self).non_core_ids_view() == old(self).non_core_ids_view(),
    ;

    /// Whether the graph has a node of that identifier.
    fn has_node(&self, node_id: NodeId) -> (r: bool)
        ensures
            r == self.nodes_view().contains_key(node_id.id),
    ;

    /// The node of that identifier, which the graph must have.
    fn get_node(&self, node_id: NodeId) -> (r: &Self::NodeType)
        requires
            self.nodes_view().contains_key(node_id.id),
        ensures
            *r == self.nodes_view()[node_id.id],
    ;

    /// The number of logical edges: half of the sum of the degrees.
    fn count_edges(&self) -> (r: usize)
        requires
            self.wf(),
        ensures
            2 * r == degree_sum(self.nodes_view(), self.ids_view()),
    ;

    /// The number of nodes.
    fn count_nodes(&self) -> (r: usize)
        ensures
            r == self.nodes_view().len(),
    ;

    /// A graph without nodes.
    fn create_empty() -> (g: Self)
        ensures
            g.wf(),
            g.nodes_view() == Map::<i64, Self::NodeType>::empty(),
            g.ids_view() == Seq::<NodeId>::empty(),
    ;
}

/// The degree sum of a prefix of the identifier list is at most that of the
/// whole list.
pub proof fn lemma_degree_sum_prefix<N: NodeBase>(nodes: Map<i64, N>, ids: Seq<NodeId>, i: int)
    requires
        0 <= i <= ids.len(),
    ensures
        degree_sum(nodes, ids.subrange(0, i)) <= degree_sum(nodes, ids),
    decreases ids.len() - i,
{
    if i < ids.len() {
        lemma_degree_sum_prefix(nodes, ids, i + 1);
        assert(ids.subrange(0, i + 1).drop_last() =~= ids.subrange(0, i));
    } else {
        assert(ids.subrange(0, i) =~= ids);
    }
}

/// The degree sum, written as a sum over the places of the identifier list.
pub proof fn lemma_degree_sum_as_sum<N: NodeBase>(nodes: Map<i64, N>, ids: Seq<NodeId>, m: int)
    requires
        0 <= m <= ids.len(),
    ensures
        degree_sum(nodes, ids.subrange(0, m)) == sum_to(
            |i: int| nodes[ids[i].id].edges_view().len() as int,
            m,
        ),
    decreases m,
{
    if m > 0 {
        lemma_degree_sum_as_sum(nodes, ids, m - 1);
        assert(ids.subrange(0, m).drop_last() =~= ids.subrange(0, m - 1));
    }
}

/// A well-formed graph has as many nodes as its identifier list has entries.
pub proof fn lemma_node_count<N: NodeBase>(nodes: Map<i64, N>, ids: Seq<NodeId>)
    requires
        well_formed(nodes, ids),
    ensures
        nodes.dom().finite(),
        nodes.dom().len() == ids.len(),
{
    let keys = ids.map_values(|n: NodeId| n.id);
    assert forall|i: int, j: int| 0 <= i < keys.len() && 0 <= j < keys.len() && i != j implies keys[i]
        != keys[j] by {
        assert(ids[i] == NodeId { id: keys[i] });
        assert(ids[j] == NodeId { id: keys[j] });
    }
    assert forall|k: i64| keys.to_set().contains(k) <==> nodes.dom().contains(k) by {
        if nodes.dom().contains(k) {
            let n = NodeId { id: k };
            assert(nodes.contains_key(n.id));
            let i = choose|i: int| 0 <= i < ids.len() && ids[i] == n;
            assert(keys[i] == k);
        }
        if keys.to_set().contains(k) {
            let i = choose|i: int| 0 <= i < keys.len() && keys[i] == k;
            assert(ids.contains(ids[i]));
        }
    }
    assert(keys.to_set() =~= nodes.dom());
    keys.unique_seq_to_set();
    seq_to_set_is_finite(keys);
}

/// No node has more half-edges than the degrees add up to.
pub proof fn lemma_degree_bound<N: NodeBase>(nodes: Map<i64, N>, ids: Seq<NodeId>, at: int)
    requires
        0 <= at < ids.len(),
    ensures
        nodes[ids[at].id].edges_view().len() <= degree_sum(nodes, ids),
    decreases ids.len(),
{
    if at < ids.len() - 1 {
        lemma_degree_bound(nodes, ids.drop_last(), at);
    }
}

} // verus!
