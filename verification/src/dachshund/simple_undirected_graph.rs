//! Simple graphs without direction.

use vstd::prelude::*;
use fxhash::FxHashMap;
use crate::dachshund::algorithms::connected_components::{
    ConnectedComponents, ConnectedComponentsUndirected,
};
use crate::dachshund::algorithms::adjacency_matrix::AdjacencyMatrix;
use crate::dachshund::algorithms::betweenness::Betweenness;
use crate::dachshund::algorithms::clustering::Clustering;
use crate::dachshund::algorithms::cnm_communities::CNMCommunities;
use crate::dachshund::algorithms::connectivity::{Connectivity, ConnectivityUndirected};
use crate::dachshund::algorithms::coreness::Coreness;
use crate::dachshund::algorithms::k_peaks::KPeaks;
use crate::dachshund::algorithms::laplacian::Laplacian;
use crate::dachshund::algorithms::sampling::Sampling;
use crate::dachshund::algorithms::shortest_paths::ShortestPaths;
use crate::dachshund::algorithms::transitivity::Transitivity;
use crate::dachshund::counting::{
    lemma_lengths_sum_is_rect, lemma_occurrences_contains, occurrence_table, occurrences,
};
use crate::dachshund::graph_base::{
    degree_sum, lemma_degree_sum_as_sum, lemma_degree_sum_prefix, well_formed, GraphBase,
};
use crate::dachshund::id_types::NodeId;
use crate::dachshund::node::{NodeBase, NodeEdgeBase, SimpleNode};
use crate::dachshund::row::{render_rows, rows_text};
use crate::dachshund::node_map::{map_contains_key, map_get, map_len};
use crate::dachshund::sums::{lemma_sum_pointwise, lemma_symmetric_sum_even};

verus! {

/// A graph whose edges have no direction: whenever `v` is a neighbor of `u`,
/// `u` is a neighbor of `v`.
pub trait UndirectedGraph: GraphBase {
    /// In an undirected graph `v` is among the neighbors of `u` exactly when
    /// `u` is among the neighbors of `v`.
    proof fn lemma_neighbors_symmetric(&self, u: NodeId, v: NodeId)
        requires
            self.wf(),
            self.nodes_view().contains_key(u.id),
            self.nodes_view().contains_key(v.id),
        ensures
            self.nodes_view()[u.id].edges_view().contains(v) <==> self.nodes_view()[v.id].edges_view().contains(
                u,
            ),
    ;
}

/// Whether each edge is stored at both of its ends: `v` occurs among the
/// neighbors of `u` as often as `u` among those of `v`, and a node occurs
/// among its own neighbors twice for each loop.
pub open spec fn symmetric(nodes: Map<i64, SimpleNode>) -> bool {
    &&& forall|u: i64, v: i64|
        nodes.contains_key(u) && nodes.contains_key(v) ==> #[trigger] occurrences(
            nodes[u].neighbors@,
            NodeId { id: v },
        ) == occurrences(nodes[v].neighbors@, NodeId { id: u })
    &&& forall|u: i64|
        nodes.contains_key(u) ==> (#[trigger] occurrences(nodes[u].neighbors@, NodeId { id: u })) % 2
            == 0
}

/// In a symmetric graph each edge is counted at both ends, so the degrees
/// add up to an even number.
pub proof fn lemma_symmetric_degree_sum_even(nodes: Map<i64, SimpleNode>, ids: Seq<NodeId>)
    requires
        well_formed(nodes, ids),
        symmetric(nodes),
    ensures
        degree_sum(nodes, ids) % 2 == 0,
{
    let n = ids.len() as int;
    let seqs = |i: int| nodes[ids[i].id].neighbors@;
    let a = occurrence_table(seqs, ids);
    assert forall|i: int, j: int| 0 <= i < n && 0 <= j < seqs(i).len() implies ids.contains(
        #[trigger] seqs(i)[j],
    ) by {
        assert(ids.contains(ids[i]));
        assert(nodes.contains_key(nodes[ids[i].id].edges_view()[j].id));
    }
    assert forall|x: int, y: int| 0 <= x < n && 0 <= y < n implies #[trigger] a(x, y) == a(
        y,
        x,
    ) by {
        assert(ids.contains(ids[x]));
        assert(ids.contains(ids[y]));
        assert(ids[x] == NodeId { id: ids[x].id });
        assert(ids[y] == NodeId { id: ids[y].id });
    }
    assert forall|x: int| 0 <= x < n implies (#[trigger] a(x, x)) % 2 == 0 by {
        assert(ids.contains(ids[x]));
        assert(ids[x] == NodeId { id: ids[x].id });
    }
    lemma_symmetric_sum_even(a, n, n);
    lemma_lengths_sum_is_rect(seqs, ids, n);
    lemma_degree_sum_as_sum(nodes, ids, n);
    lemma_sum_pointwise(
        |i: int| nodes[ids[i].id].edges_view().len() as int,
        |i: int| seqs(i).len() as int,
        n,
    );
    assert(ids.subrange(0, n) =~= ids);
}

/// The rows that node `u` contributes when a graph is written out: one for
/// each of its half-edges that leads to a larger identifier, in order. The
/// other half of each edge is left to the other end, and loops are left out.
pub open spec fn upward_rows(u: NodeId, edges: Seq<NodeId>) -> Seq<(i64, i64)>
    decreases edges.len(),
{
    if edges.len() == 0 {
        Seq::empty()
    } else if u.id < edges.last().id {
        upward_rows(u, edges.drop_last()).push((u.id, edges.last().id))
    } else {
        upward_rows(u, edges.drop_last())
    }
}

/// The rows of a graph when it is written out: those of each node, the nodes
/// taken in iteration order.
pub open spec fn input_rows(nodes: Map<i64, SimpleNode>, ids: Seq<NodeId>) -> Seq<(i64, i64)>
    decreases ids.len(),
{
    if ids.len() == 0 {
        Seq::empty()
    } else {
        input_rows(nodes, ids.drop_last()) + upward_rows(
            ids.last(),
            nodes[ids.last().id].neighbors@,
        )
    }
}

/// A simple undirected graph: nodes without any type information, each
/// holding the targets of its half-edges.
pub struct SimpleUndirectedGraph {
    pub nodes: FxHashMap<i64, SimpleNode>,
    pub ids: Vec<NodeId>,
}

impl GraphBase for SimpleUndirectedGraph {
    type NodeType = SimpleNode;

    open spec fn nodes_view(&self) -> Map<i64, SimpleNode> {
        self.nodes@
    }

    open spec fn ids_view(&self) -> Seq<NodeId> {
        self.ids@
    }

    /// Core and non-core identifiers are the same in a graph of one kind of
    /// node.
    open spec fn non_core_ids_view(&self) -> Option<Seq<NodeId>> {
        Some(self.ids@)
    }

    open spec fn wf(&self) -> bool {
        &&& well_formed(self.nodes@, self.ids@)
        &&& symmetric(self.nodes@)
    }

    proof fn lemma_wf(&self) {
    }

    proof fn lemma_degree_sum_even(&self) {
        lemma_symmetric_degree_sum_even(self.nodes@, self.ids@);
    }

    fn get_core_ids(&self) -> (r: &Vec<NodeId>) {
        &self.ids
    }

    fn get_non_core_ids(&self) -> (r: Option<&Vec<NodeId>>) {
        Some(&self.ids)
    }

    fn get_ids_iter(&self) -> (r: Vec<NodeId>) {
        let mut out: Vec<NodeId> = Vec::new();
        crate::dachshund::node::append_ids(&mut out, &self.ids);
        out
    }

    fn get_nodes_iter(&self) -> (r: Vec<&SimpleNode>) {
        let mut out: Vec<&SimpleNode> = Vec::new();
        let mut i: usize = 0;
        while i < self.ids.len()
            invariant
                i <= self.ids.len(),
                self.wf(),
                out@.len() == i,
                forall|j: int| 0 <= j < i ==> *(#[trigger] out@[j]) == self.nodes@[self.ids@[j].id],
            decreases self.ids.len() - i,
        {
            assert(self.ids@.contains(self.ids@[i as int]));
            let node: &SimpleNode = self.get_node(self.ids[i]);
            out.push(node);
            i += 1;
        }
        out
    }

    fn get_mut_nodes(&mut self) -> (r: &mut FxHashMap<i64, SimpleNode>) {
        &mut self.nodes
    }

    fn has_node(&self, node_id: NodeId) -> (r: bool) {
        map_contains_key(&self.nodes, node_id.value())
    }

    fn get_node(&self, node_id: NodeId) -> (r: &SimpleNode) {
        map_get(&self.nodes, node_id.value()).unwrap()
    }

    fn count_edges(&self) -> (r: usize) {
        proof {
            self.lemma_degree_sum_even();
        }
        let mut num_edges: usize = 0;
        let mut i: usize = 0;
        while i < self.ids.len()
            invariant
                i <= self.ids.len(),
                self.wf(),
                num_edges == degree_sum(self.nodes@, self.ids@.subrange(0, i as int)),
            decreases self.ids.len() - i,
        {
            assert(self.ids@.contains(self.ids@[i as int]));
            let node: &SimpleNode = self.get_node(self.ids[i]);
            proof {
                lemma_degree_sum_prefix(self.nodes@, self.ids@, i + 1);
                assert(self.ids@.subrange(0, i + 1).drop_last() =~= self.ids@.subrange(0, i as int));
            }
            num_edges += node.neighbors.len();
            i += 1;
        }
        assert(self.ids@.subrange(0, self.ids.len() as int) =~= self.ids@);
        num_edges / 2
    }

    fn count_nodes(&self) -> (r: usize) {
        map_len(&self.nodes)
    }

    fn create_empty() -> (g: Self) {
        SimpleUndirectedGraph { nodes: FxHashMap::default(), ids: Vec::new() }
    }
}

impl UndirectedGraph for SimpleUndirectedGraph {
    proof fn lemma_neighbors_symmetric(&self, u: NodeId, v: NodeId) {
        lemma_occurrences_contains(self.nodes@[u.id].neighbors@, v);
        lemma_occurrences_contains(self.nodes@[v.id].neighbors@, u);
        assert(u == NodeId { id: u.id });
        assert(v == NodeId { id: v.id });
    }
}

impl ConnectedComponents for SimpleUndirectedGraph {

}

impl ConnectedComponentsUndirected for SimpleUndirectedGraph {

}

impl Coreness for SimpleUndirectedGraph {

}

impl KPeaks for SimpleUndirectedGraph {

}

impl CNMCommunities for SimpleUndirectedGraph {

}

impl ShortestPaths for SimpleUndirectedGraph {

}

impl Clustering for SimpleUndirectedGraph {

}

impl Transitivity for SimpleUndirectedGraph {

}

impl Sampling for SimpleUndirectedGraph {

}

impl Connectivity for SimpleUndirectedGraph {

}

impl ConnectivityUndirected for SimpleUndirectedGraph {

}

impl Betweenness for SimpleUndirectedGraph {

}

impl AdjacencyMatrix for SimpleUndirectedGraph {

}

impl Laplacian for SimpleUndirectedGraph {

}

impl SimpleUndirectedGraph {
    /// The edges of the graph as rows from which a builder makes it again:
    /// each edge once, from its smaller to its larger end.
    pub fn get_input_rows(&self) -> (r: Vec<(i64, i64)>)
        requires
            self.wf(),
        ensures
            r@ == input_rows(self.nodes@, self.ids@),
    {
        let mut rows: Vec<(i64, i64)> = Vec::new();
        let mut i: usize = 0;
        while i < self.ids.len()
            invariant
                i <= self.ids.len(),
                self.wf(),
                rows@ == input_rows(self.nodes@, self.ids@.subrange(0, i as int)),
            decreases self.ids.len() - i,
        {
            let id: NodeId = self.ids[i];
            assert(self.ids@.contains(self.ids@[i as int]));
            let node: &SimpleNode = self.get_node(id);
            let edges: Vec<NodeId> = node.get_edges();
            let ghost done = rows@;
            let mut j: usize = 0;
            while j < edges.len()
                invariant
                    j <= edges.len(),
                    rows@ == done + upward_rows(id, edges@.subrange(0, j as int)),
                decreases edges.len() - j,
            {
                let neighbor: NodeId = edges[j].get_neighbor_id();
                assert(edges@.subrange(0, j + 1).drop_last() =~= edges@.subrange(0, j as int));
                if id.value() < neighbor.value() {
                    rows.push((id.value(), neighbor.value()));
                }
                j += 1;
            }
            proof {
                assert(edges@.subrange(0, edges.len() as int) =~= edges@);
                assert(self.ids@.subrange(0, i + 1).drop_last() =~= self.ids@.subrange(0, i as int));
            }
            i += 1;
        }
        assert(self.ids@.subrange(0, self.ids.len() as int) =~= self.ids@);
        rows
    }

    /// The graph as text that the line front end reads back: one line for
    /// each edge, holding `graph_id` and the two ends of the edge.
    pub fn as_input_rows(&self, graph_id: usize) -> (r: String)
        requires
            self.wf(),
        ensures
            r@ == rows_text(graph_id, input_rows(self.nodes@, self.ids@)),
    {
        let rows: Vec<(i64, i64)> = self.get_input_rows();
        render_rows(graph_id, &rows)
    }

    /// The degree of the node `id`: the number of its half-edges.
    pub fn get_node_degree(&self, id: NodeId) -> (r: usize)
        requires
            self.nodes@.contains_key(id.id),
        ensures
            r == self.nodes@[id.id].neighbors@.len(),
    {
        let node: &SimpleNode = self.get_node(id);
        assert(node.neighbors@.len() == node.neighbors.len());
        node.degree()
    }
}

} // verus!
