//! Nodes: what every node offers, and the nodes of simple graphs.

use vstd::prelude::*;
use std::collections::HashSet;
use crate::dachshund::counting::{all_within, distinct, ties};
use crate::dachshund::id_types::NodeId;

verus! {

/// A half-edge: what a node stores for each edge that leaves it.
pub trait NodeEdgeBase {
    /// The node the half-edge leads to.
    spec fn neighbor_view(&self) -> NodeId;

    /// The node the half-edge leads to.
    fn get_neighbor_id(&self) -> (r: NodeId)
        ensures
            r == self.neighbor_view(),
    ;
}

/// In a simple graph a half-edge carries nothing but its target.
impl NodeEdgeBase for NodeId {
    open spec fn neighbor_view(&self) -> NodeId {
        *self
    }

    fn get_neighbor_id(&self) -> (r: NodeId) {
        *self
    }
}

/// What every kind of node offers to the algorithms.
pub trait NodeBase: Sized {
    /// The node's own identifier.
    spec fn id_view(&self) -> NodeId;

    /// The targets of the node's half-edges, in the order in which they are
    /// stored. A target occurs once for each parallel edge.
    spec fn edges_view(&self) -> Seq<NodeId>;

    /// The node's own identifier.
    fn get_id(&self) -> (r: NodeId)
        ensures
            r == self.id_view(),
    ;

    /// The targets of the node's half-edges, in the order in which they are
    /// stored.
    fn get_edges(&self) -> (r: Vec<NodeId>)
        ensures
            r@ == self.edges_view(),
    ;

    /// The number of half-edges, parallel edges counted each.
    fn degree(&self) -> (r: usize)
        requires
            self.edges_view().len() <= usize::MAX,
        ensures
            r == self.edges_view().len(),
    ;

    /// The number of half-edges that lead into `ids`.
    fn count_ties_with_ids(&self, ids: &HashSet<i64>) -> (r: usize)
        requires
            self.edges_view().len() <= usize::MAX,
        ensures
            r == ties(self.edges_view(), ids@),
    ;

    /// The neighbors without repetition, each at its first occurrence.
    fn get_neighbor_ids(&self) -> (r: Vec<NodeId>)
        ensures
            r@ == distinct(self.edges_view()),
    ;
}

/// What a node of a directed graph offers beyond `NodeBase`: its half-edges
/// come in two lists, incoming first.
pub trait DirectedNodeBase: NodeBase {
    /// The sources of the edges that arrive at the node.
    spec fn in_view(&self) -> Seq<NodeId>;

    /// The targets of the edges that leave the node.
    spec fn out_view(&self) -> Seq<NodeId>;

    /// The half-edges of a node are those that arrive, then those that
    /// leave.
    proof fn lemma_edges_split(&self)
        ensures
            self.edges_view() == self.in_view() + self.out_view(),
    ;

    /// The sources of the edges that arrive at the node.
    fn get_in_neighbors(&self) -> (r: &Vec<NodeId>)
        ensures
            r@ == self.in_view(),
    ;

    /// The targets of the edges that leave the node.
    fn get_out_neighbors(&self) -> (r: &Vec<NodeId>)
        ensures
            r@ == self.out_view(),
    ;

    /// The number of edges that arrive at the node.
    fn get_in_degree(&self) -> (r: usize)
        ensures
            r == self.in_view().len(),
    ;

    /// The number of edges that leave the node.
    fn get_out_degree(&self) -> (r: usize)
        ensures
            r == self.out_view().len(),
    ;

    /// Whether every edge that leaves the node leads into `ids`.
    fn has_no_out_neighbors_except_set(&self, ids: &HashSet<i64>) -> (r: bool)
        ensures
            r == all_within(self.out_view(), ids@),
    ;
}

/// Copies `src` entry by entry onto the end of `dst`.
pub fn append_ids(dst: &mut Vec<NodeId>, src: &Vec<NodeId>)
    ensures
        final(dst)@ == old(dst)@ + src@,
{
    let mut i: usize = 0;
    while i < src.len()
        invariant
            i <= src.len(),
            dst@ == old(dst)@ + src@.subrange(0, i as int),
        decreases src.len() - i,
    {
        dst.push(src[i]);
        i += 1;
    }
    assert(src@.subrange(0, src.len() as int) =~= src@);
}

/// Counts the entries of `edges` whose integer is in `ids`.
pub fn count_ties(edges: &Vec<NodeId>, ids: &HashSet<i64>) -> (r: usize)
    ensures
        r == ties(edges@, ids@),
{
    let mut count: usize = 0;
    let mut i: usize = 0;
    while i < edges.len()
        invariant
            i <= edges.len(),
            count == ties(edges@.subrange(0, i as int), ids@),
            count <= i,
        decreases edges.len() - i,
    {
        let key: i64 = edges[i].value();
        assert(edges@.subrange(0, i + 1).drop_last() =~= edges@.subrange(0, i as int));
        if ids.contains(&key) {
            count += 1;
        }
        i += 1;
    }
    assert(edges@.subrange(0, edges.len() as int) =~= edges@);
    count
}

/// Whether `x` is among the entries of `ids`.
pub fn contains_id(ids: &Vec<NodeId>, x: NodeId) -> (r: bool)
    ensures
        r == ids@.contains(x),
{
    let mut i: usize = 0;
    while i < ids.len()
        invariant
            i <= ids.len(),
            forall|j: int| 0 <= j < i ==> ids@[j] != x,
        decreases ids.len() - i,
    {
        if ids[i] == x {
            return true;
        }
        i += 1;
    }
    false
}

/// The entries of `edges` without repetition, each at its first occurrence.
pub fn distinct_ids(edges: &Vec<NodeId>) -> (r: Vec<NodeId>)
    ensures
        r@ == distinct(edges@),
{
    let mut out: Vec<NodeId> = Vec::new();
    let mut i: usize = 0;
    while i < edges.len()
        invariant
            i <= edges.len(),
            out@ == distinct(edges@.subrange(0, i as int)),
        decreases edges.len() - i,
    {
        assert(edges@.subrange(0, i + 1).drop_last() =~= edges@.subrange(0, i as int));
        let x: NodeId = edges[i];
        if !contains_id(&out, x) {
            out.push(x);
        }
        i += 1;
    }
    assert(edges@.subrange(0, edges.len() as int) =~= edges@);
    out
}

/// A node of a simple undirected graph: its identifier and the targets of
/// its half-edges.
pub struct SimpleNode {
    pub node_id: NodeId,
    pub neighbors: Vec<NodeId>,
}

impl NodeBase for SimpleNode {
    open spec fn id_view(&self) -> NodeId {
        self.node_id
    }

    open spec fn edges_view(&self) -> Seq<NodeId> {
        self.neighbors@
    }

    fn get_id(&self) -> (r: NodeId) {
        self.node_id
    }

    fn get_edges(&self) -> (r: Vec<NodeId>) {
        let mut out: Vec<NodeId> = Vec::new();
        append_ids(&mut out, &self.neighbors);
        out
    }

    fn degree(&self) -> (r: usize) {
        self.neighbors.len()
    }

    fn count_ties_with_ids(&self, ids: &HashSet<i64>) -> (r: usize) {
        count_ties(&self.neighbors, ids)
    }

    fn get_neighbor_ids(&self) -> (r: Vec<NodeId>) {
        distinct_ids(&self.neighbors)
    }
}

/// A node of a simple directed graph: its identifier, the sources of the
/// edges that arrive and the targets of the edges that leave.
pub struct SimpleDirectedNode {
    pub node_id: NodeId,
    pub in_neighbors: Vec<NodeId>,
    pub out_neighbors: Vec<NodeId>,
}

impl NodeBase for SimpleDirectedNode {
    open spec fn id_view(&self) -> NodeId {
        self.node_id
    }

    open spec fn edges_view(&self) -> Seq<NodeId> {
        self.in_neighbors@ + self.out_neighbors@
    }

    fn get_id(&self) -> (r: NodeId) {
        self.node_id
    }

    fn get_edges(&self) -> (r: Vec<NodeId>) {
        let mut out: Vec<NodeId> = Vec::new();
        append_ids(&mut out, &self.in_neighbors);
        append_ids(&mut out, &self.out_neighbors);
        out
    }

    fn degree(&self) -> (r: usize) {
        self.in_neighbors.len() + self.out_neighbors.len()
    }

    fn count_ties_with_ids(&self, ids: &HashSet<i64>) -> (r: usize) {
        let all: Vec<NodeId> = self.get_edges();
        count_ties(&all, ids)
    }

    fn get_neighbor_ids(&self) -> (r: Vec<NodeId>) {
        let all: Vec<NodeId> = self.get_edges();
        distinct_ids(&all)
    }
}

impl DirectedNodeBase for SimpleDirectedNode {
    open spec fn in_view(&self) -> Seq<NodeId> {
        self.in_neighbors@
    }

    open spec fn out_view(&self) -> Seq<NodeId> {
        self.out_neighbors@
    }

    proof fn lemma_edges_split(&self) {
    }

    fn get_in_neighbors(&self) -> (r: &Vec<NodeId>) {
        &self.in_neighbors
    }

    fn get_out_neighbors(&self) -> (r: &Vec<NodeId>) {
        &self.out_neighbors
    }

    fn get_in_degree(&self) -> (r: usize) {
        self.in_neighbors.len()
    }

    fn get_out_degree(&self) -> (r: usize) {
        self.out_neighbors.len()
    }

    fn has_no_out_neighbors_except_set(&self, ids: &HashSet<i64>) -> (r: bool) {
        let mut i: usize = 0;
        while i < self.out_neighbors.len()
            invariant
                i <= self.out_neighbors.len(),
                forall|j: int| 0 <= j < i ==> ids@.contains(#[trigger] self.out_neighbors@[j].id),
            decreases self.out_neighbors.len() - i,
        {
            let key: i64 = self.out_neighbors[i].value();
            if !ids.contains(&key) {
                return false;
            }
            i += 1;
        }
        true
    }
}

} // verus!
