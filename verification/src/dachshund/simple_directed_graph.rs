//! Simple directed graphs, and whether one has a cycle.

use vstd::prelude::*;
use vstd::set_lib::{lemma_len_subset, lemma_subset_equality};
use fxhash::FxHashMap;
use std::collections::HashSet;
use crate::dachshund::algorithms::brokerage::Brokerage;
use crate::dachshund::algorithms::connected_components::ConnectedComponents;
use crate::dachshund::algorithms::connectivity::{Connectivity, ConnectivityDirected};
use crate::dachshund::algorithms::strongly_connected::ConnectedComponentsDirected;
use crate::dachshund::counting::{
    all_within, lemma_lengths_sum_is_rect, lemma_occurrences_contains, occurrence_table,
    occurrences,
};
use crate::dachshund::graph_base::{
    degree_sum, lemma_degree_sum_as_sum, lemma_degree_sum_prefix, lemma_node_count, well_formed,
    GraphBase,
};
use crate::dachshund::id_types::NodeId;
use crate::dachshund::node::{append_ids, DirectedNodeBase, NodeBase, SimpleDirectedNode};
use crate::dachshund::node_map::{map_contains_key, map_get, map_len};
use crate::dachshund::sums::{lemma_sum_add, lemma_transpose_sum};

verus! {

/// Whether the graph has an edge from `u` to `v`.
pub open spec fn has_edge<N: DirectedNodeBase>(nodes: Map<i64, N>, u: NodeId, v: NodeId) -> bool {
    nodes.contains_key(u.id) && nodes[u.id].out_view().contains(v)
}

/// The entry after place `i` in a walk that closes on itself.
pub open spec fn successor(walk: Seq<NodeId>, i: int) -> NodeId {
    if i + 1 < walk.len() {
        walk[i + 1]
    } else {
        walk[0]
    }
}

/// Whether `walk` is a directed cycle: it has at least one node, an edge
/// leads from each node to the next, and one from the last back to the first.
pub open spec fn is_cycle<N: DirectedNodeBase>(nodes: Map<i64, N>, walk: Seq<NodeId>) -> bool {
    &&& walk.len() >= 1
    &&& forall|i: int| 0 <= i < walk.len() ==> has_edge(nodes, #[trigger] walk[i], successor(walk, i))
}

/// Whether the graph has no directed cycle.
pub open spec fn acyclic<N: DirectedNodeBase>(nodes: Map<i64, N>) -> bool {
    forall|walk: Seq<NodeId>| !is_cycle(nodes, walk)
}

/// Whether every edge that leaves a node of `leaves` leads to a node of
/// `leaves` with a smaller rank.
pub open spec fn ranked<N: DirectedNodeBase>(
    nodes: Map<i64, N>,
    leaves: Set<i64>,
    rank: Map<i64, nat>,
) -> bool {
    forall|k: i64, j: int|
        leaves.contains(k) && 0 <= j < nodes[k].out_view().len() ==> {
            &&& leaves.contains(#[trigger] nodes[k].out_view()[j].id)
            &&& rank[nodes[k].out_view()[j].id] < rank[k]
        }
}

/// Along a cycle among ranked nodes the rank falls with each step.
proof fn lemma_rank_falls<N: DirectedNodeBase>(
    nodes: Map<i64, N>,
    rank: Map<i64, nat>,
    walk: Seq<NodeId>,
    i: int,
)
    requires
        ranked(nodes, nodes.dom(), rank),
        is_cycle(nodes, walk),
        0 <= i < walk.len(),
    ensures
        rank[walk[i].id] + i <= rank[walk[0].id],
    decreases i,
{
    if i > 0 {
        lemma_rank_falls(nodes, rank, walk, i - 1);
        let u = walk[i - 1];
        assert(has_edge(nodes, u, successor(walk, i - 1)));
        let j = choose|j: int| 0 <= j < nodes[u.id].out_view().len() && nodes[u.id].out_view()[j] == walk[i];
        assert(rank[nodes[u.id].out_view()[j].id] < rank[u.id]);
    }
}

/// A graph whose nodes can all be ranked so that every edge leads to a
/// smaller rank has no cycle.
pub proof fn lemma_ranked_is_acyclic<N: DirectedNodeBase>(nodes: Map<i64, N>, rank: Map<i64, nat>)
    requires
        ranked(nodes, nodes.dom(), rank),
    ensures
        acyclic(nodes),
{
    assert forall|walk: Seq<NodeId>| !is_cycle(nodes, walk) by {
        if is_cycle(nodes, walk) {
            let last = walk.len() - 1;
            lemma_rank_falls(nodes, rank, walk, last);
            let u = walk[last];
            assert(has_edge(nodes, u, successor(walk, last)));
            let j = choose|j: int|
                0 <= j < nodes[u.id].out_view().len() && nodes[u.id].out_view()[j] == walk[0];
            assert(rank[nodes[u.id].out_view()[j].id] < rank[u.id]);
        }
    }
}

/// A node outside `leaves` that an edge from `k` leads to.
pub open spec fn next_outside<N: DirectedNodeBase>(nodes: Map<i64, N>, leaves: Set<i64>, k: i64) -> i64 {
    choose|t: i64| nodes[k].out_view().contains(NodeId { id: t }) && !leaves.contains(t)
}

/// The walk of `steps` edges that starts at `start` and goes on through
/// `next_outside`.
pub open spec fn walk_outside<N: DirectedNodeBase>(
    nodes: Map<i64, N>,
    leaves: Set<i64>,
    start: i64,
    steps: nat,
) -> Seq<i64>
    decreases steps,
{
    if steps == 0 {
        seq![start]
    } else {
        let before = walk_outside(nodes, leaves, start, (steps - 1) as nat);
        before.push(next_outside(nodes, leaves, before.last()))
    }
}

/// Whether no node outside `leaves` could join them: each has an edge to a
/// node outside `leaves`.
#[verifier::opaque]
pub open spec fn stuck<N: DirectedNodeBase>(nodes: Map<i64, N>, leaves: Set<i64>) -> bool {
    forall|k: i64|
        nodes.contains_key(k) && !leaves.contains(k) ==> !all_within(
            #[trigger] nodes[k].out_view(),
            leaves,
        )
}

/// Whether every edge of the graph leads to a node of the graph.
#[verifier::opaque]
pub open spec fn closed<N: DirectedNodeBase>(nodes: Map<i64, N>) -> bool {
    forall|k: i64, j: int|
        nodes.contains_key(k) && 0 <= j < nodes[k].out_view().len() ==> nodes.contains_key(
            #[trigger] nodes[k].out_view()[j].id,
        )
}

proof fn lemma_next_outside<N: DirectedNodeBase>(nodes: Map<i64, N>, leaves: Set<i64>, k: i64)
    requires
        closed(nodes),
        stuck(nodes, leaves),
        nodes.contains_key(k),
        !leaves.contains(k),
    ensures
        nodes.contains_key(next_outside(nodes, leaves, k)),
        !leaves.contains(next_outside(nodes, leaves, k)),
        has_edge(nodes, NodeId { id: k }, NodeId { id: next_outside(nodes, leaves, k) }),
{
    reveal(stuck);
    reveal(closed);
    let out = nodes[k].out_view();
    assert(!all_within(out, leaves));
    let j = choose|j: int| 0 <= j < out.len() && !leaves.contains(#[trigger] out[j].id);
    let t = out[j].id;
    assert(out[j] == NodeId { id: t });
    assert(out.contains(NodeId { id: t }) && !leaves.contains(t));
    let chosen = next_outside(nodes, leaves, k);
    let i = choose|i: int| 0 <= i < out.len() && out[i] == (NodeId { id: chosen });
    assert(nodes.contains_key(out[i].id));
}

/// Whether `w` stays among the nodes outside `leaves` and goes from each
/// entry to the next along an edge.
pub open spec fn walks_outside<N: DirectedNodeBase>(
    nodes: Map<i64, N>,
    leaves: Set<i64>,
    w: Seq<i64>,
) -> bool {
    &&& forall|i: int|
        0 <= i < w.len() ==> nodes.contains_key(#[trigger] w[i]) && !leaves.contains(w[i])
    &&& forall|i: int|
        0 <= i < w.len() - 1 ==> has_edge(
            nodes,
            NodeId { id: #[trigger] w[i] },
            NodeId { id: w[i + 1] },
        )
}

proof fn lemma_walk_outside<N: DirectedNodeBase>(
    nodes: Map<i64, N>,
    leaves: Set<i64>,
    start: i64,
    steps: nat,
)
    requires
        closed(nodes),
        stuck(nodes, leaves),
        nodes.contains_key(start),
        !leaves.contains(start),
    ensures
        walk_outside(nodes, leaves, start, steps).len() == steps + 1,
        walks_outside(nodes, leaves, walk_outside(nodes, leaves, start, steps)),
    decreases steps,
{
    if steps > 0 {
        let before = walk_outside(nodes, leaves, start, (steps - 1) as nat);
        lemma_walk_outside(nodes, leaves, start, (steps - 1) as nat);
        lemma_next_outside(nodes, leaves, before.last());
        let w = before.push(next_outside(nodes, leaves, before.last()));
        assert(w == walk_outside(nodes, leaves, start, steps));
        assert forall|i: int| 0 <= i < w.len() implies nodes.contains_key(#[trigger] w[i])
            && !leaves.contains(w[i]) by {
            if i < steps {
                assert(w[i] == before[i]);
            }
        }
        assert forall|i: int| 0 <= i < w.len() - 1 implies has_edge(
            nodes,
            NodeId { id: #[trigger] w[i] },
            NodeId { id: w[i + 1] },
        ) by {
            assert(w[i] == before[i]);
            if i < steps - 1 {
                assert(w[i + 1] == before[i + 1]);
            }
        }
    }
}

/// A walk that comes back to a node it has seen holds a cycle.
proof fn lemma_repeat_is_cycle<N: DirectedNodeBase>(
    nodes: Map<i64, N>,
    leaves: Set<i64>,
    w: Seq<i64>,
    lo: int,
    hi: int,
)
    requires
        walks_outside(nodes, leaves, w),
        0 <= lo < hi < w.len(),
        w[lo] == w[hi],
    ensures
        !acyclic(nodes),
{
    let cycle = Seq::new((hi - lo) as nat, |x: int| NodeId { id: w[lo + x] });
    assert forall|x: int| 0 <= x < cycle.len() implies has_edge(
        nodes,
        #[trigger] cycle[x],
        successor(cycle, x),
    ) by {
        assert(has_edge(nodes, NodeId { id: w[lo + x] }, NodeId { id: w[lo + x + 1] }));
    }
    assert(is_cycle(nodes, cycle));
}

/// A sequence longer than the finite set it draws from repeats an entry.
proof fn lemma_long_walk_repeats(w: Seq<i64>, s: Set<i64>) -> (r: (int, int))
    requires
        s.finite(),
        forall|i: int| 0 <= i < w.len() ==> s.contains(#[trigger] w[i]),
        w.len() > s.len(),
    ensures
        0 <= r.0 < r.1 < w.len(),
        w[r.0] == w[r.1],
{
    if w.no_duplicates() {
        w.unique_seq_to_set();
        assert(w.to_set().subset_of(s)) by {
            assert forall|k: i64| w.to_set().contains(k) implies s.contains(k) by {
                let i = choose|i: int| 0 <= i < w.len() && w[i] == k;
                assert(s.contains(w[i]));
            }
        }
        lemma_len_subset(w.to_set(), s);
    }
    let (i, j) = choose|i: int, j: int|
        0 <= i < w.len() && 0 <= j < w.len() && i != j && w[i] == w[j];
    if i < j {
        (i, j)
    } else {
        (j, i)
    }
}

/// Where some node is outside `leaves` and none outside could join them, the
/// graph has a cycle: a walk that never enters `leaves` must come back to a
/// node it has seen.
pub proof fn lemma_stuck_has_cycle<N: DirectedNodeBase>(
    nodes: Map<i64, N>,
    leaves: Set<i64>,
    start: i64,
)
    requires
        nodes.dom().finite(),
        closed(nodes),
        stuck(nodes, leaves),
        nodes.contains_key(start),
        !leaves.contains(start),
    ensures
        !acyclic(nodes),
{
    let steps = nodes.dom().len();
    let w = walk_outside(nodes, leaves, start, steps);
    lemma_walk_outside(nodes, leaves, start, steps);
    assert forall|i: int| 0 <= i < w.len() implies nodes.dom().contains(#[trigger] w[i]) by {
        assert(nodes.contains_key(w[i]));
    }
    let at = lemma_long_walk_repeats(w, nodes.dom());
    lemma_repeat_is_cycle(nodes, leaves, w, at.0, at.1);
}

/// In a well-formed graph every edge that leaves a node leads to a node.
pub proof fn lemma_closed<N: DirectedNodeBase>(nodes: Map<i64, N>, ids: Seq<NodeId>)
    requires
        well_formed(nodes, ids),
    ensures
        closed(nodes),
{
    reveal(closed);
    assert forall|k: i64, j: int|
        nodes.contains_key(k) && 0 <= j < nodes[k].out_view().len() implies nodes.contains_key(
        #[trigger] nodes[k].out_view()[j].id,
    ) by {
        nodes[k].lemma_edges_split();
        let at = nodes[k].in_view().len() + j;
        assert(nodes[k].edges_view()[at] == nodes[k].out_view()[j]);
        assert(nodes.contains_key(nodes[k].edges_view()[at].id));
    }
}

/// A graph whose edges have a direction.
pub trait DirectedGraph: GraphBase where Self::NodeType: DirectedNodeBase {
    /// Each edge is stored at both of its ends: `v` is an out-neighbor of
    /// `u` exactly when `u` is an in-neighbor of `v`.
    proof fn lemma_edge_has_two_ends(&self, u: NodeId, v: NodeId)
        requires
            self.wf(),
            self.nodes_view().contains_key(u.id),
            self.nodes_view().contains_key(v.id),
        ensures
            self.nodes_view()[u.id].out_view().contains(v) <==> self.nodes_view()[v.id].in_view().contains(
                u,
            ),
    ;

    /// Whether the graph has no directed cycle. Nodes are gathered as
    /// "leaves" once all their out-neighbors are leaves; the graph is acyclic
    /// exactly when every node becomes one.
    fn is_acyclic(&self) -> (r: bool)
        requires
            self.wf(),
        ensures
            r == acyclic(self.nodes_view()),
    {
        let ids: &Vec<NodeId> = self.get_core_ids();
        let num_nodes: usize = self.count_nodes();
        proof {
            self.lemma_wf();
            lemma_node_count(self.nodes_view(), self.ids_view());
            lemma_closed(self.nodes_view(), self.ids_view());
        }
        let mut leaves: HashSet<i64> = HashSet::new();
        let ghost mut rank: Map<i64, nat> = Map::empty();
        let ghost mut next_rank: nat = 0;
        while leaves.len() < num_nodes
            invariant
                ids@ == self.ids_view(),
                well_formed(self.nodes_view(), self.ids_view()),
                closed(self.nodes_view()),
                self.nodes_view().dom().finite(),
                num_nodes == self.nodes_view().dom().len(),
                leaves@.finite(),
                leaves@.subset_of(self.nodes_view().dom()),
                ranked(self.nodes_view(), leaves@, rank),
                forall|k: i64| leaves@.contains(k) ==> rank[k] < next_rank,
            decreases num_nodes - leaves@.len(),
        {
            let ghost before = leaves@;
            let mut leaf_was_found: bool = false;
            let mut i: usize = 0;
            while i < ids.len()
                invariant
                    i <= ids.len(),
                    ids@ == self.ids_view(),
                    well_formed(self.nodes_view(), self.ids_view()),
                    leaves@.finite(),
                    leaves@.subset_of(self.nodes_view().dom()),
                    ranked(self.nodes_view(), leaves@, rank),
                    forall|k: i64| leaves@.contains(k) ==> rank[k] < next_rank,
                    before.finite(),
                    leaf_was_found ==> leaves@.len() > before.len(),
                    !leaf_was_found ==> leaves@ == before,
                    !leaf_was_found ==> forall|j: int|
                        0 <= j < i ==> leaves@.contains(#[trigger] ids@[j].id) || !all_within(
                            self.nodes_view()[ids@[j].id].out_view(),
                            leaves@,
                        ),
                decreases ids.len() - i,
            {
                assert(ids@.contains(ids@[i as int]));
                let node: &Self::NodeType = self.get_node(ids[i]);
                let node_id: NodeId = node.get_id();
                let key: i64 = node_id.value();
                assert(self.nodes_view().contains_key(ids@[i as int].id));
                if !leaves.contains(&key) && node.has_no_out_neighbors_except_set(&leaves) {
                    let ghost old_leaves = leaves@;
                    let ghost old_rank = rank;
                    leaves.insert(key);
                    proof {
                        rank = rank.insert(key, next_rank);
                        next_rank = next_rank + 1;
                        assert forall|k: i64, j: int|
                            leaves@.contains(k) && 0 <= j < self.nodes_view()[k].out_view().len() implies {
                            &&& leaves@.contains(#[trigger] self.nodes_view()[k].out_view()[j].id)
                            &&& rank[self.nodes_view()[k].out_view()[j].id] < rank[k]
                        } by {
                            let out = self.nodes_view()[k].out_view();
                            if k == key {
                                assert(all_within(out, old_leaves));
                                assert(old_leaves.contains(out[j].id));
                            } else {
                                assert(old_leaves.contains(k));
                                assert(old_leaves.contains(out[j].id));
                            }
                        }
                    }
                    leaf_was_found = true;
                }
                i += 1;
            }
            if !leaf_was_found {
                proof {
                    let nodes = self.nodes_view();
                    if forall|k: i64| nodes.dom().contains(k) ==> leaves@.contains(k) {
                        assert(nodes.dom().subset_of(leaves@));
                        lemma_len_subset(nodes.dom(), leaves@);
                    }
                    let start = choose|k: i64| nodes.dom().contains(k) && !leaves@.contains(k);
                    reveal(stuck);
                    assert forall|k: i64| nodes.contains_key(k) && !leaves@.contains(k) implies !all_within(
                        #[trigger] nodes[k].out_view(),
                        leaves@,
                    ) by {
                        let n = NodeId { id: k };
                        assert(nodes.contains_key(n.id));
                        let j = choose|j: int| 0 <= j < ids@.len() && ids@[j] == n;
                        assert(!leaves@.contains(ids@[j].id));
                    }
                    lemma_stuck_has_cycle(nodes, leaves@, start);
                }
                return false;
            }
            proof {
                lemma_len_subset(leaves@, self.nodes_view().dom());
            }
        }
        proof {
            lemma_len_subset(leaves@, self.nodes_view().dom());
            lemma_subset_equality(leaves@, self.nodes_view().dom());
            lemma_ranked_is_acyclic(self.nodes_view(), rank);
        }
        true
    }
}

/// Whether each edge is stored at both of its ends: `v` occurs among the
/// out-neighbors of `u` as often as `u` among the in-neighbors of `v`.
pub open spec fn balanced(nodes: Map<i64, SimpleDirectedNode>) -> bool {
    forall|u: i64, v: i64|
        nodes.contains_key(u) && nodes.contains_key(v) ==> #[trigger] occurrences(
            nodes[u].out_neighbors@,
            NodeId { id: v },
        ) == occurrences(nodes[v].in_neighbors@, NodeId { id: u })
}

/// In a balanced graph each edge is counted once where it leaves and once
/// where it arrives, so the degrees add up to an even number.
pub proof fn lemma_balanced_degree_sum_even(nodes: Map<i64, SimpleDirectedNode>, ids: Seq<NodeId>)
    requires
        well_formed(nodes, ids),
        balanced(nodes),
    ensures
        degree_sum(nodes, ids) % 2 == 0,
{
    let n = ids.len() as int;
    let outs = |i: int| nodes[ids[i].id].out_neighbors@;
    let ins = |i: int| nodes[ids[i].id].in_neighbors@;
    let a = occurrence_table(outs, ids);
    let b = occurrence_table(ins, ids);
    assert forall|i: int, j: int| 0 <= i < n && 0 <= j < ins(i).len() implies ids.contains(
        #[trigger] ins(i)[j],
    ) by {
        assert(ids.contains(ids[i]));
        assert(nodes[ids[i].id].edges_view()[j] == ins(i)[j]);
        assert(nodes.contains_key(nodes[ids[i].id].edges_view()[j].id));
    }
    assert forall|i: int, j: int| 0 <= i < n && 0 <= j < outs(i).len() implies ids.contains(
        #[trigger] outs(i)[j],
    ) by {
        assert(ids.contains(ids[i]));
        let at = ins(i).len() + j;
        assert(nodes[ids[i].id].edges_view()[at] == outs(i)[j]);
        assert(nodes.contains_key(nodes[ids[i].id].edges_view()[at].id));
    }
    assert forall|x: int, y: int| 0 <= x < n && 0 <= y < n implies #[trigger] b(x, y) == a(
        y,
        x,
    ) by {
        assert(ids.contains(ids[x]));
        assert(ids.contains(ids[y]));
        assert(ids[x] == NodeId { id: ids[x].id });
        assert(ids[y] == NodeId { id: ids[y].id });
        assert(occurrences(nodes[ids[y].id].out_neighbors@, NodeId { id: ids[x].id })
            == occurrences(nodes[ids[x].id].in_neighbors@, NodeId { id: ids[y].id }));
    }
    lemma_transpose_sum(a, b, n, n);
    lemma_lengths_sum_is_rect(outs, ids, n);
    lemma_lengths_sum_is_rect(ins, ids, n);
    lemma_degree_sum_as_sum(nodes, ids, n);
    lemma_sum_add(
        |i: int| ins(i).len() as int,
        |i: int| outs(i).len() as int,
        |i: int| nodes[ids[i].id].edges_view().len() as int,
        n,
    );
    assert(ids.subrange(0, n) =~= ids);
}

/// A simple directed graph: nodes without any type information, each
/// holding the sources of the edges that arrive and the targets of those
/// that leave.
pub struct SimpleDirectedGraph {
    pub nodes: FxHashMap<i64, SimpleDirectedNode>,
    pub ids: Vec<NodeId>,
}

impl GraphBase for SimpleDirectedGraph {
    type NodeType = SimpleDirectedNode;

    open spec fn nodes_view(&self) -> Map<i64, SimpleDirectedNode> {
        self.nodes@
    }

    open spec fn ids_view(&self) -> Seq<NodeId> {
        self.ids@
    }

    /// Core and non-core identifiers are the same in a graph of one kind of
    /// node.
    open spec fn non_core_ids_view(&self) -> Option<Seq<NodeId>> {
        Some(self.ids@)
    }

    open spec fn wf(&self) -> bool {
        &&& well_formed(self.nodes@, self.ids@)
        &&& balanced(self.nodes@)
    }

    proof fn lemma_wf(&self) {
    }

    proof fn lemma_degree_sum_even(&self) {
        lemma_balanced_degree_sum_even(self.nodes@, self.ids@);
    }

    fn get_core_ids(&self) -> (r: &Vec<NodeId>) {
        &self.ids
    }

    fn get_non_core_ids(&self) -> (r: Option<&Vec<NodeId>>) {
        Some(&self.ids)
    }

    fn get_ids_iter(&self) -> (r: Vec<NodeId>) {
        let mut out: Vec<NodeId> = Vec::new();
        append_ids(&mut out, &self.ids);
        out
    }

    fn get_nodes_iter(&self) -> (r: Vec<&SimpleDirectedNode>) {
        let mut out: Vec<&SimpleDirectedNode> = Vec::new();
        let mut i: usize = 0;
        while i < self.ids.len()
            invariant
                i <= self.ids.len(),
                self.wf(),
                out@.len() == i,
                forall|j: int| 0 <= j < i ==> *(#[trigger] out@[j]) == self.nodes@[self.ids@[j].id],
            decreases self.ids.len() - i,
        {
            assert(self.ids@.contains(self.ids@[i as int]));
            let node: &SimpleDirectedNode = self.get_node(self.ids[i]);
            out.push(node);
            i += 1;
        }
        out
    }

    fn get_mut_nodes(&mut self) -> (r: &mut FxHashMap<i64, SimpleDirectedNode>) {
        &mut self.nodes
    }

    fn has_node(&self, node_id: NodeId) -> (r: bool) {
        map_contains_key(&self.nodes, node_id.value())
    }

    fn get_node(&self, node_id: NodeId) -> (r: &SimpleDirectedNode) {
        map_get(&self.nodes, node_id.value()).unwrap()
    }

    fn count_edges(&self) -> (r: usize) {
        proof {
            self.lemma_degree_sum_even();
        }
        let mut num_edges: usize = 0;
        let mut i: usize = 0;
        while i < self.ids.len()
            invariant
                i <= self.ids.len(),
                self.wf(),
                num_edges == degree_sum(self.nodes@, self.ids@.subrange(0, i as int)),
            decreases self.ids.len() - i,
        {
            assert(self.ids@.contains(self.ids@[i as int]));
            let node: &SimpleDirectedNode = self.get_node(self.ids[i]);
            proof {
                lemma_degree_sum_prefix(self.nodes@, self.ids@, i + 1);
                assert(self.ids@.subrange(0, i + 1).drop_last() =~= self.ids@.subrange(0, i as int));
            }
            num_edges += node.degree();
            i += 1;
        }
        assert(self.ids@.subrange(0, self.ids.len() as int) =~= self.ids@);
        num_edges / 2
    }

    fn count_nodes(&self) -> (r: usize) {
        map_len(&self.nodes)
    }

    fn create_empty() -> (g: Self) {
        SimpleDirectedGraph { nodes: FxHashMap::default(), ids: Vec::new() }
    }
}

impl DirectedGraph for SimpleDirectedGraph {
    proof fn lemma_edge_has_two_ends(&self, u: NodeId, v: NodeId) {
        lemma_occurrences_contains(self.nodes@[u.id].out_neighbors@, v);
        lemma_occurrences_contains(self.nodes@[v.id].in_neighbors@, u);
        assert(u == NodeId { id: u.id });
        assert(v == NodeId { id: v.id });
    }
}

impl Brokerage for SimpleDirectedGraph {

}

impl Connectivity for SimpleDirectedGraph {

}

impl ConnectivityDirected for SimpleDirectedGraph {

}

impl ConnectedComponentsDirected for SimpleDirectedGraph {

}


impl ConnectedComponents for SimpleDirectedGraph {

}

} // verus!
