//! Directed paths and strongly connected components.

use vstd::prelude::*;
use vstd::seq_lib::lemma_no_dup_in_concat;
use std::collections::HashSet;
use crate::dachshund::algorithms::connected_components::{
    is_ignored_node, lemma_distinct_nodes_bound, node_set, standing, ConnectedComponents,
};
use crate::dachshund::error::{CLQError, CLQResult};
use crate::dachshund::graph_base::{lemma_node_count, well_formed, GraphBase};
use crate::dachshund::id_types::NodeId;
use crate::dachshund::node::{DirectedNodeBase, NodeBase};
use crate::dachshund::simple_directed_graph::DirectedGraph;

verus! {

/// The neighbors of `u` on one side: with `outgoing` the targets of the
/// edges that leave it, without it the sources of those that arrive.
#[verifier::opaque]
pub open spec fn side<N: DirectedNodeBase>(nodes: Map<i64, N>, u: NodeId, outgoing: bool) -> Seq<NodeId> {
    if outgoing {
        nodes[u.id].out_view()
    } else {
        nodes[u.id].in_view()
    }
}

/// Whether a traversal may step from `u` to `v`: both are standing, and `v`
/// is a neighbor of `u` on the side that `outgoing` names.
pub open spec fn arc<N: DirectedNodeBase>(
    nodes: Map<i64, N>,
    avoid: Set<i64>,
    outgoing: bool,
    u: NodeId,
    v: NodeId,
) -> bool {
    &&& standing(nodes, avoid, u)
    &&& standing(nodes, avoid, v)
    &&& side(nodes, u, outgoing).contains(v)
}

/// Whether `p` is a directed path: it starts at a standing node and each
/// step is allowed.
pub open spec fn is_directed_path<N: DirectedNodeBase>(
    nodes: Map<i64, N>,
    avoid: Set<i64>,
    outgoing: bool,
    p: Seq<NodeId>,
) -> bool {
    &&& p.len() >= 1
    &&& standing(nodes, avoid, p[0])
    &&& forall|i: int| 0 <= i < p.len() - 1 ==> arc(nodes, avoid, outgoing, #[trigger] p[i], p[i + 1])
}

/// Whether a directed path leads from `u` to `v`: along the edges with
/// `outgoing`, against them without.
pub open spec fn reaches<N: DirectedNodeBase>(
    nodes: Map<i64, N>,
    avoid: Set<i64>,
    outgoing: bool,
    u: NodeId,
    v: NodeId,
) -> bool {
    exists|p: Seq<NodeId>| is_directed_path(nodes, avoid, outgoing, p) && p[0] == u && p.last() == v
}

/// Whether every neighbor on the side that `outgoing` names is a node of
/// the graph.
#[verifier::opaque]
pub open spec fn closed_arcs<N: DirectedNodeBase>(nodes: Map<i64, N>, outgoing: bool) -> bool {
    forall|k: i64, j: int|
        nodes.contains_key(k) && 0 <= j < side(nodes, NodeId { id: k }, outgoing).len()
            ==> nodes.contains_key(#[trigger] side(nodes, NodeId { id: k }, outgoing)[j].id)
}

/// In a well-formed graph the neighbors on either side are nodes.
pub proof fn lemma_closed_arcs<N: DirectedNodeBase>(nodes: Map<i64, N>, ids: Seq<NodeId>, outgoing: bool)
    requires
        well_formed(nodes, ids),
    ensures
        closed_arcs(nodes, outgoing),
{
    reveal(closed_arcs);
    reveal(side);
    assert forall|k: i64, j: int|
        nodes.contains_key(k) && 0 <= j < side(nodes, NodeId { id: k }, outgoing).len() implies nodes.contains_key(
        #[trigger] side(nodes, NodeId { id: k }, outgoing)[j].id,
    ) by {
        nodes[k].lemma_edges_split();
        if outgoing {
            let at = nodes[k].in_view().len() + j;
            assert(nodes[k].edges_view()[at] == nodes[k].out_view()[j]);
            assert(nodes.contains_key(nodes[k].edges_view()[at].id));
        } else {
            assert(nodes[k].edges_view()[j] == nodes[k].in_view()[j]);
            assert(nodes.contains_key(nodes[k].edges_view()[j].id));
        }
    }
}

/// A neighbor of a node is a node.
pub proof fn lemma_arc_target<N: DirectedNodeBase>(nodes: Map<i64, N>, outgoing: bool, u: NodeId, j: int)
    requires
        closed_arcs(nodes, outgoing),
        nodes.contains_key(u.id),
        0 <= j < side(nodes, u, outgoing).len(),
    ensures
        nodes.contains_key(side(nodes, u, outgoing)[j].id),
{
    reveal(closed_arcs);
    assert(u == NodeId { id: u.id });
    assert(nodes.contains_key(side(nodes, NodeId { id: u.id }, outgoing)[j].id));
}

/// Every standing node reaches itself.
pub proof fn lemma_reaches_reflexive<N: DirectedNodeBase>(
    nodes: Map<i64, N>,
    avoid: Set<i64>,
    outgoing: bool,
    u: NodeId,
)
    requires
        standing(nodes, avoid, u),
    ensures
        reaches(nodes, avoid, outgoing, u, u),
{
    let p = seq![u];
    assert(is_directed_path(nodes, avoid, outgoing, p) && p[0] == u && p.last() == u);
}

/// A directed path goes on by one allowed step.
pub proof fn lemma_reaches_step<N: DirectedNodeBase>(
    nodes: Map<i64, N>,
    avoid: Set<i64>,
    outgoing: bool,
    u: NodeId,
    v: NodeId,
    w: NodeId,
)
    requires
        reaches(nodes, avoid, outgoing, u, v),
        arc(nodes, avoid, outgoing, v, w),
    ensures
        reaches(nodes, avoid, outgoing, u, w),
{
    let p = choose|p: Seq<NodeId>| is_directed_path(nodes, avoid, outgoing, p) && p[0] == u && p.last() == v;
    let q = p.push(w);
    assert forall|i: int| 0 <= i < q.len() - 1 implies arc(nodes, avoid, outgoing, #[trigger] q[i], q[i + 1]) by {
        if i < p.len() - 1 {
            assert(arc(nodes, avoid, outgoing, p[i], p[i + 1]));
        }
    }
    assert(is_directed_path(nodes, avoid, outgoing, q) && q[0] == u && q.last() == w);
}

/// Directed paths can be joined.
pub proof fn lemma_reaches_transitive<N: DirectedNodeBase>(
    nodes: Map<i64, N>,
    avoid: Set<i64>,
    outgoing: bool,
    u: NodeId,
    v: NodeId,
    w: NodeId,
)
    requires
        reaches(nodes, avoid, outgoing, u, v),
        reaches(nodes, avoid, outgoing, v, w),
    ensures
        reaches(nodes, avoid, outgoing, u, w),
{
    let p = choose|p: Seq<NodeId>| is_directed_path(nodes, avoid, outgoing, p) && p[0] == u && p.last() == v;
    let q = choose|q: Seq<NodeId>| is_directed_path(nodes, avoid, outgoing, q) && q[0] == v && q.last() == w;
    let r = p + q.subrange(1, q.len() as int);
    assert forall|i: int| 0 <= i < r.len() - 1 implies arc(nodes, avoid, outgoing, #[trigger] r[i], r[i + 1]) by {
        if i < p.len() - 1 {
            assert(arc(nodes, avoid, outgoing, p[i], p[i + 1]));
        } else {
            let k = i - p.len() + 1;
            assert(arc(nodes, avoid, outgoing, q[k], q[k + 1]));
        }
    }
    assert(is_directed_path(nodes, avoid, outgoing, r) && r[0] == u && r.last() == w);
}

/// What a standing node reaches stands.
pub proof fn lemma_reaches_stands<N: DirectedNodeBase>(
    nodes: Map<i64, N>,
    avoid: Set<i64>,
    outgoing: bool,
    u: NodeId,
    v: NodeId,
)
    requires
        reaches(nodes, avoid, outgoing, u, v),
    ensures
        standing(nodes, avoid, v),
        standing(nodes, avoid, u),
{
    let p = choose|p: Seq<NodeId>| is_directed_path(nodes, avoid, outgoing, p) && p[0] == u && p.last() == v;
    if p.len() > 1 {
        assert(arc(nodes, avoid, outgoing, p[p.len() - 2], p[p.len() - 2 + 1]));
    }
}

proof fn lemma_reached_nodes_stand<N: DirectedNodeBase>(
    nodes: Map<i64, N>,
    avoid: Set<i64>,
    outgoing: bool,
    root: NodeId,
    s: Seq<NodeId>,
)
    requires
        forall|i: int| 0 <= i < s.len() ==> reaches(nodes, avoid, outgoing, root, #[trigger] s[i]),
    ensures
        forall|i: int| 0 <= i < s.len() ==> nodes.contains_key(#[trigger] s[i].id),
{
    assert forall|i: int| 0 <= i < s.len() implies nodes.contains_key(#[trigger] s[i].id) by {
        lemma_reaches_stands(nodes, avoid, outgoing, root, s[i]);
    }
}

proof fn lemma_directed_path_stays_inside<N: DirectedNodeBase>(
    nodes: Map<i64, N>,
    avoid: Set<i64>,
    outgoing: bool,
    inside: Set<NodeId>,
    p: Seq<NodeId>,
    i: int,
)
    requires
        is_directed_path(nodes, avoid, outgoing, p),
        inside.contains(p[0]),
        forall|a: NodeId, b: NodeId|
            inside.contains(a) && #[trigger] arc(nodes, avoid, outgoing, a, b) ==> inside.contains(b),
        0 <= i < p.len(),
    ensures
        inside.contains(p[i]),
    decreases i,
{
    if i > 0 {
        lemma_directed_path_stays_inside(nodes, avoid, outgoing, inside, p, i - 1);
        assert(arc(nodes, avoid, outgoing, p[i - 1], p[i - 1 + 1]));
    }
}

/// A set that holds `u` and, with each node, every node one allowed step
/// away holds all that `u` reaches.
pub proof fn lemma_closed_set_holds_reached<N: DirectedNodeBase>(
    nodes: Map<i64, N>,
    avoid: Set<i64>,
    outgoing: bool,
    inside: Set<NodeId>,
    u: NodeId,
    v: NodeId,
)
    requires
        inside.contains(u),
        forall|a: NodeId, b: NodeId|
            inside.contains(a) && #[trigger] arc(nodes, avoid, outgoing, a, b) ==> inside.contains(b),
        reaches(nodes, avoid, outgoing, u, v),
    ensures
        inside.contains(v),
{
    let p = choose|p: Seq<NodeId>| is_directed_path(nodes, avoid, outgoing, p) && p[0] == u && p.last() == v;
    lemma_directed_path_stays_inside(nodes, avoid, outgoing, inside, p, p.len() - 1);
}

/// When the stack is empty, the nodes visited are those that the root
/// reaches.
pub proof fn lemma_visit_done<N: DirectedNodeBase>(
    nodes: Map<i64, N>,
    avoid: Set<i64>,
    outgoing: bool,
    root: NodeId,
    done: Seq<NodeId>,
)
    requires
        done.len() > 0,
        done[0] == root,
        forall|i: int| 0 <= i < done.len() ==> reaches(nodes, avoid, outgoing, root, #[trigger] done[i]),
        forall|a: NodeId, b: NodeId|
            done.contains(a) && #[trigger] arc(nodes, avoid, outgoing, a, b) ==> done.contains(b),
    ensures
        forall|a: NodeId| done.contains(a) <==> reaches(nodes, avoid, outgoing, root, a),
{
    assert(done.contains(done[0]));
    assert forall|a: NodeId| reaches(nodes, avoid, outgoing, root, a) implies done.contains(a) by {
        lemma_closed_set_holds_reached(nodes, avoid, outgoing, done.to_set(), root, a);
    }
    assert forall|a: NodeId| done.contains(a) implies reaches(nodes, avoid, outgoing, root, a) by {
        let i = choose|i: int| 0 <= i < done.len() && done[i] == a;
        assert(reaches(nodes, avoid, outgoing, root, done[i]));
    }
}

/// Connected components of directed graphs.
pub trait ConnectedComponentsDirected: DirectedGraph + ConnectedComponents where
    Self::NodeType: DirectedNodeBase,
 {
    /// Visits, depth first with a stack of its own, every node that a
    /// directed path leads to from `root` without touching a node that is
    /// ignored or was visited before, marks these nodes as visited and
    /// returns them, `root` first. The path goes along the edges with
    /// `outgoing` and against them without.
    fn visit_nodes_along(
        &self,
        root: NodeId,
        visited: &mut HashSet<i64>,
        ignore_nodes: Option<&HashSet<i64>>,
        outgoing: bool,
    ) -> (r: Vec<NodeId>)
        requires
            self.wf(),
            self.nodes_view().contains_key(root.id),
            !old(visited)@.contains(root.id),
            !node_set(ignore_nodes).contains(root.id),
        ensures
            r@.len() >= 1,
            r@[0] == root,
            r@.no_duplicates(),
            forall|a: NodeId|
                r@.contains(a) <==> reaches(
                    self.nodes_view(),
                    node_set(ignore_nodes).union(old(visited)@),
                    outgoing,
                    root,
                    a,
                ),
            forall|k: i64| #[trigger]
                final(visited)@.contains(k) <==> old(visited)@.contains(k) || r@.contains(
                    NodeId { id: k },
                ),
    {
        let ghost nodes = self.nodes_view();
        let ghost avoid = node_set(ignore_nodes).union(old(visited)@);
        let ghost before = old(visited)@;
        proof {
            self.lemma_wf();
            lemma_node_count(nodes, self.ids_view());
            lemma_reaches_reflexive(nodes, avoid, outgoing, root);
            lemma_closed_arcs(nodes, self.ids_view(), outgoing);
        }
        let mut done: Vec<NodeId> = Vec::new();
        let mut stack: Vec<NodeId> = Vec::new();
        stack.push(root);
        visited.insert(root.value());
        proof {
            assert(stack@[0] == root);
            assert(root == NodeId { id: root.id });
        }
        while stack.len() > 0
            invariant
                nodes == self.nodes_view(),
                well_formed(nodes, self.ids_view()),
                nodes.dom().finite(),
                avoid == node_set(ignore_nodes).union(before),
                closed_arcs(nodes, outgoing),
                done@.no_duplicates(),
                stack@.no_duplicates(),
                forall|i: int, j: int| 0 <= i < done@.len() && 0 <= j < stack@.len() ==> done@[i] != stack@[j],
                forall|i: int| 0 <= i < done@.len() ==> reaches(nodes, avoid, outgoing, root, #[trigger] done@[i]),
                forall|i: int| 0 <= i < stack@.len() ==> reaches(nodes, avoid, outgoing, root, #[trigger] stack@[i]),
                forall|k: i64| #[trigger]
                    visited@.contains(k) <==> before.contains(k) || done@.contains(NodeId { id: k })
                        || stack@.contains(NodeId { id: k }),
                forall|a: NodeId, b: NodeId|
                    done@.contains(a) && #[trigger] arc(nodes, avoid, outgoing, a, b) ==> done@.contains(b)
                        || stack@.contains(b),
                done@.len() == 0 ==> stack@ =~= seq![root],
                done@.len() > 0 ==> done@[0] == root,
            decreases nodes.dom().len() - done@.len(),
        {
            proof {
                lemma_no_dup_in_concat(done@, stack@);
                lemma_reached_nodes_stand(nodes, avoid, outgoing, root, done@ + stack@);
                lemma_distinct_nodes_bound(nodes, done@ + stack@);
            }
            let ghost old_done = done@;
            let ghost old_stack = stack@;
            let u: NodeId = stack.pop().unwrap();
            done.push(u);
            proof {
                lemma_reaches_stands(nodes, avoid, outgoing, root, u);
                assert(old_stack[old_stack.len() - 1] == u);
                assert forall|a: NodeId| old_done.contains(a) || old_stack.contains(a) implies done@.contains(a)
                    || stack@.contains(a) by {
                    if old_done.contains(a) {
                        let i = choose|i: int| 0 <= i < old_done.len() && old_done[i] == a;
                        assert(done@[i] == a);
                    } else {
                        let i = choose|i: int| 0 <= i < old_stack.len() && old_stack[i] == a;
                        if i < stack@.len() {
                            assert(stack@[i] == a);
                        } else {
                            assert(done@[done@.len() - 1] == a);
                        }
                    }
                }
                assert forall|a: NodeId| done@.contains(a) || stack@.contains(a) implies old_done.contains(a)
                    || old_stack.contains(a) by {
                    if stack@.contains(a) {
                        let i = choose|i: int| 0 <= i < stack@.len() && stack@[i] == a;
                        assert(old_stack[i] == a);
                    } else {
                        let i = choose|i: int| 0 <= i < done@.len() && done@[i] == a;
                        if i < old_done.len() {
                            assert(old_done[i] == a);
                        }
                    }
                }
            }
            let node: &Self::NodeType = self.get_node(u);
            let edges: &Vec<NodeId> = if outgoing {
                node.get_out_neighbors()
            } else {
                node.get_in_neighbors()
            };
            assert(edges@ == side(nodes, u, outgoing)) by {
                reveal(side);
            }
            let mut j: usize = 0;
            while j < edges.len()
                invariant
                    j <= edges.len(),
                    nodes == self.nodes_view(),
                    well_formed(nodes, self.ids_view()),
                    avoid == node_set(ignore_nodes).union(before),
                    closed_arcs(nodes, outgoing),
                    edges@ == side(nodes, u, outgoing),
                    standing(nodes, avoid, u),
                    reaches(nodes, avoid, outgoing, root, u),
                    done@ == old_done.push(u),
                    done@.no_duplicates(),
                    stack@.no_duplicates(),
                    forall|i: int, j: int|
                        0 <= i < done@.len() && 0 <= j < stack@.len() ==> done@[i] != stack@[j],
                    forall|i: int|
                        0 <= i < stack@.len() ==> reaches(nodes, avoid, outgoing, root, #[trigger] stack@[i]),
                    forall|k: i64| #[trigger]
                        visited@.contains(k) <==> before.contains(k) || done@.contains(NodeId { id: k })
                            || stack@.contains(NodeId { id: k }),
                    forall|a: NodeId, b: NodeId|
                        old_done.contains(a) && #[trigger] arc(nodes, avoid, outgoing, a, b) ==> done@.contains(
                            b,
                        ) || stack@.contains(b),
                    forall|i: int|
                        0 <= i < j && arc(nodes, avoid, outgoing, u, #[trigger] edges@[i]) ==> done@.contains(
                            edges@[i],
                        ) || stack@.contains(edges@[i]),
                decreases edges.len() - j,
            {
                let v: NodeId = edges[j];
                let ghost stack_before = stack@;
                if !is_ignored_node(ignore_nodes, v.value()) && !visited.contains(&v.value()) {
                    proof {
                        assert(v == NodeId { id: v.id });
                        lemma_arc_target(nodes, outgoing, u, j as int);
                        assert(arc(nodes, avoid, outgoing, u, v));
                        lemma_reaches_step(nodes, avoid, outgoing, root, u, v);
                    }
                    visited.insert(v.value());
                    stack.push(v);
                    proof {
                        assert(stack@[stack@.len() - 1] == v);
                        assert forall|a: NodeId| stack_before.contains(a) implies stack@.contains(a) by {
                            let i = choose|i: int| 0 <= i < stack_before.len() && stack_before[i] == a;
                            assert(stack@[i] == a);
                        }
                        assert forall|k: i64| #[trigger]
                            visited@.contains(k) <==> before.contains(k) || done@.contains(
                                NodeId { id: k },
                            ) || stack@.contains(NodeId { id: k }) by {
                            let a = NodeId { id: k };
                            if stack@.contains(a) && !stack_before.contains(a) {
                                let i = choose|i: int| 0 <= i < stack@.len() && stack@[i] == a;
                                if i < stack_before.len() {
                                    assert(stack_before[i] == a);
                                }
                            }
                        }
                    }
                } else {
                    proof {
                        assert(v == NodeId { id: v.id });
                    }
                }
                j += 1;
            }
            proof {
                assert forall|a: NodeId, b: NodeId|
                    done@.contains(a) && #[trigger] arc(nodes, avoid, outgoing, a, b) implies done@.contains(b)
                        || stack@.contains(b) by {
                    if old_done.contains(a) {
                    } else {
                        let i = choose|i: int| 0 <= i < done@.len() && done@[i] == a;
                        assert(a == u);
                        let at = choose|at: int| 0 <= at < edges@.len() && edges@[at] == b;
                        assert(arc(nodes, avoid, outgoing, u, edges@[at]));
                    }
                }
                assert forall|i: int| 0 <= i < done@.len() implies reaches(
                    nodes,
                    avoid,
                    outgoing,
                    root,
                    #[trigger] done@[i],
                ) by {
                    if i < old_done.len() {
                        assert(done@[i] == old_done[i]);
                    }
                }
            }
        }
        proof {
            lemma_visit_done(nodes, avoid, outgoing, root, done@);
        }
        done
    }

    /// The strongly connected components of the graph, each as the list of
    /// its nodes. The components come in the order in which the iteration
    /// order reaches their first node, which leads the list.
    fn get_strongly_connected_components(&self) -> (r: Vec<Vec<NodeId>>)
        requires
            self.wf(),
        ensures
            are_strong_components(self.nodes_view(), r@),
    {
        let ghost nodes = self.nodes_view();
        let ghost none = Set::<i64>::empty();
        proof {
            self.lemma_wf();
            lemma_two_ended(self);
        }
        let ids: &Vec<NodeId> = self.get_core_ids();
        let mut parts: Vec<Vec<NodeId>> = Vec::new();
        let mut assigned: HashSet<i64> = HashSet::new();
        let mut i: usize = 0;
        while i < ids.len()
            invariant
                i <= ids.len(),
                self.wf(),
                ids@ == self.ids_view(),
                nodes == self.nodes_view(),
                none == Set::<i64>::empty(),
                well_formed(nodes, ids@),
                two_ended(nodes),
                holds_whole_components(nodes, assigned@),
                forall|j: int| 0 <= j < i ==> assigned@.contains(#[trigger] ids@[j].id),
                forall|k: i64| #[trigger]
                    assigned@.contains(k) <==> exists|c: int|
                        0 <= c < parts@.len() && (#[trigger] parts@[c])@.contains(NodeId { id: k }),
                forall|c: int|
                    0 <= c < parts@.len() ==> (#[trigger] parts@[c])@.len() > 0 && parts@[c]@.no_duplicates(),
                forall|c: int, a: NodeId|
                    #![trigger parts@[c]@.contains(a)]
                    0 <= c < parts@.len() ==> (parts@[c]@.contains(a) <==> strongly(nodes, parts@[c]@[0], a)),
                forall|c: int, d: int|
                    0 <= c < d < parts@.len() ==> !strongly(
                        nodes,
                        (#[trigger] parts@[c])@[0],
                        (#[trigger] parts@[d])@[0],
                    ),
            decreases ids.len() - i,
        {
            let root: NodeId = ids[i];
            if !assigned.contains(&root.value()) {
                let ghost before = assigned@;
                let ghost old_parts = parts@;
                proof {
                    assert(ids@.contains(ids@[i as int]));
                    assert(nodes.contains_key(root.id));
                    assert(root == NodeId { id: root.id });
                }
                let mut seen_along: HashSet<i64> = HashSet::new();
                let along: Vec<NodeId> = self.visit_nodes_along(root, &mut seen_along, Some(&assigned), true);
                let mut seen_against: HashSet<i64> = HashSet::new();
                let against: Vec<NodeId> = self.visit_nodes_along(
                    root,
                    &mut seen_against,
                    Some(&assigned),
                    false,
                );
                let part: Vec<NodeId> = keep_within(&along, &seen_against);
                proof {
                    assert(before.union(Set::<i64>::empty()) =~= before);
                    assert(against@.contains(against@[0]));
                    assert(seen_against@.contains(root.id));
                    assert forall|k: i64| #[trigger]
                        seen_against@.contains(k) <==> reaches(nodes, before, false, root, NodeId { id: k }) by {}
                    lemma_component_found(nodes, before, root, along@, seen_against@, part@);
                }
                assign_all(&part, &mut assigned);
                parts.push(part);
                proof {
                    let last = parts@.len() - 1;
                    assert(parts@[last] == part);
                    assert(assigned@ =~= Set::new(
                        |k: i64| before.contains(k) || part@.contains(NodeId { id: k }),
                    ));
                    assert forall|c: int, a: NodeId|
                        #![trigger parts@[c]@.contains(a)]
                        0 <= c < parts@.len() implies (parts@[c]@.contains(a) <==> strongly(
                        nodes,
                        parts@[c]@[0],
                        a,
                    )) by {
                        if c < last {
                            assert(parts@[c] == old_parts[c]);
                        }
                    }
                    assert forall|c: int, d: int| 0 <= c < d < parts@.len() implies !strongly(
                        nodes,
                        (#[trigger] parts@[c])@[0],
                        (#[trigger] parts@[d])@[0],
                    ) by {
                        assert(parts@[c] == old_parts[c]);
                        if d == last {
                            if strongly(nodes, old_parts[c]@[0], root) {
                                assert(old_parts[c]@.contains(root));
                                assert(before.contains(root.id));
                            }
                        } else {
                            assert(parts@[d] == old_parts[d]);
                        }
                    }
                    assert forall|k: i64| #[trigger]
                        assigned@.contains(k) <==> exists|c: int|
                            0 <= c < parts@.len() && (#[trigger] parts@[c])@.contains(NodeId { id: k }) by {
                        let n = NodeId { id: k };
                        if assigned@.contains(k) {
                            if before.contains(k) {
                                let c = choose|c: int|
                                    0 <= c < old_parts.len() && (#[trigger] old_parts[c])@.contains(n);
                                assert(parts@[c]@.contains(n));
                            } else {
                                assert(parts@[last]@.contains(n));
                            }
                        }
                        if exists|c: int| 0 <= c < parts@.len() && (#[trigger] parts@[c])@.contains(n) {
                            let c = choose|c: int| 0 <= c < parts@.len() && (#[trigger] parts@[c])@.contains(n);
                            if c < last {
                                assert(old_parts[c]@.contains(n));
                            }
                        }
                    }
                    assert forall|c: int| 0 <= c < parts@.len() implies (#[trigger] parts@[c])@.len() > 0
                        && parts@[c]@.no_duplicates() by {
                        if c < last {
                            assert(parts@[c] == old_parts[c]);
                        }
                    }
                    assert(part@.contains(part@[0]));
                }
            }
            i += 1;
        }
        proof {
            assert forall|k: i64| #[trigger] nodes.contains_key(k) implies exists|c: int|
                0 <= c < parts@.len() && (#[trigger] parts@[c])@.contains(NodeId { id: k }) by {
                let a = NodeId { id: k };
                assert(nodes.contains_key(a.id));
                assert(ids@.contains(a));
                let j = choose|j: int| 0 <= j < ids@.len() && ids@[j] == a;
                assert(assigned@.contains(ids@[j].id));
            }
            assert forall|c: int, a: NodeId, b: NodeId|
                0 <= c < parts@.len() && #[trigger] parts@[c]@.contains(a) && #[trigger] parts@[c]@.contains(
                    b,
                ) implies strongly(nodes, a, b) by {
                let root = parts@[c]@[0];
                lemma_strongly_transitive(nodes, a, root, b);
            }
            assert forall|c: int, d: int, a: NodeId, b: NodeId|
                0 <= c < parts@.len() && 0 <= d < parts@.len() && c != d && #[trigger] parts@[c]@.contains(
                    a,
                ) && #[trigger] parts@[d]@.contains(b) implies !strongly(nodes, a, b) by {
                if strongly(nodes, a, b) {
                    let rc = parts@[c]@[0];
                    let rd = parts@[d]@[0];
                    lemma_strongly_transitive(nodes, rc, a, b);
                    lemma_strongly_transitive(nodes, rc, b, rd);
                }
            }
        }
        parts
    }

    /// Whether directed paths lead from every node to every other. A graph
    /// without nodes is rejected.
    fn get_is_strongly_connected(&self) -> (r: CLQResult<bool>)
        requires
            self.wf(),
        ensures
            match r {
                Ok(b) => self.ids_view().len() > 0 && b == all_strongly(self.nodes_view()),
                Err(e) => self.ids_view().len() == 0 && e is AlgorithmPrecondition,
            },
    {
        let ghost nodes = self.nodes_view();
        let ghost none = Set::<i64>::empty();
        let ids: &Vec<NodeId> = self.get_core_ids();
        if ids.len() == 0 {
            return Err(CLQError::AlgorithmPrecondition("graph is empty".to_owned()));
        }
        let root: NodeId = ids[0];
        proof {
            self.lemma_wf();
            lemma_two_ended(self);
            lemma_node_count(nodes, self.ids_view());
            assert(ids@.contains(ids@[0]));
            assert(root == NodeId { id: root.id });
        }
        let num_nodes: usize = self.count_nodes();
        let mut seen_along: HashSet<i64> = HashSet::new();
        let along: Vec<NodeId> = self.visit_nodes_along(root, &mut seen_along, None, true);
        let mut seen_against: HashSet<i64> = HashSet::new();
        let against: Vec<NodeId> = self.visit_nodes_along(root, &mut seen_against, None, false);
        proof {
            assert(none.union(Set::<i64>::empty()) =~= none);
            assert forall|i: int| 0 <= i < along@.len() implies reaches(
                nodes,
                none,
                true,
                root,
                #[trigger] along@[i],
            ) by {
                assert(along@.contains(along@[i]));
            }
            assert forall|i: int| 0 <= i < against@.len() implies reaches(
                nodes,
                none,
                false,
                root,
                #[trigger] against@[i],
            ) by {
                assert(against@.contains(against@[i]));
            }
            lemma_reached_nodes_stand(nodes, none, true, root, along@);
            lemma_reached_nodes_stand(nodes, none, false, root, against@);
            lemma_distinct_nodes_bound(nodes, along@);
            lemma_distinct_nodes_bound(nodes, against@);
            if along@.len() == num_nodes && against@.len() == num_nodes {
                assert forall|u: i64, v: i64|
                    nodes.contains_key(u) && nodes.contains_key(v) implies #[trigger] reaches(
                    nodes,
                    none,
                    true,
                    NodeId { id: u },
                    NodeId { id: v },
                ) by {
                    let a = NodeId { id: u };
                    let b = NodeId { id: v };
                    crate::dachshund::algorithms::connectivity::lemma_full_list(nodes, along@, v);
                    crate::dachshund::algorithms::connectivity::lemma_full_list(nodes, against@, u);
                    lemma_reaches_reversed(nodes, none, false, root, a);
                    lemma_reaches_transitive(nodes, none, true, a, root, b);
                }
            } else if all_strongly(nodes) {
                let listed = self.ids_view();
                assert forall|i: int| 0 <= i < listed.len() implies along@.contains(#[trigger] listed[i])
                    && against@.contains(listed[i]) by {
                    assert(listed.contains(listed[i]));
                    assert(nodes.contains_key(listed[i].id));
                    assert(listed[i] == NodeId { id: listed[i].id });
                    assert(reaches(nodes, none, true, NodeId { id: root.id }, NodeId { id: listed[i].id }));
                    assert(reaches(nodes, none, true, NodeId { id: listed[i].id }, NodeId { id: root.id }));
                    lemma_reaches_reversed(nodes, none, true, listed[i], root);
                }
                crate::dachshund::algorithms::connectivity::lemma_list_within(listed, along@);
                crate::dachshund::algorithms::connectivity::lemma_list_within(listed, against@);
            }
        }
        Ok(along.len() == num_nodes && against.len() == num_nodes)
    }
}

/// Whether directed paths lead from `u` to `v` and back.
pub open spec fn strongly<N: DirectedNodeBase>(nodes: Map<i64, N>, u: NodeId, v: NodeId) -> bool {
    reaches(nodes, Set::<i64>::empty(), true, u, v) && reaches(nodes, Set::<i64>::empty(), true, v, u)
}

/// Whether directed paths lead from every node of the graph to every
/// other.
pub open spec fn all_strongly<N: DirectedNodeBase>(nodes: Map<i64, N>) -> bool {
    forall|u: i64, v: i64|
        nodes.contains_key(u) && nodes.contains_key(v) ==> #[trigger] reaches(
            nodes,
            Set::<i64>::empty(),
            true,
            NodeId { id: u },
            NodeId { id: v },
        )
}

/// Whether each edge is stored at both of its ends.
pub open spec fn two_ended<N: DirectedNodeBase>(nodes: Map<i64, N>) -> bool {
    forall|u: NodeId, v: NodeId|
        nodes.contains_key(u.id) && nodes.contains_key(v.id) ==> (#[trigger] nodes[u.id].out_view().contains(
            v,
        ) <==> nodes[v.id].in_view().contains(u))
}

/// In a directed graph each edge is stored at both of its ends.
pub proof fn lemma_two_ended<G: DirectedGraph>(g: &G) where G::NodeType: DirectedNodeBase
    requires
        g.wf(),
    ensures
        two_ended(g.nodes_view()),
{
    let nodes = g.nodes_view();
    assert forall|u: NodeId, v: NodeId| nodes.contains_key(u.id) && nodes.contains_key(v.id) implies (
    #[trigger] nodes[u.id].out_view().contains(v) <==> nodes[v.id].in_view().contains(u)) by {
        g.lemma_edge_has_two_ends(u, v);
    }
}

/// A path against the edges is a path along them, walked backwards.
pub proof fn lemma_reaches_reversed<N: DirectedNodeBase>(
    nodes: Map<i64, N>,
    avoid: Set<i64>,
    outgoing: bool,
    u: NodeId,
    v: NodeId,
)
    requires
        two_ended(nodes),
        reaches(nodes, avoid, outgoing, u, v),
    ensures
        reaches(nodes, avoid, !outgoing, v, u),
{
    reveal(side);
    let p = choose|p: Seq<NodeId>| is_directed_path(nodes, avoid, outgoing, p) && p[0] == u && p.last() == v;
    let r = p.reverse();
    assert forall|i: int| 0 <= i < r.len() - 1 implies arc(nodes, avoid, !outgoing, #[trigger] r[i], r[i + 1]) by {
        let k = p.len() - 2 - i;
        assert(arc(nodes, avoid, outgoing, p[k], p[k + 1]));
        if outgoing {
            assert(nodes[p[k].id].out_view().contains(p[k + 1]));
        } else {
            assert(nodes[p[k + 1].id].out_view().contains(p[k]) <==> nodes[p[k].id].in_view().contains(
                p[k + 1],
            ));
        }
    }
    if p.len() > 1 {
        assert(arc(nodes, avoid, outgoing, p[p.len() - 2], p[p.len() - 2 + 1]));
    }
    assert(is_directed_path(nodes, avoid, !outgoing, r) && r[0] == v && r.last() == u);
}

/// A path that avoids more nodes is a path that avoids fewer.
pub proof fn lemma_reaches_avoiding_less<N: DirectedNodeBase>(
    nodes: Map<i64, N>,
    more: Set<i64>,
    fewer: Set<i64>,
    outgoing: bool,
    u: NodeId,
    v: NodeId,
)
    requires
        fewer.subset_of(more),
        reaches(nodes, more, outgoing, u, v),
    ensures
        reaches(nodes, fewer, outgoing, u, v),
{
    let p = choose|p: Seq<NodeId>| is_directed_path(nodes, more, outgoing, p) && p[0] == u && p.last() == v;
    assert forall|i: int| 0 <= i < p.len() - 1 implies arc(nodes, fewer, outgoing, #[trigger] p[i], p[i + 1]) by {
        assert(arc(nodes, more, outgoing, p[i], p[i + 1]));
    }
    assert(is_directed_path(nodes, fewer, outgoing, p));
}

/// Whether `assigned` holds, with each of its nodes, every node that paths
/// lead to and back from.
pub open spec fn holds_whole_components<N: DirectedNodeBase>(nodes: Map<i64, N>, assigned: Set<i64>) -> bool {
    forall|a: NodeId, b: NodeId|
        assigned.contains(a.id) && #[trigger] strongly(nodes, a, b) ==> assigned.contains(b.id)
}

/// Every node on a path from `root` whose end reaches `root` again lies on
/// a round trip through `root`.
proof fn lemma_on_round_trip<N: DirectedNodeBase>(
    nodes: Map<i64, N>,
    root: NodeId,
    p: Seq<NodeId>,
    i: int,
)
    requires
        is_directed_path(nodes, Set::<i64>::empty(), true, p),
        p[0] == root,
        reaches(nodes, Set::<i64>::empty(), true, p.last(), root),
        0 <= i < p.len(),
    ensures
        strongly(nodes, root, p[i]),
{
    let none = Set::<i64>::empty();
    let front = p.subrange(0, i + 1);
    assert forall|x: int| 0 <= x < front.len() - 1 implies arc(nodes, none, true, #[trigger] front[x], front[x + 1]) by {
        assert(arc(nodes, none, true, p[x], p[x + 1]));
    }
    assert(is_directed_path(nodes, none, true, front) && front[0] == root && front.last() == p[i]);
    let back = p.subrange(i, p.len() as int);
    assert forall|x: int| 0 <= x < back.len() - 1 implies arc(nodes, none, true, #[trigger] back[x], back[x + 1]) by {
        assert(arc(nodes, none, true, p[i + x], p[i + x + 1]));
    }
    if i > 0 {
        assert(arc(nodes, none, true, p[i - 1], p[i - 1 + 1]));
    }
    assert(is_directed_path(nodes, none, true, back) && back[0] == p[i] && back.last() == p.last());
    lemma_reaches_transitive(nodes, none, true, p[i], p.last(), root);
}

/// A round trip through a node outside a set of whole components does not
/// touch the set.
pub proof fn lemma_round_trip_avoids<N: DirectedNodeBase>(
    nodes: Map<i64, N>,
    assigned: Set<i64>,
    root: NodeId,
    a: NodeId,
)
    requires
        holds_whole_components(nodes, assigned),
        !assigned.contains(root.id),
        strongly(nodes, root, a),
    ensures
        reaches(nodes, assigned, true, root, a),
        reaches(nodes, assigned, true, a, root),
{
    let none = Set::<i64>::empty();
    let p = choose|p: Seq<NodeId>| is_directed_path(nodes, none, true, p) && p[0] == root && p.last() == a;
    assert forall|i: int| 0 <= i < p.len() implies !assigned.contains(#[trigger] p[i].id) by {
        lemma_on_round_trip(nodes, root, p, i);
        if assigned.contains(p[i].id) {
            assert(strongly(nodes, p[i], root));
        }
    }
    assert forall|i: int| 0 <= i < p.len() - 1 implies arc(nodes, assigned, true, #[trigger] p[i], p[i + 1]) by {
        assert(arc(nodes, none, true, p[i], p[i + 1]));
        assert(!assigned.contains(p[i].id));
        assert(!assigned.contains(p[i + 1].id));
    }
    assert(!assigned.contains(p[0].id));
    assert(is_directed_path(nodes, assigned, true, p));
    let q = choose|q: Seq<NodeId>| is_directed_path(nodes, none, true, q) && q[0] == a && q.last() == root;
    assert forall|i: int| 0 <= i < q.len() implies !assigned.contains(#[trigger] q[i].id) by {
        lemma_on_round_trip(nodes, a, q, i);
        lemma_reaches_transitive(nodes, none, true, root, a, q[i]);
        lemma_reaches_transitive(nodes, none, true, q[i], a, root);
        if assigned.contains(q[i].id) {
            assert(strongly(nodes, q[i], root));
        }
    }
    assert forall|i: int| 0 <= i < q.len() - 1 implies arc(nodes, assigned, true, #[trigger] q[i], q[i + 1]) by {
        assert(arc(nodes, none, true, q[i], q[i + 1]));
        assert(!assigned.contains(q[i].id));
        assert(!assigned.contains(q[i + 1].id));
    }
    assert(!assigned.contains(q[0].id));
    assert(is_directed_path(nodes, assigned, true, q));
}

/// Whether `parts` are the strongly connected components of the graph:
/// every part is a list of nodes without repetition and not empty, every
/// node is in a part, directed paths lead from each node of a part to every
/// other and back, and not both ways between nodes of different parts.
pub open spec fn are_strong_components<N: DirectedNodeBase>(nodes: Map<i64, N>, parts: Seq<Vec<NodeId>>) -> bool {
    &&& forall|c: int|
        0 <= c < parts.len() ==> (#[trigger] parts[c])@.len() > 0 && parts[c]@.no_duplicates()
    &&& forall|k: i64| #[trigger]
        nodes.contains_key(k) ==> exists|c: int|
            0 <= c < parts.len() && (#[trigger] parts[c])@.contains(NodeId { id: k })
    &&& forall|c: int, a: NodeId, b: NodeId|
        0 <= c < parts.len() && #[trigger] parts[c]@.contains(a) && #[trigger] parts[c]@.contains(b)
            ==> strongly(nodes, a, b)
    &&& forall|c: int, d: int, a: NodeId, b: NodeId|
        0 <= c < parts.len() && 0 <= d < parts.len() && c != d && #[trigger] parts[c]@.contains(a)
            && #[trigger] parts[d]@.contains(b) ==> !strongly(nodes, a, b)
}

/// The entries of `list` whose integer is in `keep`.
pub fn keep_within(list: &Vec<NodeId>, keep: &HashSet<i64>) -> (r: Vec<NodeId>)
    requires
        list@.no_duplicates(),
    ensures
        r@.no_duplicates(),
        forall|a: NodeId| r@.contains(a) <==> list@.contains(a) && keep@.contains(a.id),
        list@.len() > 0 && keep@.contains(list@[0].id) ==> r@.len() > 0 && r@[0] == list@[0],
{
    let mut kept: Vec<NodeId> = Vec::new();
    let mut j: usize = 0;
    while j < list.len()
        invariant
            j <= list.len(),
            list@.no_duplicates(),
            kept@.no_duplicates(),
            forall|a: NodeId|
                kept@.contains(a) <==> list@.subrange(0, j as int).contains(a) && keep@.contains(a.id),
            j > 0 && keep@.contains(list@[0].id) ==> kept@.len() > 0 && kept@[0] == list@[0],
        decreases list.len() - j,
    {
        let x: NodeId = list[j];
        let ghost shorter = list@.subrange(0, j as int);
        let ghost longer = list@.subrange(0, j + 1);
        let ghost before = kept@;
        proof {
            assert(longer[j as int] == x);
            assert forall|w: NodeId| longer.contains(w) <==> shorter.contains(w) || w == x by {
                if shorter.contains(w) {
                    let t = choose|t: int| 0 <= t < shorter.len() && shorter[t] == w;
                    assert(longer[t] == w);
                }
                if longer.contains(w) {
                    let t = choose|t: int| 0 <= t < longer.len() && longer[t] == w;
                    if t < j {
                        assert(shorter[t] == w);
                    }
                }
            }
            assert(!shorter.contains(x)) by {
                if shorter.contains(x) {
                    let t = choose|t: int| 0 <= t < shorter.len() && shorter[t] == x;
                    assert(list@[t] == list@[j as int]);
                }
            }
        }
        if keep.contains(&x.value()) {
            kept.push(x);
            proof {
                assert(kept@[kept@.len() - 1] == x);
                if j == 0 {
                    assert(before.len() == 0) by {
                        if before.len() > 0 {
                            assert(before.contains(before[0]));
                            assert(shorter.contains(before[0]));
                        }
                    }
                } else {
                    if keep@.contains(list@[0].id) {
                        assert(kept@[0] == before[0]);
                    }
                }
                assert forall|a: NodeId| kept@.contains(a) <==> before.contains(a) || a == x by {
                    if before.contains(a) {
                        let t = choose|t: int| 0 <= t < before.len() && before[t] == a;
                        assert(kept@[t] == a);
                    }
                    if kept@.contains(a) {
                        let t = choose|t: int| 0 <= t < kept@.len() && kept@[t] == a;
                        if t < before.len() {
                            assert(before[t] == a);
                        }
                    }
                }
                assert(kept@.no_duplicates()) by {
                    assert forall|a: int, b: int| 0 <= a < kept@.len() && 0 <= b < kept@.len() && a != b implies kept@[a]
                        != kept@[b] by {
                        if a < before.len() && b < before.len() {
                            assert(before[a] != before[b]);
                        } else if a < before.len() {
                            assert(before.contains(before[a]));
                        } else if b < before.len() {
                            assert(before.contains(before[b]));
                        }
                    }
                }
            }
        }
        proof {
            assert forall|a: NodeId|
                kept@.contains(a) <==> longer.contains(a) && keep@.contains(a.id) by {
                assert(before.contains(a) <==> shorter.contains(a) && keep@.contains(a.id));
            }
            if j == 0 && !keep@.contains(x.id) {
                assert(list@[0] == x);
            }
        }
        j += 1;
    }
    assert(list@.subrange(0, list.len() as int) =~= list@);
    kept
}

/// Marks the nodes of `part` as assigned.
pub fn assign_all(part: &Vec<NodeId>, assigned: &mut HashSet<i64>)
    ensures
        forall|k: i64|
            final(assigned)@.contains(k) <==> old(assigned)@.contains(k) || part@.contains(NodeId { id: k }),
{
    let mut j: usize = 0;
    while j < part.len()
        invariant
            j <= part.len(),
            forall|k: i64|
                assigned@.contains(k) <==> old(assigned)@.contains(k) || part@.subrange(0, j as int).contains(
                    NodeId { id: k },
                ),
        decreases part.len() - j,
    {
        let key: i64 = part[j].value();
        let ghost shorter = part@.subrange(0, j as int);
        let ghost longer = part@.subrange(0, j + 1);
        proof {
            assert(longer[j as int] == NodeId { id: key });
            assert forall|w: NodeId| longer.contains(w) <==> shorter.contains(w) || w == (NodeId { id: key }) by {
                if shorter.contains(w) {
                    let t = choose|t: int| 0 <= t < shorter.len() && shorter[t] == w;
                    assert(longer[t] == w);
                }
                if longer.contains(w) {
                    let t = choose|t: int| 0 <= t < longer.len() && longer[t] == w;
                    if t < j {
                        assert(shorter[t] == w);
                    }
                }
            }
        }
        assigned.insert(key);
        j += 1;
    }
    assert(part@.subrange(0, part.len() as int) =~= part@);
}

/// The nodes that directed paths lead to and back from a node make one
/// component: what is connected both ways to a node of it is connected both
/// ways to every node of it.
pub proof fn lemma_strongly_transitive<N: DirectedNodeBase>(nodes: Map<i64, N>, a: NodeId, b: NodeId, c: NodeId)
    requires
        strongly(nodes, a, b),
        strongly(nodes, b, c),
    ensures
        strongly(nodes, a, c),
{
    let none = Set::<i64>::empty();
    lemma_reaches_transitive(nodes, none, true, a, b, c);
    lemma_reaches_transitive(nodes, none, true, c, b, a);
}

/// What the traversals along and against the edges both find, and nothing
/// else, is connected both ways to the root.
pub proof fn lemma_component_found<N: DirectedNodeBase>(
    nodes: Map<i64, N>,
    assigned: Set<i64>,
    root: NodeId,
    along: Seq<NodeId>,
    against: Set<i64>,
    part: Seq<NodeId>,
)
    requires
        two_ended(nodes),
        holds_whole_components(nodes, assigned),
        nodes.contains_key(root.id),
        !assigned.contains(root.id),
        forall|a: NodeId| along.contains(a) <==> reaches(nodes, assigned, true, root, a),
        forall|k: i64| #[trigger]
            against.contains(k) <==> reaches(nodes, assigned, false, root, NodeId { id: k }),
        forall|a: NodeId| part.contains(a) <==> along.contains(a) && against.contains(a.id),
    ensures
        forall|a: NodeId| part.contains(a) <==> strongly(nodes, root, a),
        holds_whole_components(nodes, Set::new(|k: i64| assigned.contains(k) || part.contains(NodeId { id: k }))),
{
    let none = Set::<i64>::empty();
    assert forall|a: NodeId| part.contains(a) <==> strongly(nodes, root, a) by {
        assert(a == NodeId { id: a.id });
        if part.contains(a) {
            assert(against.contains(a.id));
            lemma_reaches_reversed(nodes, assigned, false, root, a);
            lemma_reaches_avoiding_less(nodes, assigned, none, true, root, a);
            lemma_reaches_avoiding_less(nodes, assigned, none, true, a, root);
        }
        if strongly(nodes, root, a) {
            lemma_round_trip_avoids(nodes, assigned, root, a);
            lemma_reaches_reversed(nodes, assigned, true, a, root);
            assert(against.contains(a.id));
        }
    }
    let more = Set::new(|k: i64| assigned.contains(k) || part.contains(NodeId { id: k }));
    assert forall|a: NodeId, b: NodeId| more.contains(a.id) && #[trigger] strongly(nodes, a, b) implies more.contains(
        b.id,
    ) by {
        assert(a == NodeId { id: a.id });
        assert(b == NodeId { id: b.id });
        if !assigned.contains(a.id) {
            assert(part.contains(a));
            lemma_strongly_transitive(nodes, root, a, b);
            assert(part.contains(b));
        }
    }
}

} // verus!
