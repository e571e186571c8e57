//! Paths, and the connected components of a graph.

use vstd::prelude::*;
use vstd::seq_lib::lemma_no_dup_in_concat;
use vstd::set_lib::lemma_len_subset;
use std::collections::HashSet;
use crate::dachshund::graph_base::{lemma_node_count, well_formed, GraphBase};
use crate::dachshund::id_types::NodeId;
use crate::dachshund::node::NodeBase;
use crate::dachshund::simple_undirected_graph::UndirectedGraph;

verus! {

/// The number under which an edge from `u` to `v` is kept in a set of
/// edges. Different pairs have different numbers.
pub open spec fn edge_key(u: i64, v: i64) -> u128 {
    ((u - i64::MIN) * 0x1_0000_0000_0000_0000 + (v - i64::MIN)) as u128
}

/// Computes the number under which the edge from `u` to `v` is kept.
pub fn get_edge_key(u: NodeId, v: NodeId) -> (r: u128)
    ensures
        r == edge_key(u.id, v.id),
{
    let high: u128 = (u.value() as i128 - i64::MIN as i128) as u128;
    let low: u128 = (v.value() as i128 - i64::MIN as i128) as u128;
    high * 0x1_0000_0000_0000_0000u128 + low
}

/// Different pairs of ends have different keys.
pub proof fn lemma_edge_key_injective(u1: i64, v1: i64, u2: i64, v2: i64)
    requires
        edge_key(u1, v1) == edge_key(u2, v2),
    ensures
        u1 == u2 && v1 == v2,
{
}

/// Whether the edge between `u` and `v` is among the edges to ignore. The
/// set may name the edge from either end.
pub open spec fn is_cut(cut: Set<u128>, u: NodeId, v: NodeId) -> bool {
    cut.contains(edge_key(u.id, v.id)) || cut.contains(edge_key(v.id, u.id))
}

/// Whether `u` is a node of the graph that is not to be avoided.
pub open spec fn standing<N: NodeBase>(nodes: Map<i64, N>, avoid: Set<i64>, u: NodeId) -> bool {
    nodes.contains_key(u.id) && !avoid.contains(u.id)
}

/// Whether a traversal may step from `u` to `v`: both are standing, `v` is a
/// neighbor of `u`, and the edge is not ignored.
pub open spec fn linked<N: NodeBase>(
    nodes: Map<i64, N>,
    avoid: Set<i64>,
    cut: Set<u128>,
    u: NodeId,
    v: NodeId,
) -> bool {
    &&& standing(nodes, avoid, u)
    &&& standing(nodes, avoid, v)
    &&& nodes[u.id].edges_view().contains(v)
    &&& !is_cut(cut, u, v)
}

/// Whether `p` is a path: it starts at a standing node and each step is
/// allowed.
pub open spec fn is_path<N: NodeBase>(
    nodes: Map<i64, N>,
    avoid: Set<i64>,
    cut: Set<u128>,
    p: Seq<NodeId>,
) -> bool {
    &&& p.len() >= 1
    &&& standing(nodes, avoid, p[0])
    &&& forall|i: int| 0 <= i < p.len() - 1 ==> linked(nodes, avoid, cut, #[trigger] p[i], p[i + 1])
}

/// Whether a path leads from `u` to `v`.
pub open spec fn connected<N: NodeBase>(
    nodes: Map<i64, N>,
    avoid: Set<i64>,
    cut: Set<u128>,
    u: NodeId,
    v: NodeId,
) -> bool {
    exists|p: Seq<NodeId>| is_path(nodes, avoid, cut, p) && p[0] == u && p.last() == v
}

/// Whether neighbors are mutual: `v` is a neighbor of `u` exactly when `u`
/// is one of `v`.
pub open spec fn mutual<N: NodeBase>(nodes: Map<i64, N>) -> bool {
    forall|u: NodeId, v: NodeId|
        nodes.contains_key(u.id) && nodes.contains_key(v.id) && #[trigger] nodes[u.id].edges_view().contains(
            v,
        ) ==> nodes[v.id].edges_view().contains(u)
}

/// Every standing node is connected to itself.
pub proof fn lemma_connected_reflexive<N: NodeBase>(
    nodes: Map<i64, N>,
    avoid: Set<i64>,
    cut: Set<u128>,
    u: NodeId,
)
    requires
        standing(nodes, avoid, u),
    ensures
        connected(nodes, avoid, cut, u, u),
{
    let p = seq![u];
    assert(is_path(nodes, avoid, cut, p) && p[0] == u && p.last() == u);
}

/// A path goes on by one allowed step.
pub proof fn lemma_connected_step<N: NodeBase>(
    nodes: Map<i64, N>,
    avoid: Set<i64>,
    cut: Set<u128>,
    u: NodeId,
    v: NodeId,
    w: NodeId,
)
    requires
        connected(nodes, avoid, cut, u, v),
        linked(nodes, avoid, cut, v, w),
    ensures
        connected(nodes, avoid, cut, u, w),
{
    let p = choose|p: Seq<NodeId>| is_path(nodes, avoid, cut, p) && p[0] == u && p.last() == v;
    let q = p.push(w);
    assert forall|i: int| 0 <= i < q.len() - 1 implies linked(
        nodes,
        avoid,
        cut,
        #[trigger] q[i],
        q[i + 1],
    ) by {
        if i < p.len() - 1 {
            assert(linked(nodes, avoid, cut, p[i], p[i + 1]));
        }
    }
    assert(is_path(nodes, avoid, cut, q) && q[0] == u && q.last() == w);
}

/// Paths can be joined.
pub proof fn lemma_connected_transitive<N: NodeBase>(
    nodes: Map<i64, N>,
    avoid: Set<i64>,
    cut: Set<u128>,
    u: NodeId,
    v: NodeId,
    w: NodeId,
)
    requires
        connected(nodes, avoid, cut, u, v),
        connected(nodes, avoid, cut, v, w),
    ensures
        connected(nodes, avoid, cut, u, w),
{
    let p = choose|p: Seq<NodeId>| is_path(nodes, avoid, cut, p) && p[0] == u && p.last() == v;
    let q = choose|q: Seq<NodeId>| is_path(nodes, avoid, cut, q) && q[0] == v && q.last() == w;
    let r = p + q.subrange(1, q.len() as int);
    assert forall|i: int| 0 <= i < r.len() - 1 implies linked(
        nodes,
        avoid,
        cut,
        #[trigger] r[i],
        r[i + 1],
    ) by {
        if i < p.len() - 1 {
            assert(linked(nodes, avoid, cut, p[i], p[i + 1]));
        } else {
            let k = i - p.len() + 1;
            assert(linked(nodes, avoid, cut, q[k], q[k + 1]));
        }
    }
    assert(is_path(nodes, avoid, cut, r) && r[0] == u && r.last() == w);
}

/// Where neighbors are mutual, a path can be walked backwards.
pub proof fn lemma_connected_symmetric<N: NodeBase>(
    nodes: Map<i64, N>,
    avoid: Set<i64>,
    cut: Set<u128>,
    u: NodeId,
    v: NodeId,
)
    requires
        mutual(nodes),
        connected(nodes, avoid, cut, u, v),
    ensures
        connected(nodes, avoid, cut, v, u),
{
    let p = choose|p: Seq<NodeId>| is_path(nodes, avoid, cut, p) && p[0] == u && p.last() == v;
    let r = p.reverse();
    assert forall|i: int| 0 <= i < r.len() - 1 implies linked(
        nodes,
        avoid,
        cut,
        #[trigger] r[i],
        r[i + 1],
    ) by {
        let k = p.len() - 2 - i;
        assert(linked(nodes, avoid, cut, p[k], p[k + 1]));
        assert(nodes[p[k].id].edges_view().contains(p[k + 1]));
    }
    if p.len() > 1 {
        assert(linked(nodes, avoid, cut, p[p.len() - 2], p[p.len() - 2 + 1]));
    }
    assert(is_path(nodes, avoid, cut, r) && r[0] == v && r.last() == u);
}

/// A set that holds `u` and, with each node, every node one allowed step
/// away holds all that is connected to `u`.
pub proof fn lemma_closed_set_holds_connected<N: NodeBase>(
    nodes: Map<i64, N>,
    avoid: Set<i64>,
    cut: Set<u128>,
    inside: Set<NodeId>,
    u: NodeId,
    v: NodeId,
)
    requires
        inside.contains(u),
        forall|a: NodeId, b: NodeId|
            inside.contains(a) && #[trigger] linked(nodes, avoid, cut, a, b) ==> inside.contains(b),
        connected(nodes, avoid, cut, u, v),
    ensures
        inside.contains(v),
{
    let p = choose|p: Seq<NodeId>| is_path(nodes, avoid, cut, p) && p[0] == u && p.last() == v;
    lemma_path_stays_inside(nodes, avoid, cut, inside, p, p.len() - 1);
}

proof fn lemma_path_stays_inside<N: NodeBase>(
    nodes: Map<i64, N>,
    avoid: Set<i64>,
    cut: Set<u128>,
    inside: Set<NodeId>,
    p: Seq<NodeId>,
    i: int,
)
    requires
        is_path(nodes, avoid, cut, p),
        inside.contains(p[0]),
        forall|a: NodeId, b: NodeId|
            inside.contains(a) && #[trigger] linked(nodes, avoid, cut, a, b) ==> inside.contains(b),
        0 <= i < p.len(),
    ensures
        inside.contains(p[i]),
    decreases i,
{
    if i > 0 {
        lemma_path_stays_inside(nodes, avoid, cut, inside, p, i - 1);
        assert(linked(nodes, avoid, cut, p[i - 1], p[i - 1 + 1]));
    }
}

/// A path that avoids more nodes is a path that avoids fewer.
pub proof fn lemma_connected_avoiding_less<N: NodeBase>(
    nodes: Map<i64, N>,
    more: Set<i64>,
    fewer: Set<i64>,
    cut: Set<u128>,
    u: NodeId,
    v: NodeId,
)
    requires
        fewer.subset_of(more),
        connected(nodes, more, cut, u, v),
    ensures
        connected(nodes, fewer, cut, u, v),
{
    let p = choose|p: Seq<NodeId>| is_path(nodes, more, cut, p) && p[0] == u && p.last() == v;
    assert forall|i: int| 0 <= i < p.len() - 1 implies linked(
        nodes,
        fewer,
        cut,
        #[trigger] p[i],
        p[i + 1],
    ) by {
        assert(linked(nodes, more, cut, p[i], p[i + 1]));
    }
    assert(is_path(nodes, fewer, cut, p));
}

/// The nodes to ignore, none where no set is given.
pub open spec fn node_set(ignore_nodes: Option<&HashSet<i64>>) -> Set<i64> {
    match ignore_nodes {
        Some(s) => s@,
        None => Set::empty(),
    }
}

/// The edges to ignore, none where no set is given.
pub open spec fn key_set(ignore_edges: Option<&HashSet<u128>>) -> Set<u128> {
    match ignore_edges {
        Some(s) => s@,
        None => Set::empty(),
    }
}

/// Whether node `k` is among the nodes to ignore.
pub fn is_ignored_node(ignore_nodes: Option<&HashSet<i64>>, k: i64) -> (r: bool)
    ensures
        r == node_set(ignore_nodes).contains(k),
{
    match ignore_nodes {
        Some(s) => s.contains(&k),
        None => false,
    }
}

/// Whether the edge between `u` and `v` is among the edges to ignore.
pub fn is_ignored_edge(ignore_edges: Option<&HashSet<u128>>, u: NodeId, v: NodeId) -> (r: bool)
    ensures
        r == is_cut(key_set(ignore_edges), u, v),
{
    match ignore_edges {
        Some(s) => {
            let forth: u128 = get_edge_key(u, v);
            let back: u128 = get_edge_key(v, u);
            s.contains(&forth) || s.contains(&back)
        },
        None => false,
    }
}

/// Nodes of the graph listed without repetition are at most as many as the
/// graph has.
pub proof fn lemma_distinct_nodes_bound<N: NodeBase>(nodes: Map<i64, N>, s: Seq<NodeId>)
    requires
        nodes.dom().finite(),
        s.no_duplicates(),
        forall|i: int| 0 <= i < s.len() ==> nodes.contains_key(#[trigger] s[i].id),
    ensures
        s.len() <= nodes.dom().len(),
{
    let keys = s.map_values(|n: NodeId| n.id);
    assert forall|i: int, j: int| 0 <= i < keys.len() && 0 <= j < keys.len() && i != j implies keys[i]
        != keys[j] by {
        assert(s[i] == NodeId { id: keys[i] });
        assert(s[j] == NodeId { id: keys[j] });
    }
    keys.unique_seq_to_set();
    assert(keys.to_set().subset_of(nodes.dom())) by {
        assert forall|k: i64| keys.to_set().contains(k) implies nodes.dom().contains(k) by {
            let i = choose|i: int| 0 <= i < keys.len() && keys[i] == k;
            assert(nodes.contains_key(s[i].id));
        }
    }
    lemma_len_subset(keys.to_set(), nodes.dom());
}

/// Traversal from a root, shared by the graphs with and without direction.
pub trait ConnectedComponents: GraphBase {
    /// Visits, depth first with a stack of its own, every node that a path
    /// leads to from `root` without touching a node that is ignored or was
    /// visited before, marks these nodes as visited and returns them, `root`
    /// first.
    fn visit_nodes_from_root(
        &self,
        root: NodeId,
        visited: &mut HashSet<i64>,
        ignore_nodes: Option<&HashSet<i64>>,
        ignore_edges: Option<&HashSet<u128>>,
    ) -> (r: Vec<NodeId>)
        requires
            self.wf(),
            self.nodes_view().contains_key(root.id),
            !old(visited)@.contains(root.id),
            !node_set(ignore_nodes).contains(root.id),
        ensures
            r@.len() >= 1,
            r@[0] == root,
            r@.no_duplicates(),
            forall|a: NodeId|
                r@.contains(a) <==> connected(
                    self.nodes_view(),
                    node_set(ignore_nodes).union(old(visited)@),
                    key_set(ignore_edges),
                    root,
                    a,
                ),
            forall|k: i64| #[trigger]
                final(visited)@.contains(k) <==> old(visited)@.contains(k) || r@.contains(
                    NodeId { id: k },
                ),
    {
        let ghost nodes = self.nodes_view();
        let ghost avoid = node_set(ignore_nodes).union(old(visited)@);
        let ghost cut = key_set(ignore_edges);
        let ghost before = old(visited)@;
        proof {
            self.lemma_wf();
            lemma_node_count(nodes, self.ids_view());
            lemma_connected_reflexive(nodes, avoid, cut, root);
        }
        let mut done: Vec<NodeId> = Vec::new();
        let mut stack: Vec<NodeId> = Vec::new();
        stack.push(root);
        visited.insert(root.value());
        proof {
            assert(stack@[0] == root);
            assert(root == NodeId { id: root.id });
        }
        while stack.len() > 0
            invariant
                nodes == self.nodes_view(),
                well_formed(nodes, self.ids_view()),
                nodes.dom().finite(),
                avoid == node_set(ignore_nodes).union(before),
                cut == key_set(ignore_edges),
                done@.no_duplicates(),
                stack@.no_duplicates(),
                forall|i: int, j: int| 0 <= i < done@.len() && 0 <= j < stack@.len() ==> done@[i] != stack@[j],
                forall|i: int| 0 <= i < done@.len() ==> connected(nodes, avoid, cut, root, #[trigger] done@[i]),
                forall|i: int| 0 <= i < stack@.len() ==> connected(nodes, avoid, cut, root, #[trigger] stack@[i]),
                forall|k: i64| #[trigger]
                    visited@.contains(k) <==> before.contains(k) || done@.contains(NodeId { id: k })
                        || stack@.contains(NodeId { id: k }),
                forall|a: NodeId, b: NodeId|
                    done@.contains(a) && #[trigger] linked(nodes, avoid, cut, a, b) ==> done@.contains(b)
                        || stack@.contains(b),
                done@.len() == 0 ==> stack@ =~= seq![root],
                done@.len() > 0 ==> done@[0] == root,
            decreases nodes.dom().len() - done@.len(),
        {
            proof {
                lemma_no_dup_in_concat(done@, stack@);
                lemma_connected_nodes_stand(nodes, avoid, cut, root, done@ + stack@);
                lemma_distinct_nodes_bound(nodes, done@ + stack@);
            }
            let ghost old_done = done@;
            let ghost old_stack = stack@;
            let u: NodeId = stack.pop().unwrap();
            done.push(u);
            proof {
                lemma_connected_stands(nodes, avoid, cut, root, u);
                assert(old_stack[old_stack.len() - 1] == u);
                assert forall|a: NodeId| old_done.contains(a) || old_stack.contains(a) implies done@.contains(a)
                    || stack@.contains(a) by {
                    if old_done.contains(a) {
                        let i = choose|i: int| 0 <= i < old_done.len() && old_done[i] == a;
                        assert(done@[i] == a);
                    } else {
                        let i = choose|i: int| 0 <= i < old_stack.len() && old_stack[i] == a;
                        if i < stack@.len() {
                            assert(stack@[i] == a);
                        } else {
                            assert(done@[done@.len() - 1] == a);
                        }
                    }
                }
                assert forall|a: NodeId| done@.contains(a) || stack@.contains(a) implies old_done.contains(a)
                    || old_stack.contains(a) by {
                    if stack@.contains(a) {
                        let i = choose|i: int| 0 <= i < stack@.len() && stack@[i] == a;
                        assert(old_stack[i] == a);
                    } else {
                        let i = choose|i: int| 0 <= i < done@.len() && done@[i] == a;
                        if i < old_done.len() {
                            assert(old_done[i] == a);
                        }
                    }
                }
            }
            let node: &Self::NodeType = self.get_node(u);
            let edges: Vec<NodeId> = node.get_edges();
            let mut j: usize = 0;
            while j < edges.len()
                invariant
                    j <= edges.len(),
                    nodes == self.nodes_view(),
                    well_formed(nodes, self.ids_view()),
                    avoid == node_set(ignore_nodes).union(before),
                    cut == key_set(ignore_edges),
                    edges@ == nodes[u.id].edges_view(),
                    standing(nodes, avoid, u),
                    connected(nodes, avoid, cut, root, u),
                    done@ == old_done.push(u),
                    done@.no_duplicates(),
                    stack@.no_duplicates(),
                    forall|i: int, j: int|
                        0 <= i < done@.len() && 0 <= j < stack@.len() ==> done@[i] != stack@[j],
                    forall|i: int|
                        0 <= i < stack@.len() ==> connected(nodes, avoid, cut, root, #[trigger] stack@[i]),
                    forall|k: i64| #[trigger]
                        visited@.contains(k) <==> before.contains(k) || done@.contains(NodeId { id: k })
                            || stack@.contains(NodeId { id: k }),
                    forall|a: NodeId, b: NodeId|
                        old_done.contains(a) && #[trigger] linked(nodes, avoid, cut, a, b) ==> done@.contains(
                            b,
                        ) || stack@.contains(b),
                    forall|i: int|
                        0 <= i < j && linked(nodes, avoid, cut, u, #[trigger] edges@[i]) ==> done@.contains(
                            edges@[i],
                        ) || stack@.contains(edges@[i]),
                decreases edges.len() - j,
            {
                let v: NodeId = edges[j];
                let ghost stack_before = stack@;
                if !is_ignored_node(ignore_nodes, v.value()) && !is_ignored_edge(ignore_edges, u, v)
                    && !visited.contains(&v.value()) {
                    proof {
                        assert(v == NodeId { id: v.id });
                        assert(nodes.contains_key(nodes[u.id].edges_view()[j as int].id));
                        assert(linked(nodes, avoid, cut, u, v));
                        lemma_connected_step(nodes, avoid, cut, root, u, v);
                    }
                    visited.insert(v.value());
                    stack.push(v);
                    proof {
                        assert(stack@[stack@.len() - 1] == v);
                        assert forall|a: NodeId| stack_before.contains(a) implies stack@.contains(a) by {
                            let i = choose|i: int| 0 <= i < stack_before.len() && stack_before[i] == a;
                            assert(stack@[i] == a);
                        }
                        assert forall|k: i64| #[trigger]
                            visited@.contains(k) <==> before.contains(k) || done@.contains(
                                NodeId { id: k },
                            ) || stack@.contains(NodeId { id: k }) by {
                            let a = NodeId { id: k };
                            if stack@.contains(a) && !stack_before.contains(a) {
                                let i = choose|i: int| 0 <= i < stack@.len() && stack@[i] == a;
                                if i < stack_before.len() {
                                    assert(stack_before[i] == a);
                                }
                            }
                        }
                    }
                } else {
                    proof {
                        assert(v == NodeId { id: v.id });
                    }
                }
                j += 1;
            }
            proof {
                assert forall|a: NodeId, b: NodeId|
                    done@.contains(a) && #[trigger] linked(nodes, avoid, cut, a, b) implies done@.contains(b)
                        || stack@.contains(b) by {
                    if old_done.contains(a) {
                    } else {
                        let i = choose|i: int| 0 <= i < done@.len() && done@[i] == a;
                        assert(a == u);
                        let at = choose|at: int| 0 <= at < edges@.len() && edges@[at] == b;
                        assert(linked(nodes, avoid, cut, u, edges@[at]));
                    }
                }
                assert forall|i: int| 0 <= i < done@.len() implies connected(
                    nodes,
                    avoid,
                    cut,
                    root,
                    #[trigger] done@[i],
                ) by {
                    if i < old_done.len() {
                        assert(done@[i] == old_done[i]);
                    }
                }
            }
        }
        proof {
            assert forall|a: NodeId| connected(nodes, avoid, cut, root, a) implies done@.contains(a) by {
                lemma_closed_set_holds_connected(nodes, avoid, cut, done@.to_set(), root, a);
            }
            assert forall|a: NodeId| done@.contains(a) implies connected(nodes, avoid, cut, root, a) by {
                let i = choose|i: int| 0 <= i < done@.len() && done@[i] == a;
                assert(connected(nodes, avoid, cut, root, done@[i]));
            }
        }
        done
    }
}

/// What is connected to a standing node stands.
pub proof fn lemma_connected_stands<N: NodeBase>(
    nodes: Map<i64, N>,
    avoid: Set<i64>,
    cut: Set<u128>,
    u: NodeId,
    v: NodeId,
)
    requires
        connected(nodes, avoid, cut, u, v),
    ensures
        standing(nodes, avoid, v),
{
    let p = choose|p: Seq<NodeId>| is_path(nodes, avoid, cut, p) && p[0] == u && p.last() == v;
    if p.len() > 1 {
        assert(linked(nodes, avoid, cut, p[p.len() - 2], p[p.len() - 2 + 1]));
    }
}

proof fn lemma_connected_nodes_stand<N: NodeBase>(
    nodes: Map<i64, N>,
    avoid: Set<i64>,
    cut: Set<u128>,
    root: NodeId,
    s: Seq<NodeId>,
)
    requires
        forall|i: int| 0 <= i < s.len() ==> connected(nodes, avoid, cut, root, #[trigger] s[i]),
    ensures
        forall|i: int| 0 <= i < s.len() ==> nodes.contains_key(#[trigger] s[i].id),
{
    assert forall|i: int| 0 <= i < s.len() implies nodes.contains_key(#[trigger] s[i].id) by {
        lemma_connected_stands(nodes, avoid, cut, root, s[i]);
    }
}

/// Whether `parts` are the connected components of the graph: every part is
/// a list of nodes without repetition and not empty, every standing node is
/// in a part, a path leads from each node of a part to every other, and none
/// from a node of one part to a node of another.
pub open spec fn are_components<N: NodeBase>(
    nodes: Map<i64, N>,
    avoid: Set<i64>,
    cut: Set<u128>,
    parts: Seq<Vec<NodeId>>,
) -> bool {
    &&& forall|c: int|
        0 <= c < parts.len() ==> (#[trigger] parts[c])@.len() > 0 && parts[c]@.no_duplicates()
    &&& forall|a: NodeId| #[trigger]
        standing(nodes, avoid, a) ==> exists|c: int|
            0 <= c < parts.len() && (#[trigger] parts[c])@.contains(a)
    &&& forall|c: int, a: NodeId, b: NodeId|
        0 <= c < parts.len() && #[trigger] parts[c]@.contains(a) && #[trigger] parts[c]@.contains(b)
            ==> connected(nodes, avoid, cut, a, b)
    &&& forall|c: int, d: int, a: NodeId, b: NodeId|
        0 <= c < parts.len() && 0 <= d < parts.len() && c != d && #[trigger] parts[c]@.contains(a)
            && #[trigger] parts[d]@.contains(b) ==> !connected(nodes, avoid, cut, a, b)
}

/// Whether `visited` holds, with each of its nodes, every node one allowed
/// step away.
pub open spec fn closed_under_links<N: NodeBase>(
    nodes: Map<i64, N>,
    avoid: Set<i64>,
    cut: Set<u128>,
    visited: Set<i64>,
) -> bool {
    forall|a: NodeId, b: NodeId|
        visited.contains(a.id) && #[trigger] linked(nodes, avoid, cut, a, b) ==> visited.contains(b.id)
}

proof fn lemma_path_stays_outside<N: NodeBase>(
    nodes: Map<i64, N>,
    avoid: Set<i64>,
    cut: Set<u128>,
    visited: Set<i64>,
    p: Seq<NodeId>,
    i: int,
)
    requires
        mutual(nodes),
        closed_under_links(nodes, avoid, cut, visited),
        is_path(nodes, avoid, cut, p),
        !visited.contains(p[0].id),
        0 <= i < p.len(),
    ensures
        !visited.contains(p[i].id),
    decreases i,
{
    if i > 0 {
        lemma_path_stays_outside(nodes, avoid, cut, visited, p, i - 1);
        assert(linked(nodes, avoid, cut, p[i - 1], p[i - 1 + 1]));
        assert(nodes[p[i - 1].id].edges_view().contains(p[i]));
        assert(linked(nodes, avoid, cut, p[i], p[i - 1]));
    }
}

/// Where neighbors are mutual, a path that starts outside a set of whole
/// components never enters it.
pub proof fn lemma_connected_outside_closed<N: NodeBase>(
    nodes: Map<i64, N>,
    avoid: Set<i64>,
    cut: Set<u128>,
    visited: Set<i64>,
    u: NodeId,
    v: NodeId,
)
    requires
        mutual(nodes),
        closed_under_links(nodes, avoid, cut, visited),
        !visited.contains(u.id),
        connected(nodes, avoid, cut, u, v),
    ensures
        connected(nodes, avoid.union(visited), cut, u, v),
{
    let p = choose|p: Seq<NodeId>| is_path(nodes, avoid, cut, p) && p[0] == u && p.last() == v;
    let more = avoid.union(visited);
    assert forall|i: int| 0 <= i < p.len() implies !visited.contains(#[trigger] p[i].id) by {
        lemma_path_stays_outside(nodes, avoid, cut, visited, p, i);
    }
    assert forall|i: int| 0 <= i < p.len() - 1 implies linked(
        nodes,
        more,
        cut,
        #[trigger] p[i],
        p[i + 1],
    ) by {
        assert(linked(nodes, avoid, cut, p[i], p[i + 1]));
        assert(!visited.contains(p[i].id));
        assert(!visited.contains(p[i + 1].id));
    }
    assert(!visited.contains(p[0].id));
    assert(is_path(nodes, more, cut, p));
}

/// Paths depend on the nodes to avoid only as far as these are nodes of the
/// graph.
pub proof fn lemma_connected_agree<N: NodeBase>(
    nodes: Map<i64, N>,
    one: Set<i64>,
    other: Set<i64>,
    cut: Set<u128>,
    u: NodeId,
    v: NodeId,
)
    requires
        forall|k: i64| #[trigger] nodes.contains_key(k) ==> (one.contains(k) <==> other.contains(k)),
        connected(nodes, one, cut, u, v),
    ensures
        connected(nodes, other, cut, u, v),
{
    let p = choose|p: Seq<NodeId>| is_path(nodes, one, cut, p) && p[0] == u && p.last() == v;
    assert forall|i: int| 0 <= i < p.len() - 1 implies linked(
        nodes,
        other,
        cut,
        #[trigger] p[i],
        p[i + 1],
    ) by {
        assert(linked(nodes, one, cut, p[i], p[i + 1]));
    }
    assert(is_path(nodes, other, cut, p));
}

/// The components depend on the nodes to avoid only as far as these are
/// nodes of the graph.
pub proof fn lemma_components_agree<N: NodeBase>(
    nodes: Map<i64, N>,
    one: Set<i64>,
    other: Set<i64>,
    cut: Set<u128>,
    parts: Seq<Vec<NodeId>>,
)
    requires
        forall|k: i64| #[trigger] nodes.contains_key(k) ==> (one.contains(k) <==> other.contains(k)),
        are_components(nodes, one, cut, parts),
    ensures
        are_components(nodes, other, cut, parts),
{
    assert forall|a: NodeId| #[trigger] standing(nodes, other, a) implies exists|c: int|
        0 <= c < parts.len() && (#[trigger] parts[c])@.contains(a) by {
        assert(standing(nodes, one, a));
    }
    assert forall|c: int, a: NodeId, b: NodeId|
        0 <= c < parts.len() && #[trigger] parts[c]@.contains(a) && #[trigger] parts[c]@.contains(
            b,
        ) implies connected(nodes, other, cut, a, b) by {
        lemma_connected_agree(nodes, one, other, cut, a, b);
    }
    assert forall|c: int, d: int, a: NodeId, b: NodeId|
        0 <= c < parts.len() && 0 <= d < parts.len() && c != d && #[trigger] parts[c]@.contains(a)
            && #[trigger] parts[d]@.contains(b) implies !connected(nodes, other, cut, a, b) by {
        if connected(nodes, other, cut, a, b) {
            lemma_connected_agree(nodes, other, one, cut, a, b);
        }
    }
}

/// Paths depend on the edges to ignore only as far as these decide which
/// steps are allowed.
pub proof fn lemma_connected_agree_cut<N: NodeBase>(
    nodes: Map<i64, N>,
    avoid: Set<i64>,
    one: Set<u128>,
    other: Set<u128>,
    u: NodeId,
    v: NodeId,
)
    requires
        forall|a: NodeId, b: NodeId| #[trigger]
            linked(nodes, avoid, one, a, b) ==> linked(nodes, avoid, other, a, b),
        connected(nodes, avoid, one, u, v),
    ensures
        connected(nodes, avoid, other, u, v),
{
    let p = choose|p: Seq<NodeId>| is_path(nodes, avoid, one, p) && p[0] == u && p.last() == v;
    assert forall|i: int| 0 <= i < p.len() - 1 implies linked(
        nodes,
        avoid,
        other,
        #[trigger] p[i],
        p[i + 1],
    ) by {
        assert(linked(nodes, avoid, one, p[i], p[i + 1]));
    }
    assert(is_path(nodes, avoid, other, p));
}

/// In a graph without direction neighbors are mutual.
pub proof fn lemma_mutual<G: UndirectedGraph>(g: &G)
    requires
        g.wf(),
    ensures
        mutual(g.nodes_view()),
{
    let nodes = g.nodes_view();
    assert forall|u: NodeId, v: NodeId|
        nodes.contains_key(u.id) && nodes.contains_key(v.id) && #[trigger] nodes[u.id].edges_view().contains(
            v,
        ) implies nodes[v.id].edges_view().contains(u) by {
        g.lemma_neighbors_symmetric(u, v);
    }
}

/// Connected components of graphs without direction.
pub trait ConnectedComponentsUndirected: UndirectedGraph + ConnectedComponents {
    /// The connected components of the graph, each as the list of its nodes.
    /// The components come in the order in which the iteration order reaches
    /// their first node, which leads the list.
    fn get_connected_components(&self) -> (r: Vec<Vec<NodeId>>)
        requires
            self.wf(),
        ensures
            are_components(self.nodes_view(), Set::<i64>::empty(), Set::<u128>::empty(), r@),
    {
        self._get_connected_components(None, None)
    }

    /// The connected components of what is left of the graph without the
    /// nodes of `ignore_nodes` and the edges of `ignore_edges`.
    fn _get_connected_components(
        &self,
        ignore_nodes: Option<&HashSet<i64>>,
        ignore_edges: Option<&HashSet<u128>>,
    ) -> (r: Vec<Vec<NodeId>>)
        requires
            self.wf(),
        ensures
            are_components(self.nodes_view(), node_set(ignore_nodes), key_set(ignore_edges), r@),
    {
        let ghost nodes = self.nodes_view();
        let ghost avoid = node_set(ignore_nodes);
        let ghost cut = key_set(ignore_edges);
        proof {
            self.lemma_wf();
            lemma_mutual(self);
        }
        let ids: &Vec<NodeId> = self.get_core_ids();
        let mut parts: Vec<Vec<NodeId>> = Vec::new();
        let mut visited: HashSet<i64> = HashSet::new();
        let mut i: usize = 0;
        while i < ids.len()
            invariant
                i <= ids.len(),
                self.wf(),
                ids@ == self.ids_view(),
                nodes == self.nodes_view(),
                avoid == node_set(ignore_nodes),
                cut == key_set(ignore_edges),
                well_formed(nodes, ids@),
                mutual(nodes),
                closed_under_links(nodes, avoid, cut, visited@),
                forall|j: int| 0 <= j < i && standing(nodes, avoid, #[trigger] ids@[j]) ==> visited@.contains(ids@[j].id),
                forall|k: i64|
                    visited@.contains(k) <==> exists|c: int|
                        0 <= c < parts@.len() && (#[trigger] parts@[c])@.contains(NodeId { id: k }),
                forall|c: int|
                    0 <= c < parts@.len() ==> (#[trigger] parts@[c])@.len() > 0 && parts@[c]@.no_duplicates(),
                forall|c: int, a: NodeId|
                    #![trigger parts@[c]@.contains(a)]
                    0 <= c < parts@.len() ==> (parts@[c]@.contains(a) <==> connected(
                        nodes,
                        avoid,
                        cut,
                        parts@[c]@[0],
                        a,
                    )),
                forall|c: int, d: int|
                    0 <= c < d < parts@.len() ==> !connected(
                        nodes,
                        avoid,
                        cut,
                        (#[trigger] parts@[c])@[0],
                        (#[trigger] parts@[d])@[0],
                    ),
            decreases ids.len() - i,
        {
            let root: NodeId = ids[i];
            if !is_ignored_node(ignore_nodes, root.value()) && !visited.contains(&root.value()) {
                let ghost before = visited@;
                let ghost old_parts = parts@;
                proof {
                    assert(ids@.contains(ids@[i as int]));
                    assert(nodes.contains_key(root.id));
                }
                let part: Vec<NodeId> = self.visit_nodes_from_root(
                    root,
                    &mut visited,
                    ignore_nodes,
                    ignore_edges,
                );
                parts.push(part);
                proof {
                    let more = avoid.union(before);
                    let last = parts@.len() - 1;
                    assert(parts@[last] == part);
                    assert forall|c: int| 0 <= c < last implies parts@[c] == old_parts[c] by {}
                    assert forall|a: NodeId| part@.contains(a) <==> connected(nodes, avoid, cut, root, a) by {
                        if part@.contains(a) {
                            lemma_connected_avoiding_less(nodes, more, avoid, cut, root, a);
                        }
                        if connected(nodes, avoid, cut, root, a) {
                            lemma_connected_outside_closed(nodes, avoid, cut, before, root, a);
                        }
                    }
                    assert forall|c: int, a: NodeId|
                        #![trigger parts@[c]@.contains(a)]
                        0 <= c < parts@.len() implies (parts@[c]@.contains(a) <==> connected(
                        nodes,
                        avoid,
                        cut,
                        parts@[c]@[0],
                        a,
                    )) by {
                        if c < last {
                            assert(parts@[c] == old_parts[c]);
                        }
                    }
                    assert forall|c: int, d: int| 0 <= c < d < parts@.len() implies !connected(
                        nodes,
                        avoid,
                        cut,
                        (#[trigger] parts@[c])@[0],
                        (#[trigger] parts@[d])@[0],
                    ) by {
                        assert(parts@[c] == old_parts[c]);
                        if d == last {
                            if connected(nodes, avoid, cut, old_parts[c]@[0], root) {
                                assert(old_parts[c]@.contains(root));
                                assert(root == NodeId { id: root.id });
                                assert(before.contains(root.id));
                            }
                        } else {
                            assert(parts@[d] == old_parts[d]);
                        }
                    }
                    assert forall|k: i64|
                        visited@.contains(k) <==> exists|c: int|
                            0 <= c < parts@.len() && (#[trigger] parts@[c])@.contains(NodeId { id: k }) by {
                        let n = NodeId { id: k };
                        if visited@.contains(k) {
                            if before.contains(k) {
                                let c = choose|c: int|
                                    0 <= c < old_parts.len() && (#[trigger] old_parts[c])@.contains(n);
                                assert(parts@[c]@.contains(n));
                            } else {
                                assert(parts@[last]@.contains(n));
                            }
                        }
                        if exists|c: int| 0 <= c < parts@.len() && (#[trigger] parts@[c])@.contains(n) {
                            let c = choose|c: int| 0 <= c < parts@.len() && (#[trigger] parts@[c])@.contains(n);
                            if c < last {
                                assert(old_parts[c]@.contains(n));
                            }
                        }
                    }
                    assert forall|a: NodeId, b: NodeId|
                        visited@.contains(a.id) && #[trigger] linked(
                            nodes,
                            avoid,
                            cut,
                            a,
                            b,
                        ) implies visited@.contains(b.id) by {
                        assert(a == NodeId { id: a.id });
                        assert(b == NodeId { id: b.id });
                        if !before.contains(a.id) {
                            assert(part@.contains(a));
                            lemma_connected_step(nodes, avoid, cut, root, a, b);
                            assert(part@.contains(b));
                        }
                    }
                    assert(part@[0] == root);
                    assert(part@.contains(root));
                }
            }
            i += 1;
        }
        proof {
            assert forall|a: NodeId| #[trigger] standing(nodes, avoid, a) implies exists|c: int|
                0 <= c < parts@.len() && (#[trigger] parts@[c])@.contains(a) by {
                assert(a == NodeId { id: a.id });
                assert(nodes.contains_key(a.id));
                assert(ids@.contains(a));
                let j = choose|j: int| 0 <= j < ids@.len() && ids@[j] == a;
                assert(standing(nodes, avoid, ids@[j]));
                assert(visited@.contains(a.id));
            }
            assert forall|c: int, a: NodeId, b: NodeId|
                0 <= c < parts@.len() && #[trigger] parts@[c]@.contains(a) && #[trigger] parts@[c]@.contains(
                    b,
                ) implies connected(nodes, avoid, cut, a, b) by {
                let root = parts@[c]@[0];
                lemma_connected_symmetric(nodes, avoid, cut, root, a);
                lemma_connected_transitive(nodes, avoid, cut, a, root, b);
            }
            assert forall|c: int, d: int, a: NodeId, b: NodeId|
                0 <= c < parts@.len() && 0 <= d < parts@.len() && c != d && #[trigger] parts@[c]@.contains(
                    a,
                ) && #[trigger] parts@[d]@.contains(b) implies !connected(nodes, avoid, cut, a, b) by {
                if connected(nodes, avoid, cut, a, b) {
                    let rc = parts@[c]@[0];
                    let rd = parts@[d]@[0];
                    lemma_connected_symmetric(nodes, avoid, cut, rd, b);
                    lemma_connected_transitive(nodes, avoid, cut, rc, a, b);
                    lemma_connected_transitive(nodes, avoid, cut, rc, b, rd);
                    lemma_connected_symmetric(nodes, avoid, cut, rc, rd);
                }
            }
        }
        parts
    }
}

} // verus!
