//! Trusses: what is left when edges in too few triangles are taken away.

use vstd::prelude::*;
use std::collections::HashSet;
use crate::dachshund::algorithms::connected_components::{
    are_components, connected, edge_key, get_edge_key, is_cut, is_ignored_edge,
    lemma_connected_agree_cut, lemma_connected_reflexive, lemma_connected_stands,
    lemma_connected_step, lemma_edge_key_injective, lemma_mutual, linked, mutual, standing,
};
use crate::dachshund::counting::{
    count_where, distinct, lemma_count_where_monotone, lemma_count_where_strict,
    lemma_distinct_properties,
};
use crate::dachshund::graph_base::{well_formed, GraphBase};
use crate::dachshund::id_types::NodeId;
use crate::dachshund::node::{append_ids, contains_id, NodeBase};
use crate::dachshund::simple_undirected_graph::UndirectedGraph;
use crate::dachshund::sums::{lemma_sum_at_most, lemma_sum_less, lemma_sum_monotone, sum_to};

verus! {

/// Whether an edge that is not ignored joins `u` and `v`.
pub open spec fn joined<N: NodeBase>(nodes: Map<i64, N>, cut: Set<u128>, u: NodeId, v: NodeId) -> bool {
    linked(nodes, Set::<i64>::empty(), cut, u, v)
}

/// The condition on a node to close a triangle over `u` and `v`: it is a
/// third node, joined to both.
pub open spec fn closes_triangle<N: NodeBase>(
    nodes: Map<i64, N>,
    cut: Set<u128>,
    u: NodeId,
    v: NodeId,
) -> spec_fn(NodeId) -> bool {
    |w: NodeId| w != u && w != v && joined(nodes, cut, u, w) && joined(nodes, cut, v, w)
}

/// The number of triangles that the edge between `u` and `v` takes part in:
/// of nodes, counted among the neighbors of `u`, that close one over it.
pub open spec fn support<N: NodeBase>(nodes: Map<i64, N>, cut: Set<u128>, u: NodeId, v: NodeId) -> nat {
    count_where(distinct(nodes[u.id].edges_view()), closes_triangle(nodes, cut, u, v))
}

/// Whether the edges that are not ignored make a `k`-truss: each takes part
/// in at least `k - 2` triangles of such edges.
pub open spec fn is_truss<N: NodeBase>(nodes: Map<i64, N>, cut: Set<u128>, k: nat) -> bool {
    forall|u: NodeId, v: NodeId| #[trigger]
        joined(nodes, cut, u, v) ==> support(nodes, cut, u, v) + 2 >= k
}

/// Whether the edge between `u` and `v` lies in the `k`-truss: the largest
/// set of edges that make one.
#[verifier::opaque]
pub open spec fn in_truss<N: NodeBase>(nodes: Map<i64, N>, k: nat, u: NodeId, v: NodeId) -> bool {
    exists|cut: Set<u128>| is_truss(nodes, cut, k) && joined(nodes, cut, u, v)
}

/// The edges outside the `k`-truss, as a set of edges to ignore.
pub open spec fn truss_cut<N: NodeBase>(nodes: Map<i64, N>, k: nat) -> Set<u128> {
    Set::new(
        |key: u128|
            exists|u: NodeId, v: NodeId|
                key == edge_key(u.id, v.id) && !in_truss(nodes, k, u, v),
    )
}

/// Whether no ignored edge lies in the `k`-truss.
pub open spec fn cut_is_sound<N: NodeBase>(nodes: Map<i64, N>, cut: Set<u128>, k: nat) -> bool {
    forall|a: NodeId, b: NodeId| #[trigger] is_cut(cut, a, b) ==> !in_truss(nodes, k, a, b)
}

/// The condition on a neighbor of `u` that the edge to it is not ignored.
pub open spec fn is_kept(cut: Set<u128>, u: NodeId) -> spec_fn(NodeId) -> bool {
    |w: NodeId| !is_cut(cut, u, w)
}

/// The edges of the graph that are not ignored, counted at both ends.
pub open spec fn links_total<N: NodeBase>(nodes: Map<i64, N>, ids: Seq<NodeId>, cut: Set<u128>) -> int {
    sum_to(
        |i: int| count_where(distinct(nodes[ids[i].id].edges_view()), is_kept(cut, ids[i])) as int,
        ids.len() as int,
    )
}

/// Where fewer edges are kept, an edge takes part in fewer triangles.
pub proof fn lemma_support_monotone<N: NodeBase>(
    nodes: Map<i64, N>,
    fewer: Set<u128>,
    more: Set<u128>,
    u: NodeId,
    v: NodeId,
)
    requires
        forall|a: NodeId, b: NodeId| #[trigger] joined(nodes, fewer, a, b) ==> joined(nodes, more, a, b),
    ensures
        support(nodes, fewer, u, v) <= support(nodes, more, u, v),
{
    let around = distinct(nodes[u.id].edges_view());
    let p = closes_triangle(nodes, fewer, u, v);
    let q = closes_triangle(nodes, more, u, v);
    assert forall|j: int| 0 <= j < around.len() && p(#[trigger] around[j]) implies q(around[j]) by {
        let w = around[j];
        assert(joined(nodes, fewer, u, w));
        assert(joined(nodes, fewer, v, w));
    }
    lemma_count_where_monotone(around, p, q);
}

/// The `k`-truss is the same from both ends of an edge.
pub proof fn lemma_in_truss_symmetric<N: NodeBase>(nodes: Map<i64, N>, k: nat, u: NodeId, v: NodeId)
    requires
        mutual(nodes),
        in_truss(nodes, k, u, v),
    ensures
        in_truss(nodes, k, v, u),
{
    reveal(in_truss);
    let cut = choose|cut: Set<u128>| is_truss(nodes, cut, k) && joined(nodes, cut, u, v);
    assert(nodes[u.id].edges_view().contains(v));
    assert(joined(nodes, cut, v, u));
}

/// An edge that takes part in too few triangles of edges that are kept is
/// not in the `k`-truss, where no ignored edge is.
pub proof fn lemma_cut_sound<N: NodeBase>(nodes: Map<i64, N>, cut: Set<u128>, k: nat, u: NodeId, v: NodeId)
    requires
        mutual(nodes),
        cut_is_sound(nodes, cut, k),
        support(nodes, cut, u, v) + 2 < k,
    ensures
        !in_truss(nodes, k, u, v),
        !in_truss(nodes, k, v, u),
{
    if in_truss(nodes, k, v, u) {
        lemma_in_truss_symmetric(nodes, k, v, u);
    }
    if in_truss(nodes, k, u, v) {
        reveal(in_truss);
        let other = choose|other: Set<u128>| is_truss(nodes, other, k) && joined(nodes, other, u, v);
        assert forall|a: NodeId, b: NodeId| #[trigger] joined(nodes, other, a, b) implies joined(
            nodes,
            cut,
            a,
            b,
        ) by {
            assert(in_truss(nodes, k, a, b));
            if is_cut(cut, a, b) {
                assert(!in_truss(nodes, k, a, b));
            }
        }
        lemma_support_monotone(nodes, other, cut, u, v);
        assert(joined(nodes, other, u, v));
    }
}

/// With one more edge ignored, an edge is ignored if it was or is that one.
pub proof fn lemma_is_cut_insert(cut: Set<u128>, u: NodeId, v: NodeId, a: NodeId, b: NodeId)
    ensures
        is_cut(cut.insert(edge_key(u.id, v.id)), a, b) <==> is_cut(cut, a, b) || (a == u && b == v) || (a
            == v && b == u),
{
    if edge_key(a.id, b.id) == edge_key(u.id, v.id) {
        lemma_edge_key_injective(a.id, b.id, u.id, v.id);
    }
    if edge_key(b.id, a.id) == edge_key(u.id, v.id) {
        lemma_edge_key_injective(b.id, a.id, u.id, v.id);
    }
}

/// Ignoring more edges keeps no more of them.
pub proof fn lemma_links_total_monotone<N: NodeBase>(
    nodes: Map<i64, N>,
    ids: Seq<NodeId>,
    fewer: Set<u128>,
    more: Set<u128>,
)
    requires
        fewer.subset_of(more),
    ensures
        0 <= links_total(nodes, ids, more) <= links_total(nodes, ids, fewer),
{
    let n = ids.len() as int;
    let f = |i: int| count_where(distinct(nodes[ids[i].id].edges_view()), is_kept(more, ids[i])) as int;
    let g = |i: int| count_where(distinct(nodes[ids[i].id].edges_view()), is_kept(fewer, ids[i])) as int;
    assert forall|i: int| 0 <= i < n implies #[trigger] f(i) <= g(i) by {
        lemma_count_where_monotone(
            distinct(nodes[ids[i].id].edges_view()),
            is_kept(more, ids[i]),
            is_kept(fewer, ids[i]),
        );
    }
    lemma_sum_at_most(f, g, n);
    lemma_sum_monotone(f, 0, n);
}

/// Ignoring an edge of the graph that was kept keeps fewer.
pub proof fn lemma_links_total_drop<N: NodeBase>(
    nodes: Map<i64, N>,
    ids: Seq<NodeId>,
    cut: Set<u128>,
    u: NodeId,
    v: NodeId,
)
    requires
        well_formed(nodes, ids),
        nodes.contains_key(u.id),
        nodes[u.id].edges_view().contains(v),
        !is_cut(cut, u, v),
    ensures
        links_total(nodes, ids, cut.insert(edge_key(u.id, v.id))) < links_total(nodes, ids, cut),
{
    let n = ids.len() as int;
    let more = cut.insert(edge_key(u.id, v.id));
    let f = |i: int| count_where(distinct(nodes[ids[i].id].edges_view()), is_kept(more, ids[i])) as int;
    let g = |i: int| count_where(distinct(nodes[ids[i].id].edges_view()), is_kept(cut, ids[i])) as int;
    assert forall|i: int| 0 <= i < n implies #[trigger] f(i) <= g(i) by {
        lemma_count_where_monotone(
            distinct(nodes[ids[i].id].edges_view()),
            is_kept(more, ids[i]),
            is_kept(cut, ids[i]),
        );
    }
    assert(u == NodeId { id: u.id });
    assert(ids.contains(u));
    let at = choose|at: int| 0 <= at < ids.len() && ids[at] == u;
    let around = distinct(nodes[u.id].edges_view());
    lemma_distinct_properties(nodes[u.id].edges_view());
    assert(around.contains(v));
    let j = choose|j: int| 0 <= j < around.len() && around[j] == v;
    lemma_count_where_strict(around, is_kept(more, u), is_kept(cut, u), j);
    lemma_sum_less(f, g, at, n);
}

/// Counts the triangles that the edge between `u` and `v` takes part in.
pub fn count_triangles<G: GraphBase>(g: &G, u: NodeId, v: NodeId, cut: &HashSet<u128>) -> (r: usize)
    requires
        g.wf(),
        g.nodes_view().contains_key(u.id),
        g.nodes_view().contains_key(v.id),
    ensures
        r == support(g.nodes_view(), cut@, u, v),
{
    let ghost nodes = g.nodes_view();
    let ghost closes = closes_triangle(nodes, cut@, u, v);
    proof {
        g.lemma_wf();
        lemma_distinct_properties(nodes[u.id].edges_view());
    }
    let around: Vec<NodeId> = g.get_node(u).get_neighbor_ids();
    let theirs: Vec<NodeId> = g.get_node(v).get_edges();
    let mut count: usize = 0;
    let mut j: usize = 0;
    while j < around.len()
        invariant
            j <= around.len(),
            nodes == g.nodes_view(),
            well_formed(nodes, g.ids_view()),
            nodes.contains_key(u.id),
            nodes.contains_key(v.id),
            closes == closes_triangle(nodes, cut@, u, v),
            around@ == distinct(nodes[u.id].edges_view()),
            forall|x: NodeId| around@.contains(x) <==> nodes[u.id].edges_view().contains(x),
            theirs@ == nodes[v.id].edges_view(),
            count == count_where(around@.subrange(0, j as int), closes),
            count <= j,
        decreases around.len() - j,
    {
        let w: NodeId = around[j];
        proof {
            assert(around@.subrange(0, j + 1).drop_last() =~= around@.subrange(0, j as int));
            assert(around@.contains(around@[j as int]));
            let at = choose|at: int|
                0 <= at < nodes[u.id].edges_view().len() && nodes[u.id].edges_view()[at] == w;
            assert(nodes.contains_key(nodes[u.id].edges_view()[at].id));
        }
        if w != u && w != v && !is_ignored_edge(Some(cut), u, w) && !is_ignored_edge(Some(cut), v, w)
            && contains_id(&theirs, w) {
            count += 1;
        }
        j += 1;
    }
    assert(around@.subrange(0, around.len() as int) =~= around@);
    count
}

/// Looks at the edge from `u` to its neighbor `v` and ignores it from now on
/// if it is kept and takes part in fewer than `k - 2` triangles. Says
/// whether it did.
pub fn peel_edge<G: UndirectedGraph>(g: &G, u: NodeId, v: NodeId, k: usize, cut: &mut HashSet<u128>) -> (r:
    bool)
    requires
        g.wf(),
        g.nodes_view().contains_key(u.id),
        g.nodes_view()[u.id].edges_view().contains(v),
        cut_is_sound(g.nodes_view(), old(cut)@, k as nat),
    ensures
        cut_is_sound(g.nodes_view(), final(cut)@, k as nat),
        r ==> !is_cut(old(cut)@, u, v) && final(cut)@ == old(cut)@.insert(edge_key(u.id, v.id)),
        !r ==> final(cut)@ == old(cut)@ && (joined(g.nodes_view(), old(cut)@, u, v) ==> support(
            g.nodes_view(),
            old(cut)@,
            u,
            v,
        ) + 2 >= k),
{
    let ghost nodes = g.nodes_view();
    let ghost before = cut@;
    proof {
        g.lemma_wf();
        lemma_mutual(g);
        let at = choose|at: int|
            0 <= at < nodes[u.id].edges_view().len() && nodes[u.id].edges_view()[at] == v;
        assert(nodes.contains_key(nodes[u.id].edges_view()[at].id));
    }
    if is_ignored_edge(Some(cut), u, v) {
        return false;
    }
    let triangles: usize = count_triangles(g, u, v, cut);
    if k >= 2 && triangles < k - 2 {
        let key: u128 = get_edge_key(u, v);
        cut.insert(key);
        proof {
            lemma_cut_sound(nodes, before, k as nat, u, v);
            assert forall|a: NodeId, b: NodeId| #[trigger] is_cut(cut@, a, b) implies !in_truss(
                nodes,
                k as nat,
                a,
                b,
            ) by {
                lemma_is_cut_insert(before, u, v, a, b);
                if !is_cut(before, a, b) {
                } else {
                    assert(!in_truss(nodes, k as nat, a, b));
                }
            }
        }
        true
    } else {
        false
    }
}

/// Looks at every edge of `u` as `peel_edge` does. Says whether an edge was
/// ignored.
pub fn peel_node<G: UndirectedGraph>(g: &G, u: NodeId, k: usize, cut: &mut HashSet<u128>) -> (r: bool)
    requires
        g.wf(),
        g.nodes_view().contains_key(u.id),
        cut_is_sound(g.nodes_view(), old(cut)@, k as nat),
    ensures
        cut_is_sound(g.nodes_view(), final(cut)@, k as nat),
        old(cut)@.subset_of(final(cut)@),
        r ==> links_total(g.nodes_view(), g.ids_view(), final(cut)@) < links_total(
            g.nodes_view(),
            g.ids_view(),
            old(cut)@,
        ),
        !r ==> final(cut)@ == old(cut)@ && forall|v: NodeId| #[trigger]
            joined(g.nodes_view(), old(cut)@, u, v) ==> support(g.nodes_view(), old(cut)@, u, v) + 2
                >= k,
{
    let ghost nodes = g.nodes_view();
    let ghost ids = g.ids_view();
    let ghost before = cut@;
    proof {
        g.lemma_wf();
        lemma_distinct_properties(nodes[u.id].edges_view());
    }
    let around: Vec<NodeId> = g.get_node(u).get_neighbor_ids();
    let mut changed: bool = false;
    let mut j: usize = 0;
    while j < around.len()
        invariant
            j <= around.len(),
            g.wf(),
            nodes == g.nodes_view(),
            ids == g.ids_view(),
            well_formed(nodes, ids),
            nodes.contains_key(u.id),
            forall|x: NodeId| around@.contains(x) <==> nodes[u.id].edges_view().contains(x),
            cut_is_sound(nodes, cut@, k as nat),
            before.subset_of(cut@),
            changed ==> links_total(nodes, ids, cut@) < links_total(nodes, ids, before),
            !changed ==> cut@ == before && forall|t: int|
                0 <= t < j && joined(nodes, before, u, #[trigger] around@[t]) ==> support(
                    nodes,
                    before,
                    u,
                    around@[t],
                ) + 2 >= k,
        decreases around.len() - j,
    {
        let v: NodeId = around[j];
        let ghost earlier = cut@;
        proof {
            assert(around@.contains(around@[j as int]));
        }
        let dropped: bool = peel_edge(g, u, v, k, cut);
        proof {
            if dropped {
                lemma_links_total_drop(nodes, ids, earlier, u, v);
            }
        }
        if dropped {
            changed = true;
        }
        j += 1;
    }
    proof {
        if !changed {
            assert forall|v: NodeId| #[trigger] joined(nodes, before, u, v) implies support(
                nodes,
                before,
                u,
                v,
            ) + 2 >= k by {
                assert(around@.contains(v));
                let t = choose|t: int| 0 <= t < around@.len() && around@[t] == v;
                assert(joined(nodes, before, u, around@[t]));
            }
        }
    }
    changed
}

/// Looks once at every edge of the graph as `peel_edge` does. Says whether
/// an edge was ignored; if none was, the edges that are kept make a
/// `k`-truss.
pub fn peel_pass<G: UndirectedGraph>(g: &G, k: usize, cut: &mut HashSet<u128>) -> (r: bool)
    requires
        g.wf(),
        cut_is_sound(g.nodes_view(), old(cut)@, k as nat),
    ensures
        cut_is_sound(g.nodes_view(), final(cut)@, k as nat),
        r ==> links_total(g.nodes_view(), g.ids_view(), final(cut)@) < links_total(
            g.nodes_view(),
            g.ids_view(),
            old(cut)@,
        ),
        !r ==> final(cut)@ == old(cut)@ && is_truss(g.nodes_view(), old(cut)@, k as nat),
{
    let ghost nodes = g.nodes_view();
    let ghost before = cut@;
    proof {
        g.lemma_wf();
    }
    let ids: &Vec<NodeId> = g.get_core_ids();
    let mut changed: bool = false;
    let mut i: usize = 0;
    while i < ids.len()
        invariant
            i <= ids.len(),
            g.wf(),
            nodes == g.nodes_view(),
            ids@ == g.ids_view(),
            well_formed(nodes, ids@),
            cut_is_sound(nodes, cut@, k as nat),
            before.subset_of(cut@),
            changed ==> links_total(nodes, ids@, cut@) < links_total(nodes, ids@, before),
            !changed ==> cut@ == before && forall|t: int, v: NodeId|
                0 <= t < i && #[trigger] joined(nodes, before, ids@[t], v) ==> support(
                    nodes,
                    before,
                    ids@[t],
                    v,
                ) + 2 >= k,
        decreases ids.len() - i,
    {
        let u: NodeId = ids[i];
        let ghost earlier = cut@;
        proof {
            assert(ids@.contains(ids@[i as int]));
        }
        let dropped: bool = peel_node(g, u, k, cut);
        proof {
            lemma_links_total_monotone(nodes, ids@, before, earlier);
        }
        if dropped {
            changed = true;
        }
        i += 1;
    }
    proof {
        if !changed {
            assert forall|u: NodeId, v: NodeId| #[trigger] joined(nodes, before, u, v) implies support(
                nodes,
                before,
                u,
                v,
            ) + 2 >= k by {
                assert(u == NodeId { id: u.id });
                assert(ids@.contains(u));
                let t = choose|t: int| 0 <= t < ids@.len() && ids@[t] == u;
                assert(joined(nodes, before, ids@[t], v));
            }
        }
    }
    changed
}

/// Ignores edges until those that are kept make a `k`-truss, and returns the
/// ignored ones. No edge of the `k`-truss is among them, so the edges kept
/// are the `k`-truss.
pub fn peel_truss<G: UndirectedGraph>(g: &G, k: usize) -> (cut: HashSet<u128>)
    requires
        g.wf(),
    ensures
        is_truss(g.nodes_view(), cut@, k as nat),
        cut_is_sound(g.nodes_view(), cut@, k as nat),
{
    let ghost nodes = g.nodes_view();
    let ghost ids = g.ids_view();
    let mut cut: HashSet<u128> = HashSet::new();
    let mut changes: bool = true;
    proof {
        lemma_links_total_monotone(nodes, ids, cut@, cut@);
    }
    while changes
        invariant
            g.wf(),
            nodes == g.nodes_view(),
            ids == g.ids_view(),
            cut_is_sound(nodes, cut@, k as nat),
            links_total(nodes, ids, cut@) >= 0,
            !changes ==> is_truss(nodes, cut@, k as nat),
        decreases
            2 * links_total(nodes, ids, cut@) + if changes {
                1int
            } else {
                0int
            },
    {
        changes = peel_pass(g, k, &mut cut);
        proof {
            lemma_links_total_monotone(nodes, ids, cut@, cut@);
        }
    }
    cut
}

/// The edges of node `a` that are kept and lead to a larger identifier, as
/// pairs with `a` in front, in the order of `around`.
pub open spec fn node_links(cut: Set<u128>, a: NodeId, around: Seq<NodeId>) -> Seq<(NodeId, NodeId)>
    decreases around.len(),
{
    if around.len() == 0 {
        Seq::empty()
    } else if a.id < around.last().id && !is_cut(cut, a, around.last()) {
        node_links(cut, a, around.drop_last()).push((a, around.last()))
    } else {
        node_links(cut, a, around.drop_last())
    }
}

/// The edges among the nodes of `part` that are kept, each once, from its
/// smaller to its larger end, the nodes taken in the order of `part` and
/// their neighbors in the order of first occurrence.
pub open spec fn part_links<N: NodeBase>(nodes: Map<i64, N>, cut: Set<u128>, part: Seq<NodeId>) -> Seq<
    (NodeId, NodeId),
>
    decreases part.len(),
{
    if part.len() == 0 {
        Seq::empty()
    } else {
        part_links(nodes, cut, part.drop_last()) + node_links(
            cut,
            part.last(),
            distinct(nodes[part.last().id].edges_view()),
        )
    }
}

/// Whether `truss_nodes` are the connected components, by edges that are
/// not ignored, that hold such an edge between two nodes, and `trusses`
/// lists for each its edges.
pub open spec fn are_truss_parts<N: NodeBase>(
    nodes: Map<i64, N>,
    cut: Set<u128>,
    trusses: Seq<Vec<(NodeId, NodeId)>>,
    truss_nodes: Seq<Vec<NodeId>>,
) -> bool {
    let none = Set::<i64>::empty();
    &&& trusses.len() == truss_nodes.len()
    &&& forall|t: int|
        0 <= t < truss_nodes.len() ==> (#[trigger] trusses[t])@ == part_links(
            nodes,
            cut,
            truss_nodes[t]@,
        ) && trusses[t]@.len() > 0
    &&& forall|t: int| 0 <= t < truss_nodes.len() ==> (#[trigger] truss_nodes[t])@.no_duplicates()
    &&& forall|t: int, a: NodeId, b: NodeId|
        0 <= t < truss_nodes.len() && #[trigger] truss_nodes[t]@.contains(a)
            && #[trigger] truss_nodes[t]@.contains(b) ==> connected(nodes, none, cut, a, b)
    &&& forall|t: int, s: int, a: NodeId, b: NodeId|
        0 <= t < truss_nodes.len() && 0 <= s < truss_nodes.len() && t != s
            && #[trigger] truss_nodes[t]@.contains(a) && #[trigger] truss_nodes[s]@.contains(b)
            ==> !connected(nodes, none, cut, a, b)
    &&& forall|a: NodeId, b: NodeId|
        a != b && #[trigger] joined(nodes, cut, a, b) ==> exists|t: int|
            0 <= t < truss_nodes.len() && #[trigger] truss_nodes[t]@.contains(a)
}

/// Whether `truss_nodes` are the connected components of the `k`-truss and
/// `trusses` lists for each its edges. Each of these edges takes part in at
/// least `k - 2` triangles of edges of the `k`-truss.
pub open spec fn are_trusses<N: NodeBase>(
    nodes: Map<i64, N>,
    k: nat,
    trusses: Seq<Vec<(NodeId, NodeId)>>,
    truss_nodes: Seq<Vec<NodeId>>,
) -> bool {
    &&& are_truss_parts(nodes, truss_cut(nodes, k), trusses, truss_nodes)
    &&& forall|t: int, j: int|
        0 <= t < trusses.len() && 0 <= j < trusses[t]@.len() ==> support(
            nodes,
            truss_cut(nodes, k),
            (#[trigger] trusses[t]@[j]).0,
            trusses[t]@[j].1,
        ) + 2 >= k
}

/// Lists the edges of node `a` that are kept and lead to a larger
/// identifier.
pub fn collect_node_links<G: GraphBase>(g: &G, a: NodeId, cut: &HashSet<u128>) -> (r: Vec<(NodeId, NodeId)>)
    requires
        g.nodes_view().contains_key(a.id),
    ensures
        r@ == node_links(cut@, a, distinct(g.nodes_view()[a.id].edges_view())),
{
    let around: Vec<NodeId> = g.get_node(a).get_neighbor_ids();
    let mut links: Vec<(NodeId, NodeId)> = Vec::new();
    let mut j: usize = 0;
    while j < around.len()
        invariant
            j <= around.len(),
            links@ == node_links(cut@, a, around@.subrange(0, j as int)),
        decreases around.len() - j,
    {
        let b: NodeId = around[j];
        assert(around@.subrange(0, j + 1).drop_last() =~= around@.subrange(0, j as int));
        if a.value() < b.value() && !is_ignored_edge(Some(cut), a, b) {
            links.push((a, b));
        }
        j += 1;
    }
    assert(around@.subrange(0, around.len() as int) =~= around@);
    links
}

/// Lists the edges among the nodes of `part` that are kept.
pub fn collect_part_links<G: GraphBase>(g: &G, part: &Vec<NodeId>, cut: &HashSet<u128>) -> (r: Vec<
    (NodeId, NodeId),
>)
    requires
        forall|i: int| 0 <= i < part@.len() ==> g.nodes_view().contains_key(#[trigger] part@[i].id),
    ensures
        r@ == part_links(g.nodes_view(), cut@, part@),
{
    let mut links: Vec<(NodeId, NodeId)> = Vec::new();
    let mut i: usize = 0;
    while i < part.len()
        invariant
            i <= part.len(),
            forall|i: int| 0 <= i < part@.len() ==> g.nodes_view().contains_key(#[trigger] part@[i].id),
            links@ == part_links(g.nodes_view(), cut@, part@.subrange(0, i as int)),
        decreases part.len() - i,
    {
        let mut more: Vec<(NodeId, NodeId)> = collect_node_links(g, part[i], cut);
        assert(part@.subrange(0, i + 1).drop_last() =~= part@.subrange(0, i as int));
        links.append(&mut more);
        i += 1;
    }
    assert(part@.subrange(0, part.len() as int) =~= part@);
    links
}

/// A node with a kept edge to a larger identifier has a link.
pub proof fn lemma_node_links_found(cut: Set<u128>, a: NodeId, around: Seq<NodeId>, b: NodeId)
    requires
        around.contains(b),
        a.id < b.id,
        !is_cut(cut, a, b),
    ensures
        node_links(cut, a, around).len() > 0,
    decreases around.len(),
{
    if around.last() != b {
        let i = choose|i: int| 0 <= i < around.len() && around[i] == b;
        assert(around.drop_last()[i] == b);
        lemma_node_links_found(cut, a, around.drop_last(), b);
    }
}

/// A part with a node that has a link has links.
pub proof fn lemma_part_links_found<N: NodeBase>(
    nodes: Map<i64, N>,
    cut: Set<u128>,
    part: Seq<NodeId>,
    a: NodeId,
    b: NodeId,
)
    requires
        part.contains(a),
        nodes[a.id].edges_view().contains(b),
        a.id < b.id,
        !is_cut(cut, a, b),
    ensures
        part_links(nodes, cut, part).len() > 0,
    decreases part.len(),
{
    if part.last() == a {
        lemma_distinct_properties(nodes[a.id].edges_view());
        lemma_node_links_found(cut, a, distinct(nodes[a.id].edges_view()), b);
    } else {
        let i = choose|i: int| 0 <= i < part.len() && part[i] == a;
        assert(part.drop_last()[i] == a);
        lemma_part_links_found(nodes, cut, part.drop_last(), a, b);
    }
}

/// Links depend on the edges to ignore only as far as these are edges of
/// the node.
pub proof fn lemma_node_links_agree(one: Set<u128>, other: Set<u128>, a: NodeId, around: Seq<NodeId>)
    requires
        forall|j: int| 0 <= j < around.len() ==> (is_cut(one, a, #[trigger] around[j]) <==> is_cut(
            other,
            a,
            around[j],
        )),
    ensures
        node_links(one, a, around) == node_links(other, a, around),
    decreases around.len(),
{
    if around.len() > 0 {
        let shorter = around.drop_last();
        assert forall|j: int| 0 <= j < shorter.len() implies (is_cut(one, a, #[trigger] shorter[j])
            <==> is_cut(other, a, shorter[j])) by {
            assert(shorter[j] == around[j]);
        }
        lemma_node_links_agree(one, other, a, shorter);
        assert(around.last() == around[around.len() - 1]);
    }
}

/// The links of a part depend on the edges to ignore only as far as these
/// are edges of the graph.
pub proof fn lemma_part_links_agree<N: NodeBase>(
    nodes: Map<i64, N>,
    one: Set<u128>,
    other: Set<u128>,
    part: Seq<NodeId>,
)
    requires
        forall|a: NodeId, b: NodeId| #[trigger] joined(nodes, one, a, b) <==> joined(nodes, other, a, b),
        forall|i: int| 0 <= i < part.len() ==> nodes.contains_key(#[trigger] part[i].id),
        forall|k: i64, j: int|
            nodes.contains_key(k) && 0 <= j < nodes[k].edges_view().len() ==> nodes.contains_key(
                #[trigger] nodes[k].edges_view()[j].id,
            ),
    ensures
        part_links(nodes, one, part) == part_links(nodes, other, part),
    decreases part.len(),
{
    if part.len() > 0 {
        let shorter = part.drop_last();
        assert forall|i: int| 0 <= i < shorter.len() implies nodes.contains_key(#[trigger] shorter[i].id) by {
            assert(shorter[i] == part[i]);
        }
        lemma_part_links_agree(nodes, one, other, shorter);
        let a = part.last();
        assert(a == part[part.len() - 1]);
        let edges = nodes[a.id].edges_view();
        let around = distinct(edges);
        lemma_distinct_properties(edges);
        assert forall|j: int| 0 <= j < around.len() implies (is_cut(one, a, #[trigger] around[j])
            <==> is_cut(other, a, around[j])) by {
            let b = around[j];
            assert(around.contains(b));
            assert(edges.contains(b));
            let at = choose|at: int| 0 <= at < edges.len() && edges[at] == b;
            assert(nodes.contains_key(nodes[a.id].edges_view()[at].id));
            assert(joined(nodes, one, a, b) <==> joined(nodes, other, a, b));
        }
        lemma_node_links_agree(one, other, a, around);
    }
}

/// Every link of a node leads from it to a neighbor with a larger
/// identifier, by an edge that is kept.
pub proof fn lemma_node_links_members(cut: Set<u128>, a: NodeId, around: Seq<NodeId>, j: int)
    requires
        0 <= j < node_links(cut, a, around).len(),
    ensures
        node_links(cut, a, around)[j].0 == a,
        around.contains(node_links(cut, a, around)[j].1),
        a.id < node_links(cut, a, around)[j].1.id,
        !is_cut(cut, a, node_links(cut, a, around)[j].1),
    decreases around.len(),
{
    let shorter = around.drop_last();
    let before = node_links(cut, a, shorter);
    if j < before.len() {
        lemma_node_links_members(cut, a, shorter, j);
        let b = before[j].1;
        let i = choose|i: int| 0 <= i < shorter.len() && shorter[i] == b;
        assert(around[i] == b);
    } else {
        assert(around[around.len() - 1] == around.last());
    }
}

/// Every link of a part leads from one of its nodes to a neighbor with a
/// larger identifier, by an edge that is kept.
pub proof fn lemma_part_links_members<N: NodeBase>(
    nodes: Map<i64, N>,
    cut: Set<u128>,
    part: Seq<NodeId>,
    j: int,
)
    requires
        0 <= j < part_links(nodes, cut, part).len(),
    ensures
        part.contains(part_links(nodes, cut, part)[j].0),
        nodes[part_links(nodes, cut, part)[j].0.id].edges_view().contains(
            part_links(nodes, cut, part)[j].1,
        ),
        part_links(nodes, cut, part)[j].0.id < part_links(nodes, cut, part)[j].1.id,
        !is_cut(cut, part_links(nodes, cut, part)[j].0, part_links(nodes, cut, part)[j].1),
    decreases part.len(),
{
    let shorter = part.drop_last();
    let before = part_links(nodes, cut, shorter);
    if j < before.len() {
        lemma_part_links_members(nodes, cut, shorter, j);
        let a = before[j].0;
        let i = choose|i: int| 0 <= i < shorter.len() && shorter[i] == a;
        assert(part[i] == a);
    } else {
        let a = part.last();
        assert(part[part.len() - 1] == a);
        lemma_distinct_properties(nodes[a.id].edges_view());
        lemma_node_links_members(cut, a, distinct(nodes[a.id].edges_view()), j - before.len());
    }
}

/// What is picked out of the components, with the places it was picked
/// from, is what `are_truss_parts` asks for.
pub proof fn lemma_assembled<N: NodeBase>(
    nodes: Map<i64, N>,
    cut: Set<u128>,
    parts: Seq<Vec<NodeId>>,
    trusses: Seq<Vec<(NodeId, NodeId)>>,
    truss_nodes: Seq<Vec<NodeId>>,
    origin: Seq<int>,
)
    requires
        mutual(nodes),
        are_components(nodes, Set::<i64>::empty(), cut, parts),
        trusses.len() == truss_nodes.len(),
        origin.len() == truss_nodes.len(),
        forall|t: int| 0 <= t < origin.len() ==> 0 <= #[trigger] origin[t] < parts.len(),
        forall|t: int, s: int| 0 <= t < s < origin.len() ==> #[trigger] origin[t] < #[trigger] origin[s],
        forall|t: int|
            0 <= t < truss_nodes.len() ==> (#[trigger] truss_nodes[t])@ == parts[origin[t]]@,
        forall|t: int|
            0 <= t < truss_nodes.len() ==> (#[trigger] trusses[t])@ == part_links(
                nodes,
                cut,
                truss_nodes[t]@,
            ) && trusses[t]@.len() > 0,
        forall|p: int|
            0 <= p < parts.len() && part_links(nodes, cut, (#[trigger] parts[p])@).len() > 0
                ==> exists|t: int| 0 <= t < origin.len() && #[trigger] origin[t] == p,
    ensures
        are_truss_parts(nodes, cut, trusses, truss_nodes),
{
    let none = Set::<i64>::empty();
    assert forall|t: int| 0 <= t < truss_nodes.len() implies (#[trigger] truss_nodes[t])@.no_duplicates() by {
        assert(parts[origin[t]]@.no_duplicates());
    }
    assert forall|t: int, a: NodeId, b: NodeId|
        0 <= t < truss_nodes.len() && #[trigger] truss_nodes[t]@.contains(a)
            && #[trigger] truss_nodes[t]@.contains(b) implies connected(nodes, none, cut, a, b) by {
        let p = origin[t];
        assert(parts[p]@.contains(a) && parts[p]@.contains(b));
    }
    assert forall|t: int, s: int, a: NodeId, b: NodeId|
        0 <= t < truss_nodes.len() && 0 <= s < truss_nodes.len() && t != s
            && #[trigger] truss_nodes[t]@.contains(a) && #[trigger] truss_nodes[s]@.contains(
            b,
        ) implies !connected(nodes, none, cut, a, b) by {
        let p = origin[t];
        let q = origin[s];
        if t < s {
            assert(origin[t] < origin[s]);
        } else {
            assert(origin[s] < origin[t]);
        }
        assert(parts[p]@.contains(a) && parts[q]@.contains(b));
    }
    assert forall|a: NodeId, b: NodeId| a != b && #[trigger] joined(nodes, cut, a, b) implies exists|t: int|
        0 <= t < truss_nodes.len() && #[trigger] truss_nodes[t]@.contains(a) by {
        assert(standing(nodes, none, a));
        let p = choose|p: int| 0 <= p < parts.len() && (#[trigger] parts[p])@.contains(a);
        assert(standing(nodes, none, b));
        let q = choose|q: int| 0 <= q < parts.len() && (#[trigger] parts[q])@.contains(b);
        lemma_connected_reflexive(nodes, none, cut, a);
        lemma_connected_step(nodes, none, cut, a, a, b);
        if p != q {
            assert(parts[p]@.contains(a) && parts[q]@.contains(b));
            assert(!connected(nodes, none, cut, a, b));
        }
        assert(a == NodeId { id: a.id });
        assert(b == NodeId { id: b.id });
        if a.id < b.id {
            lemma_part_links_found(nodes, cut, parts[p]@, a, b);
        } else {
            assert(nodes[a.id].edges_view().contains(b));
            assert(nodes[b.id].edges_view().contains(a));
            lemma_part_links_found(nodes, cut, parts[p]@, b, a);
        }
        let t = choose|t: int| 0 <= t < origin.len() && #[trigger] origin[t] == p;
        assert(truss_nodes[t]@.contains(a));
    }
}

/// Two nodes of one component are connected.
pub proof fn lemma_members_connected<N: NodeBase>(
    nodes: Map<i64, N>,
    avoid: Set<i64>,
    cut: Set<u128>,
    parts: Seq<Vec<NodeId>>,
    c: int,
    a: NodeId,
    b: NodeId,
)
    requires
        are_components(nodes, avoid, cut, parts),
        0 <= c < parts.len(),
        parts[c]@.contains(a),
        parts[c]@.contains(b),
    ensures
        connected(nodes, avoid, cut, a, b),
{
}

/// Picks the components that hold an edge, and lists the edges of each.
pub fn assemble_trusses<G: UndirectedGraph>(g: &G, parts: &Vec<Vec<NodeId>>, cut: &HashSet<u128>) -> (r: (
    Vec<Vec<(NodeId, NodeId)>>,
    Vec<Vec<NodeId>>,
))
    requires
        g.wf(),
        are_components(g.nodes_view(), Set::<i64>::empty(), cut@, parts@),
    ensures
        are_truss_parts(g.nodes_view(), cut@, r.0@, r.1@),
{
    let ghost nodes = g.nodes_view();
    let ghost none = Set::<i64>::empty();
    let mut trusses: Vec<Vec<(NodeId, NodeId)>> = Vec::new();
    let mut truss_nodes: Vec<Vec<NodeId>> = Vec::new();
    let ghost mut origin: Seq<int> = Seq::empty();
    proof {
        lemma_mutual(g);
    }
    let mut i: usize = 0;
    while i < parts.len()
        invariant
            i <= parts.len(),
            nodes == g.nodes_view(),
            none == Set::<i64>::empty(),
            are_components(nodes, none, cut@, parts@),
            trusses@.len() == truss_nodes@.len(),
            origin.len() == truss_nodes@.len(),
            forall|t: int| 0 <= t < origin.len() ==> 0 <= #[trigger] origin[t] < i,
            forall|t: int, s: int| 0 <= t < s < origin.len() ==> #[trigger] origin[t] < #[trigger] origin[s],
            forall|t: int|
                0 <= t < truss_nodes@.len() ==> (#[trigger] truss_nodes@[t])@ == parts@[origin[t]]@,
            forall|t: int|
                0 <= t < truss_nodes@.len() ==> (#[trigger] trusses@[t])@ == part_links(
                    nodes,
                    cut@,
                    truss_nodes@[t]@,
                ) && trusses@[t]@.len() > 0,
            forall|p: int|
                0 <= p < i && part_links(nodes, cut@, (#[trigger] parts@[p])@).len() > 0 ==> exists|t: int|
                    0 <= t < origin.len() && #[trigger] origin[t] == p,
        decreases parts.len() - i,
    {
        let part: &Vec<NodeId> = &parts[i];
        proof {
            assert forall|j: int| 0 <= j < part@.len() implies nodes.contains_key(#[trigger] part@[j].id) by {
                let a = part@[j];
                assert(*part == parts@[i as int]);
                assert(part@.contains(a));
                assert(parts@[i as int]@.contains(a));
                lemma_members_connected(nodes, none, cut@, parts@, i as int, a, a);
                lemma_connected_stands(nodes, none, cut@, part@[j], part@[j]);
            }
        }
        let links: Vec<(NodeId, NodeId)> = collect_part_links(g, part, cut);
        if links.len() > 0 {
            let mut members: Vec<NodeId> = Vec::new();
            append_ids(&mut members, part);
            let ghost old_origin = origin;
            trusses.push(links);
            truss_nodes.push(members);
            proof {
                origin = origin.push(i as int);
                assert forall|p: int|
                    0 <= p < i + 1 && part_links(nodes, cut@, (#[trigger] parts@[p])@).len() > 0 implies exists|
                    t: int,
                | 0 <= t < origin.len() && #[trigger] origin[t] == p by {
                    if p < i {
                        let t = choose|t: int| 0 <= t < old_origin.len() && #[trigger] old_origin[t] == p;
                        assert(origin[t] == p);
                    } else {
                        assert(origin[origin.len() - 1] == p);
                    }
                }
            }
        }
        i += 1;
    }
    proof {
        lemma_assembled(nodes, cut@, parts@, trusses@, truss_nodes@, origin);
    }
    (trusses, truss_nodes)
}

/// The edges that peeling keeps are those that the set of edges outside the
/// `k`-truss keeps.
pub proof fn lemma_peeled_is_truss_cut<N: NodeBase>(
    nodes: Map<i64, N>,
    cut: Set<u128>,
    k: nat,
    a: NodeId,
    b: NodeId,
)
    requires
        mutual(nodes),
        is_truss(nodes, cut, k),
        cut_is_sound(nodes, cut, k),
    ensures
        joined(nodes, cut, a, b) <==> joined(nodes, truss_cut(nodes, k), a, b),
        joined(nodes, cut, a, b) ==> in_truss(nodes, k, a, b),
{
    let canon = truss_cut(nodes, k);
    if joined(nodes, cut, a, b) {
        assert(in_truss(nodes, k, a, b)) by {
            reveal(in_truss);
        }
        lemma_in_truss_symmetric(nodes, k, a, b);
        if is_cut(canon, a, b) {
            if canon.contains(edge_key(a.id, b.id)) {
                let (u, v) = choose|u: NodeId, v: NodeId|
                    edge_key(a.id, b.id) == edge_key(u.id, v.id) && !in_truss(nodes, k, u, v);
                lemma_edge_key_injective(a.id, b.id, u.id, v.id);
                assert(u == a && v == b);
            } else {
                let (u, v) = choose|u: NodeId, v: NodeId|
                    edge_key(b.id, a.id) == edge_key(u.id, v.id) && !in_truss(nodes, k, u, v);
                lemma_edge_key_injective(b.id, a.id, u.id, v.id);
                assert(u == b && v == a);
            }
        }
    }
    if joined(nodes, canon, a, b) {
        if !in_truss(nodes, k, a, b) {
            assert(canon.contains(edge_key(a.id, b.id)));
        }
        if is_cut(cut, a, b) {
            assert(!in_truss(nodes, k, a, b));
        }
    }
}

/// What was assembled from the edges that peeling keeps are the trusses.
pub proof fn lemma_trusses_canonical<N: NodeBase>(
    nodes: Map<i64, N>,
    ids: Seq<NodeId>,
    cut: Set<u128>,
    k: nat,
    trusses: Seq<Vec<(NodeId, NodeId)>>,
    truss_nodes: Seq<Vec<NodeId>>,
)
    requires
        well_formed(nodes, ids),
        mutual(nodes),
        is_truss(nodes, cut, k),
        cut_is_sound(nodes, cut, k),
        are_truss_parts(nodes, cut, trusses, truss_nodes),
    ensures
        are_trusses(nodes, k, trusses, truss_nodes),
{
    let none = Set::<i64>::empty();
    let canon = truss_cut(nodes, k);
    assert forall|a: NodeId, b: NodeId| #[trigger] joined(nodes, cut, a, b) <==> joined(nodes, canon, a, b) by {
        lemma_peeled_is_truss_cut(nodes, cut, k, a, b);
    }
    assert forall|a: NodeId, b: NodeId| #[trigger] linked(nodes, none, cut, a, b) implies linked(
        nodes,
        none,
        canon,
        a,
        b,
    ) by {
        assert(joined(nodes, cut, a, b) <==> joined(nodes, canon, a, b));
    }
    assert forall|a: NodeId, b: NodeId| #[trigger] linked(nodes, none, canon, a, b) implies linked(
        nodes,
        none,
        cut,
        a,
        b,
    ) by {
        assert(joined(nodes, cut, a, b) <==> joined(nodes, canon, a, b));
    }
    assert forall|t: int| 0 <= t < truss_nodes.len() implies (#[trigger] trusses[t])@ == part_links(
        nodes,
        canon,
        truss_nodes[t]@,
    ) && trusses[t]@.len() > 0 by {
        let part = truss_nodes[t]@;
        assert forall|i: int| 0 <= i < part.len() implies nodes.contains_key(#[trigger] part[i].id) by {
            assert(truss_nodes[t]@.contains(part[i]));
            assert(connected(nodes, none, cut, part[i], part[i]));
            lemma_connected_stands(nodes, none, cut, part[i], part[i]);
        }
        lemma_part_links_agree(nodes, cut, canon, part);
    }
    assert forall|t: int, a: NodeId, b: NodeId|
        0 <= t < truss_nodes.len() && #[trigger] truss_nodes[t]@.contains(a)
            && #[trigger] truss_nodes[t]@.contains(b) implies connected(nodes, none, canon, a, b) by {
        lemma_connected_agree_cut(nodes, none, cut, canon, a, b);
    }
    assert forall|t: int, s: int, a: NodeId, b: NodeId|
        0 <= t < truss_nodes.len() && 0 <= s < truss_nodes.len() && t != s
            && #[trigger] truss_nodes[t]@.contains(a) && #[trigger] truss_nodes[s]@.contains(
            b,
        ) implies !connected(nodes, none, canon, a, b) by {
        if connected(nodes, none, canon, a, b) {
            lemma_connected_agree_cut(nodes, none, canon, cut, a, b);
        }
    }
    assert forall|a: NodeId, b: NodeId| a != b && #[trigger] joined(nodes, canon, a, b) implies exists|t: int|
        0 <= t < truss_nodes.len() && #[trigger] truss_nodes[t]@.contains(a) by {
        assert(joined(nodes, cut, a, b));
    }
    assert forall|t: int, j: int| 0 <= t < trusses.len() && 0 <= j < trusses[t]@.len() implies support(
        nodes,
        canon,
        (#[trigger] trusses[t]@[j]).0,
        trusses[t]@[j].1,
    ) + 2 >= k by {
        let part = truss_nodes[t]@;
        assert(trusses[t]@ == part_links(nodes, cut, part));
        lemma_part_links_members(nodes, cut, part, j);
        let a = trusses[t]@[j].0;
        let b = trusses[t]@[j].1;
        assert(truss_nodes[t]@.contains(a));
        assert(connected(nodes, none, cut, a, a));
        lemma_connected_stands(nodes, none, cut, a, a);
        let edges = nodes[a.id].edges_view();
        let at = choose|at: int| 0 <= at < edges.len() && edges[at] == b;
        assert(nodes.contains_key(nodes[a.id].edges_view()[at].id));
        assert(joined(nodes, cut, a, b));
        lemma_support_monotone(nodes, cut, canon, a, b);
    }
}

} // verus!
