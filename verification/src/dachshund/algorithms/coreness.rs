//! Cores and core numbers.

use vstd::prelude::*;
use vstd::set_lib::{lemma_len_subset, lemma_subset_equality};
use std::collections::HashMap;
use std::collections::HashSet;
use crate::dachshund::algorithms::connected_components::{
    are_components, lemma_components_agree, lemma_connected_stands, standing,
    ConnectedComponentsUndirected,
};
pub use crate::dachshund::algorithms::ranking::averaged_ties_ranking;
use crate::dachshund::algorithms::connected_components::lemma_mutual;
use crate::dachshund::algorithms::truss::{
    are_trusses, assemble_trusses, lemma_trusses_canonical, peel_truss,
};
use crate::dachshund::counting::{
    lemma_ties_agree, lemma_ties_bound, lemma_ties_monotone, lemma_ties_split, ties,
};
use crate::dachshund::graph_base::{
    degree_sum, lemma_degree_bound, lemma_node_count, well_formed, GraphBase,
};
use crate::dachshund::id_types::NodeId;
use crate::dachshund::node::{append_ids, NodeBase};
use crate::dachshund::simple_undirected_graph::UndirectedGraph;
use crate::dachshund::sums::{lemma_sum_change_at, lemma_sum_monotone, sum_to};

verus! {

/// Whether every node of `inside` is a node of the graph outside `base`
/// with at least `k` half-edges into `inside`.
pub open spec fn is_dense<N: NodeBase>(
    nodes: Map<i64, N>,
    base: Set<i64>,
    inside: Set<i64>,
    k: nat,
) -> bool {
    forall|v: i64| #[trigger]
        inside.contains(v) ==> nodes.contains_key(v) && !base.contains(v) && ties(
            nodes[v].edges_view(),
            inside,
        ) >= k
}

/// Whether `v` lies in the `k`-core of the graph without the nodes of
/// `base`: the largest set of nodes outside `base` in which each has at
/// least `k` half-edges into the set.
#[verifier::opaque]
pub open spec fn in_core<N: NodeBase>(nodes: Map<i64, N>, base: Set<i64>, k: nat, v: i64) -> bool {
    exists|inside: Set<i64>| is_dense(nodes, base, inside, k) && inside.contains(v)
}

/// The integers that are not nodes of the `k`-core of the graph without the
/// nodes of `base`.
pub open spec fn outside_core<N: NodeBase>(nodes: Map<i64, N>, base: Set<i64>, k: nat) -> Set<i64> {
    Set::new(|v: i64| !in_core(nodes, base, k, v))
}

/// The number of half-edges among `edges` that lead to nodes not removed.
pub open spec fn live_degree(edges: Seq<NodeId>, removed: Set<i64>) -> int {
    edges.len() - ties(edges, removed)
}

/// The half-edges of the nodes not removed, summed over the first `m`
/// identifiers.
pub open spec fn live_sum<N: NodeBase>(
    nodes: Map<i64, N>,
    ids: Seq<NodeId>,
    removed: Set<i64>,
    m: int,
) -> int {
    sum_to(
        |i: int|
            if removed.contains(ids[i].id) {
                0int
            } else {
                nodes[ids[i].id].edges_view().len() as int
            },
        m,
    )
}

/// The cores are nested: the core of a larger `k` lies in that of a smaller.
pub proof fn lemma_core_nested<N: NodeBase>(nodes: Map<i64, N>, base: Set<i64>, k: nat, v: i64)
    requires
        in_core(nodes, base, k + 1, v),
    ensures
        in_core(nodes, base, k, v),
{
    reveal(in_core);
    let inside = choose|inside: Set<i64>| is_dense(nodes, base, inside, k + 1) && inside.contains(v);
    assert(is_dense(nodes, base, inside, k));
}

/// Every node outside `base` lies in the core of zero, and a node of a core
/// is a node outside `base`.
pub proof fn lemma_core_of_zero<N: NodeBase>(nodes: Map<i64, N>, base: Set<i64>, v: i64)
    ensures
        nodes.contains_key(v) && !base.contains(v) ==> in_core(nodes, base, 0, v),
        forall|k: nat| in_core(nodes, base, k, v) ==> nodes.contains_key(v) && !base.contains(v),
{
    reveal(in_core);
    let all = Set::new(|w: i64| nodes.contains_key(w) && !base.contains(w));
    assert(is_dense(nodes, base, all, 0));
    if nodes.contains_key(v) && !base.contains(v) {
        assert(all.contains(v));
    }
    assert forall|k: nat| in_core(nodes, base, k, v) implies nodes.contains_key(v) && !base.contains(
        v,
    ) by {
        let inside = choose|inside: Set<i64>| is_dense(nodes, base, inside, k) && inside.contains(v);
        assert(inside.contains(v));
    }
}

/// A node of the `k`-core has at least `k` half-edges.
pub proof fn lemma_core_degree<N: NodeBase>(nodes: Map<i64, N>, base: Set<i64>, k: nat, v: i64)
    requires
        in_core(nodes, base, k, v),
    ensures
        k <= nodes[v].edges_view().len(),
{
    reveal(in_core);
    let inside = choose|inside: Set<i64>| is_dense(nodes, base, inside, k) && inside.contains(v);
    assert(inside.contains(v));
    lemma_ties_bound(nodes[v].edges_view(), inside);
}

/// The cores depend on the nodes left out only as far as these are nodes of
/// the graph.
pub proof fn lemma_core_agree<N: NodeBase>(
    nodes: Map<i64, N>,
    one: Set<i64>,
    other: Set<i64>,
    k: nat,
    v: i64,
)
    requires
        forall|w: i64| #[trigger] nodes.contains_key(w) ==> (one.contains(w) <==> other.contains(w)),
    ensures
        in_core(nodes, one, k, v) == in_core(nodes, other, k, v),
{
    reveal(in_core);
    if in_core(nodes, one, k, v) {
        let inside = choose|inside: Set<i64>| is_dense(nodes, one, inside, k) && inside.contains(v);
        assert(is_dense(nodes, other, inside, k));
    }
    if in_core(nodes, other, k, v) {
        let inside = choose|inside: Set<i64>| is_dense(nodes, other, inside, k) && inside.contains(v);
        assert(is_dense(nodes, one, inside, k));
    }
}

/// Leaving out, beside `base`, nodes outside the `k`-core does not change
/// the `k`-core.
pub proof fn lemma_core_rebase<N: NodeBase>(
    nodes: Map<i64, N>,
    base: Set<i64>,
    removed: Set<i64>,
    k: nat,
    v: i64,
)
    requires
        forall|w: i64| base.contains(w) ==> removed.contains(w),
        forall|w: i64| removed.contains(w) ==> !in_core(nodes, base, k, w),
    ensures
        in_core(nodes, removed, k, v) == in_core(nodes, base, k, v),
{
    reveal(in_core);
    if in_core(nodes, removed, k, v) {
        let inside = choose|inside: Set<i64>| is_dense(nodes, removed, inside, k) && inside.contains(v);
        assert(is_dense(nodes, base, inside, k));
    }
    if in_core(nodes, base, k, v) {
        let inside = choose|inside: Set<i64>| is_dense(nodes, base, inside, k) && inside.contains(v);
        assert forall|w: i64| #[trigger] inside.contains(w) implies nodes.contains_key(w)
            && !removed.contains(w) && ties(nodes[w].edges_view(), inside) >= k by {
            assert(in_core(nodes, base, k, w));
        }
        assert(is_dense(nodes, removed, inside, k));
    }
}

/// A node with fewer than `k` half-edges to nodes not removed is not in the
/// `k`-core, where no removed node is.
pub proof fn lemma_removal_sound<N: NodeBase>(
    nodes: Map<i64, N>,
    base: Set<i64>,
    removed: Set<i64>,
    k: nat,
    v: i64,
)
    requires
        forall|w: i64| removed.contains(w) ==> !in_core(nodes, base, k, w),
        live_degree(nodes[v].edges_view(), removed) < k,
    ensures
        !in_core(nodes, base, k, v),
{
    reveal(in_core);
    if in_core(nodes, base, k, v) {
        let inside = choose|inside: Set<i64>| is_dense(nodes, base, inside, k) && inside.contains(v);
        let edges = nodes[v].edges_view();
        let kept = Set::new(|w: i64| !removed.contains(w));
        assert(inside.contains(v));
        assert forall|j: int| 0 <= j < edges.len() && inside.contains(#[trigger] edges[j].id) implies kept.contains(
            edges[j].id,
        ) by {
            let w = edges[j].id;
            assert(inside.contains(w));
            assert(in_core(nodes, base, k, w));
        }
        lemma_ties_monotone(edges, inside, kept);
        lemma_ties_split(edges, kept, removed);
    }
}

/// Where every node not removed has at least `k` half-edges to nodes not
/// removed, these nodes are all in the `k`-core.
pub proof fn lemma_survivors_dense<N: NodeBase>(
    nodes: Map<i64, N>,
    ids: Seq<NodeId>,
    base: Set<i64>,
    removed: Set<i64>,
    k: nat,
    v: i64,
)
    requires
        well_formed(nodes, ids),
        forall|w: i64| base.contains(w) ==> removed.contains(w),
        forall|w: i64|
            nodes.contains_key(w) && !removed.contains(w) ==> live_degree(
                #[trigger] nodes[w].edges_view(),
                removed,
            ) >= k,
        nodes.contains_key(v),
        !removed.contains(v),
    ensures
        in_core(nodes, base, k, v),
{
    reveal(in_core);
    let kept = Set::new(|w: i64| nodes.contains_key(w) && !removed.contains(w));
    assert forall|w: i64| #[trigger] kept.contains(w) implies nodes.contains_key(w) && !base.contains(
        w,
    ) && ties(nodes[w].edges_view(), kept) >= k by {
        let edges = nodes[w].edges_view();
        assert forall|j: int| 0 <= j < edges.len() implies (kept.contains(#[trigger] edges[j].id)
            <==> !removed.contains(edges[j].id)) by {
            assert(nodes.contains_key(nodes[w].edges_view()[j].id));
        }
        lemma_ties_split(edges, kept, removed);
        assert(live_degree(nodes[w].edges_view(), removed) >= k);
    }
    assert(is_dense(nodes, base, kept, k));
    assert(kept.contains(v));
}

/// Removing a node takes its half-edges out of the sum of those of the nodes
/// not removed.
pub proof fn lemma_live_sum_remove<N: NodeBase>(
    nodes: Map<i64, N>,
    ids: Seq<NodeId>,
    removed: Set<i64>,
    v: i64,
)
    requires
        well_formed(nodes, ids),
        nodes.contains_key(v),
        !removed.contains(v),
    ensures
        live_sum(nodes, ids, removed.insert(v), ids.len() as int) == live_sum(
            nodes,
            ids,
            removed,
            ids.len() as int,
        ) - nodes[v].edges_view().len(),
        live_sum(nodes, ids, removed.insert(v), ids.len() as int) >= 0,
{
    let n = ids.len() as int;
    let more = removed.insert(v);
    let f = |i: int|
        if removed.contains(ids[i].id) {
            0int
        } else {
            nodes[ids[i].id].edges_view().len() as int
        };
    let g = |i: int|
        if more.contains(ids[i].id) {
            0int
        } else {
            nodes[ids[i].id].edges_view().len() as int
        };
    let node = NodeId { id: v };
    assert(nodes.contains_key(node.id));
    assert(ids.contains(node));
    let at = choose|at: int| 0 <= at < ids.len() && ids[at] == node;
    let c = nodes[v].edges_view().len() as int;
    assert forall|i: int| 0 <= i < n implies #[trigger] f(i) == g(i) + if i == at { c } else { 0int } by {
        if ids[i].id == v {
            assert(ids[i] == node);
        }
    }
    lemma_sum_change_at(f, g, at, c, n);
    lemma_sum_monotone(g, 0, n);
}

/// Whether `coreness` gives each node of the graph outside `base` its core
/// number in the graph without the nodes of `base`: the largest `k` for
/// which the node lies in the `k`-core.
pub open spec fn are_core_numbers<N: NodeBase>(
    nodes: Map<i64, N>,
    base: Set<i64>,
    coreness: Map<i64, usize>,
) -> bool {
    &&& forall|v: i64| #[trigger] coreness.contains_key(v) <==> nodes.contains_key(v) && !base.contains(v)
    &&& forall|v: i64| #[trigger]
        coreness.contains_key(v) ==> in_core(nodes, base, coreness[v] as nat, v) && !in_core(
            nodes,
            base,
            (coreness[v] + 1) as nat,
            v,
        )
}

/// Whether `cores` lists the cores of the graph without the nodes of `base`:
/// at place `i` the connected components of the core of `i + 1`, up to and
/// with the first core that is empty. Where `base` leaves no node, the list
/// is empty.
pub open spec fn are_cores<N: NodeBase>(
    nodes: Map<i64, N>,
    base: Set<i64>,
    cores: Seq<Vec<Vec<NodeId>>>,
) -> bool {
    &&& forall|i: int|
        0 <= i < cores.len() ==> are_components(
            nodes,
            outside_core(nodes, base, (i + 1) as nat),
            Set::<u128>::empty(),
            (#[trigger] cores[i])@,
        )
    &&& forall|i: int| 0 <= i < cores.len() ==> ((#[trigger] cores[i])@.len() == 0 <==> i == cores.len() - 1)
    &&& cores.len() == 0 <==> forall|v: i64| #[trigger] nodes.contains_key(v) ==> base.contains(v)
}

/// What holds of the core numbers when the cores up to `k` are known: a node
/// of the `k`-core has the number `k`, and every other node its final number.
pub open spec fn stage_done<N: NodeBase>(
    nodes: Map<i64, N>,
    base: Set<i64>,
    coreness: Map<i64, usize>,
    removed: Set<i64>,
    k: nat,
) -> bool {
    &&& forall|v: i64| removed.contains(v) ==> nodes.contains_key(v)
    &&& forall|v: i64| base.contains(v) ==> removed.contains(v)
    &&& forall|v: i64| #[trigger]
        nodes.contains_key(v) ==> (removed.contains(v) <==> !in_core(nodes, base, k, v))
    &&& forall|v: i64| #[trigger] coreness.contains_key(v) <==> nodes.contains_key(v) && !base.contains(v)
    &&& forall|v: i64| #[trigger]
        coreness.contains_key(v) ==> {
            &&& coreness[v] <= k
            &&& in_core(nodes, base, coreness[v] as nat, v)
            &&& coreness[v] < k ==> !in_core(nodes, base, (coreness[v] + 1) as nat, v)
            &&& !removed.contains(v) ==> coreness[v] == k
        }
}

/// What holds of the list of cores while it grows: each entry holds the
/// components of its core, and only the last may be empty, which it is when
/// every node has been removed.
pub open spec fn cores_so_far<N: NodeBase>(
    nodes: Map<i64, N>,
    base: Set<i64>,
    cores: Seq<Vec<Vec<NodeId>>>,
    removed: Set<i64>,
) -> bool {
    &&& forall|i: int|
        0 <= i < cores.len() ==> are_components(
            nodes,
            outside_core(nodes, base, (i + 1) as nat),
            Set::<u128>::empty(),
            (#[trigger] cores[i])@,
        )
    &&& forall|i: int| 0 <= i < cores.len() - 1 ==> (#[trigger] cores[i])@.len() > 0
    &&& cores.len() >= 1 ==> (cores[cores.len() - 1]@.len() == 0 <==> removed.len() >= nodes.dom().len())
    &&& cores.len() >= 1 ==> exists|v: i64| #[trigger] nodes.contains_key(v) && !base.contains(v)
}

/// Whether `v` is listed in `ids` and not removed.
pub open spec fn is_left(ids: Seq<NodeId>, removed: Set<i64>, v: i64) -> bool {
    ids.contains(NodeId { id: v }) && !removed.contains(v)
}

/// Gives every node that is not removed the number `k`.
pub fn mark_core(ids: &Vec<NodeId>, removed: &HashSet<i64>, coreness: &mut HashMap<i64, usize>, k: usize)
    ensures
        forall|v: i64| #[trigger]
            final(coreness)@.contains_key(v) <==> old(coreness)@.contains_key(v) || is_left(
                ids@,
                removed@,
                v,
            ),
        forall|v: i64| #[trigger]
            final(coreness)@.contains_key(v) ==> final(coreness)@[v] == if is_left(ids@, removed@, v) {
                k
            } else {
                old(coreness)@[v]
            },
{
    let mut j: usize = 0;
    while j < ids.len()
        invariant
            j <= ids.len(),
            forall|v: i64| #[trigger]
                coreness@.contains_key(v) <==> old(coreness)@.contains_key(v) || is_left(
                    ids@.subrange(0, j as int),
                    removed@,
                    v,
                ),
            forall|v: i64| #[trigger]
                coreness@.contains_key(v) ==> coreness@[v] == if is_left(
                    ids@.subrange(0, j as int),
                    removed@,
                    v,
                ) {
                    k
                } else {
                    old(coreness)@[v]
                },
        decreases ids.len() - j,
    {
        let key: i64 = ids[j].value();
        let ghost shorter = ids@.subrange(0, j as int);
        let ghost longer = ids@.subrange(0, j + 1);
        let ghost before = coreness@;
        proof {
            assert(ids@[j as int] == NodeId { id: key });
            assert(longer[j as int] == NodeId { id: key });
            assert forall|v: i64| is_left(longer, removed@, v) <==> is_left(shorter, removed@, v) || (v
                == key && !removed@.contains(key)) by {
                let w = NodeId { id: v };
                if shorter.contains(w) {
                    let t = choose|t: int| 0 <= t < shorter.len() && shorter[t] == w;
                    assert(longer[t] == w);
                }
                if longer.contains(w) {
                    let t = choose|t: int| 0 <= t < longer.len() && longer[t] == w;
                    if t < j {
                        assert(shorter[t] == w);
                    }
                }
            }
        }
        if !removed.contains(&key) {
            coreness.insert(key, k);
        }
        proof {
            assert forall|v: i64| #[trigger]
                coreness@.contains_key(v) <==> old(coreness)@.contains_key(v) || is_left(
                    longer,
                    removed@,
                    v,
                ) by {
                assert(before.contains_key(v) <==> old(coreness)@.contains_key(v) || is_left(
                    shorter,
                    removed@,
                    v,
                ));
            }
            assert forall|v: i64| #[trigger] coreness@.contains_key(v) implies coreness@[v] == if is_left(
                longer,
                removed@,
                v,
            ) {
                k
            } else {
                old(coreness)@[v]
            } by {
                if v != key || removed@.contains(key) {
                    assert(before.contains_key(v));
                }
            }
        }
        j += 1;
    }
    assert(ids@.subrange(0, ids.len() as int) =~= ids@);
}

/// Before the first core is taken, the nodes of `base` are removed and each
/// other node has the number zero.
pub proof fn lemma_stage_zero<N: NodeBase>(
    nodes: Map<i64, N>,
    ids: Seq<NodeId>,
    base: Set<i64>,
    coreness: Map<i64, usize>,
)
    requires
        well_formed(nodes, ids),
        forall|v: i64| base.contains(v) ==> nodes.contains_key(v),
        forall|v: i64| #[trigger] coreness.contains_key(v) <==> is_left(ids, base, v),
        forall|v: i64| #[trigger] coreness.contains_key(v) ==> coreness[v] == 0,
    ensures
        stage_done(nodes, base, coreness, base, 0),
        cores_so_far(nodes, base, Seq::<Vec<Vec<NodeId>>>::empty(), base),
{
    assert forall|v: i64| coreness.contains_key(v) <==> nodes.contains_key(v) && !base.contains(v) by {
        let node = NodeId { id: v };
        assert(ids.contains(node) <==> nodes.contains_key(node.id));
        assert(coreness.contains_key(v) <==> is_left(ids, base, v));
    }
    assert forall|v: i64| #[trigger] coreness.contains_key(v) implies {
        &&& coreness[v] <= 0
        &&& in_core(nodes, base, coreness[v] as nat, v)
        &&& coreness[v] < 0 ==> !in_core(nodes, base, (coreness[v] + 1) as nat, v)
        &&& !base.contains(v) ==> coreness[v] == 0
    } by {
        lemma_core_of_zero(nodes, base, v);
    }
    assert forall|v: i64| #[trigger] nodes.contains_key(v) implies (base.contains(v) <==> !in_core(
        nodes,
        base,
        0,
        v,
    )) by {
        lemma_core_of_zero(nodes, base, v);
    }
}

/// While a node is left, the next core can be asked for: its number fits a
/// machine word, and no removed node lies in it.
pub proof fn lemma_stage_ready<N: NodeBase>(
    nodes: Map<i64, N>,
    ids: Seq<NodeId>,
    base: Set<i64>,
    coreness: Map<i64, usize>,
    removed: Set<i64>,
    k: nat,
)
    requires
        well_formed(nodes, ids),
        degree_sum(nodes, ids) % 2 == 0,
        nodes.dom().finite(),
        stage_done(nodes, base, coreness, removed, k),
        removed.len() < nodes.dom().len(),
    ensures
        k <= degree_sum(nodes, ids),
        k < usize::MAX,
        forall|w: i64| removed.contains(w) ==> !in_core(nodes, base, k + 1, w),
        exists|v: i64| #[trigger] nodes.contains_key(v) && !base.contains(v),
{
    assert(removed.subset_of(nodes.dom()));
    lemma_len_subset(removed, nodes.dom());
    if forall|v: i64| nodes.dom().contains(v) ==> removed.contains(v) {
        assert(nodes.dom().subset_of(removed));
        lemma_len_subset(nodes.dom(), removed);
    }
    let v = choose|v: i64| nodes.dom().contains(v) && !removed.contains(v);
    assert(nodes.contains_key(v));
    lemma_core_degree(nodes, base, k, v);
    let node = NodeId { id: v };
    assert(nodes.contains_key(node.id));
    let at = choose|at: int| 0 <= at < ids.len() && ids[at] == node;
    lemma_degree_bound(nodes, ids, at);
    assert(usize::MAX % 2 == 1) by {
        assert(usize::MAX == 0xffff_ffff || usize::MAX == 0xffff_ffff_ffff_ffff);
    }
    assert forall|w: i64| removed.contains(w) implies !in_core(nodes, base, k + 1, w) by {
        if in_core(nodes, base, k + 1, w) {
            lemma_core_nested(nodes, base, k, w);
            lemma_core_of_zero(nodes, base, w);
        }
    }
}

/// When the core of `k` has been taken and its nodes marked, the core
/// numbers are as far as `k`.
pub proof fn lemma_stage_step<N: NodeBase>(
    nodes: Map<i64, N>,
    ids: Seq<NodeId>,
    base: Set<i64>,
    old_coreness: Map<i64, usize>,
    coreness: Map<i64, usize>,
    old_removed: Set<i64>,
    removed: Set<i64>,
    k: nat,
)
    requires
        k >= 1,
        k <= usize::MAX,
        well_formed(nodes, ids),
        stage_done(nodes, base, old_coreness, old_removed, (k - 1) as nat),
        forall|w: i64| old_removed.contains(w) ==> !in_core(nodes, base, k, w),
        forall|v: i64|
            nodes.contains_key(v) ==> (removed.contains(v) <==> !in_core(nodes, old_removed, k, v)),
        forall|v: i64| !nodes.contains_key(v) ==> (removed.contains(v) <==> old_removed.contains(v)),
        forall|v: i64| #[trigger]
            coreness.contains_key(v) <==> old_coreness.contains_key(v) || is_left(ids, removed, v),
        forall|v: i64| #[trigger]
            coreness.contains_key(v) ==> coreness[v] == if is_left(ids, removed, v) {
                k as usize
            } else {
                old_coreness[v]
            },
    ensures
        stage_done(nodes, base, coreness, removed, k),
        forall|v: i64| nodes.contains_key(v) ==> (removed.contains(v) <==> !in_core(nodes, base, k, v)),
{
    assert forall|v: i64| nodes.contains_key(v) implies (removed.contains(v) <==> !in_core(
        nodes,
        base,
        k,
        v,
    )) by {
        lemma_core_rebase(nodes, base, old_removed, k, v);
    }
    assert forall|v: i64| base.contains(v) implies removed.contains(v) by {
        lemma_core_of_zero(nodes, base, v);
        assert(old_removed.contains(v));
        assert(nodes.contains_key(v));
    }
    assert forall|v: i64| coreness.contains_key(v) <==> nodes.contains_key(v) && !base.contains(v) by {
        let node = NodeId { id: v };
        assert(ids.contains(node) <==> nodes.contains_key(node.id));
        assert(coreness.contains_key(v) <==> old_coreness.contains_key(v) || is_left(ids, removed, v));
        if nodes.contains_key(v) && base.contains(v) {
            assert(removed.contains(v));
        }
    }
    assert forall|v: i64| #[trigger] coreness.contains_key(v) implies {
        &&& coreness[v] <= k
        &&& in_core(nodes, base, coreness[v] as nat, v)
        &&& coreness[v] < k ==> !in_core(nodes, base, (coreness[v] + 1) as nat, v)
        &&& !removed.contains(v) ==> coreness[v] == k
    } by {
        let node = NodeId { id: v };
        assert(ids.contains(node) <==> nodes.contains_key(node.id));
        assert(nodes.contains_key(v));
        assert(old_coreness.contains_key(v));
        if removed.contains(v) {
            assert(coreness[v] == old_coreness[v]);
            assert(!in_core(nodes, base, k, v));
        }
    }
}

/// The components of what is left are none exactly when nothing is left.
pub proof fn lemma_parts_empty<N: NodeBase>(
    nodes: Map<i64, N>,
    removed: Set<i64>,
    parts: Seq<Vec<NodeId>>,
)
    requires
        nodes.dom().finite(),
        forall|v: i64| removed.contains(v) ==> nodes.contains_key(v),
        are_components(nodes, removed, Set::<u128>::empty(), parts),
    ensures
        parts.len() == 0 <==> removed.len() >= nodes.dom().len(),
{
    let empty = Set::<u128>::empty();
    assert(removed.subset_of(nodes.dom()));
    lemma_len_subset(removed, nodes.dom());
    if parts.len() == 0 {
        assert forall|v: i64| nodes.dom().contains(v) implies removed.contains(v) by {
            let node = NodeId { id: v };
            if !removed.contains(v) {
                assert(standing(nodes, removed, node));
            }
        }
        assert(nodes.dom().subset_of(removed));
        lemma_len_subset(nodes.dom(), removed);
    } else {
        let first = parts[0]@[0];
        assert(parts[0]@.contains(first));
        lemma_connected_stands(nodes, removed, empty, first, first);
        if removed.len() >= nodes.dom().len() {
            lemma_subset_equality(removed, nodes.dom());
        }
    }
}

/// The list of cores stays what it should be when the next core is added.
pub proof fn lemma_cores_step<N: NodeBase>(
    nodes: Map<i64, N>,
    base: Set<i64>,
    old_cores: Seq<Vec<Vec<NodeId>>>,
    cores: Seq<Vec<Vec<NodeId>>>,
    old_removed: Set<i64>,
    removed: Set<i64>,
    parts: Vec<Vec<NodeId>>,
)
    requires
        nodes.dom().finite(),
        cores_so_far(nodes, base, old_cores, old_removed),
        old_removed.len() < nodes.dom().len(),
        exists|v: i64| #[trigger] nodes.contains_key(v) && !base.contains(v),
        cores == old_cores.push(parts),
        forall|v: i64| removed.contains(v) ==> nodes.contains_key(v),
        forall|v: i64|
            nodes.contains_key(v) ==> (removed.contains(v) <==> !in_core(nodes, base, cores.len(), v)),
        are_components(nodes, removed, Set::<u128>::empty(), parts@),
    ensures
        cores_so_far(nodes, base, cores, removed),
{
    let empty = Set::<u128>::empty();
    let k = cores.len();
    lemma_components_agree(nodes, removed, outside_core(nodes, base, k), empty, parts@);
    lemma_parts_empty(nodes, removed, parts@);
    assert(cores[k - 1] == parts);
    assert forall|i: int| 0 <= i < cores.len() implies are_components(
        nodes,
        outside_core(nodes, base, (i + 1) as nat),
        empty,
        (#[trigger] cores[i])@,
    ) by {
        if i < k - 1 {
            assert(cores[i] == old_cores[i]);
        }
    }
    assert forall|i: int| 0 <= i < cores.len() - 1 implies (#[trigger] cores[i])@.len() > 0 by {
        assert(cores[i] == old_cores[i]);
    }
}

/// When every node has been removed, the core numbers and the list of cores
/// are complete.
pub proof fn lemma_stages_end<N: NodeBase>(
    nodes: Map<i64, N>,
    base: Set<i64>,
    coreness: Map<i64, usize>,
    cores: Seq<Vec<Vec<NodeId>>>,
    removed: Set<i64>,
    k: nat,
)
    requires
        nodes.dom().finite(),
        stage_done(nodes, base, coreness, removed, k),
        cores_so_far(nodes, base, cores, removed),
        cores.len() == k,
        removed.len() >= nodes.dom().len(),
    ensures
        are_core_numbers(nodes, base, coreness),
        are_cores(nodes, base, cores),
{
    assert(removed.subset_of(nodes.dom()));
    lemma_len_subset(removed, nodes.dom());
    lemma_subset_equality(removed, nodes.dom());
    assert forall|v: i64| #[trigger] coreness.contains_key(v) implies in_core(
        nodes,
        base,
        coreness[v] as nat,
        v,
    ) && !in_core(nodes, base, (coreness[v] + 1) as nat, v) by {
        assert(nodes.contains_key(v));
        assert(removed.contains(v));
    }
    if k == 0 {
        assert forall|v: i64| #[trigger] nodes.contains_key(v) implies base.contains(v) by {
            assert(removed.contains(v));
            lemma_core_of_zero(nodes, base, v);
        }
    }
}

/// The core numbers and the cores depend on the nodes left out only as far
/// as these are nodes of the graph.
pub proof fn lemma_coreness_agree<N: NodeBase>(
    nodes: Map<i64, N>,
    one: Set<i64>,
    other: Set<i64>,
    coreness: Map<i64, usize>,
    cores: Seq<Vec<Vec<NodeId>>>,
)
    requires
        forall|w: i64| #[trigger] nodes.contains_key(w) ==> (one.contains(w) <==> other.contains(w)),
        are_core_numbers(nodes, one, coreness),
        are_cores(nodes, one, cores),
    ensures
        are_core_numbers(nodes, other, coreness),
        are_cores(nodes, other, cores),
{
    let empty = Set::<u128>::empty();
    assert forall|v: i64| coreness.contains_key(v) <==> nodes.contains_key(v) && !other.contains(v) by {
        assert(coreness.contains_key(v) <==> nodes.contains_key(v) && !one.contains(v));
        if nodes.contains_key(v) {
            assert(one.contains(v) <==> other.contains(v));
        }
    }
    if forall|v: i64| #[trigger] nodes.contains_key(v) ==> one.contains(v) {
        assert forall|v: i64| #[trigger] nodes.contains_key(v) implies other.contains(v) by {
            assert(one.contains(v));
        }
    }
    if forall|v: i64| #[trigger] nodes.contains_key(v) ==> other.contains(v) {
        assert forall|v: i64| #[trigger] nodes.contains_key(v) implies one.contains(v) by {
            assert(other.contains(v));
        }
    }
    assert forall|v: i64| #[trigger] coreness.contains_key(v) implies in_core(
        nodes,
        other,
        coreness[v] as nat,
        v,
    ) && !in_core(nodes, other, (coreness[v] + 1) as nat, v) by {
        lemma_core_agree(nodes, one, other, coreness[v] as nat, v);
        lemma_core_agree(nodes, one, other, (coreness[v] + 1) as nat, v);
    }
    assert forall|i: int| 0 <= i < cores.len() implies are_components(
        nodes,
        outside_core(nodes, other, (i + 1) as nat),
        empty,
        (#[trigger] cores[i])@,
    ) by {
        assert forall|w: i64| #[trigger] nodes.contains_key(w) implies (outside_core(
            nodes,
            one,
            (i + 1) as nat,
        ).contains(w) <==> outside_core(nodes, other, (i + 1) as nat).contains(w)) by {
            lemma_core_agree(nodes, one, other, (i + 1) as nat, w);
        }
        lemma_components_agree(
            nodes,
            outside_core(nodes, one, (i + 1) as nat),
            outside_core(nodes, other, (i + 1) as nat),
            empty,
            cores[i]@,
        );
    }
}

/// The integers of the identifiers listed in `ids` that `ignore` holds.
pub fn ignored_nodes(ids: &Vec<NodeId>, ignore: &HashSet<i64>) -> (r: HashSet<i64>)
    ensures
        forall|v: i64| r@.contains(v) <==> ignore@.contains(v) && ids@.contains(NodeId { id: v }),
{
    let mut found: HashSet<i64> = HashSet::new();
    let mut j: usize = 0;
    while j < ids.len()
        invariant
            j <= ids.len(),
            forall|v: i64|
                found@.contains(v) <==> ignore@.contains(v) && ids@.subrange(0, j as int).contains(
                    NodeId { id: v },
                ),
        decreases ids.len() - j,
    {
        let key: i64 = ids[j].value();
        let ghost shorter = ids@.subrange(0, j as int);
        let ghost longer = ids@.subrange(0, j + 1);
        proof {
            assert(longer[j as int] == NodeId { id: key });
            assert forall|w: NodeId| longer.contains(w) <==> shorter.contains(w) || w == (NodeId { id: key }) by {
                if shorter.contains(w) {
                    let t = choose|t: int| 0 <= t < shorter.len() && shorter[t] == w;
                    assert(longer[t] == w);
                }
                if longer.contains(w) {
                    let t = choose|t: int| 0 <= t < longer.len() && longer[t] == w;
                    if t < j {
                        assert(shorter[t] == w);
                    }
                }
            }
        }
        if ignore.contains(&key) {
            found.insert(key);
        }
        j += 1;
    }
    assert(ids@.subrange(0, ids.len() as int) =~= ids@);
    found
}

/// Core numbers and cores of graphs without direction.
pub trait Coreness: ConnectedComponentsUndirected {
    /// The connected components of the `k`-core of the graph without the
    /// nodes that `removed` holds when the call is made. Nodes are peeled off
    /// while one has fewer than `k` half-edges to nodes that are left; in the
    /// end `removed` holds, beside what it held, every node of the graph
    /// outside that `k`-core.
    fn _get_k_cores(&self, k: usize, removed: &mut HashSet<i64>) -> (r: Vec<Vec<NodeId>>)
        requires
            self.wf(),
        ensures
            forall|v: i64|
                self.nodes_view().contains_key(v) ==> (final(removed)@.contains(v) <==> !in_core(
                    self.nodes_view(),
                    old(removed)@,
                    k as nat,
                    v,
                )),
            forall|v: i64|
                !self.nodes_view().contains_key(v) ==> (final(removed)@.contains(v) <==> old(
                    removed,
                )@.contains(v)),
            are_components(self.nodes_view(), final(removed)@, Set::<u128>::empty(), r@),
    {
        let ghost nodes = self.nodes_view();
        let ghost ids = self.ids_view();
        let ghost before = old(removed)@;
        let ghost base = old(removed)@;
        let ghost n = ids.len() as int;
        proof {
            self.lemma_wf();
            assert forall|v: i64| removed@.contains(v) implies !in_core(nodes, base, k as nat, v) by {
                lemma_core_of_zero(nodes, base, v);
            }
            lemma_sum_monotone(
                |i: int|
                    if removed@.contains(ids[i].id) {
                        0int
                    } else {
                        nodes[ids[i].id].edges_view().len() as int
                    },
                0,
                n,
            );
        }
        let mut worklist: Vec<NodeId> = self.get_ids_iter();
        proof {
            assert forall|i: int| 0 <= i < worklist@.len() implies nodes.contains_key(
                #[trigger] worklist@[i].id,
            ) by {
                assert(ids.contains(ids[i]));
            }
            assert forall|w: i64| nodes.contains_key(w) implies worklist@.contains(NodeId { id: w }) by {
                let node = NodeId { id: w };
                assert(nodes.contains_key(node.id));
            }
        }
        while worklist.len() > 0
            invariant
                self.wf(),
                nodes == self.nodes_view(),
                ids == self.ids_view(),
                n == ids.len(),
                well_formed(nodes, ids),
                base == before,
                forall|i: int| 0 <= i < worklist@.len() ==> nodes.contains_key(#[trigger] worklist@[i].id),
                forall|v: i64| removed@.contains(v) ==> !in_core(nodes, base, k as nat, v),
                forall|v: i64| before.contains(v) ==> removed@.contains(v),
                forall|v: i64| removed@.contains(v) && !before.contains(v) ==> nodes.contains_key(v),
                forall|w: i64|
                    nodes.contains_key(w) && !removed@.contains(w) && live_degree(
                        #[trigger] nodes[w].edges_view(),
                        removed@,
                    ) < k ==> worklist@.contains(NodeId { id: w }),
                live_sum(nodes, ids, removed@, n) >= 0,
            decreases worklist@.len() + live_sum(nodes, ids, removed@, n),
        {
            let ghost old_list = worklist@;
            let ghost old_removed = removed@;
            let v: NodeId = worklist.pop().unwrap();
            let ghost popped = worklist@;
            proof {
                assert(old_list[old_list.len() - 1] == v);
                assert(nodes.contains_key(old_list[old_list.len() - 1].id));
                assert(v == NodeId { id: v.id });
                assert forall|w: NodeId| old_list.contains(w) && w != v implies popped.contains(w) by {
                    let i = choose|i: int| 0 <= i < old_list.len() && old_list[i] == w;
                    assert(popped[i] == w);
                }
                assert forall|i: int| 0 <= i < popped.len() implies nodes.contains_key(
                    #[trigger] popped[i].id,
                ) by {
                    assert(popped[i] == old_list[i]);
                }
            }
            if !removed.contains(&v.value()) {
                let node: &Self::NodeType = self.get_node(v);
                proof {
                    let node_id = NodeId { id: v.id };
                    assert(ids.contains(node_id));
                    let at = choose|at: int| 0 <= at < ids.len() && ids[at] == node_id;
                    lemma_degree_bound(nodes, ids, at);
                    lemma_ties_bound(node.edges_view(), removed@);
                }
                let total: usize = node.degree();
                let gone: usize = node.count_ties_with_ids(removed);
                if total - gone < k {
                    let edges: Vec<NodeId> = node.get_edges();
                    removed.insert(v.value());
                    append_ids(&mut worklist, &edges);
                    proof {
                        lemma_removal_sound(nodes, base, old_removed, k as nat, v.id);
                        lemma_live_sum_remove(nodes, ids, old_removed, v.id);
                        assert(removed@ =~= old_removed.insert(v.id));
                        assert forall|i: int| 0 <= i < worklist@.len() implies nodes.contains_key(
                            #[trigger] worklist@[i].id,
                        ) by {
                            if i >= popped.len() {
                                let j = i - popped.len();
                                assert(worklist@[i] == edges@[j]);
                                assert(nodes.contains_key(nodes[v.id].edges_view()[j].id));
                            } else {
                                assert(worklist@[i] == popped[i]);
                            }
                        }
                        assert forall|w: i64|
                            nodes.contains_key(w) && !removed@.contains(w) && live_degree(
                                #[trigger] nodes[w].edges_view(),
                                removed@,
                            ) < k implies worklist@.contains(NodeId { id: w }) by {
                            let target = NodeId { id: w };
                            if edges@.contains(target) {
                                let j = choose|j: int| 0 <= j < edges@.len() && edges@[j] == target;
                                assert(worklist@[popped.len() + j] == target);
                            } else {
                                let theirs = nodes[w].edges_view();
                                if theirs.contains(v) {
                                    self.lemma_neighbors_symmetric(target, v);
                                }
                                assert forall|j: int| 0 <= j < theirs.len() implies (removed@.contains(
                                    #[trigger] theirs[j].id,
                                ) <==> old_removed.contains(theirs[j].id)) by {
                                    if theirs[j].id == v.id {
                                        assert(theirs[j] == v);
                                    }
                                }
                                lemma_ties_agree(theirs, removed@, old_removed);
                                assert(old_list.contains(target));
                                assert(popped.contains(target));
                                let i = choose|i: int| 0 <= i < popped.len() && popped[i] == target;
                                assert(worklist@[i] == target);
                            }
                        }
                    }
                } else {
                    proof {
                        assert forall|w: i64|
                            nodes.contains_key(w) && !removed@.contains(w) && live_degree(
                                #[trigger] nodes[w].edges_view(),
                                removed@,
                            ) < k implies worklist@.contains(NodeId { id: w }) by {
                            assert(old_list.contains(NodeId { id: w }));
                        }
                    }
                }
            } else {
                proof {
                    assert forall|w: i64|
                        nodes.contains_key(w) && !removed@.contains(w) && live_degree(
                            #[trigger] nodes[w].edges_view(),
                            removed@,
                        ) < k implies worklist@.contains(NodeId { id: w }) by {
                        assert(old_list.contains(NodeId { id: w }));
                    }
                }
            }
        }
        proof {
            assert forall|v: i64| nodes.contains_key(v) implies (removed@.contains(v) <==> !in_core(nodes, base, k as nat,
                v,
            )) by {
                if !removed@.contains(v) {
                    assert forall|w: i64| nodes.contains_key(w) && !removed@.contains(w) implies live_degree(
                        #[trigger] nodes[w].edges_view(),
                        removed@,
                    ) >= k by {
                        if live_degree(nodes[w].edges_view(), removed@) < k {
                            assert(worklist@.contains(NodeId { id: w }));
                        }
                    }
                    lemma_survivors_dense(nodes, ids, base, removed@, k as nat, v);
                }
            }
        }
        self._get_connected_components(Some(removed), None)
    }

    /// The core number of every node, and the cores: the first list holds at
    /// place `i` the connected components of the core of `i + 1`, up to the
    /// first core that is empty; the map gives each node the largest `k` for
    /// which it lies in the `k`-core.
    fn get_coreness(&self) -> (r: (Vec<Vec<Vec<NodeId>>>, HashMap<i64, usize>))
        requires
            self.wf(),
        ensures
            are_core_numbers(self.nodes_view(), Set::<i64>::empty(), r.1@),
            are_cores(self.nodes_view(), Set::<i64>::empty(), r.0@),
    {
        let ignore: HashSet<i64> = HashSet::new();
        self._get_coreness(&ignore)
    }

    /// The core numbers and the cores, as `get_coreness` gives them, of the
    /// graph without the nodes of `ignore`.
    fn _get_coreness(&self, ignore: &HashSet<i64>) -> (r: (Vec<Vec<Vec<NodeId>>>, HashMap<i64, usize>))
        requires
            self.wf(),
        ensures
            are_core_numbers(self.nodes_view(), ignore@, r.1@),
            are_cores(self.nodes_view(), ignore@, r.0@),
    {
        let ghost nodes = self.nodes_view();
        let ghost ids_view = self.ids_view();
        let ids: &Vec<NodeId> = self.get_core_ids();
        let n: usize = self.count_nodes();
        proof {
            self.lemma_wf();
            self.lemma_degree_sum_even();
            lemma_node_count(nodes, ids_view);
        }
        let mut coreness: HashMap<i64, usize> = HashMap::new();
        let mut removed: HashSet<i64> = ignored_nodes(ids, ignore);
        let ghost base = removed@;
        mark_core(ids, &removed, &mut coreness, 0);
        proof {
            assert forall|v: i64| base.contains(v) implies nodes.contains_key(v) by {
                let node = NodeId { id: v };
                assert(ids_view.contains(node) <==> nodes.contains_key(node.id));
            }
            lemma_stage_zero(nodes, ids_view, base, coreness@);
        }
        let mut cores: Vec<Vec<Vec<NodeId>>> = Vec::new();
        let mut k: usize = 0;
        while removed.len() < n
            invariant
                self.wf(),
                nodes == self.nodes_view(),
                ids_view == self.ids_view(),
                ids@ == ids_view,
                well_formed(nodes, ids_view),
                degree_sum(nodes, ids_view) % 2 == 0,
                nodes.dom().finite(),
                n == nodes.dom().len(),
                stage_done(nodes, base, coreness@, removed@, k as nat),
                cores@.len() == k,
                cores_so_far(nodes, base, cores@, removed@),
            decreases degree_sum(nodes, ids_view) + 1 - k,
        {
            proof {
                lemma_stage_ready(nodes, ids_view, base, coreness@, removed@, k as nat);
            }
            let ghost old_removed = removed@;
            let ghost old_coreness = coreness@;
            let ghost old_cores = cores@;
            k += 1;
            let parts: Vec<Vec<NodeId>> = self._get_k_cores(k, &mut removed);
            mark_core(ids, &removed, &mut coreness, k);
            cores.push(parts);
            proof {
                lemma_stage_step(
                    nodes,
                    ids_view,
                    base,
                    old_coreness,
                    coreness@,
                    old_removed,
                    removed@,
                    k as nat,
                );
                lemma_cores_step(nodes, base, old_cores, cores@, old_removed, removed@, parts);
            }
        }
        proof {
            lemma_stages_end(nodes, base, coreness@, cores@, removed@, k as nat);
            assert forall|w: i64| #[trigger] nodes.contains_key(w) implies (base.contains(w)
                <==> ignore@.contains(w)) by {
                let node = NodeId { id: w };
                assert(ids_view.contains(node) <==> nodes.contains_key(node.id));
            }
            lemma_coreness_agree(nodes, base, ignore@, coreness@, cores@);
        }
        (cores, coreness)
    }

    /// The `k`-trusses: the connected components of what is left of the
    /// graph when edges are taken away until each takes part in at least
    /// `k - 2` triangles. The first list holds the edges of each truss, every
    /// edge once from its smaller to its larger end, the second its nodes.
    fn get_k_trusses(&self, k: usize) -> (r: (Vec<Vec<(NodeId, NodeId)>>, Vec<Vec<NodeId>>))
        requires
            self.wf(),
        ensures
            are_trusses(self.nodes_view(), k as nat, r.0@, r.1@),
    {
        let cut: HashSet<u128> = peel_truss(self, k);
        let parts: Vec<Vec<NodeId>> = self._get_connected_components(None, Some(&cut));
        let found = assemble_trusses(self, &parts, &cut);
        proof {
            self.lemma_wf();
            lemma_mutual(self);
            lemma_trusses_canonical(
                self.nodes_view(),
                self.ids_view(),
                cut@,
                k as nat,
                found.0@,
                found.1@,
            );
        }
        found
    }

    /// The connected components of the `k`-core: of what is left of the graph
    /// when nodes are taken away until each has at least `k` half-edges left.
    fn get_k_cores(&self, k: usize) -> (r: Vec<Vec<NodeId>>)
        requires
            self.wf(),
        ensures
            are_components(
                self.nodes_view(),
                outside_core(self.nodes_view(), Set::<i64>::empty(), k as nat),
                Set::<u128>::empty(),
                r@,
            ),
    {
        let mut removed: HashSet<i64> = HashSet::new();
        let parts: Vec<Vec<NodeId>> = self._get_k_cores(k, &mut removed);
        proof {
            lemma_components_agree(
                self.nodes_view(),
                removed@,
                outside_core(self.nodes_view(), Set::<i64>::empty(), k as nat),
                Set::<u128>::empty(),
                parts@,
            );
        }
        parts
    }
}

} // verus!
