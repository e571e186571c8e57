//! Distances, shortest walks and breadth-first search.

use vstd::prelude::*;
use std::collections::HashMap;
use std::collections::HashSet;
use crate::dachshund::algorithms::clustering::collect_id_set;
use crate::dachshund::algorithms::connected_components::{connected, is_path, linked};
use crate::dachshund::algorithms::path_enumeration::{
    all_reached, are_all_chains, are_shortest_walks, enumerate_chains, is_layered,
    lemma_chains_are_shortest_walks, lemma_shortest_paths_are_layered, path_lists,
};
use crate::dachshund::error::{CLQError, CLQResult};
use crate::dachshund::graph_base::{well_formed, GraphBase};
use crate::dachshund::id_types::NodeId;
use crate::dachshund::node::NodeBase;

verus! {

/// Whether an edge leads from `u` to `v`.
pub open spec fn step<N: NodeBase>(nodes: Map<i64, N>, u: NodeId, v: NodeId) -> bool {
    linked(nodes, Set::<i64>::empty(), Set::<u128>::empty(), u, v)
}

/// Whether `p` is a walk from `s` to `v` along `d` edges.
pub open spec fn is_walk<N: NodeBase>(nodes: Map<i64, N>, s: NodeId, v: NodeId, d: nat, p: Seq<NodeId>) -> bool {
    &&& is_path(nodes, Set::<i64>::empty(), Set::<u128>::empty(), p)
    &&& p[0] == s
    &&& p.last() == v
    &&& p.len() == d + 1
}

/// Whether a walk leads from `s` to `v` along `d` edges.
pub open spec fn reaches_in<N: NodeBase>(nodes: Map<i64, N>, s: NodeId, v: NodeId, d: nat) -> bool {
    exists|p: Seq<NodeId>| is_walk(nodes, s, v, d, p)
}

/// Whether `d` is the distance from `s` to `v`: the number of edges of a
/// shortest walk.
pub open spec fn is_distance<N: NodeBase>(nodes: Map<i64, N>, s: NodeId, v: NodeId, d: nat) -> bool {
    reaches_in(nodes, s, v, d) && forall|less: nat| less < d ==> !reaches_in(nodes, s, v, less)
}

/// The distance from `s` to `v`, where a walk leads from `s` to `v`.
pub open spec fn distance<N: NodeBase>(nodes: Map<i64, N>, s: NodeId, v: NodeId) -> nat {
    choose|d: nat| is_distance(nodes, s, v, d)
}

/// A node has one distance from another.
pub proof fn lemma_distance_unique<N: NodeBase>(nodes: Map<i64, N>, s: NodeId, v: NodeId, d: nat)
    requires
        is_distance(nodes, s, v, d),
    ensures
        distance(nodes, s, v) == d,
{
    let other = distance(nodes, s, v);
    assert(is_distance(nodes, s, v, other));
}

/// `u` once for each time that `w` occurs in `edges`.
pub open spec fn copies(u: NodeId, edges: Seq<NodeId>, w: NodeId) -> Seq<NodeId>
    decreases edges.len(),
{
    if edges.len() == 0 {
        Seq::empty()
    } else if edges.last() == w {
        copies(u, edges.drop_last(), w).push(u)
    } else {
        copies(u, edges.drop_last(), w)
    }
}

/// The predecessors of `w` among the first `m` nodes of `order`: each node
/// one level before `w`, once for each of its edges to `w`.
pub open spec fn preds_by<N: NodeBase>(
    nodes: Map<i64, N>,
    level: spec_fn(i64) -> nat,
    order: Seq<NodeId>,
    m: int,
    w: NodeId,
) -> Seq<NodeId>
    decreases m,
{
    if m <= 0 {
        Seq::empty()
    } else {
        let u = order[m - 1];
        preds_by(nodes, level, order, m - 1, w) + if level(u.id) + 1 == level(w.id) {
            copies(u, nodes[u.id].edges_view(), w)
        } else {
            Seq::empty()
        }
    }
}

/// The sum of the path counts of the nodes in `list`, held at the largest
/// number that 64 bits count.
pub open spec fn held_sum(sigma: Map<i64, u64>, list: Seq<NodeId>) -> nat
    decreases list.len(),
{
    if list.len() == 0 {
        0
    } else {
        let sum: nat = held_sum(sigma, list.drop_last()) + sigma[list.last().id] as nat;
        if sum > u64::MAX {
            u64::MAX as nat
        } else {
            sum
        }
    }
}

/// What a breadth-first traversal from `s` finds: `order` lists the nodes
/// that a walk leads to, `s` first and nearer nodes before farther ones;
/// `preds` gives each its predecessors on shortest walks, in the order of
/// `order`; and `sigma` counts the shortest walks to each, 1 for `s` and for
/// every other node the sum over its predecessors.
pub open spec fn is_bfs_result<N: NodeBase>(
    nodes: Map<i64, N>,
    s: NodeId,
    order: Seq<NodeId>,
    sigma: Map<i64, u64>,
    preds: Map<i64, Seq<NodeId>>,
) -> bool {
    let level = |k: i64| distance(nodes, s, NodeId { id: k });
    &&& order.len() >= 1
    &&& order[0] == s
    &&& order.no_duplicates()
    &&& forall|v: NodeId| #[trigger]
        order.contains(v) <==> connected(nodes, Set::<i64>::empty(), Set::<u128>::empty(), s, v)
    &&& forall|i: int, j: int|
        0 <= i < j < order.len() ==> distance(nodes, s, #[trigger] order[i]) <= distance(
            nodes,
            s,
            #[trigger] order[j],
        )
    &&& forall|k: i64| #[trigger] sigma.contains_key(k) <==> order.contains(NodeId { id: k })
    &&& forall|k: i64| #[trigger] preds.contains_key(k) <==> order.contains(NodeId { id: k })
    &&& forall|k: i64| #[trigger]
        preds.contains_key(k) ==> preds[k] == preds_by(
            nodes,
            level,
            order,
            order.len() as int,
            NodeId { id: k },
        )
    &&& sigma[s.id] == 1
    &&& forall|k: i64| #[trigger]
        sigma.contains_key(k) && k != s.id ==> sigma[k] == held_sum(sigma, preds[k])
}

/// What holds while the traversal runs, with the first `head` nodes of
/// `order` looked at: `order` starts at `s` and lists the nodes found, each
/// with its level in `dist`, nearer nodes first and none more than one level
/// beyond the node to look at next; each node but `s` was found from a node
/// one level before it; and every neighbor of a node looked at is found, at
/// most one level beyond it.
pub open spec fn bfs_state<N: NodeBase>(
    nodes: Map<i64, N>,
    s: NodeId,
    order: Seq<NodeId>,
    head: int,
    dist: Map<i64, usize>,
) -> bool {
    &&& order.len() >= 1
    &&& order[0] == s
    &&& order.no_duplicates()
    &&& 0 <= head <= order.len()
    &&& forall|i: int| 0 <= i < order.len() ==> nodes.contains_key(#[trigger] order[i].id)
    &&& forall|k: i64| #[trigger] dist.contains_key(k) <==> order.contains(NodeId { id: k })
    &&& dist[s.id] == 0
    &&& forall|i: int| 0 <= i < order.len() ==> dist[#[trigger] order[i].id] <= i
    &&& forall|i: int, j: int|
        0 <= i < j < order.len() ==> dist[#[trigger] order[i].id] <= dist[#[trigger] order[j].id]
    &&& head < order.len() ==> dist[order[order.len() - 1].id] <= dist[order[head].id] + 1
    &&& forall|j: int| 1 <= j < order.len() ==> #[trigger] was_found(nodes, dist, order, head, j)
    &&& forall|i: int, w: NodeId|
        0 <= i < head && #[trigger] step(nodes, order[i], w) ==> dist.contains_key(w.id)
            && dist[w.id] <= dist[order[i].id] + 1
}

/// Whether the `j`-th node of `order` was found from the `i`-th.
pub open spec fn has_parent<N: NodeBase>(
    nodes: Map<i64, N>,
    dist: Map<i64, usize>,
    order: Seq<NodeId>,
    i: int,
    j: int,
) -> bool {
    step(nodes, order[i], order[j]) && dist[order[j].id] == dist[order[i].id] + 1
}

/// Whether the `j`-th node of `order` was found from a node before it that
/// has been looked at or is looked at now.
pub open spec fn was_found<N: NodeBase>(
    nodes: Map<i64, N>,
    dist: Map<i64, usize>,
    order: Seq<NodeId>,
    head: int,
    j: int,
) -> bool {
    exists|i: int| 0 <= i < j && i <= head && has_parent(nodes, dist, order, i, j)
}

/// A walk as long as its level says leads to every node found.
pub proof fn lemma_found_is_reached<N: NodeBase>(
    nodes: Map<i64, N>,
    s: NodeId,
    order: Seq<NodeId>,
    head: int,
    dist: Map<i64, usize>,
    j: int,
)
    requires
        bfs_state(nodes, s, order, head, dist),
        0 <= j < order.len(),
    ensures
        reaches_in(nodes, s, order[j], dist[order[j].id] as nat),
    decreases j,
{
    if j == 0 {
        let p = seq![s];
        assert(nodes.contains_key(order[0].id));
        assert(is_walk(nodes, s, s, 0, p));
    } else {
        assert(was_found(nodes, dist, order, head, j));
        let i = choose|i: int| 0 <= i < j && i <= head && has_parent(nodes, dist, order, i, j);
        lemma_found_is_reached(nodes, s, order, head, dist, i);
        let d = dist[order[i].id] as nat;
        let p = choose|p: Seq<NodeId>| is_walk(nodes, s, order[i], d, p);
        let q = p.push(order[j]);
        assert forall|x: int| 0 <= x < q.len() - 1 implies linked(
            nodes,
            Set::<i64>::empty(),
            Set::<u128>::empty(),
            #[trigger] q[x],
            q[x + 1],
        ) by {
            if x < p.len() - 1 {
                assert(linked(nodes, Set::<i64>::empty(), Set::<u128>::empty(), p[x], p[x + 1]));
            }
        }
        assert(is_walk(nodes, s, order[j], d + 1, q));
    }
}

/// When every node found has been looked at, every node on a walk from `s`
/// is found, no more levels away than the walk has gone.
pub proof fn lemma_walk_is_found<N: NodeBase>(
    nodes: Map<i64, N>,
    s: NodeId,
    order: Seq<NodeId>,
    dist: Map<i64, usize>,
    p: Seq<NodeId>,
    x: int,
)
    requires
        bfs_state(nodes, s, order, order.len() as int, dist),
        is_path(nodes, Set::<i64>::empty(), Set::<u128>::empty(), p),
        p[0] == s,
        0 <= x < p.len(),
    ensures
        dist.contains_key(p[x].id),
        dist[p[x].id] <= x,
    decreases x,
{
    if x == 0 {
        assert(order.contains(order[0]));
        assert(s == NodeId { id: s.id });
    } else {
        lemma_walk_is_found(nodes, s, order, dist, p, x - 1);
        let u = p[x - 1];
        assert(u == NodeId { id: u.id });
        assert(order.contains(u));
        let i = choose|i: int| 0 <= i < order.len() && order[i] == u;
        assert(linked(nodes, Set::<i64>::empty(), Set::<u128>::empty(), p[x - 1], p[x - 1 + 1]));
        assert(step(nodes, order[i], p[x]));
    }
}

/// When every node found has been looked at, the nodes found are those that
/// a walk leads to, and the level of each is its distance.
pub proof fn lemma_levels_are_distances<N: NodeBase>(
    nodes: Map<i64, N>,
    s: NodeId,
    order: Seq<NodeId>,
    dist: Map<i64, usize>,
)
    requires
        bfs_state(nodes, s, order, order.len() as int, dist),
    ensures
        forall|v: NodeId| #[trigger]
            order.contains(v) <==> connected(nodes, Set::<i64>::empty(), Set::<u128>::empty(), s, v),
        forall|v: NodeId| #[trigger]
            order.contains(v) ==> is_distance(nodes, s, v, dist[v.id] as nat) && distance(nodes, s, v)
                == dist[v.id],
{
    let none = Set::<i64>::empty();
    let cut = Set::<u128>::empty();
    assert forall|v: NodeId| #[trigger] order.contains(v) <==> connected(nodes, none, cut, s, v) by {
        if order.contains(v) {
            let j = choose|j: int| 0 <= j < order.len() && order[j] == v;
            lemma_found_is_reached(nodes, s, order, order.len() as int, dist, j);
            let p = choose|p: Seq<NodeId>| is_walk(nodes, s, v, dist[v.id] as nat, p);
            assert(is_path(nodes, none, cut, p) && p[0] == s && p.last() == v);
        }
        if connected(nodes, none, cut, s, v) {
            let p = choose|p: Seq<NodeId>| is_path(nodes, none, cut, p) && p[0] == s && p.last() == v;
            lemma_walk_is_found(nodes, s, order, dist, p, p.len() - 1);
            assert(v == NodeId { id: v.id });
        }
    }
    assert forall|v: NodeId| #[trigger] order.contains(v) implies is_distance(
        nodes,
        s,
        v,
        dist[v.id] as nat,
    ) && distance(nodes, s, v) == dist[v.id] by {
        let j = choose|j: int| 0 <= j < order.len() && order[j] == v;
        lemma_found_is_reached(nodes, s, order, order.len() as int, dist, j);
        assert forall|less: nat| less < dist[v.id] implies !reaches_in(nodes, s, v, less) by {
            if reaches_in(nodes, s, v, less) {
                let p = choose|p: Seq<NodeId>| is_walk(nodes, s, v, less, p);
                lemma_walk_is_found(nodes, s, order, dist, p, p.len() - 1);
            }
        }
        lemma_distance_unique(nodes, s, v, dist[v.id] as nat);
    }
}

/// The level that `dist` gives to each node.
pub open spec fn level_of(dist: Map<i64, usize>) -> spec_fn(i64) -> nat {
    |k: i64| dist[k] as nat
}

/// What holds while the edges of the node at `head` are looked at, those in
/// `scanned` being done: each leads to a node that is found, at most one
/// level beyond.
pub open spec fn scan_state<N: NodeBase>(
    nodes: Map<i64, N>,
    s: NodeId,
    order: Seq<NodeId>,
    head: int,
    dist: Map<i64, usize>,
    scanned: Seq<NodeId>,
) -> bool {
    &&& bfs_state(nodes, s, order, head, dist)
    &&& head < order.len()
    &&& forall|x: int|
        0 <= x < scanned.len() ==> dist.contains_key(#[trigger] scanned[x].id) && dist[scanned[x].id]
            <= dist[order[head].id] + 1
}

/// What holds of the lists of predecessors while the traversal runs: each
/// node found has the predecessors that the nodes looked at and the edges
/// done give it.
pub open spec fn preds_state<N: NodeBase>(
    nodes: Map<i64, N>,
    order: Seq<NodeId>,
    head: int,
    scanned: Seq<NodeId>,
    dist: Map<i64, usize>,
    preds: Map<i64, Seq<NodeId>>,
) -> bool {
    &&& forall|k: i64| #[trigger] preds.contains_key(k) <==> order.contains(NodeId { id: k })
    &&& forall|k: i64| #[trigger]
        preds.contains_key(k) ==> preds[k] == preds_by(nodes, level_of(dist), order, head, NodeId { id: k })
            + if head < order.len() && dist[order[head].id] + 1 == dist[k] {
            copies(order[head], scanned, NodeId { id: k })
        } else {
            Seq::empty()
        }
}

/// What holds of the path counts while the traversal runs: `s` has one
/// path, every other node found the held sum over its predecessors, and each
/// predecessor is one level before its node.
pub open spec fn sigma_state(
    s: NodeId,
    order: Seq<NodeId>,
    dist: Map<i64, usize>,
    sigma: Map<i64, u64>,
    preds: Map<i64, Seq<NodeId>>,
) -> bool {
    &&& forall|k: i64| #[trigger] sigma.contains_key(k) <==> order.contains(NodeId { id: k })
    &&& sigma[s.id] == 1
    &&& forall|k: i64| #[trigger]
        sigma.contains_key(k) && k != s.id ==> sigma[k] == held_sum(sigma, preds[k])
    &&& forall|k: i64, x: int|
        preds.contains_key(k) && 0 <= x < preds[k].len() ==> dist.contains_key(
            (#[trigger] preds[k][x]).id,
        ) && dist[preds[k][x].id] + 1 == dist[k]
}

/// No copy is made where the target does not occur.
pub proof fn lemma_no_copies(u: NodeId, edges: Seq<NodeId>, w: NodeId)
    requires
        !edges.contains(w),
    ensures
        copies(u, edges, w) == Seq::<NodeId>::empty(),
    decreases edges.len(),
{
    if edges.len() > 0 {
        assert(edges[edges.len() - 1] == edges.last());
        assert forall|x: int| 0 <= x < edges.drop_last().len() implies edges.drop_last()[x] != w by {
            assert(edges.drop_last()[x] == edges[x]);
        }
        lemma_no_copies(u, edges.drop_last(), w);
    }
}

/// Every copy is the node copied.
pub proof fn lemma_copies_are(u: NodeId, edges: Seq<NodeId>, w: NodeId, x: int)
    requires
        0 <= x < copies(u, edges, w).len(),
    ensures
        copies(u, edges, w)[x] == u,
        edges.contains(w),
    decreases edges.len(),
{
    let shorter = edges.drop_last();
    if edges.last() == w {
        assert(edges[edges.len() - 1] == w);
        if x < copies(u, shorter, w).len() {
            lemma_copies_are(u, shorter, w, x);
        }
    } else {
        lemma_copies_are(u, shorter, w, x);
        let at = choose|at: int| 0 <= at < shorter.len() && shorter[at] == w;
        assert(edges[at] == w);
    }
}

/// The predecessors depend on the levels only as far as these are the
/// levels of the nodes looked at and of the node itself.
pub proof fn lemma_preds_by_agree<N: NodeBase>(
    nodes: Map<i64, N>,
    one: spec_fn(i64) -> nat,
    other: spec_fn(i64) -> nat,
    order: Seq<NodeId>,
    m: int,
    w: NodeId,
)
    requires
        m <= order.len(),
        forall|i: int| 0 <= i < m ==> one(#[trigger] order[i].id) == other(order[i].id),
        one(w.id) == other(w.id),
    ensures
        preds_by(nodes, one, order, m, w) == preds_by(nodes, other, order, m, w),
    decreases m,
{
    if m > 0 {
        lemma_preds_by_agree(nodes, one, other, order, m - 1, w);
        assert(one(order[m - 1].id) == other(order[m - 1].id));
    }
}

/// The predecessors among the nodes of a list do not change when the list
/// grows.
pub proof fn lemma_preds_by_longer<N: NodeBase>(
    nodes: Map<i64, N>,
    level: spec_fn(i64) -> nat,
    order: Seq<NodeId>,
    longer: Seq<NodeId>,
    m: int,
    w: NodeId,
)
    requires
        m <= order.len() <= longer.len(),
        forall|i: int| 0 <= i < order.len() ==> order[i] == longer[i],
    ensures
        preds_by(nodes, level, order, m, w) == preds_by(nodes, level, longer, m, w),
    decreases m,
{
    if m > 0 {
        lemma_preds_by_longer(nodes, level, order, longer, m - 1, w);
    }
}

/// Every predecessor among the first `m` nodes is one of them, one level
/// before the node, with an edge to it.
pub proof fn lemma_preds_by_members<N: NodeBase>(
    nodes: Map<i64, N>,
    level: spec_fn(i64) -> nat,
    order: Seq<NodeId>,
    m: int,
    w: NodeId,
    x: int,
)
    requires
        m <= order.len(),
        0 <= x < preds_by(nodes, level, order, m, w).len(),
    ensures
        exists|i: int|
            0 <= i < m && order[i] == preds_by(nodes, level, order, m, w)[x] && level(order[i].id) + 1
                == level(w.id) && nodes[order[i].id].edges_view().contains(w),
    decreases m,
{
    let before = preds_by(nodes, level, order, m - 1, w);
    if x < before.len() {
        lemma_preds_by_members(nodes, level, order, m - 1, w, x);
        let i = choose|i: int|
            0 <= i < m - 1 && order[i] == before[x] && level(order[i].id) + 1 == level(w.id)
                && nodes[order[i].id].edges_view().contains(w);
        assert(order[i] == preds_by(nodes, level, order, m, w)[x]);
    } else {
        let u = order[m - 1];
        lemma_copies_are(u, nodes[u.id].edges_view(), w, x - before.len());
    }
}

/// The held sum depends on the counts only as far as these are the counts
/// of the nodes in the list.
pub proof fn lemma_held_sum_agree(one: Map<i64, u64>, other: Map<i64, u64>, list: Seq<NodeId>)
    requires
        forall|x: int| 0 <= x < list.len() ==> one[#[trigger] list[x].id] == other[list[x].id],
    ensures
        held_sum(one, list) == held_sum(other, list),
        held_sum(one, list) <= u64::MAX,
    decreases list.len(),
{
    if list.len() > 0 {
        let shorter = list.drop_last();
        assert forall|x: int| 0 <= x < shorter.len() implies one[#[trigger] shorter[x].id] == other[shorter[x].id] by {
            assert(shorter[x] == list[x]);
        }
        lemma_held_sum_agree(one, other, shorter);
        assert(list[list.len() - 1] == list.last());
    }
}

/// A node that no node looked at has an edge to has no predecessor among
/// them.
pub proof fn lemma_preds_by_none<N: NodeBase>(
    nodes: Map<i64, N>,
    level: spec_fn(i64) -> nat,
    order: Seq<NodeId>,
    m: int,
    w: NodeId,
)
    requires
        m <= order.len(),
        forall|i: int| 0 <= i < m ==> !nodes[#[trigger] order[i].id].edges_view().contains(w),
    ensures
        preds_by(nodes, level, order, m, w) == Seq::<NodeId>::empty(),
    decreases m,
{
    if m > 0 {
        lemma_preds_by_none(nodes, level, order, m - 1, w);
        assert(!nodes[order[m - 1].id].edges_view().contains(w));
        lemma_no_copies(order[m - 1], nodes[order[m - 1].id].edges_view(), w);
    }
}

/// Copies for another target do not change when an edge is done.
pub proof fn lemma_copies_push(u: NodeId, scanned: Seq<NodeId>, w: NodeId, k: NodeId)
    ensures
        copies(u, scanned.push(w), k) == if w == k {
            copies(u, scanned, k).push(u)
        } else {
            copies(u, scanned, k)
        },
{
    assert(scanned.push(w).drop_last() =~= scanned);
}

/// The state after an edge to a node that was not found before: the node is
/// found, one level beyond the node looked at, with that node as its first
/// predecessor and with its path count.
pub proof fn lemma_discover<N: NodeBase>(
    nodes: Map<i64, N>,
    ids: Seq<NodeId>,
    s: NodeId,
    order: Seq<NodeId>,
    head: int,
    dist: Map<i64, usize>,
    scanned: Seq<NodeId>,
    preds: Map<i64, Seq<NodeId>>,
    sigma: Map<i64, u64>,
    w: NodeId,
)
    requires
        well_formed(nodes, ids),
        scan_state(nodes, s, order, head, dist, scanned),
        preds_state(nodes, order, head, scanned, dist, preds),
        sigma_state(s, order, dist, sigma, preds),
        scanned.len() < nodes[order[head].id].edges_view().len(),
        scanned == nodes[order[head].id].edges_view().subrange(0, scanned.len() as int),
        w == nodes[order[head].id].edges_view()[scanned.len() as int],
        !dist.contains_key(w.id),
        dist[order[head].id] < usize::MAX,
    ensures
        scan_state(
            nodes,
            s,
            order.push(w),
            head,
            dist.insert(w.id, (dist[order[head].id] + 1) as usize),
            scanned.push(w),
        ),
        preds_state(
            nodes,
            order.push(w),
            head,
            scanned.push(w),
            dist.insert(w.id, (dist[order[head].id] + 1) as usize),
            preds.insert(w.id, seq![order[head]]),
        ),
        sigma_state(
            s,
            order.push(w),
            dist.insert(w.id, (dist[order[head].id] + 1) as usize),
            sigma.insert(w.id, sigma[order[head].id]),
            preds.insert(w.id, seq![order[head]]),
        ),
{
    let v = order[head];
    let edges = nodes[v.id].edges_view();
    let longer = order.push(w);
    let next_level = (dist[v.id] + 1) as usize;
    let dist2 = dist.insert(w.id, next_level);
    let preds2 = preds.insert(w.id, seq![v]);
    let sigma2 = sigma.insert(w.id, sigma[v.id]);
    let done = scanned.push(w);
    assert(w == NodeId { id: w.id });
    assert(v == NodeId { id: v.id });
    assert(!order.contains(w));
    assert(nodes.contains_key(order[head].id));
    assert(nodes.contains_key(nodes[v.id].edges_view()[scanned.len() as int].id));
    assert(edges.contains(w));
    assert(step(nodes, v, w));
    assert(order.contains(order[head]));
    assert(dist.contains_key(v.id));
    assert forall|x: NodeId| longer.contains(x) <==> order.contains(x) || x == w by {
        if order.contains(x) {
            let i = choose|i: int| 0 <= i < order.len() && order[i] == x;
            assert(longer[i] == x);
        }
        if longer.contains(x) {
            let i = choose|i: int| 0 <= i < longer.len() && longer[i] == x;
            if i < order.len() {
                assert(order[i] == x);
            }
        }
        assert(longer[order.len() as int] == w);
    }
    assert forall|i: int| 0 <= i < order.len() implies dist2[#[trigger] longer[i].id] == dist[order[i].id]
        && dist.contains_key(order[i].id) by {
        assert(order.contains(order[i]));
        assert(order[i] == NodeId { id: order[i].id });
    }
    assert(longer.no_duplicates());
    assert forall|k: i64| #[trigger] dist2.contains_key(k) <==> longer.contains(NodeId { id: k }) by {
        assert(dist.contains_key(k) <==> order.contains(NodeId { id: k }));
    }
    assert(dist2[s.id] == 0) by {
        assert(order.contains(order[0]));
    }
    assert forall|i: int, j: int| 0 <= i < j < longer.len() implies dist2[#[trigger] longer[i].id]
        <= dist2[#[trigger] longer[j].id] by {
        if j == order.len() {
            assert(dist[order[i].id] <= dist[order[order.len() - 1].id]) by {
                if i < order.len() - 1 {
                    assert(dist[order[i].id] <= dist[order[order.len() - 1].id]);
                }
            }
        } else {
            assert(dist[order[i].id] <= dist[order[j].id]);
        }
    }
    assert forall|j: int| 1 <= j < longer.len() implies #[trigger] was_found(nodes, dist2, longer, head, j) by {
        if j == order.len() {
            assert(has_parent(nodes, dist2, longer, head, j));
        } else {
            assert(was_found(nodes, dist, order, head, j));
            let i = choose|i: int| 0 <= i < j && i <= head && has_parent(nodes, dist, order, i, j);
            assert(has_parent(nodes, dist2, longer, i, j));
        }
    }
    assert forall|i: int, x: NodeId|
        0 <= i < head && #[trigger] step(nodes, longer[i], x) implies dist2.contains_key(x.id)
            && dist2[x.id] <= dist2[longer[i].id] + 1 by {
        assert(step(nodes, order[i], x));
    }
    assert forall|x: int| 0 <= x < done.len() implies dist2.contains_key(#[trigger] done[x].id)
        && dist2[done[x].id] <= dist2[longer[head].id] + 1 by {
        if x < scanned.len() {
            assert(dist.contains_key(scanned[x].id));
        }
    }
    assert(!scanned.contains(w)) by {
        if scanned.contains(w) {
            let x = choose|x: int| 0 <= x < scanned.len() && scanned[x] == w;
            assert(dist.contains_key(scanned[x].id));
        }
    }
    assert forall|k: i64| #[trigger] preds2.contains_key(k) <==> longer.contains(NodeId { id: k }) by {
        assert(preds.contains_key(k) <==> order.contains(NodeId { id: k }));
    }
    assert forall|k: i64| #[trigger] preds2.contains_key(k) implies preds2[k] == preds_by(
        nodes,
        level_of(dist2),
        longer,
        head,
        NodeId { id: k },
    ) + if head < longer.len() && dist2[longer[head].id] + 1 == dist2[k] {
        copies(longer[head], done, NodeId { id: k })
    } else {
        Seq::empty()
    } by {
        let target = NodeId { id: k };
        lemma_copies_push(v, scanned, w, target);
        if k == w.id {
            assert forall|i: int| 0 <= i < head implies !nodes[#[trigger] longer[i].id].edges_view().contains(
                w,
            ) by {
                if nodes[order[i].id].edges_view().contains(w) {
                    assert(nodes.contains_key(order[i].id));
                    assert(step(nodes, order[i], w));
                }
            }
            lemma_preds_by_none(nodes, level_of(dist2), longer, head, w);
            lemma_no_copies(v, scanned, w);
            assert(preds2[k] =~= Seq::<NodeId>::empty() + Seq::<NodeId>::empty().push(v));
        } else {
            assert(preds.contains_key(k));
            assert(order.contains(target));
            lemma_preds_by_longer(nodes, level_of(dist), order, longer, head, target);
            lemma_preds_by_agree(nodes, level_of(dist), level_of(dist2), longer, head, target);
        }
    }
    assert forall|k: i64| #[trigger] sigma2.contains_key(k) <==> longer.contains(NodeId { id: k }) by {
        assert(sigma.contains_key(k) <==> order.contains(NodeId { id: k }));
    }
    assert forall|k: i64, x: int| preds2.contains_key(k) && 0 <= x < preds2[k].len() implies dist2.contains_key(
        (#[trigger] preds2[k][x]).id,
    ) && dist2[preds2[k][x].id] + 1 == dist2[k] by {
        if k != w.id {
            assert(preds.contains_key(k));
            assert(dist.contains_key(preds[k][x].id));
            assert(order.contains(NodeId { id: k }));
        }
    }
    assert forall|k: i64| #[trigger] sigma2.contains_key(k) && k != s.id implies sigma2[k] == held_sum(
        sigma2,
        preds2[k],
    ) by {
        if k == w.id {
            let single = seq![v];
            assert(single.drop_last() =~= Seq::<NodeId>::empty());
            assert(held_sum(sigma2, single.drop_last()) == 0);
            assert(single.last() == v);
            assert(held_sum(sigma2, single) == sigma2[v.id]);
        } else {
            assert(sigma.contains_key(k));
            assert(preds.contains_key(k));
            assert forall|x: int| 0 <= x < preds[k].len() implies sigma[#[trigger] preds[k][x].id]
                == sigma2[preds[k][x].id] by {
                assert(dist.contains_key(preds[k][x].id));
            }
            lemma_held_sum_agree(sigma, sigma2, preds[k]);
        }
    }
    assert(sigma2[s.id] == 1) by {
        assert(order.contains(order[0]));
    }
}

/// The count that results when `amount` is added and the sum is held at the
/// largest number that 64 bits count.
pub open spec fn held_add(count: u64, amount: u64) -> u64 {
    if count + amount > u64::MAX {
        u64::MAX
    } else {
        (count + amount) as u64
    }
}

/// The state after an edge to a node found before, one level beyond the
/// node looked at: the node has one predecessor more, and its path count has
/// grown by that of the node looked at.
pub proof fn lemma_extend<N: NodeBase>(
    nodes: Map<i64, N>,
    s: NodeId,
    order: Seq<NodeId>,
    head: int,
    dist: Map<i64, usize>,
    scanned: Seq<NodeId>,
    preds: Map<i64, Seq<NodeId>>,
    sigma: Map<i64, u64>,
    w: NodeId,
)
    requires
        scan_state(nodes, s, order, head, dist, scanned),
        preds_state(nodes, order, head, scanned, dist, preds),
        sigma_state(s, order, dist, sigma, preds),
        dist.contains_key(w.id),
        dist[w.id] == dist[order[head].id] + 1,
    ensures
        scan_state(nodes, s, order, head, dist, scanned.push(w)),
        preds_state(
            nodes,
            order,
            head,
            scanned.push(w),
            dist,
            preds.insert(w.id, preds[w.id].push(order[head])),
        ),
        sigma_state(
            s,
            order,
            dist,
            sigma.insert(w.id, held_add(sigma[w.id], sigma[order[head].id])),
            preds.insert(w.id, preds[w.id].push(order[head])),
        ),
{
    let v = order[head];
    let done = scanned.push(w);
    let preds2 = preds.insert(w.id, preds[w.id].push(v));
    let sigma2 = sigma.insert(w.id, held_add(sigma[w.id], sigma[v.id]));
    assert(w == NodeId { id: w.id });
    assert(v == NodeId { id: v.id });
    assert(order.contains(w));
    assert(order.contains(order[head]));
    assert(order.contains(order[0]));
    assert(preds.contains_key(w.id));
    assert(sigma.contains_key(w.id));
    assert(sigma.contains_key(v.id));
    let last = order[order.len() - 1];
    assert forall|k: i64| order.contains(NodeId { id: k }) implies dist[k] <= dist[v.id] + 1 by {
        let i = choose|i: int| 0 <= i < order.len() && order[i] == (NodeId { id: k });
        if i < order.len() - 1 {
            assert(dist[order[i].id] <= dist[order[order.len() - 1].id]);
        }
    }
    assert forall|x: int| 0 <= x < done.len() implies dist.contains_key(#[trigger] done[x].id)
        && dist[done[x].id] <= dist[order[head].id] + 1 by {
        if x < scanned.len() {
            assert(dist.contains_key(scanned[x].id));
        }
    }
    assert forall|k: i64| #[trigger] preds2.contains_key(k) implies preds2[k] == preds_by(
        nodes,
        level_of(dist),
        order,
        head,
        NodeId { id: k },
    ) + if head < order.len() && dist[order[head].id] + 1 == dist[k] {
        copies(order[head], done, NodeId { id: k })
    } else {
        Seq::empty()
    } by {
        let target = NodeId { id: k };
        lemma_copies_push(v, scanned, w, target);
        assert(preds.contains_key(k));
        if k == w.id {
            let before = preds_by(nodes, level_of(dist), order, head, target);
            assert(preds2[k] =~= before + copies(v, scanned, target).push(v));
        }
    }
    assert forall|k: i64, x: int| preds2.contains_key(k) && 0 <= x < preds2[k].len() implies dist.contains_key(
        (#[trigger] preds2[k][x]).id,
    ) && dist[preds2[k][x].id] + 1 == dist[k] by {
        assert(preds.contains_key(k));
        if k == w.id {
            if x < preds[k].len() {
                assert(preds2[k][x] == preds[k][x]);
                assert(dist.contains_key(preds[k][x].id));
            }
        } else {
            assert(dist.contains_key(preds[k][x].id));
        }
    }
    assert forall|k: i64| #[trigger] sigma2.contains_key(k) && k != s.id implies sigma2[k] == held_sum(
        sigma2,
        preds2[k],
    ) by {
        assert(sigma.contains_key(k));
        assert(preds.contains_key(k));
        assert(order.contains(NodeId { id: k }));
        assert forall|x: int| 0 <= x < preds[k].len() implies sigma[#[trigger] preds[k][x].id]
            == sigma2[preds[k][x].id] by {
            assert(dist.contains_key(preds[k][x].id));
            assert(dist[preds[k][x].id] + 1 == dist[k]);
        }
        lemma_held_sum_agree(sigma, sigma2, preds[k]);
        if k == w.id {
            let longer = preds[k].push(v);
            assert(longer.drop_last() =~= preds[k]);
            assert(longer.last() == v);
        }
    }
}

/// The state after an edge to a node found before that is not one level
/// beyond the node looked at: nothing but the tale of edges done changes.
pub proof fn lemma_pass<N: NodeBase>(
    nodes: Map<i64, N>,
    s: NodeId,
    order: Seq<NodeId>,
    head: int,
    dist: Map<i64, usize>,
    scanned: Seq<NodeId>,
    preds: Map<i64, Seq<NodeId>>,
    w: NodeId,
)
    requires
        scan_state(nodes, s, order, head, dist, scanned),
        preds_state(nodes, order, head, scanned, dist, preds),
        dist.contains_key(w.id),
        dist[w.id] != dist[order[head].id] + 1,
    ensures
        scan_state(nodes, s, order, head, dist, scanned.push(w)),
        preds_state(nodes, order, head, scanned.push(w), dist, preds),
{
    let v = order[head];
    let done = scanned.push(w);
    assert(w == NodeId { id: w.id });
    assert(order.contains(w));
    let i = choose|i: int| 0 <= i < order.len() && order[i] == w;
    if i < order.len() - 1 {
        assert(dist[order[i].id] <= dist[order[order.len() - 1].id]);
    }
    assert forall|x: int| 0 <= x < done.len() implies dist.contains_key(#[trigger] done[x].id)
        && dist[done[x].id] <= dist[order[head].id] + 1 by {
        if x < scanned.len() {
            assert(dist.contains_key(scanned[x].id));
        }
    }
    assert forall|k: i64| #[trigger] preds.contains_key(k) implies preds[k] == preds_by(
        nodes,
        level_of(dist),
        order,
        head,
        NodeId { id: k },
    ) + if head < order.len() && dist[order[head].id] + 1 == dist[k] {
        copies(order[head], done, NodeId { id: k })
    } else {
        Seq::empty()
    } by {
        lemma_copies_push(v, scanned, w, NodeId { id: k });
    }
}

/// The state when all edges of the node at `head` are done: the next node
/// of `order` can be looked at.
pub proof fn lemma_advance<N: NodeBase>(
    nodes: Map<i64, N>,
    s: NodeId,
    order: Seq<NodeId>,
    head: int,
    dist: Map<i64, usize>,
    preds: Map<i64, Seq<NodeId>>,
)
    requires
        scan_state(nodes, s, order, head, dist, nodes[order[head].id].edges_view()),
        preds_state(nodes, order, head, nodes[order[head].id].edges_view(), dist, preds),
    ensures
        bfs_state(nodes, s, order, head + 1, dist),
        preds_state(nodes, order, head + 1, Seq::<NodeId>::empty(), dist, preds),
{
    let v = order[head];
    let edges = nodes[v.id].edges_view();
    assert forall|j: int| 1 <= j < order.len() implies #[trigger] was_found(
        nodes,
        dist,
        order,
        head + 1,
        j,
    ) by {
        assert(was_found(nodes, dist, order, head, j));
        let i = choose|i: int| 0 <= i < j && i <= head && has_parent(nodes, dist, order, i, j);
        assert(has_parent(nodes, dist, order, i, j));
    }
    assert forall|i: int, w: NodeId|
        0 <= i < head + 1 && #[trigger] step(nodes, order[i], w) implies dist.contains_key(w.id)
            && dist[w.id] <= dist[order[i].id] + 1 by {
        if i == head {
            let x = choose|x: int| 0 <= x < edges.len() && edges[x] == w;
            assert(dist.contains_key(edges[x].id));
        }
    }
    if head + 1 < order.len() {
        assert(dist[order[head].id] <= dist[order[head + 1].id]);
    }
    assert forall|k: i64| #[trigger] preds.contains_key(k) implies preds[k] == preds_by(
        nodes,
        level_of(dist),
        order,
        head + 1,
        NodeId { id: k },
    ) + if head + 1 < order.len() && dist[order[head + 1].id] + 1 == dist[k] {
        copies(order[head + 1], Seq::<NodeId>::empty(), NodeId { id: k })
    } else {
        Seq::empty()
    } by {
        let target = NodeId { id: k };
        let before = preds_by(nodes, level_of(dist), order, head, target);
        assert(preds_by(nodes, level_of(dist), order, head + 1, target) == before + if level_of(dist)(
            v.id,
        ) + 1 == level_of(dist)(k) {
            copies(v, edges, target)
        } else {
            Seq::empty()
        });
        assert(preds[k] =~= preds_by(nodes, level_of(dist), order, head + 1, target)
            + Seq::<NodeId>::empty());
    }
}

/// When every node found has been looked at, the traversal has found what
/// `is_bfs_result` asks for.
pub proof fn lemma_finish<N: NodeBase>(
    nodes: Map<i64, N>,
    s: NodeId,
    order: Seq<NodeId>,
    dist: Map<i64, usize>,
    preds: Map<i64, Seq<NodeId>>,
    sigma: Map<i64, u64>,
)
    requires
        bfs_state(nodes, s, order, order.len() as int, dist),
        preds_state(nodes, order, order.len() as int, Seq::<NodeId>::empty(), dist, preds),
        sigma_state(s, order, dist, sigma, preds),
    ensures
        is_bfs_result(nodes, s, order, sigma, preds),
        forall|k: i64| #[trigger]
            dist.contains_key(k) ==> dist[k] == distance(nodes, s, NodeId { id: k }),
{
    let level = |k: i64| distance(nodes, s, NodeId { id: k });
    lemma_levels_are_distances(nodes, s, order, dist);
    assert forall|k: i64| #[trigger] dist.contains_key(k) implies dist[k] == distance(
        nodes,
        s,
        NodeId { id: k },
    ) by {
        assert(order.contains(NodeId { id: k }));
    }
    assert forall|i: int, j: int| 0 <= i < j < order.len() implies distance(nodes, s, #[trigger] order[i])
        <= distance(nodes, s, #[trigger] order[j]) by {
        assert(order.contains(order[i]));
        assert(order.contains(order[j]));
        assert(dist[order[i].id] <= dist[order[j].id]);
    }
    assert forall|k: i64| #[trigger] preds.contains_key(k) implies preds[k] == preds_by(
        nodes,
        level,
        order,
        order.len() as int,
        NodeId { id: k },
    ) by {
        let target = NodeId { id: k };
        assert(order.contains(target));
        assert forall|i: int| 0 <= i < order.len() implies level_of(dist)(#[trigger] order[i].id)
            == level(order[i].id) by {
            assert(order.contains(order[i]));
            assert(order[i] == NodeId { id: order[i].id });
        }
        lemma_preds_by_agree(nodes, level_of(dist), level, order, order.len() as int, target);
        assert(preds[k] =~= preds_by(nodes, level_of(dist), order, order.len() as int, target)
            + Seq::<NodeId>::empty());
    }
}

/// The lists that a map of vectors holds.
pub open spec fn lists_of(preds: Map<i64, Vec<NodeId>>) -> Map<i64, Seq<NodeId>> {
    Map::new(|k: i64| preds.contains_key(k), |k: i64| preds[k]@)
}

/// Puts `u` at the end of the list under `k`.
pub fn push_pred(preds: &mut HashMap<i64, Vec<NodeId>>, k: i64, u: NodeId)
    requires
        old(preds)@.contains_key(k),
    ensures
        lists_of(final(preds)@) == lists_of(old(preds)@).insert(k, old(preds)@[k]@.push(u)),
{
    let mut list: Vec<NodeId> = preds.remove(&k).unwrap();
    list.push(u);
    preds.insert(k, list);
    assert(lists_of(preds@) =~= lists_of(old(preds)@).insert(k, old(preds)@[k]@.push(u)));
}

/// Adds `amount` to the count under `k`, holding the sum at the largest
/// number that 64 bits count.
pub fn add_count(sigma: &mut HashMap<i64, u64>, k: i64, amount: u64)
    requires
        old(sigma)@.contains_key(k),
    ensures
        final(sigma)@ == old(sigma)@.insert(k, held_add(old(sigma)@[k], amount)),
{
    let count: u64 = *sigma.get(&k).unwrap();
    sigma.insert(k, count.saturating_add(amount));
}

/// Breadth-first traversal from `source`. Returns the nodes found in the
/// order in which they are found, the level of each, the number of shortest
/// walks to each, and the predecessors of each on these walks.
pub fn breadth_first<G: GraphBase>(g: &G, source: NodeId) -> (r: (
    Vec<NodeId>,
    HashMap<i64, usize>,
    HashMap<i64, u64>,
    HashMap<i64, Vec<NodeId>>,
))
    requires
        g.wf(),
        g.nodes_view().contains_key(source.id),
    ensures
        is_bfs_result(g.nodes_view(), source, r.0@, r.2@, lists_of(r.3@)),
        forall|k: i64| #[trigger] r.1@.contains_key(k) <==> r.0@.contains(NodeId { id: k }),
        forall|k: i64| #[trigger]
            r.1@.contains_key(k) ==> r.1@[k] == distance(g.nodes_view(), source, NodeId { id: k }),
{
    let ghost nodes = g.nodes_view();
    let ghost ids = g.ids_view();
    let mut order: Vec<NodeId> = Vec::new();
    let mut dist: HashMap<i64, usize> = HashMap::new();
    let mut sigma: HashMap<i64, u64> = HashMap::new();
    let mut preds: HashMap<i64, Vec<NodeId>> = HashMap::new();
    order.push(source);
    dist.insert(source.value(), 0);
    sigma.insert(source.value(), 1);
    preds.insert(source.value(), Vec::new());
    proof {
        g.lemma_wf();
        assert(order@[0] == source);
        assert(source == NodeId { id: source.id });
        assert forall|k: i64| #[trigger] dist@.contains_key(k) <==> order@.contains(NodeId { id: k }) by {
            if order@.contains(NodeId { id: k }) {
                let i = choose|i: int| 0 <= i < order@.len() && order@[i] == (NodeId { id: k });
            }
        }
        assert(bfs_state(nodes, source, order@, 0, dist@));
        assert forall|k: i64| #[trigger] lists_of(preds@).contains_key(k) implies lists_of(preds@)[k]
            == preds_by(nodes, level_of(dist@), order@, 0, NodeId { id: k }) + if 0 < order@.len()
            && dist@[order@[0].id] + 1 == dist@[k] {
            copies(order@[0], Seq::<NodeId>::empty(), NodeId { id: k })
        } else {
            Seq::empty()
        } by {
            assert(lists_of(preds@)[k] =~= Seq::<NodeId>::empty() + Seq::<NodeId>::empty());
        }
        assert(preds_state(nodes, order@, 0, Seq::<NodeId>::empty(), dist@, lists_of(preds@)));
        assert(sigma_state(source, order@, dist@, sigma@, lists_of(preds@)));
    }
    let mut head: usize = 0;
    while head < order.len()
        invariant
            g.wf(),
            nodes == g.nodes_view(),
            ids == g.ids_view(),
            well_formed(nodes, ids),
            head <= order@.len(),
            bfs_state(nodes, source, order@, head as int, dist@),
            preds_state(nodes, order@, head as int, Seq::<NodeId>::empty(), dist@, lists_of(preds@)),
            sigma_state(source, order@, dist@, sigma@, lists_of(preds@)),
        decreases nodes.dom().len() + 1 - head,
    {
        let v: NodeId = order[head];
        proof {
            assert(order@.contains(order@[head as int]));
            assert(v == NodeId { id: v.id });
            lemma_order_bound(nodes, ids, source, order@, head as int, dist@);
        }
        let level: usize = *dist.get(&v.value()).unwrap();
        let amount: u64 = *sigma.get(&v.value()).unwrap();
        let edges: Vec<NodeId> = g.get_node(v).get_edges();
        let mut j: usize = 0;
        while j < edges.len()
            invariant
                j <= edges.len(),
                nodes == g.nodes_view(),
                ids == g.ids_view(),
                well_formed(nodes, ids),
                head < order@.len(),
                v == order@[head as int],
                edges@ == nodes[v.id].edges_view(),
                dist@.contains_key(v.id),
                level == dist@[v.id],
                sigma@.contains_key(v.id),
                amount == sigma@[v.id],
                scan_state(nodes, source, order@, head as int, dist@, edges@.subrange(0, j as int)),
                preds_state(
                    nodes,
                    order@,
                    head as int,
                    edges@.subrange(0, j as int),
                    dist@,
                    lists_of(preds@),
                ),
                sigma_state(source, order@, dist@, sigma@, lists_of(preds@)),
            decreases edges.len() - j,
        {
            let w: NodeId = edges[j];
            let ghost scanned = edges@.subrange(0, j as int);
            let ghost old_preds = lists_of(preds@);
            proof {
                assert(edges@.subrange(0, j + 1) =~= scanned.push(w));
                assert(w == NodeId { id: w.id });
                assert(order@.contains(order@[0]));
                lemma_order_bound(nodes, ids, source, order@, head as int, dist@);
                assert(order@.len() == order.len());
            }
            match dist.get(&w.value()) {
                None => {
                    proof {
                        lemma_order_bound(nodes, ids, source, order@, head as int, dist@);
                        assert(order@.len() == order.len());
                        lemma_discover(
                            nodes,
                            ids,
                            source,
                            order@,
                            head as int,
                            dist@,
                            scanned,
                            old_preds,
                            sigma@,
                            w,
                        );
                    }
                    dist.insert(w.value(), level + 1);
                    order.push(w);
                    sigma.insert(w.value(), amount);
                    let mut list: Vec<NodeId> = Vec::new();
                    list.push(v);
                    preds.insert(w.value(), list);
                    proof {
                        assert(lists_of(preds@) =~= old_preds.insert(w.id, seq![v]));
                    }
                },
                Some(found) => {
                    if *found == level + 1 {
                        proof {
                            assert(order@.contains(w));
                            assert(old_preds.contains_key(w.id));
                            assert(preds@.contains_key(w.id));
                            assert(sigma@.contains_key(w.id));
                            lemma_extend(
                                nodes,
                                source,
                                order@,
                                head as int,
                                dist@,
                                scanned,
                                old_preds,
                                sigma@,
                                w,
                            );
                        }
                        push_pred(&mut preds, w.value(), v);
                        add_count(&mut sigma, w.value(), amount);
                    } else {
                        proof {
                            lemma_pass(nodes, source, order@, head as int, dist@, scanned, old_preds, w);
                        }
                    }
                },
            }
            j += 1;
        }
        proof {
            assert(edges@.subrange(0, edges.len() as int) =~= edges@);
            lemma_advance(nodes, source, order@, head as int, dist@, lists_of(preds@));
        }
        head += 1;
    }
    proof {
        lemma_finish(nodes, source, order@, dist@, lists_of(preds@), sigma@);
    }
    (order, dist, sigma, preds)
}

/// No more nodes are found than the graph has, so levels fit a machine word
/// with room to spare.
pub proof fn lemma_order_bound<N: NodeBase>(
    nodes: Map<i64, N>,
    ids: Seq<NodeId>,
    s: NodeId,
    order: Seq<NodeId>,
    head: int,
    dist: Map<i64, usize>,
)
    requires
        well_formed(nodes, ids),
        bfs_state(nodes, s, order, head, dist),
        head < order.len(),
    ensures
        order.len() <= nodes.dom().len(),
        nodes.dom().len() == ids.len(),
        dist[order[head].id] < order.len(),
{
    crate::dachshund::graph_base::lemma_node_count(nodes, ids);
    crate::dachshund::algorithms::connected_components::lemma_distinct_nodes_bound(nodes, order);
}

/// A node looked at, one level before `w` and with an edge to `w`, is among
/// the predecessors of `w`.
pub proof fn lemma_preds_by_has<N: NodeBase>(
    nodes: Map<i64, N>,
    level: spec_fn(i64) -> nat,
    order: Seq<NodeId>,
    m: int,
    w: NodeId,
    i: int,
)
    requires
        0 <= i < m <= order.len(),
        level(order[i].id) + 1 == level(w.id),
        nodes[order[i].id].edges_view().contains(w),
    ensures
        preds_by(nodes, level, order, m, w).contains(order[i]),
    decreases m,
{
    let before = preds_by(nodes, level, order, m - 1, w);
    let all = preds_by(nodes, level, order, m, w);
    if i < m - 1 {
        lemma_preds_by_has(nodes, level, order, m - 1, w, i);
        let x = choose|x: int| 0 <= x < before.len() && before[x] == order[i];
        assert(all[x] == order[i]);
    } else {
        let u = order[i];
        lemma_copies_some(u, nodes[u.id].edges_view(), w);
        assert(all[before.len() as int] == u);
    }
}

/// A copy is made where the target occurs.
pub proof fn lemma_copies_some(u: NodeId, edges: Seq<NodeId>, w: NodeId)
    requires
        edges.contains(w),
    ensures
        copies(u, edges, w).len() > 0,
        copies(u, edges, w)[0] == u,
    decreases edges.len(),
{
    if edges.last() != w {
        let at = choose|at: int| 0 <= at < edges.len() && edges[at] == w;
        assert(edges.drop_last()[at] == w);
        lemma_copies_some(u, edges.drop_last(), w);
    } else {
        lemma_copies_are(u, edges, w, 0);
    }
}

/// Whether `dist` gives each target its distance from `source`, and none to
/// a target that no walk leads to, and `parents` gives each target the nodes
/// before it on shortest walks.
pub open spec fn are_shortest_paths<N: NodeBase>(
    nodes: Map<i64, N>,
    source: NodeId,
    targets: Seq<NodeId>,
    dist: Map<i64, Option<usize>>,
    parents: Map<i64, HashSet<i64>>,
) -> bool {
    let none = Set::<i64>::empty();
    let cut = Set::<u128>::empty();
    &&& forall|k: i64| #[trigger] dist.contains_key(k) <==> targets.contains(NodeId { id: k })
    &&& forall|k: i64| #[trigger] parents.contains_key(k) <==> targets.contains(NodeId { id: k })
    &&& forall|k: i64| #[trigger]
        dist.contains_key(k) ==> match dist[k] {
            Some(d) => connected(nodes, none, cut, source, NodeId { id: k }) && d == distance(
                nodes,
                source,
                NodeId { id: k },
            ),
            None => !connected(nodes, none, cut, source, NodeId { id: k }),
        }
    &&& forall|k: i64, u: i64|
        parents.contains_key(k) ==> (#[trigger] parents[k]@.contains(u) <==> is_parent(
            nodes,
            source,
            NodeId { id: u },
            NodeId { id: k },
        ))
}

/// Whether `u` comes before `v` on a shortest walk from `source`: a walk
/// leads to both, an edge from `u` to `v`, and `u` is one nearer than `v`.
pub open spec fn is_parent<N: NodeBase>(nodes: Map<i64, N>, source: NodeId, u: NodeId, v: NodeId) -> bool {
    let none = Set::<i64>::empty();
    let cut = Set::<u128>::empty();
    &&& connected(nodes, none, cut, source, u)
    &&& connected(nodes, none, cut, source, v)
    &&& step(nodes, u, v)
    &&& distance(nodes, source, u) + 1 == distance(nodes, source, v)
}

/// The predecessors that a traversal gives to a node found are its
/// parents.
pub proof fn lemma_preds_are_parents<N: NodeBase>(
    nodes: Map<i64, N>,
    source: NodeId,
    order: Seq<NodeId>,
    sigma: Map<i64, u64>,
    preds: Map<i64, Seq<NodeId>>,
    v: NodeId,
    u: NodeId,
)
    requires
        is_bfs_result(nodes, source, order, sigma, preds),
        forall|i: int| 0 <= i < order.len() ==> nodes.contains_key(#[trigger] order[i].id),
        order.contains(v),
    ensures
        preds[v.id].contains(u) <==> is_parent(nodes, source, u, v),
{
    let level = |k: i64| distance(nodes, source, NodeId { id: k });
    let m = order.len() as int;
    assert(v == NodeId { id: v.id });
    assert(u == NodeId { id: u.id });
    assert(preds.contains_key(v.id));
    let list = preds_by(nodes, level, order, m, v);
    if list.contains(u) {
        let x = choose|x: int| 0 <= x < list.len() && list[x] == u;
        lemma_preds_by_members(nodes, level, order, m, v, x);
        let i = choose|i: int|
            0 <= i < m && order[i] == list[x] && level(order[i].id) + 1 == level(v.id)
                && nodes[order[i].id].edges_view().contains(v);
        assert(order.contains(order[i]));
        assert(nodes.contains_key(order[i].id));
        let j = choose|j: int| 0 <= j < order.len() && order[j] == v;
        assert(nodes.contains_key(order[j].id));
    }
    if is_parent(nodes, source, u, v) {
        assert(order.contains(u));
        let i = choose|i: int| 0 <= i < order.len() && order[i] == u;
        lemma_preds_by_has(nodes, level, order, m, v, i);
    }
}

/// Shortest paths from a node to the others.
pub trait ShortestPaths: GraphBase {
    /// Breadth-first traversal from `source`: the nodes found in the order
    /// in which they are found, which is by distance; the number of shortest
    /// walks to each, held at the largest number that 64 bits count; and the
    /// predecessors of each on these walks.
    fn get_shortest_paths_bfs(&self, source: NodeId) -> (r: (
        Vec<NodeId>,
        HashMap<i64, u64>,
        HashMap<i64, Vec<NodeId>>,
    ))
        requires
            self.wf(),
            self.nodes_view().contains_key(source.id),
        ensures
            is_bfs_result(self.nodes_view(), source, r.0@, r.1@, lists_of(r.2@)),
    {
        let found = breadth_first(self, source);
        (found.0, found.2, found.3)
    }

    /// The distance from `source` to each target and the parents of each
    /// target on shortest walks. The targets are the nodes listed in
    /// `nodes_in_connected_component`, or all nodes where no list is given.
    /// A target that no walk leads to has no distance and no parents.
    fn get_shortest_paths(&self, source: NodeId, nodes_in_connected_component: &Option<Vec<NodeId>>) -> (r:
        (HashMap<i64, Option<usize>>, HashMap<i64, HashSet<i64>>))
        requires
            self.wf(),
            self.nodes_view().contains_key(source.id),
        ensures
            are_shortest_paths(
                self.nodes_view(),
                source,
                match *nodes_in_connected_component {
                    Some(list) => list@,
                    None => self.ids_view(),
                },
                r.0@,
                r.1@,
            ),
    {
        let ghost nodes = self.nodes_view();
        let ghost none = Set::<i64>::empty();
        let ghost cut = Set::<u128>::empty();
        let found = breadth_first(self, source);
        let levels: &HashMap<i64, usize> = &found.1;
        let preds: &HashMap<i64, Vec<NodeId>> = &found.3;
        let targets: &Vec<NodeId> = match nodes_in_connected_component {
            Some(list) => list,
            None => self.get_core_ids(),
        };
        let ghost order = found.0@;
        let ghost sigma = found.2@;
        proof {
            assert forall|i: int| 0 <= i < order.len() implies nodes.contains_key(#[trigger] order[i].id) by {
                assert(order.contains(order[i]));
                crate::dachshund::algorithms::connected_components::lemma_connected_stands(
                    nodes,
                    none,
                    cut,
                    source,
                    order[i],
                );
            }
        }
        let mut dist: HashMap<i64, Option<usize>> = HashMap::new();
        let mut parents: HashMap<i64, HashSet<i64>> = HashMap::new();
        let mut j: usize = 0;
        while j < targets.len()
            invariant
                j <= targets.len(),
                nodes == self.nodes_view(),
                none == Set::<i64>::empty(),
                cut == Set::<u128>::empty(),
                order == found.0@,
                sigma == found.2@,
                levels == &found.1,
                preds == &found.3,
                is_bfs_result(nodes, source, order, sigma, lists_of(preds@)),
                forall|i: int| 0 <= i < order.len() ==> nodes.contains_key(#[trigger] order[i].id),
                forall|k: i64| #[trigger] levels@.contains_key(k) <==> order.contains(NodeId { id: k }),
                forall|k: i64| #[trigger]
                    levels@.contains_key(k) ==> levels@[k] == distance(nodes, source, NodeId { id: k }),
                are_shortest_paths(nodes, source, targets@.subrange(0, j as int), dist@, parents@),
            decreases targets.len() - j,
        {
            let key: i64 = targets[j].value();
            let ghost target = NodeId { id: key };
            let ghost shorter = targets@.subrange(0, j as int);
            let ghost longer = targets@.subrange(0, j + 1);
            let ghost old_dist = dist@;
            let ghost old_parents = parents@;
            proof {
                assert(targets@[j as int] == target);
                assert(longer[j as int] == target);
                assert forall|w: NodeId| longer.contains(w) <==> shorter.contains(w) || w == target by {
                    if shorter.contains(w) {
                        let t = choose|t: int| 0 <= t < shorter.len() && shorter[t] == w;
                        assert(longer[t] == w);
                    }
                    if longer.contains(w) {
                        let t = choose|t: int| 0 <= t < longer.len() && longer[t] == w;
                        if t < j {
                            assert(shorter[t] == w);
                        }
                    }
                }
                assert(order.contains(target) <==> connected(nodes, none, cut, source, target));
            }
            match levels.get(&key) {
                Some(level) => {
                    proof {
                        assert(levels@.contains_key(key));
                        assert(order.contains(target));
                        assert(lists_of(preds@).contains_key(key));
                        assert(preds@.contains_key(key));
                    }
                    let list: &Vec<NodeId> = preds.get(&key).unwrap();
                    let before: HashSet<i64> = collect_id_set(list);
                    dist.insert(key, Some(*level));
                    parents.insert(key, before);
                    proof {
                        assert(lists_of(preds@).contains_key(key));
                        assert forall|u: i64| #[trigger]
                            parents@[key]@.contains(u) <==> is_parent(nodes, source, NodeId { id: u }, target) by {
                            lemma_preds_are_parents(
                                nodes,
                                source,
                                order,
                                sigma,
                                lists_of(preds@),
                                target,
                                NodeId { id: u },
                            );
                        }
                    }
                },
                None => {
                    dist.insert(key, None);
                    parents.insert(key, HashSet::new());
                },
            }
            proof {
                assert forall|k: i64, u: i64| parents@.contains_key(k) implies (#[trigger] parents@[k]@.contains(
                    u,
                ) <==> is_parent(nodes, source, NodeId { id: u }, NodeId { id: k })) by {
                    if k != key {
                        assert(old_parents.contains_key(k));
                        assert(old_parents[k]@.contains(u) <==> is_parent(
                            nodes,
                            source,
                            NodeId { id: u },
                            NodeId { id: k },
                        ));
                    }
                }
                assert forall|k: i64| #[trigger] dist@.contains_key(k) implies match dist@[k] {
                    Some(d) => connected(nodes, none, cut, source, NodeId { id: k }) && d == distance(
                        nodes,
                        source,
                        NodeId { id: k },
                    ),
                    None => !connected(nodes, none, cut, source, NodeId { id: k }),
                } by {
                    if k != key {
                        assert(old_dist.contains_key(k));
                    }
                }
            }
            j += 1;
        }
        assert(targets@.subrange(0, targets.len() as int) =~= targets@);
        (dist, parents)
    }

    /// Every chain of parents from `destination` to each node, each once: the
    /// shortest paths that the distances and parents of a search from
    /// `destination` stand for. A path lists the nodes on the way in order,
    /// without the node that it leads to. The distances and parents must be
    /// laid out in layers, as those of a search from which every node was
    /// reached are.
    fn enumerate_shortest_paths(
        &self,
        dist: &HashMap<i64, Option<usize>>,
        parents: &HashMap<i64, HashSet<i64>>,
        destination: NodeId,
    ) -> (r: HashMap<i64, Vec<Vec<NodeId>>>)
        requires
            is_layered(dist@, parents@, destination),
        ensures
            are_all_chains(dist@, parents@, destination, r@),
    {
        enumerate_chains(dist, parents, destination)
    }

    /// Every shortest walk from `source` to each node, each once and without
    /// the node itself at its end. A graph in which no path leads from
    /// `source` to some node is rejected.
    fn get_all_shortest_paths(&self, source: NodeId) -> (r: CLQResult<HashMap<i64, Vec<Vec<NodeId>>>>)
        requires
            self.wf(),
            self.nodes_view().contains_key(source.id),
        ensures
            match r {
                Ok(paths) => all_reached(self.nodes_view(), source) && are_shortest_walks(
                    self.nodes_view(),
                    source,
                    paths@,
                ),
                Err(e) => !all_reached(self.nodes_view(), source) && e is AlgorithmPrecondition,
            },
    {
        let ghost nodes = self.nodes_view();
        let everywhere: Option<Vec<NodeId>> = None;
        let found = self.get_shortest_paths(source, &everywhere);
        let ids: &Vec<NodeId> = self.get_core_ids();
        proof {
            self.lemma_wf();
        }
        let mut i: usize = 0;
        while i < ids.len()
            invariant
                i <= ids.len(),
                nodes == self.nodes_view(),
                ids@ == self.ids_view(),
                well_formed(nodes, ids@),
                are_shortest_paths(nodes, source, ids@, found.0@, found.1@),
                forall|j: int| 0 <= j < i ==> found.0@[#[trigger] ids@[j].id] is Some,
            decreases ids.len() - i,
        {
            let key: i64 = ids[i].value();
            assert(ids@.contains(ids@[i as int]));
            assert(ids@[i as int] == NodeId { id: key });
            let reached: bool = match found.0.get(&key) {
                Some(Some(_)) => true,
                _ => false,
            };
            if !reached {
                assert(nodes.contains_key(key));
                return Err(CLQError::AlgorithmPrecondition("a node cannot be reached".to_owned()));
            }
            i += 1;
        }
        proof {
            assert forall|k: i64| #[trigger] nodes.contains_key(k) implies connected(
                nodes,
                Set::<i64>::empty(),
                Set::<u128>::empty(),
                source,
                NodeId { id: k },
            ) by {
                let n = NodeId { id: k };
                assert(nodes.contains_key(n.id));
                assert(ids@.contains(n));
                let j = choose|j: int| 0 <= j < ids@.len() && ids@[j] == n;
                assert(found.0@[ids@[j].id] is Some);
                assert(found.0@.contains_key(k));
            }
            lemma_shortest_paths_are_layered(nodes, ids@, source, found.0@, found.1@);
        }
        let paths = self.enumerate_shortest_paths(&found.0, &found.1, source);
        proof {
            assert forall|k: i64| #[trigger] paths@.contains_key(k) <==> nodes.contains_key(k) by {
                let n = NodeId { id: k };
                assert(ids@.contains(n) <==> nodes.contains_key(n.id));
            }
            assert forall|k: i64, p: Seq<NodeId>| paths@.contains_key(k) implies (#[trigger] path_lists(
                paths@[k]@,
            ).contains(p) <==> is_walk(
                nodes,
                source,
                NodeId { id: k },
                distance(nodes, source, NodeId { id: k }),
                p.push(NodeId { id: k }),
            )) by {
                lemma_chains_are_shortest_walks(nodes, ids@, source, found.0@, found.1@, NodeId { id: k }, p);
            }
        }
        Ok(paths)
    }
}

} // verus!
