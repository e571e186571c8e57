//! The same graph gives the same answer each time: what the contracts of
//! the algorithms allow as a result, they allow only once, up to the order in
//! which components are listed.

use vstd::prelude::*;
use vstd::relations::{sorted_by, total_ordering};
use vstd::seq_lib::lemma_sorted_unique;
use std::collections::HashSet;
use crate::dachshund::algorithms::adjacency_matrix::{is_adjacency, is_rising};
use crate::dachshund::algorithms::cnm_communities::{can_merge, is_cnm_result, labels_after};
use crate::dachshund::algorithms::connected_components::{
    are_components, connected, is_path, lemma_connected_stands, linked, mutual,
};
use crate::dachshund::algorithms::coreness::are_core_numbers;
use crate::dachshund::algorithms::k_peaks::{
    are_groups, are_peaks, degeneracy, holds, leaves_in, lemma_core_number_unique, peeled,
    steepest_round,
};
use crate::dachshund::algorithms::shortest_paths::{are_shortest_paths, is_parent};
use crate::dachshund::algorithms::strongly_connected::{
    are_strong_components, lemma_reaches_stands, strongly,
};
use crate::dachshund::algorithms::truss::{
    are_truss_parts, are_trusses, joined, lemma_part_links_members, part_links, truss_cut,
};
use crate::dachshund::graph_base::well_formed;
use crate::dachshund::id_types::NodeId;
use crate::dachshund::node::{DirectedNodeBase, NodeBase, SimpleNode};
use crate::dachshund::simple_undirected_graph_builder::built_from;

verus! {

/// Whether two lists hold the same nodes.
pub open spec fn same_members(a: Seq<NodeId>, b: Seq<NodeId>) -> bool {
    forall|x: NodeId| a.contains(x) <==> b.contains(x)
}

/// Whether a part of `b` holds just the nodes of `members`.
pub open spec fn has_part(b: Seq<Vec<NodeId>>, members: Seq<NodeId>) -> bool {
    exists|d: int| 0 <= d < b.len() && same_members(members, (#[trigger] b[d])@)
}

/// Whether each part of `a` is, by its members, a part of `b`.
pub open spec fn parts_among(a: Seq<Vec<NodeId>>, b: Seq<Vec<NodeId>>) -> bool {
    forall|c: int| 0 <= c < a.len() ==> has_part(b, (#[trigger] a[c])@)
}

/// Each component of one division of a graph into its connected components
/// is a component of every other.
pub proof fn lemma_component_among<N: NodeBase>(
    nodes: Map<i64, N>,
    avoid: Set<i64>,
    cut: Set<u128>,
    a: Seq<Vec<NodeId>>,
    b: Seq<Vec<NodeId>>,
)
    requires
        are_components(nodes, avoid, cut, a),
        are_components(nodes, avoid, cut, b),
    ensures
        parts_among(a, b),
{
    assert forall|c: int| 0 <= c < a.len() implies has_part(b, (#[trigger] a[c])@) by {
        let x = a[c]@[0];
        assert(a[c]@.contains(x));
        assert(connected(nodes, avoid, cut, x, x));
        lemma_connected_stands(nodes, avoid, cut, x, x);
        let d = choose|d: int| 0 <= d < b.len() && (#[trigger] b[d])@.contains(x);
        assert forall|y: NodeId| a[c]@.contains(y) <==> b[d]@.contains(y) by {
            if a[c]@.contains(y) {
                assert(connected(nodes, avoid, cut, x, y));
                lemma_connected_stands(nodes, avoid, cut, x, y);
                let e = choose|e: int| 0 <= e < b.len() && (#[trigger] b[e])@.contains(y);
                if e != d {
                    assert(!connected(nodes, avoid, cut, x, y));
                }
            }
            if b[d]@.contains(y) {
                assert(connected(nodes, avoid, cut, x, y));
                lemma_connected_stands(nodes, avoid, cut, x, y);
                let e = choose|e: int| 0 <= e < a.len() && (#[trigger] a[e])@.contains(y);
                if e != c {
                    assert(!connected(nodes, avoid, cut, x, y));
                }
            }
        }
        assert(same_members(a[c]@, b[d]@));
    }
}

/// A graph has one division into connected components: two lists of
/// components hold the same components, in whatever order.
pub proof fn lemma_components_determined<N: NodeBase>(
    nodes: Map<i64, N>,
    avoid: Set<i64>,
    cut: Set<u128>,
    a: Seq<Vec<NodeId>>,
    b: Seq<Vec<NodeId>>,
)
    requires
        are_components(nodes, avoid, cut, a),
        are_components(nodes, avoid, cut, b),
    ensures
        parts_among(a, b),
        parts_among(b, a),
{
    lemma_component_among(nodes, avoid, cut, a, b);
    lemma_component_among(nodes, avoid, cut, b, a);
}

/// Each component of one division of a directed graph into its strongly
/// connected components is a component of every other.
pub proof fn lemma_strong_component_among<N: DirectedNodeBase>(
    nodes: Map<i64, N>,
    a: Seq<Vec<NodeId>>,
    b: Seq<Vec<NodeId>>,
)
    requires
        are_strong_components(nodes, a),
        are_strong_components(nodes, b),
    ensures
        parts_among(a, b),
{
    let none = Set::<i64>::empty();
    assert forall|c: int| 0 <= c < a.len() implies has_part(b, (#[trigger] a[c])@) by {
        let x = a[c]@[0];
        assert(a[c]@.contains(x));
        assert(strongly(nodes, x, x));
        lemma_reaches_stands(nodes, none, true, x, x);
        assert(x == NodeId { id: x.id });
        assert(nodes.contains_key(x.id));
        let d = choose|d: int| 0 <= d < b.len() && (#[trigger] b[d])@.contains(NodeId { id: x.id });
        assert forall|y: NodeId| a[c]@.contains(y) <==> b[d]@.contains(y) by {
            if a[c]@.contains(y) {
                assert(strongly(nodes, x, y));
                lemma_reaches_stands(nodes, none, true, x, y);
                assert(y == NodeId { id: y.id });
                assert(nodes.contains_key(y.id));
                let e = choose|e: int| 0 <= e < b.len() && (#[trigger] b[e])@.contains(NodeId { id: y.id });
                if e != d {
                    assert(!strongly(nodes, x, y));
                }
            }
            if b[d]@.contains(y) {
                assert(strongly(nodes, x, y));
                lemma_reaches_stands(nodes, none, true, x, y);
                assert(y == NodeId { id: y.id });
                assert(nodes.contains_key(y.id));
                let e = choose|e: int| 0 <= e < a.len() && (#[trigger] a[e])@.contains(NodeId { id: y.id });
                if e != c {
                    assert(!strongly(nodes, x, y));
                }
            }
        }
        assert(same_members(a[c]@, b[d]@));
    }
}

/// A directed graph has one division into strongly connected components.
pub proof fn lemma_strong_components_determined<N: DirectedNodeBase>(
    nodes: Map<i64, N>,
    a: Seq<Vec<NodeId>>,
    b: Seq<Vec<NodeId>>,
)
    requires
        are_strong_components(nodes, a),
        are_strong_components(nodes, b),
    ensures
        parts_among(a, b),
        parts_among(b, a),
{
    lemma_strong_component_among(nodes, a, b);
    lemma_strong_component_among(nodes, b, a);
}

/// A path between two different nodes comes to its end by a step from
/// another node.
pub proof fn lemma_last_step<N: NodeBase>(nodes: Map<i64, N>, cut: Set<u128>, p: Seq<NodeId>) -> (i: int)
    requires
        is_path(nodes, Set::<i64>::empty(), cut, p),
        p[0] != p.last(),
    ensures
        0 <= i < p.len() - 1,
        p[i] != p.last(),
        p[i + 1] == p.last(),
        linked(nodes, Set::<i64>::empty(), cut, p[i], p[i + 1]),
    decreases p.len(),
{
    let n = p.len() as int;
    assert(linked(nodes, Set::<i64>::empty(), cut, p[n - 2], p[n - 2 + 1]));
    if p[n - 2] != p.last() {
        n - 2
    } else {
        let shorter = p.drop_last();
        assert forall|x: int| 0 <= x < shorter.len() - 1 implies linked(
            nodes,
            Set::<i64>::empty(),
            cut,
            #[trigger] shorter[x],
            shorter[x + 1],
        ) by {
            assert(linked(nodes, Set::<i64>::empty(), cut, p[x], p[x + 1]));
        }
        let i = lemma_last_step(nodes, cut, shorter);
        assert(linked(nodes, Set::<i64>::empty(), cut, p[i], p[i + 1]));
        i
    }
}

/// Each truss of one list of the trusses of a graph has, by its nodes, its
/// like in every other.
pub proof fn lemma_truss_among<N: NodeBase>(
    nodes: Map<i64, N>,
    ids: Seq<NodeId>,
    cut: Set<u128>,
    trusses: Seq<Vec<(NodeId, NodeId)>>,
    truss_nodes: Seq<Vec<NodeId>>,
    other_trusses: Seq<Vec<(NodeId, NodeId)>>,
    other_nodes: Seq<Vec<NodeId>>,
)
    requires
        well_formed(nodes, ids),
        mutual(nodes),
        are_truss_parts(nodes, cut, trusses, truss_nodes),
        are_truss_parts(nodes, cut, other_trusses, other_nodes),
    ensures
        parts_among(truss_nodes, other_nodes),
{
    let none = Set::<i64>::empty();
    let a = truss_nodes;
    let b = other_nodes;
    assert forall|c: int| 0 <= c < a.len() implies has_part(b, (#[trigger] a[c])@) by {
        assert(trusses[c]@ == part_links(nodes, cut, a[c]@) && trusses[c]@.len() > 0);
        lemma_part_links_members(nodes, cut, a[c]@, 0);
        let x = part_links(nodes, cut, a[c]@)[0].0;
        let w = part_links(nodes, cut, a[c]@)[0].1;
        assert(a[c]@.contains(x));
        assert(connected(nodes, none, cut, x, x));
        lemma_connected_stands(nodes, none, cut, x, x);
        let at = choose|at: int| 0 <= at < nodes[x.id].edges_view().len() && nodes[x.id].edges_view()[at] == w;
        assert(nodes.contains_key(nodes[x.id].edges_view()[at].id));
        assert(joined(nodes, cut, x, w));
        let d = choose|d: int| 0 <= d < b.len() && #[trigger] b[d]@.contains(x);
        assert forall|y: NodeId| a[c]@.contains(y) <==> b[d]@.contains(y) by {
            if a[c]@.contains(y) && y != x {
                assert(connected(nodes, none, cut, x, y));
                let p = choose|p: Seq<NodeId>| is_path(nodes, none, cut, p) && p[0] == x && p.last() == y;
                let i = lemma_last_step(nodes, cut, p);
                assert(nodes[y.id].edges_view().contains(p[i]));
                assert(joined(nodes, cut, y, p[i]));
                let e = choose|e: int| 0 <= e < b.len() && #[trigger] b[e]@.contains(y);
                if e != d {
                    assert(!connected(nodes, none, cut, x, y));
                }
            }
            if b[d]@.contains(y) && y != x {
                assert(connected(nodes, none, cut, x, y));
                let p = choose|p: Seq<NodeId>| is_path(nodes, none, cut, p) && p[0] == x && p.last() == y;
                let i = lemma_last_step(nodes, cut, p);
                assert(nodes[y.id].edges_view().contains(p[i]));
                assert(joined(nodes, cut, y, p[i]));
                let e = choose|e: int| 0 <= e < a.len() && #[trigger] a[e]@.contains(y);
                if e != c {
                    assert(!connected(nodes, none, cut, x, y));
                }
            }
        }
        assert(same_members(a[c]@, b[d]@));
    }
}

/// A graph has one list of `k`-trusses: two lists hold trusses of the same
/// nodes, in whatever order.
pub proof fn lemma_trusses_determined<N: NodeBase>(
    nodes: Map<i64, N>,
    ids: Seq<NodeId>,
    k: nat,
    trusses: Seq<Vec<(NodeId, NodeId)>>,
    truss_nodes: Seq<Vec<NodeId>>,
    other_trusses: Seq<Vec<(NodeId, NodeId)>>,
    other_nodes: Seq<Vec<NodeId>>,
)
    requires
        well_formed(nodes, ids),
        mutual(nodes),
        are_trusses(nodes, k, trusses, truss_nodes),
        are_trusses(nodes, k, other_trusses, other_nodes),
    ensures
        parts_among(truss_nodes, other_nodes),
        parts_among(other_nodes, truss_nodes),
{
    let cut = truss_cut(nodes, k);
    lemma_truss_among(nodes, ids, cut, trusses, truss_nodes, other_trusses, other_nodes);
    lemma_truss_among(nodes, ids, cut, other_trusses, other_nodes, trusses, truss_nodes);
}

/// The nodes of a graph have one assignment of core numbers.
pub proof fn lemma_core_numbers_determined<N: NodeBase>(
    nodes: Map<i64, N>,
    base: Set<i64>,
    a: Map<i64, usize>,
    b: Map<i64, usize>,
)
    requires
        are_core_numbers(nodes, base, a),
        are_core_numbers(nodes, base, b),
    ensures
        a == b,
{
    assert forall|v: i64| a.contains_key(v) implies a[v] == b[v] by {
        assert(b.contains_key(v));
        lemma_core_number_unique(nodes, base, v, a[v] as nat);
        lemma_core_number_unique(nodes, base, v, b[v] as nat);
    }
    assert forall|v: i64| a.contains_key(v) <==> b.contains_key(v) by {
        assert(a.contains_key(v) <==> nodes.contains_key(v) && !base.contains(v));
        assert(b.contains_key(v) <==> nodes.contains_key(v) && !base.contains(v));
    }
    assert(a =~= b);
}

/// What is taken away in the first rounds stays taken away in the later
/// ones.
pub proof fn lemma_peeled_grows<N: NodeBase>(nodes: Map<i64, N>, s: nat, t: nat, v: i64)
    requires
        s <= t,
        peeled(nodes, s).contains(v),
    ensures
        peeled(nodes, t).contains(v),
    decreases t,
{
    if s < t {
        lemma_peeled_grows(nodes, s, (t - 1) as nat, v);
    }
}

/// A node is taken away in one round only.
pub proof fn lemma_leaves_once<N: NodeBase>(nodes: Map<i64, N>, v: i64, s: nat, t: nat)
    requires
        leaves_in(nodes, v, s),
        leaves_in(nodes, v, t),
    ensures
        s == t,
{
    if s < t {
        assert(peeled(nodes, s + 1).contains(v));
        lemma_peeled_grows(nodes, s + 1, t, v);
    }
    if t < s {
        assert(peeled(nodes, t + 1).contains(v));
        lemma_peeled_grows(nodes, t + 1, s, v);
    }
}

/// The nodes of a graph have one assignment of peak numbers and of
/// mountains.
pub proof fn lemma_peaks_determined<N: NodeBase>(
    nodes: Map<i64, N>,
    peaks: Map<i64, usize>,
    mountains: Map<i64, usize>,
    other_peaks: Map<i64, usize>,
    other_mountains: Map<i64, usize>,
)
    requires
        are_peaks(nodes, peaks, mountains),
        are_peaks(nodes, other_peaks, other_mountains),
    ensures
        peaks == other_peaks,
        mountains == other_mountains,
{
    assert forall|v: i64| nodes.contains_key(v) implies peaks[v] == other_peaks[v] && mountains[v]
        == other_mountains[v] by {
        let s = choose|s: nat|
            {
                &&& #[trigger] leaves_in(nodes, v, s)
                &&& peaks[v] == degeneracy(nodes, peeled(nodes, s))
                &&& mountains[v] == steepest_round(nodes, v, s)
            };
        let t = choose|t: nat|
            {
                &&& #[trigger] leaves_in(nodes, v, t)
                &&& other_peaks[v] == degeneracy(nodes, peeled(nodes, t))
                &&& other_mountains[v] == steepest_round(nodes, v, t)
            };
        lemma_leaves_once(nodes, v, s, t);
    }
    assert forall|v: i64| peaks.contains_key(v) <==> other_peaks.contains_key(v) by {
        assert(peaks.contains_key(v) <==> nodes.contains_key(v));
        assert(other_peaks.contains_key(v) <==> nodes.contains_key(v));
    }
    assert forall|v: i64| mountains.contains_key(v) <==> other_mountains.contains_key(v) by {
        assert(mountains.contains_key(v) <==> nodes.contains_key(v));
        assert(other_mountains.contains_key(v) <==> nodes.contains_key(v));
    }
    assert(peaks =~= other_peaks);
    assert(mountains =~= other_mountains);
}

/// The mountains of the nodes are gathered into groups in one way.
pub proof fn lemma_groups_determined(
    mountains: Map<i64, usize>,
    a: Map<usize, HashSet<i64>>,
    b: Map<usize, HashSet<i64>>,
)
    requires
        are_groups(mountains, a),
        are_groups(mountains, b),
    ensures
        forall|m: usize| a.contains_key(m) <==> b.contains_key(m),
        forall|m: usize| #[trigger] a.contains_key(m) ==> a[m]@ == b[m]@,
{
    assert forall|m: usize| #[trigger] a.contains_key(m) implies b.contains_key(m) && a[m]@ == b[m]@ by {
        let v = choose|v: i64| holds(a, m, v);
        assert(holds(b, m, v));
        assert forall|w: i64| a[m]@.contains(w) <==> b[m]@.contains(w) by {
            assert(holds(a, m, w) <==> holds(b, m, w));
        }
        assert(a[m]@ =~= b[m]@);
    }
    assert forall|m: usize| b.contains_key(m) implies a.contains_key(m) by {
        let v = choose|v: i64| holds(b, m, v);
        assert(holds(a, m, v));
    }
}

/// Joining communities gives one result: the same labels and the same
/// gains, join by join.
pub proof fn lemma_communities_determined<N: NodeBase>(
    nodes: Map<i64, N>,
    ids: Seq<NodeId>,
    labels: Map<i64, i64>,
    changes: Seq<int>,
    other_labels: Map<i64, i64>,
    other_changes: Seq<int>,
)
    requires
        is_cnm_result(nodes, ids, labels, changes),
        is_cnm_result(nodes, ids, other_labels, other_changes),
    ensures
        labels == other_labels,
        changes == other_changes,
{
    if changes.len() < other_changes.len() {
        assert(can_merge(nodes, ids, labels_after(nodes, ids, changes.len())));
    }
    if other_changes.len() < changes.len() {
        assert(can_merge(nodes, ids, labels_after(nodes, ids, other_changes.len())));
    }
    assert forall|k: int| 0 <= k < changes.len() implies changes[k] == other_changes[k] by {
        assert(can_merge(nodes, ids, labels_after(nodes, ids, k as nat)));
    }
    assert(changes =~= other_changes);
}

/// A search from a node gives one distance and one set of parents to each
/// target.
pub proof fn lemma_shortest_paths_determined<N: NodeBase>(
    nodes: Map<i64, N>,
    source: NodeId,
    targets: Seq<NodeId>,
    dist: Map<i64, Option<usize>>,
    parents: Map<i64, HashSet<i64>>,
    other_dist: Map<i64, Option<usize>>,
    other_parents: Map<i64, HashSet<i64>>,
)
    requires
        are_shortest_paths(nodes, source, targets, dist, parents),
        are_shortest_paths(nodes, source, targets, other_dist, other_parents),
    ensures
        dist == other_dist,
        forall|k: i64| parents.contains_key(k) <==> other_parents.contains_key(k),
        forall|k: i64| #[trigger] parents.contains_key(k) ==> parents[k]@ == other_parents[k]@,
{
    assert forall|k: i64| dist.contains_key(k) <==> other_dist.contains_key(k) by {
        assert(dist.contains_key(k) <==> targets.contains(NodeId { id: k }));
        assert(other_dist.contains_key(k) <==> targets.contains(NodeId { id: k }));
    }
    assert forall|k: i64| dist.contains_key(k) implies dist[k] == other_dist[k] by {
        assert(other_dist.contains_key(k));
    }
    assert(dist =~= other_dist);
    assert forall|k: i64| parents.contains_key(k) <==> other_parents.contains_key(k) by {
        assert(parents.contains_key(k) <==> targets.contains(NodeId { id: k }));
        assert(other_parents.contains_key(k) <==> targets.contains(NodeId { id: k }));
    }
    assert forall|k: i64| #[trigger] parents.contains_key(k) implies parents[k]@ == other_parents[k]@ by {
        assert(other_parents.contains_key(k));
        assert forall|u: i64| parents[k]@.contains(u) <==> other_parents[k]@.contains(u) by {
            let parent = is_parent(nodes, source, NodeId { id: u }, NodeId { id: k });
            assert(parents[k]@.contains(u) <==> parent);
            assert(other_parents[k]@.contains(u) <==> parent);
        }
        assert(parents[k]@ =~= other_parents[k]@);
    }
}

/// The nodes of a graph have one rising order, and the graph one adjacency
/// matrix over it.
pub proof fn lemma_adjacency_determined<N: NodeBase>(
    nodes: Map<i64, N>,
    ids: Seq<NodeId>,
    order: Seq<NodeId>,
    matrix: Seq<Vec<usize>>,
    other_order: Seq<NodeId>,
    other_matrix: Seq<Vec<usize>>,
)
    requires
        is_rising(order),
        is_rising(other_order),
        order.to_multiset() == ids.to_multiset(),
        other_order.to_multiset() == ids.to_multiset(),
        is_adjacency(nodes, order, matrix),
        is_adjacency(nodes, other_order, other_matrix),
    ensures
        order == other_order,
        matrix.len() == other_matrix.len(),
        forall|i: int| 0 <= i < matrix.len() ==> (#[trigger] matrix[i])@ == other_matrix[i]@,
{
    let leq = |a: NodeId, b: NodeId| a.id <= b.id;
    assert(total_ordering(leq)) by {
        assert forall|a: NodeId, b: NodeId| #[trigger] leq(a, b) && #[trigger] leq(b, a) implies a == b by {
            assert(a.id == b.id);
        }
    }
    assert(sorted_by(order, leq));
    assert(sorted_by(other_order, leq));
    lemma_sorted_unique(order, other_order, leq);
    assert forall|i: int| 0 <= i < matrix.len() implies (#[trigger] matrix[i])@ == other_matrix[i]@ by {
        assert forall|j: int| 0 <= j < order.len() implies matrix[i]@[j] == other_matrix[i]@[j] by {
        }
        assert(matrix[i]@ =~= other_matrix[i]@);
    }
}

/// Rows build one graph: the same nodes in the same order, each with the
/// same half-edges.
pub proof fn lemma_built_determined(
    rows: Seq<(i64, i64)>,
    nodes: Map<i64, SimpleNode>,
    ids: Seq<NodeId>,
    other_nodes: Map<i64, SimpleNode>,
    other_ids: Seq<NodeId>,
)
    requires
        built_from(nodes, ids, rows),
        built_from(other_nodes, other_ids, rows),
    ensures
        ids == other_ids,
        forall|k: i64| nodes.contains_key(k) <==> other_nodes.contains_key(k),
        forall|k: i64| #[trigger]
            nodes.contains_key(k) ==> nodes[k].node_id == other_nodes[k].node_id && nodes[k].neighbors@
                == other_nodes[k].neighbors@,
{
    assert forall|k: i64| nodes.contains_key(k) <==> other_nodes.contains_key(k) by {
        assert(nodes.contains_key(k) <==> ids.contains(NodeId { id: k }));
        assert(other_nodes.contains_key(k) <==> other_ids.contains(NodeId { id: k }));
    }
    assert forall|k: i64| #[trigger] nodes.contains_key(k) implies nodes[k].node_id
        == other_nodes[k].node_id && nodes[k].neighbors@ == other_nodes[k].neighbors@ by {
        assert(other_nodes.contains_key(k));
    }
}

} // verus!
