//! The clustering coefficient of a node, as a fraction.

use vstd::prelude::*;
use std::collections::HashSet;
use crate::dachshund::algorithms::coreness::{live_sum, lemma_live_sum_remove};
use crate::dachshund::counting::{distinct, lemma_distinct_properties, lemma_ties_bound, ties};
use crate::dachshund::graph_base::{degree_sum, lemma_degree_bound, lemma_degree_sum_as_sum, well_formed, GraphBase};
use crate::dachshund::id_types::NodeId;
use crate::dachshund::node::NodeBase;
use crate::dachshund::sums::lemma_sum_pointwise;

verus! {

/// The integers of the identifiers in `s`.
pub open spec fn id_set(s: Seq<NodeId>) -> Set<i64> {
    Set::new(|k: i64| s.contains(NodeId { id: k }))
}

/// The half-edges of the nodes listed in `around` that lead into `inside`.
pub open spec fn ties_sum<N: NodeBase>(nodes: Map<i64, N>, around: Seq<NodeId>, inside: Set<i64>) -> nat
    decreases around.len(),
{
    if around.len() == 0 {
        0
    } else {
        ties_sum(nodes, around.drop_last(), inside) + ties(
            nodes[around.last().id].edges_view(),
            inside,
        )
    }
}

/// The half-edges of all nodes listed in `around`.
pub open spec fn lengths_sum<N: NodeBase>(nodes: Map<i64, N>, around: Seq<NodeId>) -> nat
    decreases around.len(),
{
    if around.len() == 0 {
        0
    } else {
        lengths_sum(nodes, around.drop_last()) + nodes[around.last().id].edges_view().len()
    }
}

/// The edges among the neighbors of `v`, counted at both ends: the
/// half-edges of the distinct neighbors of `v` that lead to a neighbor of
/// `v`.
pub open spec fn neighbor_ties<N: NodeBase>(nodes: Map<i64, N>, v: NodeId) -> nat {
    ties_sum(nodes, distinct(nodes[v.id].edges_view()), id_set(nodes[v.id].edges_view()))
}

/// The number of ordered pairs of half-edges of a node of degree `d`.
pub open spec fn pairs_of(d: nat) -> nat {
    if d == 0 {
        0
    } else {
        (d * (d - 1)) as nat
    }
}

/// The clustering coefficient of a node as a fraction: the edges among its
/// neighbors, counted at both ends, over the ordered pairs of its
/// half-edges. A node of degree below 2 has none.
pub open spec fn clustering_fraction<N: NodeBase>(nodes: Map<i64, N>, v: NodeId) -> Option<(nat, nat)> {
    let d = nodes[v.id].edges_view().len();
    if d <= 1 {
        None
    } else {
        Some((neighbor_ties(nodes, v), pairs_of(d)))
    }
}

/// The half-edges of nodes listed without repetition are at most all
/// half-edges.
pub proof fn lemma_lengths_sum_bound<N: NodeBase>(nodes: Map<i64, N>, ids: Seq<NodeId>, around: Seq<NodeId>)
    requires
        well_formed(nodes, ids),
        around.no_duplicates(),
        forall|j: int| 0 <= j < around.len() ==> nodes.contains_key(#[trigger] around[j].id),
    ensures
        lengths_sum(nodes, around) + live_sum(nodes, ids, id_set(around), ids.len() as int)
            == degree_sum(nodes, ids),
        live_sum(nodes, ids, id_set(around), ids.len() as int) >= 0,
    decreases around.len(),
{
    let n = ids.len() as int;
    if around.len() == 0 {
        let none = id_set(around);
        lemma_degree_sum_as_sum(nodes, ids, n);
        assert(ids.subrange(0, n) =~= ids);
        lemma_sum_pointwise(
            |i: int|
                if none.contains(ids[i].id) {
                    0int
                } else {
                    nodes[ids[i].id].edges_view().len() as int
                },
            |i: int| nodes[ids[i].id].edges_view().len() as int,
            n,
        );
    } else {
        let shorter = around.drop_last();
        let w = around.last();
        assert forall|j: int| 0 <= j < shorter.len() implies nodes.contains_key(#[trigger] shorter[j].id) by {
            assert(shorter[j] == around[j]);
        }
        lemma_lengths_sum_bound(nodes, ids, shorter);
        assert(around[around.len() - 1] == w);
        assert(nodes.contains_key(around[around.len() - 1].id));
        assert(!id_set(shorter).contains(w.id)) by {
            if shorter.contains(NodeId { id: w.id }) {
                let j = choose|j: int| 0 <= j < shorter.len() && shorter[j] == (NodeId { id: w.id });
                assert(around[j] == w);
            }
        }
        lemma_live_sum_remove(nodes, ids, id_set(shorter), w.id);
        assert(id_set(around) =~= id_set(shorter).insert(w.id)) by {
            assert forall|k: i64| id_set(around).contains(k) <==> id_set(shorter).insert(w.id).contains(
                k,
            ) by {
                let x = NodeId { id: k };
                if around.contains(x) {
                    let j = choose|j: int| 0 <= j < around.len() && around[j] == x;
                    if j < shorter.len() {
                        assert(shorter[j] == x);
                    }
                }
                if shorter.contains(x) {
                    let j = choose|j: int| 0 <= j < shorter.len() && shorter[j] == x;
                    assert(around[j] == x);
                }
            }
        }
    }
}

/// No more half-edges lead into a set than the nodes have.
pub proof fn lemma_ties_sum_bound<N: NodeBase>(nodes: Map<i64, N>, around: Seq<NodeId>, inside: Set<i64>)
    ensures
        ties_sum(nodes, around, inside) <= lengths_sum(nodes, around),
    decreases around.len(),
{
    if around.len() > 0 {
        lemma_ties_sum_bound(nodes, around.drop_last(), inside);
        lemma_ties_bound(nodes[around.last().id].edges_view(), inside);
    }
}

/// Puts the integers of `around` into a set.
pub fn collect_id_set(around: &Vec<NodeId>) -> (r: HashSet<i64>)
    ensures
        r@ == id_set(around@),
{
    let mut inside: HashSet<i64> = HashSet::new();
    let mut j: usize = 0;
    while j < around.len()
        invariant
            j <= around.len(),
            inside@ == id_set(around@.subrange(0, j as int)),
        decreases around.len() - j,
    {
        let ghost shorter = around@.subrange(0, j as int);
        let ghost longer = around@.subrange(0, j + 1);
        let key: i64 = around[j].value();
        inside.insert(key);
        proof {
            assert(longer[j as int] == NodeId { id: key });
            assert(inside@ =~= id_set(longer)) by {
                assert forall|k: i64| inside@.contains(k) <==> id_set(longer).contains(k) by {
                    let x = NodeId { id: k };
                    if shorter.contains(x) {
                        let t = choose|t: int| 0 <= t < shorter.len() && shorter[t] == x;
                        assert(longer[t] == x);
                    }
                    if longer.contains(x) {
                        let t = choose|t: int| 0 <= t < longer.len() && longer[t] == x;
                        if t < j {
                            assert(shorter[t] == x);
                        }
                    }
                }
            }
        }
        j += 1;
    }
    assert(around@.subrange(0, around.len() as int) =~= around@);
    inside
}

/// Clustering of a graph: how far the neighbors of a node are neighbors of
/// one another.
pub trait Clustering: GraphBase {
    /// The edges among the neighbors of `id`, counted at both ends.
    fn get_neighbor_ties(&self, id: NodeId) -> (r: usize)
        requires
            self.wf(),
            self.nodes_view().contains_key(id.id),
        ensures
            r == neighbor_ties(self.nodes_view(), id),
    {
        let ghost nodes = self.nodes_view();
        let ghost ids = self.ids_view();
        let node: &Self::NodeType = self.get_node(id);
        let around: Vec<NodeId> = node.get_neighbor_ids();
        let inside: HashSet<i64> = collect_id_set(&around);
        proof {
            self.lemma_wf();
            lemma_distinct_properties(nodes[id.id].edges_view());
            assert(inside@ =~= id_set(nodes[id.id].edges_view())) by {
                assert forall|k: i64| inside@.contains(k) <==> id_set(nodes[id.id].edges_view()).contains(
                    k,
                ) by {}
            }
            assert forall|j: int| 0 <= j < around@.len() implies nodes.contains_key(
                #[trigger] around@[j].id,
            ) by {
                let edges = nodes[id.id].edges_view();
                assert(around@ == distinct(edges));
                assert(distinct(edges).contains(around@[j]));
                assert(edges.contains(around@[j]));
                let at = choose|at: int| 0 <= at < edges.len() && edges[at] == around@[j];
                assert(nodes.contains_key(nodes[id.id].edges_view()[at].id));
            }
            lemma_lengths_sum_bound(nodes, ids, around@);
        }
        let mut total: usize = 0;
        let mut j: usize = 0;
        while j < around.len()
            invariant
                j <= around.len(),
                self.wf(),
                nodes == self.nodes_view(),
                ids == self.ids_view(),
                well_formed(nodes, ids),
                forall|j: int| 0 <= j < around@.len() ==> nodes.contains_key(#[trigger] around@[j].id),
                lengths_sum(nodes, around@) <= degree_sum(nodes, ids),
                total == ties_sum(nodes, around@.subrange(0, j as int), inside@),
            decreases around.len() - j,
        {
            let w: NodeId = around[j];
            let ghost longer = around@.subrange(0, j + 1);
            proof {
                assert(longer.drop_last() =~= around@.subrange(0, j as int));
                assert(nodes.contains_key(around@[j as int].id));
                assert(w == NodeId { id: w.id });
                assert(ids.contains(w));
                let at = choose|at: int| 0 <= at < ids.len() && ids[at] == w;
                lemma_degree_bound(nodes, ids, at);
                lemma_ties_sum_bound(nodes, longer, inside@);
                lemma_lengths_prefix(nodes, around@, j + 1);
            }
            let more: usize = self.get_node(w).count_ties_with_ids(&inside);
            total += more;
            j += 1;
        }
        assert(around@.subrange(0, around.len() as int) =~= around@);
        total
    }

    /// The clustering coefficient of `id` as a fraction: the edges among its
    /// neighbors, counted at both ends, over the ordered pairs of its
    /// half-edges. A node of degree below 2 has none.
    fn get_clustering_coefficient(&self, id: NodeId) -> (r: Option<(usize, u128)>)
        requires
            self.wf(),
            self.nodes_view().contains_key(id.id),
        ensures
            match r {
                Some(f) => clustering_fraction(self.nodes_view(), id) == Some((f.0 as nat, f.1 as nat)),
                None => clustering_fraction(self.nodes_view(), id) is None,
            },
    {
        let ghost nodes = self.nodes_view();
        let ghost ids = self.ids_view();
        proof {
            self.lemma_wf();
            let node_id = NodeId { id: id.id };
            assert(ids.contains(node_id));
            let at = choose|at: int| 0 <= at < ids.len() && ids[at] == node_id;
            lemma_degree_bound(nodes, ids, at);
        }
        let d: usize = self.get_node(id).degree();
        if d <= 1 {
            return None;
        }
        let ties: usize = self.get_neighbor_ties(id);
        let wide: u128 = d as u128;
        proof {
            assert(wide * (wide - 1) <= u128::MAX) by (nonlinear_arith)
                requires
                    0 < wide <= 0xffff_ffff_ffff_ffff,
            ;
        }
        Some((ties, wide * (wide - 1)))
    }
}

/// The half-edges of the first nodes of a list are at most those of all.
pub proof fn lemma_lengths_prefix<N: NodeBase>(nodes: Map<i64, N>, around: Seq<NodeId>, m: int)
    requires
        0 <= m <= around.len(),
    ensures
        lengths_sum(nodes, around.subrange(0, m)) <= lengths_sum(nodes, around),
    decreases around.len() - m,
{
    if m < around.len() {
        lemma_lengths_prefix(nodes, around, m + 1);
        assert(around.subrange(0, m + 1).drop_last() =~= around.subrange(0, m));
    } else {
        assert(around.subrange(0, m) =~= around);
    }
}

} // verus!
