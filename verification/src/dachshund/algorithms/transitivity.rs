//! The transitivity of a graph, as a fraction.

use vstd::prelude::*;
use crate::dachshund::algorithms::clustering::{neighbor_ties, pairs_of, Clustering};
use crate::dachshund::error::{CLQError, CLQResult};
use crate::dachshund::graph_base::{lemma_degree_bound, well_formed, GraphBase};
use crate::dachshund::id_types::NodeId;
use crate::dachshund::node::NodeBase;

verus! {

/// The triangles that the nodes listed in `ids` stand in, each counted at
/// the node.
pub open spec fn triangles_sum<N: NodeBase>(nodes: Map<i64, N>, ids: Seq<NodeId>) -> nat
    decreases ids.len(),
{
    if ids.len() == 0 {
        0
    } else {
        triangles_sum(nodes, ids.drop_last()) + neighbor_ties(nodes, ids.last()) / 2
    }
}

/// The triples that the nodes listed in `ids` are the middle of: the pairs
/// of half-edges of each.
pub open spec fn triples_sum<N: NodeBase>(nodes: Map<i64, N>, ids: Seq<NodeId>) -> nat
    decreases ids.len(),
{
    if ids.len() == 0 {
        0
    } else {
        triples_sum(nodes, ids.drop_last()) + pairs_of(nodes[ids.last().id].edges_view().len()) / 2
    }
}

/// The triples of the first nodes of a list are at most those of all.
pub proof fn lemma_triples_prefix<N: NodeBase>(nodes: Map<i64, N>, ids: Seq<NodeId>, m: int)
    requires
        0 <= m <= ids.len(),
    ensures
        triples_sum(nodes, ids.subrange(0, m)) <= triples_sum(nodes, ids),
    decreases ids.len() - m,
{
    if m < ids.len() {
        lemma_triples_prefix(nodes, ids, m + 1);
        assert(ids.subrange(0, m + 1).drop_last() =~= ids.subrange(0, m));
    } else {
        assert(ids.subrange(0, m) =~= ids);
    }
}

/// Transitivity of a graph: how many of its triples are closed to
/// triangles.
pub trait Transitivity: Clustering {
    /// The triangles that `id` stands in: the edges among its neighbors.
    fn triangle_count(&self, id: NodeId) -> (r: usize)
        requires
            self.wf(),
            self.nodes_view().contains_key(id.id),
        ensures
            r == neighbor_ties(self.nodes_view(), id) / 2,
    {
        self.get_neighbor_ties(id) / 2
    }

    /// The triples that `id` is the middle of: the pairs of its half-edges.
    fn triples_count(&self, id: NodeId) -> (r: u128)
        requires
            self.wf(),
            self.nodes_view().contains_key(id.id),
        ensures
            r == pairs_of(self.nodes_view()[id.id].edges_view().len()) / 2,
    {
        proof {
            self.lemma_wf();
            let node_id = NodeId { id: id.id };
            assert(self.ids_view().contains(node_id));
            let at = choose|at: int| 0 <= at < self.ids_view().len() && self.ids_view()[at] == node_id;
            lemma_degree_bound(self.nodes_view(), self.ids_view(), at);
        }
        let d: u128 = self.get_node(id).degree() as u128;
        if d == 0 {
            return 0;
        }
        proof {
            assert(d * (d - 1) <= u128::MAX) by (nonlinear_arith)
                requires
                    0 < d <= 0xffff_ffff_ffff_ffff,
            ;
        }
        d * (d - 1) / 2
    }

    /// The transitivity of the graph as a fraction: three times its
    /// triangles, which is the triangles counted at each of their nodes, over
    /// its triples. A graph without a triple has none, and triples beyond
    /// what 128 bits count are not counted.
    fn get_transitivity(&self) -> (r: CLQResult<(u128, u128)>)
        requires
            self.wf(),
        ensures
            match r {
                Ok(f) => {
                    &&& f.0 == triangles_sum(self.nodes_view(), self.ids_view())
                    &&& f.1 == triples_sum(self.nodes_view(), self.ids_view())
                    &&& f.1 > 0
                },
                Err(e) => {
                    let triples = triples_sum(self.nodes_view(), self.ids_view());
                    ||| triples == 0 && e is AlgorithmPrecondition
                    ||| triples > u128::MAX && e is NumericError
                },
            },
    {
        let ghost nodes = self.nodes_view();
        let ids: &Vec<NodeId> = self.get_core_ids();
        proof {
            self.lemma_wf();
        }
        let mut triangles: u128 = 0;
        let mut triples: u128 = 0;
        let mut i: usize = 0;
        while i < ids.len()
            invariant
                i <= ids.len(),
                self.wf(),
                nodes == self.nodes_view(),
                ids@ == self.ids_view(),
                well_formed(nodes, ids@),
                triangles == triangles_sum(nodes, ids@.subrange(0, i as int)),
                triangles <= i * usize::MAX,
                triples == triples_sum(nodes, ids@.subrange(0, i as int)),
            decreases ids.len() - i,
        {
            let id: NodeId = ids[i];
            proof {
                assert(ids@.contains(ids@[i as int]));
                assert(ids@.subrange(0, i + 1).drop_last() =~= ids@.subrange(0, i as int));
                lemma_triples_prefix(nodes, ids@, i + 1);
                assert((i + 1) * usize::MAX <= u128::MAX) by (nonlinear_arith)
                    requires
                        0 <= i < 0xffff_ffff_ffff_ffff,
                        usize::MAX <= 0xffff_ffff_ffff_ffff,
                ;
                assert((i + 1) * usize::MAX == i * usize::MAX + usize::MAX) by (nonlinear_arith);
            }
            let closed: usize = self.triangle_count(id);
            triangles += closed as u128;
            let open: u128 = self.triples_count(id);
            match triples.checked_add(open) {
                Some(sum) => {
                    triples = sum;
                },
                None => {
                    return Err(CLQError::NumericError("too many triples".to_owned()));
                },
            }
            i += 1;
        }
        assert(ids@.subrange(0, ids.len() as int) =~= ids@);
        if triples == 0 {
            return Err(CLQError::AlgorithmPrecondition("graph has no triples".to_owned()));
        }
        Ok((triangles, triples))
    }
}

} // verus!
