//! Estimates of clustering and transitivity from numbers drawn by chance.

use vstd::prelude::*;
use vstd::arithmetic::div_mod::lemma_mod_pos_bound;
use crate::dachshund::algorithms::clustering::{pairs_of, Clustering};
use crate::dachshund::algorithms::transitivity::{lemma_triples_prefix, triples_sum, Transitivity};
use crate::dachshund::graph_base::{lemma_degree_bound, well_formed, GraphBase};
use crate::dachshund::id_types::NodeId;
use crate::dachshund::node::{contains_id, NodeBase};

verus! {

/// Three numbers drawn by chance: one to pick a node, two to pick two of
/// its half-edges. Any numbers will do; they are cut down to size.
#[derive(Clone, Copy, Debug, PartialEq, Eq, Structural)]
pub struct Draw {
    pub node: u128,
    pub first: usize,
    pub second: usize,
}

/// The nodes of `ids` with two or more half-edges, in order.
pub open spec fn wide<N: NodeBase>(nodes: Map<i64, N>, ids: Seq<NodeId>) -> Seq<NodeId>
    decreases ids.len(),
{
    if ids.len() == 0 {
        Seq::empty()
    } else if nodes[ids.last().id].edges_view().len() >= 2 {
        wide(nodes, ids.drop_last()).push(ids.last())
    } else {
        wide(nodes, ids.drop_last())
    }
}

/// The place of the first half-edge that the draw picks among `d`.
pub open spec fn first_place(draw: Draw, d: int) -> int {
    draw.first as int % d
}

/// The place of the second half-edge that the draw picks among `d`: between
/// one and `d - 1` places behind the first, around the end of the list, so
/// never the first again.
pub open spec fn second_place(draw: Draw, d: int) -> int {
    let sum = first_place(draw, d) + 1 + draw.second as int % (d - 1);
    if sum < d {
        sum
    } else {
        sum - d
    }
}

/// Whether the two neighbors of `v` that the draw picks are joined by an
/// edge.
pub open spec fn closes<N: NodeBase>(nodes: Map<i64, N>, v: NodeId, draw: Draw) -> bool {
    let edges = nodes[v.id].edges_view();
    let d = edges.len() as int;
    nodes[edges[first_place(draw, d)].id].edges_view().contains(edges[second_place(draw, d)])
}

/// The node that the draw picks where every candidate is as likely as any
/// other.
pub open spec fn picked_evenly(candidates: Seq<NodeId>, draw: Draw) -> NodeId {
    candidates[draw.node as int % candidates.len() as int]
}

/// How many of the draws pick, among the candidates, a node and two of its
/// neighbors that are joined.
pub open spec fn closed_evenly<N: NodeBase>(nodes: Map<i64, N>, candidates: Seq<NodeId>, draws: Seq<Draw>) -> nat
    decreases draws.len(),
{
    if draws.len() == 0 {
        0
    } else {
        closed_evenly(nodes, candidates, draws.drop_last()) + if closes(
            nodes,
            picked_evenly(candidates, draws.last()),
            draws.last(),
        ) {
            1nat
        } else {
            0nat
        }
    }
}

/// Whether the number `r` falls to the `i`-th node when the nodes are laid
/// end to end, each as wide as it has triples.
pub open spec fn is_weighted_place<N: NodeBase>(nodes: Map<i64, N>, ids: Seq<NodeId>, r: nat, i: int) -> bool {
    &&& 0 <= i < ids.len()
    &&& triples_sum(nodes, ids.subrange(0, i)) <= r < triples_sum(nodes, ids.subrange(0, i + 1))
}

/// Whether the draw picks, each node as likely as it has triples, a node
/// and two of its neighbors that are joined.
pub open spec fn closes_by_weight<N: NodeBase>(nodes: Map<i64, N>, ids: Seq<NodeId>, draw: Draw) -> bool {
    exists|i: int| #[trigger]
        is_weighted_place(nodes, ids, (draw.node as int % triples_sum(nodes, ids) as int) as nat, i)
            && closes(nodes, ids[i], draw)
}

/// How many of the draws pick, each node as likely as it has triples, a
/// node and two of its neighbors that are joined.
pub open spec fn closed_by_weight<N: NodeBase>(nodes: Map<i64, N>, ids: Seq<NodeId>, draws: Seq<Draw>) -> nat
    decreases draws.len(),
{
    if draws.len() == 0 {
        0
    } else {
        closed_by_weight(nodes, ids, draws.drop_last()) + if closes_by_weight(nodes, ids, draws.last()) {
            1nat
        } else {
            0nat
        }
    }
}

/// A number falls to one node only.
pub proof fn lemma_weighted_place_unique<N: NodeBase>(
    nodes: Map<i64, N>,
    ids: Seq<NodeId>,
    r: nat,
    i: int,
    j: int,
)
    requires
        is_weighted_place(nodes, ids, r, i),
        is_weighted_place(nodes, ids, r, j),
    ensures
        i == j,
{
    if i < j {
        lemma_triples_prefix(nodes, ids.subrange(0, j), i + 1);
        assert(ids.subrange(0, j).subrange(0, i + 1) =~= ids.subrange(0, i + 1));
    }
    if j < i {
        lemma_triples_prefix(nodes, ids.subrange(0, i), j + 1);
        assert(ids.subrange(0, i).subrange(0, j + 1) =~= ids.subrange(0, j + 1));
    }
}

/// The nodes with two or more half-edges are nodes of the graph and have
/// two or more half-edges.
pub proof fn lemma_wide_members<N: NodeBase>(nodes: Map<i64, N>, ids: Seq<NodeId>, j: int)
    requires
        0 <= j < wide(nodes, ids).len(),
    ensures
        ids.contains(wide(nodes, ids)[j]),
        nodes[wide(nodes, ids)[j].id].edges_view().len() >= 2,
    decreases ids.len(),
{
    if ids.len() > 0 {
        let before = wide(nodes, ids.drop_last());
        if j < before.len() {
            lemma_wide_members(nodes, ids.drop_last(), j);
            let at = choose|at: int| 0 <= at < ids.drop_last().len() && ids.drop_last()[at] == before[j];
            assert(ids[at] == before[j]);
        } else {
            assert(ids[ids.len() - 1] == ids.last());
        }
    }
}

/// Tells whether the two neighbors of `v` that the draw picks are joined by
/// an edge.
pub fn is_closed_draw<G: GraphBase>(g: &G, v: NodeId, draw: Draw) -> (r: bool)
    requires
        g.wf(),
        g.nodes_view().contains_key(v.id),
        g.nodes_view()[v.id].edges_view().len() >= 2,
    ensures
        r == closes(g.nodes_view(), v, draw),
{
    let ghost nodes = g.nodes_view();
    proof {
        g.lemma_wf();
    }
    let edges: Vec<NodeId> = g.get_node(v).get_edges();
    let d: usize = edges.len();
    proof {
        lemma_mod_pos_bound(draw.first as int, d as int);
        lemma_mod_pos_bound(draw.second as int, d - 1);
    }
    let first: usize = draw.first % d;
    let step: usize = 1 + draw.second % (d - 1);
    let second: usize = if first >= d - step {
        first - (d - step)
    } else {
        first + step
    };
    let a: NodeId = edges[first];
    let b: NodeId = edges[second];
    proof {
        assert(first == first_place(draw, d as int));
        assert(second == second_place(draw, d as int));
        assert(nodes.contains_key(nodes[v.id].edges_view()[first as int].id));
    }
    let around: Vec<NodeId> = g.get_node(a).get_edges();
    contains_id(&around, b)
}

/// Sampling of how often two neighbors of a node are joined.
pub trait Sampling: Transitivity {
    /// The nodes with two or more half-edges, in iteration order.
    fn get_wide_nodes(&self) -> (r: Vec<NodeId>)
        requires
            self.wf(),
        ensures
            r@ == wide(self.nodes_view(), self.ids_view()),
    {
        let ghost nodes = self.nodes_view();
        let ids: &Vec<NodeId> = self.get_core_ids();
        proof {
            self.lemma_wf();
        }
        let mut found: Vec<NodeId> = Vec::new();
        let mut i: usize = 0;
        while i < ids.len()
            invariant
                i <= ids.len(),
                self.wf(),
                nodes == self.nodes_view(),
                ids@ == self.ids_view(),
                well_formed(nodes, ids@),
                found@ == wide(nodes, ids@.subrange(0, i as int)),
            decreases ids.len() - i,
        {
            proof {
                assert(ids@.contains(ids@[i as int]));
                assert(ids@.subrange(0, i + 1).drop_last() =~= ids@.subrange(0, i as int));
                lemma_degree_bound(nodes, ids@, i as int);
            }
            if self.get_node(ids[i]).degree() >= 2 {
                found.push(ids[i]);
            }
            i += 1;
        }
        assert(ids@.subrange(0, ids.len() as int) =~= ids@);
        found
    }

    /// An estimate of the average clustering as a fraction: of the draws,
    /// each of which picks a node with two or more half-edges, every such
    /// node as likely as any other, and two of its half-edges, how many pick
    /// two neighbors that are joined. There is none without a draw or
    /// without such a node.
    fn sample_avg_clustering(&self, draws: &Vec<Draw>) -> (r: Option<(usize, usize)>)
        requires
            self.wf(),
        ensures
            match r {
                Some(f) => {
                    &&& draws@.len() > 0
                    &&& wide(self.nodes_view(), self.ids_view()).len() > 0
                    &&& f.0 == closed_evenly(
                        self.nodes_view(),
                        wide(self.nodes_view(), self.ids_view()),
                        draws@,
                    )
                    &&& f.1 == draws@.len()
                },
                None => draws@.len() == 0 || wide(self.nodes_view(), self.ids_view()).len() == 0,
            },
    {
        let ghost nodes = self.nodes_view();
        let candidates: Vec<NodeId> = self.get_wide_nodes();
        if draws.len() == 0 || candidates.len() == 0 {
            return None;
        }
        proof {
            self.lemma_wf();
        }
        let mut closed: usize = 0;
        let mut k: usize = 0;
        while k < draws.len()
            invariant
                k <= draws.len(),
                self.wf(),
                nodes == self.nodes_view(),
                well_formed(nodes, self.ids_view()),
                candidates@ == wide(nodes, self.ids_view()),
                candidates@.len() > 0,
                closed == closed_evenly(nodes, candidates@, draws@.subrange(0, k as int)),
                closed <= k,
            decreases draws.len() - k,
        {
            let draw: Draw = draws[k];
            proof {
                assert(draws@.subrange(0, k + 1).drop_last() =~= draws@.subrange(0, k as int));
                assert(draws@.subrange(0, k + 1).last() == draw);
                lemma_mod_pos_bound(draw.node as int, candidates@.len() as int);
            }
            let at: usize = (draw.node % (candidates.len() as u128)) as usize;
            let v: NodeId = candidates[at];
            proof {
                lemma_wide_members(nodes, self.ids_view(), at as int);
                assert(nodes.contains_key(v.id));
                assert(v == picked_evenly(candidates@, draw));
            }
            if is_closed_draw(self, v, draw) {
                closed += 1;
            }
            k += 1;
        }
        assert(draws@.subrange(0, draws.len() as int) =~= draws@);
        Some((closed, draws.len()))
    }

    /// The place of the node that the number `r` falls to when the nodes are
    /// laid end to end in iteration order, each as wide as it has triples.
    fn pick_by_triples(&self, r: u128) -> (i: usize)
        requires
            self.wf(),
            r < triples_sum(self.nodes_view(), self.ids_view()),
        ensures
            is_weighted_place(self.nodes_view(), self.ids_view(), r as nat, i as int),
    {
        let ghost nodes = self.nodes_view();
        let ids: &Vec<NodeId> = self.get_core_ids();
        proof {
            self.lemma_wf();
        }
        let mut before: u128 = 0;
        let mut i: usize = 0;
        while i < ids.len()
            invariant
                i <= ids.len(),
                self.wf(),
                nodes == self.nodes_view(),
                ids@ == self.ids_view(),
                well_formed(nodes, ids@),
                r < triples_sum(nodes, ids@),
                before == triples_sum(nodes, ids@.subrange(0, i as int)),
                before <= r,
            decreases ids.len() - i,
        {
            proof {
                assert(ids@.contains(ids@[i as int]));
                assert(ids@.subrange(0, i + 1).drop_last() =~= ids@.subrange(0, i as int));
            }
            let width: u128 = self.triples_count(ids[i]);
            if r - before < width {
                return i;
            }
            before = before + width;
            i += 1;
        }
        proof {
            assert(ids@.subrange(0, ids.len() as int) =~= ids@);
            assert(false);
        }
        i
    }

    /// An estimate of the transitivity as a fraction: of the draws, each of
    /// which picks a node, every node as likely as it has triples, and two
    /// of its half-edges, how many pick two neighbors that are joined. There
    /// is none without a draw, without a triple, or with more triples than
    /// 128 bits count.
    fn sample_transitivity(&self, draws: &Vec<Draw>) -> (r: Option<(usize, usize)>)
        requires
            self.wf(),
        ensures
            match r {
                Some(f) => {
                    &&& draws@.len() > 0
                    &&& 0 < triples_sum(self.nodes_view(), self.ids_view()) <= u128::MAX
                    &&& f.0 == closed_by_weight(self.nodes_view(), self.ids_view(), draws@)
                    &&& f.1 == draws@.len()
                },
                None => {
                    ||| draws@.len() == 0
                    ||| triples_sum(self.nodes_view(), self.ids_view()) == 0
                    ||| triples_sum(self.nodes_view(), self.ids_view()) > u128::MAX
                },
            },
    {
        let ghost nodes = self.nodes_view();
        let ghost listed = self.ids_view();
        if draws.len() == 0 {
            return None;
        }
        let total: u128 = match self.get_transitivity() {
            Ok(f) => f.1,
            Err(_) => {
                return None;
            },
        };
        let ids: &Vec<NodeId> = self.get_core_ids();
        proof {
            self.lemma_wf();
        }
        let mut closed: usize = 0;
        let mut k: usize = 0;
        while k < draws.len()
            invariant
                k <= draws.len(),
                self.wf(),
                nodes == self.nodes_view(),
                listed == self.ids_view(),
                ids@ == listed,
                well_formed(nodes, listed),
                total == triples_sum(nodes, listed),
                total > 0,
                closed == closed_by_weight(nodes, listed, draws@.subrange(0, k as int)),
                closed <= k,
            decreases draws.len() - k,
        {
            let draw: Draw = draws[k];
            proof {
                assert(draws@.subrange(0, k + 1).drop_last() =~= draws@.subrange(0, k as int));
                assert(draws@.subrange(0, k + 1).last() == draw);
                lemma_mod_pos_bound(draw.node as int, total as int);
            }
            let r: u128 = draw.node % total;
            let at: usize = self.pick_by_triples(r);
            let v: NodeId = ids[at];
            proof {
                assert(ids@.contains(ids@[at as int]));
                assert(nodes.contains_key(v.id));
                assert(ids@.subrange(0, at + 1).drop_last() =~= ids@.subrange(0, at as int));
                let d = nodes[v.id].edges_view().len();
                assert(pairs_of(d) / 2 > 0);
                if d < 2 {
                    assert(pairs_of(d) == 0) by (nonlinear_arith)
                        requires
                            d < 2,
                            pairs_of(d) == if d == 0 {
                                0
                            } else {
                                (d * (d - 1)) as nat
                            },
                    ;
                }
            }
            let found: bool = is_closed_draw(self, v, draw);
            proof {
                let place = (draw.node as int % triples_sum(nodes, listed) as int) as nat;
                assert(place == r);
                assert(is_weighted_place(nodes, listed, place, at as int));
                assert(found == closes(nodes, listed[at as int], draw));
                if closes_by_weight(nodes, listed, draw) {
                    let other = choose|other: int| #[trigger]
                        is_weighted_place(nodes, listed, place, other) && closes(nodes, listed[other], draw);
                    lemma_weighted_place_unique(nodes, listed, place, at as int, other);
                    assert(found);
                }
                if found {
                    assert(closes_by_weight(nodes, listed, draw));
                }
            }
            if found {
                closed += 1;
            }
            k += 1;
        }
        assert(draws@.subrange(0, draws.len() as int) =~= draws@);
        Some((closed, draws.len()))
    }
}

} // verus!
