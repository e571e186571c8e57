//! Communities by joining, after Clauset, Newman and Moore, in whole
//! numbers.

use vstd::prelude::*;
use std::collections::HashMap;
use crate::dachshund::algorithms::connected_components::{
    edge_key, get_edge_key, lemma_edge_key_injective,
};
use crate::dachshund::graph_base::{
    degree_sum, lemma_degree_bound, lemma_degree_sum_prefix, well_formed, GraphBase,
};
use crate::dachshund::id_types::NodeId;
use crate::dachshund::node::NodeBase;
use crate::dachshund::sums::{lemma_sum_change_at, lemma_sum_monotone, sum_to};

verus! {

/// How many entries of `edges` lead to a node with the label `d`.
pub open spec fn hits(edges: Seq<NodeId>, labels: Map<i64, i64>, d: i64) -> nat
    decreases edges.len(),
{
    if edges.len() == 0 {
        0
    } else {
        hits(edges.drop_last(), labels, d) + if labels[edges.last().id] == d {
            1nat
        } else {
            0nat
        }
    }
}

/// The degrees of the nodes with the label `c`, added up.
pub open spec fn label_degree<N: NodeBase>(
    nodes: Map<i64, N>,
    ids: Seq<NodeId>,
    labels: Map<i64, i64>,
    c: i64,
) -> nat
    decreases ids.len(),
{
    if ids.len() == 0 {
        0
    } else {
        label_degree(nodes, ids.drop_last(), labels, c) + if labels[ids.last().id] == c {
            nodes[ids.last().id].edges_view().len()
        } else {
            0nat
        }
    }
}

/// The edges between the communities `c` and `d`: the half-edges of the
/// nodes with the label `c` that lead to a node with the label `d`.
pub open spec fn cross_edges<N: NodeBase>(
    nodes: Map<i64, N>,
    ids: Seq<NodeId>,
    labels: Map<i64, i64>,
    c: i64,
    d: i64,
) -> nat
    decreases ids.len(),
{
    if ids.len() == 0 {
        0
    } else {
        cross_edges(nodes, ids.drop_last(), labels, c, d) + if labels[ids.last().id] == c {
            hits(nodes[ids.last().id].edges_view(), labels, d)
        } else {
            0nat
        }
    }
}

/// What joining two communities adds to the modularity, in units of one
/// over the square of twice the number of edges: with `e` edges between
/// them and degree sums `kc` and `kd`, and `two_m` half-edges in all, that
/// is `2 (two_m e - kc kd)`.
pub open spec fn gain_of(two_m: int, e: int, kc: int, kd: int) -> int {
    2 * (two_m * e - kc * kd)
}

/// What joining the communities `c` and `d` adds to the modularity.
pub open spec fn gain<N: NodeBase>(
    nodes: Map<i64, N>,
    ids: Seq<NodeId>,
    labels: Map<i64, i64>,
    c: i64,
    d: i64,
) -> int {
    gain_of(
        degree_sum(nodes, ids) as int,
        cross_edges(nodes, ids, labels, c, d) as int,
        label_degree(nodes, ids, labels, c) as int,
        label_degree(nodes, ids, labels, d) as int,
    )
}

/// Whether `c` and `d` are two communities that can be joined: an edge
/// leads from one to the other. The smaller label stands first.
pub open spec fn is_candidate<N: NodeBase>(
    nodes: Map<i64, N>,
    ids: Seq<NodeId>,
    labels: Map<i64, i64>,
    c: i64,
    d: i64,
) -> bool {
    c < d && cross_edges(nodes, ids, labels, c, d) > 0
}

/// Whether the pair `(c, d)` comes before `(c2, d2)` or is the same.
pub open spec fn precedes(c: i64, d: i64, c2: i64, d2: i64) -> bool {
    c < c2 || (c == c2 && d <= d2)
}

/// Whether joining `c` and `d` is to be preferred to joining `c2` and `d2`:
/// it adds more, or as much and the pair comes first.
pub open spec fn beats(own: int, c: i64, d: i64, other: int, c2: i64, d2: i64) -> bool {
    other < own || (other == own && precedes(c, d, c2, d2))
}

/// Whether `c` and `d` are the communities to join next: no other two are
/// to be preferred.
pub open spec fn is_best<N: NodeBase>(
    nodes: Map<i64, N>,
    ids: Seq<NodeId>,
    labels: Map<i64, i64>,
    c: i64,
    d: i64,
) -> bool {
    &&& is_candidate(nodes, ids, labels, c, d)
    &&& forall|c2: i64, d2: i64| #[trigger]
        is_candidate(nodes, ids, labels, c2, d2) ==> beats(
            gain(nodes, ids, labels, c, d),
            c,
            d,
            gain(nodes, ids, labels, c2, d2),
            c2,
            d2,
        )
}

/// The communities to join next.
pub open spec fn best_pair<N: NodeBase>(nodes: Map<i64, N>, ids: Seq<NodeId>, labels: Map<i64, i64>) -> (
    i64,
    i64,
) {
    choose|p: (i64, i64)| is_best(nodes, ids, labels, p.0, p.1)
}

/// Whether joining some two communities adds to the modularity.
pub open spec fn can_merge<N: NodeBase>(nodes: Map<i64, N>, ids: Seq<NodeId>, labels: Map<i64, i64>) -> bool {
    exists|c: i64, d: i64| #[trigger]
        is_candidate(nodes, ids, labels, c, d) && gain(nodes, ids, labels, c, d) > 0
}

/// The labels when the community `from` has joined the community `to`.
pub open spec fn relabel(labels: Map<i64, i64>, from: i64, to: i64) -> Map<i64, i64> {
    labels.map_values(|l: i64| if l == from { to } else { l })
}

/// The labels at the start: every node is a community of its own, with its
/// own integer as the label.
pub open spec fn own_labels<N: NodeBase>(nodes: Map<i64, N>) -> Map<i64, i64> {
    Map::new(|v: i64| nodes.contains_key(v), |v: i64| v)
}

/// The labels after `k` joins, each of the two communities that are to be
/// joined next; the joined community keeps the smaller label.
pub open spec fn labels_after<N: NodeBase>(nodes: Map<i64, N>, ids: Seq<NodeId>, k: nat) -> Map<i64, i64>
    decreases k,
{
    if k == 0 {
        own_labels(nodes)
    } else {
        let before = labels_after(nodes, ids, (k - 1) as nat);
        let pair = best_pair(nodes, ids, before);
        relabel(before, pair.1, pair.0)
    }
}

/// What the join after `k` joins adds to the modularity.
pub open spec fn gain_at<N: NodeBase>(nodes: Map<i64, N>, ids: Seq<NodeId>, k: nat) -> int {
    let before = labels_after(nodes, ids, k);
    let pair = best_pair(nodes, ids, before);
    gain(nodes, ids, before, pair.0, pair.1)
}

/// Whether `labels` and `changes` are what joining communities gives:
/// communities are joined as long as a join adds to the modularity, each
/// time the two whose join adds most, and of several such pairs the one with
/// the smallest labels; `changes` lists what each join adds, and `labels`
/// gives each node the label of its community in the end.
pub open spec fn is_cnm_result<N: NodeBase>(
    nodes: Map<i64, N>,
    ids: Seq<NodeId>,
    labels: Map<i64, i64>,
    changes: Seq<int>,
) -> bool {
    &&& forall|k: nat|
        k < changes.len() ==> can_merge(nodes, ids, #[trigger] labels_after(nodes, ids, k))
            && changes[k as int] == gain_at(nodes, ids, k)
    &&& !can_merge(nodes, ids, labels_after(nodes, ids, changes.len()))
    &&& labels == labels_after(nodes, ids, changes.len())
}

/// Only one pair of communities is to be joined next.
pub proof fn lemma_best_unique<N: NodeBase>(
    nodes: Map<i64, N>,
    ids: Seq<NodeId>,
    labels: Map<i64, i64>,
    c: i64,
    d: i64,
)
    requires
        is_best(nodes, ids, labels, c, d),
    ensures
        best_pair(nodes, ids, labels) == (c, d),
{
    let witness = (c, d);
    assert(is_best(nodes, ids, labels, witness.0, witness.1));
    let p = best_pair(nodes, ids, labels);
    assert(is_best(nodes, ids, labels, p.0, p.1));
    assert(is_candidate(nodes, ids, labels, p.0, p.1));
    assert(is_candidate(nodes, ids, labels, c, d));
}

/// No more half-edges lead to a label than there are.
pub proof fn lemma_hits_bound(edges: Seq<NodeId>, labels: Map<i64, i64>, d: i64)
    ensures
        hits(edges, labels, d) <= edges.len(),
    decreases edges.len(),
{
    if edges.len() > 0 {
        lemma_hits_bound(edges.drop_last(), labels, d);
    }
}

/// The degrees of one community and the edges from it are at most all
/// half-edges.
pub proof fn lemma_label_bounds<N: NodeBase>(
    nodes: Map<i64, N>,
    ids: Seq<NodeId>,
    labels: Map<i64, i64>,
    c: i64,
    d: i64,
)
    ensures
        cross_edges(nodes, ids, labels, c, d) <= label_degree(nodes, ids, labels, c),
        label_degree(nodes, ids, labels, c) <= degree_sum(nodes, ids),
    decreases ids.len(),
{
    if ids.len() > 0 {
        lemma_label_bounds(nodes, ids.drop_last(), labels, c, d);
        lemma_hits_bound(nodes[ids.last().id].edges_view(), labels, d);
    }
}

/// Where an edge leads from `c` to `d`, a node with the label `c` has a
/// half-edge to a node with the label `d`.
pub proof fn lemma_cross_edge_found<N: NodeBase>(
    nodes: Map<i64, N>,
    ids: Seq<NodeId>,
    labels: Map<i64, i64>,
    c: i64,
    d: i64,
) -> (r: (int, int))
    requires
        cross_edges(nodes, ids, labels, c, d) > 0,
    ensures
        0 <= r.0 < ids.len(),
        labels[ids[r.0].id] == c,
        0 <= r.1 < nodes[ids[r.0].id].edges_view().len(),
        labels[nodes[ids[r.0].id].edges_view()[r.1].id] == d,
    decreases ids.len(),
{
    let last = ids.len() - 1;
    if cross_edges(nodes, ids.drop_last(), labels, c, d) > 0 {
        let r = lemma_cross_edge_found(nodes, ids.drop_last(), labels, c, d);
        assert(ids.drop_last()[r.0] == ids[r.0]);
        r
    } else {
        let j = lemma_hit_found(nodes[ids.last().id].edges_view(), labels, d);
        assert(ids[last] == ids.last());
        (last, j)
    }
}

/// Where a half-edge leads to a label, one of the entries does.
pub proof fn lemma_hit_found(edges: Seq<NodeId>, labels: Map<i64, i64>, d: i64) -> (j: int)
    requires
        hits(edges, labels, d) > 0,
    ensures
        0 <= j < edges.len(),
        labels[edges[j].id] == d,
    decreases edges.len(),
{
    if hits(edges.drop_last(), labels, d) > 0 {
        let j = lemma_hit_found(edges.drop_last(), labels, d);
        assert(edges.drop_last()[j] == edges[j]);
        j
    } else {
        assert(edges[edges.len() - 1] == edges.last());
        edges.len() - 1
    }
}

/// A half-edge to a label is counted.
pub proof fn lemma_hit_counts(edges: Seq<NodeId>, labels: Map<i64, i64>, d: i64, j: int)
    requires
        0 <= j < edges.len(),
        labels[edges[j].id] == d,
    ensures
        hits(edges, labels, d) > 0,
    decreases edges.len(),
{
    if j < edges.len() - 1 {
        assert(edges.drop_last()[j] == edges[j]);
        lemma_hit_counts(edges.drop_last(), labels, d, j);
    } else {
        assert(edges[edges.len() - 1] == edges.last());
    }
}

/// A half-edge from a node with the label `c` to one with the label `d` is
/// an edge between the communities.
pub proof fn lemma_cross_edge_counts<N: NodeBase>(
    nodes: Map<i64, N>,
    ids: Seq<NodeId>,
    labels: Map<i64, i64>,
    c: i64,
    d: i64,
    i: int,
    j: int,
)
    requires
        0 <= i < ids.len(),
        labels[ids[i].id] == c,
        0 <= j < nodes[ids[i].id].edges_view().len(),
        labels[nodes[ids[i].id].edges_view()[j].id] == d,
    ensures
        cross_edges(nodes, ids, labels, c, d) > 0,
    decreases ids.len(),
{
    if i < ids.len() - 1 {
        assert(ids.drop_last()[i] == ids[i]);
        lemma_cross_edge_counts(nodes, ids.drop_last(), labels, c, d, i, j);
    } else {
        assert(ids[ids.len() - 1] == ids.last());
        lemma_hit_counts(nodes[ids.last().id].edges_view(), labels, d, j);
    }
}

/// The number that `map` holds under `c`, and zero where it holds none.
pub open spec fn tally_of(map: Map<i64, u128>, c: i64) -> nat {
    if map.contains_key(c) {
        map[c] as nat
    } else {
        0
    }
}

/// The number that `map` holds under `key`, and zero where it holds none.
pub open spec fn amount_of(map: Map<u128, usize>, key: u128) -> nat {
    if map.contains_key(key) {
        map[key] as nat
    } else {
        0
    }
}

/// Whether `labels` gives a label to each node and to nothing else.
pub open spec fn labels_cover<N: NodeBase>(nodes: Map<i64, N>, labels: Map<i64, i64>) -> bool {
    forall|v: i64| #[trigger] labels.contains_key(v) <==> nodes.contains_key(v)
}

/// The degree sum of each community.
pub fn label_degrees<G: GraphBase>(g: &G, labels: &HashMap<i64, i64>) -> (r: HashMap<i64, u128>)
    requires
        g.wf(),
        labels_cover(g.nodes_view(), labels@),
    ensures
        forall|c: i64| #[trigger]
            tally_of(r@, c) == label_degree(g.nodes_view(), g.ids_view(), labels@, c),
{
    let ghost nodes = g.nodes_view();
    let ids: &Vec<NodeId> = g.get_core_ids();
    proof {
        g.lemma_wf();
    }
    let mut sums: HashMap<i64, u128> = HashMap::new();
    let mut i: usize = 0;
    while i < ids.len()
        invariant
            i <= ids.len(),
            g.wf(),
            nodes == g.nodes_view(),
            ids@ == g.ids_view(),
            well_formed(nodes, ids@),
            labels_cover(nodes, labels@),
            forall|c: i64| #[trigger]
                tally_of(sums@, c) == label_degree(nodes, ids@.subrange(0, i as int), labels@, c),
        decreases ids.len() - i,
    {
        let v: NodeId = ids[i];
        let ghost shorter = ids@.subrange(0, i as int);
        let ghost longer = ids@.subrange(0, i + 1);
        let ghost before = sums@;
        proof {
            assert(ids@.contains(ids@[i as int]));
            assert(nodes.contains_key(v.id));
            assert(labels@.contains_key(v.id));
            assert(longer.drop_last() =~= shorter);
            lemma_degree_bound(nodes, ids@, i as int);
        }
        let label: i64 = *labels.get(&v.value()).unwrap();
        let degree: usize = g.get_node(v).degree();
        let so_far: u128 = match sums.get(&label) {
            Some(sum) => *sum,
            None => 0,
        };
        proof {
            assert(so_far == tally_of(before, label));
            lemma_label_bounds(nodes, longer, labels@, label, label);
            lemma_degree_sum_prefix(nodes, ids@, i + 1);
        }
        sums.insert(label, so_far + degree as u128);
        proof {
            assert forall|c: i64| #[trigger]
                tally_of(sums@, c) == label_degree(nodes, longer, labels@, c) by {
                assert(tally_of(before, c) == label_degree(nodes, shorter, labels@, c));
            }
        }
        i += 1;
    }
    assert(ids@.subrange(0, ids.len() as int) =~= ids@);
    sums
}

/// The number of edges between each two communities, under the key of the
/// pair with the smaller label first.
pub fn cross_counts<G: GraphBase>(g: &G, labels: &HashMap<i64, i64>) -> (r: HashMap<u128, usize>)
    requires
        g.wf(),
        labels_cover(g.nodes_view(), labels@),
    ensures
        forall|c: i64, d: i64|
            c < d ==> amount_of(r@, #[trigger] edge_key(c, d)) == cross_edges(
                g.nodes_view(),
                g.ids_view(),
                labels@,
                c,
                d,
            ),
{
    let ghost nodes = g.nodes_view();
    let ids: &Vec<NodeId> = g.get_core_ids();
    proof {
        g.lemma_wf();
    }
    let mut counts: HashMap<u128, usize> = HashMap::new();
    let mut i: usize = 0;
    while i < ids.len()
        invariant
            i <= ids.len(),
            g.wf(),
            nodes == g.nodes_view(),
            ids@ == g.ids_view(),
            well_formed(nodes, ids@),
            labels_cover(nodes, labels@),
            forall|c: i64, d: i64|
                c < d ==> amount_of(counts@, #[trigger] edge_key(c, d)) == cross_edges(
                    nodes,
                    ids@.subrange(0, i as int),
                    labels@,
                    c,
                    d,
                ),
        decreases ids.len() - i,
    {
        let v: NodeId = ids[i];
        let ghost shorter = ids@.subrange(0, i as int);
        let ghost longer = ids@.subrange(0, i + 1);
        proof {
            assert(ids@.contains(ids@[i as int]));
            assert(nodes.contains_key(v.id));
            assert(labels@.contains_key(v.id));
            assert(longer.drop_last() =~= shorter);
        }
        let own: i64 = *labels.get(&v.value()).unwrap();
        let edges: Vec<NodeId> = g.get_node(v).get_edges();
        let mut j: usize = 0;
        while j < edges.len()
            invariant
                j <= edges.len(),
                nodes == g.nodes_view(),
                ids@ == g.ids_view(),
                well_formed(nodes, ids@),
                labels_cover(nodes, labels@),
                i < ids@.len(),
                v == ids@[i as int],
                nodes.contains_key(v.id),
                shorter == ids@.subrange(0, i as int),
                longer == ids@.subrange(0, i + 1),
                own == labels@[v.id],
                edges@ == nodes[v.id].edges_view(),
                forall|c: i64, d: i64|
                    c < d ==> amount_of(counts@, #[trigger] edge_key(c, d)) == cross_edges(
                        nodes,
                        shorter,
                        labels@,
                        c,
                        d,
                    ) + if own == c {
                        hits(edges@.subrange(0, j as int), labels@, d)
                    } else {
                        0nat
                    },
            decreases edges.len() - j,
        {
            let w: NodeId = edges[j];
            let ghost done = edges@.subrange(0, j as int);
            let ghost before = counts@;
            proof {
                assert(edges@.subrange(0, j + 1).drop_last() =~= done);
                assert(nodes.contains_key(nodes[v.id].edges_view()[j as int].id));
                assert(labels@.contains_key(w.id));
            }
            let other: i64 = *labels.get(&w.value()).unwrap();
            if own < other {
                let key: u128 = get_edge_key(NodeId { id: own }, NodeId { id: other });
                let so_far: usize = match counts.get(&key) {
                    Some(count) => *count,
                    None => 0,
                };
                proof {
                    assert(so_far == amount_of(before, edge_key(own, other)));
                    lemma_hits_bound(done, labels@, other);
                    lemma_label_bounds(nodes, shorter, labels@, own, other);
                    lemma_label_bounds(nodes, longer, labels@, own, other);
                    lemma_label_bounds(nodes, ids@, labels@, own, other);
                    lemma_cross_prefix(nodes, ids@, labels@, own, other, i + 1);
                    lemma_hits_prefix(edges@, labels@, other, j + 1);
                    assert(longer.last() == v);
                    assert(longer.drop_last() =~= shorter);
                    let upto = edges@.subrange(0, j + 1);
                    assert(upto.last() == w);
                    assert(hits(upto, labels@, other) == hits(done, labels@, other) + 1);
                    assert(cross_edges(nodes, longer, labels@, own, other) == cross_edges(
                        nodes,
                        shorter,
                        labels@,
                        own,
                        other,
                    ) + hits(edges@, labels@, other));
                }
                counts.insert(key, so_far + 1);
                proof {
                    assert forall|c: i64, d: i64| c < d implies amount_of(counts@, #[trigger] edge_key(c, d))
                        == cross_edges(nodes, shorter, labels@, c, d) + if own == c {
                        hits(edges@.subrange(0, j + 1), labels@, d)
                    } else {
                        0nat
                    } by {
                        if edge_key(c, d) == edge_key(own, other) {
                            lemma_edge_key_injective(c, d, own, other);
                        }
                        assert(amount_of(before, edge_key(c, d)) == cross_edges(
                            nodes,
                            shorter,
                            labels@,
                            c,
                            d,
                        ) + if own == c {
                            hits(done, labels@, d)
                        } else {
                            0nat
                        });
                    }
                }
            } else {
                proof {
                    assert forall|c: i64, d: i64| c < d implies amount_of(counts@, #[trigger] edge_key(c, d))
                        == cross_edges(nodes, shorter, labels@, c, d) + if own == c {
                        hits(edges@.subrange(0, j + 1), labels@, d)
                    } else {
                        0nat
                    } by {
                        assert(amount_of(before, edge_key(c, d)) == cross_edges(
                            nodes,
                            shorter,
                            labels@,
                            c,
                            d,
                        ) + if own == c {
                            hits(done, labels@, d)
                        } else {
                            0nat
                        });
                    }
                }
            }
            j += 1;
        }
        proof {
            assert(edges@.subrange(0, edges.len() as int) =~= edges@);
            assert(longer.last() == v);
        }
        i += 1;
    }
    assert(ids@.subrange(0, ids.len() as int) =~= ids@);
    counts
}

/// The edges between two communities among the first nodes of a list are at
/// most those among all.
pub proof fn lemma_cross_prefix<N: NodeBase>(
    nodes: Map<i64, N>,
    ids: Seq<NodeId>,
    labels: Map<i64, i64>,
    c: i64,
    d: i64,
    m: int,
)
    requires
        0 <= m <= ids.len(),
    ensures
        cross_edges(nodes, ids.subrange(0, m), labels, c, d) <= cross_edges(nodes, ids, labels, c, d),
    decreases ids.len() - m,
{
    if m < ids.len() {
        lemma_cross_prefix(nodes, ids, labels, c, d, m + 1);
        assert(ids.subrange(0, m + 1).drop_last() =~= ids.subrange(0, m));
    } else {
        assert(ids.subrange(0, m) =~= ids);
    }
}

/// The half-edges to a label among the first entries of a list are at most
/// those among all.
pub proof fn lemma_hits_prefix(edges: Seq<NodeId>, labels: Map<i64, i64>, d: i64, m: int)
    requires
        0 <= m <= edges.len(),
    ensures
        hits(edges.subrange(0, m), labels, d) <= hits(edges, labels, d),
    decreases edges.len() - m,
{
    if m < edges.len() {
        lemma_hits_prefix(edges, labels, d, m + 1);
        assert(edges.subrange(0, m + 1).drop_last() =~= edges.subrange(0, m));
    } else {
        assert(edges.subrange(0, m) =~= edges);
    }
}

/// The largest number of half-edges for which what a join adds is
/// computed: beyond it the products no longer fit 128 bits.
pub const MAX_HALF_EDGES: u64 = 0x4000_0000_0000_0000;

/// Computes what joining two communities adds to the modularity.
pub fn pair_gain(two_m: usize, e: usize, kc: u128, kd: u128) -> (r: i128)
    requires
        two_m <= MAX_HALF_EDGES,
        e <= two_m,
        kc <= two_m,
        kd <= two_m,
    ensures
        r == gain_of(two_m as int, e as int, kc as int, kd as int),
{
    proof {
        assert(0 <= two_m * e <= 0x4000_0000_0000_0000 * 0x4000_0000_0000_0000) by (nonlinear_arith)
            requires
                0 <= e <= two_m <= 0x4000_0000_0000_0000,
        ;
        assert(0 <= kc * kd <= 0x4000_0000_0000_0000 * 0x4000_0000_0000_0000) by (nonlinear_arith)
            requires
                0 <= kc <= 0x4000_0000_0000_0000,
                0 <= kd <= 0x4000_0000_0000_0000,
        ;
    }
    let between: i128 = two_m as i128 * e as i128;
    let expected: i128 = kc as i128 * kd as i128;
    2 * (between - expected)
}

/// Two communities that can be joined, the smaller label first, and what
/// their join adds to the modularity.
#[derive(Clone, Copy, Debug, PartialEq, Eq, Structural)]
pub struct Join {
    pub first: i64,
    pub second: i64,
    pub gain: i128,
}

/// The labels of the two ends of the `j`-th half-edge of the `i`-th node.
pub open spec fn pair_at<N: NodeBase>(
    nodes: Map<i64, N>,
    ids: Seq<NodeId>,
    labels: Map<i64, i64>,
    i: int,
    j: int,
) -> (i64, i64) {
    (labels[ids[i].id], labels[nodes[ids[i].id].edges_view()[j].id])
}

/// Whether the `j`-th half-edge of the `i`-th node has been looked at when
/// the search stands at the `at_edge`-th half-edge of the `at_node`-th node.
pub open spec fn is_before<N: NodeBase>(
    nodes: Map<i64, N>,
    ids: Seq<NodeId>,
    i: int,
    j: int,
    at_node: int,
    at_edge: int,
) -> bool {
    &&& 0 <= i < ids.len()
    &&& 0 <= j < nodes[ids[i].id].edges_view().len()
    &&& i < at_node || (i == at_node && j < at_edge)
}

/// Whether `best` is to be preferred to every pair of communities that a
/// half-edge looked at joins.
pub open spec fn leads_so_far<N: NodeBase>(
    nodes: Map<i64, N>,
    ids: Seq<NodeId>,
    labels: Map<i64, i64>,
    best: Option<Join>,
    at_node: int,
    at_edge: int,
) -> bool {
    &&& best matches Some(b) ==> is_candidate(nodes, ids, labels, b.first, b.second) && b.gain == gain(
        nodes,
        ids,
        labels,
        b.first,
        b.second,
    )
    &&& forall|i: int, j: int|
        is_before(nodes, ids, i, j, at_node, at_edge) && (#[trigger] pair_at(nodes, ids, labels, i, j)).0
            < pair_at(nodes, ids, labels, i, j).1 ==> best is Some && beats(
            best.unwrap().gain as int,
            best.unwrap().first,
            best.unwrap().second,
            gain(
                nodes,
                ids,
                labels,
                pair_at(nodes, ids, labels, i, j).0,
                pair_at(nodes, ids, labels, i, j).1,
            ),
            pair_at(nodes, ids, labels, i, j).0,
            pair_at(nodes, ids, labels, i, j).1,
        )
}

/// A pair that is preferred to a pair that is preferred to a third is
/// preferred to the third.
pub proof fn lemma_beats_transitive(
    g1: int,
    c1: i64,
    d1: i64,
    g2: int,
    c2: i64,
    d2: i64,
    g3: int,
    c3: i64,
    d3: i64,
)
    requires
        beats(g1, c1, d1, g2, c2, d2),
        beats(g2, c2, d2, g3, c3, d3),
    ensures
        beats(g1, c1, d1, g3, c3, d3),
{
}

/// The two communities to join next and what their join adds, or nothing
/// where no edge leads from one community to another.
pub fn find_best<G: GraphBase>(
    g: &G,
    labels: &HashMap<i64, i64>,
    sums: &HashMap<i64, u128>,
    counts: &HashMap<u128, usize>,
    two_m: usize,
) -> (r: Option<Join>)
    requires
        g.wf(),
        labels_cover(g.nodes_view(), labels@),
        two_m == degree_sum(g.nodes_view(), g.ids_view()),
        two_m <= MAX_HALF_EDGES,
        forall|c: i64| #[trigger]
            tally_of(sums@, c) == label_degree(g.nodes_view(), g.ids_view(), labels@, c),
        forall|c: i64, d: i64|
            c < d ==> amount_of(counts@, #[trigger] edge_key(c, d)) == cross_edges(
                g.nodes_view(),
                g.ids_view(),
                labels@,
                c,
                d,
            ),
    ensures
        match r {
            Some(b) => is_best(g.nodes_view(), g.ids_view(), labels@, b.first, b.second) && b.gain == gain(
                g.nodes_view(),
                g.ids_view(),
                labels@,
                b.first,
                b.second,
            ),
            None => forall|c: i64, d: i64| !is_candidate(g.nodes_view(), g.ids_view(), labels@, c, d),
        },
{
    let ghost nodes = g.nodes_view();
    let ids: &Vec<NodeId> = g.get_core_ids();
    proof {
        g.lemma_wf();
    }
    let mut best: Option<Join> = None;
    let mut i: usize = 0;
    while i < ids.len()
        invariant
            i <= ids.len(),
            g.wf(),
            nodes == g.nodes_view(),
            ids@ == g.ids_view(),
            well_formed(nodes, ids@),
            labels_cover(nodes, labels@),
            two_m == degree_sum(nodes, ids@),
            two_m <= MAX_HALF_EDGES,
            forall|c: i64| #[trigger] tally_of(sums@, c) == label_degree(nodes, ids@, labels@, c),
            forall|c: i64, d: i64|
                c < d ==> amount_of(counts@, #[trigger] edge_key(c, d)) == cross_edges(
                    nodes,
                    ids@,
                    labels@,
                    c,
                    d,
                ),
            leads_so_far(nodes, ids@, labels@, best, i as int, 0),
        decreases ids.len() - i,
    {
        let v: NodeId = ids[i];
        proof {
            assert(ids@.contains(ids@[i as int]));
            assert(nodes.contains_key(v.id));
            assert(labels@.contains_key(v.id));
        }
        let own: i64 = *labels.get(&v.value()).unwrap();
        let edges: Vec<NodeId> = g.get_node(v).get_edges();
        let mut j: usize = 0;
        while j < edges.len()
            invariant
                j <= edges.len(),
                nodes == g.nodes_view(),
                ids@ == g.ids_view(),
                well_formed(nodes, ids@),
                labels_cover(nodes, labels@),
                two_m == degree_sum(nodes, ids@),
                two_m <= MAX_HALF_EDGES,
                forall|c: i64| #[trigger] tally_of(sums@, c) == label_degree(nodes, ids@, labels@, c),
                forall|c: i64, d: i64|
                    c < d ==> amount_of(counts@, #[trigger] edge_key(c, d)) == cross_edges(
                        nodes,
                        ids@,
                        labels@,
                        c,
                        d,
                    ),
                i < ids@.len(),
                v == ids@[i as int],
                nodes.contains_key(v.id),
                own == labels@[v.id],
                edges@ == nodes[v.id].edges_view(),
                leads_so_far(nodes, ids@, labels@, best, i as int, j as int),
            decreases edges.len() - j,
        {
            let w: NodeId = edges[j];
            let ghost before = best;
            proof {
                assert(nodes.contains_key(nodes[v.id].edges_view()[j as int].id));
                assert(labels@.contains_key(w.id));
            }
            let other: i64 = *labels.get(&w.value()).unwrap();
            if own < other {
                let key: u128 = get_edge_key(NodeId { id: own }, NodeId { id: other });
                let e: usize = match counts.get(&key) {
                    Some(count) => *count,
                    None => 0,
                };
                let kc: u128 = match sums.get(&own) {
                    Some(sum) => *sum,
                    None => 0,
                };
                let kd: u128 = match sums.get(&other) {
                    Some(sum) => *sum,
                    None => 0,
                };
                proof {
                    assert(e == amount_of(counts@, edge_key(own, other)));
                    assert(kc == tally_of(sums@, own));
                    assert(kd == tally_of(sums@, other));
                    lemma_label_bounds(nodes, ids@, labels@, own, other);
                    lemma_label_bounds(nodes, ids@, labels@, other, own);
                    lemma_cross_edge_counts(nodes, ids@, labels@, own, other, i as int, j as int);
                }
                let added: i128 = pair_gain(two_m, e, kc, kd);
                let better: bool = match best {
                    None => true,
                    Some(b) => added > b.gain || (added == b.gain && (own < b.first || (own == b.first
                        && other < b.second))),
                };
                if better {
                    best = Some(Join { first: own, second: other, gain: added });
                }
                proof {
                    assert forall|x: int, y: int|
                        is_before(nodes, ids@, x, y, i as int, j + 1) && (#[trigger] pair_at(
                            nodes,
                            ids@,
                            labels@,
                            x,
                            y,
                        )).0 < pair_at(nodes, ids@, labels@, x, y).1 implies best is Some && beats(
                        best.unwrap().gain as int,
                        best.unwrap().first,
                        best.unwrap().second,
                        gain(
                            nodes,
                            ids@,
                            labels@,
                            pair_at(nodes, ids@, labels@, x, y).0,
                            pair_at(nodes, ids@, labels@, x, y).1,
                        ),
                        pair_at(nodes, ids@, labels@, x, y).0,
                        pair_at(nodes, ids@, labels@, x, y).1,
                    ) by {
                        let p = pair_at(nodes, ids@, labels@, x, y);
                        if x == i && y == j {
                            assert(p == (own, other));
                        } else {
                            assert(is_before(nodes, ids@, x, y, i as int, j as int));
                            if better {
                                lemma_beats_transitive(
                                    added as int,
                                    own,
                                    other,
                                    before.unwrap().gain as int,
                                    before.unwrap().first,
                                    before.unwrap().second,
                                    gain(nodes, ids@, labels@, p.0, p.1),
                                    p.0,
                                    p.1,
                                );
                            }
                        }
                    }
                }
            } else {
                proof {
                    assert forall|x: int, y: int|
                        is_before(nodes, ids@, x, y, i as int, j + 1) && (#[trigger] pair_at(
                            nodes,
                            ids@,
                            labels@,
                            x,
                            y,
                        )).0 < pair_at(nodes, ids@, labels@, x, y).1 implies best is Some && beats(
                        best.unwrap().gain as int,
                        best.unwrap().first,
                        best.unwrap().second,
                        gain(
                            nodes,
                            ids@,
                            labels@,
                            pair_at(nodes, ids@, labels@, x, y).0,
                            pair_at(nodes, ids@, labels@, x, y).1,
                        ),
                        pair_at(nodes, ids@, labels@, x, y).0,
                        pair_at(nodes, ids@, labels@, x, y).1,
                    ) by {
                        if x == i && y == j {
                        } else {
                            assert(is_before(nodes, ids@, x, y, i as int, j as int));
                        }
                    }
                }
            }
            j += 1;
        }
        proof {
            assert forall|x: int, y: int|
                is_before(nodes, ids@, x, y, i + 1, 0) && (#[trigger] pair_at(nodes, ids@, labels@, x, y)).0
                    < pair_at(nodes, ids@, labels@, x, y).1 implies best is Some && beats(
                best.unwrap().gain as int,
                best.unwrap().first,
                best.unwrap().second,
                gain(
                    nodes,
                    ids@,
                    labels@,
                    pair_at(nodes, ids@, labels@, x, y).0,
                    pair_at(nodes, ids@, labels@, x, y).1,
                ),
                pair_at(nodes, ids@, labels@, x, y).0,
                pair_at(nodes, ids@, labels@, x, y).1,
            ) by {
                assert(is_before(nodes, ids@, x, y, i as int, edges@.len() as int));
            }
        }
        i += 1;
    }
    proof {
        assert forall|c: i64, d: i64| #[trigger] is_candidate(nodes, ids@, labels@, c, d) implies best is Some
            && beats(
            best.unwrap().gain as int,
            best.unwrap().first,
            best.unwrap().second,
            gain(nodes, ids@, labels@, c, d),
            c,
            d,
        ) by {
            let at = lemma_cross_edge_found(nodes, ids@, labels@, c, d);
            assert(is_before(nodes, ids@, at.0, at.1, ids@.len() as int, 0));
            assert(pair_at(nodes, ids@, labels@, at.0, at.1) == (c, d));
        }
    }
    best
}

/// Gives the label `to` to every node that has the label `from`.
pub fn relabel_nodes(ids: &Vec<NodeId>, labels: &mut HashMap<i64, i64>, from: i64, to: i64)
    requires
        forall|v: i64| #[trigger] old(labels)@.contains_key(v) <==> ids@.contains(NodeId { id: v }),
    ensures
        final(labels)@ == relabel(old(labels)@, from, to),
{
    let mut j: usize = 0;
    while j < ids.len()
        invariant
            j <= ids.len(),
            forall|v: i64| #[trigger] old(labels)@.contains_key(v) <==> ids@.contains(NodeId { id: v }),
            forall|v: i64| #[trigger] labels@.contains_key(v) <==> old(labels)@.contains_key(v),
            forall|v: i64| #[trigger]
                labels@.contains_key(v) ==> labels@[v] == if ids@.subrange(0, j as int).contains(
                    NodeId { id: v },
                ) && old(labels)@[v] == from {
                    to
                } else {
                    old(labels)@[v]
                },
        decreases ids.len() - j,
    {
        let key: i64 = ids[j].value();
        let ghost shorter = ids@.subrange(0, j as int);
        let ghost longer = ids@.subrange(0, j + 1);
        let ghost before = labels@;
        proof {
            assert(ids@[j as int] == NodeId { id: key });
            assert(ids@.contains(NodeId { id: key }));
            assert(old(labels)@.contains_key(key));
            assert(labels@.contains_key(key));
            assert(longer[j as int] == NodeId { id: key });
            assert forall|w: NodeId| longer.contains(w) <==> shorter.contains(w) || w == (NodeId { id: key }) by {
                if shorter.contains(w) {
                    let t = choose|t: int| 0 <= t < shorter.len() && shorter[t] == w;
                    assert(longer[t] == w);
                }
                if longer.contains(w) {
                    let t = choose|t: int| 0 <= t < longer.len() && longer[t] == w;
                    if t < j {
                        assert(shorter[t] == w);
                    }
                }
            }
        }
        let label: i64 = *labels.get(&key).unwrap();
        if label == from {
            labels.insert(key, to);
        }
        proof {
            assert forall|v: i64| #[trigger] labels@.contains_key(v) implies labels@[v] == if longer.contains(
                NodeId { id: v },
            ) && old(labels)@[v] == from {
                to
            } else {
                old(labels)@[v]
            } by {
                assert(before.contains_key(v));
            }
        }
        j += 1;
    }
    proof {
        assert(ids@.subrange(0, ids.len() as int) =~= ids@);
        assert(labels@ =~= relabel(old(labels)@, from, to));
    }
}

/// Whether every label is a node that has itself as its label.
pub open spec fn is_rooted<N: NodeBase>(nodes: Map<i64, N>, labels: Map<i64, i64>) -> bool {
    &&& labels_cover(nodes, labels)
    &&& forall|v: i64| #[trigger]
        labels.contains_key(v) ==> labels.contains_key(labels[v]) && labels[labels[v]] == labels[v]
}

/// The number of communities: of nodes that have themselves as their
/// label.
pub open spec fn roots(ids: Seq<NodeId>, labels: Map<i64, i64>) -> int {
    sum_to(|i: int| if labels[ids[i].id] == ids[i].id { 1int } else { 0int }, ids.len() as int)
}

/// Joining two communities leaves one community less.
pub proof fn lemma_relabel_roots<N: NodeBase>(
    nodes: Map<i64, N>,
    ids: Seq<NodeId>,
    labels: Map<i64, i64>,
    c: i64,
    d: i64,
)
    requires
        well_formed(nodes, ids),
        is_rooted(nodes, labels),
        is_candidate(nodes, ids, labels, c, d),
    ensures
        is_rooted(nodes, relabel(labels, d, c)),
        0 <= roots(ids, relabel(labels, d, c)) < roots(ids, labels),
{
    let after = relabel(labels, d, c);
    let at = lemma_cross_edge_found(nodes, ids, labels, c, d);
    let x = ids[at.0];
    let w = nodes[x.id].edges_view()[at.1];
    assert(ids.contains(ids[at.0]));
    assert(nodes.contains_key(x.id));
    assert(nodes.contains_key(nodes[x.id].edges_view()[at.1].id));
    assert(labels.contains_key(x.id));
    assert(labels.contains_key(w.id));
    assert(labels[c] == c && labels.contains_key(c));
    assert(labels[d] == d && labels.contains_key(d));
    assert forall|v: i64| #[trigger] after.contains_key(v) implies after.contains_key(after[v]) && after[after[v]]
        == after[v] by {
        assert(labels.contains_key(v));
        assert(labels.contains_key(labels[v]));
    }
    let n = ids.len() as int;
    let f = |i: int| if labels[ids[i].id] == ids[i].id { 1int } else { 0int };
    let g = |i: int| if after[ids[i].id] == ids[i].id { 1int } else { 0int };
    let node = NodeId { id: d };
    assert(nodes.contains_key(node.id));
    assert(ids.contains(node));
    let place = choose|place: int| 0 <= place < ids.len() && ids[place] == node;
    assert forall|i: int| 0 <= i < n implies #[trigger] f(i) == g(i) + if i == place { 1int } else { 0int } by {
        assert(ids.contains(ids[i]));
        assert(labels.contains_key(ids[i].id));
        if ids[i].id == d {
            assert(ids[i] == node);
        }
    }
    lemma_sum_change_at(f, g, place, 1, n);
    lemma_sum_monotone(g, 0, n);
}

/// What the joins add, without the denominators.
pub open spec fn gains_of(changes: Seq<(i128, u128)>) -> Seq<int> {
    changes.map_values(|c: (i128, u128)| c.0 as int)
}

/// The labels at the start: each node has its own integer as its label.
pub fn own_label_map(ids: &Vec<NodeId>) -> (r: HashMap<i64, i64>)
    ensures
        forall|v: i64| #[trigger] r@.contains_key(v) <==> ids@.contains(NodeId { id: v }),
        forall|v: i64| #[trigger] r@.contains_key(v) ==> r@[v] == v,
{
    let mut labels: HashMap<i64, i64> = HashMap::new();
    let mut j: usize = 0;
    while j < ids.len()
        invariant
            j <= ids.len(),
            forall|v: i64| #[trigger]
                labels@.contains_key(v) <==> ids@.subrange(0, j as int).contains(NodeId { id: v }),
            forall|v: i64| #[trigger] labels@.contains_key(v) ==> labels@[v] == v,
        decreases ids.len() - j,
    {
        let key: i64 = ids[j].value();
        let ghost shorter = ids@.subrange(0, j as int);
        let ghost longer = ids@.subrange(0, j + 1);
        proof {
            assert(longer[j as int] == NodeId { id: key });
            assert forall|w: NodeId| longer.contains(w) <==> shorter.contains(w) || w == (NodeId { id: key }) by {
                if shorter.contains(w) {
                    let t = choose|t: int| 0 <= t < shorter.len() && shorter[t] == w;
                    assert(longer[t] == w);
                }
                if longer.contains(w) {
                    let t = choose|t: int| 0 <= t < longer.len() && longer[t] == w;
                    if t < j {
                        assert(shorter[t] == w);
                    }
                }
            }
        }
        labels.insert(key, key);
        j += 1;
    }
    assert(ids@.subrange(0, ids.len() as int) =~= ids@);
    labels
}

/// Communities by joining, after Clauset, Newman and Moore.
pub trait CNMCommunities: GraphBase {
    /// Joins communities as long as a join adds to the modularity, starting
    /// with every node on its own and joining each time the two communities
    /// whose join adds most, of several such pairs the one with the smallest
    /// labels. Returns the label of the community of each node, which is the
    /// smallest integer of its nodes, and what each join added to the
    /// modularity, as a fraction over the square of twice the number of
    /// edges. The graph must have no more than `MAX_HALF_EDGES` half-edges.
    fn get_cnm_communities(&self) -> (r: (HashMap<i64, i64>, Vec<(i128, u128)>))
        requires
            self.wf(),
            degree_sum(self.nodes_view(), self.ids_view()) <= MAX_HALF_EDGES,
        ensures
            is_cnm_result(self.nodes_view(), self.ids_view(), r.0@, gains_of(r.1@)),
            forall|k: int|
                0 <= k < r.1@.len() ==> (#[trigger] r.1@[k]).1 == degree_sum(
                    self.nodes_view(),
                    self.ids_view(),
                ) * degree_sum(self.nodes_view(), self.ids_view()),
    {
        let ghost nodes = self.nodes_view();
        let ghost listed = self.ids_view();
        let ids: &Vec<NodeId> = self.get_core_ids();
        proof {
            self.lemma_wf();
        }
        let edges: usize = self.count_edges();
        let two_m: usize = 2 * edges;
        proof {
            assert(two_m * two_m <= 0x4000_0000_0000_0000 * 0x4000_0000_0000_0000) by (nonlinear_arith)
                requires
                    0 <= two_m <= 0x4000_0000_0000_0000,
            ;
        }
        let denominator: u128 = two_m as u128 * two_m as u128;
        let mut labels: HashMap<i64, i64> = own_label_map(ids);
        let mut changes: Vec<(i128, u128)> = Vec::new();
        let mut going: bool = true;
        proof {
            assert(labels@ =~= own_labels(nodes)) by {
                assert forall|v: i64| labels@.contains_key(v) <==> own_labels(nodes).contains_key(v) by {
                    let node = NodeId { id: v };
                    assert(listed.contains(node) <==> nodes.contains_key(node.id));
                }
            }
            lemma_sum_monotone(
                |i: int| if labels@[listed[i].id] == listed[i].id { 1int } else { 0int },
                0,
                listed.len() as int,
            );
        }
        while going
            invariant
                self.wf(),
                nodes == self.nodes_view(),
                listed == self.ids_view(),
                ids@ == listed,
                well_formed(nodes, listed),
                two_m == degree_sum(nodes, listed),
                two_m <= MAX_HALF_EDGES,
                denominator == two_m * two_m,
                is_rooted(nodes, labels@),
                labels@ == labels_after(nodes, listed, changes@.len()),
                forall|k: nat|
                    k < changes@.len() ==> can_merge(nodes, listed, #[trigger] labels_after(nodes, listed, k))
                        && changes@[k as int].0 == gain_at(nodes, listed, k),
                forall|k: int| 0 <= k < changes@.len() ==> (#[trigger] changes@[k]).1 == denominator,
                !going ==> !can_merge(nodes, listed, labels@),
                roots(listed, labels@) >= 0,
            decreases
                roots(listed, labels@) + if going {
                    1int
                } else {
                    0int
                },
        {
            let sums: HashMap<i64, u128> = label_degrees(self, &labels);
            let counts: HashMap<u128, usize> = cross_counts(self, &labels);
            let found: Option<Join> = find_best(self, &labels, &sums, &counts, two_m);
            let ghost before = labels@;
            let ghost old_changes = changes@;
            let ghost k = changes@.len();
            match found {
                Some(best) => {
                    if best.gain > 0 {
                        proof {
                            lemma_best_unique(nodes, listed, before, best.first, best.second);
                            lemma_relabel_roots(nodes, listed, before, best.first, best.second);
                            assert(is_candidate(nodes, listed, before, best.first, best.second));
                            assert(can_merge(nodes, listed, before));
                            assert forall|v: i64| #[trigger]
                                labels@.contains_key(v) <==> ids@.contains(NodeId { id: v }) by {
                                let node = NodeId { id: v };
                                assert(listed.contains(node) <==> nodes.contains_key(node.id));
                            }
                        }
                        relabel_nodes(ids, &mut labels, best.second, best.first);
                        changes.push((best.gain, denominator));
                        proof {
                            assert(labels@ == labels_after(nodes, listed, k + 1));
                            assert forall|x: nat| x < changes@.len() implies can_merge(
                                nodes,
                                listed,
                                #[trigger] labels_after(nodes, listed, x),
                            ) && changes@[x as int].0 == gain_at(nodes, listed, x) by {
                                if x < k {
                                    assert(changes@[x as int] == old_changes[x as int]);
                                }
                            }
                            assert forall|x: int| 0 <= x < changes@.len() implies (#[trigger] changes@[x]).1
                                == denominator by {
                                if x < k {
                                    assert(changes@[x] == old_changes[x]);
                                }
                            }
                        }
                    } else {
                        proof {
                            assert forall|c: i64, d: i64| #[trigger]
                                is_candidate(nodes, listed, before, c, d) implies gain(
                                nodes,
                                listed,
                                before,
                                c,
                                d,
                            ) <= 0 by {}
                        }
                        going = false;
                    }
                },
                None => {
                    going = false;
                },
            }
        }
        proof {
            assert(gains_of(changes@).len() == changes@.len());
            assert forall|x: nat| x < gains_of(changes@).len() implies can_merge(
                nodes,
                listed,
                #[trigger] labels_after(nodes, listed, x),
            ) && gains_of(changes@)[x as int] == gain_at(nodes, listed, x) by {}
        }
        (labels, changes)
    }
}

} // verus!
