//! Builds simple directed graphs from lists of edges.

use vstd::prelude::*;
use fxhash::FxHashMap;
use crate::dachshund::counting::{lemma_occurrences_push, occurrences};
use crate::dachshund::error::{CLQError, CLQResult};
use crate::dachshund::graph_base::{degree_sum, lemma_degree_sum_as_sum, well_formed, GraphBase};
use crate::dachshund::graph_builder_base::{
    endpoints, lemma_endpoints, lemma_with_endpoint, with_endpoint, GraphBuilderBase,
};
use crate::dachshund::id_types::NodeId;
use crate::dachshund::node::{NodeBase, SimpleDirectedNode};
use crate::dachshund::node_map::{map_contains_key, map_insert, map_remove};
use crate::dachshund::simple_directed_graph::{balanced, SimpleDirectedGraph};
use crate::dachshund::sums::{lemma_sum_add, lemma_sum_indicator, lemma_sum_zero, sum_to};

verus! {

/// The near end of a row seen from its source (`outgoing`) or from its
/// target.
pub open spec fn near_end(row: (i64, i64), outgoing: bool) -> i64 {
    if outgoing {
        row.0
    } else {
        row.1
    }
}

/// The far end of a row seen from its source (`outgoing`) or from its target.
pub open spec fn far_end(row: (i64, i64), outgoing: bool) -> i64 {
    if outgoing {
        row.1
    } else {
        row.0
    }
}

/// What the rows give to node `u` on one side, in row order: with `outgoing`
/// the targets of the rows that start at `u`, without it the sources of the
/// rows that end at `u`.
pub open spec fn directed_edges(rows: Seq<(i64, i64)>, u: i64, outgoing: bool) -> Seq<NodeId>
    decreases rows.len(),
{
    if rows.len() == 0 {
        Seq::empty()
    } else if near_end(rows.last(), outgoing) == u {
        directed_edges(rows.drop_last(), u, outgoing).push(
            NodeId { id: far_end(rows.last(), outgoing) },
        )
    } else {
        directed_edges(rows.drop_last(), u, outgoing)
    }
}

/// Every neighbor is an endpoint, and only endpoints have neighbors.
pub proof fn lemma_directed_edges_within(rows: Seq<(i64, i64)>, u: i64, outgoing: bool)
    ensures
        forall|j: int|
            0 <= j < directed_edges(rows, u, outgoing).len() ==> endpoints(rows).contains(
                #[trigger] directed_edges(rows, u, outgoing)[j],
            ),
        directed_edges(rows, u, outgoing).len() > 0 ==> endpoints(rows).contains(NodeId { id: u }),
    decreases rows.len(),
{
    if rows.len() > 0 {
        let before = rows.drop_last();
        lemma_directed_edges_within(before, u, outgoing);
        lemma_endpoints(before);
        lemma_with_endpoint(endpoints(before), rows.last().0);
        lemma_with_endpoint(with_endpoint(endpoints(before), rows.last().0), rows.last().1);
        let h = directed_edges(rows, u, outgoing);
        let hb = directed_edges(before, u, outgoing);
        assert forall|j: int| 0 <= j < h.len() implies endpoints(rows).contains(#[trigger] h[j]) by {
            if j < hb.len() {
                assert(h[j] == hb[j]);
                assert(endpoints(before).contains(hb[j]));
            }
        }
    }
}

/// Built from rows, `v` occurs among the out-neighbors of `u` as often as
/// `u` among the in-neighbors of `v`.
pub proof fn lemma_directed_edges_balanced(rows: Seq<(i64, i64)>, u: i64, v: i64)
    ensures
        occurrences(directed_edges(rows, u, true), NodeId { id: v }) == occurrences(
            directed_edges(rows, v, false),
            NodeId { id: u },
        ),
    decreases rows.len(),
{
    if rows.len() > 0 {
        let before = rows.drop_last();
        lemma_directed_edges_balanced(before, u, v);
        lemma_occurrences_push(
            directed_edges(before, u, true),
            NodeId { id: rows.last().1 },
            NodeId { id: v },
        );
        lemma_occurrences_push(
            directed_edges(before, v, false),
            NodeId { id: rows.last().0 },
            NodeId { id: u },
        );
    }
}

/// Summed over any list that names each endpoint once, the neighbors on one
/// side are as many as the rows.
pub proof fn lemma_directed_edges_total(rows: Seq<(i64, i64)>, ids: Seq<NodeId>, outgoing: bool)
    requires
        ids.no_duplicates(),
        forall|n: NodeId| endpoints(rows).contains(n) ==> ids.contains(n),
    ensures
        sum_to(|i: int| directed_edges(rows, ids[i].id, outgoing).len() as int, ids.len() as int)
            == rows.len(),
    decreases rows.len(),
{
    let n = ids.len() as int;
    let f = |i: int| directed_edges(rows, ids[i].id, outgoing).len() as int;
    if rows.len() == 0 {
        lemma_sum_zero(f, n);
    } else {
        let before = rows.drop_last();
        let near = NodeId { id: near_end(rows.last(), outgoing) };
        lemma_endpoints(before);
        lemma_endpoints(rows);
        lemma_with_endpoint(endpoints(before), rows.last().0);
        lemma_with_endpoint(with_endpoint(endpoints(before), rows.last().0), rows.last().1);
        lemma_directed_edges_total(before, ids, outgoing);
        assert(rows[rows.len() - 1] == rows.last());
        assert(ids.contains(near));
        let at = choose|i: int| 0 <= i < ids.len() && ids[i] == near;
        let g = |i: int| directed_edges(before, ids[i].id, outgoing).len() as int;
        let delta = |i: int| if i == at { 1int } else { 0int };
        assert forall|i: int| 0 <= i < n implies #[trigger] f(i) == g(i) + delta(i) by {
            assert(ids[i] == NodeId { id: ids[i].id });
        }
        lemma_sum_add(g, delta, f, n);
        lemma_sum_indicator(delta, at, n);
    }
}

/// Makes simple directed graphs from lists of edges.
pub struct SimpleDirectedGraphBuilder {}

/// Whether `nodes` and `ids` are what the rows build: the identifiers are
/// the endpoints in the order of their first mention, and each node holds the
/// sources of the rows that end at it and the targets of those that start at
/// it.
pub open spec fn built_from(
    nodes: Map<i64, SimpleDirectedNode>,
    ids: Seq<NodeId>,
    rows: Seq<(i64, i64)>,
) -> bool {
    &&& ids == endpoints(rows)
    &&& forall|k: i64| #[trigger] nodes.contains_key(k) <==> ids.contains(NodeId { id: k })
    &&& forall|k: i64| #[trigger]
        nodes.contains_key(k) ==> {
            &&& nodes[k].node_id == (NodeId { id: k })
            &&& nodes[k].out_neighbors@ == directed_edges(rows, k, true)
            &&& nodes[k].in_neighbors@ == directed_edges(rows, k, false)
        }
}

/// What is built from rows is a well-formed directed graph in which each row
/// is counted once where it starts and once where it ends.
pub proof fn lemma_built_is_graph(
    nodes: Map<i64, SimpleDirectedNode>,
    ids: Seq<NodeId>,
    rows: Seq<(i64, i64)>,
)
    requires
        built_from(nodes, ids, rows),
    ensures
        degree_sum(nodes, ids) == 2 * rows.len(),
        2 * rows.len() <= usize::MAX ==> well_formed(nodes, ids) && balanced(nodes),
{
    lemma_endpoints(rows);
    let n = ids.len() as int;
    lemma_directed_edges_total(rows, ids, true);
    lemma_directed_edges_total(rows, ids, false);
    lemma_degree_sum_as_sum(nodes, ids, n);
    assert(ids.subrange(0, n) =~= ids);
    let by_node = |i: int| nodes[ids[i].id].edges_view().len() as int;
    let ins = |i: int| directed_edges(rows, ids[i].id, false).len() as int;
    let outs = |i: int| directed_edges(rows, ids[i].id, true).len() as int;
    assert forall|i: int| 0 <= i < n implies #[trigger] by_node(i) == ins(i) + outs(i) by {
        assert(ids.contains(ids[i]));
        assert(ids[i] == NodeId { id: ids[i].id });
        assert(nodes.contains_key(ids[i].id));
    }
    lemma_sum_add(ins, outs, by_node, n);
    assert forall|n: NodeId| ids.contains(n) <==> #[trigger] nodes.contains_key(n.id) by {
        assert(n == NodeId { id: n.id });
    }
    assert forall|k: i64, j: int|
        nodes.contains_key(k) && 0 <= j < nodes[k].edges_view().len() implies nodes.contains_key(
        #[trigger] nodes[k].edges_view()[j].id,
    ) by {
        lemma_directed_edges_within(rows, k, true);
        lemma_directed_edges_within(rows, k, false);
        let t = nodes[k].edges_view()[j];
        let ins_k = directed_edges(rows, k, false);
        if j < ins_k.len() {
            assert(t == ins_k[j]);
        } else {
            assert(t == directed_edges(rows, k, true)[j - ins_k.len()]);
        }
        assert(endpoints(rows).contains(t));
        assert(t == NodeId { id: t.id });
    }
    assert forall|u: i64, v: i64| nodes.contains_key(u) && nodes.contains_key(v) implies #[trigger] occurrences(
        nodes[u].out_neighbors@,
        NodeId { id: v },
    ) == occurrences(nodes[v].in_neighbors@, NodeId { id: u }) by {
        lemma_directed_edges_balanced(rows, u, v);
    }
}

/// Adds a node without edges under `k`, at the end of the iteration order,
/// unless the graph has the node already.
pub fn ensure_node(nodes: &mut FxHashMap<i64, SimpleDirectedNode>, ids: &mut Vec<NodeId>, k: i64)
    requires
        forall|j: i64| #[trigger] old(nodes)@.contains_key(j) <==> old(ids)@.contains(NodeId { id: j }),
    ensures
        final(ids)@ == with_endpoint(old(ids)@, k),
        forall|j: i64| #[trigger] final(nodes)@.contains_key(j) <==> old(nodes)@.contains_key(j) || j == k,
        forall|j: i64| #[trigger] old(nodes)@.contains_key(j) ==> final(nodes)@[j] == old(nodes)@[j],
        !old(nodes)@.contains_key(k) ==> {
            &&& final(nodes)@[k].node_id == (NodeId { id: k })
            &&& final(nodes)@[k].in_neighbors@ == Seq::<NodeId>::empty()
            &&& final(nodes)@[k].out_neighbors@ == Seq::<NodeId>::empty()
        },
{
    if !map_contains_key(nodes, k) {
        let node = SimpleDirectedNode {
            node_id: NodeId { id: k },
            in_neighbors: Vec::new(),
            out_neighbors: Vec::new(),
        };
        map_insert(nodes, k, node);
        ids.push(NodeId { id: k });
    }
}

/// Records an edge at one of its ends: with `outgoing` node `k` gets `t` as
/// an out-neighbor, without it as an in-neighbor.
pub fn push_neighbor(nodes: &mut FxHashMap<i64, SimpleDirectedNode>, k: i64, t: i64, outgoing: bool)
    requires
        old(nodes)@.contains_key(k),
    ensures
        forall|j: i64| #[trigger] final(nodes)@.contains_key(j) <==> old(nodes)@.contains_key(j),
        forall|j: i64| j != k && #[trigger] old(nodes)@.contains_key(j) ==> final(nodes)@[j] == old(nodes)@[j],
        final(nodes)@[k].node_id == old(nodes)@[k].node_id,
        final(nodes)@[k].out_neighbors@ == if outgoing {
            old(nodes)@[k].out_neighbors@.push(NodeId { id: t })
        } else {
            old(nodes)@[k].out_neighbors@
        },
        final(nodes)@[k].in_neighbors@ == if outgoing {
            old(nodes)@[k].in_neighbors@
        } else {
            old(nodes)@[k].in_neighbors@.push(NodeId { id: t })
        },
{
    let mut node: SimpleDirectedNode = map_remove(nodes, k).unwrap();
    if outgoing {
        node.out_neighbors.push(NodeId { id: t });
    } else {
        node.in_neighbors.push(NodeId { id: t });
    }
    map_insert(nodes, k, node);
}

impl GraphBuilderBase for SimpleDirectedGraphBuilder {
    type GraphType = SimpleDirectedGraph;

    type RowType = (i64, i64);

    /// Rows are taken unless there are more of them than half a machine word
    /// can count.
    open spec fn accepts(data: Seq<(i64, i64)>) -> bool {
        2 * data.len() <= usize::MAX
    }

    /// The graph of the rows is well formed and holds their endpoints, each
    /// with the edges that the rows make arrive at it and leave it.
    open spec fn builds(data: Seq<(i64, i64)>, graph: SimpleDirectedGraph) -> bool {
        graph.wf() && built_from(graph.nodes@, graph.ids@, data)
    }

    /// Builds the graph whose edges are the rows, each leading from its first
    /// entry to its second. Each row adds one edge, also where it repeats an
    /// earlier row or joins a node to itself. A list with more rows than half
    /// a machine word can count is rejected.
    fn from_vector(&mut self, data: Vec<(i64, i64)>) -> (r: CLQResult<SimpleDirectedGraph>)
        ensures
            match r {
                Ok(g) => 2 * data@.len() <= usize::MAX && g.wf() && built_from(
                    g.nodes@,
                    g.ids@,
                    data@,
                ),
                Err(e) => 2 * data@.len() > usize::MAX && e is BuildError,
            },
    {
        if data.len() > usize::MAX / 2 {
            return Err(CLQError::BuildError("too many edges".to_owned()));
        }
        let mut nodes: FxHashMap<i64, SimpleDirectedNode> = FxHashMap::default();
        let mut ids: Vec<NodeId> = Vec::new();
        let mut i: usize = 0;
        while i < data.len()
            invariant
                i <= data.len(),
                built_from(nodes@, ids@, data@.subrange(0, i as int)),
            decreases data.len() - i,
        {
            let a: i64 = data[i].0;
            let b: i64 = data[i].1;
            let ghost before = data@.subrange(0, i as int);
            let ghost rows = data@.subrange(0, i + 1);
            let ghost old_nodes = nodes@;
            proof {
                assert(rows.drop_last() =~= before);
                assert(rows.last() == (a, b));
                lemma_endpoints(before);
                lemma_with_endpoint(ids@, a);
                lemma_with_endpoint(with_endpoint(ids@, a), b);
                lemma_directed_edges_within(before, a, true);
                lemma_directed_edges_within(before, a, false);
                lemma_directed_edges_within(before, b, true);
                lemma_directed_edges_within(before, b, false);
            }
            ensure_node(&mut nodes, &mut ids, a);
            ensure_node(&mut nodes, &mut ids, b);
            let ghost mid_nodes = nodes@;
            push_neighbor(&mut nodes, a, b, true);
            push_neighbor(&mut nodes, b, a, false);
            proof {
                assert(ids@ == endpoints(rows));
                assert forall|k: i64| #[trigger] nodes@.contains_key(k) implies {
                    &&& nodes@[k].node_id == (NodeId { id: k })
                    &&& nodes@[k].out_neighbors@ == directed_edges(rows, k, true)
                    &&& nodes@[k].in_neighbors@ == directed_edges(rows, k, false)
                } by {
                    assert(mid_nodes.contains_key(k));
                    if old_nodes.contains_key(k) {
                        assert(mid_nodes[k] == old_nodes[k]);
                    }
                    assert(mid_nodes[k].out_neighbors@ == directed_edges(before, k, true));
                    assert(mid_nodes[k].in_neighbors@ == directed_edges(before, k, false));
                }
            }
            i += 1;
        }
        proof {
            assert(data@.subrange(0, data.len() as int) =~= data@);
            lemma_built_is_graph(nodes@, ids@, data@);
        }
        let graph = SimpleDirectedGraph { nodes, ids };
        assert(Self::accepts(data@) && Self::builds(data@, graph));
        Ok(graph)
    }
}

} // verus!
