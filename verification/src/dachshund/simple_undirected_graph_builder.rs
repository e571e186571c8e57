//! Builds simple graphs without direction from lists of edges.

use vstd::prelude::*;
use fxhash::FxHashMap;
use crate::dachshund::counting::{lemma_occurrences_push, occurrences};
use crate::dachshund::error::{CLQError, CLQResult};
use crate::dachshund::graph_base::{degree_sum, lemma_degree_sum_as_sum, well_formed, GraphBase};
use crate::dachshund::graph_builder_base::{
    endpoints, lemma_endpoints, lemma_with_endpoint, with_endpoint, GraphBuilderBase,
};
use crate::dachshund::id_types::NodeId;
use crate::dachshund::node::{NodeBase, SimpleNode};
use crate::dachshund::node_map::{map_contains_key, map_insert, map_remove};
use crate::dachshund::simple_undirected_graph::{symmetric, SimpleUndirectedGraph};
use crate::dachshund::sums::{
    lemma_sum_add, lemma_sum_indicator, lemma_sum_pointwise, lemma_sum_zero, sum_to,
};

verus! {

/// The half-edges that the rows give to node `u`, in row order: a row
/// `(a, b)` gives `b` to `a` and then `a` to `b`, so a loop gives its node
/// two half-edges.
pub open spec fn half_edges(rows: Seq<(i64, i64)>, u: i64) -> Seq<NodeId>
    decreases rows.len(),
{
    if rows.len() == 0 {
        Seq::empty()
    } else {
        let before = half_edges(rows.drop_last(), u);
        let forth = if rows.last().0 == u {
            before.push(NodeId { id: rows.last().1 })
        } else {
            before
        };
        if rows.last().1 == u {
            forth.push(NodeId { id: rows.last().0 })
        } else {
            forth
        }
    }
}

/// How many half-edges a row gives to node `u`.
pub open spec fn row_share(row: (i64, i64), u: i64) -> nat {
    (if row.0 == u {
        1nat
    } else {
        0nat
    }) + (if row.1 == u {
        1nat
    } else {
        0nat
    })
}

/// Every half-edge leads to an endpoint, and only endpoints have half-edges.
pub proof fn lemma_half_edges_within(rows: Seq<(i64, i64)>, u: i64)
    ensures
        forall|j: int|
            0 <= j < half_edges(rows, u).len() ==> endpoints(rows).contains(
                #[trigger] half_edges(rows, u)[j],
            ),
        half_edges(rows, u).len() > 0 ==> endpoints(rows).contains(NodeId { id: u }),
    decreases rows.len(),
{
    if rows.len() > 0 {
        let before = rows.drop_last();
        lemma_half_edges_within(before, u);
        lemma_endpoints(before);
        lemma_with_endpoint(endpoints(before), rows.last().0);
        lemma_with_endpoint(with_endpoint(endpoints(before), rows.last().0), rows.last().1);
        let h = half_edges(rows, u);
        let hb = half_edges(before, u);
        assert forall|j: int| 0 <= j < h.len() implies endpoints(rows).contains(#[trigger] h[j]) by {
            if j < hb.len() {
                assert(h[j] == hb[j]);
                assert(endpoints(before).contains(hb[j]));
            }
        }
    }
}

/// Built from rows, `v` occurs among the half-edges of `u` as often as `u`
/// among those of `v`, and `u` among its own an even number of times.
pub proof fn lemma_half_edges_symmetric(rows: Seq<(i64, i64)>, u: i64, v: i64)
    ensures
        occurrences(half_edges(rows, u), NodeId { id: v }) == occurrences(
            half_edges(rows, v),
            NodeId { id: u },
        ),
        occurrences(half_edges(rows, u), NodeId { id: u }) % 2 == 0,
    decreases rows.len(),
{
    if rows.len() > 0 {
        let before = rows.drop_last();
        lemma_half_edges_symmetric(before, u, v);
        let a = rows.last().0;
        let b = rows.last().1;
        let hu = half_edges(before, u);
        let hv = half_edges(before, v);
        let hu1 = if a == u {
            hu.push(NodeId { id: b })
        } else {
            hu
        };
        let hv1 = if a == v {
            hv.push(NodeId { id: b })
        } else {
            hv
        };
        lemma_occurrences_push(hu, NodeId { id: b }, NodeId { id: v });
        lemma_occurrences_push(hu1, NodeId { id: a }, NodeId { id: v });
        lemma_occurrences_push(hv, NodeId { id: b }, NodeId { id: u });
        lemma_occurrences_push(hv1, NodeId { id: a }, NodeId { id: u });
        lemma_occurrences_push(hu, NodeId { id: b }, NodeId { id: u });
        lemma_occurrences_push(hu1, NodeId { id: a }, NodeId { id: u });
    }
}

/// One more row gives each node as many more half-edges as its share says.
pub proof fn lemma_half_edges_len(rows: Seq<(i64, i64)>, u: i64)
    requires
        rows.len() > 0,
    ensures
        half_edges(rows, u).len() == half_edges(rows.drop_last(), u).len() + row_share(
            rows.last(),
            u,
        ),
{
}

/// Summed over any list that names each endpoint once, the half-edges are
/// twice as many as the rows.
pub proof fn lemma_half_edges_total(rows: Seq<(i64, i64)>, ids: Seq<NodeId>)
    requires
        ids.no_duplicates(),
        forall|n: NodeId| endpoints(rows).contains(n) ==> ids.contains(n),
    ensures
        sum_to(|i: int| half_edges(rows, ids[i].id).len() as int, ids.len() as int) == 2
            * rows.len(),
    decreases rows.len(),
{
    let n = ids.len() as int;
    let f = |i: int| half_edges(rows, ids[i].id).len() as int;
    if rows.len() == 0 {
        lemma_sum_zero(f, n);
    } else {
        let before = rows.drop_last();
        let a = NodeId { id: rows.last().0 };
        let b = NodeId { id: rows.last().1 };
        lemma_endpoints(before);
        lemma_endpoints(rows);
        lemma_with_endpoint(endpoints(before), rows.last().0);
        lemma_with_endpoint(with_endpoint(endpoints(before), rows.last().0), rows.last().1);
        lemma_half_edges_total(before, ids);
        assert(rows[rows.len() - 1] == rows.last());
        assert(ids.contains(a));
        assert(ids.contains(b));
        let ia = choose|i: int| 0 <= i < ids.len() && ids[i] == a;
        let ib = choose|i: int| 0 <= i < ids.len() && ids[i] == b;
        let g = |i: int| half_edges(before, ids[i].id).len() as int;
        let da = |i: int| if i == ia { 1int } else { 0int };
        let db = |i: int| if i == ib { 1int } else { 0int };
        let mid = |i: int| g(i) + da(i);
        assert forall|i: int| 0 <= i < n implies #[trigger] f(i) == mid(i) + db(i) by {
            lemma_half_edges_len(rows, ids[i].id);
            assert(ids[i] == NodeId { id: ids[i].id });
        }
        lemma_sum_add(mid, db, f, n);
        lemma_sum_add(g, da, mid, n);
        lemma_sum_indicator(da, ia, n);
        lemma_sum_indicator(db, ib, n);
    }
}

/// Makes simple undirected graphs from lists of edges.
pub struct SimpleUndirectedGraphBuilder {}

/// Whether `nodes` and `ids` are what the rows build: the identifiers are
/// the endpoints in the order of their first mention, and each node holds the
/// half-edges that the rows give it.
pub open spec fn built_from(
    nodes: Map<i64, SimpleNode>,
    ids: Seq<NodeId>,
    rows: Seq<(i64, i64)>,
) -> bool {
    &&& ids == endpoints(rows)
    &&& forall|k: i64| #[trigger] nodes.contains_key(k) <==> ids.contains(NodeId { id: k })
    &&& forall|k: i64| #[trigger]
        nodes.contains_key(k) ==> nodes[k].node_id == (NodeId { id: k }) && nodes[k].neighbors@
            == half_edges(rows, k)
}

/// What is built from rows is a well-formed undirected graph with two
/// half-edges for each row.
pub proof fn lemma_built_is_graph(
    nodes: Map<i64, SimpleNode>,
    ids: Seq<NodeId>,
    rows: Seq<(i64, i64)>,
)
    requires
        built_from(nodes, ids, rows),
    ensures
        degree_sum(nodes, ids) == 2 * rows.len(),
        2 * rows.len() <= usize::MAX ==> well_formed(nodes, ids) && symmetric(nodes),
{
    lemma_endpoints(rows);
    let n = ids.len() as int;
    lemma_half_edges_total(rows, ids);
    lemma_degree_sum_as_sum(nodes, ids, n);
    assert(ids.subrange(0, n) =~= ids);
    let by_node = |i: int| nodes[ids[i].id].edges_view().len() as int;
    let by_rows = |i: int| half_edges(rows, ids[i].id).len() as int;
    assert forall|i: int| 0 <= i < n implies #[trigger] by_node(i) == by_rows(i) by {
        assert(ids.contains(ids[i]));
        assert(ids[i] == NodeId { id: ids[i].id });
        assert(nodes.contains_key(ids[i].id));
    }
    lemma_sum_pointwise(by_node, by_rows, n);
    assert forall|n: NodeId| ids.contains(n) <==> #[trigger] nodes.contains_key(n.id) by {
        assert(n == NodeId { id: n.id });
    }
    assert forall|k: i64, j: int|
        nodes.contains_key(k) && 0 <= j < nodes[k].neighbors@.len() implies nodes.contains_key(
        #[trigger] nodes[k].neighbors@[j].id,
    ) by {
        lemma_half_edges_within(rows, k);
        let t = half_edges(rows, k)[j];
        assert(endpoints(rows).contains(t));
        assert(t == NodeId { id: t.id });
    }
    assert forall|u: i64, v: i64| nodes.contains_key(u) && nodes.contains_key(v) implies #[trigger] occurrences(
        nodes[u].neighbors@,
        NodeId { id: v },
    ) == occurrences(nodes[v].neighbors@, NodeId { id: u }) by {
        lemma_half_edges_symmetric(rows, u, v);
    }
    assert forall|u: i64| nodes.contains_key(u) implies (#[trigger] occurrences(
        nodes[u].neighbors@,
        NodeId { id: u },
    )) % 2 == 0 by {
        lemma_half_edges_symmetric(rows, u, u);
    }
}

/// Adds a node without edges under `k`, at the end of the iteration order,
/// unless the graph has the node already.
pub fn ensure_node(nodes: &mut FxHashMap<i64, SimpleNode>, ids: &mut Vec<NodeId>, k: i64)
    requires
        forall|j: i64| #[trigger] old(nodes)@.contains_key(j) <==> old(ids)@.contains(NodeId { id: j }),
    ensures
        final(ids)@ == with_endpoint(old(ids)@, k),
        forall|j: i64| #[trigger] final(nodes)@.contains_key(j) <==> old(nodes)@.contains_key(j) || j == k,
        forall|j: i64| #[trigger] old(nodes)@.contains_key(j) ==> final(nodes)@[j] == old(nodes)@[j],
        !old(nodes)@.contains_key(k) ==> final(nodes)@[k].node_id == (NodeId { id: k })
            && final(nodes)@[k].neighbors@ == Seq::<NodeId>::empty(),
{
    if !map_contains_key(nodes, k) {
        let node = SimpleNode { node_id: NodeId { id: k }, neighbors: Vec::new() };
        map_insert(nodes, k, node);
        ids.push(NodeId { id: k });
    }
}

/// Gives node `k` one more half-edge, to `t`.
pub fn push_half_edge(nodes: &mut FxHashMap<i64, SimpleNode>, k: i64, t: i64)
    requires
        old(nodes)@.contains_key(k),
    ensures
        forall|j: i64| #[trigger] final(nodes)@.contains_key(j) <==> old(nodes)@.contains_key(j),
        forall|j: i64| j != k && #[trigger] old(nodes)@.contains_key(j) ==> final(nodes)@[j] == old(nodes)@[j],
        final(nodes)@[k].node_id == old(nodes)@[k].node_id,
        final(nodes)@[k].neighbors@ == old(nodes)@[k].neighbors@.push(NodeId { id: t }),
{
    let mut node: SimpleNode = map_remove(nodes, k).unwrap();
    node.neighbors.push(NodeId { id: t });
    map_insert(nodes, k, node);
}

impl GraphBuilderBase for SimpleUndirectedGraphBuilder {
    type GraphType = SimpleUndirectedGraph;

    type RowType = (i64, i64);

    /// Rows are taken unless there are more of them than half a machine word
    /// can count.
    open spec fn accepts(data: Seq<(i64, i64)>) -> bool {
        2 * data.len() <= usize::MAX
    }

    /// The graph of the rows is well formed and holds their endpoints, each
    /// with the half-edges that the rows give it.
    open spec fn builds(data: Seq<(i64, i64)>, graph: SimpleUndirectedGraph) -> bool {
        graph.wf() && built_from(graph.nodes@, graph.ids@, data)
    }

    /// Builds the graph whose edges are the rows. Each row adds one edge,
    /// also where it repeats an earlier row or joins a node to itself; an
    /// edge needs to be given in one direction only. A list with more rows
    /// than half a machine word can count is rejected.
    fn from_vector(&mut self, data: Vec<(i64, i64)>) -> (r: CLQResult<SimpleUndirectedGraph>)
        ensures
            match r {
                Ok(g) => 2 * data@.len() <= usize::MAX && g.wf() && built_from(
                    g.nodes@,
                    g.ids@,
                    data@,
                ),
                Err(e) => 2 * data@.len() > usize::MAX && e is BuildError,
            },
    {
        if data.len() > usize::MAX / 2 {
            return Err(CLQError::BuildError("too many edges".to_owned()));
        }
        let mut nodes: FxHashMap<i64, SimpleNode> = FxHashMap::default();
        let mut ids: Vec<NodeId> = Vec::new();
        let mut i: usize = 0;
        while i < data.len()
            invariant
                i <= data.len(),
                built_from(nodes@, ids@, data@.subrange(0, i as int)),
            decreases data.len() - i,
        {
            let a: i64 = data[i].0;
            let b: i64 = data[i].1;
            let ghost before = data@.subrange(0, i as int);
            let ghost rows = data@.subrange(0, i + 1);
            let ghost old_nodes = nodes@;
            proof {
                assert(rows.drop_last() =~= before);
                assert(rows.last() == (a, b));
                lemma_endpoints(before);
                lemma_with_endpoint(ids@, a);
                lemma_with_endpoint(with_endpoint(ids@, a), b);
                lemma_half_edges_within(before, a);
                lemma_half_edges_within(before, b);
            }
            ensure_node(&mut nodes, &mut ids, a);
            ensure_node(&mut nodes, &mut ids, b);
            let ghost mid_nodes = nodes@;
            push_half_edge(&mut nodes, a, b);
            push_half_edge(&mut nodes, b, a);
            proof {
                assert(ids@ == endpoints(rows));
                assert forall|k: i64| #[trigger] nodes@.contains_key(k) implies nodes@[k].node_id == (
                NodeId { id: k }) && nodes@[k].neighbors@ == half_edges(rows, k) by {
                    assert(mid_nodes.contains_key(k));
                    if old_nodes.contains_key(k) {
                        assert(mid_nodes[k] == old_nodes[k]);
                    }
                    assert(mid_nodes[k].neighbors@ == half_edges(before, k));
                }
            }
            i += 1;
        }
        proof {
            assert(data@.subrange(0, data.len() as int) =~= data@);
            lemma_built_is_graph(nodes@, ids@, data@);
        }
        let graph = SimpleUndirectedGraph { nodes, ids };
        assert(Self::accepts(data@) && Self::builds(data@, graph));
        Ok(graph)
    }
}

} // verus!
