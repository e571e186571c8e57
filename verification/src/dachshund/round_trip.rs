//! A graph written out as rows and built again is the same graph.

use vstd::prelude::*;
use crate::dachshund::counting::{lemma_occurrences_contains, lemma_occurrences_push, occurrences};
use crate::dachshund::graph_base::{well_formed, GraphBase};
use crate::dachshund::graph_builder_base::{endpoints, lemma_endpoints, lemma_with_endpoint, with_endpoint};
use crate::dachshund::id_types::NodeId;
use crate::dachshund::node::{NodeBase, SimpleNode};
use crate::dachshund::simple_undirected_graph::{
    input_rows, symmetric, upward_rows, SimpleUndirectedGraph,
};
use crate::dachshund::simple_undirected_graph_builder::{
    built_from, half_edges, lemma_half_edges_within,
};

verus! {

/// How many of the rows are equal to `row`.
pub open spec fn row_count(rows: Seq<(i64, i64)>, row: (i64, i64)) -> nat
    decreases rows.len(),
{
    if rows.len() == 0 {
        0
    } else {
        row_count(rows.drop_last(), row) + if rows.last() == row {
            1nat
        } else {
            0nat
        }
    }
}

/// Whether no node is its own neighbor.
pub open spec fn loop_free(nodes: Map<i64, SimpleNode>) -> bool {
    forall|k: i64| #[trigger] nodes.contains_key(k) ==> !nodes[k].neighbors@.contains(NodeId { id: k })
}

proof fn lemma_row_count_concat(s: Seq<(i64, i64)>, t: Seq<(i64, i64)>, row: (i64, i64))
    ensures
        row_count(s + t, row) == row_count(s, row) + row_count(t, row),
    decreases t.len(),
{
    if t.len() == 0 {
        assert(s + t =~= s);
    } else {
        lemma_row_count_concat(s, t.drop_last(), row);
        assert((s + t).drop_last() =~= s + t.drop_last());
    }
}

/// Among the half-edges that rows give to `u`, `v` occurs once for each row
/// that joins the two, whichever way round it is written.
proof fn lemma_half_edges_count(rows: Seq<(i64, i64)>, u: i64, v: i64)
    ensures
        occurrences(half_edges(rows, u), NodeId { id: v }) == row_count(rows, (u, v)) + row_count(
            rows,
            (v, u),
        ),
    decreases rows.len(),
{
    if rows.len() > 0 {
        let before = rows.drop_last();
        lemma_half_edges_count(before, u, v);
        let a = rows.last().0;
        let b = rows.last().1;
        let hu = half_edges(before, u);
        let forth = if a == u {
            hu.push(NodeId { id: b })
        } else {
            hu
        };
        lemma_occurrences_push(hu, NodeId { id: b }, NodeId { id: v });
        lemma_occurrences_push(forth, NodeId { id: a }, NodeId { id: v });
    }
}

proof fn lemma_upward_rows_count(x: NodeId, edges: Seq<NodeId>, row: (i64, i64))
    ensures
        row_count(upward_rows(x, edges), row) == if row.0 == x.id && row.0 < row.1 {
            occurrences(edges, NodeId { id: row.1 })
        } else {
            0
        },
    decreases edges.len(),
{
    if edges.len() > 0 {
        lemma_upward_rows_count(x, edges.drop_last(), row);
        let up = upward_rows(x, edges.drop_last());
        if x.id < edges.last().id {
            assert(up.push((x.id, edges.last().id)).drop_last() =~= up);
        }
        assert(edges.last() == NodeId { id: edges.last().id });
    }
}

/// A row occurs among the rows of a graph as often as its second entry
/// among the neighbors of its first, where it leads upward from a node of
/// the graph, and not at all otherwise.
proof fn lemma_input_rows_count(nodes: Map<i64, SimpleNode>, ids: Seq<NodeId>, row: (i64, i64))
    requires
        ids.no_duplicates(),
    ensures
        row_count(input_rows(nodes, ids), row) == if ids.contains(NodeId { id: row.0 }) && row.0
            < row.1 {
            occurrences(nodes[row.0].neighbors@, NodeId { id: row.1 })
        } else {
            0
        },
    decreases ids.len(),
{
    if ids.len() > 0 {
        let before = ids.drop_last();
        let x = ids.last();
        lemma_input_rows_count(nodes, before, row);
        lemma_row_count_concat(input_rows(nodes, before), upward_rows(x, nodes[x.id].neighbors@), row);
        lemma_upward_rows_count(x, nodes[x.id].neighbors@, row);
        let n = NodeId { id: row.0 };
        assert(x == NodeId { id: x.id });
        if before.contains(n) {
            let i = choose|i: int| 0 <= i < before.len() && before[i] == n;
            assert(ids[i] == n);
            assert(ids[ids.len() - 1] == x);
        }
        if ids.contains(n) && !before.contains(n) {
            let i = choose|i: int| 0 <= i < ids.len() && ids[i] == n;
            if i < ids.len() - 1 {
                assert(before[i] == n);
            }
        }
        if x == n {
            assert(ids[ids.len() - 1] == n);
        }
    }
}

/// A node that rows name has a half-edge.
proof fn lemma_endpoint_has_half_edge(rows: Seq<(i64, i64)>, k: i64)
    requires
        endpoints(rows).contains(NodeId { id: k }),
    ensures
        half_edges(rows, k).len() > 0,
    decreases rows.len(),
{
    if rows.len() > 0 {
        let before = rows.drop_last();
        lemma_endpoints(before);
        lemma_with_endpoint(endpoints(before), rows.last().0);
        lemma_with_endpoint(with_endpoint(endpoints(before), rows.last().0), rows.last().1);
        if endpoints(before).contains(NodeId { id: k }) {
            lemma_endpoint_has_half_edge(before, k);
        }
    }
}

/// Writing out a graph without loops as rows and building from the rows
/// gives each node the half-edges it had: every neighbor as often as before.
pub proof fn lemma_rows_keep_neighbors(
    nodes: Map<i64, SimpleNode>,
    ids: Seq<NodeId>,
    u: i64,
    v: i64,
)
    requires
        well_formed(nodes, ids),
        symmetric(nodes),
        loop_free(nodes),
    ensures
        occurrences(half_edges(input_rows(nodes, ids), u), NodeId { id: v }) == if nodes.contains_key(
            u,
        ) {
            occurrences(nodes[u].neighbors@, NodeId { id: v })
        } else {
            0
        },
{
    let rows = input_rows(nodes, ids);
    lemma_half_edges_count(rows, u, v);
    lemma_input_rows_count(nodes, ids, (u, v));
    lemma_input_rows_count(nodes, ids, (v, u));
    let nu = NodeId { id: u };
    let nv = NodeId { id: v };
    assert(ids.contains(nu) <==> nodes.contains_key(nu.id));
    assert(ids.contains(nv) <==> nodes.contains_key(nv.id));
    if nodes.contains_key(u) {
        lemma_occurrences_contains(nodes[u].neighbors@, nv);
        if nodes[u].neighbors@.contains(nv) {
            let j = choose|j: int| 0 <= j < nodes[u].neighbors@.len() && nodes[u].neighbors@[j] == nv;
            assert(nodes.contains_key(nodes[u].edges_view()[j].id));
        }
    }
    if nodes.contains_key(v) {
        lemma_occurrences_contains(nodes[v].neighbors@, nu);
        if nodes[v].neighbors@.contains(nu) {
            let j = choose|j: int| 0 <= j < nodes[v].neighbors@.len() && nodes[v].neighbors@[j] == nu;
            assert(nodes.contains_key(nodes[v].edges_view()[j].id));
        }
    }
}

/// A graph without loops comes back from its own rows: the graph built from
/// them has the nodes of the first that have an edge, and each of these has
/// every neighbor as often as before. A graph in which every node has an edge
/// thus comes back with the same nodes and the same edges.
pub proof fn lemma_round_trip(g: SimpleUndirectedGraph, rebuilt: SimpleUndirectedGraph)
    requires
        g.wf(),
        loop_free(g.nodes@),
        built_from(rebuilt.nodes@, rebuilt.ids@, input_rows(g.nodes@, g.ids@)),
    ensures
        forall|k: i64|
            rebuilt.nodes@.contains_key(k) <==> #[trigger] g.nodes@.contains_key(k)
                && g.nodes@[k].neighbors@.len() > 0,
        forall|k: i64, v: i64|
            rebuilt.nodes@.contains_key(k) ==> #[trigger] occurrences(
                rebuilt.nodes@[k].neighbors@,
                NodeId { id: v },
            ) == occurrences(g.nodes@[k].neighbors@, NodeId { id: v }),
{
    let rows = input_rows(g.nodes@, g.ids@);
    assert forall|k: i64|
        rebuilt.nodes@.contains_key(k) <==> #[trigger] g.nodes@.contains_key(k)
            && g.nodes@[k].neighbors@.len() > 0 by {
        let h = half_edges(rows, k);
        if rebuilt.nodes@.contains_key(k) {
            lemma_endpoint_has_half_edge(rows, k);
            let t = h[0];
            assert(t == NodeId { id: t.id });
            lemma_rows_keep_neighbors(g.nodes@, g.ids@, k, t.id);
            lemma_occurrences_contains(h, t);
            if g.nodes@.contains_key(k) {
                lemma_occurrences_contains(g.nodes@[k].neighbors@, t);
            }
        }
        if g.nodes@.contains_key(k) && g.nodes@[k].neighbors@.len() > 0 {
            let t = g.nodes@[k].neighbors@[0];
            assert(t == NodeId { id: t.id });
            lemma_rows_keep_neighbors(g.nodes@, g.ids@, k, t.id);
            lemma_occurrences_contains(g.nodes@[k].neighbors@, t);
            lemma_occurrences_contains(h, t);
            lemma_half_edges_within(rows, k);
        }
    }
    assert forall|k: i64, v: i64| rebuilt.nodes@.contains_key(k) implies #[trigger] occurrences(
        rebuilt.nodes@[k].neighbors@,
        NodeId { id: v },
    ) == occurrences(g.nodes@[k].neighbors@, NodeId { id: v }) by {
        lemma_rows_keep_neighbors(g.nodes@, g.ids@, k, v);
    }
}

} // verus!
