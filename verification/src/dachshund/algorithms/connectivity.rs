//! Whether a graph hangs together.

use vstd::prelude::*;
use std::collections::HashSet;
use crate::dachshund::algorithms::connected_components::{
    connected, lemma_connected_stands, lemma_connected_symmetric, lemma_connected_transitive,
    lemma_distinct_nodes_bound, lemma_mutual, mutual, ConnectedComponents,
};
use crate::dachshund::error::{CLQError, CLQResult};
use crate::dachshund::graph_base::{lemma_node_count, GraphBase};
use crate::dachshund::id_types::NodeId;
use crate::dachshund::node::{DirectedNodeBase, NodeBase};
use crate::dachshund::simple_directed_graph::DirectedGraph;
use crate::dachshund::simple_undirected_graph::UndirectedGraph;

verus! {

/// Whether a path leads from `root` to every node of the graph.
pub open spec fn reaches_all<N: NodeBase>(nodes: Map<i64, N>, root: NodeId) -> bool {
    forall|k: i64| #[trigger]
        nodes.contains_key(k) ==> connected(
            nodes,
            Set::<i64>::empty(),
            Set::<u128>::empty(),
            root,
            NodeId { id: k },
        )
}

/// Whether a path leads from every node of the graph to every other.
pub open spec fn all_connected<N: NodeBase>(nodes: Map<i64, N>) -> bool {
    forall|u: i64, v: i64|
        nodes.contains_key(u) && nodes.contains_key(v) ==> #[trigger] connected(
            nodes,
            Set::<i64>::empty(),
            Set::<u128>::empty(),
            NodeId { id: u },
            NodeId { id: v },
        )
}

/// A list without repetition of nodes of the graph that is as long as the
/// graph has nodes holds them all.
pub proof fn lemma_full_list<N: NodeBase>(nodes: Map<i64, N>, s: Seq<NodeId>, k: i64)
    requires
        nodes.dom().finite(),
        s.no_duplicates(),
        forall|i: int| 0 <= i < s.len() ==> nodes.contains_key(#[trigger] s[i].id),
        s.len() >= nodes.dom().len(),
        nodes.contains_key(k),
    ensures
        s.contains(NodeId { id: k }),
{
    if !s.contains(NodeId { id: k }) {
        let fewer = nodes.remove(k);
        assert(fewer.dom() =~= nodes.dom().remove(k));
        assert forall|i: int| 0 <= i < s.len() implies fewer.contains_key(#[trigger] s[i].id) by {
            assert(nodes.contains_key(s[i].id));
            if s[i].id == k {
                assert(s[i] == NodeId { id: k });
            }
        }
        lemma_distinct_nodes_bound(fewer, s);
    }
}

/// Whether a graph hangs together.
pub trait Connectivity: ConnectedComponents {
    /// Whether every node can be reached from the first. A graph without
    /// nodes is rejected.
    fn _get_is_connected(&self) -> (r: CLQResult<bool>)
        requires
            self.wf(),
        ensures
            match r {
                Ok(b) => self.ids_view().len() > 0 && b == reaches_all(
                    self.nodes_view(),
                    self.ids_view()[0],
                ),
                Err(e) => self.ids_view().len() == 0 && e is AlgorithmPrecondition,
            },
    {
        let ghost nodes = self.nodes_view();
        let ghost none = Set::<i64>::empty();
        let ghost cut = Set::<u128>::empty();
        let ids: &Vec<NodeId> = self.get_core_ids();
        if ids.len() == 0 {
            return Err(CLQError::AlgorithmPrecondition("graph is empty".to_owned()));
        }
        let root: NodeId = ids[0];
        proof {
            self.lemma_wf();
            lemma_node_count(nodes, self.ids_view());
            assert(ids@.contains(ids@[0]));
        }
        let mut visited: HashSet<i64> = HashSet::new();
        let reached: Vec<NodeId> = self.visit_nodes_from_root(root, &mut visited, None, None);
        let num_nodes: usize = self.count_nodes();
        proof {
            assert(none.union(Set::<i64>::empty()) =~= none);
            assert forall|i: int| 0 <= i < reached@.len() implies nodes.contains_key(
                #[trigger] reached@[i].id,
            ) by {
                assert(reached@.contains(reached@[i]));
                lemma_connected_stands(nodes, none, cut, root, reached@[i]);
            }
            lemma_distinct_nodes_bound(nodes, reached@);
            if reached@.len() == num_nodes {
                assert forall|k: i64| #[trigger] nodes.contains_key(k) implies connected(
                    nodes,
                    none,
                    cut,
                    root,
                    NodeId { id: k },
                ) by {
                    lemma_full_list(nodes, reached@, k);
                }
            } else {
                if reaches_all(nodes, root) {
                    let listed = self.ids_view();
                    assert forall|i: int| 0 <= i < listed.len() implies reached@.contains(
                        #[trigger] listed[i],
                    ) by {
                        assert(listed.contains(listed[i]));
                        assert(nodes.contains_key(listed[i].id));
                        assert(listed[i] == NodeId { id: listed[i].id });
                    }
                    lemma_list_within(listed, reached@);
                }
            }
        }
        Ok(reached.len() == num_nodes)
    }
}

/// A list without repetition is at most as long as a list that holds all
/// its entries.
pub proof fn lemma_list_within(s: Seq<NodeId>, t: Seq<NodeId>)
    requires
        s.no_duplicates(),
        forall|i: int| 0 <= i < s.len() ==> t.contains(#[trigger] s[i]),
    ensures
        s.len() <= t.len(),
{
    s.unique_seq_to_set();
    t.lemma_cardinality_of_set();
    assert(s.to_set().subset_of(t.to_set())) by {
        assert forall|x: NodeId| s.to_set().contains(x) implies t.to_set().contains(x) by {
            let i = choose|i: int| 0 <= i < s.len() && s[i] == x;
            assert(t.contains(s[i]));
        }
    }
    vstd::seq_lib::seq_to_set_is_finite(t);
    vstd::set_lib::lemma_len_subset(s.to_set(), t.to_set());
}

/// Connectivity of graphs without direction.
pub trait ConnectivityUndirected: Connectivity + UndirectedGraph {
    /// Whether a path leads from every node to every other. A graph without
    /// nodes is rejected.
    fn get_is_connected(&self) -> (r: CLQResult<bool>)
        requires
            self.wf(),
        ensures
            match r {
                Ok(b) => self.ids_view().len() > 0 && b == all_connected(self.nodes_view()),
                Err(e) => self.ids_view().len() == 0 && e is AlgorithmPrecondition,
            },
    {
        let r = self._get_is_connected();
        proof {
            if r is Ok {
                self.lemma_wf();
                lemma_mutual(self);
                assert(self.ids_view().contains(self.ids_view()[0]));
                lemma_reaching_all(self.nodes_view(), self.ids_view()[0]);
            }
        }
        r
    }
}

/// In a directed graph the neighbors of both kinds taken together are
/// mutual.
pub proof fn lemma_directed_mutual<G: DirectedGraph>(g: &G) where G::NodeType: DirectedNodeBase
    requires
        g.wf(),
    ensures
        mutual(g.nodes_view()),
{
    let nodes = g.nodes_view();
    assert forall|u: NodeId, v: NodeId|
        nodes.contains_key(u.id) && nodes.contains_key(v.id) && #[trigger] nodes[u.id].edges_view().contains(
            v,
        ) implies nodes[v.id].edges_view().contains(u) by {
        nodes[u.id].lemma_edges_split();
        nodes[v.id].lemma_edges_split();
        g.lemma_edge_has_two_ends(u, v);
        g.lemma_edge_has_two_ends(v, u);
        let mine = nodes[u.id].edges_view();
        let theirs = nodes[v.id].edges_view();
        let at = choose|at: int| 0 <= at < mine.len() && mine[at] == v;
        let ins = nodes[u.id].in_view();
        if at < ins.len() {
            assert(ins[at] == v);
            assert(ins.contains(v));
            let outs = nodes[v.id].out_view();
            let j = choose|j: int| 0 <= j < outs.len() && outs[j] == u;
            assert(theirs[nodes[v.id].in_view().len() + j] == u);
        } else {
            assert(nodes[u.id].out_view()[at - ins.len()] == v);
            assert(nodes[u.id].out_view().contains(v));
            let their_ins = nodes[v.id].in_view();
            let j = choose|j: int| 0 <= j < their_ins.len() && their_ins[j] == u;
            assert(theirs[j] == u);
        }
    }
}

/// Connectivity of directed graphs.
pub trait ConnectivityDirected: Connectivity + DirectedGraph where Self::NodeType: DirectedNodeBase {
    /// Whether the graph hangs together when the direction of its edges is
    /// left aside: a path along edges walked either way leads from every
    /// node to every other. A graph without nodes is rejected.
    fn get_is_weakly_connected(&self) -> (r: CLQResult<bool>)
        requires
            self.wf(),
        ensures
            match r {
                Ok(b) => self.ids_view().len() > 0 && b == all_connected(self.nodes_view()),
                Err(e) => self.ids_view().len() == 0 && e is AlgorithmPrecondition,
            },
    {
        let r = self._get_is_connected();
        proof {
            if r is Ok {
                self.lemma_wf();
                lemma_directed_mutual(self);
                assert(self.ids_view().contains(self.ids_view()[0]));
                lemma_reaching_all(self.nodes_view(), self.ids_view()[0]);
            }
        }
        r
    }
}

/// Where neighbors are mutual, every node is reached from one exactly when
/// each is from every other.
pub proof fn lemma_reaching_all<N: NodeBase>(nodes: Map<i64, N>, root: NodeId)
    requires
        mutual(nodes),
        nodes.contains_key(root.id),
    ensures
        reaches_all(nodes, root) == all_connected(nodes),
{
    let none = Set::<i64>::empty();
    let cut = Set::<u128>::empty();
    assert(root == NodeId { id: root.id });
    if reaches_all(nodes, root) {
        assert forall|u: i64, v: i64|
            nodes.contains_key(u) && nodes.contains_key(v) implies #[trigger] connected(
            nodes,
            none,
            cut,
            NodeId { id: u },
            NodeId { id: v },
        ) by {
            let a = NodeId { id: u };
            let b = NodeId { id: v };
            lemma_connected_symmetric(nodes, none, cut, root, a);
            lemma_connected_transitive(nodes, none, cut, a, root, b);
        }
    }
    if all_connected(nodes) {
        assert forall|k: i64| #[trigger] nodes.contains_key(k) implies connected(
            nodes,
            none,
            cut,
            root,
            NodeId { id: k },
        ) by {
            assert(connected(nodes, none, cut, NodeId { id: root.id }, NodeId { id: k }));
        }
    }
}

} // verus!
