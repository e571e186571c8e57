//! The adjacency matrix over the nodes in rising order.

use vstd::prelude::*;
use vstd::seq_lib::{to_multiset_build, to_multiset_contains, to_multiset_insert};
use std::collections::HashMap;
use crate::dachshund::counting::{lemma_occurrences_push, occurrences};
use crate::dachshund::graph_base::GraphBase;
use crate::dachshund::id_types::NodeId;
use crate::dachshund::node::NodeBase;

verus! {

/// Whether the identifiers rise along the list.
pub open spec fn is_rising(s: Seq<NodeId>) -> bool {
    forall|i: int, j: int| 0 <= i < j < s.len() ==> (#[trigger] s[i]).id <= (#[trigger] s[j]).id
}

/// The identifiers in rising order.
pub fn sort_ids(ids: &Vec<NodeId>) -> (r: Vec<NodeId>)
    ensures
        is_rising(r@),
        r@.to_multiset() == ids@.to_multiset(),
        r@.len() == ids@.len(),
{
    let mut out: Vec<NodeId> = Vec::new();
    let mut i: usize = 0;
    proof {
        assert(ids@.subrange(0, 0) =~= Seq::<NodeId>::empty());
    }
    while i < ids.len()
        invariant
            i <= ids.len(),
            out@.len() == i,
            is_rising(out@),
            out@.to_multiset() == ids@.subrange(0, i as int).to_multiset(),
        decreases ids.len() - i,
    {
        let x: NodeId = ids[i];
        let mut at: usize = 0;
        while at < out.len() && out[at].value() <= x.value()
            invariant
                at <= out.len(),
                forall|t: int| 0 <= t < at ==> (#[trigger] out@[t]).id <= x.id,
            decreases out.len() - at,
        {
            at += 1;
        }
        let ghost before = out@;
        out.insert(at, x);
        proof {
            to_multiset_insert(before, at as int, x);
            to_multiset_build(ids@.subrange(0, i as int), x);
            assert(ids@.subrange(0, i + 1) =~= ids@.subrange(0, i as int).push(x));
            assert forall|a: int, b: int| 0 <= a < b < out@.len() implies (#[trigger] out@[a]).id <= (
            #[trigger] out@[b]).id by {
                if a < at && b > at {
                    assert(out@[a] == before[a]);
                    assert(out@[b] == before[b - 1]);
                    if a < b - 1 {
                        assert(before[a].id <= before[b - 1].id);
                    }
                } else if a < at && b < at {
                    assert(before[a].id <= before[b].id);
                } else if a > at {
                    assert(before[a - 1].id <= before[b - 1].id);
                } else if a == at {
                    assert(out@[b] == before[b - 1]);
                    if at < b - 1 {
                        assert(before[at as int].id <= before[b - 1].id);
                    }
                }
            }
        }
        i += 1;
    }
    assert(ids@.subrange(0, ids.len() as int) =~= ids@);
    out
}

/// The places of the identifiers in the list.
pub fn index_of_ids(ids: &Vec<NodeId>) -> (r: HashMap<i64, usize>)
    requires
        ids@.no_duplicates(),
    ensures
        forall|k: i64| #[trigger] r@.contains_key(k) <==> ids@.contains(NodeId { id: k }),
        forall|k: i64| #[trigger] r@.contains_key(k) ==> r@[k] < ids@.len() && ids@[r@[k] as int].id == k,
{
    let mut places: HashMap<i64, usize> = HashMap::new();
    let mut i: usize = 0;
    while i < ids.len()
        invariant
            i <= ids.len(),
            forall|k: i64| #[trigger]
                places@.contains_key(k) <==> ids@.subrange(0, i as int).contains(NodeId { id: k }),
            forall|k: i64| #[trigger]
                places@.contains_key(k) ==> places@[k] < i && ids@[places@[k] as int].id == k,
        decreases ids.len() - i,
    {
        let key: i64 = ids[i].value();
        let ghost shorter = ids@.subrange(0, i as int);
        let ghost longer = ids@.subrange(0, i + 1);
        proof {
            assert(longer[i as int] == NodeId { id: key });
            assert forall|w: NodeId| longer.contains(w) <==> shorter.contains(w) || w == (NodeId { id: key }) by {
                if shorter.contains(w) {
                    let t = choose|t: int| 0 <= t < shorter.len() && shorter[t] == w;
                    assert(longer[t] == w);
                }
                if longer.contains(w) {
                    let t = choose|t: int| 0 <= t < longer.len() && longer[t] == w;
                    if t < i {
                        assert(shorter[t] == w);
                    }
                }
            }
        }
        places.insert(key, i);
        i += 1;
    }
    assert(ids@.subrange(0, ids.len() as int) =~= ids@);
    places
}

/// How often each of `ids` occurs among `edges`.
pub fn count_row(edges: &Vec<NodeId>, ids: &Vec<NodeId>, places: &HashMap<i64, usize>) -> (r: Vec<usize>)
    requires
        ids@.no_duplicates(),
        forall|k: i64| #[trigger] places@.contains_key(k) <==> ids@.contains(NodeId { id: k }),
        forall|k: i64| #[trigger]
            places@.contains_key(k) ==> places@[k] < ids@.len() && ids@[places@[k] as int].id == k,
    ensures
        r@.len() == ids@.len(),
        forall|j: int| 0 <= j < ids@.len() ==> #[trigger] r@[j] == occurrences(edges@, ids@[j]),
{
    let mut row: Vec<usize> = Vec::new();
    let mut j: usize = 0;
    while j < ids.len()
        invariant
            j <= ids.len(),
            row@.len() == j,
            forall|x: int| 0 <= x < j ==> #[trigger] row@[x] == 0,
        decreases ids.len() - j,
    {
        row.push(0);
        j += 1;
    }
    let mut e: usize = 0;
    while e < edges.len()
        invariant
            e <= edges.len(),
            ids@.no_duplicates(),
            forall|k: i64| #[trigger] places@.contains_key(k) <==> ids@.contains(NodeId { id: k }),
            forall|k: i64| #[trigger]
                places@.contains_key(k) ==> places@[k] < ids@.len() && ids@[places@[k] as int].id == k,
            row@.len() == ids@.len(),
            forall|j: int|
                0 <= j < ids@.len() ==> #[trigger] row@[j] == occurrences(
                    edges@.subrange(0, e as int),
                    ids@[j],
                ),
            forall|j: int| 0 <= j < ids@.len() ==> #[trigger] row@[j] <= e,
        decreases edges.len() - e,
    {
        let target: NodeId = edges[e];
        let ghost done = edges@.subrange(0, e as int);
        let ghost before = row@;
        proof {
            assert(edges@.subrange(0, e + 1) =~= done.push(target));
            assert(target == NodeId { id: target.id });
        }
        match places.get(&target.value()) {
            Some(place) => {
                let at: usize = *place;
                let count: usize = row[at];
                row.set(at, count + 1);
                proof {
                    assert forall|j: int| 0 <= j < ids@.len() implies #[trigger] row@[j] == occurrences(
                        done.push(target),
                        ids@[j],
                    ) by {
                        lemma_occurrences_push(done, target, ids@[j]);
                        assert(before[j] == occurrences(done, ids@[j]));
                        assert(ids@[at as int] == target);
                    }
                }
            },
            None => {
                proof {
                    assert forall|j: int| 0 <= j < ids@.len() implies #[trigger] row@[j] == occurrences(
                        done.push(target),
                        ids@[j],
                    ) by {
                        lemma_occurrences_push(done, target, ids@[j]);
                        assert(ids@.contains(ids@[j]));
                    }
                }
            },
        }
        e += 1;
    }
    assert(edges@.subrange(0, edges.len() as int) =~= edges@);
    row
}

/// Whether `matrix` is the adjacency matrix of the graph over the nodes
/// `order`: the entry in row `i` and column `j` says how many half-edges of
/// the `i`-th node lead to the `j`-th.
pub open spec fn is_adjacency<N: NodeBase>(
    nodes: Map<i64, N>,
    order: Seq<NodeId>,
    matrix: Seq<Vec<usize>>,
) -> bool {
    &&& matrix.len() == order.len()
    &&& forall|i: int| 0 <= i < order.len() ==> (#[trigger] matrix[i])@.len() == order.len()
    &&& forall|i: int, j: int|
        0 <= i < order.len() && 0 <= j < order.len() ==> #[trigger] matrix[i]@[j] == occurrences(
            nodes[order[i].id].edges_view(),
            order[j],
        )
}

/// The adjacency matrix of a graph.
pub trait AdjacencyMatrix: GraphBase {
    /// The adjacency matrix over the nodes listed in `node_ids`, which must
    /// be nodes of the graph, each listed once.
    fn get_adjacency_matrix_given_node_ids(&self, node_ids: &Vec<NodeId>) -> (r: Vec<Vec<usize>>)
        requires
            self.wf(),
            node_ids@.no_duplicates(),
            forall|i: int| 0 <= i < node_ids@.len() ==> self.nodes_view().contains_key(
                #[trigger] node_ids@[i].id,
            ),
        ensures
            is_adjacency(self.nodes_view(), node_ids@, r@),
    {
        let places: HashMap<i64, usize> = index_of_ids(node_ids);
        let mut matrix: Vec<Vec<usize>> = Vec::new();
        let mut i: usize = 0;
        while i < node_ids.len()
            invariant
                i <= node_ids.len(),
                node_ids@.no_duplicates(),
                forall|i: int| 0 <= i < node_ids@.len() ==> self.nodes_view().contains_key(
                    #[trigger] node_ids@[i].id,
                ),
                forall|k: i64| #[trigger] places@.contains_key(k) <==> node_ids@.contains(NodeId { id: k }),
                forall|k: i64| #[trigger]
                    places@.contains_key(k) ==> places@[k] < node_ids@.len()
                        && node_ids@[places@[k] as int].id == k,
                matrix@.len() == i,
                forall|x: int| 0 <= x < i ==> (#[trigger] matrix@[x])@.len() == node_ids@.len(),
                forall|x: int, j: int|
                    0 <= x < i && 0 <= j < node_ids@.len() ==> #[trigger] matrix@[x]@[j] == occurrences(
                        self.nodes_view()[node_ids@[x].id].edges_view(),
                        node_ids@[j],
                    ),
            decreases node_ids.len() - i,
        {
            let edges: Vec<NodeId> = self.get_node(node_ids[i]).get_edges();
            let row: Vec<usize> = count_row(&edges, node_ids, &places);
            matrix.push(row);
            i += 1;
        }
        matrix
    }

    /// The adjacency matrix over all nodes in rising order of their
    /// identifiers, and that order.
    fn get_adjacency_matrix(&self) -> (r: (Vec<Vec<usize>>, Vec<NodeId>))
        requires
            self.wf(),
        ensures
            is_rising(r.1@),
            r.1@.to_multiset() == self.ids_view().to_multiset(),
            is_adjacency(self.nodes_view(), r.1@, r.0@),
    {
        let ids: &Vec<NodeId> = self.get_core_ids();
        let order: Vec<NodeId> = sort_ids(ids);
        proof {
            self.lemma_wf();
            lemma_same_entries(ids@, order@);
        }
        let matrix: Vec<Vec<usize>> = self.get_adjacency_matrix_given_node_ids(&order);
        (matrix, order)
    }
}

/// A list with the entries of a list without repetition, each as often, has
/// no repetition and the same entries.
pub proof fn lemma_same_entries(s: Seq<NodeId>, t: Seq<NodeId>)
    requires
        s.no_duplicates(),
        t.to_multiset() == s.to_multiset(),
    ensures
        t.no_duplicates(),
        forall|x: NodeId| t.contains(x) <==> s.contains(x),
{
    s.lemma_multiset_has_no_duplicates();
    t.lemma_multiset_has_no_duplicates_conv();
    assert forall|x: NodeId| t.contains(x) <==> s.contains(x) by {
        to_multiset_contains(s, x);
        to_multiset_contains(t, x);
    }
}

} // verus!
