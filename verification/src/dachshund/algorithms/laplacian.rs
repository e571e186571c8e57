//! The degree matrix and the Laplacian matrix.

use vstd::prelude::*;
use crate::dachshund::algorithms::adjacency_matrix::{
    is_adjacency, is_rising, lemma_same_entries, sort_ids, AdjacencyMatrix,
};
use crate::dachshund::counting::occurrences;
use crate::dachshund::graph_base::{lemma_degree_bound, well_formed, GraphBase};
use crate::dachshund::id_types::NodeId;
use crate::dachshund::node::NodeBase;

verus! {

/// The degree of the `i`-th node where `i` and `j` are the same place, and
/// zero elsewhere.
pub open spec fn degree_entry<N: NodeBase>(nodes: Map<i64, N>, order: Seq<NodeId>, i: int, j: int) -> int {
    if i == j {
        nodes[order[i].id].edges_view().len() as int
    } else {
        0
    }
}

/// Whether `matrix` is the degree matrix of the graph over the nodes
/// `order`: it holds the degree of each node on its diagonal and zero
/// elsewhere.
pub open spec fn is_degree_matrix<N: NodeBase>(
    nodes: Map<i64, N>,
    order: Seq<NodeId>,
    matrix: Seq<Vec<usize>>,
) -> bool {
    &&& matrix.len() == order.len()
    &&& forall|i: int| 0 <= i < order.len() ==> (#[trigger] matrix[i])@.len() == order.len()
    &&& forall|i: int, j: int|
        0 <= i < order.len() && 0 <= j < order.len() ==> #[trigger] matrix[i]@[j] == degree_entry(
            nodes,
            order,
            i,
            j,
        )
}

/// Whether `matrix` is the Laplacian of the graph over the nodes `order`:
/// the degree matrix less the adjacency matrix.
pub open spec fn is_laplacian<N: NodeBase>(
    nodes: Map<i64, N>,
    order: Seq<NodeId>,
    matrix: Seq<Vec<i128>>,
) -> bool {
    &&& matrix.len() == order.len()
    &&& forall|i: int| 0 <= i < order.len() ==> (#[trigger] matrix[i])@.len() == order.len()
    &&& forall|i: int, j: int|
        0 <= i < order.len() && 0 <= j < order.len() ==> #[trigger] matrix[i]@[j] == degree_entry(
            nodes,
            order,
            i,
            j,
        ) - occurrences(nodes[order[i].id].edges_view(), order[j])
}

/// The degree matrix and the Laplacian of a graph.
pub trait Laplacian: AdjacencyMatrix {
    /// The degree matrix over all nodes in rising order of their
    /// identifiers, and that order.
    fn get_degree_matrix(&self) -> (r: (Vec<Vec<usize>>, Vec<NodeId>))
        requires
            self.wf(),
        ensures
            is_rising(r.1@),
            r.1@.to_multiset() == self.ids_view().to_multiset(),
            is_degree_matrix(self.nodes_view(), r.1@, r.0@),
    {
        let ghost nodes = self.nodes_view();
        let ids: &Vec<NodeId> = self.get_core_ids();
        let order: Vec<NodeId> = sort_ids(ids);
        proof {
            self.lemma_wf();
            lemma_same_entries(ids@, order@);
        }
        let n: usize = order.len();
        let mut matrix: Vec<Vec<usize>> = Vec::new();
        let mut i: usize = 0;
        while i < n
            invariant
                i <= n,
                n == order@.len(),
                self.wf(),
                nodes == self.nodes_view(),
                ids@ == self.ids_view(),
                well_formed(nodes, ids@),
                forall|x: NodeId| order@.contains(x) <==> ids@.contains(x),
                matrix@.len() == i,
                forall|x: int| 0 <= x < i ==> (#[trigger] matrix@[x])@.len() == n,
                forall|x: int, j: int|
                    0 <= x < i && 0 <= j < n ==> #[trigger] matrix@[x]@[j] == degree_entry(
                        nodes,
                        order@,
                        x,
                        j,
                    ),
            decreases n - i,
        {
            proof {
                assert(order@.contains(order@[i as int]));
                assert(ids@.contains(order@[i as int]));
                let at = choose|at: int| 0 <= at < ids@.len() && ids@[at] == order@[i as int];
                lemma_degree_bound(nodes, ids@, at);
                assert(nodes.contains_key(ids@[at].id));
            }
            let degree: usize = self.get_node(order[i]).degree();
            let mut row: Vec<usize> = Vec::new();
            let mut j: usize = 0;
            while j < n
                invariant
                    j <= n,
                    n == order@.len(),
                    i < n,
                    degree == nodes[order@[i as int].id].edges_view().len(),
                    row@.len() == j,
                    forall|y: int| 0 <= y < j ==> #[trigger] row@[y] == degree_entry(
                        nodes,
                        order@,
                        i as int,
                        y,
                    ),
                decreases n - j,
            {
                if i == j {
                    row.push(degree);
                } else {
                    row.push(0);
                }
                j += 1;
            }
            matrix.push(row);
            i += 1;
        }
        (matrix, order)
    }

    /// The Laplacian over all nodes in rising order of their identifiers,
    /// and that order.
    fn get_laplacian_matrix(&self) -> (r: (Vec<Vec<i128>>, Vec<NodeId>))
        requires
            self.wf(),
        ensures
            is_rising(r.1@),
            r.1@.to_multiset() == self.ids_view().to_multiset(),
            is_laplacian(self.nodes_view(), r.1@, r.0@),
    {
        let ghost nodes = self.nodes_view();
        let degrees = self.get_degree_matrix();
        let order: Vec<NodeId> = degrees.1;
        proof {
            self.lemma_wf();
            lemma_same_entries(self.ids_view(), order@);
            assert forall|i: int| 0 <= i < order@.len() implies nodes.contains_key(#[trigger] order@[i].id) by {
                assert(order@.contains(order@[i]));
            }
        }
        let adjacency: Vec<Vec<usize>> = self.get_adjacency_matrix_given_node_ids(&order);
        let n: usize = order.len();
        let mut matrix: Vec<Vec<i128>> = Vec::new();
        let mut i: usize = 0;
        while i < n
            invariant
                i <= n,
                n == order@.len(),
                nodes == self.nodes_view(),
                is_degree_matrix(nodes, order@, degrees.0@),
                is_adjacency(nodes, order@, adjacency@),
                matrix@.len() == i,
                forall|x: int| 0 <= x < i ==> (#[trigger] matrix@[x])@.len() == n,
                forall|x: int, j: int|
                    0 <= x < i && 0 <= j < n ==> #[trigger] matrix@[x]@[j] == degree_entry(
                        nodes,
                        order@,
                        x,
                        j,
                    ) - occurrences(nodes[order@[x].id].edges_view(), order@[j]),
            decreases n - i,
        {
            let mut row: Vec<i128> = Vec::new();
            let mut j: usize = 0;
            while j < n
                invariant
                    j <= n,
                    n == order@.len(),
                    i < n,
                    is_degree_matrix(nodes, order@, degrees.0@),
                    is_adjacency(nodes, order@, adjacency@),
                    row@.len() == j,
                    forall|y: int|
                        0 <= y < j ==> #[trigger] row@[y] == degree_entry(nodes, order@, i as int, y)
                            - occurrences(nodes[order@[i as int].id].edges_view(), order@[y]),
                decreases n - j,
            {
                assert(degrees.0@[i as int]@.len() == n);
                assert(adjacency@[i as int]@.len() == n);
                assert(degrees.0@[i as int]@[j as int] == degree_entry(nodes, order@, i as int, j as int));
                assert(adjacency@[i as int]@[j as int] == occurrences(
                    nodes[order@[i as int].id].edges_view(),
                    order@[j as int],
                ));
                let degree: usize = degrees.0[i][j];
                let edges: usize = adjacency[i][j];
                row.push(degree as i128 - edges as i128);
                j += 1;
            }
            matrix.push(row);
            i += 1;
        }
        (matrix, order)
    }
}

} // verus!
