use lib_dachshund::dachshund::algorithms::adjacency_matrix::{
    count_row, index_of_ids, sort_ids, AdjacencyMatrix,
};
use lib_dachshund::dachshund::algorithms::laplacian::Laplacian;
use lib_dachshund::dachshund::graph_base::GraphBase;
use lib_dachshund::dachshund::graph_builder_base::GraphBuilderBase;
use lib_dachshund::dachshund::id_types::NodeId;
use lib_dachshund::dachshund::simple_undirected_graph::SimpleUndirectedGraph;
use lib_dachshund::dachshund::simple_undirected_graph_builder::SimpleUndirectedGraphBuilder;
use std::collections::HashMap;

fn from_rows(rows: Vec<(i64, i64)>) -> SimpleUndirectedGraph {
    SimpleUndirectedGraphBuilder {}.from_vector(rows).unwrap()
}

fn id_list(values: Vec<i64>) -> Vec<NodeId> {
    values.into_iter().map(NodeId::from).collect()
}

#[test]
fn ids_are_put_in_rising_order() {
    assert_eq!(
        sort_ids(&id_list(vec![5, -2, 9, 0, 5, 3])),
        id_list(vec![-2, 0, 3, 5, 5, 9])
    );
    assert_eq!(sort_ids(&id_list(vec![3, 2, 1])), id_list(vec![1, 2, 3]));
    assert_eq!(sort_ids(&id_list(vec![i64::MAX, i64::MIN])), id_list(vec![i64::MIN, i64::MAX]));
    assert!(sort_ids(&Vec::new()).is_empty());
}

#[test]
fn places_are_found_again() {
    let ids = id_list(vec![7, 3, 9]);
    assert_eq!(index_of_ids(&ids), HashMap::from([(7, 0), (3, 1), (9, 2)]));
    let row = count_row(&id_list(vec![9, 9, 7, 4]), &ids, &index_of_ids(&ids));
    assert_eq!(row, vec![1, 0, 2]);
}

#[test]
fn adjacency_of_a_triangle_with_a_pendant() {
    let g = from_rows(vec![(2, 0), (0, 1), (1, 2), (2, 3)]);
    let (matrix, order) = g.get_adjacency_matrix();
    assert_eq!(order, id_list(vec![0, 1, 2, 3]));
    assert_eq!(
        matrix,
        vec![
            vec![0, 1, 1, 0],
            vec![1, 0, 1, 0],
            vec![1, 1, 0, 1],
            vec![0, 0, 1, 0],
        ]
    );
}

#[test]
fn adjacency_counts_parallel_edges_and_loops() {
    let g = from_rows(vec![(1, 2), (2, 1), (2, 2)]);
    let (matrix, order) = g.get_adjacency_matrix();
    assert_eq!(order, id_list(vec![1, 2]));
    assert_eq!(matrix, vec![vec![0, 2], vec![2, 2]]);
    let part = g.get_adjacency_matrix_given_node_ids(&id_list(vec![2]));
    assert_eq!(part, vec![vec![2]]);
}

#[test]
fn adjacency_is_symmetric() {
    let g = from_rows(vec![(4, 1), (1, 9), (9, 4), (9, 2), (2, 2), (1, 9)]);
    let (matrix, _) = g.get_adjacency_matrix();
    for i in 0..matrix.len() {
        for j in 0..matrix.len() {
            assert_eq!(matrix[i][j], matrix[j][i]);
        }
    }
}

#[test]
fn laplacian_is_degrees_less_adjacency() {
    let g = from_rows(vec![(2, 0), (0, 1), (1, 2), (2, 3)]);
    let (degrees, order) = g.get_degree_matrix();
    assert_eq!(order, id_list(vec![0, 1, 2, 3]));
    assert_eq!(
        degrees,
        vec![
            vec![2, 0, 0, 0],
            vec![0, 2, 0, 0],
            vec![0, 0, 3, 0],
            vec![0, 0, 0, 1],
        ]
    );
    let (laplacian, _) = g.get_laplacian_matrix();
    assert_eq!(
        laplacian,
        vec![
            vec![2, -1, -1, 0],
            vec![-1, 2, -1, 0],
            vec![-1, -1, 3, -1],
            vec![0, 0, -1, 1],
        ]
    );
    for row in &laplacian {
        assert_eq!(row.iter().sum::<i128>(), 0);
    }
}

#[test]
fn matrices_of_the_empty_graph_are_empty() {
    let g = SimpleUndirectedGraph::create_empty();
    assert!(g.get_adjacency_matrix().0.is_empty());
    assert!(g.get_degree_matrix().0.is_empty());
    assert!(g.get_laplacian_matrix().0.is_empty());
}
