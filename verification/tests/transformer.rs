use lib_dachshund::dachshund::graph_base::GraphBase;
use lib_dachshund::dachshund::graph_builder_base::GraphBuilderBase;
use lib_dachshund::dachshund::id_types::NodeId;
use lib_dachshund::dachshund::simple_transformer::{
    in_order, largest_len, list_lengths, GraphStatsTransformerBase, SimpleParallelTransformer,
    SimpleTransformer,
};
use lib_dachshund::dachshund::simple_undirected_graph::SimpleUndirectedGraph;
use lib_dachshund::dachshund::simple_undirected_graph_builder::SimpleUndirectedGraphBuilder;
use lib_dachshund::dachshund::transformer_base::{batch_rows, EdgeRow};
use std::collections::HashMap;

fn row(graph_id: i64, source_id: i64, target_id: i64) -> EdgeRow {
    EdgeRow {
        graph_id,
        source_id,
        target_id,
    }
}

fn built(rows: Vec<(i64, i64)>) -> SimpleUndirectedGraph {
    SimpleUndirectedGraphBuilder {}.from_vector(rows).unwrap()
}

#[test]
fn rows_are_cut_where_the_graph_changes() {
    let rows = vec![
        row(0, 1, 2),
        row(0, 2, 3),
        row(1, 1, 2),
        row(0, 5, 6),
        row(0, 6, 7),
        row(0, 7, 5),
    ];
    let batches = batch_rows(&rows);
    assert_eq!(
        batches,
        vec![
            (0, vec![(1, 2), (2, 3)]),
            (1, vec![(1, 2)]),
            (0, vec![(5, 6), (6, 7), (7, 5)]),
        ]
    );
}

#[test]
fn no_rows_make_no_batch() {
    assert!(batch_rows(&Vec::new()).is_empty());
    assert_eq!(batch_rows(&vec![row(-3, 4, 4)]), vec![(-3, vec![(4, 4)])]);
}

#[test]
fn batches_give_the_rows_back() {
    let rows = vec![row(2, 1, 2), row(2, 1, 3), row(4, 9, 9), row(5, 0, 1), row(5, 1, 0)];
    let mut again: Vec<EdgeRow> = Vec::new();
    for (graph_id, edges) in batch_rows(&rows) {
        assert!(!edges.is_empty());
        for (u, v) in edges {
            again.push(row(graph_id, u, v));
        }
    }
    assert_eq!(again, rows);
}

#[test]
fn statistics_of_a_triangle_with_a_pendant() {
    let g = built(vec![(0, 1), (1, 2), (2, 0), (2, 3)]);
    let stats = SimpleTransformer::compute_graph_stats(&g);
    assert_eq!(stats.num_nodes, 4);
    assert_eq!(stats.num_edges, 4);
    assert_eq!(stats.connected_components, 1);
    assert_eq!(stats.size_of_largest_cc, 4);
    assert_eq!(
        stats.clustering,
        vec![Some((2, 2)), Some((2, 2)), Some((2, 6)), None]
    );
    assert_eq!(stats.transitivity, Some((3, 5)));
    assert_eq!(stats.k_cores, vec![2, 2, 2, 1]);
    assert_eq!(stats.k_trusses, vec![3]);
    assert_eq!(stats.k_peaks, vec![2, 2, 2, 0]);
}

#[test]
fn statistics_of_two_triangles() {
    let g = built(vec![(0, 1), (1, 2), (2, 0), (3, 4), (4, 5), (5, 3), (6, 7)]);
    let stats = SimpleParallelTransformer::compute_graph_stats(&g);
    assert_eq!(stats.num_nodes, 8);
    assert_eq!(stats.num_edges, 7);
    assert_eq!(stats.connected_components, 3);
    assert_eq!(stats.size_of_largest_cc, 3);
    assert_eq!(stats.transitivity, Some((6, 6)));
    assert_eq!(stats.k_cores, vec![2, 2, 2, 2, 2, 2, 1, 1]);
    assert_eq!(stats.k_trusses, vec![3, 3]);
}

#[test]
fn statistics_of_the_empty_graph() {
    let g = SimpleUndirectedGraph::create_empty();
    let stats = SimpleTransformer::compute_graph_stats(&g);
    assert_eq!(stats.num_nodes, 0);
    assert_eq!(stats.num_edges, 0);
    assert_eq!(stats.connected_components, 0);
    assert_eq!(stats.size_of_largest_cc, 0);
    assert!(stats.clustering.is_empty());
    assert_eq!(stats.transitivity, None);
    assert!(stats.k_cores.is_empty());
    assert!(stats.k_trusses.is_empty());
    assert!(stats.k_peaks.is_empty());
}

#[test]
fn statistics_are_the_same_each_time() {
    let rows = vec![(0, 1), (1, 2), (2, 0), (2, 3), (3, 4), (4, 5), (5, 3)];
    let first = SimpleTransformer::compute_graph_stats(&built(rows.clone()));
    let second = SimpleTransformer::compute_graph_stats(&built(rows));
    assert_eq!(first.num_edges, second.num_edges);
    assert_eq!(first.clustering, second.clustering);
    assert_eq!(first.k_cores, second.k_cores);
    assert_eq!(first.k_trusses, second.k_trusses);
    assert_eq!(first.k_peaks, second.k_peaks);
}

#[test]
fn helpers_measure_lists() {
    let lists = vec![vec![NodeId::from(1)], vec![NodeId::from(2), NodeId::from(3)], vec![]];
    assert_eq!(largest_len(&lists), 2);
    assert_eq!(largest_len(&Vec::new()), 0);
    let pairs = vec![vec![(NodeId::from(1), NodeId::from(2))], vec![]];
    assert_eq!(list_lengths(&pairs), vec![1, 0]);
    let ids = vec![NodeId::from(7), NodeId::from(5)];
    let numbers: HashMap<i64, usize> = HashMap::from([(5, 50), (7, 70), (9, 90)]);
    assert_eq!(in_order(&ids, &numbers), vec![70, 50]);
}
