use lib_dachshund::dachshund::algorithms::connectivity::{
    Connectivity, ConnectivityDirected, ConnectivityUndirected,
};
use lib_dachshund::dachshund::error::CLQError;
use lib_dachshund::dachshund::graph_base::GraphBase;
use lib_dachshund::dachshund::graph_builder_base::GraphBuilderBase;
use lib_dachshund::dachshund::simple_directed_graph::SimpleDirectedGraph;
use lib_dachshund::dachshund::simple_directed_graph_builder::SimpleDirectedGraphBuilder;
use lib_dachshund::dachshund::simple_undirected_graph::SimpleUndirectedGraph;
use lib_dachshund::dachshund::simple_undirected_graph_builder::SimpleUndirectedGraphBuilder;

fn plain(rows: Vec<(i64, i64)>) -> SimpleUndirectedGraph {
    SimpleUndirectedGraphBuilder {}.from_vector(rows).unwrap()
}

fn directed(rows: Vec<(i64, i64)>) -> SimpleDirectedGraph {
    SimpleDirectedGraphBuilder {}.from_vector(rows).unwrap()
}

#[test]
fn triangle_with_pendant_is_connected() {
    let g = plain(vec![(0, 1), (1, 2), (2, 0), (2, 3)]);
    assert_eq!(g.get_is_connected().unwrap(), true);
    assert_eq!(g._get_is_connected().unwrap(), true);
}

#[test]
fn two_triangles_are_not_connected() {
    let g = plain(vec![(0, 1), (1, 2), (2, 0), (3, 4), (4, 5), (5, 3)]);
    assert_eq!(g.get_is_connected().unwrap(), false);
}

#[test]
fn empty_graph_is_rejected_by_connectivity() {
    let g = SimpleUndirectedGraph::create_empty();
    let e = g.get_is_connected().unwrap_err();
    assert!(matches!(e, CLQError::AlgorithmPrecondition(_)));
    assert_eq!(e.message(), "graph is empty");
    let d = SimpleDirectedGraph::create_empty();
    assert!(matches!(
        d.get_is_weakly_connected(),
        Err(CLQError::AlgorithmPrecondition(_))
    ));
}

#[test]
fn a_directed_chain_is_weakly_connected() {
    let g = directed(vec![(1, 2), (3, 2), (3, 4)]);
    assert_eq!(g.get_is_weakly_connected().unwrap(), true);
    let h = directed(vec![(1, 2), (3, 4)]);
    assert_eq!(h.get_is_weakly_connected().unwrap(), false);
}
