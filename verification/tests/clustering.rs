use lib_dachshund::dachshund::algorithms::clustering::{collect_id_set, Clustering};
use lib_dachshund::dachshund::algorithms::transitivity::Transitivity;
use lib_dachshund::dachshund::error::CLQError;
use lib_dachshund::dachshund::graph_base::GraphBase;
use lib_dachshund::dachshund::graph_builder_base::GraphBuilderBase;
use lib_dachshund::dachshund::id_types::NodeId;
use lib_dachshund::dachshund::node::SimpleNode;
use lib_dachshund::dachshund::simple_undirected_graph::SimpleUndirectedGraph;
use lib_dachshund::dachshund::simple_undirected_graph_builder::SimpleUndirectedGraphBuilder;
use std::collections::HashSet;

fn make(rows: Vec<(i64, i64)>) -> SimpleUndirectedGraph {
    SimpleUndirectedGraphBuilder {}.from_vector(rows).unwrap()
}

fn id(v: i64) -> NodeId {
    NodeId::from(v)
}

#[test]
fn triangle_is_fully_clustered() {
    let g = make(vec![(0, 1), (1, 2), (2, 0)]);
    for v in 0..3 {
        let (num, den) = g.get_clustering_coefficient(id(v)).unwrap();
        assert_eq!((num, den), (2, 2));
        assert_eq!(num as f64 / den as f64, 1.0);
        assert_eq!(g.triangle_count(id(v)), 1);
        assert_eq!(g.triples_count(id(v)), 1);
    }
    let (closed, open) = g.get_transitivity().unwrap();
    assert_eq!((closed, open), (3, 3));
    assert_eq!(closed as f64 / open as f64, 1.0);
}

#[test]
fn pendant_lowers_the_clustering_of_its_neighbor() {
    let g = make(vec![(0, 1), (1, 2), (2, 0), (2, 3)]);
    assert_eq!(g.get_clustering_coefficient(id(0)), Some((2, 2)));
    assert_eq!(g.get_clustering_coefficient(id(2)), Some((2, 6)));
    assert_eq!(g.get_clustering_coefficient(id(3)), None);
    assert_eq!(g.get_neighbor_ties(id(2)), 2);
    assert_eq!(g.get_neighbor_ties(id(3)), 0);
    assert_eq!(g.triples_count(id(2)), 3);
    assert_eq!(g.triples_count(id(3)), 0);
    assert_eq!(g.get_transitivity().unwrap(), (3, 5));
}

#[test]
fn a_star_has_no_triangle() {
    let g = make(vec![(0, 1), (0, 2), (0, 3), (0, 4)]);
    assert_eq!(g.get_clustering_coefficient(id(0)), Some((0, 12)));
    assert_eq!(g.triangle_count(id(0)), 0);
    assert_eq!(g.triples_count(id(0)), 6);
    assert_eq!(g.get_transitivity().unwrap(), (0, 6));
}

#[test]
fn four_clique_counts_three_triangles_at_each_node() {
    let g = make(vec![(1, 2), (1, 3), (1, 4), (2, 3), (2, 4), (3, 4)]);
    assert_eq!(g.get_neighbor_ties(id(1)), 6);
    assert_eq!(g.triangle_count(id(1)), 3);
    assert_eq!(g.get_clustering_coefficient(id(1)), Some((6, 6)));
    assert_eq!(g.get_transitivity().unwrap(), (12, 12));
}

#[test]
fn single_node_has_no_clustering() {
    let mut g = SimpleUndirectedGraph::create_empty();
    g.get_mut_nodes().insert(
        8,
        SimpleNode {
            node_id: id(8),
            neighbors: Vec::new(),
        },
    );
    g.ids.push(id(8));
    assert_eq!(g.get_clustering_coefficient(id(8)), None);
    assert_eq!(g.triangle_count(id(8)), 0);
    assert!(matches!(
        g.get_transitivity(),
        Err(CLQError::AlgorithmPrecondition(_))
    ));
}

#[test]
fn a_graph_without_triples_has_no_transitivity() {
    let empty = SimpleUndirectedGraph::create_empty();
    assert!(matches!(
        empty.get_transitivity(),
        Err(CLQError::AlgorithmPrecondition(_))
    ));
    let pair = make(vec![(1, 2)]);
    let e = pair.get_transitivity().unwrap_err();
    assert_eq!(e.message(), "graph has no triples");
}

#[test]
fn id_set_holds_the_integers() {
    let set = collect_id_set(&vec![id(3), id(-1), id(3)]);
    assert_eq!(set, HashSet::from([3, -1]));
    assert!(collect_id_set(&Vec::new()).is_empty());
}
