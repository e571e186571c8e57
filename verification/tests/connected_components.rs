use lib_dachshund::dachshund::algorithms::connected_components::{
    get_edge_key, ConnectedComponents, ConnectedComponentsUndirected,
};
use lib_dachshund::dachshund::graph_base::GraphBase;
use lib_dachshund::dachshund::graph_builder_base::GraphBuilderBase;
use lib_dachshund::dachshund::id_types::NodeId;
use lib_dachshund::dachshund::simple_directed_graph_builder::SimpleDirectedGraphBuilder;
use lib_dachshund::dachshund::simple_undirected_graph::SimpleUndirectedGraph;
use lib_dachshund::dachshund::simple_undirected_graph_builder::SimpleUndirectedGraphBuilder;
use std::collections::HashSet;

fn graph_of(rows: Vec<(i64, i64)>) -> SimpleUndirectedGraph {
    SimpleUndirectedGraphBuilder {}.from_vector(rows).unwrap()
}

fn as_sorted(parts: Vec<Vec<NodeId>>) -> Vec<Vec<i64>> {
    let mut out: Vec<Vec<i64>> = parts
        .into_iter()
        .map(|p| {
            let mut ids: Vec<i64> = p.into_iter().map(|n| n.value()).collect();
            ids.sort();
            ids
        })
        .collect();
    out.sort();
    out
}

#[test]
fn edge_keys_tell_pairs_apart() {
    let a = get_edge_key(NodeId::from(2), NodeId::from(3));
    let b = get_edge_key(NodeId::from(3), NodeId::from(2));
    assert_ne!(a, b);
    assert_eq!(get_edge_key(NodeId::from(i64::MIN), NodeId::from(i64::MIN)), 0);
    assert_eq!(get_edge_key(NodeId::from(i64::MIN), NodeId::from(i64::MAX)), u64::MAX as u128);
    assert_eq!(get_edge_key(NodeId::from(i64::MAX), NodeId::from(i64::MAX)), u128::MAX);
    assert_eq!(get_edge_key(NodeId::from(0), NodeId::from(0)), (1u128 << 127) + (1u128 << 63));
    assert_eq!(
        get_edge_key(NodeId::from(-1), NodeId::from(1)),
        ((1u128 << 63) - 1) * (1u128 << 64) + (1u128 << 63) + 1
    );
}

#[test]
fn triangle_is_one_component() {
    let g = graph_of(vec![(0, 1), (1, 2), (2, 0)]);
    assert_eq!(as_sorted(g.get_connected_components()), vec![vec![0, 1, 2]]);
}

#[test]
fn two_triangles_are_two_components() {
    let g = graph_of(vec![(0, 1), (1, 2), (2, 0), (3, 4), (4, 5), (5, 3)]);
    let parts = g.get_connected_components();
    assert_eq!(parts.len(), 2);
    assert_eq!(parts[0][0], NodeId::from(0));
    assert_eq!(parts[1][0], NodeId::from(3));
    assert_eq!(as_sorted(parts), vec![vec![0, 1, 2], vec![3, 4, 5]]);
}

#[test]
fn joined_triangles_are_one_component() {
    let g = graph_of(vec![(0, 1), (1, 2), (2, 0), (3, 4), (4, 5), (5, 3), (0, 3)]);
    assert_eq!(g.get_connected_components().len(), 1);
}

#[test]
fn pendant_hangs_on_unless_its_edge_is_ignored() {
    let g = graph_of(vec![(0, 1), (1, 2), (2, 0), (2, 3)]);
    assert_eq!(g.get_connected_components().len(), 1);
    let forth: HashSet<u128> = HashSet::from([get_edge_key(NodeId::from(2), NodeId::from(3))]);
    let parts = g._get_connected_components(None, Some(&forth));
    assert_eq!(as_sorted(parts), vec![vec![0, 1, 2], vec![3]]);
    let back: HashSet<u128> = HashSet::from([get_edge_key(NodeId::from(3), NodeId::from(2))]);
    assert_eq!(g._get_connected_components(None, Some(&back)).len(), 2);
}

#[test]
fn ignored_nodes_are_in_no_component() {
    let g = graph_of(vec![(0, 1), (1, 2), (2, 3), (3, 4)]);
    let dropped: HashSet<i64> = HashSet::from([2]);
    let parts = g._get_connected_components(Some(&dropped), None);
    assert_eq!(as_sorted(parts), vec![vec![0, 1], vec![3, 4]]);
    let all: HashSet<i64> = HashSet::from([0, 1, 2, 3, 4]);
    assert!(g._get_connected_components(Some(&all), None).is_empty());
}

#[test]
fn components_split_the_nodes() {
    let g = graph_of(vec![
        (0, 1),
        (0, 10),
        (5, 12),
        (12, 19),
        (7, 7),
        (3, 6),
        (4, 6),
        (10, 1),
        (20, 21),
        (21, 22),
        (22, 20),
        (22, 19),
    ]);
    let parts = g.get_connected_components();
    let mut seen: HashSet<NodeId> = HashSet::new();
    let mut total = 0;
    for part in &parts {
        assert!(!part.is_empty());
        for id in part {
            assert!(g.has_node(*id));
            assert!(seen.insert(*id));
            total += 1;
        }
    }
    assert_eq!(total, g.count_nodes());
    assert_eq!(
        as_sorted(parts),
        vec![vec![0, 1, 10], vec![3, 4, 6], vec![5, 12, 19, 20, 21, 22], vec![7]]
    );
}

#[test]
fn empty_graph_has_no_component() {
    let g = SimpleUndirectedGraph::create_empty();
    assert!(g.get_connected_components().is_empty());
}

#[test]
fn a_visit_returns_what_the_root_reaches() {
    let g = graph_of(vec![(0, 1), (1, 2), (3, 4), (2, 5)]);
    let mut visited: HashSet<i64> = HashSet::new();
    let reached = g.visit_nodes_from_root(NodeId::from(1), &mut visited, None, None);
    assert_eq!(reached[0], NodeId::from(1));
    assert_eq!(as_sorted(vec![reached]), vec![vec![0, 1, 2, 5]]);
    assert_eq!(visited, HashSet::from([0, 1, 2, 5]));
    let more = g.visit_nodes_from_root(NodeId::from(4), &mut visited, None, None);
    assert_eq!(as_sorted(vec![more]), vec![vec![3, 4]]);
    assert_eq!(visited.len(), 6);
}

#[test]
fn a_visit_stops_at_visited_nodes() {
    let g = graph_of(vec![(0, 1), (1, 2), (2, 3), (3, 4)]);
    let mut visited: HashSet<i64> = HashSet::from([2]);
    let reached = g.visit_nodes_from_root(NodeId::from(0), &mut visited, None, None);
    assert_eq!(as_sorted(vec![reached]), vec![vec![0, 1]]);
    assert_eq!(visited, HashSet::from([0, 1, 2]));
}

#[test]
fn a_visit_in_a_directed_graph_walks_edges_both_ways() {
    let g = SimpleDirectedGraphBuilder {}
        .from_vector(vec![(1, 2), (2, 3), (4, 1), (5, 6)])
        .unwrap();
    let mut visited: HashSet<i64> = HashSet::new();
    let reached = g.visit_nodes_from_root(NodeId::from(2), &mut visited, None, None);
    assert_eq!(reached[0], NodeId::from(2));
    assert_eq!(as_sorted(vec![reached]), vec![vec![1, 2, 3, 4]]);
}
