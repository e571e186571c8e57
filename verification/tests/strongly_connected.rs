use lib_dachshund::dachshund::algorithms::strongly_connected::{
    assign_all, keep_within, ConnectedComponentsDirected,
};
use lib_dachshund::dachshund::error::CLQError;
use lib_dachshund::dachshund::graph_base::GraphBase;
use lib_dachshund::dachshund::graph_builder_base::GraphBuilderBase;
use lib_dachshund::dachshund::id_types::NodeId;
use lib_dachshund::dachshund::simple_directed_graph::{DirectedGraph, SimpleDirectedGraph};
use lib_dachshund::dachshund::simple_directed_graph_builder::SimpleDirectedGraphBuilder;
use std::collections::HashSet;

fn arrows(rows: Vec<(i64, i64)>) -> SimpleDirectedGraph {
    SimpleDirectedGraphBuilder {}.from_vector(rows).unwrap()
}

fn node(v: i64) -> NodeId {
    NodeId::from(v)
}

fn sorted_components(parts: Vec<Vec<NodeId>>) -> Vec<Vec<i64>> {
    let mut out: Vec<Vec<i64>> = parts
        .into_iter()
        .map(|p| {
            let mut ids: Vec<i64> = p.into_iter().map(|n| n.value()).collect();
            ids.sort();
            ids
        })
        .collect();
    out.sort();
    out
}

#[test]
fn a_ring_is_one_strong_component() {
    let g = arrows(vec![(1, 2), (2, 3), (3, 1)]);
    assert_eq!(
        sorted_components(g.get_strongly_connected_components()),
        vec![vec![1, 2, 3]]
    );
    assert_eq!(g.get_is_strongly_connected().unwrap(), true);
}

#[test]
fn a_chain_has_a_component_for_each_node() {
    let g = arrows(vec![(1, 2), (2, 3), (3, 4)]);
    let parts = g.get_strongly_connected_components();
    assert_eq!(parts.len(), 4);
    assert_eq!(
        sorted_components(parts),
        vec![vec![1], vec![2], vec![3], vec![4]]
    );
    assert_eq!(g.get_is_strongly_connected().unwrap(), false);
    assert!(g.is_acyclic());
}

#[test]
fn rings_joined_one_way_stay_apart() {
    let g = arrows(vec![(1, 2), (2, 3), (3, 1), (3, 4), (4, 5), (5, 6), (6, 4), (7, 1)]);
    let parts = g.get_strongly_connected_components();
    assert_eq!(parts[0][0], node(1));
    assert_eq!(
        sorted_components(parts),
        vec![vec![1, 2, 3], vec![4, 5, 6], vec![7]]
    );
    assert_eq!(g.get_is_strongly_connected().unwrap(), false);
}

#[test]
fn rings_joined_both_ways_are_one_component() {
    let g = arrows(vec![(1, 2), (2, 1), (2, 3), (3, 4), (4, 3), (4, 1)]);
    assert_eq!(
        sorted_components(g.get_strongly_connected_components()),
        vec![vec![1, 2, 3, 4]]
    );
    assert_eq!(g.get_is_strongly_connected().unwrap(), true);
}

#[test]
fn strong_components_split_the_nodes() {
    let g = arrows(vec![
        (0, 1),
        (1, 2),
        (2, 0),
        (2, 3),
        (3, 4),
        (4, 5),
        (5, 3),
        (6, 5),
        (6, 7),
        (7, 6),
        (8, 8),
    ]);
    let parts = g.get_strongly_connected_components();
    let mut seen: HashSet<NodeId> = HashSet::new();
    for part in &parts {
        assert!(!part.is_empty());
        for id in part {
            assert!(seen.insert(*id));
        }
    }
    assert_eq!(seen.len(), g.count_nodes());
    assert_eq!(
        sorted_components(parts),
        vec![vec![0, 1, 2], vec![3, 4, 5], vec![6, 7], vec![8]]
    );
}

#[test]
fn a_visit_goes_along_or_against_the_edges() {
    let g = arrows(vec![(1, 2), (2, 3), (4, 2)]);
    let mut seen: HashSet<i64> = HashSet::new();
    let along = g.visit_nodes_along(node(2), &mut seen, None, true);
    assert_eq!(sorted_components(vec![along]), vec![vec![2, 3]]);
    assert_eq!(seen, HashSet::from([2, 3]));
    let mut seen_back: HashSet<i64> = HashSet::new();
    let against = g.visit_nodes_along(node(2), &mut seen_back, None, false);
    assert_eq!(against[0], node(2));
    assert_eq!(sorted_components(vec![against]), vec![vec![1, 2, 4]]);
    let mut fresh: HashSet<i64> = HashSet::new();
    let ignoring = g.visit_nodes_along(node(1), &mut fresh, Some(&HashSet::from([2])), true);
    assert_eq!(ignoring, vec![node(1)]);
}

#[test]
fn empty_directed_graph_has_no_strong_component() {
    let g = SimpleDirectedGraph::create_empty();
    assert!(g.get_strongly_connected_components().is_empty());
    assert!(matches!(
        g.get_is_strongly_connected(),
        Err(CLQError::AlgorithmPrecondition(_))
    ));
}

#[test]
fn entries_are_kept_and_assigned() {
    let list = vec![node(4), node(7), node(9)];
    assert_eq!(keep_within(&list, &HashSet::from([9, 4, 100])), vec![node(4), node(9)]);
    assert!(keep_within(&list, &HashSet::new()).is_empty());
    let mut assigned: HashSet<i64> = HashSet::from([1]);
    assign_all(&list, &mut assigned);
    assert_eq!(assigned, HashSet::from([1, 4, 7, 9]));
}
