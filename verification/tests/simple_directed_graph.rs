use lib_dachshund::dachshund::graph_base::GraphBase;
use lib_dachshund::dachshund::graph_builder_base::GraphBuilderBase;
use lib_dachshund::dachshund::id_types::NodeId;
use lib_dachshund::dachshund::node::{DirectedNodeBase, NodeBase};
use lib_dachshund::dachshund::simple_directed_graph::{DirectedGraph, SimpleDirectedGraph};
use lib_dachshund::dachshund::simple_directed_graph_builder::SimpleDirectedGraphBuilder;
use std::collections::HashSet;

fn build_directed(rows: Vec<(i64, i64)>) -> SimpleDirectedGraph {
    SimpleDirectedGraphBuilder {}.from_vector(rows).unwrap()
}

fn node_ids(values: Vec<i64>) -> Vec<NodeId> {
    values.into_iter().map(NodeId::from).collect()
}

#[test]
fn directed_edges_are_stored_at_both_ends() {
    let g = build_directed(vec![(1, 2), (1, 3), (3, 1), (2, 3)]);
    assert_eq!(g.count_nodes(), 3);
    assert_eq!(g.count_edges(), 4);
    assert_eq!(*g.get_core_ids(), node_ids(vec![1, 2, 3]));
    let one = g.get_node(NodeId::from(1));
    assert_eq!(*one.get_out_neighbors(), node_ids(vec![2, 3]));
    assert_eq!(*one.get_in_neighbors(), node_ids(vec![3]));
    assert_eq!(one.get_out_degree(), 2);
    assert_eq!(one.get_in_degree(), 1);
    assert_eq!(one.degree(), 3);
    assert_eq!(one.get_edges(), node_ids(vec![3, 2, 3]));
    assert_eq!(one.get_neighbor_ids(), node_ids(vec![3, 2]));
    let three = g.get_node(NodeId::from(3));
    assert_eq!(*three.get_in_neighbors(), node_ids(vec![1, 2]));
    assert_eq!(*three.get_out_neighbors(), node_ids(vec![1]));
}

#[test]
fn directed_degrees_add_up_to_twice_the_edges() {
    let rows = vec![(1, 2), (2, 3), (3, 1), (3, 1), (4, 4), (5, 1)];
    let g = build_directed(rows.clone());
    let total: usize = g.get_nodes_iter().iter().map(|n| n.degree()).sum();
    assert_eq!(total, 2 * g.count_edges());
    assert_eq!(g.count_edges(), rows.len());
    let ins: usize = g.get_nodes_iter().iter().map(|n| n.get_in_degree()).sum();
    let outs: usize = g.get_nodes_iter().iter().map(|n| n.get_out_degree()).sum();
    assert_eq!(ins, outs);
}

#[test]
fn out_neighbors_are_tested_against_a_set() {
    let g = build_directed(vec![(1, 2), (1, 3), (4, 1)]);
    let one = g.get_node(NodeId::from(1));
    assert!(one.has_no_out_neighbors_except_set(&HashSet::from([2, 3])));
    assert!(one.has_no_out_neighbors_except_set(&HashSet::from([2, 3, 7])));
    assert!(!one.has_no_out_neighbors_except_set(&HashSet::from([2, 4])));
    assert!(!one.has_no_out_neighbors_except_set(&HashSet::new()));
    let two = g.get_node(NodeId::from(2));
    assert!(two.has_no_out_neighbors_except_set(&HashSet::new()));
    assert_eq!(one.count_ties_with_ids(&HashSet::from([4, 2])), 2);
}

#[test]
fn a_chain_is_acyclic() {
    let g = build_directed(vec![(1, 2), (2, 3), (3, 4), (1, 4), (1, 3)]);
    assert!(g.is_acyclic());
}

#[test]
fn a_tree_with_shared_leaves_is_acyclic() {
    let g = build_directed(vec![(0, 1), (0, 2), (1, 3), (2, 3), (3, 4), (5, 4), (5, 0)]);
    assert!(g.is_acyclic());
}

#[test]
fn a_ring_is_not_acyclic() {
    let g = build_directed(vec![(1, 2), (2, 3), (3, 1)]);
    assert!(!g.is_acyclic());
}

#[test]
fn a_ring_behind_a_chain_is_not_acyclic() {
    let g = build_directed(vec![(0, 1), (1, 2), (2, 3), (3, 4), (4, 2), (4, 5)]);
    assert!(!g.is_acyclic());
}

#[test]
fn a_loop_is_a_cycle() {
    let g = build_directed(vec![(1, 2), (2, 2)]);
    assert!(!g.is_acyclic());
}

#[test]
fn edges_both_ways_are_a_cycle() {
    let g = build_directed(vec![(1, 2), (2, 1)]);
    assert!(!g.is_acyclic());
}

#[test]
fn empty_directed_graph_is_acyclic() {
    let g = SimpleDirectedGraph::create_empty();
    assert_eq!(g.count_nodes(), 0);
    assert_eq!(g.count_edges(), 0);
    assert!(g.is_acyclic());
}

#[test]
fn is_acyclic_gives_the_same_answer_each_time() {
    let g = build_directed(vec![(0, 1), (1, 2), (2, 0), (2, 3)]);
    let h = build_directed(vec![(0, 1), (1, 2), (0, 2), (2, 3)]);
    for _ in 0..3 {
        assert!(!g.is_acyclic());
        assert!(h.is_acyclic());
    }
}
