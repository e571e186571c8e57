use lib_dachshund::dachshund::error::CLQError;
use lib_dachshund::dachshund::graph_base::GraphBase;
use lib_dachshund::dachshund::graph_builder_base::GraphBuilderBase;
use lib_dachshund::dachshund::id_types::NodeId;
use lib_dachshund::dachshund::node::{NodeBase, NodeEdgeBase, SimpleNode};
use lib_dachshund::dachshund::simple_undirected_graph::SimpleUndirectedGraph;
use lib_dachshund::dachshund::simple_undirected_graph_builder::SimpleUndirectedGraphBuilder;
use std::collections::HashSet;

fn build(rows: Vec<(i64, i64)>) -> SimpleUndirectedGraph {
    SimpleUndirectedGraphBuilder {}.from_vector(rows).unwrap()
}

fn ids(values: Vec<i64>) -> Vec<NodeId> {
    values.into_iter().map(NodeId::from).collect()
}

fn sorted_neighbors(g: &SimpleUndirectedGraph, id: i64) -> Vec<i64> {
    let mut out: Vec<i64> = g
        .get_node(NodeId::from(id))
        .get_edges()
        .iter()
        .map(|e| e.get_neighbor_id().value())
        .collect();
    out.sort();
    out
}

#[test]
fn node_id_wraps_its_integer() {
    let id = NodeId::from(-7);
    assert_eq!(id.value(), -7);
    assert_eq!(id, NodeId { id: -7 });
    assert_ne!(id, NodeId::from(7));
    assert!(NodeId::from(1) < NodeId::from(2));
    assert_eq!(id.get_neighbor_id(), id);
}

#[test]
fn error_carries_its_message() {
    let e = CLQError::Generic("Invalid index".to_string());
    assert_eq!(e.message(), "Invalid index");
    assert!(matches!(e, CLQError::Generic(_)));
    let kinds = vec![
        CLQError::ParseError("a".to_string()),
        CLQError::BuildError("b".to_string()),
        CLQError::AlgorithmPrecondition("c".to_string()),
        CLQError::NumericError("d".to_string()),
        CLQError::IOError("e".to_string()),
    ];
    let messages: Vec<&str> = kinds.iter().map(|k| k.message().as_str()).collect();
    assert_eq!(messages, vec!["a", "b", "c", "d", "e"]);
}

#[test]
fn triangle_has_three_nodes_and_three_edges() {
    let g = build(vec![(0, 1), (1, 2), (2, 0)]);
    assert_eq!(g.count_nodes(), 3);
    assert_eq!(g.count_edges(), 3);
    assert!(g.has_node(NodeId::from(2)));
    assert!(!g.has_node(NodeId::from(3)));
    assert_eq!(g.get_node_degree(NodeId::from(0)), 2);
    assert_eq!(g.get_node(NodeId::from(1)).get_id(), NodeId::from(1));
}

#[test]
fn nodes_are_listed_in_order_of_first_mention() {
    let g = build(vec![(5, 3), (3, 9), (9, 5), (1, 9)]);
    assert_eq!(*g.get_core_ids(), ids(vec![5, 3, 9, 1]));
    assert_eq!(g.get_non_core_ids(), Some(&ids(vec![5, 3, 9, 1])));
    assert_eq!(g.get_ids_iter(), ids(vec![5, 3, 9, 1]));
    let listed: Vec<NodeId> = g.get_nodes_iter().iter().map(|n| n.get_id()).collect();
    assert_eq!(listed, ids(vec![5, 3, 9, 1]));
}

#[test]
fn half_edges_follow_the_rows() {
    let g = build(vec![(0, 1), (1, 2), (2, 0), (2, 3)]);
    assert_eq!(g.get_node(NodeId::from(0)).get_edges(), ids(vec![1, 2]));
    assert_eq!(g.get_node(NodeId::from(1)).get_edges(), ids(vec![0, 2]));
    assert_eq!(g.get_node(NodeId::from(2)).get_edges(), ids(vec![1, 0, 3]));
    assert_eq!(g.get_node(NodeId::from(3)).get_edges(), ids(vec![2]));
}

#[test]
fn parallel_edges_are_kept() {
    let g = build(vec![(1, 2), (2, 1), (1, 2)]);
    assert_eq!(g.count_nodes(), 2);
    assert_eq!(g.count_edges(), 3);
    assert_eq!(g.get_node_degree(NodeId::from(1)), 3);
    assert_eq!(g.get_node(NodeId::from(1)).get_neighbor_ids(), ids(vec![2]));
    assert_eq!(g.get_node(NodeId::from(2)).get_edges(), ids(vec![1, 1, 1]));
}

#[test]
fn a_loop_gives_its_node_two_half_edges() {
    let g = build(vec![(4, 4), (4, 6)]);
    assert_eq!(g.count_nodes(), 2);
    assert_eq!(g.count_edges(), 2);
    assert_eq!(g.get_node_degree(NodeId::from(4)), 3);
    assert_eq!(g.get_node(NodeId::from(4)).get_edges(), ids(vec![4, 4, 6]));
    assert_eq!(g.get_node(NodeId::from(4)).get_neighbor_ids(), ids(vec![4, 6]));
}

#[test]
fn neighbors_are_mutual() {
    let g = build(vec![(0, 1), (0, 10), (1, 9), (9, 0), (10, 18), (18, 1), (7, 7)]);
    for u in g.get_ids_iter() {
        for v in g.get_ids_iter() {
            let forth = g.get_node(u).get_edges().contains(&v);
            let back = g.get_node(v).get_edges().contains(&u);
            assert_eq!(forth, back);
        }
    }
}

#[test]
fn degrees_add_up_to_twice_the_edges() {
    let rows = vec![(0, 1), (0, 10), (1, 9), (9, 0), (10, 18), (18, 1), (7, 7), (0, 1)];
    let g = build(rows.clone());
    let total: usize = g.get_nodes_iter().iter().map(|n| n.degree()).sum();
    assert_eq!(total, 2 * g.count_edges());
    assert_eq!(g.count_edges(), rows.len());
}

#[test]
fn empty_graph_has_nothing() {
    let g = SimpleUndirectedGraph::create_empty();
    assert_eq!(g.count_nodes(), 0);
    assert_eq!(g.count_edges(), 0);
    assert!(g.get_core_ids().is_empty());
    assert!(g.get_nodes_iter().is_empty());
    assert_eq!(g.as_input_rows(0), "");
    let built = build(vec![]);
    assert_eq!(built.count_nodes(), 0);
    assert_eq!(built.count_edges(), 0);
}

#[test]
fn single_node_graph_has_no_edges() {
    let mut g = SimpleUndirectedGraph::create_empty();
    g.get_mut_nodes().insert(
        8,
        SimpleNode {
            node_id: NodeId::from(8),
            neighbors: Vec::new(),
        },
    );
    g.ids.push(NodeId::from(8));
    assert_eq!(g.count_nodes(), 1);
    assert_eq!(g.count_edges(), 0);
    assert!(g.has_node(NodeId::from(8)));
    assert_eq!(g.get_node_degree(NodeId::from(8)), 0);
    assert_eq!(g.as_input_rows(3), "");
}

#[test]
fn count_ties_counts_half_edges_into_a_set() {
    let g = build(vec![(1, 2), (1, 3), (1, 2), (1, 4)]);
    let node = g.get_node(NodeId::from(1));
    let inside: HashSet<i64> = HashSet::from([2, 4, 99]);
    assert_eq!(node.count_ties_with_ids(&inside), 3);
    assert_eq!(node.count_ties_with_ids(&HashSet::new()), 0);
    assert_eq!(node.degree(), 4);
}

#[test]
fn rows_are_written_from_smaller_to_larger_end() {
    let g = build(vec![(0, 1), (1, 2), (2, 0)]);
    assert_eq!(g.get_input_rows(), vec![(0, 1), (0, 2), (1, 2)]);
    assert_eq!(g.as_input_rows(7), "7\t0\t1\n7\t0\t2\n7\t1\t2");
}

#[test]
fn rows_show_signs_and_all_digits() {
    let g = build(vec![(3, -5), (1234567890123, 3), (i64::MIN, i64::MAX)]);
    assert_eq!(
        g.as_input_rows(10),
        "10\t3\t1234567890123\n10\t-5\t3\n10\t-9223372036854775808\t9223372036854775807"
    );
}

#[test]
fn rows_leave_loops_out() {
    let g = build(vec![(0, 0)]);
    assert_eq!(g.as_input_rows(1), "");
    let h = build(vec![(2, 2), (2, 5), (5, 2)]);
    assert_eq!(h.as_input_rows(1), "1\t2\t5\n1\t2\t5");
}

#[test]
fn graph_comes_back_from_its_rows() {
    let g = build(vec![
        (0, 1),
        (0, 10),
        (0, 14),
        (0, 9),
        (1, 9),
        (1, 2),
        (9, 1),
        (14, 19),
        (19, 9),
    ]);
    let again = build(g.get_input_rows());
    assert_eq!(again.count_nodes(), g.count_nodes());
    assert_eq!(again.count_edges(), g.count_edges());
    for id in g.get_ids_iter() {
        assert!(again.has_node(id));
        assert_eq!(
            sorted_neighbors(&again, id.value()),
            sorted_neighbors(&g, id.value())
        );
    }
}
