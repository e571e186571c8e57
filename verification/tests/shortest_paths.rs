use lib_dachshund::dachshund::algorithms::betweenness::Betweenness;
use lib_dachshund::dachshund::algorithms::shortest_paths::{
    add_count, breadth_first, push_pred, ShortestPaths,
};
use lib_dachshund::dachshund::error::CLQError;
use lib_dachshund::dachshund::graph_base::GraphBase;
use lib_dachshund::dachshund::graph_builder_base::GraphBuilderBase;
use lib_dachshund::dachshund::id_types::NodeId;
use lib_dachshund::dachshund::simple_undirected_graph::SimpleUndirectedGraph;
use lib_dachshund::dachshund::simple_undirected_graph_builder::SimpleUndirectedGraphBuilder;
use std::collections::{HashMap, HashSet};

fn grid(rows: Vec<(i64, i64)>) -> SimpleUndirectedGraph {
    SimpleUndirectedGraphBuilder {}.from_vector(rows).unwrap()
}

fn nid(v: i64) -> NodeId {
    NodeId::from(v)
}

fn nids(values: Vec<i64>) -> Vec<NodeId> {
    values.into_iter().map(NodeId::from).collect()
}

#[test]
fn traversal_goes_by_distance() {
    // A square 1-2-4-3-1 with a tail 4-5.
    let g = grid(vec![(1, 2), (1, 3), (2, 4), (3, 4), (4, 5)]);
    let (order, dist, sigma, preds) = breadth_first(&g, nid(1));
    assert_eq!(order, nids(vec![1, 2, 3, 4, 5]));
    assert_eq!(dist, HashMap::from([(1, 0), (2, 1), (3, 1), (4, 2), (5, 3)]));
    assert_eq!(sigma, HashMap::from([(1, 1), (2, 1), (3, 1), (4, 2), (5, 2)]));
    assert_eq!(
        preds,
        HashMap::from([
            (1, vec![]),
            (2, nids(vec![1])),
            (3, nids(vec![1])),
            (4, nids(vec![2, 3])),
            (5, nids(vec![4])),
        ])
    );
}

#[test]
fn traversal_stays_in_the_component() {
    let g = grid(vec![(1, 2), (2, 3), (7, 8)]);
    let (order, sigma, preds) = g.get_shortest_paths_bfs(nid(2));
    assert_eq!(order, nids(vec![2, 1, 3]));
    assert_eq!(sigma, HashMap::from([(2, 1), (1, 1), (3, 1)]));
    assert_eq!(preds[&1], nids(vec![2]));
    assert!(!preds.contains_key(&7));
}

#[test]
fn parallel_edges_are_parallel_paths() {
    let g = grid(vec![(1, 2), (1, 2), (2, 3)]);
    let (_, sigma, preds) = g.get_shortest_paths_bfs(nid(1));
    assert_eq!(sigma, HashMap::from([(1, 1), (2, 2), (3, 2)]));
    assert_eq!(preds[&2], nids(vec![1, 1]));
}

#[test]
fn path_counts_multiply_along_ladders() {
    // Three diamonds in a row: 2 * 2 * 2 shortest walks from end to end.
    let g = grid(vec![
        (0, 1),
        (0, 2),
        (1, 3),
        (2, 3),
        (3, 4),
        (3, 5),
        (4, 6),
        (5, 6),
        (6, 7),
        (6, 8),
        (7, 9),
        (8, 9),
    ]);
    let (order, sigma, _) = g.get_shortest_paths_bfs(nid(0));
    assert_eq!(order.len(), 10);
    assert_eq!(sigma[&3], 2);
    assert_eq!(sigma[&6], 4);
    assert_eq!(sigma[&9], 8);
}

#[test]
fn a_lone_source_is_all_that_is_found() {
    let g = grid(vec![(5, 5)]);
    let (order, dist, sigma, preds) = breadth_first(&g, nid(5));
    assert_eq!(order, nids(vec![5]));
    assert_eq!(dist, HashMap::from([(5, 0)]));
    assert_eq!(sigma, HashMap::from([(5, 1)]));
    assert_eq!(preds, HashMap::from([(5, vec![])]));
}

#[test]
fn distances_and_parents_are_given_for_every_node() {
    let g = grid(vec![(1, 2), (1, 3), (2, 4), (3, 4), (4, 5), (8, 9)]);
    let (dist, parents) = g.get_shortest_paths(nid(1), &None);
    assert_eq!(
        dist,
        HashMap::from([
            (1, Some(0)),
            (2, Some(1)),
            (3, Some(1)),
            (4, Some(2)),
            (5, Some(3)),
            (8, None),
            (9, None),
        ])
    );
    assert_eq!(parents[&1], HashSet::new());
    assert_eq!(parents[&4], HashSet::from([2, 3]));
    assert_eq!(parents[&5], HashSet::from([4]));
    assert_eq!(parents[&8], HashSet::new());
    assert_eq!(parents.len(), 7);
}

#[test]
fn distances_are_given_for_the_listed_targets_only() {
    let g = grid(vec![(1, 2), (2, 3), (3, 4)]);
    let (dist, parents) = g.get_shortest_paths(nid(4), &Some(nids(vec![1, 3, 77])));
    assert_eq!(dist, HashMap::from([(1, Some(3)), (3, Some(1)), (77, None)]));
    assert_eq!(parents[&1], HashSet::from([2]));
    assert_eq!(parents[&3], HashSet::from([4]));
    assert_eq!(parents[&77], HashSet::new());
}

#[test]
fn counts_are_held_at_the_largest_number() {
    let mut sigma: HashMap<i64, u64> = HashMap::from([(1, 5), (2, u64::MAX - 1)]);
    add_count(&mut sigma, 1, 7);
    add_count(&mut sigma, 2, 7);
    assert_eq!(sigma, HashMap::from([(1, 12), (2, u64::MAX)]));
}

#[test]
fn a_predecessor_is_put_at_the_end() {
    let mut preds: HashMap<i64, Vec<NodeId>> = HashMap::from([(1, nids(vec![4])), (2, vec![])]);
    push_pred(&mut preds, 1, nid(9));
    push_pred(&mut preds, 2, nid(9));
    assert_eq!(preds, HashMap::from([(1, nids(vec![4, 9])), (2, nids(vec![9]))]));
}

#[test]
fn betweenness_needs_a_connected_graph() {
    let whole = grid(vec![(0, 1), (1, 2), (2, 0), (2, 3)]);
    assert!(whole.check_betweenness_preconditions(true).is_ok());
    let split = grid(vec![(0, 1), (1, 2), (2, 0), (3, 4)]);
    let e = split.check_betweenness_preconditions(true).unwrap_err();
    assert!(matches!(e, CLQError::AlgorithmPrecondition(_)));
    assert_eq!(e.message(), "graph must be connected to compute betweenness");
    assert!(split.check_betweenness_preconditions(false).is_ok());
    let empty = SimpleUndirectedGraph::create_empty();
    assert!(matches!(
        empty.check_betweenness_preconditions(false),
        Err(CLQError::AlgorithmPrecondition(_))
    ));
}
