use lib_dachshund::dachshund::algorithms::coreness::Coreness;
use lib_dachshund::dachshund::algorithms::k_peaks::{
    find_degeneracy, group_mountains, record_round, take_contour, KPeaks,
};
use lib_dachshund::dachshund::graph_base::GraphBase;
use lib_dachshund::dachshund::graph_builder_base::GraphBuilderBase;
use lib_dachshund::dachshund::id_types::NodeId;
use lib_dachshund::dachshund::simple_undirected_graph::SimpleUndirectedGraph;
use lib_dachshund::dachshund::simple_undirected_graph_builder::SimpleUndirectedGraphBuilder;
use std::collections::{HashMap, HashSet};

fn graph(rows: Vec<(i64, i64)>) -> SimpleUndirectedGraph {
    SimpleUndirectedGraphBuilder {}.from_vector(rows).unwrap()
}

fn node_list(values: Vec<i64>) -> Vec<NodeId> {
    values.into_iter().map(NodeId::from).collect()
}

#[test]
fn triangle_is_one_peak() {
    let g = graph(vec![(0, 1), (1, 2), (2, 0)]);
    let (peaks, mountains) = g.get_k_peak_mountain_assignment();
    assert_eq!(peaks, HashMap::from([(0, 2), (1, 2), (2, 2)]));
    assert_eq!(mountains, HashMap::from([(0, HashSet::from([0, 1, 2]))]));
}

#[test]
fn pendant_falls_with_the_triangle() {
    let g = graph(vec![(0, 1), (1, 2), (2, 0), (2, 3)]);
    let (peaks, mountains) = g.get_k_peak_mountain_assignment();
    assert_eq!(peaks, HashMap::from([(0, 2), (1, 2), (2, 2), (3, 0)]));
    assert_eq!(mountains, HashMap::from([(0, HashSet::from([0, 1, 2, 3]))]));
}

#[test]
fn two_cliques_of_different_size_are_two_mountains() {
    // A four-clique and a triangle, joined by a path through node 10.
    let g = graph(vec![
        (1, 2),
        (1, 3),
        (1, 4),
        (2, 3),
        (2, 4),
        (3, 4),
        (4, 10),
        (10, 5),
        (5, 6),
        (6, 7),
        (7, 5),
    ]);
    let (peaks, mountains) = g.get_k_peak_mountain_assignment();
    assert_eq!(
        peaks,
        HashMap::from([(1, 3), (2, 3), (3, 3), (4, 3), (5, 2), (6, 2), (7, 2), (10, 0)])
    );
    assert_eq!(mountains.len(), 2);
    // Node 10 loses one from its core number in each of the two rounds; the first counts.
    assert_eq!(mountains[&0], HashSet::from([1, 2, 3, 4, 10]));
    assert_eq!(mountains[&1], HashSet::from([5, 6, 7]));
}

#[test]
fn peak_number_is_at_most_the_core_number() {
    let g = graph(vec![
        (0, 1),
        (0, 2),
        (0, 3),
        (1, 2),
        (1, 3),
        (2, 3),
        (3, 4),
        (4, 5),
        (5, 6),
        (6, 4),
        (6, 7),
        (7, 8),
    ]);
    let (_, coreness) = g.get_coreness();
    let (peaks, mountains) = g.get_k_peak_mountain_assignment();
    assert_eq!(peaks.len(), g.count_nodes());
    for (v, peak) in &peaks {
        assert!(*peak <= coreness[v]);
    }
    let mut seen: HashSet<i64> = HashSet::new();
    for group in mountains.values() {
        assert!(!group.is_empty());
        for v in group {
            assert!(seen.insert(*v));
        }
    }
    assert_eq!(seen.len(), g.count_nodes());
}

#[test]
fn empty_graph_has_no_peaks() {
    let g = SimpleUndirectedGraph::create_empty();
    let (peaks, mountains) = g.get_k_peak_mountain_assignment();
    assert!(peaks.is_empty());
    assert!(mountains.is_empty());
}

#[test]
fn degeneracy_is_the_largest_number_left() {
    let ids = node_list(vec![1, 2, 3, 4]);
    let current: HashMap<i64, usize> = HashMap::from([(1, 3), (2, 7), (3, 5), (4, 5)]);
    assert_eq!(find_degeneracy(&ids, &HashSet::new(), &current), 7);
    assert_eq!(find_degeneracy(&ids, &HashSet::from([2]), &current), 5);
    assert_eq!(find_degeneracy(&ids, &HashSet::from([1, 2, 3, 4]), &current), 0);
    assert_eq!(find_degeneracy(&Vec::new(), &HashSet::new(), &current), 0);
}

#[test]
fn contour_joins_the_removed_nodes() {
    let ids = node_list(vec![1, 2, 3, 4]);
    let current: HashMap<i64, usize> = HashMap::from([(1, 3), (3, 5), (4, 5)]);
    let taken = take_contour(&ids, &HashSet::from([2]), &current, 5);
    assert_eq!(taken, HashSet::from([2, 3, 4]));
    let none = take_contour(&ids, &HashSet::new(), &HashMap::from([(1, 1), (2, 1), (3, 1), (4, 1)]), 9);
    assert!(none.is_empty());
}

#[test]
fn a_round_is_written_down_for_the_nodes_left() {
    let ids = node_list(vec![1, 2, 3, 4]);
    let removed: HashSet<i64> = HashSet::from([4]);
    let current: HashMap<i64, usize> = HashMap::from([(1, 3), (2, 3), (3, 2)]);
    let next: HashMap<i64, usize> = HashMap::from([(3, 1)]);
    let mut peaks: HashMap<i64, usize> = HashMap::from([(4, 9)]);
    let mut best: HashMap<i64, usize> = HashMap::from([(1, 0), (2, 5), (3, 0), (4, 2)]);
    let mut mountains: HashMap<i64, usize> = HashMap::from([(1, 0), (2, 0), (3, 0), (4, 0)]);
    record_round(
        &ids,
        &removed,
        &current,
        &next,
        3,
        1,
        &mut peaks,
        &mut best,
        &mut mountains,
    );
    assert_eq!(peaks, HashMap::from([(1, 3), (2, 3), (4, 9)]));
    assert_eq!(best, HashMap::from([(1, 3), (2, 5), (3, 1), (4, 2)]));
    assert_eq!(mountains, HashMap::from([(1, 1), (2, 0), (3, 1), (4, 0)]));
}

#[test]
fn nodes_are_gathered_under_their_mountains() {
    let ids = node_list(vec![5, 6, 7]);
    let mountains: HashMap<i64, usize> = HashMap::from([(5, 2), (6, 0), (7, 2)]);
    let groups = group_mountains(&ids, &mountains);
    assert_eq!(
        groups,
        HashMap::from([(0, HashSet::from([6])), (2, HashSet::from([5, 7]))])
    );
}
