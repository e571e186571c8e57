use lib_dachshund::dachshund::algorithms::cnm_communities::{
    cross_counts, find_best, label_degrees, own_label_map, pair_gain, relabel_nodes,
    CNMCommunities, Join, MAX_HALF_EDGES,
};
use lib_dachshund::dachshund::algorithms::connected_components::get_edge_key;
use lib_dachshund::dachshund::graph_base::GraphBase;
use lib_dachshund::dachshund::graph_builder_base::GraphBuilderBase;
use lib_dachshund::dachshund::id_types::NodeId;
use lib_dachshund::dachshund::simple_undirected_graph::SimpleUndirectedGraph;
use lib_dachshund::dachshund::simple_undirected_graph_builder::SimpleUndirectedGraphBuilder;
use std::collections::HashMap;

fn undirected_graph(rows: Vec<(i64, i64)>) -> SimpleUndirectedGraph {
    SimpleUndirectedGraphBuilder {}.from_vector(rows).unwrap()
}

fn community_key(c: i64, d: i64) -> u128 {
    get_edge_key(NodeId::from(c), NodeId::from(d))
}

#[test]
fn triangle_is_joined_in_two_steps() {
    let g = undirected_graph(vec![(0, 1), (1, 2), (2, 0)]);
    let (communities, changes) = g.get_cnm_communities();
    assert_eq!(changes, vec![(4, 36), (8, 36)]);
    assert_eq!(communities, HashMap::from([(0, 0), (1, 0), (2, 0)]));
    let as_numbers: Vec<f64> = changes.iter().map(|(a, b)| *a as f64 / *b as f64).collect();
    assert!((as_numbers[0] - 0.1111).abs() <= 0.001);
    assert!((as_numbers[1] - 0.2222).abs() <= 0.001);
}

#[test]
fn pendant_joins_its_neighbor_first() {
    let g = undirected_graph(vec![(0, 1), (1, 2), (2, 0), (2, 3)]);
    let (communities, changes) = g.get_cnm_communities();
    assert_eq!(changes, vec![(10, 64), (8, 64)]);
    assert_eq!(changes[0].0 as f64 / changes[0].1 as f64, 0.15625);
    assert_eq!(changes[1].0 as f64 / changes[1].1 as f64, 0.125);
    assert_eq!(
        communities,
        HashMap::from([(0, 0), (1, 0), (2, 2), (3, 2)])
    );
}

#[test]
fn two_triangles_stay_two_communities() {
    let g = undirected_graph(vec![(0, 1), (1, 2), (2, 0), (3, 4), (4, 5), (5, 3)]);
    let (communities, changes) = g.get_cnm_communities();
    assert_eq!(changes, vec![(16, 144), (32, 144), (16, 144), (32, 144)]);
    assert_eq!(
        communities,
        HashMap::from([(0, 0), (1, 0), (2, 0), (3, 3), (4, 3), (5, 3)])
    );
}

#[test]
fn equal_gains_go_to_the_smallest_labels() {
    // A path of four nodes: the two end edges add the same; (1, 2) comes before (3, 4).
    let g = undirected_graph(vec![(3, 4), (2, 3), (1, 2)]);
    let (communities, changes) = g.get_cnm_communities();
    assert_eq!(changes[0], (8, 36));
    assert_eq!(changes[1], (8, 36));
    assert_eq!(changes.len(), 2);
    assert_eq!(
        communities,
        HashMap::from([(1, 1), (2, 1), (3, 3), (4, 3)])
    );
}

#[test]
fn empty_graph_has_no_community() {
    let g = SimpleUndirectedGraph::create_empty();
    let (communities, changes) = g.get_cnm_communities();
    assert!(communities.is_empty());
    assert!(changes.is_empty());
}

#[test]
fn joining_is_the_same_each_time() {
    let rows = vec![(0, 1), (0, 10), (0, 14), (1, 9), (9, 0), (10, 18), (14, 19), (19, 9)];
    let first = undirected_graph(rows.clone()).get_cnm_communities();
    let second = undirected_graph(rows).get_cnm_communities();
    assert_eq!(first, second);
}

#[test]
fn gain_is_twice_the_edges_less_the_expected() {
    assert_eq!(pair_gain(6, 1, 2, 2), 4);
    assert_eq!(pair_gain(6, 2, 4, 2), 8);
    assert_eq!(pair_gain(8, 1, 3, 1), 10);
    assert_eq!(pair_gain(8, 2, 4, 4), 0);
    assert_eq!(pair_gain(8, 1, 4, 4), -16);
    let big = MAX_HALF_EDGES as usize;
    assert_eq!(pair_gain(big, big, 0, 0), 2 * (big as i128) * (big as i128));
    assert_eq!(pair_gain(big, 0, big as u128, big as u128), -2 * (big as i128) * (big as i128));
}

#[test]
fn communities_are_measured_and_relabelled() {
    let g = undirected_graph(vec![(0, 1), (1, 2), (2, 0), (2, 3)]);
    let mut labels = own_label_map(g.get_core_ids());
    assert_eq!(labels, HashMap::from([(0, 0), (1, 1), (2, 2), (3, 3)]));
    assert_eq!(
        label_degrees(&g, &labels),
        HashMap::from([(0, 2), (1, 2), (2, 3), (3, 1)])
    );
    assert_eq!(
        cross_counts(&g, &labels),
        HashMap::from([
            (community_key(0, 1), 1),
            (community_key(0, 2), 1),
            (community_key(1, 2), 1),
            (community_key(2, 3), 1),
        ])
    );
    let sums = label_degrees(&g, &labels);
    let counts = cross_counts(&g, &labels);
    assert_eq!(
        find_best(&g, &labels, &sums, &counts, 8),
        Some(Join {
            first: 2,
            second: 3,
            gain: 10
        })
    );
    relabel_nodes(g.get_core_ids(), &mut labels, 3, 2);
    assert_eq!(labels, HashMap::from([(0, 0), (1, 1), (2, 2), (3, 2)]));
    assert_eq!(
        label_degrees(&g, &labels),
        HashMap::from([(0, 2), (1, 2), (2, 4)])
    );
    assert_eq!(
        cross_counts(&g, &labels),
        HashMap::from([
            (community_key(0, 1), 1),
            (community_key(0, 2), 1),
            (community_key(1, 2), 1),
        ])
    );
}

#[test]
fn nothing_is_found_without_an_edge_between_communities() {
    let g = undirected_graph(vec![(5, 5)]);
    let labels = own_label_map(g.get_core_ids());
    let sums = label_degrees(&g, &labels);
    let counts = cross_counts(&g, &labels);
    assert!(counts.is_empty());
    assert_eq!(find_best(&g, &labels, &sums, &counts, 2), None);
}
