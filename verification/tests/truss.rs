use lib_dachshund::dachshund::algorithms::connected_components::{
    get_edge_key, ConnectedComponentsUndirected,
};
use lib_dachshund::dachshund::algorithms::coreness::Coreness;
use lib_dachshund::dachshund::algorithms::truss::{
    assemble_trusses, collect_node_links, collect_part_links, count_triangles, peel_edge,
    peel_node, peel_pass, peel_truss,
};
use lib_dachshund::dachshund::graph_base::GraphBase;
use lib_dachshund::dachshund::graph_builder_base::GraphBuilderBase;
use lib_dachshund::dachshund::id_types::NodeId;
use lib_dachshund::dachshund::simple_undirected_graph::SimpleUndirectedGraph;
use lib_dachshund::dachshund::simple_undirected_graph_builder::SimpleUndirectedGraphBuilder;
use std::collections::HashSet;

fn undirected(rows: Vec<(i64, i64)>) -> SimpleUndirectedGraph {
    SimpleUndirectedGraphBuilder {}.from_vector(rows).unwrap()
}

fn n(id: i64) -> NodeId {
    NodeId::from(id)
}

fn pairs(links: &Vec<(NodeId, NodeId)>) -> Vec<(i64, i64)> {
    let mut out: Vec<(i64, i64)> = links.iter().map(|(a, b)| (a.value(), b.value())).collect();
    out.sort();
    out
}

fn sorted_ids(nodes: &Vec<NodeId>) -> Vec<i64> {
    let mut out: Vec<i64> = nodes.iter().map(|x| x.value()).collect();
    out.sort();
    out
}

fn key(a: i64, b: i64) -> u128 {
    get_edge_key(n(a), n(b))
}

#[test]
fn triangle_is_one_truss_of_three() {
    let g = undirected(vec![(0, 1), (1, 2), (2, 0)]);
    let (trusses, truss_nodes) = g.get_k_trusses(3);
    assert_eq!(trusses.len(), 1);
    assert_eq!(pairs(&trusses[0]), vec![(0, 1), (0, 2), (1, 2)]);
    assert_eq!(truss_nodes.len(), 1);
    assert_eq!(sorted_ids(&truss_nodes[0]), vec![0, 1, 2]);
    assert!(g.get_k_trusses(4).0.is_empty());
}

#[test]
fn pendant_is_not_in_the_three_truss() {
    let g = undirected(vec![(0, 1), (1, 2), (2, 0), (2, 3)]);
    let (trusses, truss_nodes) = g.get_k_trusses(3);
    assert_eq!(trusses.len(), 1);
    assert_eq!(pairs(&trusses[0]), vec![(0, 1), (0, 2), (1, 2)]);
    assert_eq!(sorted_ids(&truss_nodes[0]), vec![0, 1, 2]);
}

#[test]
fn any_edge_makes_a_two_truss() {
    let g = undirected(vec![(0, 1), (1, 2), (2, 0), (2, 3), (7, 8)]);
    for k in 0..3 {
        let (trusses, truss_nodes) = g.get_k_trusses(k);
        assert_eq!(trusses.len(), 2);
        assert_eq!(pairs(&trusses[0]), vec![(0, 1), (0, 2), (1, 2), (2, 3)]);
        assert_eq!(pairs(&trusses[1]), vec![(7, 8)]);
        assert_eq!(sorted_ids(&truss_nodes[0]), vec![0, 1, 2, 3]);
        assert_eq!(sorted_ids(&truss_nodes[1]), vec![7, 8]);
    }
}

#[test]
fn four_clique_is_a_four_truss() {
    let g = undirected(vec![(1, 2), (1, 3), (1, 4), (2, 3), (2, 4), (3, 4), (4, 5), (5, 3)]);
    let (three, _) = g.get_k_trusses(3);
    assert_eq!(three.len(), 1);
    assert_eq!(three[0].len(), 8);
    let (four, nodes) = g.get_k_trusses(4);
    assert_eq!(four.len(), 1);
    assert_eq!(
        pairs(&four[0]),
        vec![(1, 2), (1, 3), (1, 4), (2, 3), (2, 4), (3, 4)]
    );
    assert_eq!(sorted_ids(&nodes[0]), vec![1, 2, 3, 4]);
    assert!(g.get_k_trusses(5).0.is_empty());
}

#[test]
fn peeling_one_edge_can_free_others() {
    // Two triangles share the edge (1, 2); a third hangs on node 3 by one edge.
    let g = undirected(vec![(0, 1), (0, 2), (1, 2), (1, 3), (2, 3), (3, 4), (4, 5), (5, 3)]);
    let (trusses, _) = g.get_k_trusses(3);
    assert_eq!(trusses.len(), 1);
    assert_eq!(trusses[0].len(), 8);
    let (four, _) = g.get_k_trusses(4);
    assert!(four.is_empty());
}

#[test]
fn every_edge_of_a_truss_has_enough_triangles() {
    let g = undirected(vec![
        (0, 1),
        (0, 10),
        (0, 14),
        (0, 9),
        (1, 9),
        (1, 2),
        (8, 16),
        (8, 9),
        (8, 10),
        (10, 16),
        (10, 17),
        (16, 17),
        (17, 8),
    ]);
    for k in 2..6 {
        let cut = peel_truss(&g, k);
        let (trusses, _) = g.get_k_trusses(k);
        for truss in &trusses {
            for (a, b) in truss {
                assert!(count_triangles(&g, *a, *b, &cut) + 2 >= k);
                assert!(count_triangles(&g, *b, *a, &cut) + 2 >= k);
            }
        }
    }
}

#[test]
fn triangles_are_counted_over_kept_edges() {
    let g = undirected(vec![(1, 2), (1, 3), (2, 3), (1, 4), (2, 4), (1, 5), (1, 2)]);
    let none: HashSet<u128> = HashSet::new();
    assert_eq!(count_triangles(&g, n(1), n(2), &none), 2);
    assert_eq!(count_triangles(&g, n(2), n(1), &none), 2);
    assert_eq!(count_triangles(&g, n(1), n(5), &none), 0);
    assert_eq!(count_triangles(&g, n(3), n(4), &none), 2);
    let cut: HashSet<u128> = HashSet::from([key(4, 2)]);
    assert_eq!(count_triangles(&g, n(1), n(2), &cut), 1);
    assert_eq!(count_triangles(&g, n(1), n(4), &cut), 0);
}

#[test]
fn a_loop_closes_no_triangle() {
    let g = undirected(vec![(1, 1), (1, 2), (2, 2)]);
    let none: HashSet<u128> = HashSet::new();
    assert_eq!(count_triangles(&g, n(1), n(2), &none), 0);
    let (trusses, _) = g.get_k_trusses(3);
    assert!(trusses.is_empty());
}

#[test]
fn peel_edge_ignores_an_edge_with_too_few_triangles() {
    let g = undirected(vec![(0, 1), (1, 2), (2, 0), (2, 3)]);
    let mut cut: HashSet<u128> = HashSet::new();
    assert!(!peel_edge(&g, n(0), n(1), 3, &mut cut));
    assert!(cut.is_empty());
    assert!(peel_edge(&g, n(2), n(3), 3, &mut cut));
    assert_eq!(cut, HashSet::from([key(2, 3)]));
    assert!(!peel_edge(&g, n(3), n(2), 3, &mut cut));
    assert!(!peel_edge(&g, n(2), n(3), 3, &mut cut));
    assert_eq!(cut.len(), 1);
    assert!(!peel_edge(&g, n(0), n(1), 1, &mut cut));
}

#[test]
fn peel_node_and_pass_say_whether_they_ignored_an_edge() {
    let g = undirected(vec![(0, 1), (1, 2), (2, 0), (2, 3)]);
    let mut cut: HashSet<u128> = HashSet::new();
    assert!(!peel_node(&g, n(0), 3, &mut cut));
    assert!(peel_node(&g, n(3), 3, &mut cut));
    assert_eq!(cut, HashSet::from([key(3, 2)]));
    assert!(!peel_pass(&g, 3, &mut cut));
    let mut fresh: HashSet<u128> = HashSet::new();
    assert!(peel_pass(&g, 3, &mut fresh));
    assert_eq!(fresh.len(), 1);
    assert!(!peel_pass(&g, 3, &mut fresh));
    assert!(peel_pass(&g, 4, &mut fresh));
}

#[test]
fn links_lead_from_smaller_to_larger_end() {
    let g = undirected(vec![(5, 1), (5, 9), (5, 7), (9, 5), (1, 9)]);
    let none: HashSet<u128> = HashSet::new();
    assert_eq!(
        collect_node_links(&g, n(5), &none),
        vec![(n(5), n(9)), (n(5), n(7))]
    );
    let cut: HashSet<u128> = HashSet::from([key(9, 5)]);
    assert_eq!(collect_node_links(&g, n(5), &cut), vec![(n(5), n(7))]);
    assert_eq!(
        collect_part_links(&g, &vec![n(1), n(5)], &none),
        vec![(n(1), n(5)), (n(1), n(9)), (n(5), n(9)), (n(5), n(7))]
    );
}

#[test]
fn assembling_leaves_out_components_without_an_edge() {
    let g = undirected(vec![(0, 1), (1, 2), (2, 0), (2, 3), (4, 5)]);
    let cut: HashSet<u128> = HashSet::from([key(2, 3), key(4, 5)]);
    let parts = g._get_connected_components(None, Some(&cut));
    assert_eq!(parts.len(), 4);
    let (trusses, truss_nodes) = assemble_trusses(&g, &parts, &cut);
    assert_eq!(trusses.len(), 1);
    assert_eq!(pairs(&trusses[0]), vec![(0, 1), (0, 2), (1, 2)]);
    assert_eq!(sorted_ids(&truss_nodes[0]), vec![0, 1, 2]);
}

#[test]
fn empty_graph_has_no_truss() {
    let g = SimpleUndirectedGraph::create_empty();
    let (trusses, truss_nodes) = g.get_k_trusses(3);
    assert!(trusses.is_empty());
    assert!(truss_nodes.is_empty());
    assert!(peel_truss(&g, 3).is_empty());
}
