use lib_dachshund::dachshund::algorithms::sampling::{is_closed_draw, Draw, Sampling};
use lib_dachshund::dachshund::graph_builder_base::GraphBuilderBase;
use lib_dachshund::dachshund::id_types::NodeId;
use lib_dachshund::dachshund::simple_undirected_graph::SimpleUndirectedGraph;
use lib_dachshund::dachshund::simple_undirected_graph_builder::SimpleUndirectedGraphBuilder;

fn built(rows: Vec<(i64, i64)>) -> SimpleUndirectedGraph {
    SimpleUndirectedGraphBuilder {}.from_vector(rows).unwrap()
}

fn draw(node: u128, first: usize, second: usize) -> Draw {
    Draw { node, first, second }
}

/// Numbers that look drawn by chance, the same each time.
fn draws(n: usize, seed: u64) -> Vec<Draw> {
    let mut state = seed | 1;
    let mut next = move || {
        state ^= state << 13;
        state ^= state >> 7;
        state ^= state << 17;
        state
    };
    (0..n)
        .map(|_| Draw {
            node: next() as u128,
            first: next() as usize,
            second: next() as usize,
        })
        .collect()
}

#[test]
fn nodes_with_two_half_edges_are_wide() {
    // Triangle 0-1-2 with a pendant 3 at 2 and a far edge 4-5.
    let g = built(vec![(0, 1), (1, 2), (2, 0), (2, 3), (4, 5)]);
    let wide: Vec<i64> = g.get_wide_nodes().iter().map(|n| n.id).collect();
    assert_eq!(wide, vec![0, 1, 2]);
    assert!(built(vec![(4, 5)]).get_wide_nodes().is_empty());
    assert!(built(Vec::new()).get_wide_nodes().is_empty());
}

#[test]
fn a_draw_picks_two_different_half_edges() {
    // The neighbors of 2 are 1, 0 and 3, in this order; 0 and 1 are joined.
    let g = built(vec![(0, 1), (1, 2), (2, 0), (2, 3)]);
    let v = NodeId::from(2);
    // first 0 and one step on: 1 and 0.
    assert!(is_closed_draw(&g, v, draw(0, 0, 0)));
    // first 0 and two steps on: 1 and 3.
    assert!(!is_closed_draw(&g, v, draw(0, 0, 1)));
    // first 1 and one step on: 0 and 3.
    assert!(!is_closed_draw(&g, v, draw(0, 1, 0)));
    // first 1 and two steps on, around the end: 0 and 1.
    assert!(is_closed_draw(&g, v, draw(0, 1, 1)));
    // first 2 and one step on, around the end: 3 and 1.
    assert!(!is_closed_draw(&g, v, draw(0, 2, 0)));
    // The numbers are cut down to size: 7 is place 1, 5 is one step more.
    assert!(is_closed_draw(&g, v, draw(0, 7, 5)));
}

#[test]
fn every_draw_in_a_triangle_is_closed() {
    let g = built(vec![(0, 1), (1, 2), (2, 0)]);
    let numbers = draws(200, 17);
    assert_eq!(g.sample_avg_clustering(&numbers), Some((200, 200)));
    assert_eq!(g.sample_transitivity(&numbers), Some((200, 200)));
}

#[test]
fn no_draw_in_a_star_is_closed() {
    let g = built(vec![(0, 1), (0, 2), (0, 3), (0, 4)]);
    let numbers = draws(200, 5);
    assert_eq!(g.sample_avg_clustering(&numbers), Some((0, 200)));
    assert_eq!(g.sample_transitivity(&numbers), Some((0, 200)));
}

#[test]
fn nothing_is_estimated_without_draws_or_triples() {
    let triangle = built(vec![(0, 1), (1, 2), (2, 0)]);
    assert_eq!(triangle.sample_avg_clustering(&Vec::new()), None);
    assert_eq!(triangle.sample_transitivity(&Vec::new()), None);
    let edge = built(vec![(0, 1)]);
    assert_eq!(edge.sample_avg_clustering(&draws(10, 3)), None);
    assert_eq!(edge.sample_transitivity(&draws(10, 3)), None);
    let empty = built(Vec::new());
    assert_eq!(empty.sample_avg_clustering(&draws(10, 3)), None);
    assert_eq!(empty.sample_transitivity(&draws(10, 3)), None);
}

#[test]
fn a_node_is_picked_by_its_place_or_by_its_triples() {
    // Triangle 0-1-2 with pendants 3 and 4 at 2: the nodes 0, 1 and 2 are
    // wide; 0 and 1 have one triple each and 2 has six.
    let g = built(vec![(0, 1), (1, 2), (2, 0), (2, 3), (2, 4)]);
    assert_eq!(g.pick_by_triples(0), 0);
    assert_eq!(g.pick_by_triples(1), 1);
    for r in 2..8 {
        assert_eq!(g.pick_by_triples(r), 2);
    }
    // Node 0 has the neighbors 1 and 2, which are joined.
    assert_eq!(g.sample_avg_clustering(&vec![draw(0, 0, 0)]), Some((1, 1)));
    assert_eq!(g.sample_transitivity(&vec![draw(0, 0, 0)]), Some((1, 1)));
    // Evenly, the number 2 picks the third wide node, 2, whose neighbors at
    // the places 2 and 3 are the pendants; so does the number 5, by weight.
    assert_eq!(g.sample_avg_clustering(&vec![draw(2, 2, 0)]), Some((0, 1)));
    assert_eq!(g.sample_transitivity(&vec![draw(5, 2, 0)]), Some((0, 1)));
    // The numbers go around: 8 picks by weight what 0 picks, 3 evenly what 0 picks.
    assert_eq!(g.sample_transitivity(&vec![draw(8, 0, 0)]), Some((1, 1)));
    assert_eq!(g.sample_avg_clustering(&vec![draw(3, 0, 0)]), Some((1, 1)));
}

#[test]
fn the_estimates_come_near_the_exact_values() {
    // Two triangles that share the node 2, and a tail 4-5-6.
    let g = built(vec![(0, 1), (1, 2), (2, 0), (2, 3), (3, 4), (4, 2), (4, 5), (5, 6)]);
    let numbers = draws(20000, 99);
    let (closed, drawn) = g.sample_transitivity(&numbers).unwrap();
    assert_eq!(drawn, 20000);
    // Six closed triples of 1 + 1 + 6 + 1 + 3 + 1 = 13.
    let estimate = closed as f64 / drawn as f64;
    assert!((estimate - 6.0 / 13.0).abs() < 0.02, "{}", estimate);
    let (closed, drawn) = g.sample_avg_clustering(&numbers).unwrap();
    // The coefficients of the wide nodes 0, 1, 2, 3, 4, 5 are 1, 1, 1/3, 1, 1/3, 0.
    let estimate = closed as f64 / drawn as f64;
    assert!((estimate - (1.0 + 1.0 + 1.0 / 3.0 + 1.0 + 1.0 / 3.0) / 6.0).abs() < 0.02, "{}", estimate);
}

#[test]
fn the_same_draws_give_the_same_estimate() {
    let g = built(vec![(0, 1), (1, 2), (2, 0), (2, 3), (3, 4), (4, 2), (4, 5), (5, 6)]);
    let numbers = draws(500, 7);
    assert_eq!(g.sample_transitivity(&numbers), g.sample_transitivity(&numbers));
    assert_eq!(g.sample_avg_clustering(&numbers), g.sample_avg_clustering(&numbers));
}
