use lib_dachshund::dachshund::algorithms::betweenness::Betweenness;
use lib_dachshund::dachshund::algorithms::path_enumeration::{
    chains_through, distance_keys, enumerate_chains, extend_paths, largest_distance, set_members,
};
use lib_dachshund::dachshund::algorithms::shortest_paths::ShortestPaths;
use lib_dachshund::dachshund::error::CLQError;
use lib_dachshund::dachshund::graph_base::GraphBase;
use lib_dachshund::dachshund::graph_builder_base::GraphBuilderBase;
use lib_dachshund::dachshund::id_types::NodeId;
use lib_dachshund::dachshund::simple_undirected_graph::SimpleUndirectedGraph;
use lib_dachshund::dachshund::simple_undirected_graph_builder::SimpleUndirectedGraphBuilder;
use std::collections::{HashMap, HashSet};

fn built(rows: Vec<(i64, i64)>) -> SimpleUndirectedGraph {
    SimpleUndirectedGraphBuilder {}.from_vector(rows).unwrap()
}

fn nid(v: i64) -> NodeId {
    NodeId::from(v)
}

fn plain(paths: &Vec<Vec<NodeId>>) -> Vec<Vec<i64>> {
    let mut out: Vec<Vec<i64>> = paths.iter().map(|p| p.iter().map(|n| n.id).collect()).collect();
    out.sort();
    out
}

#[test]
fn members_and_keys_are_listed_once() {
    let mut members = set_members(&HashSet::from([5, -2, 9]));
    members.sort();
    assert_eq!(members, vec![-2, 5, 9]);
    assert!(set_members(&HashSet::new()).is_empty());
    let dist: HashMap<i64, Option<usize>> = HashMap::from([(1, Some(0)), (4, Some(2)), (7, None)]);
    let mut keys = distance_keys(&dist);
    keys.sort();
    assert_eq!(keys, vec![1, 4, 7]);
    assert_eq!(largest_distance(&dist, &keys), 2);
    assert_eq!(largest_distance(&HashMap::new(), &Vec::new()), 0);
}

#[test]
fn paths_are_extended_by_one_node() {
    let mut list: Vec<Vec<NodeId>> = vec![vec![nid(9)]];
    let from: Vec<Vec<NodeId>> = vec![vec![], vec![nid(1), nid(2)]];
    extend_paths(&mut list, &from, nid(3));
    assert_eq!(list, vec![vec![nid(9)], vec![nid(3)], vec![nid(1), nid(2), nid(3)]]);
}

#[test]
fn chains_come_through_every_parent() {
    let parents: HashMap<i64, HashSet<i64>> = HashMap::from([
        (0, HashSet::new()),
        (1, HashSet::from([0])),
        (2, HashSet::from([0])),
        (3, HashSet::from([1, 2])),
    ]);
    let paths: HashMap<i64, Vec<Vec<NodeId>>> = HashMap::from([
        (0, vec![vec![]]),
        (1, vec![vec![nid(0)]]),
        (2, vec![vec![nid(0)]]),
    ]);
    let found = chains_through(&parents, &paths, nid(0), nid(3));
    assert_eq!(plain(&found), vec![vec![0, 1], vec![0, 2]]);
}

#[test]
fn chains_of_a_diamond_with_a_tail() {
    let dist: HashMap<i64, Option<usize>> =
        HashMap::from([(0, Some(0)), (1, Some(1)), (2, Some(1)), (3, Some(2)), (4, Some(3))]);
    let parents: HashMap<i64, HashSet<i64>> = HashMap::from([
        (0, HashSet::new()),
        (1, HashSet::from([0])),
        (2, HashSet::from([0])),
        (3, HashSet::from([1, 2])),
        (4, HashSet::from([3])),
    ]);
    let paths = enumerate_chains(&dist, &parents, nid(0));
    assert_eq!(paths.len(), 5);
    assert_eq!(plain(&paths[&0]), vec![Vec::<i64>::new()]);
    assert_eq!(plain(&paths[&1]), vec![vec![0]]);
    assert_eq!(plain(&paths[&2]), vec![vec![0]]);
    assert_eq!(plain(&paths[&3]), vec![vec![0, 1], vec![0, 2]]);
    assert_eq!(plain(&paths[&4]), vec![vec![0, 1, 3], vec![0, 2, 3]]);
}

#[test]
fn a_node_without_parents_has_no_chain() {
    let dist: HashMap<i64, Option<usize>> = HashMap::from([(0, Some(0)), (5, Some(4))]);
    let parents: HashMap<i64, HashSet<i64>> =
        HashMap::from([(0, HashSet::new()), (5, HashSet::new())]);
    let paths = enumerate_chains(&dist, &parents, nid(0));
    assert_eq!(plain(&paths[&0]), vec![Vec::<i64>::new()]);
    assert!(paths[&5].is_empty());
}

#[test]
fn shortest_paths_of_a_search_are_enumerated() {
    // A square 1-2-4-3-1 with a tail 4-5.
    let g = built(vec![(1, 2), (1, 3), (2, 4), (3, 4), (4, 5)]);
    let (dist, parents) = g.get_shortest_paths(nid(1), &None);
    let paths = g.enumerate_shortest_paths(&dist, &parents, nid(1));
    assert_eq!(plain(&paths[&1]), vec![Vec::<i64>::new()]);
    assert_eq!(plain(&paths[&2]), vec![vec![1]]);
    assert_eq!(plain(&paths[&4]), vec![vec![1, 2], vec![1, 3]]);
    assert_eq!(plain(&paths[&5]), vec![vec![1, 2, 4], vec![1, 3, 4]]);
}

#[test]
fn all_shortest_paths_from_a_corner_of_a_grid() {
    // 0 1 2
    // 3 4 5
    // 6 7 8
    let g = built(vec![
        (0, 1), (1, 2), (3, 4), (4, 5), (6, 7), (7, 8), (0, 3), (3, 6), (1, 4), (4, 7), (2, 5), (5, 8),
    ]);
    let paths = g.get_all_shortest_paths(nid(0)).unwrap();
    assert_eq!(paths.len(), 9);
    assert_eq!(plain(&paths[&4]), vec![vec![0, 1], vec![0, 3]]);
    assert_eq!(
        plain(&paths[&8]),
        vec![
            vec![0, 1, 2, 5],
            vec![0, 1, 4, 5],
            vec![0, 1, 4, 7],
            vec![0, 3, 4, 5],
            vec![0, 3, 4, 7],
            vec![0, 3, 6, 7],
        ]
    );
}

#[test]
fn as_many_paths_as_the_traversal_counts() {
    let g = built(vec![
        (0, 1), (0, 2), (1, 3), (2, 3), (3, 4), (3, 5), (4, 6), (5, 6), (6, 7), (1, 2), (0, 8), (8, 6),
    ]);
    for source in g.get_ids_iter() {
        let (_, sigma, _) = g.get_shortest_paths_bfs(source);
        let paths = g.get_all_shortest_paths(source).unwrap();
        for target in g.get_ids_iter() {
            assert_eq!(paths[&target.id].len() as u64, sigma[&target.id]);
        }
    }
}

#[test]
fn parallel_edges_make_no_second_path() {
    let g = built(vec![(1, 2), (1, 2), (2, 3)]);
    let paths = g.get_all_shortest_paths(nid(1)).unwrap();
    assert_eq!(plain(&paths[&2]), vec![vec![1]]);
    assert_eq!(plain(&paths[&3]), vec![vec![1, 2]]);
}

#[test]
fn paths_are_not_enumerated_where_a_node_is_out_of_reach() {
    let g = built(vec![(1, 2), (2, 3), (7, 8)]);
    match g.get_all_shortest_paths(nid(1)) {
        Err(CLQError::AlgorithmPrecondition(_)) => {}
        _ => panic!("paths were given though a node cannot be reached"),
    }
}

fn brandes(g: &SimpleUndirectedGraph) -> HashMap<i64, f64> {
    let mut betweenness: HashMap<i64, f64> = g.get_ids_iter().iter().map(|n| (n.id, 0.0)).collect();
    for source in g.get_ids_iter() {
        let (mut stack, sigma, preds) = g.get_shortest_paths_bfs(source);
        let mut delta: HashMap<i64, f64> = HashMap::new();
        while let Some(w) = stack.pop() {
            let delta_w = *delta.get(&w.id).unwrap_or(&0.0);
            for v in preds[&w.id].iter() {
                *delta.entry(v.id).or_insert(0.0) +=
                    sigma[&v.id] as f64 / sigma[&w.id] as f64 * (0.5 + delta_w);
            }
            if w != source {
                *betweenness.get_mut(&w.id).unwrap() += delta_w;
            }
        }
    }
    betweenness
}

fn by_enumeration(g: &SimpleUndirectedGraph) -> HashMap<i64, f64> {
    let mut betweenness: HashMap<i64, f64> = g.get_ids_iter().iter().map(|n| (n.id, 0.0)).collect();
    for source in g.get_ids_iter() {
        let paths = g.get_all_shortest_paths(source).unwrap();
        for (_target, list) in paths.iter() {
            for path in list.iter() {
                for inner in path.iter().skip(1) {
                    *betweenness.get_mut(&inner.id).unwrap() += 0.5 / list.len() as f64;
                }
            }
        }
    }
    betweenness
}

fn agree(rows: Vec<(i64, i64)>) -> HashMap<i64, f64> {
    let g = built(rows);
    assert!(g.check_betweenness_preconditions(true).is_ok());
    let fast = brandes(&g);
    let slow = by_enumeration(&g);
    assert_eq!(fast.len(), slow.len());
    for (id, value) in fast.iter() {
        assert!((value - slow[id]).abs() < 1e-9, "node {}: {} and {}", id, value, slow[id]);
    }
    fast
}

#[test]
fn both_ways_to_betweenness_agree_on_a_path() {
    let b = agree(vec![(1, 2), (2, 3), (3, 4)]);
    assert!((b[&1] - 0.0).abs() < 1e-9);
    assert!((b[&2] - 2.0).abs() < 1e-9);
    assert!((b[&3] - 2.0).abs() < 1e-9);
    assert!((b[&4] - 0.0).abs() < 1e-9);
}

#[test]
fn both_ways_to_betweenness_agree_on_a_star() {
    let b = agree(vec![(0, 1), (0, 2), (0, 3), (0, 4)]);
    assert!((b[&0] - 6.0).abs() < 1e-9);
    assert!((b[&1] - 0.0).abs() < 1e-9);
}

#[test]
fn both_ways_to_betweenness_agree_on_a_square() {
    let b = agree(vec![(1, 2), (2, 3), (3, 4), (4, 1)]);
    for id in 1..=4 {
        assert!((b[&id] - 0.5).abs() < 1e-9);
    }
}

#[test]
fn both_ways_to_betweenness_agree_on_a_triangle() {
    let b = agree(vec![(0, 1), (1, 2), (2, 0)]);
    for id in 0..3 {
        assert!((b[&id] - 0.0).abs() < 1e-9);
    }
}

#[test]
fn both_ways_to_betweenness_agree_on_larger_graphs() {
    agree(vec![
        (0, 1), (1, 2), (3, 4), (4, 5), (6, 7), (7, 8), (0, 3), (3, 6), (1, 4), (4, 7), (2, 5), (5, 8),
    ]);
    agree(vec![
        (0, 1), (0, 2), (1, 3), (2, 3), (3, 4), (3, 5), (4, 6), (5, 6), (6, 7), (1, 2), (0, 8), (8, 6),
    ]);
    agree(vec![(0, 1), (1, 2), (2, 0), (2, 3), (3, 4), (4, 5), (5, 3), (5, 6), (6, 7), (7, 8), (8, 6)]);
}
