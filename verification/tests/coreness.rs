use lib_dachshund::dachshund::algorithms::coreness::{mark_core, Coreness};
use lib_dachshund::dachshund::graph_base::GraphBase;
use lib_dachshund::dachshund::graph_builder_base::GraphBuilderBase;
use lib_dachshund::dachshund::id_types::NodeId;
use lib_dachshund::dachshund::simple_undirected_graph::SimpleUndirectedGraph;
use lib_dachshund::dachshund::simple_undirected_graph_builder::SimpleUndirectedGraphBuilder;
use std::collections::{HashMap, HashSet};

fn graph_from(rows: Vec<(i64, i64)>) -> SimpleUndirectedGraph {
    SimpleUndirectedGraphBuilder {}.from_vector(rows).unwrap()
}

fn sorted_parts(parts: &Vec<Vec<NodeId>>) -> Vec<Vec<i64>> {
    let mut out: Vec<Vec<i64>> = parts
        .iter()
        .map(|p| {
            let mut ids: Vec<i64> = p.iter().map(|n| n.value()).collect();
            ids.sort();
            ids
        })
        .collect();
    out.sort();
    out
}

#[test]
fn triangle_has_coreness_two() {
    let g = graph_from(vec![(0, 1), (1, 2), (2, 0)]);
    let (cores, coreness) = g.get_coreness();
    assert_eq!(coreness, HashMap::from([(0, 2), (1, 2), (2, 2)]));
    assert_eq!(cores.len(), 3);
    assert_eq!(sorted_parts(&cores[0]), vec![vec![0, 1, 2]]);
    assert_eq!(sorted_parts(&cores[1]), vec![vec![0, 1, 2]]);
    assert!(cores[2].is_empty());
}

#[test]
fn two_triangles_have_two_cores_of_three() {
    let g = graph_from(vec![(0, 1), (1, 2), (2, 0), (3, 4), (4, 5), (5, 3)]);
    assert_eq!(
        sorted_parts(&g.get_k_cores(2)),
        vec![vec![0, 1, 2], vec![3, 4, 5]]
    );
    assert!(g.get_k_cores(3).is_empty());
}

#[test]
fn pendant_drops_out_of_the_two_core() {
    let g = graph_from(vec![(0, 1), (1, 2), (2, 0), (2, 3)]);
    assert_eq!(sorted_parts(&g.get_k_cores(1)), vec![vec![0, 1, 2, 3]]);
    assert_eq!(sorted_parts(&g.get_k_cores(2)), vec![vec![0, 1, 2]]);
    let (_, coreness) = g.get_coreness();
    assert_eq!(coreness, HashMap::from([(0, 2), (1, 2), (2, 2), (3, 1)]));
}

#[test]
fn peeling_cascades_along_a_chain() {
    let g = graph_from(vec![(1, 2), (2, 3), (3, 4), (4, 5), (5, 6), (6, 4)]);
    assert_eq!(sorted_parts(&g.get_k_cores(2)), vec![vec![4, 5, 6]]);
    let (_, coreness) = g.get_coreness();
    assert_eq!(
        coreness,
        HashMap::from([(1, 1), (2, 1), (3, 1), (4, 2), (5, 2), (6, 2)])
    );
}

#[test]
fn zero_core_is_the_whole_graph() {
    let g = graph_from(vec![(0, 1), (2, 3), (3, 4)]);
    assert_eq!(
        sorted_parts(&g.get_k_cores(0)),
        vec![vec![0, 1], vec![2, 3, 4]]
    );
}

#[test]
fn disconnected_graph_has_cores_per_component() {
    let g = graph_from(vec![
        (0, 1),
        (1, 2),
        (2, 0),
        (10, 11),
        (11, 12),
        (12, 13),
        (13, 10),
        (10, 12),
        (11, 13),
        (20, 21),
    ]);
    let (cores, coreness) = g.get_coreness();
    assert_eq!(cores.len(), 4);
    assert_eq!(
        sorted_parts(&cores[0]),
        vec![vec![0, 1, 2], vec![10, 11, 12, 13], vec![20, 21]]
    );
    assert_eq!(
        sorted_parts(&cores[1]),
        vec![vec![0, 1, 2], vec![10, 11, 12, 13]]
    );
    assert_eq!(sorted_parts(&cores[2]), vec![vec![10, 11, 12, 13]]);
    assert!(cores[3].is_empty());
    assert_eq!(coreness[&20], 1);
    assert_eq!(coreness[&1], 2);
    assert_eq!(coreness[&13], 3);
}

#[test]
fn parallel_edges_count_for_the_core() {
    let g = graph_from(vec![(1, 2), (1, 2), (1, 2), (2, 3)]);
    let (_, coreness) = g.get_coreness();
    assert_eq!(coreness, HashMap::from([(1, 3), (2, 3), (3, 1)]));
}

#[test]
fn empty_graph_has_no_cores() {
    let g = SimpleUndirectedGraph::create_empty();
    let (cores, coreness) = g.get_coreness();
    assert!(cores.is_empty());
    assert!(coreness.is_empty());
    assert!(g.get_k_cores(1).is_empty());
    assert!(g.get_k_cores(0).is_empty());
}

#[test]
fn removed_nodes_are_those_outside_the_core() {
    let g = graph_from(vec![(0, 1), (1, 2), (2, 0), (2, 3), (3, 4)]);
    let mut removed: HashSet<i64> = HashSet::new();
    let parts = g._get_k_cores(2, &mut removed);
    assert_eq!(sorted_parts(&parts), vec![vec![0, 1, 2]]);
    assert_eq!(removed, HashSet::from([3, 4]));
    let more = g._get_k_cores(3, &mut removed);
    assert!(more.is_empty());
    assert_eq!(removed, HashSet::from([0, 1, 2, 3, 4]));
}

#[test]
fn marking_gives_the_number_to_nodes_that_are_left() {
    let ids: Vec<NodeId> = vec![NodeId::from(1), NodeId::from(2), NodeId::from(3)];
    let removed: HashSet<i64> = HashSet::from([2]);
    let mut coreness: HashMap<i64, usize> = HashMap::from([(1, 0), (2, 0), (9, 4)]);
    mark_core(&ids, &removed, &mut coreness, 7);
    assert_eq!(coreness, HashMap::from([(1, 7), (2, 0), (3, 7), (9, 4)]));
}

#[test]
fn coreness_is_the_same_each_time() {
    let rows = vec![(1, 3), (2, 4), (1, 5), (11, 13), (11, 14), (13, 14), (1, 11)];
    let first = graph_from(rows.clone()).get_coreness();
    let second = graph_from(rows).get_coreness();
    assert_eq!(first.1, second.1);
    assert_eq!(first.0, second.0);
}
