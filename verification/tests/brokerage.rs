use lib_dachshund::dachshund::algorithms::brokerage::{
    find_role, BrokerRole, Brokerage, BrokerageScores,
};
use lib_dachshund::dachshund::error::CLQError;
use lib_dachshund::dachshund::graph_builder_base::GraphBuilderBase;
use lib_dachshund::dachshund::id_types::NodeId;
use lib_dachshund::dachshund::simple_directed_graph::SimpleDirectedGraph;
use lib_dachshund::dachshund::simple_directed_graph_builder::SimpleDirectedGraphBuilder;
use std::collections::HashMap;

fn directed(rows: Vec<(i64, i64)>) -> SimpleDirectedGraph {
    SimpleDirectedGraphBuilder {}.from_vector(rows).unwrap()
}

fn scores(
    coordinator: u128,
    consultant: u128,
    gatekeeper: u128,
    representative: u128,
    liaison: u128,
) -> BrokerageScores {
    BrokerageScores { coordinator, consultant, gatekeeper, representative, liaison }
}

fn none() -> BrokerageScores {
    scores(0, 0, 0, 0, 0)
}

#[test]
fn the_part_follows_from_the_three_groups() {
    assert_eq!(find_role(4, 4, 4), BrokerRole::Coordinator);
    assert_eq!(find_role(4, 7, 4), BrokerRole::Consultant);
    assert_eq!(find_role(7, 4, 4), BrokerRole::Gatekeeper);
    assert_eq!(find_role(4, 4, 7), BrokerRole::Representative);
    assert_eq!(find_role(1, 2, 3), BrokerRole::Liaison);
}

#[test]
fn a_node_between_two_others_plays_one_part() {
    let g = directed(vec![(1, 2), (2, 3)]);
    let middle = NodeId::from(2);
    let cases = vec![
        ([0, 0, 0], scores(1, 0, 0, 0, 0)),
        ([0, 1, 0], scores(0, 1, 0, 0, 0)),
        ([0, 1, 1], scores(0, 0, 1, 0, 0)),
        ([0, 0, 1], scores(0, 0, 0, 1, 0)),
        ([0, 1, 2], scores(0, 0, 0, 0, 1)),
    ];
    for (groups, expected) in cases {
        let groups: HashMap<i64, usize> =
            HashMap::from([(1, groups[0]), (2, groups[1]), (3, groups[2])]);
        assert_eq!(g.get_brokerage_scores_for_node(middle, &groups), expected);
        assert_eq!(g.get_brokerage_scores_for_node(NodeId::from(1), &groups), none());
        assert_eq!(g.get_brokerage_scores_for_node(NodeId::from(3), &groups), none());
    }
}

#[test]
fn a_direct_edge_leaves_nothing_to_broker() {
    let g = directed(vec![(1, 2), (2, 3), (1, 3)]);
    let groups: HashMap<i64, usize> = HashMap::from([(1, 0), (2, 0), (3, 0)]);
    assert_eq!(g.get_brokerage_scores_for_node(NodeId::from(2), &groups), none());
    // The edge back from 3 to 1 is no edge from 1 to 3.
    let g = directed(vec![(1, 2), (2, 3), (3, 1)]);
    assert_eq!(g.get_brokerage_scores_for_node(NodeId::from(2), &groups), scores(1, 0, 0, 0, 0));
}

#[test]
fn there_and_back_is_no_brokerage() {
    let g = directed(vec![(1, 2), (2, 1)]);
    let groups: HashMap<i64, usize> = HashMap::from([(1, 0), (2, 1)]);
    assert_eq!(g.get_brokerage_scores_for_node(NodeId::from(1), &groups), none());
    assert_eq!(g.get_brokerage_scores_for_node(NodeId::from(2), &groups), none());
    let g = directed(vec![(1, 1), (1, 2)]);
    assert_eq!(g.get_brokerage_scores_for_node(NodeId::from(1), &groups), none());
}

#[test]
fn every_pair_of_source_and_target_counts() {
    // 1 and 4 lead to 2, which leads to 3 and 5; 4 also leads to 5 directly.
    let g = directed(vec![(1, 2), (4, 2), (2, 3), (2, 5), (4, 5)]);
    let groups: HashMap<i64, usize> = HashMap::from([(1, 0), (2, 0), (3, 0), (4, 1), (5, 1)]);
    // 1-2-3 coordinator, 1-2-5 representative, 4-2-3 gatekeeper, 4-2-5 closed.
    assert_eq!(g.get_brokerage_scores_for_node(NodeId::from(2), &groups), scores(1, 0, 1, 1, 0));
    let all = g.get_brokerage_scores(&groups).unwrap();
    assert_eq!(all.len(), 5);
    assert_eq!(all[&2], scores(1, 0, 1, 1, 0));
    assert_eq!(all[&1], none());
    assert_eq!(all[&4], none());
    assert_eq!(all[&5], none());
}

#[test]
fn parallel_edges_count_each() {
    let g = directed(vec![(1, 2), (1, 2), (2, 3)]);
    let groups: HashMap<i64, usize> = HashMap::from([(1, 0), (2, 1), (3, 2)]);
    assert_eq!(g.get_brokerage_scores_for_node(NodeId::from(2), &groups), scores(0, 0, 0, 0, 2));
}

#[test]
fn a_chain_has_a_broker_at_every_inner_node() {
    let g = directed(vec![(1, 2), (2, 3), (3, 4), (4, 5)]);
    let groups: HashMap<i64, usize> = HashMap::from([(1, 0), (2, 0), (3, 1), (4, 1), (5, 2)]);
    let all = g.get_brokerage_scores(&groups).unwrap();
    assert_eq!(all[&1], none());
    assert_eq!(all[&2], scores(0, 0, 0, 1, 0));
    assert_eq!(all[&3], scores(0, 0, 1, 0, 0));
    assert_eq!(all[&4], scores(0, 0, 0, 1, 0));
    assert_eq!(all[&5], none());
}

#[test]
fn brokerage_needs_a_group_for_every_node() {
    let g = directed(vec![(1, 2), (2, 3)]);
    let groups: HashMap<i64, usize> = HashMap::from([(1, 0), (2, 0)]);
    match g.get_brokerage_scores(&groups) {
        Err(CLQError::AlgorithmPrecondition(_)) => {}
        _ => panic!("scores were given though a node has no group"),
    }
    let empty = directed(Vec::new());
    assert!(empty.get_brokerage_scores(&HashMap::new()).unwrap().is_empty());
}
