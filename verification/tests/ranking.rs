use lib_dachshund::dachshund::algorithms::ranking::{averaged_ties_ranking, rank_of, scored_nodes};
use std::collections::{HashMap, HashSet};

#[test]
fn distinct_scores_rank_one_to_n() {
    let scores: HashMap<i64, usize> = HashMap::from([(7, 3), (8, 1), (9, 2), (-4, 10)]);
    let ranks = averaged_ties_ranking(&scores);
    assert_eq!(ranks, HashMap::from([(-4, 2), (7, 4), (9, 6), (8, 8)]));
}

#[test]
fn tied_scores_share_the_mean_of_their_places() {
    let scores: HashMap<i64, usize> = HashMap::from([(1, 10), (2, 20), (3, 15), (4, 20), (5, 25)]);
    let ranks = averaged_ties_ranking(&scores);
    assert_eq!(
        ranks,
        HashMap::from([(5, 2), (4, 5), (2, 5), (3, 8), (1, 10)])
    );
}

#[test]
fn all_tied_scores_share_the_middle_place() {
    let scores: HashMap<i64, usize> = HashMap::from([(1, 4), (2, 4), (3, 4), (4, 4)]);
    let ranks = averaged_ties_ranking(&scores);
    assert_eq!(ranks, HashMap::from([(1, 5), (2, 5), (3, 5), (4, 5)]));
}

#[test]
fn ranks_add_up_to_the_sum_of_the_places() {
    let scores: HashMap<i64, usize> = HashMap::from([
        (1, 0),
        (2, 5),
        (3, 5),
        (4, 7),
        (5, 5),
        (6, 0),
        (7, 9),
        (8, 7),
        (9, 1),
    ]);
    let ranks = averaged_ties_ranking(&scores);
    let n = scores.len();
    let total: usize = ranks.values().sum();
    assert_eq!(total, n * (n + 1));
    for twice in ranks.values() {
        assert!(2 <= *twice && *twice <= 2 * n);
    }
}

#[test]
fn one_node_has_the_first_place() {
    let scores: HashMap<i64, usize> = HashMap::from([(42, 0)]);
    assert_eq!(averaged_ties_ranking(&scores), HashMap::from([(42, 2)]));
}

#[test]
fn no_scores_give_no_ranks() {
    let scores: HashMap<i64, usize> = HashMap::new();
    assert!(averaged_ties_ranking(&scores).is_empty());
    assert!(scored_nodes(&scores).is_empty());
}

#[test]
fn scored_nodes_are_the_keys() {
    let scores: HashMap<i64, usize> = HashMap::from([(3, 1), (1, 1), (2, 9)]);
    let keys = scored_nodes(&scores);
    assert_eq!(keys.len(), 3);
    let as_set: HashSet<i64> = keys.iter().cloned().collect();
    assert_eq!(as_set, HashSet::from([1, 2, 3]));
    assert_eq!(rank_of(&scores, &keys, 2), 2);
    assert_eq!(rank_of(&scores, &keys, 1), 5);
}
