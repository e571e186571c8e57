//! Ranks by score, with ties sharing the mean of their places.

use vstd::prelude::*;
use vstd::seq_lib::seq_to_set_is_finite;
use vstd::std_specs::iter::IteratorSpec;
use std::collections::HashMap;
use crate::dachshund::sums::{
    lemma_sum_add, lemma_sum_constant, lemma_sum_monotone, lemma_sum_pointwise,
    lemma_transpose_sum, row_sum, sum_to,
};

verus! {

/// The condition on a node to have a larger score than `v`.
pub open spec fn scores_more(raw: Map<i64, usize>, v: i64) -> spec_fn(i64) -> bool {
    |w: i64| raw[w] > raw[v]
}

/// The condition on a node to have the score of `v`.
pub open spec fn scores_same(raw: Map<i64, usize>, v: i64) -> spec_fn(i64) -> bool {
    |w: i64| raw[w] == raw[v]
}

/// Twice the rank of `v` when the nodes are put in order of falling score
/// and nodes of one score share the mean of their places: with `g` nodes
/// ahead of `v` and `e` nodes of its score, `v` included, the places are
/// `g + 1` to `g + e`, and twice their mean is `2 g + e + 1`.
pub open spec fn doubled_rank(raw: Map<i64, usize>, v: i64) -> nat {
    2 * raw.dom().filter(scores_more(raw, v)).len() + raw.dom().filter(scores_same(raw, v)).len() + 1
}

/// How many entries of `s` satisfy `p`.
pub open spec fn tally(s: Seq<i64>, p: spec_fn(i64) -> bool) -> nat
    decreases s.len(),
{
    if s.len() == 0 {
        0
    } else {
        tally(s.drop_last(), p) + if p(s.last()) {
            1nat
        } else {
            0nat
        }
    }
}

/// Counting over a list without repetition is counting over its set.
pub proof fn lemma_tally_is_filter_len(s: Seq<i64>, p: spec_fn(i64) -> bool)
    requires
        s.no_duplicates(),
    ensures
        s.to_set().filter(p).finite(),
        s.to_set().filter(p).len() == tally(s, p),
    decreases s.len(),
{
    seq_to_set_is_finite(s);
    if s.len() == 0 {
        assert(s.to_set().filter(p) =~= Set::<i64>::empty());
    } else {
        let t = s.drop_last();
        let x = s.last();
        lemma_tally_is_filter_len(t, p);
        seq_to_set_is_finite(t);
        assert(!t.to_set().contains(x)) by {
            if t.contains(x) {
                let i = choose|i: int| 0 <= i < t.len() && t[i] == x;
                assert(s[i] == x && s[s.len() - 1] == x);
            }
        }
        assert(s.to_set() =~= t.to_set().insert(x)) by {
            assert forall|k: i64| s.to_set().contains(k) <==> t.to_set().insert(x).contains(k) by {
                if s.contains(k) {
                    let i = choose|i: int| 0 <= i < s.len() && s[i] == k;
                    if i < t.len() {
                        assert(t[i] == k);
                    }
                }
                if t.contains(k) {
                    let i = choose|i: int| 0 <= i < t.len() && t[i] == k;
                    assert(s[i] == k);
                }
                if k == x {
                    assert(s[s.len() - 1] == x);
                }
            }
        }
        if p(x) {
            assert(s.to_set().filter(p) =~= t.to_set().filter(p).insert(x));
        } else {
            assert(s.to_set().filter(p) =~= t.to_set().filter(p));
        }
    }
}

/// A count is the sum of ones for the entries that count.
pub proof fn lemma_tally_as_sum(s: Seq<i64>, p: spec_fn(i64) -> bool, m: int)
    requires
        0 <= m <= s.len(),
    ensures
        tally(s.subrange(0, m), p) == sum_to(|j: int| if p(s[j]) { 1int } else { 0int }, m),
    decreases m,
{
    if m > 0 {
        lemma_tally_as_sum(s, p, m - 1);
        assert(s.subrange(0, m).drop_last() =~= s.subrange(0, m - 1));
    }
}

/// The table that says whether the `j`-th node has a larger score than the
/// `i`-th.
pub open spec fn more_table(raw: Map<i64, usize>, keys: Seq<i64>) -> spec_fn(int, int) -> int {
    |i: int, j: int| if raw[keys[j]] > raw[keys[i]] { 1int } else { 0int }
}

/// The table that says whether the `j`-th node has a smaller score than the
/// `i`-th.
pub open spec fn less_table(raw: Map<i64, usize>, keys: Seq<i64>) -> spec_fn(int, int) -> int {
    |i: int, j: int| if raw[keys[j]] < raw[keys[i]] { 1int } else { 0int }
}

/// The table that says whether the `j`-th node has the score of the `i`-th.
pub open spec fn same_table(raw: Map<i64, usize>, keys: Seq<i64>) -> spec_fn(int, int) -> int {
    |i: int, j: int| if raw[keys[j]] == raw[keys[i]] { 1int } else { 0int }
}

/// Twice the rank of the `i`-th node, from the rows of the tables.
pub proof fn lemma_doubled_rank_as_rows(raw: Map<i64, usize>, keys: Seq<i64>, i: int)
    requires
        keys.no_duplicates(),
        keys.to_set() == raw.dom(),
        0 <= i < keys.len(),
    ensures
        doubled_rank(raw, keys[i]) == 2 * row_sum(more_table(raw, keys), i, keys.len() as int)
            + row_sum(same_table(raw, keys), i, keys.len() as int) + 1,
        row_sum(more_table(raw, keys), i, keys.len() as int) + row_sum(
            less_table(raw, keys),
            i,
            keys.len() as int,
        ) + row_sum(same_table(raw, keys), i, keys.len() as int) == keys.len(),
        row_sum(more_table(raw, keys), i, keys.len() as int) >= 0,
        row_sum(less_table(raw, keys), i, keys.len() as int) >= 0,
        row_sum(same_table(raw, keys), i, keys.len() as int) >= 1,
{
    let n = keys.len() as int;
    let v = keys[i];
    let more = more_table(raw, keys);
    let less = less_table(raw, keys);
    let same = same_table(raw, keys);
    lemma_tally_is_filter_len(keys, scores_more(raw, v));
    lemma_tally_is_filter_len(keys, scores_same(raw, v));
    lemma_tally_as_sum(keys, scores_more(raw, v), n);
    lemma_tally_as_sum(keys, scores_same(raw, v), n);
    assert(keys.subrange(0, n) =~= keys);
    let p = scores_more(raw, v);
    let q = scores_same(raw, v);
    lemma_sum_pointwise(|j: int| if p(keys[j]) { 1int } else { 0int }, |j: int| more(i, j), n);
    lemma_sum_pointwise(|j: int| if q(keys[j]) { 1int } else { 0int }, |j: int| same(i, j), n);
    let both = |j: int| more(i, j) + less(i, j);
    let all = |j: int| both(j) + same(i, j);
    lemma_sum_add(|j: int| more(i, j), |j: int| less(i, j), both, n);
    lemma_sum_add(both, |j: int| same(i, j), all, n);
    lemma_sum_constant(all, 1, n);
    lemma_sum_monotone(|j: int| more(i, j), 0, n);
    lemma_sum_monotone(|j: int| less(i, j), 0, n);
    lemma_sum_monotone(|j: int| same(i, j), i, n);
    lemma_sum_monotone(|j: int| same(i, j), i + 1, n);
    lemma_sum_monotone(|j: int| same(i, j), 0, i);
    assert(sum_to(|j: int| same(i, j), i + 1) == sum_to(|j: int| same(i, j), i) + same(i, i));
}

/// Ranks lie between the first and the last place and add up to what the
/// places add up to: with `n` nodes, twice the rank lies between 2 and
/// `2 n`, and twice the ranks add up to `n (n + 1)`.
pub proof fn lemma_ranks_add_up(raw: Map<i64, usize>, keys: Seq<i64>)
    requires
        keys.no_duplicates(),
        keys.to_set() == raw.dom(),
    ensures
        forall|i: int|
            0 <= i < keys.len() ==> 2 <= #[trigger] doubled_rank(raw, keys[i]) <= 2 * keys.len(),
        sum_to(|i: int| doubled_rank(raw, keys[i]) as int, keys.len() as int) == keys.len() * (
        keys.len() + 1),
{
    let n = keys.len() as int;
    let more = more_table(raw, keys);
    let less = less_table(raw, keys);
    let same = same_table(raw, keys);
    assert forall|i: int| 0 <= i < n implies 2 <= #[trigger] doubled_rank(raw, keys[i]) <= 2 * n by {
        lemma_doubled_rank_as_rows(raw, keys, i);
    }
    let rows_more = |i: int| row_sum(more, i, n);
    let rows_less = |i: int| row_sum(less, i, n);
    let rows_same = |i: int| row_sum(same, i, n);
    let rows_both = |i: int| rows_more(i) + rows_less(i);
    let rows_all = |i: int| rows_both(i) + rows_same(i);
    let ranks = |i: int| doubled_rank(raw, keys[i]) as int;
    let twice_more = |i: int| rows_more(i) + rows_more(i);
    let scored = |i: int| twice_more(i) + rows_same(i);
    let ones = |i: int| 1int;
    assert forall|i: int| 0 <= i < n implies #[trigger] rows_all(i) == n by {
        lemma_doubled_rank_as_rows(raw, keys, i);
    }
    assert forall|i: int| 0 <= i < n implies #[trigger] ranks(i) == scored(i) + ones(i) by {
        lemma_doubled_rank_as_rows(raw, keys, i);
    }
    lemma_sum_add(rows_more, rows_less, rows_both, n);
    lemma_sum_add(rows_both, rows_same, rows_all, n);
    lemma_sum_constant(rows_all, n, n);
    lemma_sum_add(rows_more, rows_more, twice_more, n);
    lemma_sum_add(twice_more, rows_same, scored, n);
    lemma_sum_add(scored, ones, ranks, n);
    lemma_sum_constant(ones, 1, n);
    lemma_transpose_sum(more, less, n, n);
    assert(n * (n + 1) == n * n + n) by (nonlinear_arith);
}

/// Lists the nodes that have a score.
pub fn scored_nodes(raw_values: &HashMap<i64, usize>) -> (keys: Vec<i64>)
    ensures
        keys@.no_duplicates(),
        keys@.to_set() == raw_values@.dom(),
{
    let mut keys: Vec<i64> = Vec::new();
    let ghost all: Seq<i64> = raw_values.keys().remaining().unref();
    for key in it: raw_values.keys()
        invariant
            keys@.len() == it.index(),
            it.seq().unref() == all,
            all.to_set() == raw_values@.dom(),
            all.no_duplicates(),
            forall|j: int| 0 <= j < keys@.len() ==> keys@[j] == all[j],
    {
        keys.push(*key);
    }
    assert(keys@ =~= all);
    keys
}

/// Twice the rank of `v` among the nodes listed in `keys`.
pub fn rank_of(raw_values: &HashMap<i64, usize>, keys: &Vec<i64>, v: i64) -> (r: usize)
    requires
        keys@.no_duplicates(),
        keys@.to_set() == raw_values@.dom(),
        raw_values@.contains_key(v),
        2 * keys@.len() < usize::MAX,
    ensures
        r == doubled_rank(raw_values@, v),
{
    let ghost raw = raw_values@;
    let ghost more = scores_more(raw, v);
    let ghost same = scores_same(raw, v);
    let score: usize = *raw_values.get(&v).unwrap();
    let mut twice: usize = 1;
    let mut j: usize = 0;
    while j < keys.len()
        invariant
            j <= keys.len(),
            raw == raw_values@,
            keys@.to_set() == raw.dom(),
            more == scores_more(raw, v),
            same == scores_same(raw, v),
            score == raw[v],
            2 * keys@.len() < usize::MAX,
            twice == 2 * tally(keys@.subrange(0, j as int), more) + tally(keys@.subrange(0, j as int), same)
                + 1,
            twice <= 2 * j + 1,
        decreases keys.len() - j,
    {
        let w: i64 = keys[j];
        proof {
            assert(keys@.subrange(0, j + 1).drop_last() =~= keys@.subrange(0, j as int));
            assert(keys@.contains(keys@[j as int]));
            assert(keys@.to_set().contains(w));
            assert(raw.dom().contains(w));
        }
        let other: usize = *raw_values.get(&w).unwrap();
        if other > score {
            twice += 2;
        } else if other == score {
            twice += 1;
        }
        j += 1;
    }
    proof {
        assert(keys@.subrange(0, keys.len() as int) =~= keys@);
        lemma_tally_is_filter_len(keys@, more);
        lemma_tally_is_filter_len(keys@, same);
    }
    twice
}

/// Gives each node twice its rank by score: the nodes are put in order of
/// falling score, and nodes of one score share the mean of their places. The
/// rank itself may end in one half, so it is given doubled.
pub fn averaged_ties_ranking(raw_values: &HashMap<i64, usize>) -> (r: HashMap<i64, usize>)
    requires
        2 * raw_values@.len() < usize::MAX,
    ensures
        r@.dom() == raw_values@.dom(),
        forall|v: i64| #[trigger] r@.contains_key(v) ==> r@[v] == doubled_rank(raw_values@, v),
{
    let keys: Vec<i64> = scored_nodes(raw_values);
    proof {
        keys@.unique_seq_to_set();
    }
    let mut rankings: HashMap<i64, usize> = HashMap::new();
    let mut i: usize = 0;
    while i < keys.len()
        invariant
            i <= keys.len(),
            keys@.no_duplicates(),
            keys@.to_set() == raw_values@.dom(),
            2 * keys@.len() < usize::MAX,
            forall|v: i64| rankings@.contains_key(v) <==> keys@.subrange(0, i as int).contains(v),
            forall|v: i64| #[trigger]
                rankings@.contains_key(v) ==> rankings@[v] == doubled_rank(raw_values@, v),
        decreases keys.len() - i,
    {
        let v: i64 = keys[i];
        let ghost shorter = keys@.subrange(0, i as int);
        let ghost longer = keys@.subrange(0, i + 1);
        proof {
            assert(keys@.contains(keys@[i as int]));
            assert(keys@.to_set().contains(v));
            assert(longer[i as int] == v);
            assert forall|w: i64| longer.contains(w) <==> shorter.contains(w) || w == v by {
                if shorter.contains(w) {
                    let t = choose|t: int| 0 <= t < shorter.len() && shorter[t] == w;
                    assert(longer[t] == w);
                }
                if longer.contains(w) {
                    let t = choose|t: int| 0 <= t < longer.len() && longer[t] == w;
                    if t < i {
                        assert(shorter[t] == w);
                    }
                }
            }
        }
        let twice: usize = rank_of(raw_values, &keys, v);
        rankings.insert(v, twice);
        i += 1;
    }
    proof {
        assert(keys@.subrange(0, keys.len() as int) =~= keys@);
        assert(rankings@.dom() =~= raw_values@.dom()) by {
            assert forall|v: i64| rankings@.dom().contains(v) <==> raw_values@.dom().contains(v) by {
                assert(keys@.to_set().contains(v) <==> keys@.contains(v));
            }
        }
    }
    rankings
}

} // verus!
