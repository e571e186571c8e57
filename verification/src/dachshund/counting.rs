//! Counting in lists of identifiers.

use vstd::prelude::*;
use crate::dachshund::id_types::NodeId;
use crate::dachshund::sums::{
    lemma_sum_add, lemma_sum_indicator, lemma_sum_pointwise, lemma_sum_zero, rect_sum, row_sum,
    sum_to,
};

verus! {

/// How many entries of `s` are equal to `x`.
pub open spec fn occurrences(s: Seq<NodeId>, x: NodeId) -> nat
    decreases s.len(),
{
    if s.len() == 0 {
        0
    } else {
        occurrences(s.drop_last(), x) + if s.last() == x {
            1nat
        } else {
            0nat
        }
    }
}

/// How many entries of `s` have their integer in `ids`.
pub open spec fn ties(s: Seq<NodeId>, ids: Set<i64>) -> nat
    decreases s.len(),
{
    if s.len() == 0 {
        0
    } else {
        ties(s.drop_last(), ids) + if ids.contains(s.last().id) {
            1nat
        } else {
            0nat
        }
    }
}

/// The entries of `s` without repetition: each value at the place of its
/// first occurrence.
pub open spec fn distinct(s: Seq<NodeId>) -> Seq<NodeId>
    decreases s.len(),
{
    if s.len() == 0 {
        Seq::empty()
    } else if distinct(s.drop_last()).contains(s.last()) {
        distinct(s.drop_last())
    } else {
        distinct(s.drop_last()).push(s.last())
    }
}

/// Whether every entry of `s` has its integer in `ids`.
pub open spec fn all_within(s: Seq<NodeId>, ids: Set<i64>) -> bool {
    forall|j: int| 0 <= j < s.len() ==> ids.contains(#[trigger] s[j].id)
}

/// One more entry adds one to the count of what it is equal to.
pub proof fn lemma_occurrences_push(s: Seq<NodeId>, y: NodeId, x: NodeId)
    ensures
        occurrences(s.push(y), x) == occurrences(s, x) + if y == x {
            1nat
        } else {
            0nat
        },
{
    assert(s.push(y).drop_last() =~= s);
}

/// A value occurs in a sequence at least once exactly when the sequence
/// contains it.
pub proof fn lemma_occurrences_contains(s: Seq<NodeId>, x: NodeId)
    ensures
        occurrences(s, x) > 0 <==> s.contains(x),
    decreases s.len(),
{
    if s.len() > 0 {
        lemma_occurrences_contains(s.drop_last(), x);
        if s.contains(x) {
            let i = choose|i: int| 0 <= i < s.len() && s[i] == x;
            if i < s.len() - 1 {
                assert(s.drop_last()[i] == x);
            }
        }
        if s.drop_last().contains(x) {
            let i = choose|i: int| 0 <= i < s.drop_last().len() && s.drop_last()[i] == x;
            assert(s[i] == x);
        }
        if s.last() == x {
            assert(s[s.len() - 1] == x);
        }
    }
}

/// The distinct entries hold each entry once, and no more entries than
/// there are.
pub proof fn lemma_distinct_properties(s: Seq<NodeId>)
    ensures
        distinct(s).no_duplicates(),
        distinct(s).len() <= s.len(),
        forall|x: NodeId| distinct(s).contains(x) <==> s.contains(x),
    decreases s.len(),
{
    if s.len() > 0 {
        let t = s.drop_last();
        lemma_distinct_properties(t);
        let d = distinct(t);
        assert forall|x: NodeId| distinct(s).contains(x) <==> s.contains(x) by {
            if s.contains(x) {
                let i = choose|i: int| 0 <= i < s.len() && s[i] == x;
                if i < s.len() - 1 {
                    assert(t[i] == x);
                    assert(t.contains(x));
                    assert(d.contains(x));
                    if !d.contains(s.last()) {
                        let k = choose|k: int| 0 <= k < d.len() && d[k] == x;
                        assert(d.push(s.last())[k] == x);
                    }
                } else {
                    if !d.contains(s.last()) {
                        assert(d.push(s.last())[d.len() as int] == x);
                    }
                }
            }
            if distinct(s).contains(x) {
                let k = choose|k: int| 0 <= k < distinct(s).len() && distinct(s)[k] == x;
                if d.contains(s.last()) || k < d.len() {
                    assert(d[k] == x);
                    assert(d.contains(x));
                    assert(t.contains(x));
                    let i = choose|i: int| 0 <= i < t.len() && t[i] == x;
                    assert(s[i] == x);
                } else {
                    assert(s[s.len() - 1] == x);
                }
            }
        }
    }
}

/// A sequence whose entries all come from a list without repetition is as
/// long as the occurrences of the list's entries in it, summed over the list.
pub proof fn lemma_len_is_sum_of_occurrences(s: Seq<NodeId>, ids: Seq<NodeId>)
    requires
        ids.no_duplicates(),
        forall|j: int| 0 <= j < s.len() ==> ids.contains(#[trigger] s[j]),
    ensures
        s.len() == sum_to(|j: int| occurrences(s, ids[j]) as int, ids.len() as int),
    decreases s.len(),
{
    let n = ids.len() as int;
    let f_s = |j: int| occurrences(s, ids[j]) as int;
    if s.len() == 0 {
        lemma_sum_zero(f_s, n);
    } else {
        let t = s.drop_last();
        let x = s.last();
        assert(ids.contains(s[s.len() - 1]));
        let at = choose|at: int| 0 <= at < ids.len() && ids[at] == x;
        let f_t = |j: int| occurrences(t, ids[j]) as int;
        let delta = |j: int| if j == at { 1int } else { 0int };
        assert forall|j: int| 0 <= j < t.len() implies ids.contains(#[trigger] t[j]) by {
            assert(t[j] == s[j]);
        }
        lemma_len_is_sum_of_occurrences(t, ids);
        assert forall|j: int| 0 <= j < n implies #[trigger] f_s(j) == f_t(j) + delta(j) by {
            if ids[j] == x {
                assert(j == at);
            }
        }
        lemma_sum_add(f_t, delta, f_s, n);
        lemma_sum_indicator(delta, at, n);
    }
}

/// The table that says, for the `i`-th of the sequences `seqs` and the `j`-th
/// entry of `ids`, how often that entry occurs in that sequence.
pub open spec fn occurrence_table(seqs: spec_fn(int) -> Seq<NodeId>, ids: Seq<NodeId>) -> spec_fn(
    int,
    int,
) -> int {
    |i: int, j: int| occurrences(seqs(i), ids[j]) as int
}

/// Where each of the first `m` sequences draws its entries from `ids`, their
/// lengths add up to the sum of the occurrence table's first `m` rows.
pub proof fn lemma_lengths_sum_is_rect(seqs: spec_fn(int) -> Seq<NodeId>, ids: Seq<NodeId>, m: int)
    requires
        0 <= m,
        ids.no_duplicates(),
        forall|i: int, j: int|
            0 <= i < m && 0 <= j < seqs(i).len() ==> ids.contains(#[trigger] seqs(i)[j]),
    ensures
        sum_to(|i: int| seqs(i).len() as int, m) == rect_sum(
            occurrence_table(seqs, ids),
            m,
            ids.len() as int,
        ),
    decreases m,
{
    if m > 0 {
        lemma_lengths_sum_is_rect(seqs, ids, m - 1);
        let a = occurrence_table(seqs, ids);
        let s = seqs(m - 1);
        assert forall|j: int| 0 <= j < s.len() implies ids.contains(#[trigger] s[j]) by {
            assert(ids.contains(seqs(m - 1)[j]));
        }
        lemma_len_is_sum_of_occurrences(s, ids);
        lemma_sum_pointwise(
            |j: int| occurrences(s, ids[j]) as int,
            |j: int| a(m - 1, j),
            ids.len() as int,
        );
        assert(row_sum(a, m - 1, ids.len() as int) == s.len());
    }
}

/// No more half-edges lead into a set than there are.
pub proof fn lemma_ties_bound(s: Seq<NodeId>, ids: Set<i64>)
    ensures
        ties(s, ids) <= s.len(),
    decreases s.len(),
{
    if s.len() > 0 {
        lemma_ties_bound(s.drop_last(), ids);
    }
}

/// A larger set takes at least as many half-edges.
pub proof fn lemma_ties_monotone(s: Seq<NodeId>, fewer: Set<i64>, more: Set<i64>)
    requires
        forall|j: int| 0 <= j < s.len() && fewer.contains(#[trigger] s[j].id) ==> more.contains(s[j].id),
    ensures
        ties(s, fewer) <= ties(s, more),
    decreases s.len(),
{
    if s.len() > 0 {
        let t = s.drop_last();
        assert forall|j: int| 0 <= j < t.len() && fewer.contains(#[trigger] t[j].id) implies more.contains(
            t[j].id,
        ) by {
            assert(t[j] == s[j]);
        }
        lemma_ties_monotone(t, fewer, more);
        assert(s.last() == s[s.len() - 1]);
    }
}

/// Sets that agree on the targets take the same half-edges.
pub proof fn lemma_ties_agree(s: Seq<NodeId>, a: Set<i64>, b: Set<i64>)
    requires
        forall|j: int| 0 <= j < s.len() ==> (a.contains(#[trigger] s[j].id) <==> b.contains(s[j].id)),
    ensures
        ties(s, a) == ties(s, b),
{
    lemma_ties_monotone(s, a, b);
    lemma_ties_monotone(s, b, a);
}

/// Two sets that split the targets between them split the half-edges.
pub proof fn lemma_ties_split(s: Seq<NodeId>, a: Set<i64>, b: Set<i64>)
    requires
        forall|j: int| 0 <= j < s.len() ==> (a.contains(#[trigger] s[j].id) <==> !b.contains(s[j].id)),
    ensures
        ties(s, a) + ties(s, b) == s.len(),
    decreases s.len(),
{
    if s.len() > 0 {
        let t = s.drop_last();
        assert forall|j: int| 0 <= j < t.len() implies (a.contains(#[trigger] t[j].id) <==> !b.contains(
            t[j].id,
        )) by {
            assert(t[j] == s[j]);
        }
        lemma_ties_split(t, a, b);
        assert(s.last() == s[s.len() - 1]);
    }
}

/// How many entries of `s` satisfy `p`.
pub open spec fn count_where(s: Seq<NodeId>, p: spec_fn(NodeId) -> bool) -> nat
    decreases s.len(),
{
    if s.len() == 0 {
        0
    } else {
        count_where(s.drop_last(), p) + if p(s.last()) {
            1nat
        } else {
            0nat
        }
    }
}

/// A weaker condition is satisfied by at least as many entries.
pub proof fn lemma_count_where_monotone(
    s: Seq<NodeId>,
    p: spec_fn(NodeId) -> bool,
    q: spec_fn(NodeId) -> bool,
)
    requires
        forall|j: int| 0 <= j < s.len() && p(#[trigger] s[j]) ==> q(s[j]),
    ensures
        count_where(s, p) <= count_where(s, q),
    decreases s.len(),
{
    if s.len() > 0 {
        let t = s.drop_last();
        assert forall|j: int| 0 <= j < t.len() && p(#[trigger] t[j]) implies q(t[j]) by {
            assert(t[j] == s[j]);
        }
        lemma_count_where_monotone(t, p, q);
        assert(s.last() == s[s.len() - 1]);
    }
}

/// A weaker condition that one more entry satisfies is satisfied by more
/// entries.
pub proof fn lemma_count_where_strict(
    s: Seq<NodeId>,
    p: spec_fn(NodeId) -> bool,
    q: spec_fn(NodeId) -> bool,
    at: int,
)
    requires
        forall|j: int| 0 <= j < s.len() && p(#[trigger] s[j]) ==> q(s[j]),
        0 <= at < s.len(),
        !p(s[at]),
        q(s[at]),
    ensures
        count_where(s, p) < count_where(s, q),
    decreases s.len(),
{
    let t = s.drop_last();
    assert forall|j: int| 0 <= j < t.len() && p(#[trigger] t[j]) implies q(t[j]) by {
        assert(t[j] == s[j]);
    }
    assert(s.last() == s[s.len() - 1]);
    if at < s.len() - 1 {
        assert(t[at] == s[at]);
        lemma_count_where_strict(t, p, q, at);
    } else {
        lemma_count_where_monotone(t, p, q);
    }
}

} // verus!
