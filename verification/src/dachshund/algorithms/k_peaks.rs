//! Peak numbers and mountains.

use vstd::prelude::*;
use vstd::set_lib::{lemma_len_subset, lemma_subset_equality};
use std::collections::HashMap;
use std::collections::HashSet;
use crate::dachshund::algorithms::coreness::{
    are_core_numbers, in_core, is_dense, is_left, lemma_core_nested, lemma_core_of_zero, Coreness,
};
use crate::dachshund::graph_base::{lemma_node_count, well_formed, GraphBase};
use crate::dachshund::id_types::NodeId;
use crate::dachshund::node::NodeBase;

verus! {

/// Whether `c` is the core number of `v` in the graph without the nodes of
/// `base`: `v` lies in the core of `c` and not in that of `c + 1`.
pub open spec fn is_core_number<N: NodeBase>(nodes: Map<i64, N>, base: Set<i64>, v: i64, c: nat) -> bool {
    in_core(nodes, base, c, v) && !in_core(nodes, base, c + 1, v)
}

/// The core number of `v` in the graph without the nodes of `base`.
pub open spec fn core_number<N: NodeBase>(nodes: Map<i64, N>, base: Set<i64>, v: i64) -> nat {
    choose|c: nat| is_core_number(nodes, base, v, c)
}

/// Whether the graph without the nodes of `base` has a node in its
/// `k`-core.
pub open spec fn has_core<N: NodeBase>(nodes: Map<i64, N>, base: Set<i64>, k: nat) -> bool {
    exists|v: i64| in_core(nodes, base, k, v)
}

/// Whether `d` is the degeneracy of the graph without the nodes of `base`:
/// the largest `k` for which the `k`-core has a node.
pub open spec fn is_degeneracy<N: NodeBase>(nodes: Map<i64, N>, base: Set<i64>, d: nat) -> bool {
    has_core(nodes, base, d) && !has_core(nodes, base, d + 1)
}

/// The degeneracy of the graph without the nodes of `base`.
pub open spec fn degeneracy<N: NodeBase>(nodes: Map<i64, N>, base: Set<i64>) -> nat {
    choose|d: nat| is_degeneracy(nodes, base, d)
}

/// The contour of the graph without the nodes of `base`: its innermost
/// core, the core of its degeneracy.
pub open spec fn contour<N: NodeBase>(nodes: Map<i64, N>, base: Set<i64>) -> Set<i64> {
    Set::new(|v: i64| in_core(nodes, base, degeneracy(nodes, base), v))
}

/// The nodes taken away in the first `t` rounds, each of which takes the
/// contour of what is left.
pub open spec fn peeled<N: NodeBase>(nodes: Map<i64, N>, t: nat) -> Set<i64>
    decreases t,
{
    if t == 0 {
        Set::empty()
    } else {
        peeled(nodes, (t - 1) as nat).union(contour(nodes, peeled(nodes, (t - 1) as nat)))
    }
}

/// How far the core number of `v` falls in round `t`: from what it is
/// before the round to what it is after, which is zero where the round takes
/// `v` away.
pub open spec fn drop_at<N: NodeBase>(nodes: Map<i64, N>, v: i64, t: nat) -> int {
    core_number(nodes, peeled(nodes, t), v) - if contour(nodes, peeled(nodes, t)).contains(v) {
        0
    } else {
        core_number(nodes, peeled(nodes, t + 1), v)
    }
}

/// The first of the rounds up to `t` in which the core number of `v` falls
/// furthest.
pub open spec fn steepest_round<N: NodeBase>(nodes: Map<i64, N>, v: i64, t: nat) -> nat
    decreases t,
{
    if t == 0 {
        0
    } else {
        let before = steepest_round(nodes, v, (t - 1) as nat);
        if drop_at(nodes, v, t) > drop_at(nodes, v, before) {
            t
        } else {
            before
        }
    }
}

/// Whether round `t` takes `v` away.
pub open spec fn leaves_in<N: NodeBase>(nodes: Map<i64, N>, v: i64, t: nat) -> bool {
    !peeled(nodes, t).contains(v) && contour(nodes, peeled(nodes, t)).contains(v)
}

/// Whether `peaks` gives each node its peak number, the degeneracy of what
/// is left in the round that takes the node away, and `mountains` the round
/// in which its core number falls furthest.
pub open spec fn are_peaks<N: NodeBase>(
    nodes: Map<i64, N>,
    peaks: Map<i64, usize>,
    mountains: Map<i64, usize>,
) -> bool {
    &&& forall|v: i64| #[trigger] peaks.contains_key(v) <==> nodes.contains_key(v)
    &&& forall|v: i64| #[trigger] mountains.contains_key(v) <==> nodes.contains_key(v)
    &&& forall|v: i64| #[trigger]
        nodes.contains_key(v) ==> exists|t: nat|
            {
                &&& #[trigger] leaves_in(nodes, v, t)
                &&& peaks[v] == degeneracy(nodes, peeled(nodes, t))
                &&& mountains[v] == steepest_round(nodes, v, t)
            }
}

/// A node of a core lies in every core of a smaller number.
pub proof fn lemma_core_down<N: NodeBase>(nodes: Map<i64, N>, base: Set<i64>, k: nat, j: nat, v: i64)
    requires
        in_core(nodes, base, k, v),
        j <= k,
    ensures
        in_core(nodes, base, j, v),
    decreases k - j,
{
    if j < k {
        lemma_core_nested(nodes, base, (k - 1) as nat, v);
        lemma_core_down(nodes, base, (k - 1) as nat, j, v);
    }
}

/// A node lies in no core of a larger number than its core number.
pub proof fn lemma_core_number_bounds<N: NodeBase>(
    nodes: Map<i64, N>,
    base: Set<i64>,
    v: i64,
    c: nat,
    k: nat,
)
    requires
        is_core_number(nodes, base, v, c),
    ensures
        in_core(nodes, base, k, v) <==> k <= c,
{
    if in_core(nodes, base, k, v) && k > c {
        lemma_core_down(nodes, base, k, c + 1, v);
    }
    if k <= c {
        lemma_core_down(nodes, base, c, k, v);
    }
}

/// A node has one core number.
pub proof fn lemma_core_number_unique<N: NodeBase>(nodes: Map<i64, N>, base: Set<i64>, v: i64, c: nat)
    requires
        is_core_number(nodes, base, v, c),
    ensures
        core_number(nodes, base, v) == c,
{
    let other = core_number(nodes, base, v);
    lemma_core_number_bounds(nodes, base, v, c, other);
    lemma_core_number_bounds(nodes, base, v, c, other + 1);
    lemma_core_number_bounds(nodes, base, v, other, c);
}

/// A graph has one degeneracy.
pub proof fn lemma_degeneracy_unique<N: NodeBase>(nodes: Map<i64, N>, base: Set<i64>, d: nat)
    requires
        is_degeneracy(nodes, base, d),
    ensures
        degeneracy(nodes, base) == d,
{
    let other = degeneracy(nodes, base);
    if other > d {
        let v = choose|v: i64| in_core(nodes, base, other, v);
        lemma_core_down(nodes, base, other, d + 1, v);
    }
    if other < d {
        let v = choose|v: i64| in_core(nodes, base, d, v);
        lemma_core_down(nodes, base, d, other + 1, v);
    }
}

/// Taking nodes away lets no node into a core.
pub proof fn lemma_core_shrinks<N: NodeBase>(
    nodes: Map<i64, N>,
    fewer: Set<i64>,
    more: Set<i64>,
    k: nat,
    v: i64,
)
    requires
        fewer.subset_of(more),
        in_core(nodes, more, k, v),
    ensures
        in_core(nodes, fewer, k, v),
{
    reveal(in_core);
    let inside = choose|inside: Set<i64>| is_dense(nodes, more, inside, k) && inside.contains(v);
    assert(is_dense(nodes, fewer, inside, k));
}

/// Whether the `i`-th identifier names a node that is left.
pub open spec fn is_alive(ids: Seq<NodeId>, removed: Set<i64>, i: int) -> bool {
    0 <= i < ids.len() && !removed.contains(ids[i].id)
}

/// The largest number that `current` gives to a node that is left, and zero
/// where none is left.
pub fn find_degeneracy(ids: &Vec<NodeId>, removed: &HashSet<i64>, current: &HashMap<i64, usize>) -> (d:
    usize)
    requires
        forall|i: int| #[trigger] is_alive(ids@, removed@, i) ==> current@.contains_key(ids@[i].id),
    ensures
        forall|i: int| #[trigger] is_alive(ids@, removed@, i) ==> current@[ids@[i].id] <= d,
        (exists|i: int| is_alive(ids@, removed@, i)) ==> exists|i: int|
            is_alive(ids@, removed@, i) && current@[ids@[i].id] == d,
        (forall|i: int| !is_alive(ids@, removed@, i)) ==> d == 0,
{
    let mut d: usize = 0;
    let mut seen: bool = false;
    let mut j: usize = 0;
    while j < ids.len()
        invariant
            j <= ids.len(),
            forall|i: int| #[trigger] is_alive(ids@, removed@, i) ==> current@.contains_key(ids@[i].id),
            forall|i: int| i < j && #[trigger] is_alive(ids@, removed@, i) ==> current@[ids@[i].id] <= d,
            seen ==> exists|i: int| i < j && is_alive(ids@, removed@, i) && current@[ids@[i].id] == d,
            !seen ==> d == 0 && forall|i: int| i < j ==> !is_alive(ids@, removed@, i),
        decreases ids.len() - j,
    {
        let key: i64 = ids[j].value();
        if !removed.contains(&key) {
            assert(is_alive(ids@, removed@, j as int));
            let c: usize = *current.get(&key).unwrap();
            if !seen || c > d {
                d = c;
                seen = true;
            }
        }
        j += 1;
    }
    d
}

/// The nodes that are removed, with those that are left and have the number
/// `d`.
pub fn take_contour(
    ids: &Vec<NodeId>,
    removed: &HashSet<i64>,
    current: &HashMap<i64, usize>,
    d: usize,
) -> (r: HashSet<i64>)
    requires
        forall|i: int| #[trigger] is_alive(ids@, removed@, i) ==> current@.contains_key(ids@[i].id),
    ensures
        forall|v: i64|
            r@.contains(v) <==> ids@.contains(NodeId { id: v }) && (removed@.contains(v) || current@[v]
                == d),
{
    let mut taken: HashSet<i64> = HashSet::new();
    let mut j: usize = 0;
    while j < ids.len()
        invariant
            j <= ids.len(),
            forall|i: int| #[trigger] is_alive(ids@, removed@, i) ==> current@.contains_key(ids@[i].id),
            forall|v: i64|
                taken@.contains(v) <==> ids@.subrange(0, j as int).contains(NodeId { id: v }) && (
                removed@.contains(v) || current@[v] == d),
        decreases ids.len() - j,
    {
        let key: i64 = ids[j].value();
        let ghost shorter = ids@.subrange(0, j as int);
        let ghost longer = ids@.subrange(0, j + 1);
        proof {
            assert(longer[j as int] == NodeId { id: key });
            assert forall|w: NodeId| longer.contains(w) <==> shorter.contains(w) || w == (NodeId { id: key }) by {
                if shorter.contains(w) {
                    let t = choose|t: int| 0 <= t < shorter.len() && shorter[t] == w;
                    assert(longer[t] == w);
                }
                if longer.contains(w) {
                    let t = choose|t: int| 0 <= t < longer.len() && longer[t] == w;
                    if t < j {
                        assert(shorter[t] == w);
                    }
                }
            }
        }
        if removed.contains(&key) {
            taken.insert(key);
        } else {
            assert(is_alive(ids@, removed@, j as int));
            let c: usize = *current.get(&key).unwrap();
            if c == d {
                taken.insert(key);
            }
        }
        j += 1;
    }
    assert(ids@.subrange(0, ids.len() as int) =~= ids@);
    taken
}

/// How far the number of `v` falls in a round: to zero where it has the
/// number `d` and is taken away, else to what `next` gives it.
pub open spec fn fall(current: Map<i64, usize>, next: Map<i64, usize>, d: usize, v: i64) -> int {
    current[v] - if current[v] == d {
        0int
    } else {
        next[v] as int
    }
}

/// Whether the fall of `v` in this round is the steepest so far.
pub open spec fn is_steeper(
    current: Map<i64, usize>,
    next: Map<i64, usize>,
    d: usize,
    round: usize,
    best: Map<i64, usize>,
    v: i64,
) -> bool {
    round == 0 || fall(current, next, d, v) > best[v]
}

/// Writes down what a round does for each node that is left: a node with
/// the number `d` gets `d` as its peak number, and a node whose number falls
/// further than in any round before gets this round as its mountain.
pub fn record_round(
    ids: &Vec<NodeId>,
    removed: &HashSet<i64>,
    current: &HashMap<i64, usize>,
    next: &HashMap<i64, usize>,
    d: usize,
    round: usize,
    peaks: &mut HashMap<i64, usize>,
    best: &mut HashMap<i64, usize>,
    mountains: &mut HashMap<i64, usize>,
)
    requires
        ids@.no_duplicates(),
        forall|v: i64| #[trigger] is_left(ids@, removed@, v) ==> current@.contains_key(v),
        forall|v: i64| #[trigger]
            is_left(ids@, removed@, v) && current@[v] != d ==> next@.contains_key(v) && next@[v]
                <= current@[v],
        round >= 1 ==> forall|v: i64| #[trigger]
            is_left(ids@, removed@, v) ==> old(best)@.contains_key(v) && old(mountains)@.contains_key(v),
    ensures
        forall|v: i64| #[trigger]
            final(peaks)@.contains_key(v) <==> old(peaks)@.contains_key(v) || (is_left(ids@, removed@, v)
                && current@[v] == d),
        forall|v: i64| #[trigger]
            final(peaks)@.contains_key(v) ==> final(peaks)@[v] == if is_left(ids@, removed@, v)
                && current@[v] == d {
                d
            } else {
                old(peaks)@[v]
            },
        forall|v: i64| #[trigger]
            final(best)@.contains_key(v) <==> old(best)@.contains_key(v) || is_left(ids@, removed@, v),
        forall|v: i64| #[trigger]
            final(mountains)@.contains_key(v) <==> old(mountains)@.contains_key(v) || is_left(
                ids@,
                removed@,
                v,
            ),
        forall|v: i64| #[trigger]
            final(best)@.contains_key(v) ==> final(best)@[v] == if is_left(ids@, removed@, v)
                && is_steeper(current@, next@, d, round, old(best)@, v) {
                fall(current@, next@, d, v) as usize
            } else {
                old(best)@[v]
            },
        forall|v: i64| #[trigger]
            final(mountains)@.contains_key(v) ==> final(mountains)@[v] == if is_left(ids@, removed@, v)
                && is_steeper(current@, next@, d, round, old(best)@, v) {
                round
            } else {
                old(mountains)@[v]
            },
{
    let mut j: usize = 0;
    while j < ids.len()
        invariant
            j <= ids.len(),
            ids@.no_duplicates(),
            forall|v: i64| #[trigger] is_left(ids@, removed@, v) ==> current@.contains_key(v),
            forall|v: i64| #[trigger]
                is_left(ids@, removed@, v) && current@[v] != d ==> next@.contains_key(v) && next@[v]
                    <= current@[v],
            round >= 1 ==> forall|v: i64| #[trigger]
                is_left(ids@, removed@, v) ==> old(best)@.contains_key(v) && old(mountains)@.contains_key(
                    v,
                ),
            forall|v: i64| #[trigger]
                peaks@.contains_key(v) <==> old(peaks)@.contains_key(v) || (is_left(
                    ids@.subrange(0, j as int),
                    removed@,
                    v,
                ) && current@[v] == d),
            forall|v: i64| #[trigger]
                peaks@.contains_key(v) ==> peaks@[v] == if is_left(ids@.subrange(0, j as int), removed@, v)
                    && current@[v] == d {
                    d
                } else {
                    old(peaks)@[v]
                },
            forall|v: i64| #[trigger]
                best@.contains_key(v) <==> old(best)@.contains_key(v) || is_left(
                    ids@.subrange(0, j as int),
                    removed@,
                    v,
                ),
            forall|v: i64| #[trigger]
                mountains@.contains_key(v) <==> old(mountains)@.contains_key(v) || is_left(
                    ids@.subrange(0, j as int),
                    removed@,
                    v,
                ),
            forall|v: i64| #[trigger]
                best@.contains_key(v) ==> best@[v] == if is_left(ids@.subrange(0, j as int), removed@, v)
                    && is_steeper(current@, next@, d, round, old(best)@, v) {
                    fall(current@, next@, d, v) as usize
                } else {
                    old(best)@[v]
                },
            forall|v: i64| #[trigger]
                mountains@.contains_key(v) ==> mountains@[v] == if is_left(
                    ids@.subrange(0, j as int),
                    removed@,
                    v,
                ) && is_steeper(current@, next@, d, round, old(best)@, v) {
                    round
                } else {
                    old(mountains)@[v]
                },
        decreases ids.len() - j,
    {
        let key: i64 = ids[j].value();
        let ghost shorter = ids@.subrange(0, j as int);
        let ghost longer = ids@.subrange(0, j + 1);
        let ghost peaks_before = peaks@;
        let ghost best_before = best@;
        let ghost mountains_before = mountains@;
        proof {
            assert(ids@[j as int] == NodeId { id: key });
            assert(longer[j as int] == NodeId { id: key });
            assert(ids@.contains(NodeId { id: key }));
            assert(!shorter.contains(NodeId { id: key })) by {
                if shorter.contains(NodeId { id: key }) {
                    let t = choose|t: int| 0 <= t < shorter.len() && shorter[t] == (NodeId { id: key });
                    assert(ids@[t] == ids@[j as int]);
                }
            }
            assert forall|v: i64| is_left(longer, removed@, v) <==> is_left(shorter, removed@, v) || (v
                == key && !removed@.contains(key)) by {
                let w = NodeId { id: v };
                if shorter.contains(w) {
                    let t = choose|t: int| 0 <= t < shorter.len() && shorter[t] == w;
                    assert(longer[t] == w);
                }
                if longer.contains(w) {
                    let t = choose|t: int| 0 <= t < longer.len() && longer[t] == w;
                    if t < j {
                        assert(shorter[t] == w);
                    }
                }
            }
        }
        if !removed.contains(&key) {
            assert(is_left(ids@, removed@, key));
            let before: usize = *current.get(&key).unwrap();
            let mut after: usize = 0;
            if before == d {
                peaks.insert(key, d);
            } else {
                after = *next.get(&key).unwrap();
            }
            let drop: usize = before - after;
            let mut steeper: bool = round == 0;
            if !steeper {
                let so_far: usize = *best.get(&key).unwrap();
                steeper = drop > so_far;
            }
            if steeper {
                best.insert(key, drop);
                mountains.insert(key, round);
            }
        }
        proof {
            assert forall|v: i64| #[trigger]
                peaks@.contains_key(v) <==> old(peaks)@.contains_key(v) || (is_left(longer, removed@, v)
                    && current@[v] == d) by {
                assert(peaks_before.contains_key(v) <==> old(peaks)@.contains_key(v) || (is_left(
                    shorter,
                    removed@,
                    v,
                ) && current@[v] == d));
            }
            assert forall|v: i64| #[trigger] peaks@.contains_key(v) implies peaks@[v] == if is_left(
                longer,
                removed@,
                v,
            ) && current@[v] == d {
                d
            } else {
                old(peaks)@[v]
            } by {
                if v != key {
                    assert(peaks_before.contains_key(v));
                } else if peaks_before.contains_key(v) {
                    assert(peaks_before.contains_key(key));
                }
            }
            assert forall|v: i64| #[trigger]
                best@.contains_key(v) <==> old(best)@.contains_key(v) || is_left(longer, removed@, v) by {
                assert(best_before.contains_key(v) <==> old(best)@.contains_key(v) || is_left(
                    shorter,
                    removed@,
                    v,
                ));
                if v == key && !removed@.contains(key) && round >= 1 {
                    assert(is_left(ids@, removed@, key));
                }
            }
            assert forall|v: i64| #[trigger]
                mountains@.contains_key(v) <==> old(mountains)@.contains_key(v) || is_left(
                    longer,
                    removed@,
                    v,
                ) by {
                assert(mountains_before.contains_key(v) <==> old(mountains)@.contains_key(v) || is_left(
                    shorter,
                    removed@,
                    v,
                ));
                if v == key && !removed@.contains(key) && round >= 1 {
                    assert(is_left(ids@, removed@, key));
                }
            }
            assert forall|v: i64| #[trigger] best@.contains_key(v) implies best@[v] == if is_left(
                longer,
                removed@,
                v,
            ) && is_steeper(current@, next@, d, round, old(best)@, v) {
                fall(current@, next@, d, v) as usize
            } else {
                old(best)@[v]
            } by {
                if v != key {
                    assert(best_before.contains_key(v));
                } else if best_before.contains_key(v) {
                    assert(best_before.contains_key(key));
                }
            }
            assert forall|v: i64| #[trigger] mountains@.contains_key(v) implies mountains@[v] == if is_left(
                longer,
                removed@,
                v,
            ) && is_steeper(current@, next@, d, round, old(best)@, v) {
                round
            } else {
                old(mountains)@[v]
            } by {
                if v != key {
                    assert(mountains_before.contains_key(v));
                } else if mountains_before.contains_key(v) {
                    assert(mountains_before.contains_key(key));
                }
            }
        }
        j += 1;
    }
    assert(ids@.subrange(0, ids.len() as int) =~= ids@);
}

/// What holds after `t` rounds: the nodes taken away are removed and have
/// their peak number and their mountain, and each node that is left has its
/// core number in what is left and, as its mountain so far, the round in
/// which its core number fell furthest.
pub open spec fn round_state<N: NodeBase>(
    nodes: Map<i64, N>,
    t: nat,
    removed: Set<i64>,
    current: Map<i64, usize>,
    peaks: Map<i64, usize>,
    best: Map<i64, usize>,
    mountains: Map<i64, usize>,
) -> bool {
    &&& removed == peeled(nodes, t)
    &&& forall|v: i64| removed.contains(v) ==> nodes.contains_key(v)
    &&& are_core_numbers(nodes, removed, current)
    &&& forall|v: i64| #[trigger] peaks.contains_key(v) <==> removed.contains(v)
    &&& forall|v: i64| #[trigger] mountains.contains_key(v) <==> nodes.contains_key(v) && t >= 1
    &&& forall|v: i64| #[trigger] best.contains_key(v) <==> nodes.contains_key(v) && t >= 1
    &&& forall|v: i64| #[trigger]
        removed.contains(v) ==> exists|s: nat|
            {
                &&& s < t
                &&& #[trigger] leaves_in(nodes, v, s)
                &&& peaks[v] == degeneracy(nodes, peeled(nodes, s))
                &&& mountains[v] == steepest_round(nodes, v, s)
            }
    &&& forall|v: i64| #[trigger]
        nodes.contains_key(v) && !removed.contains(v) && t >= 1 ==> mountains[v] == steepest_round(
            nodes,
            v,
            (t - 1) as nat,
        ) && best[v] == drop_at(nodes, v, mountains[v] as nat)
}

/// The largest core number among the nodes that are left is the degeneracy,
/// and the nodes that have it are the contour.
pub proof fn lemma_degeneracy_found<N: NodeBase>(
    nodes: Map<i64, N>,
    ids: Seq<NodeId>,
    base: Set<i64>,
    current: Map<i64, usize>,
    d: usize,
)
    requires
        well_formed(nodes, ids),
        are_core_numbers(nodes, base, current),
        forall|i: int| #[trigger] is_alive(ids, base, i) ==> current[ids[i].id] <= d,
        exists|i: int| is_alive(ids, base, i) && current[ids[i].id] == d,
    ensures
        is_degeneracy(nodes, base, d as nat),
        degeneracy(nodes, base) == d,
        forall|v: i64| #[trigger]
            contour(nodes, base).contains(v) <==> nodes.contains_key(v) && !base.contains(v)
                && current[v] == d,
{
    let top = choose|i: int| is_alive(ids, base, i) && current[ids[i].id] == d;
    let witness = ids[top].id;
    assert(ids.contains(ids[top]));
    assert(nodes.contains_key(ids[top].id));
    assert(current.contains_key(witness));
    let top_number: nat = d as nat;
    assert(in_core(nodes, base, top_number, witness));
    assert forall|v: i64| #[trigger]
        in_core(nodes, base, top_number, v) <==> nodes.contains_key(v) && !base.contains(v)
            && current[v] >= d by {
        lemma_core_of_zero(nodes, base, v);
        if nodes.contains_key(v) && !base.contains(v) {
            assert(current.contains_key(v));
            lemma_core_number_bounds(nodes, base, v, current[v] as nat, top_number);
        }
    }
    assert forall|v: i64| nodes.contains_key(v) && !base.contains(v) implies current[v] <= d by {
        let node = NodeId { id: v };
        assert(nodes.contains_key(node.id));
        let i = choose|i: int| 0 <= i < ids.len() && ids[i] == node;
        assert(is_alive(ids, base, i));
    }
    let above: nat = (d + 1) as nat;
    if has_core(nodes, base, above) {
        let v = choose|v: i64| in_core(nodes, base, above, v);
        lemma_core_of_zero(nodes, base, v);
        assert(current.contains_key(v));
        lemma_core_number_bounds(nodes, base, v, current[v] as nat, above);
    }
    lemma_degeneracy_unique(nodes, base, d as nat);
    assert forall|v: i64| #[trigger]
        contour(nodes, base).contains(v) <==> nodes.contains_key(v) && !base.contains(v) && current[v]
            == d by {
        assert(in_core(nodes, base, top_number, v) <==> nodes.contains_key(v) && !base.contains(v)
            && current[v] >= d);
        if nodes.contains_key(v) && !base.contains(v) {
            assert(current[v] <= d);
        }
    }
}

/// Core numbers do not rise when nodes are taken away.
pub proof fn lemma_numbers_fall<N: NodeBase>(
    nodes: Map<i64, N>,
    fewer: Set<i64>,
    more: Set<i64>,
    current: Map<i64, usize>,
    next: Map<i64, usize>,
    v: i64,
)
    requires
        fewer.subset_of(more),
        are_core_numbers(nodes, fewer, current),
        are_core_numbers(nodes, more, next),
        next.contains_key(v),
    ensures
        current.contains_key(v),
        next[v] <= current[v],
{
    assert(nodes.contains_key(v) && !more.contains(v));
    assert(current.contains_key(v));
    lemma_core_shrinks(nodes, fewer, more, next[v] as nat, v);
    lemma_core_number_bounds(nodes, fewer, v, current[v] as nat, next[v] as nat);
}

/// What a round writes down makes the state of the next round.
pub proof fn lemma_round_step<N: NodeBase>(
    nodes: Map<i64, N>,
    ids: Seq<NodeId>,
    t: nat,
    removed: Set<i64>,
    taken: Set<i64>,
    current: Map<i64, usize>,
    next: Map<i64, usize>,
    d: usize,
    peaks: Map<i64, usize>,
    best: Map<i64, usize>,
    mountains: Map<i64, usize>,
    new_peaks: Map<i64, usize>,
    new_best: Map<i64, usize>,
    new_mountains: Map<i64, usize>,
)
    requires
        well_formed(nodes, ids),
        t <= usize::MAX,
        round_state(nodes, t, removed, current, peaks, best, mountains),
        forall|i: int| #[trigger] is_alive(ids, removed, i) ==> current[ids[i].id] <= d,
        exists|i: int| is_alive(ids, removed, i) && current[ids[i].id] == d,
        forall|v: i64|
            taken.contains(v) <==> ids.contains(NodeId { id: v }) && (removed.contains(v) || current[v]
                == d),
        are_core_numbers(nodes, taken, next),
        forall|v: i64| #[trigger]
            new_peaks.contains_key(v) <==> peaks.contains_key(v) || (is_left(ids, removed, v)
                && current[v] == d),
        forall|v: i64| #[trigger]
            new_peaks.contains_key(v) ==> new_peaks[v] == if is_left(ids, removed, v) && current[v] == d {
                d
            } else {
                peaks[v]
            },
        forall|v: i64| #[trigger] new_best.contains_key(v) <==> best.contains_key(v) || is_left(ids, removed, v),
        forall|v: i64| #[trigger]
            new_mountains.contains_key(v) <==> mountains.contains_key(v) || is_left(ids, removed, v),
        forall|v: i64| #[trigger]
            new_best.contains_key(v) ==> new_best[v] == if is_left(ids, removed, v) && is_steeper(
                current,
                next,
                d,
                t as usize,
                best,
                v,
            ) {
                fall(current, next, d, v) as usize
            } else {
                best[v]
            },
        forall|v: i64| #[trigger]
            new_mountains.contains_key(v) ==> new_mountains[v] == if is_left(ids, removed, v)
                && is_steeper(current, next, d, t as usize, best, v) {
                t as usize
            } else {
                mountains[v]
            },
    ensures
        round_state(nodes, t + 1, taken, next, new_peaks, new_best, new_mountains),
{
    lemma_degeneracy_found(nodes, ids, removed, current, d);
    assert forall|v: i64| is_left(ids, removed, v) <==> nodes.contains_key(v) && !removed.contains(v) by {
        let node = NodeId { id: v };
        assert(ids.contains(node) <==> nodes.contains_key(node.id));
    }
    assert(taken =~= peeled(nodes, t + 1)) by {
        assert forall|v: i64| taken.contains(v) <==> peeled(nodes, t + 1).contains(v) by {
            let node = NodeId { id: v };
            assert(ids.contains(node) <==> nodes.contains_key(node.id));
            assert(contour(nodes, removed).contains(v) <==> nodes.contains_key(v) && !removed.contains(v)
                && current[v] == d);
        }
    }
    assert forall|v: i64| taken.contains(v) implies nodes.contains_key(v) by {
        let node = NodeId { id: v };
        assert(ids.contains(node) <==> nodes.contains_key(node.id));
    }
    assert forall|v: i64| #[trigger] new_peaks.contains_key(v) <==> taken.contains(v) by {
        let node = NodeId { id: v };
        assert(ids.contains(node) <==> nodes.contains_key(node.id));
        assert(peaks.contains_key(v) <==> removed.contains(v));
    }
    assert forall|v: i64| #[trigger] new_mountains.contains_key(v) <==> nodes.contains_key(v) by {
        assert(mountains.contains_key(v) <==> nodes.contains_key(v) && t >= 1);
        if removed.contains(v) {
            let s = choose|s: nat| s < t && #[trigger] leaves_in(nodes, v, s);
        }
    }
    assert forall|v: i64| #[trigger] new_best.contains_key(v) <==> nodes.contains_key(v) by {
        assert(best.contains_key(v) <==> nodes.contains_key(v) && t >= 1);
        if removed.contains(v) {
            let s = choose|s: nat| s < t && #[trigger] leaves_in(nodes, v, s);
        }
    }
    assert forall|v: i64| nodes.contains_key(v) && !removed.contains(v) implies fall(current, next, d, v)
        == drop_at(nodes, v, t) && fall(current, next, d, v) >= 0 by {
        assert(current.contains_key(v));
        lemma_core_number_unique(nodes, removed, v, current[v] as nat);
        if current[v] != d {
            assert(!taken.contains(v));
            assert(next.contains_key(v));
            lemma_core_number_unique(nodes, taken, v, next[v] as nat);
            lemma_numbers_fall(nodes, removed, taken, current, next, v);
        }
    }
    assert forall|v: i64| nodes.contains_key(v) && !removed.contains(v) implies new_mountains[v]
        == steepest_round(nodes, v, t) && new_best[v] == drop_at(nodes, v, new_mountains[v] as nat) by {
        assert(new_mountains.contains_key(v));
        assert(new_best.contains_key(v));
        assert(is_left(ids, removed, v));
        if t >= 1 {
            assert(mountains[v] == steepest_round(nodes, v, (t - 1) as nat));
            assert(best[v] == drop_at(nodes, v, mountains[v] as nat));
        }
    }
    assert forall|v: i64| #[trigger] taken.contains(v) implies exists|s: nat|
        {
            &&& s < t + 1
            &&& #[trigger] leaves_in(nodes, v, s)
            &&& new_peaks[v] == degeneracy(nodes, peeled(nodes, s))
            &&& new_mountains[v] == steepest_round(nodes, v, s)
        } by {
        assert(new_peaks.contains_key(v));
        assert(new_mountains.contains_key(v));
        if removed.contains(v) {
            let s = choose|s: nat|
                {
                    &&& s < t
                    &&& #[trigger] leaves_in(nodes, v, s)
                    &&& peaks[v] == degeneracy(nodes, peeled(nodes, s))
                    &&& mountains[v] == steepest_round(nodes, v, s)
                };
            assert(!is_left(ids, removed, v));
            assert(leaves_in(nodes, v, s));
        } else {
            assert(contour(nodes, removed).contains(v));
            assert(leaves_in(nodes, v, t));
        }
    }
    assert forall|v: i64| #[trigger]
        nodes.contains_key(v) && !taken.contains(v) && t + 1 >= 1 implies new_mountains[v]
            == steepest_round(nodes, v, ((t + 1) - 1) as nat) && new_best[v] == drop_at(
            nodes,
            v,
            new_mountains[v] as nat,
        ) by {
        let node = NodeId { id: v };
        assert(ids.contains(node) <==> nodes.contains_key(node.id));
        assert(!removed.contains(v));
    }
}

/// Whether the group of mountain `m` holds `v`.
pub open spec fn holds(groups: Map<usize, HashSet<i64>>, m: usize, v: i64) -> bool {
    groups.contains_key(m) && groups[m]@.contains(v)
}

/// Whether `groups` holds, under each mountain, the nodes that `mountains`
/// gives it, and no mountain without a node.
pub open spec fn are_groups(mountains: Map<i64, usize>, groups: Map<usize, HashSet<i64>>) -> bool {
    &&& forall|m: usize, v: i64| #[trigger]
        holds(groups, m, v) <==> mountains.contains_key(v) && mountains[v] == m
    &&& forall|m: usize| #[trigger] groups.contains_key(m) ==> exists|v: i64| holds(groups, m, v)
}

/// Gathers the nodes under their mountains.
pub fn group_mountains(ids: &Vec<NodeId>, mountains: &HashMap<i64, usize>) -> (groups: HashMap<
    usize,
    HashSet<i64>,
>)
    requires
        forall|v: i64| #[trigger] mountains@.contains_key(v) <==> ids@.contains(NodeId { id: v }),
    ensures
        are_groups(mountains@, groups@),
{
    let mut groups: HashMap<usize, HashSet<i64>> = HashMap::new();
    let mut j: usize = 0;
    while j < ids.len()
        invariant
            j <= ids.len(),
            forall|v: i64| #[trigger] mountains@.contains_key(v) <==> ids@.contains(NodeId { id: v }),
            forall|m: usize, v: i64| #[trigger]
                holds(groups@, m, v) <==> ids@.subrange(0, j as int).contains(NodeId { id: v })
                    && mountains@[v] == m,
            forall|m: usize| #[trigger] groups@.contains_key(m) ==> exists|v: i64| holds(groups@, m, v),
        decreases ids.len() - j,
    {
        let key: i64 = ids[j].value();
        let ghost shorter = ids@.subrange(0, j as int);
        let ghost longer = ids@.subrange(0, j + 1);
        let ghost before = groups@;
        proof {
            assert(ids@[j as int] == NodeId { id: key });
            assert(ids@.contains(NodeId { id: key }));
            assert(mountains@.contains_key(key));
            assert(longer[j as int] == NodeId { id: key });
            assert forall|w: NodeId| longer.contains(w) <==> shorter.contains(w) || w == (NodeId { id: key }) by {
                if shorter.contains(w) {
                    let t = choose|t: int| 0 <= t < shorter.len() && shorter[t] == w;
                    assert(longer[t] == w);
                }
                if longer.contains(w) {
                    let t = choose|t: int| 0 <= t < longer.len() && longer[t] == w;
                    if t < j {
                        assert(shorter[t] == w);
                    }
                }
            }
        }
        let m: usize = *mountains.get(&key).unwrap();
        let mut group: HashSet<i64> = match groups.remove(&m) {
            Some(found) => found,
            None => HashSet::new(),
        };
        let ghost group_before = group@;
        group.insert(key);
        groups.insert(m, group);
        proof {
            assert forall|x: usize, v: i64| #[trigger]
                holds(groups@, x, v) <==> longer.contains(NodeId { id: v }) && mountains@[v] == x by {
                if x == m {
                    assert(groups@[m]@ == group_before.insert(key));
                    if before.contains_key(m) {
                        assert(group_before == before[m]@);
                        assert(holds(before, m, v) <==> group_before.contains(v));
                    } else {
                        assert(!holds(before, m, v));
                    }
                } else {
                    assert(holds(groups@, x, v) <==> holds(before, x, v));
                }
            }
            assert forall|x: usize| #[trigger] groups@.contains_key(x) implies exists|v: i64|
                holds(groups@, x, v) by {
                if x == m {
                    assert(holds(groups@, m, key));
                } else {
                    assert(before.contains_key(x));
                    let v = choose|v: i64| holds(before, x, v);
                    assert(holds(groups@, x, v));
                }
            }
        }
        j += 1;
    }
    proof {
        assert(ids@.subrange(0, ids.len() as int) =~= ids@);
        assert forall|m: usize, v: i64| #[trigger]
            holds(groups@, m, v) <==> mountains@.contains_key(v) && mountains@[v] == m by {
            assert(mountains@.contains_key(v) <==> ids@.contains(NodeId { id: v }));
        }
    }
    groups
}

/// Whether `peaks` gives each node its peak number and `groups` holds the
/// nodes under their mountains.
pub open spec fn are_peak_groups<N: NodeBase>(
    nodes: Map<i64, N>,
    peaks: Map<i64, usize>,
    groups: Map<usize, HashSet<i64>>,
) -> bool {
    exists|mountains: Map<i64, usize>| #[trigger]
        are_peaks(nodes, peaks, mountains) && are_groups(mountains, groups)
}

/// One more node removed makes a larger set.
pub proof fn lemma_taken_grows(removed: Set<i64>, taken: Set<i64>, all: Set<i64>, w: i64)
    requires
        all.finite(),
        removed.subset_of(taken),
        taken.subset_of(all),
        taken.contains(w),
        !removed.contains(w),
    ensures
        removed.len() < taken.len(),
        taken.len() <= all.len(),
{
    lemma_len_subset(taken, all);
    assert(removed.subset_of(taken.remove(w)));
    lemma_len_subset(removed, taken.remove(w));
}

/// Peak numbers and mountains of graphs without direction.
pub trait KPeaks: Coreness {
    /// The peak number of every node and the mountains. In rounds, the
    /// innermost core of what is left of the graph is taken away; the number
    /// of that core is the peak number of its nodes. The mountain of a node
    /// is the round in which its core number falls furthest, the first of
    /// them where there are several.
    fn get_k_peak_mountain_assignment(&self) -> (r: (HashMap<i64, usize>, HashMap<usize, HashSet<i64>>))
        requires
            self.wf(),
        ensures
            are_peak_groups(self.nodes_view(), r.0@, r.1@),
    {
        let ghost nodes = self.nodes_view();
        let ids: &Vec<NodeId> = self.get_core_ids();
        let n: usize = self.count_nodes();
        proof {
            self.lemma_wf();
            lemma_node_count(nodes, ids@);
        }
        let mut removed: HashSet<i64> = HashSet::new();
        let first = self._get_coreness(&removed);
        let mut current: HashMap<i64, usize> = first.1;
        let mut peaks: HashMap<i64, usize> = HashMap::new();
        let mut best: HashMap<i64, usize> = HashMap::new();
        let mut mountains: HashMap<i64, usize> = HashMap::new();
        let mut round: usize = 0;
        proof {
            assert(removed@ =~= peeled(nodes, 0));
        }
        while removed.len() < n
            invariant
                self.wf(),
                nodes == self.nodes_view(),
                ids@ == self.ids_view(),
                well_formed(nodes, ids@),
                nodes.dom().finite(),
                n == nodes.dom().len(),
                removed@.finite(),
                round <= removed@.len(),
                round_state(nodes, round as nat, removed@, current@, peaks@, best@, mountains@),
            decreases n - removed@.len(),
        {
            proof {
                lemma_alive_exists(nodes, ids@, removed@);
                assert forall|i: int| #[trigger] is_alive(ids@, removed@, i) implies current@.contains_key(
                    ids@[i].id,
                ) by {
                    assert(ids@.contains(ids@[i]));
                    assert(nodes.contains_key(ids@[i].id));
                }
            }
            let d: usize = find_degeneracy(ids, &removed, &current);
            let taken: HashSet<i64> = take_contour(ids, &removed, &current, d);
            let after = self._get_coreness(&taken);
            let next: HashMap<i64, usize> = after.1;
            proof {
                assert forall|v: i64| is_left(ids@, removed@, v) <==> nodes.contains_key(v)
                    && !removed@.contains(v) by {
                    let node = NodeId { id: v };
                    assert(ids@.contains(node) <==> nodes.contains_key(node.id));
                }
                assert(removed@.subset_of(taken@)) by {
                    assert forall|v: i64| removed@.contains(v) implies taken@.contains(v) by {
                        let node = NodeId { id: v };
                        assert(ids@.contains(node) <==> nodes.contains_key(node.id));
                    }
                }
                assert forall|v: i64| #[trigger]
                    is_left(ids@, removed@, v) && current@[v] != d implies next@.contains_key(v) && next@[v]
                        <= current@[v] by {
                    assert(!taken@.contains(v));
                    assert(next@.contains_key(v));
                    lemma_numbers_fall(nodes, removed@, taken@, current@, next@, v);
                }
            }
            let ghost old_peaks = peaks@;
            let ghost old_best = best@;
            let ghost old_mountains = mountains@;
            record_round(
                ids,
                &removed,
                &current,
                &next,
                d,
                round,
                &mut peaks,
                &mut best,
                &mut mountains,
            );
            proof {
                lemma_round_step(
                    nodes,
                    ids@,
                    round as nat,
                    removed@,
                    taken@,
                    current@,
                    next@,
                    d,
                    old_peaks,
                    old_best,
                    old_mountains,
                    peaks@,
                    best@,
                    mountains@,
                );
                let top = choose|i: int| is_alive(ids@, removed@, i) && current@[ids@[i].id] == d;
                let w = ids@[top].id;
                assert(ids@.contains(ids@[top]));
                assert(ids@[top] == NodeId { id: w });
                assert(taken@.subset_of(nodes.dom())) by {
                    assert forall|v: i64| taken@.contains(v) implies nodes.dom().contains(v) by {
                        let node = NodeId { id: v };
                        assert(ids@.contains(node) <==> nodes.contains_key(node.id));
                    }
                }
                lemma_taken_grows(removed@, taken@, nodes.dom(), w);
            }
            removed = taken;
            current = next;
            round += 1;
        }
        proof {
            assert forall|v: i64| #[trigger] mountains@.contains_key(v) <==> ids@.contains(NodeId { id: v }) by {
                let node = NodeId { id: v };
                assert(ids@.contains(node) <==> nodes.contains_key(node.id));
                lemma_all_removed(nodes, removed@, v);
                if nodes.contains_key(v) {
                    let s = choose|s: nat| s < round && #[trigger] leaves_in(nodes, v, s);
                }
            }
        }
        let groups: HashMap<usize, HashSet<i64>> = group_mountains(ids, &mountains);
        proof {
            assert forall|v: i64| #[trigger] peaks@.contains_key(v) <==> nodes.contains_key(v) by {
                lemma_all_removed(nodes, removed@, v);
            }
            assert forall|v: i64| #[trigger] mountains@.contains_key(v) <==> nodes.contains_key(v) by {
                let node = NodeId { id: v };
                assert(ids@.contains(node) <==> nodes.contains_key(node.id));
            }
            assert forall|v: i64| #[trigger] nodes.contains_key(v) implies exists|t: nat|
                {
                    &&& #[trigger] leaves_in(nodes, v, t)
                    &&& peaks@[v] == degeneracy(nodes, peeled(nodes, t))
                    &&& mountains@[v] == steepest_round(nodes, v, t)
                } by {
                lemma_all_removed(nodes, removed@, v);
                let s = choose|s: nat|
                    {
                        &&& s < round
                        &&& #[trigger] leaves_in(nodes, v, s)
                        &&& peaks@[v] == degeneracy(nodes, peeled(nodes, s))
                        &&& mountains@[v] == steepest_round(nodes, v, s)
                    };
                assert(leaves_in(nodes, v, s));
            }
            assert(are_peaks(nodes, peaks@, mountains@) && are_groups(mountains@, groups@));
        }
        (peaks, groups)
    }
}

/// Where fewer nodes are removed than the graph has, a node is left.
pub proof fn lemma_alive_exists<N: NodeBase>(nodes: Map<i64, N>, ids: Seq<NodeId>, removed: Set<i64>)
    requires
        well_formed(nodes, ids),
        nodes.dom().finite(),
        forall|v: i64| removed.contains(v) ==> nodes.contains_key(v),
        removed.len() < nodes.dom().len(),
    ensures
        exists|i: int| is_alive(ids, removed, i),
{
    assert(removed.subset_of(nodes.dom()));
    lemma_len_subset(removed, nodes.dom());
    if forall|v: i64| nodes.dom().contains(v) ==> removed.contains(v) {
        assert(nodes.dom().subset_of(removed));
        lemma_len_subset(nodes.dom(), removed);
    }
    let v = choose|v: i64| nodes.dom().contains(v) && !removed.contains(v);
    let node = NodeId { id: v };
    assert(nodes.contains_key(node.id));
    let i = choose|i: int| 0 <= i < ids.len() && ids[i] == node;
    assert(is_alive(ids, removed, i));
}

/// Where as many nodes are removed as the graph has, every node is.
pub proof fn lemma_all_removed<N: NodeBase>(nodes: Map<i64, N>, removed: Set<i64>, v: i64)
    requires
        nodes.dom().finite(),
        forall|w: i64| removed.contains(w) ==> nodes.contains_key(w),
        removed.len() >= nodes.dom().len(),
    ensures
        removed.contains(v) <==> nodes.contains_key(v),
{
    assert(removed.subset_of(nodes.dom()));
    lemma_len_subset(removed, nodes.dom());
    lemma_subset_equality(removed, nodes.dom());
}

} // verus!
