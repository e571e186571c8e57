//! All shortest paths from a node, from the parents that a search gives.

use vstd::prelude::*;
use vstd::std_specs::iter::IteratorSpec;
use std::collections::HashMap;
use std::collections::HashSet;
use crate::dachshund::algorithms::connected_components::{connected, is_path, linked, standing};
use crate::dachshund::algorithms::shortest_paths::{
    are_shortest_paths, distance, is_distance, is_parent, is_walk, lemma_distance_unique,
    reaches_in, step,
};
use crate::dachshund::graph_base::well_formed;
use crate::dachshund::id_types::NodeId;
use crate::dachshund::node::{append_ids, NodeBase};

verus! {

/// Whether `p`, followed by `v`, leads from `root` to `v` with each node a
/// parent of the next. The chain to `root` itself is the empty one.
pub open spec fn is_chain(parents: Map<i64, HashSet<i64>>, root: NodeId, v: NodeId, p: Seq<NodeId>) -> bool {
    &&& p.push(v)[0] == root
    &&& forall|j: int|
        1 <= j <= p.len() ==> parents.contains_key((#[trigger] p.push(v)[j]).id) && parents[p.push(
            v,
        )[j].id]@.contains(p.push(v)[j - 1].id)
}

/// Whether the distances and parents are laid out in layers around `root`:
/// every node has a distance, `root` alone has distance 0, and the parents
/// of a node are nodes one step nearer to `root`.
pub open spec fn is_layered(dist: Map<i64, Option<usize>>, parents: Map<i64, HashSet<i64>>, root: NodeId) -> bool {
    &&& dist.contains_key(root.id)
    &&& forall|k: i64| #[trigger] dist.contains_key(k) <==> parents.contains_key(k)
    &&& forall|k: i64| #[trigger] dist.contains_key(k) ==> dist[k] is Some
    &&& forall|k: i64| #[trigger] dist.contains_key(k) ==> (dist[k] == Some(0usize) <==> k == root.id)
    &&& forall|k: i64, u: i64|
        parents.contains_key(k) && #[trigger] parents[k]@.contains(u) ==> dist.contains_key(u)
            && dist[u].unwrap() + 1 == dist[k].unwrap()
}

/// The paths as sequences.
pub open spec fn path_lists(paths: Seq<Vec<NodeId>>) -> Seq<Seq<NodeId>> {
    Seq::new(paths.len(), |i: int| paths[i]@)
}

/// Each of the paths with `u` behind it.
pub open spec fn extended(paths: Seq<Seq<NodeId>>, u: NodeId) -> Seq<Seq<NodeId>> {
    Seq::new(paths.len(), |i: int| paths[i].push(u))
}

/// Whether `listed` holds every chain from `root` to `v`, each once.
pub open spec fn holds_chains(
    parents: Map<i64, HashSet<i64>>,
    root: NodeId,
    v: NodeId,
    listed: Seq<Seq<NodeId>>,
) -> bool {
    &&& listed.no_duplicates()
    &&& forall|p: Seq<NodeId>| #[trigger] listed.contains(p) <==> is_chain(parents, root, v, p)
}

/// Whether `paths` holds, for every node that has a distance, every chain
/// from `root` to it, each once.
pub open spec fn are_all_chains(
    dist: Map<i64, Option<usize>>,
    parents: Map<i64, HashSet<i64>>,
    root: NodeId,
    paths: Map<i64, Vec<Vec<NodeId>>>,
) -> bool {
    &&& forall|k: i64| #[trigger] paths.contains_key(k) <==> dist.contains_key(k)
    &&& forall|k: i64| #[trigger]
        paths.contains_key(k) ==> holds_chains(parents, root, NodeId { id: k }, path_lists(paths[k]@))
}

/// Whether `paths` holds the chains of the nodes nearer to `root` than
/// `bound`, and of no others.
pub open spec fn filled_below(
    dist: Map<i64, Option<usize>>,
    parents: Map<i64, HashSet<i64>>,
    root: NodeId,
    paths: Map<i64, Vec<Vec<NodeId>>>,
    bound: int,
) -> bool {
    &&& forall|k: i64| #[trigger]
        paths.contains_key(k) <==> dist.contains_key(k) && dist[k].unwrap() < bound
    &&& forall|k: i64| #[trigger]
        paths.contains_key(k) ==> holds_chains(parents, root, NodeId { id: k }, path_lists(paths[k]@))
}

/// Whether a path leads from `source` to every node.
pub open spec fn all_reached<N: NodeBase>(nodes: Map<i64, N>, source: NodeId) -> bool {
    forall|k: i64| #[trigger]
        nodes.contains_key(k) ==> connected(
            nodes,
            Set::<i64>::empty(),
            Set::<u128>::empty(),
            source,
            NodeId { id: k },
        )
}

/// Whether `paths` holds, for every node, every shortest walk from `source`
/// to it, each once and without the node itself at its end.
pub open spec fn are_shortest_walks<N: NodeBase>(
    nodes: Map<i64, N>,
    source: NodeId,
    paths: Map<i64, Vec<Vec<NodeId>>>,
) -> bool {
    &&& forall|k: i64| #[trigger] paths.contains_key(k) <==> nodes.contains_key(k)
    &&& forall|k: i64| #[trigger] paths.contains_key(k) ==> path_lists(paths[k]@).no_duplicates()
    &&& forall|k: i64, p: Seq<NodeId>|
        paths.contains_key(k) ==> (#[trigger] path_lists(paths[k]@).contains(p) <==> is_walk(
            nodes,
            source,
            NodeId { id: k },
            distance(nodes, source, NodeId { id: k }),
            p.push(NodeId { id: k }),
        ))
}

/// Whether `u` is among the first `upto` entries of `s`.
pub open spec fn among(s: Seq<i64>, upto: int, u: i64) -> bool {
    exists|t: int| 0 <= t < upto && s[t] == u
}

/// A chain to a node other than the root comes through a parent of the
/// node, and what leads to that parent is a chain.
pub proof fn lemma_chain_split(parents: Map<i64, HashSet<i64>>, root: NodeId, v: NodeId, p: Seq<NodeId>)
    requires
        is_chain(parents, root, v, p),
        v != root,
    ensures
        p.len() > 0,
        parents.contains_key(v.id),
        parents[v.id]@.contains(p.last().id),
        is_chain(parents, root, p.last(), p.drop_last()),
{
    let q = p.push(v);
    assert(q[0] == root);
    if p.len() == 0 {
        assert(q[0] == v);
    }
    assert(q[p.len() as int] == v);
    assert(q[p.len() - 1] == p.last());
    let shorter = p.drop_last().push(p.last());
    assert(shorter =~= p);
    assert forall|j: int| 1 <= j <= p.drop_last().len() implies parents.contains_key(
        (#[trigger] shorter[j]).id,
    ) && parents[shorter[j].id]@.contains(shorter[j - 1].id) by {
        assert(q[j] == shorter[j]);
        assert(q[j - 1] == shorter[j - 1]);
    }
}

/// A chain to a parent of a node, with the parent behind it, is a chain to
/// the node.
pub proof fn lemma_chain_extend(
    parents: Map<i64, HashSet<i64>>,
    root: NodeId,
    u: NodeId,
    v: NodeId,
    p: Seq<NodeId>,
)
    requires
        is_chain(parents, root, u, p),
        parents.contains_key(v.id),
        parents[v.id]@.contains(u.id),
    ensures
        is_chain(parents, root, v, p.push(u)),
{
    let q = p.push(u);
    let longer = q.push(v);
    assert(longer[0] == q[0]);
    assert forall|j: int| 1 <= j <= q.len() implies parents.contains_key((#[trigger] longer[j]).id)
        && parents[longer[j].id]@.contains(longer[j - 1].id) by {
        if j < q.len() {
            assert(longer[j] == q[j]);
            assert(longer[j - 1] == q[j - 1]);
        } else {
            assert(longer[j] == v);
            assert(longer[j - 1] == u);
        }
    }
}

/// The empty chain, and no other, leads to the root of layers.
pub proof fn lemma_chain_to_root(
    dist: Map<i64, Option<usize>>,
    parents: Map<i64, HashSet<i64>>,
    root: NodeId,
    listed: Seq<Seq<NodeId>>,
)
    requires
        is_layered(dist, parents, root),
        listed == seq![Seq::<NodeId>::empty()],
    ensures
        holds_chains(parents, root, root, listed),
{
    let none = Seq::<NodeId>::empty();
    assert(listed[0] == none);
    assert(is_chain(parents, root, root, none));
    assert forall|p: Seq<NodeId>| is_chain(parents, root, root, p) implies #[trigger] listed.contains(p) by {
        if p.len() > 0 {
            let q = p.push(root);
            assert(q[p.len() as int] == root);
            assert(parents[root.id]@.contains(q[p.len() - 1].id));
            assert(dist[q[p.len() - 1].id].unwrap() + 1 == dist[root.id].unwrap());
        }
        assert(p =~= none);
    }
}

/// Where a walk leads to a node, the node has a distance, which is no more
/// than the length of the walk.
pub proof fn lemma_distance_exists<N: NodeBase>(nodes: Map<i64, N>, s: NodeId, v: NodeId, d: nat)
    requires
        reaches_in(nodes, s, v, d),
    ensures
        is_distance(nodes, s, v, distance(nodes, s, v)),
        distance(nodes, s, v) <= d,
    decreases d,
{
    if forall|less: nat| less < d ==> !reaches_in(nodes, s, v, less) {
        assert(is_distance(nodes, s, v, d));
        lemma_distance_unique(nodes, s, v, d);
    } else {
        let less = choose|less: nat| less < d && reaches_in(nodes, s, v, less);
        lemma_distance_exists(nodes, s, v, less);
    }
}

/// A node that a path leads to has a distance.
pub proof fn lemma_connected_has_distance<N: NodeBase>(nodes: Map<i64, N>, s: NodeId, v: NodeId)
    requires
        connected(nodes, Set::<i64>::empty(), Set::<u128>::empty(), s, v),
    ensures
        is_distance(nodes, s, v, distance(nodes, s, v)),
{
    let p = choose|p: Seq<NodeId>|
        is_path(nodes, Set::<i64>::empty(), Set::<u128>::empty(), p) && p[0] == s && p.last() == v;
    let d = (p.len() - 1) as nat;
    assert(is_walk(nodes, s, v, d, p));
    lemma_distance_exists(nodes, s, v, d);
}

/// The front of a walk is a walk to the node where it is cut.
pub proof fn lemma_walk_front<N: NodeBase>(nodes: Map<i64, N>, s: NodeId, v: NodeId, d: nat, q: Seq<NodeId>, i: int)
    requires
        is_walk(nodes, s, v, d, q),
        0 <= i <= d,
    ensures
        is_walk(nodes, s, q[i], i as nat, q.subrange(0, i + 1)),
{
    let front = q.subrange(0, i + 1);
    assert forall|x: int| 0 <= x < front.len() - 1 implies linked(
        nodes,
        Set::<i64>::empty(),
        Set::<u128>::empty(),
        #[trigger] front[x],
        front[x + 1],
    ) by {
        assert(linked(nodes, Set::<i64>::empty(), Set::<u128>::empty(), q[x], q[x + 1]));
    }
}

/// The back of a walk is a walk from the node where it is cut.
pub proof fn lemma_walk_back<N: NodeBase>(nodes: Map<i64, N>, s: NodeId, v: NodeId, d: nat, q: Seq<NodeId>, i: int)
    requires
        is_walk(nodes, s, v, d, q),
        0 <= i <= d,
    ensures
        is_walk(nodes, q[i], v, (d - i) as nat, q.subrange(i, q.len() as int)),
{
    let back = q.subrange(i, q.len() as int);
    assert forall|x: int| 0 <= x < back.len() - 1 implies linked(
        nodes,
        Set::<i64>::empty(),
        Set::<u128>::empty(),
        #[trigger] back[x],
        back[x + 1],
    ) by {
        assert(linked(nodes, Set::<i64>::empty(), Set::<u128>::empty(), q[i + x], q[i + x + 1]));
    }
    if i > 0 {
        assert(linked(nodes, Set::<i64>::empty(), Set::<u128>::empty(), q[i - 1], q[i - 1 + 1]));
    }
}

/// A walk to a node and a walk on from it make a walk.
pub proof fn lemma_walk_join<N: NodeBase>(
    nodes: Map<i64, N>,
    s: NodeId,
    u: NodeId,
    v: NodeId,
    a: nat,
    b: nat,
    first: Seq<NodeId>,
    second: Seq<NodeId>,
)
    requires
        is_walk(nodes, s, u, a, first),
        is_walk(nodes, u, v, b, second),
    ensures
        is_walk(nodes, s, v, a + b, first + second.subrange(1, second.len() as int)),
{
    let rest = second.subrange(1, second.len() as int);
    let whole = first + rest;
    assert forall|x: int| 0 <= x < whole.len() - 1 implies linked(
        nodes,
        Set::<i64>::empty(),
        Set::<u128>::empty(),
        #[trigger] whole[x],
        whole[x + 1],
    ) by {
        if x < a {
            assert(linked(nodes, Set::<i64>::empty(), Set::<u128>::empty(), first[x], first[x + 1]));
        } else {
            assert(whole[x] == second[x - a]);
            assert(whole[x + 1] == second[x - a + 1]);
            assert(linked(
                nodes,
                Set::<i64>::empty(),
                Set::<u128>::empty(),
                second[x - a],
                second[x - a + 1],
            ));
        }
    }
    if b == 0 {
        assert(whole =~= first);
    } else {
        assert(whole.last() == second.last());
    }
}

/// On a shortest walk every node is as far from the start as its place in
/// the walk.
pub proof fn lemma_shortest_walk_places<N: NodeBase>(
    nodes: Map<i64, N>,
    s: NodeId,
    v: NodeId,
    q: Seq<NodeId>,
    i: int,
)
    requires
        is_distance(nodes, s, v, distance(nodes, s, v)),
        is_walk(nodes, s, v, distance(nodes, s, v), q),
        0 <= i < q.len(),
    ensures
        is_distance(nodes, s, q[i], i as nat),
        distance(nodes, s, q[i]) == i,
{
    let d = distance(nodes, s, v);
    lemma_walk_front(nodes, s, v, d, q, i);
    assert(reaches_in(nodes, s, q[i], i as nat));
    assert forall|less: nat| less < i implies !reaches_in(nodes, s, q[i], less) by {
        if reaches_in(nodes, s, q[i], less) {
            let w = choose|w: Seq<NodeId>| is_walk(nodes, s, q[i], less, w);
            lemma_walk_back(nodes, s, v, d, q, i);
            lemma_walk_join(nodes, s, q[i], v, less, (d - i) as nat, w, q.subrange(i, q.len() as int));
            assert(reaches_in(nodes, s, v, (less + d - i) as nat));
        }
    }
    lemma_distance_unique(nodes, s, q[i], i as nat);
}

/// The start alone is at distance 0.
pub proof fn lemma_distance_zero<N: NodeBase>(nodes: Map<i64, N>, s: NodeId, v: NodeId)
    requires
        nodes.contains_key(s.id),
    ensures
        distance(nodes, s, s) == 0,
        connected(nodes, Set::<i64>::empty(), Set::<u128>::empty(), s, v) && distance(nodes, s, v) == 0
            ==> v == s,
{
    let only = seq![s];
    assert(is_walk(nodes, s, s, 0, only));
    assert(is_distance(nodes, s, s, 0));
    lemma_distance_unique(nodes, s, s, 0);
    if connected(nodes, Set::<i64>::empty(), Set::<u128>::empty(), s, v) && distance(nodes, s, v) == 0 {
        lemma_connected_has_distance(nodes, s, v);
        let w = choose|w: Seq<NodeId>| is_walk(nodes, s, v, 0, w);
        assert(w[0] == s && w.last() == v);
    }
}

/// The distances and parents of a search in a graph in which a path leads
/// from the source to every node are laid out in layers.
pub proof fn lemma_shortest_paths_are_layered<N: NodeBase>(
    nodes: Map<i64, N>,
    ids: Seq<NodeId>,
    source: NodeId,
    dist: Map<i64, Option<usize>>,
    parents: Map<i64, HashSet<i64>>,
)
    requires
        well_formed(nodes, ids),
        nodes.contains_key(source.id),
        are_shortest_paths(nodes, source, ids, dist, parents),
        forall|k: i64| #[trigger]
            nodes.contains_key(k) ==> connected(
                nodes,
                Set::<i64>::empty(),
                Set::<u128>::empty(),
                source,
                NodeId { id: k },
            ),
    ensures
        is_layered(dist, parents, source),
{
    let none = Set::<i64>::empty();
    let cut = Set::<u128>::empty();
    assert forall|k: i64| #[trigger] dist.contains_key(k) <==> nodes.contains_key(k) by {
        let n = NodeId { id: k };
        assert(ids.contains(n) <==> nodes.contains_key(n.id));
    }
    assert(source == NodeId { id: source.id });
    assert forall|k: i64| #[trigger] dist.contains_key(k) implies dist[k] is Some && (dist[k] == Some(
        0usize,
    ) <==> k == source.id) by {
        assert(nodes.contains_key(k));
        lemma_distance_zero(nodes, source, NodeId { id: k });
    }
    assert forall|k: i64, u: i64| parents.contains_key(k) && #[trigger] parents[k]@.contains(
        u,
    ) implies dist.contains_key(u) && dist[u].unwrap() + 1 == dist[k].unwrap() by {
        assert(is_parent(nodes, source, NodeId { id: u }, NodeId { id: k }));
        assert(standing(nodes, none, NodeId { id: u }));
        assert(nodes.contains_key(u));
        assert(dist.contains_key(k));
    }
}

/// The chains that the parents of a search from `source` make are the
/// shortest walks: `p` is a chain to `v` exactly where `p`, followed by `v`,
/// is a walk from `source` to `v` of as many steps as the distance.
pub proof fn lemma_chains_are_shortest_walks<N: NodeBase>(
    nodes: Map<i64, N>,
    ids: Seq<NodeId>,
    source: NodeId,
    dist: Map<i64, Option<usize>>,
    parents: Map<i64, HashSet<i64>>,
    v: NodeId,
    p: Seq<NodeId>,
)
    requires
        well_formed(nodes, ids),
        nodes.contains_key(source.id),
        are_shortest_paths(nodes, source, ids, dist, parents),
    ensures
        is_chain(parents, source, v, p) <==> is_walk(nodes, source, v, distance(nodes, source, v), p.push(v)),
{
    let none = Set::<i64>::empty();
    let cut = Set::<u128>::empty();
    let q = p.push(v);
    lemma_distance_zero(nodes, source, v);
    if is_chain(parents, source, v, p) {
        lemma_chain_places(nodes, ids, source, dist, parents, v, p, p.len() as int);
        assert(q[p.len() as int] == v);
        assert forall|x: int| 0 <= x < q.len() - 1 implies linked(nodes, none, cut, #[trigger] q[x], q[x + 1]) by {
            lemma_chain_places(nodes, ids, source, dist, parents, v, p, x + 1);
        }
        assert(q[0] == source);
    }
    if is_walk(nodes, source, v, distance(nodes, source, v), q) {
        assert(connected(nodes, none, cut, source, v));
        lemma_connected_has_distance(nodes, source, v);
        assert forall|j: int| 1 <= j <= p.len() implies parents.contains_key((#[trigger] q[j]).id)
            && parents[q[j].id]@.contains(q[j - 1].id) by {
            let d = distance(nodes, source, v);
            lemma_shortest_walk_places(nodes, source, v, q, j);
            lemma_shortest_walk_places(nodes, source, v, q, j - 1);
            lemma_walk_front(nodes, source, v, d, q, j);
            lemma_walk_front(nodes, source, v, d, q, j - 1);
            let a = q.subrange(0, j + 1);
            let b = q.subrange(0, j);
            assert(is_path(nodes, none, cut, a) && a[0] == source && a.last() == q[j]);
            assert(is_path(nodes, none, cut, b) && b[0] == source && b.last() == q[j - 1]);
            assert(linked(nodes, none, cut, q[j - 1], q[j - 1 + 1]));
            assert(q[j] == NodeId { id: q[j].id });
            assert(q[j - 1] == NodeId { id: q[j - 1].id });
            assert(is_parent(nodes, source, q[j - 1], q[j]));
            assert(ids.contains(q[j]) <==> nodes.contains_key(q[j].id));
        }
    }
}

/// On a chain every node is as far from the source as its place in the
/// chain, and each is joined to the one before it.
pub proof fn lemma_chain_places<N: NodeBase>(
    nodes: Map<i64, N>,
    ids: Seq<NodeId>,
    source: NodeId,
    dist: Map<i64, Option<usize>>,
    parents: Map<i64, HashSet<i64>>,
    v: NodeId,
    p: Seq<NodeId>,
    j: int,
)
    requires
        well_formed(nodes, ids),
        nodes.contains_key(source.id),
        are_shortest_paths(nodes, source, ids, dist, parents),
        is_chain(parents, source, v, p),
        0 <= j <= p.len(),
    ensures
        distance(nodes, source, p.push(v)[j]) == j,
        standing(nodes, Set::<i64>::empty(), p.push(v)[j]),
        j > 0 ==> linked(
            nodes,
            Set::<i64>::empty(),
            Set::<u128>::empty(),
            p.push(v)[j - 1],
            p.push(v)[j],
        ),
    decreases j,
{
    let q = p.push(v);
    if j == 0 {
        lemma_distance_zero(nodes, source, source);
    } else {
        lemma_chain_places(nodes, ids, source, dist, parents, v, p, j - 1);
        assert(parents.contains_key(q[j].id) && parents[q[j].id]@.contains(q[j - 1].id));
        assert(q[j] == NodeId { id: q[j].id });
        assert(q[j - 1] == NodeId { id: q[j - 1].id });
        assert(is_parent(nodes, source, q[j - 1], q[j]));
    }
}

/// The members of the set, each once.
pub fn set_members(s: &HashSet<i64>) -> (r: Vec<i64>)
    ensures
        r@.no_duplicates(),
        forall|k: i64| r@.contains(k) <==> s@.contains(k),
{
    let mut members: Vec<i64> = Vec::new();
    let ghost all: Seq<i64> = s.iter().remaining().unref();
    for key in it: s.iter()
        invariant
            members@.len() == it.index(),
            it.seq().unref() == all,
            all.to_set() == s@,
            all.no_duplicates(),
            forall|j: int| 0 <= j < members@.len() ==> members@[j] == all[j],
    {
        members.push(*key);
    }
    assert(members@ =~= all);
    assert forall|k: i64| members@.contains(k) <==> s@.contains(k) by {
        assert(all.to_set().contains(k) <==> all.contains(k));
    }
    members
}

/// The nodes that have a distance, each once.
pub fn distance_keys(dist: &HashMap<i64, Option<usize>>) -> (r: Vec<i64>)
    ensures
        r@.no_duplicates(),
        forall|k: i64| r@.contains(k) <==> dist@.contains_key(k),
{
    let mut keys: Vec<i64> = Vec::new();
    let ghost all: Seq<i64> = dist.keys().remaining().unref();
    for key in it: dist.keys()
        invariant
            keys@.len() == it.index(),
            it.seq().unref() == all,
            all.to_set() == dist@.dom(),
            all.no_duplicates(),
            forall|j: int| 0 <= j < keys@.len() ==> keys@[j] == all[j],
    {
        keys.push(*key);
    }
    assert(keys@ =~= all);
    assert forall|k: i64| keys@.contains(k) <==> dist@.contains_key(k) by {
        assert(all.to_set().contains(k) <==> all.contains(k));
    }
    keys
}

/// The largest of the distances.
pub fn largest_distance(dist: &HashMap<i64, Option<usize>>, keys: &Vec<i64>) -> (r: usize)
    requires
        forall|k: i64| keys@.contains(k) <==> dist@.contains_key(k),
    ensures
        forall|k: i64| #[trigger] dist@.contains_key(k) && dist@[k] is Some ==> dist@[k].unwrap() <= r,
{
    let mut largest: usize = 0;
    let mut i: usize = 0;
    while i < keys.len()
        invariant
            i <= keys.len(),
            forall|k: i64| keys@.contains(k) <==> dist@.contains_key(k),
            forall|j: int|
                0 <= j < i && dist@[#[trigger] keys@[j]] is Some ==> dist@[keys@[j]].unwrap() <= largest,
        decreases keys.len() - i,
    {
        assert(keys@.contains(keys@[i as int]));
        match dist.get(&keys[i]) {
            Some(Some(d)) => {
                if *d > largest {
                    largest = *d;
                }
            },
            _ => {},
        }
        i += 1;
    }
    assert forall|k: i64| #[trigger] dist@.contains_key(k) && dist@[k] is Some implies dist@[k].unwrap()
        <= largest by {
        assert(keys@.contains(k));
        let j = choose|j: int| 0 <= j < keys@.len() && keys@[j] == k;
        assert(dist@[keys@[j]] is Some);
    }
    largest
}

/// Puts behind `list` each path of `from` with `u` behind it.
pub fn extend_paths(list: &mut Vec<Vec<NodeId>>, from: &Vec<Vec<NodeId>>, u: NodeId)
    ensures
        path_lists(final(list)@) == path_lists(old(list)@) + extended(path_lists(from@), u),
{
    let ghost start = path_lists(list@);
    let ghost added = extended(path_lists(from@), u);
    let mut j: usize = 0;
    assert(path_lists(list@) =~= start + added.subrange(0, 0));
    while j < from.len()
        invariant
            j <= from.len(),
            added == extended(path_lists(from@), u),
            path_lists(list@) == start + added.subrange(0, j as int),
        decreases from.len() - j,
    {
        let mut path: Vec<NodeId> = Vec::new();
        append_ids(&mut path, &from[j]);
        path.push(u);
        let ghost before = path_lists(list@);
        list.push(path);
        proof {
            assert(path@ =~= from@[j as int]@.push(u));
            assert(added[j as int] == path_lists(from@)[j as int].push(u));
            assert(path_lists(list@) =~= before.push(path@));
            assert(added.subrange(0, j + 1) =~= added.subrange(0, j as int).push(added[j as int]));
            assert(path_lists(list@) =~= start + added.subrange(0, j + 1));
        }
        j += 1;
    }
    assert(added.subrange(0, from.len() as int) =~= added);
}

/// Every chain from `root` to `v`, each once, from the chains to the
/// parents of `v`.
pub fn chains_through(
    parents: &HashMap<i64, HashSet<i64>>,
    paths: &HashMap<i64, Vec<Vec<NodeId>>>,
    root: NodeId,
    v: NodeId,
) -> (r: Vec<Vec<NodeId>>)
    requires
        v != root,
        parents@.contains_key(v.id),
        forall|u: i64| #[trigger]
            parents@[v.id]@.contains(u) ==> paths@.contains_key(u) && holds_chains(
                parents@,
                root,
                NodeId { id: u },
                path_lists(paths@[u]@),
            ),
    ensures
        holds_chains(parents@, root, v, path_lists(r@)),
{
    let before: Vec<i64> = set_members(parents.get(&v.id).unwrap());
    let mut list: Vec<Vec<NodeId>> = Vec::new();
    let mut i: usize = 0;
    while i < before.len()
        invariant
            i <= before.len(),
            parents@.contains_key(v.id),
            before@.no_duplicates(),
            forall|u: i64| before@.contains(u) <==> parents@[v.id]@.contains(u),
            forall|u: i64| #[trigger]
                parents@[v.id]@.contains(u) ==> paths@.contains_key(u) && holds_chains(
                    parents@,
                    root,
                    NodeId { id: u },
                    path_lists(paths@[u]@),
                ),
            path_lists(list@).no_duplicates(),
            forall|p: Seq<NodeId>| #[trigger]
                path_lists(list@).contains(p) <==> p.len() > 0 && among(before@, i as int, p.last().id)
                    && is_chain(parents@, root, p.last(), p.drop_last()),
        decreases before.len() - i,
    {
        let u: NodeId = NodeId { id: before[i] };
        assert(before@.contains(before@[i as int]));
        assert(parents@[v.id]@.contains(u.id));
        let from: &Vec<Vec<NodeId>> = paths.get(&u.id).unwrap();
        let ghost old_list = path_lists(list@);
        let ghost given = path_lists(from@);
        let ghost added = extended(given, u);
        extend_paths(&mut list, from, u);
        proof {
            let new_list = path_lists(list@);
            assert(new_list == old_list + added);
            assert(holds_chains(parents@, root, u, given));
            assert forall|a: int, b: int| 0 <= a < b < new_list.len() implies new_list[a] != new_list[b] by {
                if b < old_list.len() {
                } else if a < old_list.len() {
                    assert(old_list.contains(new_list[a]));
                    let t = choose|t: int| 0 <= t < i && before@[t] == new_list[a].last().id;
                    assert(new_list[b] == given[b - old_list.len()].push(u));
                    assert(new_list[b].last() == u);
                } else {
                    let x = a - old_list.len();
                    let y = b - old_list.len();
                    assert(new_list[a] == given[x].push(u));
                    assert(new_list[b] == given[y].push(u));
                    assert(given[x].push(u).drop_last() =~= given[x]);
                    assert(given[y].push(u).drop_last() =~= given[y]);
                    assert(given[x] != given[y]);
                }
            }
            assert forall|p: Seq<NodeId>| #[trigger]
                new_list.contains(p) <==> p.len() > 0 && among(before@, i + 1, p.last().id) && is_chain(
                    parents@,
                    root,
                    p.last(),
                    p.drop_last(),
                ) by {
                if new_list.contains(p) {
                    let at = choose|at: int| 0 <= at < new_list.len() && new_list[at] == p;
                    if at < old_list.len() {
                        assert(old_list[at] == p);
                        assert(old_list.contains(p));
                        let t = choose|t: int| 0 <= t < i && before@[t] == p.last().id;
                        assert(0 <= t < i + 1 && before@[t] == p.last().id);
                    } else {
                        let x = at - old_list.len();
                        assert(p == given[x].push(u));
                        assert(p.drop_last() =~= given[x]);
                        assert(given.contains(given[x]));
                        assert(p.last() == u);
                        assert(0 <= i < i + 1 && before@[i as int] == p.last().id);
                    }
                }
                if p.len() > 0 && among(before@, i + 1, p.last().id) && is_chain(
                    parents@,
                    root,
                    p.last(),
                    p.drop_last(),
                ) {
                    let t = choose|t: int| 0 <= t < i + 1 && before@[t] == p.last().id;
                    if t < i {
                        assert(among(before@, i as int, p.last().id));
                        assert(old_list.contains(p));
                        let at = choose|at: int| 0 <= at < old_list.len() && old_list[at] == p;
                        assert(new_list[at] == p);
                    } else {
                        assert(p.last() == u);
                        assert(given.contains(p.drop_last()));
                        let x = choose|x: int| 0 <= x < given.len() && given[x] == p.drop_last();
                        assert(added[x] == p.drop_last().push(u));
                        assert(p.drop_last().push(u) =~= p);
                        assert(new_list[old_list.len() + x] == p);
                    }
                }
            }
        }
        i += 1;
    }
    proof {
        let listed = path_lists(list@);
        assert forall|p: Seq<NodeId>| #[trigger] listed.contains(p) <==> is_chain(parents@, root, v, p) by {
            if listed.contains(p) {
                let t = choose|t: int| 0 <= t < i && before@[t] == p.last().id;
                assert(before@.contains(p.last().id));
                lemma_chain_extend(parents@, root, p.last(), v, p.drop_last());
                assert(p.drop_last().push(p.last()) =~= p);
            }
            if is_chain(parents@, root, v, p) {
                lemma_chain_split(parents@, root, v, p);
                assert(before@.contains(p.last().id));
                let t = choose|t: int| 0 <= t < before@.len() && before@[t] == p.last().id;
                assert(among(before@, i as int, p.last().id));
            }
        }
    }
    list
}

/// Adds to `paths` the chains of the nodes at distance `level`.
pub fn fill_level(
    dist: &HashMap<i64, Option<usize>>,
    parents: &HashMap<i64, HashSet<i64>>,
    root: NodeId,
    keys: &Vec<i64>,
    paths: &mut HashMap<i64, Vec<Vec<NodeId>>>,
    level: usize,
)
    requires
        is_layered(dist@, parents@, root),
        keys@.no_duplicates(),
        forall|k: i64| keys@.contains(k) <==> dist@.contains_key(k),
        filled_below(dist@, parents@, root, old(paths)@, level as int),
    ensures
        filled_below(dist@, parents@, root, final(paths)@, level + 1),
{
    let mut i: usize = 0;
    while i < keys.len()
        invariant
            i <= keys.len(),
            is_layered(dist@, parents@, root),
            keys@.no_duplicates(),
            forall|k: i64| keys@.contains(k) <==> dist@.contains_key(k),
            forall|k: i64| #[trigger]
                paths@.contains_key(k) <==> dist@.contains_key(k) && (dist@[k].unwrap() < level || (
                dist@[k].unwrap() == level && among(keys@, i as int, k))),
            forall|k: i64| #[trigger]
                paths@.contains_key(k) ==> holds_chains(
                    parents@,
                    root,
                    NodeId { id: k },
                    path_lists(paths@[k]@),
                ),
        decreases keys.len() - i,
    {
        let k: i64 = keys[i];
        let ghost before = paths@;
        assert(keys@.contains(keys@[i as int]));
        let here: bool = match dist.get(&k) {
            Some(Some(d)) => *d == level,
            _ => false,
        };
        if here {
            let v: NodeId = NodeId { id: k };
            let list: Vec<Vec<NodeId>> = if k == root.id {
                let mut only: Vec<Vec<NodeId>> = Vec::new();
                only.push(Vec::new());
                proof {
                    assert(path_lists(only@) =~= seq![Seq::<NodeId>::empty()]);
                    lemma_chain_to_root(dist@, parents@, root, path_lists(only@));
                }
                only
            } else {
                assert forall|u: i64| #[trigger] parents@[v.id]@.contains(u) implies paths@.contains_key(u)
                    && holds_chains(parents@, root, NodeId { id: u }, path_lists(paths@[u]@)) by {
                    assert(dist@.contains_key(u) && dist@[u].unwrap() + 1 == dist@[k].unwrap());
                }
                chains_through(parents, paths, root, v)
            };
            paths.insert(k, list);
        }
        proof {
            assert forall|x: i64| #[trigger]
                paths@.contains_key(x) <==> dist@.contains_key(x) && (dist@[x].unwrap() < level || (
                dist@[x].unwrap() == level && among(keys@, i + 1, x))) by {
                if among(keys@, i + 1, x) {
                    let t = choose|t: int| 0 <= t < i + 1 && keys@[t] == x;
                    if t < i {
                        assert(among(keys@, i as int, x));
                    }
                }
                if among(keys@, i as int, x) {
                    let t = choose|t: int| 0 <= t < i && keys@[t] == x;
                    assert(0 <= t < i + 1 && keys@[t] == x);
                }
                if x == k {
                    assert(0 <= i < i + 1 && keys@[i as int] == x);
                }
            }
        }
        i += 1;
    }
    proof {
        assert forall|k: i64| #[trigger]
            paths@.contains_key(k) <==> dist@.contains_key(k) && dist@[k].unwrap() < level + 1 by {
            if dist@.contains_key(k) && dist@[k].unwrap() == level {
                assert(keys@.contains(k));
                let t = choose|t: int| 0 <= t < keys@.len() && keys@[t] == k;
                assert(among(keys@, i as int, k));
            }
        }
    }
}

/// Every chain from `destination` to each node, each once: what the
/// distances and parents of a search from `destination` say of the shortest
/// paths. A path to a node lists the nodes on the way in order, without the
/// node itself.
pub fn enumerate_chains(
    dist: &HashMap<i64, Option<usize>>,
    parents: &HashMap<i64, HashSet<i64>>,
    destination: NodeId,
) -> (paths: HashMap<i64, Vec<Vec<NodeId>>>)
    requires
        is_layered(dist@, parents@, destination),
    ensures
        are_all_chains(dist@, parents@, destination, paths@),
{
    let keys: Vec<i64> = distance_keys(dist);
    let deepest: usize = largest_distance(dist, &keys);
    let mut paths: HashMap<i64, Vec<Vec<NodeId>>> = HashMap::new();
    let mut level: usize = 0;
    let mut more: bool = true;
    while more
        invariant
            is_layered(dist@, parents@, destination),
            keys@.no_duplicates(),
            forall|k: i64| keys@.contains(k) <==> dist@.contains_key(k),
            forall|k: i64| #[trigger]
                dist@.contains_key(k) && dist@[k] is Some ==> dist@[k].unwrap() <= deepest,
            level <= deepest,
            more ==> filled_below(dist@, parents@, destination, paths@, level as int),
            !more ==> filled_below(dist@, parents@, destination, paths@, deepest + 1),
        decreases
            deepest - level + if more {
                1int
            } else {
                0int
            },
    {
        fill_level(dist, parents, destination, &keys, &mut paths, level);
        if level == deepest {
            more = false;
        } else {
            level += 1;
        }
    }
    paths
}

} // verus!
