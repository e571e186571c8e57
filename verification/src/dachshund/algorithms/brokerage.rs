//! Brokerage in directed graphs: between which groups a node stands.

use vstd::prelude::*;
use std::collections::HashMap;
use crate::dachshund::error::{CLQError, CLQResult};
use crate::dachshund::graph_base::{well_formed, GraphBase};
use crate::dachshund::id_types::NodeId;
use crate::dachshund::node::{contains_id, DirectedNodeBase, NodeBase};
use crate::dachshund::simple_directed_graph::{has_edge, DirectedGraph};

verus! {

/// The part that a node plays between the source and the target of two
/// edges that meet in it, after Gould and Fernandez.
#[derive(Clone, Copy, Debug, PartialEq, Eq, Structural)]
pub enum BrokerRole {
    /// Source, broker and target are of one group.
    Coordinator,
    /// Source and target are of one group, the broker of another.
    Consultant,
    /// Broker and target are of one group, the source of another.
    Gatekeeper,
    /// Source and broker are of one group, the target of another.
    Representative,
    /// Source, broker and target are of three groups.
    Liaison,
}

/// How often a node plays each part.
#[derive(Clone, Copy, Debug, PartialEq, Eq, Structural)]
pub struct BrokerageScores {
    pub coordinator: u128,
    pub consultant: u128,
    pub gatekeeper: u128,
    pub representative: u128,
    pub liaison: u128,
}

/// The part of a broker of group `broker` between a source of group
/// `source` and a target of group `target`.
pub open spec fn role_of(source: usize, broker: usize, target: usize) -> BrokerRole {
    if source == broker && broker == target {
        BrokerRole::Coordinator
    } else if source == target {
        BrokerRole::Consultant
    } else if broker == target {
        BrokerRole::Gatekeeper
    } else if source == broker {
        BrokerRole::Representative
    } else {
        BrokerRole::Liaison
    }
}

/// Whether `v` stands between `a` and `b`: the three are different nodes
/// and no edge leads from `a` to `b` directly.
pub open spec fn is_between<N: DirectedNodeBase>(nodes: Map<i64, N>, a: NodeId, v: NodeId, b: NodeId) -> bool {
    a != v && b != v && a != b && !has_edge(nodes, a, b)
}

/// Whether `v` plays the part `role` between `a` and `b`.
pub open spec fn plays<N: DirectedNodeBase>(
    nodes: Map<i64, N>,
    groups: Map<i64, usize>,
    role: BrokerRole,
    a: NodeId,
    v: NodeId,
    b: NodeId,
) -> bool {
    is_between(nodes, a, v, b) && role_of(groups[a.id], groups[v.id], groups[b.id]) == role
}

/// To how many of `targets` the node `v` plays the part `role` for the
/// source `a`.
pub open spec fn ties_from<N: DirectedNodeBase>(
    nodes: Map<i64, N>,
    groups: Map<i64, usize>,
    role: BrokerRole,
    a: NodeId,
    v: NodeId,
    targets: Seq<NodeId>,
) -> nat
    decreases targets.len(),
{
    if targets.len() == 0 {
        0
    } else {
        ties_from(nodes, groups, role, a, v, targets.drop_last()) + if plays(
            nodes,
            groups,
            role,
            a,
            v,
            targets.last(),
        ) {
            1nat
        } else {
            0nat
        }
    }
}

/// Between how many pairs of one of `sources` and one of `targets` the node
/// `v` plays the part `role`.
pub open spec fn ties_between<N: DirectedNodeBase>(
    nodes: Map<i64, N>,
    groups: Map<i64, usize>,
    role: BrokerRole,
    v: NodeId,
    sources: Seq<NodeId>,
    targets: Seq<NodeId>,
) -> nat
    decreases sources.len(),
{
    if sources.len() == 0 {
        0
    } else {
        ties_between(nodes, groups, role, v, sources.drop_last(), targets) + ties_from(
            nodes,
            groups,
            role,
            sources.last(),
            v,
            targets,
        )
    }
}

/// How often `v` plays the part `role`: once for every pair of an edge that
/// arrives at `v` and an edge that leaves it between whose far ends `v`
/// stands.
pub open spec fn role_count<N: DirectedNodeBase>(
    nodes: Map<i64, N>,
    groups: Map<i64, usize>,
    role: BrokerRole,
    v: NodeId,
) -> nat {
    ties_between(nodes, groups, role, v, nodes[v.id].in_view(), nodes[v.id].out_view())
}

/// Whether `scores` say how often `v` plays each part.
pub open spec fn are_scores<N: DirectedNodeBase>(
    nodes: Map<i64, N>,
    groups: Map<i64, usize>,
    v: NodeId,
    scores: BrokerageScores,
) -> bool {
    &&& scores.coordinator == role_count(nodes, groups, BrokerRole::Coordinator, v)
    &&& scores.consultant == role_count(nodes, groups, BrokerRole::Consultant, v)
    &&& scores.gatekeeper == role_count(nodes, groups, BrokerRole::Gatekeeper, v)
    &&& scores.representative == role_count(nodes, groups, BrokerRole::Representative, v)
    &&& scores.liaison == role_count(nodes, groups, BrokerRole::Liaison, v)
}

/// Whether every node has a group.
pub open spec fn all_grouped<N: DirectedNodeBase>(nodes: Map<i64, N>, groups: Map<i64, usize>) -> bool {
    forall|k: i64| #[trigger] nodes.contains_key(k) ==> groups.contains_key(k)
}

/// Tells the part of a broker between a source and a target by their
/// groups.
pub fn find_role(source: usize, broker: usize, target: usize) -> (r: BrokerRole)
    ensures
        r == role_of(source, broker, target),
{
    if source == broker && broker == target {
        BrokerRole::Coordinator
    } else if source == target {
        BrokerRole::Consultant
    } else if broker == target {
        BrokerRole::Gatekeeper
    } else if source == broker {
        BrokerRole::Representative
    } else {
        BrokerRole::Liaison
    }
}

/// Brokerage in directed graphs.
pub trait Brokerage: DirectedGraph where Self::NodeType: DirectedNodeBase {
    /// How often the node plays each part between the nodes of `groups`:
    /// once for every pair of an edge that arrives at it and an edge that
    /// leaves it, where source, node and target are three nodes and no edge
    /// leads from the source to the target directly.
    fn get_brokerage_scores_for_node(&self, node_id: NodeId, groups: &HashMap<i64, usize>) -> (r:
        BrokerageScores)
        requires
            self.wf(),
            self.nodes_view().contains_key(node_id.id),
            all_grouped(self.nodes_view(), groups@),
        ensures
            are_scores(self.nodes_view(), groups@, node_id, r),
    {
        let ghost nodes = self.nodes_view();
        proof {
            self.lemma_wf();
        }
        let node: &Self::NodeType = self.get_node(node_id);
        let sources: &Vec<NodeId> = node.get_in_neighbors();
        let targets: &Vec<NodeId> = node.get_out_neighbors();
        let own: usize = *groups.get(&node_id.id).unwrap();
        proof {
            node.lemma_edges_split();
            assert forall|i: int| 0 <= i < sources@.len() implies nodes.contains_key(
                #[trigger] sources@[i].id,
            ) by {
                assert(nodes[node_id.id].edges_view()[i] == sources@[i]);
            }
            assert forall|j: int| 0 <= j < targets@.len() implies nodes.contains_key(
                #[trigger] targets@[j].id,
            ) by {
                assert(nodes[node_id.id].edges_view()[sources@.len() + j] == targets@[j]);
            }
        }
        let mut scores = BrokerageScores {
            coordinator: 0,
            consultant: 0,
            gatekeeper: 0,
            representative: 0,
            liaison: 0,
        };
        let mut i: usize = 0;
        while i < sources.len()
            invariant
                i <= sources.len(),
                self.wf(),
                nodes == self.nodes_view(),
                well_formed(nodes, self.ids_view()),
                nodes.contains_key(node_id.id),
                all_grouped(nodes, groups@),
                own == groups@[node_id.id],
                sources@ == nodes[node_id.id].in_view(),
                targets@ == nodes[node_id.id].out_view(),
                forall|x: int| 0 <= x < sources@.len() ==> nodes.contains_key(#[trigger] sources@[x].id),
                forall|x: int| 0 <= x < targets@.len() ==> nodes.contains_key(#[trigger] targets@[x].id),
                scores.coordinator == ties_between(
                    nodes,
                    groups@,
                    BrokerRole::Coordinator,
                    node_id,
                    sources@.subrange(0, i as int),
                    targets@,
                ),
                scores.consultant == ties_between(
                    nodes,
                    groups@,
                    BrokerRole::Consultant,
                    node_id,
                    sources@.subrange(0, i as int),
                    targets@,
                ),
                scores.gatekeeper == ties_between(
                    nodes,
                    groups@,
                    BrokerRole::Gatekeeper,
                    node_id,
                    sources@.subrange(0, i as int),
                    targets@,
                ),
                scores.representative == ties_between(
                    nodes,
                    groups@,
                    BrokerRole::Representative,
                    node_id,
                    sources@.subrange(0, i as int),
                    targets@,
                ),
                scores.liaison == ties_between(
                    nodes,
                    groups@,
                    BrokerRole::Liaison,
                    node_id,
                    sources@.subrange(0, i as int),
                    targets@,
                ),
                scores.coordinator <= i * usize::MAX,
                scores.consultant <= i * usize::MAX,
                scores.gatekeeper <= i * usize::MAX,
                scores.representative <= i * usize::MAX,
                scores.liaison <= i * usize::MAX,
            decreases sources.len() - i,
        {
            let a: NodeId = sources[i];
            let beyond: &Vec<NodeId> = self.get_node(a).get_out_neighbors();
            let from: usize = *groups.get(&a.id).unwrap();
            let mut coordinator: usize = 0;
            let mut consultant: usize = 0;
            let mut gatekeeper: usize = 0;
            let mut representative: usize = 0;
            let mut liaison: usize = 0;
            let mut j: usize = 0;
            while j < targets.len()
                invariant
                    j <= targets.len(),
                    nodes == self.nodes_view(),
                    nodes.contains_key(node_id.id),
                    nodes.contains_key(a.id),
                    all_grouped(nodes, groups@),
                    own == groups@[node_id.id],
                    from == groups@[a.id],
                    beyond@ == nodes[a.id].out_view(),
                    forall|x: int| 0 <= x < targets@.len() ==> nodes.contains_key(#[trigger] targets@[x].id),
                    coordinator == ties_from(
                        nodes,
                        groups@,
                        BrokerRole::Coordinator,
                        a,
                        node_id,
                        targets@.subrange(0, j as int),
                    ),
                    consultant == ties_from(
                        nodes,
                        groups@,
                        BrokerRole::Consultant,
                        a,
                        node_id,
                        targets@.subrange(0, j as int),
                    ),
                    gatekeeper == ties_from(
                        nodes,
                        groups@,
                        BrokerRole::Gatekeeper,
                        a,
                        node_id,
                        targets@.subrange(0, j as int),
                    ),
                    representative == ties_from(
                        nodes,
                        groups@,
                        BrokerRole::Representative,
                        a,
                        node_id,
                        targets@.subrange(0, j as int),
                    ),
                    liaison == ties_from(
                        nodes,
                        groups@,
                        BrokerRole::Liaison,
                        a,
                        node_id,
                        targets@.subrange(0, j as int),
                    ),
                    coordinator <= j,
                    consultant <= j,
                    gatekeeper <= j,
                    representative <= j,
                    liaison <= j,
                decreases targets.len() - j,
            {
                let b: NodeId = targets[j];
                let to: usize = *groups.get(&b.id).unwrap();
                let between: bool = a != node_id && b != node_id && a != b && !contains_id(beyond, b);
                proof {
                    assert(targets@.subrange(0, j + 1).drop_last() =~= targets@.subrange(0, j as int));
                    assert(targets@.subrange(0, j + 1).last() == b);
                    assert(between == is_between(nodes, a, node_id, b));
                }
                if between {
                    match find_role(from, own, to) {
                        BrokerRole::Coordinator => {
                            coordinator += 1;
                        },
                        BrokerRole::Consultant => {
                            consultant += 1;
                        },
                        BrokerRole::Gatekeeper => {
                            gatekeeper += 1;
                        },
                        BrokerRole::Representative => {
                            representative += 1;
                        },
                        BrokerRole::Liaison => {
                            liaison += 1;
                        },
                    }
                }
                j += 1;
            }
            proof {
                assert(targets@.subrange(0, targets.len() as int) =~= targets@);
                assert(sources@.subrange(0, i + 1).drop_last() =~= sources@.subrange(0, i as int));
                assert(sources@.subrange(0, i + 1).last() == a);
                assert((i + 1) * usize::MAX == i * usize::MAX + usize::MAX) by (nonlinear_arith);
                assert(i * usize::MAX + usize::MAX <= usize::MAX * usize::MAX) by (nonlinear_arith)
                    requires
                        i < usize::MAX,
                ;
                assert(usize::MAX * usize::MAX <= u128::MAX) by (nonlinear_arith);
            }
            scores.coordinator = scores.coordinator + coordinator as u128;
            scores.consultant = scores.consultant + consultant as u128;
            scores.gatekeeper = scores.gatekeeper + gatekeeper as u128;
            scores.representative = scores.representative + representative as u128;
            scores.liaison = scores.liaison + liaison as u128;
            i += 1;
        }
        assert(sources@.subrange(0, sources.len() as int) =~= sources@);
        scores
    }

    /// How often every node plays each part between the nodes of `groups`.
    /// Rejected where a node has no group.
    fn get_brokerage_scores(&self, groups: &HashMap<i64, usize>) -> (r: CLQResult<HashMap<i64, BrokerageScores>>)
        requires
            self.wf(),
        ensures
            match r {
                Ok(scores) => {
                    &&& all_grouped(self.nodes_view(), groups@)
                    &&& forall|k: i64| #[trigger] scores@.contains_key(k) <==> self.nodes_view().contains_key(k)
                    &&& forall|k: i64| #[trigger]
                        scores@.contains_key(k) ==> are_scores(
                            self.nodes_view(),
                            groups@,
                            NodeId { id: k },
                            scores@[k],
                        )
                },
                Err(e) => !all_grouped(self.nodes_view(), groups@) && e is AlgorithmPrecondition,
            },
    {
        let ghost nodes = self.nodes_view();
        let ids: &Vec<NodeId> = self.get_core_ids();
        proof {
            self.lemma_wf();
        }
        let mut i: usize = 0;
        while i < ids.len()
            invariant
                i <= ids.len(),
                nodes == self.nodes_view(),
                ids@ == self.ids_view(),
                well_formed(nodes, ids@),
                forall|x: int| 0 <= x < i ==> groups@.contains_key(#[trigger] ids@[x].id),
            decreases ids.len() - i,
        {
            if !groups.contains_key(&ids[i].id) {
                proof {
                    assert(ids@.contains(ids@[i as int]));
                    assert(nodes.contains_key(ids@[i as int].id));
                }
                return Err(CLQError::AlgorithmPrecondition("a node has no group".to_owned()));
            }
            i += 1;
        }
        proof {
            assert forall|k: i64| #[trigger] nodes.contains_key(k) implies groups@.contains_key(k) by {
                let n = NodeId { id: k };
                assert(nodes.contains_key(n.id));
                assert(ids@.contains(n));
                let x = choose|x: int| 0 <= x < ids@.len() && ids@[x] == n;
                assert(groups@.contains_key(ids@[x].id));
            }
        }
        let mut scores: HashMap<i64, BrokerageScores> = HashMap::new();
        let mut i: usize = 0;
        while i < ids.len()
            invariant
                i <= ids.len(),
                self.wf(),
                nodes == self.nodes_view(),
                ids@ == self.ids_view(),
                well_formed(nodes, ids@),
                all_grouped(nodes, groups@),
                forall|k: i64| #[trigger]
                    scores@.contains_key(k) <==> exists|x: int| 0 <= x < i && ids@[x].id == k,
                forall|k: i64| #[trigger]
                    scores@.contains_key(k) ==> are_scores(nodes, groups@, NodeId { id: k }, scores@[k]),
            decreases ids.len() - i,
        {
            let v: NodeId = ids[i];
            proof {
                assert(ids@.contains(ids@[i as int]));
                assert(nodes.contains_key(v.id));
                assert(v == NodeId { id: v.id });
            }
            let found: BrokerageScores = self.get_brokerage_scores_for_node(v, groups);
            let ghost before = scores@;
            scores.insert(v.id, found);
            proof {
                assert forall|k: i64| #[trigger]
                    scores@.contains_key(k) <==> exists|x: int| 0 <= x < i + 1 && ids@[x].id == k by {
                    if before.contains_key(k) {
                        let x = choose|x: int| 0 <= x < i && ids@[x].id == k;
                        assert(0 <= x < i + 1 && ids@[x].id == k);
                    }
                    if k == v.id {
                        assert(0 <= i < i + 1 && ids@[i as int].id == k);
                    }
                    if exists|x: int| 0 <= x < i + 1 && ids@[x].id == k {
                        let x = choose|x: int| 0 <= x < i + 1 && ids@[x].id == k;
                        if x < i {
                            assert(before.contains_key(k));
                        }
                    }
                }
            }
            i += 1;
        }
        proof {
            assert forall|k: i64| #[trigger] scores@.contains_key(k) <==> nodes.contains_key(k) by {
                let n = NodeId { id: k };
                if scores@.contains_key(k) {
                    let x = choose|x: int| 0 <= x < i && ids@[x].id == k;
                    assert(ids@.contains(ids@[x]));
                    assert(nodes.contains_key(ids@[x].id));
                }
                if nodes.contains_key(k) {
                    assert(nodes.contains_key(n.id));
                    assert(ids@.contains(n));
                    let x = choose|x: int| 0 <= x < ids@.len() && ids@[x] == n;
                    assert(ids@[x].id == k);
                }
            }
        }
        Ok(scores)
    }
}

} // verus!
