//! What every builder offers, and the endpoints of a list of rows.

use vstd::prelude::*;
use crate::dachshund::error::CLQResult;
use crate::dachshund::id_types::NodeId;

verus! {

/// What every builder offers: it makes a graph from a list of rows, or says
/// why it cannot.
pub trait GraphBuilderBase {
    /// The kind of graph that is built.
    type GraphType;

    /// What one row of the input holds.
    type RowType;

    /// Whether the builder takes the rows.
    spec fn accepts(data: Seq<Self::RowType>) -> bool;

    /// Whether `graph` is the graph of the rows.
    spec fn builds(data: Seq<Self::RowType>, graph: Self::GraphType) -> bool;

    /// Builds the graph of the rows where it takes them, and rejects them
    /// with a build error where it does not.
    fn from_vector(&mut self, data: Vec<Self::RowType>) -> (r: CLQResult<Self::GraphType>)
        ensures
            match r {
                Ok(g) => Self::accepts(data@) && Self::builds(data@, g),
                Err(e) => !Self::accepts(data@) && e is BuildError,
            },
    ;
}

/// The endpoints of the rows, each once, in the order in which the rows first
/// name them.
pub open spec fn endpoints(rows: Seq<(i64, i64)>) -> Seq<NodeId>
    decreases rows.len(),
{
    if rows.len() == 0 {
        Seq::empty()
    } else {
        with_endpoint(
            with_endpoint(endpoints(rows.drop_last()), rows.last().0),
            rows.last().1,
        )
    }
}

/// `ids`, and behind it the identifier of `k` unless `ids` has it already.
pub open spec fn with_endpoint(ids: Seq<NodeId>, k: i64) -> Seq<NodeId> {
    if ids.contains(NodeId { id: k }) {
        ids
    } else {
        ids.push(NodeId { id: k })
    }
}

/// A list without repetitions stays so when an endpoint is added.
pub proof fn lemma_with_endpoint(ids: Seq<NodeId>, k: i64)
    requires
        ids.no_duplicates(),
    ensures
        with_endpoint(ids, k).no_duplicates(),
        with_endpoint(ids, k).contains(NodeId { id: k }),
        forall|n: NodeId| ids.contains(n) ==> with_endpoint(ids, k).contains(n),
        forall|n: NodeId|
            with_endpoint(ids, k).contains(n) ==> ids.contains(n) || n == (NodeId { id: k }),
{
    let w = with_endpoint(ids, k);
    if !ids.contains(NodeId { id: k }) {
        assert(w[ids.len() as int] == NodeId { id: k });
        assert forall|n: NodeId| ids.contains(n) implies w.contains(n) by {
            let i = choose|i: int| 0 <= i < ids.len() && ids[i] == n;
            assert(w[i] == n);
        }
        assert forall|n: NodeId| w.contains(n) implies ids.contains(n) || n == (NodeId { id: k }) by {
            let i = choose|i: int| 0 <= i < w.len() && w[i] == n;
            if i < ids.len() {
                assert(ids[i] == n);
            }
        }
    }
}

/// The endpoints hold no identifier twice, hold both ends of every row, and
/// nothing else.
pub proof fn lemma_endpoints(rows: Seq<(i64, i64)>)
    ensures
        endpoints(rows).no_duplicates(),
        forall|i: int|
            0 <= i < rows.len() ==> endpoints(rows).contains(NodeId { id: (#[trigger] rows[i]).0 })
                && endpoints(rows).contains(NodeId { id: rows[i].1 }),
        forall|n: NodeId|
            endpoints(rows).contains(n) ==> exists|i: int|
                0 <= i < rows.len() && (n.id == (#[trigger] rows[i]).0 || n.id == rows[i].1),
    decreases rows.len(),
{
    if rows.len() > 0 {
        let before = rows.drop_last();
        lemma_endpoints(before);
        let mid = with_endpoint(endpoints(before), rows.last().0);
        lemma_with_endpoint(endpoints(before), rows.last().0);
        lemma_with_endpoint(mid, rows.last().1);
        assert forall|i: int| 0 <= i < rows.len() implies endpoints(rows).contains(
            NodeId { id: (#[trigger] rows[i]).0 },
        ) && endpoints(rows).contains(NodeId { id: rows[i].1 }) by {
            if i < rows.len() - 1 {
                assert(before[i] == rows[i]);
            }
        }
        assert forall|n: NodeId| endpoints(rows).contains(n) implies exists|i: int|
            0 <= i < rows.len() && (n.id == (#[trigger] rows[i]).0 || n.id == rows[i].1) by {
            if endpoints(before).contains(n) {
                let i = choose|i: int|
                    0 <= i < before.len() && (n.id == (#[trigger] before[i]).0 || n.id == before[i].1);
                assert(rows[i] == before[i]);
            } else {
                let last = rows.len() - 1;
                assert(n.id == rows[last].0 || n.id == rows[last].1);
            }
        }
    }
}

} // verus!
