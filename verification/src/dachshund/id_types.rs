//! Node identifiers.

use vstd::prelude::*;
use vstd::std_specs::convert::FromSpecImpl;

verus! {

/// Identifier of a node: a value type over a signed 64-bit integer. Two
/// identifiers are equal exactly when the integers are.
#[derive(Clone, Copy, Debug, PartialEq, Eq, Structural, Hash, PartialOrd, Ord)]
pub struct NodeId {
    pub id: i64,
}

impl NodeId {
    /// The integer this identifier stands for.
    pub fn value(&self) -> (r: i64)
        ensures
            r == self.id,
    {
        self.id
    }
}

impl From<i64> for NodeId {
    fn from(id: i64) -> (r: NodeId) {
        NodeId { id }
    }
}

impl FromSpecImpl<i64> for NodeId {
    open spec fn obeys_from_spec() -> bool {
        true
    }

    open spec fn from_spec(id: i64) -> NodeId {
        NodeId { id }
    }
}

} // verus!
