//! What betweenness asks of a graph.

use vstd::prelude::*;
use crate::dachshund::algorithms::connectivity::{all_connected, ConnectivityUndirected};
use crate::dachshund::algorithms::shortest_paths::ShortestPaths;
use crate::dachshund::error::{CLQError, CLQResult};
use crate::dachshund::graph_base::GraphBase;

verus! {

/// What betweenness is built on: shortest paths, and the test that a graph
/// has them between all its nodes.
pub trait Betweenness: ShortestPaths + ConnectivityUndirected {
    /// Whether betweenness can be computed: the graph has a node and, where
    /// `check_is_connected` asks for it, hangs together. Says which of the
    /// two is missing otherwise.
    fn check_betweenness_preconditions(&self, check_is_connected: bool) -> (r: CLQResult<()>)
        requires
            self.wf(),
        ensures
            r is Ok <==> self.ids_view().len() > 0 && (check_is_connected ==> all_connected(
                self.nodes_view(),
            )),
            r matches Err(e) ==> e is AlgorithmPrecondition,
    {
        match self.get_is_connected() {
            Err(e) => Err(e),
            Ok(connected) => {
                if check_is_connected && !connected {
                    Err(
                        CLQError::AlgorithmPrecondition(
                            "graph must be connected to compute betweenness".to_owned(),
                        ),
                    )
                } else {
                    Ok(())
                }
            },
        }
    }
}

} // verus!
