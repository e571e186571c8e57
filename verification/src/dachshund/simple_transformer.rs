//! The statistics of a graph, and what a transformer does between reading
//! lines and writing them.

use vstd::prelude::*;
use std::collections::HashMap;
use std::collections::HashSet;
use crate::dachshund::algorithms::clustering::{clustering_fraction, Clustering};
use crate::dachshund::algorithms::connected_components::{
    are_components, ConnectedComponentsUndirected,
};
use crate::dachshund::algorithms::coreness::{are_core_numbers, Coreness};
use crate::dachshund::algorithms::k_peaks::{are_peak_groups, KPeaks};
use crate::dachshund::algorithms::transitivity::{triangles_sum, triples_sum, Transitivity};
use crate::dachshund::algorithms::truss::are_trusses;
use crate::dachshund::error::{CLQError, CLQResult};
use crate::dachshund::graph_base::{degree_sum, well_formed, GraphBase};
use crate::dachshund::graph_builder_base::GraphBuilderBase;
use crate::dachshund::id_types::NodeId;
use crate::dachshund::line_processor::{is_malformed, parse_rows, rows_of};
use crate::dachshund::node::{NodeBase, SimpleNode};
use crate::dachshund::simple_undirected_graph::SimpleUndirectedGraph;
use crate::dachshund::simple_undirected_graph_builder::{built_from, SimpleUndirectedGraphBuilder};
use crate::dachshund::transformer_base::{are_batches, batch_rows, EdgeRow};

verus! {

/// The statistics of one graph, as far as they are whole numbers and
/// fractions. Where a list has an entry for each node, the nodes are taken
/// in iteration order.
pub struct GraphStats {
    pub num_nodes: usize,
    pub num_edges: usize,
    /// The number of connected components.
    pub connected_components: usize,
    /// The number of nodes of the largest connected component.
    pub size_of_largest_cc: usize,
    /// The clustering coefficient of each node as a fraction, none for a
    /// node of degree below 2.
    pub clustering: Vec<Option<(usize, u128)>>,
    /// The transitivity as a fraction, none where the graph has no triple or
    /// more than 128 bits count.
    pub transitivity: Option<(u128, u128)>,
    /// The core number of each node.
    pub k_cores: Vec<usize>,
    /// The number of edges of each 3-truss.
    pub k_trusses: Vec<usize>,
    /// The peak number of each node.
    pub k_peaks: Vec<usize>,
}

/// The lengths of the lists.
pub open spec fn lengths<T>(lists: Seq<Vec<T>>) -> Seq<usize> {
    lists.map_values(|l: Vec<T>| l.len())
}

/// Whether `largest` is the length of a longest of the lists, and zero where
/// there is none.
pub open spec fn is_largest<T>(lists: Seq<Vec<T>>, largest: usize) -> bool {
    &&& forall|c: int| 0 <= c < lists.len() ==> (#[trigger] lists[c])@.len() <= largest
    &&& lists.len() == 0 ==> largest == 0
    &&& lists.len() > 0 ==> exists|c: int| 0 <= c < lists.len() && (#[trigger] lists[c])@.len() == largest
}

/// Whether `stats` holds the statistics of the graph.
pub open spec fn are_stats<N: NodeBase>(nodes: Map<i64, N>, ids: Seq<NodeId>, stats: GraphStats) -> bool {
    &&& stats.num_nodes == nodes.len()
    &&& 2 * stats.num_edges == degree_sum(nodes, ids)
    &&& exists|parts: Seq<Vec<NodeId>>| #[trigger]
        are_components(nodes, Set::<i64>::empty(), Set::<u128>::empty(), parts)
            && stats.connected_components == parts.len() && is_largest(parts, stats.size_of_largest_cc)
    &&& stats.clustering@.len() == ids.len()
    &&& forall|i: int|
        0 <= i < ids.len() ==> match #[trigger] stats.clustering@[i] {
            Some(f) => clustering_fraction(nodes, ids[i]) == Some((f.0 as nat, f.1 as nat)),
            None => clustering_fraction(nodes, ids[i]) is None,
        }
    &&& match stats.transitivity {
        Some(f) => f.0 == triangles_sum(nodes, ids) && f.1 == triples_sum(nodes, ids) && f.1 > 0,
        None => triples_sum(nodes, ids) == 0 || triples_sum(nodes, ids) > u128::MAX,
    }
    &&& exists|coreness: Map<i64, usize>| #[trigger]
        are_core_numbers(nodes, Set::<i64>::empty(), coreness) && stats.k_cores@.len() == ids.len()
            && forall|i: int| 0 <= i < ids.len() ==> #[trigger] stats.k_cores@[i] == coreness[ids[i].id]
    &&& exists|trusses: Seq<Vec<(NodeId, NodeId)>>, truss_nodes: Seq<Vec<NodeId>>| #[trigger]
        are_trusses(nodes, 3, trusses, truss_nodes) && stats.k_trusses@ == lengths(trusses)
    &&& exists|peaks: Map<i64, usize>, groups: Map<usize, HashSet<i64>>| #[trigger]
        are_peak_groups(nodes, peaks, groups) && stats.k_peaks@.len() == ids.len() && forall|i: int|
            0 <= i < ids.len() ==> #[trigger] stats.k_peaks@[i] == peaks[ids[i].id]
}

/// The length of a longest of the lists, and zero where there is none.
pub fn largest_len(lists: &Vec<Vec<NodeId>>) -> (r: usize)
    ensures
        is_largest(lists@, r),
{
    let mut largest: usize = 0;
    let mut c: usize = 0;
    while c < lists.len()
        invariant
            c <= lists.len(),
            is_largest(lists@.subrange(0, c as int), largest),
        decreases lists.len() - c,
    {
        let ghost shorter = lists@.subrange(0, c as int);
        let ghost longer = lists@.subrange(0, c + 1);
        let ghost before = largest;
        let len: usize = lists[c].len();
        if len > largest {
            largest = len;
        }
        proof {
            assert forall|x: int| 0 <= x < longer.len() implies (#[trigger] longer[x])@.len() <= largest by {
                if x < c {
                    assert(shorter[x] == longer[x]);
                }
            }
            if len > before {
                assert(longer[c as int]@.len() == largest);
            } else if shorter.len() > 0 {
                let x = choose|x: int| 0 <= x < shorter.len() && (#[trigger] shorter[x])@.len() == before;
                assert(longer[x]@.len() == largest);
            } else {
                assert(longer[c as int]@.len() == largest);
            }
        }
        c += 1;
    }
    assert(lists@.subrange(0, lists.len() as int) =~= lists@);
    largest
}

/// The lengths of the lists.
pub fn list_lengths(lists: &Vec<Vec<(NodeId, NodeId)>>) -> (r: Vec<usize>)
    ensures
        r@ == lengths(lists@),
{
    let mut out: Vec<usize> = Vec::new();
    let mut c: usize = 0;
    while c < lists.len()
        invariant
            c <= lists.len(),
            out@ == lengths(lists@.subrange(0, c as int)),
        decreases lists.len() - c,
    {
        out.push(lists[c].len());
        assert(out@ =~= lengths(lists@.subrange(0, c + 1)));
        c += 1;
    }
    assert(lists@.subrange(0, lists.len() as int) =~= lists@);
    out
}

/// The numbers that `numbers` gives to the nodes, in the order of `ids`.
pub fn in_order(ids: &Vec<NodeId>, numbers: &HashMap<i64, usize>) -> (r: Vec<usize>)
    requires
        forall|i: int| 0 <= i < ids@.len() ==> numbers@.contains_key(#[trigger] ids@[i].id),
    ensures
        r@.len() == ids@.len(),
        forall|i: int| 0 <= i < ids@.len() ==> #[trigger] r@[i] == numbers@[ids@[i].id],
{
    let mut out: Vec<usize> = Vec::new();
    let mut i: usize = 0;
    while i < ids.len()
        invariant
            i <= ids.len(),
            forall|i: int| 0 <= i < ids@.len() ==> numbers@.contains_key(#[trigger] ids@[i].id),
            out@.len() == i,
            forall|x: int| 0 <= x < i ==> #[trigger] out@[x] == numbers@[ids@[x].id],
        decreases ids.len() - i,
    {
        let key: i64 = ids[i].value();
        out.push(*numbers.get(&key).unwrap());
        i += 1;
    }
    out
}

/// Whether `stats` are the statistics of the simple undirected graph that
/// the rows build.
pub open spec fn are_stats_of_rows(rows: Seq<(i64, i64)>, stats: GraphStats) -> bool {
    exists|nodes: Map<i64, SimpleNode>, ids: Seq<NodeId>| #[trigger]
        built_from(nodes, ids, rows) && are_stats(nodes, ids, stats)
}

/// Whether `results` hold, for each batch in turn, the number of its graph
/// and the statistics of the graph that its rows build.
pub open spec fn are_results(
    batches: Seq<(i64, Vec<(i64, i64)>)>,
    results: Seq<(i64, GraphStats)>,
) -> bool {
    &&& results.len() == batches.len()
    &&& forall|b: int|
        0 <= b < batches.len() ==> (#[trigger] results[b]).0 == batches[b].0 && 2 * batches[b].1@.len()
            <= usize::MAX && are_stats_of_rows(batches[b].1@, results[b].1)
}

/// Whether a batch has more rows than a builder takes.
pub open spec fn has_oversized_batch(batches: Seq<(i64, Vec<(i64, i64)>)>) -> bool {
    exists|b: int| 0 <= b < batches.len() && 2 * (#[trigger] batches[b]).1@.len() > usize::MAX
}

/// A copy of the rows.
pub fn copy_rows(rows: &Vec<(i64, i64)>) -> (r: Vec<(i64, i64)>)
    ensures
        r@ == rows@,
{
    let mut out: Vec<(i64, i64)> = Vec::new();
    let mut i: usize = 0;
    while i < rows.len()
        invariant
            i <= rows.len(),
            out@ == rows@.subrange(0, i as int),
        decreases rows.len() - i,
    {
        out.push(rows[i]);
        assert(out@ =~= rows@.subrange(0, i + 1));
        i += 1;
    }
    assert(rows@.subrange(0, rows.len() as int) =~= rows@);
    out
}

/// What the transformers do between reading and writing.
pub trait GraphStatsTransformerBase {
    /// The statistics of `graph`.
    fn compute_graph_stats<G: Coreness + KPeaks + Transitivity>(graph: &G) -> (stats: GraphStats)
        requires
            graph.wf(),
        ensures
            are_stats(graph.nodes_view(), graph.ids_view(), stats),
    {
        let ghost nodes = graph.nodes_view();
        let ghost listed = graph.ids_view();
        let ids: &Vec<NodeId> = graph.get_core_ids();
        proof {
            graph.lemma_wf();
        }
        let num_nodes: usize = graph.count_nodes();
        let num_edges: usize = graph.count_edges();
        let parts: Vec<Vec<NodeId>> = graph.get_connected_components();
        let size_of_largest_cc: usize = largest_len(&parts);
        let mut clustering: Vec<Option<(usize, u128)>> = Vec::new();
        let mut i: usize = 0;
        while i < ids.len()
            invariant
                i <= ids.len(),
                graph.wf(),
                nodes == graph.nodes_view(),
                ids@ == graph.ids_view(),
                well_formed(nodes, ids@),
                clustering@.len() == i,
                forall|x: int|
                    0 <= x < i ==> match #[trigger] clustering@[x] {
                        Some(f) => clustering_fraction(nodes, ids@[x]) == Some((f.0 as nat, f.1 as nat)),
                        None => clustering_fraction(nodes, ids@[x]) is None,
                    },
            decreases ids.len() - i,
        {
            assert(ids@.contains(ids@[i as int]));
            let fraction: Option<(usize, u128)> = graph.get_clustering_coefficient(ids[i]);
            clustering.push(fraction);
            i += 1;
        }
        let transitivity: Option<(u128, u128)> = match graph.get_transitivity() {
            Ok(f) => Some(f),
            Err(_) => None,
        };
        let cores = graph.get_coreness();
        proof {
            assert forall|i: int| 0 <= i < ids@.len() implies cores.1@.contains_key(#[trigger] ids@[i].id) by {
                assert(ids@.contains(ids@[i]));
                assert(nodes.contains_key(ids@[i].id));
            }
        }
        let k_cores: Vec<usize> = in_order(ids, &cores.1);
        let trusses = graph.get_k_trusses(3);
        let k_trusses: Vec<usize> = list_lengths(&trusses.0);
        let peaks = graph.get_k_peak_mountain_assignment();
        proof {
            lemma_peaks_have_keys(nodes, peaks.0@, peaks.1@);
            assert forall|i: int| 0 <= i < ids@.len() implies peaks.0@.contains_key(#[trigger] ids@[i].id) by {
                assert(ids@.contains(ids@[i]));
                assert(nodes.contains_key(ids@[i].id));
            }
        }
        let k_peaks: Vec<usize> = in_order(ids, &peaks.0);
        let stats = GraphStats {
            num_nodes,
            num_edges,
            connected_components: parts.len(),
            size_of_largest_cc,
            clustering,
            transitivity,
            k_cores,
            k_trusses,
            k_peaks,
        };
        proof {
            assert(are_components(nodes, Set::<i64>::empty(), Set::<u128>::empty(), parts@)
                && stats.connected_components == parts@.len() && is_largest(
                parts@,
                stats.size_of_largest_cc,
            ));
            assert(are_core_numbers(nodes, Set::<i64>::empty(), cores.1@) && stats.k_cores@.len()
                == listed.len() && forall|i: int|
                0 <= i < listed.len() ==> #[trigger] stats.k_cores@[i] == cores.1@[listed[i].id]);
            assert(are_trusses(nodes, 3, trusses.0@, trusses.1@) && stats.k_trusses@ == lengths(
                trusses.0@,
            ));
            assert(are_peak_groups(nodes, peaks.0@, peaks.1@) && stats.k_peaks@.len() == listed.len()
                && forall|i: int|
                0 <= i < listed.len() ==> #[trigger] stats.k_peaks@[i] == peaks.0@[listed[i].id]);
        }
        stats
    }

    /// Builds the simple undirected graph of one batch of rows and computes
    /// its statistics. Fails where the builder rejects the rows.
    fn process_batch(rows: &Vec<(i64, i64)>) -> (r: CLQResult<GraphStats>)
        ensures
            match r {
                Ok(stats) => 2 * rows@.len() <= usize::MAX && are_stats_of_rows(rows@, stats),
                Err(e) => 2 * rows@.len() > usize::MAX && e is BuildError,
            },
    {
        let mut builder = SimpleUndirectedGraphBuilder {  };
        match builder.from_vector(copy_rows(rows)) {
            Ok(graph) => {
                let stats: GraphStats = Self::compute_graph_stats(&graph);
                assert(built_from(graph.nodes@, graph.ids@, rows@));
                Ok(stats)
            },
            Err(e) => Err(e),
        }
    }

    /// What stands between reading and writing: reads the lines into rows,
    /// cuts the rows into batches where the graph changes, and computes the
    /// statistics of each batch's graph, one result for each batch, in the
    /// order of the input. A malformed line fails the run with a parse
    /// error, unless `skip_malformed` says to pass over such lines; a batch
    /// that the builder rejects fails it with a build error.
    fn process_lines(lines: &Vec<Vec<u8>>, skip_malformed: bool) -> (r: CLQResult<
        Vec<(i64, GraphStats)>,
    >)
        ensures
            match r {
                Ok(results) => (skip_malformed || forall|i: int|
                    0 <= i < lines@.len() ==> !is_malformed(#[trigger] lines@[i]@)) && exists|
                    batches: Seq<(i64, Vec<(i64, i64)>)>,
                | #[trigger]
                    are_batches(rows_of(lines@), batches) && are_results(batches, results@),
                Err(CLQError::ParseError(_)) => !skip_malformed && exists|i: int|
                    0 <= i < lines@.len() && is_malformed(#[trigger] lines@[i]@),
                Err(CLQError::BuildError(_)) => (skip_malformed || forall|i: int|
                    0 <= i < lines@.len() ==> !is_malformed(#[trigger] lines@[i]@)) && exists|
                    batches: Seq<(i64, Vec<(i64, i64)>)>,
                | #[trigger]
                    are_batches(rows_of(lines@), batches) && has_oversized_batch(batches),
                Err(_) => false,
            },
    {
        let rows: Vec<EdgeRow> = match parse_rows(lines, skip_malformed) {
            Ok(rows) => rows,
            Err(e) => {
                return Err(e);
            },
        };
        let batches: Vec<(i64, Vec<(i64, i64)>)> = batch_rows(&rows);
        let mut results: Vec<(i64, GraphStats)> = Vec::new();
        let mut b: usize = 0;
        while b < batches.len()
            invariant
                b <= batches.len(),
                are_batches(rows_of(lines@), batches@),
                are_results(batches@.subrange(0, b as int), results@),
                skip_malformed || forall|i: int|
                    0 <= i < lines@.len() ==> !is_malformed(#[trigger] lines@[i]@),
            decreases batches.len() - b,
        {
            let ghost done = batches@.subrange(0, b as int);
            let ghost before = results@;
            match Self::process_batch(&batches[b].1) {
                Ok(stats) => {
                    results.push((batches[b].0, stats));
                },
                Err(e) => {
                    assert(2 * (#[trigger] batches@[b as int]).1@.len() > usize::MAX);
                    assert(has_oversized_batch(batches@));
                    return Err(e);
                },
            }
            proof {
                let longer = batches@.subrange(0, b + 1);
                assert forall|x: int| 0 <= x < longer.len() implies (#[trigger] results@[x]).0
                    == longer[x].0 && 2 * longer[x].1@.len() <= usize::MAX && are_stats_of_rows(
                    longer[x].1@,
                    results@[x].1,
                ) by {
                    if x < b {
                        assert(results@[x] == before[x]);
                        assert(longer[x] == done[x]);
                    }
                }
            }
            b += 1;
        }
        assert(batches@.subrange(0, batches.len() as int) =~= batches@);
        Ok(results)
    }
}

/// Peak numbers are given to the nodes of the graph.
pub proof fn lemma_peaks_have_keys<N: NodeBase>(
    nodes: Map<i64, N>,
    peaks: Map<i64, usize>,
    groups: Map<usize, HashSet<i64>>,
)
    requires
        are_peak_groups(nodes, peaks, groups),
    ensures
        forall|v: i64| #[trigger] peaks.contains_key(v) <==> nodes.contains_key(v),
{
}

/// The transformer that takes the graphs one after another.
pub struct SimpleTransformer {}

impl GraphStatsTransformerBase for SimpleTransformer {

}

/// The transformer that hands the graphs out to workers.
pub struct SimpleParallelTransformer {}

impl GraphStatsTransformerBase for SimpleParallelTransformer {

}

} // verus!
