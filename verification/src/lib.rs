//! Graph analytics with machine-checked contracts: node identifiers, nodes,
//! simple undirected and directed graphs, the builders that make them from
//! edge lists, the structural algorithms on them (components, cores, trusses,
//! peaks, communities, shortest paths, clustering, matrices, brokerage), and
//! what a transformer does between reading edge rows and writing statistics.

pub mod dachshund;
