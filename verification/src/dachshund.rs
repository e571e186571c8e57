//! The graphs, their builders, the algorithms on them and the transformers.

pub mod algorithms;
pub mod counting;
pub mod determinism;
pub mod error;
pub mod graph_base;
pub mod graph_builder_base;
pub mod id_types;
pub mod line_processor;
pub mod node;
pub mod node_map;
pub mod round_trip;
pub mod row;
pub mod simple_directed_graph;
pub mod simple_directed_graph_builder;
pub mod simple_transformer;
pub mod simple_undirected_graph;
pub mod simple_undirected_graph_builder;
pub mod sums;
pub mod transformer_base;
