//! The algorithms, each as a trait that the graphs it suits implement.

pub mod adjacency_matrix;
pub mod betweenness;
pub mod brokerage;
pub mod clustering;
pub mod cnm_communities;
pub mod connected_components;
pub mod connectivity;
pub mod coreness;
pub mod k_peaks;
pub mod laplacian;
pub mod path_enumeration;
pub mod ranking;
pub mod sampling;
pub mod shortest_paths;
pub mod strongly_connected;
pub mod transitivity;
pub mod truss;
