//! Single-source shortest paths with negative weights: graph preprocessing,
//! hop-bounded shortest-path primitives and price (potential) manipulation.
pub mod graph;
pub mod paths;
pub mod standard_algorithms;
pub mod fineman_algorithm;
pub mod degree_split;
