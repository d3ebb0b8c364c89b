//! Structural statistics of a directed graph given as an edge list.
//!
//! The graph is a `petgraph` digraph whose node weights are the 32-bit
//! identifiers of the edge list. The library builds it from the lines of the
//! list, computes hop distances by breadth-first search, the histogram of
//! out-degrees, and, over a random sample of start nodes, closeness
//! centrality and the statistics of shortest-path lengths.
//!
//! Every function is verified against its contract. The contracts speak of a
//! graph through `petgraph_model::graph_nodes` and
//! `petgraph_model::graph_edges`; what is assumed of `petgraph` and `rand` is
//! stated in `petgraph_model` and `rand_model` and nowhere else.
//!
//! - `edge_list`: the line format and its parser
//! - `graph_ops`: graph construction, breadth-first search, degree histogram
//! - `paths`: walks, reachability and hop distance, with their laws
//! - `histogram`: out-degrees and the sum of a histogram
//! - `metrics`: sampling, closeness centrality, path-length statistics
//! - `stat_util`: fractions, sorting, median and variance
//! - `error`: the errors

pub mod edge_list;
pub mod error;
pub mod graph_ops;
pub mod histogram;
pub mod metrics;
pub mod paths;
pub mod petgraph_model;
pub mod rand_model;
pub mod stat_util;
