//! A small graph toolkit built on a dense adjacency matrix.
//!
//! The matrix stores one signed weight per ordered pair of nodes. On top of it
//! sit a breadth-first reachability test and a single-source shortest-path
//! search, each verified against a mathematical model of the graph.

pub mod adj;
