//! Adjacency representations of a graph.

pub mod matrix;
