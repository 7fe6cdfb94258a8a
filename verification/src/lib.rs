//! Dependency-graph tooling for the crates.io database dump: selection of one
//! version per crate, the compact package graph, its binary file format, and
//! what the graph explorer computes from a loaded graph.

pub mod dep_graph;
pub mod dump;
pub mod explore;
pub mod format;
pub mod graph;
mod ranking;
pub mod text;
pub mod versions;
