//! Routing core: builds a weighted, undirected city graph from stored records
//! and computes least-cost routes between named cities.

pub mod models;
pub mod graph;
pub mod queue;
pub mod search;
pub mod paths;
pub mod dense;
pub mod requests;
pub mod cli;
