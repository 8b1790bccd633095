//! Approximate PageRank by random-walk sampling, over a directed graph whose
//! vertices are the integers below a fixed count.
//!
//! Scores are kept exact: a vertex's score is the number of walks that ended
//! on it, out of the number of walks that were run.

pub mod config;
pub mod graph;
pub mod loader;
pub mod random;
pub mod rank;
pub mod walk;

pub use config::Config;
pub use graph::DirectedGraph;
pub use walk::Scores;
