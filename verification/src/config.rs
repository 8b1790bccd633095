//! The parameters of the estimate.

use vstd::prelude::*;

verus! {

/// How the walks are run and how many vertices a ranking holds.
///
/// At each step a walker follows an edge with probability
/// `follow_numerator / follow_denominator`, and otherwise jumps to a vertex
/// drawn uniformly from the whole graph.
#[derive(Clone, Copy, Debug)]
pub struct Config {
    pub follow_numerator: u32,
    pub follow_denominator: u32,
    /// Steps per walk.
    pub walk_length: usize,
    /// Walks started at each vertex.
    pub walks_per_vertex: usize,
    /// Number of vertices in a ranking.
    pub top_k: usize,
}

impl Config {
    /// The follow probability is a ratio between zero and one.
    pub open spec fn valid(&self) -> bool {
        0 < self.follow_denominator && self.follow_numerator <= self.follow_denominator
    }

    /// The configuration with a follow probability of nine in ten, a hundred
    /// steps per walk, a hundred walks per vertex, and five ranked vertices.
    pub open spec fn standard() -> Config {
        Config {
            follow_numerator: 9,
            follow_denominator: 10,
            walk_length: 100,
            walks_per_vertex: 100,
            top_k: 5,
        }
    }

    /// Whether the follow probability is a ratio between zero and one.
    pub fn is_valid(&self) -> (ok: bool)
        ensures
            ok == self.valid(),
    {
        0 < self.follow_denominator && self.follow_numerator <= self.follow_denominator
    }
}

impl Default for Config {
    fn default() -> (config: Config)
        ensures
            config == Config::standard(),
            config.valid(),
    {
        Config {
            follow_numerator: 9,
            follow_denominator: 10,
            walk_length: 100,
            walks_per_vertex: 100,
            top_k: 5,
        }
    }
}

} // verus!
