//! The estimator: bounded random walks from every vertex, tallied by the
//! vertex on which each walk ends.

use crate::config::Config;
use crate::graph::DirectedGraph;
use crate::random::{draw_below, draw_entry, draw_ratio};
use rand::rngs::StdRng;
use vstd::prelude::*;

verus! {

/// The sum of the entries of `hits`.
pub open spec fn total(hits: Seq<u64>) -> nat
    decreases hits.len(),
{
    if hits.len() == 0 {
        0
    } else {
        total(hits.drop_last()) + hits.last() as nat
    }
}

/// The outcome of an estimate: `hits[v]` of the `walks` walks ended on vertex
/// `v`, so the score of `v` is the fraction `hits[v] / walks`.
pub struct Scores {
    pub hits: Vec<u64>,
    pub walks: u64,
}

impl Scores {
    /// Every walk ended on exactly one vertex: the hits add up to the number
    /// of walks, and so the scores, where there are any, add up to one.
    pub open spec fn conserved(&self) -> bool {
        total(self.hits@) == self.walks
    }

    /// The scores are those of an estimate on a graph of `count` vertices
    /// with `per_vertex` walks from each.
    pub open spec fn estimates(&self, count: usize, per_vertex: usize) -> bool {
        &&& self.hits@.len() == count
        &&& self.walks == count * per_vertex
        &&& self.conserved()
    }
}

/// No entry of `hits` exceeds their sum.
pub proof fn lemma_entry_within_total(hits: Seq<u64>, at: int)
    requires
        0 <= at < hits.len(),
    ensures
        hits[at] <= total(hits),
    decreases hits.len(),
{
    if at < hits.len() - 1 {
        lemma_entry_within_total(hits.drop_last(), at);
    }
}

/// Counting one more hit on a vertex raises the sum by one.
pub proof fn lemma_total_after_hit(hits: Seq<u64>, at: int)
    requires
        0 <= at < hits.len(),
        hits[at] < u64::MAX,
    ensures
        total(hits.update(at, (hits[at] + 1) as u64)) == total(hits) + 1,
    decreases hits.len(),
{
    let after = hits.update(at, (hits[at] + 1) as u64);
    if at < hits.len() - 1 {
        lemma_total_after_hit(hits.drop_last(), at);
        assert(after.drop_last() =~= hits.drop_last().update(at, (hits[at] + 1) as u64));
    } else {
        assert(after.drop_last() =~= hits.drop_last());
    }
}

/// A tally without hits sums to zero.
pub proof fn lemma_total_of_zeros(hits: Seq<u64>)
    requires
        forall|i: int| 0 <= i < hits.len() ==> hits[i] == 0,
    ensures
        total(hits) == 0,
    decreases hits.len(),
{
    if hits.len() > 0 {
        lemma_total_of_zeros(hits.drop_last());
    }
}

/// The scores of an estimate on a graph with vertices add up to one: the
/// hits add up to the number of walks, of which there is at least one.
pub proof fn lemma_mass_conserved(scores: Scores, count: usize, per_vertex: usize)
    requires
        scores.estimates(count, per_vertex),
        count > 0,
        per_vertex > 0,
    ensures
        total(scores.hits@) == scores.walks,
        scores.walks > 0,
{
    assert(count * per_vertex > 0) by (nonlinear_arith)
        requires
            count > 0,
            per_vertex > 0,
    ;
}

impl DirectedGraph {
    /// Whether a walker at `at` follows an edge, given its draw: it does when
    /// the draw says so and `at` has a successor to go to.
    pub open spec fn follows(&self, at: usize, hit: bool) -> bool {
        hit && self.successors(at).len() > 0
    }

    /// Decides one step of a walk from the draw that was made for it.
    pub fn follows_edge(&self, at: usize, hit: bool) -> (follow: bool)
        ensures
            follow == self.follows(at, hit),
    {
        hit && self.neighbors(at).len() > 0
    }

    /// One step can take a walker from `at` to `next`: along an edge, unless
    /// the walker never follows one, or by a jump to any vertex, unless the
    /// walker always follows an edge and `at` has one.
    pub open spec fn may_step(&self, config: &Config, at: usize, next: usize) -> bool {
        ||| config.follow_numerator > 0 && self.successors(at).contains(next)
        ||| (config.follow_numerator < config.follow_denominator || self.successors(at).len() == 0)
            && next < self.vertex_count()
    }

    /// One step of a walk: from `at` along an edge to one of its successors,
    /// or by a jump to any vertex of the graph.
    pub fn step(&self, at: usize, config: &Config, rng: &mut StdRng) -> (next: usize)
        requires
            config.valid(),
            at < self.vertex_count(),
        ensures
            next < self.vertex_count(),
            self.may_step(config, at, next),
    {
        let hit = draw_ratio(rng, config.follow_numerator, config.follow_denominator);
        if self.follows_edge(at, hit) {
            match draw_entry(rng, self.neighbors(at)) {
                Some(next) => next,
                // Not reached: a walker follows only where there is a successor.
                None => at,
            }
        } else {
            draw_below(rng, self.vertices())
        }
    }

    /// A walk of `steps` steps can take a walker from `start` to `end`: a
    /// walk of no steps ends where it starts, and a longer one ends one
    /// possible step after a vertex that a walk of one step less can reach.
    pub open spec fn may_reach(&self, config: &Config, start: usize, end: usize, steps: nat) -> bool
        decreases steps,
    {
        if steps == 0 {
            end == start
        } else {
            exists|mid: usize|
                mid < self.vertex_count() && self.may_reach(config, start, mid, (steps - 1) as nat)
                    && #[trigger] self.may_step(config, mid, end)
        }
    }

    /// A walk that can reach `mid` can reach, with one step more, every
    /// vertex that one step from `mid` can take it to.
    pub proof fn lemma_reach_extends(
        &self,
        config: &Config,
        start: usize,
        mid: usize,
        end: usize,
        steps: nat,
    )
        requires
            mid < self.vertex_count(),
            self.may_reach(config, start, mid, steps),
            self.may_step(config, mid, end),
        ensures
            self.may_reach(config, start, end, steps + 1),
    {
        assert((steps + 1 - 1) as nat == steps);
    }

    /// One walk of `config.walk_length` steps from `start`; returns the
    /// vertex on which it ends, which that many steps, each of them a
    /// possible one, lead to from `start`.
    pub fn walk(&self, start: usize, config: &Config, rng: &mut StdRng) -> (end: usize)
        requires
            config.valid(),
            start < self.vertex_count(),
        ensures
            end < self.vertex_count(),
            self.may_reach(config, start, end, config.walk_length as nat),
            config.walk_length == 0 ==> end == start,
    {
        let mut at = start;
        let mut taken: usize = 0;
        while taken < config.walk_length
            invariant
                config.valid(),
                taken <= config.walk_length,
                at < self.vertex_count(),
                self.may_reach(config, start, at, taken as nat),
            decreases config.walk_length - taken,
        {
            let next = self.step(at, config, rng);
            proof {
                self.lemma_reach_extends(config, start, at, next, taken as nat);
            }
            at = next;
            taken = taken + 1;
        }
        at
    }

    /// Runs `config.walks_per_vertex` walks from every vertex and counts, for
    /// each vertex, the walks that ended on it.
    pub fn pagerank_with(&self, config: &Config, rng: &mut StdRng) -> (scores: Scores)
        requires
            config.valid(),
            self.vertex_count() * config.walks_per_vertex <= u64::MAX,
        ensures
            scores.estimates(self.vertex_count(), config.walks_per_vertex),
            config.walk_length == 0 ==> forall|v: int|
                0 <= v < scores.hits@.len() ==> scores.hits@[v] == config.walks_per_vertex,
    {
        let count = self.vertices();
        let per_vertex = config.walks_per_vertex;
        let mut hits: Vec<u64> = vec![0u64; count];
        let mut walks: u64 = 0;
        proof {
            lemma_total_of_zeros(hits@);
        }
        let mut start: usize = 0;
        while start < count
            invariant
                config.valid(),
                count == self.vertex_count(),
                per_vertex == config.walks_per_vertex,
                count * per_vertex <= u64::MAX,
                start <= count,
                hits@.len() == count,
                walks == start * per_vertex,
                total(hits@) == walks,
                config.walk_length == 0 ==> forall|v: int|
                    0 <= v < count ==> hits@[v] == if v < start {
                        per_vertex
                    } else {
                        0
                    },
            decreases count - start,
        {
            let mut run: usize = 0;
            while run < per_vertex
                invariant
                    config.valid(),
                    count == self.vertex_count(),
                    per_vertex == config.walks_per_vertex,
                    count * per_vertex <= u64::MAX,
                    start < count,
                    run <= per_vertex,
                    hits@.len() == count,
                    walks == start * per_vertex + run,
                    total(hits@) == walks,
                    config.walk_length == 0 ==> forall|v: int|
                        0 <= v < count ==> hits@[v] == if v < start {
                            per_vertex
                        } else if v == start {
                            run
                        } else {
                            0
                        },
                decreases per_vertex - run,
            {
                let end = self.walk(start, config, rng);
                proof {
                    assert(start * per_vertex + run < count * per_vertex) by (nonlinear_arith)
                        requires
                            start < count,
                            run < per_vertex,
                    ;
                    lemma_entry_within_total(hits@, end as int);
                    lemma_total_after_hit(hits@, end as int);
                }
                let seen = hits[end];
                hits.set(end, seen + 1);
                walks = walks + 1;
                run = run + 1;
            }
            proof {
                assert(start * per_vertex + per_vertex == (start + 1) * per_vertex)
                    by (nonlinear_arith);
            }
            start = start + 1;
        }
        Scores { hits, walks }
    }

    /// The estimate with the standard configuration.
    pub fn pagerank(&self, rng: &mut StdRng) -> (scores: Scores)
        requires
            self.vertex_count() * Config::standard().walks_per_vertex <= u64::MAX,
        ensures
            scores.estimates(self.vertex_count(), Config::standard().walks_per_vertex),
    {
        let config = Config::default();
        self.pagerank_with(&config, rng)
    }
}

} // verus!
