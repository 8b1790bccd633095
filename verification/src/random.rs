//! The draws that a walk makes from a random number generator.
//!
//! Nothing here is proved: each contract states what the generator's
//! documentation and source promise of every outcome, and no more.

use rand::rngs::StdRng;
use rand::seq::SliceRandom;
use rand::Rng;
use vstd::prelude::*;

verus! {

/// `rand::rngs::StdRng`. Its state is hidden: no contract speaks of it.
#[verifier::external_type_specification]
#[verifier::external_body]
pub struct ExStdRng(StdRng);

/// `Rng::gen_ratio`: a draw that is `true` with probability
/// `numerator / denominator`. The call panics on a zero denominator and on a
/// numerator above the denominator, which the precondition rules out. A ratio
/// of one always gives `true` and a ratio of zero always gives `false`; of any
/// other ratio nothing is known of a single draw.
#[verifier::external_body]
pub(crate) fn draw_ratio(rng: &mut StdRng, numerator: u32, denominator: u32) -> (hit: bool)
    requires
        0 < denominator,
        numerator <= denominator,
    ensures
        numerator == denominator ==> hit,
        numerator == 0 ==> !hit,
{
    rng.gen_ratio(numerator, denominator)
}

/// `Rng::gen_range` on `0..bound`: a draw from the integers below `bound`.
/// The call panics on an empty range, which the precondition rules out.
#[verifier::external_body]
pub(crate) fn draw_below(rng: &mut StdRng, bound: usize) -> (pick: usize)
    requires
        0 < bound,
    ensures
        pick < bound,
{
    rng.gen_range(0..bound)
}

/// `SliceRandom::choose`: one entry of `list`, each position equally likely,
/// or `None` when the list is empty.
#[verifier::external_body]
pub(crate) fn draw_entry(rng: &mut StdRng, list: &[usize]) -> (pick: Option<usize>)
    ensures
        pick is Some <==> list@.len() > 0,
        pick is Some ==> list@.contains(pick.unwrap()),
{
    list.choose(rng).copied()
}

} // verus!
