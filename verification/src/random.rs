//! The random draws of the library, taken from the `rand` crate.
//!
//! Nothing in this file is proved. Each function hands one request to the
//! generator, and its contract says only what holds of every draw.

use rand::rngs::StdRng;
use rand::seq::SliceRandom;
use rand::Rng;
use vstd::prelude::*;

verus! {

/// `rand::rngs::StdRng`, carried through the library as an opaque value.
#[verifier::external_type_specification]
#[verifier::external_body]
pub struct ExStdRng(StdRng);

/// Draws a number below `bound` with `rand::Rng::gen_range` on the range
/// `0..bound`. The call panics on an empty range, which `requires` leaves
/// out; it returns a value of the range.
#[verifier::external_body]
pub(crate) fn random_below(rng: &mut StdRng, bound: u128) -> (r: u128)
    requires
        bound > 0,
    ensures
        r < bound,
{
    rng.gen_range(0..bound)
}

/// Draws a boolean with `rand::Rng::gen_ratio`, true with probability
/// `numerator / denominator`. The call panics on a zero denominator and on a
/// numerator above the denominator, which `requires` leaves out. It is
/// documented to return `false` for a zero numerator and `true` where
/// numerator and denominator are equal; of the other ratios nothing is
/// claimed.
#[verifier::external_body]
pub(crate) fn random_chance(rng: &mut StdRng, numerator: u32, denominator: u32) -> (r: bool)
    requires
        0 < denominator,
        numerator <= denominator,
    ensures
        numerator == 0 ==> !r,
        numerator == denominator ==> r,
{
    rng.gen_ratio(numerator, denominator)
}

/// Reorders `items` in place with `rand::seq::SliceRandom::shuffle`, which
/// only swaps elements: the same values are there afterwards, each as often
/// as before.
#[verifier::external_body]
pub(crate) fn shuffle(items: &mut Vec<usize>, rng: &mut StdRng)
    ensures
        final(items)@.to_multiset() == old(items)@.to_multiset(),
{
    items.shuffle(rng)
}

} // verus!
