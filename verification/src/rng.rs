//! The engine's only source of randomness: rand's `StdRng`, reached through
//! a few trusted wrappers.  Each search owns one `StdRng` value; nothing
//! here is shared between searches.

use vstd::prelude::*;
use crate::PROB_ONE;

verus! {

/// rand's standard generator, declared so that it can stand in signatures.
/// The engine never looks inside it.
#[verifier::external_type_specification]
#[verifier::external_body]
pub struct ExStdRng(rand::rngs::StdRng);

/// Relies on rand's `RngExt::random_range` over `0..n`: it panics only on
/// an empty range and returns a value of the range, so the draw is below
/// `n`.  Which value comes back is left open: the draw is random.
#[verifier::external_body]
pub(crate) fn rng_below(rng: &mut rand::rngs::StdRng, n: usize) -> (r: usize)
    requires
        n >= 1,
    ensures
        r < n,
{
    rand::RngExt::random_range(rng, 0..n)
}

/// Relies on rand's `Rng::next_u32`: an arbitrary 32-bit draw.  Nothing is
/// promised of the value.
#[verifier::external_body]
pub(crate) fn rng_draw32(rng: &mut rand::rngs::StdRng) -> (r: u32) {
    rand::Rng::next_u32(rng)
}

/// Relies on rand's `SeedableRng::seed_from_u64`: a fresh generator from a
/// 64-bit seed.  Nothing is promised of its state.
#[verifier::external_body]
pub(crate) fn rng_from_seed(seed: u64) -> (r: rand::rngs::StdRng) {
    <rand::rngs::StdRng as rand::SeedableRng>::seed_from_u64(seed)
}

/// Draws true with probability `chance / 2^32`: a 32-bit draw lies below
/// `chance` that often.  The endpoints are exact — a zero chance never
/// fires and [`PROB_ONE`] always does.
pub(crate) fn flip(rng: &mut rand::rngs::StdRng, chance: u64) -> (b: bool)
    requires
        chance <= PROB_ONE,
    ensures
        chance == 0 ==> !b,
        chance == PROB_ONE ==> b,
{
    let draw = rng_draw32(rng);
    (draw as u64) < chance
}

} // verus!
