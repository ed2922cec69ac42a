//! The random number generator that drives the simulated searches:
//! `rand_pcg`'s `Mcg128Xsl64` (`Pcg64Mcg`), reached through `rand`'s traits.

use vstd::prelude::*;
use rand_pcg::Mcg128Xsl64;

verus! {

#[verifier::external_type_specification]
#[verifier::external_body]
pub struct ExMcg128Xsl64(rand_pcg::Mcg128Xsl64);

/// `rand::RngCore::next_u32` on an `Mcg128Xsl64`: the next 32 bits of the
/// generator's output. Nothing is claimed of the value.
#[verifier::external_body]
pub(crate) fn next_u32(rng: &mut Mcg128Xsl64) -> (r: u32) {
    rand::RngCore::next_u32(rng)
}

/// `rand::RngCore::next_u64` on an `Mcg128Xsl64`: the next 64 bits of the
/// generator's output (what `rand` draws for each `u64` it hands out).
/// Nothing is claimed of the value.
#[verifier::external_body]
pub(crate) fn next_u64(rng: &mut Mcg128Xsl64) -> (r: u64) {
    rand::RngCore::next_u64(rng)
}

/// `rand::Rng::random_range` with the half-open range `0..bound`: claimed
/// only to be below `bound`. The range must not be empty (the call panics
/// on an empty range).
#[verifier::external_body]
pub(crate) fn random_below(rng: &mut Mcg128Xsl64, bound: usize) -> (r: usize)
    requires
        bound > 0,
    ensures
        r < bound,
{
    rand::Rng::random_range(rng, 0..bound)
}

/// `rand::Rng::random_range` with the half-open range `0..bound` of `u32`:
/// claimed only to be below `bound`. The range must not be empty (the call
/// panics on an empty range).
#[verifier::external_body]
pub(crate) fn random_below_u32(rng: &mut Mcg128Xsl64, bound: u32) -> (r: u32)
    requires
        bound > 0,
    ensures
        r < bound,
{
    rand::Rng::random_range(rng, 0..bound)
}

/// `rand::Rng::random_range` with the closed range `0..=max`: claimed only
/// to be at most `max`.
#[verifier::external_body]
pub(crate) fn random_at_most(rng: &mut Mcg128Xsl64, max: usize) -> (r: usize)
    ensures
        r <= max,
{
    rand::Rng::random_range(rng, 0..=max)
}

/// The value that `rand::Rng::random_range(0..bound)` draws from an
/// `Mcg128Xsl64` made by `rand::SeedableRng::seed_from_u64(seed)` and then
/// moved `skip` outputs ahead by `Mcg128Xsl64::advance`. The generator's
/// state after seeding is a function of `seed` alone, and each step of it a
/// function of the state, so the value is one of the three arguments alone.
pub uninterp spec fn seeded_draw_below(seed: u64, skip: u128, bound: usize) -> usize;

/// Draws below `bound` from a fresh generator seeded with `seed` and
/// advanced `skip` outputs: `seed_from_u64`, then `advance`, then
/// `random_range(0..bound)`. Claimed: the draw is below `bound`, and it is
/// `seeded_draw_below(seed, skip, bound)`. The range must not be empty (the
/// draw panics on an empty range).
#[verifier::external_body]
pub(crate) fn seeded_below(seed: u64, skip: u128, bound: usize) -> (r: usize)
    requires
        bound > 0,
    ensures
        r < bound,
        r == seeded_draw_below(seed, skip, bound),
{
    let mut rng: Mcg128Xsl64 = rand::SeedableRng::seed_from_u64(seed);
    rng.advance(skip);
    rand::Rng::random_range(&mut rng, 0..bound)
}

} // verus!
