//! Trusted boundary to the `rand` crate.
//!
//! The engine owns a single `SmallRng` stream. Nothing is assumed about the
//! distribution of the draws; the only trusted fact is the range bound of
//! `rng_below`, which `gen_range` guarantees for a half-open range. Every
//! decision made from a draw is taken by a verified function that receives
//! the drawn value as an argument, so the engine's contracts hold whatever
//! comes back from these calls.

use vstd::prelude::*;
use rand::Rng;
use rand::SeedableRng;
use rand::rngs::SmallRng;

verus! {

#[verifier::external_type_specification]
#[verifier::external_body]
pub struct ExSmallRng(SmallRng);

/// Relies on rand::rngs::SmallRng::seed_from_u64 (via SeedableRng): builds a
/// small-state PRNG from a 64-bit seed.
#[verifier::external_body]
pub fn rng_from_seed(seed: u64) -> (r: SmallRng) {
    SmallRng::seed_from_u64(seed)
}

/// Relies on rand::rngs::SmallRng::from_entropy (via SeedableRng): builds a
/// small-state PRNG seeded from the operating system's entropy source. As
/// documented for `from_entropy`, the call aborts the process if that source
/// is unavailable.
#[verifier::external_body]
pub fn rng_from_entropy() -> (r: SmallRng) {
    SmallRng::from_entropy()
}

/// Relies on rand::Rng::gen_range over `0..bound`: returns a value of the
/// half-open range, hence strictly below `bound`. `gen_range` panics on an
/// empty range, so a positive bound is required.
#[verifier::external_body]
pub fn rng_below(rng: &mut SmallRng, bound: u64) -> (r: u64)
    requires
        bound >= 1,
    ensures
        r < bound,
{
    rng.gen_range(0..bound)
}

/// Relies on rand::Rng::gen for u32: returns a uniformly distributed 32-bit
/// value; every such value is a valid tick angle.
#[verifier::external_body]
pub fn rng_next_u32(rng: &mut SmallRng) -> (r: u32) {
    rng.gen()
}

} // verus!
