//! The random source of the generator. The library draws all randomness
//! through these two calls; everything that depends on a draw is verified
//! for every value the draw could take.

use vstd::prelude::*;

verus! {

#[verifier::external_type_specification]
#[verifier::external_body]
pub struct ExRng(fastrand::Rng);

/// Relies on fastrand::Rng::usize: a value drawn from the given range, which
/// for `0..bound` with `bound >= 1` is non-empty, so the call returns a value
/// below `bound` and does not panic.
#[verifier::external_body]
pub fn rng_below(rng: &fastrand::Rng, bound: usize) -> (r: usize)
    requires
        bound >= 1,
    ensures
        r < bound,
{
    rng.usize(0..bound)
}

/// Relies on fastrand::Rng::new: a fresh generator with an arbitrary seed;
/// nothing can be promised of it.
#[verifier::external_body]
pub fn rng_new() -> fastrand::Rng {
    fastrand::Rng::new()
}

/// Relies on fastrand::Rng::bool: a coin flip; nothing can be promised of it.
#[verifier::external_body]
pub fn rng_coin(rng: &fastrand::Rng) -> bool {
    rng.bool()
}

} // verus!
