//! Trusted boundary to the pseudo-random source. The physics engine draws
//! its tie-breaks from a single sequential `nanorand::WyRand` stream; nothing
//! is assumed of a draw beyond its range, so every caller is verified for
//! every outcome.

use vstd::prelude::*;

verus! {

#[verifier::external_type_specification]
#[verifier::external_body]
pub struct ExWyRand(nanorand::WyRand);

/// Relies on nanorand's `Rng::generate` for `bool`: one draw from the
/// stream. Nothing can be promised of a random boolean.
#[verifier::external_body]
pub(crate) fn rng_bool(rng: &mut nanorand::WyRand) -> bool {
    nanorand::Rng::generate(rng)
}

/// Relies on nanorand's `Rng::generate_range` over `0..n`: a draw strictly
/// below `n`, by multiply-shift with rejection. It panics only on a reversed
/// range, which `n > 0` rules out.
#[verifier::external_body]
pub(crate) fn rng_below(rng: &mut nanorand::WyRand, n: usize) -> (r: usize)
    requires
        n > 0,
    ensures
        r < n,
{
    nanorand::Rng::generate_range(rng, 0..n)
}

} // verus!
