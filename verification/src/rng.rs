//! Trusted binding to the random number generator that drives maze carving
//! and the exploration demo.

use vstd::prelude::*;

verus! {

/// Relies on rand's thread-local generator and random_range: whatever value
/// chance yields, it lies below the bound.
#[verifier::external_body]
pub(crate) fn random_below(n: usize) -> (r: usize)
    requires
        n > 0,
    ensures
        r < n,
{
    let mut rng = rand::rng();
    rand::RngExt::random_range(&mut rng, 0..n)
}

} // verus!
