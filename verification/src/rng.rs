//! The one door to randomness: a uniform draw below a bound.

use rand::Rng;
use vstd::prelude::*;

verus! {

/// Relies on `rand::Rng::gen_range` over `rand::thread_rng`: a uniform
/// draw from `0..n`, which always lies below `n`. `gen_range` panics on an
/// empty range, so the bound must be positive.
#[verifier::external_body]
pub(crate) fn random_below(n: u128) -> (r: u128)
    requires
        n >= 1,
    ensures
        r < n,
{
    rand::thread_rng().gen_range(0..n)
}

} // verus!
