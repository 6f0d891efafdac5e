//! The source of chance of the search.

use rand::Rng;
use vstd::prelude::*;

verus! {

/// A number below `n`, drawn afresh at each call.
///
/// The body asks `rand::thread_rng` for the generator of the current thread
/// and calls `rand::Rng::gen_range` on it with the range `0..n`. This is
/// trusted, not proved: `gen_range` panics on an empty range only, which
/// `n > 0` rules out, and what it samples lies in the range it was given.
/// Nothing is claimed about which number comes out, so two calls with the
/// same `n` may differ. (`thread_rng` panics where the system cannot seed
/// the generator; no condition on `n` can rule that out.)
#[verifier::external_body]
pub(crate) fn random_index(n: usize) -> (k: usize)
    requires
        n > 0,
    ensures
        k < n,
{
    rand::thread_rng().gen_range(0..n)
}

} // verus!
