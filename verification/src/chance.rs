//! The random source. Nothing is known of a draw but its range, so whatever
//! is proved of a function that draws holds for every outcome.

use vstd::prelude::*;
use rand::Rng;
use rand::rngs::StdRng;

verus! {

#[verifier::external_type_specification]
#[verifier::external_body]
pub struct ExStdRng(StdRng);

/// Draws an index below `n` with `rand::Rng::gen_range` on the half-open
/// range `0..n`. Assumed, not proved: the call returns a member of the
/// range it is given. It panics on an empty range, which `n > 0` rules out.
#[verifier::external_body]
pub(crate) fn below(rng: &mut StdRng, n: usize) -> (r: usize)
    requires
        n > 0,
    ensures
        r < n,
{
    rng.gen_range(0..n)
}

/// Draws a number from `lo` to `hi`, both included, with
/// `rand::Rng::gen_range` on the closed range `lo..=hi`. Assumed, not
/// proved: the call returns a member of the range it is given. It panics on
/// an empty range, which `lo <= hi` rules out.
#[verifier::external_body]
pub(crate) fn between(rng: &mut StdRng, lo: i64, hi: i64) -> (r: i64)
    requires
        lo <= hi,
    ensures
        lo <= r <= hi,
{
    rng.gen_range(lo..=hi)
}

} // verus!
