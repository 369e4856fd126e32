//! The crate's only source of randomness, kept behind one trusted wrapper so
//! the sampling logic above it can be verified for every possible outcome.

use rand::Rng;
use vstd::prelude::*;

verus! {

/// Relies on `rand::thread_rng` and `rand::Rng::gen_range` over a half-open
/// `i64` range: the result lies in `[lo, hi)`, and the call panics only on an
/// empty range, which the precondition rules out.
#[verifier::external_body]
pub(crate) fn rand_in_range(lo: i64, hi: i64) -> (r: i64)
    requires
        lo < hi,
    ensures
        lo <= r < hi,
{
    rand::thread_rng().gen_range(lo..hi)
}

} // verus!
