//! The one source of randomness: a draw below a bound, used by the
//! random difficulty tier.

use vstd::prelude::*;

verus! {

/// Relies on rand::Rng::gen_range over `0..n`: the sample lies in the
/// range, and the call panics only on an empty range, which the
/// precondition rules out. Nothing else is assumed of the draw.
#[verifier::external_body]
pub(crate) fn random_below(n: usize) -> (r: usize)
    requires
        n > 0,
    ensures
        r < n,
{
    rand::Rng::gen_range(&mut rand::thread_rng(), 0..n)
}

} // verus!
