//! Randomness for the epsilon-greedy policy.

use vstd::prelude::*;

verus! {

/// Relies on rand::random_range: a sample drawn uniformly from the given
/// range by the thread-local generator, which panics only on an empty range.
/// Nothing is assumed of the outcome beyond its bound.
#[verifier::external_body]
pub(crate) fn random_below(n: u64) -> (r: u64)
    requires
        n >= 1,
    ensures
        r < n,
{
    rand::random_range(0..n)
}

} // verus!
