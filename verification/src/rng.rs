//! Draws from the thread-local random number generator, taken on trust from
//! rand.
//!
//! Scheduling jitter and in-deck shuffling are the only random choices the
//! crate makes; everything proved about them holds for every outcome.

use vstd::prelude::*;

use rand::seq::SliceRandom;

verus! {

/// Relies on `rand::random_range`: a uniform draw from `0..n`, so always
/// below `n`; the range is non-empty, which the call demands.
#[verifier::external_body]
pub(crate) fn rand_below(n: u64) -> (r: u64)
    requires
        n >= 1,
    ensures
        r < n,
{
    rand::random_range(0..n)
}

/// Relies on `rand::seq::SliceRandom::shuffle`: a uniformly random in-place
/// permutation, so the same ids with the same multiplicities, and as many as
/// before.
#[verifier::external_body]
pub(crate) fn shuffle_ids(v: &mut Vec<usize>)
    ensures
        final(v)@.len() == old(v)@.len(),
        final(v)@.to_multiset() == old(v)@.to_multiset(),
{
    v.as_mut_slice().shuffle(&mut rand::rng());
}

} // verus!
