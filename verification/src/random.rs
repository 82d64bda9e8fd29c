//! The random draws the animations make, from the `rand` crate.

use rand::seq::SliceRandom;
use vstd::prelude::*;

verus! {

/// A number drawn from `0..n` by `rand::random_range` (the thread-local
/// generator). Its contract claims only that the number lies in the range,
/// which holds of every outcome; `random_range` panics on an empty range,
/// which `n > 0` rules out.
#[verifier::external_body]
pub(crate) fn random_below(n: usize) -> (r: usize)
    requires
        n > 0,
    ensures
        r < n,
{
    rand::random_range(0..n)
}

/// Shuffles `v` with `rand::seq::SliceRandom::shuffle` and the generator of
/// `rand::rng()`. Its contract claims only that the result is a permutation
/// of `v` (the same multiset of items), which holds of every outcome.
#[verifier::external_body]
pub(crate) fn shuffle_indices(v: &mut Vec<usize>)
    ensures
        final(v)@.to_multiset() == old(v)@.to_multiset(),
{
    let mut rng = rand::rng();
    v.shuffle(&mut rng);
}

} // verus!
