//! The random draws the solvers make, taken from the `rand` crate.
//!
//! The bodies of these functions are not verified: each one makes a single
//! call into `rand`, and its contract is taken on trust.

use rand::seq::SliceRandom;
use rand::Rng;
use vstd::prelude::*;

verus! {

/// Draws an index from `low..high` with `Rng::random_range` on the thread's
/// generator. `random_range` panics on an empty range, which the
/// precondition rules out. Of the value drawn the contract claims only that
/// it lies in the range.
#[verifier::external_body]
pub(crate) fn random_index(low: usize, high: usize) -> (r: usize)
    requires
        low < high,
    ensures
        low <= r < high,
{
    rand::rng().random_range(low..high)
}

/// Draws a number below `bound` with `Rng::random_range` on the thread's
/// generator. `random_range` panics on an empty range, which the
/// precondition rules out. Of the value drawn the contract claims only that
/// it lies below the bound.
#[verifier::external_body]
pub(crate) fn random_rank(bound: u128) -> (r: u128)
    requires
        bound > 0,
    ensures
        r < bound,
{
    rand::rng().random_range(0..bound)
}

/// Draws a coordinate from `min..max` with `Rng::random_range` on the
/// thread's generator. `random_range` panics on an empty range, which the
/// precondition rules out. Of the value drawn the contract claims only that
/// it lies in the range.
#[verifier::external_body]
pub(crate) fn random_coordinate(min: i32, max: i32) -> (r: i32)
    requires
        min < max,
    ensures
        min <= r < max,
{
    rand::rng().random_range(min..max)
}

/// Reorders `path` in place with `SliceRandom::shuffle` on the thread's
/// generator. The shuffle only swaps elements, so the contract claims that
/// the elements afterwards are those before, each as often as before; it
/// says nothing of their order.
#[verifier::external_body]
pub(crate) fn shuffle(path: &mut Vec<usize>)
    ensures
        final(path)@.to_multiset() == old(path)@.to_multiset(),
{
    path.shuffle(&mut rand::rng());
}

} // verus!
