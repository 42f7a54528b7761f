//! Random choices, drawn from the `rand` crate's thread-local generator.
use vstd::prelude::*;
use rand::seq::IteratorRandom;

verus! {

/// Calls `rand::random_range(0..bound)`, which draws a number uniformly from
/// `0..bound`. The contract claims only that the number lies in the range (the
/// crate asserts the range is non-empty, hence the `requires`); which number
/// comes back is chance.
#[verifier::external_body]
pub(crate) fn random_below(bound: u32) -> (r: u32)
    requires
        bound > 0,
    ensures
        r < bound,
{
    rand::random_range(0..bound)
}

/// Calls `IteratorRandom::choose` on the range `0..count` with the thread-local
/// generator (`rand::rng()`). For a range, whose size hint is exact, the crate
/// returns `None` when the range is empty and otherwise one element of it,
/// drawn uniformly; the contract claims exactly that, and not which element.
#[verifier::external_body]
pub(crate) fn choose_below(count: usize) -> (r: Option<usize>)
    ensures
        r is None <==> count == 0,
        r matches Some(i) ==> i < count,
{
    (0..count).choose(&mut rand::rng())
}

} // verus!
