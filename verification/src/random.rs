//! Random draws. What a draw returns is not determined by its arguments:
//! each contract here states only what holds of every outcome.

use rand::seq::SliceRandom;
use rand::Rng;
use vstd::prelude::*;

verus! {

/// A number below `n`, drawn with `gen_range` of the `rand` crate on the
/// thread's generator. The range `0..n` may not be empty; the draw lies in
/// it.
#[verifier::external_body]
pub(crate) fn uniform_below(n: u64) -> (r: u64)
    requires
        n > 0,
    ensures
        r < n,
{
    rand::thread_rng().gen_range(0..n)
}

/// A coin toss, drawn with `gen` of the `rand` crate on the thread's
/// generator. Nothing is claimed of the result.
#[verifier::external_body]
pub(crate) fn toss() -> bool {
    rand::thread_rng().gen()
}

/// One of `items`, drawn with `choose` of the `rand` crate on the thread's
/// generator: nothing where there are no items, and otherwise the item at
/// some position of the list.
#[verifier::external_body]
pub(crate) fn pick<T: Copy>(items: &Vec<T>) -> (r: Option<T>)
    ensures
        items.len() == 0 <==> r is None,
        r matches Some(x) ==> items@.contains(x),
{
    items.choose(&mut rand::thread_rng()).copied()
}

} // verus!
