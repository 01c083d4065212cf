//! The library's only source of randomness: thin wrappers around the
//! `rand` crate. Nothing is assumed of an outcome beyond what holds of
//! every draw.

use vstd::prelude::*;

use rand::seq::SliceRandom;
use rand::Rng;

verus! {

/// Relies on rand's `Rng::gen_range` over `0..n`: the draw lies below
/// `n`. The call panics on an empty range, hence the precondition.
#[verifier::external_body]
pub(crate) fn rand_below(n: usize) -> (r: usize)
    requires
        n > 0,
    ensures
        r < n,
{
    rand::thread_rng().gen_range(0..n)
}

/// Relies on rand's `SliceRandom::choose`: the draw is one of the
/// slice's elements; `None` comes only from an empty slice, which the
/// precondition rules out.
#[verifier::external_body]
pub(crate) fn rand_element(v: &Vec<usize>) -> (r: usize)
    requires
        v@.len() > 0,
    ensures
        v@.contains(r),
{
    *v.choose(&mut rand::thread_rng()).unwrap()
}

/// Relies on rand's `SliceRandom::shuffle`: the slice is reordered in
/// place, keeping exactly the same elements.
#[verifier::external_body]
pub(crate) fn rand_shuffle(v: &mut Vec<usize>)
    ensures
        final(v)@.to_multiset() == old(v)@.to_multiset(),
        final(v)@.len() == old(v)@.len(),
{
    v.shuffle(&mut rand::thread_rng());
}

} // verus!
