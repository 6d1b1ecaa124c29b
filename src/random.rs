// The random source: a seedable generator of the rand crate.
use vstd::prelude::*;
use rand::rngs::StdRng;
use rand::seq::SliceRandom;
use rand::Rng;

verus! {

#[verifier::external_type_specification]
#[verifier::external_body]
pub struct ExStdRng(StdRng);

/// Relies on rand's `SliceRandom::shuffle`: it only swaps elements, so the result is a
/// permutation of the input.
#[verifier::external_body]
pub(crate) fn shuffle_order(rng: &mut StdRng, order: &mut [usize; 4])
    ensures
        final(order)@.to_multiset() == old(order)@.to_multiset(),
{
    order.shuffle(rng);
}

/// Relies on rand's `Rng::gen_range`: a value in `0..hi`; it panics on an empty range.
#[verifier::external_body]
pub(crate) fn below(rng: &mut StdRng, hi: usize) -> (r: usize)
    requires
        hi > 0,
    ensures
        r < hi,
{
    rng.gen_range(0..hi)
}

} // verus!
