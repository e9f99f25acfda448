use rand::seq::SliceRandom;
use rand::Rng;
use vstd::prelude::*;

verus! {

/// Relies on `rand::seq::SliceRandom::shuffle`, fed by `rand::thread_rng`:
/// the slice is reordered by a pass of swaps, so it keeps the same items.
#[verifier::external_body]
pub(crate) fn shuffle<T>(v: &mut Vec<T>)
    ensures
        final(v)@.to_multiset() == old(v)@.to_multiset(),
{
    v.shuffle(&mut rand::thread_rng());
}

/// Relies on `rand::Rng::gen_range`, fed by `rand::thread_rng`: a value drawn
/// from `lo..hi`. It panics on an empty range, which `requires` rules out.
#[verifier::external_body]
pub(crate) fn random_in(lo: usize, hi: usize) -> (r: usize)
    requires
        lo < hi,
    ensures
        lo <= r < hi,
{
    rand::thread_rng().gen_range(lo..hi)
}

} // verus!
