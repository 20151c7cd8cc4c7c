use vstd::prelude::*;
use rand::seq::SliceRandom;
use crate::keyed::views;

verus! {

/// Puts `v` in a random order, through `rand`'s `SliceRandom::shuffle` (a Fisher-Yates
/// shuffle made of swaps) on the thread-local generator. Claimed: the same strings, each as
/// often as before; which order comes out is left open.
#[verifier::external_body]
pub(crate) fn shuffle_strings(v: &mut Vec<String>)
    ensures
        final(v)@.len() == old(v)@.len(),
        views(final(v)@).to_multiset() == views(old(v)@).to_multiset(),
{
    v.shuffle(&mut rand::thread_rng());
}

/// Picks one element of `c` at random, through `rand`'s `SliceRandom::choose` on the
/// thread-local generator. Claimed: `None` exactly when `c` is empty, and otherwise one of
/// its elements; which one is left open.
#[verifier::external_body]
pub(crate) fn choose_index(c: &Vec<usize>) -> (r: Option<usize>)
    ensures
        r is None <==> c@.len() == 0,
        r matches Some(x) ==> c@.contains(x),
{
    c.choose(&mut rand::thread_rng()).copied()
}

} // verus!
