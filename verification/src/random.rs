use vstd::prelude::*;
use rand::seq::SliceRandom;

verus! {

/// Puts the items of `v` in a random order with `rand`'s `SliceRandom::shuffle`,
/// driven by the thread-local generator `rand::rng()`.
/// Trusted: the outcome is a permutation of the input (the shuffle only swaps
/// items), so the same items stay, each as often as before. Which order comes out
/// depends on chance and is left unsaid. `rand::rng()` panics only when the
/// operating system's random source fails, which no precondition can rule out.
#[verifier::external_body]
pub(crate) fn shuffle<T>(v: &mut Vec<T>)
    ensures
        final(v)@.len() == old(v)@.len(),
        final(v)@.to_multiset() == old(v)@.to_multiset(),
{
    v.shuffle(&mut rand::rng());
}

} // verus!
