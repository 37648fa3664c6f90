//! The choices that are left to chance.
use rand::seq::{IteratorRandom, SliceRandom};
use vstd::prelude::*;

verus! {

/// `SliceRandom::shuffle`, drawing from the thread's generator, permutes the items. Which
/// permutation comes out is left to chance.
#[verifier::external_body]
pub(crate) fn shuffle<T>(items: &mut Vec<T>)
    ensures
        final(items)@.to_multiset() == old(items)@.to_multiset(),
{
    items.shuffle(&mut rand::rng());
}

/// `IteratorRandom::sample`, drawing from the thread's generator, picks `amount` of the
/// items, or all if there are fewer, each at most as often as it occurs. Which ones, and in
/// what order, is left to chance.
#[verifier::external_body]
pub(crate) fn sample<T>(items: Vec<T>, amount: usize) -> (picked: Vec<T>)
    ensures
        picked@.len() == if items@.len() < amount {
            items@.len()
        } else {
            amount as nat
        },
        picked@.to_multiset().subset_of(items@.to_multiset()),
{
    items.into_iter().sample(&mut rand::rng(), amount)
}

/// `IteratorRandom::choose`, drawing from the thread's generator, picks one of the items,
/// none only if there is none. Which one is left to chance.
#[verifier::external_body]
pub(crate) fn pick_one<T>(items: Vec<T>) -> (picked: Option<T>)
    ensures
        picked is None <==> items@.len() == 0,
        picked matches Some(item) ==> items@.contains(item),
{
    items.into_iter().choose(&mut rand::rng())
}

} // verus!
