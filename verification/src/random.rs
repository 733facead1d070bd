//! The random choices of the generator, made by the `rand` crate.
//!
//! Nothing here is proved: each contract states what `rand` documents of
//! the call, for every outcome. The thread's generator takes its seed from
//! the operating system and panics when it gets none; no argument of these
//! calls decides that.

use rand::rngs::ThreadRng;
use rand::seq::{IndexedRandom, SliceRandom};
use rand::Rng;
use vstd::prelude::*;

verus! {

/// `rand::rngs::ThreadRng`, the handle to the thread's generator. Nothing
/// is known of its state.
#[verifier::external_type_specification]
#[verifier::external_body]
pub struct ExThreadRng(ThreadRng);

/// `rand::rng`: hands out the handle to the thread's generator. Nothing is
/// claimed of it.
pub assume_specification[ rand::rng ]() -> ThreadRng
;

/// `Rng::random::<u32>`: any `u32` may come back, so nothing is claimed.
#[verifier::external_body]
pub(crate) fn random_u32(rng: &mut ThreadRng) -> u32 {
    rng.random::<u32>()
}

/// `IndexedRandom::choose` on a slice: `None` for an empty slice, else one
/// of its elements. Which one is not claimed.
#[verifier::external_body]
pub(crate) fn choose_value(values: &Vec<u8>, rng: &mut ThreadRng) -> (picked: Option<u8>)
    ensures
        values@.len() == 0 ==> picked is None,
        values@.len() > 0 ==> picked is Some && values@.contains(picked.unwrap()),
{
    values.choose(rng).copied()
}

/// `SliceRandom::shuffle` on a slice: the elements are swapped among
/// themselves, so what comes back holds each element as often as before.
/// In which order is not claimed.
#[verifier::external_body]
pub(crate) fn shuffle(order: &mut Vec<usize>, rng: &mut ThreadRng)
    ensures
        final(order)@.to_multiset() == old(order)@.to_multiset(),
{
    order.shuffle(rng);
}

} // verus!
