//! The randomness behind the shuffle. The generator and the one call that
//! consumes it are outside code taken on trust; everything stated of them
//! is what the `rand` crate documents.
use vstd::prelude::*;

use rand::seq::SliceRandom;

use crate::datatypes::vals;
use crate::datatypes::Number;

verus! {

#[verifier::external_type_specification]
#[verifier::external_body]
pub struct ExThreadRng(rand::rngs::ThreadRng);

/// Relies on rand::thread_rng: a handle to the calling thread's generator.
/// Nothing can be promised of the values it will produce.
#[verifier::external_body]
pub fn fresh_rng() -> (rng: rand::rngs::ThreadRng) {
    rand::thread_rng()
}

/// Relies on rand's SliceRandom::shuffle, a Fisher-Yates pass of in-place
/// swaps: the elements are permuted, so their multiset, the multiset of
/// their values, and their number are unchanged. Which permutation comes
/// out depends on the generator, so nothing more is stated.
#[verifier::external_body]
pub fn shuffle_slice(v: &mut Vec<Number>, rng: &mut rand::rngs::ThreadRng)
    ensures
        final(v)@.to_multiset() == old(v)@.to_multiset(),
        vals(final(v)@).to_multiset() == vals(old(v)@).to_multiset(),
        final(v)@.len() == old(v)@.len(),
{
    v.shuffle(rng);
}

} // verus!
