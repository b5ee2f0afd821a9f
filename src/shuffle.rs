//! Random reordering of sequences that leave a party, so that their order tells
//! nothing beyond their contents.
use vstd::prelude::*;

verus! {

/// Relies on `rand::seq::SliceRandom::shuffle` with `rand::rng()`: the elements
/// are permuted in place, none added or lost.
#[verifier::external_body]
pub(crate) fn shuffle<T>(v: &mut Vec<T>)
    ensures
        final(v)@.to_multiset() == old(v)@.to_multiset(),
{
    rand::seq::SliceRandom::shuffle(v.as_mut_slice(), &mut rand::rng());
}

} // verus!
