//! Contracts that are taken on trust for functions of outside code:
//! parts of std that vstd leaves unspecified, and the random shuffle.
use vstd::prelude::*;

use rand::seq::SliceRandom;

verus! {

/// Relies on rand's SliceRandom::shuffle: it permutes the elements of the
/// slice in place by swaps, so the elements form the same multiset after.
#[verifier::external_body]
pub fn shuffle_chars(v: &mut Vec<char>)
    ensures
        final(v)@.to_multiset() == old(v)@.to_multiset(),
{
    v.as_mut_slice().shuffle(&mut rand::thread_rng());
}

/// Relies on String::push: appends the character to the string.
pub assume_specification[ String::push ](s: &mut String, ch: char)
    ensures
        final(s)@ == old(s)@.push(ch),
;

} // verus!
