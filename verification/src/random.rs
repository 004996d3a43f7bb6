//! The random choices that the generators make.

use rand::rngs::ThreadRng;
use rand::seq::IteratorRandom;
use rand::Rng;
use vstd::prelude::*;

verus! {

#[verifier::external_type_specification]
#[verifier::external_body]
pub struct ExThreadRng(ThreadRng);

/// Draws one index below `len` with `rand::seq::IteratorRandom::choose` on
/// the range `0..len`.
///
/// `choose` returns `None` if and only if the iterator is empty, and otherwise
/// one of its items; which one is left open.
#[verifier::external_body]
pub(crate) fn choose_index(rng: &mut ThreadRng, len: usize) -> (picked: Option<usize>)
    ensures
        len == 0 <==> picked is None,
        picked matches Some(i) ==> i < len,
{
    (0..len).choose(rng)
}

/// Tosses a fair coin with `rand::Rng::gen_ratio(1, 2)`.
///
/// Nothing is promised of the outcome.
#[verifier::external_body]
pub(crate) fn toss(rng: &mut ThreadRng) -> (heads: bool)
{
    rng.gen_ratio(1, 2)
}

} // verus!
