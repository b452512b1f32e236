//! The engine's sources of chance.
//!
//! Every function here hands a request to the `rand` crate's thread-local
//! generator. Their bodies are not verified: each contract states what the
//! generator's documentation and source promise of every outcome, and
//! nothing about which outcome comes.

use crate::card::Card;
use rand::seq::SliceRandom;
use rand::Rng;
use vstd::prelude::*;

verus! {

/// `rand::Rng::gen_range` over the half-open range `low..high`.
///
/// The generator panics on an empty range, so one is not accepted here. The
/// sample lies in the range.
#[verifier::external_body]
pub(crate) fn random_in_range(low: usize, high: usize) -> (n: usize)
    requires
        low < high,
    ensures
        low <= n < high,
{
    rand::thread_rng().gen_range(low..high)
}

/// `rand::Rng::gen_ratio`: `true` with `numerator` chances in
/// `denominator`.
///
/// The generator panics on a zero denominator and on a ratio above one, so
/// neither is accepted here. Its documentation fixes the result at the two
/// ends, no chance and every chance, and nowhere else.
#[verifier::external_body]
pub(crate) fn chance(numerator: u32, denominator: u32) -> (hit: bool)
    requires
        denominator > 0,
        numerator <= denominator,
    ensures
        numerator == 0 ==> !hit,
        numerator == denominator ==> hit,
{
    rand::thread_rng().gen_ratio(numerator, denominator)
}

/// `rand::seq::SliceRandom::shuffle`, which reorders the slice by swapping
/// its elements: the same cards remain, each as often as before.
#[verifier::external_body]
pub(crate) fn shuffle(cards: &mut Vec<Card>)
    ensures
        final(cards)@.to_multiset() == old(cards)@.to_multiset(),
{
    cards.shuffle(&mut rand::thread_rng());
}

/// `rand::seq::SliceRandom::choose`, which gives nothing for an empty slice
/// and otherwise a reference to one of the slice's elements.
#[verifier::external_body]
pub(crate) fn pick_one(cards: &Vec<Card>) -> (picked: Option<&Card>)
    ensures
        picked is None <==> cards@.len() == 0,
        picked matches Some(card) ==> cards@.contains(*card),
{
    cards.choose(&mut rand::thread_rng())
}

} // verus!
