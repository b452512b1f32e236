//! The cards a player holds.

use crate::card::{Card, Suit};
use crate::census::all_ranked;
use crate::chance::pick_one;
use crate::error::GameError;
use vstd::prelude::*;

verus! {

broadcast use vstd::seq_lib::group_to_multiset_ensures;

/// A player's hand. The order of its cards carries no meaning.
#[derive(Debug)]
pub struct Hand {
    pub(crate) cards: Vec<Card>,
}

impl View for Hand {
    type V = Seq<Card>;

    /// The cards of the hand in the order in which they are stored.
    open(crate) spec fn view(&self) -> Seq<Card> {
        self.cards@
    }
}

impl Default for Hand {
    /// The empty hand.
    fn default() -> (hand: Hand)
        ensures
            hand@ == Seq::<Card>::empty(),
    {
        Hand { cards: Vec::new() }
    }
}

/// Whether a card is of the given suit.
pub open spec fn of_suit(suit: Suit) -> spec_fn(Card) -> bool {
    |card: Card| card.suit_of() == Some(suit)
}

impl Hand {
    /// Takes a card into the hand.
    pub fn add(&mut self, card: Card)
        ensures
            final(self)@ == old(self)@.push(card),
    {
        self.cards.push(card);
    }

    /// Takes one copy of the card out of the hand.
    ///
    /// Fails, and leaves the hand as it is, when the hand holds no copy.
    pub fn remove(&mut self, card: Card) -> (done: Result<(), GameError>)
        ensures
            done is Ok <==> old(self)@.contains(card),
            done is Err ==> done == Err::<(), GameError>(GameError::NotInHand) && *final(self)
                == *old(self),
            done is Ok ==> final(self)@.to_multiset() == old(self)@.to_multiset().remove(card)
                && final(self)@.len() + 1 == old(self)@.len(),
    {
        let mut i: usize = 0;
        while i < self.cards.len()
            invariant
                i <= self.cards@.len(),
                *self == *old(self),
                forall|k: int| 0 <= k < i ==> self@[k] != card,
            decreases self.cards@.len() - i,
        {
            if self.cards[i] == card {
                let ghost before = self@;
                self.cards.swap_remove(i);
                proof {
                    broadcast use vstd::multiset::group_multiset_axioms;

                    let last = before.last();
                    let moved = before.update(i as int, last);
                    vstd::seq_lib::to_multiset_update(before, i as int, last);
                    assert(moved == self@.push(last));
                    vstd::seq_lib::to_multiset_build(self@, last);
                    let held = self@.to_multiset();
                    let wanted = before.to_multiset().remove(card);
                    assert forall|v: Card| held.count(v) == wanted.count(v) by {
                        assert(held.insert(last).count(v) == before.to_multiset().insert(
                            last,
                        ).remove(card).count(v));
                    }
                }
                return Ok(());
            }
            i += 1;
        }
        Err(GameError::NotInHand)
    }

    /// Whether the hand holds a copy of the card.
    pub fn contains(&self, card: Card) -> (held: bool)
        ensures
            held == self@.contains(card),
    {
        let mut i: usize = 0;
        while i < self.cards.len()
            invariant
                i <= self.cards@.len(),
                forall|k: int| 0 <= k < i ==> self@[k] != card,
            decreases self.cards@.len() - i,
        {
            if self.cards[i] == card {
                return true;
            }
            i += 1;
        }
        false
    }

    /// The number of cards in the hand.
    pub fn len(&self) -> (n: usize)
        ensures
            n == self@.len(),
    {
        self.cards.len()
    }

    /// One card of the hand, picked uniformly; none from an empty hand.
    pub fn random(&self) -> (picked: Option<&Card>)
        ensures
            picked is None <==> self@.len() == 0,
            picked matches Some(card) ==> self@.contains(*card),
    {
        pick_one(&self.cards)
    }

    /// A new hand of those cards of this one that are of the given suit, in
    /// the same order.
    ///
    /// A joker has no suit to compare: the hand must hold none.
    pub fn filter_by_suit(&self, suit: Suit) -> (hand: Hand)
        requires
            all_ranked(self@),
        ensures
            hand@ == self@.filter(of_suit(suit)),
    {
        let mut cards: Vec<Card> = Vec::new();
        let mut i: usize = 0;
        while i < self.cards.len()
            invariant
                i <= self.cards@.len(),
                cards@ == self@.take(i as int).filter(of_suit(suit)),
            decreases self.cards@.len() - i,
        {
            let card = self.cards[i];
            proof {
                assert(self@.take(i + 1) == self@.take(i as int).push(card));
                self@.take(i as int).lemma_filter_push(card, of_suit(suit));
            }
            if card.suit() == Some(suit) {
                cards.push(card);
            }
            i += 1;
        }
        assert(self@.take(i as int) == self@);
        Hand { cards }
    }
}

} // verus!
