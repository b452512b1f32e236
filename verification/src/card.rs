//! Ranks, suits and cards, and the composition of a deck.

use crate::chance::random_in_range;
use vstd::prelude::*;

verus! {

/// The number of ranks in a suit.
pub const NUM_RANKS: usize = 13;

/// The number of suits.
pub const NUM_SUITS: usize = 4;

/// The number of jokers in a deck.
pub const NUM_JOKERS: usize = 2;

/// The number of cards in a deck with its jokers.
pub const NUM_CARDS: usize = NUM_RANKS * NUM_SUITS + NUM_JOKERS;

/// One of the thirteen ranks, held as an index in `0..13`.
#[derive(Clone, Copy, Debug, PartialEq, Eq, Structural)]
pub struct Rank(pub(crate) u8);

impl Rank {
    /// Every rank is one of the thirteen.
    #[verifier::type_invariant]
    pub open(crate) spec fn in_range(self) -> bool {
        self.0 < NUM_RANKS
    }

    /// The zero-based index of the rank.
    pub open(crate) spec fn index(self) -> nat {
        self.0 as nat
    }

    /// The rank with the given zero-based index, if there is one.
    pub fn new(index: u8) -> (r: Option<Rank>)
        ensures
            index < NUM_RANKS <==> r is Some,
            r matches Some(rank) ==> rank.index() == index,
    {
        if index < 13 {
            Some(Rank(index))
        } else {
            None
        }
    }

    /// A rank drawn uniformly from the thirteen.
    #[must_use]
    pub fn random() -> (r: Rank)
        ensures
            r.index() < NUM_RANKS,
    {
        let index: usize = random_in_range(0, NUM_RANKS);
        Rank(index as u8)
    }

    /// The face value of the rank, from 1 to 13.
    #[must_use]
    pub fn value(&self) -> (v: u8)
        ensures
            v == self.index() + 1,
            1 <= v <= NUM_RANKS,
    {
        proof {
            use_type_invariant(self);
        }
        self.0 + 1
    }

    /// Whether the rank is one of the three court ranks.
    #[must_use]
    pub fn is_face(&self) -> (b: bool)
        ensures
            b == (self.index() + 1 > 10),
    {
        self.value() > 10
    }
}

/// One of the four suits, held as an index in `0..4`.
#[derive(Clone, Copy, Debug, PartialEq, Eq, Structural)]
pub struct Suit(pub(crate) u8);

impl Suit {
    /// Every suit is one of the four.
    #[verifier::type_invariant]
    pub open(crate) spec fn in_range(self) -> bool {
        self.0 < NUM_SUITS
    }

    /// The zero-based index of the suit.
    pub open(crate) spec fn index(self) -> nat {
        self.0 as nat
    }

    /// The suit with the given zero-based index, if there is one.
    pub fn new(index: u8) -> (s: Option<Suit>)
        ensures
            index < NUM_SUITS <==> s is Some,
            s matches Some(suit) ==> suit.index() == index,
    {
        if index < 4 {
            Some(Suit(index))
        } else {
            None
        }
    }
}

/// A playing card, held as an index in `0..54`.
///
/// Index `4 * r + s` is the card of rank `r` and suit `s`; the two indices
/// from 52 on are the jokers, which have neither.
#[derive(Clone, Copy, Debug, PartialEq, Eq, Structural)]
pub struct Card(pub(crate) u8);

impl Card {
    /// Every card is a card of the deck.
    #[verifier::type_invariant]
    pub open(crate) spec fn in_range(self) -> bool {
        self.0 < NUM_CARDS
    }

    /// The index of the card within a deck.
    pub open(crate) spec fn index(self) -> nat {
        self.0 as nat
    }

    /// Whether the card is one of the jokers.
    pub open(crate) spec fn joker(self) -> bool {
        self.index() >= NUM_RANKS * NUM_SUITS
    }

    /// The rank of a card that is no joker.
    pub open(crate) spec fn rank_of(self) -> Option<Rank> {
        if self.joker() {
            None
        } else {
            Some(Rank((self.index() / NUM_SUITS as nat) as u8))
        }
    }

    /// The suit of a card that is no joker.
    pub open(crate) spec fn suit_of(self) -> Option<Suit> {
        if self.joker() {
            None
        } else {
            Some(Suit((self.index() % NUM_SUITS as nat) as u8))
        }
    }

    /// The card of the given rank and suit.
    pub fn new(rank: Rank, suit: Suit) -> (c: Card)
        ensures
            c.index() == NUM_SUITS * rank.index() + suit.index(),
            c.rank_of() == Some(rank),
            c.suit_of() == Some(suit),
    {
        proof {
            use_type_invariant(rank);
            use_type_invariant(suit);
        }
        Card(rank.0 * 4 + suit.0)
    }

    /// The card with the given index within a deck, if there is one.
    pub fn from_index(index: u8) -> (c: Option<Card>)
        ensures
            index < NUM_CARDS <==> c is Some,
            c matches Some(card) ==> card.index() == index,
    {
        if index < 54 {
            Some(Card(index))
        } else {
            None
        }
    }

    /// Whether the card is one of the jokers.
    #[must_use]
    pub fn is_joker(&self) -> (b: bool)
        ensures
            b == self.joker(),
    {
        self.0 >= 52
    }

    /// The rank of the card; a joker has none.
    #[must_use]
    pub fn rank(&self) -> (r: Option<Rank>)
        ensures
            r == self.rank_of(),
    {
        if self.is_joker() {
            None
        } else {
            let i: u8 = self.0;
            assert(i < 52 ==> i >> 2 == i / 4 && i >> 2 < 13) by (bit_vector);
            Some(Rank(i >> 2))
        }
    }

    /// The suit of the card; a joker has none.
    #[must_use]
    pub fn suit(&self) -> (s: Option<Suit>)
        ensures
            s == self.suit_of(),
    {
        if self.is_joker() {
            None
        } else {
            let i: u8 = self.0;
            assert(i & 3 == i % 4) by (bit_vector);
            Some(Suit(i & 3))
        }
    }
}

/// Whether a deck comes with its two jokers.
#[derive(Clone, Copy)]
pub enum WithOrWithoutJokers {
    WithJokers,
    WithoutJokers,
}

/// The number of cards in a deck with or without its jokers.
pub open spec fn deck_size(j: WithOrWithoutJokers) -> nat {
    match j {
        WithOrWithoutJokers::WithJokers => NUM_CARDS as nat,
        WithOrWithoutJokers::WithoutJokers => (NUM_SUITS * NUM_RANKS) as nat,
    }
}

/// A deck in its canonical order: every card index below the deck's size,
/// once, ascending.
#[must_use]
pub fn deck(j: WithOrWithoutJokers) -> (cards: Vec<Card>)
    ensures
        cards@.len() == deck_size(j),
        forall|i: int| 0 <= i < cards@.len() ==> (#[trigger] cards@[i]).index() == i,
{
    let limit: u8 = match j {
        WithOrWithoutJokers::WithJokers => 54,
        WithOrWithoutJokers::WithoutJokers => 52,
    };
    let mut cards: Vec<Card> = Vec::new();
    let mut i: u8 = 0;
    while i < limit
        invariant
            limit == deck_size(j),
            i <= limit,
            cards@.len() == i,
            forall|k: int| 0 <= k < cards@.len() ==> (#[trigger] cards@[k]).index() == k,
        decreases limit - i,
    {
        cards.push(Card(i));
        i += 1;
    }
    cards
}

} // verus!
