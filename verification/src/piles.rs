//! The draw pile and the discard pile, and how the one is refilled from
//! the other.

use crate::card::Card;
use crate::chance::shuffle;
use vstd::prelude::*;

verus! {

broadcast use vstd::seq_lib::group_to_multiset_ensures;

/// Whether `library_after` and `discard_after` are the piles that a draw of
/// `card` leaves of `library` and `discard`.
///
/// The card is the top of a stocked library. An empty library is refilled
/// first: the top discard stays behind alone, and the card is any one of
/// those that lay below it, the rest of which are the library now.
pub open spec fn draws(
    library: Seq<Card>,
    discard: Seq<Card>,
    card: Card,
    library_after: Seq<Card>,
    discard_after: Seq<Card>,
) -> bool {
    if library.len() > 0 {
        &&& card == library.last()
        &&& library_after == library.drop_last()
        &&& discard_after == discard
    } else {
        &&& discard.len() >= 2
        &&& discard_after == seq![discard.last()]
        &&& library_after.to_multiset().insert(card) == discard.drop_last().to_multiset()
    }
}

/// Whether `library_after` and `discard_after` are the piles after `card`
/// was drawn from `library` and `discard` and discarded at once.
pub open spec fn draws_and_discards(
    library: Seq<Card>,
    discard: Seq<Card>,
    card: Card,
    library_after: Seq<Card>,
    discard_after: Seq<Card>,
) -> bool {
    exists|left: Seq<Card>|
        #[trigger] draws(library, discard, card, library_after, left) && discard_after
            == left.push(card)
}

/// Drawing and discarding keeps every card in play, and a pass through the
/// library yields its cards, each once.
///
/// Let `libraries[k]` and `discards[k]` be the piles before the card
/// `cards[k]` is drawn and discarded at once, and the last entries the
/// piles in the end. Then the two piles together hold the same cards
/// throughout, however often the library is refilled. And as long as no
/// more cards are drawn than the library held at first, they are its cards
/// from the top down: a pass through the whole library yields exactly the
/// cards it held.
pub proof fn lemma_draw_discard_cycle(
    libraries: Seq<Seq<Card>>,
    discards: Seq<Seq<Card>>,
    cards: Seq<Card>,
)
    requires
        libraries.len() == cards.len() + 1,
        discards.len() == cards.len() + 1,
        forall|k: int|
            #![trigger cards[k]]
            0 <= k < cards.len() ==> draws_and_discards(
                libraries[k],
                discards[k],
                cards[k],
                libraries[k + 1],
                discards[k + 1],
            ),
    ensures
        forall|k: int|
            #![trigger libraries[k]]
            0 <= k <= cards.len() ==> libraries[k].to_multiset().add(discards[k].to_multiset())
                == libraries[0].to_multiset().add(discards[0].to_multiset()),
        cards.len() <= libraries[0].len() ==> {
            &&& cards == libraries[0].reverse().take(cards.len() as int)
            &&& libraries.last() == libraries[0].take(libraries[0].len() - cards.len())
            &&& discards.last() == discards[0] + cards
        },
        cards.len() == libraries[0].len() ==> cards.to_multiset() == libraries[0].to_multiset(),
    decreases cards.len(),
{
    broadcast use vstd::multiset::group_multiset_axioms;

    let n = cards.len() as int;
    let stock = libraries[0];
    if n > 0 {
        let last = n - 1;
        lemma_draw_discard_cycle(libraries.drop_last(), discards.drop_last(), cards.drop_last());
        let library = libraries[last];
        let discard = discards[last];
        let card = cards[last];
        assert(libraries.drop_last()[last] == library);
        let left = choose|left: Seq<Card>|
            #[trigger] draws(library, discard, card, libraries[n], left) && discards[n]
                == left.push(card);
        assert(libraries[n].to_multiset().add(discards[n].to_multiset()) =~= library.to_multiset().add(
            discard.to_multiset(),
        )) by {
            if library.len() > 0 {
                assert(library == libraries[n].push(card));
            } else {
                assert(discard == discard.drop_last().push(discard.last()));
            }
        }
        assert forall|k: int|
            #![trigger libraries[k]]
            0 <= k <= n implies libraries[k].to_multiset().add(discards[k].to_multiset())
            == libraries[0].to_multiset().add(discards[0].to_multiset()) by {
            if k < n {
                assert(libraries.drop_last()[k] == libraries[k]);
            }
        }
        if n <= stock.len() {
            assert(cards =~= stock.reverse().take(n));
        }
    }
    if n == stock.len() {
        assert(cards == stock.reverse());
        stock.lemma_reverse_to_multiset();
    }
}

/// A pass through a library that was refilled yields the cards that lay
/// below the top discard, each once.
///
/// With the notation of `lemma_draw_discard_cycle`, let the library be
/// empty at first, so that the first draw refills it, and let no more cards
/// be drawn than lay below the top discard. Then the cards drawn and those
/// left in the library are together the cards that lay below it, and the
/// discard pile is that top discard with the cards drawn on it. Once the
/// library is empty again, the cards drawn are all the cards but that one.
pub proof fn lemma_pass_after_refill(
    libraries: Seq<Seq<Card>>,
    discards: Seq<Seq<Card>>,
    cards: Seq<Card>,
)
    requires
        libraries.len() == cards.len() + 1,
        discards.len() == cards.len() + 1,
        forall|k: int|
            #![trigger cards[k]]
            0 <= k < cards.len() ==> draws_and_discards(
                libraries[k],
                discards[k],
                cards[k],
                libraries[k + 1],
                discards[k + 1],
            ),
        libraries[0].len() == 0,
        1 <= cards.len() <= discards[0].len() - 1,
    ensures
        libraries.last().to_multiset().add(cards.to_multiset())
            == discards[0].drop_last().to_multiset(),
        discards.last() == seq![discards[0].last()] + cards,
        libraries.last().len() == 0 ==> cards.to_multiset()
            == discards[0].drop_last().to_multiset(),
    decreases cards.len(),
{
    broadcast use vstd::multiset::group_multiset_axioms;

    let n = cards.len() as int;
    let last = n - 1;
    let library = libraries[last];
    let discard = discards[last];
    let card = cards[last];
    let left = choose|left: Seq<Card>|
        #[trigger] draws(library, discard, card, libraries[n], left) && discards[n] == left.push(
            card,
        );
    assert(cards == cards.drop_last().push(card));
    if n == 1 {
        assert(cards.drop_last().to_multiset() =~= vstd::multiset::Multiset::empty());
    } else {
        lemma_pass_after_refill(libraries.drop_last(), discards.drop_last(), cards.drop_last());
        assert(libraries.drop_last().last() == library);
        assert(discards.drop_last().last() == discard);
        let in_library = library.to_multiset();
        let drawn = cards.drop_last().to_multiset();
        assert(in_library.add(drawn).len() == in_library.len() + drawn.len());
        assert(in_library.len() == library.len());
        assert(drawn.len() == cards.drop_last().len());
        assert(discards[0].drop_last().to_multiset().len() == discards[0].drop_last().len());
        assert(library == libraries[n].push(card));
    }
    assert(libraries.last().to_multiset().add(cards.to_multiset())
        =~= discards[0].drop_last().to_multiset());
    if libraries.last().len() == 0 {
        assert(libraries.last().to_multiset() =~= vstd::multiset::Multiset::empty());
    }
}

/// The discard pile. Its last card is the top one, face up.
pub struct Discard {
    pub(crate) cards: Vec<Card>,
}

impl View for Discard {
    type V = Seq<Card>;

    /// The cards from the bottom of the pile to its top.
    open(crate) spec fn view(&self) -> Seq<Card> {
        self.cards@
    }
}

impl Default for Discard {
    /// The empty pile.
    fn default() -> (pile: Discard)
        ensures
            pile@ == Seq::<Card>::empty(),
    {
        Discard { cards: Vec::new() }
    }
}

impl Discard {
    /// Puts a card on top of the pile.
    pub fn discard(&mut self, card: Card)
        ensures
            final(self)@ == old(self)@.push(card),
    {
        self.cards.push(card);
    }

    /// The card on top of the pile, if the pile holds any.
    #[must_use]
    pub fn top(&self) -> (card: Option<&Card>)
        ensures
            self@.len() == 0 ==> card is None,
            self@.len() > 0 ==> card == Some(&self@.last()),
    {
        let n = self.cards.len();
        if n == 0 {
            None
        } else {
            Some(&self.cards[n - 1])
        }
    }

    /// The number of cards in the pile.
    pub fn len(&self) -> (n: usize)
        ensures
            n == self@.len(),
    {
        self.cards.len()
    }
}

/// The same cards in a random order.
#[must_use]
pub(crate) fn shuffled(cards: Vec<Card>) -> (mixed: Vec<Card>)
    ensures
        mixed@.to_multiset() == cards@.to_multiset(),
{
    let mut cards = cards;
    shuffle(&mut cards);
    cards
}

/// The draw pile. Cards are drawn from its end.
pub struct Library {
    pub(crate) cards: Vec<Card>,
}

impl View for Library {
    type V = Seq<Card>;

    /// The cards from the bottom of the pile to its top.
    open(crate) spec fn view(&self) -> Seq<Card> {
        self.cards@
    }
}

impl Library {
    /// A draw pile of the given cards, the last of them on top.
    #[must_use]
    pub fn new(cards: Vec<Card>) -> (library: Library)
        ensures
            library@ == cards@,
    {
        Library { cards }
    }

    /// Draws the top card.
    ///
    /// An empty library is first refilled from the discard pile: the top
    /// discard stays behind as the whole of the discard pile, and the cards
    /// below it, shuffled, become the library. A discard pile of one card
    /// therefore refills nothing, and the draw yields no card.
    pub fn draw(&mut self, discard: &mut Discard) -> (drawn: Option<Card>)
        ensures
            drawn is None <==> old(self)@.len() == 0 && old(discard)@.len() <= 1,
            drawn is None ==> final(self)@ == old(self)@ && final(discard)@ == old(discard)@,
            drawn matches Some(card) ==> draws(
                old(self)@,
                old(discard)@,
                card,
                final(self)@,
                final(discard)@,
            ),
            drawn matches Some(card) ==> final(self)@.to_multiset().add(
                final(discard)@.to_multiset(),
            ).insert(card) == old(self)@.to_multiset().add(old(discard)@.to_multiset()),
    {
        broadcast use vstd::multiset::group_multiset_axioms;

        if self.cards.is_empty() {
            if let Some(top_discard) = discard.cards.pop() {
                assert(old(discard)@ == discard.cards@.push(top_discard));
                std::mem::swap(&mut self.cards, &mut discard.cards);
                discard.discard(top_discard);
                shuffle(&mut self.cards);
                assert(discard@ == seq![top_discard]);
                assert(self@.len() == self@.to_multiset().len());
            }
        }
        let ghost before = self@;
        let drawn = self.cards.pop();
        proof {
            if drawn is Some {
                assert(before == self@.push(drawn.unwrap()));
            }
        }
        drawn
    }

    /// The number of cards in the pile.
    pub fn len(&self) -> (n: usize)
        ensures
            n == self@.len(),
    {
        self.cards.len()
    }
}

} // verus!
