//! Counting cards: what two decks hold, and how many jokers and ranked
//! cards a collection holds.

use crate::card::{Card, NUM_CARDS, NUM_JOKERS, NUM_RANKS, NUM_SUITS};
use vstd::multiset::Multiset;
use vstd::prelude::*;

verus! {

broadcast use {vstd::seq_lib::group_to_multiset_ensures, vstd::multiset::group_multiset_axioms};

/// The number of cards in play: two decks with their jokers.
pub const TOTAL_CARDS: usize = 2 * NUM_CARDS;

/// The number of jokers in play.
pub const TOTAL_JOKERS: usize = 2 * NUM_JOKERS;

/// The number of cards in play that have a rank and a suit.
pub const TOTAL_RANKED: usize = 2 * NUM_RANKS * NUM_SUITS;

/// One deck with its jokers, in ascending order.
pub open(crate) spec fn full_deck() -> Seq<Card> {
    Seq::new(NUM_CARDS as nat, |i: int| Card(i as u8))
}

/// The cards of a game: every card of a deck, twice.
pub open(crate) spec fn two_decks() -> Multiset<Card> {
    full_deck().to_multiset().add(full_deck().to_multiset())
}

/// How many of the cards are jokers.
pub open(crate) spec fn joker_count(cards: Multiset<Card>) -> nat {
    cards.filter(|c: Card| c.joker()).len()
}

/// How many of the cards have a rank and a suit.
pub open(crate) spec fn ranked_count(cards: Multiset<Card>) -> nat {
    cards.filter(|c: Card| !c.joker()).len()
}

/// The cards of all the hands together.
pub open(crate) spec fn hands_cards(hands: Seq<Seq<Card>>) -> Multiset<Card>
    decreases hands.len(),
{
    if hands.len() == 0 {
        Multiset::empty()
    } else {
        hands_cards(hands.drop_last()).add(hands.last().to_multiset())
    }
}

/// Whether none of the cards is a joker.
pub open(crate) spec fn all_ranked(cards: Seq<Card>) -> bool {
    forall|i: int| 0 <= i < cards.len() ==> !(#[trigger] cards[i]).joker()
}

/// Whether no hand holds a joker.
pub open(crate) spec fn hands_all_ranked(hands: Seq<Seq<Card>>) -> bool {
    forall|i: int| 0 <= i < hands.len() ==> all_ranked(#[trigger] hands[i])
}

/// Every card is a joker or ranked, never both.
pub(crate) proof fn lemma_count_split(cards: Multiset<Card>)
    ensures
        joker_count(cards) + ranked_count(cards) == cards.len(),
{
    let jokers = cards.filter(|c: Card| c.joker());
    let ranked = cards.filter(|c: Card| !c.joker());
    assert(cards =~= jokers.add(ranked));
}

/// One more card is one more joker or one more ranked card.
pub(crate) proof fn lemma_count_insert(cards: Multiset<Card>, card: Card)
    ensures
        joker_count(cards.insert(card)) == joker_count(cards) + if card.joker() {
            1nat
        } else {
            0nat
        },
        ranked_count(cards.insert(card)) == ranked_count(cards) + if card.joker() {
            0nat
        } else {
            1nat
        },
{
    let is_joker = |c: Card| c.joker();
    let is_ranked = |c: Card| !c.joker();
    if card.joker() {
        assert(cards.insert(card).filter(is_joker) =~= cards.filter(is_joker).insert(card));
        assert(cards.insert(card).filter(is_ranked) =~= cards.filter(is_ranked));
    } else {
        assert(cards.insert(card).filter(is_joker) =~= cards.filter(is_joker));
        assert(cards.insert(card).filter(is_ranked) =~= cards.filter(is_ranked).insert(card));
    }
}

/// Counts add up over a union.
pub(crate) proof fn lemma_count_add(a: Multiset<Card>, b: Multiset<Card>)
    ensures
        joker_count(a.add(b)) == joker_count(a) + joker_count(b),
        ranked_count(a.add(b)) == ranked_count(a) + ranked_count(b),
{
    let is_joker = |c: Card| c.joker();
    let is_ranked = |c: Card| !c.joker();
    assert(a.add(b).filter(is_joker) =~= a.filter(is_joker).add(b.filter(is_joker)));
    assert(a.add(b).filter(is_ranked) =~= a.filter(is_ranked).add(b.filter(is_ranked)));
}

/// Cards without a joker among them count no joker.
pub(crate) proof fn lemma_no_jokers(cards: Multiset<Card>)
    requires
        forall|c: Card| cards.count(c) > 0 ==> !c.joker(),
    ensures
        joker_count(cards) == 0,
        ranked_count(cards) == cards.len(),
{
    assert(cards.filter(|c: Card| c.joker()) =~= Multiset::empty());
    lemma_count_split(cards);
}

/// What two decks hold: 108 cards, four of them jokers.
pub(crate) proof fn lemma_two_decks()
    ensures
        two_decks().len() == TOTAL_CARDS,
        joker_count(two_decks()) == TOTAL_JOKERS,
        ranked_count(two_decks()) == TOTAL_RANKED,
{
    let deck = full_deck();
    let ranked = deck.take(52);
    let first = deck[52];
    let second = deck[53];
    assert(deck == ranked.push(first).push(second));
    assert(forall|c: Card| ranked.to_multiset().count(c) > 0 ==> !c.joker());
    lemma_no_jokers(ranked.to_multiset());
    lemma_count_insert(ranked.to_multiset(), first);
    lemma_count_insert(ranked.to_multiset().insert(first), second);
    lemma_count_add(deck.to_multiset(), deck.to_multiset());
    lemma_count_split(two_decks());
}

/// Replacing one hand changes the cards in hands by the difference between
/// the two.
pub(crate) proof fn lemma_hands_update(hands: Seq<Seq<Card>>, i: int, hand: Seq<Card>)
    requires
        0 <= i < hands.len(),
    ensures
        hands_cards(hands.update(i, hand)).add(hands[i].to_multiset()) == hands_cards(hands).add(
            hand.to_multiset(),
        ),
    decreases hands.len(),
{
    let updated = hands.update(i, hand);
    if i == hands.len() - 1 {
        assert(updated.drop_last() == hands.drop_last());
    } else {
        let rest = hands.drop_last();
        lemma_hands_update(rest, i, hand);
        assert(updated.drop_last() == rest.update(i, hand));
        let left = hands_cards(rest.update(i, hand)).add(hands[i].to_multiset());
        let right = hands_cards(rest).add(hand.to_multiset());
        assert forall|c: Card|
            hands_cards(updated).add(hands[i].to_multiset()).count(c) == hands_cards(hands).add(
                hand.to_multiset(),
            ).count(c) by {
            assert(left.count(c) == right.count(c));
        }
    }
}

/// A further hand adds its cards to those in hands.
pub(crate) proof fn lemma_hands_push(hands: Seq<Seq<Card>>, hand: Seq<Card>)
    ensures
        hands_cards(hands.push(hand)) == hands_cards(hands).add(hand.to_multiset()),
{
    assert(hands.push(hand).drop_last() == hands);
}

/// Hands without jokers hold ranked cards only.
pub(crate) proof fn lemma_hands_ranked(hands: Seq<Seq<Card>>)
    requires
        hands_all_ranked(hands),
    ensures
        joker_count(hands_cards(hands)) == 0,
        ranked_count(hands_cards(hands)) == hands_cards(hands).len(),
    decreases hands.len(),
{
    if hands.len() == 0 {
        lemma_no_jokers(hands_cards(hands));
    } else {
        let rest = hands.drop_last();
        let last = hands.last();
        assert(hands_all_ranked(rest));
        lemma_hands_ranked(rest);
        assert(forall|c: Card| last.to_multiset().count(c) > 0 ==> !c.joker());
        lemma_no_jokers(last.to_multiset());
        lemma_count_add(hands_cards(rest), last.to_multiset());
        lemma_count_split(hands_cards(hands));
    }
}

/// How far the piles are from yielding a ranked card to a player who
/// draws until one comes, discarding jokers.
///
/// Stage 0: the library holds a ranked card. Stage 1: it holds none, but
/// will once it has been refilled. Stage 2: the only ranked card lies on
/// top of the discard pile and has to be buried under a joker first.
pub open(crate) spec fn pile_stage(library: Seq<Card>, discard: Seq<Card>) -> nat {
    if ranked_count(library.to_multiset()) > 0 {
        0
    } else if library.len() > 0 || (discard.len() > 0 && ranked_count(
        discard.drop_last().to_multiset(),
    ) > 0) {
        1
    } else {
        2
    }
}

/// How many jokers lie above the `n`-th ranked card from the top of the
/// pile: what it costs to draw `n` ranked cards from a pile that holds as
/// many.
pub open(crate) spec fn jokers_above(cards: Seq<Card>, n: nat) -> nat
    decreases cards.len(),
{
    if n == 0 || cards.len() == 0 {
        0
    } else if cards.last().joker() {
        1 + jokers_above(cards.drop_last(), n)
    } else {
        jokers_above(cards.drop_last(), (n - 1) as nat)
    }
}

/// The most jokers that can come up before the piles yield a ranked card,
/// whatever order a refill puts the library in.
///
/// From a library with a ranked card they are the jokers above it. A
/// library of jokers only is drawn through and refilled from under the top
/// discard, after which every joker of it may come first. And where the
/// only ranked card is the top discard, the refilled library is drawn
/// through too, and the next one holds that card under all the jokers but
/// one.
pub open(crate) spec fn draw_cost(library: Seq<Card>, discard: Seq<Card>) -> nat {
    let in_discard = joker_count(discard.to_multiset());
    if ranked_count(library.to_multiset()) > 0 {
        jokers_above(library, 1)
    } else if library.len() > 0 || (discard.len() > 0 && discard.last().joker()) {
        (2 * library.len() + in_discard - 1) as nat
    } else if ranked_count(discard.to_multiset()) >= 2 {
        in_discard
    } else if in_discard > 0 {
        (2 * in_discard - 1) as nat
    } else {
        0
    }
}

/// No more jokers lie above a card than the pile holds.
pub(crate) proof fn lemma_jokers_above_bound(cards: Seq<Card>, n: nat)
    ensures
        jokers_above(cards, n) <= joker_count(cards.to_multiset()),
    decreases cards.len(),
{
    if n > 0 && cards.len() > 0 {
        let rest = cards.drop_last();
        assert(cards == rest.push(cards.last()));
        lemma_count_insert(rest.to_multiset(), cards.last());
        if cards.last().joker() {
            lemma_jokers_above_bound(rest, n);
        } else {
            lemma_jokers_above_bound(rest, (n - 1) as nat);
        }
    }
}

/// A library without a ranked card is as long as its jokers are many.
pub(crate) proof fn lemma_all_jokers(cards: Seq<Card>)
    requires
        ranked_count(cards.to_multiset()) == 0,
    ensures
        joker_count(cards.to_multiset()) == cards.len(),
{
    lemma_count_split(cards.to_multiset());
}

/// A draw costs less than twice the jokers in the piles.
pub(crate) proof fn lemma_cost_bound(library: Seq<Card>, discard: Seq<Card>)
    requires
        joker_count(library.to_multiset().add(discard.to_multiset())) > 0,
    ensures
        draw_cost(library, discard) + 1 <= 2 * joker_count(
            library.to_multiset().add(discard.to_multiset()),
        ),
{
    lemma_count_add(library.to_multiset(), discard.to_multiset());
    lemma_jokers_above_bound(library, 1);
    if ranked_count(library.to_multiset()) == 0 {
        lemma_all_jokers(library);
    }
}

/// A joker drawn from the library and discarded brings the piles closer to
/// a ranked card, and leaves one joker fewer to come.
pub(crate) proof fn lemma_joker_from_library(library: Seq<Card>, discard: Seq<Card>)
    requires
        library.len() > 0,
        library.last().joker(),
        ranked_count(library.to_multiset().add(discard.to_multiset())) > 0,
    ensures
        ({
            let shorter = library.drop_last();
            let covered = discard.push(library.last());
            &&& pile_stage(shorter, covered) <= pile_stage(library, discard)
            &&& draw_cost(shorter, covered) + 1 <= draw_cost(library, discard)
            &&& shorter.to_multiset().add(covered.to_multiset()) == library.to_multiset().add(
                discard.to_multiset(),
            )
        }),
{
    let joker = library.last();
    let shorter = library.drop_last();
    let covered = discard.push(joker);
    assert(library == shorter.push(joker));
    assert(covered.drop_last() == discard);
    lemma_count_insert(shorter.to_multiset(), joker);
    lemma_count_insert(discard.to_multiset(), joker);
    lemma_count_add(library.to_multiset(), discard.to_multiset());
    if ranked_count(library.to_multiset()) == 0 {
        lemma_all_jokers(library);
        lemma_all_jokers(shorter);
    }
}

/// A joker drawn from a freshly refilled library and discarded brings the
/// piles closer to a ranked card, and leaves one joker fewer to come.
pub(crate) proof fn lemma_joker_from_refill(refilled: Seq<Card>, discard: Seq<Card>, joker: Card)
    requires
        discard.len() >= 2,
        refilled.to_multiset().insert(joker) == discard.drop_last().to_multiset(),
        joker.joker(),
        ranked_count(discard.to_multiset()) > 0,
    ensures
        ({
            let covered = seq![discard.last()].push(joker);
            &&& pile_stage(refilled, covered) < pile_stage(Seq::empty(), discard)
            &&& draw_cost(refilled, covered) + 1 <= draw_cost(Seq::empty(), discard)
            &&& refilled.to_multiset().add(covered.to_multiset()) == discard.to_multiset()
        }),
{
    let below = discard.drop_last();
    let top = discard.last();
    let covered = seq![top].push(joker);
    let nothing = Seq::<Card>::empty();
    assert(discard == below.push(top));
    assert(covered.drop_last() == seq![top]);
    lemma_no_jokers(nothing.to_multiset());
    lemma_count_insert(refilled.to_multiset(), joker);
    lemma_count_insert(below.to_multiset(), top);
    lemma_count_insert(nothing.to_multiset(), top);
    lemma_count_insert(seq![top].to_multiset(), joker);
    assert(refilled.to_multiset().add(covered.to_multiset()) =~= discard.to_multiset());
    lemma_jokers_above_bound(refilled, 1);
    lemma_count_split(refilled.to_multiset());
    if ranked_count(refilled.to_multiset()) == 0 {
        lemma_all_jokers(refilled);
    }
}

/// The discard pile with one more card on it, if there is one.
pub open(crate) spec fn with_played(discard: Seq<Card>, played: Option<Card>) -> Seq<Card> {
    match played {
        Some(card) => discard.push(card),
        None => discard,
    }
}

/// Counts the jokers among the cards.
pub(crate) fn count_jokers(cards: &Vec<Card>) -> (n: usize)
    ensures
        n == joker_count(cards@.to_multiset()),
        n <= cards@.len(),
{
    let mut n: usize = 0;
    let mut i: usize = 0;
    proof {
        assert(cards@.take(0).to_multiset() =~= Multiset::empty());
        lemma_no_jokers(cards@.take(0).to_multiset());
    }
    while i < cards.len()
        invariant
            i <= cards@.len(),
            n == joker_count(cards@.take(i as int).to_multiset()),
            n <= i,
        decreases cards@.len() - i,
    {
        proof {
            assert(cards@.take(i + 1) == cards@.take(i as int).push(cards@[i as int]));
            lemma_count_insert(cards@.take(i as int).to_multiset(), cards@[i as int]);
        }
        if cards[i].is_joker() {
            n += 1;
        }
        i += 1;
    }
    assert(cards@.take(i as int) == cards@);
    n
}

/// Counts the jokers above the `n`-th ranked card from the top.
pub(crate) fn count_jokers_above(cards: &Vec<Card>, n: usize) -> (above: usize)
    ensures
        above == jokers_above(cards@, n as nat),
        above <= cards@.len(),
{
    let mut above: usize = 0;
    let mut left: usize = n;
    let mut i: usize = cards.len();
    assert(cards@.take(i as int) == cards@);
    while i > 0 && left > 0
        invariant
            i <= cards@.len(),
            above + i <= cards@.len(),
            above + jokers_above(cards@.take(i as int), left as nat) == jokers_above(
                cards@,
                n as nat,
            ),
        decreases i,
    {
        proof {
            assert(cards@.take(i as int).drop_last() == cards@.take(i - 1));
            assert(cards@.take(i as int).last() == cards@[i - 1]);
        }
        assert(above < cards.len());
        i -= 1;
        if cards[i].is_joker() {
            above += 1;
        } else {
            left -= 1;
        }
    }
    above
}

/// Reckons the most jokers that can come up before the piles yield a
/// ranked card, once `played` lies on the discard pile.
pub(crate) fn reckon_draw_cost(library: &Vec<Card>, discard: &Vec<Card>, played: Option<Card>) -> (cost:
    u128)
    ensures
        cost == draw_cost(library@, with_played(discard@, played)),
        cost <= 3 * usize::MAX + 1,
{
    let ghost pile = with_played(discard@, played);
    let jokers_in_library = count_jokers(library);
    let mut in_discard: u128 = count_jokers(discard) as u128;
    let mut ranked_in_discard: u128 = (discard.len() - count_jokers(discard)) as u128;
    let mut top_is_joker = discard.len() > 0 && discard[discard.len() - 1].is_joker();
    proof {
        lemma_count_split(library@.to_multiset());
        lemma_count_split(discard@.to_multiset());
    }
    match played {
        Some(card) => {
            proof {
                lemma_count_insert(discard@.to_multiset(), card);
            }
            if card.is_joker() {
                in_discard += 1;
            } else {
                ranked_in_discard += 1;
            }
            top_is_joker = card.is_joker();
        },
        None => {},
    }
    proof {
        if pile.len() > 0 {
            assert(pile == pile.drop_last().push(pile.last()));
            lemma_count_insert(pile.drop_last().to_multiset(), pile.last());
        }
        lemma_jokers_above_bound(library@, 1);
        if ranked_count(library@.to_multiset()) == 0 && library@.len() > 0 {
            assert(library@.len() > 0 || pile.len() > 0);
        }
    }
    assert(in_discard == joker_count(pile.to_multiset()));
    assert(ranked_in_discard == ranked_count(pile.to_multiset()));
    assert(top_is_joker == (pile.len() > 0 && pile.last().joker()));
    assert(in_discard <= discard.len() + 1);
    if jokers_in_library < library.len() {
        count_jokers_above(library, 1) as u128
    } else if library.len() > 0 || top_is_joker {
        2 * (library.len() as u128) + in_discard - 1
    } else if ranked_in_discard >= 2 {
        in_discard
    } else if in_discard > 0 {
        2 * in_discard - 1
    } else {
        0
    }
}

} // verus!
