//! The game: its state, the turn and phase rules, scoring, and the
//! mad-science walk.

use crate::card::{deck, Card, Rank, Suit, WithOrWithoutJokers, NUM_SUITS};
use crate::census::{
    count_jokers, count_jokers_above, draw_cost, full_deck, hands_all_ranked, hands_cards,
    joker_count, jokers_above, lemma_cost_bound, lemma_count_add,
    lemma_count_insert, lemma_count_split, lemma_hands_push, lemma_hands_ranked,
    lemma_hands_update, lemma_joker_from_library, lemma_joker_from_refill, lemma_no_jokers, lemma_two_decks, pile_stage, ranked_count,
    reckon_draw_cost, two_decks, TOTAL_CARDS, TOTAL_JOKERS, TOTAL_RANKED,
};
use crate::chance::{chance, random_in_range};
use crate::error::GameError;
use crate::hand::Hand;
use crate::path::{PathLength, PathLengthInfo};
use crate::piles::{
    draws, draws_and_discards, lemma_draw_discard_cycle, shuffled, Discard, Library,
};
use vstd::multiset::Multiset;
use vstd::prelude::*;

verus! {

broadcast use {vstd::seq_lib::group_to_multiset_ensures, vstd::multiset::group_multiset_axioms};

/// The number of cards dealt to a player who joins.
pub const STARTING_CARDS: u8 = 3;

/// The mad-science counter of a new game.
pub const STARTING_MAD_SCIENCE_TOKENS: i8 = 15;

/// The progress of every suit in a new game.
pub const STARTING_PROGRESS: i8 = -10;

/// The seat of a player: an index into the hands, in joining order.
#[derive(Copy, Clone)]
pub struct PlayerIndex(pub(crate) usize);

impl PlayerIndex {
    /// The seat's number.
    pub open(crate) spec fn seat(self) -> nat {
        self.0 as nat
    }

    /// The seat whose turn follows, around a table of `num_players`.
    pub(crate) fn next(self, num_players: usize) -> (following: PlayerIndex)
        requires
            self.seat() < num_players,
        ensures
            following.seat() == (self.seat() + 1) % (num_players as nat),
            following.seat() < num_players,
    {
        PlayerIndex((self.0 + 1) % num_players)
    }
}

/// What a player does with an action.
#[derive(Copy, Clone, Debug)]
pub enum Play {
    /// Play this card from the hand.
    Play(Card),
    /// Draw a card, spending the momentum.
    Draw,
}

/// The phase of the current player's turn.
#[derive(Copy, Clone, Debug, PartialEq, Eq, Structural)]
pub enum Phase {
    /// The turn has just begun.
    Play,
    /// The player has earned one more action.
    Momentum,
}

/// How a game ended.
#[derive(Copy, Clone, Debug, PartialEq, Eq, Structural)]
pub enum GameOutcome {
    /// No suit had reached its path length.
    Loss,
    /// Some suit had reached its path length.
    Win,
}

/// What an action led to.
#[derive(Copy, Clone, Debug, PartialEq, Eq, Structural)]
pub enum PlayOutcome {
    /// The game goes on.
    Continue,
    /// The game is over.
    End(GameOutcome),
}

/// The mad-science counter after one token is removed: one less, stepping
/// over zero.
pub open spec fn token_removed(tokens: int) -> int {
    if tokens == 1 {
        -1
    } else {
        tokens - 1
    }
}

/// The mad-science counter after `n` tokens are removed.
pub open spec fn tokens_removed(tokens: int, n: nat) -> int
    decreases n,
{
    if n == 0 {
        tokens
    } else {
        token_removed(tokens_removed(tokens, (n - 1) as nat))
    }
}

/// The most jokers that can come up while one player draws one card in a
/// game: each joker in play once before the library is refilled and each
/// but one after.
pub const JOKERS_PER_DRAW: usize = 2 * TOTAL_JOKERS - 1;

/// Whether the mad-science counter can lose `removals` tokens, one after
/// another, within its type.
pub open spec fn can_lose(tokens: int, removals: nat) -> bool {
    tokens_removed(tokens, removals) >= i8::MIN
}

/// Decides whether the mad-science counter can lose so many tokens within
/// its type.
pub fn affords(tokens: i8, removals: u128) -> (ok: bool)
    ensures
        ok == can_lose(tokens as int, removals as nat),
{
    proof {
        lemma_tokens_removed(tokens as int, removals as nat);
    }
    if removals > 300 {
        return false;
    }
    let steps: i32 = removals as i32;
    let lands: i32 = if tokens > 0 && steps >= tokens as i32 {
        tokens as i32 - steps - 1
    } else {
        tokens as i32 - steps
    };
    lands >= -128
}

/// Removing `n` tokens lowers the counter by `n`, and by one more if it
/// steps over zero on the way: from one it goes to minus one, and once a
/// token has been removed it is never zero.
pub proof fn lemma_tokens_removed(tokens: int, n: nat)
    ensures
        token_removed(1) == -1,
        n >= 1 ==> tokens_removed(tokens, n) != 0,
        tokens - n - 1 <= tokens_removed(tokens, n) <= tokens - n,
        tokens <= 0 || n < tokens ==> tokens_removed(tokens, n) == tokens - n,
        tokens > 0 && n >= tokens ==> tokens_removed(tokens, n) == tokens - n - 1,
        tokens != 0 ==> tokens_removed(tokens, n) != 0,
    decreases n,
{
    if n > 0 {
        lemma_tokens_removed(tokens, (n - 1) as nat);
    }
}

/// A counter that can lose some tokens can lose fewer.
pub(crate) proof fn lemma_can_lose_fewer(tokens: int, more: nat, fewer: nat)
    requires
        can_lose(tokens, more),
        fewer <= more,
    ensures
        can_lose(tokens, fewer),
{
    lemma_tokens_removed(tokens, more);
    lemma_tokens_removed(tokens, fewer);
}

/// Removing tokens in two goes is removing them in one.
pub(crate) proof fn lemma_tokens_removed_twice(tokens: int, first: nat, second: nat)
    ensures
        tokens_removed(tokens_removed(tokens, first), second) == tokens_removed(
            tokens,
            first + second,
        ),
    decreases second,
{
    if second > 0 {
        lemma_tokens_removed_twice(tokens, first, (second - 1) as nat);
    }
}

/// Whether every coin shows heads.
pub open spec fn all_heads(flips: Seq<bool>) -> bool {
    forall|i: int| 0 <= i < flips.len() ==> flips[i]
}

/// Whether every coin shows tails.
pub open spec fn all_tails(flips: Seq<bool>) -> bool {
    forall|i: int| 0 <= i < flips.len() ==> !flips[i]
}

/// Whether the mad-science walk lets the game go on, `flips[i]` telling
/// whether the coin of that number shows heads.
///
/// While the counter is positive a single tail is enough; once it is
/// negative a single head ends the game.
pub open spec fn walk_goes_on(tokens: int, flips: Seq<bool>) -> bool {
    if tokens > 0 {
        !all_heads(flips)
    } else {
        all_tails(flips)
    }
}

/// Whether playing a card of this rank costs a token on this roll of the
/// die: the rank's value is below six and the roll is above its index.
pub open spec fn mishap_on(rank: Rank, roll: int) -> bool {
    rank.index() + 1 < 6 && roll > rank.index()
}

/// Decides the mad-science walk from the coins that were flipped.
pub fn walk_continues(tokens: i8, flips: &Vec<bool>) -> (go: bool)
    ensures
        go == walk_goes_on(tokens as int, flips@),
{
    let mut heads: bool = true;
    let mut tails: bool = true;
    let mut i: usize = 0;
    while i < flips.len()
        invariant
            i <= flips@.len(),
            heads == all_heads(flips@.take(i as int)),
            tails == all_tails(flips@.take(i as int)),
        decreases flips@.len() - i,
    {
        assert(flips@.take(i as int + 1)[i as int] == flips@[i as int]);
        if flips[i] {
            tails = false;
        } else {
            heads = false;
        }
        i += 1;
    }
    assert(flips@.take(i as int) == flips@);
    if tokens > 0 {
        !heads
    } else {
        tails
    }
}

/// Decides whether a card of the given rank costs a token on the given
/// roll of the die.
pub fn mishap(rank: Rank, roll: u8) -> (lost: bool)
    ensures
        lost == mishap_on(rank, roll as int),
{
    proof {
        use_type_invariant(rank);
    }
    rank.value() < 6 && roll > rank.0
}

/// Flips `n` fair coins; `true` is heads.
fn flip_coins(n: usize) -> (flips: Vec<bool>)
    ensures
        flips@.len() == n,
{
    let mut flips: Vec<bool> = Vec::new();
    let mut i: usize = 0;
    while i < n
        invariant
            i <= n,
            flips@.len() == i,
        decreases n - i,
    {
        flips.push(chance(1, 2));
        i += 1;
    }
    flips
}

/// The state of a game as plain values.
pub struct GameView {
    /// The mad-science counter.
    pub tokens: int,
    /// The progress of each suit.
    pub progress: Seq<int>,
    /// The secret path length of each suit.
    pub path_lengths: Seq<PathLength>,
    /// What is known about the path length of each suit.
    pub path_length_info: Seq<PathLengthInfo>,
    /// The draw pile, from its bottom to its top.
    pub library: Seq<Card>,
    /// The discard pile, from its bottom to its top.
    pub discard: Seq<Card>,
    /// The hand of each player, by seat.
    pub hands: Seq<Seq<Card>>,
    /// The seat of the player whose turn it is.
    pub turn: nat,
    /// The phase of the current turn.
    pub phase: Phase,
}

impl GameView {
    /// The cards of the draw and discard piles together.
    pub open spec fn piles(self) -> Multiset<Card> {
        self.library.to_multiset().add(self.discard.to_multiset())
    }

    /// The number of cards in hands.
    pub open spec fn cards_in_hands(self) -> nat {
        hands_cards(self.hands).len()
    }

    /// The number of cards in the piles and hands together.
    pub open spec fn total_cards(self) -> nat {
        self.library.len() + self.discard.len() + self.cards_in_hands()
    }

    /// The number of ranked cards left in the piles: those a hand can draw.
    pub open spec fn ranked_in_piles(self) -> nat {
        ranked_count(self.piles())
    }

    /// The invariant of a game.
    ///
    /// The piles and hands hold exactly the cards of two decks, the jokers
    /// among them in the piles; the mad-science counter is not zero; the
    /// turn is a seated player's, once there is one; and no tracker shows
    /// the true length of its suit's path.
    pub open spec fn wf(self) -> bool {
        &&& self.progress.len() == NUM_SUITS
        &&& self.path_lengths.len() == NUM_SUITS
        &&& self.path_length_info.len() == NUM_SUITS
        &&& self.piles().add(hands_cards(self.hands)) == two_decks()
        &&& hands_all_ranked(self.hands)
        &&& self.tokens != 0
        &&& self.turn < self.hands.len() || (self.hands.len() == 0 && self.turn == 0)
        &&& forall|s: int|
            0 <= s < NUM_SUITS ==> !(#[trigger] self.path_length_info[s]).showing(
                self.path_lengths[s].rank_of().index(),
            )
    }

    /// Whether the progress of the suit of index `s` has reached the
    /// suit's path length.
    pub open spec fn suit_reached(self, s: int) -> bool {
        self.progress[s] >= self.path_lengths[s].rank_of().index() + 1
    }

    /// The outcome if the game ended now: a win if any suit has reached its
    /// path length.
    pub open spec fn score(self) -> GameOutcome {
        if exists|s: int| 0 <= s < NUM_SUITS && self.suit_reached(s) {
            GameOutcome::Win
        } else {
            GameOutcome::Loss
        }
    }

    /// Whether playing the card now earns momentum: the suit of the card
    /// is the suit of the card on top of the discard pile.
    pub open spec fn grants_momentum(self, card: Card) -> bool {
        self.discard.len() > 0 && !card.joker() && self.discard.last().suit_of()
            == card.suit_of()
    }

    /// The tokens that the effect of a played card can cost: one for a card
    /// whose value is below six.
    pub open spec fn effect_cost(card: Card) -> nat {
        if !card.joker() && card.rank_of().unwrap().index() + 1 < 6 {
            1
        } else {
            0
        }
    }

    /// Whether the counters can take the effect of the card: the token
    /// that it may cost, and for a card that is no face card one more step
    /// of progress in its suit.
    pub open spec fn affords_effect(self, card: Card) -> bool {
        &&& can_lose(self.tokens, Self::effect_cost(card))
        &&& !card.joker() && card.rank_of().unwrap().index() + 1 <= 10
            ==> self.progress[card.suit_of().unwrap().index() as int] < i8::MAX
    }

    /// The most tokens that playing the card can cost: what its effect
    /// costs, and, unless it earns momentum, what the next player's draw
    /// costs once the card lies on the discard pile.
    pub open spec fn play_cost(self, card: Card) -> nat {
        Self::effect_cost(card) + if self.phase == Phase::Play && self.grants_momentum(card) {
            0
        } else {
            draw_cost(self.library, self.discard.push(card))
        }
    }

    /// Whether the counters can take whatever playing the card may do to
    /// them.
    pub open spec fn affords_play(self, card: Card) -> bool {
        self.affords_effect(card) && can_lose(self.tokens, self.play_cost(card))
    }

    /// The most tokens that a draw with momentum can cost, the draw of the
    /// next player included: the jokers above the second ranked card of
    /// the library, or, where the library has to be refilled, what the one
    /// draw costs and the most that any draw costs.
    pub open spec fn draw_twice_cost(self) -> nat {
        if ranked_count(self.library.to_multiset()) >= 2 {
            jokers_above(self.library, 2)
        } else {
            (draw_cost(self.library, self.discard) + JOKERS_PER_DRAW) as nat
        }
    }

    /// Whether the mad-science counter can take a draw with momentum.
    pub open spec fn affords_draw(self) -> bool {
        can_lose(self.tokens, self.draw_twice_cost())
    }

    /// The most tokens that dealing a starting hand can cost: the jokers
    /// above the third ranked card of the library, or, where the library
    /// has to be refilled, what the first draw costs and twice the most
    /// that any draw costs.
    pub open spec fn seating_cost(self) -> nat {
        if ranked_count(self.library.to_multiset()) >= STARTING_CARDS {
            jokers_above(self.library, STARTING_CARDS as nat)
        } else {
            (draw_cost(self.library, self.discard) + (STARTING_CARDS - 1) * JOKERS_PER_DRAW) as nat
        }
    }

    /// Whether the mad-science counter can take the seating of a player.
    pub open spec fn affords_seating(self) -> bool {
        can_lose(self.tokens, self.seating_cost())
    }

    /// Whether the mad-science counter can take one draw.
    pub open spec fn affords_deal(self) -> bool {
        can_lose(self.tokens, draw_cost(self.library, self.discard))
    }

    /// Whether the counters can take whatever the action may do to them.
    pub open spec fn affords(self, play: Play) -> bool {
        match play {
            Play::Play(card) => self.affords_play(card),
            Play::Draw => self.affords_draw(),
        }
    }

    /// Whether the piles of `after` are those of `self` after one card was
    /// drawn: the top of a stocked library, or else a card of the library
    /// that was refilled from under the top discard.
    pub open spec fn draws_top(self, card: Card, after: GameView) -> bool {
        draws(self.library, self.discard, card, after.library, after.discard)
    }

    /// How far the library is from giving up a joker, which costs a token:
    /// its size while it holds one, and otherwise more than any such size,
    /// since it has to run out and be refilled first.
    pub open spec fn library_rank(self) -> nat {
        if joker_count(self.library.to_multiset()) > 0 {
            self.library.len()
        } else {
            (self.library.len() + TOTAL_CARDS + 1) as nat
        }
    }

    /// Whether `self` is closer to the end of the game than `before`: the
    /// mad-science counter is lower, or else the library is closer to a
    /// joker, or else the momentum has been earned.
    pub open spec fn closer_to_end(self, before: GameView) -> bool {
        ||| self.tokens < before.tokens
        ||| self.tokens == before.tokens && self.library_rank() < before.library_rank()
        ||| {
            &&& self.tokens == before.tokens
            &&& self.library_rank() == before.library_rank()
            &&& self.phase == Phase::Momentum
            &&& before.phase == Phase::Play
        }
    }

    /// Whether this is a game before anyone has joined: two decks in the
    /// library, the counters at their starting values, nothing revealed,
    /// and nobody seated.
    pub open spec fn starts(self) -> bool {
        &&& self.wf()
        &&& self.tokens == STARTING_MAD_SCIENCE_TOKENS
        &&& forall|s: int| 0 <= s < NUM_SUITS ==> self.progress[s] == STARTING_PROGRESS
        &&& forall|s: int, i: nat|
            0 <= s < NUM_SUITS ==> !(#[trigger] self.path_length_info[s].showing(i))
        &&& self.library.to_multiset() == two_decks()
        &&& self.discard.len() == 0
        &&& self.hands.len() == 0
        &&& self.turn == 0
        &&& self.phase == Phase::Play
    }

    /// Whether the rules allow the current player the action: a card to be
    /// played is in the hand, and a draw has been earned.
    pub open spec fn legal(self, action: Play) -> bool {
        match action {
            Play::Play(card) => self.hands[self.turn as int].contains(card),
            Play::Draw => self.phase == Phase::Momentum,
        }
    }

    /// Whether the game is ready for the current player's strategy: it is
    /// well-formed, someone is seated, and a turn that has just begun finds
    /// a card in the hand.
    pub open spec fn ready(self) -> bool {
        &&& self.wf()
        &&& self.turn < self.hands.len()
        &&& self.phase == Phase::Play ==> self.hands[self.turn as int].len() > 0
    }

    /// Whether `after` is `self` after the player at `seat` drew `card`,
    /// having drawn and discarded `jokers` first, one after another, the
    /// piles standing at `libraries[k]` and `discards[k]` before the joker
    /// of that number.
    ///
    /// Every joker has cost a token and gone to the discard pile, and the
    /// ranked card has gone to the hand. No more jokers came than the
    /// piles allowed. While the library held a ranked card it was not
    /// refilled: the jokers are the cards that lay above its topmost
    /// ranked card, which is the card drawn.
    pub open spec fn deals_by(
        self,
        seat: int,
        after: GameView,
        card: Card,
        jokers: Seq<Card>,
        libraries: Seq<Seq<Card>>,
        discards: Seq<Seq<Card>>,
    ) -> bool {
        &&& !card.joker()
        &&& libraries.len() == jokers.len() + 1
        &&& discards.len() == jokers.len() + 1
        &&& libraries[0] == self.library
        &&& discards[0] == self.discard
        &&& forall|k: int|
            #![trigger jokers[k]]
            0 <= k < jokers.len() ==> jokers[k].joker() && draws_and_discards(
                libraries[k],
                discards[k],
                jokers[k],
                libraries[k + 1],
                discards[k + 1],
            )
        &&& draws(libraries.last(), discards.last(), card, after.library, after.discard)
        &&& jokers.len() <= draw_cost(self.library, self.discard)
        &&& ranked_count(self.library.to_multiset()) > 0 ==> {
            &&& after.library.len() + 1 + jokers.len() == self.library.len()
            &&& after.library.push(card) == self.library.take(after.library.len() + 1 as int)
            &&& forall|i: int|
                after.library.len() < i < self.library.len() ==> (#[trigger] self.library[i]).joker()
            &&& after.discard == self.discard + jokers
        }
        &&& after == (GameView {
            tokens: tokens_removed(self.tokens, jokers.len()),
            hands: self.hands.update(seat, self.hands[seat].push(card)),
            library: after.library,
            discard: after.discard,
            ..self
        })
    }

    /// Whether `after` is `self` after the player at `seat` drew a card:
    /// one ranked card has gone from the piles to that hand, after every
    /// joker that came up before it had cost a token and gone to the
    /// discard pile.
    pub open spec fn deals(self, seat: int, after: GameView) -> bool {
        exists|card: Card, jokers: Seq<Card>, libraries: Seq<Seq<Card>>, discards: Seq<Seq<Card>>|
            #[trigger] self.deals_by(seat, after, card, jokers, libraries, discards)
    }

    /// Whether `after` is `self` after a forecast for the suit of index
    /// `s`: that suit's tracker has made its step.
    pub open spec fn forecasts(self, s: int, after: GameView) -> bool {
        exists|info: PathLengthInfo|
            {
                &&& info.follows(self.path_length_info[s], self.path_lengths[s])
                &&& after == (GameView {
                    path_length_info: self.path_length_info.update(s, info),
                    ..self
                })
            }
    }

    /// Whether `after` is `self` after the ranked card made progress: its
    /// suit is one step further, and a token is gone if some roll of the
    /// die that costs a card of this rank a token came up.
    pub open spec fn progresses(self, card: Card, after: GameView) -> bool {
        let s = card.suit_of().unwrap().index() as int;
        exists|roll: int|
            {
                &&& 1 <= roll <= 6
                &&& after == (GameView {
                    tokens: if mishap_on(card.rank_of().unwrap(), roll) {
                        token_removed(self.tokens)
                    } else {
                        self.tokens
                    },
                    progress: self.progress.update(s, self.progress[s] + 1),
                    ..self
                })
            }
    }

    /// Whether `after` is `self` after the current player took one copy of
    /// the card out of the hand.
    pub open spec fn takes(self, card: Card, after: GameView) -> bool {
        let seat = self.turn as int;
        &&& after.hands[seat].to_multiset() == self.hands[seat].to_multiset().remove(card)
        &&& after == (GameView { hands: self.hands.update(seat, after.hands[seat]), ..self })
    }

    /// Whether `after` is `self` after the ranked card took its effect: a
    /// forecast for a face card and progress for any other.
    pub open spec fn takes_effect(self, card: Card, after: GameView) -> bool {
        if card.rank_of().unwrap().index() + 1 > 10 {
            self.forecasts(card.suit_of().unwrap().index() as int, after)
        } else {
            self.progresses(card, after)
        }
    }

    /// Whether `after` is `self` after the current player played the
    /// ranked card: it has left that hand, taken its effect, and lies on
    /// top of the discard pile.
    pub open spec fn plays(self, card: Card, after: GameView) -> bool {
        exists|taken: GameView, effect: GameView|
            {
                &&& #[trigger] self.takes(card, taken)
                &&& #[trigger] taken.takes_effect(card, effect)
                &&& after == (GameView { discard: effect.discard.push(card), ..effect })
            }
    }

    /// The state as the turn passes to the next seat, before anything is
    /// rolled or drawn.
    pub open spec fn passed(self) -> GameView {
        GameView {
            phase: Phase::Play,
            turn: ((self.turn + 1) as int % (self.hands.len() as int)) as nat,
            ..self
        }
    }

    /// Whether `after` and `result` are what the end of the current turn
    /// makes of `self`.
    ///
    /// The turn passes on. Only when it comes back to the first seat can
    /// the game end, with the score as it stands. Otherwise the player
    /// whose turn begins draws, which fails when no ranked card is left in
    /// the piles.
    pub open spec fn ends_turn(self, result: Result<PlayOutcome, GameError>, after: GameView) -> bool {
        match result {
            Ok(PlayOutcome::End(outcome)) => {
                &&& self.passed().turn == 0
                &&& outcome == self.score()
                &&& after == self.passed()
            },
            Ok(PlayOutcome::Continue) => self.passed().deals(self.passed().turn as int, after),
            Err(e) => {
                &&& e == GameError::Exhausted
                &&& self.ranked_in_piles() == 0
                &&& after == self.passed()
            },
        }
    }

    /// Whether `after` and `result` are what the action makes of `self`.
    ///
    /// An action that the rules do not allow is refused as such. One that
    /// they allow is refused where the piles hold no ranked card for a
    /// draw with momentum, or where some way in which it can go would take
    /// a counter out of its type. Whatever is refused changes nothing.
    pub open spec fn acts(self, play: Play, result: Result<PlayOutcome, GameError>, after: GameView) -> bool {
        match play {
            Play::Play(card) => {
                if !self.hands[self.turn as int].contains(card) {
                    result == Err::<PlayOutcome, GameError>(GameError::NotInHand) && after == self
                } else if !self.affords_play(card) {
                    result == Err::<PlayOutcome, GameError>(GameError::Overflow) && after == self
                } else {
                    exists|played: GameView|
                        {
                            &&& self.plays(card, played)
                            &&& if self.phase == Phase::Play && self.grants_momentum(card) {
                                &&& result == Ok::<PlayOutcome, GameError>(PlayOutcome::Continue)
                                &&& after == (GameView { phase: Phase::Momentum, ..played })
                            } else {
                                result is Ok && played.ends_turn(result, after)
                            }
                        }
                }
            },
            Play::Draw => {
                if self.phase != Phase::Momentum {
                    result == Err::<PlayOutcome, GameError>(GameError::NoMomentum) && after == self
                } else if self.ranked_in_piles() == 0 {
                    result == Err::<PlayOutcome, GameError>(GameError::Exhausted) && after == self
                } else if !self.affords_draw() {
                    result == Err::<PlayOutcome, GameError>(GameError::Overflow) && after == self
                } else {
                    exists|drawn: GameView|
                        {
                            &&& self.deals(self.turn as int, drawn)
                            &&& drawn.ends_turn(result, after)
                            &&& self.ranked_in_piles() >= 2 ==> result is Ok
                        }
                }
            },
        }
    }

    /// Whether `trail` holds the states from `self` to `after` through
    /// `n` draws by the player at `seat`, one after another.
    pub open spec fn deals_along(self, seat: int, n: nat, trail: Seq<GameView>, after: GameView) -> bool {
        &&& trail.len() == n + 1
        &&& trail[0] == self
        &&& trail[n as int] == after
        &&& forall|k: int| 0 <= k < n ==> (#[trigger] trail[k]).deals(seat, trail[k + 1])
    }

    /// Whether `after` is `self` after the player at `seat` drew `n` cards,
    /// one after another.
    pub open spec fn deals_many(self, seat: int, n: nat, after: GameView) -> bool {
        exists|trail: Seq<GameView>| self.deals_along(seat, n, trail, after)
    }

    /// The state with one more player, whose hand is empty.
    pub open spec fn seated(self) -> GameView {
        GameView { hands: self.hands.push(Seq::empty()), ..self }
    }

    /// Whether `after` is `self` with one more player, who has drawn the
    /// starting hand.
    pub open spec fn seats(self, after: GameView) -> bool {
        self.seated().deals_many(self.hands.len() as int, STARTING_CARDS as nat, after)
    }

    /// The jokers above the ranked card at `k`, with nothing but jokers
    /// above it, are as many as the cards above it.
    pub(crate) proof fn lemma_jokers_on_top(library: Seq<Card>, k: int, n: nat)
        requires
            0 <= k < library.len(),
            !library[k].joker(),
            forall|i: int| k < i < library.len() ==> (#[trigger] library[i]).joker(),
            n >= 1,
        ensures
            jokers_above(library, n) == library.len() - 1 - k + jokers_above(
                library.take(k),
                (n - 1) as nat,
            ),
        decreases library.len() - k,
    {
        if k + 1 < library.len() {
            assert(library.last().joker());
            Self::lemma_jokers_on_top(library.drop_last(), k, n);
            assert(library.drop_last().take(k) == library.take(k));
        } else {
            assert(library.drop_last() == library.take(k));
        }
    }

    /// Counting the jokers down to a later ranked card finds no fewer.
    pub(crate) proof fn lemma_jokers_above_more(library: Seq<Card>, fewer: nat, more: nat)
        requires
            fewer <= more,
        ensures
            jokers_above(library, fewer) <= jokers_above(library, more),
        decreases library.len(),
    {
        if fewer > 0 && library.len() > 0 {
            if library.last().joker() {
                Self::lemma_jokers_above_more(library.drop_last(), fewer, more);
            } else {
                Self::lemma_jokers_above_more(
                    library.drop_last(),
                    (fewer - 1) as nat,
                    (more - 1) as nat,
                );
            }
        }
    }

    /// What a draw does to the counts: one ranked card less in the piles
    /// and one more in the hand, the jokers where they were, and the
    /// counter down by the jokers that came up, no more than the piles
    /// allowed. From a library with a ranked card the jokers are those
    /// above it.
    pub(crate) proof fn lemma_deals(self, seat: int, after: GameView) -> (lost: nat)
        requires
            self.deals(seat, after),
            0 <= seat < self.hands.len(),
        ensures
            after.piles().insert(after.hands[seat].last()) == self.piles(),
            !after.hands[seat].last().joker(),
            after.ranked_in_piles() + 1 == self.ranked_in_piles(),
            joker_count(after.piles()) == joker_count(self.piles()),
            after.hands[seat].len() > 0,
            after.tokens == tokens_removed(self.tokens, lost),
            lost <= draw_cost(self.library, self.discard),
            lost == 0 ==> self.draws_top(after.hands[seat].last(), after),
            ranked_count(self.library.to_multiset()) > 0 ==> {
                &&& ranked_count(after.library.to_multiset()) + 1 == ranked_count(
                    self.library.to_multiset(),
                )
                &&& joker_count(after.library.to_multiset()) + lost == joker_count(
                    self.library.to_multiset(),
                )
                &&& after.discard.len() == self.discard.len() + lost
                &&& forall|n: nat|
                    n >= 1 ==> #[trigger] jokers_above(self.library, n) == lost + jokers_above(
                        after.library,
                        (n - 1) as nat,
                    )
            },
    {
        let (card, jokers, libraries, discards) = choose|
            card: Card,
            jokers: Seq<Card>,
            libraries: Seq<Seq<Card>>,
            discards: Seq<Seq<Card>>,
        | #[trigger] self.deals_by(seat, after, card, jokers, libraries, discards);
        lemma_draw_discard_cycle(libraries, discards, jokers);
        let library = libraries.last();
        let discard = discards.last();
        assert(library == libraries[jokers.len() as int]);
        assert(library.to_multiset().add(discard.to_multiset()) == self.piles());
        if library.len() > 0 {
            assert(library == after.library.push(card));
        } else {
            assert(discard == discard.drop_last().push(discard.last()));
            assert(after.discard == Seq::<Card>::empty().push(discard.last()));
        }
        assert(after.piles().insert(card) =~= self.piles());
        lemma_count_insert(after.piles(), card);
        if ranked_count(self.library.to_multiset()) > 0 {
            let k = after.library.len() as int;
            assert(self.library.take(k + 1)[k] == card);
            assert(self.library.take(k) == after.library) by {
                assert(self.library.take(k + 1).drop_last() == self.library.take(k));
            }
            assert forall|n: nat| n >= 1 implies #[trigger] jokers_above(self.library, n)
                == jokers.len() + jokers_above(after.library, (n - 1) as nat) by {
                Self::lemma_jokers_on_top(self.library, k, n);
            }
            lemma_count_add(after.library.to_multiset(), after.discard.to_multiset());
            lemma_count_add(self.library.to_multiset(), self.discard.to_multiset());
            Self::lemma_jokers_only(jokers);
            lemma_count_split(jokers.to_multiset());
            lemma_count_insert(after.piles(), card);
            vstd::seq_lib::lemma_multiset_commutative(self.discard, jokers);
            lemma_count_add(self.discard.to_multiset(), jokers.to_multiset());
        }
        jokers.len()
    }

    /// Jokers count no ranked card.
    pub(crate) proof fn lemma_jokers_only(jokers: Seq<Card>)
        requires
            forall|k: int| 0 <= k < jokers.len() ==> (#[trigger] jokers[k]).joker(),
        ensures
            ranked_count(jokers.to_multiset()) == 0,
        decreases jokers.len(),
    {
        if jokers.len() == 0 {
            lemma_no_jokers(jokers.to_multiset());
        } else {
            Self::lemma_jokers_only(jokers.drop_last());
            assert(jokers == jokers.drop_last().push(jokers.last()));
            lemma_count_insert(jokers.drop_last().to_multiset(), jokers.last());
        }
    }

    /// A draw brings the game closer to its end: a joker costs a token, and
    /// a draw without one shortens the library or refills it with jokers.
    pub(crate) proof fn lemma_deals_closer(self, seat: int, after: GameView)
        requires
            self.wf(),
            self.deals(seat, after),
            0 <= seat < self.hands.len(),
        ensures
            after.tokens < self.tokens || (after.tokens == self.tokens && after.library_rank()
                < self.library_rank()),
            after.phase == self.phase,
    {
        self.lemma_census();
        let lost = self.lemma_deals(seat, after);
        let card = after.hands[seat].last();
        lemma_tokens_removed(self.tokens, lost);
        if lost == 0 {
            lemma_count_insert(after.library.to_multiset(), card);
            if self.library.len() > 0 {
                assert(self.library == after.library.push(card));
            } else {
                let below = self.discard.drop_last();
                lemma_no_jokers(self.library.to_multiset());
                lemma_count_add(self.library.to_multiset(), self.discard.to_multiset());
                assert(self.discard == below.push(self.discard.last()));
                lemma_count_insert(below.to_multiset(), self.discard.last());
            }
        }
    }

    /// A turn that ends the game ends it with the score of the state it
    /// leaves.
    pub(crate) proof fn lemma_ends_with_score(self, outcome: GameOutcome, after: GameView)
        requires
            self.ends_turn(Ok(PlayOutcome::End(outcome)), after),
        ensures
            outcome == after.score(),
            after.turn == 0,
    {
        assert(forall|s: int| after.suit_reached(s) == self.suit_reached(s));
    }

    /// A legal action is carried out, unless the counters or the piles
    /// give out.
    pub proof fn lemma_legal_acts(
        self,
        play: Play,
        result: Result<PlayOutcome, GameError>,
        after: GameView,
    )
        requires
            self.acts(play, result, after),
            self.legal(play),
        ensures
            result matches Err(e) ==> e == GameError::Overflow || e == GameError::Exhausted,
            result is Err ==> !self.affords(play) || (play == Play::Draw && self.ranked_in_piles()
                <= 1),
    {
    }

    /// A game is won only with a suit that has reached its path length.
    pub proof fn lemma_win(self, play: Play, result: Result<PlayOutcome, GameError>, after: GameView)
        requires
            self.acts(play, result, after),
        ensures
            result matches Ok(PlayOutcome::End(outcome)) ==> outcome == after.score() && after.turn
                == 0,
            result == Ok::<PlayOutcome, GameError>(PlayOutcome::End(GameOutcome::Win)) ==> exists|
                s: int,
            | 0 <= s < NUM_SUITS && after.suit_reached(s),
    {
        if let Ok(PlayOutcome::End(outcome)) = result {
            match play {
                Play::Play(card) => {
                    let played = choose|played: GameView|
                        self.plays(card, played) && played.ends_turn(result, after);
                    played.lemma_ends_with_score(outcome, after);
                },
                Play::Draw => {
                    let drawn = choose|drawn: GameView|
                        self.deals(self.turn as int, drawn) && drawn.ends_turn(result, after);
                    drawn.lemma_ends_with_score(outcome, after);
                },
            }
        }
    }

    /// What the invariant says in numbers: 108 cards in all, the four
    /// jokers in the piles, and every ranked card in the piles or in a
    /// hand.
    pub proof fn lemma_census(self)
        requires
            self.wf(),
        ensures
            self.total_cards() == TOTAL_CARDS,
            joker_count(self.piles()) == TOTAL_JOKERS,
            self.ranked_in_piles() + self.cards_in_hands() == TOTAL_RANKED,
            self.piles().len() == self.library.len() + self.discard.len(),
    {
        lemma_two_decks();
        lemma_hands_ranked(self.hands);
        lemma_count_add(self.piles(), hands_cards(self.hands));
        lemma_count_split(self.piles());
    }
}

/// A game in progress: the counters, the secrets, the piles, the hands, and
/// whose turn it is.
pub struct Game {
    pub(crate) mad_science_tokens: i8,
    pub(crate) progress: [i8; NUM_SUITS],
    pub(crate) path_lengths: [PathLength; NUM_SUITS],
    pub(crate) path_length_info: [PathLengthInfo; NUM_SUITS],
    pub(crate) library: Library,
    pub(crate) discard: Discard,
    pub(crate) hands: Vec<Hand>,
    pub(crate) turn: PlayerIndex,
    pub(crate) phase: Phase,
}

impl View for Game {
    type V = GameView;

    /// The state of the game as plain values.
    open(crate) spec fn view(&self) -> GameView {
        GameView {
            tokens: self.mad_science_tokens as int,
            progress: Seq::new(NUM_SUITS as nat, |s: int| self.progress[s] as int),
            path_lengths: self.path_lengths@,
            path_length_info: self.path_length_info@,
            library: self.library@,
            discard: self.discard@,
            hands: Seq::new(self.hands@.len(), |i: int| self.hands@[i]@),
            turn: self.turn.seat(),
            phase: self.phase,
        }
    }
}

impl Game {
    /// The outcome if the game ended now.
    pub(crate) fn final_score(&self) -> (outcome: GameOutcome)
        ensures
            outcome == self@.score(),
    {
        let mut s: usize = 0;
        while s < NUM_SUITS
            invariant
                s <= NUM_SUITS,
                forall|k: int| 0 <= k < s ==> !self@.suit_reached(k),
            decreases NUM_SUITS - s,
        {
            let target: u8 = self.path_lengths[s].rank().value();
            if self.progress[s] >= target as i8 {
                assert(self@.suit_reached(s as int));
                return GameOutcome::Win;
            }
            s += 1;
        }
        GameOutcome::Loss
    }

    /// Runs the mad-science walk: as many coins as the counter is away
    /// from zero, and the end of the game if they fall badly.
    pub(crate) fn roll_mad_science(&self) -> (outcome: PlayOutcome)
        ensures
            outcome is End ==> outcome == PlayOutcome::End(self@.score()),
            exists|flips: Seq<bool>|
                {
                    &&& flips.len() == vstd::math::abs(self@.tokens)
                    &&& outcome is Continue == walk_goes_on(self@.tokens, flips)
                },
    {
        let n: usize = if self.mad_science_tokens < 0 {
            (-(self.mad_science_tokens as i16)) as usize
        } else {
            self.mad_science_tokens as usize
        };
        let flips = flip_coins(n);
        let outcome = if walk_continues(self.mad_science_tokens, &flips) {
            PlayOutcome::Continue
        } else {
            PlayOutcome::End(self.final_score())
        };
        outcome
    }

    /// The number of cards in hands.
    pub fn cards_held(&self) -> (n: u128)
        ensures
            n == self@.cards_in_hands(),
    {
        let mut n: u128 = 0;
        let mut i: usize = 0;
        while i < self.hands.len()
            invariant
                i <= self.hands@.len(),
                n == hands_cards(self@.hands.take(i as int)).len(),
                n <= i * 0xFFFF_FFFF_FFFF_FFFF,
            decreases self.hands@.len() - i,
        {
            assert(self@.hands.take(i + 1).drop_last() == self@.hands.take(i as int));
            n += self.hands[i].len() as u128;
            i += 1;
        }
        assert(self@.hands.take(i as int) == self@.hands);
        n
    }

    /// Whether the piles and hands hold as many cards as two decks, as
    /// those of a well-formed game always do.
    pub fn valid(&self) -> (ok: bool)
        ensures
            ok == (self@.total_cards() == TOTAL_CARDS),
            self@.wf() ==> ok,
    {
        proof {
            if self@.wf() {
                self@.lemma_census();
            }
        }
        let held = self.cards_held();
        held <= TOTAL_CARDS as u128 && TOTAL_CARDS as u128 == self.library.len() as u128
            + self.discard.len() as u128 + held
    }

    /// Draws for the player at seat `pi` until a ranked card comes, which
    /// goes to that hand. Each joker that comes first costs a token and is
    /// discarded.
    ///
    /// Fails, with nothing changed, when every ranked card is in a hand
    /// already: the piles could only yield jokers for ever.
    pub(crate) fn draw_for_player(&mut self, pi: PlayerIndex) -> (done: Result<(), GameError>)
        requires
            old(self)@.wf(),
            pi.seat() < old(self)@.hands.len(),
            can_lose(old(self)@.tokens, draw_cost(old(self)@.library, old(self)@.discard)),
        ensures
            final(self)@.wf(),
            final(self)@.hands.len() == old(self)@.hands.len(),
            done is Ok <==> old(self)@.ranked_in_piles() > 0,
            done is Err ==> done == Err::<(), GameError>(GameError::Exhausted) && final(self)@
                == old(self)@,
            done is Ok ==> old(self)@.deals(pi.seat() as int, final(self)@),
    {
        proof {
            self@.lemma_census();
        }
        if self.cards_held() >= TOTAL_RANKED as u128 {
            return Err(GameError::Exhausted);
        }
        let ghost cost = draw_cost(self@.library, self@.discard);
        let ghost mut jokers: Seq<Card> = Seq::empty();
        let ghost mut libraries: Seq<Seq<Card>> = seq![self@.library];
        let ghost mut discards: Seq<Seq<Card>> = seq![self@.discard];
        proof {
            assert(self@.discard + jokers == self@.discard);
            assert(self@.library.take(self@.library.len() as int) == self@.library);
        }
        loop
            invariant
                old(self)@.wf(),
                pi.seat() < old(self)@.hands.len(),
                cost == draw_cost(old(self)@.library, old(self)@.discard),
                can_lose(old(self)@.tokens, cost),
                self@ == (GameView {
                    tokens: tokens_removed(old(self)@.tokens, jokers.len()),
                    library: self@.library,
                    discard: self@.discard,
                    ..old(self)@
                }),
                self@.piles() == old(self)@.piles(),
                joker_count(self@.piles()) == TOTAL_JOKERS,
                ranked_count(self@.piles()) > 0,
                jokers.len() + draw_cost(self@.library, self@.discard) <= cost,
                libraries.len() == jokers.len() + 1,
                discards.len() == jokers.len() + 1,
                libraries[0] == old(self)@.library,
                discards[0] == old(self)@.discard,
                libraries.last() == self@.library,
                discards.last() == self@.discard,
                forall|k: int|
                    #![trigger jokers[k]]
                    0 <= k < jokers.len() ==> jokers[k].joker() && draws_and_discards(
                        libraries[k],
                        discards[k],
                        jokers[k],
                        libraries[k + 1],
                        discards[k + 1],
                    ),
                ranked_count(old(self)@.library.to_multiset()) > 0 ==> {
                    &&& ranked_count(self@.library.to_multiset()) > 0
                    &&& self@.library.len() + jokers.len() == old(self)@.library.len()
                    &&& self@.library == old(self)@.library.take(self@.library.len() as int)
                    &&& forall|i: int|
                        self@.library.len() <= i < old(self)@.library.len() ==> (
                        #[trigger] old(self)@.library[i]).joker()
                    &&& self@.discard == old(self)@.discard + jokers
                },
            decreases pile_stage(self@.library, self@.discard), self@.library.len(),
        {
            let ghost library = self@.library;
            let ghost discard = self@.discard;
            proof {
                lemma_count_split(self@.piles());
                lemma_count_add(library.to_multiset(), discard.to_multiset());
                if library.len() == 0 {
                    assert(library =~= Seq::empty());
                    lemma_no_jokers(library.to_multiset());
                }
            }
            match self.library.draw(&mut self.discard) {
                Some(card) => {
                    let ghost left = self@.discard;
                    if card.is_joker() {
                        proof {
                            if library.len() > 0 {
                                lemma_joker_from_library(library, discard);
                                assert(library == self@.library.push(card));
                                lemma_count_insert(self@.library.to_multiset(), card);
                            } else {
                                lemma_joker_from_refill(self@.library, discard, card);
                            }
                            lemma_can_lose_fewer(old(self)@.tokens, cost, jokers.len() + 1);
                            assert(tokens_removed(old(self)@.tokens, jokers.len() + 1)
                                == token_removed(tokens_removed(old(self)@.tokens, jokers.len())));
                            assert(self@.tokens > i8::MIN);
                        }
                        self.remove_mad_science_token();
                        self.discard.discard(card);
                        proof {
                            assert(draws_and_discards(
                                library,
                                discard,
                                card,
                                self@.library,
                                self@.discard,
                            )) by {
                                assert(draws(library, discard, card, self@.library, left));
                            }
                            let before = jokers;
                            let before_libraries = libraries;
                            let before_discards = discards;
                            jokers = jokers.push(card);
                            libraries = libraries.push(self@.library);
                            discards = discards.push(self@.discard);
                            assert forall|k: int|
                                #![trigger jokers[k]]
                                0 <= k < jokers.len() implies jokers[k].joker()
                                && draws_and_discards(
                                libraries[k],
                                discards[k],
                                jokers[k],
                                libraries[k + 1],
                                discards[k + 1],
                            ) by {
                                if k < before.len() {
                                    assert(before[k].joker() && draws_and_discards(
                                        before_libraries[k],
                                        before_discards[k],
                                        before[k],
                                        before_libraries[k + 1],
                                        before_discards[k + 1],
                                    ));
                                }
                            }
                            if ranked_count(old(self)@.library.to_multiset()) > 0 {
                                assert(self@.discard =~= old(self)@.discard + jokers);
                                assert(self@.library =~= old(self)@.library.take(
                                    self@.library.len() as int,
                                ));
                            }
                        }
                    } else {
                        let ghost before = self@;
                        self.player_hand_mut(pi).add(card);
                        proof {
                            let seat = pi.seat() as int;
                            let grown = before.hands[seat].push(card);
                            assert(self@.hands =~= before.hands.update(seat, grown));
                            lemma_hands_update(before.hands, seat, grown);
                            assert(self@.piles().insert(card) == old(self)@.piles());
                            let once = hands_cards(self@.hands).add(
                                before.hands[seat].to_multiset(),
                            );
                            let twice = hands_cards(before.hands).add(grown.to_multiset());
                            assert forall|c: Card|
                                self@.piles().add(hands_cards(self@.hands)).count(c) == old(
                                    self,
                                )@.piles().add(hands_cards(before.hands)).count(c) by {
                                assert(once.count(c) == twice.count(c));
                                assert(self@.piles().insert(card).count(c) == old(
                                    self,
                                )@.piles().count(c));
                            }
                            assert(self@.piles().add(hands_cards(self@.hands)) =~= two_decks());
                            assert(hands_all_ranked(self@.hands));
                            if ranked_count(old(self)@.library.to_multiset()) > 0 {
                                assert(library == self@.library.push(card));
                                assert(self@.library.push(card) =~= old(self)@.library.take(
                                    self@.library.len() + 1 as int,
                                ));
                            }
                            assert(old(self)@.deals_by(
                                seat,
                                self@,
                                card,
                                jokers,
                                libraries,
                                discards,
                            ));
                        }
                        return Ok(());
                    }
                },
                None => {
                    return Err(GameError::Exhausted);
                },
            }
        }
    }

    /// Advances the progress of the card's suit, at the risk of a token
    /// for a low card.
    pub(crate) fn make_progress(&mut self, card: Card)
        requires
            !card.joker(),
            can_lose(old(self)@.tokens, GameView::effect_cost(card)),
            old(self)@.progress[card.suit_of().unwrap().index() as int] < i8::MAX,
        ensures
            old(self)@.progresses(card, final(self)@),
            final(self)@.tokens == old(self)@.tokens || (GameView::effect_cost(card) == 1
                && final(self)@.tokens == token_removed(old(self)@.tokens)),
    {
        let rank = card.rank().unwrap();
        let suit = card.suit().unwrap();
        proof {
            use_type_invariant(suit);
        }
        let mut roll: u8 = 1;
        proof {
            reveal_with_fuel(tokens_removed, 2);
        }
        if rank.value() < 6 {
            roll = random_in_range(1, 7) as u8;
            if mishap(rank, roll) {
                self.remove_mad_science_token();
            }
        }
        let s: usize = suit.0 as usize;
        self.progress[s] += 1;
        proof {
            assert(self@.progress =~= old(self)@.progress.update(
                s as int,
                old(self)@.progress[s as int] + 1,
            ));
            assert(self@ == (GameView {
                tokens: if mishap_on(rank, roll as int) {
                    token_removed(old(self)@.tokens)
                } else {
                    old(self)@.tokens
                },
                progress: old(self)@.progress.update(s as int, old(self)@.progress[s as int] + 1),
                ..old(self)@
            }));
        }
    }

    /// Reveals one more rank that the path of the card's suit is not long.
    pub(crate) fn forecast(&mut self, card: Card)
        requires
            !card.joker(),
        ensures
            old(self)@.forecasts(card.suit_of().unwrap().index() as int, final(self)@),
    {
        let suit = card.suit().unwrap();
        proof {
            use_type_invariant(suit);
        }
        let s: usize = suit.0 as usize;
        let length = self.path_lengths[s];
        self.path_length_info[s].reveal_random(length);
    }

    /// Plays the card from the current player's hand and tells whether that
    /// earns momentum.
    ///
    /// Fails, with nothing changed, when the hand does not hold the card.
    pub(crate) fn apply_card(&mut self, card: Card) -> (momentum: Result<bool, GameError>)
        requires
            old(self)@.wf(),
            old(self)@.turn < old(self)@.hands.len(),
            old(self)@.affords_effect(card),
        ensures
            final(self)@.wf(),
            momentum is Ok <==> old(self)@.hands[old(self)@.turn as int].contains(card),
            momentum is Err ==> momentum == Err::<bool, GameError>(GameError::NotInHand)
                && final(self)@ == old(self)@,
            final(self)@.hands.len() == old(self)@.hands.len(),
            momentum matches Ok(earned) ==> {
                &&& earned == old(self)@.grants_momentum(card)
                &&& old(self)@.plays(card, final(self)@)
                &&& final(self)@.ranked_in_piles() > 0
                &&& final(self)@.tokens == old(self)@.tokens || (GameView::effect_cost(card) == 1
                    && final(self)@.tokens == token_removed(old(self)@.tokens))
                &&& final(self)@.discard == old(self)@.discard.push(card)
                &&& final(self)@.library == old(self)@.library
                &&& final(self)@.phase == old(self)@.phase
                &&& final(self)@.turn == old(self)@.turn
            },
    {
        let ghost seat = self@.turn as int;
        let ghost hands = self@.hands;
        match self.current_player_hand_mut().remove(card) {
            Err(e) => {
                assert(self@.hands =~= hands);
                return Err(e);
            },
            Ok(()) => {},
        }
        let ghost taken = self@;
        proof {
            let shrunk = taken.hands[seat];
            assert(old(self)@.takes(card, taken));
            lemma_hands_update(hands, seat, shrunk);
            assert forall|k: int| 0 <= k < shrunk.len() implies !(#[trigger] shrunk[k]).joker() by {
                assert(shrunk.to_multiset().count(shrunk[k]) > 0);
            }
            assert(hands_all_ranked(taken.hands));
        }
        let rank = card.rank().unwrap();
        let suit = card.suit().unwrap();
        proof {
            use_type_invariant(suit);
        }
        if rank.is_face() {
            self.forecast(card);
        } else {
            self.make_progress(card);
        }
        let ghost effect = self@;
        assert(taken.takes_effect(card, effect));
        let suits_match = self.follows_suit(card);
        self.discard.discard(card);
        proof {
            let once = hands_cards(taken.hands).add(hands[seat].to_multiset());
            let twice = hands_cards(hands).add(taken.hands[seat].to_multiset());
            assert forall|c: Card|
                self@.piles().add(hands_cards(self@.hands)).count(c) == old(self)@.piles().add(
                    hands_cards(hands),
                ).count(c) by {
                assert(once.count(c) == twice.count(c));
            }
            assert(self@.piles().add(hands_cards(self@.hands)) =~= two_decks());
            lemma_count_insert(old(self)@.piles(), card);
            assert(self@.piles() =~= old(self)@.piles().insert(card));
        }
        Ok(suits_match)
    }

    /// Ends the current player's turn.
    ///
    /// The turn passes to the next seat. When that is the first seat, a
    /// round is over and the mad-science walk may end the game. Otherwise
    /// the player whose turn begins draws a card.
    pub(crate) fn end_of_turn(&mut self) -> (result: Result<PlayOutcome, GameError>)
        requires
            old(self)@.wf(),
            old(self)@.hands.len() > 0,
            can_lose(old(self)@.tokens, draw_cost(old(self)@.library, old(self)@.discard)),
        ensures
            final(self)@.wf(),
            final(self)@.hands.len() == old(self)@.hands.len(),
            old(self)@.ends_turn(result, final(self)@),
            old(self)@.ranked_in_piles() > 0 ==> result is Ok,
            result == Ok::<PlayOutcome, GameError>(PlayOutcome::Continue) ==> {
                &&& final(self)@.ready()
                &&& final(self)@.tokens < old(self)@.tokens || (final(self)@.tokens == old(
                    self,
                )@.tokens && final(self)@.library_rank() < old(self)@.library_rank())
            },
    {
        self.phase = Phase::Play;
        self.turn = self.turn.next(self.hands.len());
        if self.turn.0 == 0 {
            if let PlayOutcome::End(outcome) = self.roll_mad_science() {
                assert(forall|s: int| self@.suit_reached(s) == old(self)@.suit_reached(s));
                return Ok(PlayOutcome::End(outcome));
            }
        }
        let ghost passed = self@;
        match self.draw_for_player(self.turn) {
            Ok(()) => {
                proof {
                    passed.lemma_deals_closer(passed.turn as int, self@);
                    passed.lemma_deals(passed.turn as int, self@);
                }
                Ok(PlayOutcome::Continue)
            },
            Err(e) => Err(e),
        }
    }

    /// Whether the card follows the suit of the top discard.
    pub(crate) fn follows_suit(&self, card: Card) -> (follows: bool)
        ensures
            follows == self@.grants_momentum(card),
    {
        match card.suit() {
            Some(suit) => match self.discard.top() {
                Some(top) => match top.suit() {
                    Some(top_suit) => top_suit == suit,
                    None => false,
                },
                None => false,
            },
            None => false,
        }
    }

    /// Whether the counters can take whatever playing the ranked card may
    /// do to them.
    pub fn affords_play(&self, card: Card) -> (ok: bool)
        requires
            !card.joker(),
        ensures
            ok == self@.affords_play(card),
    {
        let rank = card.rank().unwrap();
        let suit = card.suit().unwrap();
        proof {
            use_type_invariant(suit);
        }
        if !rank.is_face() && self.progress[suit.0 as usize] == i8::MAX {
            return false;
        }
        let effect: u128 = if rank.value() < 6 {
            1
        } else {
            0
        };
        let draw: u128 = if self.phase == Phase::Play && self.follows_suit(card) {
            0
        } else {
            reckon_draw_cost(&self.library.cards, &self.discard.cards, Some(card))
        };
        proof {
            if can_lose(self@.tokens, self@.play_cost(card)) {
                lemma_can_lose_fewer(self@.tokens, self@.play_cost(card), GameView::effect_cost(card));
            }
        }
        affords(self.mad_science_tokens, effect + draw)
    }

    /// Whether the mad-science counter can take one draw.
    pub fn affords_deal(&self) -> (ok: bool)
        ensures
            ok == self@.affords_deal(),
    {
        affords(
            self.mad_science_tokens,
            reckon_draw_cost(&self.library.cards, &self.discard.cards, None),
        )
    }

    /// Whether the mad-science counter can take a draw with momentum.
    pub fn affords_draw(&self) -> (ok: bool)
        ensures
            ok == self@.affords_draw(),
    {
        proof {
            lemma_count_split(self@.library.to_multiset());
        }
        let ranked = self.library.len() - count_jokers(&self.library.cards);
        let cost: u128 = if ranked >= 2 {
            count_jokers_above(&self.library.cards, 2) as u128
        } else {
            let first = reckon_draw_cost(&self.library.cards, &self.discard.cards, None);
            first + JOKERS_PER_DRAW as u128
        };
        affords(self.mad_science_tokens, cost)
    }

    /// Whether the mad-science counter can take the seating of a player.
    pub fn affords_seating(&self) -> (ok: bool)
        ensures
            ok == self@.affords_seating(),
    {
        proof {
            lemma_count_split(self@.library.to_multiset());
        }
        let ranked = self.library.len() - count_jokers(&self.library.cards);
        let cost: u128 = if ranked >= STARTING_CARDS as usize {
            count_jokers_above(&self.library.cards, STARTING_CARDS as usize) as u128
        } else {
            let first = reckon_draw_cost(&self.library.cards, &self.discard.cards, None);
            first + (STARTING_CARDS as u128 - 1) * JOKERS_PER_DRAW as u128
        };
        affords(self.mad_science_tokens, cost)
    }

    /// Plays a card for the current player, in either phase.
    pub(crate) fn play_card(&mut self, card: Card) -> (result: Result<PlayOutcome, GameError>)
        requires
            old(self)@.wf(),
            old(self)@.hands.len() > 0,
        ensures
            final(self)@.wf(),
            final(self)@.hands.len() == old(self)@.hands.len(),
            old(self)@.acts(Play::Play(card), result, final(self)@),
            result == Ok::<PlayOutcome, GameError>(PlayOutcome::Continue) ==> final(self)@.ready()
                && final(self)@.closer_to_end(old(self)@),
    {
        if !self.current_player_hand().contains(card) {
            return Err(GameError::NotInHand);
        }
        proof {
            let hand = self@.hands[self@.turn as int];
            let i = choose|i: int| 0 <= i < hand.len() && hand[i] == card;
            assert(!hand[i].joker());
        }
        if !self.affords_play(card) {
            return Err(GameError::Overflow);
        }
        let momentum = match self.apply_card(card) {
            Ok(earned) => earned,
            Err(e) => {
                return Err(e);
            },
        };
        if self.phase == Phase::Play && momentum {
            self.phase = Phase::Momentum;
            Ok(PlayOutcome::Continue)
        } else {
            proof {
                let cost = draw_cost(self@.library, self@.discard);
                lemma_can_lose_fewer(old(self)@.tokens, old(self)@.play_cost(card), cost);
                if self@.tokens != old(self)@.tokens {
                    reveal_with_fuel(tokens_removed, 2);
                    lemma_tokens_removed_twice(old(self)@.tokens, 1, cost);
                    lemma_can_lose_fewer(old(self)@.tokens, old(self)@.play_cost(card), 1 + cost);
                }
            }
            self.end_of_turn()
        }
    }

    /// Draws a card for the current player, who must have momentum, and
    /// ends the turn.
    pub(crate) fn draw_for_momentum(&mut self) -> (result: Result<PlayOutcome, GameError>)
        requires
            old(self)@.wf(),
            old(self)@.hands.len() > 0,
        ensures
            final(self)@.wf(),
            final(self)@.hands.len() == old(self)@.hands.len(),
            old(self)@.acts(Play::Draw, result, final(self)@),
            result == Ok::<PlayOutcome, GameError>(PlayOutcome::Continue) ==> final(self)@.ready()
                && final(self)@.closer_to_end(old(self)@),
    {
        if self.phase != Phase::Momentum {
            return Err(GameError::NoMomentum);
        }
        proof {
            self@.lemma_census();
        }
        if self.cards_held() >= TOTAL_RANKED as u128 {
            return Err(GameError::Exhausted);
        }
        if !self.affords_draw() {
            return Err(GameError::Overflow);
        }
        proof {
            let first = draw_cost(self@.library, self@.discard);
            if ranked_count(self@.library.to_multiset()) >= 2 {
                GameView::lemma_jokers_above_more(self@.library, 1, 2);
            }
            lemma_can_lose_fewer(self@.tokens, self@.draw_twice_cost(), first);
        }
        match self.draw_for_player(self.turn) {
            Ok(()) => {},
            Err(e) => {
                return Err(e);
            },
        }
        let ghost drawn = self@;
        proof {
            old(self)@.lemma_deals_closer(old(self)@.turn as int, drawn);
            let lost = old(self)@.lemma_deals(old(self)@.turn as int, drawn);
            let next = draw_cost(drawn.library, drawn.discard);
            drawn.lemma_census();
            lemma_cost_bound(drawn.library, drawn.discard);
            if ranked_count(old(self)@.library.to_multiset()) >= 2 {
                assert(jokers_above(old(self)@.library, 2) == lost + jokers_above(
                    drawn.library,
                    1,
                ));
            }
            lemma_can_lose_fewer(old(self)@.tokens, old(self)@.draw_twice_cost(), lost + next);
            lemma_tokens_removed_twice(old(self)@.tokens, lost, next);
        }
        self.end_of_turn()
    }

    /// Carries out one action of the current player.
    ///
    /// A card can be played in either phase of the turn; it earns momentum,
    /// one more action, when it is played at the beginning of the turn and
    /// follows suit. A draw spends the momentum. Anything else ends the
    /// turn.
    ///
    /// An action that is refused changes nothing: a card that is not in
    /// the hand, a draw without momentum or with no ranked card left in
    /// the piles, or an action that could take a counter out of its type.
    /// Only the draw for the next player, once the action itself is done,
    /// can still fail for want of a ranked card.
    pub fn play(&mut self, play: Play) -> (result: Result<PlayOutcome, GameError>)
        requires
            old(self)@.wf(),
            old(self)@.hands.len() > 0,
        ensures
            final(self)@.wf(),
            old(self)@.acts(play, result, final(self)@),
            final(self)@.total_cards() == TOTAL_CARDS,
            final(self)@.hands.len() == old(self)@.hands.len(),
            result matches Ok(PlayOutcome::End(outcome)) ==> outcome == final(self)@.score()
                && final(self)@.turn == 0,
            result == Ok::<PlayOutcome, GameError>(PlayOutcome::End(GameOutcome::Win)) ==> exists|
                s: int,
            | 0 <= s < NUM_SUITS && final(self)@.suit_reached(s),
            result == Ok::<PlayOutcome, GameError>(PlayOutcome::Continue) ==> final(self)@.ready()
                && final(self)@.closer_to_end(old(self)@),
    {
        let result = match play {
            Play::Play(card) => self.play_card(card),
            Play::Draw => self.draw_for_momentum(),
        };
        proof {
            self@.lemma_census();
            old(self)@.lemma_win(play, result, self@);
        }
        result
    }

    /// A game before anyone has joined, with the given path lengths, one
    /// for each suit: two shuffled decks in the library, the counters at
    /// their starting values, and nothing revealed.
    #[must_use]
    pub fn new(path_lengths: [PathLength; NUM_SUITS]) -> (game: Game)
        ensures
            game@.starts(),
            game@.path_lengths == path_lengths@,
    {
        let mut cards = deck(WithOrWithoutJokers::WithJokers);
        let mut second = deck(WithOrWithoutJokers::WithJokers);
        proof {
            assert(cards@ =~= full_deck());
            assert(second@ =~= full_deck());
        }
        cards.append(&mut second);
        proof {
            vstd::seq_lib::lemma_multiset_commutative(full_deck(), full_deck());
        }
        let game = Game {
            mad_science_tokens: STARTING_MAD_SCIENCE_TOKENS,
            progress: [STARTING_PROGRESS, STARTING_PROGRESS, STARTING_PROGRESS, STARTING_PROGRESS],
            path_lengths,
            path_length_info: [
                PathLengthInfo::default(),
                PathLengthInfo::default(),
                PathLengthInfo::default(),
                PathLengthInfo::default(),
            ],
            library: Library::new(shuffled(cards)),
            discard: Discard::default(),
            hands: Vec::new(),
            turn: PlayerIndex(0),
            phase: Phase::Play,
        };
        proof {
            assert(game@.piles().add(hands_cards(game@.hands)) =~= two_decks());
        }
        game
    }

    /// Seats one more player and deals the starting hand.
    ///
    /// Fails, with nothing changed, when the piles hold too few ranked
    /// cards for the hand, or when the jokers that may come up could take
    /// the mad-science counter out of its type.
    pub fn add_player(&mut self) -> (done: Result<(), GameError>)
        requires
            old(self)@.wf(),
        ensures
            final(self)@.wf(),
            final(self)@.total_cards() == TOTAL_CARDS,
            done is Ok ==> {
                &&& final(self)@.hands.drop_last() == old(self)@.hands
                &&& final(self)@.hands.last().len() == STARTING_CARDS
                &&& final(self)@.ranked_in_piles() + STARTING_CARDS == old(self)@.ranked_in_piles()
                &&& exists|lost: nat|
                    lost <= old(self)@.seating_cost() && final(self)@.tokens
                        == #[trigger] tokens_removed(old(self)@.tokens, lost)
                &&& ranked_count(old(self)@.library.to_multiset()) >= STARTING_CARDS ==> {
                    &&& final(self)@.tokens == tokens_removed(
                        old(self)@.tokens,
                        old(self)@.seating_cost(),
                    )
                    &&& ranked_count(final(self)@.library.to_multiset()) + STARTING_CARDS
                        == ranked_count(old(self)@.library.to_multiset())
                    &&& joker_count(final(self)@.library.to_multiset()) + old(
                        self,
                    )@.seating_cost() == joker_count(old(self)@.library.to_multiset())
                    &&& final(self)@.discard.len() == old(self)@.discard.len() + old(
                        self,
                    )@.seating_cost()
                }
                &&& final(self)@ == (GameView {
                    tokens: final(self)@.tokens,
                    library: final(self)@.library,
                    discard: final(self)@.discard,
                    hands: final(self)@.hands,
                    ..old(self)@
                })
            },
            done is Ok <==> old(self)@.ranked_in_piles() >= STARTING_CARDS && old(
                self,
            )@.affords_seating(),
            match done {
                Ok(()) => old(self)@.seats(final(self)@),
                Err(e) => {
                    &&& final(self)@ == old(self)@
                    &&& e == if old(self)@.ranked_in_piles() < STARTING_CARDS {
                        GameError::Exhausted
                    } else {
                        GameError::Overflow
                    }
                },
            },
    {
        proof {
            self@.lemma_census();
        }
        if self.cards_held() + STARTING_CARDS as u128 > TOTAL_RANKED as u128 {
            return Err(GameError::Exhausted);
        }
        if !self.affords_seating() {
            return Err(GameError::Overflow);
        }
        self.hands.push(Hand::default());
        let pi = PlayerIndex(self.hands.len() - 1);
        let ghost seat = pi.seat() as int;
        let ghost cost = old(self)@.seating_cost();
        let ghost from_library = ranked_count(old(self)@.library.to_multiset()) >= STARTING_CARDS;
        proof {
            assert(self@.hands =~= old(self)@.hands.push(Seq::empty()));
            lemma_hands_push(old(self)@.hands, Seq::empty());
            assert(hands_cards(self@.hands) =~= hands_cards(old(self)@.hands));
            assert(hands_all_ranked(self@.hands));
        }
        let mut dealt: u8 = 0;
        let ghost mut lost: nat = 0;
        let ghost mut trail: Seq<GameView> = seq![self@];
        while dealt < STARTING_CARDS
            invariant
                dealt <= STARTING_CARDS,
                self@.wf(),
                seat == pi.seat(),
                seat + 1 == self@.hands.len(),
                old(self)@.seated().deals_along(seat, dealt as nat, trail, self@),
                self@.ranked_in_piles() + dealt == old(self)@.ranked_in_piles(),
                old(self)@.ranked_in_piles() >= STARTING_CARDS,
                cost == old(self)@.seating_cost(),
                can_lose(old(self)@.tokens, cost),
                self@.tokens == tokens_removed(old(self)@.tokens, lost),
                from_library == (ranked_count(old(self)@.library.to_multiset())
                    >= STARTING_CARDS),
                from_library ==> ranked_count(self@.library.to_multiset()) + dealt
                    == ranked_count(old(self)@.library.to_multiset()) && lost + jokers_above(
                    self@.library,
                    (STARTING_CARDS - dealt) as nat,
                ) == cost && joker_count(self@.library.to_multiset()) + lost == joker_count(
                    old(self)@.library.to_multiset(),
                ) && self@.discard.len() == old(self)@.discard.len() + lost,
                !from_library && dealt == 0 ==> lost == 0 && self@.library == old(self)@.library
                    && self@.discard == old(self)@.discard,
                !from_library && dealt > 0 ==> lost + (STARTING_CARDS - dealt) * JOKERS_PER_DRAW
                    <= cost,
                lost <= cost,
                self@.hands.drop_last() == old(self)@.hands,
                self@.hands.last().len() == dealt,
                self@ == (GameView {
                    tokens: self@.tokens,
                    library: self@.library,
                    discard: self@.discard,
                    hands: self@.hands,
                    ..old(self)@
                }),
            decreases STARTING_CARDS - dealt,
        {
            let ghost before = self@;
            proof {
                let next = draw_cost(before.library, before.discard);
                before.lemma_census();
                lemma_cost_bound(before.library, before.discard);
                if from_library {
                    GameView::lemma_jokers_above_more(
                        before.library,
                        1,
                        (STARTING_CARDS - dealt) as nat,
                    );
                }
                lemma_can_lose_fewer(old(self)@.tokens, cost, lost + next);
                lemma_tokens_removed_twice(old(self)@.tokens, lost, next);
            }
            match self.draw_for_player(pi) {
                Ok(()) => {},
                Err(e) => {
                    return Err(e);
                },
            }
            proof {
                let here = before.lemma_deals(seat, self@);
                lemma_tokens_removed_twice(old(self)@.tokens, lost, here);
                if from_library {
                    assert(jokers_above(before.library, (STARTING_CARDS - dealt) as nat) == here
                        + jokers_above(self@.library, (STARTING_CARDS - dealt - 1) as nat));
                }
                lost = lost + here;
                trail = trail.push(self@);
            }
            dealt += 1;
        }
        proof {
            self@.lemma_census();
        }
        Ok(())
    }

    /// The hand of the player at seat `pi`, to be changed.
    pub(crate) fn player_hand_mut(&mut self, pi: PlayerIndex) -> (hand: &mut Hand)
        requires
            pi.seat() < old(self)@.hands.len(),
        ensures
            hand@ == old(self)@.hands[pi.seat() as int],
            final(self)@.hands == old(self)@.hands.update(pi.seat() as int, final(hand)@),
            final(self)@ == (GameView { hands: final(self)@.hands, ..old(self)@ }),
    {
        &mut self.hands[pi.0]
    }

    /// The hand of the player whose turn it is, to be changed.
    pub(crate) fn current_player_hand_mut(&mut self) -> (hand: &mut Hand)
        requires
            old(self)@.turn < old(self)@.hands.len(),
        ensures
            hand@ == old(self)@.hands[old(self)@.turn as int],
            final(self)@.hands == old(self)@.hands.update(old(self)@.turn as int, final(hand)@),
            final(self)@ == (GameView { hands: final(self)@.hands, ..old(self)@ }),
    {
        let turn = self.turn;
        self.player_hand_mut(turn)
    }

    /// The hand of the player whose turn it is.
    #[must_use]
    pub fn current_player_hand(&self) -> (hand: &Hand)
        requires
            self@.turn < self@.hands.len(),
        ensures
            hand@ == self@.hands[self@.turn as int],
    {
        &self.hands[self.turn.0]
    }

    /// The phase of the current turn.
    pub fn phase(&self) -> (phase: Phase)
        ensures
            phase == self@.phase,
    {
        self.phase
    }

    /// The card on top of the discard pile, if the pile holds any.
    pub fn discard_top(&self) -> (card: Option<&Card>)
        ensures
            self@.discard.len() == 0 ==> card is None,
            self@.discard.len() > 0 ==> card == Some(&self@.discard.last()),
    {
        self.discard.top()
    }

    /// The number of players.
    pub fn num_players(&self) -> (n: usize)
        ensures
            n == self@.hands.len(),
    {
        self.hands.len()
    }

    /// The seat of the player whose turn it is.
    pub fn turn(&self) -> (seat: usize)
        ensures
            seat == self@.turn,
    {
        self.turn.0
    }

    /// The mad-science counter.
    pub fn mad_science_tokens(&self) -> (tokens: i8)
        ensures
            tokens == self@.tokens,
    {
        self.mad_science_tokens
    }

    /// The progress of the suit.
    pub fn progress(&self, suit: Suit) -> (progress: i8)
        ensures
            progress == self@.progress[suit.index() as int],
    {
        proof {
            use_type_invariant(suit);
        }
        self.progress[suit.0 as usize]
    }

    /// What is publicly known about the path length of the suit.
    pub fn revealed(&self, suit: Suit) -> (info: PathLengthInfo)
        ensures
            info == self@.path_length_info[suit.index() as int],
    {
        proof {
            use_type_invariant(suit);
        }
        self.path_length_info[suit.0 as usize]
    }

    /// Removes one token from the mad-science counter, which never rests
    /// on zero.
    pub(crate) fn remove_mad_science_token(&mut self)
        requires
            old(self)@.tokens > i8::MIN,
        ensures
            final(self)@ == (GameView { tokens: token_removed(old(self)@.tokens), ..old(self)@ }),
            final(self)@.tokens != 0,
    {
        loop
            invariant_except_break
                self.mad_science_tokens == old(self).mad_science_tokens
                    || self.mad_science_tokens == 0 && old(self).mad_science_tokens == 1,
                self@ == (GameView { tokens: self.mad_science_tokens as int, ..old(self)@ }),
                old(self).mad_science_tokens > i8::MIN,
            ensures
                self.mad_science_tokens == token_removed(old(self).mad_science_tokens as int),
                self@ == (GameView { tokens: self.mad_science_tokens as int, ..old(self)@ }),
            decreases self.mad_science_tokens + 2 - old(self).mad_science_tokens,
        {
            self.mad_science_tokens -= 1;
            if self.mad_science_tokens != 0 {
                break ;
            }
        }
    }
}

impl Default for Game {
    /// A game before anyone has joined, with four path lengths drawn in
    /// secret.
    fn default() -> (game: Game)
        ensures
            game@.starts(),
    {
        Game::new(
            [
                PathLength::random(),
                PathLength::random(),
                PathLength::random(),
                PathLength::random(),
            ],
        )
    }
}

} // verus!
