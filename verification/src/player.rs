//! Strategies, and the match that they play.

use crate::card::Card;
use crate::census::TOTAL_RANKED;
use crate::chance::chance;
use crate::error::GameError;
use crate::game::{Game, GameOutcome, GameView, Phase, Play, PlayOutcome};
use crate::hand::of_suit;
use vstd::prelude::*;

verus! {

/// A way of playing: what to do next, given what the current player can
/// see of the game.
pub trait Strategy {
    /// The action to take now. The game is ready for it: a turn that has
    /// just begun finds a card in the hand.
    fn decide(&mut self, game: &Game) -> (action: Play)
        requires
            game@.ready(),
    ;
}

/// Whether chance can decide so on an event that has `numerator` chances in
/// `denominator`: never for it when it has no chance, never against it when
/// it has every chance.
pub open spec fn chance_allows(numerator: u32, denominator: u32, hit: bool) -> bool {
    &&& numerator == 0 ==> !hit
    &&& numerator == denominator ==> hit
}

/// The odds of an event: `numerator` chances in `denominator`.
struct Odds {
    numerator: u32,
    denominator: u32,
}

impl Odds {
    /// The odds are a ratio between nought and one.
    #[verifier::type_invariant]
    spec fn is_ratio(self) -> bool {
        0 < self.denominator && self.numerator <= self.denominator
    }

    /// Whether the event happens this time: as chance decides, within
    /// what the odds allow.
    fn hit(&self) -> (hit: bool)
        ensures
            chance_allows(self.numerator, self.denominator, hit),
    {
        proof {
            use_type_invariant(self);
        }
        chance(self.numerator, self.denominator)
    }
}

/// How a player plays.
enum Way {
    /// At random; with momentum, a draw with these odds.
    Random(Odds),
    /// For momentum when a card earns it, and as this other player would
    /// when none does.
    Momentum(Box<Player>),
    /// By a strategy of the caller's.
    Custom(Box<dyn Strategy>),
}

/// A player: some way of choosing actions.
pub struct Player {
    way: Way,
}

/// Whether the random strategy with these odds of a draw can decide so in
/// the given game: against a draw while there is no momentum, and with
/// momentum as chance allows.
pub open spec fn random_draw_of(
    numerator: u32,
    denominator: u32,
    game: GameView,
    draw: bool,
) -> bool {
    if game.phase == Phase::Momentum {
        chance_allows(numerator, denominator, draw)
    } else {
        !draw
    }
}

/// Whether `action` is a choice of the random strategy: a card of the
/// hand, but a draw in the momentum phase if the draw was decided on or the
/// hand is empty.
pub open spec fn random_choice_of(game: GameView, draw: bool, action: Play) -> bool {
    let hand = game.hands[game.turn as int];
    if game.phase == Phase::Momentum && (draw || hand.len() == 0) {
        action == Play::Draw
    } else {
        action matches Play::Play(card) && hand.contains(card)
    }
}

/// Chooses for the random strategy, `draw` telling whether chance has
/// decided on a draw: any card of the hand otherwise, each as likely as
/// the next.
pub fn random_choice(game: &Game, draw: bool) -> (action: Play)
    requires
        game@.ready(),
    ensures
        random_choice_of(game@, draw, action),
{
    if game.phase() == Phase::Momentum && draw {
        return Play::Draw;
    }
    match game.current_player_hand().random() {
        Some(card) => Play::Play(*card),
        None => Play::Draw,
    }
}

/// The cards that earn momentum now: those of the hand that follow the
/// suit of the top discard, at the beginning of a turn.
pub open spec fn momentum_cards(game: GameView) -> Seq<Card> {
    if game.phase == Phase::Play && game.discard.len() > 0 && game.discard.last().suit_of()
        is Some {
        game.hands[game.turn as int].filter(of_suit(game.discard.last().suit_of().unwrap()))
    } else {
        Seq::empty()
    }
}

/// Chooses a card that earns momentum, any of them as likely as the next,
/// if the hand holds one.
pub fn momentum_choice(game: &Game) -> (action: Option<Play>)
    requires
        game@.ready(),
    ensures
        action is Some <==> momentum_cards(game@).len() > 0,
        action matches Some(chosen) ==> {
            &&& chosen matches Play::Play(card)
            &&& momentum_cards(game@).contains(card)
            &&& game@.hands[game@.turn as int].contains(card)
            &&& game@.grants_momentum(card)
        },
{
    if game.phase() == Phase::Play {
        if let Some(top) = game.discard_top() {
            if let Some(suit) = top.suit() {
                let hand = game.current_player_hand();
                let following = hand.filter_by_suit(suit);
                if let Some(card) = following.random() {
                    proof {
                        let i = choose|i: int|
                            0 <= i < following@.len() && following@[i] == *card;
                        hand@.lemma_filter_contains_rev(of_suit(suit), *card);
                        hand@.lemma_filter_pred(of_suit(suit), i);
                    }
                    return Some(Play::Play(*card));
                }
            }
        }
    }
    None
}

impl Player {
    /// Whether the player may take `action` in the given game.
    ///
    /// A random player may take any choice of the random strategy, a draw
    /// being decided on, given momentum, as the odds allow. A player who
    /// seeks momentum may play any card that earns it, and, when
    /// the hand holds none, whatever the fallback may take. Of a strategy
    /// of the caller's nothing is known.
    pub closed spec fn may_take(&self, game: GameView, action: Play) -> bool {
        self.way is Custom || self.may_take_by_way(game, action)
    }

    /// Whether the player's way of playing may lead to `action` in the
    /// given game.
    closed spec fn may_take_by_way(&self, game: GameView, action: Play) -> bool
        decreases self,
    {
        match self.way {
            Way::Random(odds) => exists|draw: bool|
                random_draw_of(odds.numerator, odds.denominator, game, draw)
                    && #[trigger] random_choice_of(game, draw, action),
            Way::Momentum(fallback) => if momentum_cards(game).len() > 0 {
                action matches Play::Play(card) && momentum_cards(game).contains(card)
            } else {
                fallback.may_take_by_way(game, action)
            },
            Way::Custom(_) => true,
        }
    }

    /// Whatever a player of any way may take, its way may lead to: the way
    /// of a caller's strategy may lead to anything.
    proof fn lemma_may_take_by_way(&self, game: GameView, action: Play)
        ensures
            self.may_take(game, action) == self.may_take_by_way(game, action),
    {
    }

    /// Whether the player takes legal actions only.
    pub open spec fn plays_legally(&self) -> bool {
        forall|game: GameView, action: Play|
            game.ready() && #[trigger] self.may_take(game, action) ==> game.legal(action)
    }

    /// How many players stand behind this one as fallbacks.
    pub closed spec fn fallbacks(&self) -> nat
        decreases self,
    {
        match self.way {
            Way::Momentum(fallback) => 1 + fallback.fallbacks(),
            _ => 0,
        }
    }

    /// The player who follows the given strategy. Nothing is known of what
    /// it will choose, so the player may take any action.
    #[must_use]
    pub fn new<T>(strategy: T) -> (player: Player) where T: Strategy + 'static
        ensures
            forall|game: GameView, action: Play| #[trigger] player.may_take(game, action),
    {
        Player { way: Way::Custom(Box::new(strategy)) }
    }

    /// The action that the player takes now.
    pub fn act(&mut self, game: &Game) -> (action: Play)
        requires
            game@.ready(),
        ensures
            old(self).may_take(game@, action),
            forall|other: GameView, taken: Play| #[trigger]
                final(self).may_take(other, taken) == old(self).may_take(other, taken),
        decreases old(self).fallbacks(),
    {
        let action = match &mut self.way {
            Way::Random(odds) => {
                let draw = match game.phase() {
                    Phase::Play => false,
                    Phase::Momentum => odds.hit(),
                };
                random_choice(game, draw)
            },
            Way::Momentum(fallback) => match momentum_choice(game) {
                Some(action) => action,
                None => fallback.act(game),
            },
            Way::Custom(strategy) => strategy.decide(game),
        };
        proof {
            if let Way::Momentum(before) = old(self).way {
                before.lemma_may_take_by_way(game@, action);
            }
        }
        assert forall|other: GameView, taken: Play| #[trigger]
            self.may_take(other, taken) == old(self).may_take(other, taken) by {
            match (old(self).way, self.way) {
                (Way::Momentum(before), Way::Momentum(after)) => {
                    before.lemma_may_take_by_way(other, taken);
                    after.lemma_may_take_by_way(other, taken);
                    assert(after.may_take(other, taken) == before.may_take(other, taken));
                },
                _ => {},
            }
        }
        action
    }
}

/// A player who plays at random: any card of the hand, each as likely as
/// the next, or, given momentum, a draw with `numerator` chances in
/// `denominator`.
#[must_use]
pub fn random_player(numerator: u32, denominator: u32) -> (player: Player)
    requires
        0 < denominator,
        numerator <= denominator,
    ensures
        forall|game: GameView, action: Play| #[trigger]
            player.may_take(game, action) == exists|draw: bool|
                random_draw_of(numerator, denominator, game, draw) && #[trigger] random_choice_of(
                    game,
                    draw,
                    action,
                ),
        player.plays_legally(),
{
    Player { way: Way::Random(Odds { numerator, denominator }) }
}

/// A player who makes a play that earns momentum when there is one, and
/// otherwise does as `fallback` would.
#[must_use]
pub fn momentum_player(fallback: Player) -> (player: Player)
    ensures
        forall|game: GameView, action: Play| #[trigger]
            player.may_take(game, action) == if momentum_cards(game).len() > 0 {
                action matches Play::Play(card) && momentum_cards(game).contains(card)
            } else {
                fallback.may_take(game, action)
            },
        fallback.plays_legally() ==> player.plays_legally(),
{
    let player = Player { way: Way::Momentum(Box::new(fallback)) };
    proof {
        assert forall|game: GameView, action: Play| #[trigger]
            player.may_take(game, action) == if momentum_cards(game).len() > 0 {
                action matches Play::Play(card) && momentum_cards(game).contains(card)
            } else {
                fallback.may_take(game, action)
            } by {
            fallback.lemma_may_take_by_way(game, action);
        }
        if fallback.plays_legally() {
            assert forall|game: GameView, action: Play|
                game.ready() && #[trigger] player.may_take(game, action) implies game.legal(
                action,
            ) by {
                if momentum_cards(game).len() > 0 {
                    game.hands[game.turn as int].lemma_filter_contains_rev(
                        of_suit(game.discard.last().suit_of().unwrap()),
                        action->Play_0,
                    );
                } else {
                    assert(fallback.may_take(game, action));
                }
            }
        }
    }
    player
}

/// Whether the player whose turn it is in `before` may take `action`, and
/// `result` and `after` are what the action makes of `before`.
pub open spec fn takes_turn(
    players: Seq<Player>,
    before: GameView,
    action: Play,
    result: Result<PlayOutcome, GameError>,
    after: GameView,
) -> bool {
    &&& before.turn < players.len()
    &&& players[before.turn as int].may_take(before, action)
    &&& before.acts(action, result, after)
}

/// Whether the action of number `k` leads from `trail[k]` to
/// `trail[k + 1]`: the last one with the result `last`, every other one
/// letting the game go on.
pub open spec fn takes_turn_at(
    players: Seq<Player>,
    trail: Seq<GameView>,
    actions: Seq<Play>,
    k: int,
    last: Result<PlayOutcome, GameError>,
) -> bool {
    takes_turn(
        players,
        trail[k],
        actions[k],
        if k + 1 < actions.len() {
            Ok(PlayOutcome::Continue)
        } else {
            last
        },
        trail[k + 1],
    )
}

/// What the last action of a match has led to when the match has the given
/// result.
pub open spec fn last_step(result: Result<GameOutcome, GameError>) -> Result<
    PlayOutcome,
    GameError,
> {
    match result {
        Ok(outcome) => Ok(PlayOutcome::End(outcome)),
        Err(e) => Err(e),
    }
}

/// Whether the match of `players` from `start` runs through the states of
/// `trail` by `actions` to `result`.
///
/// The first player draws, which leads to the first state. In each state
/// the player whose turn it is takes the action of that number, one that
/// this player may take. Every action but the last lets the game go on and
/// leads to the next state. The last one ends the game with the outcome, or
/// is refused with the error.
pub open spec fn plays_out(
    start: GameView,
    players: Seq<Player>,
    trail: Seq<GameView>,
    actions: Seq<Play>,
    result: Result<GameOutcome, GameError>,
) -> bool {
    &&& actions.len() >= 1
    &&& trail.len() == actions.len() + 1
    &&& start.deals(start.turn as int, trail[0])
    &&& forall|k: int|
        0 <= k < actions.len() ==> #[trigger] takes_turn_at(
            players,
            trail,
            actions,
            k,
            last_step(result),
        )
}

/// Plays a match to its end: the first player draws, and then the player
/// whose turn it is chooses action after action.
///
/// The match ends with the first action that is refused, and otherwise
/// when a round ends the game; it cannot go on for ever.
pub fn play(game: Game, players: Vec<Player>) -> (result: Result<GameOutcome, GameError>)
    requires
        game@.wf(),
        0 < game@.hands.len() == players@.len(),
    ensures
        game@.ranked_in_piles() == 0 ==> result == Err::<GameOutcome, GameError>(
            GameError::Exhausted,
        ),
        game@.ranked_in_piles() > 0 && !game@.affords_deal() ==> result == Err::<
            GameOutcome,
            GameError,
        >(GameError::Overflow),
        game@.ranked_in_piles() > 0 && game@.affords_deal() ==> exists|
            trail: Seq<GameView>,
            actions: Seq<Play>,
        | #[trigger] plays_out(game@, players@, trail, actions, result),
        (forall|i: int| 0 <= i < players@.len() ==> (#[trigger] players@[i]).plays_legally())
            ==> (result matches Err(e) ==> e == GameError::Overflow || e == GameError::Exhausted),
{
    let mut table = game;
    let mut seats = players;
    proof {
        game@.lemma_census();
    }
    if table.cards_held() >= TOTAL_RANKED as u128 {
        return Err(GameError::Exhausted);
    }
    if !table.affords_deal() {
        return Err(GameError::Overflow);
    }
    let first = table.turn;
    match table.draw_for_player(first) {
        Ok(()) => {},
        Err(e) => {
            return Err(e);
        },
    }
    let ghost mut trail: Seq<GameView> = seq![table@];
    let ghost mut actions: Seq<Play> = Seq::empty();
    proof {
        game@.lemma_deals(game@.turn as int, table@);
    }
    loop
        invariant
            table@.ready(),
            seats@.len() == table@.hands.len(),
            players@.len() == seats@.len(),
            game@.ranked_in_piles() > 0,
            game@.affords_deal(),
            forall|i: int, other: GameView, taken: Play|
                0 <= i < seats@.len() ==> #[trigger] seats@[i].may_take(other, taken)
                    == players@[i].may_take(other, taken),
            trail.len() == actions.len() + 1,
            trail.last() == table@,
            game@.deals(game@.turn as int, trail[0]),
            forall|k: int|
                0 <= k < actions.len() ==> #[trigger] takes_turn_at(
                    players@,
                    trail,
                    actions,
                    k,
                    Ok(PlayOutcome::Continue),
                ),
        decreases
                table@.tokens - i8::MIN,
                table@.library_rank(),
                (if table@.phase == Phase::Play {
                    1nat
                } else {
                    0nat
                }),
    {
        let seat = table.turn();
        let ghost before = table@;
        let ghost mover = seats@[seat as int];
        let action = seats[seat].act(&table);
        proof {
            assert(mover.may_take(before, action));
            assert(players@[seat as int].may_take(before, action));
            assert forall|i: int, other: GameView, taken: Play| 0 <= i < seats@.len() implies
                #[trigger] seats@[i].may_take(other, taken) == players@[i].may_take(
                other,
                taken,
            ) by {
                if i == seat {
                    assert(mover.may_take(other, taken) == players@[i].may_take(other, taken));
                }
            }
        }
        let step = table.play(action);
        proof {
            let longer = trail.push(table@);
            let taken = actions.push(action);
            assert(longer[0] == trail[0]);
            assert(takes_turn(players@, before, action, step, table@));
            assert forall|k: int| 0 <= k < taken.len() implies #[trigger] takes_turn_at(
                players@,
                longer,
                taken,
                k,
                step,
            ) by {
                if k < actions.len() {
                    assert(takes_turn_at(players@, trail, actions, k, Ok(PlayOutcome::Continue)));
                    assert(longer[k] == trail[k] && longer[k + 1] == trail[k + 1]);
                    assert(taken[k] == actions[k]);
                } else {
                    assert(longer[k] == before && longer[k + 1] == table@);
                    assert(taken[k] == action);
                }
            }
            trail = longer;
            actions = taken;
        }
        match step {
            Ok(PlayOutcome::Continue) => {},
            Ok(PlayOutcome::End(outcome)) => {
                assert(plays_out(game@, players@, trail, actions, Ok(outcome)));
                return Ok(outcome);
            },
            Err(e) => {
                proof {
                    assert(plays_out(game@, players@, trail, actions, Err(e)));
                    if players@[seat as int].plays_legally() {
                        before.lemma_legal_acts(action, step, table@);
                    }
                }
                return Err(e);
            },
        }
    }
}

} // verus!
