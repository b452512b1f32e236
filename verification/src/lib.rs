//! Engine for a cooperative card game: four suits of progress race against
//! four hidden path lengths while a shared mad-science counter runs down.

pub mod card;
pub mod census;
mod chance;
pub mod error;
pub mod game;
pub mod hand;
pub mod path;
pub mod piles;
pub mod player;

pub use card::{
    deck, deck_size, Card, Rank, Suit, WithOrWithoutJokers, NUM_CARDS, NUM_JOKERS, NUM_RANKS,
    NUM_SUITS,
};
pub use error::GameError;
pub use game::{
    affords, mishap, walk_continues, Game, GameOutcome, GameView, Phase, Play, PlayOutcome,
    PlayerIndex, STARTING_CARDS, STARTING_MAD_SCIENCE_TOKENS, STARTING_PROGRESS,
};
pub use hand::{of_suit, Hand};
pub use path::{forecast_step, lemma_true_length_stays_hidden, PathLength, PathLengthInfo};
pub use piles::{
    draws, draws_and_discards, lemma_draw_discard_cycle, lemma_pass_after_refill, Discard, Library,
};
pub use player::{
    chance_allows, last_step, momentum_cards, momentum_choice, momentum_player, play, plays_out,
    random_choice, random_choice_of, random_draw_of, random_player, takes_turn, takes_turn_at,
    Player, Strategy,
};
