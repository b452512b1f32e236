//! The ways in which a request to the engine can fail.

use vstd::prelude::*;

verus! {

/// Why the engine turned a request down.
#[derive(Clone, Copy, Debug, PartialEq, Eq, Structural)]
pub enum GameError {
    /// Illegal action: the card to be played is not in the player's hand.
    NotInHand,
    /// Illegal action: a draw was asked for outside the momentum phase.
    NoMomentum,
    /// Exhausted piles: the draw and discard piles cannot yield a card for
    /// a hand.
    Exhausted,
    /// Some way in which the request can go would take a counter of the
    /// game out of the range of its type.
    Overflow,
}

impl GameError {
    /// A sentence for the player.
    pub fn message(&self) -> (text: &'static str)
        ensures
            text@ == match *self {
                GameError::NotInHand => "That card is not in your hand"@,
                GameError::NoMomentum => "You don't have momentum"@,
                GameError::Exhausted => "Library ran out of cards"@,
                GameError::Overflow => "A counter ran out of room"@,
            },
    {
        match self {
            GameError::NotInHand => "That card is not in your hand",
            GameError::NoMomentum => "You don't have momentum",
            GameError::Exhausted => "Library ran out of cards",
            GameError::Overflow => "A counter ran out of room",
        }
    }
}

} // verus!
