//! What can go wrong when a game is set up or a trial is run.

use vstd::prelude::*;

use crate::cards::card::Card;

verus! {

/// The errors of the trial engine.
#[derive(Debug, Clone, Copy, PartialEq, Eq, Structural)]
pub enum GameError {
    /// A hand was passed in that does not hold exactly two cards.
    InvalidHandSize,
    /// A board was passed in that holds more than five cards.
    BoardTooLarge,
    /// The card occurs more than once among the hands and the board.
    DuplicateCard(Card),
    /// A trial was asked for and there are no hands.
    NoHands,
    /// A trial was asked for and the pool and the board together hold fewer
    /// than five cards, so that the board cannot be completed.
    PoolTooSmall,
    /// The best rank was asked for and there was no hand to rank.
    RankingUnavailable,
}

impl GameError {
    /// The error in words.
    pub open spec fn wording(self) -> Seq<char> {
        match self {
            GameError::InvalidHandSize => "Hand passed in doesn't have 2 cards."@,
            GameError::BoardTooLarge => "Board passed in has more than 5 cards"@,
            GameError::DuplicateCard(card) => "Card "@ + card.spelling()
                + " was already removed from the deck."@,
            GameError::NoHands => "There are no hands."@,
            GameError::PoolTooSmall => "Not enough cards are left to complete the board."@,
            GameError::RankingUnavailable => "Unable to determine best rank."@,
        }
    }

    /// The error in words, for a person to read.
    pub fn message(&self) -> (text: String)
        ensures
            text@ == self.wording(),
    {
        match self {
            GameError::InvalidHandSize => String::from_str("Hand passed in doesn't have 2 cards."),
            GameError::BoardTooLarge => String::from_str("Board passed in has more than 5 cards"),
            GameError::DuplicateCard(card) => {
                let mut text = String::from_str("Card ");
                let name = card.text();
                text.append(name.as_str());
                text.append(" was already removed from the deck.");
                text
            },
            GameError::NoHands => String::from_str("There are no hands."),
            GameError::PoolTooSmall => String::from_str(
                "Not enough cards are left to complete the board.",
            ),
            GameError::RankingUnavailable => String::from_str("Unable to determine best rank."),
        }
    }
}

} // verus!
