//! Cards, decks, hands and hand ranks.

pub mod card;
pub mod deck;
pub mod evaluate;
pub mod hand;
pub mod marks;
pub mod rank;

pub use self::card::{Card, Suit, Value};
pub use self::deck::{Deck, FlatDeck};
pub use self::hand::{CardTextError, Hand};
pub use self::rank::Rank;
