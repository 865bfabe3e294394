//! A hand: the cards that one player holds, in the order they were dealt.

use vstd::prelude::*;

use crate::cards::card::{Card, Suit, Value};
use crate::cards::evaluate::{rank_cards, rank_of};
use crate::cards::rank::Rank;

verus! {

/// The cards of one player.
#[derive(Debug, Clone)]
pub struct Hand {
    cards: Vec<Card>,
}

/// A text that does not spell a row of cards. `position` is the place of the
/// first character that names no value (at an even place) or no suit (at an
/// odd place); it is the length of the text where a value stands last with
/// no suit behind it.
#[derive(Debug, Clone, Copy, PartialEq, Eq, Structural)]
pub struct CardTextError {
    pub position: usize,
}

/// The text goes wrong at place `p`.
pub open spec fn text_fails_at(text: Seq<char>, p: int) -> bool {
    if 0 <= p < text.len() {
        if p % 2 == 0 {
            Value::parse(text[p]) is None
        } else {
            Suit::parse(text[p]) is None
        }
    } else {
        p == text.len() && p % 2 == 1
    }
}

/// The text spells cards from end to end: a value character and a suit
/// character for each.
pub open spec fn spells_cards(text: Seq<char>) -> bool {
    forall|p: int| 0 <= p <= text.len() ==> !text_fails_at(text, p)
}

/// The cards that a text spells, in order.
pub open spec fn cards_of_text(text: Seq<char>) -> Seq<Card> {
    Seq::new(
        text.len() / 2,
        |k: int|
            Card {
                value: Value::parse(text[2 * k])->Some_0,
                suit: Suit::parse(text[2 * k + 1])->Some_0,
            },
    )
}

impl View for Hand {
    type V = Seq<Card>;

    closed spec fn view(&self) -> Seq<Card> {
        self.cards@
    }
}

impl Hand {
    /// A hand of the given cards.
    pub fn new_with_cards(cards: Vec<Card>) -> (h: Hand)
        ensures
            h@ == cards@,
    {
        Hand { cards }
    }

    /// Read a hand from a text such as `"AdKh"`: for each card the character
    /// of its value and the character of its suit.
    pub fn new_from_str(text: &str) -> (r: Result<Hand, CardTextError>)
        ensures
            r is Ok <==> spells_cards(text@),
            r matches Ok(h) ==> h@ == cards_of_text(text@),
            r matches Err(e) ==> text_fails_at(text@, e.position as int) && forall|p: int|
                0 <= p < e.position ==> !text_fails_at(text@, p),
    {
        let n: usize = text.unicode_len();
        let mut cards: Vec<Card> = Vec::new();
        let mut i: usize = 0;
        while i < n
            invariant
                n == text@.len(),
                i <= n,
                i % 2 == 0,
                cards@.len() == i / 2,
                forall|p: int| 0 <= p < i ==> !text_fails_at(text@, p),
                forall|k: int|
                    0 <= k < cards@.len() ==> cards@[k] == (Card {
                        value: Value::parse(text@[2 * k])->Some_0,
                        suit: Suit::parse(text@[2 * k + 1])->Some_0,
                    }),
            decreases n - i,
        {
            let value = match Value::from_char(text.get_char(i)) {
                Some(v) => v,
                None => {
                    assert(text_fails_at(text@, i as int));
                    return Err(CardTextError { position: i });
                },
            };
            if i + 1 >= n {
                assert(text_fails_at(text@, i + 1));
                return Err(CardTextError { position: i + 1 });
            }
            let suit = match Suit::from_char(text.get_char(i + 1)) {
                Some(s) => s,
                None => {
                    assert(text_fails_at(text@, i + 1));
                    return Err(CardTextError { position: i + 1 });
                },
            };
            cards.push(Card { value, suit });
            i = i + 2;
        }
        assert(cards@ =~= cards_of_text(text@));
        Ok(Hand { cards })
    }

    pub fn len(&self) -> (n: usize)
        ensures
            n == self@.len(),
    {
        self.cards.len()
    }

    /// The card at position `i`.
    pub fn get(&self, i: usize) -> (c: Card)
        requires
            i < self@.len(),
        ensures
            c == self@[i as int],
    {
        self.cards[i]
    }

    /// The cards of the hand, in order.
    pub fn cards(&self) -> (cards: &Vec<Card>)
        ensures
            cards@ == self@,
    {
        &self.cards
    }

    /// Add a card at the end.
    pub fn push(&mut self, card: Card)
        ensures
            final(self)@ == old(self)@.push(card),
    {
        self.cards.push(card);
    }

    /// Keep the first `len` cards; a shorter hand stays as it is.
    pub fn truncate(&mut self, len: usize)
        ensures
            len <= old(self)@.len() ==> final(self)@ == old(self)@.take(len as int),
            len > old(self)@.len() ==> final(self)@ == old(self)@,
    {
        self.cards.truncate(len);
    }

    /// The rank of the best five-card hand among the cards.
    pub fn rank(&self) -> (r: Rank)
        ensures
            r == rank_of(self@),
    {
        rank_cards(&self.cards)
    }
}

} // verus!
