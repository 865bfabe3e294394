//! The fifty-two playing cards and their numbering.

use vstd::prelude::*;

verus! {

/// Number of cards in a standard deck.
pub const DECK_SIZE: usize = 52;

/// Number of card values in a suit.
pub const VALUE_COUNT: usize = 13;

/// Number of suits.
pub const SUIT_COUNT: usize = 4;

/// The suit of a card.
#[derive(Debug, Clone, Copy, PartialEq, Eq, Structural, PartialOrd, Ord, Hash)]
pub enum Suit {
    Spade,
    Club,
    Heart,
    Diamond,
}

/// The value of a card, from the two up to the ace.
#[derive(Debug, Clone, Copy, PartialEq, Eq, Structural, PartialOrd, Ord, Hash)]
pub enum Value {
    Two,
    Three,
    Four,
    Five,
    Six,
    Seven,
    Eight,
    Nine,
    Ten,
    Jack,
    Queen,
    King,
    Ace,
}

/// One playing card. Two cards are equal when value and suit are.
#[derive(Debug, Clone, Copy, PartialEq, Eq, Structural, PartialOrd, Ord, Hash)]
pub struct Card {
    pub value: Value,
    pub suit: Suit,
}

impl Suit {
    /// Position of the suit, from 0 to 3.
    pub open spec fn idx(self) -> int {
        match self {
            Suit::Spade => 0,
            Suit::Club => 1,
            Suit::Heart => 2,
            Suit::Diamond => 3,
        }
    }

    /// The suit at position `i`; positions past 3 give the diamond.
    pub open spec fn at(i: int) -> Suit {
        if i == 0 {
            Suit::Spade
        } else if i == 1 {
            Suit::Club
        } else if i == 2 {
            Suit::Heart
        } else {
            Suit::Diamond
        }
    }

    /// The suit that a character names, in either case.
    pub open spec fn parse(c: char) -> Option<Suit> {
        if c == 's' || c == 'S' {
            Some(Suit::Spade)
        } else if c == 'c' || c == 'C' {
            Some(Suit::Club)
        } else if c == 'h' || c == 'H' {
            Some(Suit::Heart)
        } else if c == 'd' || c == 'D' {
            Some(Suit::Diamond)
        } else {
            None
        }
    }

    /// The lower-case letter of the suit.
    pub open spec fn letter(self) -> char {
        match self {
            Suit::Spade => 's',
            Suit::Club => 'c',
            Suit::Heart => 'h',
            Suit::Diamond => 'd',
        }
    }

    pub fn index(self) -> (i: usize)
        ensures
            i == self.idx(),
            i < SUIT_COUNT,
    {
        match self {
            Suit::Spade => 0,
            Suit::Club => 1,
            Suit::Heart => 2,
            Suit::Diamond => 3,
        }
    }

    pub fn from_index(i: usize) -> (s: Suit)
        requires
            i < SUIT_COUNT,
        ensures
            s == Suit::at(i as int),
            s.idx() == i,
    {
        if i == 0 {
            Suit::Spade
        } else if i == 1 {
            Suit::Club
        } else if i == 2 {
            Suit::Heart
        } else {
            Suit::Diamond
        }
    }

    pub fn from_char(c: char) -> (r: Option<Suit>)
        ensures
            r == Suit::parse(c),
    {
        if c == 's' || c == 'S' {
            Some(Suit::Spade)
        } else if c == 'c' || c == 'C' {
            Some(Suit::Club)
        } else if c == 'h' || c == 'H' {
            Some(Suit::Heart)
        } else if c == 'd' || c == 'D' {
            Some(Suit::Diamond)
        } else {
            None
        }
    }

    pub fn to_char(self) -> (c: char)
        ensures
            c == self.letter(),
            Suit::parse(c) == Some(self),
    {
        match self {
            Suit::Spade => 's',
            Suit::Club => 'c',
            Suit::Heart => 'h',
            Suit::Diamond => 'd',
        }
    }

    /// The letter of the suit as a text.
    pub fn as_str(self) -> (text: &'static str)
        ensures
            text@ == seq![self.letter()],
    {
        proof {
            reveal_strlit("s");
            reveal_strlit("c");
            reveal_strlit("h");
            reveal_strlit("d");
        }
        let text = match self {
            Suit::Spade => "s",
            Suit::Club => "c",
            Suit::Heart => "h",
            Suit::Diamond => "d",
        };
        assert(text@ =~= seq![self.letter()]);
        text
    }
}

impl Value {
    /// Position of the value, from 0 for the two to 12 for the ace.
    pub open spec fn idx(self) -> int {
        match self {
            Value::Two => 0,
            Value::Three => 1,
            Value::Four => 2,
            Value::Five => 3,
            Value::Six => 4,
            Value::Seven => 5,
            Value::Eight => 6,
            Value::Nine => 7,
            Value::Ten => 8,
            Value::Jack => 9,
            Value::Queen => 10,
            Value::King => 11,
            Value::Ace => 12,
        }
    }

    /// The value at position `i`; positions past 12 give the ace.
    pub open spec fn at(i: int) -> Value {
        if i == 0 {
            Value::Two
        } else if i == 1 {
            Value::Three
        } else if i == 2 {
            Value::Four
        } else if i == 3 {
            Value::Five
        } else if i == 4 {
            Value::Six
        } else if i == 5 {
            Value::Seven
        } else if i == 6 {
            Value::Eight
        } else if i == 7 {
            Value::Nine
        } else if i == 8 {
            Value::Ten
        } else if i == 9 {
            Value::Jack
        } else if i == 10 {
            Value::Queen
        } else if i == 11 {
            Value::King
        } else {
            Value::Ace
        }
    }

    /// The value that a character names; letters count in either case.
    pub open spec fn parse(c: char) -> Option<Value> {
        if c == '2' {
            Some(Value::Two)
        } else if c == '3' {
            Some(Value::Three)
        } else if c == '4' {
            Some(Value::Four)
        } else if c == '5' {
            Some(Value::Five)
        } else if c == '6' {
            Some(Value::Six)
        } else if c == '7' {
            Some(Value::Seven)
        } else if c == '8' {
            Some(Value::Eight)
        } else if c == '9' {
            Some(Value::Nine)
        } else if c == 'T' || c == 't' {
            Some(Value::Ten)
        } else if c == 'J' || c == 'j' {
            Some(Value::Jack)
        } else if c == 'Q' || c == 'q' {
            Some(Value::Queen)
        } else if c == 'K' || c == 'k' {
            Some(Value::King)
        } else if c == 'A' || c == 'a' {
            Some(Value::Ace)
        } else {
            None
        }
    }

    /// The digit or upper-case letter of the value.
    pub open spec fn letter(self) -> char {
        match self {
            Value::Two => '2',
            Value::Three => '3',
            Value::Four => '4',
            Value::Five => '5',
            Value::Six => '6',
            Value::Seven => '7',
            Value::Eight => '8',
            Value::Nine => '9',
            Value::Ten => 'T',
            Value::Jack => 'J',
            Value::Queen => 'Q',
            Value::King => 'K',
            Value::Ace => 'A',
        }
    }

    pub fn index(self) -> (i: usize)
        ensures
            i == self.idx(),
            i < VALUE_COUNT,
    {
        match self {
            Value::Two => 0,
            Value::Three => 1,
            Value::Four => 2,
            Value::Five => 3,
            Value::Six => 4,
            Value::Seven => 5,
            Value::Eight => 6,
            Value::Nine => 7,
            Value::Ten => 8,
            Value::Jack => 9,
            Value::Queen => 10,
            Value::King => 11,
            Value::Ace => 12,
        }
    }

    pub fn from_index(i: usize) -> (v: Value)
        requires
            i < VALUE_COUNT,
        ensures
            v == Value::at(i as int),
            v.idx() == i,
    {
        if i == 0 {
            Value::Two
        } else if i == 1 {
            Value::Three
        } else if i == 2 {
            Value::Four
        } else if i == 3 {
            Value::Five
        } else if i == 4 {
            Value::Six
        } else if i == 5 {
            Value::Seven
        } else if i == 6 {
            Value::Eight
        } else if i == 7 {
            Value::Nine
        } else if i == 8 {
            Value::Ten
        } else if i == 9 {
            Value::Jack
        } else if i == 10 {
            Value::Queen
        } else if i == 11 {
            Value::King
        } else {
            Value::Ace
        }
    }

    pub fn from_char(c: char) -> (r: Option<Value>)
        ensures
            r == Value::parse(c),
    {
        if c == '2' {
            Some(Value::Two)
        } else if c == '3' {
            Some(Value::Three)
        } else if c == '4' {
            Some(Value::Four)
        } else if c == '5' {
            Some(Value::Five)
        } else if c == '6' {
            Some(Value::Six)
        } else if c == '7' {
            Some(Value::Seven)
        } else if c == '8' {
            Some(Value::Eight)
        } else if c == '9' {
            Some(Value::Nine)
        } else if c == 'T' || c == 't' {
            Some(Value::Ten)
        } else if c == 'J' || c == 'j' {
            Some(Value::Jack)
        } else if c == 'Q' || c == 'q' {
            Some(Value::Queen)
        } else if c == 'K' || c == 'k' {
            Some(Value::King)
        } else if c == 'A' || c == 'a' {
            Some(Value::Ace)
        } else {
            None
        }
    }

    pub fn to_char(self) -> (c: char)
        ensures
            c == self.letter(),
            Value::parse(c) == Some(self),
    {
        match self {
            Value::Two => '2',
            Value::Three => '3',
            Value::Four => '4',
            Value::Five => '5',
            Value::Six => '6',
            Value::Seven => '7',
            Value::Eight => '8',
            Value::Nine => '9',
            Value::Ten => 'T',
            Value::Jack => 'J',
            Value::Queen => 'Q',
            Value::King => 'K',
            Value::Ace => 'A',
        }
    }

    /// The digit or letter of the value as a text.
    pub fn as_str(self) -> (text: &'static str)
        ensures
            text@ == seq![self.letter()],
    {
        proof {
            reveal_strlit("2");
            reveal_strlit("3");
            reveal_strlit("4");
            reveal_strlit("5");
            reveal_strlit("6");
            reveal_strlit("7");
            reveal_strlit("8");
            reveal_strlit("9");
            reveal_strlit("T");
            reveal_strlit("J");
            reveal_strlit("Q");
            reveal_strlit("K");
            reveal_strlit("A");
        }
        let text = match self {
            Value::Two => "2",
            Value::Three => "3",
            Value::Four => "4",
            Value::Five => "5",
            Value::Six => "6",
            Value::Seven => "7",
            Value::Eight => "8",
            Value::Nine => "9",
            Value::Ten => "T",
            Value::Jack => "J",
            Value::Queen => "Q",
            Value::King => "K",
            Value::Ace => "A",
        };
        assert(text@ =~= seq![self.letter()]);
        text
    }
}

impl Card {
    /// Position of the card in the deck, from 0 to 51: the four suits of the
    /// two come first, the four suits of the ace last.
    pub open spec fn idx(self) -> int {
        self.value.idx() * 4 + self.suit.idx()
    }

    /// The card at position `i` of the deck.
    pub open spec fn at(i: int) -> Card {
        Card { value: Value::at(i / 4), suit: Suit::at(i % 4) }
    }

    /// How the card is written: the character of its value, then that of
    /// its suit.
    pub open spec fn spelling(self) -> Seq<char> {
        seq![self.value.letter(), self.suit.letter()]
    }

    /// The card as a text of two characters, such as `Ad` for the ace of
    /// diamonds.
    pub fn text(self) -> (text: String)
        ensures
            text@ == self.spelling(),
    {
        let mut text = String::from_str(self.value.as_str());
        text.append(self.suit.as_str());
        assert(text@ =~= self.spelling());
        text
    }

    pub fn new(value: Value, suit: Suit) -> (c: Card)
        ensures
            c == (Card { value, suit }),
    {
        Card { value, suit }
    }

    pub fn index(self) -> (i: usize)
        ensures
            i == self.idx(),
            i < DECK_SIZE,
    {
        self.value.index() * 4 + self.suit.index()
    }

    pub fn from_index(i: usize) -> (c: Card)
        requires
            i < DECK_SIZE,
        ensures
            c == Card::at(i as int),
            c.idx() == i,
    {
        Card { value: Value::from_index(i / 4), suit: Suit::from_index(i % 4) }
    }
}

/// Every card has a position below 52, and the card at that position is the
/// card itself.
pub proof fn lemma_card_index(c: Card)
    ensures
        0 <= c.idx() < 52,
        Card::at(c.idx()) == c,
{
}

/// The card at a position below 52 has that position.
pub proof fn lemma_index_card(i: int)
    requires
        0 <= i < 52,
    ensures
        Card::at(i).idx() == i,
{
}

/// The deck in its standard order: position `i` holds `Card::at(i)`.
pub open spec fn full_deck() -> Seq<Card> {
    Seq::new(52, |i: int| Card::at(i))
}

/// The standard deck holds every card, each once.
pub proof fn lemma_full_deck()
    ensures
        full_deck().len() == 52,
        full_deck().no_duplicates(),
        forall|c: Card| #[trigger] full_deck().contains(c),
{
    assert forall|i: int, j: int|
        0 <= i < 52 && 0 <= j < 52 && i != j implies full_deck()[i] != full_deck()[j] by {
        lemma_index_card(i);
        lemma_index_card(j);
    }
    assert forall|c: Card| #[trigger] full_deck().contains(c) by {
        lemma_card_index(c);
        assert(full_deck()[c.idx()] == c);
    }
}

} // verus!
