//! The strength of a hand: a category and a number that orders hands within
//! the category.

use vstd::prelude::*;

verus! {

/// The strength of a hand. A later variant beats every earlier one; within a
/// variant the larger number wins.
#[derive(Debug, Clone, Copy, PartialEq, Eq, Structural, PartialOrd, Ord, Hash)]
pub enum Rank {
    /// No two cards match.
    HighCard(u32),
    /// Two cards of one value.
    OnePair(u32),
    /// Two pairs of different values.
    TwoPair(u32),
    /// Three cards of one value.
    ThreeOfAKind(u32),
    /// Five values in sequence.
    Straight(u32),
    /// Five cards of one suit.
    Flush(u32),
    /// Three cards of one value and two of another.
    FullHouse(u32),
    /// Four cards of one value.
    FourOfAKind(u32),
    /// Five values in sequence, all of one suit.
    StraightFlush(u32),
}

impl Rank {
    /// Position of the category, from 0 for a high card to 8 for a straight
    /// flush.
    pub open spec fn category(self) -> int {
        match self {
            Rank::HighCard(_) => 0,
            Rank::OnePair(_) => 1,
            Rank::TwoPair(_) => 2,
            Rank::ThreeOfAKind(_) => 3,
            Rank::Straight(_) => 4,
            Rank::Flush(_) => 5,
            Rank::FullHouse(_) => 6,
            Rank::FourOfAKind(_) => 7,
            Rank::StraightFlush(_) => 8,
        }
    }

    /// The number that orders hands within one category.
    pub open spec fn strength(self) -> int {
        match self {
            Rank::HighCard(n) => n as int,
            Rank::OnePair(n) => n as int,
            Rank::TwoPair(n) => n as int,
            Rank::ThreeOfAKind(n) => n as int,
            Rank::Straight(n) => n as int,
            Rank::Flush(n) => n as int,
            Rank::FullHouse(n) => n as int,
            Rank::FourOfAKind(n) => n as int,
            Rank::StraightFlush(n) => n as int,
        }
    }

    /// `self` is no stronger than `other`.
    pub open spec fn at_most(self, other: Rank) -> bool {
        self.category() < other.category() || (self.category() == other.category()
            && self.strength() <= other.strength())
    }

    /// `self` is strictly weaker than `other`.
    pub open spec fn below(self, other: Rank) -> bool {
        self.category() < other.category() || (self.category() == other.category()
            && self.strength() < other.strength())
    }

    pub fn class(&self) -> (k: u8)
        ensures
            k == self.category(),
    {
        match self {
            Rank::HighCard(_) => 0,
            Rank::OnePair(_) => 1,
            Rank::TwoPair(_) => 2,
            Rank::ThreeOfAKind(_) => 3,
            Rank::Straight(_) => 4,
            Rank::Flush(_) => 5,
            Rank::FullHouse(_) => 6,
            Rank::FourOfAKind(_) => 7,
            Rank::StraightFlush(_) => 8,
        }
    }

    pub fn value(&self) -> (n: u32)
        ensures
            n == self.strength(),
    {
        match self {
            Rank::HighCard(n) => *n,
            Rank::OnePair(n) => *n,
            Rank::TwoPair(n) => *n,
            Rank::ThreeOfAKind(n) => *n,
            Rank::Straight(n) => *n,
            Rank::Flush(n) => *n,
            Rank::FullHouse(n) => *n,
            Rank::FourOfAKind(n) => *n,
            Rank::StraightFlush(n) => *n,
        }
    }

    /// Whether `self` is at least as strong as `other`.
    pub fn beats_or_ties(&self, other: &Rank) -> (b: bool)
        ensures
            b == other.at_most(*self),
    {
        let mine: u8 = self.class();
        let theirs: u8 = other.class();
        mine > theirs || (mine == theirs && self.value() >= other.value())
    }
}

/// The order on ranks is total: any two ranks compare, a rank is below
/// another exactly when it is not at least as strong, ranks that are each at
/// most the other are equal, and the order passes along chains.
pub proof fn lemma_rank_order(a: Rank, b: Rank, c: Rank)
    ensures
        a.at_most(a),
        a.at_most(b) || b.at_most(a),
        a.below(b) <==> !b.at_most(a),
        a.at_most(b) && b.at_most(a) ==> a == b,
        a.at_most(b) && b.at_most(c) ==> a.at_most(c),
        a.below(b) && b.at_most(c) ==> a.below(c),
{
}

} // verus!
