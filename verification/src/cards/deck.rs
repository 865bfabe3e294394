//! The deck as a set of cards that can be taken out one by one, and the
//! ordered row of cards that is left of it.

use rand::seq::SliceRandom;
use vstd::prelude::*;

use crate::cards::card::{full_deck, lemma_card_index, lemma_index_card, Card, DECK_SIZE};
use crate::cards::marks::{set_from, total};

verus! {

/// The cards that have not been taken out yet.
#[derive(Debug, Clone)]
pub struct Deck {
    present: Vec<bool>,
}

/// A row of cards in a fixed order that can be read by position and
/// shuffled.
#[derive(Debug, Clone)]
pub struct FlatDeck {
    cards: Vec<Card>,
}

/// Clearing a mark lowers every count that reaches it by one and leaves the
/// others as they are.
pub proof fn lemma_clear_mark(m: Seq<bool>, i: int, from: int)
    requires
        0 <= from <= m.len(),
        0 <= i < m.len(),
        m[i],
    ensures
        set_from(m.update(i, false), from) + (if from <= i { 1nat } else { 0nat }) == set_from(
            m,
            from,
        ),
    decreases m.len() - from,
{
    if from < m.len() {
        lemma_clear_mark(m, i, from + 1);
    }
}

/// A row in which every position from `from` upward is marked counts all of
/// them.
pub proof fn lemma_all_marked(m: Seq<bool>, from: int)
    requires
        0 <= from <= m.len(),
        forall|v: int| from <= v < m.len() ==> m[v],
    ensures
        set_from(m, from) == m.len() - from,
    decreases m.len() - from,
{
    if from < m.len() {
        lemma_all_marked(m, from + 1);
    }
}

/// Two tests that agree on every element of a sequence keep the same
/// elements of it.
pub proof fn lemma_filter_agrees<A>(s: Seq<A>, p: spec_fn(A) -> bool, q: spec_fn(A) -> bool)
    requires
        forall|i: int| 0 <= i < s.len() ==> p(s[i]) == q(s[i]),
    ensures
        s.filter(p) == s.filter(q),
    decreases s.len(),
{
    reveal(Seq::filter);
    if s.len() > 0 {
        lemma_filter_agrees(s.drop_last(), p, q);
    }
}

impl Deck {
    /// One mark for each position of the standard deck: set while the card
    /// at that position is still in the deck.
    pub closed spec fn flags(&self) -> Seq<bool> {
        self.present@
    }

    /// The deck has a mark for each of the 52 cards.
    pub open spec fn wf(&self) -> bool {
        self.flags().len() == 52
    }

    /// The card is still in the deck.
    pub open spec fn has(&self, c: Card) -> bool {
        self.flags()[c.idx()]
    }

    /// Number of cards still in the deck.
    pub open spec fn count(&self) -> nat {
        total(self.flags())
    }

    /// The cards still in the deck, in the order of the standard deck.
    pub open spec fn remaining(&self) -> Seq<Card> {
        full_deck().filter(|c: Card| self.has(c))
    }

    /// A deck that holds all 52 cards.
    pub fn new() -> (d: Deck)
        ensures
            d.wf(),
            d.count() == 52,
            forall|c: Card| d.has(c),
    {
        let mut present: Vec<bool> = Vec::new();
        let mut i: usize = 0;
        while i < DECK_SIZE
            invariant
                i <= DECK_SIZE,
                present@.len() == i,
                forall|k: int| 0 <= k < i ==> present@[k],
            decreases DECK_SIZE - i,
        {
            present.push(true);
            i = i + 1;
        }
        let d = Deck { present };
        proof {
            lemma_all_marked(d.flags(), 0);
            assert forall|c: Card| d.has(c) by {
                lemma_card_index(c);
            }
        }
        d
    }

    /// Whether the card is still in the deck.
    pub fn contains(&self, card: Card) -> (b: bool)
        requires
            self.wf(),
        ensures
            b == self.has(card),
    {
        self.present[card.index()]
    }

    /// Number of cards still in the deck.
    pub fn len(&self) -> (n: usize)
        requires
            self.wf(),
        ensures
            n == self.count(),
    {
        let mut n: usize = 0;
        let mut i: usize = DECK_SIZE;
        while i > 0
            invariant
                self.wf(),
                i <= DECK_SIZE,
                n == set_from(self.flags(), i as int),
                n <= DECK_SIZE - i,
            decreases i,
        {
            i = i - 1;
            if self.present[i] {
                n = n + 1;
            }
        }
        n
    }

    /// Take the card out. Returns whether it was there; a card that was
    /// taken before leaves the deck as it is.
    pub fn remove(&mut self, card: Card) -> (was_there: bool)
        requires
            old(self).wf(),
        ensures
            final(self).wf(),
            was_there == old(self).has(card),
            forall|c: Card| final(self).has(c) == (old(self).has(c) && c != card),
            final(self).count() + (if was_there { 1nat } else { 0nat }) == old(self).count(),
    {
        let i: usize = card.index();
        let was_there: bool = self.present[i];
        proof {
            lemma_card_index(card);
        }
        if was_there {
            proof {
                lemma_clear_mark(self.flags(), i as int, 0);
            }
            self.present.set(i, false);
        }
        assert forall|c: Card| final(self).has(c) == (old(self).has(c) && c != card) by {
            lemma_card_index(c);
        }
        was_there
    }

    /// Lay the remaining cards out in the order of the standard deck.
    pub fn flatten(&self) -> (flat: FlatDeck)
        requires
            self.wf(),
        ensures
            flat@ == self.remaining(),
            flat@.len() == self.count(),
    {
        let mut cards: Vec<Card> = Vec::new();
        let mut i: usize = 0;
        let ghost keep = |c: Card| self.has(c);
        proof {
            reveal(Seq::filter);
            assert(full_deck().take(0) =~= Seq::<Card>::empty());
        }
        while i < DECK_SIZE
            invariant
                self.wf(),
                i <= DECK_SIZE,
                keep == (|c: Card| self.has(c)),
                cards@ == full_deck().take(i as int).filter(keep),
                cards@.len() + set_from(self.flags(), i as int) == total(self.flags()),
            decreases DECK_SIZE - i,
        {
            let card = Card::from_index(i);
            proof {
                reveal(Seq::filter);
                lemma_index_card(i as int);
                assert(full_deck().take(i + 1).drop_last() =~= full_deck().take(i as int));
                assert(full_deck().take(i + 1).last() == card);
            }
            if self.present[i] {
                cards.push(card);
            }
            i = i + 1;
        }
        proof {
            assert(full_deck().take(52) =~= full_deck());
        }
        FlatDeck { cards }
    }
}

/// Shuffles the cards in place with `rand::seq::SliceRandom::shuffle`, on the
/// generator that `rand::thread_rng()` hands out.
///
/// Trusted, not proved: the call only swaps elements of the slice, so the
/// cards after it are the cards before it in some order, each as often as
/// before, and there are as many of them. Which order comes out is left
/// open. The generator is seeded from the operating system on its first use
/// in a thread.
#[verifier::external_body]
fn shuffle_cards(cards: &mut Vec<Card>)
    ensures
        final(cards)@.to_multiset() == old(cards)@.to_multiset(),
        final(cards)@.len() == old(cards)@.len(),
{
    cards.shuffle(&mut rand::thread_rng());
}

impl View for FlatDeck {
    type V = Seq<Card>;

    closed spec fn view(&self) -> Seq<Card> {
        self.cards@
    }
}

impl FlatDeck {
    /// A row that holds the given cards in the given order.
    pub fn new(cards: Vec<Card>) -> (flat: FlatDeck)
        ensures
            flat@ == cards@,
    {
        FlatDeck { cards }
    }

    pub fn len(&self) -> (n: usize)
        ensures
            n == self@.len(),
    {
        self.cards.len()
    }

    /// The card at position `i`.
    pub fn get(&self, i: usize) -> (c: Card)
        requires
            i < self@.len(),
        ensures
            c == self@[i as int],
    {
        self.cards[i]
    }

    /// Put the cards into a random order. The row holds the same cards
    /// afterwards, each as often as before.
    pub fn shuffle(&mut self)
        ensures
            final(self)@.to_multiset() == old(self)@.to_multiset(),
            final(self)@.len() == old(self)@.len(),
    {
        shuffle_cards(&mut self.cards);
    }
}

} // verus!
