//! Hand evaluation: from a set of cards to the rank of the best five-card
//! hand that can be made of them.
//!
//! The rank depends only on which cards are held. Values are gathered into
//! rows of marks: the values held at all, the values held twice, three and
//! four times, and the values held in each suit.

use vstd::prelude::*;

use crate::cards::card::{lemma_card_index, lemma_index_card, Card, Suit, Value, DECK_SIZE};
use crate::cards::marks::{
    count_marks, find_straight, keep_top, lemma_marked_counts, marks_without, mask, row_mask,
    straight_of, top_marks, total, without, ROW,
};
use crate::cards::rank::Rank;

verus! {

/// The card of value position `v` and suit position `s`.
pub open spec fn card_of(v: int, s: int) -> Card {
    Card { value: Value::at(v), suit: Suit::at(s) }
}

/// The card of value position `v` and suit position `s` is among `cards`.
pub open spec fn holds(cards: Seq<Card>, v: int, s: int) -> bool {
    cards.contains(card_of(v, s))
}

/// In how many suits the value at position `v` is held.
pub open spec fn value_count(cards: Seq<Card>, v: int) -> int {
    (if holds(cards, v, 0) { 1int } else { 0int }) + (if holds(cards, v, 1) { 1int } else { 0int })
        + (if holds(cards, v, 2) { 1int } else { 0int }) + (if holds(cards, v, 3) { 1int } else {
        0int
    })
}

/// The values held in the suit at position `s`.
pub open spec fn suit_row(cards: Seq<Card>, s: int) -> Seq<bool> {
    Seq::new(13, |v: int| holds(cards, v, s))
}

/// The values held in exactly `k` suits.
pub open spec fn count_row(cards: Seq<Card>, k: int) -> Seq<bool> {
    Seq::new(13, |v: int| value_count(cards, v) == k)
}

/// The values held in at least one suit.
pub open spec fn value_row(cards: Seq<Card>) -> Seq<bool> {
    Seq::new(13, |v: int| value_count(cards, v) > 0)
}

/// The first suit from position `s` upward in which five or more values are
/// held.
pub open spec fn flush_from(cards: Seq<Card>, s: int) -> Option<int>
    decreases 4 - s,
{
    if s < 0 || s >= 4 {
        None
    } else if total(suit_row(cards, s)) >= 5 {
        Some(s)
    } else {
        flush_from(cards, s + 1)
    }
}

/// The first suit in which five or more values are held.
pub open spec fn flush_suit(cards: Seq<Card>) -> Option<int> {
    flush_from(cards, 0)
}

/// Two rows as one number: the first row weighs 8192 times the second.
pub open spec fn joined(high: Seq<bool>, low: Seq<bool>) -> u32 {
    (mask(high) * 8192 + mask(low)) as u32
}

/// The rank of a hand without a flush.
pub open spec fn rank_unsuited(cards: Seq<Card>) -> Rank {
    let values = value_row(cards);
    let pairs = count_row(cards, 2);
    let trips = count_row(cards, 3);
    let quads = count_row(cards, 4);
    if total(quads) > 0 {
        Rank::FourOfAKind(joined(quads, keep_top(without(values, quads), 1)))
    } else if total(trips) >= 2 {
        let set = keep_top(trips, 1);
        Rank::FullHouse(joined(set, keep_top(without(trips, set), 1)))
    } else if total(trips) == 1 && total(pairs) > 0 {
        Rank::FullHouse(joined(trips, keep_top(pairs, 1)))
    } else {
        match straight_of(values) {
            Some(top) => Rank::Straight(top),
            None => {
                if total(trips) > 0 {
                    Rank::ThreeOfAKind(joined(trips, keep_top(without(values, trips), 2)))
                } else if total(pairs) >= 2 {
                    let two = keep_top(pairs, 2);
                    Rank::TwoPair(joined(two, keep_top(without(values, two), 1)))
                } else if total(pairs) == 0 {
                    Rank::HighCard(mask(keep_top(values, 5)) as u32)
                } else {
                    Rank::OnePair(joined(pairs, keep_top(without(values, pairs), 3)))
                }
            },
        }
    }
}

/// The rank of the best five-card hand among `cards`.
///
/// A suit with five or more values makes a straight flush or a flush. Else
/// the values that are held four times, three times and twice decide, and a
/// straight stands between the full house and three of a kind. The number
/// inside the rank reads the deciding values as binary digits, those of the
/// matched cards above those of the cards beside them.
pub open spec fn rank_of(cards: Seq<Card>) -> Rank {
    match flush_suit(cards) {
        Some(s) => {
            let suited = suit_row(cards, s);
            match straight_of(suited) {
                Some(top) => Rank::StraightFlush(top),
                None => Rank::Flush(mask(keep_top(suited, 5)) as u32),
            }
        },
        None => rank_unsuited(cards),
    }
}

/// Which cards of the deck are among `cards`, by position in the deck.
pub open spec fn seen_row(cards: Seq<Card>) -> Seq<bool> {
    Seq::new(52, |i: int| cards.contains(Card::at(i)))
}

/// The card at deck position `4 * v + s` has value position `v` and suit
/// position `s`.
pub proof fn lemma_card_of(v: int, s: int)
    requires
        0 <= v < 13,
        0 <= s < 4,
    ensures
        Card::at(4 * v + s) == card_of(v, s),
        card_of(v, s).idx() == 4 * v + s,
{
    lemma_index_card(4 * v + s);
}

/// Mark the deck positions of the cards.
fn mark_cards(cards: &Vec<Card>) -> (seen: Vec<bool>)
    ensures
        seen@ == seen_row(cards@),
{
    let mut seen: Vec<bool> = Vec::new();
    let mut i: usize = 0;
    while i < DECK_SIZE
        invariant
            i <= DECK_SIZE,
            seen@.len() == i,
            forall|k: int| 0 <= k < i ==> !seen@[k],
        decreases DECK_SIZE - i,
    {
        seen.push(false);
        i = i + 1;
    }
    let mut k: usize = 0;
    while k < cards.len()
        invariant
            k <= cards@.len(),
            seen@.len() == 52,
            forall|i: int| 0 <= i < 52 ==> seen@[i] == cards@.take(k as int).contains(Card::at(i)),
        decreases cards@.len() - k,
    {
        let card = cards[k];
        let at: usize = card.index();
        proof {
            lemma_card_index(card);
            let before = cards@.take(k as int);
            let after = cards@.take(k + 1);
            assert(after =~= before.push(card));
            assert forall|i: int| 0 <= i < 52 implies (seen@.update(at as int, true))[i]
                == after.contains(Card::at(i)) by {
                lemma_index_card(i);
                let c = Card::at(i);
                if before.contains(c) {
                    let j = choose|j: int| 0 <= j < before.len() && before[j] == c;
                    assert(after[j] == c);
                }
                if i == at {
                    assert(after[k as int] == c);
                }
                if after.contains(c) {
                    let j = choose|j: int| 0 <= j < after.len() && after[j] == c;
                    if j < k {
                        assert(before[j] == c);
                    }
                }
            }
        }
        seen.set(at, true);
        k = k + 1;
    }
    proof {
        assert(cards@.take(cards@.len() as int) =~= cards@);
        assert(seen@ =~= seen_row(cards@));
    }
    seen
}

/// The values held in one suit.
fn suit_marks(seen: &Vec<bool>, s: usize, Ghost(cards): Ghost<Seq<Card>>) -> (row: Vec<bool>)
    requires
        seen@ == seen_row(cards),
        s < 4,
    ensures
        row@ == suit_row(cards, s as int),
{
    let mut row: Vec<bool> = Vec::new();
    let mut v: usize = 0;
    while v < ROW
        invariant
            seen@ == seen_row(cards),
            s < 4,
            v <= ROW,
            row@.len() == v,
            forall|u: int| 0 <= u < v ==> row@[u] == holds(cards, u, s as int),
        decreases ROW - v,
    {
        proof {
            lemma_card_of(v as int, s as int);
        }
        row.push(seen[4 * v + s]);
        v = v + 1;
    }
    assert(row@ =~= suit_row(cards, s as int));
    row
}

/// In how many suits each value is held.
fn count_values(seen: &Vec<bool>, Ghost(cards): Ghost<Seq<Card>>) -> (counts: Vec<u8>)
    requires
        seen@ == seen_row(cards),
    ensures
        counts@.len() == 13,
        forall|v: int| 0 <= v < 13 ==> counts@[v] == value_count(cards, v),
{
    let mut counts: Vec<u8> = Vec::new();
    let mut v: usize = 0;
    while v < ROW
        invariant
            seen@ == seen_row(cards),
            v <= ROW,
            counts@.len() == v,
            forall|u: int| 0 <= u < v ==> counts@[u] == value_count(cards, u),
        decreases ROW - v,
    {
        proof {
            lemma_card_of(v as int, 0);
            lemma_card_of(v as int, 1);
            lemma_card_of(v as int, 2);
            lemma_card_of(v as int, 3);
        }
        let mut n: u8 = 0;
        if seen[4 * v] {
            n = n + 1;
        }
        if seen[4 * v + 1] {
            n = n + 1;
        }
        if seen[4 * v + 2] {
            n = n + 1;
        }
        if seen[4 * v + 3] {
            n = n + 1;
        }
        counts.push(n);
        v = v + 1;
    }
    counts
}

/// The values that are held in exactly `k` suits.
fn values_held(counts: &Vec<u8>, k: u8, Ghost(cards): Ghost<Seq<Card>>) -> (row: Vec<bool>)
    requires
        counts@.len() == 13,
        forall|v: int| 0 <= v < 13 ==> counts@[v] == value_count(cards, v),
    ensures
        row@ == count_row(cards, k as int),
{
    let mut row: Vec<bool> = Vec::new();
    let mut v: usize = 0;
    while v < ROW
        invariant
            counts@.len() == 13,
            forall|u: int| 0 <= u < 13 ==> counts@[u] == value_count(cards, u),
            v <= ROW,
            row@.len() == v,
            forall|u: int| 0 <= u < v ==> row@[u] == (value_count(cards, u) == k),
        decreases ROW - v,
    {
        row.push(counts[v] == k);
        v = v + 1;
    }
    assert(row@ =~= count_row(cards, k as int));
    row
}

/// The values that are held at all.
fn values_present(counts: &Vec<u8>, Ghost(cards): Ghost<Seq<Card>>) -> (row: Vec<bool>)
    requires
        counts@.len() == 13,
        forall|v: int| 0 <= v < 13 ==> counts@[v] == value_count(cards, v),
    ensures
        row@ == value_row(cards),
{
    let mut row: Vec<bool> = Vec::new();
    let mut v: usize = 0;
    while v < ROW
        invariant
            counts@.len() == 13,
            forall|u: int| 0 <= u < 13 ==> counts@[u] == value_count(cards, u),
            v <= ROW,
            row@.len() == v,
            forall|u: int| 0 <= u < v ==> row@[u] == (value_count(cards, u) > 0),
        decreases ROW - v,
    {
        row.push(counts[v] > 0);
        v = v + 1;
    }
    assert(row@ =~= value_row(cards));
    row
}

/// Two rows as one number.
fn join(high: &Vec<bool>, low: &Vec<bool>) -> (n: u32)
    requires
        high@.len() == 13,
        low@.len() == 13,
    ensures
        n == joined(high@, low@),
{
    let h: u32 = row_mask(high);
    let l: u32 = row_mask(low);
    h * 8192 + l
}

/// Rank a hand in which no suit holds five values.
fn rank_without_flush(seen: &Vec<bool>, Ghost(cards): Ghost<Seq<Card>>) -> (r: Rank)
    requires
        seen@ == seen_row(cards),
    ensures
        r == rank_unsuited(cards),
{
    let counts = count_values(seen, Ghost(cards));
    let values = values_present(&counts, Ghost(cards));
    let pairs = values_held(&counts, 2, Ghost(cards));
    let trips = values_held(&counts, 3, Ghost(cards));
    let quads = values_held(&counts, 4, Ghost(cards));
    let pair_total: usize = count_marks(&pairs);
    let trip_total: usize = count_marks(&trips);
    if count_marks(&quads) > 0 {
        let rest = marks_without(&values, &quads);
        let kicker = top_marks(&rest, 1);
        Rank::FourOfAKind(join(&quads, &kicker))
    } else if trip_total >= 2 {
        let set = top_marks(&trips, 1);
        let rest = marks_without(&trips, &set);
        let pair = top_marks(&rest, 1);
        Rank::FullHouse(join(&set, &pair))
    } else if trip_total == 1 && pair_total > 0 {
        let pair = top_marks(&pairs, 1);
        Rank::FullHouse(join(&trips, &pair))
    } else {
        match find_straight(&values) {
            Some(top) => Rank::Straight(top),
            None => {
                if trip_total > 0 {
                    let rest = marks_without(&values, &trips);
                    let kickers = top_marks(&rest, 2);
                    Rank::ThreeOfAKind(join(&trips, &kickers))
                } else if pair_total >= 2 {
                    let two = top_marks(&pairs, 2);
                    let rest = marks_without(&values, &two);
                    let kicker = top_marks(&rest, 1);
                    Rank::TwoPair(join(&two, &kicker))
                } else if pair_total == 0 {
                    let best = top_marks(&values, 5);
                    Rank::HighCard(row_mask(&best))
                } else {
                    let rest = marks_without(&values, &pairs);
                    let kickers = top_marks(&rest, 3);
                    Rank::OnePair(join(&pairs, &kickers))
                }
            },
        }
    }
}

/// Rank the best five-card hand among the cards. Any number of cards is
/// ranked; a card that occurs twice counts once.
pub fn rank_cards(cards: &Vec<Card>) -> (r: Rank)
    ensures
        r == rank_of(cards@),
{
    let seen = mark_cards(cards);
    let mut s: usize = 0;
    while s < 4
        invariant
            s <= 4,
            seen@ == seen_row(cards@),
            flush_suit(cards@) == flush_from(cards@, s as int),
        decreases 4 - s,
    {
        let suited = suit_marks(&seen, s, Ghost(cards@));
        if count_marks(&suited) >= 5 {
            return match find_straight(&suited) {
                Some(top) => Rank::StraightFlush(top),
                None => {
                    let best = top_marks(&suited, 5);
                    Rank::Flush(row_mask(&best))
                },
            };
        }
        s = s + 1;
    }
    rank_without_flush(&seen, Ghost(cards@))
}

/// A card is the card of its own value and suit positions.
pub proof fn lemma_card_positions(c: Card)
    ensures
        card_of(c.value.idx(), c.suit.idx()) == c,
        0 <= c.value.idx() < 13,
        0 <= c.suit.idx() < 4,
{
}

/// A value is held in at most four suits, and in at least as many as there
/// are different cards of it among the given three.
pub proof fn lemma_value_count(cards: Seq<Card>, a: Card, b: Card, c: Card)
    requires
        cards.contains(a),
        cards.contains(b),
        cards.contains(c),
        a.value == b.value,
        a.value == c.value,
    ensures
        value_count(cards, a.value.idx()) <= 4,
        value_count(cards, a.value.idx()) >= 1,
        a != b ==> value_count(cards, a.value.idx()) >= 2,
        a != b && a != c && b != c ==> value_count(cards, a.value.idx()) >= 3,
{
    lemma_card_positions(a);
    lemma_card_positions(b);
    lemma_card_positions(c);
    let v = a.value.idx();
    assert(holds(cards, v, a.suit.idx()));
    assert(holds(cards, v, b.suit.idx()));
    assert(holds(cards, v, c.suit.idx()));
}

/// A hand that holds two cards of one value ranks as one pair at least.
pub proof fn lemma_pair_at_least(cards: Seq<Card>, a: Card, b: Card)
    requires
        cards.contains(a),
        cards.contains(b),
        a != b,
        a.value == b.value,
    ensures
        Rank::OnePair(0).at_most(rank_of(cards)),
{
    let v = a.value.idx();
    lemma_value_count(cards, a, b, b);
    let n = value_count(cards, v);
    if n == 2 {
        lemma_marked_counts(count_row(cards, 2), v, 0);
    } else if n == 3 {
        lemma_marked_counts(count_row(cards, 3), v, 0);
    } else {
        lemma_marked_counts(count_row(cards, 4), v, 0);
    }
}

/// A hand that holds three cards of one value ranks as three of a kind at
/// least.
pub proof fn lemma_triple_at_least(cards: Seq<Card>, a: Card, b: Card, c: Card)
    requires
        cards.contains(a),
        cards.contains(b),
        cards.contains(c),
        a != b,
        a != c,
        b != c,
        a.value == b.value,
        a.value == c.value,
    ensures
        Rank::ThreeOfAKind(0).at_most(rank_of(cards)),
{
    let v = a.value.idx();
    lemma_value_count(cards, a, b, c);
    let n = value_count(cards, v);
    if n == 3 {
        lemma_marked_counts(count_row(cards, 3), v, 0);
    } else {
        lemma_marked_counts(count_row(cards, 4), v, 0);
    }
}

/// The rank depends only on which cards are held: not on their order, and
/// not on how often a card is given.
pub proof fn lemma_rank_of_same_cards(a: Seq<Card>, b: Seq<Card>)
    requires
        forall|c: Card| a.contains(c) == b.contains(c),
    ensures
        rank_of(a) == rank_of(b),
{
    assert forall|v: int, s: int| holds(a, v, s) == holds(b, v, s) by {}
    assert forall|v: int| value_count(a, v) == value_count(b, v) by {}
    assert(value_row(a) =~= value_row(b));
    assert forall|k: int| count_row(a, k) == count_row(b, k) by {
        assert(count_row(a, k) =~= count_row(b, k));
    }
    assert forall|s: int| suit_row(a, s) == suit_row(b, s) by {
        assert(suit_row(a, s) =~= suit_row(b, s));
    }
    assert forall|s: int| flush_from(a, s) == flush_from(b, s) by {
        lemma_flush_from_same_cards(a, b, s);
    }
}

/// The search for a flush goes by the rows of the suits alone.
proof fn lemma_flush_from_same_cards(a: Seq<Card>, b: Seq<Card>, s: int)
    requires
        forall|t: int| suit_row(a, t) == suit_row(b, t),
    ensures
        flush_from(a, s) == flush_from(b, s),
    decreases 4 - s,
{
    if 0 <= s < 4 {
        lemma_flush_from_same_cards(a, b, s + 1);
    }
}

} // verus!
