//! Facts about setting a game up: when a set-up is refused and with which
//! error, and that an accepted set-up splits the deck.

use vstd::prelude::*;

use crate::cards::card::{full_deck, lemma_card_index, lemma_full_deck, Card};
use crate::holdem::error::GameError;
use crate::holdem::model::{
    dealt_cards, first_repeat, hands_fault, holes, initial_view, occurs_twice, setup_fault,
    unclaimed, valid_setup,
};

verus! {

/// A sequence with one more element at its end has no duplicates exactly
/// when the sequence had none and did not hold the element.
pub proof fn lemma_push_no_duplicates<A>(s: Seq<A>, x: A)
    ensures
        s.push(x).no_duplicates() <==> s.no_duplicates() && !s.contains(x),
{
    let t = s.push(x);
    if t.no_duplicates() {
        assert forall|i: int, j: int| 0 <= i < s.len() && 0 <= j < s.len() && i != j implies s[i]
            != s[j] by {
            assert(t[i] == s[i] && t[j] == s[j]);
        }
        if s.contains(x) {
            let i = choose|i: int| 0 <= i < s.len() && s[i] == x;
            assert(t[i] == t[s.len() as int]);
        }
    }
    if s.no_duplicates() && !s.contains(x) {
        assert forall|i: int, j: int| 0 <= i < t.len() && 0 <= j < t.len() && i != j implies t[i]
            != t[j] by {
            if i < s.len() {
                assert(s.contains(s[i]));
            }
            if j < s.len() {
                assert(s.contains(s[j]));
            }
        }
    }
}

/// A sequence with no duplicates keeps none when elements are filtered out.
pub proof fn lemma_filter_no_duplicates<A>(s: Seq<A>, p: spec_fn(A) -> bool)
    requires
        s.no_duplicates(),
    ensures
        s.filter(p).no_duplicates(),
    decreases s.len(),
{
    reveal(Seq::filter);
    if s.len() > 0 {
        let head = s.drop_last();
        lemma_filter_no_duplicates(head, p);
        if p(s.last()) {
            if head.filter(p).contains(s.last()) {
                head.lemma_filter_contains_rev(p, s.last());
                let i = choose|i: int| 0 <= i < head.len() && head[i] == s.last();
                assert(s[i] == s[s.len() - 1]);
            }
            lemma_push_no_duplicates(head.filter(p), s.last());
        }
    }
}

/// The cards of the first `i + 1` hands are those of the first `i` and then
/// those of hand `i`.
pub proof fn lemma_dealt_cards_step(hands: Seq<Seq<Card>>, i: int)
    requires
        0 <= i < hands.len(),
    ensures
        dealt_cards(hands.take(i + 1)) == dealt_cards(hands.take(i)) + hands[i],
{
    assert(hands.take(i + 1).drop_last() =~= hands.take(i));
}

/// Hands of two cards each lay out two cards for each hand.
pub proof fn lemma_dealt_cards_len(hands: Seq<Seq<Card>>)
    requires
        forall|i: int| 0 <= i < hands.len() ==> (#[trigger] hands[i]).len() == 2,
    ensures
        dealt_cards(hands).len() == 2 * hands.len(),
    decreases hands.len(),
{
    if hands.len() > 0 {
        lemma_dealt_cards_len(hands.drop_last());
    }
}

/// A repeat found among the first `j` cards is the repeat of the whole row.
pub proof fn lemma_first_repeat_prefix(seen: Seq<Card>, cards: Seq<Card>, j: int)
    requires
        0 <= j <= cards.len(),
        first_repeat(seen, cards.take(j)) is Some,
    ensures
        first_repeat(seen, cards) == first_repeat(seen, cards.take(j)),
    decreases cards.len(),
{
    if j == cards.len() {
        assert(cards.take(j) =~= cards);
    } else {
        assert(cards.drop_last().take(j) =~= cards.take(j));
        lemma_first_repeat_prefix(seen, cards.drop_last(), j);
    }
}

/// No card repeats exactly when the cards seen before and the new cards
/// together have no duplicates.
pub proof fn lemma_first_repeat(seen: Seq<Card>, cards: Seq<Card>)
    requires
        seen.no_duplicates(),
    ensures
        first_repeat(seen, cards) is None <==> (seen + cards).no_duplicates(),
    decreases cards.len(),
{
    if cards.len() == 0 {
        assert(seen + cards =~= seen);
    } else {
        let head = cards.drop_last();
        lemma_first_repeat(seen, head);
        assert(seen + cards =~= (seen + head).push(cards.last()));
        lemma_push_no_duplicates(seen + head, cards.last());
    }
}

/// A fault found among the first `i` hands is the fault of all the hands.
pub proof fn lemma_hands_fault_prefix(hands: Seq<Seq<Card>>, i: int)
    requires
        0 <= i <= hands.len(),
        hands_fault(hands.take(i)) is Some,
    ensures
        hands_fault(hands) == hands_fault(hands.take(i)),
    decreases hands.len(),
{
    if i == hands.len() {
        assert(hands.take(i) =~= hands);
    } else {
        assert(hands.drop_last().take(i) =~= hands.take(i));
        lemma_hands_fault_prefix(hands.drop_last(), i);
    }
}

/// The hands have no fault exactly when each holds two cards and no card
/// occurs twice among them.
pub proof fn lemma_hands_fault(hands: Seq<Seq<Card>>)
    ensures
        hands_fault(hands) is None <==> (forall|i: int|
            0 <= i < hands.len() ==> (#[trigger] hands[i]).len() == 2) && dealt_cards(
            hands,
        ).no_duplicates(),
    decreases hands.len(),
{
    if hands.len() > 0 {
        let head = hands.drop_last();
        lemma_hands_fault(head);
        let sized = forall|i: int| 0 <= i < hands.len() ==> (#[trigger] hands[i]).len() == 2;
        let head_sized = forall|i: int| 0 <= i < head.len() ==> (#[trigger] head[i]).len() == 2;
        if sized {
            assert forall|i: int| 0 <= i < head.len() implies (#[trigger] head[i]).len() == 2 by {
                assert(head[i] == hands[i]);
            }
        }
        if head_sized && hands.last().len() == 2 {
            assert forall|i: int| 0 <= i < hands.len() implies (#[trigger] hands[i]).len()
                == 2 by {
                if i < head.len() {
                    assert(head[i] == hands[i]);
                }
            }
        }
        if dealt_cards(hands).no_duplicates() {
            let all = dealt_cards(hands);
            let before = dealt_cards(head);
            assert forall|i: int, j: int|
                0 <= i < before.len() && 0 <= j < before.len() && i != j implies before[i]
                != before[j] by {
                assert(all[i] == before[i] && all[j] == before[j]);
            }
        }
        if dealt_cards(head).no_duplicates() {
            lemma_first_repeat(dealt_cards(head), hands.last());
        }
    }
}

/// A set-up has no fault exactly when it is valid.
pub proof fn lemma_setup_fault(hands: Seq<Seq<Card>>, board: Seq<Card>)
    ensures
        setup_fault(hands, board) is None <==> valid_setup(hands, board),
{
    lemma_hands_fault(hands);
    let all = dealt_cards(hands) + board;
    if all.no_duplicates() {
        let before = dealt_cards(hands);
        assert forall|i: int, j: int|
            0 <= i < before.len() && 0 <= j < before.len() && i != j implies before[i]
            != before[j] by {
            assert(all[i] == before[i] && all[j] == before[j]);
        }
    }
    if dealt_cards(hands).no_duplicates() {
        lemma_first_repeat(dealt_cards(hands), board);
    }
}

/// The cards that are not claimed are as many as the claimed cards leave of
/// the deck, where no card is claimed twice.
pub proof fn lemma_unclaimed_len(claimed: Seq<Card>)
    requires
        claimed.no_duplicates(),
    ensures
        unclaimed(claimed).len() + claimed.len() == 52,
        unclaimed(claimed).no_duplicates(),
{
    let free = |c: Card| !claimed.contains(c);
    let pool = unclaimed(claimed);
    lemma_full_deck();
    lemma_filter_no_duplicates(full_deck(), free);
    claimed.unique_seq_to_set();
    pool.unique_seq_to_set();
    full_deck().unique_seq_to_set();
    vstd::seq_lib::seq_to_set_is_finite(claimed);
    vstd::seq_lib::seq_to_set_is_finite(pool);
    assert(claimed.to_set().disjoint(pool.to_set())) by {
        assert forall|c: Card| claimed.to_set().contains(c) implies !pool.to_set().contains(c) by {
            if pool.contains(c) {
                let j = choose|j: int| 0 <= j < pool.len() && pool[j] == c;
                full_deck().lemma_filter_pred(free, j);
            }
        }
    }
    assert(claimed.to_set() + pool.to_set() =~= full_deck().to_set()) by {
        assert forall|c: Card| claimed.contains(c) || pool.contains(c) by {
            if !claimed.contains(c) {
                lemma_card_index(c);
                assert(full_deck()[c.idx()] == c);
                full_deck().lemma_filter_contains(free, c.idx());
            }
        }
    }
    vstd::set_lib::lemma_set_disjoint_lens(claimed.to_set(), pool.to_set());
}

/// A valid set-up makes a well-formed game in which every hand is at rest:
/// the hole cards, the board and the cards that are left split the deck.
pub proof fn lemma_setup_splits_deck(hands: Seq<Seq<Card>>, board: Seq<Card>)
    requires
        valid_setup(hands, board),
    ensures
        initial_view(hands, board).wf(),
        initial_view(hands, board).ready(),
{
    let g = initial_view(hands, board);
    let pool = g.pool;
    let claimed = dealt_cards(hands) + board;
    let free = |c: Card| !claimed.contains(c);
    assert(holes(hands) =~= hands) by {
        assert forall|i: int| 0 <= i < hands.len() implies #[trigger] hands[i].take(2)
            == hands[i] by {
            assert(hands[i].take(2) =~= hands[i]);
        }
    }
    assert(g.claimed() == claimed);
    lemma_unclaimed_len(claimed);
    assert forall|i: int, j: int| 0 <= i < claimed.len() && 0 <= j < pool.len() implies claimed[i]
        != pool[j] by {
        full_deck().lemma_filter_pred(free, j);
        assert(claimed.contains(claimed[i]));
    }
    vstd::seq_lib::lemma_no_dup_in_concat(claimed, pool);
    assert forall|c: Card| #[trigger] g.in_play().contains(c) by {
        if claimed.contains(c) {
            let i = choose|i: int| 0 <= i < claimed.len() && claimed[i] == c;
            assert(g.in_play()[i] == c);
        } else {
            lemma_card_index(c);
            assert(full_deck()[c.idx()] == c);
            full_deck().lemma_filter_contains(free, c.idx());
            let j = choose|j: int| 0 <= j < pool.len() && pool[j] == c;
            assert(g.in_play()[claimed.len() + j] == c);
        }
    }
}

/// A board of more than five cards is refused as too large, whatever the
/// hands are.
pub proof fn lemma_large_board_refused(hands: Seq<Seq<Card>>, board: Seq<Card>)
    requires
        board.len() > 5,
    ensures
        setup_fault(hands, board) == Some(GameError::BoardTooLarge),
{
}

/// A set-up with a hand that does not hold two cards is refused. The error
/// names the hand size when the board is not too large and the cards of the
/// hands before the first such hand are all different.
pub proof fn lemma_bad_hand_refused(hands: Seq<Seq<Card>>, board: Seq<Card>, i: int)
    requires
        0 <= i < hands.len(),
        hands[i].len() != 2,
    ensures
        setup_fault(hands, board) is Some,
        board.len() <= 5 && (forall|k: int| 0 <= k < i ==> (#[trigger] hands[k]).len() == 2)
            && dealt_cards(hands.take(i)).no_duplicates() ==> setup_fault(hands, board) == Some(
            GameError::InvalidHandSize,
        ),
{
    lemma_setup_fault(hands, board);
    if board.len() <= 5 && (forall|k: int| 0 <= k < i ==> (#[trigger] hands[k]).len() == 2)
        && dealt_cards(hands.take(i)).no_duplicates() {
        let head = hands.take(i);
        assert forall|k: int| 0 <= k < head.len() implies (#[trigger] head[k]).len() == 2 by {
            assert(head[k] == hands[k]);
        }
        lemma_hands_fault(head);
        assert(hands.take(i + 1).drop_last() =~= head);
        assert(hands_fault(hands.take(i + 1)) == Some(GameError::InvalidHandSize));
        lemma_hands_fault_prefix(hands, i + 1);
    }
}

/// A repeat that is found is a card that stands at two places of the cards
/// seen before and the new cards laid end to end.
pub proof fn lemma_first_repeat_twice(seen: Seq<Card>, cards: Seq<Card>)
    ensures
        first_repeat(seen, cards) matches Some(c) ==> occurs_twice(seen + cards, c),
    decreases cards.len(),
{
    if cards.len() > 0 {
        let head = cards.drop_last();
        let all = seen + cards;
        lemma_first_repeat_twice(seen, head);
        match first_repeat(seen, head) {
            Some(c) => {
                let (p, q) = choose|p: int, q: int|
                    0 <= p < q < (seen + head).len() && (seen + head)[p] == c && (seen + head)[q]
                        == c;
                assert(all[p] == c && all[q] == c);
            },
            None => {
                let c = cards.last();
                if (seen + head).contains(c) {
                    let p = choose|p: int| 0 <= p < (seen + head).len() && (seen + head)[p] == c;
                    assert(all[p] == c && all[all.len() - 1] == c);
                }
            },
        }
    }
}

/// Among hands of two cards each, a fault names a card that stands at two
/// places of the hands laid end to end.
pub proof fn lemma_fault_names_repeat(hands: Seq<Seq<Card>>)
    requires
        forall|i: int| 0 <= i < hands.len() ==> (#[trigger] hands[i]).len() == 2,
    ensures
        hands_fault(hands) matches Some(e) ==> (e matches GameError::DuplicateCard(c)
            && occurs_twice(dealt_cards(hands), c)),
    decreases hands.len(),
{
    if hands.len() > 0 {
        let head = hands.drop_last();
        let all = dealt_cards(hands);
        assert forall|i: int| 0 <= i < head.len() implies (#[trigger] head[i]).len() == 2 by {
            assert(head[i] == hands[i]);
        }
        lemma_fault_names_repeat(head);
        match hands_fault(head) {
            Some(e) => {
                let c = e->DuplicateCard_0;
                let (p, q) = choose|p: int, q: int|
                    0 <= p < q < dealt_cards(head).len() && dealt_cards(head)[p] == c
                        && dealt_cards(head)[q] == c;
                assert(all[p] == c && all[q] == c);
            },
            None => {
                assert(hands.last() == hands[hands.len() - 1]);
                lemma_first_repeat_twice(dealt_cards(head), hands.last());
            },
        }
    }
}

/// A set-up in which a card occurs twice is refused. When the board is not
/// too large and every hand holds two cards, the error names a card, and
/// that card is one that occurs twice among the hands and the board.
pub proof fn lemma_repeated_card_refused(hands: Seq<Seq<Card>>, board: Seq<Card>)
    requires
        !(dealt_cards(hands) + board).no_duplicates(),
    ensures
        setup_fault(hands, board) is Some,
        board.len() <= 5 && (forall|i: int| 0 <= i < hands.len() ==> (#[trigger] hands[i]).len()
            == 2) ==> (setup_fault(hands, board) matches Some(GameError::DuplicateCard(c))
            && occurs_twice(dealt_cards(hands) + board, c)),
{
    lemma_setup_fault(hands, board);
    if board.len() <= 5 && (forall|i: int| 0 <= i < hands.len() ==> (#[trigger] hands[i]).len()
        == 2) {
        let all = dealt_cards(hands) + board;
        lemma_fault_names_repeat(hands);
        match hands_fault(hands) {
            Some(e) => {
                let c = e->DuplicateCard_0;
                let (p, q) = choose|p: int, q: int|
                    0 <= p < q < dealt_cards(hands).len() && dealt_cards(hands)[p] == c
                        && dealt_cards(hands)[q] == c;
                assert(all[p] == c && all[q] == c);
            },
            None => {
                lemma_first_repeat_twice(dealt_cards(hands), board);
            },
        }
    }
}

} // verus!
