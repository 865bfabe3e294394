//! The trial engine: set a game up once, then run trial after trial on it.

use vstd::prelude::*;

use crate::cards::card::{full_deck, Card, DECK_SIZE};
use crate::cards::deck::{lemma_filter_agrees, Deck, FlatDeck};
use crate::cards::hand::Hand;
use crate::cards::rank::{lemma_rank_order, Rank};
use crate::holdem::error::GameError;
use crate::holdem::model::{
    dealt_cards, drawn, first_repeat, hands_fault, initial_view, is_winner, ranks_of,
    setup_fault, trial_step, valid_setup, GameView,
};
use crate::holdem::setup::{
    lemma_dealt_cards_step, lemma_first_repeat_prefix, lemma_hands_fault_prefix,
    lemma_push_no_duplicates, lemma_setup_fault, lemma_setup_splits_deck,
};
use crate::holdem::trial::{
    lemma_longer_hands_keep_wf, lemma_pool_suffices, lemma_reset_keeps_wf,
    lemma_shuffle_keeps_wf, lemma_trial_keeps_wf,
};

verus! {

/// Number of cards that a full board holds.
pub const BOARD_SIZE: usize = 5;

/// Number of hole cards of a hand.
pub const HOLE_CARDS: usize = 2;

/// Current state of a game.
#[derive(Debug)]
pub struct MonteCarloGame {
    /// The cards that belong to no hand and not to the board.
    deck: FlatDeck,
    /// Community cards.
    board: Vec<Card>,
    /// Hands still playing.
    hands: Vec<Hand>,
    /// How many cards of the deck were dealt since it was last shuffled.
    current_offset: usize,
}

/// The cards of each hand.
pub open spec fn hand_rows(hands: Seq<Hand>) -> Seq<Seq<Card>> {
    Seq::new(hands.len(), |i: int| hands[i]@)
}

/// The deck holds exactly the cards that are not among `seen`, and `seen`
/// holds no card twice.
pub open spec fn tracks(deck: Deck, seen: Seq<Card>) -> bool {
    &&& deck.wf()
    &&& seen.no_duplicates()
    &&& forall|c: Card| deck.has(c) == !seen.contains(c)
}

/// Take the cards out of the deck one by one, and stop at the first that is
/// not there any more.
fn take_out(deck: &mut Deck, cards: &Vec<Card>, Ghost(seen): Ghost<Seq<Card>>) -> (r: Option<Card>)
    requires
        tracks(*old(deck), seen),
    ensures
        final(deck).wf(),
        r == first_repeat(seen, cards@),
        r is None ==> tracks(*final(deck), seen + cards@),
{
    let mut j: usize = 0;
    proof {
        assert(seen + cards@.take(0) =~= seen);
    }
    while j < cards.len()
        invariant
            j <= cards@.len(),
            tracks(*deck, seen + cards@.take(j as int)),
            first_repeat(seen, cards@.take(j as int)) is None,
        decreases cards@.len() - j,
    {
        let card = cards[j];
        let ghost before = seen + cards@.take(j as int);
        proof {
            assert(cards@.take(j + 1).drop_last() =~= cards@.take(j as int));
            assert(cards@.take(j + 1).last() == card);
            assert(seen + cards@.take(j + 1) =~= before.push(card));
        }
        if !deck.remove(card) {
            proof {
                lemma_first_repeat_prefix(seen, cards@, j + 1);
            }
            return Some(card);
        }
        proof {
            lemma_push_no_duplicates(before, card);
            assert forall|c: Card| deck.has(c) == !before.push(card).contains(c) by {
                vstd::seq_lib::lemma_seq_contains_after_push(before, card, c);
            }
        }
        j = j + 1;
    }
    proof {
        assert(cards@.take(cards@.len() as int) =~= cards@);
    }
    None
}

/// Take the hole cards of every hand out of a full deck, hand by hand, and
/// stop at the first hand that has the wrong size or holds a card that is
/// gone.
fn claim_hands(deck: &mut Deck, hands: &Vec<Hand>) -> (r: Option<GameError>)
    requires
        tracks(*old(deck), Seq::empty()),
    ensures
        final(deck).wf(),
        r == hands_fault(hand_rows(hands@)),
        r is None ==> tracks(*final(deck), dealt_cards(hand_rows(hands@))),
{
    let ghost rows = hand_rows(hands@);
    let mut i: usize = 0;
    proof {
        assert(rows.take(0) =~= Seq::<Seq<Card>>::empty());
    }
    while i < hands.len()
        invariant
            i <= hands@.len(),
            rows == hand_rows(hands@),
            tracks(*deck, dealt_cards(rows.take(i as int))),
            hands_fault(rows.take(i as int)) is None,
        decreases hands@.len() - i,
    {
        let hand = &hands[i];
        proof {
            assert(rows.take(i + 1).drop_last() =~= rows.take(i as int));
            assert(rows.take(i + 1).last() == hand@);
            lemma_dealt_cards_step(rows, i as int);
        }
        if hand.len() != HOLE_CARDS {
            proof {
                lemma_hands_fault_prefix(rows, i + 1);
            }
            return Some(GameError::InvalidHandSize);
        }
        match take_out(deck, hand.cards(), Ghost(dealt_cards(rows.take(i as int)))) {
            Some(card) => {
                proof {
                    lemma_hands_fault_prefix(rows, i + 1);
                }
                return Some(GameError::DuplicateCard(card));
            },
            None => {},
        }
        i = i + 1;
    }
    proof {
        assert(rows.take(hands@.len() as int) =~= rows);
    }
    None
}

/// Give every hand one more card.
fn push_to_all(hands: &mut Vec<Hand>, card: Card)
    ensures
        final(hands)@.len() == old(hands)@.len(),
        forall|i: int|
            0 <= i < old(hands)@.len() ==> (#[trigger] final(hands)@[i])@ == old(hands)@[i]@.push(
                card,
            ),
{
    let mut i: usize = 0;
    while i < hands.len()
        invariant
            i <= hands@.len(),
            hands@.len() == old(hands)@.len(),
            forall|k: int| 0 <= k < i ==> (#[trigger] hands@[k])@ == old(hands)@[k]@.push(card),
            forall|k: int| i <= k < hands@.len() ==> (#[trigger] hands@[k])@ == old(hands)@[k]@,
        decreases hands@.len() - i,
    {
        hands[i].push(card);
        i = i + 1;
    }
}

/// Find the hand of the best rank; among hands of equal best rank the last
/// one.
pub fn best_hand(hands: &Vec<Hand>) -> (r: Result<(usize, Rank), GameError>)
    ensures
        hands@.len() == 0 <==> r == Err::<(usize, Rank), GameError>(GameError::RankingUnavailable),
        hands@.len() > 0 <==> r is Ok,
        r matches Ok(best) ==> is_winner(ranks_of(hand_rows(hands@)), best.0 as int, best.1),
{
    if hands.len() == 0 {
        return Err(GameError::RankingUnavailable);
    }
    let ghost ranks = ranks_of(hand_rows(hands@));
    let mut index: usize = 0;
    let mut rank: Rank = hands[0].rank();
    let mut i: usize = 1;
    proof {
        lemma_rank_order(rank, rank, rank);
    }
    while i < hands.len()
        invariant
            1 <= i <= hands@.len(),
            ranks == ranks_of(hand_rows(hands@)),
            index < i,
            ranks[index as int] == rank,
            forall|k: int| 0 <= k < i ==> (#[trigger] ranks[k]).at_most(rank),
            forall|k: int| index < k < i ==> (#[trigger] ranks[k]).below(rank),
        decreases hands@.len() - i,
    {
        let next: Rank = hands[i].rank();
        proof {
            assert forall|k: int| 0 <= k < i implies (#[trigger] ranks[k]).at_most(next)
                || next.below(rank) by {
                lemma_rank_order(ranks[k], rank, next);
                lemma_rank_order(next, rank, rank);
            }
            lemma_rank_order(next, rank, rank);
        }
        if next.beats_or_ties(&rank) {
            index = i;
            rank = next;
        }
        i = i + 1;
    }
    Ok((index, rank))
}

impl View for MonteCarloGame {
    type V = GameView;

    closed spec fn view(&self) -> GameView {
        GameView {
            hands: hand_rows(self.hands@),
            board: self.board@,
            pool: self.deck@,
            cursor: self.current_offset as nat,
        }
    }
}

impl MonteCarloGame {
    /// If we already have hands then lets start there.
    ///
    /// Every hand must hold exactly two cards and no card may occur twice.
    /// The cards that are left make the pool, and the board is empty.
    pub fn new_with_hands(hands: Vec<Hand>) -> (r: Result<MonteCarloGame, GameError>)
        ensures
            r is Ok <==> valid_setup(hand_rows(hands@), Seq::empty()),
            r is Ok <==> setup_fault(hand_rows(hands@), Seq::empty()) is None,
            r matches Ok(g) ==> g@ == initial_view(hand_rows(hands@), Seq::empty()) && g@.wf()
                && g@.ready() && (g@.can_deal() <==> hands@.len() <= 23),
            r matches Err(e) ==> setup_fault(hand_rows(hands@), Seq::empty()) == Some(e),
    {
        let ghost rows = hand_rows(hands@);
        let ghost none = Seq::<Card>::empty();
        let mut deck = Deck::new();
        proof {
            lemma_setup_fault(rows, none);
        }
        match claim_hands(&mut deck, &hands) {
            Some(e) => {
                return Err(e);
            },
            None => {},
        }
        let pool = deck.flatten();
        let board: Vec<Card> = Vec::new();
        proof {
            let claimed = dealt_cards(rows) + none;
            assert(claimed =~= dealt_cards(rows));
            lemma_filter_agrees(full_deck(), |c: Card| deck.has(c), |c: Card| !claimed.contains(c));
            lemma_setup_splits_deck(rows, none);
            lemma_pool_suffices(initial_view(rows, none));
        }
        Ok(MonteCarloGame { deck: pool, hands, board, current_offset: DECK_SIZE })
    }

    /// Start from hands and the community cards that are known already.
    ///
    /// The board must hold at most five cards, every hand exactly two, and
    /// no card may occur twice among them. The cards that are left make the
    /// pool.
    pub fn new_with_board(hands: Vec<Hand>, board: Vec<Card>) -> (r: Result<
        MonteCarloGame,
        GameError,
    >)
        ensures
            board@.len() > 5 ==> (r matches Err(e) && e == GameError::BoardTooLarge),
            r is Ok <==> valid_setup(hand_rows(hands@), board@),
            r is Ok <==> setup_fault(hand_rows(hands@), board@) is None,
            r matches Ok(g) ==> g@ == initial_view(hand_rows(hands@), board@) && g@.wf()
                && g@.ready() && (g@.can_deal() <==> hands@.len() <= 23),
            r matches Err(e) ==> setup_fault(hand_rows(hands@), board@) == Some(e),
    {
        let ghost rows = hand_rows(hands@);
        let mut deck = Deck::new();
        proof {
            lemma_setup_fault(rows, board@);
        }
        if board.len() > BOARD_SIZE {
            return Err(GameError::BoardTooLarge);
        }
        match claim_hands(&mut deck, &hands) {
            Some(e) => {
                return Err(e);
            },
            None => {},
        }
        match take_out(&mut deck, &board, Ghost(dealt_cards(rows))) {
            Some(card) => {
                return Err(GameError::DuplicateCard(card));
            },
            None => {},
        }
        let pool = deck.flatten();
        proof {
            let claimed = dealt_cards(rows) + board@;
            lemma_filter_agrees(full_deck(), |c: Card| deck.has(c), |c: Card| !claimed.contains(c));
            lemma_setup_splits_deck(rows, board@);
            lemma_pool_suffices(initial_view(rows, board@));
        }
        Ok(MonteCarloGame { deck: pool, hands, board, current_offset: DECK_SIZE })
    }

    /// Simulate finishing a holdem game.
    ///
    /// This will fill out the board and then return the tuple
    /// of which hand had the best rank in end.
    ///
    /// With no hands, or with a pool that cannot complete the board, which
    /// is so from 24 hands on, the trial fails and the game stays as it is.
    /// Else every hand gets the board and the cards drawn for this trial
    /// behind the cards it holds; hands that were at rest hold seven cards
    /// then.
    pub fn simulate(&mut self) -> (r: Result<(usize, Rank), GameError>)
        requires
            old(self)@.wf(),
        ensures
            final(self)@.wf(),
            final(self)@.can_deal() == old(self)@.can_deal(),
            old(self)@.hands.len() == 0 ==> r == Err::<(usize, Rank), GameError>(
                GameError::NoHands,
            ) && final(self)@ == old(self)@,
            old(self)@.hands.len() > 0 && !old(self)@.can_deal() ==> r == Err::<
                (usize, Rank),
                GameError,
            >(GameError::PoolTooSmall) && final(self)@ == old(self)@,
            old(self)@.hands.len() > 0 && old(self)@.can_deal() ==> r is Ok && trial_step(
                old(self)@,
                final(self)@,
            ),
            old(self)@.hands.len() > 0 && old(self)@.can_deal() && old(self)@.ready()
                ==> final(self)@.dealt(),
            r matches Ok(best) ==> is_winner(
                ranks_of(final(self)@.hands),
                best.0 as int,
                best.1,
            ),
    {
        if self.hands.len() == 0 {
            return Err(GameError::NoHands);
        }
        proof {
            assert(self@.in_play().len() == self@.claimed().len() + self@.pool.len());
        }
        if self.deck.len() + self.board.len() < BOARD_SIZE {
            return Err(GameError::PoolTooSmall);
        }
        let ghost pre = self@;
        // Add the board cards to all the hands.
        let mut k: usize = 0;
        while k < self.board.len()
            invariant
                k <= self.board@.len(),
                self.board@ == pre.board,
                self.deck@ == pre.pool,
                self.current_offset == pre.cursor,
                self.hands@.len() == pre.hands.len(),
                forall|i: int|
                    0 <= i < pre.hands.len() ==> (#[trigger] self.hands@[i])@ == pre.hands[i]
                        + pre.board.take(k as int),
            decreases self.board@.len() - k,
        {
            let card = self.board[k];
            push_to_all(&mut self.hands, card);
            proof {
                assert forall|i: int| 0 <= i < pre.hands.len() implies (#[trigger] self.hands@[i])@
                    == pre.hands[i] + pre.board.take(k + 1) by {
                    assert(pre.board.take(k + 1) =~= pre.board.take(k as int).push(card));
                    assert((pre.hands[i] + pre.board.take(k as int)).push(card) =~= pre.hands[i]
                        + pre.board.take(k as int).push(card));
                }
            }
            k = k + 1;
        }
        proof {
            assert(pre.board.take(pre.board.len() as int) =~= pre.board);
            assert forall|i: int| 0 <= i < pre.hands.len() implies #[trigger] self@.hands[i]
                == pre.hands[i] + pre.board by {
                assert(self@.hands[i] == self.hands@[i]@);
            }
            lemma_longer_hands_keep_wf(pre, self@, pre.board);
        }
        // Figure out how many cards to deal.
        let num_cards: usize = BOARD_SIZE - self.board.len();
        // Now deal them from the deck, from the offset on.
        self.shuffle_if_needed();
        let ghost pool = self.deck@;
        let start: usize = self.current_offset;
        proof {
            assert(self.hands@.len() == self@.hands.len());
            assert(pool.len() == pre.pool.len());
            assert(start == pre.draw_start());
            assert(pre.in_play().len() == pre.claimed().len() + pre.pool.len());
            assert forall|i: int| 0 <= i < pre.hands.len() implies (#[trigger] self.hands@[i])@
                == pre.hands[i] + pre.board + pool.subrange(start as int, start + 0) by {
                assert(self@.hands[i] == self.hands@[i]@);
                assert(pre.hands[i] + pre.board + pool.subrange(start as int, start + 0)
                    =~= pre.hands[i] + pre.board);
            }
        }
        let mut k: usize = 0;
        while k < num_cards
            invariant
                k <= num_cards,
                start + num_cards <= pool.len() <= 52,
                self.board@ == pre.board,
                self.deck@ == pool,
                self.current_offset == start,
                self.hands@.len() == pre.hands.len(),
                forall|i: int|
                    0 <= i < pre.hands.len() ==> (#[trigger] self.hands@[i])@ == pre.hands[i]
                        + pre.board + pool.subrange(start as int, start + k),
            decreases num_cards - k,
        {
            let card = self.deck.get(start + k);
            push_to_all(&mut self.hands, card);
            proof {
                assert forall|i: int| 0 <= i < pre.hands.len() implies (#[trigger] self.hands@[i])@
                    == pre.hands[i] + pre.board + pool.subrange(start as int, start + k + 1) by {
                    assert(pool.subrange(start as int, start + k + 1) =~= pool.subrange(
                        start as int,
                        start + k,
                    ).push(card));
                    assert((pre.hands[i] + pre.board + pool.subrange(
                        start as int,
                        start + k,
                    )).push(card) =~= pre.hands[i] + pre.board + pool.subrange(
                        start as int,
                        start + k,
                    ).push(card));
                }
            }
            k = k + 1;
        }
        self.current_offset = self.current_offset + num_cards;
        proof {
            assert(drawn(pre, self@) == pool.subrange(start as int, start + num_cards));
            assert forall|i: int| 0 <= i < pre.hands.len() implies #[trigger] self@.hands[i]
                == pre.hands[i] + pre.board + drawn(pre, self@) by {
                assert(self@.hands[i] == self.hands@[i]@);
            }
            assert(trial_step(pre, self@));
            lemma_trial_keeps_wf(pre, self@);
        }
        // Now get the best rank of all the possible hands.
        best_hand(&self.hands)
    }

    /// Reset the game state.
    ///
    /// Every hand goes back to its two hole cards. The pool and the offset
    /// into it stay as they are.
    pub fn reset(&mut self)
        requires
            old(self)@.wf(),
        ensures
            final(self)@ == old(self)@.rested(),
            final(self)@.wf(),
            final(self)@.ready(),
            final(self)@.can_deal() == old(self)@.can_deal(),
    {
        let mut i: usize = 0;
        while i < self.hands.len()
            invariant
                old(self)@.wf(),
                i <= self.hands@.len(),
                self.board@ == old(self).board@,
                self.deck@ == old(self).deck@,
                self.current_offset == old(self).current_offset,
                self.hands@.len() == old(self).hands@.len(),
                forall|k: int|
                    0 <= k < i ==> (#[trigger] self.hands@[k])@ == old(self).hands@[k]@.take(2),
                forall|k: int|
                    i <= k < self.hands@.len() ==> (#[trigger] self.hands@[k])@ == old(
                        self,
                    ).hands@[k]@,
            decreases self.hands@.len() - i,
        {
            proof {
                assert(old(self)@.hands[i as int].len() >= 2);
            }
            self.hands[i].truncate(HOLE_CARDS);
            i = i + 1;
        }
        proof {
            assert(self@.hands =~= old(self)@.rested().hands);
            lemma_reset_keeps_wf(old(self)@);
        }
    }

    /// The hands, each with the cards it holds now.
    pub fn hands(&self) -> (hands: &Vec<Hand>)
        ensures
            hand_rows(hands@) == self@.hands,
    {
        &self.hands
    }

    /// The community cards that the game was set up with.
    pub fn board(&self) -> (board: &Vec<Card>)
        ensures
            board@ == self@.board,
    {
        &self.board
    }

    /// The pool, in the order in which it is dealt.
    pub fn deck(&self) -> (deck: &FlatDeck)
        ensures
            deck@ == self@.pool,
    {
        &self.deck
    }

    /// How many cards of the pool were dealt since it was last shuffled; 52
    /// while it was never shuffled.
    pub fn current_offset(&self) -> (offset: usize)
        ensures
            offset == self@.cursor,
    {
        self.current_offset
    }

    /// Shuffle the pool and start again at its first card, if fewer than
    /// five cards are left from the offset on. Else nothing changes.
    pub fn shuffle_if_needed(&mut self)
        requires
            old(self)@.wf(),
        ensures
            final(self)@.wf(),
            final(self)@.hands == old(self)@.hands,
            final(self)@.board == old(self)@.board,
            final(self)@.pool.to_multiset() == old(self)@.pool.to_multiset(),
            final(self)@.pool.len() == old(self)@.pool.len(),
            final(self)@.cursor == old(self)@.draw_start(),
            !old(self)@.must_shuffle() ==> final(self)@ == old(self)@,
    {
        proof {
            assert(old(self)@.in_play().len() == old(self)@.claimed().len() + old(
                self,
            )@.pool.len());
        }
        if self.current_offset + BOARD_SIZE > self.deck.len() {
            self.current_offset = 0;
            self.deck.shuffle();
            proof {
                lemma_shuffle_keeps_wf(old(self)@, self@);
            }
        }
    }
}

} // verus!
