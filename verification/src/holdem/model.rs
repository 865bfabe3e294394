//! The mathematical model of a game: what a trial engine holds, which
//! set-ups are accepted, and how a trial and a reset change the state.

use vstd::prelude::*;

use crate::cards::card::{full_deck, Card};
use crate::cards::evaluate::rank_of;
use crate::cards::rank::Rank;
use crate::holdem::error::GameError;

verus! {

/// The state of a trial engine.
pub struct GameView {
    /// The cards of each hand: the two hole cards first, then what a trial
    /// added.
    pub hands: Seq<Seq<Card>>,
    /// The community cards that were fixed when the game was set up.
    pub board: Seq<Card>,
    /// The cards that belong to no hand and not to the board, in the order
    /// in which they are dealt.
    pub pool: Seq<Card>,
    /// How many cards of the pool have been dealt since it was last
    /// shuffled; 52 while it has never been shuffled.
    pub cursor: nat,
}

/// The hands laid end to end.
pub open spec fn dealt_cards(hands: Seq<Seq<Card>>) -> Seq<Card>
    decreases hands.len(),
{
    if hands.len() == 0 {
        Seq::empty()
    } else {
        dealt_cards(hands.drop_last()) + hands.last()
    }
}

/// Each hand cut back to its two hole cards.
pub open spec fn holes(hands: Seq<Seq<Card>>) -> Seq<Seq<Card>> {
    Seq::new(hands.len(), |i: int| hands[i].take(2))
}

/// The cards of the standard deck, in its order, that are not among
/// `claimed`.
pub open spec fn unclaimed(claimed: Seq<Card>) -> Seq<Card> {
    full_deck().filter(|c: Card| !claimed.contains(c))
}

/// The earliest card of `cards` that occurs in `seen` or earlier in `cards`.
pub open spec fn first_repeat(seen: Seq<Card>, cards: Seq<Card>) -> Option<Card>
    decreases cards.len(),
{
    if cards.len() == 0 {
        None
    } else {
        match first_repeat(seen, cards.drop_last()) {
            Some(c) => Some(c),
            None => if (seen + cards.drop_last()).contains(cards.last()) {
                Some(cards.last())
            } else {
                None
            },
        }
    }
}

/// The card stands at two different places of the sequence.
pub open spec fn occurs_twice(cards: Seq<Card>, c: Card) -> bool {
    exists|p: int, q: int| 0 <= p < q < cards.len() && cards[p] == c && cards[q] == c
}

/// What is wrong with one hand, the cards in `seen` being taken already: its
/// size comes before its cards.
pub open spec fn hand_fault(seen: Seq<Card>, hand: Seq<Card>) -> Option<GameError> {
    if hand.len() != 2 {
        Some(GameError::InvalidHandSize)
    } else {
        match first_repeat(seen, hand) {
            Some(c) => Some(GameError::DuplicateCard(c)),
            None => None,
        }
    }
}

/// The fault of the earliest hand that has one.
pub open spec fn hands_fault(hands: Seq<Seq<Card>>) -> Option<GameError>
    decreases hands.len(),
{
    if hands.len() == 0 {
        None
    } else {
        match hands_fault(hands.drop_last()) {
            Some(e) => Some(e),
            None => hand_fault(dealt_cards(hands.drop_last()), hands.last()),
        }
    }
}

/// Why a set-up is refused: the size of the board comes first, then the
/// hands in order, then the cards of the board.
pub open spec fn setup_fault(hands: Seq<Seq<Card>>, board: Seq<Card>) -> Option<GameError> {
    if board.len() > 5 {
        Some(GameError::BoardTooLarge)
    } else {
        match hands_fault(hands) {
            Some(e) => Some(e),
            None => match first_repeat(dealt_cards(hands), board) {
                Some(c) => Some(GameError::DuplicateCard(c)),
                None => None,
            },
        }
    }
}

/// A set-up that is accepted: every hand holds two cards, the board at most
/// five, and no card occurs twice among them.
pub open spec fn valid_setup(hands: Seq<Seq<Card>>, board: Seq<Card>) -> bool {
    &&& board.len() <= 5
    &&& forall|i: int| 0 <= i < hands.len() ==> (#[trigger] hands[i]).len() == 2
    &&& (dealt_cards(hands) + board).no_duplicates()
}

/// The state of a game that was just set up: the pool holds the cards that
/// are left in the order of the standard deck, and has never been shuffled.
pub open spec fn initial_view(hands: Seq<Seq<Card>>, board: Seq<Card>) -> GameView {
    GameView { hands, board, pool: unclaimed(dealt_cards(hands) + board), cursor: 52 }
}

impl GameView {
    /// The hole cards of all hands, then the board.
    pub open spec fn claimed(self) -> Seq<Card> {
        dealt_cards(holes(self.hands)) + self.board
    }

    /// Hole cards, board and pool laid end to end.
    pub open spec fn in_play(self) -> Seq<Card> {
        self.claimed() + self.pool
    }

    /// The state is well formed: hole cards, board and pool together hold
    /// each of the 52 cards exactly once, the board has at most five cards,
    /// every hand has its two hole cards, and the cursor lies within the pool
    /// or marks a pool that was never shuffled.
    pub open spec fn wf(self) -> bool {
        &&& self.board.len() <= 5
        &&& forall|i: int| 0 <= i < self.hands.len() ==> (#[trigger] self.hands[i]).len() >= 2
        &&& self.in_play().no_duplicates()
        &&& self.in_play().len() == 52
        &&& forall|c: Card| #[trigger] self.in_play().contains(c)
        &&& (self.cursor <= self.pool.len() || self.cursor == 52)
    }

    /// Every hand holds its two hole cards and nothing else.
    pub open spec fn ready(self) -> bool {
        forall|i: int| 0 <= i < self.hands.len() ==> (#[trigger] self.hands[i]).len() == 2
    }

    /// Every hand holds seven cards.
    pub open spec fn dealt(self) -> bool {
        forall|i: int| 0 <= i < self.hands.len() ==> (#[trigger] self.hands[i]).len() == 7
    }

    /// How many cards a trial draws to bring the board up to five.
    pub open spec fn needed(self) -> int {
        5 - self.board.len()
    }

    /// The pool cannot supply five more cards from the cursor on, so the
    /// next trial shuffles it first.
    pub open spec fn must_shuffle(self) -> bool {
        self.cursor + 5 > self.pool.len()
    }

    /// The pool holds enough cards to complete the board.
    pub open spec fn can_deal(self) -> bool {
        self.pool.len() + self.board.len() >= 5
    }

    /// Where in the pool the next trial starts to draw.
    pub open spec fn draw_start(self) -> int {
        if self.must_shuffle() {
            0
        } else {
            self.cursor as int
        }
    }

    /// The state after a reset: every hand is cut back to its hole cards,
    /// and nothing else changes.
    pub open spec fn rested(self) -> GameView {
        GameView { hands: holes(self.hands), ..self }
    }
}

/// The cards that the trial from `pre` to `post` drew from the pool.
pub open spec fn drawn(pre: GameView, post: GameView) -> Seq<Card> {
    post.pool.subrange(pre.draw_start(), pre.draw_start() + pre.needed())
}

/// One trial leads from `pre` to `post`: the pool keeps its cards, each as
/// often as before, and keeps their order unless it had to be shuffled; the cards that complete the
/// board are drawn from it in order, from the cursor on or from the start of
/// a shuffled pool; every hand gets the board and then the drawn cards; the
/// cursor moves past what was drawn.
pub open spec fn trial_step(pre: GameView, post: GameView) -> bool {
    &&& post.board == pre.board
    &&& post.pool.to_multiset() == pre.pool.to_multiset()
    &&& post.pool.len() == pre.pool.len()
    &&& !pre.must_shuffle() ==> post.pool == pre.pool
    &&& post.cursor == pre.draw_start() + pre.needed()
    &&& post.hands.len() == pre.hands.len()
    &&& forall|i: int|
        0 <= i < pre.hands.len() ==> #[trigger] post.hands[i] == pre.hands[i] + pre.board + drawn(
            pre,
            post,
        )
}

/// The rank of each hand.
pub open spec fn ranks_of(hands: Seq<Seq<Card>>) -> Seq<Rank> {
    Seq::new(hands.len(), |i: int| rank_of(hands[i]))
}

/// Hand `index` wins with `rank`: that is its rank, no hand ranks higher,
/// and every hand after it ranks strictly lower. Among hands of equal best
/// rank the last one wins.
pub open spec fn is_winner(ranks: Seq<Rank>, index: int, rank: Rank) -> bool {
    &&& 0 <= index < ranks.len()
    &&& ranks[index] == rank
    &&& forall|i: int| 0 <= i < ranks.len() ==> (#[trigger] ranks[i]).at_most(rank)
    &&& forall|i: int| index < i < ranks.len() ==> (#[trigger] ranks[i]).below(rank)
}

/// The state in which trial `k` of a run starts: the first trial starts from
/// `start`, each later one from the state that the trial before it left,
/// after a reset.
pub open spec fn before_trial(start: GameView, after: Seq<GameView>, k: int) -> GameView {
    if k <= 0 {
        start
    } else {
        after[k - 1].rested()
    }
}

/// `after` lists the states that a run of trials leaves, one after the
/// other, with a reset between two trials.
pub open spec fn is_run(start: GameView, after: Seq<GameView>) -> bool {
    forall|k: int|
        0 <= k < after.len() ==> trial_step(#[trigger] before_trial(start, after, k), after[k])
}

/// The cards that trial `k` of a run drew.
pub open spec fn drawn_in(start: GameView, after: Seq<GameView>, k: int) -> Seq<Card> {
    drawn(before_trial(start, after, k), after[k])
}

} // verus!
