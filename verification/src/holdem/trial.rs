//! Facts about trials and resets: what they keep and what they change.

use vstd::prelude::*;
use vstd::seq_lib::{lemma_multiset_commutative, to_multiset_contains, to_multiset_len};

use crate::cards::card::Card;
use crate::cards::evaluate::{lemma_pair_at_least, lemma_triple_at_least, rank_of};
use crate::cards::rank::{lemma_rank_order, Rank};
use crate::holdem::setup::lemma_dealt_cards_len;
use crate::holdem::model::{
    before_trial, dealt_cards, drawn, drawn_in, holes, is_run, is_winner, ranks_of, trial_step,
    GameView,
};

verus! {

/// Two sequences that hold the same cards equally often agree on having no
/// duplicates, on their length, and on which cards they hold.
pub proof fn lemma_same_cards(a: Seq<Card>, b: Seq<Card>)
    requires
        a.to_multiset() == b.to_multiset(),
    ensures
        a.len() == b.len(),
        a.no_duplicates() ==> b.no_duplicates(),
        forall|c: Card| a.contains(c) == b.contains(c),
{
    to_multiset_len(a);
    to_multiset_len(b);
    assert forall|c: Card| a.contains(c) == b.contains(c) by {
        to_multiset_contains(a, c);
        to_multiset_contains(b, c);
    }
    if a.no_duplicates() {
        a.lemma_multiset_has_no_duplicates();
        b.lemma_multiset_has_no_duplicates_conv();
    }
}

/// Hands that only grow behind the cards they hold keep their hole cards.
pub proof fn lemma_hole_cards_stay(before: Seq<Seq<Card>>, after: Seq<Seq<Card>>)
    requires
        after.len() == before.len(),
        forall|i: int|
            0 <= i < before.len() ==> (#[trigger] before[i]).len() >= 2 && before[i].is_prefix_of(
                after[i],
            ),
    ensures
        holes(after) == holes(before),
        forall|i: int| 0 <= i < after.len() ==> (#[trigger] after[i]).len() >= 2,
{
    assert forall|i: int| 0 <= i < after.len() implies (#[trigger] after[i]).len() >= 2 by {
        assert(before[i].is_prefix_of(after[i]));
    }
    assert(holes(after) =~= holes(before)) by {
        assert forall|i: int| 0 <= i < before.len() implies #[trigger] after[i].take(2)
            == before[i].take(2) by {
            assert(before[i].is_prefix_of(after[i]));
            assert(after[i].take(2) =~= before[i].take(2));
        }
    }
}

/// A reset keeps a well-formed game well formed and puts every hand at
/// rest.
pub proof fn lemma_reset_keeps_wf(g: GameView)
    requires
        g.wf(),
    ensures
        g.rested().wf(),
        g.rested().ready(),
        g.rested().can_deal() == g.can_deal(),
        g.rested().claimed() == g.claimed(),
{
    let r = g.rested();
    assert(holes(r.hands) =~= holes(g.hands)) by {
        assert forall|i: int| 0 <= i < g.hands.len() implies #[trigger] r.hands[i].take(2)
            == g.hands[i].take(2) by {
            assert(g.hands[i].len() >= 2);
            assert(g.hands[i].take(2).take(2) =~= g.hands[i].take(2));
        }
    }
    assert forall|i: int| 0 <= i < r.hands.len() implies (#[trigger] r.hands[i]).len() == 2 by {
        assert(g.hands[i].len() >= 2);
    }
}

/// A trial from a well-formed game whose pool can complete the board leads
/// to a well-formed game with the same hole cards and the same board, whose
/// pool can complete the board again. Where every hand was at rest before
/// the trial, every hand holds seven cards after it.
pub proof fn lemma_trial_keeps_wf(pre: GameView, post: GameView)
    requires
        pre.wf(),
        pre.can_deal(),
        trial_step(pre, post),
    ensures
        post.wf(),
        post.can_deal(),
        pre.ready() ==> post.dealt(),
        post.claimed() == pre.claimed(),
        post.cursor <= post.pool.len(),
{
    lemma_same_cards(pre.pool, post.pool);
    let start = pre.draw_start();
    let n = pre.needed();
    assert(0 <= start && start + n <= post.pool.len());
    assert(drawn(pre, post).len() == n);
    if pre.ready() {
        assert forall|i: int| 0 <= i < post.hands.len() implies (#[trigger] post.hands[i]).len()
            == 7 by {
            assert(pre.hands[i].len() == 2);
        }
    }
    assert forall|i: int| 0 <= i < pre.hands.len() implies (#[trigger] pre.hands[i]).is_prefix_of(
        post.hands[i],
    ) by {
        assert(post.hands[i] == pre.hands[i] + pre.board + drawn(pre, post));
    }
    lemma_hole_cards_stay(pre.hands, post.hands);
    assert(post.claimed() == pre.claimed());
    lemma_multiset_commutative(pre.claimed(), pre.pool);
    lemma_multiset_commutative(post.claimed(), post.pool);
    lemma_same_cards(pre.in_play(), post.in_play());
}

/// Where two sequences laid end to end have no duplicates, neither has, and
/// they share no element. An element is in the whole exactly when it is in
/// one of the two.
pub proof fn lemma_concat_parts<A>(a: Seq<A>, b: Seq<A>)
    ensures
        (a + b).no_duplicates() ==> a.no_duplicates() && b.no_duplicates() && forall|x: A|
            !(a.contains(x) && b.contains(x)),
        forall|x: A| (a + b).contains(x) <==> a.contains(x) || b.contains(x),
{
    let s = a + b;
    assert forall|x: A| s.contains(x) <==> a.contains(x) || b.contains(x) by {
        if a.contains(x) {
            let i = choose|i: int| 0 <= i < a.len() && a[i] == x;
            assert(s[i] == x);
        }
        if b.contains(x) {
            let j = choose|j: int| 0 <= j < b.len() && b[j] == x;
            assert(s[a.len() + j] == x);
        }
        if s.contains(x) {
            let i = choose|i: int| 0 <= i < s.len() && s[i] == x;
            if i < a.len() {
                assert(a[i] == x);
            } else {
                assert(b[i - a.len()] == x);
            }
        }
    }
    if s.no_duplicates() {
        assert forall|i: int, j: int| 0 <= i < a.len() && 0 <= j < a.len() && i != j implies a[i]
            != a[j] by {
            assert(s[i] == a[i] && s[j] == a[j]);
        }
        assert forall|i: int, j: int| 0 <= i < b.len() && 0 <= j < b.len() && i != j implies b[i]
            != b[j] by {
            assert(s[a.len() + i] == b[i] && s[a.len() + j] == b[j]);
        }
        assert forall|x: A| !(a.contains(x) && b.contains(x)) by {
            if a.contains(x) && b.contains(x) {
                let i = choose|i: int| 0 <= i < a.len() && a[i] == x;
                let j = choose|j: int| 0 <= j < b.len() && b[j] == x;
                assert(s[i] == x && s[a.len() + j] == x);
            }
        }
    }
}

/// A card is among the hands laid end to end exactly when some hand holds
/// it.
pub proof fn lemma_dealt_cards_contains(hands: Seq<Seq<Card>>, c: Card)
    ensures
        dealt_cards(hands).contains(c) <==> exists|i: int|
            0 <= i < hands.len() && (#[trigger] hands[i]).contains(c),
    decreases hands.len(),
{
    if hands.len() > 0 {
        let head = hands.drop_last();
        lemma_dealt_cards_contains(head, c);
        lemma_concat_parts(dealt_cards(head), hands.last());
        if dealt_cards(hands).contains(c) {
            if hands.last().contains(c) {
                assert(hands[hands.len() - 1].contains(c));
            } else {
                let i = choose|i: int| 0 <= i < head.len() && (#[trigger] head[i]).contains(c);
                assert(hands[i].contains(c));
            }
        }
        if exists|i: int| 0 <= i < hands.len() && (#[trigger] hands[i]).contains(c) {
            let i = choose|i: int| 0 <= i < hands.len() && (#[trigger] hands[i]).contains(c);
            if i < head.len() {
                assert(head[i].contains(c));
            }
        }
    }
}

/// In a well-formed game the hole cards, the board and the pool split the
/// deck: none of the three holds a card twice, no card is in two of them,
/// every card is in one of them, and together they hold 52 cards.
pub proof fn lemma_deck_is_split(g: GameView)
    requires
        g.wf(),
    ensures
        dealt_cards(holes(g.hands)).no_duplicates(),
        g.board.no_duplicates(),
        g.pool.no_duplicates(),
        forall|c: Card| !(dealt_cards(holes(g.hands)).contains(c) && g.board.contains(c)),
        forall|c: Card| !(dealt_cards(holes(g.hands)).contains(c) && g.pool.contains(c)),
        forall|c: Card| !(g.board.contains(c) && g.pool.contains(c)),
        forall|c: Card|
            dealt_cards(holes(g.hands)).contains(c) || g.board.contains(c) || g.pool.contains(c),
        dealt_cards(holes(g.hands)).len() + g.board.len() + g.pool.len() == 52,
{
    let hole = dealt_cards(holes(g.hands));
    lemma_concat_parts(g.claimed(), g.pool);
    lemma_concat_parts(hole, g.board);
    assert forall|c: Card| hole.contains(c) || g.board.contains(c) || g.pool.contains(c) by {
        assert(g.in_play().contains(c));
    }
}

/// In a well-formed game each hole card of each hand is a card of its own:
/// it is not on the board, not in the pool, and not a hole card at another
/// place.
pub proof fn lemma_hole_cards_apart(g: GameView, i: int, a: int, j: int, b: int)
    requires
        g.wf(),
        0 <= i < g.hands.len(),
        0 <= j < g.hands.len(),
        0 <= a < 2,
        0 <= b < 2,
    ensures
        !g.board.contains(g.hands[i][a]),
        !g.pool.contains(g.hands[i][a]),
        (i != j || a != b) ==> g.hands[i][a] != g.hands[j][b],
{
    let rows = holes(g.hands);
    let hole = dealt_cards(rows);
    let c = g.hands[i][a];
    lemma_deck_is_split(g);
    assert(g.hands[i].len() >= 2 && g.hands[j].len() >= 2);
    assert(rows[i][a] == c);
    assert(rows[i].contains(c));
    lemma_dealt_cards_contains(rows, c);
    if (i != j || a != b) && g.hands[i][a] == g.hands[j][b] {
        lemma_hole_positions(rows, i, a, j, b);
    }
}

/// Where the hands laid end to end have no duplicates, cards at two
/// different places of the hands differ.
pub proof fn lemma_hole_positions(hands: Seq<Seq<Card>>, i: int, a: int, j: int, b: int)
    requires
        dealt_cards(hands).no_duplicates(),
        0 <= i < hands.len(),
        0 <= j < hands.len(),
        0 <= a < hands[i].len(),
        0 <= b < hands[j].len(),
        i != j || a != b,
    ensures
        hands[i][a] != hands[j][b],
    decreases hands.len(),
{
    let head = hands.drop_last();
    let last = hands.last();
    let n = hands.len() - 1;
    lemma_concat_parts(dealt_cards(head), last);
    if i < n && j < n {
        lemma_hole_positions(head, i, a, j, b);
    } else if i == n && j == n {
        assert(last[a] != last[b]);
    } else if i == n {
        assert(last.contains(hands[i][a]));
        assert(head[j].contains(hands[j][b]));
        lemma_dealt_cards_contains(head, hands[j][b]);
    } else {
        assert(last.contains(hands[j][b]));
        assert(head[i].contains(hands[i][a]));
        lemma_dealt_cards_contains(head, hands[i][a]);
    }
}

/// A reset after a trial gives every hand back the cards it had before the
/// trial.
pub proof fn lemma_reset_undoes_trial(pre: GameView, post: GameView)
    requires
        pre.ready(),
        trial_step(pre, post),
    ensures
        post.rested().hands == pre.hands,
        post.rested().board == pre.board,
        post.rested().pool == post.pool,
        post.rested().cursor == post.cursor,
{
    assert(post.rested().hands =~= pre.hands) by {
        assert forall|i: int| 0 <= i < pre.hands.len() implies #[trigger] post.hands[i].take(2)
            == pre.hands[i] by {
            assert(pre.hands[i].len() == 2);
            assert(post.hands[i].take(2) =~= pre.hands[i]);
        }
    }
}

/// The cards that a trial draws are cards of the pool, each drawn once, and
/// none of them is a hole card or on the board. Unless the pool was shuffled
/// for this trial, none of them was dealt since the last shuffle: they lie
/// behind the cursor.
pub proof fn lemma_draws_fresh_cards(pre: GameView, post: GameView)
    requires
        pre.wf(),
        pre.can_deal(),
        trial_step(pre, post),
    ensures
        drawn(pre, post).len() == pre.needed(),
        drawn(pre, post).no_duplicates(),
        forall|c: Card| drawn(pre, post).contains(c) ==> pre.pool.contains(c),
        forall|c: Card| drawn(pre, post).contains(c) ==> !pre.claimed().contains(c),
        !pre.must_shuffle() ==> forall|c: Card|
            drawn(pre, post).contains(c) ==> !pre.pool.take(pre.cursor as int).contains(c),
{
    lemma_trial_keeps_wf(pre, post);
    lemma_same_cards(pre.pool, post.pool);
    lemma_concat_parts(pre.claimed(), pre.pool);
    lemma_concat_parts(post.claimed(), post.pool);
    let d = drawn(pre, post);
    let start = pre.draw_start();
    assert forall|c: Card| d.contains(c) implies pre.pool.contains(c) && !pre.claimed().contains(
        c,
    ) by {
        let k = choose|k: int| 0 <= k < d.len() && d[k] == c;
        assert(post.pool[start + k] == c);
        assert(post.pool.contains(c));
    }
    if !pre.must_shuffle() {
        assert forall|c: Card| d.contains(c) implies !pre.pool.take(pre.cursor as int).contains(
            c,
        ) by {
            let k = choose|k: int| 0 <= k < d.len() && d[k] == c;
            if pre.pool.take(pre.cursor as int).contains(c) {
                let m = choose|m: int|
                    0 <= m < pre.cursor && pre.pool.take(pre.cursor as int)[m] == c;
                assert(pre.pool[m] == pre.pool[start + k]);
            }
        }
    }
}

/// Every state of a run that starts from a well-formed game at rest, whose
/// pool can complete the board, is well formed, and so is the state from
/// which each of its trials starts.
pub proof fn lemma_run_keeps_wf(start: GameView, after: Seq<GameView>, k: int)
    requires
        start.wf(),
        start.ready(),
        start.can_deal(),
        is_run(start, after),
        0 <= k < after.len(),
    ensures
        before_trial(start, after, k).wf(),
        before_trial(start, after, k).ready(),
        before_trial(start, after, k).can_deal(),
        before_trial(start, after, k).board == start.board,
        after[k].wf(),
        after[k].dealt(),
        after[k].pool.len() == start.pool.len(),
        after[k].board == start.board,
    decreases k,
{
    if k > 0 {
        lemma_run_keeps_wf(start, after, k - 1);
        lemma_reset_keeps_wf(after[k - 1]);
    }
    let pre = before_trial(start, after, k);
    assert(trial_step(pre, after[k]));
    lemma_trial_keeps_wf(pre, after[k]);
    lemma_same_cards(pre.pool, after[k].pool);
}

/// A trial for which the pool is not shuffled leaves the pool in its order
/// and starts to draw at the cursor; the cursor does not move back.
pub proof fn lemma_quiet_trial(pre: GameView, post: GameView)
    requires
        pre.board.len() <= 5,
        !pre.must_shuffle(),
        trial_step(pre, post),
    ensures
        post.pool == pre.pool,
        pre.draw_start() == pre.cursor,
        post.cursor >= pre.cursor,
{
}

/// From trial `i` to a later trial `j` of a run, with no shuffle for any
/// trial after `i` up to `j`, the pool stays in one order and trial `j`
/// starts to draw at or behind the place where trial `i` stopped.
pub proof fn lemma_epoch(start: GameView, after: Seq<GameView>, i: int, j: int)
    requires
        start.wf(),
        start.ready(),
        start.can_deal(),
        is_run(start, after),
        0 <= i < j < after.len(),
        forall|k: int| i < k <= j ==> !(#[trigger] before_trial(start, after, k)).must_shuffle(),
    ensures
        after[j].pool == after[i].pool,
        before_trial(start, after, j).draw_start() >= after[i].cursor,
    decreases j - i,
{
    let pre = before_trial(start, after, j);
    assert(pre.board.len() <= 5) by {
        lemma_run_keeps_wf(start, after, j);
    }
    assert(!pre.must_shuffle());
    assert(trial_step(pre, after[j]));
    lemma_quiet_trial(pre, after[j]);
    if j - 1 > i {
        lemma_epoch(start, after, i, j - 1);
        let earlier = before_trial(start, after, j - 1);
        assert(earlier.board.len() <= 5) by {
            lemma_run_keeps_wf(start, after, j - 1);
        }
        assert(!earlier.must_shuffle());
        assert(trial_step(earlier, after[j - 1]));
        lemma_quiet_trial(earlier, after[j - 1]);
    }
}

/// Between two shuffles no card is dealt twice: two trials of a run, with
/// no shuffle for any trial after the first of them up to the second, draw
/// different cards.
pub proof fn lemma_no_redeal_before_shuffle(start: GameView, after: Seq<GameView>, i: int, j: int)
    requires
        start.wf(),
        start.ready(),
        start.can_deal(),
        is_run(start, after),
        0 <= i < j < after.len(),
        forall|k: int| i < k <= j ==> !(#[trigger] before_trial(start, after, k)).must_shuffle(),
    ensures
        forall|c: Card|
            !(drawn_in(start, after, i).contains(c) && drawn_in(start, after, j).contains(c)),
{
    lemma_epoch(start, after, i, j);
    lemma_run_keeps_wf(start, after, i);
    lemma_run_keeps_wf(start, after, j);
    let first = before_trial(start, after, i);
    let second = before_trial(start, after, j);
    assert(trial_step(first, after[i]));
    assert(trial_step(second, after[j]));
    lemma_trial_keeps_wf(first, after[i]);
    lemma_trial_keeps_wf(second, after[j]);
    lemma_deck_is_split(after[j]);
    let pool = after[j].pool;
    let a = drawn_in(start, after, i);
    let b = drawn_in(start, after, j);
    assert forall|c: Card| !(a.contains(c) && b.contains(c)) by {
        if a.contains(c) && b.contains(c) {
            let m = choose|m: int| 0 <= m < a.len() && a[m] == c;
            let n = choose|n: int| 0 <= n < b.len() && b[n] == c;
            assert(pool[first.draw_start() + m] == c);
            assert(pool[second.draw_start() + n] == c);
        }
    }
}

/// The winner's rank is at least the rank of every hand, the winner is the
/// last of the hands that reach it, and there is one winner only.
pub proof fn lemma_winner(ranks: Seq<Rank>, index: int, rank: Rank, other: int, other_rank: Rank)
    requires
        is_winner(ranks, index, rank),
    ensures
        forall|k: int| 0 <= k < ranks.len() ==> (#[trigger] ranks[k]).at_most(rank),
        forall|k: int| 0 <= k < ranks.len() && #[trigger] ranks[k] == rank ==> k <= index,
        is_winner(ranks, other, other_rank) ==> other == index && other_rank == rank,
{
    assert forall|k: int| 0 <= k < ranks.len() && #[trigger] ranks[k] == rank implies k
        <= index by {
        lemma_rank_order(ranks[k], rank, rank);
    }
    if is_winner(ranks, other, other_rank) {
        lemma_rank_order(rank, other_rank, rank);
        lemma_rank_order(other_rank, rank, other_rank);
        assert(ranks[index].at_most(other_rank));
        assert(ranks[other].at_most(rank));
    }
}

/// In a well-formed game the pool and the board hold the cards that the hole
/// cards leave of the deck. So the pool can complete the board exactly when
/// there are at most 23 hands: 46 hole cards leave six cards, 48 leave four.
pub proof fn lemma_pool_suffices(g: GameView)
    requires
        g.wf(),
    ensures
        g.pool.len() + g.board.len() + 2 * g.hands.len() == 52,
        g.can_deal() <==> g.hands.len() <= 23,
{
    lemma_dealt_cards_len(holes(g.hands));
}

/// A shuffle that leaves hands, board and the cards of the pool as they are
/// and puts the cursor within the pool keeps a well-formed game well formed.
pub proof fn lemma_shuffle_keeps_wf(pre: GameView, post: GameView)
    requires
        pre.wf(),
        post.hands == pre.hands,
        post.board == pre.board,
        post.pool.to_multiset() == pre.pool.to_multiset(),
        post.cursor <= post.pool.len(),
    ensures
        post.wf(),
        post.pool.len() == pre.pool.len(),
{
    lemma_same_cards(pre.pool, post.pool);
    lemma_multiset_commutative(pre.claimed(), pre.pool);
    lemma_multiset_commutative(post.claimed(), post.pool);
    lemma_same_cards(pre.in_play(), post.in_play());
}

/// Where the two hole cards of some hand share a value, the winner of a
/// trial ranks as one pair at least.
pub proof fn lemma_pocket_pair_wins_a_pair(
    pre: GameView,
    post: GameView,
    i: int,
    index: int,
    rank: Rank,
)
    requires
        pre.wf(),
        0 <= i < pre.hands.len(),
        pre.hands[i][0].value == pre.hands[i][1].value,
        trial_step(pre, post),
        is_winner(ranks_of(post.hands), index, rank),
    ensures
        Rank::OnePair(0).at_most(rank),
{
    let a = pre.hands[i][0];
    let b = pre.hands[i][1];
    let hand = post.hands[i];
    lemma_hole_cards_apart(pre, i, 0, i, 1);
    assert(pre.hands[i].len() >= 2);
    assert(hand[0] == a && hand[1] == b);
    lemma_pair_at_least(hand, a, b);
    assert(ranks_of(post.hands)[i] == rank_of(hand));
    lemma_rank_order(Rank::OnePair(0), rank_of(hand), rank);
}

/// Where the two hole cards of some hand and a card of the board share a
/// value, the winner of a trial ranks as three of a kind at least.
pub proof fn lemma_set_wins_three_of_a_kind(
    pre: GameView,
    post: GameView,
    i: int,
    k: int,
    index: int,
    rank: Rank,
)
    requires
        pre.wf(),
        pre.ready(),
        0 <= i < pre.hands.len(),
        0 <= k < pre.board.len(),
        pre.hands[i][0].value == pre.hands[i][1].value,
        pre.hands[i][0].value == pre.board[k].value,
        trial_step(pre, post),
        is_winner(ranks_of(post.hands), index, rank),
    ensures
        Rank::ThreeOfAKind(0).at_most(rank),
{
    let a = pre.hands[i][0];
    let b = pre.hands[i][1];
    let c = pre.board[k];
    let hand = post.hands[i];
    lemma_hole_cards_apart(pre, i, 0, i, 1);
    lemma_hole_cards_apart(pre, i, 1, i, 0);
    assert(pre.board.contains(c));
    assert(pre.hands[i].len() == 2);
    assert(hand[0] == a && hand[1] == b && hand[2 + k] == c);
    lemma_triple_at_least(hand, a, b, c);
    assert(ranks_of(post.hands)[i] == rank_of(hand));
    lemma_rank_order(Rank::ThreeOfAKind(0), rank_of(hand), rank);
}

/// Cards added behind the hole cards of the hands leave a well-formed game
/// well formed.
pub proof fn lemma_longer_hands_keep_wf(pre: GameView, post: GameView, added: Seq<Card>)
    requires
        pre.wf(),
        post.board == pre.board,
        post.pool == pre.pool,
        post.cursor == pre.cursor,
        post.hands.len() == pre.hands.len(),
        forall|i: int| 0 <= i < pre.hands.len() ==> #[trigger] post.hands[i] == pre.hands[i] + added,
    ensures
        post.wf(),
        post.claimed() == pre.claimed(),
{
    assert forall|i: int| 0 <= i < pre.hands.len() implies (#[trigger] pre.hands[i]).is_prefix_of(
        post.hands[i],
    ) by {
        assert(post.hands[i] == pre.hands[i] + added);
    }
    lemma_hole_cards_stay(pre.hands, post.hands);
}

} // verus!
