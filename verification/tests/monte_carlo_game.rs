use std::collections::HashSet;

use holdem_trial::cards::{Card, Hand, Rank, Suit, Value};
use holdem_trial::holdem::monte_carlo_game::best_hand;
use holdem_trial::holdem::{GameError, MonteCarloGame};

fn card(text: &str) -> Card {
    let hand = Hand::new_from_str(text).unwrap();
    assert_eq!(hand.len(), 1);
    hand.get(0)
}

fn hands_of(texts: &[&str]) -> Vec<Hand> {
    texts.iter().map(|s| Hand::new_from_str(s).unwrap()).collect()
}

fn cards_of(text: &str) -> Vec<Card> {
    Hand::new_from_str(text).unwrap().cards().clone()
}

fn pool_of(game: &MonteCarloGame) -> Vec<Card> {
    let deck = game.deck();
    (0..deck.len()).map(|i| deck.get(i)).collect()
}

fn hand_cards(game: &MonteCarloGame, i: usize) -> Vec<Card> {
    game.hands()[i].cards().clone()
}

fn sorted_indices(cards: &[Card]) -> Vec<usize> {
    let mut v: Vec<usize> = cards.iter().map(|c| c.index()).collect();
    v.sort();
    v
}

#[test]
fn test_simulate_pocket_pair() {
    let hands = ["AdAh", "2c2s"]
        .iter()
        .map(|s| Hand::new_from_str(s).unwrap())
        .collect();
    let mut g = MonteCarloGame::new_with_hands(hands).unwrap();
    let result = g.simulate().unwrap();
    assert!(result.1 >= Rank::OnePair(0));
}

#[test]
fn test_simulate_set() {
    let hands: Vec<Hand> = ["6d6h", "3d3h"]
        .iter()
        .map(|s| Hand::new_from_str(s).unwrap())
        .collect();
    let board: Vec<Card> = vec![
        Card {
            value: Value::Six,
            suit: Suit::Spade,
        },
        Card {
            value: Value::King,
            suit: Suit::Diamond,
        },
        Card {
            value: Value::Queen,
            suit: Suit::Heart,
        },
    ];
    let mut g = MonteCarloGame::new_with_board(hands, board).unwrap();
    let result = g.simulate().unwrap();
    assert!(result.1 >= Rank::ThreeOfAKind(4));
}

#[test]
fn fresh_game_splits_the_deck() {
    let g = MonteCarloGame::new_with_board(hands_of(&["6d6h", "3d3h"]), cards_of("6sKdQh")).unwrap();
    let pool = pool_of(&g);
    assert_eq!(pool.len(), 52 - 4 - 3);
    assert_eq!(g.current_offset(), 52);
    let mut all: Vec<Card> = Vec::new();
    for i in 0..g.hands().len() {
        all.extend(hand_cards(&g, i));
    }
    all.extend(g.board().iter().copied());
    all.extend(pool.iter().copied());
    assert_eq!(all.len(), 52);
    let distinct: HashSet<Card> = all.iter().copied().collect();
    assert_eq!(distinct.len(), 52);
}

#[test]
fn fresh_pool_is_in_deck_order() {
    let g = MonteCarloGame::new_with_board(hands_of(&["2s2c"]), cards_of("2h")).unwrap();
    let pool = pool_of(&g);
    assert_eq!(pool.len(), 49);
    assert_eq!(pool[0], card("2d"));
    assert_eq!(pool[1], card("3s"));
    assert_eq!(pool[48], card("Ad"));
    let indices: Vec<usize> = pool.iter().map(|c| c.index()).collect();
    assert_eq!(indices, (3..52).collect::<Vec<usize>>());
}

#[test]
fn hands_only_game_has_no_board() {
    let g = MonteCarloGame::new_with_hands(hands_of(&["AdAh", "2c2s"])).unwrap();
    assert!(g.board().is_empty());
    assert_eq!(g.deck().len(), 48);
    assert_eq!(g.hands().len(), 2);
    assert_eq!(hand_cards(&g, 0), cards_of("AdAh"));
    assert_eq!(hand_cards(&g, 1), cards_of("2c2s"));
}

#[test]
fn duplicate_card_across_hands_is_refused() {
    let r = MonteCarloGame::new_with_hands(hands_of(&["AdAh", "AdKs"]));
    match r {
        Err(GameError::DuplicateCard(c)) => {
            assert_eq!(c, Card { value: Value::Ace, suit: Suit::Diamond });
            assert_eq!(c.text(), "Ad");
        }
        other => panic!("expected a duplicate card, got {:?}", other.map(|_| ())),
    }
}

#[test]
fn duplicate_card_message_names_the_card() {
    let e = MonteCarloGame::new_with_hands(hands_of(&["AdAh", "AdKs"])).unwrap_err();
    assert_eq!(e.message(), "Card Ad was already removed from the deck.");
}

#[test]
fn duplicate_card_within_a_hand_is_refused() {
    let e = MonteCarloGame::new_with_hands(hands_of(&["KsKs"])).unwrap_err();
    assert_eq!(e, GameError::DuplicateCard(card("Ks")));
}

#[test]
fn duplicate_card_between_hand_and_board_is_refused() {
    let e = MonteCarloGame::new_with_board(hands_of(&["AdAh", "2c2s"]), cards_of("3d2cKh")).unwrap_err();
    assert_eq!(e, GameError::DuplicateCard(card("2c")));
}

#[test]
fn duplicate_card_within_the_board_is_refused() {
    let e = MonteCarloGame::new_with_board(hands_of(&["AdAh"]), cards_of("3d4d3d")).unwrap_err();
    assert_eq!(e, GameError::DuplicateCard(card("3d")));
}

#[test]
fn the_earliest_repeat_is_named() {
    let e = MonteCarloGame::new_with_board(hands_of(&["AdAh", "KsAh", "KsQd"]), cards_of("Ad")).unwrap_err();
    assert_eq!(e, GameError::DuplicateCard(card("Ah")));
}

#[test]
fn hand_of_one_card_is_refused() {
    let e = MonteCarloGame::new_with_hands(hands_of(&["AdAh", "Ks"])).unwrap_err();
    assert_eq!(e, GameError::InvalidHandSize);
    assert_eq!(e.message(), "Hand passed in doesn't have 2 cards.");
}

#[test]
fn hand_of_three_cards_is_refused() {
    let e = MonteCarloGame::new_with_board(hands_of(&["AdAhAs"]), cards_of("2c")).unwrap_err();
    assert_eq!(e, GameError::InvalidHandSize);
}

#[test]
fn empty_hand_is_refused() {
    let e = MonteCarloGame::new_with_hands(hands_of(&[""])).unwrap_err();
    assert_eq!(e, GameError::InvalidHandSize);
}

#[test]
fn hand_size_comes_before_the_cards_of_that_hand() {
    let e = MonteCarloGame::new_with_hands(hands_of(&["AdAh", "AdAhKs"])).unwrap_err();
    assert_eq!(e, GameError::InvalidHandSize);
}

#[test]
fn repeat_in_an_earlier_hand_comes_before_a_later_hand_size() {
    let e = MonteCarloGame::new_with_hands(hands_of(&["AdAd", "Ks"])).unwrap_err();
    assert_eq!(e, GameError::DuplicateCard(card("Ad")));
}

#[test]
fn board_of_six_cards_is_refused() {
    let e = MonteCarloGame::new_with_board(hands_of(&["AdAh"]), cards_of("2c3c4c5c6c7c")).unwrap_err();
    assert_eq!(e, GameError::BoardTooLarge);
    assert_eq!(e.message(), "Board passed in has more than 5 cards");
}

#[test]
fn board_size_comes_before_everything_else() {
    let e = MonteCarloGame::new_with_board(hands_of(&["AdAd", "Ks"]), cards_of("2c3c4c5c6c7c8c")).unwrap_err();
    assert_eq!(e, GameError::BoardTooLarge);
}

#[test]
fn board_of_five_cards_is_accepted() {
    let g = MonteCarloGame::new_with_board(hands_of(&["AdAh"]), cards_of("2c3c4c5c6c")).unwrap();
    assert_eq!(g.board().len(), 5);
    assert_eq!(g.deck().len(), 45);
}

#[test]
fn simulate_without_hands_fails() {
    let mut g = MonteCarloGame::new_with_hands(Vec::new()).unwrap();
    assert_eq!(g.deck().len(), 52);
    let e = g.simulate().unwrap_err();
    assert_eq!(e, GameError::NoHands);
    assert_eq!(e.message(), "There are no hands.");
    assert_eq!(g.current_offset(), 52);
    assert_eq!(sorted_indices(&pool_of(&g)), (0..52).collect::<Vec<usize>>());
}

#[test]
fn best_hand_of_no_hands_is_unavailable() {
    let e = best_hand(&Vec::new()).unwrap_err();
    assert_eq!(e, GameError::RankingUnavailable);
    assert_eq!(e.message(), "Unable to determine best rank.");
}

#[test]
fn every_hand_holds_seven_cards_after_a_trial() {
    let mut g = MonteCarloGame::new_with_board(hands_of(&["6d6h", "3d3h", "AsKs"]), cards_of("6sKdQh")).unwrap();
    g.simulate().unwrap();
    let pool = pool_of(&g);
    assert_eq!(g.current_offset(), 2);
    let mut expected_tail = cards_of("6sKdQh");
    expected_tail.extend(pool[0..2].iter().copied());
    for (i, hole) in ["6d6h", "3d3h", "AsKs"].iter().enumerate() {
        let cards = hand_cards(&g, i);
        assert_eq!(cards.len(), 7);
        assert_eq!(cards[0..2].to_vec(), cards_of(hole));
        assert_eq!(cards[2..7].to_vec(), expected_tail);
    }
}

#[test]
fn reset_gives_the_hole_cards_back() {
    let mut g = MonteCarloGame::new_with_hands(hands_of(&["AdAh", "2c2s"])).unwrap();
    g.simulate().unwrap();
    let pool = pool_of(&g);
    let offset = g.current_offset();
    g.reset();
    assert_eq!(hand_cards(&g, 0), cards_of("AdAh"));
    assert_eq!(hand_cards(&g, 1), cards_of("2c2s"));
    assert_eq!(pool_of(&g), pool);
    assert_eq!(g.current_offset(), offset);
    assert!(g.board().is_empty());
}

#[test]
fn reset_of_a_game_at_rest_changes_nothing() {
    let mut g = MonteCarloGame::new_with_hands(hands_of(&["AdAh"])).unwrap();
    let pool = pool_of(&g);
    g.reset();
    assert_eq!(hand_cards(&g, 0), cards_of("AdAh"));
    assert_eq!(pool_of(&g), pool);
    assert_eq!(g.current_offset(), 52);
}

#[test]
fn first_trial_shuffles_the_pool() {
    let mut g = MonteCarloGame::new_with_hands(hands_of(&["AdAh"])).unwrap();
    let before = pool_of(&g);
    g.simulate().unwrap();
    let after = pool_of(&g);
    assert_eq!(g.current_offset(), 5);
    assert_eq!(sorted_indices(&after), sorted_indices(&before));
    assert_ne!(after, before);
}

#[test]
fn winner_rank_is_the_best_rank_and_the_last_hand_wins_a_tie() {
    let mut g = MonteCarloGame::new_with_hands(hands_of(&["AdAh", "2c2s", "KdKh", "7s8s"])).unwrap();
    for _ in 0..200 {
        let (index, rank) = g.simulate().unwrap();
        let ranks: Vec<Rank> = g.hands().iter().map(|h| h.rank()).collect();
        assert_eq!(ranks[index], rank);
        for (i, r) in ranks.iter().enumerate() {
            assert!(*r <= rank);
            if i > index {
                assert!(*r < rank);
            }
        }
        g.reset();
    }
}

#[test]
fn tie_on_a_full_board_goes_to_the_last_hand() {
    let mut g = MonteCarloGame::new_with_board(hands_of(&["2c3d", "4h5s", "2d3c"]), cards_of("AsKsQsJsTs")).unwrap();
    for _ in 0..5 {
        let result = g.simulate().unwrap();
        assert_eq!(result, (2, Rank::StraightFlush(9)));
        assert_eq!(g.current_offset(), 0);
        g.reset();
    }
}

#[test]
fn best_hand_takes_the_last_of_equal_ranks() {
    let hands = hands_of(&["AdKd2c7h9s", "AhKh2d7c9d", "QdJd2h7s9c", "AsKs2s7d9h"]);
    let (index, rank) = best_hand(&hands).unwrap();
    assert_eq!(index, 3);
    assert_eq!(rank, hands[0].rank());
    assert_eq!(rank, Rank::HighCard(4096 + 2048 + 128 + 32 + 1));
}

#[test]
fn best_hand_takes_the_strongest_hand() {
    let hands = hands_of(&["AdKd2c7h9s", "2s2d3c7c9d", "QdJd2h7s9c"]);
    let (index, rank) = best_hand(&hands).unwrap();
    assert_eq!(index, 1);
    assert_eq!(rank, Rank::OnePair(8192 + 128 + 32 + 2));
}

#[test]
fn no_card_is_dealt_twice_before_the_pool_is_shuffled_again() {
    let mut g = MonteCarloGame::new_with_hands(hands_of(&["AdAh"])).unwrap();
    let mut seen: HashSet<Card> = HashSet::new();
    let mut order: Vec<Card> = Vec::new();
    for trial in 0..10 {
        g.simulate().unwrap();
        assert_eq!(g.current_offset(), 5 * (trial + 1));
        if trial == 0 {
            order = pool_of(&g);
        } else {
            assert_eq!(pool_of(&g), order);
        }
        let cards = hand_cards(&g, 0);
        for c in &cards[2..7] {
            assert!(seen.insert(*c), "card {} was dealt twice", c.text());
            assert_ne!(*c, card("Ad"));
            assert_ne!(*c, card("Ah"));
        }
        g.reset();
    }
    assert_eq!(seen.len(), 50);
    // The pool is used up: the next trial shuffles it and starts again.
    g.simulate().unwrap();
    assert_eq!(g.current_offset(), 5);
    assert_eq!(sorted_indices(&pool_of(&g)), sorted_indices(&order));
}

#[test]
fn second_trial_deals_other_cards_than_the_first() {
    let mut g = MonteCarloGame::new_with_hands(hands_of(&["AdAh"])).unwrap();
    g.simulate().unwrap();
    let first: Vec<Card> = hand_cards(&g, 0)[2..7].to_vec();
    g.reset();
    g.simulate().unwrap();
    let second: Vec<Card> = hand_cards(&g, 0)[2..7].to_vec();
    for c in &second {
        assert!(!first.contains(c));
    }
}

#[test]
fn shuffle_check_asks_for_five_cards_whatever_the_board_holds() {
    // One hand and a board of three leave 47 cards, and a trial draws two.
    let mut g = MonteCarloGame::new_with_board(hands_of(&["6d6h"]), cards_of("6sKdQh")).unwrap();
    let mut expected = 0;
    for _ in 0..22 {
        g.simulate().unwrap();
        expected += 2;
        assert_eq!(g.current_offset(), expected);
        g.reset();
    }
    assert_eq!(g.current_offset(), 44);
    // 44 + 5 is more than 47, though three cards are left and two are needed.
    g.simulate().unwrap();
    assert_eq!(g.current_offset(), 2);
}

#[test]
fn shuffle_if_needed_leaves_a_pool_with_cards_to_spare() {
    let mut g = MonteCarloGame::new_with_hands(hands_of(&["AdAh"])).unwrap();
    g.simulate().unwrap();
    g.reset();
    let pool = pool_of(&g);
    g.shuffle_if_needed();
    assert_eq!(g.current_offset(), 5);
    assert_eq!(pool_of(&g), pool);
}

#[test]
fn shuffle_if_needed_shuffles_a_fresh_pool() {
    let mut g = MonteCarloGame::new_with_hands(hands_of(&["AdAh"])).unwrap();
    let pool = pool_of(&g);
    g.shuffle_if_needed();
    assert_eq!(g.current_offset(), 0);
    assert_eq!(sorted_indices(&pool_of(&g)), sorted_indices(&pool));
    assert_ne!(pool_of(&g), pool);
}

#[test]
fn twenty_three_hands_can_still_be_dealt() {
    let texts = [
        "2s2c", "2h2d", "3s3c", "3h3d", "4s4c", "4h4d", "5s5c", "5h5d", "6s6c", "6h6d", "7s7c",
        "7h7d", "8s8c", "8h8d", "9s9c", "9h9d", "TsTc", "ThTd", "JsJc", "JhJd", "QsQc", "QhQd",
        "KsKc",
    ];
    let mut g = MonteCarloGame::new_with_hands(hands_of(&texts)).unwrap();
    assert_eq!(g.deck().len(), 6);
    for _ in 0..3 {
        let (index, _) = g.simulate().unwrap();
        assert!(index < 23);
        assert_eq!(g.current_offset(), 5);
        for h in g.hands() {
            assert_eq!(h.len(), 7);
        }
        g.reset();
    }
}

#[test]
fn full_board_needs_no_card_from_the_pool() {
    let mut g = MonteCarloGame::new_with_board(hands_of(&["AdAh", "KdKh"]), cards_of("2c7d9hJsQc")).unwrap();
    let result = g.simulate().unwrap();
    assert_eq!(result.0, 0);
    assert_eq!(result.1, Rank::OnePair(4096 * 8192 + 1024 + 512 + 128));
    assert_eq!(hand_cards(&g, 0), cards_of("AdAh2c7d9hJsQc"));
    assert_eq!(hand_cards(&g, 1), cards_of("KdKh2c7d9hJsQc"));
}

fn pairs_of_every_value() -> Vec<&'static str> {
    vec![
        "2s2c", "2h2d", "3s3c", "3h3d", "4s4c", "4h4d", "5s5c", "5h5d", "6s6c", "6h6d", "7s7c",
        "7h7d", "8s8c", "8h8d", "9s9c", "9h9d", "TsTc", "ThTd", "JsJc", "JhJd", "QsQc", "QhQd",
        "KsKc", "KhKd", "AsAc", "AhAd",
    ]
}

#[test]
fn twenty_four_hands_leave_too_small_a_pool() {
    let texts = pairs_of_every_value();
    let mut g = MonteCarloGame::new_with_hands(hands_of(&texts[0..24])).unwrap();
    assert_eq!(g.deck().len(), 4);
    let pool = pool_of(&g);
    let e = g.simulate().unwrap_err();
    assert_eq!(e, GameError::PoolTooSmall);
    assert_eq!(e.message(), "Not enough cards are left to complete the board.");
    assert_eq!(pool_of(&g), pool);
    assert_eq!(g.current_offset(), 52);
    for (i, text) in texts[0..24].iter().enumerate() {
        assert_eq!(hand_cards(&g, i), cards_of(text));
    }
    g.reset();
    assert_eq!(g.simulate().unwrap_err(), GameError::PoolTooSmall);
}

#[test]
fn twenty_six_hands_leave_no_pool() {
    let texts = pairs_of_every_value();
    let mut g = MonteCarloGame::new_with_hands(hands_of(&texts)).unwrap();
    assert_eq!(g.deck().len(), 0);
    assert_eq!(g.simulate().unwrap_err(), GameError::PoolTooSmall);
    assert_eq!(g.hands().len(), 26);
    for h in g.hands() {
        assert_eq!(h.len(), 2);
    }
}

#[test]
fn twenty_four_hands_and_a_board_leave_too_small_a_pool() {
    let texts = pairs_of_every_value();
    let mut g = MonteCarloGame::new_with_board(hands_of(&texts[0..24]), cards_of("AsAcAh")).unwrap();
    assert_eq!(g.deck().len(), 1);
    assert_eq!(g.simulate().unwrap_err(), GameError::PoolTooSmall);
    assert_eq!(hand_cards(&g, 0), cards_of("2s2c"));
    assert_eq!(g.board(), &cards_of("AsAcAh"));
}

#[test]
fn no_hands_comes_before_a_small_pool() {
    let mut g = MonteCarloGame::new_with_board(Vec::new(), cards_of("AsAcAh")).unwrap();
    assert_eq!(g.simulate().unwrap_err(), GameError::NoHands);
}
