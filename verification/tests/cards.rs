use holdem_trial::cards::deck::{Deck, FlatDeck};
use holdem_trial::cards::evaluate::rank_cards;
use holdem_trial::cards::marks::{count_marks, find_straight, marks_without, row_mask, top_marks};
use holdem_trial::cards::{Card, CardTextError, Hand, Rank, Suit, Value};

fn rank_text(text: &str) -> Rank {
    Hand::new_from_str(text).unwrap().rank()
}

fn row(values: &[usize]) -> Vec<bool> {
    let mut m = vec![false; 13];
    for v in values {
        m[*v] = true;
    }
    m
}

#[test]
fn card_index_round_trip() {
    for i in 0..52 {
        let c = Card::from_index(i);
        assert_eq!(c.index(), i);
        assert_eq!(c.value.index(), i / 4);
        assert_eq!(c.suit.index(), i % 4);
    }
    assert_eq!(Card::new(Value::Two, Suit::Spade).index(), 0);
    assert_eq!(Card::new(Value::Ace, Suit::Diamond).index(), 51);
    assert_eq!(Card::new(Value::Six, Suit::Heart).index(), 18);
}

#[test]
fn value_and_suit_characters() {
    let values = "23456789TJQKA";
    for (i, ch) in values.chars().enumerate() {
        let v = Value::from_char(ch).unwrap();
        assert_eq!(v.index(), i);
        assert_eq!(v.to_char(), ch);
        assert_eq!(Value::from_index(i), v);
        assert_eq!(v.as_str(), ch.to_string());
    }
    assert_eq!(Value::from_char('a'), Some(Value::Ace));
    assert_eq!(Value::from_char('t'), Some(Value::Ten));
    assert_eq!(Value::from_char('1'), None);
    assert_eq!(Value::from_char('d'), None);
    let suits = "schd";
    for (i, ch) in suits.chars().enumerate() {
        let s = Suit::from_char(ch).unwrap();
        assert_eq!(s.index(), i);
        assert_eq!(s.to_char(), ch);
        assert_eq!(Suit::from_index(i), s);
        assert_eq!(s.as_str(), ch.to_string());
    }
    assert_eq!(Suit::from_char('D'), Some(Suit::Diamond));
    assert_eq!(Suit::from_char('x'), None);
}

#[test]
fn card_text_is_value_then_suit() {
    assert_eq!(Card::new(Value::Ace, Suit::Diamond).text(), "Ad");
    assert_eq!(Card::new(Value::Ten, Suit::Spade).text(), "Ts");
    assert_eq!(Card::new(Value::Two, Suit::Club).text(), "2c");
}

#[test]
fn hand_from_text() {
    let h = Hand::new_from_str("AdKh").unwrap();
    assert_eq!(h.len(), 2);
    assert_eq!(h.get(0), Card { value: Value::Ace, suit: Suit::Diamond });
    assert_eq!(h.get(1), Card { value: Value::King, suit: Suit::Heart });
    let lower = Hand::new_from_str("adkH").unwrap();
    assert_eq!(lower.cards(), h.cards());
    assert_eq!(Hand::new_from_str("").unwrap().len(), 0);
}

#[test]
fn hand_from_bad_text() {
    assert_eq!(Hand::new_from_str("Ax").unwrap_err(), CardTextError { position: 1 });
    assert_eq!(Hand::new_from_str("A").unwrap_err(), CardTextError { position: 1 });
    assert_eq!(Hand::new_from_str("1d").unwrap_err(), CardTextError { position: 0 });
    assert_eq!(Hand::new_from_str("AdKhQ").unwrap_err(), CardTextError { position: 5 });
    assert_eq!(Hand::new_from_str("AdKhdQ").unwrap_err(), CardTextError { position: 4 });
    assert_eq!(Hand::new_from_str("Ad Kh").unwrap_err(), CardTextError { position: 2 });
}

#[test]
fn hand_push_and_truncate() {
    let mut h = Hand::new_with_cards(vec![Card::from_index(0), Card::from_index(1)]);
    h.push(Card::from_index(2));
    h.push(Card::from_index(3));
    assert_eq!(h.len(), 4);
    assert_eq!(h.get(3), Card::from_index(3));
    h.truncate(6);
    assert_eq!(h.len(), 4);
    h.truncate(2);
    assert_eq!(h.cards(), &vec![Card::from_index(0), Card::from_index(1)]);
}

#[test]
fn deck_remove_and_flatten() {
    let mut d = Deck::new();
    assert_eq!(d.len(), 52);
    let ace = Card::new(Value::Ace, Suit::Diamond);
    assert!(d.contains(ace));
    assert!(d.remove(ace));
    assert!(!d.contains(ace));
    assert!(!d.remove(ace));
    assert_eq!(d.len(), 51);
    assert!(d.remove(Card::from_index(0)));
    let flat = d.flatten();
    assert_eq!(flat.len(), 50);
    for i in 0..50 {
        assert_eq!(flat.get(i), Card::from_index(i + 1));
    }
}

#[test]
fn flat_deck_shuffle_keeps_the_cards() {
    let cards: Vec<Card> = (0..52).map(Card::from_index).collect();
    let mut flat = FlatDeck::new(cards.clone());
    flat.shuffle();
    assert_eq!(flat.len(), 52);
    let after: Vec<Card> = (0..52).map(|i| flat.get(i)).collect();
    let mut indices: Vec<usize> = after.iter().map(|c| c.index()).collect();
    indices.sort();
    assert_eq!(indices, (0..52).collect::<Vec<usize>>());
    assert_ne!(after, cards);
}

#[test]
fn rank_order_matches_comparison() {
    let ranks = [
        Rank::HighCard(0),
        Rank::HighCard(4552),
        Rank::OnePair(0),
        Rank::OnePair(9),
        Rank::TwoPair(3),
        Rank::ThreeOfAKind(4),
        Rank::Straight(0),
        Rank::Straight(9),
        Rank::Flush(31),
        Rank::FullHouse(8193),
        Rank::FourOfAKind(1),
        Rank::StraightFlush(0),
        Rank::StraightFlush(9),
    ];
    for (i, a) in ranks.iter().enumerate() {
        assert_eq!(a.class() as usize, match a {
            Rank::HighCard(_) => 0,
            Rank::OnePair(_) => 1,
            Rank::TwoPair(_) => 2,
            Rank::ThreeOfAKind(_) => 3,
            Rank::Straight(_) => 4,
            Rank::Flush(_) => 5,
            Rank::FullHouse(_) => 6,
            Rank::FourOfAKind(_) => 7,
            Rank::StraightFlush(_) => 8,
        });
        for (j, b) in ranks.iter().enumerate() {
            assert_eq!(a.beats_or_ties(b), a >= b);
            assert_eq!(a.beats_or_ties(b), i >= j);
        }
    }
    assert_eq!(Rank::Flush(31).value(), 31);
}

#[test]
fn rows_of_marks() {
    let m = row(&[0, 3, 7, 11, 12]);
    assert_eq!(count_marks(&m), 5);
    assert_eq!(row_mask(&m), 1 + 8 + 128 + 2048 + 4096);
    assert_eq!(top_marks(&m, 2), row(&[11, 12]));
    assert_eq!(top_marks(&m, 0), row(&[]));
    assert_eq!(top_marks(&m, 9), m);
    assert_eq!(marks_without(&m, &row(&[3, 12, 5])), row(&[0, 7, 11]));
    assert_eq!(row_mask(&row(&[])), 0);
    assert_eq!(row_mask(&vec![true; 13]), 8191);
    assert_eq!(count_marks(&vec![true; 13]), 13);
}

#[test]
fn straights_in_rows() {
    assert_eq!(find_straight(&row(&[8, 9, 10, 11, 12])), Some(9));
    assert_eq!(find_straight(&row(&[0, 1, 2, 3, 4])), Some(1));
    assert_eq!(find_straight(&row(&[0, 1, 2, 3, 12])), Some(0));
    assert_eq!(find_straight(&row(&[0, 1, 2, 3, 4, 12])), Some(1));
    assert_eq!(find_straight(&row(&[2, 3, 4, 5, 6, 7, 8])), Some(5));
    assert_eq!(find_straight(&row(&[0, 1, 2, 4, 5, 6, 8])), None);
    assert_eq!(find_straight(&row(&[9, 10, 11, 12, 0])), None);
    assert_eq!(find_straight(&row(&[])), None);
}

#[test]
fn rank_straight_flush() {
    assert_eq!(rank_text("AdKdQdJdTd"), Rank::StraightFlush(9));
    assert_eq!(rank_text("Ah2h3h4h5h"), Rank::StraightFlush(0));
    assert_eq!(rank_text("9c8c7c6c5cAdAh"), Rank::StraightFlush(4));
}

#[test]
fn rank_four_of_a_kind() {
    assert_eq!(rank_text("AdAhAsAcKd"), Rank::FourOfAKind(4096 * 8192 + 2048));
    assert_eq!(rank_text("2d2h2s2c3d3h3s"), Rank::FourOfAKind(8192 + 2));
}

#[test]
fn rank_full_house() {
    assert_eq!(rank_text("AdAhAsKcKd"), Rank::FullHouse(4096 * 8192 + 2048));
    assert_eq!(rank_text("AdAhAsKcKdKh2c"), Rank::FullHouse(4096 * 8192 + 2048));
    assert_eq!(rank_text("2d2h2sKcKd3h3c"), Rank::FullHouse(8192 + 2048));
}

#[test]
fn rank_flush() {
    assert_eq!(rank_text("AdKd9d5d2d"), Rank::Flush(4096 + 2048 + 128 + 8 + 1));
    assert_eq!(rank_text("AdKd9d5d2d3d"), Rank::Flush(4096 + 2048 + 128 + 8 + 2));
    assert_eq!(rank_text("AdKd9d5d2dAhAs"), Rank::Flush(4096 + 2048 + 128 + 8 + 1));
}

#[test]
fn rank_straight() {
    assert_eq!(rank_text("Ad2c3h4s5d"), Rank::Straight(0));
    assert_eq!(rank_text("2c3d4h5s6d"), Rank::Straight(1));
    assert_eq!(rank_text("AdKcQhJsTd"), Rank::Straight(9));
    assert_eq!(rank_text("AdKcQhJsTdTcTh"), Rank::Straight(9));
}

#[test]
fn rank_three_of_a_kind() {
    assert_eq!(rank_text("AdAhAs2c3d"), Rank::ThreeOfAKind(4096 * 8192 + 3));
    assert_eq!(rank_text("6d6h6sKdQh2c9s"), Rank::ThreeOfAKind(16 * 8192 + 2048 + 1024));
}

#[test]
fn rank_two_pair() {
    assert_eq!(rank_text("AdAhKsKc2d"), Rank::TwoPair(6144 * 8192 + 1));
    assert_eq!(rank_text("AdAhKsKcQdQh2c"), Rank::TwoPair(6144 * 8192 + 1024));
}

#[test]
fn rank_one_pair() {
    assert_eq!(rank_text("AdAh2c3c4d"), Rank::OnePair(4096 * 8192 + 7));
    assert_eq!(rank_text("AdAh"), Rank::OnePair(4096 * 8192));
    assert_eq!(rank_text("2c2s9dJhKs4d7c"), Rank::OnePair(8192 + 2048 + 512 + 128));
}

#[test]
fn rank_high_card() {
    assert_eq!(rank_text("Ad8h9cTc5c"), Rank::HighCard(4096 + 64 + 128 + 256 + 8));
    assert_eq!(rank_text("Ad8h9cTc5c2d3h"), Rank::HighCard(4096 + 64 + 128 + 256 + 8));
    assert_eq!(rank_text(""), Rank::HighCard(0));
    assert_eq!(rank_text("7d"), Rank::HighCard(32));
}

#[test]
fn rank_counts_a_repeated_card_once() {
    assert_eq!(rank_text("AdAdKs"), rank_text("AdKs"));
    assert_eq!(rank_cards(&vec![Card::from_index(51), Card::from_index(51)]), Rank::HighCard(4096));
}

#[test]
fn pocket_pair_never_ranks_below_a_pair() {
    let hole = [Card::from_index(48), Card::from_index(51)];
    for a in 0..48 {
        for b in (a + 1)..48 {
            let cards = vec![hole[0], hole[1], Card::from_index(a), Card::from_index(b), Card::from_index((a + b) % 48)];
            assert!(rank_cards(&cards) >= Rank::OnePair(0));
        }
    }
}

#[test]
fn three_of_a_value_never_rank_below_three_of_a_kind() {
    let held = [Card::from_index(16), Card::from_index(17), Card::from_index(18)];
    for a in 20..52 {
        for b in (a + 1)..52 {
            let cards = vec![held[0], Card::from_index(a), held[1], Card::from_index(b), held[2]];
            assert!(rank_cards(&cards) >= Rank::ThreeOfAKind(4));
        }
    }
}
