use poker_equity::card::{Card, Rank, Suit};
use poker_equity::hand::Hand;

fn cards_of(ranks: &[Rank], suits: &[Suit]) -> Vec<Card> {
    ranks.iter().zip(suits.iter()).map(|(rank, suit)| Card::new(*rank, *suit)).collect()
}

#[test]
fn test_new() {
    let cards: Vec<Card> = vec![Rank::Two, Rank::Three, Rank::Four, Rank::Ace]
        .iter()
        .map(|rank| Card::new(*rank, Suit::Hearts))
        .collect();
    let hand = Hand::new(&cards);
    for card in cards {
        assert!(hand.contains_rank(card.rank));
    }
}

#[test]
fn test_flush_makers() {
    for high_rank in (usize::from(Rank::Five)..=usize::from(Rank::Ace)).rev() {
        let hand1 = Hand::from_straight_flush(high_rank.try_into().unwrap());
        let ranks: Vec<Rank> = Rank::ALL_RANKS
            .iter()
            .rev()
            .cycle()
            .skip(usize::from(Rank::Ace) - high_rank)
            .take(5)
            .copied()
            .collect();
        let mut hand2 = Hand::empty();
        for rank in ranks {
            hand2 |= Hand::from_rank_as_flush(rank);
        }
        assert_eq!(hand2, hand1);
    }
}

#[test]
fn test_makers() {
    for hand in Hand::get_hand_combos(5) {
        let mut hand2 = Hand::empty();
        if hand.is_flush() {
            for rank in Rank::ALL_RANKS {
                if hand.is_in_flush(rank) {
                    assert!(hand.count_rank(rank) > 0);
                    hand2 |= Hand::from_rank_as_flush(rank);
                    hand2.add_n_rank(rank, hand.count_rank(rank) - 1);
                } else {
                    hand2.add_n_rank(rank, hand.count_rank(rank));
                }
            }
        } else {
            for rank in Rank::ALL_RANKS {
                assert!(!hand.is_in_flush(rank));
                hand2.add_n_rank(rank, hand.count_rank(rank));
            }
        }
        assert_eq!(hand, hand2);
    }
}

#[test]
fn test_add_and_remove() {
    for hand in Hand::get_hand_combos(5) {
        let mut hand2 = hand.clone();
        for rank in Rank::ALL_RANKS {
            if !hand2.contains_rank(rank) {
                hand2.add_rank(rank);
                hand2.take_rank(rank);
                assert_eq!(hand, hand2);
            }
        }
    }
}

#[test]
fn empty_hand_has_zero_key() {
    let hand = Hand::empty();
    assert_eq!(hand.key(), 0);
    assert!(!hand.is_flush());
    for rank in Rank::ALL_RANKS {
        assert_eq!(hand.count_rank(rank), 0);
        assert!(!hand.contains_rank(rank));
        assert!(!hand.is_in_flush(rank));
    }
    assert_eq!(Hand::new(&Vec::new()), hand);
}

#[test]
fn key_layout_has_three_bits_per_rank() {
    assert_eq!(Hand::from_n_rank(Rank::Two, 1).key(), 1);
    assert_eq!(Hand::from_n_rank(Rank::Two, 4).key(), 4);
    assert_eq!(Hand::from_n_rank(Rank::Three, 1).key(), 8);
    assert_eq!(Hand::from_n_rank(Rank::Ace, 4).key(), 4u64 << 36);
    assert_eq!(Hand::from_n_rank(Rank::King, 0).key(), 0);
    let mut hand = Hand::from_n_rank(Rank::Ace, 3);
    hand.add_n_rank(Rank::King, 2);
    assert_eq!(hand.key(), (3u64 << 36) | (2u64 << 33));
    assert_eq!(hand.count_rank(Rank::Ace), 3);
    assert_eq!(hand.count_rank(Rank::King), 2);
    assert_eq!(hand.count_rank(Rank::Queen), 0);
}

#[test]
fn flush_single_sets_discriminant_marker_and_counter() {
    let hand = Hand::from_rank_as_flush(Rank::Ace);
    assert_eq!(hand.key(), (1u64 << 63) | (1u64 << 62) | (1u64 << 36));
    let hand = Hand::from_rank_as_flush(Rank::Two);
    assert_eq!(hand.key(), (1u64 << 63) | (1u64 << 50) | 1);
    assert!(hand.is_flush());
    assert!(hand.is_in_flush(Rank::Two));
    assert!(!hand.is_in_flush(Rank::Three));
}

#[test]
fn straight_keys_have_exact_bits() {
    assert_eq!(Hand::from_straight(Rank::Five).key(), 0b001001001001 | (1u64 << 36));
    assert_eq!(Hand::from_straight(Rank::Six).key(), 0b001001001001001);
    assert_eq!(Hand::from_straight(Rank::Ace).key(), 0b001001001001001u64 << 24);
    assert_eq!(
        Hand::from_straight_flush(Rank::Five).key(),
        (1u64 << 63) | (0b1111u64 << 50) | (1u64 << 62) | 0b001001001001 | (1u64 << 36)
    );
    assert_eq!(
        Hand::from_straight_flush(Rank::Ace).key(),
        (1u64 << 63) | (0b11111u64 << 58) | (0b001001001001001u64 << 24)
    );
}

#[test]
fn new_matches_the_straight_makers() {
    let ranks = [Rank::Ace, Rank::King, Rank::Queen, Rank::Jack, Rank::Ten];
    let royal = cards_of(&ranks, &[Suit::Spades; 5]);
    assert_eq!(Hand::new(&royal), Hand::from_straight_flush(Rank::Ace));
    let mixed = cards_of(
        &ranks,
        &[Suit::Spades, Suit::Hearts, Suit::Spades, Suit::Spades, Suit::Spades],
    );
    assert_eq!(Hand::new(&mixed), Hand::from_straight(Rank::Ace));
    let wheel = cards_of(
        &[Rank::Ace, Rank::Two, Rank::Three, Rank::Four, Rank::Five],
        &[Suit::Clubs, Suit::Hearts, Suit::Spades, Suit::Spades, Suit::Diamonds],
    );
    assert_eq!(Hand::new(&wheel), Hand::from_straight(Rank::Five));
    let steel_wheel = cards_of(
        &[Rank::Ace, Rank::Two, Rank::Three, Rank::Four, Rank::Five],
        &[Suit::Clubs; 5],
    );
    assert_eq!(Hand::new(&steel_wheel), Hand::from_straight_flush(Rank::Five));
}

#[test]
fn new_ignores_order_and_suit_names() {
    let a = cards_of(
        &[Rank::Ace, Rank::Ace, Rank::Nine, Rank::Four, Rank::Two],
        &[Suit::Clubs, Suit::Hearts, Suit::Spades, Suit::Spades, Suit::Diamonds],
    );
    let b = cards_of(
        &[Rank::Two, Rank::Nine, Rank::Ace, Rank::Four, Rank::Ace],
        &[Suit::Hearts, Suit::Hearts, Suit::Spades, Suit::Clubs, Suit::Diamonds],
    );
    assert_eq!(Hand::new(&a), Hand::new(&b));
    let c = cards_of(
        &[Rank::Two, Rank::Nine, Rank::Ace, Rank::Four, Rank::King],
        &[Suit::Hearts; 5],
    );
    let d = cards_of(
        &[Rank::Two, Rank::Nine, Rank::Ace, Rank::Four, Rank::King],
        &[Suit::Spades; 5],
    );
    assert_eq!(Hand::new(&c), Hand::new(&d));
    let e = cards_of(
        &[Rank::Two, Rank::Nine, Rank::Ace, Rank::Four, Rank::King],
        &[Suit::Spades, Suit::Spades, Suit::Spades, Suit::Spades, Suit::Hearts],
    );
    assert_ne!(Hand::new(&c), Hand::new(&e));
}

#[test]
fn new_marks_only_the_flush_suit_among_seven_cards() {
    let cards = cards_of(
        &[Rank::Ace, Rank::King, Rank::Nine, Rank::Four, Rank::Two, Rank::Ace, Rank::Queen],
        &[
            Suit::Clubs,
            Suit::Clubs,
            Suit::Clubs,
            Suit::Clubs,
            Suit::Clubs,
            Suit::Hearts,
            Suit::Spades,
        ],
    );
    let hand = Hand::new(&cards);
    assert!(hand.is_flush());
    assert_eq!(hand.count_rank(Rank::Ace), 2);
    assert_eq!(hand.count_rank(Rank::Queen), 1);
    assert!(hand.is_in_flush(Rank::Ace));
    assert!(hand.is_in_flush(Rank::Two));
    assert!(!hand.is_in_flush(Rank::Queen));
    assert!(!hand.is_in_flush(Rank::Three));
}

#[test]
fn four_cards_of_a_suit_are_no_flush() {
    let cards = cards_of(
        &[Rank::Ace, Rank::King, Rank::Nine, Rank::Four],
        &[Suit::Clubs; 4],
    );
    let hand = Hand::new(&cards);
    assert!(!hand.is_flush());
    assert_eq!(hand.key(), (1u64 << 36) | (1u64 << 33) | (1u64 << 21) | (1u64 << 6));
}

#[test]
fn union_of_disjoint_keys_is_their_sum() {
    let full = Hand::from_n_rank(Rank::Ace, 3) | Hand::from_n_rank(Rank::King, 2);
    let mut same = Hand::from_n_rank(Rank::Ace, 3);
    same.add_n_rank(Rank::King, 2);
    assert_eq!(full, same);
    assert_eq!(Hand::empty() | full, full);
    let mut assigned = Hand::empty();
    assigned |= full;
    assert_eq!(assigned, full);
}

#[test]
fn add_then_take_restores_the_key() {
    let mut hand = Hand::from_n_rank(Rank::Seven, 3);
    let before = hand;
    hand.add_rank(Rank::Seven);
    assert_eq!(hand.count_rank(Rank::Seven), 4);
    hand.take_rank(Rank::Seven);
    assert_eq!(hand, before);
    let mut flush = Hand::from_rank_as_flush(Rank::Ten);
    let before = flush;
    flush.add_rank(Rank::Two);
    assert_ne!(flush, before);
    assert!(flush.is_in_flush(Rank::Ten));
    flush.take_rank(Rank::Two);
    assert_eq!(flush, before);
}

#[test]
fn hand_combos_come_best_first() {
    let singles = Hand::get_hand_combos(1);
    assert_eq!(singles.len(), 52);
    assert_eq!(singles[0], Hand::from_n_rank(Rank::Ace, 1));
    assert_eq!(singles[3], Hand::from_n_rank(Rank::Ace, 1));
    assert_eq!(singles[4], Hand::from_n_rank(Rank::King, 1));
    assert_eq!(singles[51], Hand::from_n_rank(Rank::Two, 1));
    let pairs = Hand::get_hand_combos(2);
    assert_eq!(pairs.len(), 1326);
    assert_eq!(pairs[0], Hand::from_n_rank(Rank::Ace, 2));
    assert_eq!(pairs[3], Hand::from_n_rank(Rank::Ace, 1) | Hand::from_n_rank(Rank::King, 1));
    assert_eq!(pairs[1325], Hand::from_n_rank(Rank::Two, 2));
    assert_eq!(Hand::get_hand_combos(0), vec![Hand::empty()]);
    assert_eq!(Hand::get_hand_combos(3).len(), 22100);
}

#[test]
fn flush_combos_come_best_first() {
    let flushes = Hand::flush_combos();
    assert_eq!(flushes.len(), 1287);
    assert_eq!(flushes[0], Hand::from_straight_flush(Rank::Ace));
    assert_eq!(flushes[1286], Hand::from_straight_flush(Rank::Six));
    let second = cards_of(
        &[Rank::Ace, Rank::King, Rank::Queen, Rank::Jack, Rank::Nine],
        &[Suit::Diamonds; 5],
    );
    assert_eq!(flushes[1], Hand::new(&second));
}

#[test]
fn keys_are_written_from_the_lowest_rank_up() {
    assert_eq!(Hand::empty().to_text(), "");
    let mut full = Hand::from_n_rank(Rank::Ace, 3);
    full.add_n_rank(Rank::Two, 2);
    assert_eq!(full.to_text(), "[2] [2] [A] [A] [A] ");
    assert_eq!(
        Hand::from_straight_flush(Rank::Five).to_text(),
        "[f2] [f3] [f4] [f5] [fA] "
    );
    let cards = cards_of(
        &[Rank::Ace, Rank::King, Rank::Nine, Rank::Four, Rank::Ten, Rank::Ace],
        &[Suit::Clubs, Suit::Clubs, Suit::Clubs, Suit::Clubs, Suit::Clubs, Suit::Hearts],
    );
    assert_eq!(Hand::new(&cards).to_text(), "[f4] [f9] [f10] [fK] [fA] [fA] ");
}
