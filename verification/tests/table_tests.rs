use poker_equity::card::Rank::{Ace, Eight, Five, Four, Jack, King, Nine, Queen, Seven, Six, Ten, Three, Two};
use poker_equity::card::{Card, Rank, Suit};
use poker_equity::hand::Hand;
use poker_equity::table::{
    create_score_table, number_all, score_flush, score_full_house, score_high_card, score_n_of_a_kind,
    score_straight, score_straight_flush, score_two_pair,
};
use std::collections::HashMap;

fn hand_of(ranks: [Rank; 5], suits: [Suit; 5]) -> Hand {
    let cards: Vec<Card> = (0..5).map(|i| Card::new(ranks[i], suits[i])).collect();
    Hand::new(&cards)
}

const MIXED: [Suit; 5] = [Suit::Hearts, Suit::Spades, Suit::Clubs, Suit::Diamonds, Suit::Hearts];

#[test]
fn test_score_table() {
    // confirm that the no. of distinct hands in each category matches
    let mut scores: HashMap<u64, u64> = HashMap::new();
    assert_eq!(score_straight_flush(&mut scores, 0), 10);
    assert_eq!(score_n_of_a_kind(&mut scores, 0, 4), 156);
    assert_eq!(score_full_house(&mut scores, 0), 156);
    assert_eq!(score_flush(&mut scores, 0), 1277);
    assert_eq!(score_straight(&mut scores, 0), 10);
    assert_eq!(score_n_of_a_kind(&mut scores, 0, 3), 858);
    assert_eq!(score_two_pair(&mut scores, 0), 858);
    assert_eq!(score_n_of_a_kind(&mut scores, 0, 2), 2860);
    assert_eq!(score_high_card(&mut scores, 0), 1277);
}

#[test]
fn table_has_7462_dense_scores() {
    let (scores, total) = create_score_table();
    assert_eq!(total, 7462);
    assert_eq!(scores.len(), 7462);
    let mut seen = vec![false; 7462];
    for score in scores.values() {
        assert!(*score < 7462);
        assert!(!seen[*score as usize]);
        seen[*score as usize] = true;
    }
}

#[test]
fn every_five_card_hand_has_a_score() {
    let (scores, _) = create_score_table();
    let hands = Hand::get_hand_combos(5);
    assert_eq!(hands.len(), 2_598_960);
    for hand in hands {
        assert!(scores.contains_key(&hand.key()));
    }
}

#[test]
fn categories_start_at_fixed_scores() {
    let (scores, _) = create_score_table();
    let score = |hand: Hand| scores[&hand.key()];
    assert_eq!(score(Hand::from_straight_flush(Ace)), 0);
    assert_eq!(score(Hand::from_straight_flush(King)), 1);
    assert_eq!(score(Hand::from_straight_flush(Five)), 9);
    assert_eq!(score(hand_of([Ace, Ace, Ace, Ace, King], MIXED)), 10);
    assert_eq!(score(hand_of([Ace, Ace, Ace, Ace, Queen], MIXED)), 11);
    assert_eq!(score(hand_of([King, King, King, King, Ace], MIXED)), 22);
    assert_eq!(score(hand_of([Two, Two, Two, Two, Three], MIXED)), 165);
    assert_eq!(score(hand_of([Ace, Ace, Ace, King, King], MIXED)), 166);
    assert_eq!(score(hand_of([Two, Two, Two, Three, Three], MIXED)), 321);
    assert_eq!(score(hand_of([Ace, King, Queen, Jack, Nine], [Suit::Clubs; 5])), 322);
    assert_eq!(score(hand_of([Seven, Five, Four, Three, Two], [Suit::Clubs; 5])), 1598);
    assert_eq!(score(Hand::from_straight(Ace)), 1599);
    assert_eq!(score(Hand::from_straight(Five)), 1608);
    assert_eq!(score(hand_of([Ace, Ace, Ace, King, Queen], MIXED)), 1609);
    assert_eq!(score(hand_of([Two, Two, Two, Four, Three], MIXED)), 2466);
    assert_eq!(score(hand_of([Ace, Ace, King, King, Queen], MIXED)), 2467);
    assert_eq!(score(hand_of([Three, Three, Two, Two, Four], MIXED)), 3324);
    assert_eq!(score(hand_of([Ace, Ace, King, Queen, Jack], MIXED)), 3325);
    assert_eq!(score(hand_of([Two, Two, Five, Four, Three], MIXED)), 6184);
    assert_eq!(score(hand_of([Ace, King, Queen, Jack, Nine], MIXED)), 6185);
    assert_eq!(score(hand_of([Seven, Five, Four, Three, Two], MIXED)), 7461);
}

#[test]
fn royal_flush_beats_every_four_of_a_kind() {
    let (scores, _) = create_score_table();
    let royal = scores[&Hand::from_straight_flush(Rank::Ace).key()];
    assert_eq!(royal, 0);
    for four in Rank::ALL_RANKS {
        for kicker in Rank::ALL_RANKS {
            if four != kicker {
                let mut hand = Hand::from_n_rank(four, 4);
                hand.add_rank(kicker);
                assert!(royal < scores[&hand.key()]);
            }
        }
    }
}

#[test]
fn wheel_is_the_weakest_straight() {
    let (scores, _) = create_score_table();
    let wheel = scores[&Hand::from_straight(Rank::Five).key()];
    let six_high = scores[&Hand::from_straight(Rank::Six).key()];
    assert!(six_high < wheel);
    assert_eq!(six_high + 1, wheel);
    let best_straight = scores[&Hand::from_straight(Rank::Ace).key()];
    assert!(best_straight <= wheel && wheel < best_straight + 10);
    let best_trips = scores[&hand_of([Rank::Ace, Rank::Ace, Rank::Ace, Rank::King, Rank::Queen], MIXED).key()];
    assert!(wheel < best_trips);
    let steel_wheel = scores[&Hand::from_straight_flush(Rank::Five).key()];
    let six_high_flush = scores[&Hand::from_straight_flush(Rank::Six).key()];
    assert!(six_high_flush < steel_wheel);
    assert!(steel_wheel < 10);
}

#[test]
fn stronger_hands_have_lower_scores() {
    let (scores, _) = create_score_table();
    let score = |hand: Hand| scores[&hand.key()];
    let ladder = [
        hand_of([Ten, Nine, Eight, Seven, Six], [Suit::Hearts; 5]),
        hand_of([Three, Three, Three, Three, Two], MIXED),
        hand_of([Ace, Ace, Ace, Two, Two], MIXED),
        hand_of([King, King, King, Ace, Ace], MIXED),
        hand_of([Ace, Jack, Nine, Five, Three], [Suit::Spades; 5]),
        hand_of([Ace, Jack, Nine, Five, Two], [Suit::Spades; 5]),
        hand_of([Nine, Eight, Seven, Six, Five], MIXED),
        hand_of([Queen, Queen, Queen, Ace, Two], MIXED),
        hand_of([Queen, Queen, Queen, King, Jack], MIXED),
        hand_of([Ace, Ace, Two, Two, Three], MIXED),
        hand_of([King, King, Queen, Queen, Ace], MIXED),
        hand_of([King, King, Queen, Queen, Jack], MIXED),
        hand_of([Ace, Ace, Four, Three, Two], MIXED),
        hand_of([King, King, Ace, Queen, Jack], MIXED),
        hand_of([King, King, Ace, Queen, Ten], MIXED),
        hand_of([Ace, King, Queen, Jack, Nine], MIXED),
        hand_of([Ace, King, Queen, Jack, Eight], MIXED),
        hand_of([King, Queen, Jack, Ten, Eight], MIXED),
    ];
    for pair in ladder.windows(2) {
        assert!(score(pair[0]) < score(pair[1]));
    }
}

#[test]
fn numbering_skips_keys_that_have_a_score() {
    let mut scores: HashMap<u64, u64> = HashMap::new();
    let a = Hand::from_n_rank(Rank::Ace, 2);
    let b = Hand::from_n_rank(Rank::King, 2);
    let c = Hand::from_n_rank(Rank::Queen, 2);
    assert_eq!(number_all(&mut scores, 5, &vec![a, b, a, b]), 7);
    assert_eq!(scores[&a.key()], 5);
    assert_eq!(scores[&b.key()], 6);
    assert_eq!(number_all(&mut scores, 7, &vec![b, c, a]), 8);
    assert_eq!(scores[&b.key()], 6);
    assert_eq!(scores[&c.key()], 7);
    assert_eq!(scores.len(), 3);
    assert_eq!(number_all(&mut scores, 8, &Vec::new()), 8);
}

#[test]
fn stage_on_a_filled_table_adds_nothing() {
    let (mut scores, total) = create_score_table();
    assert_eq!(score_two_pair(&mut scores, total), total);
    assert_eq!(score_high_card(&mut scores, total), total);
    assert_eq!(scores.len(), 7462);
}
