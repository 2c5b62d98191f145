use poker_equity::card::{Card, Rank, Suit};

#[test]
fn rank_index_round_trip() {
    for i in 0..13usize {
        let rank = Rank::try_from(i).unwrap();
        assert_eq!(usize::from(rank), i);
        assert_eq!(Rank::ALL_RANKS[i], rank);
    }
    assert_eq!(usize::from(Rank::Two), 0);
    assert_eq!(usize::from(Rank::Five), 3);
    assert_eq!(usize::from(Rank::Ace), 12);
}

#[test]
fn rank_index_out_of_range_fails() {
    assert_eq!(Rank::try_from(13usize), Err("Invalid rank value"));
    assert_eq!(Rank::try_from(usize::MAX), Err("Invalid rank value"));
}

#[test]
fn suit_index_round_trip() {
    for i in 0..4usize {
        let suit = Suit::try_from(i).unwrap();
        assert_eq!(usize::from(suit), i);
        assert_eq!(Suit::ALL_SUITS[i], suit);
    }
    assert_eq!(usize::from(Suit::Hearts), 0);
    assert_eq!(usize::from(Suit::Spades), 3);
}

#[test]
fn suit_index_out_of_range_fails() {
    assert_eq!(Suit::try_from(4usize), Err("Invalid suit value"));
}

#[test]
fn card_index_round_trip() {
    for i in 0..52usize {
        let card = Card::try_from(i).unwrap();
        assert_eq!(usize::from(card), i);
        assert_eq!(usize::from(card.rank), i / 4);
        assert_eq!(usize::from(card.suit), i % 4);
    }
    assert_eq!(usize::from(Card::new(Rank::Two, Suit::Hearts)), 0);
    assert_eq!(usize::from(Card::new(Rank::Three, Suit::Diamonds)), 5);
    assert_eq!(usize::from(Card::new(Rank::Ace, Suit::Spades)), 51);
}

#[test]
fn card_index_out_of_range_fails() {
    assert_eq!(Card::try_from(52usize), Err("Invalid card value"));
    assert_eq!(Card::try_from(usize::MAX), Err("Invalid card value"));
}

#[test]
fn deck_is_ordered_by_rank_then_suit() {
    let deck = Card::get_deck();
    assert_eq!(deck.len(), 52);
    assert_eq!(deck[0], Card::new(Rank::Two, Suit::Hearts));
    assert_eq!(deck[1], Card::new(Rank::Two, Suit::Diamonds));
    assert_eq!(deck[4], Card::new(Rank::Three, Suit::Hearts));
    assert_eq!(deck[51], Card::new(Rank::Ace, Suit::Spades));
    for i in 0..52 {
        assert_eq!(usize::from(deck[i]), i);
        if i > 0 {
            assert!(deck[i - 1] < deck[i]);
        }
    }
}

#[test]
fn cards_are_written_rank_then_suit() {
    assert_eq!(Rank::Two.symbol(), "2");
    assert_eq!(Rank::Ten.symbol(), "10");
    assert_eq!(Rank::Jack.symbol(), "J");
    assert_eq!(Rank::Queen.symbol(), "Q");
    assert_eq!(Rank::King.symbol(), "K");
    assert_eq!(Rank::Ace.symbol(), "A");
    assert_eq!(Suit::Hearts.symbol(), "♥");
    assert_eq!(Suit::Diamonds.symbol(), "♦");
    assert_eq!(Suit::Clubs.symbol(), "♣");
    assert_eq!(Suit::Spades.symbol(), "♠");
    assert_eq!(Card::new(Rank::Ten, Suit::Spades).to_text(), "10♠");
    assert_eq!(Card::new(Rank::Ace, Suit::Hearts).to_text(), "A♥");
}
