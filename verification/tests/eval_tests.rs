use poker_equity::card::Rank::{Ace, Eight, Jack, King, Queen, Seven, Ten, Three, Two, Five, Four};
use poker_equity::card::{Card, Rank, Suit};
use poker_equity::eval::{
    eval_hand_monte_carlo, eval_with_community, eval_with_sample, get_best_score, tally_completions,
};
use poker_equity::hand::Hand;
use poker_equity::table::create_score_table;

#[test]
fn best_score_picks_the_strongest_five() {
    let (scores, _) = create_score_table();
    let pair = (Card::new(Ace, Suit::Hearts), Card::new(King, Suit::Hearts));
    let board = vec![
        Card::new(Queen, Suit::Hearts),
        Card::new(Jack, Suit::Hearts),
        Card::new(Ten, Suit::Hearts),
        Card::new(Ten, Suit::Spades),
        Card::new(Ten, Suit::Clubs),
    ];
    assert_eq!(get_best_score(&pair, &board, &scores), 0);
    let pair = (Card::new(Two, Suit::Diamonds), Card::new(Three, Suit::Diamonds));
    assert_eq!(
        get_best_score(&pair, &board, &scores),
        scores[&Hand::new(&vec![
            Card::new(Ten, Suit::Hearts),
            Card::new(Ten, Suit::Spades),
            Card::new(Ten, Suit::Clubs),
            Card::new(Queen, Suit::Hearts),
            Card::new(Jack, Suit::Hearts),
        ])
        .key()]
    );
    let flop = vec![
        Card::new(Seven, Suit::Hearts),
        Card::new(Five, Suit::Spades),
        Card::new(Four, Suit::Clubs),
    ];
    assert_eq!(get_best_score(&pair, &flop, &scores), 7461);
}

#[test]
fn top_two_pair_on_the_flop() {
    let (scores, _) = create_score_table();
    let pair = (Card::new(Rank::Ace, Suit::Hearts), Card::new(Rank::King, Suit::Hearts));
    let community = vec![
        Card::new(Rank::Ace, Suit::Diamonds),
        Card::new(Rank::King, Suit::Diamonds),
        Card::new(Rank::Four, Suit::Spades),
    ];
    let (win, lose) = eval_with_community(community.clone(), &pair, &scores);
    assert_eq!(win + lose, 1081 * 990);
    assert_eq!((win, lose), eval_with_community(community, &pair, &scores));
    assert_eq!((win, lose), (973_767, 96_423));
}

#[test]
fn low_suited_cards_against_a_high_flop() {
    let (scores, _) = create_score_table();
    let community = vec![
        Card::new(Rank::Ace, Suit::Hearts),
        Card::new(Rank::King, Suit::Hearts),
        Card::new(Rank::Four, Suit::Spades),
    ];
    let my_hand = (Card::new(Rank::Two, Suit::Hearts), Card::new(Rank::Three, Suit::Hearts));
    let (win, lose) = eval_with_community(community, &my_hand, &scores);
    assert_eq!(win + lose, 1081 * 990);
    assert_eq!((win, lose), (538_488, 531_702));
}

#[test]
fn full_board_leaves_only_the_opponents() {
    let (scores, _) = create_score_table();
    let pair = (Card::new(Ace, Suit::Hearts), Card::new(King, Suit::Hearts));
    let royal_board = vec![
        Card::new(Queen, Suit::Hearts),
        Card::new(Jack, Suit::Hearts),
        Card::new(Ten, Suit::Hearts),
        Card::new(Two, Suit::Spades),
        Card::new(Three, Suit::Clubs),
    ];
    assert_eq!(eval_with_community(royal_board, &pair, &scores), (990, 0));
    let board = vec![
        Card::new(Ace, Suit::Spades),
        Card::new(King, Suit::Spades),
        Card::new(Queen, Suit::Spades),
        Card::new(Jack, Suit::Spades),
        Card::new(Ten, Suit::Spades),
    ];
    // the board plays for everyone: every comparison is a tie, and a tie is a loss
    assert_eq!(eval_with_community(board, &pair, &scores), (0, 990));
}

#[test]
fn tally_passes_over_opponents_on_the_board() {
    let (scores, _) = create_score_table();
    let pair = (Card::new(Ace, Suit::Hearts), Card::new(Ace, Suit::Spades));
    let community = vec![
        Card::new(Seven, Suit::Hearts),
        Card::new(Eight, Suit::Spades),
        Card::new(Two, Suit::Clubs),
    ];
    let completions = vec![vec![Card::new(Three, Suit::Clubs), Card::new(Jack, Suit::Diamonds)]];
    let opponents = vec![
        (Card::new(King, Suit::Hearts), Card::new(King, Suit::Spades)),
        (Card::new(Three, Suit::Clubs), Card::new(Three, Suit::Diamonds)),
        (Card::new(Two, Suit::Hearts), Card::new(Two, Suit::Spades)),
        (Card::new(Ace, Suit::Clubs), Card::new(Ace, Suit::Diamonds)),
    ];
    assert_eq!(
        tally_completions(&scores, &pair, &community, &completions, &opponents),
        (1, 2)
    );
    assert_eq!(
        tally_completions(&scores, &pair, &community, &Vec::new(), &opponents),
        (0, 0)
    );
}

#[test]
fn sample_of_given_boards() {
    let (scores, _) = create_score_table();
    let pair = (Card::new(Rank::Ace, Suit::Hearts), Card::new(Rank::King, Suit::Hearts));
    assert_eq!(eval_with_sample(&pair, &Vec::new(), &scores), (0, 0));
    let first = eval_with_sample(&pair, &vec![0], &scores);
    assert_eq!(first.0 + first.1, 990);
    // the first board is 2h 2d 2c 2s 3h: the hero plays the four twos with an ace
    let board = vec![
        Card::new(Rank::Two, Suit::Hearts),
        Card::new(Rank::Two, Suit::Diamonds),
        Card::new(Rank::Two, Suit::Clubs),
        Card::new(Rank::Two, Suit::Spades),
        Card::new(Rank::Three, Suit::Hearts),
    ];
    assert_eq!(first, eval_with_community(board, &pair, &scores));
    let two = eval_with_sample(&pair, &vec![0, 2_118_759], &scores);
    let last = eval_with_sample(&pair, &vec![2_118_759], &scores);
    assert_eq!(two, (first.0 + last.0, first.1 + last.1));
}

#[test]
fn monte_carlo_tallies_every_opponent_on_each_board() {
    let (scores, _) = create_score_table();
    let pair = (Card::new(Rank::Ace, Suit::Hearts), Card::new(Rank::King, Suit::Hearts));
    assert_eq!(eval_hand_monte_carlo(&pair, 0, &scores), Some((0, 0)));
    let (win, lose) = eval_hand_monte_carlo(&pair, 3, &scores).unwrap();
    assert_eq!(win + lose, 3 * 990);
}

#[test]
fn monte_carlo_rejects_more_samples_than_boards() {
    let (scores, _) = create_score_table();
    let pair = (Card::new(Rank::Ace, Suit::Hearts), Card::new(Rank::King, Suit::Hearts));
    assert_eq!(eval_hand_monte_carlo(&pair, 2_118_761, &scores), None);
    assert_eq!(eval_hand_monte_carlo(&pair, usize::MAX, &scores), None);
}
