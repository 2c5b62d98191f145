//! Heads-up equity: the best score of a holding, and the tally of wins and losses of
//! a pair of hole cards over board completions and opponent holdings.

use crate::card::{Card, lemma_deck_complete};
use crate::combos::{
    binomial, combinations, combinations_of, lemma_binomial_increasing, lemma_binomial_small,
    lemma_combination_members, lemma_combinations_len, pair_combinations,
};
use crate::hand::Hand;
use crate::table::complete;
use rand::seq::IteratorRandom;
use std::collections::HashMap;
use vstd::prelude::*;
use vstd::set_lib::lemma_len_subset;

verus! {

broadcast use vstd::std_specs::hash::group_hash_axioms;

/// The least of the values, or the greatest score there is where there are none.
pub open spec fn least(values: Seq<u64>) -> u64
    decreases values.len(),
{
    if values.len() == 0 {
        u64::MAX
    } else {
        let rest = least(values.drop_last());
        if values.last() < rest {
            values.last()
        } else {
            rest
        }
    }
}

/// The cards that a player can use: the board, then the two hole cards.
pub open spec fn holding(pair: (Card, Card), board: Seq<Card>) -> Seq<Card> {
    board.push(pair.0).push(pair.1)
}

/// The score of each choice of five of the cards.
pub open spec fn combo_scores(scores: Map<u64, u64>, cards: Seq<Card>) -> Seq<u64> {
    combinations_of(cards, 5).map_values(|c: Seq<Card>| scores[Hand::encode(c.to_set())@])
}

/// The best score that a player reaches with five of the hole cards and the board.
pub open spec fn best_score(scores: Map<u64, u64>, pair: (Card, Card), board: Seq<Card>) -> u64 {
    least(combo_scores(scores, holding(pair, board)))
}

/// A board of three cards or more, beside two hole cards, with no card twice.
pub open spec fn playable(pair: (Card, Card), board: Seq<Card>) -> bool {
    board.len() >= 3 && holding(pair, board).no_duplicates()
}

/// Whether one of the two hole cards is among the cards dealt to the board.
pub open spec fn dealt(completion: Seq<Card>, pair: (Card, Card)) -> bool {
    completion.contains(pair.0) || completion.contains(pair.1)
}

/// Wins and losses of `hero` on one board against each of the opponents that hold
/// none of the cards `completion`. The hero wins with the strictly lower best score
/// and loses otherwise.
pub open spec fn tally_board(
    scores: Map<u64, u64>,
    hero: (Card, Card),
    board: Seq<Card>,
    completion: Seq<Card>,
    opponents: Seq<(Card, Card)>,
) -> (nat, nat)
    decreases opponents.len(),
{
    if opponents.len() == 0 {
        (0, 0)
    } else {
        let rest = tally_board(scores, hero, board, completion, opponents.drop_last());
        let villain = opponents.last();
        if dealt(completion, villain) {
            rest
        } else if best_score(scores, hero, board) < best_score(scores, villain, board) {
            (rest.0 + 1, rest.1)
        } else {
            (rest.0, rest.1 + 1)
        }
    }
}

/// Wins and losses of `hero` summed over the boards that each of the completions
/// makes of the community cards.
pub open spec fn tally_boards(
    scores: Map<u64, u64>,
    hero: (Card, Card),
    community: Seq<Card>,
    completions: Seq<Seq<Card>>,
    opponents: Seq<(Card, Card)>,
) -> (nat, nat)
    decreases completions.len(),
{
    if completions.len() == 0 {
        (0, 0)
    } else {
        let rest = tally_boards(scores, hero, community, completions.drop_last(), opponents);
        let last = tally_board(
            scores,
            hero,
            community + completions.last(),
            completions.last(),
            opponents,
        );
        (rest.0 + last.0, rest.1 + last.1)
    }
}

/// The card is none of `used`.
pub open spec fn unused(used: Seq<Card>) -> spec_fn(Card) -> bool {
    |card: Card| !used.contains(card)
}

/// The deck without the cards `used`, in the order of the deck.
pub open spec fn remaining_deck(used: Seq<Card>) -> Seq<Card> {
    Card::deck().filter(unused(used))
}

/// The pairs of the items, in the order of their combinations.
pub open spec fn pairs_of(items: Seq<Card>) -> Seq<(Card, Card)> {
    combinations_of(items, 2).map_values(|c: Seq<Card>| (c[0], c[1]))
}

/// The cards of each vector.
pub open spec fn boards_of(completions: Seq<Vec<Card>>) -> Seq<Seq<Card>> {
    completions.map_values(|c: Vec<Card>| c@)
}

/// Wins and losses of `hero` over every completion of the community cards to a board
/// of five and every opponent holding from the cards that are left.
pub open spec fn exhaustive_tally(scores: Map<u64, u64>, hero: (Card, Card), community: Seq<Card>) -> (
    nat,
    nat,
) {
    let rest = remaining_deck(holding(hero, community));
    tally_boards(
        scores,
        hero,
        community,
        combinations_of(rest, (5 - community.len()) as nat),
        pairs_of(rest),
    )
}

/// The boards of five that the picks choose among all boards without the hero's cards.
pub open spec fn sampled_boards(hero: (Card, Card), picks: Seq<usize>) -> Seq<Seq<Card>> {
    picks.map_values(
        |i: usize| combinations_of(remaining_deck(holding(hero, Seq::empty())), 5)[i as int],
    )
}

/// Wins and losses of `hero` over the picked boards and every opponent holding.
pub open spec fn sampled_tally(scores: Map<u64, u64>, hero: (Card, Card), picks: Seq<usize>) -> (
    nat,
    nat,
) {
    tally_boards(
        scores,
        hero,
        Seq::empty(),
        sampled_boards(hero, picks),
        pairs_of(remaining_deck(holding(hero, Seq::empty()))),
    )
}

/// What `amount` picks among `total` boards can be: that many different positions.
pub open spec fn is_sample(picks: Seq<usize>, total: nat, amount: nat) -> bool {
    &&& picks.len() == amount
    &&& picks.no_duplicates()
    &&& forall|i: int| 0 <= i < picks.len() ==> picks[i] < total
}

/// Distinct cards are at most as many as the deck holds.
pub proof fn lemma_distinct_cards_len(cards: Seq<Card>)
    requires
        cards.no_duplicates(),
    ensures
        cards.len() <= 52,
{
    cards.unique_seq_to_set();
    lemma_deck_complete(Card::at(0));
    Card::deck().unique_seq_to_set();
    assert(cards.to_set().subset_of(Card::deck().to_set())) by {
        assert forall|c: Card| cards.to_set().contains(c) implies Card::deck().to_set().contains(c) by {
            lemma_deck_complete(c);
        }
    }
    lemma_len_subset(cards.to_set(), Card::deck().to_set());
}

/// Filtering keeps the items that pass, each once where the sequence held it once.
pub proof fn lemma_filter_distinct<A>(s: Seq<A>, pred: spec_fn(A) -> bool)
    ensures
        forall|x: A| #[trigger] s.filter(pred).contains(x) <==> s.contains(x) && pred(x),
        s.no_duplicates() ==> s.filter(pred).no_duplicates(),
        s.filter(pred).len() <= s.len(),
    decreases s.len(),
{
    reveal(Seq::filter);
    if s.len() > 0 {
        let rest = s.drop_last();
        let last = s.last();
        lemma_filter_distinct(rest, pred);
        assert forall|x: A| #[trigger] s.filter(pred).contains(x) <==> s.contains(x) && pred(x) by {
            if s.filter(pred).contains(x) {
                let i = choose|i: int| 0 <= i < s.filter(pred).len() && s.filter(pred)[i] == x;
                if pred(last) && i == rest.filter(pred).len() {
                    assert(s[s.len() - 1] == x);
                } else {
                    assert(rest.filter(pred)[i] == x);
                    assert(rest.filter(pred).contains(x));
                    let j = choose|j: int| 0 <= j < rest.len() && rest[j] == x;
                    assert(s[j] == x);
                }
            }
            if s.contains(x) && pred(x) {
                let j = choose|j: int| 0 <= j < s.len() && s[j] == x;
                if j == s.len() - 1 {
                    assert(s.filter(pred)[rest.filter(pred).len() as int] == x);
                } else {
                    assert(rest[j] == x);
                    assert(rest.filter(pred).contains(x));
                    let i = choose|i: int| 0 <= i < rest.filter(pred).len() && rest.filter(pred)[i] == x;
                    assert(s.filter(pred)[i] == x);
                }
            }
        }
        if s.no_duplicates() {
            assert(rest.no_duplicates());
            if pred(last) {
                assert(!rest.contains(last)) by {
                    if rest.contains(last) {
                        let j = choose|j: int| 0 <= j < rest.len() && rest[j] == last;
                        assert(s[j] == s[s.len() - 1]);
                    }
                }
                assert(!rest.filter(pred).contains(last));
            }
        }
    }
}

/// Two hole cards and a board hold no card twice exactly when the board holds none
/// twice and the hole cards are two cards that are not on it.
pub proof fn lemma_holding_distinct(pair: (Card, Card), board: Seq<Card>)
    ensures
        holding(pair, board).no_duplicates() <==> board.no_duplicates() && pair.0 != pair.1
            && !board.contains(pair.0) && !board.contains(pair.1),
{
    let all = holding(pair, board);
    let n = board.len() as int;
    assert(all[n] == pair.0 && all[n + 1] == pair.1);
    if all.no_duplicates() {
        assert forall|i: int, j: int| 0 <= i < n && 0 <= j < n && i != j implies board[i] != board[j] by {
            assert(all[i] == board[i] && all[j] == board[j]);
        }
        if board.contains(pair.0) {
            let i = choose|i: int| 0 <= i < n && board[i] == pair.0;
            assert(all[i] == all[n]);
        }
        if board.contains(pair.1) {
            let i = choose|i: int| 0 <= i < n && board[i] == pair.1;
            assert(all[i] == all[n + 1]);
        }
    }
    if board.no_duplicates() && pair.0 != pair.1 && !board.contains(pair.0) && !board.contains(pair.1) {
        assert forall|i: int, j: int| 0 <= i < n + 2 && 0 <= j < n + 2 && i != j implies all[i]
            != all[j] by {
            if i < n {
                assert(all[i] == board[i] && board.contains(board[i]));
            }
            if j < n {
                assert(all[j] == board[j] && board.contains(board[j]));
            }
        }
    }
}

/// The least of the values at hand is one of them and none is below it.
pub proof fn lemma_least(values: Seq<u64>)
    ensures
        forall|i: int| 0 <= i < values.len() ==> least(values) <= #[trigger] values[i],
        values.len() > 0 ==> values.contains(least(values)),
    decreases values.len(),
{
    if values.len() > 0 {
        let rest = values.drop_last();
        lemma_least(rest);
        assert forall|i: int| 0 <= i < values.len() implies least(values) <= #[trigger] values[i] by {
            if i < values.len() - 1 {
                assert(rest[i] == values[i]);
            }
        }
        if values.last() < least(rest) || rest.len() == 0 {
            assert(values[values.len() - 1] == values.last());
            if !(values.last() < least(rest)) {
                assert(least(rest) == u64::MAX);
                assert(values.last() == u64::MAX);
            }
        } else {
            let i = choose|i: int| 0 <= i < rest.len() && rest[i] == least(rest);
            assert(values[i] == least(rest));
        }
    }
}

fn holds(cards: &Vec<Card>, card: Card) -> (found: bool)
    ensures
        found == cards@.contains(card),
{
    let mut i: usize = 0;
    while i < cards.len()
        invariant
            i <= cards.len(),
            forall|j: int| 0 <= j < i ==> cards@[j] != card,
        decreases cards.len() - i,
    {
        if cards[i] == card {
            return true;
        }
        i = i + 1;
    }
    false
}

fn held_cards(pair: &(Card, Card), board: &Vec<Card>) -> (cards: Vec<Card>)
    ensures
        cards@ == holding(*pair, board@),
{
    let mut cards: Vec<Card> = Vec::new();
    let mut i: usize = 0;
    while i < board.len()
        invariant
            i <= board.len(),
            cards@ == board@.take(i as int),
        decreases board.len() - i,
    {
        cards.push(board[i]);
        assert(cards@ == board@.take(i + 1));
        i = i + 1;
    }
    assert(board@.take(board.len() as int) =~= board@);
    cards.push(pair.0);
    cards.push(pair.1);
    cards
}

fn join(community: &Vec<Card>, completion: &Vec<Card>) -> (board: Vec<Card>)
    ensures
        board@ == community@ + completion@,
{
    let mut board: Vec<Card> = Vec::new();
    let mut i: usize = 0;
    while i < community.len()
        invariant
            i <= community.len(),
            board@ == community@.take(i as int),
        decreases community.len() - i,
    {
        board.push(community[i]);
        assert(board@ == community@.take(i + 1));
        i = i + 1;
    }
    assert(community@.take(community.len() as int) =~= community@);
    let mut j: usize = 0;
    while j < completion.len()
        invariant
            j <= completion.len(),
            board@ == community@ + completion@.take(j as int),
        decreases completion.len() - j,
    {
        board.push(completion[j]);
        assert(board@ == community@ + completion@.take(j + 1));
        j = j + 1;
    }
    assert(completion@.take(completion.len() as int) =~= completion@);
    board
}

fn deck_without(used: &Vec<Card>) -> (rest: Vec<Card>)
    ensures
        rest@ == remaining_deck(used@),
{
    let deck = Card::get_deck();
    let mut rest: Vec<Card> = Vec::new();
    let mut i: usize = 0;
    assert(deck@.len() == 52);
    proof {
        reveal(Seq::filter);
    }
    while i < 52
        invariant
            i <= 52,
            deck@ == Card::deck(),
            rest@ == deck@.take(i as int).filter(unused(used@)),
        decreases 52 - i,
    {
        proof {
            reveal(Seq::filter);
            assert(deck@.take(i + 1).drop_last() =~= deck@.take(i as int));
        }
        if !holds(used, deck[i]) {
            rest.push(deck[i]);
        }
        i = i + 1;
    }
    assert(deck@.take(52) =~= deck@);
    rest
}

/// The best score among all choices of five of the hole cards and the board.
pub fn get_best_score(pair: &(Card, Card), community: &Vec<Card>, scores: &HashMap<u64, u64>) -> (best: u64)
    requires
        playable(*pair, community@),
        complete(scores@),
    ensures
        best == best_score(scores@, *pair, community@),
        combo_scores(scores@, holding(*pair, community@)).contains(best),
        forall|i: int|
            0 <= i < combo_scores(scores@, holding(*pair, community@)).len() ==> best <= #[trigger] combo_scores(
                scores@,
                holding(*pair, community@),
            )[i],
{
    let cards = held_cards(pair, community);
    proof {
        lemma_distinct_cards_len(cards@);
        lemma_binomial_small(52);
        lemma_binomial_increasing(cards@.len(), 52, 5);
    }
    let combos = combinations(&cards, 5);
    let total = combos.len();
    let mut best: u64 = u64::MAX;
    let mut j: usize = 0;
    while j < total
        invariant
            j <= total,
            total == combos.len(),
            cards@.no_duplicates(),
            complete(scores@),
            combos@.len() == combinations_of(cards@, 5).len(),
            forall|i: int|
                0 <= i < combos@.len() ==> (#[trigger] combos@[i])@ == combinations_of(cards@, 5)[i],
            best == least(combo_scores(scores@, cards@).take(j as int)),
        decreases total - j,
    {
        proof {
            lemma_combination_members(cards@, 5, j as int);
            combos@[j as int]@.unique_seq_to_set();
            vstd::seq_lib::seq_to_set_is_finite(combos@[j as int]@);
            assert(combo_scores(scores@, cards@).take(j + 1).drop_last() =~= combo_scores(
                scores@,
                cards@,
            ).take(j as int));
        }
        let hand = Hand::new(&combos[j]);
        let key = hand.key();
        let score = match scores.get(&key) {
            Some(score) => *score,
            None => vstd::pervasive::unreached(),
        };
        if score < best {
            best = score;
        }
        j = j + 1;
    }
    proof {
        assert(combo_scores(scores@, cards@).take(total as int) =~= combo_scores(scores@, cards@));
        lemma_least(combo_scores(scores@, cards@));
        lemma_combinations_len(cards@, 5);
        lemma_binomial_increasing(5, cards@.len(), 5);
        lemma_binomial_small(5);
    }
    best
}

/// Wins and losses of the hero over the given completions of the community cards and
/// the given opponent holdings; an opponent who holds a card of the completion is
/// passed over.
pub fn tally_completions(
    scores: &HashMap<u64, u64>,
    pair: &(Card, Card),
    community: &Vec<Card>,
    completions: &Vec<Vec<Card>>,
    opponents: &Vec<(Card, Card)>,
) -> (tally: (usize, usize))
    requires
        complete(scores@),
        completions@.len() * opponents@.len() <= usize::MAX,
        forall|i: int|
            0 <= i < completions@.len() ==> playable(*pair, community@ + (#[trigger] completions@[i])@),
        forall|i: int, j: int|
            0 <= i < completions@.len() && 0 <= j < opponents@.len() && !dealt(
                (#[trigger] completions@[i])@,
                #[trigger] opponents@[j],
            ) ==> playable(opponents@[j], community@ + completions@[i]@),
    ensures
        (tally.0 as nat, tally.1 as nat) == tally_boards(
            scores@,
            *pair,
            community@,
            boards_of(completions@),
            opponents@,
        ),
{
    let mut win_count: usize = 0;
    let mut lose_count: usize = 0;
    let boards = completions.len();
    let holdings = opponents.len();
    let mut i: usize = 0;
    while i < boards
        invariant
            i <= boards,
            boards == completions@.len(),
            holdings == opponents@.len(),
            boards * holdings <= usize::MAX,
            complete(scores@),
            forall|i: int|
                0 <= i < completions@.len() ==> playable(
                    *pair,
                    community@ + (#[trigger] completions@[i])@,
                ),
            forall|i: int, j: int|
                0 <= i < completions@.len() && 0 <= j < opponents@.len() && !dealt(
                    (#[trigger] completions@[i])@,
                    #[trigger] opponents@[j],
                ) ==> playable(opponents@[j], community@ + completions@[i]@),
            (win_count as nat, lose_count as nat) == tally_boards(
                scores@,
                *pair,
                community@,
                boards_of(completions@).take(i as int),
                opponents@,
            ),
            win_count + lose_count <= i * holdings,
        decreases boards - i,
    {
        let remainder = &completions[i];
        let board = join(community, remainder);
        let my_score = get_best_score(pair, &board, scores);
        let ghost before = (win_count as nat, lose_count as nat);
        proof {
            assert((i + 1) * holdings <= boards * holdings) by (nonlinear_arith)
                requires
                    i + 1 <= boards,
            ;
            assert((i + 1) * holdings == i * holdings + holdings) by (nonlinear_arith);
        }
        let mut j: usize = 0;
        while j < holdings
            invariant
                j <= holdings,
                i < boards,
                boards == completions@.len(),
                holdings == opponents@.len(),
                complete(scores@),
                remainder@ == completions@[i as int]@,
                board@ == community@ + remainder@,
                my_score == best_score(scores@, *pair, board@),
                forall|j: int|
                    0 <= j < opponents@.len() && !dealt(remainder@, #[trigger] opponents@[j])
                        ==> playable(opponents@[j], board@),
                (win_count as nat, lose_count as nat) == ({
                    let here = tally_board(
                        scores@,
                        *pair,
                        board@,
                        remainder@,
                        opponents@.take(j as int),
                    );
                    (before.0 + here.0, before.1 + here.1)
                }),
                before.0 + before.1 <= i * holdings,
                win_count + lose_count <= i * holdings + j,
                i * holdings + holdings <= usize::MAX,
            decreases holdings - j,
        {
            let evil_pair = &opponents[j];
            assert(opponents@.take(j + 1).drop_last() =~= opponents@.take(j as int));
            // Skip if evil_pair contains a card of the completion
            if !(holds(remainder, evil_pair.0) || holds(remainder, evil_pair.1)) {
                if my_score < get_best_score(evil_pair, &board, scores) {
                    win_count = win_count + 1;
                } else {
                    lose_count = lose_count + 1;
                }
            }
            j = j + 1;
        }
        proof {
            assert(opponents@.take(holdings as int) =~= opponents@);
            assert(boards_of(completions@).take(i + 1).drop_last() =~= boards_of(completions@).take(
                i as int,
            ));
            assert(boards_of(completions@).take(i + 1).last() == remainder@);
        }
        i = i + 1;
    }
    assert(boards_of(completions@).take(boards as int) =~= boards_of(completions@));
    (win_count, lose_count)
}

/// What is left of the deck without the hero's cards and the community cards: no card
/// twice, none of those cards, at most 52.
pub proof fn lemma_remaining_deck(used: Seq<Card>)
    ensures
        remaining_deck(used).no_duplicates(),
        remaining_deck(used).len() <= 52,
        remaining_deck(used).len() + used.len() >= 52,
        used.no_duplicates() ==> remaining_deck(used).len() + used.len() == 52,
        forall|card: Card| #[trigger] remaining_deck(used).contains(card) <==> !used.contains(card),
{
    let rest = remaining_deck(used);
    let deck = Card::deck();
    lemma_deck_complete(Card::at(0));
    lemma_filter_distinct(deck, unused(used));
    assert forall|card: Card| #[trigger] rest.contains(card) <==> !used.contains(card) by {
        lemma_deck_complete(card);
        assert(deck.contains(card));
    }
    rest.unique_seq_to_set();
    deck.unique_seq_to_set();
    used.lemma_cardinality_of_set();
    vstd::seq_lib::seq_to_set_is_finite(deck);
    vstd::seq_lib::seq_to_set_is_finite(used);
    assert(rest.to_set() =~= deck.to_set().difference(used.to_set())) by {
        assert forall|card: Card| rest.to_set().contains(card) <==> deck.to_set().difference(
            used.to_set(),
        ).contains(card) by {
            lemma_deck_complete(card);
            assert(deck.contains(card));
        }
    }
    vstd::set_lib::lemma_set_difference_len(deck.to_set(), used.to_set());
    lemma_len_subset(deck.to_set().intersect(used.to_set()), used.to_set());
    if used.no_duplicates() {
        used.unique_seq_to_set();
        assert(deck.to_set().intersect(used.to_set()) =~= used.to_set()) by {
            assert forall|card: Card| used.to_set().contains(card) implies deck.to_set().contains(
                card,
            ) by {
                lemma_deck_complete(card);
                assert(deck.contains(card));
            }
        }
    }
}

/// Without the two cards of the hero there are 2,118,760 boards of five.
pub proof fn lemma_board_count(hero: (Card, Card))
    requires
        hero.0 != hero.1,
    ensures
        remaining_deck(holding(hero, Seq::empty())).len() == 50,
        binomial(remaining_deck(holding(hero, Seq::empty())).len(), 5) == 2_118_760,
{
    lemma_holding_distinct(hero, Seq::empty());
    lemma_remaining_deck(holding(hero, Seq::empty()));
    lemma_binomial_small(50);
}

/// Every completion from what is left of the deck makes a playable board for the
/// hero, and for each opponent from what is left who holds no card of the completion.
pub proof fn lemma_deals_playable(
    pair: (Card, Card),
    community: Seq<Card>,
    completion: Seq<Card>,
    villain: (Card, Card),
)
    requires
        holding(pair, community).no_duplicates(),
        completion.no_duplicates(),
        community.len() + completion.len() >= 3,
        forall|i: int|
            0 <= i < completion.len() ==> !holding(pair, community).contains(#[trigger] completion[i]),
    ensures
        playable(pair, community + completion),
        villain.0 != villain.1 && !holding(pair, community).contains(villain.0) && !holding(
            pair,
            community,
        ).contains(villain.1) && !dealt(completion, villain) ==> playable(
            villain,
            community + completion,
        ),
{
    let used = holding(pair, community);
    let board = community + completion;
    let n = community.len() as int;
    lemma_holding_distinct(pair, community);
    assert(used[n] == pair.0 && used[n + 1] == pair.1);
    assert forall|i: int| 0 <= i < n implies used.contains(#[trigger] community[i]) by {
        assert(used[i] == community[i]);
    }
    assert forall|i: int, j: int| 0 <= i < n && 0 <= j < completion.len() implies community[i]
        != completion[j] by {
        assert(used.contains(community[i]));
    }
    vstd::seq_lib::lemma_no_dup_in_concat(community, completion);
    assert forall|x: Card| board.contains(x) implies community.contains(x) || completion.contains(
        x,
    ) by {
        let i = choose|i: int| 0 <= i < board.len() && board[i] == x;
        if i < n {
            assert(community[i] == x);
        } else {
            assert(completion[i - n] == x);
        }
    }
    assert(!board.contains(pair.0) && !board.contains(pair.1)) by {
        if completion.contains(pair.0) {
            let i = choose|i: int| 0 <= i < completion.len() && completion[i] == pair.0;
            assert(used.contains(completion[i]));
        }
        if completion.contains(pair.1) {
            let i = choose|i: int| 0 <= i < completion.len() && completion[i] == pair.1;
            assert(used.contains(completion[i]));
        }
    }
    lemma_holding_distinct(pair, board);
    if villain.0 != villain.1 && !used.contains(villain.0) && !used.contains(villain.1) && !dealt(
        completion,
        villain,
    ) {
        assert(!board.contains(villain.0) && !board.contains(villain.1)) by {
            if community.contains(villain.0) {
                let i = choose|i: int| 0 <= i < n && community[i] == villain.0;
                assert(used.contains(community[i]));
            }
            if community.contains(villain.1) {
                let i = choose|i: int| 0 <= i < n && community[i] == villain.1;
                assert(used.contains(community[i]));
            }
        }
        lemma_holding_distinct(villain, board);
    }
}

/// Exhaustive search is manageable with at least the flop on the board.
/// Returns (win_count, lose_count).
pub fn eval_with_community(community: Vec<Card>, pair: &(Card, Card), scores: &HashMap<u64, u64>) -> (tally:
    (usize, usize))
    requires
        community@.len() <= 5,
        holding(*pair, community@).no_duplicates(),
        complete(scores@),
    ensures
        (tally.0 as nat, tally.1 as nat) == exhaustive_tally(scores@, *pair, community@),
{
    let used = held_cards(pair, &community);
    let deck = deck_without(&used);
    let n = community.len();
    proof {
        lemma_remaining_deck(used@);
        lemma_binomial_small(52);
        lemma_binomial_increasing(deck@.len(), 52, 2);
        lemma_binomial_increasing(deck@.len(), 52, (5 - n) as nat);
        lemma_combinations_len(deck@, 2);
        lemma_combinations_len(deck@, (5 - n) as nat);
    }
    let evil_pairs = pair_combinations(&deck);
    let remainders = combinations(&deck, 5 - n);
    proof {
        assert(evil_pairs@ =~= pairs_of(deck@));
        assert(boards_of(remainders@) =~= combinations_of(deck@, (5 - n) as nat));
        assert(remainders@.len() * evil_pairs@.len() <= usize::MAX) by (nonlinear_arith)
            requires
                remainders@.len() <= 2_598_960,
                evil_pairs@.len() <= 1326,
                usize::MAX >= 0xffff_ffff,
        ;
        assert forall|i: int, j: int|
            0 <= i < remainders@.len() && 0 <= j < evil_pairs@.len() implies playable(
            *pair,
            community@ + (#[trigger] remainders@[i])@,
        ) && (!dealt(remainders@[i]@, #[trigger] evil_pairs@[j]) ==> playable(
            evil_pairs@[j],
            community@ + remainders@[i]@,
        )) by {
            lemma_combination_members(deck@, (5 - n) as nat, i);
            lemma_combination_members(deck@, 2, j);
            let villain = evil_pairs@[j];
            let two = combinations_of(deck@, 2)[j];
            assert(two[0] == villain.0 && two[1] == villain.1);
            assert(deck@.contains(two[0]) && deck@.contains(two[1]));
            lemma_deals_playable(*pair, community@, remainders@[i]@, villain);
        }
        assert forall|i: int| 0 <= i < remainders@.len() implies playable(
            *pair,
            community@ + (#[trigger] remainders@[i])@,
        ) by {
            lemma_combination_members(deck@, (5 - n) as nat, i);
            lemma_deals_playable(*pair, community@, remainders@[i]@, *pair);
        }
    }
    tally_completions(scores, pair, &community, &remainders, &evil_pairs)
}

/// Calls `IteratorRandom::choose_multiple` of rand on the positions `0..total`, with
/// the generator that `rand::rng` hands out. The contract claims what holds of every
/// draw: `amount` positions come back, each below `total`, none twice. Which ones,
/// and in what order, is left open. No more positions are asked for than there are,
/// and no more than the buffer of the draw and its counter can hold.
#[verifier::external_body]
pub(crate) fn choose_multiple(total: usize, amount: usize) -> (picks: Vec<usize>)
    requires
        amount <= total,
        amount * 8 <= isize::MAX,
        total + amount <= usize::MAX,
    ensures
        is_sample(picks@, total as nat, amount as nat),
{
    (0..total).choose_multiple(&mut rand::rng(), amount)
}

/// The deck without the hero's cards, all boards of five from it, and all opponent
/// holdings from it.
fn deal_without(pair: &(Card, Card)) -> (dealing: (Vec<Vec<Card>>, Vec<(Card, Card)>))
    requires
        pair.0 != pair.1,
    ensures
        boards_of(dealing.0@) == combinations_of(remaining_deck(holding(*pair, Seq::empty())), 5),
        dealing.0@.len() == binomial(remaining_deck(holding(*pair, Seq::empty())).len(), 5),
        dealing.0@.len() <= 2_598_960,
        dealing.1@ == pairs_of(remaining_deck(holding(*pair, Seq::empty()))),
        dealing.1@.len() <= 1326,
{
    let community: Vec<Card> = Vec::new();
    let used = held_cards(pair, &community);
    let deck = deck_without(&used);
    proof {
        assert(used@ =~= holding(*pair, Seq::empty()));
        lemma_remaining_deck(used@);
        lemma_binomial_small(52);
        lemma_binomial_increasing(deck@.len(), 52, 2);
        lemma_binomial_increasing(deck@.len(), 52, 5);
        lemma_combinations_len(deck@, 2);
        lemma_combinations_len(deck@, 5);
    }
    let all = combinations(&deck, 5);
    let evil_pairs = pair_combinations(&deck);
    proof {
        assert(evil_pairs@ =~= pairs_of(deck@));
        assert(boards_of(all@) =~= combinations_of(deck@, 5));
    }
    (all, evil_pairs)
}

/// The tally over the boards at the picked positions among `all`.
fn tally_sample(
    pair: &(Card, Card),
    all: &Vec<Vec<Card>>,
    evil_pairs: &Vec<(Card, Card)>,
    picks: &Vec<usize>,
    scores: &HashMap<u64, u64>,
) -> (tally: (usize, usize))
    requires
        pair.0 != pair.1,
        complete(scores@),
        boards_of(all@) == combinations_of(remaining_deck(holding(*pair, Seq::empty())), 5),
        evil_pairs@ == pairs_of(remaining_deck(holding(*pair, Seq::empty()))),
        evil_pairs@.len() <= 1326,
        picks@.len() * 1326 <= usize::MAX,
        forall|i: int| 0 <= i < picks@.len() ==> picks@[i] < all@.len(),
    ensures
        (tally.0 as nat, tally.1 as nat) == sampled_tally(scores@, *pair, picks@),
{
    let ghost deck = remaining_deck(holding(*pair, Seq::empty()));
    let community: Vec<Card> = Vec::new();
    let mut boards: Vec<Vec<Card>> = Vec::new();
    let mut k: usize = 0;
    proof {
        assert(boards_of(all@).len() == all@.len());
    }
    while k < picks.len()
        invariant
            k <= picks.len(),
            community@ == Seq::<Card>::empty(),
            deck == remaining_deck(holding(*pair, Seq::empty())),
            boards_of(all@) == combinations_of(deck, 5),
            forall|i: int| 0 <= i < picks@.len() ==> picks@[i] < all@.len(),
            boards_of(boards@) == sampled_boards(*pair, picks@.take(k as int)),
        decreases picks.len() - k,
    {
        let board = join(&community, &all[picks[k]]);
        assert(board@ =~= all@[picks@[k as int] as int]@);
        assert(boards_of(all@)[picks@[k as int] as int] == all@[picks@[k as int] as int]@);
        let ghost before = boards@;
        boards.push(board);
        proof {
            let now = boards_of(boards@);
            let want = sampled_boards(*pair, picks@.take(k + 1));
            assert(boards_of(before).len() == before.len());
            assert(sampled_boards(*pair, picks@.take(k as int)).len() == k);
            assert(now.len() == boards@.len());
            assert(want.len() == k + 1);
            assert forall|i: int| 0 <= i < now.len() implies now[i] == want[i] by {
                if i < k {
                    assert(boards@[i] == before[i]);
                    assert(boards_of(before)[i] == sampled_boards(*pair, picks@.take(k as int))[i]);
                    assert(picks@.take(k as int)[i] == picks@.take(k + 1)[i]);
                }
            }
            assert(now =~= want);
        }
        k = k + 1;
    }
    proof {
        assert(picks@.take(picks@.len() as int) =~= picks@);
        assert(boards_of(boards@).len() == boards@.len());
        assert(boards@.len() == picks@.len());
        assert(boards@.len() * evil_pairs@.len() <= usize::MAX) by (nonlinear_arith)
            requires
                boards@.len() * 1326 <= usize::MAX,
                evil_pairs@.len() <= 1326,
        ;
        lemma_holding_distinct(*pair, Seq::empty());
        lemma_remaining_deck(holding(*pair, Seq::empty()));
        assert forall|i: int, j: int|
            0 <= i < boards@.len() && 0 <= j < evil_pairs@.len() implies playable(
            *pair,
            community@ + (#[trigger] boards@[i])@,
        ) && (!dealt(boards@[i]@, #[trigger] evil_pairs@[j]) ==> playable(
            evil_pairs@[j],
            community@ + boards@[i]@,
        )) by {
            let at = picks@[i] as int;
            assert(boards_of(boards@)[i] == sampled_boards(*pair, picks@)[i]);
            assert(boards@[i]@ == combinations_of(deck, 5)[at]);
            lemma_combinations_len(deck, 2);
            lemma_combination_members(deck, 5, at);
            lemma_combination_members(deck, 2, j);
            let villain = evil_pairs@[j];
            let two = combinations_of(deck, 2)[j];
            assert(two[0] == villain.0 && two[1] == villain.1);
            assert(deck.contains(two[0]) && deck.contains(two[1]));
            lemma_deals_playable(*pair, community@, boards@[i]@, villain);
        }
        assert forall|i: int| 0 <= i < boards@.len() implies playable(
            *pair,
            community@ + (#[trigger] boards@[i])@,
        ) by {
            let at = picks@[i] as int;
            assert(boards_of(boards@)[i] == sampled_boards(*pair, picks@)[i]);
            lemma_combination_members(deck, 5, at);
            lemma_deals_playable(*pair, community@, boards@[i]@, *pair);
        }
    }
    tally_completions(scores, pair, &community, &boards, evil_pairs)
}

/// Wins and losses of the hero over the boards at the picked positions among all
/// boards of five without the hero's cards, against every opponent holding.
pub fn eval_with_sample(pair: &(Card, Card), picks: &Vec<usize>, scores: &HashMap<u64, u64>) -> (tally: (
    usize,
    usize,
))
    requires
        pair.0 != pair.1,
        complete(scores@),
        picks@.len() * 1326 <= usize::MAX,
        forall|i: int|
            0 <= i < picks@.len() ==> picks@[i] < binomial(
                remaining_deck(holding(*pair, Seq::empty())).len(),
                5,
            ),
    ensures
        (tally.0 as nat, tally.1 as nat) == sampled_tally(scores@, *pair, picks@),
{
    let (all, evil_pairs) = deal_without(pair);
    tally_sample(pair, &all, &evil_pairs, picks, scores)
}

/// Not currently feasible to do an exhaustive search with just the hand, so a monte
/// carlo random search is implemented: the tally over `n` boards drawn at random,
/// none of them twice. There is no tally where `n` is more than the number of boards.
pub fn eval_hand_monte_carlo(pair: &(Card, Card), n: usize, scores: &HashMap<u64, u64>) -> (tally: Option<
    (usize, usize),
>)
    requires
        pair.0 != pair.1,
        complete(scores@),
    ensures
        tally is None <==> n > binomial(remaining_deck(holding(*pair, Seq::empty())).len(), 5),
        tally matches Some(counts) ==> exists|picks: Seq<usize>|
            {
                &&& is_sample(
                    picks,
                    binomial(remaining_deck(holding(*pair, Seq::empty())).len(), 5),
                    n as nat,
                )
                &&& (counts.0 as nat, counts.1 as nat) == #[trigger] sampled_tally(scores@, *pair, picks)
            },
        tally matches Some(counts) ==> (n == binomial(
            remaining_deck(holding(*pair, Seq::empty())).len(),
            5,
        ) ==> (counts.0 as nat, counts.1 as nat) == exhaustive_tally(scores@, *pair, Seq::empty())),
{
    let (all, evil_pairs) = deal_without(pair);
    let total = all.len();
    if n > total {
        return None;
    }
    let picks = choose_multiple(total, n);
    proof {
        if n == total {
            lemma_full_sample_is_exhaustive(scores@, *pair, picks@);
        }
    }
    Some(tally_sample(pair, &all, &evil_pairs, &picks, scores))
}

/// The tally over the boards at the positions below `upto` that are among `kept`.
pub open spec fn tally_kept(
    scores: Map<u64, u64>,
    hero: (Card, Card),
    boards: Seq<Seq<Card>>,
    opponents: Seq<(Card, Card)>,
    upto: nat,
    kept: Set<int>,
) -> (nat, nat)
    decreases upto,
{
    if upto == 0 {
        (0, 0)
    } else {
        let rest = tally_kept(scores, hero, boards, opponents, (upto - 1) as nat, kept);
        if kept.contains(upto - 1) {
            let last = tally_board(scores, hero, boards[upto - 1], boards[upto - 1], opponents);
            (rest.0 + last.0, rest.1 + last.1)
        } else {
            rest
        }
    }
}

proof fn lemma_tally_kept_insert(
    scores: Map<u64, u64>,
    hero: (Card, Card),
    boards: Seq<Seq<Card>>,
    opponents: Seq<(Card, Card)>,
    upto: nat,
    kept: Set<int>,
    at: int,
)
    requires
        !kept.contains(at),
    ensures
        tally_kept(scores, hero, boards, opponents, upto, kept.insert(at)) == ({
            let rest = tally_kept(scores, hero, boards, opponents, upto, kept);
            let one = tally_board(scores, hero, boards[at], boards[at], opponents);
            if 0 <= at < upto {
                (rest.0 + one.0, rest.1 + one.1)
            } else {
                rest
            }
        }),
    decreases upto,
{
    if upto > 0 {
        lemma_tally_kept_insert(scores, hero, boards, opponents, (upto - 1) as nat, kept, at);
    }
}

proof fn lemma_tally_kept_all(
    scores: Map<u64, u64>,
    hero: (Card, Card),
    boards: Seq<Seq<Card>>,
    opponents: Seq<(Card, Card)>,
    upto: nat,
    kept: Set<int>,
)
    requires
        upto <= boards.len(),
        forall|i: int| 0 <= i < upto ==> kept.contains(i),
    ensures
        tally_kept(scores, hero, boards, opponents, upto, kept) == tally_boards(
            scores,
            hero,
            Seq::empty(),
            boards.take(upto as int),
            opponents,
        ),
    decreases upto,
{
    if upto > 0 {
        lemma_tally_kept_all(scores, hero, boards, opponents, (upto - 1) as nat, kept);
        assert(boards.take(upto as int).drop_last() =~= boards.take(upto - 1));
        assert(Seq::<Card>::empty() + boards[upto - 1] =~= boards[upto - 1]);
    }
}

proof fn lemma_tally_picked(
    scores: Map<u64, u64>,
    hero: (Card, Card),
    boards: Seq<Seq<Card>>,
    opponents: Seq<(Card, Card)>,
    picks: Seq<usize>,
)
    requires
        picks.no_duplicates(),
        forall|i: int| 0 <= i < picks.len() ==> picks[i] < boards.len(),
    ensures
        tally_boards(
            scores,
            hero,
            Seq::empty(),
            picks.map_values(|i: usize| boards[i as int]),
            opponents,
        ) == tally_kept(
            scores,
            hero,
            boards,
            opponents,
            boards.len(),
            picks.map_values(|i: usize| i as int).to_set(),
        ),
    decreases picks.len(),
{
    let picked = picks.map_values(|i: usize| boards[i as int]);
    let places = picks.map_values(|i: usize| i as int);
    if picks.len() == 0 {
        assert(places.to_set() =~= Set::<int>::empty());
        lemma_tally_kept_none(scores, hero, boards, opponents, boards.len());
    } else {
        let rest = picks.drop_last();
        let at = picks.last() as int;
        let fewer = rest.map_values(|i: usize| i as int);
        lemma_tally_picked(scores, hero, boards, opponents, rest);
        assert(picked.drop_last() =~= rest.map_values(|i: usize| boards[i as int]));
        assert(Seq::<Card>::empty() + picked.last() =~= boards[at]);
        assert(places =~= fewer.push(at));
        fewer.lemma_push_to_set_commute(at);
        assert(!fewer.to_set().contains(at)) by {
            if fewer.contains(at) {
                let i = choose|i: int| 0 <= i < fewer.len() && fewer[i] == at;
                assert(picks[i] == picks[picks.len() - 1]);
            }
        }
        lemma_tally_kept_insert(scores, hero, boards, opponents, boards.len(), fewer.to_set(), at);
    }
}

proof fn lemma_tally_kept_none(
    scores: Map<u64, u64>,
    hero: (Card, Card),
    boards: Seq<Seq<Card>>,
    opponents: Seq<(Card, Card)>,
    upto: nat,
)
    ensures
        tally_kept(scores, hero, boards, opponents, upto, Set::empty()) == (0nat, 0nat),
    decreases upto,
{
    if upto > 0 {
        lemma_tally_kept_none(scores, hero, boards, opponents, (upto - 1) as nat);
    }
}

/// A sample as large as the number of boards picks every board once, so its tally is
/// that of the exhaustive search from no community cards.
pub proof fn lemma_full_sample_is_exhaustive(scores: Map<u64, u64>, hero: (Card, Card), picks: Seq<usize>)
    requires
        is_sample(
            picks,
            binomial(remaining_deck(holding(hero, Seq::empty())).len(), 5),
            binomial(remaining_deck(holding(hero, Seq::empty())).len(), 5),
        ),
    ensures
        sampled_tally(scores, hero, picks) == exhaustive_tally(scores, hero, Seq::empty()),
{
    let rest = remaining_deck(holding(hero, Seq::empty()));
    let boards = combinations_of(rest, 5);
    let opponents = pairs_of(rest);
    let places = picks.map_values(|i: usize| i as int);
    let total = boards.len();
    lemma_combinations_len(rest, 5);
    lemma_tally_picked(scores, hero, boards, opponents, picks);
    assert(sampled_boards(hero, picks) =~= picks.map_values(|i: usize| boards[i as int]));
    assert(places.no_duplicates()) by {
        assert forall|i: int, j: int|
            0 <= i < places.len() && 0 <= j < places.len() && i != j implies places[i] != places[j] by {
            assert(picks[i] != picks[j]);
        }
    }
    places.unique_seq_to_set();
    vstd::set_lib::lemma_int_range(0, total as int);
    let range = vstd::set_lib::set_int_range(0, total as int);
    assert(places.to_set().subset_of(range)) by {
        assert forall|x: int| places.to_set().contains(x) implies range.contains(x) by {
            let i = choose|i: int| 0 <= i < places.len() && places[i] == x;
            assert(picks[i] < total);
        }
    }
    vstd::set_lib::lemma_subset_equality(places.to_set(), range);
    lemma_tally_kept_all(scores, hero, boards, opponents, total, places.to_set());
    assert(boards.take(total as int) =~= boards);
    assert(holding(hero, Seq::empty()).len() == 2);
    assert((5 - Seq::<Card>::empty().len()) as nat == 5);
}

} // verus!
