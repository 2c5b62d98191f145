//! The score table: every canonical five-card key with its dense strength rank, 0
//! for the strongest. The table is built by walking the nine categories from the
//! strongest down and numbering each key where it first comes up.

use crate::card::{Card, lemma_deck_complete, Rank};
use crate::combos::{
    binomial, combinations, combinations_of, lemma_binomial_small, lemma_combination_members,
    lemma_combinations_complete, lemma_combinations_len,
};
use crate::hand::Hand;
use std::collections::HashMap;
use vstd::prelude::*;

verus! {

broadcast use vstd::std_specs::hash::group_hash_axioms;

/// Numbering one hand: a key that the table holds keeps its score and the counter
/// stays, a new key gets the counter's value and the counter goes up by one.
pub open spec fn number_one(state: (Map<u64, u64>, nat), hand: Hand) -> (Map<u64, u64>, nat) {
    if state.0.contains_key(hand@) {
        state
    } else {
        (state.0.insert(hand@, state.1 as u64), state.1 + 1)
    }
}

/// Numbering a sequence of hands in order, from the table `scores` and the counter
/// `next`: the table and the counter after the last of them.
pub open spec fn number_hands(scores: Map<u64, u64>, next: nat, hands: Seq<Hand>) -> (
    Map<u64, u64>,
    nat,
)
    decreases hands.len(),
{
    if hands.len() == 0 {
        (scores, next)
    } else {
        number_one(number_hands(scores, next, hands.drop_last()), hands.last())
    }
}

/// `f(0) + f(1) + ... + f(n - 1)`.
pub open spec fn gather<A>(n: nat, f: spec_fn(nat) -> Seq<A>) -> Seq<A>
    decreases n,
{
    if n == 0 {
        Seq::empty()
    } else {
        gather((n - 1) as nat, f) + f((n - 1) as nat)
    }
}

/// The counter never goes down, and goes up by at most one for each hand.
pub proof fn lemma_number_bounds(scores: Map<u64, u64>, next: nat, hands: Seq<Hand>)
    ensures
        next <= number_hands(scores, next, hands).1 <= next + hands.len(),
    decreases hands.len(),
{
    if hands.len() > 0 {
        lemma_number_bounds(scores, next, hands.drop_last());
    }
}

/// The counter after some of the hands is at most the counter after all of them.
pub proof fn lemma_number_prefix(scores: Map<u64, u64>, next: nat, hands: Seq<Hand>, i: int)
    requires
        0 <= i <= hands.len(),
    ensures
        number_hands(scores, next, hands.take(i)).1 <= number_hands(scores, next, hands).1,
    decreases hands.len() - i,
{
    if i == hands.len() {
        assert(hands.take(i) =~= hands);
    } else {
        lemma_number_prefix(scores, next, hands, i + 1);
        assert(hands.take(i + 1).drop_last() =~= hands.take(i));
    }
}

/// Numbers the hands in order and returns the counter after the last.
pub fn number_all(scores: &mut HashMap<u64, u64>, offset: u64, hands: &Vec<Hand>) -> (score: u64)
    requires
        number_hands(old(scores)@, offset as nat, hands@).1 <= u64::MAX,
    ensures
        (final(scores)@, score as nat) == number_hands(old(scores)@, offset as nat, hands@),
{
    let mut score: u64 = offset;
    let n = hands.len();
    let mut i: usize = 0;
    while i < n
        invariant
            i <= n,
            n == hands.len(),
            (scores@, score as nat) == number_hands(old(scores)@, offset as nat, hands@.take(i as int)),
            number_hands(old(scores)@, offset as nat, hands@).1 <= u64::MAX,
        decreases n - i,
    {
        let key = hands[i].key();
        proof {
            lemma_number_prefix(old(scores)@, offset as nat, hands@, i + 1);
            assert(hands@.take(i + 1).drop_last() =~= hands@.take(i as int));
        }
        if !scores.contains_key(&key) {
            scores.insert(key, score);
            score = score + 1;
        }
        i = i + 1;
    }
    assert(hands@.take(n as int) =~= hands@);
    score
}


/// The ranks from the `Ace` down to the `Two`.
pub open spec fn ranks_down() -> Seq<Rank> {
    Seq::new(13, |i: int| Rank::at((12 - i) as nat))
}

/// The straight flushes, from the highest down to the one that ends in `Five`.
pub open spec fn straight_flush_hands() -> Seq<Hand> {
    Seq::new(10, |i: int| Hand::straight_flush(Rank::at((12 - i) as nat)))
}

/// The straights in mixed suits, from the highest down to the one that ends in `Five`.
pub open spec fn straight_hands() -> Seq<Hand> {
    Seq::new(10, |i: int| Hand::straight(Rank::at((12 - i) as nat)))
}

/// `n` cards of `rank` beside the kickers `kickers`, or nothing where the kickers
/// hold that rank themselves.
pub open spec fn kind_pick(rank: Rank, n: u64) -> spec_fn(Hand) -> Option<Hand> {
    |kickers: Hand|
        if kickers.count(rank) > 0 {
            None::<Hand>
        } else {
            Some(Hand::of_n_rank(rank, n).union(kickers))
        }
}

/// The hands of `n` cards of one rank and `5 - n` other cards: for each rank from the
/// `Ace` down, the kickers in the order of `Hand::combos`.
pub open spec fn kind_hands_at(n: u64) -> spec_fn(nat) -> Seq<Hand> {
    |i: nat| Hand::combos((5 - n) as nat).filter_map(kind_pick(Rank::at((12 - i) as nat), n))
}

/// The hands of `n` of a kind in the order in which they are numbered.
pub open spec fn kind_hands(n: u64) -> Seq<Hand> {
    gather(13, kind_hands_at(n))
}

/// Three cards of `three` and two of `pair`, or nothing where the two ranks are one.
pub open spec fn full_house_pick(three: Rank) -> spec_fn(Rank) -> Option<Hand> {
    |pair: Rank|
        if pair == three {
            None::<Hand>
        } else {
            Some(Hand::of_n_rank(three, 3).with_more(pair, 2))
        }
}

/// The full houses: for each rank of the three from the `Ace` down, each rank of the
/// pair from the `Ace` down.
pub open spec fn full_house_hands_at() -> spec_fn(nat) -> Seq<Hand> {
    |i: nat| ranks_down().filter_map(full_house_pick(Rank::at((12 - i) as nat)))
}

/// The full houses in the order in which they are numbered.
pub open spec fn full_house_hands() -> Seq<Hand> {
    gather(13, full_house_hands_at())
}

/// `base` with one more card of `kicker`, or nothing where `base` holds that rank.
pub open spec fn kicker_pick(base: Hand) -> spec_fn(Rank) -> Option<Hand> {
    |kicker: Rank|
        if base.count(kicker) > 0 {
            None::<Hand>
        } else {
            Some(base.with_more(kicker, 1))
        }
}

/// The two pairs with the higher pair of the rank with index `high`: for each lower
/// rank from the next one down, each kicker from the `Ace` down.
pub open spec fn low_pair_hands_at(high: nat) -> spec_fn(nat) -> Seq<Hand> {
    |b: nat|
        ranks_down().filter_map(
            kicker_pick(Hand::of_n_rank(Rank::at(high), 2).with_more(Rank::at((high - 1 - b) as nat), 2)),
        )
}

/// The two pairs, from the higher pair of `Ace`s down to that of `Three`s.
pub open spec fn two_pair_hands_at() -> spec_fn(nat) -> Seq<Hand> {
    |a: nat| gather((12 - a) as nat, low_pair_hands_at((12 - a) as nat))
}

/// The two pairs in the order in which they are numbered.
pub open spec fn two_pair_hands() -> Seq<Hand> {
    gather(12, two_pair_hands_at())
}

impl Hand {
    /// The keys of all combinations of `n` cards of the deck, those of the highest
    /// cards first.
    pub open spec fn combos(n: nat) -> Seq<Hand> {
        combinations_of(Card::deck().reverse(), n).map_values(|c: Seq<Card>| Hand::encode(c.to_set()))
    }

    /// The key of one card of each rank in a flush, from the `Ace` down.
    pub open spec fn flush_singles() -> Seq<Hand> {
        Seq::new(13, |i: int| Hand::flush_single(Rank::at((12 - i) as nat)))
    }

    /// The union of all the keys, from the blank key on.
    pub open spec fn union_all(hands: Seq<Hand>) -> Hand {
        hands.fold_left(Hand::blank(), |acc: Hand, hand: Hand| acc.union(hand))
    }

    /// The keys of all flushes: five ranks marked as the flush, the highest first.
    pub open spec fn flushes() -> Seq<Hand> {
        combinations_of(Hand::flush_singles(), 5).map_values(|c: Seq<Hand>| Hand::union_all(c))
    }

    /// Get all combinations of n cards, best sorted first.
    pub fn get_hand_combos(n: usize) -> (hands: Vec<Hand>)
        requires
            n <= 52,
            binomial(52, n as nat) <= usize::MAX,
        ensures
            hands@ == Hand::combos(n as nat),
    {
        let deck = Card::get_deck();
        let mut reversed: Vec<Card> = Vec::new();
        let mut i: usize = 0;
        while i < 52
            invariant
                i <= 52,
                deck@ == Card::deck(),
                reversed@ == Card::deck().reverse().take(i as int),
            decreases 52 - i,
        {
            reversed.push(deck[51 - i]);
            assert(reversed@ == Card::deck().reverse().take(i + 1));
            i = i + 1;
        }
        proof {
            assert(reversed@ == Card::deck().reverse());
            lemma_deck_reversed();
        }
        let combos = combinations(&reversed, n);
        let mut hands: Vec<Hand> = Vec::new();
        let total = combos.len();
        let mut j: usize = 0;
        while j < total
            invariant
                j <= total,
                total == combos.len(),
                reversed@ == Card::deck().reverse(),
                reversed@.no_duplicates(),
                combos@.len() == combinations_of(reversed@, n as nat).len(),
                forall|i: int|
                    0 <= i < combos@.len() ==> (#[trigger] combos@[i])@ == combinations_of(
                        reversed@,
                        n as nat,
                    )[i],
                hands@ == Hand::combos(n as nat).take(j as int),
            decreases total - j,
        {
            proof {
                lemma_combination_members(reversed@, n as nat, j as int);
            }
            let hand = Hand::new(&combos[j]);
            hands.push(hand);
            assert(hands@ == Hand::combos(n as nat).take(j + 1));
            j = j + 1;
        }
        assert(hands@ == Hand::combos(n as nat));
        hands
    }

    /// Get all combinations of five ranks as flush.
    pub fn flush_combos() -> (hands: Vec<Hand>)
        ensures
            hands@ == Hand::flushes(),
    {
        let mut singles: Vec<Hand> = Vec::new();
        let mut i: usize = 0;
        while i < 13
            invariant
                i <= 13,
                singles@ == Hand::flush_singles().take(i as int),
            decreases 13 - i,
        {
            singles.push(Hand::from_rank_as_flush(rank_at(12 - i)));
            assert(singles@ == Hand::flush_singles().take(i + 1));
            i = i + 1;
        }
        proof {
            assert(singles@ == Hand::flush_singles());
            lemma_binomial_small(13);
        }
        let combos = combinations(&singles, 5);
        let mut hands: Vec<Hand> = Vec::new();
        let total = combos.len();
        let mut j: usize = 0;
        while j < total
            invariant
                j <= total,
                total == combos.len(),
                combos@.len() == combinations_of(Hand::flush_singles(), 5).len(),
                forall|i: int|
                    0 <= i < combos@.len() ==> (#[trigger] combos@[i])@ == combinations_of(
                        Hand::flush_singles(),
                        5,
                    )[i],
                hands@ == Hand::flushes().take(j as int),
            decreases total - j,
        {
            let combo = &combos[j];
            let mut acc = Hand::empty();
            let mut k: usize = 0;
            while k < combo.len()
                invariant
                    k <= combo.len(),
                    acc == Hand::union_all(combo@.take(k as int)),
                decreases combo.len() - k,
            {
                assert(combo@.take(k + 1).drop_last() =~= combo@.take(k as int));
                acc = acc | combo[k];
                k = k + 1;
            }
            assert(combo@.take(combo.len() as int) =~= combo@);
            hands.push(acc);
            assert(hands@ == Hand::flushes().take(j + 1));
            j = j + 1;
        }
        assert(hands@ == Hand::flushes());
        hands
    }
}

/// The reversed deck holds each card once.
pub proof fn lemma_deck_reversed()
    ensures
        Card::deck().reverse().len() == 52,
        Card::deck().reverse().no_duplicates(),
        forall|card: Card| Card::deck().reverse().contains(card),
{
    let rev = Card::deck().reverse();
    lemma_deck_complete(Card::at(0));
    assert forall|i: int, j: int| 0 <= i < 52 && 0 <= j < 52 && i != j implies rev[i] != rev[j] by {
        assert(rev[i] == Card::deck()[51 - i]);
        assert(rev[j] == Card::deck()[51 - j]);
    }
    assert forall|card: Card| rev.contains(card) by {
        lemma_deck_complete(card);
        assert(rev[51 - card.index()] == card);
    }
}

fn rank_at(i: usize) -> (rank: Rank)
    requires
        i < 13,
    ensures
        rank == Rank::at(i as nat),
        rank.index() == i,
{
    Rank::ALL_RANKS[i]
}

/// Numbers the straight flushes from `offset` on, the highest first, and returns the
/// counter after them.
pub fn score_straight_flush(scores: &mut HashMap<u64, u64>, offset: u64) -> (score: u64)
    requires
        number_hands(old(scores)@, offset as nat, straight_flush_hands()).1 <= u64::MAX,
    ensures
        (final(scores)@, score as nat) == number_hands(
            old(scores)@,
            offset as nat,
            straight_flush_hands(),
        ),
{
    let mut hands: Vec<Hand> = Vec::new();
    let mut i: usize = 0;
    while i < 10
        invariant
            i <= 10,
            hands@ == straight_flush_hands().take(i as int),
        decreases 10 - i,
    {
        hands.push(Hand::from_straight_flush(rank_at(12 - i)));
        assert(hands@ == straight_flush_hands().take(i + 1));
        i = i + 1;
    }
    assert(hands@ == straight_flush_hands());
    number_all(scores, offset, &hands)
}

/// Numbers the straights from `offset` on, the highest first, and returns the counter
/// after them.
pub fn score_straight(scores: &mut HashMap<u64, u64>, offset: u64) -> (score: u64)
    requires
        number_hands(old(scores)@, offset as nat, straight_hands()).1 <= u64::MAX,
    ensures
        (final(scores)@, score as nat) == number_hands(old(scores)@, offset as nat, straight_hands()),
{
    let mut hands: Vec<Hand> = Vec::new();
    let mut i: usize = 0;
    while i < 10
        invariant
            i <= 10,
            hands@ == straight_hands().take(i as int),
        decreases 10 - i,
    {
        hands.push(Hand::from_straight(rank_at(12 - i)));
        assert(hands@ == straight_hands().take(i + 1));
        i = i + 1;
    }
    assert(hands@ == straight_hands());
    number_all(scores, offset, &hands)
}

/// Numbers the flushes from `offset` on, those of the highest ranks first, and returns
/// the counter after them.
pub fn score_flush(scores: &mut HashMap<u64, u64>, offset: u64) -> (score: u64)
    requires
        number_hands(old(scores)@, offset as nat, Hand::flushes()).1 <= u64::MAX,
    ensures
        (final(scores)@, score as nat) == number_hands(old(scores)@, offset as nat, Hand::flushes()),
{
    let hands = Hand::flush_combos();
    number_all(scores, offset, &hands)
}

/// Numbers the keys of all combinations of five cards from `offset` on, those of the
/// highest cards first, and returns the counter after them.
pub fn score_high_card(scores: &mut HashMap<u64, u64>, offset: u64) -> (score: u64)
    requires
        number_hands(old(scores)@, offset as nat, Hand::combos(5)).1 <= u64::MAX,
    ensures
        (final(scores)@, score as nat) == number_hands(old(scores)@, offset as nat, Hand::combos(5)),
{
    proof {
        lemma_binomial_small(52);
    }
    let hands = Hand::get_hand_combos(5);
    number_all(scores, offset, &hands)
}

/// Doesn't need to consider flushes: five cards with `n >= 2` of one rank have none,
/// and a hand that an earlier category holds keeps the score it has.
pub fn score_n_of_a_kind(scores: &mut HashMap<u64, u64>, offset: u64, n: u64) -> (score: u64)
    requires
        n <= 4,
        number_hands(old(scores)@, offset as nat, kind_hands(n)).1 <= u64::MAX,
    ensures
        (final(scores)@, score as nat) == number_hands(old(scores)@, offset as nat, kind_hands(n)),
{
    proof {
        lemma_binomial_small(52);
    }
    let kickers = Hand::get_hand_combos(5 - n as usize);
    let total = kickers.len();
    let mut hands: Vec<Hand> = Vec::new();
    let mut i: usize = 0;
    while i < 13
        invariant
            i <= 13,
            n <= 4,
            total == kickers.len(),
            kickers@ == Hand::combos((5 - n) as nat),
            hands@ == gather(i as nat, kind_hands_at(n)),
        decreases 13 - i,
    {
        let set_rank = rank_at(12 - i);
        let ghost pick = kind_pick(set_rank, n);
        let mut j: usize = 0;
        while j < total
            invariant
                j <= total,
                i < 13,
                n <= 4,
                total == kickers.len(),
                set_rank == Rank::at((12 - i) as nat),
                pick == kind_pick(set_rank, n),
                hands@ == gather(i as nat, kind_hands_at(n)) + kickers@.take(j as int).filter_map(pick),
            decreases total - j,
        {
            assert(kickers@.take(j + 1).drop_last() =~= kickers@.take(j as int));
            if !kickers[j].contains_rank(set_rank) {
                let hand = Hand::from_n_rank(set_rank, n) | kickers[j];
                hands.push(hand);
            }
            assert(hands@ =~= gather(i as nat, kind_hands_at(n)) + kickers@.take(j + 1).filter_map(
                pick,
            ));
            j = j + 1;
        }
        assert(kickers@.take(total as int) =~= kickers@);
        i = i + 1;
    }
    number_all(scores, offset, &hands)
}

/// Doesn't need to consider flushes either: a full house has none.
pub fn score_full_house(scores: &mut HashMap<u64, u64>, offset: u64) -> (score: u64)
    requires
        number_hands(old(scores)@, offset as nat, full_house_hands()).1 <= u64::MAX,
    ensures
        (final(scores)@, score as nat) == number_hands(old(scores)@, offset as nat, full_house_hands()),
{
    let mut hands: Vec<Hand> = Vec::new();
    let mut i: usize = 0;
    while i < 13
        invariant
            i <= 13,
            hands@ == gather(i as nat, full_house_hands_at()),
        decreases 13 - i,
    {
        let three_rank = rank_at(12 - i);
        let ghost pick = full_house_pick(three_rank);
        let mut j: usize = 0;
        while j < 13
            invariant
                j <= 13,
                i < 13,
                three_rank == Rank::at((12 - i) as nat),
                pick == full_house_pick(three_rank),
                hands@ == gather(i as nat, full_house_hands_at()) + ranks_down().take(j as int).filter_map(
                    pick,
                ),
            decreases 13 - j,
        {
            let pair_rank = rank_at(12 - j);
            assert(ranks_down().take(j + 1).drop_last() =~= ranks_down().take(j as int));
            if three_rank != pair_rank {
                let mut hand = Hand::from_n_rank(three_rank, 3);
                hand.add_n_rank(pair_rank, 2);
                hands.push(hand);
            }
            assert(hands@ =~= gather(i as nat, full_house_hands_at()) + ranks_down().take(
                j + 1,
            ).filter_map(pick));
            j = j + 1;
        }
        assert(ranks_down().take(13) =~= ranks_down());
        i = i + 1;
    }
    number_all(scores, offset, &hands)
}

/// Numbers the two pairs from `offset` on: the higher pair from the `Ace` down, then the
/// lower pair, then the kicker. Returns the counter after them.
pub fn score_two_pair(scores: &mut HashMap<u64, u64>, offset: u64) -> (score: u64)
    requires
        number_hands(old(scores)@, offset as nat, two_pair_hands()).1 <= u64::MAX,
    ensures
        (final(scores)@, score as nat) == number_hands(old(scores)@, offset as nat, two_pair_hands()),
{
    let mut hands: Vec<Hand> = Vec::new();
    let mut a: usize = 0;
    while a < 12
        invariant
            a <= 12,
            hands@ == gather(a as nat, two_pair_hands_at()),
        decreases 12 - a,
    {
        let high_pair: usize = 12 - a;
        let mut b: usize = 0;
        while b < high_pair
            invariant
                b <= high_pair,
                a < 12,
                high_pair == 12 - a,
                hands@ == gather(a as nat, two_pair_hands_at()) + gather(
                    b as nat,
                    low_pair_hands_at(high_pair as nat),
                ),
            decreases high_pair - b,
        {
            let low_pair: usize = high_pair - 1 - b;
            let mut hand = Hand::from_n_rank(rank_at(high_pair), 2);
            hand.add_n_rank(rank_at(low_pair), 2);
            let ghost base = hand;
            let ghost pick = kicker_pick(base);
            let mut k: usize = 0;
            while k < 13
                invariant
                    k <= 13,
                    hand == base,
                    pick == kicker_pick(base),
                    hands@ == gather(a as nat, two_pair_hands_at()) + gather(
                        b as nat,
                        low_pair_hands_at(high_pair as nat),
                    ) + ranks_down().take(k as int).filter_map(pick),
                decreases 13 - k,
            {
                let kicker = rank_at(12 - k);
                assert(ranks_down().take(k + 1).drop_last() =~= ranks_down().take(k as int));
                if !hand.contains_rank(kicker) {
                    hand.add_rank(kicker);
                    hands.push(hand);
                    hand.take_rank(kicker);
                    proof {
                        base.lemma_add_then_take(kicker);
                    }
                }
                assert(hands@ =~= gather(a as nat, two_pair_hands_at()) + gather(
                    b as nat,
                    low_pair_hands_at(high_pair as nat),
                ) + ranks_down().take(k + 1).filter_map(pick));
                k = k + 1;
            }
            assert(ranks_down().take(13) =~= ranks_down());
            assert(hands@ =~= gather(a as nat, two_pair_hands_at()) + gather(
                (b + 1) as nat,
                low_pair_hands_at(high_pair as nat),
            ));
            b = b + 1;
        }
        a = a + 1;
    }
    number_all(scores, offset, &hands)
}

/// The hands of each of the nine categories in the order in which the table is
/// built: straight flush, four of a kind, full house, flush, straight, three of a
/// kind, two pair, pair, high card. From the second category on a sequence also holds
/// hands of stronger categories, which have their score by then.
pub open spec fn category_hands(category: nat) -> Seq<Hand> {
    if category == 0 {
        straight_flush_hands()
    } else if category == 1 {
        kind_hands(4)
    } else if category == 2 {
        full_house_hands()
    } else if category == 3 {
        Hand::flushes()
    } else if category == 4 {
        straight_hands()
    } else if category == 5 {
        kind_hands(3)
    } else if category == 6 {
        two_pair_hands()
    } else if category == 7 {
        kind_hands(2)
    } else if category == 8 {
        Hand::combos(5)
    } else {
        Seq::empty()
    }
}

/// The table and the counter after the first `categories` categories.
pub open spec fn table_after(categories: nat) -> (Map<u64, u64>, nat)
    decreases categories,
{
    if categories == 0 {
        (Map::empty(), 0)
    } else {
        let before = table_after((categories - 1) as nat);
        number_hands(before.0, before.1, category_hands((categories - 1) as nat))
    }
}

/// The finished table and the number of keys in it.
pub open spec fn score_table() -> (Map<u64, u64>, nat) {
    table_after(9)
}

/// A table whose scores are the numbers below `next`, each the score of one key.
pub open spec fn dense(scores: Map<u64, u64>, next: nat) -> bool {
    &&& scores.dom().finite()
    &&& scores.dom().len() == next
    &&& forall|k: u64| scores.contains_key(k) ==> #[trigger] scores[k] < next
    &&& forall|k1: u64, k2: u64|
        scores.contains_key(k1) && scores.contains_key(k2) && k1 != k2 ==> #[trigger] scores[k1]
            != #[trigger] scores[k2]
    &&& forall|v: u64| v < next ==> #[trigger] scored(scores, v)
}

/// Whether some key of the table has the score `v`.
pub open spec fn scored(scores: Map<u64, u64>, v: u64) -> bool {
    exists|k: u64| scores.contains_key(k) && #[trigger] scores[k] == v
}

/// A table that holds the key of every set of five cards.
pub open spec fn complete(scores: Map<u64, u64>) -> bool {
    forall|cards: Set<Card>|
        cards.finite() && cards.len() == 5 ==> scores.contains_key(#[trigger] Hand::encode(cards)@)
}

/// Picking from a sequence gives no more than the sequence holds.
pub proof fn lemma_filter_map_len<A, B>(s: Seq<A>, f: spec_fn(A) -> Option<B>)
    ensures
        s.filter_map(f).len() <= s.len(),
    decreases s.len(),
{
    if s.len() > 0 {
        lemma_filter_map_len(s.drop_last(), f);
    }
}

/// Gathering `n` sequences of at most `bound` items gives at most `n * bound` items.
pub proof fn lemma_gather_len<A>(n: nat, f: spec_fn(nat) -> Seq<A>, bound: nat)
    requires
        forall|i: nat| i < n ==> (#[trigger] f(i)).len() <= bound,
    ensures
        gather(n, f).len() <= n * bound,
    decreases n,
{
    if n > 0 {
        lemma_gather_len((n - 1) as nat, f, bound);
        assert((n - 1) * bound + bound == n * bound) by (nonlinear_arith);
    }
}

/// There is a key for each combination of `n` cards of the deck.
pub proof fn lemma_combos_len(n: nat)
    ensures
        Hand::combos(n).len() == binomial(52, n),
{
    lemma_combinations_len(Card::deck().reverse(), n);
}

/// No category has more than 40,000,000 hands in its sequence.
pub proof fn lemma_category_size(category: nat)
    ensures
        category_hands(category).len() <= 40_000_000,
{
    lemma_binomial_small(52);
    lemma_binomial_small(13);
    if category == 1 || category == 5 || category == 7 {
        let n: u64 = if category == 1 {
            4
        } else if category == 5 {
            3
        } else {
            2
        };
        lemma_combos_len((5 - n) as nat);
        assert forall|i: nat| i < 13 implies (#[trigger] kind_hands_at(n)(i)).len() <= 2_598_960 by {
            lemma_filter_map_len(
                Hand::combos((5 - n) as nat),
                kind_pick(Rank::at((12 - i) as nat), n),
            );
        }
        lemma_gather_len(13, kind_hands_at(n), 2_598_960);
    } else if category == 2 {
        assert forall|i: nat| i < 13 implies (#[trigger] full_house_hands_at()(i)).len() <= 13 by {
            lemma_filter_map_len(ranks_down(), full_house_pick(Rank::at((12 - i) as nat)));
        }
        lemma_gather_len(13, full_house_hands_at(), 13);
    } else if category == 3 {
        lemma_combinations_len(Hand::flush_singles(), 5);
    } else if category == 6 {
        assert forall|a: nat| a < 12 implies (#[trigger] two_pair_hands_at()(a)).len() <= 169 by {
            let high = (12 - a) as nat;
            assert forall|b: nat| b < high implies (#[trigger] low_pair_hands_at(high)(b)).len()
                <= 13 by {
                lemma_filter_map_len(
                    ranks_down(),
                    kicker_pick(
                        Hand::of_n_rank(Rank::at(high), 2).with_more(Rank::at((high - 1 - b) as nat), 2),
                    ),
                );
            }
            lemma_gather_len(high, low_pair_hands_at(high), 13);
            assert(high * 13 <= 169) by (nonlinear_arith)
                requires
                    high <= 12,
            ;
        }
        lemma_gather_len(12, two_pair_hands_at(), 169);
    } else if category == 8 {
        lemma_combos_len(5);
    }
}

/// The counter stays far below the limit of a score.
pub proof fn lemma_table_after_bound(categories: nat)
    ensures
        table_after(categories).1 <= categories * 40_000_000,
    decreases categories,
{
    if categories > 0 {
        let before = table_after((categories - 1) as nat);
        lemma_table_after_bound((categories - 1) as nat);
        lemma_category_size((categories - 1) as nat);
        lemma_number_bounds(before.0, before.1, category_hands((categories - 1) as nat));
    }
}

/// Numbering keeps the keys and scores that the table has, and so does it with a
/// table that is dense up to the counter.
pub proof fn lemma_number_dense(scores: Map<u64, u64>, next: nat, hands: Seq<Hand>)
    requires
        dense(scores, next),
        number_hands(scores, next, hands).1 <= u64::MAX,
    ensures
        dense(number_hands(scores, next, hands).0, number_hands(scores, next, hands).1),
        forall|k: u64| #[trigger]
            scores.contains_key(k) ==> number_hands(scores, next, hands).0.contains_key(k)
                && number_hands(scores, next, hands).0[k] == scores[k],
        forall|k: u64| #[trigger]
            number_hands(scores, next, hands).0.contains_key(k) && !scores.contains_key(k) ==> next
                <= number_hands(scores, next, hands).0[k],
        forall|i: int|
            0 <= i < hands.len() ==> number_hands(scores, next, hands).0.contains_key(
                #[trigger] hands[i]@,
            ),
    decreases hands.len(),
{
    if hands.len() > 0 {
        let rest = hands.drop_last();
        let before = number_hands(scores, next, rest);
        let after = number_hands(scores, next, hands);
        lemma_number_bounds(before.0, before.1, seq![hands.last()]);
        assert(before.1 <= after.1);
        lemma_number_dense(scores, next, rest);
        lemma_number_bounds(scores, next, rest);
        let key = hands.last()@;
        if !before.0.contains_key(key) {
            assert(after.0 == before.0.insert(key, before.1 as u64));
            assert(after.0.dom() =~= before.0.dom().insert(key));
            assert forall|v: u64| v < after.1 implies #[trigger] scored(after.0, v) by {
                if v < before.1 {
                    assert(scored(before.0, v));
                    let k = choose|k: u64| before.0.contains_key(k) && #[trigger] before.0[k] == v;
                    assert(after.0.contains_key(k) && after.0[k] == v);
                } else {
                    assert(after.0.contains_key(key) && after.0[key] == v);
                }
            }
            assert forall|k1: u64, k2: u64|
                after.0.contains_key(k1) && after.0.contains_key(k2) && k1 != k2 implies #[trigger] after.0[k1]
                != #[trigger] after.0[k2] by {
                if k1 != key && k2 != key {
                    assert(before.0[k1] != before.0[k2]);
                } else if k1 == key {
                    assert(before.0[k2] < before.1);
                } else {
                    assert(before.0[k1] < before.1);
                }
            }
            assert forall|k: u64| after.0.contains_key(k) implies #[trigger] after.0[k] < after.1 by {
                if k != key {
                    assert(before.0[k] < before.1);
                }
            }
        }
        assert forall|i: int| 0 <= i < hands.len() implies after.0.contains_key(
            #[trigger] hands[i]@,
        ) by {
            if i < hands.len() - 1 {
                assert(rest[i] == hands[i]);
            }
        }
    }
}

/// After each category the table is dense and the counter is below the limit of a
/// score.
pub proof fn lemma_table_after_dense(categories: nat)
    requires
        categories <= 9,
    ensures
        dense(table_after(categories).0, table_after(categories).1),
        table_after(categories).1 <= 360_000_000,
    decreases categories,
{
    lemma_table_after_bound(categories);
    if categories > 0 {
        let before = table_after((categories - 1) as nat);
        lemma_table_after_dense((categories - 1) as nat);
        lemma_number_dense(before.0, before.1, category_hands((categories - 1) as nat));
    } else {
        assert(Map::<u64, u64>::empty().dom() =~= Set::<u64>::empty());
    }
}

/// A category leaves the keys and scores of the categories before it as they are.
pub proof fn lemma_table_after_grows(earlier: nat, later: nat, key: u64)
    requires
        earlier <= later <= 9,
        table_after(earlier).0.contains_key(key),
    ensures
        table_after(later).0.contains_key(key),
        table_after(later).0[key] == table_after(earlier).0[key],
    decreases later,
{
    if earlier < later {
        let before = table_after((later - 1) as nat);
        lemma_table_after_grows(earlier, (later - 1) as nat, key);
        lemma_table_after_dense((later - 1) as nat);
        lemma_table_after_dense(later);
        lemma_number_dense(before.0, before.1, category_hands((later - 1) as nat));
    }
}

/// The finished table holds the key of every set of five cards.
pub proof fn lemma_score_table_complete()
    ensures
        complete(score_table().0),
{
    let before = table_after(8);
    lemma_table_after_dense(8);
    lemma_table_after_dense(9);
    lemma_number_dense(before.0, before.1, Hand::combos(5));
    lemma_deck_reversed();
    let deck = Card::deck().reverse();
    assert forall|cards: Set<Card>| cards.finite() && cards.len() == 5 implies score_table().0.contains_key(
        #[trigger] Hand::encode(cards)@,
    ) by {
        assert(cards.subset_of(deck.to_set()));
        let j = lemma_combinations_complete(deck, 5, cards);
        assert(Hand::combos(5)[j] == Hand::encode(cards));
    }
}

/// The highest straight flush is the first key of the table: its score is 0.
pub proof fn lemma_royal_flush_first()
    ensures
        score_table().0.contains_key(Hand::straight_flush(Rank::Ace)@),
        score_table().0[Hand::straight_flush(Rank::Ace)@] == 0,
{
    let royal = Hand::straight_flush(Rank::Ace);
    let first = straight_flush_hands();
    assert(first[0] == royal);
    lemma_number_first(Map::empty(), 0, first);
    assert(table_after(1) == number_hands(table_after(0).0, table_after(0).1, first));
    lemma_table_after_grows(1, 9, royal@);
}

/// The first hand of a sequence gets the counter's value where its key is new.
pub proof fn lemma_number_first(scores: Map<u64, u64>, next: nat, hands: Seq<Hand>)
    requires
        hands.len() > 0,
        !scores.contains_key(hands[0]@),
    ensures
        number_hands(scores, next, hands).0.contains_key(hands[0]@),
        number_hands(scores, next, hands).0[hands[0]@] == next as u64,
    decreases hands.len(),
{
    if hands.len() > 1 {
        lemma_number_first(scores, next, hands.drop_last());
        assert(hands.drop_last()[0] == hands[0]);
    } else {
        assert(hands.drop_last() =~= Seq::<Hand>::empty());
        assert(number_hands(scores, next, hands.drop_last()) == (scores, next));
    }
}

/// Whether each place of `y` in the sequence comes after a place of `x`.
pub open spec fn precedes<A>(s: Seq<A>, x: A, y: A) -> bool {
    forall|j: int|
        0 <= j < s.len() && #[trigger] s[j] == y ==> exists|i: int| 0 <= i < j && #[trigger] s[i] == x
}

/// What is picked keeps its order: `x` comes before `y` among the picked where it
/// is picked from an earlier item than each item that `y` is picked from.
pub proof fn lemma_filter_map_precedes<A, B>(s: Seq<A>, f: spec_fn(A) -> Option<B>, x: B, y: B)
    requires
        forall|j: int|
            0 <= j < s.len() && f(#[trigger] s[j]) == Some(y) ==> exists|i: int|
                0 <= i < j && f(#[trigger] s[i]) == Some(x),
    ensures
        precedes(s.filter_map(f), x, y),
    decreases s.len(),
{
    if s.len() > 0 {
        let rest = s.drop_last();
        let picked = rest.filter_map(f);
        assert forall|j: int|
            0 <= j < rest.len() && f(#[trigger] rest[j]) == Some(y) implies exists|i: int|
            0 <= i < j && f(#[trigger] rest[i]) == Some(x) by {
            assert(s[j] == rest[j]);
            let i = choose|i: int| 0 <= i < j && f(#[trigger] s[i]) == Some(x);
            assert(rest[i] == s[i]);
        }
        lemma_filter_map_precedes(rest, f, x, y);
        assert forall|j: int| 0 <= j < s.filter_map(f).len() && #[trigger] s.filter_map(f)[j]
            == y implies exists|i: int| 0 <= i < j && #[trigger] s.filter_map(f)[i] == x by {
            if j < picked.len() {
                assert(picked[j] == y);
                let i = choose|i: int| 0 <= i < j && #[trigger] picked[i] == x;
                assert(s.filter_map(f)[i] == x);
            } else {
                assert(f(s[s.len() - 1]) == Some(y));
                let at = choose|i: int| 0 <= i < s.len() - 1 && f(#[trigger] s[i]) == Some(x);
                assert(rest[at] == s[at]);
                assert(rest.contains(rest[at]));
                crate::category::lemma_filter_map_holds(rest, f, rest[at]);
                let i = choose|i: int| 0 <= i < picked.len() && picked[i] == x;
                assert(s.filter_map(f)[i] == x);
            }
        }
    }
}

/// In a gathered sequence `x` comes before `y` where, for each part, an earlier part
/// holds `x` or `x` comes before `y` in the part itself.
pub proof fn lemma_gather_precedes<A>(n: nat, f: spec_fn(nat) -> Seq<A>, x: A, y: A)
    requires
        forall|i: nat|
            i < n ==> (exists|e: nat| e < i && (#[trigger] f(e)).contains(x)) || precedes(
                #[trigger] f(i),
                x,
                y,
            ),
    ensures
        precedes(gather(n, f), x, y),
    decreases n,
{
    if n > 0 {
        let before = gather((n - 1) as nat, f);
        let last = f((n - 1) as nat);
        lemma_gather_precedes((n - 1) as nat, f, x, y);
        assert forall|j: int| 0 <= j < gather(n, f).len() && #[trigger] gather(n, f)[j]
            == y implies exists|i: int| 0 <= i < j && #[trigger] gather(n, f)[i] == x by {
            if j < before.len() {
                assert(before[j] == y);
                let i = choose|i: int| 0 <= i < j && #[trigger] before[i] == x;
                assert(gather(n, f)[i] == x);
            } else {
                let at = j - before.len();
                assert(last[at] == y);
                if exists|e: nat| e < n - 1 && (#[trigger] f(e)).contains(x) {
                    let e = choose|e: nat| e < n - 1 && (#[trigger] f(e)).contains(x);
                    crate::category::lemma_gather_holds((n - 1) as nat, f, e, x);
                    let i = choose|i: int| 0 <= i < before.len() && before[i] == x;
                    assert(gather(n, f)[i] == x);
                } else {
                    assert(precedes(last, x, y));
                    let i = choose|i: int| 0 <= i < at && #[trigger] last[i] == x;
                    assert(gather(n, f)[before.len() + i] == x);
                }
            }
        }
    }
}

/// A hand whose key is new gets a higher score than a hand that comes before it.
pub proof fn lemma_number_order(scores: Map<u64, u64>, next: nat, hands: Seq<Hand>, x: Hand, y: Hand)
    requires
        dense(scores, next),
        number_hands(scores, next, hands).1 <= u64::MAX,
        !scores.contains_key(y@),
        hands.contains(y),
        precedes(hands, x, y),
        x != y,
    ensures
        number_hands(scores, next, hands).0.contains_key(x@),
        number_hands(scores, next, hands).0.contains_key(y@),
        number_hands(scores, next, hands).0[x@] < number_hands(scores, next, hands).0[y@],
    decreases hands.len(),
{
    let rest = hands.drop_last();
    let last = hands.last();
    let before = number_hands(scores, next, rest);
    let at = choose|j: int| 0 <= j < hands.len() && hands[j] == y;
    lemma_number_bounds(before.0, before.1, seq![last]);
    lemma_number_dense(scores, next, rest);
    if rest.contains(y) {
        assert(precedes(rest, x, y)) by {
            assert forall|j: int| 0 <= j < rest.len() && #[trigger] rest[j] == y implies exists|i: int|
                0 <= i < j && #[trigger] rest[i] == x by {
                assert(hands[j] == y);
                let i = choose|i: int| 0 <= i < j && #[trigger] hands[i] == x;
                assert(rest[i] == x);
            }
        }
        lemma_number_order(scores, next, rest, x, y);
    } else {
        if at < rest.len() {
            assert(rest[at] == y);
        }
        assert(hands[hands.len() - 1] == y);
        let i = choose|i: int| 0 <= i < hands.len() - 1 && #[trigger] hands[i] == x;
        assert(rest[i] == x);
        assert(before.0.contains_key(rest[i]@));
        assert(before.0[x@] < before.1);
        if before.0.contains_key(y@) {
            assert(!scores.contains_key(y@));
            lemma_number_from(scores, next, rest, y@);
            let k = choose|k: int| 0 <= k < rest.len() && (#[trigger] rest[k])@ == y@;
            Hand::lemma_view_injective(rest[k], y);
        }
    }
}

/// A key that numbering has added is the key of one of the hands.
pub proof fn lemma_number_from(scores: Map<u64, u64>, next: nat, hands: Seq<Hand>, key: u64)
    requires
        number_hands(scores, next, hands).0.contains_key(key),
        !scores.contains_key(key),
    ensures
        exists|k: int| 0 <= k < hands.len() && (#[trigger] hands[k])@ == key,
    decreases hands.len(),
{
    if hands.len() > 0 {
        let rest = hands.drop_last();
        if number_hands(scores, next, rest).0.contains_key(key) {
            lemma_number_from(scores, next, rest, key);
            let k = choose|k: int| 0 <= k < rest.len() && (#[trigger] rest[k])@ == key;
            assert(hands[k]@ == key);
        } else {
            assert(hands[hands.len() - 1]@ == key);
        }
    }
}

/// Hands with new keys, none of them twice, get the scores from the counter on in
/// their order.
pub proof fn lemma_number_fresh(scores: Map<u64, u64>, next: nat, hands: Seq<Hand>)
    requires
        hands.no_duplicates(),
        forall|i: int| 0 <= i < hands.len() ==> !scores.contains_key(#[trigger] hands[i]@),
        next + hands.len() <= u64::MAX,
    ensures
        number_hands(scores, next, hands).1 == next + hands.len(),
        forall|i: int|
            0 <= i < hands.len() ==> number_hands(scores, next, hands).0.contains_key(
                #[trigger] hands[i]@,
            ) && number_hands(scores, next, hands).0[hands[i]@] == next + i,
        forall|k: u64| #[trigger]
            scores.contains_key(k) ==> number_hands(scores, next, hands).0.contains_key(k)
                && number_hands(scores, next, hands).0[k] == scores[k],
    decreases hands.len(),
{
    if hands.len() > 0 {
        let rest = hands.drop_last();
        let last = hands.last();
        let before = number_hands(scores, next, rest);
        assert forall|i: int| 0 <= i < rest.len() implies !scores.contains_key(#[trigger] rest[i]@) by {
            assert(rest[i] == hands[i]);
        }
        lemma_number_fresh(scores, next, rest);
        if before.0.contains_key(last@) {
            assert(!scores.contains_key(hands[hands.len() - 1]@));
            lemma_number_from(scores, next, rest, last@);
            let k = choose|k: int| 0 <= k < rest.len() && (#[trigger] rest[k])@ == last@;
            Hand::lemma_view_injective(rest[k], last);
            assert(hands[k] == hands[hands.len() - 1]);
        }
        assert forall|i: int| 0 <= i < hands.len() implies number_hands(
            scores,
            next,
            hands,
        ).0.contains_key(#[trigger] hands[i]@) && number_hands(scores, next, hands).0[hands[i]@]
            == next + i by {
            if i < rest.len() {
                assert(rest[i] == hands[i]);
                assert(before.0.contains_key(rest[i]@));
            }
        }
    }
}

/// Builds the score table: the key of every set of five cards with its dense strength
/// rank, and the number of keys.
pub fn create_score_table() -> (table: (HashMap<u64, u64>, u64))
    ensures
        (table.0@, table.1 as nat) == score_table(),
        table.1 == 7462,
        dense(table.0@, table.1 as nat),
        complete(table.0@),
        table.0@[Hand::straight_flush(Rank::Ace)@] == 0,
{
    let mut scores: HashMap<u64, u64> = HashMap::new();
    let mut score: u64 = 0;
    proof {
        lemma_table_after_dense(1);
        lemma_table_after_dense(2);
        lemma_table_after_dense(3);
        lemma_table_after_dense(4);
        lemma_table_after_dense(5);
        lemma_table_after_dense(6);
        lemma_table_after_dense(7);
        lemma_table_after_dense(8);
        lemma_table_after_dense(9);
    }
    assert((scores@, score as nat) == table_after(0));
    score = score_straight_flush(&mut scores, score);
    assert((scores@, score as nat) == table_after(1));
    score = score_n_of_a_kind(&mut scores, score, 4);
    assert((scores@, score as nat) == table_after(2));
    score = score_full_house(&mut scores, score);
    assert((scores@, score as nat) == table_after(3));
    score = score_flush(&mut scores, score);
    assert((scores@, score as nat) == table_after(4));
    score = score_straight(&mut scores, score);
    assert((scores@, score as nat) == table_after(5));
    score = score_n_of_a_kind(&mut scores, score, 3);
    assert((scores@, score as nat) == table_after(6));
    score = score_two_pair(&mut scores, score);
    assert((scores@, score as nat) == table_after(7));
    score = score_n_of_a_kind(&mut scores, score, 2);
    assert((scores@, score as nat) == table_after(8));
    score = score_high_card(&mut scores, score);
    assert((scores@, score as nat) == table_after(9));
    proof {
        lemma_score_table_complete();
        lemma_royal_flush_first();
        crate::counts::lemma_category_counts();
    }
    (scores, score)
}

} // verus!
