//! The nine categories of five-card hands, read from a key, and where the score table
//! puts the hands of each: a hand of a stronger category has the lower score.

use crate::card::{Card, Rank};
use crate::census::{
    flush_suit, lemma_flush_of_five, lemma_no_flush_of_few, lemma_rank_held, lemma_without_rank,
    rank_count, without_rank,
};
use crate::combos::{combinations_of, lemma_combination_members, lemma_combinations_complete};
use crate::hand::{Hand, in_straight};
use crate::table::{
    category_hands, full_house_hands_at, full_house_pick, gather, kicker_pick, kind_hands_at,
    kind_pick, lemma_deck_reversed, lemma_number_dense, lemma_royal_flush_first,
    lemma_table_after_dense, lemma_table_after_grows, low_pair_hands_at, number_hands,
    ranks_down, score_table, straight_flush_hands, straight_hands, table_after,
    two_pair_hands_at,
};
use vstd::prelude::*;

verus! {

/// Whether the key counts some rank exactly `n` times.
pub open spec fn has_count(hand: Hand, n: nat) -> bool {
    exists|r: Rank| hand.count(r) == n
}

/// Whether the key counts exactly the five ranks of the straight up to `high` once.
pub open spec fn straight_to(hand: Hand, high: Rank) -> bool {
    high.index() >= 3 && forall|r: Rank|
        hand.count(r) == (if in_straight(r, high) {
            1nat
        } else {
            0nat
        })
}

/// Whether the key counts exactly the five ranks of some straight once.
pub open spec fn is_straight(hand: Hand) -> bool {
    exists|high: Rank| straight_to(hand, high)
}

/// Whether the key counts two ranks twice.
pub open spec fn has_two_pairs(hand: Hand) -> bool {
    exists|a: Rank, b: Rank| a != b && hand.count(a) == 2 && hand.count(b) == 2
}

/// The category of the key of five cards, 0 for the strongest: straight flush, four
/// of a kind, full house, flush, straight, three of a kind, two pair, pair, high card.
pub open spec fn category(hand: Hand) -> nat {
    if hand.flush() && is_straight(hand) {
        0
    } else if has_count(hand, 4) {
        1
    } else if has_count(hand, 3) && has_count(hand, 2) {
        2
    } else if hand.flush() {
        3
    } else if is_straight(hand) {
        4
    } else if has_count(hand, 3) {
        5
    } else if has_two_pairs(hand) {
        6
    } else if has_count(hand, 2) {
        7
    } else {
        8
    }
}

/// Whether one of the hands has the key.
pub open spec fn keyed(hands: Seq<Hand>, key: u64) -> bool {
    exists|i: int| 0 <= i < hands.len() && (#[trigger] hands[i])@ == key
}

/// What a gathered sequence holds comes from one of its parts.
pub proof fn lemma_gather_from<A>(n: nat, f: spec_fn(nat) -> Seq<A>, x: A) -> (i: nat)
    requires
        gather(n, f).contains(x),
    ensures
        i < n,
        f(i).contains(x),
    decreases n,
{
    let all = gather(n, f);
    let j = choose|j: int| 0 <= j < all.len() && all[j] == x;
    if n == 0 {
        0
    } else {
        let before = gather((n - 1) as nat, f);
        if j < before.len() {
            assert(before[j] == x);
            lemma_gather_from((n - 1) as nat, f, x)
        } else {
            assert(f((n - 1) as nat)[j - before.len()] == x);
            (n - 1) as nat
        }
    }
}

/// A gathered sequence holds what its parts hold.
pub proof fn lemma_gather_holds<A>(n: nat, f: spec_fn(nat) -> Seq<A>, i: nat, x: A)
    requires
        i < n,
        f(i).contains(x),
    ensures
        gather(n, f).contains(x),
    decreases n,
{
    let before = gather((n - 1) as nat, f);
    let last = f((n - 1) as nat);
    if i == n - 1 {
        let j = choose|j: int| 0 <= j < last.len() && last[j] == x;
        assert(gather(n, f)[before.len() + j] == x);
    } else {
        lemma_gather_holds((n - 1) as nat, f, i, x);
        let j = choose|j: int| 0 <= j < before.len() && before[j] == x;
        assert(gather(n, f)[j] == x);
    }
}

/// Picking from a sequence keeps what is picked of each item.
pub proof fn lemma_filter_map_holds<A, B>(s: Seq<A>, f: spec_fn(A) -> Option<B>, item: A)
    requires
        s.contains(item),
        f(item) is Some,
    ensures
        s.filter_map(f).contains(f(item)->Some_0),
    decreases s.len(),
{
    let j = choose|j: int| 0 <= j < s.len() && s[j] == item;
    let rest = s.drop_last();
    let picked = rest.filter_map(f);
    if j == s.len() - 1 {
        assert(s.filter_map(f)[picked.len() as int] == f(item)->Some_0);
    } else {
        assert(rest[j] == item);
        lemma_filter_map_holds(rest, f, item);
        let i = choose|i: int| 0 <= i < picked.len() && picked[i] == f(item)->Some_0;
        assert(s.filter_map(f)[i] == f(item)->Some_0);
    }
}

/// After numbering, the table holds the keys that it held and those of the hands.
pub proof fn lemma_number_keys(scores: Map<u64, u64>, next: nat, hands: Seq<Hand>, key: u64)
    ensures
        number_hands(scores, next, hands).0.contains_key(key) <==> scores.contains_key(key) || keyed(
            hands,
            key,
        ),
    decreases hands.len(),
{
    if hands.len() > 0 {
        let rest = hands.drop_last();
        lemma_number_keys(scores, next, rest, key);
        if keyed(rest, key) {
            let i = choose|i: int| 0 <= i < rest.len() && (#[trigger] rest[i])@ == key;
            assert(hands[i]@ == key);
        }
        if keyed(hands, key) {
            let i = choose|i: int| 0 <= i < hands.len() && (#[trigger] hands[i])@ == key;
            if i < rest.len() {
                assert(rest[i]@ == key);
            }
        }
        if hands.last()@ == key {
            assert(hands[hands.len() - 1]@ == key);
        }
    }
}

/// A key of the table comes from the hands of one of the categories built so far.
pub proof fn lemma_table_keys(categories: nat, key: u64) -> (found: nat)
    requires
        table_after(categories).0.contains_key(key),
    ensures
        found < categories,
        keyed(category_hands(found), key),
    decreases categories,
{
    if categories == 0 {
        0
    } else {
        let before = table_after((categories - 1) as nat);
        lemma_number_keys(before.0, before.1, category_hands((categories - 1) as nat), key);
        if before.0.contains_key(key) {
            lemma_table_keys((categories - 1) as nat, key)
        } else {
            (categories - 1) as nat
        }
    }
}

/// The hands of `n` of a kind count some rank exactly `n` times.
proof fn lemma_kind_hands_count(n: u64, hand: Hand)
    requires
        n <= 4,
        gather(13, kind_hands_at(n)).contains(hand),
    ensures
        has_count(hand, n as nat),
{
    let i = lemma_gather_from(13, kind_hands_at(n), hand);
    let rank = Rank::at((12 - i) as nat);
    let pick = kind_pick(rank, n);
    Hand::combos((5 - n) as nat).lemma_filter_map_contains(pick, hand);
    let kickers = choose|k: Hand| #[trigger] Hand::combos((5 - n) as nat).contains(k) && pick(k) == Some(hand);
    Hand::lemma_of_n_rank(rank, n);
    Hand::of_n_rank(rank, n).lemma_union(kickers);
    assert(hand.count(rank) == n);
}

/// Every hand in the sequence of a category is of that category or a stronger one.
pub proof fn lemma_category_sound(c: nat, hand: Hand)
    requires
        category_hands(c).contains(hand),
    ensures
        category(hand) <= c,
{
    let hands = category_hands(c);
    let j = choose|j: int| 0 <= j < hands.len() && hands[j] == hand;
    if c == 0 {
        let high = Rank::at((12 - j) as nat);
        Hand::lemma_straight_flush(high);
        assert(straight_to(hand, high));
    } else if c == 1 {
        lemma_kind_hands_count(4, hand);
    } else if c == 2 {
        let i = lemma_gather_from(13, full_house_hands_at(), hand);
        let three = Rank::at((12 - i) as nat);
        ranks_down().lemma_filter_map_contains(full_house_pick(three), hand);
        let pair = choose|p: Rank| #[trigger]
            ranks_down().contains(p) && full_house_pick(three)(p) == Some(hand);
        Hand::lemma_of_n_rank(three, 3);
        Hand::of_n_rank(three, 3).lemma_with_more(pair, 2);
        assert(hand.count(three) == 3);
        assert(hand.count(pair) == 2);
    } else if c == 3 {
        let singles = Hand::flush_singles();
        let combo = combinations_of(singles, 5)[j];
        lemma_combination_members(singles, 5, j);
        let last = combo.last();
        assert(singles.contains(combo[4]));
        let at = choose|at: int| 0 <= at < singles.len() && singles[at] == last;
        Hand::lemma_flush_single(Rank::at((12 - at) as nat));
        Hand::union_all(combo.drop_last()).lemma_union(last);
        assert(hand.flush());
    } else if c == 4 {
        let high = Rank::at((12 - j) as nat);
        Hand::lemma_straight(high);
        assert(straight_to(hand, high));
    } else if c == 5 {
        lemma_kind_hands_count(3, hand);
    } else if c == 6 {
        let a = lemma_gather_from(12, two_pair_hands_at(), hand);
        let high = (12 - a) as nat;
        let b = lemma_gather_from(high, low_pair_hands_at(high), hand);
        let high_rank = Rank::at(high);
        let low_rank = Rank::at((high - 1 - b) as nat);
        let base = Hand::of_n_rank(high_rank, 2).with_more(low_rank, 2);
        ranks_down().lemma_filter_map_contains(kicker_pick(base), hand);
        let kicker = choose|k: Rank| #[trigger]
            ranks_down().contains(k) && kicker_pick(base)(k) == Some(hand);
        Hand::lemma_of_n_rank(high_rank, 2);
        Hand::of_n_rank(high_rank, 2).lemma_with_more(low_rank, 2);
        base.lemma_with_more(kicker, 1);
        assert(high_rank != low_rank);
        assert(hand.count(high_rank) == 2);
        assert(hand.count(low_rank) == 2);
    } else if c == 7 {
        lemma_kind_hands_count(2, hand);
    }
}

/// Every rank is among the ranks from the `Ace` down.
pub proof fn lemma_ranks_down_holds(rank: Rank)
    ensures
        ranks_down().contains(rank),
        Rank::at((12 - (12 - rank.index())) as nat) == rank,
        Rank::at(rank.index()) == rank,
{
    assert(ranks_down()[12 - rank.index()] == rank);
}

/// The key of the cards is among the keys of the combinations of as many cards.
pub proof fn lemma_combos_hold(cards: Set<Card>)
    requires
        cards.finite(),
    ensures
        Hand::combos(cards.len()).contains(Hand::encode(cards)),
{
    lemma_deck_reversed();
    let deck = Card::deck().reverse();
    assert(cards.subset_of(deck.to_set()));
    let j = lemma_combinations_complete(deck, cards.len(), cards);
    assert(Hand::combos(cards.len())[j] == Hand::encode(cards));
}

/// Five cards that hold a rank twice or more have no flush.
pub proof fn lemma_no_flush_with_pair(cards: Set<Card>, rank: Rank)
    requires
        cards.finite(),
        cards.len() == 5,
        rank_count(cards, rank) >= 2,
    ensures
        flush_suit(cards) is None,
{
    if flush_suit(cards) is Some {
        lemma_flush_of_five(cards, flush_suit(cards)->Some_0);
        assert(rank_count(cards, rank) <= 1);
    }
}

/// The key of five cards that hold `rank` twice or more is that number of cards of
/// the rank beside the key of the other cards, and stands among the hands of that
/// many of a kind.
pub proof fn lemma_kind_complete(cards: Set<Card>, rank: Rank, n: u64)
    requires
        cards.finite(),
        cards.len() == 5,
        2 <= n <= 4,
        rank_count(cards, rank) == n,
    ensures
        gather(13, kind_hands_at(n)).contains(Hand::encode(cards)),
        kind_hands_at(n)((12 - rank.index()) as nat).contains(Hand::encode(cards)),
        Hand::encode(cards) == Hand::of_n_rank(rank, n).union(Hand::encode(without_rank(cards, rank))),
        Hand::encode(without_rank(cards, rank)).encodes(without_rank(cards, rank)),
        Hand::encode(without_rank(cards, rank)).suitless(),
        Hand::encode(cards).suitless(),
{
    let key = Hand::encode(cards);
    let rest = without_rank(cards, rank);
    let kickers = Hand::encode(rest);
    let kind = Hand::of_n_rank(rank, n);
    Hand::lemma_encode_exists(cards);
    lemma_without_rank(cards, rank);
    Hand::lemma_encode_exists(rest);
    lemma_no_flush_with_pair(cards, rank);
    lemma_no_flush_of_few(rest);
    Hand::lemma_of_n_rank(rank, n);
    kind.lemma_union(kickers);
    assert forall|r: Rank| key.count(r) == kind.union(kickers).count(r) by {
        if r != rank {
            assert(rank_count(rest, r) == rank_count(cards, r));
        }
    }
    assert forall|r: Rank| key.marked(r) == kind.union(kickers).marked(r) by {
        assert(!kind.marked(r) && !kickers.marked(r));
    }
    assert(kind.canonical() && kickers.canonical());
    assert(!kind.flush() && !kickers.flush() && !key.flush());
    Hand::lemma_equal(key, kind.union(kickers));
    lemma_combos_hold(rest);
    lemma_ranks_down_holds(rank);
    let i = (12 - rank.index()) as nat;
    lemma_filter_map_holds(Hand::combos((5 - n) as nat), kind_pick(rank, n), kickers);
    assert(kind_hands_at(n)(i).contains(key));
    lemma_gather_holds(13, kind_hands_at(n), i, key);
}

/// The key of five cards that hold one rank three times and another twice stands
/// among the full houses.
pub proof fn lemma_full_house_complete(cards: Set<Card>, three: Rank, pair: Rank)
    requires
        cards.finite(),
        cards.len() == 5,
        rank_count(cards, three) == 3,
        rank_count(cards, pair) == 2,
    ensures
        gather(13, full_house_hands_at()).contains(Hand::encode(cards)),
        full_house_hands_at()((12 - three.index()) as nat).contains(Hand::encode(cards)),
        Hand::encode(cards) == Hand::of_n_rank(three, 3).with_more(pair, 2),
        forall|r: Rank| r != three && r != pair ==> Hand::encode(cards).count(r) == 0,
{
    let key = Hand::encode(cards);
    let rest = without_rank(cards, three);
    let full = Hand::of_n_rank(three, 3).with_more(pair, 2);
    Hand::lemma_encode_exists(cards);
    lemma_without_rank(cards, three);
    lemma_no_flush_with_pair(cards, three);
    assert(rank_count(rest, pair) == 2);
    let pairs = rest.filter(|c: Card| c.rank == pair);
    vstd::set_lib::lemma_set_subset_finite(rest, pairs);
    vstd::set_lib::lemma_subset_equality(pairs, rest);
    Hand::lemma_of_n_rank(three, 3);
    Hand::of_n_rank(three, 3).lemma_with_more(pair, 2);
    assert forall|r: Rank| key.count(r) == full.count(r) by {
        if r != three && r != pair {
            assert(rank_count(rest, r) == rank_count(cards, r));
            assert(rest.filter(|c: Card| c.rank == r) =~= Set::<Card>::empty()) by {
                assert forall|c: Card| !(rest.contains(c) && c.rank == r) by {
                    if rest.contains(c) {
                        assert(pairs.contains(c));
                    }
                }
            }
        }
    }
    Hand::lemma_equal(key, full);
    lemma_ranks_down_holds(three);
    lemma_ranks_down_holds(pair);
    let i = (12 - three.index()) as nat;
    lemma_filter_map_holds(ranks_down(), full_house_pick(three), pair);
    assert(full_house_hands_at()(i).contains(key));
    lemma_gather_holds(13, full_house_hands_at(), i, key);
}

/// The key of five cards that hold two ranks twice stands among the two pairs.
pub proof fn lemma_two_pair_complete(cards: Set<Card>, high: Rank, low: Rank) -> (kicker: Rank)
    requires
        cards.finite(),
        cards.len() == 5,
        high.index() > low.index(),
        rank_count(cards, high) == 2,
        rank_count(cards, low) == 2,
    ensures
        gather(12, two_pair_hands_at()).contains(Hand::encode(cards)),
        two_pair_hands_at()((12 - high.index()) as nat).contains(Hand::encode(cards)),
        low_pair_hands_at(high.index())((high.index() - 1 - low.index()) as nat).contains(
            Hand::encode(cards),
        ),
        kicker != high && kicker != low,
        Hand::encode(cards) == Hand::of_n_rank(high, 2).with_more(low, 2).with_more(kicker, 1),
        Hand::encode(cards).count(kicker) == 1,
        forall|r: Rank| r != high && r != low && r != kicker ==> Hand::encode(cards).count(r) == 0,
{
    let key = Hand::encode(cards);
    let fewer = without_rank(cards, high);
    let rest = without_rank(fewer, low);
    let base = Hand::of_n_rank(high, 2).with_more(low, 2);
    Hand::lemma_encode_exists(cards);
    lemma_without_rank(cards, high);
    lemma_without_rank(fewer, low);
    lemma_no_flush_with_pair(cards, high);
    assert(rank_count(fewer, low) == 2);
    assert(rest.len() == 1);
    Set::lemma_is_singleton(rest);
    let card = rest.choose();
    assert(rest.contains(card)) by {
        if rest.is_empty() {
            assert(rest =~= Set::<Card>::empty());
        }
    }
    let kicker = card.rank;
    assert(kicker != low && kicker != high);
    assert forall|r: Rank| rank_count(rest, r) == (if r == kicker {
        1nat
    } else {
        0nat
    }) by {
        if r == kicker {
            assert(rest.filter(|c: Card| c.rank == r) =~= rest);
        } else {
            assert(rest.filter(|c: Card| c.rank == r) =~= Set::<Card>::empty());
        }
    }
    Hand::lemma_of_n_rank(high, 2);
    Hand::of_n_rank(high, 2).lemma_with_more(low, 2);
    base.lemma_with_more(kicker, 1);
    assert forall|r: Rank| key.count(r) == base.with_more(kicker, 1).count(r) by {
        if r != high {
            assert(rank_count(fewer, r) == rank_count(cards, r));
            if r != low {
                assert(rank_count(rest, r) == rank_count(fewer, r));
            }
        }
    }
    Hand::lemma_equal(key, base.with_more(kicker, 1));
    lemma_ranks_down_holds(kicker);
    lemma_ranks_down_holds(high);
    lemma_ranks_down_holds(low);
    let a = (12 - high.index()) as nat;
    let b = (high.index() - 1 - low.index()) as nat;
    assert(Rank::at((high.index() - 1 - b) as nat) == low);
    lemma_filter_map_holds(ranks_down(), kicker_pick(base), kicker);
    assert(low_pair_hands_at(high.index())(b).contains(key));
    lemma_gather_holds(high.index(), low_pair_hands_at(high.index()), b, key);
    assert(two_pair_hands_at()(a).contains(key));
    lemma_gather_holds(12, two_pair_hands_at(), a, key);
    kicker
}

/// The key of five cards with a flush that are a straight up to `high` is the key
/// of that straight flush.
pub proof fn lemma_straight_flush_complete(cards: Set<Card>, high: Rank)
    requires
        cards.finite(),
        cards.len() == 5,
        Hand::encode(cards).flush(),
        straight_to(Hand::encode(cards), high),
    ensures
        Hand::encode(cards) == Hand::straight_flush(high),
        straight_flush_hands().contains(Hand::encode(cards)),
{
    let key = Hand::encode(cards);
    Hand::lemma_encode_exists(cards);
    lemma_flush_of_five(cards, flush_suit(cards)->Some_0);
    Hand::lemma_straight_flush(high);
    assert forall|r: Rank| key.marked(r) == Hand::straight_flush(high).marked(r) by {
        assert(key.marked(r) == (rank_count(cards, r) == 1));
    }
    Hand::lemma_equal(key, Hand::straight_flush(high));
    lemma_ranks_down_holds(high);
    assert(straight_flush_hands()[12 - high.index()] == key);
}

/// The key of five cards without a flush that are a straight up to `high` is the key
/// of that straight.
pub proof fn lemma_straight_complete(cards: Set<Card>, high: Rank)
    requires
        cards.finite(),
        cards.len() == 5,
        !Hand::encode(cards).flush(),
        straight_to(Hand::encode(cards), high),
    ensures
        Hand::encode(cards) == Hand::straight(high),
        straight_hands().contains(Hand::encode(cards)),
{
    let key = Hand::encode(cards);
    Hand::lemma_encode_exists(cards);
    Hand::lemma_straight(high);
    assert forall|r: Rank| key.marked(r) == Hand::straight(high).marked(r) by {
        assert(!key.marked(r));
    }
    Hand::lemma_equal(key, Hand::straight(high));
    lemma_ranks_down_holds(high);
    assert(straight_hands()[12 - high.index()] == key);
}

/// Two ranks with the same flush key are one rank.
pub proof fn lemma_flush_single_injective(a: Rank, b: Rank)
    requires
        Hand::flush_single(a) == Hand::flush_single(b),
    ensures
        a == b,
{
    Hand::lemma_flush_single(a);
    Hand::lemma_flush_single(b);
    assert(Hand::flush_single(b).marked(b));
}

/// The flush keys of the single ranks are all different, and each rank has its own.
pub proof fn lemma_flush_singles()
    ensures
        Hand::flush_singles().no_duplicates(),
        forall|r: Rank| Hand::flush_singles().contains(#[trigger] Hand::flush_single(r)),
        forall|h: Hand|
            Hand::flush_singles().contains(h) ==> exists|r: Rank| h == #[trigger] Hand::flush_single(r),
{
    let singles = Hand::flush_singles();
    assert forall|i: int, j: int| 0 <= i < 13 && 0 <= j < 13 && i != j implies singles[i]
        != singles[j] by {
        if singles[i] == singles[j] {
            lemma_flush_single_injective(Rank::at((12 - i) as nat), Rank::at((12 - j) as nat));
        }
    }
    assert forall|r: Rank| singles.contains(#[trigger] Hand::flush_single(r)) by {
        lemma_ranks_down_holds(r);
        assert(singles[12 - r.index()] == Hand::flush_single(r));
    }
    assert forall|h: Hand| singles.contains(h) implies exists|r: Rank|
        h == #[trigger] Hand::flush_single(r) by {
        let i = choose|i: int| 0 <= i < singles.len() && singles[i] == h;
        assert(h == Hand::flush_single(Rank::at((12 - i) as nat)));
    }
}

/// The union of different flush keys of single ranks counts and marks each of those
/// ranks once.
pub proof fn lemma_union_all_singles(picked: Seq<Hand>)
    requires
        picked.no_duplicates(),
        forall|i: int| 0 <= i < picked.len() ==> Hand::flush_singles().contains(#[trigger] picked[i]),
    ensures
        forall|r: Rank|
            Hand::union_all(picked).count(r) == (if picked.contains(Hand::flush_single(r)) {
                1nat
            } else {
                0nat
            }),
        forall|r: Rank| Hand::union_all(picked).marked(r) == picked.contains(Hand::flush_single(r)),
        Hand::union_all(picked).flush() == (picked.len() > 0),
        Hand::union_all(picked).canonical(),
    decreases picked.len(),
{
    if picked.len() == 0 {
        Hand::lemma_blank();
    } else {
        let rest = picked.drop_last();
        let last = picked.last();
        let acc = Hand::union_all(rest);
        lemma_flush_singles();
        assert(Hand::flush_singles().contains(picked[picked.len() - 1]));
        let q = choose|q: Rank| last == #[trigger] Hand::flush_single(q);
        assert forall|i: int| 0 <= i < rest.len() implies Hand::flush_singles().contains(
            #[trigger] rest[i],
        ) by {
            assert(rest[i] == picked[i]);
        }
        lemma_union_all_singles(rest);
        Hand::lemma_flush_single(q);
        acc.lemma_union(last);
        assert(!rest.contains(last)) by {
            if rest.contains(last) {
                let i = choose|i: int| 0 <= i < rest.len() && rest[i] == last;
                assert(picked[i] == picked[picked.len() - 1]);
            }
        }
        assert forall|r: Rank| picked.contains(Hand::flush_single(r)) == (r == q || rest.contains(
            Hand::flush_single(r),
        )) by {
            let single = Hand::flush_single(r);
            if rest.contains(single) {
                let i = choose|i: int| 0 <= i < rest.len() && rest[i] == single;
                assert(picked[i] == single);
            }
            if r == q {
                assert(picked[picked.len() - 1] == single);
            }
            if picked.contains(single) {
                let i = choose|i: int| 0 <= i < picked.len() && picked[i] == single;
                if i < rest.len() {
                    assert(rest[i] == single);
                } else {
                    lemma_flush_single_injective(r, q);
                }
            }
        }
        assert forall|r: Rank|
            Hand::union_all(picked).count(r) == (if picked.contains(Hand::flush_single(r)) {
                1nat
            } else {
                0nat
            }) by {
            if r == q {
                assert(acc.count(r) == 0);
            } else {
                assert(last.count(r) == 0);
            }
        }
        assert forall|r: Rank|
            Hand::union_all(picked).marked(r) == picked.contains(Hand::flush_single(r)) by {
            assert(Hand::union_all(picked).marked(r) == (acc.marked(r) || last.marked(r)));
            assert(last.marked(r) == (r == q));
            assert(acc.marked(r) == rest.contains(Hand::flush_single(r)));
        }
    }
}

/// The flush keys of the single ranks of the cards.
pub open spec fn flush_wanted(cards: Set<Card>) -> Set<Hand> {
    cards.map(|c: Card| Hand::flush_single(c.rank))
}

/// Five cards with a flush give five flush keys of single ranks: those of the ranks
/// that the cards hold.
pub proof fn lemma_flush_wanted(cards: Set<Card>)
    requires
        cards.finite(),
        cards.len() == 5,
        flush_suit(cards) is Some,
    ensures
        flush_wanted(cards).finite(),
        flush_wanted(cards).len() == 5,
        flush_wanted(cards).subset_of(Hand::flush_singles().to_set()),
        forall|r: Rank|
            flush_wanted(cards).contains(#[trigger] Hand::flush_single(r)) == (rank_count(cards, r) == 1),
{
    let suit = flush_suit(cards)->Some_0;
    let single = |c: Card| Hand::flush_single(c.rank);
    let wanted = flush_wanted(cards);
    let singles = Hand::flush_singles();
    lemma_flush_of_five(cards, suit);
    lemma_flush_singles();
    assert(vstd::relations::injective_on(single, cards)) by {
        assert forall|x: Card, y: Card|
            cards.contains(x) && cards.contains(y) && #[trigger] single(x) == #[trigger] single(
                y,
            ) implies x == y by {
            lemma_flush_single_injective(x.rank, y.rank);
            assert(x == Card { rank: x.rank, suit: x.suit });
        }
    }
    vstd::set_lib::lemma_map_size(cards, wanted, single);
    assert(wanted.subset_of(singles.to_set())) by {
        assert forall|h: Hand| wanted.contains(h) implies singles.to_set().contains(h) by {
            let c = choose|c: Card| cards.contains(c) && h == single(c);
            assert(singles.contains(Hand::flush_single(c.rank)));
        }
    }
    assert forall|r: Rank|
        wanted.contains(#[trigger] Hand::flush_single(r)) == (rank_count(cards, r) == 1) by {
        lemma_rank_held(cards, r);
        if wanted.contains(Hand::flush_single(r)) {
            let c = choose|c: Card| cards.contains(c) && Hand::flush_single(r) == single(c);
            lemma_flush_single_injective(r, c.rank);
        }
        if rank_count(cards, r) == 1 {
            let c = choose|c: Card| #[trigger] cards.contains(c) && c.rank == r;
            assert(single(c) == Hand::flush_single(r));
            assert(wanted.contains(single(c)));
        }
    }
}

/// The combination of the flush keys of the ranks of five cards with a flush gives
/// the key of the cards.
pub proof fn lemma_flush_of_combo(cards: Set<Card>, i: int)
    requires
        cards.finite(),
        cards.len() == 5,
        flush_suit(cards) is Some,
        0 <= i < combinations_of(Hand::flush_singles(), 5).len(),
        combinations_of(Hand::flush_singles(), 5)[i].to_set() == flush_wanted(cards),
    ensures
        Hand::flushes()[i] == Hand::encode(cards),
{
    let key = Hand::encode(cards);
    let singles = Hand::flush_singles();
    let combo = combinations_of(singles, 5)[i];
    let all = Hand::union_all(combo);
    Hand::lemma_encode_exists(cards);
    lemma_flush_of_five(cards, flush_suit(cards)->Some_0);
    lemma_flush_wanted(cards);
    lemma_flush_singles();
    lemma_combination_members(singles, 5, i);
    lemma_union_all_singles(combo);
    assert forall|r: Rank| key.count(r) == all.count(r) && key.marked(r) == all.marked(r) by {
        assert(rank_count(cards, r) <= 1);
        assert(key.marked(r) == (rank_count(cards, r) == 1));
        assert(combo.contains(Hand::flush_single(r)) == flush_wanted(cards).contains(
            Hand::flush_single(r),
        ));
    }
    Hand::lemma_equal(key, all);
}

/// The key of five cards with a flush stands among the flushes.
proof fn lemma_flush_complete(cards: Set<Card>)
    requires
        cards.finite(),
        cards.len() == 5,
        Hand::encode(cards).flush(),
    ensures
        Hand::flushes().contains(Hand::encode(cards)),
{
    Hand::lemma_encode_exists(cards);
    lemma_flush_wanted(cards);
    lemma_flush_singles();
    let j = lemma_combinations_complete(Hand::flush_singles(), 5, flush_wanted(cards));
    lemma_flush_of_combo(cards, j);
    assert(Hand::flushes()[j] == Hand::encode(cards));
}

/// The key of any five cards stands among the hands of its category.
pub proof fn lemma_category_complete(cards: Set<Card>)
    requires
        cards.finite(),
        cards.len() == 5,
    ensures
        category(Hand::encode(cards)) <= 8,
        category_hands(category(Hand::encode(cards))).contains(Hand::encode(cards)),
{
    let key = Hand::encode(cards);
    let c = category(key);
    Hand::lemma_encode_exists(cards);
    if c == 0 {
        let high = choose|high: Rank| straight_to(key, high);
        lemma_straight_flush_complete(cards, high);
    } else if c == 1 {
        let r = choose|r: Rank| key.count(r) == 4;
        lemma_kind_complete(cards, r, 4);
    } else if c == 2 {
        let three = choose|r: Rank| key.count(r) == 3;
        let pair = choose|r: Rank| key.count(r) == 2;
        lemma_full_house_complete(cards, three, pair);
    } else if c == 3 {
        lemma_flush_complete(cards);
    } else if c == 4 {
        let high = choose|high: Rank| straight_to(key, high);
        lemma_straight_complete(cards, high);
    } else if c == 5 {
        let r = choose|r: Rank| key.count(r) == 3;
        lemma_kind_complete(cards, r, 3);
    } else if c == 6 {
        let (a, b) = choose|a: Rank, b: Rank| a != b && key.count(a) == 2 && key.count(b) == 2;
        if a.index() > b.index() {
            let kicker = lemma_two_pair_complete(cards, a, b);
        } else {
            let kicker = lemma_two_pair_complete(cards, b, a);
        }
    } else if c == 7 {
        let r = choose|r: Rank| key.count(r) == 2;
        lemma_kind_complete(cards, r, 2);
    } else {
        lemma_combos_hold(cards);
    }
}

/// The counter only goes up from category to category.
pub proof fn lemma_table_after_counts(earlier: nat, later: nat)
    requires
        earlier <= later,
    ensures
        table_after(earlier).1 <= table_after(later).1,
    decreases later,
{
    if earlier < later {
        let before = table_after((later - 1) as nat);
        lemma_table_after_counts(earlier, (later - 1) as nat);
        crate::table::lemma_number_bounds(before.0, before.1, category_hands((later - 1) as nat));
    }
}

/// Any five cards get their score when their category is built: the table holds
/// their key, and its score lies from the counter before the category up to the
/// counter after it.
pub proof fn lemma_scored_with_category(cards: Set<Card>)
    requires
        cards.finite(),
        cards.len() == 5,
    ensures
        category(Hand::encode(cards)) <= 8,
        score_table().0.contains_key(Hand::encode(cards)@),
        !table_after(category(Hand::encode(cards))).0.contains_key(Hand::encode(cards)@),
        table_after(category(Hand::encode(cards)) + 1).0.contains_key(Hand::encode(cards)@),
        table_after(category(Hand::encode(cards))).1 <= score_table().0[Hand::encode(cards)@]
            < table_after(category(Hand::encode(cards)) + 1).1,
{
    let hand = Hand::encode(cards);
    let key = hand@;
    let c = category(hand);
    let before = table_after(c);
    let after = table_after(c + 1);
    lemma_category_complete(cards);
    if before.0.contains_key(key) {
        let found = lemma_table_keys(c, key);
        let hands = category_hands(found);
        let i = choose|i: int| 0 <= i < hands.len() && (#[trigger] hands[i])@ == key;
        Hand::lemma_view_injective(hands[i], hand);
        lemma_category_sound(found, hand);
    }
    let hands = category_hands(c);
    let i = choose|i: int| 0 <= i < hands.len() && hands[i] == hand;
    lemma_table_after_dense(c);
    lemma_table_after_dense(c + 1);
    lemma_number_dense(before.0, before.1, hands);
    assert(after.0.contains_key(hands[i]@));
    assert(before.1 <= after.0[key] < after.1);
    lemma_table_after_grows(c + 1, 9, key);
}

/// Of two hands of five cards in different categories the one in the stronger
/// category has the lower score.
pub proof fn lemma_stronger_category_scores_lower(strong: Set<Card>, weak: Set<Card>)
    requires
        strong.finite(),
        strong.len() == 5,
        weak.finite(),
        weak.len() == 5,
        category(Hand::encode(strong)) < category(Hand::encode(weak)),
    ensures
        score_table().0[Hand::encode(strong)@] < score_table().0[Hand::encode(weak)@],
{
    lemma_scored_with_category(strong);
    lemma_scored_with_category(weak);
    lemma_table_after_counts(category(Hand::encode(strong)) + 1, category(Hand::encode(weak)));
}

/// The highest straight flush has a strictly lower score than any five cards that
/// hold four of one rank.
pub proof fn lemma_royal_flush_beats_four_of_a_kind(cards: Set<Card>, rank: Rank)
    requires
        cards.finite(),
        cards.len() == 5,
        rank_count(cards, rank) == 4,
    ensures
        score_table().0[Hand::straight_flush(Rank::Ace)@] < score_table().0[Hand::encode(cards)@],
{
    let hand = Hand::encode(cards);
    let royal = Hand::straight_flush(Rank::Ace);
    Hand::lemma_encode_exists(cards);
    lemma_no_flush_with_pair(cards, rank);
    assert(hand.count(rank) == 4);
    assert(category(hand) == 1);
    lemma_scored_with_category(cards);
    lemma_royal_flush_first();
    lemma_table_after_dense(9);
    Hand::lemma_straight_flush(Rank::Ace);
    assert(royal.count(rank) <= 1);
    assert(royal@ != hand@);
    assert(score_table().0[royal@] != score_table().0[hand@]);
}

/// Two hands of five cards that hold every rank equally often, both with a flush or
/// both without, have the same key, and so the same score.
pub proof fn lemma_same_profile_same_key(a: Set<Card>, b: Set<Card>)
    requires
        a.finite(),
        a.len() == 5,
        b.finite(),
        b.len() == 5,
        forall|r: Rank| rank_count(a, r) == rank_count(b, r),
        flush_suit(a) is Some <==> flush_suit(b) is Some,
    ensures
        Hand::encode(a) == Hand::encode(b),
{
    let x = Hand::encode(a);
    let y = Hand::encode(b);
    Hand::lemma_encode_exists(a);
    Hand::lemma_encode_exists(b);
    if flush_suit(a) is Some {
        lemma_flush_of_five(a, flush_suit(a)->Some_0);
        lemma_flush_of_five(b, flush_suit(b)->Some_0);
    }
    assert forall|r: Rank| x.marked(r) == y.marked(r) by {
        if flush_suit(a) is Some {
            assert(x.marked(r) == (rank_count(a, r) == 1));
            assert(y.marked(r) == (rank_count(b, r) == 1));
        }
    }
    Hand::lemma_equal(x, y);
}

} // verus!
