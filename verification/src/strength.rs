//! The order of hands by strength, read from their keys, and its agreement with the
//! score table inside each category.

use crate::card::{Card, lemma_deck_complete, Rank, Suit};
use crate::category::{
    category, flush_wanted, is_straight, lemma_category_complete, lemma_flush_of_combo,
    lemma_flush_singles, lemma_flush_wanted, lemma_full_house_complete, lemma_kind_complete,
    lemma_ranks_down_holds, lemma_same_profile_same_key, lemma_scored_with_category,
    lemma_straight_complete, lemma_straight_flush_complete,
    lemma_stronger_category_scores_lower, lemma_two_pair_complete, lemma_union_all_singles,
    straight_to,
};
use crate::census::{
    flush_suit, lemma_flush_of_five, lemma_no_flush_of_few, lemma_same_counts_same_len,
    lemma_without_rank, rank_count, without_rank,
};
use crate::combos::{
    combinations_of, lemma_combination_members, lemma_combinations_order, picks_first,
};
use crate::hand::{Hand, in_straight};
use crate::table::{
    category_hands, full_house_hands_at, full_house_pick, gather, kicker_pick, kind_hands_at,
    kind_pick, lemma_deck_reversed, lemma_filter_map_precedes, lemma_gather_precedes,
    lemma_number_fresh, lemma_number_order, lemma_table_after_dense, lemma_table_after_grows,
    low_pair_hands_at, number_hands, precedes, ranks_down, score_table, straight_flush_hands,
    table_after, two_pair_hands_at,
};
use vstd::prelude::*;

verus! {

/// `x` counts the rank `q` exactly `n` times where `y` does not, and the two keys
/// count the same higher ranks `n` times.
pub open spec fn tops(x: Hand, y: Hand, n: nat, q: Rank) -> bool {
    &&& x.count(q) == n
    &&& y.count(q) != n
    &&& forall|r: Rank| r.index() > q.index() ==> (x.count(r) == n <==> y.count(r) == n)
}

/// Among the ranks that are counted `n` times, `x` holds the highest rank on which
/// the two keys differ.
pub open spec fn leads(x: Hand, y: Hand, n: nat) -> bool {
    exists|q: Rank| tops(x, y, n, q)
}

/// The two keys count the same ranks `n` times.
pub open spec fn level(x: Hand, y: Hand, n: nat) -> bool {
    forall|r: Rank| x.count(r) == n <==> y.count(r) == n
}

/// `x` is ahead of `y` by ranks: by the ranks held four times, then those held three
/// times, then the pairs, then the single cards, at each step by the highest rank on
/// which the two differ.
pub open spec fn outranks(x: Hand, y: Hand) -> bool {
    leads(x, y, 4) || (level(x, y, 4) && (leads(x, y, 3) || (level(x, y, 3) && (leads(x, y, 2) || (level(
        x,
        y,
        2,
    ) && leads(x, y, 1))))))
}

/// The highest card of the straight that the key counts, the `Five` where the `Ace`
/// is counted low.
pub open spec fn straight_high(hand: Hand) -> Rank {
    choose|high: Rank| straight_to(hand, high)
}

/// `x` is the stronger of two keys of five cards: of the stronger category, or in the
/// same category the higher straight, or else ahead by ranks.
pub open spec fn beats(x: Hand, y: Hand) -> bool {
    category(x) < category(y) || (category(x) == category(y) && (if is_straight(x) && is_straight(y) {
        straight_high(x).index() > straight_high(y).index()
    } else {
        outranks(x, y)
    }))
}

/// A key counts the ranks of one straight at most.
pub proof fn lemma_straight_to_unique(hand: Hand, a: Rank, b: Rank)
    requires
        straight_to(hand, a),
        straight_to(hand, b),
    ensures
        a == b,
{
    assert(hand.count(a) == 1 && in_straight(a, a));
    assert(hand.count(b) == 1 && in_straight(b, b));
    assert(in_straight(a, b) && in_straight(b, a));
    assert(hand.count(Rank::Two) == 1 <==> in_straight(Rank::Two, a));
    assert(hand.count(Rank::Two) == 1 <==> in_straight(Rank::Two, b));
}

/// In the same category the hand that comes earlier among the hands of the category
/// has the lower score.
pub proof fn lemma_earlier_scores_lower(a: Set<Card>, b: Set<Card>)
    requires
        a.finite(),
        a.len() == 5,
        b.finite(),
        b.len() == 5,
        category(Hand::encode(a)) == category(Hand::encode(b)),
        Hand::encode(a) != Hand::encode(b),
        precedes(category_hands(category(Hand::encode(a))), Hand::encode(a), Hand::encode(b)),
    ensures
        score_table().0[Hand::encode(a)@] < score_table().0[Hand::encode(b)@],
{
    let x = Hand::encode(a);
    let y = Hand::encode(b);
    let c = category(x);
    let before = table_after(c);
    lemma_scored_with_category(a);
    lemma_scored_with_category(b);
    lemma_category_complete(b);
    lemma_table_after_dense(c);
    lemma_table_after_dense(c + 1);
    lemma_number_order(before.0, before.1, category_hands(c), x, y);
    lemma_table_after_grows(c + 1, 9, x@);
    lemma_table_after_grows(c + 1, 9, y@);
}

/// Among straight flushes and among straights the one with the higher top card comes
/// earlier.
pub proof fn lemma_straights_precede(a: Set<Card>, b: Set<Card>)
    requires
        a.finite(),
        a.len() == 5,
        b.finite(),
        b.len() == 5,
        category(Hand::encode(a)) == category(Hand::encode(b)),
        is_straight(Hand::encode(a)),
        is_straight(Hand::encode(b)),
        straight_high(Hand::encode(a)).index() > straight_high(Hand::encode(b)).index(),
    ensures
        Hand::encode(a) != Hand::encode(b),
        precedes(category_hands(category(Hand::encode(a))), Hand::encode(a), Hand::encode(b)),
{
    let x = Hand::encode(a);
    let y = Hand::encode(b);
    let c = category(x);
    let h1 = straight_high(x);
    let h2 = straight_high(y);
    let hands = category_hands(c);
    Hand::lemma_encode_exists(a);
    Hand::lemma_encode_exists(b);
    lemma_ranks_down_holds(h1);
    lemma_ranks_down_holds(h2);
    if x == y {
        lemma_straight_to_unique(x, h1, h2);
    }
    if x.flush() {
        assert(c == 0);
        lemma_straight_flush_complete(a, h1);
        lemma_straight_flush_complete(b, h2);
    } else {
        assert(c == 4);
        lemma_straight_complete(a, h1);
        lemma_straight_complete(b, h2);
    }
    assert forall|j: int| 0 <= j < hands.len() && #[trigger] hands[j] == y implies exists|i: int|
        0 <= i < j && #[trigger] hands[i] == x by {
        let high = Rank::at((12 - j) as nat);
        if c == 0 {
            Hand::lemma_straight_flush(high);
        } else {
            Hand::lemma_straight(high);
        }
        assert(straight_to(y, high));
        lemma_straight_to_unique(y, high, h2);
        assert(hands[12 - h1.index()] == x);
    }
}

/// Among full houses the one ahead by ranks comes earlier: the higher three of a
/// kind, then the higher pair.
pub proof fn lemma_full_houses_precede(a: Set<Card>, b: Set<Card>)
    requires
        a.finite(),
        a.len() == 5,
        b.finite(),
        b.len() == 5,
        category(Hand::encode(a)) == 2,
        category(Hand::encode(b)) == 2,
        outranks(Hand::encode(a), Hand::encode(b)),
    ensures
        Hand::encode(a) != Hand::encode(b),
        precedes(category_hands(2), Hand::encode(a), Hand::encode(b)),
{
    let x = Hand::encode(a);
    let y = Hand::encode(b);
    Hand::lemma_encode_exists(a);
    Hand::lemma_encode_exists(b);
    let a1 = choose|r: Rank| x.count(r) == 3;
    let b1 = choose|r: Rank| x.count(r) == 2;
    let a2 = choose|r: Rank| y.count(r) == 3;
    let b2 = choose|r: Rank| y.count(r) == 2;
    lemma_full_house_complete(a, a1, b1);
    lemma_full_house_complete(b, a2, b2);
    assert(!leads(x, y, 4));
    assert(!leads(x, y, 1));
    assert(a1.index() > a2.index() || (a1 == a2 && b1.index() > b2.index())) by {
        if leads(x, y, 3) {
            let q = choose|q: Rank| tops(x, y, 3, q);
            assert(q == a1);
            assert(y.count(a2) == 3);
        } else {
            assert(level(x, y, 3));
            assert(y.count(a1) == 3);
            let q = choose|q: Rank| tops(x, y, 2, q);
            assert(q == b1);
            assert(y.count(b2) == 2);
        }
    }
    lemma_ranks_down_holds(a1);
    lemma_ranks_down_holds(b1);
    lemma_ranks_down_holds(a2);
    lemma_ranks_down_holds(b2);
    let at = (12 - a1.index()) as nat;
    assert forall|i: nat| i < 13 implies (exists|e: nat|
        e < i && (#[trigger] full_house_hands_at()(e)).contains(x)) || precedes(
        #[trigger] full_house_hands_at()(i),
        x,
        y,
    ) by {
        if at < i {
            assert(full_house_hands_at()(at).contains(x));
        } else {
            let three = Rank::at((12 - i) as nat);
            let pick = full_house_pick(three);
            assert forall|j: int|
                0 <= j < ranks_down().len() && pick(#[trigger] ranks_down()[j]) == Some(y) implies exists|
                k: int,
            | 0 <= k < j && pick(#[trigger] ranks_down()[k]) == Some(x) by {
                let pair = ranks_down()[j];
                Hand::lemma_of_n_rank(three, 3);
                Hand::of_n_rank(three, 3).lemma_with_more(pair, 2);
                assert(y.count(three) == 3 && y.count(pair) == 2);
                assert(three == a2 && pair == b2);
                assert(pick(ranks_down()[12 - b1.index()]) == Some(x));
            }
            lemma_filter_map_precedes(ranks_down(), pick, x, y);
        }
    }
    lemma_gather_precedes(13, full_house_hands_at(), x, y);
}

/// The key counts the ranks `high` and `low` twice, `kicker` once and no other rank.
pub open spec fn two_pair_shape(hand: Hand, high: Rank, low: Rank, kicker: Rank) -> bool {
    &&& high.index() > low.index()
    &&& kicker != high
    &&& kicker != low
    &&& hand == Hand::of_n_rank(high, 2).with_more(low, 2).with_more(kicker, 1)
    &&& hand.count(high) == 2
    &&& hand.count(low) == 2
    &&& hand.count(kicker) == 1
    &&& forall|r: Rank| r != high && r != low && r != kicker ==> hand.count(r) == 0
}

/// `x` is ahead of `y` by the higher pair, then the lower pair, then the kicker.
pub open spec fn two_pair_ahead(h1: Rank, l1: Rank, k1: Rank, h2: Rank, l2: Rank, k2: Rank) -> bool {
    h1.index() > h2.index() || (h1 == h2 && l1.index() > l2.index()) || (h1 == h2 && l1 == l2
        && k1.index() > k2.index())
}

proof fn lemma_two_pair_ranks(x: Hand, y: Hand, h1: Rank, l1: Rank, k1: Rank, h2: Rank, l2: Rank, k2: Rank)
    requires
        two_pair_shape(x, h1, l1, k1),
        two_pair_shape(y, h2, l2, k2),
        outranks(x, y),
    ensures
        two_pair_ahead(h1, l1, k1, h2, l2, k2),
{
    assert(!leads(x, y, 4));
    assert(!leads(x, y, 3));
    if leads(x, y, 2) {
        let q = choose|q: Rank| tops(x, y, 2, q);
        assert(q == h1 || q == l1);
        assert(y.count(h2) == 2 && y.count(l2) == 2);
        assert(x.count(h1) == 2 && x.count(l1) == 2);
    } else {
        assert(level(x, y, 2));
        assert(y.count(h1) == 2 && y.count(l1) == 2);
        assert(h1 == h2 && l1 == l2);
        let q = choose|q: Rank| tops(x, y, 1, q);
        assert(q == k1);
        assert(y.count(k2) == 1);
    }
}

proof fn lemma_two_pair_kickers_precede(
    x: Hand,
    y: Hand,
    high: Rank,
    low: Rank,
    h1: Rank,
    l1: Rank,
    k1: Rank,
    h2: Rank,
    l2: Rank,
    k2: Rank,
)
    requires
        two_pair_shape(x, h1, l1, k1),
        two_pair_shape(y, h2, l2, k2),
        high.index() > low.index(),
        high == h2 && low == l2 ==> h1 == h2 && l1 == l2 && k1.index() > k2.index(),
    ensures
        precedes(
            ranks_down().filter_map(kicker_pick(Hand::of_n_rank(high, 2).with_more(low, 2))),
            x,
            y,
        ),
{
    let base = Hand::of_n_rank(high, 2).with_more(low, 2);
    let pick = kicker_pick(base);
    Hand::lemma_of_n_rank(high, 2);
    Hand::of_n_rank(high, 2).lemma_with_more(low, 2);
    lemma_ranks_down_holds(k1);
    assert forall|j: int|
        0 <= j < ranks_down().len() && pick(#[trigger] ranks_down()[j]) == Some(y) implies exists|k: int|
        0 <= k < j && pick(#[trigger] ranks_down()[k]) == Some(x) by {
        let other = ranks_down()[j];
        base.lemma_with_more(other, 1);
        assert(y.count(high) == 2 && y.count(low) == 2 && y.count(other) == 1);
        assert(high == h2 && low == l2 && other == k2);
        assert(pick(ranks_down()[12 - k1.index()]) == Some(x));
    }
    lemma_filter_map_precedes(ranks_down(), pick, x, y);
}

proof fn lemma_two_pair_lows_precede(
    x: Hand,
    y: Hand,
    high: Rank,
    h1: Rank,
    l1: Rank,
    k1: Rank,
    h2: Rank,
    l2: Rank,
    k2: Rank,
)
    requires
        two_pair_shape(x, h1, l1, k1),
        two_pair_shape(y, h2, l2, k2),
        high == h2 ==> h1 == h2 && (l1.index() > l2.index() || (l1 == l2 && k1.index() > k2.index())),
        low_pair_hands_at(h1.index())((h1.index() - 1 - l1.index()) as nat).contains(x),
    ensures
        precedes(gather(high.index(), low_pair_hands_at(high.index())), x, y),
{
    let lows = low_pair_hands_at(high.index());
    let below = (h1.index() - 1 - l1.index()) as nat;
    lemma_ranks_down_holds(high);
    assert forall|d: nat| d < high.index() implies (exists|e: nat|
        e < d && (#[trigger] lows(e)).contains(x)) || precedes(#[trigger] lows(d), x, y) by {
        let low = Rank::at((high.index() - 1 - d) as nat);
        if high == h2 && below < d {
            assert(lows(below).contains(x));
        } else {
            lemma_two_pair_kickers_precede(x, y, high, low, h1, l1, k1, h2, l2, k2);
        }
    }
    lemma_gather_precedes(high.index(), lows, x, y);
}

/// Among two pairs the one ahead by ranks comes earlier: the higher of the higher
/// pairs, then the higher of the lower pairs, then the higher kicker.
pub proof fn lemma_two_pairs_precede(a: Set<Card>, b: Set<Card>)
    requires
        a.finite(),
        a.len() == 5,
        b.finite(),
        b.len() == 5,
        category(Hand::encode(a)) == 6,
        category(Hand::encode(b)) == 6,
        outranks(Hand::encode(a), Hand::encode(b)),
    ensures
        Hand::encode(a) != Hand::encode(b),
        precedes(category_hands(6), Hand::encode(a), Hand::encode(b)),
{
    let x = Hand::encode(a);
    let y = Hand::encode(b);
    Hand::lemma_encode_exists(a);
    Hand::lemma_encode_exists(b);
    let (one, other) = choose|p: Rank, q: Rank| p != q && x.count(p) == 2 && x.count(q) == 2;
    let (left, right) = choose|p: Rank, q: Rank| p != q && y.count(p) == 2 && y.count(q) == 2;
    let h1 = if one.index() > other.index() { one } else { other };
    let l1 = if one.index() > other.index() { other } else { one };
    let h2 = if left.index() > right.index() { left } else { right };
    let l2 = if left.index() > right.index() { right } else { left };
    let k1 = lemma_two_pair_complete(a, h1, l1);
    let k2 = lemma_two_pair_complete(b, h2, l2);
    lemma_two_pair_ranks(x, y, h1, l1, k1, h2, l2, k2);
    lemma_ranks_down_holds(h1);
    let at = (12 - h1.index()) as nat;
    assert forall|i: nat| i < 12 implies (exists|e: nat|
        e < i && (#[trigger] two_pair_hands_at()(e)).contains(x)) || precedes(
        #[trigger] two_pair_hands_at()(i),
        x,
        y,
    ) by {
        if at < i {
            assert(two_pair_hands_at()(at).contains(x));
        } else {
            let high = Rank::at((12 - i) as nat);
            lemma_two_pair_lows_precede(x, y, high, h1, l1, k1, h2, l2, k2);
        }
    }
    lemma_gather_precedes(12, two_pair_hands_at(), x, y);
}

/// The cards of `other` above the rank `q` with the cards of `own` below it.
pub open spec fn around(own: Set<Card>, other: Set<Card>, q: Rank) -> Set<Card> {
    other.filter(|c: Card| c.rank.index() > q.index()).union(
        own.filter(|c: Card| c.rank.index() < q.index()),
    )
}

/// A suit that one of the cards does not have.
pub open spec fn spare_suit(cards: Set<Card>) -> Suit {
    if !cards.is_empty() && cards.choose().suit == Suit::Spades {
        Suit::Hearts
    } else {
        Suit::Spades
    }
}

/// The cards of `other` above the rank `q`, a card of the rank `q`, and the cards of
/// `own` below it.
pub open spec fn ahead_set(own: Set<Card>, other: Set<Card>, q: Rank) -> Set<Card> {
    around(own, other, q).insert(Card { rank: q, suit: spare_suit(around(own, other, q)) })
}

proof fn lemma_ahead_counts(own: Set<Card>, other: Set<Card>, q: Rank)
    requires
        own.finite(),
        other.finite(),
    ensures
        ahead_set(own, other, q).finite(),
        around(own, other, q).finite(),
        forall|r: Rank|
            #[trigger] rank_count(ahead_set(own, other, q), r) == (if r.index() > q.index() {
                rank_count(other, r)
            } else if r == q {
                1
            } else {
                rank_count(own, r)
            }),
{
    let above = other.filter(|c: Card| c.rank.index() > q.index());
    let below = own.filter(|c: Card| c.rank.index() < q.index());
    let card = Card { rank: q, suit: spare_suit(around(own, other, q)) };
    let all = ahead_set(own, other, q);
    vstd::set_lib::lemma_set_subset_finite(other, above);
    vstd::set_lib::lemma_set_subset_finite(own, below);
    assert forall|r: Rank|
        #[trigger] rank_count(all, r) == (if r.index() > q.index() {
            rank_count(other, r)
        } else if r == q {
            1
        } else {
            rank_count(own, r)
        }) by {
        if r.index() > q.index() {
            assert(all.filter(|c: Card| c.rank == r) =~= other.filter(|c: Card| c.rank == r));
        } else if r == q {
            assert(all.filter(|c: Card| c.rank == r) =~= set![card]);
        } else {
            assert(r.index() < q.index());
            assert(all.filter(|c: Card| c.rank == r) =~= own.filter(|c: Card| c.rank == r));
        }
    }
}

/// Where `own` is ahead of `other` by the single rank `q`, the set made of both
/// around that rank has the key of `own`.
proof fn lemma_ahead_key(own: Set<Card>, other: Set<Card>, q: Rank)
    requires
        own.finite(),
        other.finite(),
        own.len() <= 5,
        flush_suit(own) is None,
        forall|r: Rank| #[trigger] rank_count(own, r) <= 1,
        forall|r: Rank| #[trigger] rank_count(other, r) <= 1,
        rank_count(own, q) == 1,
        rank_count(other, q) == 0,
        forall|r: Rank| r.index() > q.index() ==> rank_count(own, r) == rank_count(other, r),
    ensures
        ahead_set(own, other, q).finite(),
        ahead_set(own, other, q).len() == own.len(),
        Hand::encode(ahead_set(own, other, q)) == Hand::encode(own),
{
    let all = ahead_set(own, other, q);
    let rest = around(own, other, q);
    let card = Card { rank: q, suit: spare_suit(rest) };
    lemma_ahead_counts(own, other, q);
    assert forall|r: Rank| rank_count(all, r) == rank_count(own, r) by {}
    lemma_same_counts_same_len(all, own);
    Hand::lemma_encode_exists(all);
    Hand::lemma_encode_exists(own);
    if all.len() == 5 {
        if flush_suit(all) is Some {
            let suit = flush_suit(all)->Some_0;
            lemma_flush_of_five(all, suit);
            assert(all.contains(card));
            if rest.is_empty() {
                assert(all =~= set![card]);
            } else {
                let o = rest.choose();
                assert(rest.contains(o));
                assert(all.contains(o));
            }
        }
    } else {
        lemma_no_flush_of_few(all);
    }
    Hand::lemma_equal(Hand::encode(all), Hand::encode(own));
}

/// The ahead set holds the first card of the reversed deck on which it differs from
/// the other cards.
proof fn lemma_ahead_first(own: Set<Card>, other: Seq<Card>, q: Rank)
    requires
        rank_count(other.to_set(), q) == 0,
    ensures
        picks_first(Card::deck().reverse(), ahead_set(own, other.to_set(), q), other),
{
    let deck = Card::deck().reverse();
    let all = ahead_set(own, other.to_set(), q);
    let card = Card { rank: q, suit: spare_suit(around(own, other.to_set(), q)) };
    let p = 51 - card.index();
    lemma_deck_complete(card);
    assert(deck[p] == card);
    assert(all.contains(deck[p]));
    vstd::seq_lib::seq_to_set_is_finite(other);
    crate::census::lemma_rank_held(other.to_set(), q);
    assert(!other.contains(card)) by {
        if other.contains(card) {
            assert(other.to_set().contains(card) && card.rank == q);
        }
    }
    assert forall|k: int| 0 <= k < p implies (all.contains(#[trigger] deck[k]) <==> other.contains(
        deck[k],
    )) by {
        let c = deck[k];
        assert(c == Card::at((51 - k) as nat));
        assert(c.rank.index() == (51 - k) / 4);
        assert(c.rank.index() >= q.index());
        if c.rank == q {
            if other.contains(c) {
                assert(other.to_set().contains(c) && c.rank == q);
            }
            assert(c.index() == 51 - k);
            assert(c != card);
        } else {
            assert(c.rank.index() > q.index());
        }
    }
}

/// Among the keys of the combinations of `own.len()` cards, the key of cards of
/// different ranks comes before the key of other such cards where it holds the
/// highest rank on which the two differ.
pub proof fn lemma_kickers_precede(own: Set<Card>, other: Set<Card>)
    requires
        own.finite(),
        other.finite(),
        own.len() == other.len(),
        own.len() <= 5,
        flush_suit(own) is None,
        flush_suit(other) is None,
        forall|r: Rank| #[trigger] rank_count(own, r) <= 1,
        forall|r: Rank| #[trigger] rank_count(other, r) <= 1,
        leads(Hand::encode(own), Hand::encode(other), 1),
    ensures
        Hand::encode(own) != Hand::encode(other),
        precedes(Hand::combos(own.len()), Hand::encode(own), Hand::encode(other)),
{
    let m = own.len();
    let x = Hand::encode(own);
    let y = Hand::encode(other);
    let deck = Card::deck().reverse();
    let hands = Hand::combos(m);
    Hand::lemma_encode_exists(own);
    Hand::lemma_encode_exists(other);
    lemma_deck_reversed();
    let q = choose|q: Rank| tops(x, y, 1, q);
    assert forall|j: int| 0 <= j < hands.len() && #[trigger] hands[j] == y implies exists|i: int|
        0 <= i < j && #[trigger] hands[i] == x by {
        let combo = combinations_of(deck, m)[j];
        let held = combo.to_set();
        lemma_combination_members(deck, m, j);
        vstd::seq_lib::seq_to_set_is_finite(combo);
        combo.unique_seq_to_set();
        Hand::lemma_encode_exists(held);
        assert(Hand::encode(held) == y);
        assert forall|r: Rank| #[trigger] rank_count(held, r) == rank_count(other, r) by {
            assert(y.count(r) == rank_count(held, r));
        }
        assert forall|r: Rank| r.index() > q.index() implies rank_count(own, r) == rank_count(held, r) by {
            assert(x.count(r) == 1 <==> y.count(r) == 1);
            assert(rank_count(own, r) <= 1 && rank_count(other, r) <= 1);
        }
        assert(rank_count(held, q) == 0) by {
            assert(rank_count(other, q) <= 1);
        }
        let wanted = ahead_set(own, held, q);
        lemma_ahead_key(own, held, q);
        lemma_ahead_first(own, combo, q);
        assert(wanted.subset_of(deck.to_set()));
        let i = lemma_combinations_order(deck, m, wanted, j);
        assert(hands[i] == Hand::encode(wanted));
    }
}

/// Among flushes the one that holds the highest rank on which two differ comes
/// earlier.
pub proof fn lemma_flushes_precede(a: Set<Card>, b: Set<Card>)
    requires
        a.finite(),
        a.len() == 5,
        b.finite(),
        b.len() == 5,
        category(Hand::encode(a)) == 3,
        category(Hand::encode(b)) == 3,
        outranks(Hand::encode(a), Hand::encode(b)),
    ensures
        Hand::encode(a) != Hand::encode(b),
        precedes(category_hands(3), Hand::encode(a), Hand::encode(b)),
{
    let x = Hand::encode(a);
    let y = Hand::encode(b);
    let singles = Hand::flush_singles();
    let hands = Hand::flushes();
    Hand::lemma_encode_exists(a);
    Hand::lemma_encode_exists(b);
    lemma_flush_of_five(a, flush_suit(a)->Some_0);
    lemma_flush_of_five(b, flush_suit(b)->Some_0);
    assert forall|r: Rank| x.count(r) <= 1 && y.count(r) <= 1 by {
        assert(rank_count(a, r) <= 1 && rank_count(b, r) <= 1);
    }
    assert(!leads(x, y, 4) && !leads(x, y, 3) && !leads(x, y, 2));
    let q = choose|q: Rank| tops(x, y, 1, q);
    let wanted = flush_wanted(a);
    lemma_flush_wanted(a);
    lemma_flush_singles();
    lemma_ranks_down_holds(q);
    assert forall|j: int| 0 <= j < hands.len() && #[trigger] hands[j] == y implies exists|i: int|
        0 <= i < j && #[trigger] hands[i] == x by {
        let combo = combinations_of(singles, 5)[j];
        lemma_combination_members(singles, 5, j);
        lemma_union_all_singles(combo);
        assert(picks_first(singles, wanted, combo)) by {
            let p = 12 - q.index();
            assert(singles[p] == Hand::flush_single(q));
            assert(wanted.contains(singles[p]));
            assert(y.count(q) == 0);
            assert(!combo.contains(singles[p]));
            assert forall|k: int| 0 <= k < p implies (wanted.contains(#[trigger] singles[k])
                <==> combo.contains(singles[k])) by {
                let r = Rank::at((12 - k) as nat);
                assert(singles[k] == Hand::flush_single(r));
                assert(x.count(r) == 1 <==> y.count(r) == 1);
                assert(wanted.contains(Hand::flush_single(r)) == (rank_count(a, r) == 1));
            }
        }
        let i = lemma_combinations_order(singles, 5, wanted, j);
        lemma_flush_of_combo(a, i);
    }
}

/// Among the hands without a pair, a flush or a straight the one that holds the
/// highest rank on which two differ comes earlier.
pub proof fn lemma_high_cards_precede(a: Set<Card>, b: Set<Card>)
    requires
        a.finite(),
        a.len() == 5,
        b.finite(),
        b.len() == 5,
        category(Hand::encode(a)) == 8,
        category(Hand::encode(b)) == 8,
        outranks(Hand::encode(a), Hand::encode(b)),
    ensures
        Hand::encode(a) != Hand::encode(b),
        precedes(category_hands(8), Hand::encode(a), Hand::encode(b)),
{
    let x = Hand::encode(a);
    let y = Hand::encode(b);
    Hand::lemma_encode_exists(a);
    Hand::lemma_encode_exists(b);
    assert forall|r: Rank| #[trigger] rank_count(a, r) <= 1 by {
        crate::census::lemma_rank_count_bound(a, r);
        assert(x.count(r) != 4 && x.count(r) != 3 && x.count(r) != 2);
    }
    assert forall|r: Rank| #[trigger] rank_count(b, r) <= 1 by {
        crate::census::lemma_rank_count_bound(b, r);
        assert(y.count(r) != 4 && y.count(r) != 3 && y.count(r) != 2);
    }
    assert(!leads(x, y, 4) && !leads(x, y, 3) && !leads(x, y, 2));
    lemma_kickers_precede(a, b);
}

/// The category of the hands with `n` cards of one rank and no more than single
/// cards beside them.
pub open spec fn kind_category(n: u64) -> nat {
    if n == 4 {
        1
    } else if n == 3 {
        5
    } else {
        7
    }
}

/// Whether `rank` is the rank that the hand of five cards holds `n` times, beside
/// cards of different ranks.
pub open spec fn kind_shape(cards: Set<Card>, n: u64, rank: Rank) -> bool {
    let rest = without_rank(cards, rank);
    let hand = Hand::encode(cards);
    let kickers = Hand::encode(rest);
    &&& rank_count(cards, rank) == n
    &&& hand.count(rank) == n
    &&& forall|r: Rank| r != rank ==> hand.count(r) <= 1
    &&& hand == Hand::of_n_rank(rank, n).union(kickers)
    &&& kind_hands_at(n)((12 - rank.index()) as nat).contains(hand)
    &&& kickers.encodes(rest)
    &&& kickers.count(rank) == 0
    &&& forall|r: Rank| r != rank ==> kickers.count(r) == hand.count(r)
    &&& rest.finite()
    &&& rest.len() == 5 - n
    &&& flush_suit(rest) is None
    &&& forall|r: Rank| #[trigger] rank_count(rest, r) <= 1
}

proof fn lemma_kind_shape(cards: Set<Card>, n: u64) -> (rank: Rank)
    requires
        cards.finite(),
        cards.len() == 5,
        2 <= n <= 4,
        category(Hand::encode(cards)) == kind_category(n),
    ensures
        kind_shape(cards, n, rank),
{
    let hand = Hand::encode(cards);
    Hand::lemma_encode_exists(cards);
    let rank = choose|r: Rank| hand.count(r) == n;
    let rest = without_rank(cards, rank);
    lemma_kind_complete(cards, rank, n);
    lemma_without_rank(cards, rank);
    lemma_no_flush_of_few(rest);
    assert forall|r: Rank| r != rank implies hand.count(r) <= 1 by {
        rest.lemma_len_filter(|c: Card| c.rank == r);
        assert(rank_count(rest, r) == rank_count(cards, r));
        assert(hand.count(r) <= 3);
        if n == 2 {
            assert(hand.count(r) != 3);
            if hand.count(r) == 2 {
                assert(hand.count(rank) == 2 && hand.count(r) == 2 && rank != r);
            }
        }
    }
    assert forall|r: Rank| #[trigger] rank_count(rest, r) <= 1 by {
        if r != rank {
            assert(rank_count(rest, r) == rank_count(cards, r));
            assert(hand.count(r) <= 1);
        }
    }
    rank
}

/// Two hands of the same kind are ordered by the rank held `n` times, then by the
/// single cards.
proof fn lemma_kind_ranks(x: Hand, y: Hand, kx: Hand, ky: Hand, n: u64, a1: Rank, a2: Rank)
    requires
        2 <= n <= 4,
        x.count(a1) == n,
        y.count(a2) == n,
        forall|r: Rank| r != a1 ==> x.count(r) <= 1,
        forall|r: Rank| r != a2 ==> y.count(r) <= 1,
        kx.count(a1) == 0,
        ky.count(a2) == 0,
        forall|r: Rank| r != a1 ==> kx.count(r) == x.count(r),
        forall|r: Rank| r != a2 ==> ky.count(r) == y.count(r),
        outranks(x, y),
    ensures
        a1.index() > a2.index() || (a1 == a2 && leads(kx, ky, 1)),
{
    assert forall|m: nat| 2 <= m <= 4 && m != n implies !leads(x, y, m) && level(x, y, m) by {
        assert forall|r: Rank| x.count(r) != m && y.count(r) != m by {}
    }
    if leads(x, y, n as nat) {
        let q = choose|q: Rank| tops(x, y, n as nat, q);
        assert(q == a1);
        assert(y.count(a2) == n);
    } else {
        assert(level(x, y, n as nat));
        assert(y.count(a1) == n);
        assert(a1 == a2);
        assert(leads(x, y, 1));
        let q = choose|q: Rank| tops(x, y, 1, q);
        assert(q != a1);
        assert(tops(kx, ky, 1, q)) by {
            assert forall|r: Rank| r.index() > q.index() implies (kx.count(r) == 1 <==> ky.count(r)
                == 1) by {
                assert(x.count(r) == 1 <==> y.count(r) == 1);
            }
        }
    }
}

/// In the part of the hands of a kind that belongs to one rank, `x` comes before `y`
/// where `y` has another rank `n` times or the single cards of `x` come first.
proof fn lemma_kind_part_precedes(a: Set<Card>, b: Set<Card>, n: u64, a1: Rank, a2: Rank, rank: Rank)
    requires
        a.finite(),
        a.len() == 5,
        b.finite(),
        b.len() == 5,
        2 <= n <= 4,
        kind_shape(a, n, a1),
        kind_shape(b, n, a2),
        rank == a2 ==> a1 == a2 && leads(
            Hand::encode(without_rank(a, a1)),
            Hand::encode(without_rank(b, a2)),
            1,
        ),
    ensures
        precedes(
            Hand::combos((5 - n) as nat).filter_map(kind_pick(rank, n)),
            Hand::encode(a),
            Hand::encode(b),
        ),
{
    let x = Hand::encode(a);
    let y = Hand::encode(b);
    let m = (5 - n) as nat;
    let kx = Hand::encode(without_rank(a, a1));
    let ky = Hand::encode(without_rank(b, a2));
    let hands = Hand::combos(m);
    let pick = kind_pick(rank, n);
    let deck = Card::deck().reverse();
    lemma_deck_reversed();
    Hand::lemma_of_n_rank(rank, n);
    assert forall|j: int| 0 <= j < hands.len() && pick(#[trigger] hands[j]) == Some(y) implies exists|
        i: int,
    | 0 <= i < j && pick(#[trigger] hands[i]) == Some(x) by {
        let kickers = hands[j];
        let held = combinations_of(deck, m)[j].to_set();
        lemma_combination_members(deck, m, j);
        vstd::seq_lib::seq_to_set_is_finite(combinations_of(deck, m)[j]);
        combinations_of(deck, m)[j].unique_seq_to_set();
        Hand::lemma_encode_exists(held);
        lemma_no_flush_of_few(held);
        Hand::of_n_rank(rank, n).lemma_union(kickers);
        assert(y.count(rank) == n);
        assert(rank == a2);
        assert forall|r: Rank| kickers.count(r) == ky.count(r) by {
            if r != rank {
                assert(Hand::of_n_rank(rank, n).count(r) == 0);
            }
        }
        Hand::lemma_equal(kickers, ky);
        lemma_kickers_precede(without_rank(a, a1), without_rank(b, a2));
        assert(hands[j] == ky);
        let i = choose|i: int| 0 <= i < j && #[trigger] hands[i] == kx;
        assert(pick(hands[i]) == Some(x));
    }
    lemma_filter_map_precedes(hands, pick, x, y);
}

/// Among four of a kind, three of a kind and pairs the hand ahead by ranks comes
/// earlier: the higher rank of the kind, then the highest single card on which two
/// hands differ.
pub proof fn lemma_kinds_precede(a: Set<Card>, b: Set<Card>, n: u64)
    requires
        a.finite(),
        a.len() == 5,
        b.finite(),
        b.len() == 5,
        2 <= n <= 4,
        category(Hand::encode(a)) == kind_category(n),
        category(Hand::encode(b)) == kind_category(n),
        outranks(Hand::encode(a), Hand::encode(b)),
    ensures
        Hand::encode(a) != Hand::encode(b),
        precedes(category_hands(kind_category(n)), Hand::encode(a), Hand::encode(b)),
{
    let x = Hand::encode(a);
    let y = Hand::encode(b);
    let a1 = lemma_kind_shape(a, n);
    let a2 = lemma_kind_shape(b, n);
    let kx = Hand::encode(without_rank(a, a1));
    let ky = Hand::encode(without_rank(b, a2));
    lemma_kind_ranks(x, y, kx, ky, n, a1, a2);
    if a1 == a2 {
        lemma_kickers_precede(without_rank(a, a1), without_rank(b, a2));
    }
    lemma_ranks_down_holds(a1);
    let at = (12 - a1.index()) as nat;
    assert forall|i: nat| i < 13 implies (exists|e: nat|
        e < i && (#[trigger] kind_hands_at(n)(e)).contains(x)) || precedes(
        #[trigger] kind_hands_at(n)(i),
        x,
        y,
    ) by {
        if at < i {
            assert(kind_hands_at(n)(at).contains(x));
        } else {
            let rank = Rank::at((12 - i) as nat);
            lemma_ranks_down_holds(a2);
            lemma_kind_part_precedes(a, b, n, a1, a2, rank);
        }
    }
    lemma_gather_precedes(13, kind_hands_at(n), x, y);
}

/// Of two hands of five cards the stronger has the strictly lower score.
pub proof fn lemma_beats_scores_lower(a: Set<Card>, b: Set<Card>)
    requires
        a.finite(),
        a.len() == 5,
        b.finite(),
        b.len() == 5,
        beats(Hand::encode(a), Hand::encode(b)),
    ensures
        score_table().0.contains_key(Hand::encode(a)@),
        score_table().0.contains_key(Hand::encode(b)@),
        score_table().0[Hand::encode(a)@] < score_table().0[Hand::encode(b)@],
{
    let x = Hand::encode(a);
    let y = Hand::encode(b);
    let c = category(x);
    lemma_scored_with_category(a);
    lemma_scored_with_category(b);
    if category(x) < category(y) {
        lemma_stronger_category_scores_lower(a, b);
    } else {
        if is_straight(x) && is_straight(y) {
            lemma_straights_precede(a, b);
        } else if c == 1 {
            lemma_kinds_precede(a, b, 4);
        } else if c == 2 {
            lemma_full_houses_precede(a, b);
        } else if c == 3 {
            lemma_flushes_precede(a, b);
        } else if c == 5 {
            lemma_kinds_precede(a, b, 3);
        } else if c == 6 {
            lemma_two_pairs_precede(a, b);
        } else if c == 7 {
            lemma_kinds_precede(a, b, 2);
        } else if c == 8 {
            lemma_high_cards_precede(a, b);
        }
        lemma_earlier_scores_lower(a, b);
    }
}

/// Where two keys do not count the same ranks `n` times, one of them holds the
/// highest rank on which they differ.
proof fn lemma_one_leads(x: Hand, y: Hand, n: nat, ranks: nat)
    requires
        ranks <= 13,
        forall|r: Rank| r.index() >= ranks ==> (x.count(r) == n <==> y.count(r) == n),
        !level(x, y, n),
    ensures
        leads(x, y, n) || leads(y, x, n),
    decreases ranks,
{
    if ranks == 0 {
        assert forall|r: Rank| x.count(r) == n <==> y.count(r) == n by {
            assert(r.index() >= 0);
        }
    } else {
        let q = Rank::at((ranks - 1) as nat);
        assert(q.index() == ranks - 1);
        if (x.count(q) == n) != (y.count(q) == n) {
            if x.count(q) == n {
                assert(tops(x, y, n, q));
            } else {
                assert(tops(y, x, n, q));
            }
        } else {
            assert forall|r: Rank| r.index() >= ranks - 1 implies (x.count(r) == n <==> y.count(r)
                == n) by {
                if r.index() == ranks - 1 {
                    assert(Rank::at(r.index()) == r);
                }
            }
            lemma_one_leads(x, y, n, (ranks - 1) as nat);
        }
    }
}

/// Two keys of which neither is ahead of the other by ranks count every rank alike.
proof fn lemma_level_counts(x: Hand, y: Hand)
    requires
        !outranks(x, y),
        !outranks(y, x),
        forall|r: Rank| x.count(r) <= 4 && y.count(r) <= 4,
    ensures
        forall|r: Rank| x.count(r) == y.count(r),
{
    if !level(x, y, 4) {
        lemma_one_leads(x, y, 4, 13);
    }
    if !level(x, y, 3) {
        lemma_one_leads(x, y, 3, 13);
    }
    if !level(x, y, 2) {
        lemma_one_leads(x, y, 2, 13);
    }
    if !level(x, y, 1) {
        lemma_one_leads(x, y, 1, 13);
    }
    assert(level(y, x, 4) && level(y, x, 3) && level(y, x, 2));
    assert forall|r: Rank| x.count(r) == y.count(r) by {
        assert(x.count(r) == 4 <==> y.count(r) == 4);
        assert(x.count(r) == 3 <==> y.count(r) == 3);
        assert(x.count(r) == 2 <==> y.count(r) == 2);
        assert(x.count(r) == 1 <==> y.count(r) == 1);
    }
}

/// Of two hands of five cards one is the stronger, or the two have the same key.
pub proof fn lemma_beats_or_same(a: Set<Card>, b: Set<Card>)
    requires
        a.finite(),
        a.len() == 5,
        b.finite(),
        b.len() == 5,
    ensures
        beats(Hand::encode(a), Hand::encode(b)) || beats(Hand::encode(b), Hand::encode(a)) || Hand::encode(
            a,
        ) == Hand::encode(b),
{
    let x = Hand::encode(a);
    let y = Hand::encode(b);
    Hand::lemma_encode_exists(a);
    Hand::lemma_encode_exists(b);
    if category(x) == category(y) && !beats(x, y) && !beats(y, x) {
        assert forall|r: Rank| x.count(r) <= 4 && y.count(r) <= 4 by {
            crate::census::lemma_rank_count_bound(a, r);
            crate::census::lemma_rank_count_bound(b, r);
        }
        if is_straight(x) && is_straight(y) {
            let h1 = straight_high(x);
            let h2 = straight_high(y);
            assert(h1.index() == h2.index());
            assert(Rank::at(h1.index()) == h1 && Rank::at(h2.index()) == h2);
            assert(straight_to(x, h1) && straight_to(y, h2));
        } else {
            assert(is_straight(x) == is_straight(y));
            lemma_level_counts(x, y);
        }
        if flush_suit(a) is Some {
            lemma_flush_of_five(a, flush_suit(a)->Some_0);
        }
        if flush_suit(b) is Some {
            lemma_flush_of_five(b, flush_suit(b)->Some_0);
        }
        assert(x.flush() == y.flush());
        lemma_same_profile_same_key(a, b);
    }
}

/// The straight flushes have the ten lowest scores, the highest of them 0 and the
/// one that ends in `Five` 9.
pub proof fn lemma_straight_flush_scores(high: Rank)
    requires
        high.index() >= 3,
    ensures
        score_table().0.contains_key(Hand::straight_flush(high)@),
        score_table().0[Hand::straight_flush(high)@] == 12 - high.index(),
        table_after(1).1 == 10,
{
    let hands = straight_flush_hands();
    assert forall|i: int, j: int| 0 <= i < 10 && 0 <= j < 10 && i != j implies hands[i] != hands[j] by {
        let a = Rank::at((12 - i) as nat);
        let b = Rank::at((12 - j) as nat);
        Hand::lemma_straight_flush(a);
        Hand::lemma_straight_flush(b);
        if hands[i] == hands[j] {
            assert(straight_to(hands[i], a) && straight_to(hands[i], b));
            lemma_straight_to_unique(hands[i], a, b);
        }
    }
    lemma_number_fresh(Map::empty(), 0, hands);
    assert(table_after(0) == (Map::<u64, u64>::empty(), 0nat));
    assert(table_after(1) == number_hands(Map::empty(), 0, hands));
    lemma_ranks_down_holds(high);
    assert(hands[12 - high.index()] == Hand::straight_flush(high));
    lemma_table_after_grows(1, 9, Hand::straight_flush(high)@);
}

} // verus!
