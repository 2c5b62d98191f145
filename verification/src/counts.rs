//! How many keys each category adds to the score table.

use crate::card::{Card, Rank, Suit};
use crate::category::{
    category, has_count, has_two_pairs, is_straight, lemma_category_sound, lemma_combos_hold,
    lemma_filter_map_holds, lemma_flush_single_injective, lemma_flush_singles,
    lemma_gather_from, lemma_gather_holds, lemma_kind_complete, lemma_ranks_down_holds,
    lemma_scored_with_category, lemma_table_keys, lemma_union_all_singles, straight_to,
};
use crate::census::{
    flush_suit, lemma_flush_of_five, lemma_no_flush_of_few, lemma_rank_held, rank_count,
    without_rank,
};
use crate::combos::{
    binomial, combinations_of, lemma_binomial_small, lemma_combination_members,
    lemma_combinations_complete, lemma_combinations_len,
};
use crate::hand::{Hand, in_straight};
use crate::strength::{kind_category, lemma_straight_to_unique};
use crate::table::{
    category_hands, dense, full_house_hands_at, full_house_pick, gather, kicker_pick,
    kind_hands_at, kind_pick, lemma_deck_reversed, lemma_number_dense, lemma_table_after_dense,
    lemma_table_after_grows, low_pair_hands_at, number_hands, ranks_down, straight_flush_hands,
    straight_hands, table_after, two_pair_hands_at,
};
use vstd::prelude::*;
use vstd::set_lib::{lemma_map_size, lemma_set_disjoint_lens};

verus! {

/// Numbering raises the counter by the number of hands with a new key: where `fresh`
/// are those of the hands whose key the table lacks, the counter goes up by the size
/// of `fresh`.
pub proof fn lemma_number_count(scores: Map<u64, u64>, next: nat, hands: Seq<Hand>, fresh: Set<Hand>)
    requires
        dense(scores, next),
        number_hands(scores, next, hands).1 <= u64::MAX,
        fresh.finite(),
        forall|h: Hand| fresh.contains(h) ==> hands.contains(h) && !scores.contains_key(h@),
        forall|i: int|
            0 <= i < hands.len() ==> scores.contains_key((#[trigger] hands[i])@) || fresh.contains(
                hands[i],
            ),
    ensures
        number_hands(scores, next, hands).1 == next + fresh.len(),
{
    let after = number_hands(scores, next, hands);
    let key = |h: Hand| h@;
    let added = fresh.map(key);
    lemma_number_dense(scores, next, hands);
    assert(vstd::relations::injective_on(key, fresh)) by {
        assert forall|a: Hand, b: Hand|
            fresh.contains(a) && fresh.contains(b) && #[trigger] key(a) == #[trigger] key(b) implies a
            == b by {
            Hand::lemma_view_injective(a, b);
        }
    }
    lemma_map_size(fresh, added, key);
    assert(scores.dom().disjoint(added)) by {
        assert forall|k: u64| !(scores.dom().contains(k) && added.contains(k)) by {
            if added.contains(k) {
                let h = choose|h: Hand| fresh.contains(h) && k == key(h);
                assert(!scores.contains_key(h@));
            }
        }
    }
    lemma_set_disjoint_lens(scores.dom(), added);
    assert(after.0.dom() =~= scores.dom() + added) by {
        assert forall|k: u64| after.0.dom().contains(k) <==> (scores.dom() + added).contains(k) by {
            crate::category::lemma_number_keys(scores, next, hands, k);
            if added.contains(k) {
                let h = choose|h: Hand| fresh.contains(h) && k == key(h);
                let i = choose|i: int| 0 <= i < hands.len() && hands[i] == h;
                assert(hands[i]@ == k);
            }
            if crate::category::keyed(hands, k) && !scores.contains_key(k) {
                let i = choose|i: int| 0 <= i < hands.len() && (#[trigger] hands[i])@ == k;
                assert(fresh.contains(hands[i]));
                assert(added.contains(key(hands[i])));
            }
        }
    }
}

/// A hand of the category that is being built is new to the table.
pub proof fn lemma_fresh_in_category(c: nat, hand: Hand)
    requires
        category(hand) == c,
    ensures
        !table_after(c).0.contains_key(hand@),
{
    if table_after(c).0.contains_key(hand@) {
        let found = lemma_table_keys(c, hand@);
        let hands = category_hands(found);
        let i = choose|i: int| 0 <= i < hands.len() && (#[trigger] hands[i])@ == hand@;
        Hand::lemma_view_injective(hands[i], hand);
        lemma_category_sound(found, hand);
    }
}

/// A category whose hands are all of that category and all different adds as many
/// keys as it has hands.
pub proof fn lemma_pure_category_count(c: nat)
    requires
        c <= 8,
        category_hands(c).no_duplicates(),
        forall|i: int| 0 <= i < category_hands(c).len() ==> category(#[trigger] category_hands(c)[i]) == c,
    ensures
        table_after(c + 1).1 == table_after(c).1 + category_hands(c).len(),
{
    let hands = category_hands(c);
    let before = table_after(c);
    lemma_table_after_dense(c);
    lemma_table_after_dense(c + 1);
    hands.unique_seq_to_set();
    vstd::seq_lib::seq_to_set_is_finite(hands);
    assert forall|h: Hand| hands.to_set().contains(h) implies hands.contains(h) && !before.0.contains_key(
        h@,
    ) by {
        let i = choose|i: int| 0 <= i < hands.len() && hands[i] == h;
        lemma_fresh_in_category(c, h);
    }
    lemma_number_count(before.0, before.1, hands, hands.to_set());
}

/// Different combinations of items that are all different hold different sets.
pub proof fn lemma_combinations_distinct<T>(items: Seq<T>, k: nat, i: int, j: int)
    requires
        items.no_duplicates(),
        0 <= i < j < combinations_of(items, k).len(),
    ensures
        combinations_of(items, k)[i].to_set() != combinations_of(items, k)[j].to_set(),
    decreases items.len(),
{
    if k != 0 && items.len() != 0 {
        let rest = items.drop_first();
        let first = items[0];
        let with_first = combinations_of(rest, (k - 1) as nat).map_values(
            |c: Seq<T>| seq![items[0]] + c,
        );
        let a = combinations_of(items, k)[i];
        let b = combinations_of(items, k)[j];
        assert(rest.no_duplicates());
        if j < with_first.len() {
            let ta = combinations_of(rest, (k - 1) as nat)[i];
            let tb = combinations_of(rest, (k - 1) as nat)[j];
            lemma_combinations_distinct(rest, (k - 1) as nat, i, j);
            lemma_combination_members(rest, (k - 1) as nat, i);
            lemma_combination_members(rest, (k - 1) as nat, j);
            crate::combos::lemma_prepend_set(first, ta);
            crate::combos::lemma_prepend_set(first, tb);
            assert(!ta.to_set().contains(first) && !tb.to_set().contains(first)) by {
                assert forall|x: T| rest.contains(x) implies x != first by {
                    let m = choose|m: int| 0 <= m < rest.len() && rest[m] == x;
                    assert(items[m + 1] == x);
                }
                if ta.contains(first) {
                    let m = choose|m: int| 0 <= m < ta.len() && ta[m] == first;
                    assert(rest.contains(ta[m]));
                }
                if tb.contains(first) {
                    let m = choose|m: int| 0 <= m < tb.len() && tb[m] == first;
                    assert(rest.contains(tb[m]));
                }
            }
            if a.to_set() == b.to_set() {
                assert(ta.to_set() =~= a.to_set().remove(first));
                assert(tb.to_set() =~= b.to_set().remove(first));
            }
        } else if i < with_first.len() {
            let ta = combinations_of(rest, (k - 1) as nat)[i];
            let j2 = j - with_first.len();
            assert(b == combinations_of(rest, k)[j2]);
            lemma_combination_members(rest, k, j2);
            assert(a == seq![first] + ta);
            assert(a[0] == first);
            assert(a.to_set().contains(first));
            if b.contains(first) {
                let m = choose|m: int| 0 <= m < b.len() && b[m] == first;
                assert(rest.contains(b[m]));
                let n = choose|n: int| 0 <= n < rest.len() && rest[n] == first;
                assert(items[n + 1] == items[0]);
            }
        } else {
            let i2 = i - with_first.len();
            let j2 = j - with_first.len();
            assert(a == combinations_of(rest, k)[i2]);
            assert(b == combinations_of(rest, k)[j2]);
            lemma_combinations_distinct(rest, k, i2, j2);
        }
    }
}

/// A gathered sequence holds nothing twice where no part does and no two parts
/// share an item.
pub proof fn lemma_gather_no_duplicates<A>(n: nat, f: spec_fn(nat) -> Seq<A>)
    requires
        forall|i: nat| i < n ==> (#[trigger] f(i)).no_duplicates(),
        forall|i: nat, j: nat, x: A|
            i < j < n ==> !(#[trigger] f(i).contains(x) && #[trigger] f(j).contains(x)),
    ensures
        gather(n, f).no_duplicates(),
    decreases n,
{
    if n > 0 {
        let before = gather((n - 1) as nat, f);
        let last = f((n - 1) as nat);
        lemma_gather_no_duplicates((n - 1) as nat, f);
        assert forall|i: int, j: int| 0 <= i < before.len() && 0 <= j < last.len() implies before[i]
            != last[j] by {
            assert(before.contains(before[i]));
            let e = lemma_gather_from((n - 1) as nat, f, before[i]);
            assert(last.contains(last[j]));
        }
        vstd::seq_lib::lemma_no_dup_in_concat(before, last);
    }
}

/// What is picked from different items is different where the picking maps no two
/// of the items to the same.
pub proof fn lemma_filter_map_no_duplicates<A, B>(s: Seq<A>, f: spec_fn(A) -> Option<B>)
    requires
        s.no_duplicates(),
        forall|i: int, j: int|
            0 <= i < s.len() && 0 <= j < s.len() && i != j && f(#[trigger] s[i]) is Some ==> f(s[i])
                != f(#[trigger] s[j]),
    ensures
        s.filter_map(f).no_duplicates(),
    decreases s.len(),
{
    if s.len() > 0 {
        let rest = s.drop_last();
        let picked = rest.filter_map(f);
        assert forall|i: int, j: int|
            0 <= i < rest.len() && 0 <= j < rest.len() && i != j && f(#[trigger] rest[i]) is Some implies f(
            rest[i],
        ) != f(#[trigger] rest[j]) by {
            assert(rest[i] == s[i] && rest[j] == s[j]);
        }
        lemma_filter_map_no_duplicates(rest, f);
        if f(s.last()) is Some {
            let v = f(s.last())->Some_0;
            if picked.contains(v) {
                rest.lemma_filter_map_contains(f, v);
                let t = choose|t: A| #[trigger] rest.contains(t) && f(t) == Some(v);
                let i = choose|i: int| 0 <= i < rest.len() && rest[i] == t;
                assert(s[i] == t);
                assert(f(s[i]) == f(s[s.len() - 1]));
            }
            assert forall|i: int, j: int|
                0 <= i < picked.len() + 1 && 0 <= j < picked.len() + 1 && i != j implies s.filter_map(
                f,
            )[i] != s.filter_map(f)[j] by {
                if i < picked.len() {
                    assert(picked.contains(picked[i]));
                }
                if j < picked.len() {
                    assert(picked.contains(picked[j]));
                }
            }
        }
    }
}

/// How many of the items nothing is picked from.
pub open spec fn none_count<A, B>(s: Seq<A>, f: spec_fn(A) -> Option<B>) -> nat
    decreases s.len(),
{
    if s.len() == 0 {
        0
    } else {
        none_count(s.drop_last(), f) + (if f(s.last()) is None {
            1nat
        } else {
            0nat
        })
    }
}

/// Each item gives one picked item or none.
pub proof fn lemma_filter_map_len_exact<A, B>(s: Seq<A>, f: spec_fn(A) -> Option<B>)
    ensures
        s.filter_map(f).len() + none_count(s, f) == s.len(),
    decreases s.len(),
{
    if s.len() > 0 {
        lemma_filter_map_len_exact(s.drop_last(), f);
    }
}

/// Among items that are all different, those that nothing is picked from are as many
/// as the set of them holds.
pub proof fn lemma_none_count<A, B>(s: Seq<A>, f: spec_fn(A) -> Option<B>, skipped: Set<A>)
    requires
        s.no_duplicates(),
        skipped.finite(),
        forall|x: A| skipped.contains(x) ==> s.contains(x),
        forall|i: int| 0 <= i < s.len() ==> (f(#[trigger] s[i]) is None <==> skipped.contains(s[i])),
    ensures
        none_count(s, f) == skipped.len(),
    decreases s.len(),
{
    if s.len() == 0 {
        assert(skipped =~= Set::<A>::empty()) by {
            assert forall|x: A| !skipped.contains(x) by {
                if skipped.contains(x) {
                    assert(s.contains(x));
                }
            }
        }
    } else {
        let rest = s.drop_last();
        let last = s.last();
        let fewer = skipped.remove(last);
        assert(rest.no_duplicates());
        assert forall|x: A| fewer.contains(x) implies rest.contains(x) by {
            let i = choose|i: int| 0 <= i < s.len() && s[i] == x;
            assert(rest[i] == x);
        }
        assert forall|i: int| 0 <= i < rest.len() implies (f(#[trigger] rest[i]) is None
            <==> fewer.contains(rest[i])) by {
            assert(rest[i] == s[i]);
            assert(s[i] != s[s.len() - 1]);
        }
        lemma_none_count(rest, f, fewer);
        assert(f(s[s.len() - 1]) is None <==> skipped.contains(last));
    }
}

/// A gathered sequence is as long as its parts together.
pub open spec fn sum_to(n: nat, sizes: spec_fn(nat) -> nat) -> nat
    decreases n,
{
    if n == 0 {
        0
    } else {
        sum_to((n - 1) as nat, sizes) + sizes((n - 1) as nat)
    }
}

/// A gathered sequence is as long as the sizes of its parts add up to.
pub proof fn lemma_gather_len_exact<A>(n: nat, f: spec_fn(nat) -> Seq<A>, sizes: spec_fn(nat) -> nat)
    requires
        forall|i: nat| i < n ==> (#[trigger] f(i)).len() == sizes(i),
    ensures
        gather(n, f).len() == sum_to(n, sizes),
    decreases n,
{
    if n > 0 {
        lemma_gather_len_exact((n - 1) as nat, f, sizes);
    }
}

/// Equal parts add up to their product.
pub proof fn lemma_sum_of_equal(n: nat, sizes: spec_fn(nat) -> nat, each: nat)
    requires
        forall|i: nat| i < n ==> #[trigger] sizes(i) == each,
    ensures
        sum_to(n, sizes) == n * each,
    decreases n,
{
    if n > 0 {
        lemma_sum_of_equal((n - 1) as nat, sizes, each);
        assert((n - 1) * each + each == n * each) by (nonlinear_arith);
    } else {
        assert(0 * each == 0) by (nonlinear_arith);
    }
}

/// The ranks from the `Ace` down are all different.
pub proof fn lemma_ranks_down_distinct()
    ensures
        ranks_down().no_duplicates(),
        ranks_down().len() == 13,
{
    assert forall|i: int, j: int| 0 <= i < 13 && 0 <= j < 13 && i != j implies ranks_down()[i]
        != ranks_down()[j] by {
        assert(ranks_down()[i].index() == 12 - i);
        assert(ranks_down()[j].index() == 12 - j);
    }
}

/// The key `base` with one more card of each of the ranks.
pub open spec fn spread(base: Hand, ranks: Seq<Rank>) -> Hand {
    ranks.fold_left(base, |hand: Hand, rank: Rank| hand.with_more(rank, 1))
}

/// The keys of `base` with one more card of each rank of a combination of `k` of the
/// ranks, in the order of the combinations.
pub open spec fn spreads(base: Hand, ranks: Seq<Rank>, k: nat) -> Seq<Hand> {
    combinations_of(ranks, k).map_values(|picked: Seq<Rank>| spread(base, picked))
}

/// What a spread key holds: one card of each of the ranks beside what `base` holds.
pub proof fn lemma_spread(base: Hand, ranks: Seq<Rank>)
    requires
        ranks.no_duplicates(),
        forall|r: Rank| base.count(r) <= 6,
        forall|i: int| 0 <= i < ranks.len() ==> base.count(#[trigger] ranks[i]) == 0,
    ensures
        forall|r: Rank|
            spread(base, ranks).count(r) == base.count(r) + (if ranks.contains(r) {
                1nat
            } else {
                0nat
            }),
        spread(base, ranks).same_suits(base),
    decreases ranks.len(),
{
    if ranks.len() > 0 {
        let rest = ranks.drop_last();
        let last = ranks.last();
        let before = spread(base, rest);
        assert forall|i: int| 0 <= i < rest.len() implies base.count(#[trigger] rest[i]) == 0 by {
            assert(rest[i] == ranks[i]);
        }
        lemma_spread(base, rest);
        assert(!rest.contains(last)) by {
            if rest.contains(last) {
                let i = choose|i: int| 0 <= i < rest.len() && rest[i] == last;
                assert(ranks[i] == ranks[ranks.len() - 1]);
            }
        }
        assert(base.count(ranks[ranks.len() - 1]) == 0);
        before.lemma_with_more(last, 1);
        assert forall|r: Rank|
            spread(base, ranks).count(r) == base.count(r) + (if ranks.contains(r) {
                1nat
            } else {
                0nat
            }) by {
            if r == last {
                assert(ranks[ranks.len() - 1] == r);
            } else {
                if rest.contains(r) {
                    let i = choose|i: int| 0 <= i < rest.len() && rest[i] == r;
                    assert(ranks[i] == r);
                }
                if ranks.contains(r) {
                    let i = choose|i: int| 0 <= i < ranks.len() && ranks[i] == r;
                    assert(rest[i] == r);
                }
            }
        }
    }
}

/// The spread keys of the combinations of ranks that are all different, and that
/// `base` does not hold, are all different; there is one for each combination.
pub proof fn lemma_spreads(base: Hand, ranks: Seq<Rank>, k: nat)
    requires
        ranks.no_duplicates(),
        forall|r: Rank| base.count(r) <= 6,
        forall|i: int| 0 <= i < ranks.len() ==> base.count(#[trigger] ranks[i]) == 0,
    ensures
        spreads(base, ranks, k).no_duplicates(),
        spreads(base, ranks, k).len() == binomial(ranks.len(), k),
{
    let all = spreads(base, ranks, k);
    lemma_combinations_len(ranks, k);
    assert forall|i: int, j: int| 0 <= i < all.len() && 0 <= j < all.len() && i != j implies all[i]
        != all[j] by {
        let a = combinations_of(ranks, k)[i];
        let b = combinations_of(ranks, k)[j];
        lemma_spread_of_combination(base, ranks, k, i);
        lemma_spread_of_combination(base, ranks, k, j);
        if i < j {
            lemma_combinations_distinct(ranks, k, i, j);
        } else {
            lemma_combinations_distinct(ranks, k, j, i);
        }
        if all[i] == all[j] {
            assert(a.to_set() =~= b.to_set()) by {
                assert forall|r: Rank| a.to_set().contains(r) <==> b.to_set().contains(r) by {
                    assert(all[i].count(r) == all[j].count(r));
                }
            }
        }
    }
}

/// What the spread key of one of the combinations holds.
pub proof fn lemma_spread_of_combination(base: Hand, ranks: Seq<Rank>, k: nat, i: int)
    requires
        ranks.no_duplicates(),
        forall|r: Rank| base.count(r) <= 6,
        forall|i: int| 0 <= i < ranks.len() ==> base.count(#[trigger] ranks[i]) == 0,
        0 <= i < combinations_of(ranks, k).len(),
    ensures
        spreads(base, ranks, k)[i] == spread(base, combinations_of(ranks, k)[i]),
        forall|r: Rank|
            spreads(base, ranks, k)[i].count(r) == base.count(r) + (if combinations_of(ranks, k)[i].contains(
                r,
            ) {
                1nat
            } else {
                0nat
            }),
        spreads(base, ranks, k)[i].same_suits(base),
        combinations_of(ranks, k)[i].len() == k,
        forall|r: Rank| combinations_of(ranks, k)[i].contains(r) ==> ranks.contains(r),
{
    let picked = combinations_of(ranks, k)[i];
    lemma_combination_members(ranks, k, i);
    assert forall|r: Rank| picked.contains(r) implies ranks.contains(r) by {
        let m = choose|m: int| 0 <= m < picked.len() && picked[m] == r;
        assert(ranks.contains(picked[m]));
    }
    assert forall|m: int| 0 <= m < picked.len() implies base.count(#[trigger] picked[m]) == 0 by {
        assert(ranks.contains(picked[m]));
        let at = choose|at: int| 0 <= at < ranks.len() && ranks[at] == picked[m];
        assert(base.count(ranks[at]) == 0);
    }
    lemma_spread(base, picked);
}

/// One card of each of the ranks: a heart of the rank `odd`, spades of the others.
pub open spec fn cards_of(ranks: Set<Rank>, odd: Rank) -> Set<Card> {
    ranks.map(card_of(odd))
}

/// The card that stands for a rank: a heart for the rank `odd`, a spade for another.
pub open spec fn card_of(odd: Rank) -> spec_fn(Rank) -> Card {
    |r: Rank| Card { rank: r, suit: if r == odd { Suit::Hearts } else { Suit::Spades } }
}

/// The cards of given ranks are as many as the ranks, one of each, and have no flush
/// where they are fewer than five or hold the heart and another card.
pub proof fn lemma_cards_of(ranks: Set<Rank>, odd: Rank)
    requires
        ranks.finite(),
    ensures
        cards_of(ranks, odd).finite(),
        cards_of(ranks, odd).len() == ranks.len(),
        forall|r: Rank|
            #[trigger] rank_count(cards_of(ranks, odd), r) == (if ranks.contains(r) {
                1nat
            } else {
                0nat
            }),
        ranks.len() < 5 || (ranks.len() == 5 && ranks.contains(odd)) ==> flush_suit(cards_of(ranks, odd))
            is None,
{
    let card = card_of(odd);
    let cards = cards_of(ranks, odd);
    assert(vstd::relations::injective_on(card, ranks));
    lemma_map_size(ranks, cards, card);
    assert forall|r: Rank|
        #[trigger] rank_count(cards, r) == (if ranks.contains(r) {
            1nat
        } else {
            0nat
        }) by {
        if ranks.contains(r) {
            assert(cards.contains(card(r)));
            assert(cards.filter(|c: Card| c.rank == r) =~= set![card(r)]) by {
                assert forall|c: Card| cards.contains(c) && c.rank == r implies c == card(r) by {
                    let q = choose|q: Rank| ranks.contains(q) && c == card(q);
                }
            }
        } else {
            assert(cards.filter(|c: Card| c.rank == r) =~= Set::<Card>::empty()) by {
                assert forall|c: Card| !(cards.contains(c) && c.rank == r) by {
                    if cards.contains(c) {
                        let q = choose|q: Rank| ranks.contains(q) && c == card(q);
                    }
                }
            }
        }
    }
    if ranks.len() < 5 {
        lemma_no_flush_of_few(cards);
    } else if ranks.len() == 5 && ranks.contains(odd) {
        if flush_suit(cards) is Some {
            lemma_flush_of_five(cards, flush_suit(cards)->Some_0);
            assert(cards.contains(card(odd)));
            let rest = ranks.remove(odd);
            assert(rest.len() == 4);
            let other = rest.choose();
            assert(rest.contains(other)) by {
                if rest.is_empty() {
                    assert(rest =~= Set::<Rank>::empty());
                }
            }
            assert(cards.contains(card(other)));
        }
    }
}

/// The ranks of the cards.
pub open spec fn ranks_of(cards: Set<Card>) -> Set<Rank> {
    cards.map(rank_of())
}

/// The rank of a card.
pub open spec fn rank_of() -> spec_fn(Card) -> Rank {
    |c: Card| c.rank
}

/// Cards of different ranks have as many ranks as they are.
pub proof fn lemma_ranks_of(cards: Set<Card>)
    requires
        cards.finite(),
        forall|r: Rank| #[trigger] rank_count(cards, r) <= 1,
    ensures
        ranks_of(cards).finite(),
        ranks_of(cards).len() == cards.len(),
        forall|r: Rank| ranks_of(cards).contains(r) <==> #[trigger] rank_count(cards, r) == 1,
{
    let rank = rank_of();
    assert(vstd::relations::injective_on(rank, cards)) by {
        assert forall|a: Card, b: Card|
            cards.contains(a) && cards.contains(b) && #[trigger] rank(a) == #[trigger] rank(b) implies a
            == b by {
            if a != b {
                let held = cards.filter(|c: Card| c.rank == a.rank);
                vstd::set_lib::lemma_set_subset_finite(cards, held);
                assert(held.contains(a) && held.contains(b));
                assert(rank_count(cards, a.rank) <= 1);
                assert(held.remove(a).contains(b));
                assert(held.remove(a).len() == held.len() - 1);
                if held.remove(a).len() == 0 {
                    held.remove(a).lemma_len0_is_empty();
                }
            }
        }
    }
    lemma_map_size(cards, ranks_of(cards), rank);
    assert forall|r: Rank| ranks_of(cards).contains(r) <==> #[trigger] rank_count(cards, r) == 1 by {
        lemma_rank_held(cards, r);
        if ranks_of(cards).contains(r) {
            let c = choose|c: Card| cards.contains(c) && r == rank(c);
            assert(cards.contains(c) && c.rank == r);
        }
        if rank_count(cards, r) == 1 {
            let c = choose|c: Card| #[trigger] cards.contains(c) && c.rank == r;
            assert(rank(c) == r);
            assert(ranks_of(cards).contains(rank(c)));
        }
    }
}

/// The ranks other than `rank`, from the highest down.
pub open spec fn ranks_except(rank: Rank) -> Seq<Rank> {
    Seq::new(
        12,
        |i: int|
            if 12 - i > rank.index() {
                Rank::at((12 - i) as nat)
            } else {
                Rank::at((11 - i) as nat)
            },
    )
}

/// The ranks other than one rank are twelve different ranks: all but that one.
pub proof fn lemma_ranks_except(rank: Rank)
    ensures
        ranks_except(rank).no_duplicates(),
        ranks_except(rank).len() == 12,
        forall|r: Rank| ranks_except(rank).contains(r) <==> r != rank,
{
    let ranks = ranks_except(rank);
    assert forall|i: int| 0 <= i < 12 implies (#[trigger] ranks[i]).index() == (if 12 - i
        > rank.index() {
        12 - i
    } else {
        11 - i
    }) by {}
    assert forall|i: int, j: int| 0 <= i < 12 && 0 <= j < 12 && i != j implies ranks[i] != ranks[j] by {
        assert(ranks[i].index() != ranks[j].index());
    }
    assert forall|r: Rank| ranks.contains(r) <==> r != rank by {
        if ranks.contains(r) {
            let i = choose|i: int| 0 <= i < 12 && ranks[i] == r;
            assert(ranks[i].index() != rank.index());
        }
        if r != rank {
            assert(Rank::at(r.index()) == r);
            if r.index() > rank.index() {
                assert(ranks[12 - r.index()] == r);
            } else {
                assert(ranks[11 - r.index()] == r);
            }
        }
    }
}

/// The keys of `n` cards of one rank beside single cards of other ranks: for each
/// rank from the `Ace` down, one key for each choice of the other ranks.
pub open spec fn kind_keys_at(n: u64) -> spec_fn(nat) -> Seq<Hand> {
    |i: nat|
        spreads(
            Hand::of_n_rank(Rank::at((12 - i) as nat), n),
            ranks_except(Rank::at((12 - i) as nat)),
            (5 - n) as nat,
        )
}

/// The keys of `n` cards of one rank beside single cards, those of the highest rank first.
pub open spec fn kind_keys(n: u64) -> Seq<Hand> {
    gather(13, kind_keys_at(n))
}

/// What one of the keys of a kind holds.
proof fn lemma_kind_key(n: u64, i: nat, m: int)
    requires
        2 <= n <= 4,
        i < 13,
        0 <= m < kind_keys_at(n)(i).len(),
    ensures
        ({
            let rank = Rank::at((12 - i) as nat);
            let key = kind_keys_at(n)(i)[m];
            let picked = combinations_of(ranks_except(rank), (5 - n) as nat)[m];
            &&& key.count(rank) == n
            &&& forall|r: Rank| r != rank ==> key.count(r) == (if picked.contains(r) { 1nat } else { 0nat })
            &&& key.suitless()
            &&& category(key) == kind_category(n)
            &&& picked.no_duplicates()
            &&& picked.len() == 5 - n
            &&& !picked.contains(rank)
        }),
{
    let rank = Rank::at((12 - i) as nat);
    let base = Hand::of_n_rank(rank, n);
    let key = kind_keys_at(n)(i)[m];
    let picked = combinations_of(ranks_except(rank), (5 - n) as nat)[m];
    lemma_ranks_except(rank);
    Hand::lemma_of_n_rank(rank, n);
    assert forall|j: int| 0 <= j < 12 implies base.count(#[trigger] ranks_except(rank)[j]) == 0 by {
        assert(ranks_except(rank).contains(ranks_except(rank)[j]));
    }
    lemma_spread_of_combination(base, ranks_except(rank), (5 - n) as nat, m);
    lemma_combination_members(ranks_except(rank), (5 - n) as nat, m);
    assert(!picked.contains(rank));
    assert(key.count(rank) == n);
    assert forall|r: Rank| key.count(r) != 0 && r != rank implies key.count(r) == 1 by {}
    assert(!has_two_pairs(key)) by {
        assert forall|a: Rank, b: Rank| a != b implies !(key.count(a) == 2 && key.count(b) == 2) by {}
    }
    assert(!is_straight(key)) by {
        assert forall|high: Rank| !straight_to(key, high) by {
            assert(key.count(rank) > 1);
        }
    }
}

/// The keys of a kind are all different, thirteen times as many as there are choices
/// of the other ranks, and each stands among the hands of its kind.
pub proof fn lemma_kind_keys(n: u64)
    requires
        2 <= n <= 4,
    ensures
        kind_keys(n).no_duplicates(),
        kind_keys(n).len() == 13 * binomial(12, (5 - n) as nat),
        forall|i: int|
            0 <= i < kind_keys(n).len() ==> category(#[trigger] kind_keys(n)[i]) == kind_category(n)
                && gather(13, kind_hands_at(n)).contains(kind_keys(n)[i]),
{
    let k = (5 - n) as nat;
    let parts = kind_keys_at(n);
    assert forall|i: nat| i < 13 implies (#[trigger] parts(i)).no_duplicates() && parts(i).len()
        == binomial(12, k) by {
        let rank = Rank::at((12 - i) as nat);
        let base = Hand::of_n_rank(rank, n);
        lemma_ranks_except(rank);
        Hand::lemma_of_n_rank(rank, n);
        assert forall|j: int| 0 <= j < 12 implies base.count(#[trigger] ranks_except(rank)[j]) == 0 by {
            assert(ranks_except(rank).contains(ranks_except(rank)[j]));
        }
        lemma_spreads(base, ranks_except(rank), k);
    }
    assert forall|i: nat, j: nat, x: Hand| i < j < 13 implies !(#[trigger] parts(i).contains(x)
        && #[trigger] parts(j).contains(x)) by {
        if parts(i).contains(x) && parts(j).contains(x) {
            let first = parts(i);
            let second = parts(j);
            let a = choose|a: int| 0 <= a < first.len() && first[a] == x;
            let b = choose|b: int| 0 <= b < second.len() && second[b] == x;
            lemma_kind_key(n, i, a);
            lemma_kind_key(n, j, b);
            assert(Rank::at((12 - i) as nat) != Rank::at((12 - j) as nat));
        }
    }
    lemma_gather_no_duplicates(13, parts);
    let sizes = |i: nat| binomial(12, k);
    lemma_gather_len_exact(13, parts, sizes);
    lemma_sum_of_equal(13, sizes, binomial(12, k));
    assert forall|i: int| 0 <= i < kind_keys(n).len() implies category(#[trigger] kind_keys(n)[i])
        == kind_category(n) && gather(13, kind_hands_at(n)).contains(kind_keys(n)[i]) by {
        let key = kind_keys(n)[i];
        assert(kind_keys(n).contains(key));
        let at = lemma_gather_from(13, parts, key);
        let part = parts(at);
        let m = choose|m: int| 0 <= m < part.len() && part[m] == key;
        lemma_kind_key(n, at, m);
        lemma_kind_key_held(n, at, m);
    }
}

/// Each key of a kind stands among the hands of its kind.
proof fn lemma_kind_key_held(n: u64, i: nat, m: int)
    requires
        2 <= n <= 4,
        i < 13,
        0 <= m < kind_keys_at(n)(i).len(),
    ensures
        gather(13, kind_hands_at(n)).contains(kind_keys_at(n)(i)[m]),
{
    let k = (5 - n) as nat;
    let rank = Rank::at((12 - i) as nat);
    let key = kind_keys_at(n)(i)[m];
    let picked = combinations_of(ranks_except(rank), k)[m];
    let cards = cards_of(picked.to_set(), rank);
    let kickers = Hand::encode(cards);
    let kind = Hand::of_n_rank(rank, n);
    lemma_kind_key(n, i, m);
    vstd::seq_lib::seq_to_set_is_finite(picked);
    picked.unique_seq_to_set();
    lemma_cards_of(picked.to_set(), rank);
    Hand::lemma_encode_exists(cards);
    Hand::lemma_of_n_rank(rank, n);
    kind.lemma_union(kickers);
    assert forall|r: Rank| key.count(r) == kind.union(kickers).count(r) by {
        assert(kickers.count(r) == rank_count(cards, r));
    }
    assert forall|r: Rank| key.marked(r) == kind.union(kickers).marked(r) by {
        assert(!kind.marked(r) && !kickers.marked(r));
    }
    assert(kind.canonical() && kickers.canonical());
    Hand::lemma_equal(key, kind.union(kickers));
    lemma_combos_hold(cards);
    lemma_filter_map_holds(Hand::combos(k), kind_pick(rank, n), kickers);
    lemma_gather_holds(13, kind_hands_at(n), i, key);
}

/// The cards of `rank` in the first `n` suits.
pub open spec fn kind_cards(rank: Rank, n: u64) -> Set<Card> {
    Set::new(|c: Card| c.rank == rank && c.suit.index() < n)
}

/// `n` cards of a rank beside other cards that hold none of that rank are five
/// cards with the key of the `n` of a kind beside the key of the others.
proof fn lemma_kind_real(rank: Rank, n: u64, others: Set<Card>) -> (cards: Set<Card>)
    requires
        2 <= n <= 4,
        others.finite(),
        others.len() == 5 - n,
        rank_count(others, rank) == 0,
    ensures
        cards.finite(),
        cards.len() == 5,
        Hand::encode(cards) == Hand::of_n_rank(rank, n).union(Hand::encode(others)),
{
    let kind = kind_cards(rank, n);
    let cards = others + kind;
    let hearts = Card { rank, suit: Suit::Hearts };
    let diamonds = Card { rank, suit: Suit::Diamonds };
    let clubs = Card { rank, suit: Suit::Clubs };
    let spades = Card { rank, suit: Suit::Spades };
    assert forall|c: Card| c.rank == rank implies c == hearts || c == diamonds || c == clubs || c
        == spades by {
        assert(c == Card { rank: c.rank, suit: c.suit });
    }
    if n == 2 {
        assert(kind =~= set![hearts, diamonds]);
    } else if n == 3 {
        assert(kind =~= set![hearts, diamonds, clubs]);
    } else {
        assert(kind =~= set![hearts, diamonds, clubs, spades]);
    }
    assert(kind.finite() && kind.len() == n);
    lemma_rank_held(others, rank);
    assert(others.disjoint(kind)) by {
        assert forall|c: Card| !(others.contains(c) && kind.contains(c)) by {}
    }
    lemma_set_disjoint_lens(others, kind);
    assert(cards.filter(|c: Card| c.rank == rank) =~= kind);
    assert(without_rank(cards, rank) =~= others);
    lemma_kind_complete(cards, rank, n);
    cards
}

/// A hand of a kind has its key in the table when the hands of the kind are built, or
/// is one of the keys of the kind.
proof fn lemma_kind_hand_known(n: u64, hand: Hand)
    requires
        2 <= n <= 4,
        gather(13, kind_hands_at(n)).contains(hand),
    ensures
        table_after(kind_category(n)).0.contains_key(hand@) || kind_keys(n).contains(hand),
{
    let k = (5 - n) as nat;
    let c = kind_category(n);
    let i = lemma_gather_from(13, kind_hands_at(n), hand);
    let rank = Rank::at((12 - i) as nat);
    let pick = kind_pick(rank, n);
    let kind = Hand::of_n_rank(rank, n);
    let deck = Card::deck().reverse();
    Hand::combos(k).lemma_filter_map_contains(pick, hand);
    let kickers = choose|h: Hand| #[trigger] Hand::combos(k).contains(h) && pick(h) == Some(hand);
    let j = choose|j: int| 0 <= j < Hand::combos(k).len() && Hand::combos(k)[j] == kickers;
    let others = combinations_of(deck, k)[j].to_set();
    lemma_deck_reversed();
    lemma_combination_members(deck, k, j);
    vstd::seq_lib::seq_to_set_is_finite(combinations_of(deck, k)[j]);
    combinations_of(deck, k)[j].unique_seq_to_set();
    Hand::lemma_encode_exists(others);
    lemma_no_flush_of_few(others);
    assert(kickers == Hand::encode(others));
    let cards = lemma_kind_real(rank, n, others);
    lemma_scored_with_category(cards);
    lemma_category_sound(c, hand);
    Hand::lemma_of_n_rank(rank, n);
    kind.lemma_union(kickers);
    if category(hand) != c {
        lemma_table_after_grows(category(hand) + 1, c, hand@);
    } else {
        assert forall|r: Rank| #[trigger] rank_count(others, r) <= 1 by {
            others.lemma_len_filter(|c: Card| c.rank == r);
            if rank_count(others, r) >= 2 {
                assert(r != rank);
                assert(hand.count(r) == rank_count(others, r));
                assert(hand.count(rank) == n);
                if hand.count(r) == 3 {
                    assert(has_count(hand, 3) && has_count(hand, 2));
                } else if n == 3 {
                    assert(has_count(hand, 3) && has_count(hand, 2));
                } else {
                    assert(hand.count(r) == 2 && hand.count(rank) == 2);
                    assert(has_two_pairs(hand));
                }
            }
        }
        lemma_ranks_of(others);
        lemma_ranks_except(rank);
        let wanted = ranks_of(others);
        assert(wanted.subset_of(ranks_except(rank).to_set())) by {
            assert forall|r: Rank| wanted.contains(r) implies ranks_except(rank).to_set().contains(r) by {
                assert(rank_count(others, r) == 1);
            }
        }
        let m = lemma_combinations_complete(ranks_except(rank), k, wanted);
        lemma_combinations_len(ranks_except(rank), k);
        let key = kind_keys_at(n)(i)[m];
        lemma_kind_key(n, i, m);
        let picked = combinations_of(ranks_except(rank), k)[m];
        assert forall|r: Rank| hand.count(r) == key.count(r) by {
            if r != rank {
                assert(picked.contains(r) == wanted.contains(r));
                assert(kickers.count(r) == rank_count(others, r));
            }
        }
        assert forall|r: Rank| hand.marked(r) == key.marked(r) by {
            assert(!kind.marked(r) && !kickers.marked(r));
        }
        assert(kind.canonical() && kickers.canonical());
        Hand::lemma_equal(hand, key);
        assert(kind_keys_at(n)(i).contains(key));
        lemma_gather_holds(13, kind_keys_at(n), i, key);
    }
}

/// Building the hands of a kind adds thirteen keys for each choice of the other
/// ranks.
pub proof fn lemma_kind_count(n: u64)
    requires
        2 <= n <= 4,
    ensures
        table_after(kind_category(n) + 1).1 == table_after(kind_category(n)).1 + 13 * binomial(
            12,
            (5 - n) as nat,
        ),
{
    let c = kind_category(n);
    let hands = category_hands(c);
    let before = table_after(c);
    let keys = kind_keys(n);
    let fresh = keys.to_set();
    lemma_kind_keys(n);
    lemma_table_after_dense(c);
    lemma_table_after_dense(c + 1);
    keys.unique_seq_to_set();
    vstd::seq_lib::seq_to_set_is_finite(keys);
    assert(hands == gather(13, kind_hands_at(n)));
    assert forall|h: Hand| fresh.contains(h) implies hands.contains(h) && !before.0.contains_key(h@) by {
        let i = choose|i: int| 0 <= i < keys.len() && keys[i] == h;
        assert(category(keys[i]) == c);
        lemma_fresh_in_category(c, h);
    }
    assert forall|i: int| 0 <= i < hands.len() implies before.0.contains_key((#[trigger] hands[i])@)
        || fresh.contains(hands[i]) by {
        assert(hands.contains(hands[i]));
        lemma_kind_hand_known(n, hands[i]);
    }
    lemma_number_count(before.0, before.1, hands, fresh);
}

/// The ten straight flushes and the ten straights are all different hands of their
/// own category.
proof fn lemma_straights_pure(c: nat)
    requires
        c == 0 || c == 4,
    ensures
        category_hands(c).no_duplicates(),
        category_hands(c).len() == 10,
        forall|i: int| 0 <= i < 10 ==> category(#[trigger] category_hands(c)[i]) == c,
{
    let hands = category_hands(c);
    assert forall|i: int| 0 <= i < 10 implies category(#[trigger] hands[i]) == c && straight_to(
        hands[i],
        Rank::at((12 - i) as nat),
    ) by {
        let high = Rank::at((12 - i) as nat);
        if c == 0 {
            Hand::lemma_straight_flush(high);
        } else {
            Hand::lemma_straight(high);
        }
        assert(straight_to(hands[i], high));
        assert forall|r: Rank| hands[i].count(r) <= 1 by {}
    }
    assert forall|i: int, j: int| 0 <= i < 10 && 0 <= j < 10 && i != j implies hands[i] != hands[j] by {
        if hands[i] == hands[j] {
            lemma_straight_to_unique(hands[i], Rank::at((12 - i) as nat), Rank::at((12 - j) as nat));
        }
    }
}

/// What a full house of the table holds: three cards of one rank, two of another.
proof fn lemma_full_house_key(three: Rank, pair: Rank)
    requires
        three != pair,
    ensures
        ({
            let hand = Hand::of_n_rank(three, 3).with_more(pair, 2);
            &&& hand.count(three) == 3
            &&& hand.count(pair) == 2
            &&& forall|r: Rank| r != three && r != pair ==> hand.count(r) == 0
            &&& hand.suitless()
            &&& category(hand) == 2
        }),
{
    let hand = Hand::of_n_rank(three, 3).with_more(pair, 2);
    Hand::lemma_of_n_rank(three, 3);
    Hand::of_n_rank(three, 3).lemma_with_more(pair, 2);
    assert(hand.count(three) == 3 && hand.count(pair) == 2);
    assert forall|r: Rank| hand.count(r) != 4 by {}
}

/// The full houses of the table are 156 different hands of their category.
proof fn lemma_full_houses_pure()
    ensures
        category_hands(2).no_duplicates(),
        category_hands(2).len() == 156,
        forall|i: int| 0 <= i < category_hands(2).len() ==> category(#[trigger] category_hands(2)[i]) == 2,
{
    let parts = full_house_hands_at();
    lemma_ranks_down_distinct();
    assert forall|i: nat| i < 13 implies (#[trigger] parts(i)).no_duplicates() && parts(i).len() == 12 by {
        let three = Rank::at((12 - i) as nat);
        let pick = full_house_pick(three);
        assert forall|a: int, b: int|
            0 <= a < 13 && 0 <= b < 13 && a != b && pick(#[trigger] ranks_down()[a]) is Some implies pick(
            ranks_down()[a],
        ) != pick(#[trigger] ranks_down()[b]) by {
            if pick(ranks_down()[b]) is Some {
                lemma_full_house_key(three, ranks_down()[a]);
                lemma_full_house_key(three, ranks_down()[b]);
            }
        }
        lemma_filter_map_no_duplicates(ranks_down(), pick);
        lemma_filter_map_len_exact(ranks_down(), pick);
        lemma_ranks_down_holds(three);
        lemma_none_count(ranks_down(), pick, set![three]);
    }
    assert forall|i: nat, x: Hand| i < 13 && #[trigger] parts(i).contains(x) implies x.count(
        Rank::at((12 - i) as nat),
    ) == 3 && category(x) == 2 by {
        let three = Rank::at((12 - i) as nat);
        ranks_down().lemma_filter_map_contains(full_house_pick(three), x);
        let pair = choose|p: Rank| #[trigger]
            ranks_down().contains(p) && full_house_pick(three)(p) == Some(x);
        lemma_full_house_key(three, pair);
    }
    assert forall|i: nat, j: nat, x: Hand| i < j < 13 implies !(#[trigger] parts(i).contains(x)
        && #[trigger] parts(j).contains(x)) by {
        if parts(i).contains(x) && parts(j).contains(x) {
            let a = Rank::at((12 - i) as nat);
            let b = Rank::at((12 - j) as nat);
            assert(x.count(a) == 3 && x.count(b) == 3);
            ranks_down().lemma_filter_map_contains(full_house_pick(a), x);
            let pair = choose|p: Rank| #[trigger]
                ranks_down().contains(p) && full_house_pick(a)(p) == Some(x);
            lemma_full_house_key(a, pair);
        }
    }
    lemma_gather_no_duplicates(13, parts);
    let sizes = |i: nat| 12nat;
    lemma_gather_len_exact(13, parts, sizes);
    lemma_sum_of_equal(13, sizes, 12);
    assert forall|i: int| 0 <= i < category_hands(2).len() implies category(
        #[trigger] category_hands(2)[i],
    ) == 2 by {
        let hand = category_hands(2)[i];
        assert(category_hands(2).contains(hand));
        let at = lemma_gather_from(13, parts, hand);
        assert(parts(at).contains(hand));
    }
}

/// What a two pair of the table holds: two cards of two ranks each, one of a third.
proof fn lemma_two_pair_key(high: Rank, low: Rank, kicker: Rank)
    requires
        high != low,
        kicker != high,
        kicker != low,
    ensures
        ({
            let hand = Hand::of_n_rank(high, 2).with_more(low, 2).with_more(kicker, 1);
            &&& hand.count(high) == 2
            &&& hand.count(low) == 2
            &&& hand.count(kicker) == 1
            &&& forall|r: Rank| r != high && r != low && r != kicker ==> hand.count(r) == 0
            &&& hand.suitless()
            &&& category(hand) == 6
        }),
{
    let base = Hand::of_n_rank(high, 2).with_more(low, 2);
    let hand = base.with_more(kicker, 1);
    Hand::lemma_of_n_rank(high, 2);
    Hand::of_n_rank(high, 2).lemma_with_more(low, 2);
    base.lemma_with_more(kicker, 1);
    assert(hand.count(high) == 2 && hand.count(low) == 2 && hand.count(kicker) == 1);
    assert forall|r: Rank| hand.count(r) != 4 && hand.count(r) != 3 by {}
    assert(!is_straight(hand)) by {
        assert forall|top: Rank| !straight_to(hand, top) by {
            assert(hand.count(high) > 1);
        }
    }
    assert(has_two_pairs(hand));
}

/// The two pairs of one higher and one lower pair are eleven different hands.
proof fn lemma_two_pair_kickers_pure(high: Rank, low: Rank)
    requires
        high != low,
    ensures
        ({
            let hands = ranks_down().filter_map(kicker_pick(Hand::of_n_rank(high, 2).with_more(low, 2)));
            &&& hands.no_duplicates()
            &&& hands.len() == 11
            &&& forall|i: int|
                0 <= i < hands.len() ==> category(#[trigger] hands[i]) == 6 && hands[i].count(high) == 2
                    && hands[i].count(low) == 2 && forall|r: Rank|
                    r != high && r != low ==> hands[i].count(r) <= 1
        }),
{
    let base = Hand::of_n_rank(high, 2).with_more(low, 2);
    let pick = kicker_pick(base);
    let hands = ranks_down().filter_map(pick);
    lemma_ranks_down_distinct();
    Hand::lemma_of_n_rank(high, 2);
    Hand::of_n_rank(high, 2).lemma_with_more(low, 2);
    assert forall|a: int, b: int|
        0 <= a < 13 && 0 <= b < 13 && a != b && pick(#[trigger] ranks_down()[a]) is Some implies pick(
        ranks_down()[a],
    ) != pick(#[trigger] ranks_down()[b]) by {
        if pick(ranks_down()[b]) is Some {
            lemma_two_pair_key(high, low, ranks_down()[a]);
            lemma_two_pair_key(high, low, ranks_down()[b]);
        }
    }
    lemma_filter_map_no_duplicates(ranks_down(), pick);
    lemma_filter_map_len_exact(ranks_down(), pick);
    lemma_ranks_down_holds(high);
    lemma_ranks_down_holds(low);
    assert forall|i: int| 0 <= i < 13 implies (pick(#[trigger] ranks_down()[i]) is None <==> set![
        high,
        low,
    ].contains(ranks_down()[i])) by {
        let r = ranks_down()[i];
        assert(base.count(r) > 0 <==> r == high || r == low);
    }
    lemma_none_count(ranks_down(), pick, set![high, low]);
    assert forall|i: int| 0 <= i < hands.len() implies category(#[trigger] hands[i]) == 6 && hands[i].count(
        high,
    ) == 2 && hands[i].count(low) == 2 && forall|r: Rank|
        r != high && r != low ==> hands[i].count(r) <= 1 by {
        assert(hands.contains(hands[i]));
        ranks_down().lemma_filter_map_contains(pick, hands[i]);
        let kicker = choose|k: Rank| #[trigger] ranks_down().contains(k) && pick(k) == Some(hands[i]);
        lemma_two_pair_key(high, low, kicker);
    }
}

/// The sizes of the parts of the two pairs: eleven kickers for each lower pair.
pub open spec fn two_pair_sizes() -> spec_fn(nat) -> nat {
    |a: nat| ((12 - a) * 11) as nat
}

proof fn lemma_two_pair_sum(n: nat)
    requires
        n <= 12,
    ensures
        2 * sum_to(n, two_pair_sizes()) == 11 * n * (25 - n),
    decreases n,
{
    if n > 0 {
        lemma_two_pair_sum((n - 1) as nat);
        let before = sum_to((n - 1) as nat, two_pair_sizes());
        assert(two_pair_sizes()((n - 1) as nat) == (13 - n) * 11);
        assert(2 * (before + (13 - n) * 11) == 11 * n * (25 - n)) by (nonlinear_arith)
            requires
                2 * before == 11 * (n - 1) * (26 - n),
        ;
    } else {
        assert(11 * 0 * (25 - 0) == 0) by (nonlinear_arith);
    }
}

/// The two pairs of the table are 858 different hands of their category.
proof fn lemma_two_pairs_pure()
    ensures
        category_hands(6).no_duplicates(),
        category_hands(6).len() == 858,
        forall|i: int| 0 <= i < category_hands(6).len() ==> category(#[trigger] category_hands(6)[i]) == 6,
{
    let parts = two_pair_hands_at();
    assert forall|a: nat, x: Hand| a < 12 && #[trigger] parts(a).contains(x) implies category(x) == 6
        && x.count(Rank::at((12 - a) as nat)) == 2 && (forall|r: Rank|
        r.index() > 12 - a ==> x.count(r) <= 1) by {
        let high = (12 - a) as nat;
        let b = lemma_gather_from(high, low_pair_hands_at(high), x);
        let low = Rank::at((high - 1 - b) as nat);
        lemma_two_pair_kickers_pure(Rank::at(high), low);
        let hands = low_pair_hands_at(high)(b);
        let i = choose|i: int| 0 <= i < hands.len() && hands[i] == x;
        assert(category(hands[i]) == 6);
    }
    assert forall|a: nat| a < 12 implies (#[trigger] parts(a)).no_duplicates() && parts(a).len()
        == two_pair_sizes()(a) by {
        let high = (12 - a) as nat;
        let lows = low_pair_hands_at(high);
        assert forall|b: nat| b < high implies (#[trigger] lows(b)).no_duplicates() && lows(b).len()
            == 11 by {
            lemma_two_pair_kickers_pure(Rank::at(high), Rank::at((high - 1 - b) as nat));
        }
        assert forall|b: nat, d: nat, x: Hand| b < d < high implies !(#[trigger] lows(b).contains(x)
            && #[trigger] lows(d).contains(x)) by {
            if lows(b).contains(x) && lows(d).contains(x) {
                let first = lows(b);
                let second = lows(d);
                lemma_two_pair_kickers_pure(Rank::at(high), Rank::at((high - 1 - b) as nat));
                lemma_two_pair_kickers_pure(Rank::at(high), Rank::at((high - 1 - d) as nat));
                let i = choose|i: int| 0 <= i < first.len() && first[i] == x;
                let j = choose|j: int| 0 <= j < second.len() && second[j] == x;
                assert(first[i].count(Rank::at((high - 1 - b) as nat)) == 2);
                assert(second[j].count(Rank::at((high - 1 - d) as nat)) == 2);
            }
        }
        lemma_gather_no_duplicates(high, lows);
        let sizes = |b: nat| 11nat;
        lemma_gather_len_exact(high, lows, sizes);
        lemma_sum_of_equal(high, sizes, 11);
    }
    assert forall|a: nat, d: nat, x: Hand| a < d < 12 implies !(#[trigger] parts(a).contains(x)
        && #[trigger] parts(d).contains(x)) by {
        if parts(a).contains(x) && parts(d).contains(x) {
            assert(x.count(Rank::at((12 - a) as nat)) == 2);
            assert(Rank::at((12 - a) as nat).index() > 12 - d);
        }
    }
    lemma_gather_no_duplicates(12, parts);
    lemma_gather_len_exact(12, parts, two_pair_sizes());
    lemma_two_pair_sum(12);
    assert forall|i: int| 0 <= i < category_hands(6).len() implies category(
        #[trigger] category_hands(6)[i],
    ) == 6 by {
        let hand = category_hands(6)[i];
        assert(category_hands(6).contains(hand));
        let at = lemma_gather_from(12, parts, hand);
        assert(parts(at).contains(hand));
    }
}

/// The five ranks of the straight up to `high`.
pub open spec fn straight_ranks(high: Rank) -> Set<Rank> {
    Set::new(|r: Rank| in_straight(r, high))
}

proof fn lemma_straight_ranks(high: Rank)
    requires
        high.index() >= 3,
    ensures
        straight_ranks(high).finite(),
        straight_ranks(high).len() == 5,
{
    let h = high.index();
    let a = Rank::at(h);
    let b = Rank::at((h - 1) as nat);
    let c = Rank::at((h - 2) as nat);
    let d = Rank::at((h - 3) as nat);
    let e = if h == 3 { Rank::Ace } else { Rank::at((h - 4) as nat) };
    assert(a.index() == h && b.index() == h - 1 && c.index() == h - 2 && d.index() == h - 3);
    assert forall|r: Rank| straight_ranks(high).contains(r) <==> set![a, b, c, d, e].contains(r) by {
        assert(Rank::at(r.index()) == r);
    }
    assert(straight_ranks(high) =~= set![a, b, c, d, e]);
}

/// The flushes of the table are 1287 different hands, the ten straight flushes
/// among them, and the others are of the category of the flushes.
proof fn lemma_flushes_known()
    ensures
        Hand::flushes().no_duplicates(),
        Hand::flushes().len() == 1287,
        forall|i: int|
            0 <= i < 10 ==> Hand::flushes().contains(#[trigger] straight_flush_hands()[i]),
        forall|i: int|
            0 <= i < Hand::flushes().len() ==> straight_flush_hands().contains(
                #[trigger] Hand::flushes()[i],
            ) || category(Hand::flushes()[i]) == 3,
{
    let singles = Hand::flush_singles();
    let hands = Hand::flushes();
    lemma_flush_singles();
    lemma_combinations_len(singles, 5);
    lemma_binomial_small(13);
    assert forall|i: int| 0 <= i < hands.len() implies (forall|r: Rank|
        (#[trigger] hands[i]).count(r) == (if combinations_of(singles, 5)[i].contains(
            Hand::flush_single(r),
        ) {
            1nat
        } else {
            0nat
        }) && hands[i].marked(r) == (hands[i].count(r) == 1)) && hands[i].flush()
        && hands[i].canonical() by {
        lemma_combination_members(singles, 5, i);
        lemma_union_all_singles(combinations_of(singles, 5)[i]);
    }
    assert forall|i: int, j: int| 0 <= i < hands.len() && 0 <= j < hands.len() && i != j implies hands[i]
        != hands[j] by {
        let a = combinations_of(singles, 5)[i];
        let b = combinations_of(singles, 5)[j];
        if i < j {
            lemma_combinations_distinct(singles, 5, i, j);
        } else {
            lemma_combinations_distinct(singles, 5, j, i);
        }
        lemma_combination_members(singles, 5, i);
        lemma_combination_members(singles, 5, j);
        if hands[i] == hands[j] {
            assert(a.to_set() =~= b.to_set()) by {
                assert forall|h: Hand| a.to_set().contains(h) <==> b.to_set().contains(h) by {
                    if a.contains(h) {
                        let m = choose|m: int| 0 <= m < a.len() && a[m] == h;
                        assert(singles.contains(a[m]));
                        let r = choose|r: Rank| h == #[trigger] Hand::flush_single(r);
                        assert(hands[i].count(r) == hands[j].count(r));
                    }
                    if b.contains(h) {
                        let m = choose|m: int| 0 <= m < b.len() && b[m] == h;
                        assert(singles.contains(b[m]));
                        let r = choose|r: Rank| h == #[trigger] Hand::flush_single(r);
                        assert(hands[i].count(r) == hands[j].count(r));
                    }
                }
            }
        }
    }
    assert forall|i: int| 0 <= i < 10 implies hands.contains(#[trigger] straight_flush_hands()[i]) by {
        let high = Rank::at((12 - i) as nat);
        let single = |r: Rank| Hand::flush_single(r);
        let wanted = straight_ranks(high).map(single);
        lemma_straight_ranks(high);
        assert(vstd::relations::injective_on(single, straight_ranks(high))) by {
            assert forall|x: Rank, y: Rank| #[trigger] single(x) == #[trigger] single(y) implies x
                == y by {
                lemma_flush_single_injective(x, y);
            }
        }
        lemma_map_size(straight_ranks(high), wanted, single);
        assert(wanted.subset_of(singles.to_set())) by {
            assert forall|h: Hand| wanted.contains(h) implies singles.to_set().contains(h) by {
                let r = choose|r: Rank| straight_ranks(high).contains(r) && h == single(r);
                assert(singles.contains(Hand::flush_single(r)));
            }
        }
        let j = lemma_combinations_complete(singles, 5, wanted);
        let combo = combinations_of(singles, 5)[j];
        Hand::lemma_straight_flush(high);
        assert forall|r: Rank| combo.contains(Hand::flush_single(r)) == in_straight(r, high) by {
            assert(combo.contains(Hand::flush_single(r)) == wanted.contains(Hand::flush_single(r)));
            if wanted.contains(Hand::flush_single(r)) {
                let q = choose|q: Rank|
                    straight_ranks(high).contains(q) && Hand::flush_single(r) == single(q);
                lemma_flush_single_injective(r, q);
            }
            if in_straight(r, high) {
                assert(straight_ranks(high).contains(r));
                assert(wanted.contains(single(r)));
            }
        }
        assert forall|r: Rank| hands[j].count(r) == straight_flush_hands()[i].count(r) && hands[j].marked(
            r,
        ) == straight_flush_hands()[i].marked(r) by {}
        Hand::lemma_equal(hands[j], straight_flush_hands()[i]);
    }
    assert forall|i: int| 0 <= i < hands.len() implies straight_flush_hands().contains(
        #[trigger] hands[i],
    ) || category(hands[i]) == 3 by {
        let hand = hands[i];
        assert forall|r: Rank| hand.count(r) <= 1 by {}
        if is_straight(hand) {
            let high = choose|high: Rank| straight_to(hand, high);
            Hand::lemma_straight_flush(high);
            assert forall|r: Rank| hand.marked(r) == Hand::straight_flush(high).marked(r) by {
                assert(hand.marked(r) == (hand.count(r) == 1));
            }
            Hand::lemma_equal(hand, Hand::straight_flush(high));
            lemma_ranks_down_holds(high);
            assert(straight_flush_hands()[12 - high.index()] == hand);
        } else {
            assert forall|r: Rank| hand.count(r) != 4 && hand.count(r) != 3 by {}
        }
    }
}

/// Building the flushes adds 1277 keys.
pub proof fn lemma_flush_count()
    ensures
        table_after(4).1 == table_after(3).1 + 1277,
{
    let hands = Hand::flushes();
    let straight = straight_flush_hands();
    let before = table_after(3);
    let fresh = hands.to_set().difference(straight.to_set());
    lemma_flushes_known();
    lemma_straights_pure(0);
    lemma_table_after_dense(0);
    lemma_table_after_dense(1);
    lemma_table_after_dense(3);
    lemma_table_after_dense(4);
    hands.unique_seq_to_set();
    straight.unique_seq_to_set();
    vstd::seq_lib::seq_to_set_is_finite(hands);
    vstd::seq_lib::seq_to_set_is_finite(straight);
    assert(hands.to_set().intersect(straight.to_set()) =~= straight.to_set()) by {
        assert forall|h: Hand| straight.to_set().contains(h) implies hands.to_set().contains(h) by {
            let i = choose|i: int| 0 <= i < straight.len() && straight[i] == h;
            assert(hands.contains(straight[i]));
        }
    }
    vstd::set_lib::lemma_set_difference_len(hands.to_set(), straight.to_set());
    lemma_number_dense(table_after(0).0, table_after(0).1, straight);
    assert(category_hands(3) == hands);
    assert forall|h: Hand| fresh.contains(h) implies hands.contains(h) && !before.0.contains_key(h@) by {
        let i = choose|i: int| 0 <= i < hands.len() && hands[i] == h;
        assert(!straight.contains(hands[i]));
        lemma_fresh_in_category(3, h);
    }
    assert forall|i: int| 0 <= i < hands.len() implies before.0.contains_key((#[trigger] hands[i])@)
        || fresh.contains(hands[i]) by {
        if straight.contains(hands[i]) {
            let j = choose|j: int| 0 <= j < straight.len() && straight[j] == hands[i];
            assert(table_after(1).0.contains_key(straight[j]@));
            lemma_table_after_grows(1, 3, hands[i]@);
        } else {
            assert(hands.to_set().contains(hands[i]));
        }
    }
    lemma_number_count(before.0, before.1, hands, fresh);
}

/// The keys of five single cards of different ranks, without a flush.
pub open spec fn plain_keys() -> Seq<Hand> {
    spreads(Hand::blank(), ranks_down(), 5)
}

/// What one of the plain keys holds, and that it is the key of five cards.
proof fn lemma_plain_key(m: int)
    requires
        0 <= m < plain_keys().len(),
    ensures
        ({
            let key = plain_keys()[m];
            let picked = combinations_of(ranks_down(), 5)[m];
            &&& forall|r: Rank| key.count(r) == (if picked.contains(r) { 1nat } else { 0nat })
            &&& key.suitless()
            &&& picked.no_duplicates()
            &&& picked.len() == 5
            &&& Hand::combos(5).contains(key)
            &&& category(key) == 4 || category(key) == 8
        }),
{
    let key = plain_keys()[m];
    let picked = combinations_of(ranks_down(), 5)[m];
    let cards = cards_of(picked.to_set(), picked[0]);
    lemma_ranks_down_distinct();
    Hand::lemma_blank();
    lemma_spread_of_combination(Hand::blank(), ranks_down(), 5, m);
    lemma_combination_members(ranks_down(), 5, m);
    vstd::seq_lib::seq_to_set_is_finite(picked);
    picked.unique_seq_to_set();
    assert(picked.to_set().contains(picked[0]));
    lemma_cards_of(picked.to_set(), picked[0]);
    Hand::lemma_encode_exists(cards);
    assert forall|r: Rank| key.count(r) == Hand::encode(cards).count(r) by {
        assert(Hand::encode(cards).count(r) == rank_count(cards, r));
    }
    assert forall|r: Rank| key.marked(r) == Hand::encode(cards).marked(r) by {}
    Hand::lemma_equal(key, Hand::encode(cards));
    lemma_combos_hold(cards);
    assert forall|r: Rank| key.count(r) != 4 && key.count(r) != 3 && key.count(r) != 2 by {}
    assert(!has_two_pairs(key)) by {
        assert forall|a: Rank, b: Rank| a != b implies !(key.count(a) == 2 && key.count(b) == 2) by {}
    }
}

/// Building the last category adds 1277 keys: one for each choice of five ranks that
/// is no straight.
pub proof fn lemma_high_card_count()
    ensures
        table_after(9).1 == table_after(8).1 + 1277,
{
    let hands = Hand::combos(5);
    let keys = plain_keys();
    let straight = straight_hands();
    let before = table_after(8);
    let fresh = keys.to_set().difference(straight.to_set());
    let deck = Card::deck().reverse();
    lemma_ranks_down_distinct();
    Hand::lemma_blank();
    lemma_spreads(Hand::blank(), ranks_down(), 5);
    lemma_binomial_small(13);
    lemma_straights_pure(4);
    lemma_table_after_dense(8);
    lemma_table_after_dense(9);
    keys.unique_seq_to_set();
    straight.unique_seq_to_set();
    vstd::seq_lib::seq_to_set_is_finite(keys);
    vstd::seq_lib::seq_to_set_is_finite(straight);
    assert(keys.to_set().intersect(straight.to_set()) =~= straight.to_set()) by {
        assert forall|h: Hand| straight.to_set().contains(h) implies keys.to_set().contains(h) by {
            let i = choose|i: int| 0 <= i < straight.len() && straight[i] == h;
            let high = Rank::at((12 - i) as nat);
            lemma_straight_ranks(high);
            assert(straight_ranks(high).subset_of(ranks_down().to_set())) by {
                assert forall|r: Rank| ranks_down().to_set().contains(r) by {
                    lemma_ranks_down_holds(r);
                }
            }
            let m = lemma_combinations_complete(ranks_down(), 5, straight_ranks(high));
            lemma_plain_key(m);
            Hand::lemma_straight(high);
            assert forall|r: Rank| keys[m].count(r) == h.count(r) by {
                assert(combinations_of(ranks_down(), 5)[m].contains(r) == straight_ranks(high).contains(
                    r,
                ));
            }
            assert forall|r: Rank| keys[m].marked(r) == h.marked(r) by {}
            Hand::lemma_equal(keys[m], h);
        }
    }
    vstd::set_lib::lemma_set_difference_len(keys.to_set(), straight.to_set());
    assert(category_hands(8) == hands);
    assert forall|h: Hand| fresh.contains(h) implies hands.contains(h) && !before.0.contains_key(h@) by {
        let m = choose|m: int| 0 <= m < keys.len() && keys[m] == h;
        lemma_plain_key(m);
        if category(h) == 4 {
            assert(is_straight(h));
            let high = choose|high: Rank| straight_to(h, high);
            Hand::lemma_straight(high);
            assert forall|r: Rank| h.marked(r) == Hand::straight(high).marked(r) by {}
            Hand::lemma_equal(h, Hand::straight(high));
            lemma_ranks_down_holds(high);
            assert(straight[12 - high.index()] == h);
        }
        lemma_fresh_in_category(8, h);
    }
    lemma_deck_reversed();
    assert forall|i: int| 0 <= i < hands.len() implies before.0.contains_key((#[trigger] hands[i])@)
        || fresh.contains(hands[i]) by {
        let hand = hands[i];
        let cards = combinations_of(deck, 5)[i].to_set();
        lemma_combination_members(deck, 5, i);
        vstd::seq_lib::seq_to_set_is_finite(combinations_of(deck, 5)[i]);
        combinations_of(deck, 5)[i].unique_seq_to_set();
        Hand::lemma_encode_exists(cards);
        lemma_scored_with_category(cards);
        if category(hand) < 8 {
            lemma_table_after_grows(category(hand) + 1, 8, hand@);
        } else {
            assert forall|r: Rank| #[trigger] rank_count(cards, r) <= 1 by {
                crate::census::lemma_rank_count_bound(cards, r);
                assert(hand.count(r) != 4 && hand.count(r) != 3 && hand.count(r) != 2);
            }
            lemma_ranks_of(cards);
            assert(ranks_of(cards).subset_of(ranks_down().to_set())) by {
                assert forall|r: Rank| ranks_down().to_set().contains(r) by {
                    lemma_ranks_down_holds(r);
                }
            }
            let m = lemma_combinations_complete(ranks_down(), 5, ranks_of(cards));
            lemma_combinations_len(ranks_down(), 5);
            lemma_plain_key(m);
            assert forall|r: Rank| keys[m].count(r) == hand.count(r) by {
                assert(combinations_of(ranks_down(), 5)[m].contains(r) == ranks_of(cards).contains(r));
            }
            assert forall|r: Rank| keys[m].marked(r) == hand.marked(r) by {}
            Hand::lemma_equal(keys[m], hand);
            assert(keys.to_set().contains(keys[m]));
            if straight.contains(hand) {
                let j = choose|j: int| 0 <= j < straight.len() && straight[j] == hand;
                assert(category(straight[j]) == 4);
            }
        }
    }
    lemma_number_count(before.0, before.1, hands, fresh);
}

/// The score table numbers 10 straight flushes, 156 hands with four of a kind, 156
/// full houses, 1277 flushes, 10 straights, 858 hands with three of a kind, 858 with
/// two pairs, 2860 with a pair and 1277 others: 7462 keys in all.
pub proof fn lemma_category_counts()
    ensures
        table_after(0).1 == 0,
        table_after(1).1 == 10,
        table_after(2).1 == 166,
        table_after(3).1 == 322,
        table_after(4).1 == 1599,
        table_after(5).1 == 1609,
        table_after(6).1 == 2467,
        table_after(7).1 == 3325,
        table_after(8).1 == 6185,
        table_after(9).1 == 7462,
{
    lemma_binomial_small(12);
    lemma_straights_pure(0);
    lemma_pure_category_count(0);
    lemma_kind_count(4);
    lemma_full_houses_pure();
    lemma_pure_category_count(2);
    lemma_flush_count();
    lemma_straights_pure(4);
    lemma_pure_category_count(4);
    lemma_kind_count(3);
    lemma_two_pairs_pure();
    lemma_pure_category_count(6);
    lemma_kind_count(2);
    lemma_high_card_count();
}

/// The straights have the scores from 1599 to 1608, the highest of them the lowest
/// score and the one that ends in `Five`, where the `Ace` is counted low, the highest.
pub proof fn lemma_straight_scores(high: Rank)
    requires
        high.index() >= 3,
    ensures
        crate::table::score_table().0.contains_key(Hand::straight(high)@),
        crate::table::score_table().0[Hand::straight(high)@] == 1599 + (12 - high.index()),
{
    let hands = straight_hands();
    let before = table_after(4);
    lemma_category_counts();
    lemma_straights_pure(4);
    assert forall|i: int| 0 <= i < hands.len() implies !before.0.contains_key(#[trigger] hands[i]@) by {
        lemma_fresh_in_category(4, hands[i]);
    }
    crate::table::lemma_number_fresh(before.0, before.1, hands);
    lemma_ranks_down_holds(high);
    assert(hands[12 - high.index()] == Hand::straight(high));
    assert(table_after(5) == number_hands(before.0, before.1, category_hands(4)));
    lemma_table_after_grows(5, 9, Hand::straight(high)@);
}

} // verus!
