//! Counting the cards of a set by rank and by suit.

use crate::card::{Card, Rank, Suit};
use vstd::prelude::*;
use vstd::set_lib::lemma_len_subset;
use vstd::set_lib::lemma_set_subset_finite;
use vstd::set_lib::lemma_subset_equality;

verus! {

/// How many cards of `rank` the set holds.
pub open spec fn rank_count(cards: Set<Card>, rank: Rank) -> nat {
    cards.filter(|c: Card| c.rank == rank).len()
}

/// How many cards of `suit` the set holds.
pub open spec fn suit_count(cards: Set<Card>, suit: Suit) -> nat {
    cards.filter(|c: Card| c.suit == suit).len()
}

/// The first suit, in the order of the suits' indices, of which the set holds five
/// cards or more.
pub open spec fn flush_suit(cards: Set<Card>) -> Option<Suit> {
    if suit_count(cards, Suit::Hearts) >= 5 {
        Some(Suit::Hearts)
    } else if suit_count(cards, Suit::Diamonds) >= 5 {
        Some(Suit::Diamonds)
    } else if suit_count(cards, Suit::Clubs) >= 5 {
        Some(Suit::Clubs)
    } else if suit_count(cards, Suit::Spades) >= 5 {
        Some(Suit::Spades)
    } else {
        None
    }
}

/// No set holds a card of any rank or suit when it is empty.
pub proof fn lemma_counts_of_empty(rank: Rank, suit: Suit)
    ensures
        rank_count(Set::<Card>::empty(), rank) == 0,
        suit_count(Set::<Card>::empty(), suit) == 0,
{
    assert(Set::<Card>::empty().filter(|c: Card| c.rank == rank) =~= Set::<Card>::empty());
    assert(Set::<Card>::empty().filter(|c: Card| c.suit == suit) =~= Set::<Card>::empty());
}

/// A new card raises the count of its own rank and of its own suit by one and leaves
/// the other counts alone.
pub proof fn lemma_counts_of_insert(cards: Set<Card>, card: Card, rank: Rank, suit: Suit)
    requires
        cards.finite(),
        !cards.contains(card),
    ensures
        rank_count(cards.insert(card), rank) == rank_count(cards, rank) + (if card.rank == rank {
            1nat
        } else {
            0nat
        }),
        suit_count(cards.insert(card), suit) == suit_count(cards, suit) + (if card.suit == suit {
            1nat
        } else {
            0nat
        }),
{
    let by_rank = |c: Card| c.rank == rank;
    let by_suit = |c: Card| c.suit == suit;
    lemma_set_subset_finite(cards, cards.filter(by_rank));
    lemma_set_subset_finite(cards, cards.filter(by_suit));
    if card.rank == rank {
        assert(cards.insert(card).filter(by_rank) =~= cards.filter(by_rank).insert(card));
    } else {
        assert(cards.insert(card).filter(by_rank) =~= cards.filter(by_rank));
    }
    if card.suit == suit {
        assert(cards.insert(card).filter(by_suit) =~= cards.filter(by_suit).insert(card));
    } else {
        assert(cards.insert(card).filter(by_suit) =~= cards.filter(by_suit));
    }
}

/// A set holds at most four cards of one rank: one of each suit.
pub proof fn lemma_rank_count_bound(cards: Set<Card>, rank: Rank)
    requires
        cards.finite(),
    ensures
        rank_count(cards, rank) <= 4,
{
    let all = set![
        Card { rank, suit: Suit::Hearts },
        Card { rank, suit: Suit::Diamonds },
        Card { rank, suit: Suit::Clubs },
        Card { rank, suit: Suit::Spades },
    ];
    let held = cards.filter(|c: Card| c.rank == rank);
    assert(all.len() <= 4);
    assert forall|c: Card| held.contains(c) implies all.contains(c) by {
        assert(c == Card { rank: c.rank, suit: c.suit });
    }
    lemma_len_subset(held, all);
}

/// The cards of a sequence without repeats, taken one more at a time: the next card
/// is new to the set of those before it.
pub proof fn lemma_take_next<A>(s: Seq<A>, i: int)
    requires
        s.no_duplicates(),
        0 <= i < s.len(),
    ensures
        s.take(i + 1).to_set() == s.take(i).to_set().insert(s[i]),
        !s.take(i).to_set().contains(s[i]),
        s.take(i).to_set().finite(),
{
    assert(s.take(i + 1) =~= s.take(i).push(s[i]));
    s.take(i).lemma_push_to_set_commute(s[i]);
    vstd::seq_lib::seq_to_set_is_finite(s.take(i));
}

/// The cards of the set that are not of `rank`.
pub open spec fn without_rank(cards: Set<Card>, rank: Rank) -> Set<Card> {
    cards.filter(|c: Card| c.rank != rank)
}

/// A finite set is as large as the part of it that passes a test and the part that
/// fails it together.
pub proof fn lemma_filter_split<A>(s: Set<A>, pass: spec_fn(A) -> bool)
    requires
        s.finite(),
    ensures
        s.filter(pass).finite(),
        s.filter(|a: A| !pass(a)).finite(),
        s.filter(pass).len() + s.filter(|a: A| !pass(a)).len() == s.len(),
    decreases s.len(),
{
    let fail = |a: A| !pass(a);
    lemma_set_subset_finite(s, s.filter(pass));
    lemma_set_subset_finite(s, s.filter(fail));
    if s.is_empty() {
        assert(s.filter(pass) =~= Set::<A>::empty());
        assert(s.filter(fail) =~= Set::<A>::empty());
    } else {
        let a = s.choose();
        let rest = s.remove(a);
        lemma_filter_split(rest, pass);
        assert(rest.filter(|a: A| !pass(a)) == rest.filter(fail));
        if pass(a) {
            assert(s.filter(pass) =~= rest.filter(pass).insert(a));
            assert(s.filter(fail) =~= rest.filter(fail));
        } else {
            assert(s.filter(pass) =~= rest.filter(pass));
            assert(s.filter(fail) =~= rest.filter(fail).insert(a));
        }
    }
}

/// No more cards of a set are of one suit than the set holds.
pub proof fn lemma_suit_count_bound(cards: Set<Card>, suit: Suit)
    requires
        cards.finite(),
    ensures
        suit_count(cards, suit) <= cards.len(),
{
    cards.lemma_len_filter(|c: Card| c.suit == suit);
}

/// Without the cards of one rank a set holds none of that rank, as many of every
/// other rank as before, and as many fewer cards as it held of that rank.
pub proof fn lemma_without_rank(cards: Set<Card>, rank: Rank)
    requires
        cards.finite(),
    ensures
        without_rank(cards, rank).finite(),
        without_rank(cards, rank).subset_of(cards),
        without_rank(cards, rank).len() + rank_count(cards, rank) == cards.len(),
        rank_count(without_rank(cards, rank), rank) == 0,
        forall|r: Rank|
            r != rank ==> #[trigger] rank_count(without_rank(cards, rank), r) == rank_count(cards, r),
{
    let of_rank = |c: Card| c.rank == rank;
    lemma_filter_split(cards, of_rank);
    assert(cards.filter(|c: Card| !of_rank(c)) =~= without_rank(cards, rank));
    assert(without_rank(cards, rank).filter(|c: Card| c.rank == rank) =~= Set::<Card>::empty());
    assert forall|r: Rank| r != rank implies #[trigger] rank_count(without_rank(cards, rank), r)
        == rank_count(cards, r) by {
        assert(without_rank(cards, rank).filter(|c: Card| c.rank == r) =~= cards.filter(
            |c: Card| c.rank == r,
        ));
    }
}

/// A set holds a card of a rank exactly when its count of that rank is not zero.
pub proof fn lemma_rank_held(cards: Set<Card>, rank: Rank)
    requires
        cards.finite(),
    ensures
        rank_count(cards, rank) > 0 <==> exists|c: Card| #[trigger] cards.contains(c) && c.rank == rank,
{
    let held = cards.filter(|c: Card| c.rank == rank);
    lemma_set_subset_finite(cards, held);
    if held.len() > 0 {
        let c = held.choose();
        assert(held.contains(c)) by {
            if held.is_empty() {
                assert(held =~= Set::<Card>::empty());
            }
        }
        assert(cards.contains(c) && c.rank == rank);
    }
    if exists|c: Card| #[trigger] cards.contains(c) && c.rank == rank {
        let c = choose|c: Card| #[trigger] cards.contains(c) && c.rank == rank;
        assert(held.contains(c));
        if held.len() == 0 {
            held.lemma_len0_is_empty();
        }
    }
}

/// Five cards with a flush are all of the flush suit and of five ranks: the set
/// holds the card of a rank in that suit exactly when it counts the rank once.
pub proof fn lemma_flush_of_five(cards: Set<Card>, suit: Suit)
    requires
        cards.finite(),
        cards.len() == 5,
        flush_suit(cards) == Some(suit),
    ensures
        forall|c: Card| cards.contains(c) ==> c.suit == suit,
        forall|r: Rank| #[trigger] rank_count(cards, r) <= 1,
        forall|r: Rank|
            cards.contains(Card { rank: r, suit }) <==> #[trigger] rank_count(cards, r) == 1,
{
    let suited = cards.filter(|c: Card| c.suit == suit);
    lemma_suit_count_bound(cards, suit);
    lemma_set_subset_finite(cards, suited);
    lemma_subset_equality(suited, cards);
    assert forall|c: Card| cards.contains(c) implies c.suit == suit by {
        assert(suited.contains(c));
    }
    assert forall|r: Rank|
        #[trigger] rank_count(cards, r) <= 1 && (cards.contains(Card { rank: r, suit })
            <==> rank_count(cards, r) == 1) by {
        let held = cards.filter(|c: Card| c.rank == r);
        let one = set![Card { rank: r, suit }];
        lemma_set_subset_finite(cards, held);
        assert forall|c: Card| held.contains(c) implies one.contains(c) by {
            assert(c == Card { rank: c.rank, suit: c.suit });
        }
        vstd::set_lib::lemma_len_subset(held, one);
        lemma_rank_held(cards, r);
        if cards.contains(Card { rank: r, suit }) {
            assert(held.contains(Card { rank: r, suit }));
        }
        if rank_count(cards, r) == 1 {
            let c = choose|c: Card| #[trigger] cards.contains(c) && c.rank == r;
            assert(c == Card { rank: r, suit });
        }
    }
}

/// Fewer than five cards have no flush.
pub proof fn lemma_no_flush_of_few(cards: Set<Card>)
    requires
        cards.finite(),
        cards.len() < 5,
    ensures
        flush_suit(cards) is None,
{
    lemma_suit_count_bound(cards, Suit::Hearts);
    lemma_suit_count_bound(cards, Suit::Diamonds);
    lemma_suit_count_bound(cards, Suit::Clubs);
    lemma_suit_count_bound(cards, Suit::Spades);
}

/// The cards of the set whose rank has an index below `ranks`.
pub open spec fn of_low_ranks(cards: Set<Card>, ranks: nat) -> Set<Card> {
    cards.filter(|c: Card| c.rank.index() < ranks)
}

proof fn lemma_same_counts_below(a: Set<Card>, b: Set<Card>, ranks: nat)
    requires
        a.finite(),
        b.finite(),
        ranks <= 13,
        forall|r: Rank| rank_count(a, r) == rank_count(b, r),
    ensures
        of_low_ranks(a, ranks).finite(),
        of_low_ranks(b, ranks).finite(),
        of_low_ranks(a, ranks).len() == of_low_ranks(b, ranks).len(),
    decreases ranks,
{
    lemma_set_subset_finite(a, of_low_ranks(a, ranks));
    lemma_set_subset_finite(b, of_low_ranks(b, ranks));
    if ranks == 0 {
        assert(of_low_ranks(a, ranks) =~= Set::<Card>::empty());
        assert(of_low_ranks(b, ranks) =~= Set::<Card>::empty());
    } else {
        let rank = Rank::at((ranks - 1) as nat);
        let below = |c: Card| c.rank.index() < ranks - 1;
        lemma_same_counts_below(a, b, (ranks - 1) as nat);
        lemma_filter_split(of_low_ranks(a, ranks), below);
        lemma_filter_split(of_low_ranks(b, ranks), below);
        assert(of_low_ranks(a, ranks).filter(below) =~= of_low_ranks(a, (ranks - 1) as nat));
        assert(of_low_ranks(b, ranks).filter(below) =~= of_low_ranks(b, (ranks - 1) as nat));
        assert(of_low_ranks(a, ranks).filter(|c: Card| !below(c)) =~= a.filter(|c: Card| c.rank == rank)) by {
            assert forall|c: Card| c.rank.index() == ranks - 1 <==> c.rank == rank by {
                assert(Rank::at(c.rank.index()) == c.rank);
            }
        }
        assert(of_low_ranks(b, ranks).filter(|c: Card| !below(c)) =~= b.filter(|c: Card| c.rank == rank)) by {
            assert forall|c: Card| c.rank.index() == ranks - 1 <==> c.rank == rank by {
                assert(Rank::at(c.rank.index()) == c.rank);
            }
        }
        assert(rank_count(a, rank) == rank_count(b, rank));
    }
}

/// Two sets that hold every rank equally often hold equally many cards.
pub proof fn lemma_same_counts_same_len(a: Set<Card>, b: Set<Card>)
    requires
        a.finite(),
        b.finite(),
        forall|r: Rank| rank_count(a, r) == rank_count(b, r),
    ensures
        a.len() == b.len(),
{
    lemma_same_counts_below(a, b, 13);
    assert(of_low_ranks(a, 13) =~= a);
    assert(of_low_ranks(b, 13) =~= b);
}

} // verus!
