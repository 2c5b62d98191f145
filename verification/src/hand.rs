//! The canonical 64-bit key of a hand: thirteen 3-bit rank counters in bits 0..39,
//! one flush marker per rank in bits 50..63, and the flush discriminant in bit 63.

use crate::card::{Card, Rank, Suit};
use crate::census::{
    flush_suit, lemma_counts_of_empty, lemma_counts_of_insert, lemma_rank_count_bound,
    lemma_take_next, rank_count, suit_count,
};
use std::ops::BitOr;
use std::ops::BitOrAssign;
use vstd::prelude::*;
use vstd::std_specs::ops::BitOrSpecImpl;

verus! {

/// The counter of the rank with index `i`: bits `3i..3i+3` of the key.
pub open spec fn counter(key: u64, i: u64) -> u64 {
    (key >> (3 * i)) & 7
}

/// Whether the rank with index `i` is marked as part of the flush: bit `50 + i`.
pub open spec fn marker(key: u64, i: u64) -> bool {
    (key >> (50 + i)) & 1 == 1
}

/// The flush discriminant: bit 63.
pub open spec fn flush_flag(key: u64) -> bool {
    key >> 63 == 1
}

/// Bits 39..50, which no part of the layout uses.
pub open spec fn reserved(key: u64) -> u64 {
    key & 0x0003_ff80_0000_0000
}

proof fn lemma_counter_add(key: u64, i: u64, n: u64, sum: u64)
    by (bit_vector)
    requires
        i < 13,
        counter(key, i) + n <= 7,
        sum == ((key + (n << (3 * i))) as u64),
    ensures
        key + (n << (3 * i)) <= 0xffff_ffff_ffff_ffff,
        counter(sum, i) == counter(key, i) + n,
        forall|j: u64|
            #![trigger counter(sum, j)]
            #![trigger counter(key, j)]
            j < 13 && j != i ==> counter(sum, j) == counter(key, j),
        forall|j: u64|
            #![trigger marker(sum, j)]
            #![trigger marker(key, j)]
            j < 13 ==> marker(sum, j) == marker(key, j),
        flush_flag(sum) == flush_flag(key),
        reserved(sum) == reserved(key),
{
}

proof fn lemma_counter_sub(key: u64, i: u64, rest: u64)
    by (bit_vector)
    requires
        i < 13,
        counter(key, i) >= 1,
        rest == ((key - (1u64 << (3 * i))) as u64),
    ensures
        key >= (1u64 << (3 * i)),
        counter(rest, i) == counter(key, i) - 1,
        forall|j: u64|
            #![trigger counter(rest, j)]
            #![trigger counter(key, j)]
            j < 13 && j != i ==> counter(rest, j) == counter(key, j),
        forall|j: u64|
            #![trigger marker(rest, j)]
            #![trigger marker(key, j)]
            j < 13 ==> marker(rest, j) == marker(key, j),
        flush_flag(rest) == flush_flag(key),
        reserved(rest) == reserved(key),
{
}

proof fn lemma_key_or(a: u64, b: u64, both: u64)
    by (bit_vector)
    requires
        both == a | b,
    ensures
        forall|j: u64|
            #![trigger counter(both, j)]
            j < 13 ==> counter(both, j) == counter(a, j) | counter(b, j),
        forall|j: u64|
            #![trigger counter(both, j)]
            j < 13 && counter(b, j) == 0 ==> counter(both, j) == counter(a, j),
        forall|j: u64|
            #![trigger counter(both, j)]
            j < 13 && counter(a, j) == 0 ==> counter(both, j) == counter(b, j),
        forall|j: u64|
            #![trigger marker(both, j)]
            j < 13 ==> marker(both, j) == (marker(a, j) || marker(b, j)),
        flush_flag(both) == (flush_flag(a) || flush_flag(b)),
        reserved(both) == reserved(a) | reserved(b),
        reserved(a) == 0 && reserved(b) == 0 ==> reserved(both) == 0,
{
}

proof fn lemma_key_zero()
    by (bit_vector)
    ensures
        forall|j: u64| j < 13 ==> counter(0, j) == 0,
        forall|j: u64| j < 13 ==> !marker(0, j),
        !flush_flag(0),
        reserved(0) == 0,
{
}

proof fn lemma_key_of_count(key: u64, i: u64, n: u64)
    by (bit_vector)
    requires
        i < 13,
        n <= 7,
        key == n << (3 * i),
    ensures
        counter(key, i) == n,
        forall|j: u64| j < 13 && j != i ==> counter(key, j) == 0,
        forall|j: u64| j < 13 ==> !marker(key, j),
        !flush_flag(key),
        reserved(key) == 0,
{
}

proof fn lemma_key_of_flush_single(key: u64, i: u64)
    by (bit_vector)
    requires
        i < 13,
        key == (1u64 << 63) | (1u64 << (i + 50)) | (1u64 << (3 * i)),
    ensures
        counter(key, i) == 1,
        forall|j: u64| j < 13 && j != i ==> counter(key, j) == 0,
        forall|j: u64| j < 13 ==> marker(key, j) == (j == i),
        flush_flag(key),
        reserved(key) == 0,
{
}

proof fn lemma_key_of_run(key: u64, low: u64)
    by (bit_vector)
    requires
        low <= 8,
        key == 0b001001001001001u64 << (3 * low),
    ensures
        forall|j: u64| j < 13 ==> counter(key, j) == (if low <= j && j <= low + 4 { 1u64 } else { 0u64 }),
        forall|j: u64| j < 13 ==> !marker(key, j),
        !flush_flag(key),
        reserved(key) == 0,
{
}

proof fn lemma_key_of_flush_run(key: u64, low: u64)
    by (bit_vector)
    requires
        low <= 8,
        key == (1u64 << 63) | (0b11111u64 << (low + 50)) | (0b001001001001001u64 << (3 * low)),
    ensures
        forall|j: u64| j < 13 ==> counter(key, j) == (if low <= j && j <= low + 4 { 1u64 } else { 0u64 }),
        forall|j: u64| j < 13 ==> marker(key, j) == (low <= j && j <= low + 4),
        flush_flag(key),
        reserved(key) == 0,
{
}

proof fn lemma_key_of_wheel(key: u64)
    by (bit_vector)
    requires
        key == 0b001001001001u64 | (1u64 << 36),
    ensures
        forall|j: u64| j < 13 ==> counter(key, j) == (if j <= 3 || j == 12 { 1u64 } else { 0u64 }),
        forall|j: u64| j < 13 ==> !marker(key, j),
        !flush_flag(key),
        reserved(key) == 0,
{
}

proof fn lemma_key_of_flush_wheel(key: u64)
    by (bit_vector)
    requires
        key == (1u64 << 63) | (0b1111u64 << 50) | (1u64 << 62) | 0b001001001001u64 | (1u64 << 36),
    ensures
        forall|j: u64| j < 13 ==> counter(key, j) == (if j <= 3 || j == 12 { 1u64 } else { 0u64 }),
        forall|j: u64| j < 13 ==> marker(key, j) == (j <= 3 || j == 12),
        flush_flag(key),
        reserved(key) == 0,
{
}

proof fn lemma_key_read(key: u64, i: u64)
    by (bit_vector)
    requires
        i < 13,
    ensures
        ((0b111u64 << (3 * i)) & key) >> (3 * i) == counter(key, i),
        (((0b111u64 << (3 * i)) & key) != 0) == (counter(key, i) != 0),
        counter(key, i) <= 7,
        ((key & (1u64 << (i + 50))) != 0) == marker(key, i),
        ((key & (1u64 << 63)) != 0) == flush_flag(key),
{
}

proof fn lemma_key_mark(key: u64, i: u64, marked: u64)
    by (bit_vector)
    requires
        i < 13,
        marked == key | (1u64 << (i + 50)),
    ensures
        forall|j: u64|
            #![trigger counter(marked, j)]
            #![trigger counter(key, j)]
            j < 13 ==> counter(marked, j) == counter(key, j),
        forall|j: u64|
            #![trigger marker(marked, j)]
            #![trigger marker(key, j)]
            j < 13 ==> marker(marked, j) == (j == i || marker(key, j)),
        flush_flag(marked) == flush_flag(key),
        reserved(marked) == reserved(key),
{
}

proof fn lemma_key_flag(key: u64, flagged: u64)
    by (bit_vector)
    requires
        flagged == key | (1u64 << 63),
    ensures
        forall|j: u64|
            #![trigger counter(flagged, j)]
            #![trigger counter(key, j)]
            j < 13 ==> counter(flagged, j) == counter(key, j),
        forall|j: u64|
            #![trigger marker(flagged, j)]
            #![trigger marker(key, j)]
            j < 13 ==> marker(flagged, j) == marker(key, j),
        flush_flag(flagged),
        reserved(flagged) == reserved(key),
{
}

spec fn same_counters(a: u64, b: u64) -> bool {
    &&& counter(a, 0) == counter(b, 0)
    &&& counter(a, 1) == counter(b, 1)
    &&& counter(a, 2) == counter(b, 2)
    &&& counter(a, 3) == counter(b, 3)
    &&& counter(a, 4) == counter(b, 4)
    &&& counter(a, 5) == counter(b, 5)
    &&& counter(a, 6) == counter(b, 6)
    &&& counter(a, 7) == counter(b, 7)
    &&& counter(a, 8) == counter(b, 8)
    &&& counter(a, 9) == counter(b, 9)
    &&& counter(a, 10) == counter(b, 10)
    &&& counter(a, 11) == counter(b, 11)
    &&& counter(a, 12) == counter(b, 12)
}

spec fn same_markers(a: u64, b: u64) -> bool {
    &&& marker(a, 0) == marker(b, 0)
    &&& marker(a, 1) == marker(b, 1)
    &&& marker(a, 2) == marker(b, 2)
    &&& marker(a, 3) == marker(b, 3)
    &&& marker(a, 4) == marker(b, 4)
    &&& marker(a, 5) == marker(b, 5)
    &&& marker(a, 6) == marker(b, 6)
    &&& marker(a, 7) == marker(b, 7)
    &&& marker(a, 8) == marker(b, 8)
    &&& marker(a, 9) == marker(b, 9)
    &&& marker(a, 10) == marker(b, 10)
    &&& marker(a, 11) == marker(b, 11)
    &&& marker(a, 12) == marker(b, 12)
}

proof fn lemma_keys_equal(a: u64, b: u64)
    by (bit_vector)
    requires
        same_counters(a, b),
        same_markers(a, b),
        flush_flag(a) == flush_flag(b),
        reserved(a) == reserved(b),
    ensures
        a == b,
{
}


/// A hand as its canonical key. Two hands are equal exactly when their keys are.
#[derive(Debug, PartialEq, Eq, Structural, Clone, Copy, Hash)]
pub struct Hand(u64);

impl View for Hand {
    type V = u64;

    closed spec fn view(&self) -> u64 {
        self.0
    }
}

/// Whether `rank` is one of the five ranks of the straight whose highest card is `high`.
/// The straight below `Six` runs from the `Ace`, counted low, up to `Five`.
pub open spec fn in_straight(rank: Rank, high: Rank) -> bool {
    if high == Rank::Five {
        rank.index() <= 3 || rank == Rank::Ace
    } else {
        high.index() - 4 <= rank.index() <= high.index()
    }
}

impl Hand {
    const SUIT_OFFSET: u64 = 50;

    /// How many cards of `rank` the key counts.
    pub open spec fn count(self, rank: Rank) -> nat {
        counter(self@, rank.index() as u64) as nat
    }

    /// Whether the key says that five cards share a suit.
    pub open spec fn flush(self) -> bool {
        flush_flag(self@)
    }

    /// Whether the key marks `rank` as held in the flush suit.
    pub open spec fn marked(self, rank: Rank) -> bool {
        marker(self@, rank.index() as u64)
    }

    /// Whether the bits that the layout leaves unused are clear.
    pub open spec fn canonical(self) -> bool {
        reserved(self@) == 0
    }

    /// Whether both keys count every rank other than `rank` alike.
    pub open spec fn same_counts_but(self, other: Hand, rank: Rank) -> bool {
        forall|r: Rank| r != rank ==> self.count(r) == other.count(r)
    }

    /// Whether both keys agree on everything but the rank counters.
    pub open spec fn same_suits(self, other: Hand) -> bool {
        &&& self.flush() == other.flush()
        &&& forall|r: Rank| self.marked(r) == other.marked(r)
        &&& reserved(self@) == reserved(other@)
    }

    /// Whether the key carries no flush information and keeps the unused bits clear.
    pub open spec fn suitless(self) -> bool {
        &&& forall|r: Rank| !self.marked(r)
        &&& !self.flush()
        &&& self.canonical()
    }

    /// Whether the key counts no card of any rank other than `rank`.
    pub open spec fn only_rank(self, rank: Rank) -> bool {
        forall|r: Rank| r != rank ==> self.count(r) == 0
    }

    /// The key of no cards at all.
    pub closed spec fn blank() -> Hand {
        Hand(0)
    }

    /// The key with `n` more cards of `rank`.
    pub closed spec fn with_more(self, rank: Rank, n: u64) -> Hand {
        Hand((self.0 + (n << (3 * (rank.index() as u64)))) as u64)
    }

    /// The key with one card of `rank` less.
    pub closed spec fn with_less(self, rank: Rank) -> Hand {
        Hand((self.0 - (1u64 << (3 * (rank.index() as u64)))) as u64)
    }

    /// The bitwise union of two keys.
    pub closed spec fn union(self, other: Hand) -> Hand {
        Hand(self.0 | other.0)
    }

    /// The key with `rank` marked as part of the flush.
    pub closed spec fn with_mark(self, rank: Rank) -> Hand {
        Hand(self.0 | (1u64 << ((rank.index() as u64) + 50)))
    }

    /// The key with the flush discriminant set.
    pub closed spec fn with_flush(self) -> Hand {
        Hand(self.0 | (1u64 << 63))
    }

    /// The key of `n` cards of `rank` and nothing else.
    pub closed spec fn of_n_rank(rank: Rank, n: u64) -> Hand {
        Hand(n << (3 * (rank.index() as u64)))
    }

    /// The key of one card of `rank` that is part of a flush.
    pub closed spec fn flush_single(rank: Rank) -> Hand {
        Hand(
            (1u64 << 63) | (1u64 << ((rank.index() as u64) + 50)) | (1u64 << (3 * (rank.index() as u64))),
        )
    }

    /// The key of the straight whose highest card is `high`, in mixed suits.
    pub closed spec fn straight(high: Rank) -> Hand {
        if high == Rank::Five {
            Hand(0b001001001001u64 | (1u64 << 36))
        } else {
            Hand(0b001001001001001u64 << (3 * ((high.index() - 4) as u64)))
        }
    }

    /// The key of the straight flush whose highest card is `high`.
    pub closed spec fn straight_flush(high: Rank) -> Hand {
        if high == Rank::Five {
            Hand((1u64 << 63) | (0b1111u64 << 50) | (1u64 << 62) | 0b001001001001u64 | (1u64 << 36))
        } else {
            Hand(
                (1u64 << 63) | (0b11111u64 << (((high.index() - 4) as u64) + 50)) | (0b001001001001001u64 << (3
                    * ((high.index() - 4) as u64))),
            )
        }
    }

    /// Whether this is the key of the given cards: a counter per rank, the flush
    /// discriminant when five or more of them share a suit, and then a marker for each
    /// rank that the first such suit holds.
    pub open spec fn encodes(self, cards: Set<Card>) -> bool {
        &&& forall|r: Rank| self.count(r) == rank_count(cards, r)
        &&& self.flush() == (flush_suit(cards) is Some)
        &&& forall|r: Rank|
            self.marked(r) == (flush_suit(cards) matches Some(suit) && cards.contains(
                Card { rank: r, suit },
            ))
        &&& self.canonical()
    }

    /// The key of the given cards.
    pub open spec fn encode(cards: Set<Card>) -> Hand {
        choose|hand: Hand| hand.encodes(cards)
    }

    fn slot(rank: Rank) -> (i: u64)
        ensures
            i == rank.index(),
            i < 13,
    {
        usize::from(rank) as u64
    }

    /// The hand of no cards.
    pub fn empty() -> (hand: Hand)
        ensures
            hand == Hand::blank(),
            forall|r: Rank| hand.count(r) == 0,
            hand.suitless(),
    {
        proof {
            lemma_key_zero();
        }
        Hand(0)
    }

    /// The raw key, which is what a score table is keyed by.
    pub fn key(&self) -> (key: u64)
        ensures
            key == self@,
    {
        self.0
    }

    /// The key of a sequence of distinct cards.
    pub fn new(cards: &Vec<Card>) -> (hand: Hand)
        requires
            cards@.no_duplicates(),
        ensures
            hand.encodes(cards@.to_set()),
            hand == Hand::encode(cards@.to_set()),
    {
        let ghost all = cards@.to_set();
        let n = cards.len();
        let mut val: u64 = 0;
        let mut hearts: usize = 0;
        let mut diamonds: usize = 0;
        let mut clubs: usize = 0;
        let mut spades: usize = 0;
        proof {
            lemma_key_zero();
            assert(cards@.take(0).to_set() =~= Set::<Card>::empty());
            assert forall|r: Rank| #[trigger] rank_count(Set::<Card>::empty(), r) == 0 by {
                lemma_counts_of_empty(r, Suit::Hearts);
            }
            assert forall|s: Suit| #[trigger] suit_count(Set::<Card>::empty(), s) == 0 by {
                lemma_counts_of_empty(Rank::Two, s);
            }
        }
        let mut i: usize = 0;
        while i < n
            invariant
                i <= n,
                n == cards.len(),
                cards@.no_duplicates(),
                forall|r: Rank|
                    counter(val, r.index() as u64) == rank_count(cards@.take(i as int).to_set(), r),
                forall|j: u64| j < 13 ==> !marker(val, j),
                !flush_flag(val),
                reserved(val) == 0,
                hearts == suit_count(cards@.take(i as int).to_set(), Suit::Hearts) <= i,
                diamonds == suit_count(cards@.take(i as int).to_set(), Suit::Diamonds) <= i,
                clubs == suit_count(cards@.take(i as int).to_set(), Suit::Clubs) <= i,
                spades == suit_count(cards@.take(i as int).to_set(), Suit::Spades) <= i,
            decreases n - i,
        {
            let card = cards[i];
            let slot = Hand::slot(card.rank);
            proof {
                let before = cards@.take(i as int).to_set();
                lemma_take_next(cards@, i as int);
                assert forall|r: Rank| #[trigger]
                    rank_count(before.insert(card), r) == rank_count(before, r) + (if card.rank == r {
                        1nat
                    } else {
                        0nat
                    }) by {
                    lemma_counts_of_insert(before, card, r, Suit::Hearts);
                }
                assert forall|s: Suit| #[trigger]
                    suit_count(before.insert(card), s) == suit_count(before, s) + (if card.suit == s {
                        1nat
                    } else {
                        0nat
                    }) by {
                    lemma_counts_of_insert(before, card, Rank::Two, s);
                }
                lemma_rank_count_bound(before.insert(card), card.rank);
                lemma_counter_add(val, slot, 1, (val + (1u64 << (3 * slot))) as u64);
            }
            val = val + (1u64 << (3 * slot));
            match card.suit {
                Suit::Hearts => {
                    hearts = hearts + 1;
                },
                Suit::Diamonds => {
                    diamonds = diamonds + 1;
                },
                Suit::Clubs => {
                    clubs = clubs + 1;
                },
                Suit::Spades => {
                    spades = spades + 1;
                },
            }
            i = i + 1;
        }
        assert(cards@.take(n as int) =~= cards@);
        let found = if hearts >= 5 {
            Some(Suit::Hearts)
        } else if diamonds >= 5 {
            Some(Suit::Diamonds)
        } else if clubs >= 5 {
            Some(Suit::Clubs)
        } else if spades >= 5 {
            Some(Suit::Spades)
        } else {
            None
        };
        assert(found == flush_suit(all));
        if let Some(suit) = found {
            proof {
                lemma_key_flag(val, val | (1u64 << 63));
            }
            val = val | (1u64 << 63);
            let mut k: usize = 0;
            while k < n
                invariant
                    k <= n,
                    n == cards.len(),
                    all == cards@.to_set(),
                    forall|r: Rank| counter(val, r.index() as u64) == rank_count(all, r),
                    forall|r: Rank|
                        marker(val, r.index() as u64) == cards@.take(k as int).contains(
                            Card { rank: r, suit },
                        ),
                    flush_flag(val),
                    reserved(val) == 0,
                decreases n - k,
            {
                let card = cards[k];
                proof {
                    assert(cards@.take(k + 1) =~= cards@.take(k as int).push(card));
                    assert forall|c: Card|
                        cards@.take(k + 1).contains(c) == (cards@.take(k as int).contains(c) || c
                            == card) by {
                        if cards@.take(k as int).contains(c) {
                            let j = choose|j: int|
                                0 <= j < cards@.take(k as int).len() && cards@.take(k as int)[j] == c;
                            assert(cards@.take(k + 1)[j] == c);
                        }
                        if c == card {
                            assert(cards@.take(k + 1)[k as int] == c);
                        }
                    }
                }
                if card.suit == suit {
                    let slot = Hand::slot(card.rank);
                    proof {
                        lemma_key_mark(val, slot, val | (1u64 << (slot + 50)));
                        assert(card == Card { rank: card.rank, suit });
                    }
                    val = val | (1u64 << (slot + Hand::SUIT_OFFSET));
                }
                k = k + 1;
            }
            assert(cards@.take(n as int) =~= cards@);
        }
        let hand = Hand(val);
        proof {
            assert(hand.encodes(all));
            Hand::lemma_equal(hand, Hand::encode(all));
        }
        hand
    }

    /// Whether the key counts a card of `rank`.
    pub fn contains_rank(&self, rank: Rank) -> (present: bool)
        ensures
            present == (self.count(rank) > 0),
    {
        let i = Hand::slot(rank);
        proof {
            lemma_key_read(self.0, i);
        }
        ((0b111u64 << (3 * i)) & self.0) != 0
    }

    /// Counts one more card of `rank`, of which the key counts fewer than four.
    pub fn add_rank(&mut self, rank: Rank)
        requires
            old(self).count(rank) < 4,
        ensures
            *final(self) == old(self).with_more(rank, 1),
            final(self).count(rank) == old(self).count(rank) + 1,
            final(self).same_counts_but(*old(self), rank),
            final(self).same_suits(*old(self)),
    {
        let i = Hand::slot(rank);
        proof {
            lemma_counter_add(self.0, i, 1, (self.0 + (1u64 << (3 * i))) as u64);
        }
        self.0 = self.0 + (1u64 << (3 * i));
    }

    /// Counts one card of `rank` less, of which the key counts one or more.
    pub fn take_rank(&mut self, rank: Rank)
        requires
            old(self).count(rank) > 0,
        ensures
            *final(self) == old(self).with_less(rank),
            final(self).count(rank) == old(self).count(rank) - 1,
            final(self).same_counts_but(*old(self), rank),
            final(self).same_suits(*old(self)),
    {
        let i = Hand::slot(rank);
        proof {
            lemma_counter_sub(self.0, i, (self.0 - (1u64 << (3 * i))) as u64);
        }
        self.0 = self.0 - (1u64 << (3 * i));
    }

    /// Counts `n` more cards of `rank`, up to four in all.
    pub fn add_n_rank(&mut self, rank: Rank, n: u64)
        requires
            old(self).count(rank) + n <= 4,
        ensures
            *final(self) == old(self).with_more(rank, n),
            final(self).count(rank) == old(self).count(rank) + n,
            final(self).same_counts_but(*old(self), rank),
            final(self).same_suits(*old(self)),
    {
        let i = Hand::slot(rank);
        proof {
            lemma_counter_add(self.0, i, n, (self.0 + (n << (3 * i))) as u64);
        }
        self.0 = self.0 + (n << (3 * i));
    }

    /// How many cards of `rank` the key counts.
    pub fn count_rank(&self, rank: Rank) -> (count: u64)
        ensures
            count == self.count(rank),
            count <= 7,
    {
        let i = Hand::slot(rank);
        proof {
            lemma_key_read(self.0, i);
        }
        ((0b111u64 << (3 * i)) & self.0) >> (3 * i)
    }

    /// Whether the flush discriminant is set.
    pub fn is_flush(&self) -> (flush: bool)
        ensures
            flush == self.flush(),
    {
        proof {
            lemma_key_read(self.0, 0);
        }
        self.0 & (1u64 << 63) != 0
    }

    /// Whether `rank` is marked as part of the flush.
    pub fn is_in_flush(self, rank: Rank) -> (marked: bool)
        ensures
            marked == self.marked(rank),
    {
        let i = Hand::slot(rank);
        proof {
            lemma_key_read(self.0, i);
        }
        (self.0 & (1u64 << (i + Hand::SUIT_OFFSET))) != 0
    }

    /// The key of one card of `rank` that is part of a flush.
    pub fn from_rank_as_flush(rank: Rank) -> (hand: Hand)
        ensures
            hand == Hand::flush_single(rank),
            hand.count(rank) == 1,
            hand.only_rank(rank),
            forall|r: Rank| hand.marked(r) == (r == rank),
            hand.flush(),
            hand.canonical(),
    {
        let i = Hand::slot(rank);
        let key = (1u64 << 63) | (1u64 << (i + Hand::SUIT_OFFSET)) | (1u64 << (3 * i));
        proof {
            lemma_key_of_flush_single(key, i);
        }
        Hand(key)
    }

    /// The key of `n` cards of `rank`, four at most.
    pub fn from_n_rank(rank: Rank, n: u64) -> (hand: Hand)
        requires
            n <= 4,
        ensures
            hand == Hand::of_n_rank(rank, n),
            hand.count(rank) == n,
            hand.only_rank(rank),
            hand.suitless(),
    {
        let i = Hand::slot(rank);
        proof {
            lemma_key_of_count(n << (3 * i), i, n);
        }
        Hand(n << (3 * i))
    }

    /// The key of the straight flush up to `high_rank`, which is a `Five` or higher; the one
    /// up to `Five` starts from the `Ace`.
    pub fn from_straight_flush(high_rank: Rank) -> (hand: Hand)
        requires
            high_rank.index() >= 3,
        ensures
            hand == Hand::straight_flush(high_rank),
            forall|r: Rank| hand.count(r) == (if in_straight(r, high_rank) { 1nat } else { 0nat }),
            forall|r: Rank| hand.marked(r) == in_straight(r, high_rank),
            hand.flush(),
            hand.canonical(),
    {
        if high_rank == Rank::Five {
            let key = (1u64 << 63) | (0b1111u64 << Hand::SUIT_OFFSET) | (1u64 << 62) | 0b001001001001u64 | (1u64
                << 36);
            proof {
                lemma_key_of_flush_wheel(key);
            }
            return Hand(key);
        }
        let low_rank_offset = Hand::slot(high_rank) - 4;
        let key = (1u64 << 63) | (0b11111u64 << (low_rank_offset + Hand::SUIT_OFFSET)) | (0b001001001001001u64 << (3
            * low_rank_offset));
        proof {
            lemma_key_of_flush_run(key, low_rank_offset);
        }
        Hand(key)
    }

    /// The key of the straight in mixed suits up to `high_rank`, which is a `Five` or higher;
    /// the one up to `Five` starts from the `Ace`.
    pub fn from_straight(high_rank: Rank) -> (hand: Hand)
        requires
            high_rank.index() >= 3,
        ensures
            hand == Hand::straight(high_rank),
            forall|r: Rank| hand.count(r) == (if in_straight(r, high_rank) { 1nat } else { 0nat }),
            hand.suitless(),
    {
        if high_rank == Rank::Five {
            let key = 0b001001001001u64 | (1u64 << 36);
            proof {
                lemma_key_of_wheel(key);
            }
            return Hand(key);
        }
        let low_rank_offset = Hand::slot(high_rank) - 4;
        let key = 0b001001001001001u64 << (3 * low_rank_offset);
        proof {
            lemma_key_of_run(key, low_rank_offset);
        }
        Hand(key)
    }
}

impl BitOr for Hand {
    type Output = Hand;

    fn bitor(self, other: Hand) -> (hand: Hand) {
        Hand(self.0 | other.0)
    }
}

impl BitOrSpecImpl for Hand {
    open spec fn obeys_bitor_spec() -> bool {
        true
    }

    open spec fn bitor_req(self, other: Hand) -> bool {
        true
    }

    open spec fn bitor_spec(self, other: Hand) -> Hand {
        self.union(other)
    }
}

impl BitOrAssign for Hand {
    fn bitor_assign(&mut self, rhs: Self)
        ensures
            *final(self) == old(self).union(rhs),
    {
        *self = *self | rhs;
    }
}


impl Hand {
    /// Two keys that count every rank alike and agree on the flush information are
    /// the same key.
    pub proof fn lemma_equal(a: Hand, b: Hand)
        requires
            forall|r: Rank| a.count(r) == b.count(r),
            a.same_suits(b),
        ensures
            a == b,
    {
        assert(same_counters(a@, b@)) by {
            assert(a.count(Rank::Two) == b.count(Rank::Two));
            assert(a.count(Rank::Three) == b.count(Rank::Three));
            assert(a.count(Rank::Four) == b.count(Rank::Four));
            assert(a.count(Rank::Five) == b.count(Rank::Five));
            assert(a.count(Rank::Six) == b.count(Rank::Six));
            assert(a.count(Rank::Seven) == b.count(Rank::Seven));
            assert(a.count(Rank::Eight) == b.count(Rank::Eight));
            assert(a.count(Rank::Nine) == b.count(Rank::Nine));
            assert(a.count(Rank::Ten) == b.count(Rank::Ten));
            assert(a.count(Rank::Jack) == b.count(Rank::Jack));
            assert(a.count(Rank::Queen) == b.count(Rank::Queen));
            assert(a.count(Rank::King) == b.count(Rank::King));
            assert(a.count(Rank::Ace) == b.count(Rank::Ace));
        }
        assert(same_markers(a@, b@)) by {
            assert(a.marked(Rank::Two) == b.marked(Rank::Two));
            assert(a.marked(Rank::Three) == b.marked(Rank::Three));
            assert(a.marked(Rank::Four) == b.marked(Rank::Four));
            assert(a.marked(Rank::Five) == b.marked(Rank::Five));
            assert(a.marked(Rank::Six) == b.marked(Rank::Six));
            assert(a.marked(Rank::Seven) == b.marked(Rank::Seven));
            assert(a.marked(Rank::Eight) == b.marked(Rank::Eight));
            assert(a.marked(Rank::Nine) == b.marked(Rank::Nine));
            assert(a.marked(Rank::Ten) == b.marked(Rank::Ten));
            assert(a.marked(Rank::Jack) == b.marked(Rank::Jack));
            assert(a.marked(Rank::Queen) == b.marked(Rank::Queen));
            assert(a.marked(Rank::King) == b.marked(Rank::King));
            assert(a.marked(Rank::Ace) == b.marked(Rank::Ace));
        }
        lemma_keys_equal(a@, b@);
    }

    /// Hands with the same key are the same hand.
    pub proof fn lemma_view_injective(a: Hand, b: Hand)
        requires
            a@ == b@,
        ensures
            a == b,
    {
    }

    /// The key of given cards is unique.
    pub proof fn lemma_encodes_unique(a: Hand, b: Hand, cards: Set<Card>)
        requires
            a.encodes(cards),
            b.encodes(cards),
        ensures
            a == b,
            a == Hand::encode(cards),
    {
        Hand::lemma_equal(a, b);
        Hand::lemma_equal(a, Hand::encode(cards));
    }

    /// What the blank key holds.
    pub proof fn lemma_blank()
        ensures
            forall|r: Rank| Hand::blank().count(r) == 0,
            Hand::blank().suitless(),
    {
        lemma_key_zero();
    }

    /// What a key holds after `n` more cards of `rank`.
    pub proof fn lemma_with_more(self, rank: Rank, n: u64)
        requires
            self.count(rank) + n <= 7,
        ensures
            self.with_more(rank, n).count(rank) == self.count(rank) + n,
            self.with_more(rank, n).same_counts_but(self, rank),
            self.with_more(rank, n).same_suits(self),
    {
        lemma_counter_add(self@, rank.index() as u64, n, self.with_more(rank, n)@);
    }

    /// What a key holds after one card of `rank` less.
    pub proof fn lemma_with_less(self, rank: Rank)
        requires
            self.count(rank) >= 1,
        ensures
            self.with_less(rank).count(rank) == self.count(rank) - 1,
            self.with_less(rank).same_counts_but(self, rank),
            self.with_less(rank).same_suits(self),
    {
        lemma_counter_sub(self@, rank.index() as u64, self.with_less(rank)@);
    }

    /// What the union of two keys holds. Where only one of the two counts a rank, the
    /// union counts it alike: the union of keys on disjoint ranks is the key of both.
    pub proof fn lemma_union(self, other: Hand)
        ensures
            self.union(other)@ == self@ | other@,
            reserved(self.union(other)@) == reserved(self@) | reserved(other@),
            forall|r: Rank| other.count(r) == 0 ==> self.union(other).count(r) == self.count(r),
            forall|r: Rank| self.count(r) == 0 ==> self.union(other).count(r) == other.count(r),
            forall|r: Rank| self.union(other).marked(r) == (self.marked(r) || other.marked(r)),
            self.union(other).flush() == (self.flush() || other.flush()),
            self.canonical() && other.canonical() ==> self.union(other).canonical(),
    {
        lemma_key_or(self@, other@, self.union(other)@);
    }

    /// What the key of `n` cards of one rank holds.
    pub proof fn lemma_of_n_rank(rank: Rank, n: u64)
        requires
            n <= 7,
        ensures
            Hand::of_n_rank(rank, n).count(rank) == n,
            Hand::of_n_rank(rank, n).only_rank(rank),
            Hand::of_n_rank(rank, n).suitless(),
    {
        lemma_key_of_count(Hand::of_n_rank(rank, n)@, rank.index() as u64, n);
    }

    /// What the key of one card in a flush holds.
    pub proof fn lemma_flush_single(rank: Rank)
        ensures
            Hand::flush_single(rank).count(rank) == 1,
            Hand::flush_single(rank).only_rank(rank),
            forall|r: Rank| Hand::flush_single(rank).marked(r) == (r == rank),
            Hand::flush_single(rank).flush(),
            Hand::flush_single(rank).canonical(),
    {
        lemma_key_of_flush_single(Hand::flush_single(rank)@, rank.index() as u64);
    }

    /// What the key of a straight holds.
    pub proof fn lemma_straight(high: Rank)
        requires
            high.index() >= 3,
        ensures
            forall|r: Rank|
                Hand::straight(high).count(r) == (if in_straight(r, high) {
                    1nat
                } else {
                    0nat
                }),
            Hand::straight(high).suitless(),
    {
        if high == Rank::Five {
            lemma_key_of_wheel(Hand::straight(high)@);
        } else {
            lemma_key_of_run(Hand::straight(high)@, (high.index() - 4) as u64);
        }
    }

    /// What the key of a straight flush holds.
    pub proof fn lemma_straight_flush(high: Rank)
        requires
            high.index() >= 3,
        ensures
            forall|r: Rank|
                Hand::straight_flush(high).count(r) == (if in_straight(r, high) {
                    1nat
                } else {
                    0nat
                }),
            forall|r: Rank| Hand::straight_flush(high).marked(r) == in_straight(r, high),
            Hand::straight_flush(high).flush(),
            Hand::straight_flush(high).canonical(),
    {
        if high == Rank::Five {
            lemma_key_of_flush_wheel(Hand::straight_flush(high)@);
        } else {
            lemma_key_of_flush_run(Hand::straight_flush(high)@, (high.index() - 4) as u64);
        }
    }

    /// Adding a card of a rank to a key that is not at the most of that rank, and
    /// taking it away again, gives the key back.
    pub proof fn lemma_add_then_take(self, rank: Rank)
        requires
            self.count(rank) < 4,
        ensures
            self.with_more(rank, 1).with_less(rank) == self,
    {
        self.lemma_with_more(rank, 1);
        self.with_more(rank, 1).lemma_with_less(rank);
        Hand::lemma_equal(self.with_more(rank, 1).with_less(rank), self);
    }

    /// What a key holds after `rank` is marked as part of the flush.
    pub proof fn lemma_with_mark(self, rank: Rank)
        ensures
            forall|r: Rank| self.with_mark(rank).count(r) == self.count(r),
            forall|r: Rank| self.with_mark(rank).marked(r) == (r == rank || self.marked(r)),
            self.with_mark(rank).flush() == self.flush(),
            self.with_mark(rank).canonical() == self.canonical(),
    {
        lemma_key_mark(self@, rank.index() as u64, self.with_mark(rank)@);
    }

    /// What a key holds after the flush discriminant is set.
    pub proof fn lemma_with_flush(self)
        ensures
            forall|r: Rank| self.with_flush().count(r) == self.count(r),
            forall|r: Rank| self.with_flush().marked(r) == self.marked(r),
            self.with_flush().flush(),
            self.with_flush().canonical() == self.canonical(),
    {
        lemma_key_flag(self@, self.with_flush()@);
    }

    /// The key of the given counters and markers for the ranks with an index below
    /// `ranks`, without the flush discriminant.
    pub open spec fn built(counts: spec_fn(Rank) -> nat, marks: spec_fn(Rank) -> bool, ranks: nat) -> Hand
        decreases ranks,
    {
        if ranks == 0 {
            Hand::blank()
        } else {
            let rank = Rank::at((ranks - 1) as nat);
            let counted = Hand::built(counts, marks, (ranks - 1) as nat).with_more(rank, counts(rank) as u64);
            if marks(rank) {
                counted.with_mark(rank)
            } else {
                counted
            }
        }
    }

    proof fn lemma_built(counts: spec_fn(Rank) -> nat, marks: spec_fn(Rank) -> bool, ranks: nat)
        requires
            ranks <= 13,
            forall|r: Rank| #[trigger] counts(r) <= 7,
        ensures
            forall|r: Rank|
                Hand::built(counts, marks, ranks).count(r) == (if r.index() < ranks {
                    counts(r)
                } else {
                    0
                }),
            forall|r: Rank| Hand::built(counts, marks, ranks).marked(r) == (r.index() < ranks && marks(r)),
            !Hand::built(counts, marks, ranks).flush(),
            Hand::built(counts, marks, ranks).canonical(),
        decreases ranks,
    {
        if ranks == 0 {
            Hand::lemma_blank();
        } else {
            let rank = Rank::at((ranks - 1) as nat);
            let before = Hand::built(counts, marks, (ranks - 1) as nat);
            let counted = before.with_more(rank, counts(rank) as u64);
            Hand::lemma_built(counts, marks, (ranks - 1) as nat);
            assert(rank.index() == ranks - 1);
            assert(counts(rank) <= 7);
            before.lemma_with_more(rank, counts(rank) as u64);
            counted.lemma_with_mark(rank);
            assert forall|r: Rank|
                Hand::built(counts, marks, ranks).count(r) == (if r.index() < ranks {
                    counts(r)
                } else {
                    0
                }) by {
                if r != rank {
                    assert(counted.count(r) == before.count(r));
                    assert(r.index() != ranks - 1);
                }
            }
            assert forall|r: Rank|
                Hand::built(counts, marks, ranks).marked(r) == (r.index() < ranks && marks(r)) by {
                assert(counted.marked(r) == before.marked(r));
                if r != rank {
                    assert(r.index() != ranks - 1);
                }
            }
        }
    }

    /// There is a key for any counters up to seven, any markers and either value of
    /// the flush discriminant.
    pub proof fn lemma_pack(counts: spec_fn(Rank) -> nat, marks: spec_fn(Rank) -> bool, flush: bool) -> (hand:
        Hand)
        requires
            forall|r: Rank| #[trigger] counts(r) <= 7,
        ensures
            forall|r: Rank| hand.count(r) == #[trigger] counts(r),
            forall|r: Rank| hand.marked(r) == #[trigger] marks(r),
            hand.flush() == flush,
            hand.canonical(),
    {
        let plain = Hand::built(counts, marks, 13);
        Hand::lemma_built(counts, marks, 13);
        plain.lemma_with_flush();
        let hand = if flush {
            plain.with_flush()
        } else {
            plain
        };
        assert forall|r: Rank| hand.count(r) == #[trigger] counts(r) by {
            assert(plain.count(r) == counts(r));
        }
        assert forall|r: Rank| hand.marked(r) == #[trigger] marks(r) by {
            assert(plain.marked(r) == marks(r));
        }
        hand
    }

    /// Every finite set of cards has a key.
    pub proof fn lemma_encode_exists(cards: Set<Card>)
        requires
            cards.finite(),
        ensures
            Hand::encode(cards).encodes(cards),
    {
        let counts = |r: Rank| rank_count(cards, r);
        let marks = |r: Rank|
            flush_suit(cards) matches Some(suit) && cards.contains(Card { rank: r, suit });
        assert forall|r: Rank| #[trigger] counts(r) <= 7 by {
            lemma_rank_count_bound(cards, r);
        }
        let hand = Hand::lemma_pack(counts, marks, flush_suit(cards) is Some);
        assert forall|r: Rank| hand.count(r) == rank_count(cards, r) by {
            assert(hand.count(r) == counts(r));
        }
        assert forall|r: Rank|
            hand.marked(r) == (flush_suit(cards) matches Some(suit) && cards.contains(
                Card { rank: r, suit },
            )) by {
            assert(hand.marked(r) == marks(r));
        }
        assert(hand.encodes(cards));
    }
}

} // verus!
