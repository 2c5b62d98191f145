//! The written form of ranks, suits, cards and keys.

use crate::card::{Card, Rank, Suit};
use crate::hand::Hand;
use vstd::prelude::*;

verus! {

impl Rank {
    /// The written form of a rank: its number, or the first letter of its name.
    pub open spec fn symbol_text(self) -> Seq<char> {
        match self {
            Rank::Two => "2"@,
            Rank::Three => "3"@,
            Rank::Four => "4"@,
            Rank::Five => "5"@,
            Rank::Six => "6"@,
            Rank::Seven => "7"@,
            Rank::Eight => "8"@,
            Rank::Nine => "9"@,
            Rank::Ten => "10"@,
            Rank::Jack => "J"@,
            Rank::Queen => "Q"@,
            Rank::King => "K"@,
            Rank::Ace => "A"@,
        }
    }

    /// The written form.
    pub fn symbol(self) -> (text: &'static str)
        ensures
            text@ == self.symbol_text(),
    {
        match self {
            Rank::Two => "2",
            Rank::Three => "3",
            Rank::Four => "4",
            Rank::Five => "5",
            Rank::Six => "6",
            Rank::Seven => "7",
            Rank::Eight => "8",
            Rank::Nine => "9",
            Rank::Ten => "10",
            Rank::Jack => "J",
            Rank::Queen => "Q",
            Rank::King => "K",
            Rank::Ace => "A",
        }
    }
}

impl Suit {
    /// The written form of a suit: its pip.
    pub open spec fn symbol_text(self) -> Seq<char> {
        match self {
            Suit::Hearts => "♥"@,
            Suit::Diamonds => "♦"@,
            Suit::Clubs => "♣"@,
            Suit::Spades => "♠"@,
        }
    }

    /// The written form.
    pub fn symbol(self) -> (text: &'static str)
        ensures
            text@ == self.symbol_text(),
    {
        match self {
            Suit::Hearts => "♥",
            Suit::Diamonds => "♦",
            Suit::Clubs => "♣",
            Suit::Spades => "♠",
        }
    }
}

impl Card {
    /// The written form of a card: its rank, then its suit.
    pub open spec fn text(self) -> Seq<char> {
        self.rank.symbol_text() + self.suit.symbol_text()
    }

    /// The written form.
    pub fn to_text(&self) -> (text: String)
        ensures
            text@ == self.text(),
    {
        String::from_str(self.rank.symbol()).concat(self.suit.symbol())
    }
}

impl Hand {
    /// One card of `rank` in the written form of a key: the rank in brackets, after
    /// an `f` where the key marks the rank as part of the flush, and a blank.
    pub open spec fn entry_text(self, rank: Rank) -> Seq<char> {
        "["@ + (if self.marked(rank) {
            "f"@
        } else {
            ""@
        }) + rank.symbol_text() + "] "@
    }

    /// `times` entries of `rank`.
    pub open spec fn entries_text(self, rank: Rank, times: nat) -> Seq<char>
        decreases times,
    {
        if times == 0 {
            Seq::empty()
        } else {
            self.entries_text(rank, (times - 1) as nat) + self.entry_text(rank)
        }
    }

    /// The written form of a key: for each of the first `ranks` ranks, from the `Two`
    /// up, as many entries as the key counts cards of it.
    pub open spec fn text(self, ranks: nat) -> Seq<char>
        decreases ranks,
    {
        if ranks == 0 {
            Seq::empty()
        } else {
            let rank = Rank::at((ranks - 1) as nat);
            self.text((ranks - 1) as nat) + self.entries_text(rank, self.count(rank))
        }
    }

    /// The written form.
    pub fn to_text(&self) -> (text: String)
        ensures
            text@ == self.text(13),
    {
        let mut text = String::from_str("");
        proof {
            reveal_strlit("");
            assert(text@ =~= self.text(0));
        }
        let mut i: usize = 0;
        while i < 13
            invariant
                i <= 13,
                text@ == self.text(i as nat),
            decreases 13 - i,
        {
            let rank = Rank::ALL_RANKS[i];
            assert(rank == Rank::at(i as nat));
            let count = self.count_rank(rank);
            let mut k: u64 = 0;
            while k < count
                invariant
                    k <= count,
                    text@ == self.text(i as nat) + self.entries_text(rank, k as nat),
                decreases count - k,
            {
                text.append("[");
                text.append(if self.is_in_flush(rank) { "f" } else { "" });
                text.append(rank.symbol());
                text.append("] ");
                assert(text@ =~= self.text(i as nat) + self.entries_text(rank, (k + 1) as nat));
                k = k + 1;
            }
            i = i + 1;
        }
        text
    }
}

} // verus!
