//! Playing cards: ranks, suits, the 52-card deck and the dense indices of each.

use vstd::prelude::*;
use vstd::std_specs::convert::FromSpecImpl;
use vstd::std_specs::convert::TryFromSpecImpl;

verus! {

/// The thirteen ranks, weakest first.
#[derive(Debug, PartialEq, Eq, Structural, PartialOrd, Ord, Clone, Copy)]
pub enum Rank {
    Two,
    Three,
    Four,
    Five,
    Six,
    Seven,
    Eight,
    Nine,
    Ten,
    Jack,
    Queen,
    King,
    Ace,
}

/// The four suits.
#[derive(Debug, PartialEq, Eq, Structural, PartialOrd, Ord, Clone, Copy)]
pub enum Suit {
    Hearts,
    Diamonds,
    Clubs,
    Spades,
}

/// A playing card.
#[derive(Debug, PartialEq, Eq, Structural, PartialOrd, Ord, Clone, Copy)]
pub struct Card {
    pub rank: Rank,
    pub suit: Suit,
}

impl Rank {
    /// The ranks in the order of their indices.
    pub const ALL_RANKS: [Rank; 13] = [
        Rank::Two,
        Rank::Three,
        Rank::Four,
        Rank::Five,
        Rank::Six,
        Rank::Seven,
        Rank::Eight,
        Rank::Nine,
        Rank::Ten,
        Rank::Jack,
        Rank::Queen,
        Rank::King,
        Rank::Ace,
    ];

    /// The dense index of a rank: `Two` is 0, `Ace` is 12.
    pub open spec fn index(self) -> nat {
        match self {
            Rank::Two => 0,
            Rank::Three => 1,
            Rank::Four => 2,
            Rank::Five => 3,
            Rank::Six => 4,
            Rank::Seven => 5,
            Rank::Eight => 6,
            Rank::Nine => 7,
            Rank::Ten => 8,
            Rank::Jack => 9,
            Rank::Queen => 10,
            Rank::King => 11,
            Rank::Ace => 12,
        }
    }

    /// What decoding `value` gives: the rank with that index, or a failure past 12.
    pub open spec fn decode(value: usize) -> Result<Rank, &'static str> {
        if value < 13 {
            Ok(Rank::at(value as nat))
        } else {
            Err("Invalid rank value")
        }
    }

    /// The rank with the given index; `Ace` stands in for every index past 12.
    pub open spec fn at(i: nat) -> Rank {
        if i == 0 {
            Rank::Two
        } else if i == 1 {
            Rank::Three
        } else if i == 2 {
            Rank::Four
        } else if i == 3 {
            Rank::Five
        } else if i == 4 {
            Rank::Six
        } else if i == 5 {
            Rank::Seven
        } else if i == 6 {
            Rank::Eight
        } else if i == 7 {
            Rank::Nine
        } else if i == 8 {
            Rank::Ten
        } else if i == 9 {
            Rank::Jack
        } else if i == 10 {
            Rank::Queen
        } else if i == 11 {
            Rank::King
        } else {
            Rank::Ace
        }
    }
}

impl From<Rank> for usize {
    fn from(rank: Rank) -> (index: usize) {
        match rank {
            Rank::Two => 0,
            Rank::Three => 1,
            Rank::Four => 2,
            Rank::Five => 3,
            Rank::Six => 4,
            Rank::Seven => 5,
            Rank::Eight => 6,
            Rank::Nine => 7,
            Rank::Ten => 8,
            Rank::Jack => 9,
            Rank::Queen => 10,
            Rank::King => 11,
            Rank::Ace => 12,
        }
    }
}

impl FromSpecImpl<Rank> for usize {
    open spec fn obeys_from_spec() -> bool {
        true
    }

    open spec fn from_spec(rank: Rank) -> usize {
        rank.index() as usize
    }
}

impl TryFrom<usize> for Rank {
    type Error = &'static str;

    fn try_from(value: usize) -> (decoded: Result<Self, Self::Error>) {
        match value {
            0 => Ok(Rank::Two),
            1 => Ok(Rank::Three),
            2 => Ok(Rank::Four),
            3 => Ok(Rank::Five),
            4 => Ok(Rank::Six),
            5 => Ok(Rank::Seven),
            6 => Ok(Rank::Eight),
            7 => Ok(Rank::Nine),
            8 => Ok(Rank::Ten),
            9 => Ok(Rank::Jack),
            10 => Ok(Rank::Queen),
            11 => Ok(Rank::King),
            12 => Ok(Rank::Ace),
            _ => Err("Invalid rank value"),
        }
    }
}

impl TryFromSpecImpl<usize> for Rank {
    open spec fn obeys_try_from_spec() -> bool {
        true
    }

    open spec fn try_from_spec(value: usize) -> Result<Self, Self::Error> {
        Rank::decode(value)
    }
}

impl Suit {
    /// The suits in the order of their indices.
    pub const ALL_SUITS: [Suit; 4] = [Suit::Hearts, Suit::Diamonds, Suit::Clubs, Suit::Spades];

    /// The dense index of a suit: `Hearts` is 0, `Spades` is 3.
    pub open spec fn index(self) -> nat {
        match self {
            Suit::Hearts => 0,
            Suit::Diamonds => 1,
            Suit::Clubs => 2,
            Suit::Spades => 3,
        }
    }

    /// What decoding `value` gives: the suit with that index, or a failure past 3.
    pub open spec fn decode(value: usize) -> Result<Suit, &'static str> {
        if value < 4 {
            Ok(Suit::at(value as nat))
        } else {
            Err("Invalid suit value")
        }
    }

    /// The suit with the given index; `Spades` stands in for every index past 3.
    pub open spec fn at(i: nat) -> Suit {
        if i == 0 {
            Suit::Hearts
        } else if i == 1 {
            Suit::Diamonds
        } else if i == 2 {
            Suit::Clubs
        } else {
            Suit::Spades
        }
    }
}

impl From<Suit> for usize {
    fn from(suit: Suit) -> (index: usize) {
        match suit {
            Suit::Hearts => 0,
            Suit::Diamonds => 1,
            Suit::Clubs => 2,
            Suit::Spades => 3,
        }
    }
}

impl FromSpecImpl<Suit> for usize {
    open spec fn obeys_from_spec() -> bool {
        true
    }

    open spec fn from_spec(suit: Suit) -> usize {
        suit.index() as usize
    }
}

impl TryFrom<usize> for Suit {
    type Error = &'static str;

    fn try_from(value: usize) -> (decoded: Result<Self, Self::Error>) {
        match value {
            0 => Ok(Suit::Hearts),
            1 => Ok(Suit::Diamonds),
            2 => Ok(Suit::Clubs),
            3 => Ok(Suit::Spades),
            _ => Err("Invalid suit value"),
        }
    }
}

impl TryFromSpecImpl<usize> for Suit {
    open spec fn obeys_try_from_spec() -> bool {
        true
    }

    open spec fn try_from_spec(value: usize) -> Result<Self, Self::Error> {
        Suit::decode(value)
    }
}

impl Card {
    /// The dense index of a card: rank-major, suit-minor, in `0..52`.
    pub open spec fn index(self) -> nat {
        self.rank.index() * 4 + self.suit.index()
    }

    /// What decoding `value` gives: the card with that index, or a failure past 51.
    pub open spec fn decode(value: usize) -> Result<Card, &'static str> {
        if value < 52 {
            Ok(Card::at(value as nat))
        } else {
            Err("Invalid card value")
        }
    }

    /// The card with the given index.
    pub open spec fn at(i: nat) -> Card {
        Card { rank: Rank::at(i / 4), suit: Suit::at(i % 4) }
    }

    /// The full deck in index order: every card once, ordered by rank, then suit.
    pub open spec fn deck() -> Seq<Card> {
        Seq::new(52, |i: int| Card::at(i as nat))
    }

    /// The card of the given rank and suit.
    pub fn new(rank: Rank, suit: Suit) -> (card: Card)
        ensures
            card == (Card { rank, suit }),
    {
        Card { rank, suit }
    }

    /// Deck of cards, ordered by rank then suit.
    pub fn get_deck() -> (cards: Vec<Card>)
        ensures
            cards@ == Card::deck(),
    {
        let mut cards: Vec<Card> = Vec::new();
        for i in 0..52usize
            invariant
                cards@ == Card::deck().take(i as int),
        {
            match Card::try_from(i) {
                Ok(card) => {
                    cards.push(card);
                    assert(cards@ == Card::deck().take(i + 1));
                },
                Err(_) => {},
            }
        }
        cards
    }
}

impl From<Card> for usize {
    fn from(card: Card) -> (index: usize) {
        (usize::from(card.rank) * 4) + usize::from(card.suit)
    }
}

impl FromSpecImpl<Card> for usize {
    open spec fn obeys_from_spec() -> bool {
        true
    }

    open spec fn from_spec(card: Card) -> usize {
        card.index() as usize
    }
}

impl TryFrom<usize> for Card {
    type Error = &'static str;

    fn try_from(value: usize) -> (decoded: Result<Self, Self::Error>) {
        if value > 51 {
            return Err("Invalid card value");
        }
        let rank = match Rank::try_from(value / 4) {
            Ok(rank) => rank,
            Err(e) => {
                return Err(e);
            },
        };
        let suit = match Suit::try_from(value % 4) {
            Ok(suit) => suit,
            Err(e) => {
                return Err(e);
            },
        };
        Ok(Card { rank, suit })
    }
}

impl TryFromSpecImpl<usize> for Card {
    open spec fn obeys_try_from_spec() -> bool {
        true
    }

    open spec fn try_from_spec(value: usize) -> Result<Self, Self::Error> {
        Card::decode(value)
    }
}

/// Decoding a rank index and encoding the rank again gives the index back, encoding a
/// rank and decoding its index gives the rank back, and an index past 12 is rejected.
pub proof fn lemma_rank_index_round_trip(value: usize, rank: Rank)
    ensures
        value < 13 ==> Rank::decode(value) is Ok && Rank::decode(value)->Ok_0.index() == value,
        value >= 13 ==> Rank::decode(value) is Err,
        rank.index() < 13,
        Rank::decode(rank.index() as usize) == Ok::<Rank, &'static str>(rank),
{
}

/// Decoding a suit index and encoding the suit again gives the index back, encoding a
/// suit and decoding its index gives the suit back, and an index past 3 is rejected.
pub proof fn lemma_suit_index_round_trip(value: usize, suit: Suit)
    ensures
        value < 4 ==> Suit::decode(value) is Ok && Suit::decode(value)->Ok_0.index() == value,
        value >= 4 ==> Suit::decode(value) is Err,
        suit.index() < 4,
        Suit::decode(suit.index() as usize) == Ok::<Suit, &'static str>(suit),
{
}

/// Decoding a card index and encoding the card again gives the index back, encoding a
/// card and decoding its index gives the card back, and an index past 51 is rejected.
pub proof fn lemma_card_index_round_trip(value: usize, card: Card)
    ensures
        value < 52 ==> Card::decode(value) is Ok && Card::decode(value)->Ok_0.index() == value,
        value >= 52 ==> Card::decode(value) is Err,
        card.index() < 52,
        Card::decode(card.index() as usize) == Ok::<Card, &'static str>(card),
{
}

/// Every card sits in the deck at its own index, so the deck holds each card once.
pub proof fn lemma_deck_complete(card: Card)
    ensures
        card.index() < 52,
        Card::deck()[card.index() as int] == card,
        Card::deck().len() == 52,
        Card::deck().no_duplicates(),
{
    assert forall|i: int, j: int|
        0 <= i < 52 && 0 <= j < 52 && i != j implies Card::deck()[i] != Card::deck()[j] by {
        assert(Card::deck()[i].index() == i);
        assert(Card::deck()[j].index() == j);
    }
}

} // verus!
