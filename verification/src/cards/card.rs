//! Ranks, suits and cards.

use vstd::prelude::*;

verus! {

/// The number of ranks.
pub const RANKS: usize = 13;

/// The number of suits.
pub const SUITS: usize = 4;

/// The rank of a card, ace low.
#[derive(Debug, Copy, Clone, PartialEq, Eq, Structural, PartialOrd, Ord)]
pub enum Rank {
    Ace,
    Two,
    Three,
    Four,
    Five,
    Six,
    Seven,
    Eight,
    Nine,
    Ten,
    Jack,
    Queen,
    King,
}

impl Rank {
    /// The place of the rank in the order of ranks, from 0 for the ace to 12
    /// for the king.
    pub open spec fn index(self) -> int {
        match self {
            Rank::Ace => 0,
            Rank::Two => 1,
            Rank::Three => 2,
            Rank::Four => 3,
            Rank::Five => 4,
            Rank::Six => 5,
            Rank::Seven => 6,
            Rank::Eight => 7,
            Rank::Nine => 8,
            Rank::Ten => 9,
            Rank::Jack => 10,
            Rank::Queen => 11,
            Rank::King => 12,
        }
    }

    /// All ranks, in order.
    pub fn all() -> (ranks: [Rank; RANKS])
        ensures
            forall|i: int| 0 <= i < RANKS ==> (#[trigger] ranks@[i]).index() == i,
    {
        [
            Rank::Ace,
            Rank::Two,
            Rank::Three,
            Rank::Four,
            Rank::Five,
            Rank::Six,
            Rank::Seven,
            Rank::Eight,
            Rank::Nine,
            Rank::Ten,
            Rank::Jack,
            Rank::Queen,
            Rank::King,
        ]
    }

    /// The place of the rank in the order of ranks, from 0 for the ace to 12
    /// for the king.
    pub fn ordinal(&self) -> (place: usize)
        ensures
            place == self.index(),
            place < RANKS,
    {
        match self {
            Rank::Ace => 0,
            Rank::Two => 1,
            Rank::Three => 2,
            Rank::Four => 3,
            Rank::Five => 4,
            Rank::Six => 5,
            Rank::Seven => 6,
            Rank::Eight => 7,
            Rank::Nine => 8,
            Rank::Ten => 9,
            Rank::Jack => 10,
            Rank::Queen => 11,
            Rank::King => 12,
        }
    }

    /// The rank as it is written on a card.
    pub fn symbol(&self) -> (text: &'static str)
        ensures
            text@ == self.written(),
    {
        match self {
            Rank::Ace => "A",
            Rank::Two => "2",
            Rank::Three => "3",
            Rank::Four => "4",
            Rank::Five => "5",
            Rank::Six => "6",
            Rank::Seven => "7",
            Rank::Eight => "8",
            Rank::Nine => "9",
            Rank::Ten => "10",
            Rank::Jack => "J",
            Rank::Queen => "Q",
            Rank::King => "K",
        }
    }

    /// The rank as it is written on a card.
    pub open spec fn written(self) -> Seq<char> {
        match self {
            Rank::Ace => "A"@,
            Rank::Two => "2"@,
            Rank::Three => "3"@,
            Rank::Four => "4"@,
            Rank::Five => "5"@,
            Rank::Six => "6"@,
            Rank::Seven => "7"@,
            Rank::Eight => "8"@,
            Rank::Nine => "9"@,
            Rank::Ten => "10"@,
            Rank::Jack => "J"@,
            Rank::Queen => "Q"@,
            Rank::King => "K"@,
        }
    }
}

/// The suit of a card.
#[derive(Debug, Copy, Clone, PartialEq, Eq, Structural)]
pub enum Suit {
    Spades,
    Hearts,
    Diamonds,
    Clubs,
}

impl Suit {
    /// The place of the suit in the order of suits, from 0 for spades to 3
    /// for clubs.
    pub open spec fn index(self) -> int {
        match self {
            Suit::Spades => 0,
            Suit::Hearts => 1,
            Suit::Diamonds => 2,
            Suit::Clubs => 3,
        }
    }

    /// All suits, in order.
    pub fn all() -> (suits: [Suit; SUITS])
        ensures
            forall|i: int| 0 <= i < SUITS ==> (#[trigger] suits@[i]).index() == i,
    {
        [Suit::Spades, Suit::Hearts, Suit::Diamonds, Suit::Clubs]
    }

    /// The place of the suit in the order of suits, from 0 for spades to 3
    /// for clubs.
    pub fn ordinal(&self) -> (place: usize)
        ensures
            place == self.index(),
            place < SUITS,
    {
        match self {
            Suit::Spades => 0,
            Suit::Hearts => 1,
            Suit::Diamonds => 2,
            Suit::Clubs => 3,
        }
    }

    /// The suit as it is printed on a card.
    pub fn symbol(&self) -> (text: &'static str)
        ensures
            text@ == self.written(),
    {
        match self {
            Suit::Spades => "♠",
            Suit::Hearts => "♥",
            Suit::Diamonds => "♦",
            Suit::Clubs => "♣",
        }
    }

    /// The suit as it is printed on a card.
    pub open spec fn written(self) -> Seq<char> {
        match self {
            Suit::Spades => "♠"@,
            Suit::Hearts => "♥"@,
            Suit::Diamonds => "♦"@,
            Suit::Clubs => "♣"@,
        }
    }
}

/// A playing card.
#[derive(Debug, Copy, Clone, PartialEq, Eq, Structural)]
pub struct Card {
    /// The card's rank.
    pub rank: Rank,
    /// The card's suit.
    pub suit: Suit,
}

impl Card {
    /// The card of this rank and suit.
    pub fn new(rank: Rank, suit: Suit) -> (card: Self)
        ensures
            card == (Card { rank: rank, suit: suit }),
    {
        Self { rank, suit }
    }

    /// The card as text: its rank, then its suit.
    pub open spec fn written(self) -> Seq<char> {
        self.rank.written() + self.suit.written()
    }

    /// The card as text: its rank, then its suit.
    pub fn to_text(&self) -> (text: String)
        ensures
            text@ == self.written(),
    {
        let rank = String::from_str(self.rank.symbol());
        rank.concat(self.suit.symbol())
    }
}

} // verus!
