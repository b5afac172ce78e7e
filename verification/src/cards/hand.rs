//! Hands of five cards and their poker category.

use vstd::prelude::*;
use crate::cards::card::{Card, Rank, Suit, RANKS};
use crate::cards::deck::{list_cards, listed, Deck};

verus! {

/// The number of cards in a hand.
pub const HAND_SIZE: usize = 5;

/// The number of categories.
pub const CATEGORIES: usize = 10;

/// The category of a poker hand, best first.
#[derive(Debug, Copy, Clone, PartialEq, Eq, Structural)]
pub enum Category {
    RoyalFlush,
    StraightFlush,
    FourOfAKind,
    FullHouse,
    Flush,
    Straight,
    ThreeOfAKind,
    TwoPairs,
    OnePair,
    HighCard,
}

impl Category {
    /// The place of the category in the order of categories, from 0 for the
    /// royal flush to 9 for the high card.
    pub open spec fn index(self) -> int {
        match self {
            Self::RoyalFlush => 0,
            Self::StraightFlush => 1,
            Self::FourOfAKind => 2,
            Self::FullHouse => 3,
            Self::Flush => 4,
            Self::Straight => 5,
            Self::ThreeOfAKind => 6,
            Self::TwoPairs => 7,
            Self::OnePair => 8,
            Self::HighCard => 9,
        }
    }

    /// All categories, best first.
    pub fn all() -> (categories: [Category; CATEGORIES])
        ensures
            forall|i: int| 0 <= i < CATEGORIES ==> (#[trigger] categories@[i]).index() == i,
    {
        [
            Category::RoyalFlush,
            Category::StraightFlush,
            Category::FourOfAKind,
            Category::FullHouse,
            Category::Flush,
            Category::Straight,
            Category::ThreeOfAKind,
            Category::TwoPairs,
            Category::OnePair,
            Category::HighCard,
        ]
    }

    /// The place of the category in the order of categories, from 0 for the
    /// royal flush to 9 for the high card.
    pub fn ordinal(&self) -> (place: usize)
        ensures
            place == self.index(),
            place < CATEGORIES,
    {
        match self {
            Self::RoyalFlush => 0,
            Self::StraightFlush => 1,
            Self::FourOfAKind => 2,
            Self::FullHouse => 3,
            Self::Flush => 4,
            Self::Straight => 5,
            Self::ThreeOfAKind => 6,
            Self::TwoPairs => 7,
            Self::OnePair => 8,
            Self::HighCard => 9,
        }
    }

    /// The name of the category.
    pub open spec fn written(self) -> Seq<char> {
        match self {
            Self::RoyalFlush => "royal flush"@,
            Self::StraightFlush => "straight flush"@,
            Self::FourOfAKind => "four of a kind"@,
            Self::FullHouse => "full house"@,
            Self::Flush => "flush"@,
            Self::Straight => "straight"@,
            Self::ThreeOfAKind => "three of a kind"@,
            Self::TwoPairs => "two pairs"@,
            Self::OnePair => "one pair"@,
            Self::HighCard => "high card"@,
        }
    }

    /// The name of the category.
    pub fn name(&self) -> (text: &'static str)
        ensures
            text@ == self.written(),
    {
        match self {
            Self::RoyalFlush => "royal flush",
            Self::StraightFlush => "straight flush",
            Self::FourOfAKind => "four of a kind",
            Self::FullHouse => "full house",
            Self::Flush => "flush",
            Self::Straight => "straight",
            Self::ThreeOfAKind => "three of a kind",
            Self::TwoPairs => "two pairs",
            Self::OnePair => "one pair",
            Self::HighCard => "high card",
        }
    }
}

/// How many of `cards` have the rank with index `rank`.
pub open spec fn count_of(cards: Seq<Card>, rank: int) -> nat
    decreases cards.len(),
{
    if cards.len() == 0 {
        0
    } else if cards.last().rank.index() == rank {
        count_of(cards.drop_last(), rank) + 1
    } else {
        count_of(cards.drop_last(), rank)
    }
}

/// Some rank occurs exactly `count` times among `cards`.
pub open spec fn has_count(cards: Seq<Card>, count: nat) -> bool {
    exists|rank: int| 0 <= rank < RANKS && #[trigger] count_of(cards, rank) == count
}

/// How many of the ranks with an index below `bound` occur exactly twice
/// among `cards`.
pub open spec fn pairs_below(cards: Seq<Card>, bound: int) -> nat
    decreases bound,
{
    if bound <= 0 {
        0
    } else if count_of(cards, bound - 1) == 2 {
        pairs_below(cards, bound - 1) + 1
    } else {
        pairs_below(cards, bound - 1)
    }
}

/// All of `cards` are of one suit.
pub open spec fn is_flush(cards: Seq<Card>) -> bool {
    forall|i: int| 0 <= i < cards.len() ==> (#[trigger] cards[i]).suit == cards[0].suit
}

/// Each of the five ranks from index `low` on occurs exactly once among
/// `cards`.
pub open spec fn is_sequence_from(cards: Seq<Card>, low: int) -> bool {
    forall|rank: int| low <= rank < low + 5 ==> #[trigger] count_of(cards, rank) == 1
}

/// Ace, ten, jack, queen and king each occur exactly once among `cards`.
pub open spec fn is_ace_high_sequence(cards: Seq<Card>) -> bool {
    count_of(cards, 0) == 1 && forall|rank: int|
        9 <= rank < 13 ==> #[trigger] count_of(cards, rank) == 1
}

/// The ranks of `cards` are five in a row, the ace counting low, or they
/// are ten to king with the ace.
pub open spec fn is_straight(cards: Seq<Card>) -> bool {
    (exists|low: int| 0 <= low <= 8 && #[trigger] is_sequence_from(cards, low))
        || is_ace_high_sequence(cards)
}

/// The category of a hand of `cards`.
///
/// A rank that occurs twice decides first: with a rank that occurs three
/// times it is a full house, with a second pair two pairs, else one pair.
/// Then come four of a kind and three of a kind. Only then a straight is
/// looked for, which with a flush is a straight flush, and a royal flush
/// where ace and king are both in it; then a flush; and what is left is a
/// high card.
pub open spec fn category_of(cards: Seq<Card>) -> Category {
    if has_count(cards, 2) {
        if has_count(cards, 3) {
            Category::FullHouse
        } else if pairs_below(cards, RANKS as int) == 2 {
            Category::TwoPairs
        } else {
            Category::OnePair
        }
    } else if has_count(cards, 4) {
        Category::FourOfAKind
    } else if has_count(cards, 3) {
        Category::ThreeOfAKind
    } else if is_straight(cards) {
        if is_flush(cards) {
            if count_of(cards, 0) == 1 && count_of(cards, 12) == 1 {
                Category::RoyalFlush
            } else {
                Category::StraightFlush
            }
        } else {
            Category::Straight
        }
    } else if is_flush(cards) {
        Category::Flush
    } else {
        Category::HighCard
    }
}

/// A hand of five cards.
#[derive(Debug, Copy, Clone)]
pub struct Hand {
    cards: [Card; HAND_SIZE],
}

impl View for Hand {
    type V = Seq<Card>;

    /// The cards of the hand, in the order in which they were given.
    closed spec fn view(&self) -> Seq<Card> {
        self.cards@
    }
}

/// Whether some rank has exactly `count` in `talley`.
fn talley_contains(talley: &[usize; RANKS], count: usize) -> (found: bool)
    ensures
        found <==> exists|rank: int| 0 <= rank < RANKS && #[trigger] talley@[rank] == count,
{
    let mut rank: usize = 0;
    while rank < RANKS
        invariant
            rank <= RANKS,
            forall|below: int| 0 <= below < rank ==> #[trigger] talley@[below] != count,
        decreases RANKS - rank,
    {
        if talley[rank] == count {
            return true;
        }
        rank += 1;
    }
    false
}

impl Hand {
    /// A hand holds `HAND_SIZE` cards.
    pub proof fn lemma_size(self)
        ensures
            self@.len() == HAND_SIZE,
    {
    }

    /// The hand of these cards.
    pub fn new(cards: [Card; HAND_SIZE]) -> (hand: Self)
        ensures
            hand@ == cards@,
    {
        Self { cards }
    }

    /// The hand of the first five cards of `deck`.
    pub fn from_deck(deck: &Deck) -> (hand: Self)
        ensures
            hand@ == deck@.take(HAND_SIZE as int),
    {
        proof {
            deck.lemma_size();
        }
        match deck.peek(HAND_SIZE) {
            Ok(top) => Self::new([top[0], top[1], top[2], top[3], top[4]]),
            Err(_) => {
                assert(false);
                Self::new([Card::new(Rank::Ace, Suit::Spades);HAND_SIZE])
            },
        }
    }

    /// How often each rank occurs in the hand.
    fn talley(&self) -> (talley: [usize; RANKS])
        ensures
            forall|rank: int| 0 <= rank < RANKS ==> #[trigger] talley@[rank] == count_of(self@, rank),
    {
        let mut talley: [usize; RANKS] = [0;RANKS];
        let mut i: usize = 0;
        while i < HAND_SIZE
            invariant
                i <= HAND_SIZE,
                forall|rank: int|
                    0 <= rank < RANKS ==> #[trigger] talley@[rank] == count_of(
                        self.cards@.take(i as int),
                        rank,
                    ),
                forall|rank: int| 0 <= rank < RANKS ==> #[trigger] talley@[rank] <= i,
            decreases HAND_SIZE - i,
        {
            proof {
                assert(self.cards@.take(i + 1).drop_last() =~= self.cards@.take(i as int));
            }
            let place = self.cards[i].rank.ordinal();
            talley[place] = talley[place] + 1;
            i += 1;
        }
        proof {
            assert(self.cards@.take(HAND_SIZE as int) =~= self.cards@);
        }
        talley
    }

    /// Whether the hand is a straight.
    fn is_straigt(&self) -> (straight: bool)
        ensures
            straight == is_straight(self@),
    {
        let talley = self.talley();
        let mut low: usize = 0;
        while low <= 8
            invariant
                low <= 9,
                forall|rank: int|
                    0 <= rank < RANKS ==> #[trigger] talley@[rank] == count_of(self@, rank),
                forall|below: int| 0 <= below < low ==> !#[trigger] is_sequence_from(self@, below),
            decreases 9 - low,
        {
            if talley[low] == 1 && talley[low + 1] == 1 && talley[low + 2] == 1 && talley[low + 3]
                == 1 && talley[low + 4] == 1 {
                assert(is_sequence_from(self@, low as int));
                return true;
            }
            low += 1;
        }
        let ace_high = talley[0] == 1 && talley[9] == 1 && talley[10] == 1 && talley[11] == 1
            && talley[12] == 1;
        ace_high
    }

    /// Whether all cards of the hand are of one suit.
    fn is_flush(&self) -> (flush: bool)
        ensures
            flush == is_flush(self@),
    {
        let mut i: usize = 1;
        while i < HAND_SIZE
            invariant
                1 <= i <= HAND_SIZE,
                forall|k: int| 0 <= k < i ==> (#[trigger] self.cards@[k]).suit == self.cards@[0].suit,
            decreases HAND_SIZE - i,
        {
            if self.cards[i].suit != self.cards[0].suit {
                return false;
            }
            i += 1;
        }
        true
    }

    /// The category of the hand.
    pub fn category(&self) -> (category: Category)
        ensures
            category == category_of(self@),
    {
        let talley: [usize; RANKS] = self.talley();
        let is_flush: bool = self.is_flush();
        proof {
            assert forall|count: nat|
                has_count(self@, count) <==> exists|rank: int|
                    0 <= rank < RANKS && #[trigger] talley@[rank] == count by {
                if has_count(self@, count) {
                    let rank = choose|rank: int|
                        0 <= rank < RANKS && #[trigger] count_of(self@, rank) == count;
                    assert(talley@[rank] == count);
                }
            }
        }
        if talley_contains(&talley, 2) {
            if talley_contains(&talley, 3) {
                return Category::FullHouse;
            }
            let mut pairs: usize = 0;
            let mut rank: usize = 0;
            while rank < RANKS
                invariant
                    rank <= RANKS,
                    pairs == pairs_below(self@, rank as int),
                    pairs <= rank,
                    forall|any: int|
                        0 <= any < RANKS ==> #[trigger] talley@[any] == count_of(self@, any),
                decreases RANKS - rank,
            {
                if talley[rank] == 2 {
                    pairs += 1;
                }
                rank += 1;
            }
            if pairs == 2 {
                return Category::TwoPairs;
            }
            return Category::OnePair;
        }
        if talley_contains(&talley, 4) {
            return Category::FourOfAKind;
        }
        if talley_contains(&talley, 3) {
            return Category::ThreeOfAKind;
        }
        if self.is_straigt() {
            if is_flush {
                if talley[0] == 1 && talley[12] == 1 {
                    return Category::RoyalFlush;
                }
                return Category::StraightFlush;
            }
            return Category::Straight;
        }
        if is_flush {
            return Category::Flush;
        }
        Category::HighCard
    }

    /// The hand as text: its cards, separated by a comma and a blank,
    /// between square brackets.
    pub fn to_text(&self) -> (text: String)
        ensures
            text@ == listed(self@),
    {
        list_cards(self.cards.as_slice())
    }
}

} // verus!
