//! A deck of 52 cards with a generator of its own to shuffle it.

use vstd::prelude::*;
use vstd::slice::slice_subrange;
use crate::cards::card::{Card, Rank, Suit, RANKS, SUITS};
use crate::cards::xorshift::{scrambled, XorShift};

verus! {

/// The number of cards in a deck.
pub const DECK_SIZE: usize = 52;

/// A deck of cards.
#[derive(Debug, Copy, Clone)]
pub struct Deck {
    /// The cards, top first.
    pub cards: [Card; DECK_SIZE],
    rng: XorShift,
}

/// `cards` with the cards at `i` and `j` exchanged.
pub open spec fn swapped(cards: Seq<Card>, i: int, j: int) -> Seq<Card> {
    cards.update(i, cards[j]).update(j, cards[i])
}

/// The cards and the generator's state after the first `remaining` cards
/// have been shuffled: from the last of them down to the first, each is
/// exchanged with a card at or before its place, picked by the generator's
/// next number modulo the places to pick from.
pub open spec fn shuffled(cards: Seq<Card>, state: usize, remaining: int) -> (Seq<Card>, usize)
    decreases remaining,
{
    if remaining <= 0 {
        (cards, state)
    } else {
        let number = scrambled(state);
        shuffled(swapped(cards, remaining - 1, number as int % remaining), number, remaining - 1)
    }
}

/// Exchanging two cards keeps the cards.
pub proof fn lemma_swapped_keeps_cards(cards: Seq<Card>, i: int, j: int)
    requires
        0 <= i < cards.len(),
        0 <= j < cards.len(),
    ensures
        swapped(cards, i, j).len() == cards.len(),
        swapped(cards, i, j).to_multiset() == cards.to_multiset(),
{
    broadcast use vstd::seq_lib::group_to_multiset_ensures;
    broadcast use vstd::multiset::group_multiset_axioms;

    assert forall|card: Card|
        swapped(cards, i, j).to_multiset().count(card) == cards.to_multiset().count(card) by {}
}

/// Shuffling keeps the cards, whatever the generator gives.
pub proof fn lemma_shuffled_keeps_cards(cards: Seq<Card>, state: usize, remaining: int)
    requires
        0 <= remaining <= cards.len(),
    ensures
        shuffled(cards, state, remaining).0.len() == cards.len(),
        shuffled(cards, state, remaining).0.to_multiset() == cards.to_multiset(),
    decreases remaining,
{
    if remaining > 0 {
        let number = scrambled(state);
        let pick = number as int % remaining;
        lemma_swapped_keeps_cards(cards, remaining - 1, pick);
        lemma_shuffled_keeps_cards(swapped(cards, remaining - 1, pick), number, remaining - 1);
    }
}

impl View for Deck {
    type V = Seq<Card>;

    /// The cards of the deck, top first.
    closed spec fn view(&self) -> Seq<Card> {
        self.cards@
    }
}

impl Deck {
    /// The state of the deck's generator.
    pub closed spec fn generator(&self) -> usize {
        self.rng@
    }

    /// A deck holds `DECK_SIZE` cards.
    pub proof fn lemma_size(self)
        ensures
            self@.len() == DECK_SIZE,
    {
    }

    /// A deck of these cards with a generator seeded from the system clock.
    pub fn new(cards: [Card; DECK_SIZE]) -> (deck: Self)
        ensures
            deck@ == cards@,
    {
        Self::with_generator(cards, XorShift::new())
    }

    /// A deck of these cards with this generator.
    pub fn with_generator(cards: [Card; DECK_SIZE], generator: XorShift) -> (deck: Self)
        ensures
            deck@ == cards@,
            deck.generator() == generator@,
    {
        Self { cards, rng: generator }
    }

    /// The full deck in its first order: the ranks from ace to king, and
    /// within each rank the suits in their order.
    pub fn full() -> (deck: Self)
        ensures
            forall|i: int|
                0 <= i < DECK_SIZE ==> {
                    &&& (#[trigger] deck@[i]).rank.index() == i / (SUITS as int)
                    &&& deck@[i].suit.index() == i % (SUITS as int)
                },
    {
        let ranks: [Rank; RANKS] = Rank::all();
        let suits: [Suit; SUITS] = Suit::all();
        let mut cards: [Card; DECK_SIZE] = [Card::new(Rank::Ace, Suit::Spades);DECK_SIZE];
        let mut i: usize = 0;
        while i < DECK_SIZE
            invariant
                i <= DECK_SIZE,
                forall|k: int| 0 <= k < RANKS ==> (#[trigger] ranks@[k]).index() == k,
                forall|k: int| 0 <= k < SUITS ==> (#[trigger] suits@[k]).index() == k,
                forall|k: int|
                    0 <= k < i ==> {
                        &&& (#[trigger] cards@[k]).rank.index() == k / (SUITS as int)
                        &&& cards@[k].suit.index() == k % (SUITS as int)
                    },
            decreases DECK_SIZE - i,
        {
            cards[i] = Card::new(ranks[i / SUITS], suits[i % SUITS]);
            i += 1;
        }
        Self::new(cards)
    }

    /// Shuffles the deck with its generator.
    ///
    /// The deck holds the same cards afterwards.
    pub fn shuffle(&mut self)
        ensures
            (final(self)@, final(self).generator()) == shuffled(
                old(self)@,
                old(self).generator(),
                DECK_SIZE as int,
            ),
            final(self)@.to_multiset() == old(self)@.to_multiset(),
    {
        let mut i: usize = DECK_SIZE;
        while i > 0
            invariant
                i <= DECK_SIZE,
                shuffled(self.cards@, self.rng@, i as int) == shuffled(
                    old(self).cards@,
                    old(self).rng@,
                    DECK_SIZE as int,
                ),
            decreases i,
        {
            i -= 1;
            let random_index: usize = self.rng.gen_range(0, i + 1);
            let upper = self.cards[i];
            let lower = self.cards[random_index];
            self.cards[i] = lower;
            self.cards[random_index] = upper;
        }
        proof {
            lemma_shuffled_keeps_cards(old(self).cards@, old(self).rng@, DECK_SIZE as int);
        }
    }

    /// The first `n` cards of the deck, for `n` from 0 to 51.
    pub fn peek(&self, n: usize) -> (result: Result<&[Card], &'static str>)
        ensures
            result is Ok <==> n < DECK_SIZE,
            match result {
                Ok(cards) => cards@ == self@.take(n as int),
                Err(message) => message@ == "n must lie in [0, {51}]"@,
            },
    {
        if n >= DECK_SIZE {
            return Err("n must lie in [0, {51}]");
        }
        Ok(slice_subrange(self.cards.as_slice(), 0, n))
    }

    /// The deck as text: its cards, separated by a comma and a blank,
    /// between square brackets.
    pub fn to_text(&self) -> (text: String)
        ensures
            text@ == listed(self@),
    {
        list_cards(self.cards.as_slice())
    }
}

/// The texts of `cards`, each but the first with a comma and a blank before
/// it.
pub open spec fn joined(cards: Seq<Card>) -> Seq<char>
    decreases cards.len(),
{
    if cards.len() == 0 {
        Seq::empty()
    } else if cards.len() == 1 {
        cards[0].written()
    } else {
        joined(cards.drop_last()) + ", "@ + cards.last().written()
    }
}

/// `cards` as text: separated by a comma and a blank, between square
/// brackets.
pub open spec fn listed(cards: Seq<Card>) -> Seq<char> {
    "["@ + joined(cards) + "]"@
}

/// Writes `cards` as text: separated by a comma and a blank, between square
/// brackets.
pub fn list_cards(cards: &[Card]) -> (text: String)
    ensures
        text@ == listed(cards@),
{
    let mut text = String::from_str("[");
    let mut i: usize = 0;
    while i < cards.len()
        invariant
            i <= cards.len(),
            text@ == "["@ + joined(cards@.take(i as int)),
        decreases cards.len() - i,
    {
        proof {
            assert(cards@.take(i + 1).drop_last() =~= cards@.take(i as int));
        }
        if i > 0 {
            text.append(", ");
        }
        let card = cards[i].to_text();
        text.append(card.as_str());
        i += 1;
    }
    assert(cards@.take(i as int) =~= cards@);
    text.append("]");
    text
}

} // verus!
