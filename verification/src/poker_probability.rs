//! How often each category of poker hand comes up when a deck is shuffled
//! and its top five cards are looked at, again and again.

use vstd::prelude::*;
use crate::cards::card::Card;
use crate::cards::deck::{shuffled, Deck, DECK_SIZE};
use crate::cards::hand::{category_of, Hand, CATEGORIES, HAND_SIZE};

verus! {

/// The cards and the generator's state after `rounds` shuffles.
pub open spec fn reshuffled(cards: Seq<Card>, state: usize, rounds: nat) -> (Seq<Card>, usize)
    decreases rounds,
{
    if rounds == 0 {
        (cards, state)
    } else {
        let before = reshuffled(cards, state, (rounds - 1) as nat);
        shuffled(before.0, before.1, DECK_SIZE as int)
    }
}

/// How often each category has come up in `rounds` rounds: in each the deck
/// is shuffled and the category of its top five cards is counted.
pub open spec fn registered(cards: Seq<Card>, state: usize, rounds: nat) -> Seq<int>
    decreases rounds,
{
    if rounds == 0 {
        Seq::new(CATEGORIES as nat, |i: int| 0int)
    } else {
        let before = registered(cards, state, (rounds - 1) as nat);
        let place = category_of(reshuffled(cards, state, rounds).0.take(HAND_SIZE as int)).index();
        before.update(place, before[place] + 1)
    }
}

/// The sum of the counts of all categories.
pub open spec fn total(counts: Seq<int>) -> int {
    counts[0] + counts[1] + counts[2] + counts[3] + counts[4] + counts[5] + counts[6] + counts[7]
        + counts[8] + counts[9]
}

/// Every round counts one category: the counts are none of them negative,
/// and they add up to the number of rounds.
pub proof fn lemma_registered_adds_up(cards: Seq<Card>, state: usize, rounds: nat)
    ensures
        registered(cards, state, rounds).len() == CATEGORIES,
        forall|i: int| 0 <= i < CATEGORIES ==> 0 <= #[trigger] registered(cards, state, rounds)[i],
        total(registered(cards, state, rounds)) == rounds,
    decreases rounds,
{
    if rounds > 0 {
        lemma_registered_adds_up(cards, state, (rounds - 1) as nat);
    }
}

/// Plays `n` rounds with `deck`: shuffles it, looks at its top five cards,
/// and counts their category.
pub fn register_with(deck: &mut Deck, n: usize) -> (result: [usize; CATEGORIES])
    ensures
        forall|i: int|
            0 <= i < CATEGORIES ==> #[trigger] result@[i] == registered(
                old(deck)@,
                old(deck).generator(),
                n as nat,
            )[i],
        (final(deck)@, final(deck).generator()) == reshuffled(
            old(deck)@,
            old(deck).generator(),
            n as nat,
        ),
{
    let mut result: [usize; CATEGORIES] = [0;CATEGORIES];
    let mut round: usize = 0;
    let ghost cards = deck@;
    let ghost state = deck.generator();
    while round < n
        invariant
            round <= n,
            (deck@, deck.generator()) == reshuffled(cards, state, round as nat),
            forall|i: int|
                0 <= i < CATEGORIES ==> #[trigger] result@[i] == registered(
                    cards,
                    state,
                    round as nat,
                )[i],
        decreases n - round,
    {
        proof {
            lemma_registered_adds_up(cards, state, round as nat);
            lemma_registered_adds_up(cards, state, (round + 1) as nat);
        }
        deck.shuffle();
        let hand: Hand = Hand::from_deck(deck);
        let place = hand.category().ordinal();
        result[place] = result[place] + 1;
        round += 1;
    }
    result
}

/// How `n` rounds are shared out among `workers` workers: each plays the
/// first number of rounds, and the second number of rounds is left over
/// for whoever shares out.
pub fn share_rounds(n: usize, workers: usize) -> (shares: (usize, usize))
    requires
        workers > 0,
    ensures
        shares.0 == n / workers,
        shares.1 == n % workers,
        shares.0 * workers + shares.1 == n,
{
    proof {
        vstd::arithmetic::div_mod::lemma_fundamental_div_mod(n as int, workers as int);
        vstd::arithmetic::mul::lemma_mul_is_commutative(workers as int, n as int / workers as int);
    }
    (n / workers, n % workers)
}

/// Adds the counts of `part` to the counts of `sum`, category by category.
pub fn add_counts(sum: [usize; CATEGORIES], part: [usize; CATEGORIES]) -> (result: [usize;
    CATEGORIES])
    requires
        forall|i: int| 0 <= i < CATEGORIES ==> sum@[i] + part@[i] <= usize::MAX,
    ensures
        forall|i: int| 0 <= i < CATEGORIES ==> #[trigger] result@[i] == sum@[i] + part@[i],
{
    let mut result: [usize; CATEGORIES] = sum;
    let mut i: usize = 0;
    while i < CATEGORIES
        invariant
            i <= CATEGORIES,
            forall|k: int| 0 <= k < CATEGORIES ==> sum@[k] + part@[k] <= usize::MAX,
            forall|k: int| 0 <= k < i ==> #[trigger] result@[k] == sum@[k] + part@[k],
            forall|k: int| i <= k < CATEGORIES ==> #[trigger] result@[k] == sum@[k],
        decreases CATEGORIES - i,
    {
        result[i] = result[i] + part[i];
        i += 1;
    }
    result
}

/// Plays `n` rounds with a full deck whose generator is seeded from the
/// system clock. Which categories come up depends on the seed; that they
/// are `n` in all does not.
pub fn register(n: usize) -> (result: [usize; CATEGORIES])
    ensures
        result@[0] + result@[1] + result@[2] + result@[3] + result@[4] + result@[5] + result@[6]
            + result@[7] + result@[8] + result@[9] == n,
{
    let mut deck: Deck = Deck::full();
    proof {
        lemma_registered_adds_up(deck@, deck.generator(), n as nat);
    }
    register_with(&mut deck, n)
}

} // verus!
