use brainfuck::cards::card::{Card, Rank, Suit, RANKS, SUITS};
use brainfuck::cards::deck::{list_cards, Deck, DECK_SIZE};
use brainfuck::cards::hand::{Category, Hand, CATEGORIES, HAND_SIZE};
use brainfuck::cards::xorshift::XorShift;
use brainfuck::poker_probability::{add_counts, register, register_with, share_rounds};

fn card(text: &str) -> Card {
    let (rank, suit) = text.split_at(text.len() - 1);
    let rank = match rank {
        "A" => Rank::Ace,
        "2" => Rank::Two,
        "3" => Rank::Three,
        "4" => Rank::Four,
        "5" => Rank::Five,
        "6" => Rank::Six,
        "7" => Rank::Seven,
        "8" => Rank::Eight,
        "9" => Rank::Nine,
        "10" => Rank::Ten,
        "J" => Rank::Jack,
        "Q" => Rank::Queen,
        "K" => Rank::King,
        _ => panic!("no such rank"),
    };
    let suit = match suit {
        "s" => Suit::Spades,
        "h" => Suit::Hearts,
        "d" => Suit::Diamonds,
        "c" => Suit::Clubs,
        _ => panic!("no such suit"),
    };
    Card::new(rank, suit)
}

fn category(cards: [&str; 5]) -> Category {
    Hand::new([
        card(cards[0]),
        card(cards[1]),
        card(cards[2]),
        card(cards[3]),
        card(cards[4]),
    ])
    .category()
}

fn sorted(cards: &[Card]) -> Vec<(usize, usize)> {
    let mut places: Vec<(usize, usize)> = cards
        .iter()
        .map(|card| (card.rank.ordinal(), card.suit.ordinal()))
        .collect();
    places.sort();
    places
}

#[test]
fn ranks_are_numbered_from_ace_to_king() {
    let ranks = Rank::all();
    assert_eq!(ranks.len(), 13);
    assert_eq!(RANKS, 13);
    for (place, rank) in ranks.iter().enumerate() {
        assert_eq!(rank.ordinal(), place);
    }
    assert_eq!(ranks[0], Rank::Ace);
    assert_eq!(ranks[9], Rank::Ten);
    assert_eq!(ranks[12], Rank::King);
    assert!(Rank::Ace < Rank::Two);
    assert!(Rank::Queen < Rank::King);
}

#[test]
fn ranks_are_written_as_on_a_card() {
    let written: Vec<&str> = Rank::all().iter().map(|rank| rank.symbol()).collect();
    assert_eq!(
        written,
        vec!["A", "2", "3", "4", "5", "6", "7", "8", "9", "10", "J", "Q", "K"]
    );
}

#[test]
fn suits_are_numbered_from_spades_to_clubs() {
    let suits = Suit::all();
    assert_eq!(SUITS, 4);
    assert_eq!(
        suits,
        [Suit::Spades, Suit::Hearts, Suit::Diamonds, Suit::Clubs]
    );
    for (place, suit) in suits.iter().enumerate() {
        assert_eq!(suit.ordinal(), place);
    }
    let written: Vec<&str> = suits.iter().map(|suit| suit.symbol()).collect();
    assert_eq!(written, vec!["♠", "♥", "♦", "♣"]);
}

#[test]
fn a_card_is_its_rank_and_suit() {
    let queen = Card::new(Rank::Queen, Suit::Hearts);
    assert_eq!(queen.rank, Rank::Queen);
    assert_eq!(queen.suit, Suit::Hearts);
    assert_eq!(queen.to_text(), "Q♥");
    assert_eq!(Card::new(Rank::Ten, Suit::Clubs).to_text(), "10♣");
    assert_ne!(queen, Card::new(Rank::Queen, Suit::Spades));
}

#[test]
fn the_generator_follows_its_three_shifts() {
    let mut generator = XorShift::from_seed(1);
    assert_eq!(generator.next(), 270369);
    let mut x: usize = 270369;
    x ^= x << 13;
    x ^= x >> 17;
    x ^= x << 5;
    assert_eq!(generator.next(), x);
    let mut stuck = XorShift::from_seed(0);
    assert_eq!(stuck.next(), 0);
    assert_eq!(stuck.next(), 0);
}

#[test]
fn numbers_in_a_range_are_the_state_reduced() {
    let mut generator = XorShift::from_seed(1);
    assert_eq!(generator.gen_range(0, 10), 9);
    let mut generator = XorShift::from_seed(1);
    assert_eq!(generator.gen_range(100, 107), 100 + 270369 % 7);
    let mut generator = XorShift::from_seed(1);
    assert_eq!(generator.gen_range(5, 6), 5);
    let mut generator = XorShift::from_seed(12345);
    for _ in 0..1000 {
        let number = generator.gen_range(3, 17);
        assert!(3 <= number && number < 17);
    }
}

#[test]
fn a_generator_seeded_by_the_clock_stays_in_range() {
    let mut generator = XorShift::new();
    for _ in 0..100 {
        assert!(generator.gen_range(0, 52) < 52);
    }
}

#[test]
fn the_full_deck_runs_through_the_ranks_suit_by_suit() {
    let deck = Deck::full();
    assert_eq!(DECK_SIZE, 52);
    assert_eq!(deck.cards.len(), 52);
    assert_eq!(deck.cards[0], card("As"));
    assert_eq!(deck.cards[1], card("Ah"));
    assert_eq!(deck.cards[3], card("Ac"));
    assert_eq!(deck.cards[4], card("2s"));
    assert_eq!(deck.cards[38], card("10d"));
    assert_eq!(deck.cards[51], card("Kc"));
    for (place, card) in deck.cards.iter().enumerate() {
        assert_eq!(card.rank.ordinal(), place / 4);
        assert_eq!(card.suit.ordinal(), place % 4);
    }
}

#[test]
fn a_new_deck_keeps_the_cards_it_is_given() {
    let mut cards = Deck::full().cards;
    cards.reverse();
    let deck = Deck::new(cards);
    assert_eq!(deck.cards, cards);
    assert_eq!(deck.cards[0], card("Kc"));
    let deck = Deck::with_generator(cards, XorShift::from_seed(3));
    assert_eq!(deck.cards, cards);
}

#[test]
fn shuffling_keeps_the_cards() {
    let mut deck = Deck::full();
    let before = sorted(&deck.cards);
    for _ in 0..20 {
        deck.shuffle();
        assert_eq!(sorted(&deck.cards), before);
    }
}

#[test]
fn shuffling_follows_the_generator() {
    let mut deck = Deck::with_generator(Deck::full().cards, XorShift::from_seed(2024));
    deck.shuffle();
    let mut expected = Deck::full().cards;
    let mut generator = XorShift::from_seed(2024);
    for i in (0..52).rev() {
        let j = generator.next() % (i + 1);
        expected.swap(i, j);
    }
    assert_eq!(deck.cards, expected);
    assert_ne!(deck.cards, Deck::full().cards);
    let mut again = Deck::with_generator(Deck::full().cards, XorShift::from_seed(2024));
    again.shuffle();
    assert_eq!(again.cards, deck.cards);
}

#[test]
fn a_generator_stuck_at_zero_rotates_the_deck() {
    let mut deck = Deck::with_generator(Deck::full().cards, XorShift::from_seed(0));
    deck.shuffle();
    assert_eq!(deck.cards[0], card("Ah"));
    assert_eq!(deck.cards[50], card("Kc"));
    assert_eq!(deck.cards[51], card("As"));
}

#[test]
fn peeking_shows_the_top_cards() {
    let deck = Deck::full();
    assert_eq!(deck.peek(0), Ok(&deck.cards[..0]));
    assert_eq!(
        deck.peek(3),
        Ok(&[card("As"), card("Ah"), card("Ad")][..])
    );
    assert_eq!(deck.peek(51).map(|cards| cards.len()), Ok(51));
}

#[test]
fn peeking_at_the_whole_deck_is_refused() {
    let deck = Deck::full();
    assert_eq!(deck.peek(52), Err("n must lie in [0, {51}]"));
    assert_eq!(deck.peek(usize::MAX), Err("n must lie in [0, {51}]"));
}

#[test]
fn cards_are_listed_between_brackets() {
    assert_eq!(list_cards(&[]), "[]");
    assert_eq!(list_cards(&[card("As")]), "[A♠]");
    assert_eq!(list_cards(&[card("As"), card("10h")]), "[A♠, 10♥]");
    let deck = Deck::full().to_text();
    assert!(deck.starts_with("[A♠, A♥, A♦, A♣, 2♠, "));
    assert!(deck.ends_with(", K♦, K♣]"));
    let hand = Hand::from_deck(&Deck::full());
    assert_eq!(hand.to_text(), "[A♠, A♥, A♦, A♣, 2♠]");
}

#[test]
fn categories_are_numbered_best_first() {
    let categories = Category::all();
    assert_eq!(CATEGORIES, 10);
    assert_eq!(categories.len(), 10);
    for (place, category) in categories.iter().enumerate() {
        assert_eq!(category.ordinal(), place);
    }
    assert_eq!(categories[0], Category::RoyalFlush);
    assert_eq!(categories[9], Category::HighCard);
    let names: Vec<&str> = categories.iter().map(|category| category.name()).collect();
    assert_eq!(
        names,
        vec![
            "royal flush",
            "straight flush",
            "four of a kind",
            "full house",
            "flush",
            "straight",
            "three of a kind",
            "two pairs",
            "one pair",
            "high card",
        ]
    );
}

#[test]
fn a_hand_from_the_deck_is_its_top_five() {
    assert_eq!(HAND_SIZE, 5);
    let hand = Hand::from_deck(&Deck::full());
    assert_eq!(hand.category(), Category::FourOfAKind);
    let mut cards = Deck::full().cards;
    cards.reverse();
    let hand = Hand::from_deck(&Deck::new(cards));
    assert_eq!(hand.to_text(), "[K♣, K♦, K♥, K♠, Q♣]");
}

#[test]
fn every_category_is_recognised() {
    assert_eq!(category(["10h", "Jh", "Qh", "Kh", "Ah"]), Category::RoyalFlush);
    assert_eq!(category(["5c", "6c", "7c", "8c", "9c"]), Category::StraightFlush);
    assert_eq!(category(["9s", "9h", "9d", "9c", "2s"]), Category::FourOfAKind);
    assert_eq!(category(["9s", "9h", "9d", "2c", "2s"]), Category::FullHouse);
    assert_eq!(category(["2d", "9d", "Jd", "4d", "Kd"]), Category::Flush);
    assert_eq!(category(["5c", "6d", "7c", "8h", "9c"]), Category::Straight);
    assert_eq!(category(["9s", "9h", "9d", "3c", "2s"]), Category::ThreeOfAKind);
    assert_eq!(category(["9s", "9h", "3d", "3c", "2s"]), Category::TwoPairs);
    assert_eq!(category(["9s", "9h", "4d", "3c", "2s"]), Category::OnePair);
    assert_eq!(category(["9s", "Jh", "4d", "3c", "2s"]), Category::HighCard);
}

#[test]
fn the_order_of_the_cards_does_not_matter() {
    assert_eq!(category(["Kh", "10h", "Ah", "Qh", "Jh"]), Category::RoyalFlush);
    assert_eq!(category(["9c", "5c", "8c", "6c", "7c"]), Category::StraightFlush);
    assert_eq!(category(["2s", "9s", "3d", "9h", "3c"]), Category::TwoPairs);
}

#[test]
fn the_ace_is_low_or_goes_with_the_king() {
    assert_eq!(category(["As", "2h", "3d", "4c", "5s"]), Category::Straight);
    assert_eq!(category(["As", "2s", "3s", "4s", "5s"]), Category::StraightFlush);
    assert_eq!(category(["10s", "Jh", "Qd", "Kc", "As"]), Category::Straight);
    assert_eq!(category(["Js", "Qh", "Kd", "Ac", "2s"]), Category::HighCard);
    assert_eq!(category(["9s", "10s", "Js", "Qs", "Ks"]), Category::StraightFlush);
}

#[test]
fn a_hand_may_hold_a_card_more_than_once() {
    assert_eq!(category(["9s", "9s", "9s", "9s", "9s"]), Category::Flush);
    assert_eq!(category(["9s", "9h", "9s", "9h", "9d"]), Category::HighCard);
    assert_eq!(category(["9s", "9s", "2s", "3s", "4s"]), Category::OnePair);
}

#[test]
fn every_round_is_registered_once() {
    assert_eq!(register(0), [0; 10]);
    let counts = register(500);
    assert_eq!(counts.iter().sum::<usize>(), 500);
}

#[test]
fn rounds_follow_the_deck_and_its_generator() {
    let start = Deck::with_generator(Deck::full().cards, XorShift::from_seed(99));
    let mut deck = start;
    let counts = register_with(&mut deck, 200);
    assert_eq!(counts.iter().sum::<usize>(), 200);
    let mut replay = start;
    let mut expected = [0usize; 10];
    for _ in 0..200 {
        replay.shuffle();
        expected[Hand::from_deck(&replay).category().ordinal()] += 1;
    }
    assert_eq!(counts, expected);
    assert_eq!(deck.cards, replay.cards);
    let mut untouched = start;
    assert_eq!(register_with(&mut untouched, 0), [0; 10]);
    assert_eq!(untouched.cards, start.cards);
}

#[test]
fn a_generator_stuck_at_zero_deals_what_the_rotation_brings() {
    let mut deck = Deck::with_generator(Deck::full().cards, XorShift::from_seed(0));
    let counts = register_with(&mut deck, 1);
    assert_eq!(
        Hand::from_deck(&deck).to_text(),
        "[A♥, A♦, A♣, 2♠, 2♥]"
    );
    let mut expected = [0usize; 10];
    expected[Category::FullHouse.ordinal()] = 1;
    assert_eq!(counts, expected);
}

#[test]
fn rounds_are_shared_out_with_a_rest() {
    assert_eq!(share_rounds(100, 24), (4, 4));
    assert_eq!(share_rounds(23, 24), (0, 23));
    assert_eq!(share_rounds(48, 24), (2, 0));
    assert_eq!(share_rounds(0, 3), (0, 0));
    assert_eq!(share_rounds(7, 1), (7, 0));
}

#[test]
fn counts_add_up_category_by_category() {
    let sum = add_counts(
        [1, 2, 3, 4, 5, 6, 7, 8, 9, 10],
        [10, 20, 30, 40, 50, 60, 70, 80, 90, 0],
    );
    assert_eq!(sum, [11, 22, 33, 44, 55, 66, 77, 88, 99, 10]);
    assert_eq!(add_counts([0; 10], [0; 10]), [0; 10]);
    assert_eq!(add_counts([usize::MAX; 10], [0; 10]), [usize::MAX; 10]);
}

#[test]
fn a_clock_reading_is_cut_to_the_width_of_the_state() {
    let mut read = XorShift::from_clock(Some(5));
    let mut seeded = XorShift::from_seed(5);
    assert_eq!(read.next(), seeded.next());
    let mut read = XorShift::from_clock(Some(usize::MAX as u128 + 1 + 7));
    let mut seeded = XorShift::from_seed(7);
    assert_eq!(read.next(), seeded.next());
    let mut read = XorShift::from_clock(Some(u128::MAX));
    let mut seeded = XorShift::from_seed(usize::MAX);
    assert_eq!(read.next(), seeded.next());
    let mut read = XorShift::from_clock(Some(1_700_000_000_123_456_789));
    let mut seeded = XorShift::from_seed(1_700_000_000_123_456_789u128 as usize);
    assert_eq!(read.next(), seeded.next());
}

#[test]
fn no_clock_reading_seeds_with_one() {
    let mut generator = XorShift::from_clock(None);
    assert_eq!(generator.next(), 270369);
}
