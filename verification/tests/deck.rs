use rand::rngs::StdRng;
use rand::{Rng, SeedableRng};

use plotonomicon::{Card, Deck, Role, Suit};

fn sorted_key(c: &Card) -> (u8, u8, u8) {
    match c {
        Card::Excuse => (0, 0, 0),
        Card::Trump(n) => (1, *n, 0),
        Card::Color(s, r) => (2, *s as u8, *r as u8),
    }
}

#[test]
fn ordered_cards_are_the_whole_game() {
    let cards = Deck::ordered_cards();
    assert_eq!(cards.len(), 67);
    assert_eq!(cards[0], Card::Excuse);
    assert_eq!(cards[1], Card::Trump(1));
    assert_eq!(cards[21], Card::Trump(21));
    assert_eq!(cards[22], Card::Color(Suit::Rock, Role::Ruler));
    assert_eq!(cards[66], Card::Color(Suit::Unknown, Role::Home));
}

#[test]
fn shuffled_deck_holds_each_card_once() {
    let mut rng = StdRng::seed_from_u64(7);
    let mut deck = Deck::shuffle(&mut rng);
    let mut drawn = Vec::new();
    for _ in 0..67 {
        drawn.push(deck.next_card(&mut rng));
    }
    let mut expected = Deck::ordered_cards();
    drawn.sort_by_key(sorted_key);
    expected.sort_by_key(sorted_key);
    assert_eq!(drawn, expected);
}

#[test]
fn empty_deck_is_reshuffled() {
    let mut rng = StdRng::seed_from_u64(11);
    let mut deck = Deck::shuffle(&mut rng);
    for _ in 0..67 {
        deck.next_card(&mut rng);
    }
    // The deck is now empty: the next 67 cards come from a fresh deck.
    let mut drawn = Vec::new();
    for _ in 0..67 {
        drawn.push(deck.next(&mut rng).card().clone());
    }
    let mut expected = Deck::ordered_cards();
    drawn.sort_by_key(sorted_key);
    expected.sort_by_key(sorted_key);
    assert_eq!(drawn, expected);
}

#[test]
fn drawing_from_a_full_deck_leaves_the_random_source_alone() {
    let mut rng = StdRng::seed_from_u64(41);
    let mut deck = Deck::shuffle(&mut rng);
    let mut copy = rng.clone();
    for _ in 0..67 {
        deck.next_card(&mut rng);
    }
    assert_eq!(deck.len(), 0);
    assert_eq!(rng.gen::<u64>(), copy.gen::<u64>());
}

#[test]
fn drawing_takes_distinct_cards_of_the_game() {
    let mut rng = StdRng::seed_from_u64(59);
    let mut deck = Deck::shuffle(&mut rng);
    let mut seen: Vec<Card> = Vec::new();
    for k in 0..67 {
        assert_eq!(deck.len(), 67 - k);
        let c = deck.next_card(&mut rng);
        assert!(!matches!(c, Card::Trump(0)) && !matches!(c, Card::Trump(22..)));
        assert!(!seen.contains(&c));
        seen.push(c);
    }
    // An empty deck is refilled: the next 67 cards are the whole game again.
    let mut again: Vec<Card> = Vec::new();
    for _ in 0..67 {
        let c = deck.next_card(&mut rng);
        assert!(!again.contains(&c) && seen.contains(&c));
        again.push(c);
        assert!(deck.len() <= 67);
    }
}
