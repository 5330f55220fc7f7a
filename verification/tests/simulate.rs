use rand::rngs::StdRng;
use rand::{Rng, SeedableRng};

use plotonomicon::simulate::{Card, Deck, Hand, Options, State, Suit};
use plotonomicon::{Beats, Comparison, Role, Side};

#[test]
fn simulate_suit_beats() {
    for left in &Suit::suits() {
        for right in &Suit::suits() {
            assert_eq!(left.beats(right), right.beats(left).rev());
        }
    }
}

#[test]
fn simulated_cards() {
    assert_eq!(Suit::Rock.beats(&Suit::Lizard), Comparison::Win);
    assert_eq!(Suit::Lizard.beats(&Suit::OutThere), Comparison::Win);
    assert_eq!(Suit::OutThere.beats(&Suit::Lizard), Comparison::Lose);
    assert_eq!(Card::Trump(2).beats(&Card::Color(Suit::Paper, Role::Home)), Comparison::Win);
    assert_eq!(Card::Excuse.beats(&Card::Trump(2)), Comparison::Excuse);
    assert_eq!(Card::Trump(2).beats(&Card::Trump(2)), Comparison::Draw);
}

fn hand(cards: &[Card]) -> Hand {
    let mut h = Hand::new();
    for c in cards {
        h.push(*c);
    }
    h
}

#[test]
fn simulated_hands() {
    let mine = hand(&[Card::Trump(2), Card::Trump(9)]);
    let theirs = hand(&[Card::Trump(9), Card::Trump(12)]);
    assert_eq!(mine.beats(&theirs), Comparison::Draw);
    assert_eq!(theirs.get(1), &Card::Trump(12));
    assert_eq!(theirs.len(), 2);
}

#[test]
fn simulated_rounds() {
    let keep = Options { draw_rebalaces: false };
    let rebalance = Options { draw_rebalaces: true };
    let over = hand(&[Card::Trump(9)]);
    let under = hand(&[Card::Trump(9)]);
    assert_eq!(State::Unbalanced(Side::A).after_round(&over, &under, &keep), State::Unbalanced(Side::A));
    assert_eq!(State::Unbalanced(Side::A).after_round(&over, &under, &rebalance), State::Balanced);
    let under = hand(&[Card::Trump(10)]);
    assert_eq!(State::Balanced.after_round(&over, &under, &keep), State::Unbalanced(Side::B));
    assert_eq!(State::Overwhelming(Side::B).shift(Some(Side::B)), State::Victory(Side::B));
}

#[test]
fn simulated_game() {
    let mut rng = StdRng::seed_from_u64(17);
    let options = Options { draw_rebalaces: true };
    let mut deck = Deck::shuffle(&mut rng);
    let end = State::Balanced.play(&mut rng, &mut deck, &options, 3);
    let score = |s: State| match s {
        State::Balanced => 0i32,
        State::Unbalanced(Side::A) => 1,
        State::Unbalanced(Side::B) => -1,
        State::Overwhelming(Side::A) => 2,
        State::Overwhelming(Side::B) => -2,
        State::Victory(Side::A) => 3,
        State::Victory(Side::B) => -3,
    };
    assert!(score(end).abs() <= 3);
    assert_eq!(State::Victory(Side::A).next(&mut rng, &mut deck, &options), State::Victory(Side::A));
    let mut count = 0;
    let mut deck = Deck::shuffle(&mut rng);
    let mut seen = std::collections::HashSet::new();
    while count < 67 {
        let c = deck.next(&mut rng);
        let key = format!("{:?}", c);
        assert!(seen.insert(key));
        count += 1;
    }
    assert_eq!(State::Balanced.to_string(), "Balanced");
    assert_eq!(State::Victory(Side::B).to_string(), "Victory: B");
}

#[test]
fn simulated_victory_leaves_the_random_source_alone() {
    let mut rng = StdRng::seed_from_u64(53);
    let mut deck = Deck::shuffle(&mut rng);
    let mut copy = rng.clone();
    let options = Options { draw_rebalaces: true };
    assert_eq!(State::Victory(Side::B).next(&mut rng, &mut deck, &options), State::Victory(Side::B));
    assert_eq!(rng.gen::<u64>(), copy.gen::<u64>());
}
