use rand::rngs::StdRng;
use rand::SeedableRng;

use plotonomicon::overcome::{
    first_rules_sample, second_rules_obstacle, Challenge, MAX_LOSSES,
};
use plotonomicon::{Card, Deck, DrawnCard, Orientation, Role, Suit};

fn up(c: Card) -> DrawnCard {
    DrawnCard::new(Orientation::Up, c)
}

fn down(c: Card) -> DrawnCard {
    DrawnCard::new(Orientation::Reversed, c)
}

#[test]
fn first_rules_need_the_same_face() {
    let mut challenge = Challenge::new(&vec![up(Card::Trump(3)), down(Card::Trump(4))]);
    assert_eq!(challenge.obstacle_len(), 2);
    // An upward Trump 10 beats the upward Trump 3 only.
    assert!(challenge.first_rules_round(&up(Card::Trump(10)), 2));
    assert_eq!(challenge.obstacle_len(), 1);
    assert_eq!(challenge.reversed(), 0);
    // A reversed Trump 2 cannot beat the reversed Trump 4.
    assert!(challenge.first_rules_round(&down(Card::Trump(2)), 2));
    assert_eq!(challenge.obstacle_len(), 1);
    assert_eq!(challenge.reversed(), 1);
    // A reversed Trump 5 beats it: the obstacle is overcome.
    assert!(!challenge.first_rules_round(&down(Card::Trump(5)), 2));
    assert_eq!(challenge.first_rules_result(2), (true, 0));
    assert_eq!(challenge.first_rules_result(1), (true, 1));
}

#[test]
fn first_rules_stop_at_the_excuse_and_the_wipe_out() {
    let mut challenge = Challenge::new(&vec![up(Card::Trump(3))]);
    assert!(!challenge.first_rules_round(&up(Card::Excuse), 0));
    assert_eq!(challenge.first_rules_result(0), (false, 0));
    let mut challenge = Challenge::new(&vec![up(Card::Trump(20))]);
    let mut rounds = 0;
    while challenge.first_rules_round(&down(Card::Trump(1)), 1) {
        rounds += 1;
    }
    assert_eq!(rounds, MAX_LOSSES);
    assert_eq!(challenge.reversed(), 1 + MAX_LOSSES);
    assert_eq!(challenge.first_rules_result(1), (false, MAX_LOSSES));
}

#[test]
fn second_rules_ignore_the_face() {
    let mut challenge = Challenge::new(&vec![
        up(Card::Color(Suit::Rock, Role::Home)),
        down(Card::Color(Suit::Paper, Role::Home)),
    ]);
    // Blades beat Paper but not Rock, whatever the face.
    assert!(challenge.second_rules_round(&up(Card::Color(Suit::Blades, Role::Ruler)), 0));
    assert_eq!(challenge.obstacle_len(), 1);
    assert!(!challenge.second_rules_round(&down(Card::Trump(1)), 0));
    assert_eq!(challenge.reversed(), 1);
    assert_eq!(challenge.second_rules_result(0), (true, 1));
    let mut challenge = Challenge::new(&vec![up(Card::Trump(21))]);
    assert!(!challenge.second_rules_round(&down(Card::Excuse), 0));
    assert_eq!(challenge.reversed(), 0);
}

#[test]
fn second_rules_damage_is_capped() {
    let mut challenge = Challenge::new(&vec![up(Card::Trump(21))]);
    while challenge.second_rules_round(&down(Card::Trump(1)), 0) {}
    assert_eq!(challenge.reversed(), MAX_LOSSES);
    assert_eq!(challenge.second_rules_result(0), (false, MAX_LOSSES));
}

#[test]
fn random_samples() {
    let mut rng = StdRng::seed_from_u64(23);
    let mut deck = Deck::shuffle(&mut rng);
    for _ in 0..200 {
        if let Some((_, damage)) = first_rules_sample(&mut deck, &mut rng, 3, 1, 10) {
            assert!(damage <= MAX_LOSSES);
        }
        let challenge = second_rules_obstacle(&mut deck, &mut rng, 4);
        assert!(challenge.obstacle_len() <= 4);
        assert!(challenge.reversed() <= challenge.obstacle_len());
    }
}

#[test]
fn samples_without_rounds_or_obstacle() {
    let mut rng = StdRng::seed_from_u64(29);
    let mut deck = Deck::shuffle(&mut rng);
    for _ in 0..50 {
        assert!(first_rules_sample(&mut deck, &mut rng, 0, 0, 5).is_some());
        if let Some(result) = first_rules_sample(&mut deck, &mut rng, 2, 0, 0) {
            assert_eq!(result, (false, 0));
        }
        assert_eq!(first_rules_sample(&mut deck, &mut rng, 0, 3, 0), Some((true, 0)));
    }
}

#[test]
fn a_large_skill_is_never_wiped_out() {
    let mut challenge = Challenge::new(&vec![up(Card::Trump(21))]);
    for _ in 0..10 {
        assert!(challenge.first_rules_round(&down(Card::Trump(1)), usize::MAX));
        assert!(challenge.second_rules_round(&down(Card::Trump(1)), usize::MAX));
    }
    assert_eq!(challenge.reversed(), 20);
    assert_eq!(challenge.first_rules_result(usize::MAX), (false, 0));
    let mut rng = StdRng::seed_from_u64(31);
    let mut deck = Deck::shuffle(&mut rng);
    for _ in 0..20 {
        if let Some((_, damage)) = first_rules_sample(&mut deck, &mut rng, 2, usize::MAX, 6) {
            assert_eq!(damage, 0);
        }
    }
}

/// The cards on top of a deck shuffled like `rng` would shuffle it.
fn top_of_deck(rng: &StdRng, count: usize) -> Vec<Card> {
    let mut probe = rng.clone();
    let mut deck = Deck::shuffle(&mut probe);
    (0..count).map(|_| deck.next_card(&mut probe)).collect()
}

#[test]
fn a_sample_is_dropped_exactly_when_the_excuse_is_in_the_obstacle() {
    let mut dropped = 0;
    for seed in 0..300 {
        let rng0 = StdRng::seed_from_u64(seed);
        let top = top_of_deck(&rng0, 5);
        let mut rng = rng0.clone();
        let mut deck = Deck::shuffle(&mut rng);
        let result = first_rules_sample(&mut deck, &mut rng, 5, 1, 8);
        let excuse = top.iter().position(|c| *c == Card::Excuse);
        assert_eq!(result.is_none(), excuse.is_some());
        if let Some(e) = excuse {
            dropped += 1;
            // The cards up to the Excuse were drawn, and no more.
            assert_eq!(deck.len(), 67 - (e + 1));
        } else {
            assert!(deck.len() <= 67 - 5 && deck.len() >= 67 - 5 - 8);
        }
    }
    assert!(dropped > 0);
}

#[test]
fn the_second_obstacle_takes_the_cards_before_the_excuse() {
    let mut stopped = 0;
    for seed in 0..300 {
        let rng0 = StdRng::seed_from_u64(seed);
        let top = top_of_deck(&rng0, 6);
        let mut rng = rng0.clone();
        let mut deck = Deck::shuffle(&mut rng);
        let challenge = second_rules_obstacle(&mut deck, &mut rng, 6);
        match top.iter().position(|c| *c == Card::Excuse) {
            Some(e) => {
                stopped += 1;
                assert_eq!(challenge.obstacle_len(), e);
                assert_eq!(deck.len(), 67 - (e + 1));
            }
            None => {
                assert_eq!(challenge.obstacle_len(), 6);
                assert_eq!(deck.len(), 67 - 6);
            }
        }
    }
    assert!(stopped > 0);
}

#[test]
fn second_rules_play_to_the_end() {
    let mut rng = StdRng::seed_from_u64(37);
    let mut deck = Deck::shuffle(&mut rng);
    for _ in 0..200 {
        let mut challenge = second_rules_obstacle(&mut deck, &mut rng, 4);
        let before = deck.len();
        let obstacle = challenge.obstacle_len();
        challenge.second_rules_play(&mut deck, &mut rng, 1);
        let (win, damage) = challenge.second_rules_result(1);
        assert!(damage <= MAX_LOSSES);
        assert_eq!(win, challenge.obstacle_len() == 0);
        if obstacle == 0 {
            assert_eq!(deck.len(), before);
        }
    }
    // Nothing is drawn against an empty obstacle.
    let mut challenge = Challenge::new(&vec![]);
    let before = deck.len();
    challenge.second_rules_play(&mut deck, &mut rng, 0);
    assert_eq!(deck.len(), before);
    assert_eq!(challenge.second_rules_result(0), (true, 0));
}
