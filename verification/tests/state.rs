use rand::rngs::StdRng;
use rand::{Rng, SeedableRng};

use plotonomicon::state::final_balance;
use plotonomicon::{Beats, Comparison, Draw, DrawnCard, Card, Orientation, Side, State, Step, ThreeStateBalance};

fn score(b: ThreeStateBalance) -> i32 {
    match b {
        ThreeStateBalance::Balanced => 0,
        ThreeStateBalance::Unbalanced(Side::A) => 1,
        ThreeStateBalance::Unbalanced(Side::B) => -1,
        ThreeStateBalance::Overwhelming(Side::A) => 2,
        ThreeStateBalance::Overwhelming(Side::B) => -2,
        ThreeStateBalance::Victory(Side::A) => 3,
        ThreeStateBalance::Victory(Side::B) => -3,
    }
}

fn hand(cards: &[Card]) -> Draw {
    let mut d = Draw::new();
    for c in cards {
        d.push(DrawnCard::new(Orientation::Up, *c));
    }
    d
}

#[test]
fn resolve_a_round() {
    let step = Step::resolve(
        ThreeStateBalance::Unbalanced(Side::B),
        hand(&[Card::Trump(4), Card::Trump(8)]),
        hand(&[Card::Trump(20)]),
    );
    assert_eq!(*step.start(), ThreeStateBalance::Unbalanced(Side::B));
    assert_eq!(step.winner(), Some(Side::A));
    assert_eq!(*step.stop(), ThreeStateBalance::Balanced);
    assert_eq!(step.a().len(), 1);
    assert_eq!(step.b().len(), 2);
}

#[test]
fn resolve_excuse_and_draw() {
    let step = Step::resolve(
        ThreeStateBalance::Overwhelming(Side::A),
        hand(&[Card::Excuse, Card::Trump(8)]),
        hand(&[Card::Trump(2), Card::Trump(3)]),
    );
    assert_eq!(step.winner(), Some(Side::B));
    assert_eq!(*step.stop(), ThreeStateBalance::Unbalanced(Side::A));
    let step = Step::resolve(
        ThreeStateBalance::Balanced,
        hand(&[Card::Trump(8)]),
        hand(&[Card::Trump(8)]),
    );
    assert_eq!(step.winner(), None);
    assert_eq!(*step.stop(), ThreeStateBalance::Balanced);
}

#[test]
fn rounds_follow_the_rules() {
    let mut rng = StdRng::seed_from_u64(3);
    let mut state = State::new(&mut rng, ThreeStateBalance::Balanced);
    let mut balance = ThreeStateBalance::Balanced;
    let mut rounds = 0;
    while let Some(step) = state.next() {
        assert_eq!(*step.start(), balance);
        let who = match balance {
            ThreeStateBalance::Balanced => Side::A,
            ThreeStateBalance::Unbalanced(s) | ThreeStateBalance::Overwhelming(s) => s,
            ThreeStateBalance::Victory(_) => unreachable!(),
        };
        let (over, under) = if who == Side::A { (step.a(), step.b()) } else { (step.b(), step.a()) };
        let expected_cards = match balance {
            ThreeStateBalance::Balanced => (1, 1),
            ThreeStateBalance::Unbalanced(_) => (2, 1),
            _ => (2, 2),
        };
        assert_eq!((over.len(), under.len()), expected_cards);
        let expected = match over.beats(under) {
            Comparison::Excuse => (Some(who.rev()), balance.shift(None)),
            Comparison::Win => (Some(who), balance.shift(Some(who))),
            Comparison::Lose => (Some(who.rev()), balance.shift(Some(who.rev()))),
            Comparison::Draw => (None, balance),
        };
        assert_eq!((step.winner(), *step.stop()), expected);
        assert!((score(*step.stop()) - score(balance)).abs() <= 1);
        balance = *step.stop();
        rounds += 1;
        assert!(rounds < 100_000);
    }
    assert!(matches!(balance, ThreeStateBalance::Victory(_)));
    assert!(state.next().is_none());
}

#[test]
fn victory_is_final() {
    let mut rng = StdRng::seed_from_u64(5);
    let mut state = State::new(&mut rng, ThreeStateBalance::Victory(Side::B));
    assert!(state.next().is_none());
    assert_eq!(final_balance(&mut rng, ThreeStateBalance::Victory(Side::A), 10), ThreeStateBalance::Victory(Side::A));
}

#[test]
fn final_balance_stays_within_reach() {
    let mut rng = StdRng::seed_from_u64(9);
    for _ in 0..50 {
        let b = final_balance(&mut rng, ThreeStateBalance::Balanced, 0);
        assert!(score(b).abs() <= 2);
    }
}

#[test]
fn victory_leaves_the_random_source_alone() {
    let mut rng = StdRng::seed_from_u64(43);
    let mut probe = rng.clone();
    {
        let mut state = State::new(&mut rng, ThreeStateBalance::Victory(Side::A));
        assert!(state.next().is_none());
        assert!(state.next().is_none());
    }
    // The same shuffle, and nothing else, was drawn from both.
    plotonomicon::Deck::shuffle(&mut probe);
    assert_eq!(rng.gen::<u64>(), probe.gen::<u64>());
}

#[test]
fn without_a_round_limit_the_conflict_goes_to_a_victory() {
    let mut rng = StdRng::seed_from_u64(47);
    for _ in 0..20 {
        let b = final_balance(&mut rng, ThreeStateBalance::Balanced, usize::MAX);
        assert!(matches!(b, ThreeStateBalance::Victory(_)));
    }
}

#[test]
fn play_rounds_is_what_final_balance_plays() {
    for seed in 0..40 {
        let rng0 = StdRng::seed_from_u64(seed);
        for rounds in [0usize, 3, 14, 40] {
            let mut rng = rng0.clone();
            let expected = final_balance(&mut rng, ThreeStateBalance::Balanced, rounds);
            let mut rng = rng0.clone();
            let mut state = State::new(&mut rng, ThreeStateBalance::Balanced);
            let reached = state.play_rounds(rounds);
            assert_eq!(reached, expected);
            assert!(score(reached).abs() <= (rounds as i32 + 2).min(3));
            // The state holds the balance reached: past a victory nothing more is played.
            if matches!(reached, ThreeStateBalance::Victory(_)) {
                assert!(state.next().is_none());
            }
        }
    }
}

#[test]
fn play_rounds_from_a_victory_plays_nothing() {
    let mut rng = StdRng::seed_from_u64(61);
    let mut state = State::new(&mut rng, ThreeStateBalance::Victory(Side::B));
    assert_eq!(state.play_rounds(10), ThreeStateBalance::Victory(Side::B));
}
