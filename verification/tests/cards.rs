use plotonomicon::cards::Kind;
use plotonomicon::{Beats, Card, Comparison, DrawnCard, Orientation, Role, Suit};

#[test]
fn lib_suit_beats() {
    for left in &Suit::suits() {
        for right in &Suit::suits() {
            assert_eq!(left.beats(right), right.beats(left).rev());
        }
    }
}

#[test]
fn each_suit_beats_exactly_two_others() {
    for left in &Suit::suits() {
        let wins = Suit::suits().iter().filter(|right| left.beats(right).wins()).count();
        let losses = Suit::suits().iter().filter(|right| left.beats(right).loses()).count();
        assert_eq!(wins, 2);
        assert_eq!(losses, 2);
        assert_eq!(left.beats(left), Comparison::Draw);
    }
}

#[test]
fn suit_cycle() {
    assert_eq!(Suit::Rock.beats(&Suit::Blades), Comparison::Win);
    assert_eq!(Suit::Rock.beats(&Suit::Serpent), Comparison::Win);
    assert_eq!(Suit::Rock.beats(&Suit::Paper), Comparison::Lose);
    assert_eq!(Suit::Rock.beats(&Suit::Unknown), Comparison::Lose);
    assert_eq!(Suit::Paper.beats(&Suit::Unknown), Comparison::Win);
    assert_eq!(Suit::Serpent.beats(&Suit::Paper), Comparison::Win);
    assert_eq!(Suit::Unknown.beats(&Suit::Blades), Comparison::Win);
}

fn all_cards() -> Vec<Card> {
    let mut cards = vec![Card::Excuse];
    for i in 1..22 {
        cards.push(Card::Trump(i));
    }
    let roles = [
        Role::Ruler,
        Role::Dragon,
        Role::Treasure,
        Role::Builder,
        Role::Seeker,
        Role::Soldier,
        Role::Lover,
        Role::Servant,
        Role::Home,
    ];
    for suit in Suit::suits().iter() {
        for role in roles.iter() {
            cards.push(Card::Color(*suit, *role));
        }
    }
    cards
}

#[test]
fn card_beats_is_antisymmetric() {
    let cards = all_cards();
    for a in &cards {
        for b in &cards {
            assert_eq!(a.beats(b), b.beats(a).rev());
        }
    }
}

#[test]
fn card_beats_rules() {
    assert_eq!(Card::Excuse.beats(&Card::Trump(3)), Comparison::Excuse);
    assert_eq!(Card::Trump(3).beats(&Card::Excuse), Comparison::Excuse);
    assert_eq!(Card::Trump(3).beats(&Card::Trump(12)), Comparison::Lose);
    assert_eq!(Card::Trump(12).beats(&Card::Trump(3)), Comparison::Win);
    assert_eq!(Card::Trump(7).beats(&Card::Trump(7)), Comparison::Draw);
    assert_eq!(
        Card::Trump(1).beats(&Card::Color(Suit::Rock, Role::Ruler)),
        Comparison::Win
    );
    assert_eq!(
        Card::Color(Suit::Rock, Role::Ruler).beats(&Card::Trump(1)),
        Comparison::Lose
    );
    assert_eq!(
        Card::Color(Suit::Blades, Role::Home).beats(&Card::Color(Suit::Paper, Role::Ruler)),
        Comparison::Win
    );
    assert_eq!(
        Card::Color(Suit::Blades, Role::Home).beats(&Card::Color(Suit::Blades, Role::Ruler)),
        Comparison::Draw
    );
}

#[test]
fn comparison_helpers() {
    assert!(Comparison::Lose.loses());
    assert!(!Comparison::Win.loses());
    assert!(Comparison::Win.wins());
    assert!(!Comparison::Draw.wins());
    assert_eq!(Comparison::Excuse.rev(), Comparison::Excuse);
    assert_eq!(Comparison::Win.rev(), Comparison::Lose);
    assert_eq!(Comparison::Lose.rev(), Comparison::Win);
    assert_eq!(Comparison::Draw.rev(), Comparison::Draw);
    for c in [Comparison::Excuse, Comparison::Win, Comparison::Lose, Comparison::Draw] {
        assert_eq!(c.rev().rev(), c);
    }
}

#[test]
fn orientation_and_drawn_card() {
    assert!(Orientation::Reversed.is_reversed());
    assert!(!Orientation::Up.is_reversed());
    let d = DrawnCard::new(Orientation::Reversed, Card::Trump(4));
    assert_eq!(d.orientation(), Orientation::Reversed);
    assert_eq!(*d.card(), Card::Trump(4));
}

#[test]
fn kinds_of_cards() {
    assert!(Kind::Any.contains(&Card::Excuse));
    assert!(Kind::Triumph.contains(&Card::Trump(2)));
    assert!(!Kind::Triumph.contains(&Card::Excuse));
    assert!(!Kind::Triumph.contains(&Card::Color(Suit::Rock, Role::Home)));
    assert!(Kind::Figure.contains(&Card::Color(Suit::Rock, Role::Home)));
    assert!(!Kind::Figure.contains(&Card::Trump(2)));
    assert_eq!(Kind::from_name("any"), Some(Kind::Any));
    assert_eq!(Kind::from_name("triumph"), Some(Kind::Triumph));
    assert_eq!(Kind::from_name("figure"), Some(Kind::Figure));
    assert_eq!(Kind::from_name("other"), None);
}
