use plotonomicon::text::decimal_text;
use plotonomicon::{
    BiddingAdvantage, Card, DrawnCard, Orientation, Role, Side, Suit, ThreeStateBalance,
};

#[test]
fn names() {
    assert_eq!(Suit::Blades.to_string(), "Blade");
    assert_eq!(Suit::Unknown.to_string(), "Unknown");
    assert_eq!(Role::Servant.to_string(), "Servant");
    assert_eq!(Orientation::Reversed.to_string(), "Reversed");
    assert_eq!(Side::B.to_string(), "B");
}

#[test]
fn card_names() {
    assert_eq!(Card::Excuse.to_string(), "Excuse");
    assert_eq!(Card::Trump(17).to_string(), "XVII of Triumph");
    assert_eq!(Card::Trump(4).to_string(), "IV of Triumph");
    assert_eq!(Card::Trump(21).to_string(), "XXI of Triumph");
    assert_eq!(Card::Color(Suit::Serpent, Role::Lover).to_string(), "Lover of Serpent");
    assert_eq!(
        DrawnCard::new(Orientation::Up, Card::Color(Suit::Blades, Role::Home)).to_string(),
        "Home of Blade"
    );
    assert_eq!(
        DrawnCard::new(Orientation::Reversed, Card::Trump(9)).to_string(),
        "IX of Triumph (Reversed)"
    );
}

#[test]
fn balance_names() {
    assert_eq!(ThreeStateBalance::Balanced.to_string(), "Balanced");
    assert_eq!(ThreeStateBalance::Unbalanced(Side::A).to_string(), "Advantage: A");
    assert_eq!(ThreeStateBalance::Overwhelming(Side::B).to_string(), "Overwhelming: B");
    assert_eq!(ThreeStateBalance::Victory(Side::A).to_string(), "Victory: A");
    assert_eq!(BiddingAdvantage::Balanced.to_string(), "Balanced");
    assert_eq!(BiddingAdvantage::Unbalanced(Side::B, 12).to_string(), "Advantage 12: B");
    assert_eq!(BiddingAdvantage::Victory(Side::B).to_string(), "Victory: B");
}

#[test]
fn decimals() {
    assert_eq!(decimal_text(0), "0");
    assert_eq!(decimal_text(7), "7");
    assert_eq!(decimal_text(10), "10");
    assert_eq!(decimal_text(4096), "4096");
    assert_eq!(decimal_text(usize::MAX), usize::MAX.to_string());
}

#[test]
fn indices() {
    assert_eq!(DrawnCard::new(Orientation::Up, Card::Excuse).index(), "5+");
    assert_eq!(DrawnCard::new(Orientation::Reversed, Card::Trump(1)).index(), "6-");
    assert_eq!(DrawnCard::new(Orientation::Up, Card::Trump(21)).index(), "26+");
    assert_eq!(
        DrawnCard::new(Orientation::Up, Card::Color(Suit::Paper, Role::Ruler)).index(),
        "32+"
    );
    assert_eq!(
        DrawnCard::new(Orientation::Reversed, Card::Color(Suit::Unknown, Role::Soldier)).index(),
        "46-"
    );
    assert_eq!(
        DrawnCard::new(Orientation::Up, Card::Color(Suit::Rock, Role::Builder)).index(),
        "58+"
    );
    assert_eq!(
        DrawnCard::new(Orientation::Up, Card::Color(Suit::Blades, Role::Home)).index(),
        "73+"
    );
    assert_eq!(
        DrawnCard::new(Orientation::Up, Card::Color(Suit::Serpent, Role::Seeker)).index(),
        "81+"
    );
}

#[test]
fn indices_are_distinct() {
    let mut cards = vec![Card::Excuse];
    for i in 1..22 {
        cards.push(Card::Trump(i));
    }
    let roles = [
        Role::Ruler,
        Role::Dragon,
        Role::Treasure,
        Role::Builder,
        Role::Seeker,
        Role::Soldier,
        Role::Lover,
        Role::Servant,
        Role::Home,
    ];
    for suit in Suit::suits().iter() {
        for role in roles.iter() {
            cards.push(Card::Color(*suit, *role));
        }
    }
    let mut seen = std::collections::HashSet::new();
    for c in cards {
        assert!(seen.insert(DrawnCard::new(Orientation::Up, c).index()));
    }
    assert_eq!(seen.len(), 67);
}

#[test]
fn balance_codes() {
    assert_eq!(ThreeStateBalance::from_code("="), Some(ThreeStateBalance::Balanced));
    assert_eq!(ThreeStateBalance::from_code("A"), Some(ThreeStateBalance::Unbalanced(Side::A)));
    assert_eq!(ThreeStateBalance::from_code("BB"), Some(ThreeStateBalance::Overwhelming(Side::B)));
    assert_eq!(ThreeStateBalance::from_code("C"), None);
}

#[test]
fn indexes_tell_card_and_face() {
    let mut seen = std::collections::HashSet::new();
    for c in plotonomicon::Deck::ordered_cards() {
        for o in [Orientation::Up, Orientation::Reversed] {
            let text = DrawnCard::new(o, c).index();
            assert!(seen.insert(text.clone()));
            assert_eq!(text.ends_with('-'), o == Orientation::Reversed);
            let n: u32 = text[..text.len() - 1].parse().unwrap();
            assert!((5..=26).contains(&n) || (32..=84).contains(&n));
        }
    }
    assert_eq!(seen.len(), 134);
}
