use plotonomicon::{Beats, Card, Comparison, Draw, DrawnCard, Orientation, Role, Suit};

fn hand(cards: &[Card]) -> Draw {
    let mut d = Draw::new();
    for c in cards {
        d.push(DrawnCard::new(Orientation::Up, *c));
    }
    d
}

#[test]
fn hand_contents() {
    let d = hand(&[Card::Trump(3), Card::Excuse]);
    assert_eq!(d.len(), 2);
    assert_eq!(*d.get(0).card(), Card::Trump(3));
    assert_eq!(*d.get(1).card(), Card::Excuse);
}

#[test]
fn single_cards_settle_as_cards() {
    let a = Card::Trump(5);
    let b = Card::Color(Suit::Rock, Role::Home);
    assert_eq!(hand(&[a]).beats(&hand(&[b])), a.beats(&b));
    assert_eq!(hand(&[b]).beats(&hand(&[a])), b.beats(&a));
}

#[test]
fn first_decisive_pair_wins() {
    // Trump 5 beats Trump 2 first; the Excuse comes later and is never reached.
    let mine = hand(&[Card::Trump(5), Card::Excuse]);
    let theirs = hand(&[Card::Trump(2)]);
    assert_eq!(mine.beats(&theirs), Comparison::Win);
    // The Excuse comes first.
    let mine = hand(&[Card::Excuse, Card::Trump(5)]);
    assert_eq!(mine.beats(&theirs), Comparison::Excuse);
}

#[test]
fn draw_outweighs_loss() {
    let mine = hand(&[Card::Trump(2), Card::Trump(9)]);
    let theirs = hand(&[Card::Trump(9), Card::Trump(12)]);
    // Pairs: 2-9 lose, 2-12 lose, 9-9 draw, 9-12 lose.
    assert_eq!(mine.beats(&theirs), Comparison::Draw);
    let mine = hand(&[Card::Trump(2), Card::Trump(3)]);
    assert_eq!(mine.beats(&theirs), Comparison::Lose);
}

#[test]
fn later_win_after_draw() {
    let mine = hand(&[Card::Trump(9), Card::Trump(15)]);
    let theirs = hand(&[Card::Trump(9), Card::Trump(12)]);
    // Pairs: 9-9 draw, 9-12 lose, 15-9 win.
    assert_eq!(mine.beats(&theirs), Comparison::Win);
}

#[test]
fn an_extra_card_never_worsens_the_advantaged_hand() {
    let theirs = hand(&[Card::Trump(5)]);
    assert_eq!(hand(&[Card::Trump(3)]).beats(&theirs), Comparison::Lose);
    assert_eq!(hand(&[Card::Trump(3), Card::Trump(5)]).beats(&theirs), Comparison::Draw);
    assert_eq!(hand(&[Card::Trump(3), Card::Trump(5), Card::Trump(9)]).beats(&theirs), Comparison::Win);
    // A losing extra card leaves a win a win.
    let theirs = hand(&[Card::Color(Suit::Paper, Role::Home)]);
    assert_eq!(hand(&[Card::Trump(1)]).beats(&theirs), Comparison::Win);
    assert_eq!(
        hand(&[Card::Trump(1), Card::Color(Suit::Rock, Role::Ruler)]).beats(&theirs),
        Comparison::Win
    );
}
