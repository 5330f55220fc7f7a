//! Suits, roles, cards and the way one card beats another.
use vstd::prelude::*;

verus! {

/// The outcome of confronting one card (or one hand) with another, seen from the first one.
#[derive(PartialEq, Eq, Debug, Clone, Copy, Structural)]
pub enum Comparison {
    Excuse,
    Win,
    Lose,
    Draw,
}

/// The outcome seen from the other side of the table.
pub open spec fn reversed(c: Comparison) -> Comparison {
    match c {
        Comparison::Excuse => Comparison::Excuse,
        Comparison::Win => Comparison::Lose,
        Comparison::Lose => Comparison::Win,
        Comparison::Draw => Comparison::Draw,
    }
}

impl Comparison {
    pub fn loses(&self) -> (r: bool)
        ensures
            r <==> *self == Comparison::Lose,
    {
        match self {
            Comparison::Lose => true,
            _ => false,
        }
    }

    pub fn wins(&self) -> (r: bool)
        ensures
            r <==> *self == Comparison::Win,
    {
        match self {
            Comparison::Win => true,
            _ => false,
        }
    }

    /// The same outcome, seen by the opponent.
    pub fn rev(self) -> (r: Comparison)
        ensures
            r == reversed(self),
            reversed(r) == self,
    {
        match self {
            Comparison::Excuse => Comparison::Excuse,
            Comparison::Win => Comparison::Lose,
            Comparison::Lose => Comparison::Win,
            Comparison::Draw => Comparison::Draw,
        }
    }
}

/// Something that can be confronted with another thing of the same kind.
pub trait Beats {
    /// When the two may be confronted at all.
    spec fn comparable(&self, other: &Self) -> bool;

    fn beats(&self, other: &Self) -> Comparison
        requires
            self.comparable(other),
    ;
}

#[derive(PartialEq, Eq, Clone, Copy, Debug, Structural)]
pub enum Suit {
    Rock,
    Paper,
    Blades,
    Serpent,
    Unknown,
}

/// Where a suit stands on the cycle of suits: each suit beats the two that follow it
/// on the cycle and loses to the two that precede it.
pub open spec fn cycle_position(s: Suit) -> int {
    match s {
        Suit::Rock => 0,
        Suit::Blades => 1,
        Suit::Serpent => 2,
        Suit::Paper => 3,
        Suit::Unknown => 4,
    }
}

/// The suit that follows `s` on the cycle.
pub open spec fn next_on_cycle(s: Suit) -> Suit {
    match s {
        Suit::Rock => Suit::Blades,
        Suit::Blades => Suit::Serpent,
        Suit::Serpent => Suit::Paper,
        Suit::Paper => Suit::Unknown,
        Suit::Unknown => Suit::Rock,
    }
}

/// Outcome of a suit against another.
pub open spec fn suit_outcome(a: Suit, b: Suit) -> Comparison {
    let d = (cycle_position(b) - cycle_position(a)) % 5;
    if d == 0 {
        Comparison::Draw
    } else if d <= 2 {
        Comparison::Win
    } else {
        Comparison::Lose
    }
}

impl Suit {
    /// All suits.
    pub fn suits() -> (r: [Suit; 5])
        ensures
            r@ == seq![Suit::Rock, Suit::Paper, Suit::Blades, Suit::Serpent, Suit::Unknown],
    {
        [Suit::Rock, Suit::Paper, Suit::Blades, Suit::Serpent, Suit::Unknown]
    }
}

impl Beats for Suit {
    open spec fn comparable(&self, other: &Self) -> bool {
        true
    }

    fn beats(&self, other: &Self) -> (r: Comparison)
        ensures
            r == suit_outcome(*self, *other),
    {
        match (*self, *other) {
            (Suit::Rock, Suit::Rock) => Comparison::Draw,
            (Suit::Rock, Suit::Paper) | (Suit::Rock, Suit::Unknown) => Comparison::Lose,
            (Suit::Rock, Suit::Blades) | (Suit::Rock, Suit::Serpent) => Comparison::Win,
            (Suit::Paper, Suit::Paper) => Comparison::Draw,
            (Suit::Paper, Suit::Blades) | (Suit::Paper, Suit::Serpent) => Comparison::Lose,
            (Suit::Paper, Suit::Rock) | (Suit::Paper, Suit::Unknown) => Comparison::Win,
            (Suit::Blades, Suit::Blades) => Comparison::Draw,
            (Suit::Blades, Suit::Rock) | (Suit::Blades, Suit::Unknown) => Comparison::Lose,
            (Suit::Blades, Suit::Paper) | (Suit::Blades, Suit::Serpent) => Comparison::Win,
            (Suit::Serpent, Suit::Serpent) => Comparison::Draw,
            (Suit::Serpent, Suit::Rock) | (Suit::Serpent, Suit::Blades) => Comparison::Lose,
            (Suit::Serpent, Suit::Unknown) | (Suit::Serpent, Suit::Paper) => Comparison::Win,
            (Suit::Unknown, Suit::Unknown) => Comparison::Draw,
            (Suit::Unknown, Suit::Paper) | (Suit::Unknown, Suit::Serpent) => Comparison::Lose,
            (Suit::Unknown, Suit::Rock) | (Suit::Unknown, Suit::Blades) => Comparison::Win,
        }
    }
}

/// Confronting two suits in either order gives opposite outcomes.
pub proof fn lemma_suit_outcome_antisymmetric(a: Suit, b: Suit)
    ensures
        suit_outcome(b, a) == reversed(suit_outcome(a, b)),
{
}

/// A suit beats exactly the two suits that follow it on the cycle, and loses to
/// exactly the two suits that follow those.
pub proof fn lemma_suit_beats_next_two(a: Suit, b: Suit)
    ensures
        suit_outcome(a, b) == Comparison::Win <==> (b == next_on_cycle(a) || b == next_on_cycle(
            next_on_cycle(a),
        )),
        suit_outcome(a, b) == Comparison::Draw <==> b == a,
        suit_outcome(a, b) == Comparison::Lose <==> (b == next_on_cycle(
            next_on_cycle(next_on_cycle(a)),
        ) || b == next_on_cycle(next_on_cycle(next_on_cycle(next_on_cycle(a))))),
{
}

#[derive(PartialEq, Eq, Clone, Copy, Debug, Structural)]
pub enum Role {
    Ruler,
    Dragon,
    Treasure,
    Builder,
    Seeker,
    Soldier,
    Lover,
    Servant,
    Home,
}

#[derive(PartialEq, Eq, Clone, Copy, Debug, Structural)]
pub enum Card {
    Excuse,
    /// Numbered from 1 to 21.
    Trump(u8),
    Color(Suit, Role),
}

/// Outcome of a card against another.
pub open spec fn card_outcome(a: Card, b: Card) -> Comparison {
    match (a, b) {
        (Card::Excuse, _) => Comparison::Excuse,
        (_, Card::Excuse) => Comparison::Excuse,
        (Card::Trump(me), Card::Trump(them)) => if me < them {
            Comparison::Lose
        } else if me > them {
            Comparison::Win
        } else {
            Comparison::Draw
        },
        (Card::Trump(_), _) => Comparison::Win,
        (_, Card::Trump(_)) => Comparison::Lose,
        (Card::Color(me, _), Card::Color(them, _)) => suit_outcome(me, them),
    }
}

impl Beats for Card {
    open spec fn comparable(&self, other: &Self) -> bool {
        true
    }

    fn beats(&self, other: &Card) -> (r: Comparison)
        ensures
            r == card_outcome(*self, *other),
    {
        match (self, other) {
            (Card::Excuse, _) | (_, Card::Excuse) => Comparison::Excuse,
            (Card::Trump(me), Card::Trump(them)) => {
                if *me < *them {
                    Comparison::Lose
                } else if *me > *them {
                    Comparison::Win
                } else {
                    Comparison::Draw
                }
            },
            (Card::Trump(_), _) => Comparison::Win,
            (_, Card::Trump(_)) => Comparison::Lose,
            (Card::Color(me, _), Card::Color(them, _)) => me.beats(them),
        }
    }
}

/// Confronting two cards in either order gives opposite outcomes.
pub proof fn lemma_card_outcome_antisymmetric(a: Card, b: Card)
    ensures
        card_outcome(b, a) == reversed(card_outcome(a, b)),
{
    match (a, b) {
        (Card::Color(x, _), Card::Color(y, _)) => lemma_suit_outcome_antisymmetric(x, y),
        _ => {},
    }
}

/// Any trump beats any colored card, and the Excuse turns every confrontation into an Excuse.
pub proof fn lemma_trump_and_excuse(t: u8, s: Suit, r: Role, c: Card)
    ensures
        card_outcome(Card::Trump(t), Card::Color(s, r)) == Comparison::Win,
        card_outcome(Card::Excuse, c) == Comparison::Excuse,
        card_outcome(c, Card::Excuse) == Comparison::Excuse,
{
}

#[derive(Clone, Copy, Debug, PartialEq, Eq, Structural)]
pub enum Orientation {
    Up,
    Reversed,
}

impl Orientation {
    pub fn is_reversed(&self) -> (r: bool)
        ensures
            r <==> *self == Orientation::Reversed,
    {
        match *self {
            Orientation::Up => false,
            Orientation::Reversed => true,
        }
    }
}

/// A card as it was drawn: face up or reversed.
#[derive(Clone, Copy, Debug, PartialEq, Eq, Structural)]
pub struct DrawnCard {
    orientation: Orientation,
    card: Card,
}

impl DrawnCard {
    /// How the card lies.
    pub closed spec fn face(self) -> Orientation {
        self.orientation
    }

    /// Which card it is.
    pub closed spec fn value(self) -> Card {
        self.card
    }

    pub fn new(orientation: Orientation, card: Card) -> (r: DrawnCard)
        ensures
            r.face() == orientation,
            r.value() == card,
    {
        DrawnCard { orientation, card }
    }

    pub fn orientation(&self) -> (r: Orientation)
        ensures
            r == self.face(),
    {
        self.orientation
    }

    pub fn card(&self) -> (r: &Card)
        ensures
            *r == self.value(),
    {
        &self.card
    }
}

/// The card `value` lying with face `face`.
pub closed spec fn drawn_card(face: Orientation, value: Card) -> DrawnCard {
    DrawnCard { orientation: face, card: value }
}

/// A drawn card made from a face and a value shows that face and that value.
pub broadcast proof fn lemma_drawn_card(face: Orientation, value: Card)
    ensures
        (#[trigger] drawn_card(face, value)).face() == face,
        drawn_card(face, value).value() == value,
{
}

/// Two drawn cards are the same exactly when they show the same face and the same value.
pub proof fn lemma_drawn_card_eq(a: DrawnCard, b: DrawnCard)
    ensures
        (a.face() == b.face() && a.value() == b.value()) <==> a == b,
{
}

/// Which cards a draw is looking for.
#[derive(PartialEq, Eq, Clone, Copy, Debug, Structural)]
pub enum Kind {
    Triumph,
    Figure,
    Any,
}

pub open spec fn kind_contains(k: Kind, c: Card) -> bool {
    match (k, c) {
        (Kind::Any, _) => true,
        (Kind::Triumph, Card::Trump(_)) => true,
        (Kind::Figure, Card::Color(_, _)) => true,
        _ => false,
    }
}

impl Kind {
    pub fn contains(&self, card: &Card) -> (r: bool)
        ensures
            r == kind_contains(*self, *card),
    {
        match (self, card) {
            (Kind::Any, _) => true,
            (Kind::Triumph, Card::Trump(_)) => true,
            (Kind::Figure, Card::Color(_, _)) => true,
            _ => false,
        }
    }
}

} // verus!
