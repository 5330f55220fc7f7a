//! How cards, sides and balances are written out.
use vstd::prelude::*;
use vstd::string::*;

use crate::balance::{BiddingAdvantage, Side, ThreeStateBalance};
use crate::cards::{lemma_drawn_card_eq, Card, DrawnCard, Kind, Orientation, Role, Suit};
use crate::simulate;

verus! {

/// The character of a decimal digit.
pub open spec fn digit_char(d: nat) -> char {
    if d == 0 {
        '0'
    } else if d == 1 {
        '1'
    } else if d == 2 {
        '2'
    } else if d == 3 {
        '3'
    } else if d == 4 {
        '4'
    } else if d == 5 {
        '5'
    } else if d == 6 {
        '6'
    } else if d == 7 {
        '7'
    } else if d == 8 {
        '8'
    } else {
        '9'
    }
}

/// The decimal writing of a number, without leading zeros.
pub open spec fn decimal(n: nat) -> Seq<char>
    decreases n,
{
    if n < 10 {
        seq![digit_char(n)]
    } else {
        decimal(n / 10).push(digit_char(n % 10))
    }
}

fn digit_str(d: usize) -> (r: &'static str)
    requires
        d < 10,
    ensures
        r@ == seq![digit_char(d as nat)],
{
    if d == 0 {
        proof {
            reveal_strlit("0");
        }
        "0"
    } else if d == 1 {
        proof {
            reveal_strlit("1");
        }
        "1"
    } else if d == 2 {
        proof {
            reveal_strlit("2");
        }
        "2"
    } else if d == 3 {
        proof {
            reveal_strlit("3");
        }
        "3"
    } else if d == 4 {
        proof {
            reveal_strlit("4");
        }
        "4"
    } else if d == 5 {
        proof {
            reveal_strlit("5");
        }
        "5"
    } else if d == 6 {
        proof {
            reveal_strlit("6");
        }
        "6"
    } else if d == 7 {
        proof {
            reveal_strlit("7");
        }
        "7"
    } else if d == 8 {
        proof {
            reveal_strlit("8");
        }
        "8"
    } else {
        proof {
            reveal_strlit("9");
        }
        "9"
    }
}

/// Writes a number in decimal.
pub fn decimal_text(n: usize) -> (r: String)
    ensures
        r@ == decimal(n as nat),
    decreases n,
{
    if n < 10 {
        String::from_str(digit_str(n))
    } else {
        let mut s = decimal_text(n / 10);
        s.append(digit_str(n % 10));
        s
    }
}

/// The Roman numeral of a number, in capitals: the largest of M (1000), CM (900), D (500),
/// CD (400), C (100), XC (90), L (50), XL (40), X (10), IX (9), V (5), IV (4) and I (1) that
/// fits, then the numeral of what is left.
pub open spec fn roman_numeral(n: nat) -> Seq<char>
    decreases n,
{
    if n >= 1000 {
        seq!['M'] + roman_numeral((n - 1000) as nat)
    } else if n >= 900 {
        seq!['C', 'M'] + roman_numeral((n - 900) as nat)
    } else if n >= 500 {
        seq!['D'] + roman_numeral((n - 500) as nat)
    } else if n >= 400 {
        seq!['C', 'D'] + roman_numeral((n - 400) as nat)
    } else if n >= 100 {
        seq!['C'] + roman_numeral((n - 100) as nat)
    } else if n >= 90 {
        seq!['X', 'C'] + roman_numeral((n - 90) as nat)
    } else if n >= 50 {
        seq!['L'] + roman_numeral((n - 50) as nat)
    } else if n >= 40 {
        seq!['X', 'L'] + roman_numeral((n - 40) as nat)
    } else if n >= 10 {
        seq!['X'] + roman_numeral((n - 10) as nat)
    } else if n >= 9 {
        seq!['I', 'X'] + roman_numeral((n - 9) as nat)
    } else if n >= 5 {
        seq!['V'] + roman_numeral((n - 5) as nat)
    } else if n >= 4 {
        seq!['I', 'V'] + roman_numeral((n - 4) as nat)
    } else if n >= 1 {
        seq!['I'] + roman_numeral((n - 1) as nat)
    } else {
        Seq::empty()
    }
}

/// xvii's `Roman::new` on `n`, written out by `Roman::to_uppercase` (which is what its
/// `Display` prints). `Roman::new` accepts exactly `1..=4999`; `to_uppercase` walks xvii's
/// table from M (1000) down to I (1), taking each entry while it fits, which is
/// `roman_numeral`.
#[verifier::external_body]
fn roman_upper(n: u16) -> (r: String)
    requires
        1 <= n <= 4999,
    ensures
        r@ == roman_numeral(n as nat),
{
    match xvii::Roman::new(n) {
        Ok(roman) => roman.to_uppercase(),
        Err(_) => String::new(),
    }
}

pub open spec fn suit_text(s: Suit) -> Seq<char> {
    match s {
        Suit::Rock => "Rock"@,
        Suit::Paper => "Paper"@,
        Suit::Blades => "Blade"@,
        Suit::Serpent => "Serpent"@,
        Suit::Unknown => "Unknown"@,
    }
}

pub open spec fn role_text(r: Role) -> Seq<char> {
    match r {
        Role::Ruler => "Ruler"@,
        Role::Dragon => "Dragon"@,
        Role::Treasure => "Treasure"@,
        Role::Builder => "Builder"@,
        Role::Seeker => "Seeker"@,
        Role::Soldier => "Soldier"@,
        Role::Lover => "Lover"@,
        Role::Servant => "Servant"@,
        Role::Home => "Home"@,
    }
}

/// A card can be written out: trump 0 has no Roman numeral.
pub open spec fn is_writable(c: Card) -> bool {
    c matches Card::Trump(n) ==> n >= 1
}

pub open spec fn card_text(c: Card) -> Seq<char> {
    match c {
        Card::Excuse => "Excuse"@,
        Card::Trump(i) => roman_numeral(i as nat) + " of Triumph"@,
        Card::Color(suit, role) => role_text(role) + " of "@ + suit_text(suit),
    }
}

pub open spec fn drawn_card_text(d: DrawnCard) -> Seq<char> {
    match d.face() {
        Orientation::Up => card_text(d.value()),
        Orientation::Reversed => card_text(d.value()) + " (Reversed)"@,
    }
}

pub open spec fn orientation_text(o: Orientation) -> Seq<char> {
    match o {
        Orientation::Up => "Up"@,
        Orientation::Reversed => "Reversed"@,
    }
}

pub open spec fn side_text(s: Side) -> Seq<char> {
    match s {
        Side::A => "A"@,
        Side::B => "B"@,
    }
}

pub open spec fn three_state_text(b: ThreeStateBalance) -> Seq<char> {
    match b {
        ThreeStateBalance::Balanced => "Balanced"@,
        ThreeStateBalance::Unbalanced(side) => "Advantage: "@ + side_text(side),
        ThreeStateBalance::Overwhelming(side) => "Overwhelming: "@ + side_text(side),
        ThreeStateBalance::Victory(side) => "Victory: "@ + side_text(side),
    }
}

pub open spec fn simulated_state_text(b: simulate::State) -> Seq<char> {
    match b {
        simulate::State::Balanced => "Balanced"@,
        simulate::State::Unbalanced(side) => "Advantage: "@ + side_text(side),
        simulate::State::Overwhelming(side) => "Overwhelming: "@ + side_text(side),
        simulate::State::Victory(side) => "Victory: "@ + side_text(side),
    }
}

pub open spec fn bidding_text(b: BiddingAdvantage) -> Seq<char> {
    match b {
        BiddingAdvantage::Balanced => "Balanced"@,
        BiddingAdvantage::Unbalanced(side, level) => "Advantage "@ + decimal(level as nat) + ": "@
            + side_text(side),
        BiddingAdvantage::Victory(side) => "Victory: "@ + side_text(side),
    }
}

/// The number of a card in the printed deck.
pub open spec fn card_number(c: Card) -> int {
    match c {
        Card::Excuse => 5,
        Card::Trump(n) => 5 + n,
        Card::Color(suit, figure) => {
            let start: int = match suit {
                Suit::Paper => 32,
                Suit::Unknown => 43,
                Suit::Rock => 54,
                Suit::Blades => 65,
                Suit::Serpent => 76,
            };
            let offset: int = match figure {
                Role::Ruler => 0,
                Role::Dragon => 1,
                Role::Treasure => 2,
                Role::Soldier => 3,
                Role::Builder => 4,
                Role::Seeker => 5,
                Role::Lover => 6,
                Role::Servant => 7,
                Role::Home => 8,
            };
            start + offset
        },
    }
}

/// The printed number of a card, followed by `+` when it lies face up and `-` when reversed.
pub open spec fn index_text(d: DrawnCard) -> Seq<char> {
    decimal(card_number(d.value()) as nat) + match d.face() {
        Orientation::Up => "+"@,
        Orientation::Reversed => "-"@,
    }
}

/// The printed numbers of the cards: the Excuse is 5 and trump `n` is `5 + n`; then come
/// the suits in the printed order Paper, Unknown, Rock, Blades, Serpent, eleven numbers
/// apart from 32, each with its roles in the printed order Ruler, Dragon, Treasure,
/// Soldier, Builder, Seeker, Lover, Servant, Home.
pub proof fn lemma_printed_numbers(n: u8, i: int, j: int)
    requires
        0 <= i < 5,
        0 <= j < 9,
    ensures
        card_number(Card::Excuse) == 5,
        card_number(Card::Trump(n)) == 5 + n,
        card_number(
            Card::Color(
                seq![Suit::Paper, Suit::Unknown, Suit::Rock, Suit::Blades, Suit::Serpent][i],
                seq![
                    Role::Ruler,
                    Role::Dragon,
                    Role::Treasure,
                    Role::Soldier,
                    Role::Builder,
                    Role::Seeker,
                    Role::Lover,
                    Role::Servant,
                    Role::Home,
                ][j],
            ),
        ) == 32 + 11 * i + j,
{
}

/// Distinct cards of the game carry distinct numbers.
pub proof fn lemma_card_number_injective(a: Card, b: Card)
    requires
        crate::deck::is_game_card(a),
        crate::deck::is_game_card(b),
        a != b,
    ensures
        card_number(a) != card_number(b),
{
}

/// A decimal writing has at least one digit, and exactly one below 10.
proof fn lemma_decimal_len(n: nat)
    ensures
        decimal(n).len() >= 1,
        decimal(n).len() == 1 <==> n < 10,
    decreases n,
{
    if n >= 10 {
        lemma_decimal_len(n / 10);
    }
}

/// Distinct numbers are written differently.
proof fn lemma_decimal_injective(n: nat, m: nat)
    requires
        decimal(n) == decimal(m),
    ensures
        n == m,
    decreases n,
{
    lemma_decimal_len(n);
    lemma_decimal_len(m);
    if n < 10 {
        assert(decimal(n)[0] == digit_char(n));
        assert(decimal(m)[0] == digit_char(m));
    } else {
        assert(decimal(n).drop_last() =~= decimal(n / 10));
        assert(decimal(m).drop_last() =~= decimal(m / 10));
        lemma_decimal_injective(n / 10, m / 10);
        assert(decimal(n).last() == digit_char(n % 10));
        assert(decimal(m).last() == digit_char(m % 10));
    }
}

/// The index of a card of the game tells the card and how it lies: two are written alike
/// exactly when they are the same card lying the same way. The number is 5 to 26 for the
/// Excuse and the trumps, 32 to 84 for the suits, and the index ends with `-` exactly when
/// the card lies reversed.
pub proof fn lemma_index_text_injective(a: DrawnCard, b: DrawnCard)
    requires
        crate::deck::is_game_card(a.value()),
        crate::deck::is_game_card(b.value()),
    ensures
        (index_text(a) == index_text(b)) <==> a == b,
        5 <= card_number(a.value()) <= 26 || 32 <= card_number(a.value()) <= 84,
        index_text(a).last() == if a.face() == Orientation::Reversed {
            '-'
        } else {
            '+'
        },
{
    lemma_drawn_card_eq(a, b);
    let na = card_number(a.value()) as nat;
    let nb = card_number(b.value()) as nat;
    reveal_strlit("+");
    reveal_strlit("-");
    lemma_decimal_len(na);
    lemma_decimal_len(nb);
    if index_text(a) == index_text(b) {
        assert(index_text(a).drop_last() =~= decimal(na));
        assert(index_text(b).drop_last() =~= decimal(nb));
        lemma_decimal_injective(na, nb);
        if a.value() != b.value() {
            lemma_card_number_injective(a.value(), b.value());
        }
        assert(index_text(a).last() == index_text(b).last());
    }
}

impl Suit {
    pub fn to_string(&self) -> (r: String)
        ensures
            r@ == suit_text(*self),
    {
        let name = match *self {
            Suit::Rock => "Rock",
            Suit::Paper => "Paper",
            Suit::Blades => "Blade",
            Suit::Serpent => "Serpent",
            Suit::Unknown => "Unknown",
        };
        String::from_str(name)
    }
}

impl Role {
    pub fn to_string(&self) -> (r: String)
        ensures
            r@ == role_text(*self),
    {
        let name = match *self {
            Role::Ruler => "Ruler",
            Role::Dragon => "Dragon",
            Role::Treasure => "Treasure",
            Role::Builder => "Builder",
            Role::Seeker => "Seeker",
            Role::Soldier => "Soldier",
            Role::Servant => "Servant",
            Role::Lover => "Lover",
            Role::Home => "Home",
        };
        String::from_str(name)
    }
}

impl Card {
    pub fn to_string(&self) -> (r: String)
        requires
            is_writable(*self),
        ensures
            r@ == card_text(*self),
    {
        match *self {
            Card::Excuse => String::from_str("Excuse"),
            Card::Trump(i) => {
                let numeral = roman_upper(i as u16);
                numeral.concat(" of Triumph")
            },
            Card::Color(suit, role) => {
                let s = role.to_string().concat(" of ");
                s.concat(suit.to_string().as_str())
            },
        }
    }
}

impl Orientation {
    pub fn to_string(&self) -> (r: String)
        ensures
            r@ == orientation_text(*self),
    {
        match *self {
            Orientation::Up => String::from_str("Up"),
            Orientation::Reversed => String::from_str("Reversed"),
        }
    }
}

impl DrawnCard {
    pub fn to_string(&self) -> (r: String)
        requires
            is_writable(self.value()),
        ensures
            r@ == drawn_card_text(*self),
    {
        match self.orientation() {
            Orientation::Up => self.card().to_string(),
            Orientation::Reversed => self.card().to_string().concat(" (Reversed)"),
        }
    }

    /// The printed number of the card, then `+` (face up) or `-` (reversed).
    pub fn index(&self) -> (r: String)
        requires
            self.value() matches Card::Trump(n) ==> n <= 250,
        ensures
            r@ == index_text(*self),
    {
        let num: u8 = match *self.card() {
            Card::Excuse => 5,
            Card::Trump(n) => 5 + n,
            Card::Color(suit, figure) => {
                let start: u8 = match suit {
                    Suit::Paper => 32,
                    Suit::Unknown => 43,
                    Suit::Rock => 54,
                    Suit::Blades => 65,
                    Suit::Serpent => 76,
                };
                let offset: u8 = match figure {
                    Role::Ruler => 0,
                    Role::Dragon => 1,
                    Role::Treasure => 2,
                    Role::Soldier => 3,
                    Role::Builder => 4,
                    Role::Seeker => 5,
                    Role::Lover => 6,
                    Role::Servant => 7,
                    Role::Home => 8,
                };
                start + offset
            },
        };
        let orientation = match self.orientation() {
            Orientation::Up => "+",
            Orientation::Reversed => "-",
        };
        decimal_text(num as usize).concat(orientation)
    }
}

impl Side {
    pub fn to_string(&self) -> (r: String)
        ensures
            r@ == side_text(*self),
    {
        match *self {
            Side::A => String::from_str("A"),
            Side::B => String::from_str("B"),
        }
    }
}

impl ThreeStateBalance {
    pub fn to_string(&self) -> (r: String)
        ensures
            r@ == three_state_text(*self),
    {
        match *self {
            ThreeStateBalance::Balanced => String::from_str("Balanced"),
            ThreeStateBalance::Unbalanced(side) => String::from_str("Advantage: ").concat(
                side.to_string().as_str(),
            ),
            ThreeStateBalance::Overwhelming(side) => String::from_str("Overwhelming: ").concat(
                side.to_string().as_str(),
            ),
            ThreeStateBalance::Victory(side) => String::from_str("Victory: ").concat(
                side.to_string().as_str(),
            ),
        }
    }
}

impl simulate::State {
    pub fn to_string(&self) -> (r: String)
        ensures
            r@ == simulated_state_text(*self),
    {
        match *self {
            simulate::State::Balanced => String::from_str("Balanced"),
            simulate::State::Unbalanced(side) => String::from_str("Advantage: ").concat(
                side.to_string().as_str(),
            ),
            simulate::State::Overwhelming(side) => String::from_str("Overwhelming: ").concat(
                side.to_string().as_str(),
            ),
            simulate::State::Victory(side) => String::from_str("Victory: ").concat(
                side.to_string().as_str(),
            ),
        }
    }
}

impl BiddingAdvantage {
    pub fn to_string(&self) -> (r: String)
        ensures
            r@ == bidding_text(*self),
    {
        match *self {
            BiddingAdvantage::Balanced => String::from_str("Balanced"),
            BiddingAdvantage::Unbalanced(side, level) => {
                let s = String::from_str("Advantage ").concat(decimal_text(level).as_str());
                s.concat(": ").concat(side.to_string().as_str())
            },
            BiddingAdvantage::Victory(side) => String::from_str("Victory: ").concat(
                side.to_string().as_str(),
            ),
        }
    }
}

/// The kind named on the command line: `any`, `triumph` or `figure`.
pub open spec fn kind_named(name: Seq<char>) -> Option<Kind> {
    if name == "any"@ {
        Some(Kind::Any)
    } else if name == "triumph"@ {
        Some(Kind::Triumph)
    } else if name == "figure"@ {
        Some(Kind::Figure)
    } else {
        None
    }
}

impl Kind {
    pub fn from_name(name: &str) -> (r: Option<Kind>)
        ensures
            r == kind_named(name@),
    {
        let name = String::from_str(name);
        if name == String::from_str("any") {
            Some(Kind::Any)
        } else if name == String::from_str("triumph") {
            Some(Kind::Triumph)
        } else if name == String::from_str("figure") {
            Some(Kind::Figure)
        } else {
            None
        }
    }
}

/// The starting balance named on the command line: `=`, `A`, `AA`, `B` or `BB`.
pub open spec fn balance_named(code: Seq<char>) -> Option<ThreeStateBalance> {
    if code == "="@ {
        Some(ThreeStateBalance::Balanced)
    } else if code == "A"@ {
        Some(ThreeStateBalance::Unbalanced(Side::A))
    } else if code == "B"@ {
        Some(ThreeStateBalance::Unbalanced(Side::B))
    } else if code == "AA"@ {
        Some(ThreeStateBalance::Overwhelming(Side::A))
    } else if code == "BB"@ {
        Some(ThreeStateBalance::Overwhelming(Side::B))
    } else {
        None
    }
}

impl ThreeStateBalance {
    pub fn from_code(code: &str) -> (r: Option<ThreeStateBalance>)
        ensures
            r == balance_named(code@),
    {
        let code = String::from_str(code);
        if code == String::from_str("=") {
            Some(ThreeStateBalance::Balanced)
        } else if code == String::from_str("A") {
            Some(ThreeStateBalance::Unbalanced(Side::A))
        } else if code == String::from_str("B") {
            Some(ThreeStateBalance::Unbalanced(Side::B))
        } else if code == String::from_str("AA") {
            Some(ThreeStateBalance::Overwhelming(Side::A))
        } else if code == String::from_str("BB") {
            Some(ThreeStateBalance::Overwhelming(Side::B))
        } else {
            None
        }
    }
}

} // verus!
