//! The conflict simulator's own rules: its suits, cards, deck and three-state balance,
//! where a drawn round may optionally move the balance back towards the middle.
use vstd::prelude::*;
use rand::rngs::StdRng;

use crate::balance::{other_side, Side};
use crate::cards::{reversed, Beats, Comparison, Role};
use crate::deck::{
    draw_step, draws_from, lemma_draws_from_concat, lemma_draws_from_none, lemma_draws_from_push,
    role_in_order, role_rank, shuffle_items,
};
use crate::draw::{
    index_pairs, index_product, lemma_index_pairs_bounded, lemma_index_pairs_len,
    lemma_settle_decided, settle,
};

verus! {

#[derive(PartialEq, Eq, Clone, Copy, Debug, Structural)]
pub enum Suit {
    Rock,
    Paper,
    Blades,
    Lizard,
    OutThere,
}

/// Where a suit stands on the cycle of suits: each suit beats the two that follow it.
pub open spec fn cycle_position(s: Suit) -> int {
    match s {
        Suit::Rock => 0,
        Suit::Blades => 1,
        Suit::Lizard => 2,
        Suit::Paper => 3,
        Suit::OutThere => 4,
    }
}

/// Outcome of a suit against another.
pub open spec fn suit_outcome(a: Suit, b: Suit) -> Comparison {
    let d = (cycle_position(b) - cycle_position(a)) % 5;
    if d == 0 {
        Comparison::Draw
    } else if d <= 2 {
        Comparison::Win
    } else {
        Comparison::Lose
    }
}

impl Suit {
    /// All suits.
    pub fn suits() -> (r: [Suit; 5])
        ensures
            r@ == seq![Suit::Rock, Suit::Paper, Suit::Blades, Suit::Lizard, Suit::OutThere],
    {
        [Suit::Rock, Suit::Paper, Suit::Blades, Suit::Lizard, Suit::OutThere]
    }
}

impl Beats for Suit {
    open spec fn comparable(&self, other: &Self) -> bool {
        true
    }

    fn beats(&self, other: &Self) -> (r: Comparison)
        ensures
            r == suit_outcome(*self, *other),
    {
        match (*self, *other) {
            (Suit::Rock, Suit::Rock) => Comparison::Draw,
            (Suit::Rock, Suit::Paper) | (Suit::Rock, Suit::OutThere) => Comparison::Lose,
            (Suit::Rock, Suit::Blades) | (Suit::Rock, Suit::Lizard) => Comparison::Win,
            (Suit::Paper, Suit::Paper) => Comparison::Draw,
            (Suit::Paper, Suit::Blades) | (Suit::Paper, Suit::Lizard) => Comparison::Lose,
            (Suit::Paper, Suit::Rock) | (Suit::Paper, Suit::OutThere) => Comparison::Win,
            (Suit::Blades, Suit::Blades) => Comparison::Draw,
            (Suit::Blades, Suit::Rock) | (Suit::Blades, Suit::OutThere) => Comparison::Lose,
            (Suit::Blades, Suit::Paper) | (Suit::Blades, Suit::Lizard) => Comparison::Win,
            (Suit::Lizard, Suit::Lizard) => Comparison::Draw,
            (Suit::Lizard, Suit::Rock) | (Suit::Lizard, Suit::Blades) => Comparison::Lose,
            (Suit::Lizard, Suit::OutThere) | (Suit::Lizard, Suit::Paper) => Comparison::Win,
            (Suit::OutThere, Suit::OutThere) => Comparison::Draw,
            (Suit::OutThere, Suit::Paper) | (Suit::OutThere, Suit::Lizard) => Comparison::Lose,
            (Suit::OutThere, Suit::Rock) | (Suit::OutThere, Suit::Blades) => Comparison::Win,
        }
    }
}

/// Confronting two suits in either order gives opposite outcomes.
pub proof fn lemma_suit_outcome_antisymmetric(a: Suit, b: Suit)
    ensures
        suit_outcome(b, a) == reversed(suit_outcome(a, b)),
{
}

#[derive(PartialEq, Eq, Clone, Copy, Debug, Structural)]
pub enum Card {
    Excuse,
    /// Numbered from 1 to 21.
    Trump(u8),
    Color(Suit, Role),
}

/// Outcome of a card against another.
pub open spec fn card_outcome(a: Card, b: Card) -> Comparison {
    match (a, b) {
        (Card::Excuse, _) => Comparison::Excuse,
        (_, Card::Excuse) => Comparison::Excuse,
        (Card::Trump(me), Card::Trump(them)) => if me < them {
            Comparison::Lose
        } else if me > them {
            Comparison::Win
        } else {
            Comparison::Draw
        },
        (Card::Trump(_), _) => Comparison::Win,
        (_, Card::Trump(_)) => Comparison::Lose,
        (Card::Color(me, _), Card::Color(them, _)) => suit_outcome(me, them),
    }
}

impl Beats for Card {
    open spec fn comparable(&self, other: &Self) -> bool {
        true
    }

    /// Two equal cards meet only when a reshuffle puts a card drawn earlier back in play;
    /// they are confronted like any two cards.
    fn beats(&self, other: &Card) -> (r: Comparison)
        ensures
            r == card_outcome(*self, *other),
    {
        match (self, other) {
            (Card::Excuse, _) | (_, Card::Excuse) => Comparison::Excuse,
            (Card::Trump(me), Card::Trump(them)) => {
                if *me < *them {
                    Comparison::Lose
                } else if *me > *them {
                    Comparison::Win
                } else {
                    Comparison::Draw
                }
            },
            (Card::Trump(_), _) => Comparison::Win,
            (_, Card::Trump(_)) => Comparison::Lose,
            (Card::Color(me, _), Card::Color(them, _)) => me.beats(them),
        }
    }
}

/// Confronting two cards in either order gives opposite outcomes.
pub proof fn lemma_card_outcome_antisymmetric(a: Card, b: Card)
    ensures
        card_outcome(b, a) == reversed(card_outcome(a, b)),
{
    match (a, b) {
        (Card::Color(x, _), Card::Color(y, _)) => lemma_suit_outcome_antisymmetric(x, y),
        _ => {},
    }
}

/// The outcome of every card of `mine` against every card of `theirs`, in lexicographic order.
pub open spec fn pair_outcomes(mine: Seq<Card>, theirs: Seq<Card>) -> Seq<Comparison> {
    index_pairs(mine.len(), theirs.len()).map_values(
        |p: (usize, usize)| card_outcome(mine[p.0 as int], theirs[p.1 as int]),
    )
}

/// The outcome of a hand against another.
pub open spec fn hand_outcome(mine: Seq<Card>, theirs: Seq<Card>) -> Comparison {
    settle(pair_outcomes(mine, theirs))
}

/// The cards a side holds in one round.
#[verifier::external_body]
pub struct Hand {
    cards: smallvec::SmallVec<[Card; 2]>,
}

/// The cards held in a hand, in the order they were added.
pub uninterp spec fn hand_cards(h: Hand) -> Seq<Card>;

/// `SmallVec::new`: an empty vector.
#[verifier::external_body]
fn smallvec_new() -> (r: Hand)
    ensures
        hand_cards(r) == Seq::<Card>::empty(),
{
    Hand { cards: smallvec::SmallVec::new() }
}

/// `SmallVec::push`: appends at the end.
#[verifier::external_body]
fn smallvec_push(h: &mut Hand, c: Card)
    ensures
        hand_cards(*final(h)) == hand_cards(*old(h)).push(c),
{
    h.cards.push(c)
}

/// `SmallVec::len`: the number of items.
#[verifier::external_body]
fn smallvec_len(h: &Hand) -> (r: usize)
    ensures
        r == hand_cards(*h).len(),
{
    h.cards.len()
}

/// Indexing a `SmallVec` (through its slice) within bounds.
#[verifier::external_body]
fn smallvec_at(h: &Hand, i: usize) -> (r: &Card)
    requires
        i < hand_cards(*h).len(),
    ensures
        *r == hand_cards(*h)[i as int],
{
    &h.cards[i]
}

impl Hand {
    pub fn new() -> (r: Hand)
        ensures
            hand_cards(r) == Seq::<Card>::empty(),
    {
        smallvec_new()
    }

    pub fn push(&mut self, c: Card)
        ensures
            hand_cards(*final(self)) == hand_cards(*old(self)).push(c),
    {
        smallvec_push(self, c)
    }

    pub fn len(&self) -> (r: usize)
        ensures
            r == hand_cards(*self).len(),
    {
        smallvec_len(self)
    }

    pub fn get(&self, i: usize) -> (r: &Card)
        requires
            i < hand_cards(*self).len(),
        ensures
            *r == hand_cards(*self)[i as int],
    {
        smallvec_at(self, i)
    }
}

impl Beats for Hand {
    open spec fn comparable(&self, other: &Self) -> bool {
        hand_cards(*self).len() > 0 && hand_cards(*other).len() > 0
    }

    /// Every card of `self` is confronted with every card of `other`, in order; the first
    /// Excuse or Win decides, else any Draw makes a Draw, else `self` loses. `self` is the
    /// hand with the advantage.
    fn beats(&self, other: &Self) -> (r: Comparison)
        ensures
            r == hand_outcome(hand_cards(*self), hand_cards(*other)),
    {
        let ghost mine = hand_cards(*self);
        let ghost theirs = hand_cards(*other);
        let n = self.len();
        let m = other.len();
        let pairs = index_product(n, m);
        proof {
            lemma_index_pairs_len(n as nat, m as nat);
            assert((n as nat) * (m as nat) > 0) by (nonlinear_arith)
                requires
                    n > 0,
                    m > 0,
            ;
        }
        let ghost outs = pair_outcomes(mine, theirs);
        let mut best: Option<Comparison> = None;
        let mut k: usize = 0;
        while k < pairs.len()
            invariant
                pairs@ == index_pairs(n as nat, m as nat),
                n == mine.len(),
                m == theirs.len(),
                mine == hand_cards(*self),
                theirs == hand_cards(*other),
                outs == pair_outcomes(mine, theirs),
                outs.len() == pairs@.len(),
                k <= pairs@.len(),
                best is None <==> k == 0,
                k > 0 ==> best == Some(settle(outs.take(k as int))),
                settle(outs.take(k as int)) != Comparison::Excuse,
                settle(outs.take(k as int)) != Comparison::Win,
            decreases pairs@.len() - k,
        {
            let (i, j) = pairs[k];
            proof {
                lemma_index_pairs_bounded(n as nat, m as nat, k as int);
                assert(outs.take(k as int + 1).drop_last() =~= outs.take(k as int));
            }
            match self.get(i).beats(other.get(j)) {
                Comparison::Excuse => {
                    proof {
                        lemma_settle_decided(outs, k as int + 1);
                    }
                    return Comparison::Excuse;
                },
                Comparison::Win => {
                    proof {
                        lemma_settle_decided(outs, k as int + 1);
                    }
                    return Comparison::Win;
                },
                Comparison::Lose => {
                    if best.is_none() {
                        best = Some(Comparison::Lose);
                    }
                },
                Comparison::Draw => {
                    best = Some(Comparison::Draw);
                },
            }
            k = k + 1;
        }
        assert(outs.take(k as int) =~= outs);
        best.unwrap()
    }
}

/// The suits in the order the deck is built.
pub open spec fn suit_in_order(i: int) -> Suit {
    if i == 0 {
        Suit::Rock
    } else if i == 1 {
        Suit::Paper
    } else if i == 2 {
        Suit::Blades
    } else if i == 3 {
        Suit::Lizard
    } else {
        Suit::OutThere
    }
}

pub open spec fn suit_rank(s: Suit) -> int {
    match s {
        Suit::Rock => 0,
        Suit::Paper => 1,
        Suit::Blades => 2,
        Suit::Lizard => 3,
        Suit::OutThere => 4,
    }
}

/// The cards of the game, in the order a deck is built before it is shuffled.
pub open spec fn full_deck() -> Seq<Card> {
    seq![Card::Excuse] + Seq::new(21, |i: int| Card::Trump((i + 1) as u8)) + Seq::new(
        45,
        |k: int| Card::Color(suit_in_order(k / 9), role_in_order(k % 9)),
    )
}

/// A card of the game: trumps are numbered from 1 to 21.
pub open spec fn is_game_card(c: Card) -> bool {
    c matches Card::Trump(n) ==> 1 <= n <= 21
}

/// Where a card stands in the unshuffled deck.
pub open spec fn deck_position(c: Card) -> int {
    match c {
        Card::Excuse => 0,
        Card::Trump(n) => n as int,
        Card::Color(s, r) => 22 + 9 * suit_rank(s) + role_rank(r),
    }
}

proof fn lemma_color_position(k: int)
    requires
        0 <= k < 45,
    ensures
        9 * suit_rank(suit_in_order(k / 9)) + role_rank(role_in_order(k % 9)) == k,
{
    assert(0 <= k / 9 < 5 && 0 <= k % 9 < 9 && 9 * (k / 9) + k % 9 == k) by (nonlinear_arith)
        requires
            0 <= k < 45,
    ;
}

/// The deck holds 67 cards: every card of the game, each exactly once.
pub proof fn lemma_full_deck()
    ensures
        full_deck().len() == 67,
        full_deck().no_duplicates(),
        forall|c: Card| full_deck().contains(c) <==> is_game_card(c),
{
    let d = full_deck();
    assert forall|i: int| 0 <= i < 67 implies deck_position(#[trigger] d[i]) == i by {
        if i >= 22 {
            lemma_color_position(i - 22);
        }
    }
    assert forall|i: int, j: int| 0 <= i < d.len() && 0 <= j < d.len() && i != j implies d[i]
        != d[j] by {
        assert(deck_position(d[i]) == i);
        assert(deck_position(d[j]) == j);
    }
    assert forall|c: Card| d.contains(c) implies is_game_card(c) by {
        let i = choose|i: int| 0 <= i < d.len() && d[i] == c;
        if i >= 22 {
            lemma_color_position(i - 22);
        }
    }
    assert forall|c: Card| is_game_card(c) implies d.contains(c) by {
        let i = deck_position(c);
        match c {
            Card::Color(s, r) => {
                lemma_color_position(i - 22);
                assert((i - 22) / 9 == suit_rank(s) && (i - 22) % 9 == role_rank(r)) by (
                nonlinear_arith)
                    requires
                        i - 22 == 9 * suit_rank(s) + role_rank(r),
                        0 <= suit_rank(s) < 5,
                        0 <= role_rank(r) < 9,
                ;
            },
            _ => {},
        }
        assert(d[i] == c);
    }
}

/// A deck whose cards are those of the game in any order holds 67 cards, each card of the
/// game exactly once.
pub proof fn lemma_shuffled_deck(d: Seq<Card>)
    requires
        d.to_multiset() == full_deck().to_multiset(),
    ensures
        d.len() == 67,
        d.no_duplicates(),
        forall|c: Card| d.contains(c) <==> is_game_card(c),
{
    broadcast use vstd::seq_lib::group_to_multiset_ensures;
    broadcast use vstd::multiset::group_multiset_axioms;

    lemma_full_deck();
    assert(d.len() == d.to_multiset().len());
    assert(full_deck().len() == full_deck().to_multiset().len());
    full_deck().lemma_multiset_has_no_duplicates();
    assert forall|x: Card| d.to_multiset().contains(x) implies d.to_multiset().count(x) == 1 by {
        assert(full_deck().to_multiset().contains(x));
    }
    d.lemma_multiset_has_no_duplicates_conv();
    assert forall|c: Card| d.contains(c) <==> is_game_card(c) by {
        assert(d.contains(c) <==> d.to_multiset().count(c) > 0);
        assert(full_deck().contains(c) <==> full_deck().to_multiset().count(c) > 0);
    }
}

/// Cards of the game, each at most once.
pub open spec fn holds_game_cards(s: Seq<Card>) -> bool {
    &&& s.no_duplicates()
    &&& forall|i: int| 0 <= i < s.len() ==> is_game_card(#[trigger] s[i])
}

/// Taking the top card of a deck of game cards leaves a deck of game cards without it.
proof fn lemma_take_top(s: Seq<Card>)
    requires
        s.len() > 0,
        holds_game_cards(s),
    ensures
        holds_game_cards(s.drop_last()),
        is_game_card(s.last()),
        !s.drop_last().contains(s.last()),
{
    assert(is_game_card(s[s.len() - 1]));
    if s.drop_last().contains(s.last()) {
        let i = choose|i: int| 0 <= i < s.drop_last().len() && s.drop_last()[i] == s.last();
        assert(s[i] == s[s.len() - 1]);
    }
    assert forall|i: int| 0 <= i < s.drop_last().len() implies is_game_card(
        #[trigger] s.drop_last()[i],
    ) by {
        assert(is_game_card(s[i]));
    }
}

/// A deck of cards; the top of the deck is the end of the vector.
pub struct Deck(Vec<Card>);

impl Deck {
    /// Every deck holds cards of the game, each at most once.
    #[verifier::type_invariant]
    spec fn holds_game_cards(self) -> bool {
        holds_game_cards(self.0@)
    }
}

impl View for Deck {
    type V = Seq<Card>;

    closed spec fn view(&self) -> Seq<Card> {
        self.0@
    }
}

impl Deck {
    /// A new deck holding every card of the game once, in random order.
    pub fn shuffle(rng: &mut StdRng) -> (r: Deck)
        ensures
            r@.len() == 67,
            r@.to_multiset() == full_deck().to_multiset(),
            holds_game_cards(r@),
    {
        let mut deck: Vec<Card> = Vec::new();
        // Excuse
        deck.push(Card::Excuse);
        // Trump
        for i in 1u8..22u8
            invariant
                deck@ =~= full_deck().take(i as int),
        {
            deck.push(Card::Trump(i));
        }
        // Each suit
        let suits = [Suit::Rock, Suit::Paper, Suit::Blades, Suit::Lizard, Suit::OutThere];
        let roles = [
            Role::Ruler,
            Role::Dragon,
            Role::Treasure,
            Role::Builder,
            Role::Seeker,
            Role::Soldier,
            Role::Lover,
            Role::Servant,
            Role::Home,
        ];
        for si in 0usize..5
            invariant
                deck@ =~= full_deck().take(22 + 9 * si),
                suits@ == seq![Suit::Rock, Suit::Paper, Suit::Blades, Suit::Lizard, Suit::OutThere],
                roles@ == seq![
                    Role::Ruler,
                    Role::Dragon,
                    Role::Treasure,
                    Role::Builder,
                    Role::Seeker,
                    Role::Soldier,
                    Role::Lover,
                    Role::Servant,
                    Role::Home,
                ],
        {
            for ri in 0usize..9
                invariant
                    0 <= si < 5,
                    deck@ =~= full_deck().take(22 + 9 * si + ri),
                    suits@ == seq![Suit::Rock, Suit::Paper, Suit::Blades, Suit::Lizard, Suit::OutThere],
                    roles@ == seq![
                        Role::Ruler,
                        Role::Dragon,
                        Role::Treasure,
                        Role::Builder,
                        Role::Seeker,
                        Role::Soldier,
                        Role::Lover,
                        Role::Servant,
                        Role::Home,
                    ],
            {
                proof {
                    let k = 9 * si + ri;
                    assert(k / 9 == si && k % 9 == ri) by (nonlinear_arith)
                        requires
                            k == 9 * si + ri,
                            0 <= ri < 9,
                    ;
                }
                deck.push(Card::Color(suits[si], roles[ri]));
            }
        }
        assert(deck@ =~= full_deck());
        proof {
            lemma_full_deck();
        }
        // Now shuffle
        shuffle_items(rng, &mut deck);
        proof {
            lemma_shuffled_deck(deck@);
            assert forall|i: int| 0 <= i < deck@.len() implies is_game_card(#[trigger] deck@[i]) by {
                assert(deck@.contains(deck@[i]));
            }
        }
        Deck(deck)
    }

    /// Takes the top card; an empty deck is first replaced by a new shuffled deck.
    pub fn next(&mut self, rng: &mut StdRng) -> (r: Card)
        ensures
            draw_step(full_deck(), old(self)@, r, final(self)@),
            old(self)@.len() > 0 ==> *final(rng) == *old(rng),
            holds_game_cards(old(self)@),
            holds_game_cards(final(self)@),
            is_game_card(r),
            !final(self)@.contains(r),
    {
        proof {
            use_type_invariant(&*self);
        }
        let mut cards: Vec<Card> = Vec::new();
        std::mem::swap(&mut self.0, &mut cards);
        if let Some(result) = cards.pop() {
            proof {
                lemma_take_top(cards@.push(result));
                assert(cards@.push(result).drop_last() =~= cards@);
            }
            self.0 = cards;
            return result;
        }
        // Otherwise, the deck is empty. Reshuffle.

        *self = Self::shuffle(rng);
        let mut cards: Vec<Card> = Vec::new();
        std::mem::swap(&mut self.0, &mut cards);
        let ghost full = cards@;
        let r = cards.pop().unwrap();  // We just reshuffled, it can't be empty.
        proof {
            assert(cards@.push(r) =~= full);
            assert(full.drop_last() =~= cards@);
            lemma_take_top(full);
        }
        self.0 = cards;
        r
    }
}

/// How the simulator treats a drawn round.
pub struct Options {
    /// When set, a drawn round moves the balance back towards the middle.
    pub draw_rebalaces: bool,
}

/// The balance of a simulated conflict.
#[derive(PartialEq, Eq, Clone, Copy, Hash, Debug, Structural)]
pub enum State {
    Balanced,
    Unbalanced(Side),
    Overwhelming(Side),
    Victory(Side),
}

/// The balance after one round won by `towards` (`None`: nobody).
pub open spec fn shifted(b: State, towards: Option<Side>) -> State {
    match (b, towards) {
        (State::Balanced, None) => State::Balanced,
        (State::Balanced, Some(side)) => State::Unbalanced(side),
        (State::Unbalanced(_), None) => State::Balanced,
        (State::Unbalanced(side), Some(side_)) => if side == side_ {
            State::Overwhelming(side)
        } else {
            State::Balanced
        },
        (State::Overwhelming(side), None) => State::Unbalanced(side),
        (State::Overwhelming(side), Some(side_)) => if side == side_ {
            State::Victory(side)
        } else {
            State::Unbalanced(side)
        },
        (State::Victory(side), _) => State::Victory(side),
    }
}

/// The side with the advantage, which draws the hand that is confronted first.
pub open spec fn leader(b: State) -> Side {
    match b {
        State::Balanced => Side::A,
        State::Unbalanced(s) => s,
        State::Overwhelming(s) => s,
        State::Victory(s) => s,
    }
}

/// How many cards the leader draws in a round.
pub open spec fn leader_cards(b: State) -> nat {
    match b {
        State::Balanced => 1,
        _ => 2,
    }
}

/// How many cards the other side draws in a round.
pub open spec fn follower_cards(b: State) -> nat {
    match b {
        State::Overwhelming(_) => 2,
        _ => 1,
    }
}

/// The balance after a round, given how the leader's hand fared.
pub open spec fn round_result(b: State, c: Comparison, draw_rebalances: bool) -> State {
    match c {
        Comparison::Excuse => shifted(b, None),
        Comparison::Win => shifted(b, Some(leader(b))),
        Comparison::Lose => shifted(b, Some(other_side(leader(b)))),
        Comparison::Draw => if draw_rebalances {
            shifted(b, None)
        } else {
            b
        },
    }
}

/// The `k` cards on top of a deck, topmost first.
pub open spec fn top_cards(deck: Seq<Card>, k: nat) -> Seq<Card> {
    Seq::new(k, |i: int| deck[deck.len() - 1 - i])
}

/// The balance after a round from `b` whose hands are drawn from the top of `deck`.
pub open spec fn round_from_top(b: State, deck: Seq<Card>, draw_rebalances: bool) -> State {
    let top = top_cards(deck, leader_cards(b) + follower_cards(b));
    round_result(
        b,
        hand_outcome(top.take(leader_cards(b) as int), top.skip(leader_cards(b) as int)),
        draw_rebalances,
    )
}

/// Playing `n` rounds from `b`, the hands drawn from the top of `deck` and stopping at a
/// victory: the balance reached, and how many cards were drawn.
pub open spec fn play_from(b: State, deck: Seq<Card>, n: nat, draw_rebalances: bool) -> (State, nat)
    decreases n,
{
    if n == 0 || b is Victory {
        (b, 0)
    } else {
        let k = leader_cards(b) + follower_cards(b);
        let rest = play_from(
            round_from_top(b, deck, draw_rebalances),
            deck.take(deck.len() - k),
            (n - 1) as nat,
            draw_rebalances,
        );
        (rest.0, rest.1 + k)
    }
}

/// Playing up to `n` rounds from `b`, stopping at a victory, each round's hands taken in
/// order from the front of `cards`, the leader's first: the balance reached, and how many
/// cards the rounds took.
pub open spec fn play_cards(b: State, cards: Seq<Card>, n: nat, draw_rebalances: bool) -> (
    State,
    nat,
)
    decreases n,
{
    if n == 0 || b is Victory {
        (b, 0)
    } else {
        let l = leader_cards(b);
        let k = l + follower_cards(b);
        let c = hand_outcome(cards.take(l as int), cards.subrange(l as int, k as int));
        let rest = play_cards(
            round_result(b, c, draw_rebalances),
            cards.skip(k as int),
            (n - 1) as nat,
            draw_rebalances,
        );
        (rest.0, rest.1 + k)
    }
}

/// Playing one more round from `b`, with the hands `over` and `under`, after the cards
/// `drawn` have been played from `start`.
proof fn lemma_play_cards_round(
    start: State,
    drawn: Seq<Card>,
    total: nat,
    b: State,
    m: nat,
    over: Seq<Card>,
    under: Seq<Card>,
    draw_rebalances: bool,
)
    requires
        forall|ext: Seq<Card>| #[trigger]
            play_cards(start, drawn + ext, total, draw_rebalances) == (
                play_cards(b, ext, m, draw_rebalances).0,
                play_cards(b, ext, m, draw_rebalances).1 + drawn.len(),
            ),
        m > 0,
        !(b is Victory),
        over.len() == leader_cards(b),
        under.len() == follower_cards(b),
    ensures
        forall|ext: Seq<Card>| #[trigger]
            play_cards(start, (drawn + (over + under)) + ext, total, draw_rebalances) == (
                play_cards(
                    round_result(b, hand_outcome(over, under), draw_rebalances),
                    ext,
                    (m - 1) as nat,
                    draw_rebalances,
                ).0,
                play_cards(
                    round_result(b, hand_outcome(over, under), draw_rebalances),
                    ext,
                    (m - 1) as nat,
                    draw_rebalances,
                ).1 + (drawn + (over + under)).len(),
            ),
{
    let x = over + under;
    let l = leader_cards(b);
    let k = l + follower_cards(b);
    let next = round_result(b, hand_outcome(over, under), draw_rebalances);
    assert forall|ext: Seq<Card>| #[trigger]
        play_cards(start, (drawn + x) + ext, total, draw_rebalances) == (
            play_cards(next, ext, (m - 1) as nat, draw_rebalances).0,
            play_cards(next, ext, (m - 1) as nat, draw_rebalances).1 + (drawn + x).len(),
        ) by {
        let ext2 = x + ext;
        assert((drawn + x) + ext =~= drawn + ext2);
        assert(ext2.take(l as int) =~= over);
        assert(ext2.subrange(l as int, k as int) =~= under);
        assert(ext2.skip(k as int) =~= ext);
        assert(play_cards(start, drawn + ext2, total, draw_rebalances) == (
            play_cards(b, ext2, m, draw_rebalances).0,
            play_cards(b, ext2, m, draw_rebalances).1 + drawn.len(),
        ));
    }
}

/// The balance reached by playing rounds from `b` in which the leader's hand fared as `cs`
/// says, in order.
pub open spec fn play_outcomes(b: State, cs: Seq<Comparison>, draw_rebalances: bool) -> State
    decreases cs.len(),
{
    if cs.len() == 0 {
        b
    } else {
        round_result(play_outcomes(b, cs.drop_last(), draw_rebalances), cs.last(), draw_rebalances)
    }
}

/// Once the rounds have ended in a victory, further rounds change nothing.
proof fn lemma_play_outcomes_after_victory(
    b: State,
    cs: Seq<Comparison>,
    n: nat,
    draw_rebalances: bool,
)
    requires
        play_outcomes(b, cs, draw_rebalances) is Victory,
    ensures
        play_outcomes(b, cs + Seq::new(n, |i: int| Comparison::Draw), draw_rebalances)
            == play_outcomes(b, cs, draw_rebalances),
    decreases n,
{
    let padded = cs + Seq::new(n, |i: int| Comparison::Draw);
    if n > 0 {
        let shorter = cs + Seq::new((n - 1) as nat, |i: int| Comparison::Draw);
        assert(padded.drop_last() =~= shorter);
        lemma_play_outcomes_after_victory(b, cs, (n - 1) as nat, draw_rebalances);
    } else {
        assert(padded =~= cs);
    }
}

/// Draws `count` cards from the deck into a hand.
fn deal(deck: &mut Deck, rng: &mut StdRng, count: usize) -> (r: Hand)
    ensures
        hand_cards(r).len() == count,
        old(deck)@.len() >= count ==> hand_cards(r) == top_cards(old(deck)@, count as nat)
            && final(deck)@ == old(deck)@.take(old(deck)@.len() - count),
        draws_from(full_deck(), old(deck)@, hand_cards(r), final(deck)@),
{
    let ghost deck0 = deck@;
    let mut hand = Hand::new();
    proof {
        lemma_draws_from_none(full_deck(), deck0);
    }
    let mut k: usize = 0;
    while k < count
        invariant
            k <= count,
            hand_cards(hand).len() == k,
            deck0 == old(deck)@,
            deck0.len() >= count ==> hand_cards(hand) == top_cards(deck0, k as nat) && deck@
                == deck0.take(deck0.len() - k),
            draws_from(full_deck(), deck0, hand_cards(hand), deck@),
        decreases count - k,
    {
        let ghost before = hand_cards(hand);
        let ghost deck_before = deck@;
        let c = deck.next(rng);
        hand.push(c);
        proof {
            lemma_draws_from_push(full_deck(), deck0, before, deck_before, c, deck@);
            if deck0.len() >= count {
                assert(hand_cards(hand) =~= top_cards(deck0, (k + 1) as nat));
                assert(deck@ =~= deck0.take(deck0.len() - (k + 1)));
            }
        }
        k = k + 1;
    }
    hand
}

impl State {
    pub fn shift(self, towards: Option<Side>) -> (r: State)
        ensures
            r == shifted(self, towards),
    {
        match (self, towards) {
            (State::Balanced, None) => State::Balanced,
            (State::Balanced, Some(side)) => State::Unbalanced(side),
            (State::Unbalanced(_), None) => State::Balanced,
            (State::Unbalanced(side), Some(side_)) => if side == side_ {
                State::Overwhelming(side)
            } else {
                State::Balanced
            },
            (State::Overwhelming(side), None) => State::Unbalanced(side),
            (State::Overwhelming(side), Some(side_)) => if side == side_ {
                State::Victory(side)
            } else {
                State::Unbalanced(side)
            },
            (State::Victory(side), _) => State::Victory(side),
        }
    }

    /// The balance after a round in which the leader's hand `over` met the other side's
    /// hand `under`.
    pub fn after_round(self, over: &Hand, under: &Hand, options: &Options) -> (r: State)
        requires
            !(self is Victory),
            hand_cards(*over).len() > 0,
            hand_cards(*under).len() > 0,
        ensures
            r == round_result(
                self,
                hand_outcome(hand_cards(*over), hand_cards(*under)),
                options.draw_rebalaces,
            ),
    {
        let who = match self {
            State::Balanced => Side::A,
            State::Unbalanced(side) => side,
            State::Overwhelming(side) => side,
            State::Victory(side) => side,
        };
        match over.beats(under) {
            Comparison::Excuse => self.shift(None),
            Comparison::Win => self.shift(Some(who)),
            Comparison::Lose => self.shift(Some(who.rev())),
            Comparison::Draw => if options.draw_rebalaces {
                self.shift(None)
            } else {
                self
            },
        }
    }

    /// Plays one round, drawing the hands from `deck`; a victory is final.
    pub fn next(self, rng: &mut StdRng, deck: &mut Deck, options: &Options) -> (r: State)
        ensures
            self is Victory ==> r == self && final(deck)@ == old(deck)@ && *final(rng) == *old(rng),
            !(self is Victory) ==> exists|over: Seq<Card>, under: Seq<Card>|
                #![trigger hand_outcome(over, under)]
                {
                    &&& over.len() == leader_cards(self)
                    &&& under.len() == follower_cards(self)
                    &&& r == round_result(self, hand_outcome(over, under), options.draw_rebalaces)
                    &&& draws_from(full_deck(), old(deck)@, over + under, final(deck)@)
                    &&& old(deck)@.len() >= leader_cards(self) + follower_cards(self) ==> {
                        &&& over + under == top_cards(
                            old(deck)@,
                            leader_cards(self) + follower_cards(self),
                        )
                        &&& final(deck)@ == old(deck)@.take(
                            old(deck)@.len() - (leader_cards(self) + follower_cards(self)),
                        )
                    }
                },
            !(self is Victory) && old(deck)@.len() >= leader_cards(self) + follower_cards(self)
                ==> r == round_from_top(self, old(deck)@, options.draw_rebalaces),
    {
        let ghost deck0 = deck@;
        let (over, under) = match self {
            State::Balanced => {
                let over = deal(deck, rng, 1);
                let ghost mid = deck@;
                let under = deal(deck, rng, 1);
                proof {
                    let (a, b) = (hand_cards(over), hand_cards(under));
                    lemma_draws_from_concat(full_deck(), deck0, a, mid, b, deck@);
                }
                (over, under)
            },
            State::Unbalanced(_) => {
                let over = deal(deck, rng, 2);
                let ghost mid = deck@;
                let under = deal(deck, rng, 1);
                proof {
                    let (a, b) = (hand_cards(over), hand_cards(under));
                    lemma_draws_from_concat(full_deck(), deck0, a, mid, b, deck@);
                }
                (over, under)
            },
            State::Overwhelming(_) => {
                let over = deal(deck, rng, 2);
                let ghost mid = deck@;
                let under = deal(deck, rng, 2);
                proof {
                    let (a, b) = (hand_cards(over), hand_cards(under));
                    lemma_draws_from_concat(full_deck(), deck0, a, mid, b, deck@);
                }
                (over, under)
            },
            State::Victory(side) => return State::Victory(side),
        };
        proof {
            let n = leader_cards(self) + follower_cards(self);
            if deck0.len() >= n {
                let top = top_cards(deck0, n);
                assert(hand_cards(over) + hand_cards(under) =~= top);
                assert(top.take(leader_cards(self) as int) =~= hand_cards(over));
                assert(top.skip(leader_cards(self) as int) =~= hand_cards(under));
            }
        }
        let r = self.after_round(&over, &under, options);
        proof {
            assert(hand_cards(under).len() <= hand_cards(over).len());
        }
        r
    }
}

/// A victory is final, and a round moves the balance at most one step.
pub proof fn lemma_round_result(b: State, c: Comparison, draw_rebalances: bool)
    ensures
        b is Victory ==> round_result(b, c, draw_rebalances) == b,
        c == Comparison::Draw && !draw_rebalances ==> round_result(b, c, draw_rebalances) == b,
        round_result(b, c, draw_rebalances) is Victory ==> (b is Victory || (b is Overwhelming
            && c == Comparison::Win)),
{
}

/// The balance as a number from -3 (victory of B) to 3 (victory of A).
pub open spec fn score(b: State) -> int {
    match b {
        State::Balanced => 0,
        State::Unbalanced(s) => crate::balance::side_sign(s),
        State::Overwhelming(s) => 2 * crate::balance::side_sign(s),
        State::Victory(s) => 3 * crate::balance::side_sign(s),
    }
}

/// Each shift moves the balance one step, told by its score (-3 to 3, positive for side
/// A): towards the side that won the round, or, when nobody won, back towards 0 (staying at
/// 0 from a balanced conflict); a victory is final.
pub proof fn lemma_shift_steps(b: State, towards: Option<Side>)
    ensures
        b is Victory ==> shifted(b, towards) == b,
        !(b is Victory) ==> score(shifted(b, towards)) == match towards {
            Some(s) => score(b) + crate::balance::side_sign(s),
            None => crate::state::towards_zero(score(b)),
        },
{
}

/// Two simulated balances with the same score are the same balance.
pub proof fn lemma_score_injective(a: State, b: State)
    ensures
        score(a) == score(b) <==> a == b,
{
}

/// How a round moves the simulated balance, with `leader(b)` leading: a winning hand moves
/// it one step towards the leader, a losing one towards the other side; the Excuse, and a
/// drawn confrontation when draws rebalance, move it one step back towards 0; a drawn
/// confrontation otherwise leaves it. After a victory nothing moves.
pub proof fn lemma_round_result_steps(b: State, c: Comparison, draw_rebalances: bool)
    ensures
        b is Victory ==> round_result(b, c, draw_rebalances) == b,
        !(b is Victory) ==> score(round_result(b, c, draw_rebalances)) == match c {
            Comparison::Win => score(b) + crate::balance::side_sign(leader(b)),
            Comparison::Lose => score(b) - crate::balance::side_sign(leader(b)),
            Comparison::Excuse => crate::state::towards_zero(score(b)),
            Comparison::Draw => if draw_rebalances {
                crate::state::towards_zero(score(b))
            } else {
                score(b)
            },
        },
{
}

/// A round moves the score by at most one.
pub proof fn lemma_round_result_score(b: State, c: Comparison, draw_rebalances: bool)
    ensures
        -1 <= score(round_result(b, c, draw_rebalances)) - score(b) <= 1,
{
}

impl State {
    /// Plays up to `rounds` rounds from `self`, stopping at a victory.
    #[verifier::rlimit(40)]
    pub fn play(self, rng: &mut StdRng, deck: &mut Deck, options: &Options, rounds: usize) -> (r: State)
        ensures
            self is Victory ==> r == self,
            -(rounds as int) <= score(r) - score(self) <= rounds,
            exists|cs: Seq<Comparison>|
                #![trigger play_outcomes(self, cs, options.draw_rebalaces)]
                cs.len() == rounds && r == play_outcomes(self, cs, options.draw_rebalaces),
            exists|cards: Seq<Card>|
                #![trigger play_cards(self, cards, rounds as nat, options.draw_rebalaces)]
                {
                    &&& draws_from(full_deck(), old(deck)@, cards, final(deck)@)
                    &&& play_cards(self, cards, rounds as nat, options.draw_rebalaces) == (
                        r,
                        cards.len(),
                    )
                },
            old(deck)@.len() >= 4 * rounds ==> {
                let played = play_from(self, old(deck)@, rounds as nat, options.draw_rebalaces);
                &&& r == played.0
                &&& final(deck)@ == old(deck)@.take(old(deck)@.len() - played.1)
            },
    {
        let ghost deck0 = deck@;
        let ghost flag = options.draw_rebalaces;
        let ghost mut cs: Seq<Comparison> = Seq::empty();
        let ghost mut steps: nat = 0;
        let ghost mut used: nat = 0;
        let ghost mut drawn: Seq<Card> = Seq::empty();
        proof {
            lemma_draws_from_none(full_deck(), deck0);
            assert forall|ext: Seq<Card>| #[trigger]
                play_cards(self, drawn + ext, rounds as nat, flag) == (
                    play_cards(self, ext, rounds as nat, flag).0,
                    play_cards(self, ext, rounds as nat, flag).1 + drawn.len(),
                ) by {
                assert(drawn + ext =~= ext);
            }
        }
        let mut state = self;
        let mut round: usize = 0;
        proof {
            assert(drawn + Seq::<Card>::empty() =~= drawn);
        }
        while round < rounds
            invariant_except_break
                -(round as int) <= score(state) - score(self) <= round,
                steps == round,
                forall|ext: Seq<Card>| #[trigger]
                    play_cards(self, drawn + ext, rounds as nat, flag) == (
                        play_cards(state, ext, (rounds - steps) as nat, flag).0,
                        play_cards(state, ext, (rounds - steps) as nat, flag).1 + drawn.len(),
                    ),
                play_cards(self, drawn, rounds as nat, flag) == (
                    play_cards(state, Seq::empty(), (rounds - steps) as nat, flag).0,
                    play_cards(state, Seq::empty(), (rounds - steps) as nat, flag).1 + drawn.len(),
                ),
            invariant
                round <= rounds,
                steps <= rounds,
                flag == options.draw_rebalaces,
                deck0 == old(deck)@,
                self is Victory ==> state == self,
                -(round as int) - 1 <= score(state) - score(self) <= round + 1,
                cs.len() == steps,
                state == play_outcomes(self, cs, flag),
                draws_from(full_deck(), deck0, drawn, deck@),
                deck0.len() >= 4 * rounds ==> {
                    &&& deck@.len() >= 4 * (rounds - steps)
                    &&& used <= deck0.len()
                    &&& deck@ == deck0.take(deck0.len() - used)
                    &&& play_from(self, deck0, rounds as nat, flag) == {
                        let rest = play_from(state, deck@, (rounds - steps) as nat, flag);
                        (rest.0, rest.1 + used)
                    }
                },
            ensures
                -(rounds as int) <= score(state) - score(self) <= rounds,
                steps == rounds || state is Victory,
                draws_from(full_deck(), deck0, drawn, deck@),
                play_cards(self, drawn, rounds as nat, flag) == (state, drawn.len()),
                cs.len() == steps,
                state == play_outcomes(self, cs, flag),
                deck0.len() >= 4 * rounds ==> {
                    &&& used <= deck0.len()
                    &&& deck@ == deck0.take(deck0.len() - used)
                    &&& play_from(self, deck0, rounds as nat, flag) == {
                        let rest = play_from(state, deck@, (rounds - steps) as nat, flag);
                        (rest.0, rest.1 + used)
                    }
                },
            decreases rounds - round,
        {
            let ghost before = state;
            let ghost deck_before = deck@;
            state = state.next(rng, deck, options);
            proof {
                let c = if !(before is Victory) {
                    let (over, under) = choose|over: Seq<Card>, under: Seq<Card>|
                        #![trigger hand_outcome(over, under)]
                        {
                            &&& over.len() == leader_cards(before)
                            &&& under.len() == follower_cards(before)
                            &&& state == round_result(before, hand_outcome(over, under), flag)
                            &&& draws_from(full_deck(), deck_before, over + under, deck@)
                        };
                    lemma_round_result_score(before, hand_outcome(over, under), flag);
                    let x = over + under;
                    lemma_draws_from_concat(full_deck(), deck0, drawn, deck_before, x, deck@);
                    lemma_play_cards_round(
                        self,
                        drawn,
                        rounds as nat,
                        before,
                        (rounds - steps) as nat,
                        over,
                        under,
                        flag,
                    );
                    drawn = drawn + (over + under);
                    hand_outcome(over, under)
                } else {
                    lemma_round_result(before, Comparison::Draw, flag);
                    Comparison::Draw
                };
                assert(cs.push(c).drop_last() =~= cs);
                cs = cs.push(c);
                steps = steps + 1;
                if deck0.len() >= 4 * rounds && !(before is Victory) {
                    let k = leader_cards(before) + follower_cards(before);
                    assert(deck_before.take(deck_before.len() - k) =~= deck0.take(
                        deck0.len() - (used + k),
                    ));
                    used = used + k;
                }
            }
            if let State::Victory(_) = state {
                proof {
                    assert(drawn + Seq::<Card>::empty() =~= drawn);
                }
                break;
            }
            round = round + 1;
            proof {
                assert(drawn + Seq::<Card>::empty() =~= drawn);
            }
        }
        proof {
            let pad = (rounds - steps) as nat;
            if steps < rounds {
                lemma_play_outcomes_after_victory(self, cs, pad, flag);
            }
            let full = cs + Seq::new(pad, |j: int| Comparison::Draw);
            if steps == rounds {
                assert(full =~= cs);
            }
            assert(full.len() == rounds && state == play_outcomes(self, full, flag));
        }
        state
    }
}

} // verus!
