//! The deck: 67 cards, shuffled, drawn from the top, reshuffled when empty.
use vstd::prelude::*;
use rand::rngs::StdRng;
use rand::seq::SliceRandom;

use crate::cards::{Card, DrawnCard, Orientation, Role, Suit};

verus! {

/// The suits in the order the deck is built.
pub open spec fn suit_in_order(i: int) -> Suit {
    if i == 0 {
        Suit::Rock
    } else if i == 1 {
        Suit::Paper
    } else if i == 2 {
        Suit::Blades
    } else if i == 3 {
        Suit::Serpent
    } else {
        Suit::Unknown
    }
}

/// The roles in the order the deck is built.
pub open spec fn role_in_order(j: int) -> Role {
    if j == 0 {
        Role::Ruler
    } else if j == 1 {
        Role::Dragon
    } else if j == 2 {
        Role::Treasure
    } else if j == 3 {
        Role::Builder
    } else if j == 4 {
        Role::Seeker
    } else if j == 5 {
        Role::Soldier
    } else if j == 6 {
        Role::Lover
    } else if j == 7 {
        Role::Servant
    } else {
        Role::Home
    }
}

pub open spec fn suit_rank(s: Suit) -> int {
    match s {
        Suit::Rock => 0,
        Suit::Paper => 1,
        Suit::Blades => 2,
        Suit::Serpent => 3,
        Suit::Unknown => 4,
    }
}

pub open spec fn role_rank(r: Role) -> int {
    match r {
        Role::Ruler => 0,
        Role::Dragon => 1,
        Role::Treasure => 2,
        Role::Builder => 3,
        Role::Seeker => 4,
        Role::Soldier => 5,
        Role::Lover => 6,
        Role::Servant => 7,
        Role::Home => 8,
    }
}

/// The cards of the game, in the order a deck is built before it is shuffled: the Excuse,
/// the trumps 1 to 21, then the nine roles of each suit.
pub open spec fn full_deck() -> Seq<Card> {
    seq![Card::Excuse] + Seq::new(21, |i: int| Card::Trump((i + 1) as u8)) + Seq::new(
        45,
        |k: int| Card::Color(suit_in_order(k / 9), role_in_order(k % 9)),
    )
}

/// A card of the game: trumps are numbered from 1 to 21.
pub open spec fn is_game_card(c: Card) -> bool {
    c matches Card::Trump(n) ==> 1 <= n <= 21
}

/// Where a card stands in the unshuffled deck.
pub open spec fn deck_position(c: Card) -> int {
    match c {
        Card::Excuse => 0,
        Card::Trump(n) => n as int,
        Card::Color(s, r) => 22 + 9 * suit_rank(s) + role_rank(r),
    }
}

proof fn lemma_color_position(k: int)
    requires
        0 <= k < 45,
    ensures
        9 * suit_rank(suit_in_order(k / 9)) + role_rank(role_in_order(k % 9)) == k,
        0 <= k / 9 < 5,
        0 <= k % 9 < 9,
{
    assert(0 <= k / 9 < 5 && 0 <= k % 9 < 9 && 9 * (k / 9) + k % 9 == k) by (nonlinear_arith)
        requires
            0 <= k < 45,
    ;
}

/// The deck holds 67 cards: every card of the game, each exactly once.
pub proof fn lemma_full_deck()
    ensures
        full_deck().len() == 67,
        full_deck().no_duplicates(),
        forall|c: Card| full_deck().contains(c) <==> is_game_card(c),
        forall|i: int| 0 <= i < 67 ==> deck_position(#[trigger] full_deck()[i]) == i,
{
    let d = full_deck();
    assert forall|i: int| 0 <= i < 67 implies deck_position(#[trigger] d[i]) == i by {
        if i >= 22 {
            lemma_color_position(i - 22);
        }
    }
    assert forall|i: int, j: int| 0 <= i < d.len() && 0 <= j < d.len() && i != j implies d[i]
        != d[j] by {
        assert(deck_position(d[i]) == i);
        assert(deck_position(d[j]) == j);
    }
    assert forall|c: Card| d.contains(c) implies is_game_card(c) by {
        let i = choose|i: int| 0 <= i < d.len() && d[i] == c;
        if i >= 22 {
            lemma_color_position(i - 22);
        }
    }
    assert forall|c: Card| is_game_card(c) implies d.contains(c) by {
        let i = deck_position(c);
        match c {
            Card::Color(s, r) => {
                lemma_color_position(i - 22);
                assert((i - 22) / 9 == suit_rank(s) && (i - 22) % 9 == role_rank(r)) by (
                nonlinear_arith)
                    requires
                        i - 22 == 9 * suit_rank(s) + role_rank(r),
                        0 <= suit_rank(s) < 5,
                        0 <= role_rank(r) < 9,
                ;
            },
            _ => {},
        }
        assert(d[i] == c);
    }
}

/// A deck whose cards are those of the game in any order holds 67 cards, each card of the
/// game exactly once.
pub proof fn lemma_shuffled_deck(d: Seq<Card>)
    requires
        d.to_multiset() == full_deck().to_multiset(),
    ensures
        d.len() == 67,
        d.no_duplicates(),
        forall|c: Card| d.contains(c) <==> is_game_card(c),
{
    broadcast use vstd::seq_lib::group_to_multiset_ensures;
    broadcast use vstd::multiset::group_multiset_axioms;

    lemma_full_deck();
    assert(d.len() == d.to_multiset().len());
    assert(full_deck().len() == full_deck().to_multiset().len());
    full_deck().lemma_multiset_has_no_duplicates();
    assert forall|x: Card| d.to_multiset().contains(x) implies d.to_multiset().count(x) == 1 by {
        assert(full_deck().to_multiset().contains(x));
    }
    d.lemma_multiset_has_no_duplicates_conv();
    assert forall|c: Card| d.contains(c) <==> is_game_card(c) by {
        assert(d.contains(c) <==> d.to_multiset().count(c) > 0);
        assert(full_deck().contains(c) <==> full_deck().to_multiset().count(c) > 0);
    }
}

/// Cards of the game, each at most once.
pub open spec fn holds_game_cards(s: Seq<Card>) -> bool {
    &&& s.no_duplicates()
    &&& forall|i: int| 0 <= i < s.len() ==> is_game_card(#[trigger] s[i])
}

/// One draw: `card` comes from the top of `before`, leaving `after`; an empty deck is first
/// replaced by the cards of `full` in some order.
pub open spec fn draw_step<T>(full: Seq<T>, before: Seq<T>, card: T, after: Seq<T>) -> bool {
    if before.len() > 0 {
        card == before.last() && after == before.drop_last()
    } else {
        after.len() + 1 == full.len() && after.push(card).to_multiset() == full.to_multiset()
    }
}

/// The decks before and after each of the draws of `cards`, in order.
pub open spec fn draws_through<T>(full: Seq<T>, decks: Seq<Seq<T>>, cards: Seq<T>) -> bool {
    &&& decks.len() == cards.len() + 1
    &&& forall|i: int|
        0 <= i < cards.len() ==> draw_step(full, decks[i], cards[i], #[trigger] decks[i + 1])
}

/// Drawing `cards`, in order, from `before` leaves `after`, an empty deck being replaced by
/// the cards of `full` in some order.
pub open spec fn draws_from<T>(full: Seq<T>, before: Seq<T>, cards: Seq<T>, after: Seq<T>) -> bool {
    exists|decks: Seq<Seq<T>>|
        #[trigger] draws_through(full, decks, cards) && decks[0] == before && decks.last() == after
}

/// Nothing drawn leaves the deck as it was.
pub proof fn lemma_draws_from_none<T>(full: Seq<T>, deck: Seq<T>)
    ensures
        draws_from(full, deck, Seq::empty(), deck),
{
    assert(draws_through(full, seq![deck], Seq::empty()));
}

/// One more draw extends the cards drawn.
pub proof fn lemma_draws_from_push<T>(
    full: Seq<T>,
    before: Seq<T>,
    cards: Seq<T>,
    mid: Seq<T>,
    card: T,
    after: Seq<T>,
)
    requires
        draws_from(full, before, cards, mid),
        draw_step(full, mid, card, after),
    ensures
        draws_from(full, before, cards.push(card), after),
{
    let decks = choose|decks: Seq<Seq<T>>|
        #[trigger] draws_through(full, decks, cards) && decks[0] == before && decks.last() == mid;
    let longer = decks.push(after);
    assert forall|i: int| 0 <= i < cards.len() + 1 implies draw_step(
        full,
        longer[i],
        cards.push(card)[i],
        #[trigger] longer[i + 1],
    ) by {
        if i < cards.len() {
            assert(longer[i + 1] == decks[i + 1]);
        }
    }
    assert(draws_through(full, longer, cards.push(card)));
}

/// Drawing `a` and then `b` is drawing `a + b`.
pub proof fn lemma_draws_from_concat<T>(
    full: Seq<T>,
    before: Seq<T>,
    a: Seq<T>,
    mid: Seq<T>,
    b: Seq<T>,
    after: Seq<T>,
)
    requires
        draws_from(full, before, a, mid),
        draws_from(full, mid, b, after),
    ensures
        draws_from(full, before, a + b, after),
{
    let da = choose|decks: Seq<Seq<T>>|
        #[trigger] draws_through(full, decks, a) && decks[0] == before && decks.last() == mid;
    let db = choose|decks: Seq<Seq<T>>|
        #[trigger] draws_through(full, decks, b) && decks[0] == mid && decks.last() == after;
    let d = da + db.drop_first();
    assert forall|i: int| 0 <= i < (a + b).len() implies draw_step(
        full,
        d[i],
        (a + b)[i],
        #[trigger] d[i + 1],
    ) by {
        if i < a.len() {
            assert(draw_step(full, da[i], a[i], da[i + 1]));
        } else {
            let j = i - a.len();
            assert(draw_step(full, db[j], b[j], db[j + 1]));
            if j == 0 {
                assert(d[i] == da.last());
            }
        }
    }
    assert(draws_through(full, d, a + b));
}

/// Taking the top card of a deck of game cards leaves a deck of game cards without it.
proof fn lemma_take_top(s: Seq<Card>)
    requires
        s.len() > 0,
        holds_game_cards(s),
    ensures
        holds_game_cards(s.drop_last()),
        is_game_card(s.last()),
        !s.drop_last().contains(s.last()),
{
    assert(is_game_card(s[s.len() - 1]));
    if s.drop_last().contains(s.last()) {
        let i = choose|i: int| 0 <= i < s.drop_last().len() && s.drop_last()[i] == s.last();
        assert(s[i] == s[s.len() - 1]);
    }
    assert forall|i: int| 0 <= i < s.drop_last().len() implies is_game_card(
        #[trigger] s.drop_last()[i],
    ) by {
        assert(is_game_card(s[i]));
    }
}

/// Cards of the game, each at most once, are at most 67.
proof fn lemma_game_cards_fit(s: Seq<Card>)
    requires
        holds_game_cards(s),
    ensures
        s.len() <= 67,
{
    broadcast use vstd::seq_lib::seq_to_set_is_finite;

    lemma_full_deck();
    s.unique_seq_to_set();
    full_deck().unique_seq_to_set();
    assert forall|c: Card| s.to_set().contains(c) implies full_deck().to_set().contains(c) by {
        let i = choose|i: int| 0 <= i < s.len() && s[i] == c;
        assert(is_game_card(s[i]));
    }
    vstd::set_lib::lemma_len_subset(s.to_set(), full_deck().to_set());
}

/// A deck of cards; the top of the deck is the end of the vector.
pub struct Deck(Vec<Card>);

impl Deck {
    /// Every deck holds cards of the game, each at most once.
    #[verifier::type_invariant]
    spec fn holds_game_cards(self) -> bool {
        holds_game_cards(self.0@)
    }
}

impl View for Deck {
    type V = Seq<Card>;

    closed spec fn view(&self) -> Seq<Card> {
        self.0@
    }
}

/// rand's `StdRng`, the source of randomness the deck draws from; nothing of what it
/// holds is known here.
#[verifier::external_type_specification]
#[verifier::external_body]
pub struct ExStdRng(rand::rngs::StdRng);

/// `SliceRandom::shuffle` from rand, on the whole vector: a permutation of the items.
#[verifier::external_body]
pub(crate) fn shuffle_items<T>(rng: &mut StdRng, cards: &mut Vec<T>)
    ensures
        final(cards)@.to_multiset() == old(cards)@.to_multiset(),
        final(cards)@.len() == old(cards)@.len(),
{
    cards.as_mut_slice().shuffle(rng)
}

/// `SliceRandom::choose` from rand: one of the options, `None` if there is none.
#[verifier::external_body]
fn choose_orientation(rng: &mut StdRng, options: &[Orientation]) -> (r: Option<
    Orientation,
>)
    ensures
        options@.len() == 0 <==> r is None,
        r matches Some(o) ==> options@.contains(o),
{
    options.choose(rng).cloned()
}

impl Deck {
    /// The cards of the game, before shuffling.
    pub fn ordered_cards() -> (r: Vec<Card>)
        ensures
            r@ == full_deck(),
    {
        let mut deck: Vec<Card> = Vec::new();
        // Excuse
        deck.push(Card::Excuse);
        // Trump
        for i in 1u8..22u8
            invariant
                deck@ =~= full_deck().take(i as int),
        {
            deck.push(Card::Trump(i));
        }
        // Each suit
        let suits = [Suit::Rock, Suit::Paper, Suit::Blades, Suit::Serpent, Suit::Unknown];
        let roles = [
            Role::Ruler,
            Role::Dragon,
            Role::Treasure,
            Role::Builder,
            Role::Seeker,
            Role::Soldier,
            Role::Lover,
            Role::Servant,
            Role::Home,
        ];
        for si in 0usize..5
            invariant
                deck@ =~= full_deck().take(22 + 9 * si),
                suits@ == seq![Suit::Rock, Suit::Paper, Suit::Blades, Suit::Serpent, Suit::Unknown],
                roles@ == seq![
                    Role::Ruler,
                    Role::Dragon,
                    Role::Treasure,
                    Role::Builder,
                    Role::Seeker,
                    Role::Soldier,
                    Role::Lover,
                    Role::Servant,
                    Role::Home,
                ],
        {
            for ri in 0usize..9
                invariant
                    0 <= si < 5,
                    deck@ =~= full_deck().take(22 + 9 * si + ri),
                    suits@ == seq![Suit::Rock, Suit::Paper, Suit::Blades, Suit::Serpent, Suit::Unknown],
                    roles@ == seq![
                        Role::Ruler,
                        Role::Dragon,
                        Role::Treasure,
                        Role::Builder,
                        Role::Seeker,
                        Role::Soldier,
                        Role::Lover,
                        Role::Servant,
                        Role::Home,
                    ],
            {
                proof {
                    let k = 9 * si + ri;
                    assert(k / 9 == si && k % 9 == ri) by (nonlinear_arith)
                        requires
                            k == 9 * si + ri,
                            0 <= ri < 9,
                    ;
                }
                deck.push(Card::Color(suits[si], roles[ri]));
            }
        }
        assert(deck@ =~= full_deck());
        deck
    }

    /// A new deck holding every card of the game once, in random order.
    pub fn shuffle(rng: &mut StdRng) -> (r: Deck)
        ensures
            r@.len() == 67,
            r@.to_multiset() == full_deck().to_multiset(),
            holds_game_cards(r@),
    {
        let mut deck = Self::ordered_cards();
        proof {
            lemma_full_deck();
        }
        // Now shuffle
        shuffle_items(rng, &mut deck);
        proof {
            lemma_shuffled_deck(deck@);
            assert forall|i: int| 0 <= i < deck@.len() implies is_game_card(#[trigger] deck@[i]) by {
                assert(deck@.contains(deck@[i]));
            }
        }
        Deck(deck)
    }

    /// Takes the top card; an empty deck is first replaced by a new shuffled deck. The card
    /// taken is a card of the game, and it is no longer in the deck.
    pub fn next_card(&mut self, rng: &mut StdRng) -> (r: Card)
        ensures
            draw_step(full_deck(), old(self)@, r, final(self)@),
            old(self)@.len() > 0 ==> *final(rng) == *old(rng),
            holds_game_cards(old(self)@),
            holds_game_cards(final(self)@),
            is_game_card(r),
            !final(self)@.contains(r),
    {
        proof {
            use_type_invariant(&*self);
        }
        let mut cards: Vec<Card> = Vec::new();
        std::mem::swap(&mut self.0, &mut cards);
        if let Some(result) = cards.pop() {
            proof {
                lemma_take_top(cards@.push(result));
                assert(cards@.push(result).drop_last() =~= cards@);
            }
            self.0 = cards;
            return result;
        }
        // Otherwise, the deck is empty. Reshuffle.

        *self = Self::shuffle(rng);
        let mut cards: Vec<Card> = Vec::new();
        std::mem::swap(&mut self.0, &mut cards);
        let ghost full = cards@;
        let r = cards.pop().unwrap();  // We just reshuffled, it can't be empty.
        proof {
            assert(cards@.push(r) =~= full);
            assert(full.drop_last() =~= cards@);
            lemma_take_top(full);
        }
        self.0 = cards;
        r
    }

    /// How many cards are left: at most the 67 cards of the game.
    pub fn len(&self) -> (r: usize)
        ensures
            r == self@.len(),
            r <= 67,
    {
        proof {
            use_type_invariant(self);
            lemma_game_cards_fit(self.0@);
        }
        self.0.len()
    }

    /// Draws the top card, face up or reversed at random.
    pub fn next(&mut self, rng: &mut StdRng) -> (r: DrawnCard)
        ensures
            draw_step(full_deck(), old(self)@, r.value(), final(self)@),
            holds_game_cards(old(self)@),
            holds_game_cards(final(self)@),
            is_game_card(r.value()),
            !final(self)@.contains(r.value()),
    {
        let options = [Orientation::Up, Orientation::Reversed];
        let orientation = choose_orientation(rng, &options).unwrap();  // The array is not empty, so can't be None.
        let card = self.next_card(rng);
        DrawnCard::new(orientation, card)
    }
}

} // verus!
