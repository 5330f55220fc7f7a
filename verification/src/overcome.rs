//! Overcoming an obstacle: the obstacle is a hand of cards; each card drawn by the player
//! removes the obstacle cards it beats, and reversed draws hurt the player.
use vstd::prelude::*;
use rand::rngs::StdRng;

use crate::cards::{
    card_outcome, drawn_card, lemma_drawn_card, next_on_cycle, Beats, Card, Comparison, DrawnCard,
    Orientation,
};
use crate::deck::{
    draw_step, draws_from, full_deck, is_game_card, lemma_draws_from_none, lemma_draws_from_push,
    lemma_full_deck, Deck,
};
use crate::draw::cards_of;
use crate::state::top_cards;

verus! {

/// Reversed draws beyond the player's skill that the player can take before being wiped out.
pub const MAX_LOSSES: usize = 5;

/// Whether an obstacle card survives a card drawn by the player: it does when the draw
/// loses against it, or, when only cards of the same face count, when the two lie
/// differently.
pub open spec fn survives(draw: DrawnCard, o: DrawnCard, same_face_only: bool) -> bool {
    (same_face_only && draw.face() != o.face()) || card_outcome(draw.value(), o.value())
        == Comparison::Lose
}

/// Which obstacle cards a player's draw removes. Under the first rules a card lying the
/// other way stays. Otherwise the obstacle card stays exactly when the player's card cannot
/// beat it: a card of the same suit removes it, and so does an equal or higher trump, any
/// trump against a suit card, or the Excuse on either side; a suit card never removes a
/// trump; between two suits, the obstacle card stays when its suit is one of the two that
/// come third and fourth after the player's suit on the cycle.
pub proof fn lemma_survives(d: DrawnCard, o: DrawnCard, same_face_only: bool)
    ensures
        same_face_only && d.face() != o.face() ==> survives(d, o, same_face_only),
        !same_face_only || d.face() == o.face() ==> match (d.value(), o.value()) {
            (Card::Excuse, _) => !survives(d, o, same_face_only),
            (_, Card::Excuse) => !survives(d, o, same_face_only),
            (Card::Trump(n), Card::Trump(m)) => survives(d, o, same_face_only) <==> n < m,
            (Card::Trump(_), Card::Color(_, _)) => !survives(d, o, same_face_only),
            (Card::Color(_, _), Card::Trump(_)) => survives(d, o, same_face_only),
            (Card::Color(s1, _), Card::Color(s2, _)) => {
                &&& s1 == s2 ==> !survives(d, o, same_face_only)
                &&& survives(d, o, same_face_only) <==> (s2 == next_on_cycle(
                    next_on_cycle(next_on_cycle(s1)),
                ) || s2 == next_on_cycle(next_on_cycle(next_on_cycle(next_on_cycle(s1)))))
            },
        },
{
    if let (Card::Color(s1, _), Card::Color(s2, _)) = (d.value(), o.value()) {
        crate::cards::lemma_suit_beats_next_two(s1, s2);
    }
}

pub fn obstacle_survives(draw: &DrawnCard, o: &DrawnCard, same_face_only: bool) -> (r: bool)
    ensures
        r == survives(*draw, *o, same_face_only),
{
    // Can't beat a card with a different orientation.
    if same_face_only && draw.orientation() != o.orientation() {
        return true;
    }
    // Keep cards that we can't beat.
    draw.card().beats(o.card()).loses()
}

/// The cards of an obstacle.
#[verifier::external_body]
pub struct Obstacle {
    cards: smallvec::SmallVec<[DrawnCard; 10]>,
}

/// The cards of an obstacle, in the order they were added.
pub uninterp spec fn obstacle_cards(o: Obstacle) -> Seq<DrawnCard>;

/// `SmallVec::new`: an empty vector.
#[verifier::external_body]
fn smallvec_new() -> (r: Obstacle)
    ensures
        obstacle_cards(r) == Seq::<DrawnCard>::empty(),
{
    Obstacle { cards: smallvec::SmallVec::new() }
}

/// `SmallVec::push`: appends at the end.
#[verifier::external_body]
fn smallvec_push(o: &mut Obstacle, c: DrawnCard)
    ensures
        obstacle_cards(*final(o)) == obstacle_cards(*old(o)).push(c),
{
    o.cards.push(c)
}

/// `SmallVec::len`: the number of items.
#[verifier::external_body]
fn smallvec_len(o: &Obstacle) -> (r: usize)
    ensures
        r == obstacle_cards(*o).len(),
{
    o.cards.len()
}

/// Indexing a `SmallVec` (through its slice) within bounds.
#[verifier::external_body]
fn smallvec_at(o: &Obstacle, i: usize) -> (r: &DrawnCard)
    requires
        i < obstacle_cards(*o).len(),
    ensures
        *r == obstacle_cards(*o)[i as int],
{
    &o.cards[i]
}

/// `SmallVec::retain`, which keeps, in order, the items for which the predicate holds;
/// the predicate is `obstacle_survives`.
#[verifier::external_body]
fn smallvec_retain(o: &mut Obstacle, draw: &DrawnCard, same_face_only: bool)
    ensures
        obstacle_cards(*final(o)) == obstacle_cards(*old(o)).filter(
            |c: DrawnCard| survives(*draw, c, same_face_only),
        ),
{
    o.cards.retain(|c| obstacle_survives(draw, c, same_face_only))
}

/// How many of the cards lie reversed.
pub open spec fn count_reversed(s: Seq<DrawnCard>) -> nat
    decreases s.len(),
{
    if s.len() == 0 {
        0
    } else {
        count_reversed(s.drop_last()) + if s.last().face() == Orientation::Reversed {
            1nat
        } else {
            0nat
        }
    }
}

/// The damage taken for `reversed` reversed draws with the given skill.
pub open spec fn damage(reversed: nat, skill: nat) -> nat {
    if reversed >= skill {
        (reversed - skill) as nat
    } else {
        0
    }
}

/// One round of the first rules, as (obstacle, reversed draws, whether the challenge goes on).
pub open spec fn first_rules_round(
    obstacle: Seq<DrawnCard>,
    reversed: nat,
    draw: DrawnCard,
    skill: nat,
) -> (Seq<DrawnCard>, nat, bool) {
    let reversed = if draw.face() == Orientation::Reversed {
        reversed + 1
    } else {
        reversed
    };
    if reversed >= skill + MAX_LOSSES {
        // We have lost, badly.
        (obstacle, reversed, false)
    } else if draw.value() == Card::Excuse {
        (obstacle, reversed, false)
    } else {
        let kept = obstacle.filter(|c: DrawnCard| survives(draw, c, true));
        (kept, reversed, kept.len() > 0)
    }
}

/// One round of the second rules, as (obstacle, reversed draws, whether the challenge goes on).
pub open spec fn second_rules_round(
    obstacle: Seq<DrawnCard>,
    reversed: nat,
    draw: DrawnCard,
    skill: nat,
) -> (Seq<DrawnCard>, nat, bool) {
    if draw.value() == Card::Excuse {
        // The excuse showed up, you lost!
        (obstacle, reversed, false)
    } else {
        let reversed = if draw.face() == Orientation::Reversed {
            reversed + 1
        } else {
            reversed
        };
        if reversed >= skill + MAX_LOSSES {
            // Wipe Out!
            (obstacle, reversed, false)
        } else {
            let kept = obstacle.filter(|c: DrawnCard| survives(draw, c, false));
            (kept, reversed, kept.len() > 0)
        }
    }
}

/// One round of either rules, told card by card. The Excuse, or reaching `skill +
/// MAX_LOSSES` reversed draws, ends the challenge with the obstacle as it was; otherwise
/// the obstacle cards left are obstacle cards the draw could not remove (every one of them
/// is left), never more than before, and the challenge goes on exactly while some are left.
/// A reversed draw counts one more reversed draw, except that under the second rules the
/// Excuse counts nothing.
pub proof fn lemma_rounds(obstacle: Seq<DrawnCard>, reversed: nat, draw: DrawnCard, skill: nat)
    ensures
        ({
            let (kept, rev, goes_on) = first_rules_round(obstacle, reversed, draw, skill);
            &&& rev == reversed + if draw.face() == Orientation::Reversed {
                1nat
            } else {
                0nat
            }
            &&& (draw.value() == Card::Excuse || rev >= skill + MAX_LOSSES) ==> !goes_on && kept
                == obstacle
            &&& (draw.value() != Card::Excuse && rev < skill + MAX_LOSSES) ==> {
                &&& goes_on <==> kept.len() > 0
                &&& kept.len() <= obstacle.len()
                &&& forall|i: int| 0 <= i < kept.len() ==> survives(draw, #[trigger] kept[i], true)
                &&& forall|i: int|
                    0 <= i < obstacle.len() && survives(draw, obstacle[i], true) ==> kept.contains(
                        #[trigger] obstacle[i],
                    )
            }
        }),
        ({
            let (kept, rev, goes_on) = second_rules_round(obstacle, reversed, draw, skill);
            &&& draw.value() == Card::Excuse ==> !goes_on && kept == obstacle && rev == reversed
            &&& draw.value() != Card::Excuse ==> rev == reversed + if draw.face()
                == Orientation::Reversed {
                1nat
            } else {
                0nat
            }
            &&& (draw.value() != Card::Excuse && rev >= skill + MAX_LOSSES) ==> !goes_on && kept
                == obstacle
            &&& (draw.value() != Card::Excuse && rev < skill + MAX_LOSSES) ==> {
                &&& goes_on <==> kept.len() > 0
                &&& kept.len() <= obstacle.len()
                &&& forall|i: int|
                    0 <= i < kept.len() ==> survives(draw, #[trigger] kept[i], false)
                &&& forall|i: int|
                    0 <= i < obstacle.len() && survives(draw, obstacle[i], false) ==> kept.contains(
                        #[trigger] obstacle[i],
                    )
            }
        }),
{
    obstacle.filter_lemma(|c: DrawnCard| survives(draw, c, true));
    obstacle.filter_lemma(|c: DrawnCard| survives(draw, c, false));
}

/// A challenge in progress: the obstacle cards left and the reversed draws so far.
pub struct Challenge {
    obstacle: Obstacle,
    reversed: usize,
}

impl Challenge {
    pub closed spec fn spec_obstacle(self) -> Seq<DrawnCard> {
        obstacle_cards(self.obstacle)
    }

    pub closed spec fn spec_reversed(self) -> nat {
        self.reversed as nat
    }

    /// A challenge with the given obstacle cards and no reversed draw yet.
    pub fn new(cards: &Vec<DrawnCard>) -> (r: Challenge)
        ensures
            r.spec_obstacle() == cards@,
            r.spec_reversed() == 0,
    {
        let mut obstacle = smallvec_new();
        let mut i: usize = 0;
        while i < cards.len()
            invariant
                i <= cards@.len(),
                obstacle_cards(obstacle) == cards@.take(i as int),
            decreases cards@.len() - i,
        {
            smallvec_push(&mut obstacle, cards[i]);
            assert(cards@.take(i + 1) =~= cards@.take(i as int).push(cards@[i as int]));
            i = i + 1;
        }
        assert(cards@.take(i as int) =~= cards@);
        Challenge { obstacle, reversed: 0 }
    }

    /// How many obstacle cards are left.
    pub fn obstacle_len(&self) -> (r: usize)
        ensures
            r == self.spec_obstacle().len(),
    {
        smallvec_len(&self.obstacle)
    }

    /// How many draws came up reversed.
    pub fn reversed(&self) -> (r: usize)
        ensures
            r == self.spec_reversed(),
    {
        self.reversed
    }

    /// Plays one draw under the first rules; answers whether the challenge goes on.
    pub fn first_rules_round(&mut self, draw: &DrawnCard, skill: usize) -> (r: bool)
        requires
            old(self).spec_reversed() < usize::MAX,
        ensures
            (final(self).spec_obstacle(), final(self).spec_reversed(), r) == first_rules_round(
                old(self).spec_obstacle(),
                old(self).spec_reversed(),
                *draw,
                skill as nat,
            ),
    {
        if let Orientation::Reversed = draw.orientation() {
            self.reversed = self.reversed + 1;
        }
        if self.reversed >= MAX_LOSSES && self.reversed - MAX_LOSSES >= skill {
            // We have lost, badly.
            return false;
        }
        if let Card::Excuse = draw.card() {
            return false;
        }
        smallvec_retain(&mut self.obstacle, draw, true);
        // When the obstacle is gone, we have won.
        smallvec_len(&self.obstacle) != 0
    }

    /// Plays one draw under the second rules; answers whether the challenge goes on.
    pub fn second_rules_round(&mut self, draw: &DrawnCard, skill: usize) -> (r: bool)
        requires
            old(self).spec_reversed() < usize::MAX,
        ensures
            (final(self).spec_obstacle(), final(self).spec_reversed(), r) == second_rules_round(
                old(self).spec_obstacle(),
                old(self).spec_reversed(),
                *draw,
                skill as nat,
            ),
    {
        if let Card::Excuse = draw.card() {
            // The excuse showed up, you lost!
            return false;
        }
        if let Orientation::Reversed = draw.orientation() {
            self.reversed = self.reversed + 1;
        }
        if self.reversed >= MAX_LOSSES && self.reversed - MAX_LOSSES >= skill {
            // Wipe Out!
            return false;
        }
        smallvec_retain(&mut self.obstacle, draw, false);
        smallvec_len(&self.obstacle) != 0
    }

    /// Whether the obstacle was overcome, and the damage taken.
    pub fn first_rules_result(&self, skill: usize) -> (r: (bool, usize))
        ensures
            r.0 == (self.spec_obstacle().len() == 0),
            r.1 == damage(self.spec_reversed(), skill as nat),
    {
        let damage = if self.reversed >= skill {
            self.reversed - skill
        } else {
            0
        };
        (smallvec_len(&self.obstacle) == 0, damage)
    }

    /// Whether the obstacle was overcome, and the damage taken, at most `MAX_LOSSES`.
    pub fn second_rules_result(&self, skill: usize) -> (r: (bool, usize))
        ensures
            r.0 == (self.spec_obstacle().len() == 0),
            r.1 == if damage(self.spec_reversed(), skill as nat) < MAX_LOSSES {
                damage(self.spec_reversed(), skill as nat)
            } else {
                MAX_LOSSES as nat
            },
    {
        let damage = if self.reversed >= skill {
            let d = self.reversed - skill;
            if d < MAX_LOSSES {
                d
            } else {
                MAX_LOSSES
            }
        } else {
            0
        };
        (smallvec_len(&self.obstacle) == 0, damage)
    }
}

/// Where the first Excuse stands among `cards`, or how many cards there are if none is.
pub open spec fn first_excuse(cards: Seq<Card>) -> nat
    decreases cards.len(),
{
    if cards.len() == 0 {
        0
    } else if cards[0] == Card::Excuse {
        0
    } else {
        1 + first_excuse(cards.drop_first())
    }
}

/// The first Excuse stands at `i` when none stands before it and `i` holds one (or is the end).
pub proof fn lemma_first_excuse(cards: Seq<Card>, i: int)
    requires
        0 <= i <= cards.len(),
        forall|j: int| 0 <= j < i ==> cards[j] != Card::Excuse,
        i == cards.len() || cards[i] == Card::Excuse,
    ensures
        first_excuse(cards) == i,
    decreases i,
{
    if i > 0 {
        assert forall|j: int| 0 <= j < i - 1 implies cards.drop_first()[j] != Card::Excuse by {
            assert(cards.drop_first()[j] == cards[j + 1]);
        }
        lemma_first_excuse(cards.drop_first(), i - 1);
    }
}

/// One more drawn card extends the cards drawn from `deck0`.
proof fn lemma_draw_one(
    deck0: Seq<Card>,
    seen: Seq<DrawnCard>,
    before: Seq<Card>,
    card: DrawnCard,
    after: Seq<Card>,
)
    requires
        draws_from(full_deck(), deck0, cards_of(seen), before),
        draw_step(full_deck(), before, card.value(), after),
    ensures
        draws_from(full_deck(), deck0, cards_of(seen.push(card)), after),
{
    lemma_draws_from_push(full_deck(), deck0, cards_of(seen), before, card.value(), after);
    assert(cards_of(seen.push(card)) =~= cards_of(seen).push(card.value()));
}

/// Drawing the top card of what is left of `deck0` after `seen` extends the top cards seen.
proof fn lemma_draw_top(deck0: Seq<Card>, seen: Seq<DrawnCard>, card: DrawnCard)
    requires
        deck0.len() >= seen.len() + 1,
        cards_of(seen) == top_cards(deck0, seen.len()),
        card.value() == deck0.take(deck0.len() - seen.len()).last(),
    ensures
        cards_of(seen.push(card)) == top_cards(deck0, seen.len() + 1),
        deck0.take(deck0.len() - seen.len()).drop_last() == deck0.take(
            deck0.len() - seen.len() - 1,
        ),
{
    let n = seen.len();
    assert forall|j: int| 0 <= j < n + 1 implies #[trigger] cards_of(seen.push(card))[j]
        == top_cards(deck0, n + 1)[j] by {
        if j < n {
            assert(cards_of(seen)[j] == top_cards(deck0, n)[j]);
        }
    }
    assert(cards_of(seen.push(card)) =~= top_cards(deck0, n + 1));
    assert(deck0.take(deck0.len() - n).drop_last() =~= deck0.take(deck0.len() - n - 1));
}

/// The cards seen so far, followed by the rest of the top `total` cards lying face up.
pub open spec fn padded(deck0: Seq<Card>, seen: Seq<DrawnCard>, total: nat) -> Seq<DrawnCard> {
    seen + Seq::new(
        (total - seen.len()) as nat,
        |k: int| drawn_card(Orientation::Up, top_cards(deck0, total)[seen.len() + k]),
    )
}

proof fn lemma_padded(deck0: Seq<Card>, seen: Seq<DrawnCard>, total: nat)
    requires
        seen.len() <= total,
    ensures
        padded(deck0, seen, total).len() == total,
        padded(deck0, seen, total).take(seen.len() as int) == seen,
        total <= deck0.len() && cards_of(seen) == top_cards(deck0, seen.len()) ==> cards_of(
            padded(deck0, seen, total),
        ) == top_cards(deck0, total),
{
    broadcast use lemma_drawn_card;

    let p = padded(deck0, seen, total);
    assert(p.take(seen.len() as int) =~= seen);
    if total <= deck0.len() && cards_of(seen) == top_cards(deck0, seen.len()) {
        assert forall|j: int| 0 <= j < total implies #[trigger] cards_of(p)[j] == top_cards(
            deck0,
            total,
        )[j] by {
            if j < seen.len() {
                assert(cards_of(seen)[j] == top_cards(deck0, seen.len())[j]);
            } else {
                let c = top_cards(deck0, total)[seen.len() + (j - seen.len())];
                assert(p[j] == drawn_card(Orientation::Up, c));
            }
        }
        assert(cards_of(p) =~= top_cards(deck0, total));
    }
}

/// The player's draws under the first rules, taken in order until the challenge ends or the
/// draws run out: the obstacle left, the reversed draws, and how many draws were used.
pub open spec fn first_rules_play(
    obstacle: Seq<DrawnCard>,
    reversed: nat,
    draws: Seq<DrawnCard>,
    skill: nat,
) -> (Seq<DrawnCard>, nat, nat)
    decreases draws.len(),
{
    if draws.len() == 0 {
        (obstacle, reversed, 0)
    } else {
        let step = first_rules_round(obstacle, reversed, draws[0], skill);
        if step.2 {
            let rest = first_rules_play(step.0, step.1, draws.drop_first(), skill);
            (rest.0, rest.1, rest.2 + 1)
        } else {
            (step.0, step.1, 1)
        }
    }
}

/// A sample of the first rules over the cards `drawn` in order, the obstacle's first: the
/// sample (`None` when the Excuse is among the obstacle's `difficulty` cards), and how many
/// of the cards were drawn.
pub open spec fn first_rules_outcome(
    drawn: Seq<DrawnCard>,
    difficulty: nat,
    skill: nat,
    rounds: nat,
) -> (Option<(bool, usize)>, nat) {
    let obstacle = drawn.take(difficulty as int);
    let e = first_excuse(cards_of(obstacle));
    if e < difficulty {
        (None, e + 1)
    } else {
        let end = first_rules_play(
            obstacle,
            0,
            drawn.subrange(difficulty as int, (difficulty + rounds) as int),
            skill,
        );
        (Some((end.0.len() == 0, damage(end.1, skill) as usize)), difficulty + end.2)
    }
}

/// The player's draws under the second rules, taken in order while obstacle cards are left
/// and the challenge goes on: the obstacle left, the reversed draws, and how many draws were
/// used; `None` if the draws ran out first.
pub open spec fn second_rules_play(
    obstacle: Seq<DrawnCard>,
    reversed: nat,
    draws: Seq<DrawnCard>,
    skill: nat,
) -> Option<(Seq<DrawnCard>, nat, nat)>
    decreases draws.len(),
{
    if obstacle.len() == 0 {
        Some((obstacle, reversed, 0))
    } else if draws.len() == 0 {
        None
    } else {
        let step = second_rules_round(obstacle, reversed, draws[0], skill);
        if step.2 {
            after_draws(second_rules_play(step.0, step.1, draws.drop_first(), skill), 1)
        } else {
            Some((step.0, step.1, 1))
        }
    }
}

/// An end of the second rules, counting `n` more draws.
pub open spec fn after_draws(end: Option<(Seq<DrawnCard>, nat, nat)>, n: nat) -> Option<
    (Seq<DrawnCard>, nat, nat),
> {
    match end {
        Some((o, r, used)) => Some((o, r, used + n)),
        None => None,
    }
}

/// How many cards can be drawn from the top of `deck` before the Excuse shows up, the
/// Excuse included; after an empty deck comes a shuffled one, which holds it.
pub open spec fn draws_to_excuse(deck: Seq<Card>) -> nat
    decreases deck.len(),
{
    if deck.len() == 0 {
        67
    } else if deck.last() == Card::Excuse {
        1
    } else {
        1 + draws_to_excuse(deck.drop_last())
    }
}

proof fn lemma_draws_to_excuse(deck: Seq<Card>)
    ensures
        1 <= draws_to_excuse(deck) <= deck.len() + 67,
        deck.contains(Card::Excuse) ==> draws_to_excuse(deck) <= deck.len(),
    decreases deck.len(),
{
    if deck.len() > 0 {
        lemma_draws_to_excuse(deck.drop_last());
        if deck.contains(Card::Excuse) && deck.last() != Card::Excuse {
            let i = choose|i: int| 0 <= i < deck.len() && deck[i] == Card::Excuse;
            assert(deck.drop_last()[i] == Card::Excuse);
        }
    }
}

/// One sample of the first rules: the obstacle draws `difficulty` cards, and the sample is
/// dropped (`None`) if the Excuse is among them; then the player draws up to `rounds`
/// cards. Answers whether the obstacle was overcome and the damage taken.
pub fn first_rules_sample(
    deck: &mut Deck,
    rng: &mut StdRng,
    difficulty: usize,
    skill: usize,
    rounds: usize,
) -> (r: Option<(bool, usize)>)
    ensures
        exists|drawn: Seq<DrawnCard>|
            {
                &&& drawn.len() == difficulty + rounds
                &&& r == (#[trigger] first_rules_outcome(
                    drawn,
                    difficulty as nat,
                    skill as nat,
                    rounds as nat,
                )).0
                &&& draws_from(
                    full_deck(),
                    old(deck)@,
                    cards_of(
                        drawn.take(
                            first_rules_outcome(
                                drawn,
                                difficulty as nat,
                                skill as nat,
                                rounds as nat,
                            ).1 as int,
                        ),
                    ),
                    final(deck)@,
                )
                &&& old(deck)@.len() >= difficulty + rounds ==> {
                    &&& cards_of(drawn) == top_cards(old(deck)@, (difficulty + rounds) as nat)
                    &&& final(deck)@ == old(deck)@.take(
                        old(deck)@.len() - first_rules_outcome(
                            drawn,
                            difficulty as nat,
                            skill as nat,
                            rounds as nat,
                        ).1,
                    )
                }
            },
        old(deck)@.len() >= difficulty ==> (r is None <==> top_cards(
            old(deck)@,
            difficulty as nat,
        ).contains(Card::Excuse)),
        r matches Some((win, hurt)) ==> hurt <= MAX_LOSSES,
        difficulty == 0 ==> r is Some,
        rounds == 0 ==> (r matches Some((win, hurt)) ==> hurt == 0 && (win <==> difficulty == 0)),
{
    let ghost deck0 = deck@;
    let ghost total = (difficulty + rounds) as nat;
    // Fill the hand of the Obstacle.
    let mut obstacle: Vec<DrawnCard> = Vec::new();
    proof {
        lemma_draws_from_none(full_deck(), deck0);
        assert(cards_of(obstacle@) =~= Seq::<Card>::empty());
    }
    let mut i: usize = 0;
    while i < difficulty
        invariant
            deck0 == old(deck)@,
            total == difficulty + rounds,
            draws_from(full_deck(), deck0, cards_of(obstacle@), deck@),
            i <= difficulty,
            obstacle@.len() == i,
            forall|j: int| 0 <= j < i ==> obstacle@[j].value() != Card::Excuse,
            deck0.len() >= i ==> deck@ == deck0.take(deck0.len() - i) && cards_of(obstacle@)
                == top_cards(deck0, i as nat),
        decreases difficulty - i,
    {
        let ghost deck_before = deck@;
        let card = deck.next(rng);
        proof {
            lemma_draw_one(deck0, obstacle@, deck_before, card, deck@);
            if deck0.len() >= i + 1 {
                lemma_draw_top(deck0, obstacle@, card);
            }
        }
        if let Card::Excuse = card.card() {
            proof {
                let seen = obstacle@.push(card);
                let drawn = padded(deck0, seen, total);
                lemma_padded(deck0, seen, total);
                assert(drawn.take(difficulty as int).take(i + 1) =~= seen);
                lemma_first_excuse(cards_of(drawn.take(difficulty as int)), i as int);
                assert(first_rules_outcome(drawn, difficulty as nat, skill as nat, rounds as nat)
                    == (None::<(bool, usize)>, (i + 1) as nat));
                if deck0.len() >= difficulty {
                    assert(top_cards(deck0, difficulty as nat)[i as int] == Card::Excuse);
                }
            }
            return None;
        }
        obstacle.push(card);
        i = i + 1;
    }
    let mut challenge = Challenge::new(&obstacle);
    let ghost start = obstacle@;
    proof {
        lemma_first_excuse(cards_of(start), difficulty as int);
        if deck0.len() >= difficulty {
            assert forall|j: int| 0 <= j < difficulty implies top_cards(
                deck0,
                difficulty as nat,
            )[j] != Card::Excuse by {
                assert(cards_of(start)[j] == start[j].value());
            }
        }
        assert forall|ext: Seq<DrawnCard>| #[trigger]
            first_rules_play(start, 0, Seq::<DrawnCard>::empty() + ext, skill as nat)
                == first_rules_play(start, 0, ext, skill as nat) by {
            assert(Seq::<DrawnCard>::empty() + ext =~= ext);
        }
    }
    // Test results.
    let ghost mut played: Seq<DrawnCard> = Seq::empty();
    let mut round: usize = 0;
    loop
        invariant_except_break
            round <= rounds,
            played.len() == round,
            challenge.spec_reversed() <= round,
            challenge.spec_reversed() < skill + MAX_LOSSES,
            forall|ext: Seq<DrawnCard>| #[trigger]
                first_rules_play(start, 0, played + ext, skill as nat) == {
                    let rest = first_rules_play(
                        challenge.spec_obstacle(),
                        challenge.spec_reversed(),
                        ext,
                        skill as nat,
                    );
                    (rest.0, rest.1, (rest.2 + round) as nat)
                },
        invariant
            deck0 == old(deck)@,
            total == difficulty + rounds,
            start.len() == difficulty,
            first_excuse(cards_of(start)) == difficulty,
            deck0.len() >= difficulty ==> cards_of(start) == top_cards(deck0, difficulty as nat),
            rounds == 0 ==> challenge.spec_reversed() == 0 && challenge.spec_obstacle() == start,
            challenge.spec_reversed() <= skill + MAX_LOSSES,
            played.len() <= rounds,
            draws_from(full_deck(), deck0, cards_of(start + played), deck@),
            deck0.len() >= difficulty + played.len() ==> deck@ == deck0.take(
                deck0.len() - difficulty - played.len(),
            ) && cards_of(start + played) == top_cards(deck0, (difficulty + played.len()) as nat),
        ensures
            forall|ext: Seq<DrawnCard>|
                ext.len() + played.len() == rounds ==> #[trigger] first_rules_play(
                    start,
                    0,
                    played + ext,
                    skill as nat,
                ) == (
                    challenge.spec_obstacle(),
                    challenge.spec_reversed(),
                    played.len(),
                ),
        decreases rounds - round,
    {
        if round == rounds {
            break;
        }
        let ghost deck_before = deck@;
        let draw = deck.next(rng);
        proof {
            lemma_draw_one(deck0, start + played, deck_before, draw, deck@);
            assert(start + played.push(draw) =~= (start + played).push(draw));
            if deck0.len() >= difficulty + played.len() + 1 {
                lemma_draw_top(deck0, start + played, draw);
                assert(start + played.push(draw) =~= (start + played).push(draw));
            }
        }
        let ghost before_o = challenge.spec_obstacle();
        let ghost before_r = challenge.spec_reversed();
        let goes_on = challenge.first_rules_round(&draw, skill);
        proof {
            let old_played = played;
            played = played.push(draw);
            assert forall|ext: Seq<DrawnCard>| #[trigger]
                first_rules_play(start, 0, played + ext, skill as nat) == if goes_on {
                    let rest = first_rules_play(
                        challenge.spec_obstacle(),
                        challenge.spec_reversed(),
                        ext,
                        skill as nat,
                    );
                    (rest.0, rest.1, (rest.2 + round + 1) as nat)
                } else {
                    (challenge.spec_obstacle(), challenge.spec_reversed(), played.len())
                } by {
                let ext2 = seq![draw] + ext;
                assert(played + ext =~= old_played + ext2);
                assert(ext2[0] == draw);
                assert(ext2.drop_first() =~= ext);
            }
        }
        if !goes_on {
            break;
        }
        round = round + 1;
    }
    let r = challenge.first_rules_result(skill);
    proof {
        let drawn = padded(deck0, start + played, total);
        lemma_padded(deck0, start + played, total);
        let pad = drawn.skip(difficulty + played.len());
        assert(drawn =~= start + played + pad);
        assert(drawn.take(difficulty as int) =~= start);
        assert(drawn.subrange(difficulty as int, (difficulty + rounds) as int) =~= played + pad);
        assert(first_rules_play(start, 0, played + pad, skill as nat) == (
            challenge.spec_obstacle(),
            challenge.spec_reversed(),
            played.len(),
        ));
        assert(first_rules_outcome(drawn, difficulty as nat, skill as nat, rounds as nat) == (
            Some(r),
            (difficulty + played.len()) as nat,
        ));
    }
    Some(r)
}

/// The obstacle of the second rules: up to `difficulty` cards, drawing stops at the Excuse,
/// which is left out; the challenge starts with the reversed cards of the obstacle counted
/// as reversed draws.
pub fn second_rules_obstacle(deck: &mut Deck, rng: &mut StdRng, difficulty: usize) -> (r:
    Challenge)
    ensures
        r.spec_obstacle().len() <= difficulty,
        forall|i: int|
            0 <= i < r.spec_obstacle().len() ==> r.spec_obstacle()[i].value() != Card::Excuse,
        r.spec_reversed() == count_reversed(r.spec_obstacle()),
        draws_from(
            full_deck(),
            old(deck)@,
            if r.spec_obstacle().len() < difficulty {
                cards_of(r.spec_obstacle()).push(Card::Excuse)
            } else {
                cards_of(r.spec_obstacle())
            },
            final(deck)@,
        ),
        old(deck)@.len() >= difficulty ==> {
            let top = top_cards(old(deck)@, difficulty as nat);
            let e = first_excuse(top);
            &&& cards_of(r.spec_obstacle()) == top.take(e as int)
            &&& final(deck)@ == old(deck)@.take(
                old(deck)@.len() - if e < difficulty {
                    e + 1
                } else {
                    e
                },
            )
        },
{
    let ghost deck0 = deck@;
    // Fill the hand of the Obstacle.
    let mut obstacle: Vec<DrawnCard> = Vec::new();
    proof {
        lemma_draws_from_none(full_deck(), deck0);
        assert(cards_of(obstacle@) =~= Seq::<Card>::empty());
    }
    let mut i: usize = 0;
    loop
        invariant_except_break
            i <= difficulty,
            obstacle@.len() == i,
            draws_from(full_deck(), deck0, cards_of(obstacle@), deck@),
            deck0.len() >= i ==> deck@ == deck0.take(deck0.len() - i),
        invariant
            deck0 == old(deck)@,
            obstacle@.len() <= difficulty,
            forall|j: int| 0 <= j < obstacle@.len() ==> obstacle@[j].value() != Card::Excuse,
            deck0.len() >= obstacle@.len() ==> cards_of(obstacle@) == top_cards(
                deck0,
                obstacle@.len(),
            ),
        ensures
            draws_from(
                full_deck(),
                deck0,
                if obstacle@.len() < difficulty {
                    cards_of(obstacle@).push(Card::Excuse)
                } else {
                    cards_of(obstacle@)
                },
                deck@,
            ),
            deck0.len() >= difficulty ==> {
                let top = top_cards(deck0, difficulty as nat);
                &&& first_excuse(top) == obstacle@.len()
                &&& deck@ == deck0.take(
                    deck0.len() - if obstacle@.len() < difficulty {
                        obstacle@.len() + 1
                    } else {
                        obstacle@.len()
                    },
                )
            },
        decreases difficulty - i,
    {
        if i == difficulty {
            proof {
                if deck0.len() >= difficulty {
                    let top = top_cards(deck0, difficulty as nat);
                    assert forall|j: int| 0 <= j < i implies top[j] != Card::Excuse by {
                        assert(cards_of(obstacle@)[j] == obstacle@[j].value());
                    }
                    lemma_first_excuse(top, i as int);
                }
            }
            break;
        }
        let ghost deck_before = deck@;
        let card = deck.next(rng);
        proof {
            lemma_draw_one(deck0, obstacle@, deck_before, card, deck@);
            if deck0.len() >= i + 1 {
                lemma_draw_top(deck0, obstacle@, card);
            }
        }
        if let Card::Excuse = card.card() {
            // The excuse showed up, stop drawing!
            proof {
                assert(cards_of(obstacle@.push(card)) =~= cards_of(obstacle@).push(Card::Excuse));
                if deck0.len() >= difficulty {
                    let top = top_cards(deck0, difficulty as nat);
                    assert forall|j: int| 0 <= j < i implies top[j] != Card::Excuse by {
                        assert(cards_of(obstacle@)[j] == obstacle@[j].value());
                    }
                    lemma_first_excuse(top, i as int);
                }
            }
            break;
        }
        obstacle.push(card);
        i = i + 1;
    }
    proof {
        if deck0.len() >= difficulty {
            let top = top_cards(deck0, difficulty as nat);
            assert(cards_of(obstacle@) =~= top.take(obstacle@.len() as int));
        }
    }
    // Count the number of cards already reversed.
    let mut reversed: usize = 0;
    let mut i: usize = 0;
    while i < obstacle.len()
        invariant
            i <= obstacle@.len(),
            reversed == count_reversed(obstacle@.take(i as int)),
            reversed <= i,
        decreases obstacle@.len() - i,
    {
        assert(obstacle@.take(i + 1).drop_last() =~= obstacle@.take(i as int));
        if obstacle[i].orientation().is_reversed() {
            reversed = reversed + 1;
        }
        i = i + 1;
    }
    assert(obstacle@.take(i as int) =~= obstacle@);
    let mut challenge = Challenge::new(&obstacle);
    challenge.reversed = reversed;
    challenge
}

/// A new shuffled deck less the card drawn from it still holds the Excuse, unless that card
/// was the Excuse.
proof fn lemma_reshuffled_holds_excuse(deck: Seq<Card>, drawn: Card)
    requires
        deck.len() == 66,
        deck.push(drawn).to_multiset() == full_deck().to_multiset(),
        drawn != Card::Excuse,
    ensures
        draws_to_excuse(deck) <= 66,
{
    broadcast use vstd::seq_lib::group_to_multiset_ensures;
    broadcast use vstd::multiset::group_multiset_axioms;

    lemma_full_deck();
    assert(is_game_card(Card::Excuse));
    assert(full_deck().contains(Card::Excuse));
    assert(deck.push(drawn).to_multiset().count(Card::Excuse) > 0);
    assert(deck.to_multiset().count(Card::Excuse) > 0);
    lemma_draws_to_excuse(deck);
}

impl Challenge {
    /// Plays the second rules to the end: the player draws while obstacle cards are left
    /// and the challenge goes on. The Excuse ends the challenge, and a shuffled deck holds
    /// it, so the draws come to an end.
    pub fn second_rules_play(&mut self, deck: &mut Deck, rng: &mut StdRng, skill: usize)
        requires
            old(self).spec_reversed() + old(deck)@.len() + 67 <= usize::MAX,
        ensures
            exists|draws: Seq<DrawnCard>|
                {
                    &&& #[trigger] second_rules_play(
                        old(self).spec_obstacle(),
                        old(self).spec_reversed(),
                        draws,
                        skill as nat,
                    ) == Some((final(self).spec_obstacle(), final(self).spec_reversed(), draws.len()))
                    &&& draws_from(full_deck(), old(deck)@, cards_of(draws), final(deck)@)
                    &&& draws.len() <= draws_to_excuse(old(deck)@)
                    &&& draws.len() <= old(deck)@.len() + 67
                    &&& old(deck)@.len() >= draws.len() ==> {
                        &&& cards_of(draws) == top_cards(old(deck)@, draws.len())
                        &&& final(deck)@ == old(deck)@.take(old(deck)@.len() - draws.len())
                    }
                },
            old(self).spec_obstacle().len() == 0 ==> *final(rng) == *old(rng) && final(deck)@
                == old(deck)@,
    {
        let ghost o0 = self.spec_obstacle();
        let ghost r0 = self.spec_reversed();
        let ghost deck0 = deck@;
        let ghost m0 = draws_to_excuse(deck0);
        let ghost mut played: Seq<DrawnCard> = Seq::empty();
        proof {
            lemma_draws_to_excuse(deck0);
            lemma_draws_from_none(full_deck(), deck0);
            assert(cards_of(played) =~= Seq::<Card>::empty());
            assert forall|ext: Seq<DrawnCard>| #[trigger]
                second_rules_play(o0, r0, played + ext, skill as nat) == after_draws(
                    second_rules_play(o0, r0, ext, skill as nat),
                    played.len(),
                ) by {
                assert(played + ext =~= ext);
                match second_rules_play(o0, r0, ext, skill as nat) {
                    Some((o, r, used)) => {},
                    None => {},
                }
            }
        }
        loop
            invariant_except_break
                forall|ext: Seq<DrawnCard>| #[trigger]
                    second_rules_play(o0, r0, played + ext, skill as nat) == after_draws(
                        second_rules_play(self.spec_obstacle(), self.spec_reversed(), ext, skill as nat),
                        played.len(),
                    ),
                self.spec_reversed() + draws_to_excuse(deck@) <= r0 + m0,
                played.len() + draws_to_excuse(deck@) <= m0,
            invariant
                draws_from(full_deck(), deck0, cards_of(played), deck@),
                deck0 == old(deck)@,
                o0 == old(self).spec_obstacle(),
                r0 == old(self).spec_reversed(),
                m0 == draws_to_excuse(deck0),
                m0 <= deck0.len() + 67,
                r0 + deck0.len() + 67 <= usize::MAX,
                deck0.len() >= played.len() ==> deck@ == deck0.take(deck0.len() - played.len())
                    && cards_of(played) == top_cards(deck0, played.len()),
                played.len() == 0 ==> *rng == *old(rng) && deck@ == deck0,
            ensures
                played.len() <= m0,
                second_rules_play(o0, r0, played, skill as nat) == Some(
                    (self.spec_obstacle(), self.spec_reversed(), played.len()),
                ),
            decreases draws_to_excuse(deck@),
        {
            if self.obstacle_len() == 0 {
                proof {
                    let ext = Seq::<DrawnCard>::empty();
                    assert(played + ext =~= played);
                    assert(second_rules_play(o0, r0, played + ext, skill as nat) == after_draws(
                        second_rules_play(self.spec_obstacle(), self.spec_reversed(), ext, skill as nat),
                        played.len(),
                    ));
                }
                break;
            }
            let ghost deck_before = deck@;
            proof {
                lemma_draws_to_excuse(deck_before);
            }
            let draw = deck.next(rng);
            proof {
                lemma_draw_one(deck0, played, deck_before, draw, deck@);
                if deck0.len() >= played.len() + 1 {
                    lemma_draw_top(deck0, played, draw);
                }
            }
            let ghost before_o = self.spec_obstacle();
            let ghost before_r = self.spec_reversed();
            let goes_on = self.second_rules_round(&draw, skill);
            proof {
                let old_played = played;
                played = played.push(draw);
                assert forall|ext: Seq<DrawnCard>| #[trigger]
                    second_rules_play(o0, r0, played + ext, skill as nat) == if goes_on {
                        after_draws(
                            second_rules_play(
                                self.spec_obstacle(),
                                self.spec_reversed(),
                                ext,
                                skill as nat,
                            ),
                            played.len(),
                        )
                    } else {
                        Some((self.spec_obstacle(), self.spec_reversed(), played.len()))
                    } by {
                    let ext2 = seq![draw] + ext;
                    assert(played + ext =~= old_played + ext2);
                    assert(ext2[0] == draw);
                    assert(ext2.drop_first() =~= ext);
                    match second_rules_play(
                        self.spec_obstacle(),
                        self.spec_reversed(),
                        ext,
                        skill as nat,
                    ) {
                        Some((o, r, used)) => {},
                        None => {},
                    }
                }
                if goes_on {
                    if deck_before.len() > 0 {
                        assert(deck@ == deck_before.drop_last());
                    } else {
                        lemma_reshuffled_holds_excuse(deck@, draw.value());
                    }
                } else {
                    assert(played + Seq::<DrawnCard>::empty() =~= played);
                }
            }
            if !goes_on {
                break;
            }
        }
    }
}

} // verus!
