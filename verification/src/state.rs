//! A conflict played round after round under the three-state rules.
use vstd::prelude::*;
use rand::rngs::StdRng;

use crate::balance::{
    lemma_three_state_shift_steps, other_side, side_sign, three_state_score, three_state_shifted,
    Side, ThreeStateBalance,
};
use crate::cards::{Beats, Card, Comparison};
use crate::deck::{
    draws_from, full_deck, lemma_draws_from_concat, lemma_draws_from_none, lemma_draws_from_push,
    Deck,
};
use crate::draw::{cards_of, draw_cards, hand_outcome, Draw};

verus! {

/// The side with the advantage, which draws the hand that is confronted first.
pub open spec fn leader(b: ThreeStateBalance) -> Side {
    match b {
        ThreeStateBalance::Balanced => Side::A,
        ThreeStateBalance::Unbalanced(s) => s,
        ThreeStateBalance::Overwhelming(s) => s,
        ThreeStateBalance::Victory(s) => s,
    }
}

/// How many cards the leader draws in a round.
pub open spec fn leader_cards(b: ThreeStateBalance) -> nat {
    match b {
        ThreeStateBalance::Balanced => 1,
        _ => 2,
    }
}

/// How many cards the other side draws in a round.
pub open spec fn follower_cards(b: ThreeStateBalance) -> nat {
    match b {
        ThreeStateBalance::Overwhelming(_) => 2,
        _ => 1,
    }
}

/// Who wins a round, given the leader and how the leader's hand fared.
pub open spec fn round_winner(who: Side, c: Comparison) -> Option<Side> {
    match c {
        Comparison::Excuse => Some(other_side(who)),
        Comparison::Win => Some(who),
        Comparison::Lose => Some(other_side(who)),
        Comparison::Draw => None,
    }
}

/// The balance after a round, given the leader and how the leader's hand fared.
pub open spec fn round_balance(b: ThreeStateBalance, who: Side, c: Comparison) -> ThreeStateBalance {
    match c {
        Comparison::Excuse => three_state_shifted(b, None),
        Comparison::Win => three_state_shifted(b, Some(who)),
        Comparison::Lose => three_state_shifted(b, Some(other_side(who))),
        Comparison::Draw => b,
    }
}

/// The `k` cards on top of a deck, topmost first.
pub open spec fn top_cards(deck: Seq<Card>, k: nat) -> Seq<Card> {
    Seq::new(k, |i: int| deck[deck.len() - 1 - i])
}

/// One round of a conflict.
pub struct Step<B> {
    start: B,
    stop: B,
    a: Draw,
    b: Draw,
    winner: Option<Side>,
}

impl<B> Step<B> {
    pub closed spec fn spec_start(self) -> B {
        self.start
    }

    pub closed spec fn spec_stop(self) -> B {
        self.stop
    }

    pub closed spec fn spec_a(self) -> Draw {
        self.a
    }

    pub closed spec fn spec_b(self) -> Draw {
        self.b
    }

    pub closed spec fn spec_winner(self) -> Option<Side> {
        self.winner
    }

    /// The balance before the round.
    pub fn start(&self) -> (r: &B)
        ensures
            *r == self.spec_start(),
    {
        &self.start
    }

    /// The balance after the round.
    pub fn stop(&self) -> (r: &B)
        ensures
            *r == self.spec_stop(),
    {
        &self.stop
    }

    /// The cards drawn by side A.
    pub fn a(&self) -> (r: &Draw)
        ensures
            *r == self.spec_a(),
    {
        &self.a
    }

    /// The cards drawn by side B.
    pub fn b(&self) -> (r: &Draw)
        ensures
            *r == self.spec_b(),
    {
        &self.b
    }

    /// The side that won the round, if any.
    pub fn winner(&self) -> (r: Option<Side>)
        ensures
            r == self.spec_winner(),
    {
        self.winner
    }
}

/// The hand of the leader in a step.
pub open spec fn leader_hand(step: Step<ThreeStateBalance>, who: Side) -> Draw {
    if who == Side::A {
        step.spec_a()
    } else {
        step.spec_b()
    }
}

/// The hand of the other side in a step.
pub open spec fn follower_hand(step: Step<ThreeStateBalance>, who: Side) -> Draw {
    if who == Side::A {
        step.spec_b()
    } else {
        step.spec_a()
    }
}

impl Step<ThreeStateBalance> {
    /// Plays a round from `balance`: the leader's hand `over` is confronted with the other
    /// side's hand `under`, and the balance moves accordingly.
    pub fn resolve(balance: ThreeStateBalance, over: Draw, under: Draw) -> (r: Step<
        ThreeStateBalance,
    >)
        requires
            !(balance is Victory),
            draw_cards(over).len() > 0,
            draw_cards(under).len() > 0,
        ensures
            ({
                let who = leader(balance);
                let c = hand_outcome(cards_of(draw_cards(over)), cards_of(draw_cards(under)));
                &&& r.spec_start() == balance
                &&& r.spec_stop() == round_balance(balance, who, c)
                &&& r.spec_winner() == round_winner(who, c)
                &&& leader_hand(r, who) == over
                &&& follower_hand(r, who) == under
            }),
    {
        let who = match balance {
            ThreeStateBalance::Balanced => Side::A,
            ThreeStateBalance::Unbalanced(side) => side,
            ThreeStateBalance::Overwhelming(side) => side,
            ThreeStateBalance::Victory(side) => side,
        };
        let (winner, new_balance) = match over.beats(&under) {
            Comparison::Excuse => (Some(who.rev()), balance.shift(None)),
            Comparison::Win => (Some(who), balance.shift(Some(who))),
            Comparison::Lose => (Some(who.rev()), balance.shift(Some(who.rev()))),
            Comparison::Draw => (None, balance),
        };
        let (a, b) = match who {
            Side::A => (over, under),
            Side::B => (under, over),
        };
        Step { start: balance, stop: new_balance, a, b, winner }
    }
}

/// A conflict in progress: the balance, the deck and the source of randomness.
pub struct State<'a, B> {
    balance: B,
    deck: Deck,
    rng: &'a mut StdRng,
}

impl<'a, B> State<'a, B> {
    pub closed spec fn spec_balance(self) -> B {
        self.balance
    }

    pub closed spec fn spec_deck(self) -> Seq<Card> {
        self.deck@
    }

    /// The state of the source of randomness.
    pub closed spec fn spec_rng(self) -> StdRng {
        *self.rng
    }
}

impl<'a, B> State<'a, B> {
    /// A conflict starting from `balance` with a freshly shuffled deck.
    pub fn new(rng: &'a mut StdRng, balance: B) -> (r: Self)
        ensures
            r.spec_balance() == balance,
            r.spec_deck().len() == 67,
            r.spec_deck().to_multiset() == full_deck().to_multiset(),
    {
        let deck = Deck::shuffle(rng);
        State { balance, deck, rng }
    }

    /// Draws `count` cards from the deck into a hand.
    fn deal(&mut self, count: usize) -> (r: Draw)
        ensures
            draw_cards(r).len() == count,
            final(self).spec_balance() == old(self).spec_balance(),
            draws_from(
                full_deck(),
                old(self).spec_deck(),
                cards_of(draw_cards(r)),
                final(self).spec_deck(),
            ),
            old(self).spec_deck().len() >= count ==> cards_of(draw_cards(r)) == top_cards(
                old(self).spec_deck(),
                count as nat,
            ) && final(self).spec_deck() == old(self).spec_deck().take(
                old(self).spec_deck().len() - count,
            ),
    {
        let ghost deck0 = self.deck@;
        let mut hand = Draw::new();
        proof {
            lemma_draws_from_none(full_deck(), deck0);
            assert(cards_of(draw_cards(hand)) =~= Seq::<Card>::empty());
        }
        let mut k: usize = 0;
        while k < count
            invariant
                k <= count,
                draw_cards(hand).len() == k,
                self.balance == old(self).balance,
                deck0 == old(self).deck@,
                deck0.len() >= count ==> cards_of(draw_cards(hand)) == top_cards(deck0, k as nat)
                    && self.deck@ == deck0.take(deck0.len() - k),
                draws_from(full_deck(), deck0, cards_of(draw_cards(hand)), self.deck@),
            decreases count - k,
        {
            let ghost before = draw_cards(hand);
            let ghost deck_before = self.deck@;
            let c = self.deck.next(self.rng);
            hand.push(c);
            proof {
                lemma_draws_from_push(
                    full_deck(),
                    deck0,
                    cards_of(before),
                    deck_before,
                    c.value(),
                    self.deck@,
                );
                assert(cards_of(draw_cards(hand)) =~= cards_of(before).push(c.value()));
                if deck0.len() >= count {
                    assert(draw_cards(hand) == before.push(c));
                    assert(c.value() == deck0[deck0.len() - 1 - k]);
                    assert(cards_of(draw_cards(hand)) =~= cards_of(before).push(c.value()));
                    assert(cards_of(draw_cards(hand)) =~= top_cards(deck0, (k + 1) as nat));
                    assert(self.deck@ =~= deck0.take(deck0.len() - (k + 1)));
                }
            }
            k = k + 1;
        }
        hand
    }
}

impl<'a> State<'a, ThreeStateBalance> {
    /// Plays the next round; `None` once a side has won the conflict.
    pub fn next(&mut self) -> (r: Option<Step<ThreeStateBalance>>)
        ensures
            old(self).spec_balance() is Victory ==> {
                &&& r is None
                &&& final(self).spec_balance() == old(self).spec_balance()
                &&& final(self).spec_deck() == old(self).spec_deck()
                &&& final(self).spec_rng() == old(self).spec_rng()
            },
            !(old(self).spec_balance() is Victory) ==> r is Some && ({
                let b = old(self).spec_balance();
                let step = r->0;
                let who = leader(b);
                let over = draw_cards(leader_hand(step, who));
                let under = draw_cards(follower_hand(step, who));
                let n = leader_cards(b) + follower_cards(b);
                let c = hand_outcome(cards_of(over), cards_of(under));
                &&& step.spec_start() == b
                &&& step.spec_stop() == final(self).spec_balance()
                &&& step.spec_stop() == round_balance(b, who, c)
                &&& step.spec_winner() == round_winner(who, c)
                &&& over.len() == leader_cards(b)
                &&& under.len() == follower_cards(b)
                &&& draws_from(
                    full_deck(),
                    old(self).spec_deck(),
                    cards_of(over) + cards_of(under),
                    final(self).spec_deck(),
                )
                &&& old(self).spec_deck().len() >= n ==> {
                    &&& cards_of(over) + cards_of(under) == top_cards(old(self).spec_deck(), n)
                    &&& final(self).spec_deck() == old(self).spec_deck().take(
                        old(self).spec_deck().len() - n,
                    )
                }
            }),
    {
        let balance = self.balance;
        let ghost deck0 = self.deck@;
        let (over, under) = match balance {
            ThreeStateBalance::Balanced => {
                let over = self.deal(1);
                let ghost mid = self.deck@;
                let under = self.deal(1);
                proof {
                    lemma_draws_from_concat(
                        full_deck(),
                        deck0,
                        cards_of(draw_cards(over)),
                        mid,
                        cards_of(draw_cards(under)),
                        self.deck@,
                    );
                }
                (over, under)
            },
            ThreeStateBalance::Unbalanced(_) => {
                let over = self.deal(2);
                let ghost mid = self.deck@;
                let under = self.deal(1);
                proof {
                    lemma_draws_from_concat(
                        full_deck(),
                        deck0,
                        cards_of(draw_cards(over)),
                        mid,
                        cards_of(draw_cards(under)),
                        self.deck@,
                    );
                }
                (over, under)
            },
            ThreeStateBalance::Overwhelming(_) => {
                let over = self.deal(2);
                let ghost mid = self.deck@;
                let under = self.deal(2);
                proof {
                    lemma_draws_from_concat(
                        full_deck(),
                        deck0,
                        cards_of(draw_cards(over)),
                        mid,
                        cards_of(draw_cards(under)),
                        self.deck@,
                    );
                }
                (over, under)
            },
            ThreeStateBalance::Victory(_) => return None,
        };
        proof {
            let n1 = leader_cards(balance);
            let n = n1 + follower_cards(balance);
            if deck0.len() >= n {
                assert(cards_of(draw_cards(over)) + cards_of(draw_cards(under)) =~= top_cards(
                    deck0,
                    n,
                ));
            }
        }
        let step = Step::resolve(balance, over, under);
        self.balance = *step.stop();
        Some(step)
    }
}

/// One step of a score back towards 0: down from above, up from below, 0 stays.
pub open spec fn towards_zero(score: int) -> int {
    if score > 0 {
        score - 1
    } else if score < 0 {
        score + 1
    } else {
        0
    }
}

/// How a round moves the balance, told by its score (-3 to 3, positive for side A), with
/// `who` leading. When the leader's hand wins, the score moves one step towards the
/// leader; when it loses, one step towards the other side; when the Excuse comes out,
/// nobody takes the step: the score moves one step back towards 0 (and stays at 0 from a
/// balanced conflict), while the round counts as won by the side that did not lead; a
/// drawn confrontation leaves the balance and is won by nobody. After a victory nothing
/// moves.
pub proof fn lemma_round_scores(b: ThreeStateBalance, who: Side, c: Comparison)
    ensures
        b is Victory ==> round_balance(b, who, c) == b,
        !(b is Victory) ==> three_state_score(round_balance(b, who, c)) == match c {
            Comparison::Win => three_state_score(b) + side_sign(who),
            Comparison::Lose => three_state_score(b) - side_sign(who),
            Comparison::Excuse => towards_zero(three_state_score(b)),
            Comparison::Draw => three_state_score(b),
        },
        c == Comparison::Excuse ==> round_winner(who, c) == Some(other_side(who)),
        c == Comparison::Win ==> round_winner(who, c) == Some(who),
        c == Comparison::Lose ==> round_winner(who, c) == Some(other_side(who)),
        c == Comparison::Draw ==> round_winner(who, c) is None,
{
}

/// A round moves the score of the balance by at most one, and a victory is final.
pub proof fn lemma_round_balance(b: ThreeStateBalance, who: Side, c: Comparison)
    ensures
        b is Victory ==> round_balance(b, who, c) == b,
        -1 <= three_state_score(round_balance(b, who, c)) - three_state_score(b) <= 1,
{
    lemma_three_state_shift_steps(b, None);
    lemma_three_state_shift_steps(b, Some(who));
    lemma_three_state_shift_steps(b, Some(other_side(who)));
}

/// The distance between two scores.
pub open spec fn score_distance(a: ThreeStateBalance, b: ThreeStateBalance) -> int {
    let d = three_state_score(a) - three_state_score(b);
    if d < 0 {
        -d
    } else {
        d
    }
}

/// How many cards a round from `b` draws.
pub open spec fn round_card_count(b: ThreeStateBalance) -> nat {
    leader_cards(b) + follower_cards(b)
}

/// The balance reached by playing `n` rounds from `b`, the hands drawn from the top of
/// `deck`, stopping at a victory.
pub open spec fn play_from(b: ThreeStateBalance, deck: Seq<Card>, n: nat) -> ThreeStateBalance
    decreases n,
{
    if n == 0 || b is Victory {
        b
    } else {
        let top = top_cards(deck, round_card_count(b));
        let c = hand_outcome(top.take(leader_cards(b) as int), top.skip(leader_cards(b) as int));
        play_from(
            round_balance(b, leader(b), c),
            deck.take(deck.len() - round_card_count(b)),
            (n - 1) as nat,
        )
    }
}

/// The balance reached by playing rounds from `b` in which the leader's hand fared as `cs`
/// says, in order.
pub open spec fn play_outcomes(b: ThreeStateBalance, cs: Seq<Comparison>) -> ThreeStateBalance
    decreases cs.len(),
{
    if cs.len() == 0 {
        b
    } else {
        let p = play_outcomes(b, cs.drop_last());
        round_balance(p, leader(p), cs.last())
    }
}

/// Once the rounds have ended in a victory, further rounds change nothing.
proof fn lemma_play_outcomes_after_victory(b: ThreeStateBalance, cs: Seq<Comparison>, n: nat)
    requires
        play_outcomes(b, cs) is Victory,
    ensures
        play_outcomes(b, cs + Seq::new(n, |i: int| Comparison::Draw)) == play_outcomes(b, cs),
    decreases n,
{
    let padded = cs + Seq::new(n, |i: int| Comparison::Draw);
    if n > 0 {
        let shorter = cs + Seq::new((n - 1) as nat, |i: int| Comparison::Draw);
        assert(padded.drop_last() =~= shorter);
        lemma_play_outcomes_after_victory(b, cs, (n - 1) as nat);
        let p = play_outcomes(b, shorter);
        lemma_round_balance(p, leader(p), padded.last());
    } else {
        assert(padded =~= cs);
    }
}

/// The balance reached by playing up to `n` rounds from `b`, stopping at a victory, each
/// round's hands taken in order from the front of `cards`, the leader's first; and how many
/// cards the rounds took.
pub open spec fn play_cards(b: ThreeStateBalance, cards: Seq<Card>, n: nat) -> (
    ThreeStateBalance,
    nat,
)
    decreases n,
{
    if n == 0 || b is Victory {
        (b, 0)
    } else {
        let k = round_card_count(b);
        let l = leader_cards(b);
        let c = hand_outcome(cards.take(l as int), cards.subrange(l as int, k as int));
        let rest = play_cards(round_balance(b, leader(b), c), cards.skip(k as int), (n - 1) as nat);
        (rest.0, rest.1 + k)
    }
}

/// Playing one more round from `b`, with the hands `over` and `under`, after the cards
/// `drawn` have been played from `start`.
proof fn lemma_play_cards_round(
    start: ThreeStateBalance,
    drawn: Seq<Card>,
    total: nat,
    b: ThreeStateBalance,
    m: nat,
    over: Seq<Card>,
    under: Seq<Card>,
)
    requires
        forall|ext: Seq<Card>| #[trigger]
            play_cards(start, drawn + ext, total) == (
                play_cards(b, ext, m).0,
                play_cards(b, ext, m).1 + drawn.len(),
            ),
        m > 0,
        !(b is Victory),
        over.len() == leader_cards(b),
        under.len() == follower_cards(b),
    ensures
        forall|ext: Seq<Card>| #[trigger]
            play_cards(start, (drawn + (over + under)) + ext, total) == (
                play_cards(
                    round_balance(b, leader(b), hand_outcome(over, under)),
                    ext,
                    (m - 1) as nat,
                ).0,
                play_cards(
                    round_balance(b, leader(b), hand_outcome(over, under)),
                    ext,
                    (m - 1) as nat,
                ).1 + (drawn + (over + under)).len(),
            ),
{
    let x = over + under;
    let k = round_card_count(b);
    let l = leader_cards(b);
    assert forall|ext: Seq<Card>| #[trigger]
        play_cards(start, (drawn + x) + ext, total) == (
            play_cards(round_balance(b, leader(b), hand_outcome(over, under)), ext, (m - 1) as nat).0,
            play_cards(round_balance(b, leader(b), hand_outcome(over, under)), ext, (m - 1) as nat).1
                + (drawn + x).len(),
        ) by {
        let ext2 = x + ext;
        assert((drawn + x) + ext =~= drawn + ext2);
        assert(ext2.take(l as int) =~= over);
        assert(ext2.subrange(l as int, k as int) =~= under);
        assert(ext2.skip(k as int) =~= ext);
        assert(play_cards(start, drawn + ext2, total) == (
            play_cards(b, ext2, m).0,
            play_cards(b, ext2, m).1 + drawn.len(),
        ));
    }
}

impl<'a> State<'a, ThreeStateBalance> {
    /// Plays round after round, as a simulation counts them: until a side wins, or until the
    /// round after the one numbered `rounds` (counting from 0) has been played, so at most
    /// `rounds + 2` rounds. Answers the balance reached.
    pub fn play_rounds(&mut self, rounds: usize) -> (r: ThreeStateBalance)
        ensures
            final(self).spec_balance() == r,
            old(self).spec_balance() is Victory ==> r == old(self).spec_balance(),
            score_distance(r, old(self).spec_balance()) <= rounds + 2,
            exists|cards: Seq<Card>|
                #![trigger play_cards(old(self).spec_balance(), cards, (rounds + 2) as nat)]
                {
                    &&& draws_from(
                        full_deck(),
                        old(self).spec_deck(),
                        cards,
                        final(self).spec_deck(),
                    )
                    &&& play_cards(old(self).spec_balance(), cards, (rounds + 2) as nat) == (
                        r,
                        cards.len(),
                    )
                },
            old(self).spec_deck().len() >= 4 * (rounds + 2) ==> r == play_from(
                old(self).spec_balance(),
                old(self).spec_deck(),
                (rounds + 2) as nat,
            ),
            exists|cs: Seq<Comparison>|
                #![trigger play_outcomes(old(self).spec_balance(), cs)]
                cs.len() == rounds + 2 && r == play_outcomes(old(self).spec_balance(), cs),
    {
        let ghost start = self.spec_balance();
        let ghost deck0 = self.spec_deck();
        let ghost total: nat = (rounds + 2) as nat;
        let ghost mut cs: Seq<Comparison> = Seq::empty();
        let ghost mut steps: nat = 0;
        let ghost mut drawn: Seq<Card> = Seq::empty();
        proof {
            lemma_draws_from_none(full_deck(), deck0);
            assert forall|ext: Seq<Card>| #[trigger]
                play_cards(start, drawn + ext, total) == (
                    play_cards(start, ext, total).0,
                    play_cards(start, ext, total).1 + drawn.len(),
                ) by {
                assert(drawn + ext =~= ext);
            }
        }
        let mut balance = self.balance;
        let mut i: u128 = 0;
        while i <= rounds as u128 + 1
            invariant_except_break
                score_distance(balance, start) <= i,
                steps == i,
                forall|ext: Seq<Card>| #[trigger]
                    play_cards(start, drawn + ext, total) == (
                        play_cards(balance, ext, (total - steps) as nat).0,
                        play_cards(balance, ext, (total - steps) as nat).1 + drawn.len(),
                    ),
            invariant
                start == old(self).spec_balance(),
                deck0 == old(self).spec_deck(),
                total == rounds + 2,
                i <= rounds + 1,
                steps <= total,
                balance == self.spec_balance(),
                start is Victory ==> balance == start,
                score_distance(balance, start) <= i + 1,
                cs.len() == steps,
                balance == play_outcomes(start, cs),
                draws_from(full_deck(), deck0, drawn, self.spec_deck()),
                deck0.len() >= 4 * total ==> {
                    &&& self.spec_deck().len() >= 4 * (total - steps)
                    &&& play_from(start, deck0, total) == play_from(
                        balance,
                        self.spec_deck(),
                        (total - steps) as nat,
                    )
                },
            ensures
                play_cards(start, drawn, total) == (balance, drawn.len()),
                draws_from(full_deck(), deck0, drawn, self.spec_deck()),
                score_distance(balance, start) <= rounds + 2,
                steps == total || balance is Victory,
                cs.len() == steps,
                balance == play_outcomes(start, cs),
                deck0.len() >= 4 * total ==> play_from(start, deck0, total) == play_from(
                    balance,
                    self.spec_deck(),
                    (total - steps) as nat,
                ),
            decreases rounds + 1 - i,
        {
            let ghost b = balance;
            let ghost deck_before = self.spec_deck();
            match self.next() {
                Some(step) => {
                    proof {
                        let who = leader(b);
                        let over = cards_of(draw_cards(leader_hand(step, who)));
                        let under = cards_of(draw_cards(follower_hand(step, who)));
                        let c = hand_outcome(over, under);
                        lemma_round_balance(b, who, c);
                        if deck0.len() >= 4 * total {
                            let k = round_card_count(b);
                            let top = top_cards(deck_before, k);
                            assert(over + under == top);
                            assert(top.take(leader_cards(b) as int) =~= over);
                            assert(top.skip(leader_cards(b) as int) =~= under);
                        }
                        assert(cs.push(c).drop_last() =~= cs);
                        let x = over + under;
                        lemma_draws_from_concat(
                            full_deck(),
                            deck0,
                            drawn,
                            deck_before,
                            x,
                            self.spec_deck(),
                        );
                        let left = (total - steps) as nat;
                        lemma_play_cards_round(start, drawn, total, b, left, over, under);
                        drawn = drawn + x;
                        cs = cs.push(c);
                        steps = steps + 1;
                    }
                    balance = *step.stop();
                    if i > rounds as u128 {
                        proof {
                            assert(drawn + Seq::<Card>::empty() =~= drawn);
                        }
                        break;
                    }
                    i = i + 1;
                },
                None => {
                    proof {
                        assert(drawn + Seq::<Card>::empty() =~= drawn);
                    }
                    break;
                },
            }
        }
        proof {
            let pad = (total - steps) as nat;
            if steps < total {
                lemma_play_outcomes_after_victory(start, cs, pad);
            }
            let full = cs + Seq::new(pad, |j: int| Comparison::Draw);
            if steps == total {
                assert(full =~= cs);
            }
            assert(full.len() == rounds + 2 && balance == play_outcomes(start, full));
            assert(play_from(balance, self.spec_deck(), pad) == balance);
        }
        balance
    }


}

/// Plays a conflict from `start` with a freshly shuffled deck, round after round, until a
/// side wins or `rounds + 2` rounds have been played; answers the balance reached.
pub fn final_balance(rng: &mut StdRng, start: ThreeStateBalance, rounds: usize) -> (r:
    ThreeStateBalance)
    ensures
        start is Victory ==> r == start,
        score_distance(r, start) <= rounds + 2,
        exists|cs: Seq<Comparison>|
            #![trigger play_outcomes(start, cs)]
            cs.len() == rounds + 2 && r == play_outcomes(start, cs),
        exists|d: Seq<Card>, cards: Seq<Card>, left: Seq<Card>|
            #![trigger play_cards(start, cards, (rounds + 2) as nat), draws_from(
                full_deck(),
                d,
                cards,
                left,
            )]
            {
                &&& d.len() == 67
                &&& d.to_multiset() == full_deck().to_multiset()
                &&& draws_from(full_deck(), d, cards, left)
                &&& play_cards(start, cards, (rounds + 2) as nat) == (r, cards.len())
            },
        exists|d: Seq<Card>|
            #![trigger play_from(start, d, (rounds + 2) as nat)]
            {
                &&& d.len() == 67
                &&& d.to_multiset() == full_deck().to_multiset()
                &&& 4 * (rounds + 2) <= 67 ==> r == play_from(start, d, (rounds + 2) as nat)
            },
{
    let mut state = State::new(rng, start);
    let ghost d = state.spec_deck();
    let r = state.play_rounds(rounds);
    proof {
        let cards = choose|cards: Seq<Card>|
            #![trigger play_cards(start, cards, (rounds + 2) as nat)]
            {
                &&& draws_from(full_deck(), d, cards, state.spec_deck())
                &&& play_cards(start, cards, (rounds + 2) as nat) == (r, cards.len())
            };
        assert(draws_from(full_deck(), d, cards, state.spec_deck()));
        let cs = choose|cs: Seq<Comparison>|
            #![trigger play_outcomes(start, cs)]
            cs.len() == rounds + 2 && r == play_outcomes(start, cs);
        assert(play_outcomes(start, cs) == r);
    }
    r
}

} // verus!
