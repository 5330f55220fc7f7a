//! Hands of drawn cards and how one hand beats another.
use vstd::prelude::*;
use itertools::Itertools;

use crate::cards::{card_outcome, Beats, Card, Comparison, DrawnCard};

verus! {

/// The pairs `(i, j)` with `i < n` and `j < m`, in lexicographic order.
pub open spec fn index_pairs(n: nat, m: nat) -> Seq<(usize, usize)>
    decreases n,
{
    if n == 0 {
        Seq::empty()
    } else {
        index_pairs((n - 1) as nat, m) + Seq::new(m, |j: int| ((n - 1) as usize, j as usize))
    }
}

/// Folds one more confrontation into the outcome of the previous ones: the first Excuse
/// or Win decides, a Draw outweighs a Loss.
pub open spec fn settle_step(acc: Comparison, c: Comparison) -> Comparison {
    if acc == Comparison::Excuse || acc == Comparison::Win {
        acc
    } else {
        match c {
            Comparison::Lose => acc,
            _ => c,
        }
    }
}

/// The outcome of a series of confrontations, taken in order.
pub open spec fn settle(outcomes: Seq<Comparison>) -> Comparison
    decreases outcomes.len(),
{
    if outcomes.len() == 0 {
        Comparison::Lose
    } else {
        settle_step(settle(outcomes.drop_last()), outcomes.last())
    }
}

/// The outcome of every card of `mine` against every card of `theirs`, in lexicographic order.
pub open spec fn pair_outcomes(mine: Seq<Card>, theirs: Seq<Card>) -> Seq<Comparison> {
    index_pairs(mine.len(), theirs.len()).map_values(
        |p: (usize, usize)| card_outcome(mine[p.0 as int], theirs[p.1 as int]),
    )
}

/// The outcome of a hand against another.
pub open spec fn hand_outcome(mine: Seq<Card>, theirs: Seq<Card>) -> Comparison {
    settle(pair_outcomes(mine, theirs))
}

/// The cards of a sequence of drawn cards.
pub open spec fn cards_of(s: Seq<DrawnCard>) -> Seq<Card> {
    s.map_values(|d: DrawnCard| d.value())
}

pub proof fn lemma_index_pairs_len(n: nat, m: nat)
    ensures
        index_pairs(n, m).len() == n * m,
    decreases n,
{
    if n > 0 {
        let p = (n - 1) as nat;
        lemma_index_pairs_len(p, m);
        assert(n * m == p * m + m) by (nonlinear_arith)
            requires
                n == p + 1,
        ;
    } else {
        assert(n * m == 0) by (nonlinear_arith)
            requires
                n == 0,
        ;
    }
}

pub(crate) proof fn lemma_index_pairs_bounded(n: nat, m: nat, k: int)
    requires
        0 <= k < index_pairs(n, m).len(),
    ensures
        index_pairs(n, m)[k].0 < n,
        index_pairs(n, m)[k].1 < m,
    decreases n,
{
    if n > 0 {
        let prev = index_pairs((n - 1) as nat, m);
        if k < prev.len() {
            lemma_index_pairs_bounded((n - 1) as nat, m, k);
        }
    }
}

/// The cartesian product of `0..n` and `0..m`, as itertools enumerates it.
#[verifier::external_body]
pub(crate) fn index_product(n: usize, m: usize) -> (r: Vec<(usize, usize)>)
    ensures
        r@ == index_pairs(n as nat, m as nat),
{
    (0..n).cartesian_product(0..m).collect()
}

/// Once a prefix has settled on an Excuse or a Win, the whole series settles on it.
pub(crate) proof fn lemma_settle_decided(s: Seq<Comparison>, k: int)
    requires
        0 < k <= s.len(),
        settle(s.take(k)) == Comparison::Excuse || settle(s.take(k)) == Comparison::Win,
    ensures
        settle(s) == settle(s.take(k)),
    decreases s.len() - k,
{
    if k < s.len() {
        assert(s.take(k + 1).drop_last() =~= s.take(k));
        lemma_settle_decided(s, k + 1);
    } else {
        assert(s.take(k) =~= s);
    }
}

/// The cards a side holds in one round.
#[verifier::external_body]
pub struct Draw {
    cards: smallvec::SmallVec<[DrawnCard; 2]>,
}

/// The cards held in a draw, in the order they were added.
pub uninterp spec fn draw_cards(d: Draw) -> Seq<DrawnCard>;

/// `SmallVec::new`: an empty vector.
#[verifier::external_body]
fn smallvec_new() -> (r: Draw)
    ensures
        draw_cards(r) == Seq::<DrawnCard>::empty(),
{
    Draw { cards: smallvec::SmallVec::new() }
}

/// `SmallVec::push`: appends at the end.
#[verifier::external_body]
fn smallvec_push(d: &mut Draw, c: DrawnCard)
    ensures
        draw_cards(*final(d)) == draw_cards(*old(d)).push(c),
{
    d.cards.push(c)
}

/// `SmallVec::len`: the number of items.
#[verifier::external_body]
fn smallvec_len(d: &Draw) -> (r: usize)
    ensures
        r == draw_cards(*d).len(),
{
    d.cards.len()
}

/// Indexing a `SmallVec` (through its slice) within bounds.
#[verifier::external_body]
fn smallvec_at(d: &Draw, i: usize) -> (r: &DrawnCard)
    requires
        i < draw_cards(*d).len(),
    ensures
        *r == draw_cards(*d)[i as int],
{
    &d.cards[i]
}

impl Draw {
    pub fn new() -> (r: Draw)
        ensures
            draw_cards(r) == Seq::<DrawnCard>::empty(),
    {
        smallvec_new()
    }

    pub fn push(&mut self, c: DrawnCard)
        ensures
            draw_cards(*final(self)) == draw_cards(*old(self)).push(c),
    {
        smallvec_push(self, c)
    }

    pub fn len(&self) -> (r: usize)
        ensures
            r == draw_cards(*self).len(),
    {
        smallvec_len(self)
    }

    pub fn get(&self, i: usize) -> (r: &DrawnCard)
        requires
            i < draw_cards(*self).len(),
        ensures
            *r == draw_cards(*self)[i as int],
    {
        smallvec_at(self, i)
    }
}

impl Beats for Draw {
    open spec fn comparable(&self, other: &Self) -> bool {
        draw_cards(*self).len() > 0 && draw_cards(*other).len() > 0
    }

    /// Every card of `self` is confronted with every card of `other`, in order; the first
    /// Excuse or Win decides, else any Draw makes a Draw, else `self` loses. `self` is the
    /// hand with the advantage.
    fn beats(&self, other: &Self) -> (r: Comparison)
        ensures
            r == hand_outcome(cards_of(draw_cards(*self)), cards_of(draw_cards(*other))),
    {
        let ghost mine = cards_of(draw_cards(*self));
        let ghost theirs = cards_of(draw_cards(*other));
        let n = self.len();
        let m = other.len();
        let pairs = index_product(n, m);
        proof {
            lemma_index_pairs_len(n as nat, m as nat);
            assert((n as nat) * (m as nat) > 0) by (nonlinear_arith)
                requires
                    n > 0,
                    m > 0,
            ;
        }
        let ghost outs = pair_outcomes(mine, theirs);
        let mut best: Option<Comparison> = None;
        let mut k: usize = 0;
        while k < pairs.len()
            invariant
                pairs@ == index_pairs(n as nat, m as nat),
                n == draw_cards(*self).len(),
                m == draw_cards(*other).len(),
                mine == cards_of(draw_cards(*self)),
                theirs == cards_of(draw_cards(*other)),
                outs == pair_outcomes(mine, theirs),
                outs.len() == pairs@.len(),
                k <= pairs@.len(),
                best is None <==> k == 0,
                k > 0 ==> best == Some(settle(outs.take(k as int))),
                settle(outs.take(k as int)) != Comparison::Excuse,
                settle(outs.take(k as int)) != Comparison::Win,
            decreases pairs@.len() - k,
        {
            let (i, j) = pairs[k];
            proof {
                lemma_index_pairs_bounded(n as nat, m as nat, k as int);
                assert(outs.take(k as int + 1).drop_last() =~= outs.take(k as int));
            }
            match self.get(i).card().beats(other.get(j).card()) {
                Comparison::Excuse => {
                    proof {
                        lemma_settle_decided(outs, k as int + 1);
                    }
                    return Comparison::Excuse;
                },
                Comparison::Win => {
                    proof {
                        lemma_settle_decided(outs, k as int + 1);
                    }
                    return Comparison::Win;
                },
                Comparison::Lose => {
                    if best.is_none() {
                        best = Some(Comparison::Lose);
                    }
                },
                Comparison::Draw => {
                    best = Some(Comparison::Draw);
                },
            }
            k = k + 1;
        }
        assert(outs.take(k as int) =~= outs);
        best.unwrap()
    }
}

/// A one-card hand against a one-card hand is settled as the two cards are.
pub proof fn lemma_single_cards(a: Card, b: Card)
    ensures
        hand_outcome(seq![a], seq![b]) == card_outcome(a, b),
{
    reveal_with_fuel(index_pairs, 2);
    reveal_with_fuel(settle, 2);
    assert(index_pairs(1, 1) =~= seq![(0usize, 0usize)]);
    let outs = pair_outcomes(seq![a], seq![b]);
    assert(outs =~= seq![card_outcome(a, b)]);
    assert(outs.drop_last() =~= Seq::<Comparison>::empty());
}

/// How good an outcome is for the hand with the advantage: a loss, a draw, a win.
pub open spec fn outcome_rank(c: Comparison) -> int {
    match c {
        Comparison::Lose => 0,
        Comparison::Draw => 1,
        Comparison::Win => 2,
        Comparison::Excuse => 3,
    }
}

/// With no Excuse among the confrontations, more confrontations never settle worse.
proof fn lemma_settle_grows(a: Seq<Comparison>, b: Seq<Comparison>)
    requires
        forall|i: int| 0 <= i < (a + b).len() ==> (a + b)[i] != Comparison::Excuse,
    ensures
        settle(a + b) != Comparison::Excuse,
        settle(a) != Comparison::Excuse,
        outcome_rank(settle(a + b)) >= outcome_rank(settle(a)),
    decreases a.len() + b.len(),
{
    if b.len() == 0 {
        assert(a + b =~= a);
        if a.len() > 0 {
            let a2 = a.drop_last();
            assert(a2 + Seq::<Comparison>::empty() =~= a2);
            assert(a.last() == (a + b)[a.len() - 1]);
            assert forall|i: int| 0 <= i < (a2 + Seq::<Comparison>::empty()).len() implies (a2
                + Seq::<Comparison>::empty())[i] != Comparison::Excuse by {
                assert(a2[i] == (a + b)[i]);
            }
            lemma_settle_grows(a2, Seq::empty());
        }
    } else {
        let b2 = b.drop_last();
        assert((a + b).drop_last() =~= a + b2);
        assert forall|i: int| 0 <= i < (a + b2).len() implies (a + b2)[i]
            != Comparison::Excuse by {
            assert((a + b2)[i] == (a + b)[i]);
        }
        lemma_settle_grows(a, b2);
        assert((a + b).last() == (a + b)[(a + b).len() - 1]);
    }
}

/// One more card for the hand with the advantage never makes its result worse, when no
/// Excuse is in play.
pub proof fn lemma_extra_card_never_worse(mine: Seq<Card>, theirs: Seq<Card>, extra: Card)
    requires
        mine.len() < usize::MAX,
        theirs.len() <= usize::MAX,
        forall|i: int| 0 <= i < mine.len() ==> mine[i] != Card::Excuse,
        forall|j: int| 0 <= j < theirs.len() ==> theirs[j] != Card::Excuse,
        extra != Card::Excuse,
    ensures
        outcome_rank(hand_outcome(mine.push(extra), theirs)) >= outcome_rank(
            hand_outcome(mine, theirs),
        ),
        hand_outcome(mine.push(extra), theirs) != Comparison::Excuse,
{
    let n = mine.len();
    let m = theirs.len();
    let longer = mine.push(extra);
    let a = pair_outcomes(mine, theirs);
    let b = Seq::new(m, |j: int| card_outcome(extra, theirs[j]));
    lemma_index_pairs_len(n, m);
    lemma_index_pairs_len(n + 1, m);
    assert(index_pairs(n + 1, m) == index_pairs(n, m) + Seq::new(
        m,
        |j: int| (n as usize, j as usize),
    ));
    assert forall|k: int| 0 <= k < (a + b).len() implies #[trigger] pair_outcomes(longer, theirs)[k]
        == (a + b)[k] by {
        if k < a.len() {
            lemma_index_pairs_bounded(n, m, k);
            let p = index_pairs(n, m)[k];
            assert(index_pairs(n + 1, m)[k] == p);
            assert(longer[p.0 as int] == mine[p.0 as int]);
        } else {
            let j = k - a.len();
            assert(index_pairs(n + 1, m)[k] == (n as usize, j as usize));
            assert(longer[n as int] == extra);
        }
    }
    assert(pair_outcomes(longer, theirs) =~= a + b);
    assert forall|k: int| 0 <= k < (a + b).len() implies (a + b)[k] != Comparison::Excuse by {
        if k < a.len() {
            lemma_index_pairs_bounded(n, m, k);
            let p = index_pairs(n, m)[k];
            assert(mine[p.0 as int] != Card::Excuse && theirs[p.1 as int] != Card::Excuse);
        } else {
            assert(theirs[k - a.len()] != Card::Excuse);
        }
    }
    lemma_settle_grows(a, b);
}

} // verus!
