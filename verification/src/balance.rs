//! The two sides of a conflict and the balance between them.
use vstd::prelude::*;

verus! {

#[derive(PartialEq, Eq, Clone, Copy, Hash, Debug, Structural)]
pub enum Side {
    A,
    B,
}

/// The other side.
pub open spec fn other_side(s: Side) -> Side {
    match s {
        Side::A => Side::B,
        Side::B => Side::A,
    }
}

/// `+1` for side A, `-1` for side B.
pub open spec fn side_sign(s: Side) -> int {
    match s {
        Side::A => 1,
        Side::B => -1,
    }
}

impl Side {
    pub fn rev(self) -> (r: Side)
        ensures
            r == other_side(self),
            r != self,
            other_side(r) == self,
    {
        match self {
            Side::A => Side::B,
            Side::B => Side::A,
        }
    }
}

/// The balance of a conflict under the three-state rules.
#[derive(PartialEq, Eq, Clone, Copy, Hash, Debug, Structural)]
pub enum ThreeStateBalance {
    Balanced,
    Unbalanced(Side),
    Overwhelming(Side),
    Victory(Side),
}

/// The balance after one round won by `towards` (`None`: nobody).
pub open spec fn three_state_shifted(b: ThreeStateBalance, towards: Option<Side>) -> ThreeStateBalance {
    match (b, towards) {
        (ThreeStateBalance::Balanced, None) => ThreeStateBalance::Balanced,
        (ThreeStateBalance::Balanced, Some(side)) => ThreeStateBalance::Unbalanced(side),
        (ThreeStateBalance::Unbalanced(_), None) => ThreeStateBalance::Balanced,
        (ThreeStateBalance::Unbalanced(side), Some(side_)) => if side == side_ {
            ThreeStateBalance::Overwhelming(side)
        } else {
            ThreeStateBalance::Balanced
        },
        (ThreeStateBalance::Overwhelming(side), None) => ThreeStateBalance::Unbalanced(side),
        (ThreeStateBalance::Overwhelming(side), Some(side_)) => if side == side_ {
            ThreeStateBalance::Victory(side)
        } else {
            ThreeStateBalance::Unbalanced(side)
        },
        (ThreeStateBalance::Victory(side), _) => ThreeStateBalance::Victory(side),
    }
}

/// The balance as a number from -3 (victory of B) to 3 (victory of A).
pub open spec fn three_state_score(b: ThreeStateBalance) -> int {
    match b {
        ThreeStateBalance::Balanced => 0,
        ThreeStateBalance::Unbalanced(s) => side_sign(s),
        ThreeStateBalance::Overwhelming(s) => 2 * side_sign(s),
        ThreeStateBalance::Victory(s) => 3 * side_sign(s),
    }
}

/// The same balance with the two sides exchanged.
pub open spec fn three_state_mirror(b: ThreeStateBalance) -> ThreeStateBalance {
    match b {
        ThreeStateBalance::Balanced => ThreeStateBalance::Balanced,
        ThreeStateBalance::Unbalanced(s) => ThreeStateBalance::Unbalanced(other_side(s)),
        ThreeStateBalance::Overwhelming(s) => ThreeStateBalance::Overwhelming(other_side(s)),
        ThreeStateBalance::Victory(s) => ThreeStateBalance::Victory(other_side(s)),
    }
}

pub open spec fn mirror_side(t: Option<Side>) -> Option<Side> {
    match t {
        Some(s) => Some(other_side(s)),
        None => None,
    }
}

impl ThreeStateBalance {
    pub fn shift(self, towards: Option<Side>) -> (r: ThreeStateBalance)
        ensures
            r == three_state_shifted(self, towards),
    {
        match (self, towards) {
            (ThreeStateBalance::Balanced, None) => ThreeStateBalance::Balanced,
            (ThreeStateBalance::Balanced, Some(side)) => ThreeStateBalance::Unbalanced(side),
            (ThreeStateBalance::Unbalanced(_), None) => ThreeStateBalance::Balanced,
            (ThreeStateBalance::Unbalanced(side), Some(side_)) => if side == side_ {
                ThreeStateBalance::Overwhelming(side)
            } else {
                ThreeStateBalance::Balanced
            },
            (ThreeStateBalance::Overwhelming(side), None) => ThreeStateBalance::Unbalanced(side),
            (ThreeStateBalance::Overwhelming(side), Some(side_)) => if side == side_ {
                ThreeStateBalance::Victory(side)
            } else {
                ThreeStateBalance::Unbalanced(side)
            },
            (ThreeStateBalance::Victory(side), _) => ThreeStateBalance::Victory(side),
        }
    }
}

/// Each round moves the balance one step: towards the winner, or back towards
/// balance when nobody wins; a victory is final. The score tells balances apart.
pub proof fn lemma_three_state_shift_steps(b: ThreeStateBalance, towards: Option<Side>)
    ensures
        b is Victory ==> three_state_shifted(b, towards) == b,
        !(b is Victory) && towards is Some ==> three_state_score(three_state_shifted(b, towards))
            == three_state_score(b) + side_sign(towards->0),
        !(b is Victory) && towards is None ==> three_state_score(three_state_shifted(b, towards))
            == if three_state_score(b) > 0 {
            three_state_score(b) - 1
        } else if three_state_score(b) < 0 {
            three_state_score(b) + 1
        } else {
            0
        },
        three_state_shifted(b, towards) is Victory ==> (b is Victory || (b is Overwhelming
            && towards == Some(b->Overwhelming_0))),
{
}

/// Two balances with the same score are the same balance.
pub proof fn lemma_three_state_score_injective(a: ThreeStateBalance, b: ThreeStateBalance)
    ensures
        three_state_score(a) == three_state_score(b) ==> a == b,
{
}

/// A round won by one side followed by a round won by the other leaves the balance as it
/// was, unless the first round ended the conflict.
pub proof fn lemma_three_state_shift_undone(b: ThreeStateBalance, s: Side)
    requires
        !(three_state_shifted(b, Some(s)) is Victory),
    ensures
        three_state_shifted(three_state_shifted(b, Some(s)), Some(other_side(s))) == b,
{
}

/// The rules favour neither side: exchanging the sides before a round or after it is
/// the same.
pub proof fn lemma_three_state_shift_symmetric(b: ThreeStateBalance, towards: Option<Side>)
    ensures
        three_state_shifted(three_state_mirror(b), mirror_side(towards)) == three_state_mirror(
            three_state_shifted(b, towards),
        ),
{
}

#[derive(PartialEq, Eq, Clone, Hash, Debug)]
struct Losses {
    temporary: usize,
    serious: usize,
    left: usize,
}

/// The balance of a conflict under the bidding rules.
#[derive(PartialEq, Eq, Clone, Hash, Debug)]
pub struct BiddingBalance {
    losses: [Losses; 2],
    advantage: BiddingAdvantage,
}

/// The advantage under the bidding rules.
#[derive(PartialEq, Eq, Clone, Copy, Hash, Debug, Structural)]
pub enum BiddingAdvantage {
    Balanced,
    /// The level is never 0.
    Unbalanced(Side, usize),
    Victory(Side),
}

/// A level of advantage is never 0.
pub open spec fn bidding_well_formed(b: BiddingAdvantage) -> bool {
    b matches BiddingAdvantage::Unbalanced(_, level) ==> level > 0
}

/// The advantage after one round won by `towards` (`None`: nobody).
pub open spec fn bidding_shifted(b: BiddingAdvantage, towards: Option<Side>) -> BiddingAdvantage {
    match (b, towards) {
        (BiddingAdvantage::Balanced, None) => BiddingAdvantage::Balanced,
        (BiddingAdvantage::Balanced, Some(side)) => BiddingAdvantage::Unbalanced(side, 1),
        (BiddingAdvantage::Unbalanced(_, _), None) => BiddingAdvantage::Balanced,
        (BiddingAdvantage::Unbalanced(side, level), Some(side_)) => if side == side_ {
            BiddingAdvantage::Unbalanced(side, (level + 1) as usize)
        } else if level > 1 {
            BiddingAdvantage::Unbalanced(side, (level - 1) as usize)
        } else {
            BiddingAdvantage::Balanced
        },
        (BiddingAdvantage::Victory(side), _) => BiddingAdvantage::Victory(side),
    }
}

/// The advantage as a number: positive for side A, negative for side B.
pub open spec fn bidding_score(b: BiddingAdvantage) -> int {
    match b {
        BiddingAdvantage::Balanced => 0,
        BiddingAdvantage::Unbalanced(s, level) => side_sign(s) * level,
        BiddingAdvantage::Victory(s) => 0,
    }
}

impl BiddingAdvantage {
    pub fn shift(self, towards: Option<Side>) -> (r: BiddingAdvantage)
        requires
            self matches BiddingAdvantage::Unbalanced(side, level) ==> (towards == Some(side)
                ==> level < usize::MAX),
        ensures
            r == bidding_shifted(self, towards),
    {
        match (self, towards) {
            (BiddingAdvantage::Balanced, None) => BiddingAdvantage::Balanced,
            (BiddingAdvantage::Balanced, Some(side)) => BiddingAdvantage::Unbalanced(side, 1),
            (BiddingAdvantage::Unbalanced(_, _), None) => BiddingAdvantage::Balanced,
            (BiddingAdvantage::Unbalanced(side, level), Some(side_)) => if side == side_ {
                BiddingAdvantage::Unbalanced(side, level + 1)
            } else if level > 1 {
                BiddingAdvantage::Unbalanced(side, level - 1)
            } else {
                BiddingAdvantage::Balanced
            },
            (BiddingAdvantage::Victory(side), _) => BiddingAdvantage::Victory(side),
        }
    }
}

/// A round keeps the level of advantage above 0, never declares a victory, moves the
/// advantage one step towards the winner, and goes back to balance when nobody wins; a
/// victory is final.
pub proof fn lemma_bidding_shift_steps(b: BiddingAdvantage, towards: Option<Side>)
    requires
        bidding_well_formed(b),
        b matches BiddingAdvantage::Unbalanced(side, level) ==> (towards == Some(side) ==> level
            < usize::MAX),
    ensures
        bidding_well_formed(bidding_shifted(b, towards)),
        b is Victory <==> bidding_shifted(b, towards) is Victory,
        b is Victory ==> bidding_shifted(b, towards) == b,
        !(b is Victory) && towards is Some ==> bidding_score(bidding_shifted(b, towards))
            == bidding_score(b) + side_sign(towards->0),
        !(b is Victory) && towards is None ==> bidding_shifted(b, towards)
            == BiddingAdvantage::Balanced,
{
    match (b, towards) {
        (BiddingAdvantage::Unbalanced(side, level), Some(side_)) => {
            if side == side_ {
                assert(side_sign(side) * (level + 1) == side_sign(side) * level + side_sign(side))
                    by (nonlinear_arith);
            } else if level > 1 {
                assert(side_sign(side) * (level - 1) == side_sign(side) * level - side_sign(side))
                    by (nonlinear_arith);
            }
        },
        _ => {},
    }
}

} // verus!
