use plotonomicon::{BiddingAdvantage, Side, ThreeStateBalance};

fn score(b: ThreeStateBalance) -> i32 {
    match b {
        ThreeStateBalance::Balanced => 0,
        ThreeStateBalance::Unbalanced(Side::A) => 1,
        ThreeStateBalance::Unbalanced(Side::B) => -1,
        ThreeStateBalance::Overwhelming(Side::A) => 2,
        ThreeStateBalance::Overwhelming(Side::B) => -2,
        ThreeStateBalance::Victory(Side::A) => 3,
        ThreeStateBalance::Victory(Side::B) => -3,
    }
}

fn all_balances() -> Vec<ThreeStateBalance> {
    vec![
        ThreeStateBalance::Balanced,
        ThreeStateBalance::Unbalanced(Side::A),
        ThreeStateBalance::Unbalanced(Side::B),
        ThreeStateBalance::Overwhelming(Side::A),
        ThreeStateBalance::Overwhelming(Side::B),
        ThreeStateBalance::Victory(Side::A),
        ThreeStateBalance::Victory(Side::B),
    ]
}

#[test]
fn side_rev() {
    assert_eq!(Side::A.rev(), Side::B);
    assert_eq!(Side::B.rev(), Side::A);
    assert_eq!(Side::A.rev().rev(), Side::A);
}

#[test]
fn three_state_shift_table() {
    assert_eq!(ThreeStateBalance::Balanced.shift(None), ThreeStateBalance::Balanced);
    assert_eq!(ThreeStateBalance::Balanced.shift(Some(Side::B)), ThreeStateBalance::Unbalanced(Side::B));
    assert_eq!(ThreeStateBalance::Unbalanced(Side::A).shift(None), ThreeStateBalance::Balanced);
    assert_eq!(ThreeStateBalance::Unbalanced(Side::A).shift(Some(Side::A)), ThreeStateBalance::Overwhelming(Side::A));
    assert_eq!(ThreeStateBalance::Unbalanced(Side::A).shift(Some(Side::B)), ThreeStateBalance::Balanced);
    assert_eq!(ThreeStateBalance::Overwhelming(Side::B).shift(None), ThreeStateBalance::Unbalanced(Side::B));
    assert_eq!(ThreeStateBalance::Overwhelming(Side::B).shift(Some(Side::B)), ThreeStateBalance::Victory(Side::B));
    assert_eq!(ThreeStateBalance::Overwhelming(Side::B).shift(Some(Side::A)), ThreeStateBalance::Unbalanced(Side::B));
    assert_eq!(ThreeStateBalance::Victory(Side::A).shift(Some(Side::B)), ThreeStateBalance::Victory(Side::A));
    assert_eq!(ThreeStateBalance::Victory(Side::A).shift(None), ThreeStateBalance::Victory(Side::A));
}

#[test]
fn three_state_shift_moves_one_step() {
    for b in all_balances() {
        if let ThreeStateBalance::Victory(_) = b {
            for t in [None, Some(Side::A), Some(Side::B)] {
                assert_eq!(b.shift(t), b);
            }
            continue;
        }
        assert_eq!(score(b.shift(Some(Side::A))), score(b) + 1);
        assert_eq!(score(b.shift(Some(Side::B))), score(b) - 1);
        assert_eq!(score(b.shift(None)), score(b) - score(b).signum());
    }
}

#[test]
fn three_state_shift_undone() {
    for b in all_balances() {
        for s in [Side::A, Side::B] {
            let once = b.shift(Some(s));
            if let ThreeStateBalance::Victory(_) = once {
                continue;
            }
            assert_eq!(once.shift(Some(s.rev())), b);
        }
    }
}

#[test]
fn bidding_shift_table() {
    assert_eq!(BiddingAdvantage::Balanced.shift(None), BiddingAdvantage::Balanced);
    assert_eq!(BiddingAdvantage::Balanced.shift(Some(Side::A)), BiddingAdvantage::Unbalanced(Side::A, 1));
    assert_eq!(BiddingAdvantage::Unbalanced(Side::A, 3).shift(None), BiddingAdvantage::Balanced);
    assert_eq!(BiddingAdvantage::Unbalanced(Side::A, 3).shift(Some(Side::A)), BiddingAdvantage::Unbalanced(Side::A, 4));
    assert_eq!(BiddingAdvantage::Unbalanced(Side::A, 3).shift(Some(Side::B)), BiddingAdvantage::Unbalanced(Side::A, 2));
    assert_eq!(BiddingAdvantage::Unbalanced(Side::A, 1).shift(Some(Side::B)), BiddingAdvantage::Balanced);
    assert_eq!(BiddingAdvantage::Victory(Side::B).shift(Some(Side::A)), BiddingAdvantage::Victory(Side::B));
}

#[test]
fn bidding_shift_keeps_levels_positive() {
    let mut b = BiddingAdvantage::Balanced;
    let moves = [Some(Side::A), Some(Side::A), Some(Side::B), Some(Side::B), Some(Side::B), None, Some(Side::B)];
    let mut score: i64 = 0;
    for m in moves {
        b = b.shift(m);
        score = match m {
            Some(Side::A) => score + 1,
            Some(Side::B) => score - 1,
            None => 0,
        };
        match b {
            BiddingAdvantage::Balanced => assert_eq!(score, 0),
            BiddingAdvantage::Unbalanced(Side::A, level) => {
                assert!(level > 0);
                assert_eq!(score, level as i64)
            }
            BiddingAdvantage::Unbalanced(Side::B, level) => {
                assert!(level > 0);
                assert_eq!(score, -(level as i64))
            }
            BiddingAdvantage::Victory(_) => panic!("no victory from shifting"),
        }
    }
}

fn mirror(b: ThreeStateBalance) -> ThreeStateBalance {
    match b {
        ThreeStateBalance::Balanced => ThreeStateBalance::Balanced,
        ThreeStateBalance::Unbalanced(s) => ThreeStateBalance::Unbalanced(s.rev()),
        ThreeStateBalance::Overwhelming(s) => ThreeStateBalance::Overwhelming(s.rev()),
        ThreeStateBalance::Victory(s) => ThreeStateBalance::Victory(s.rev()),
    }
}

#[test]
fn three_state_shift_favours_no_side() {
    for b in all_balances() {
        for t in [None, Some(Side::A), Some(Side::B)] {
            assert_eq!(mirror(b).shift(t.map(|s| s.rev())), mirror(b.shift(t)));
        }
    }
}
