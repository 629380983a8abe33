//! Basis points of lamports, the reserve, and rewards.

use fusion::stake::bps_of;
use fusion::stake::reserve::{productive_lamports, reserve_target};
use fusion::stake::rewards::payout;

#[test]
fn bps_of_hand_vectors() {
    assert_eq!(bps_of(10_000, 200), 200); // 2%
    assert_eq!(bps_of(10_000, 0), 0);
    assert_eq!(bps_of(0, 5_000), 0);
    assert_eq!(bps_of(999, 1), 0); // floors: 999/10_000 = 0
    assert_eq!(bps_of(1_000_000_000_000, 5), 500_000_000); // 5 bps of 1000 SOL = 0.5 SOL
    assert_eq!(bps_of(u64::MAX, 10_000), u64::MAX); // 100% is the identity
    assert_eq!(bps_of(u64::MAX, 20_000), u64::MAX); // over-unity saturates (uncapped)
}

#[test]
fn bps_of_at_most_amount_for_sub_unity_bps() {
    for amount in [0u64, 1, 7, 10_000, u64::MAX] {
        for bps in [0u64, 1, 200, 9_999, 10_000] {
            assert!(bps_of(amount, bps) <= amount);
        }
    }
}

const SOL: u64 = 1_000_000_000;

#[test]
fn reserve_hand_vectors() {
    // Percentage dominates: 2% of 1000 SOL = 20 SOL > 10 SOL minimum.
    assert_eq!(reserve_target(1_000 * SOL, 10 * SOL, 200), 20 * SOL);
    // Minimum dominates: 2% of 100 SOL = 2 SOL < 10 SOL minimum.
    assert_eq!(reserve_target(100 * SOL, 10 * SOL, 200), 10 * SOL);
    // Total dominates: a 5-SOL pool cannot hold a 10-SOL reserve.
    assert_eq!(reserve_target(5 * SOL, 10 * SOL, 200), 5 * SOL);
    // Zero pool.
    assert_eq!(reserve_target(0, 10 * SOL, 200), 0);
    // Zero minimum and zero bps: everything is productive.
    assert_eq!(reserve_target(1_000 * SOL, 0, 0), 0);
}

#[test]
fn productive_hand_vectors() {
    let total = 1_000 * SOL;
    let r = reserve_target(total, 10 * SOL, 200);
    assert_eq!(productive_lamports(total, r), 980 * SOL);
    // Reserve swallows the whole pool.
    assert_eq!(productive_lamports(5 * SOL, 5 * SOL), 0);
}

#[test]
fn payout_hand_vectors() {
    assert_eq!(payout(100, 1_000, 1_000), 100); // task reward binds
    assert_eq!(payout(100, 60, 1_000), 60); // epoch budget binds
    assert_eq!(payout(100, 1_000, 30), 30); // vault binds
    assert_eq!(payout(100, 1_000, 0), 0); // empty vault: crank runs unpaid
    assert_eq!(payout(0, 1_000, 1_000), 0); // zero-reward task class
    assert_eq!(payout(100, 0, 1_000), 0); // budget exhausted
}
