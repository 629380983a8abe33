//! Simple interest.

use bnum::types::U256;
use fusion::math::interest::{
    accrued_interest, pending_aggregate_interest, premature_adjustment_fee, weighted_debt, INTEREST_DENOM,
    SECONDS_PER_YEAR,
};
use fusion::math::mul_div_floor;

const D_1K: u128 = 1_000_000_000;

#[test]
fn one_year_at_5pct_is_50_dollars() {
    // 5% (500 bps) on $1000 for a full year = $50 = 50e6 native.
    assert_eq!(accrued_interest(D_1K, 500, SECONDS_PER_YEAR as u64), Some(50_000_000));
    // Half a year = $25 (linear in time).
    assert_eq!(accrued_interest(D_1K, 500, (SECONDS_PER_YEAR / 2) as u64), Some(25_000_000));
    // Min rate 0.5% (50 bps) on $1000 for a year = $5.
    assert_eq!(accrued_interest(D_1K, 50, SECONDS_PER_YEAR as u64), Some(5_000_000));
    // Max rate 25.5% (2550 bps) on $1000 for a year = $255.
    assert_eq!(accrued_interest(D_1K, 2_550, SECONDS_PER_YEAR as u64), Some(255_000_000));
}

#[test]
fn premature_fee_is_ceil_of_period_interest() {
    // 7 days of 5% interest on $1000 = 50e6 * 7/365 = 958_904.10..; ceil ⇒ 958_905.
    let week = 7 * 86_400;
    assert_eq!(premature_adjustment_fee(D_1K, 500, week), Some(958_905));
    // A full year equals the full annual interest (matches accrued_interest at the year boundary).
    assert_eq!(
        premature_adjustment_fee(D_1K, 500, SECONDS_PER_YEAR as u64),
        Some(50_000_000)
    );
    // Cooldown 0 ⇒ no fee; zero debt ⇒ no fee.
    assert_eq!(premature_adjustment_fee(D_1K, 500, 0), Some(0));
    assert_eq!(premature_adjustment_fee(0, 500, week), Some(0));
    // Ceil vs the floor of accrued_interest: the fee is never short of the linear accrual.
    let fee = premature_adjustment_fee(D_1K + 1, 1_337, week).unwrap();
    let floor = accrued_interest(D_1K + 1, 1_337, week).unwrap();
    assert!(fee >= floor && fee - floor <= 1);
    // Fail-closed on the absurd weighted overflow.
    assert_eq!(premature_adjustment_fee(u128::MAX, 2, 1), None);
}

#[test]
fn accrued_zero_at_boundaries() {
    assert_eq!(accrued_interest(D_1K, 500, 0), Some(0)); // no time
    assert_eq!(accrued_interest(D_1K, 0, SECONDS_PER_YEAR as u64), Some(0)); // no rate
    assert_eq!(accrued_interest(0, 500, SECONDS_PER_YEAR as u64), Some(0)); // no debt
    // Sub-resolution: a tiny debt over a short period floors to 0 (the floor direction).
    assert_eq!(accrued_interest(1, 50, 1), Some(0));
}

#[test]
fn accrued_fails_closed_on_overflow() {
    // recorded_debt · rate_bps overflows u128 -> None (no wrap).
    assert_eq!(accrued_interest(u128::MAX, 2, 1), None);
    assert_eq!(accrued_interest(u128::MAX / 100, 2_550, 1), None);
    // A weighted term that fits u128 stays Some (no spurious None): huge debt, rate 1 bps, 1s.
    assert!(accrued_interest(u128::MAX / 100_000, 1, 1).is_some());
}

#[test]
fn pending_aggregate_rounds_up_and_matches_sum() {
    // One position: weighted = $1000 · 500 bps. Over a year, aggregate == per-position here.
    let weighted = weighted_debt(D_1K, 500).unwrap();
    assert_eq!(
        pending_aggregate_interest(weighted, SECONDS_PER_YEAR as u64),
        Some(50_000_000)
    );
    // A remainder rounds UP (ceil), unlike the per-position floor.
    // weighted+1 over a year = (500e9+1)/10_000 = 50_000_000.0001 -> ceil 50_000_001.
    assert_eq!(
        pending_aggregate_interest(weighted + 1, SECONDS_PER_YEAR as u64),
        Some(50_000_001)
    );
    // The same numerator floored (per-position) stays 50_000_000.
    assert_eq!(mul_div_floor(weighted + 1, SECONDS_PER_YEAR, INTEREST_DENOM), Some(50_000_000));
}

#[test]
fn aggregate_never_short_of_position() {
    // The solvency direction: for any single position, the aggregate ceil >= the per-position floor.
    for &(d, r, t) in &[
        (D_1K, 500u16, SECONDS_PER_YEAR as u64),
        (1, 50, 1),
        (7, 13, 99),
        (D_1K + 1, 2_549, 1234),
        (123_456_789, 777, 86_400),
    ] {
        let agg = pending_aggregate_interest(weighted_debt(d, r).unwrap(), t).unwrap();
        let pos = accrued_interest(d, r, t).unwrap();
        assert!(agg >= pos, "aggregate {agg} < position {pos} for ({d},{r},{t})");
        // They differ by at most 1 (ceil vs floor of the same quantity).
        assert!(agg - pos <= 1);
    }
}

#[test]
fn matches_u256_reference() {
    let denom = U256::from(INTEREST_DENOM);
    // A small LCG over (debt, rate, period) — wide but bounded so the weighted term fits u128.
    let mut s: u128 = 0x9E37_79B9_7F4A_7C15;
    let mut next = || {
        s = s.wrapping_mul(6364136223846793005).wrapping_add(1442695040888963407);
        s
    };
    for _ in 0..20_000 {
        // debt up to ~1e15 native ($1B), rate up to 2550 bps, period up to ~20 years.
        let debt = (next() % 1_000_000_000_000_000) as u128;
        let rate = (next() % 2_551) as u16;
        let period = (next() % 631_152_000) as u64; // 0..~20y

        let w = U256::from(debt) * U256::from(rate as u128);
        let num = w * U256::from(period as u128);
        let ref_floor = u128::try_from(num / denom).ok();
        let ref_ceil = {
            let q = num / denom;
            let c = if num % denom != U256::ZERO { q + U256::ONE } else { q };
            u128::try_from(c).ok()
        };

        assert_eq!(accrued_interest(debt, rate, period), ref_floor, "floor ({debt},{rate},{period})");
        let weighted = weighted_debt(debt, rate).unwrap();
        assert_eq!(
            pending_aggregate_interest(weighted, period),
            ref_ceil,
            "ceil ({debt},{rate},{period})"
        );
        // The conservation direction holds on every sample.
        if let (Some(a), Some(p)) = (ref_ceil, ref_floor) {
            assert!(a >= p);
        }
    }
}
