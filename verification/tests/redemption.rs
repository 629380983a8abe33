//! The redemption fee.

use fusion::math::redemption::{bump_base_rate, decay_base_rate, effective_fee_bps};
use fusion::math::RAY;

#[test]
fn decay_halves_over_the_half_life() {
    // Start at 100% (RAY); after 360 minutes (6h) it should be ~50%.
    let half = decay_base_rate(RAY, 360 * 60);
    let expected = RAY / 2;
    // within 0.1% of RAY/2 (the constant is floored to 27 digits).
    assert!(half.abs_diff(expected) < RAY / 1000, "got {half}, want ~{expected}");
    // Two half-lives ⇒ ~25%.
    let quarter = decay_base_rate(RAY, 720 * 60);
    assert!(quarter.abs_diff(RAY / 4) < RAY / 1000, "got {quarter}");
}

#[test]
fn decay_is_monotone_and_bounded() {
    let r = RAY / 3;
    assert_eq!(decay_base_rate(r, 0), r, "no time ⇒ unchanged");
    assert_eq!(decay_base_rate(r, -5), r, "negative interval ⇒ unchanged");
    assert_eq!(decay_base_rate(r, 59), r, "sub-minute ⇒ unchanged (whole-minute granularity)");
    assert!(decay_base_rate(r, 60) < r, "one minute ⇒ strictly decayed");
    assert_eq!(decay_base_rate(0, 10_000), 0, "zero stays zero");
    // Decays toward 0, never below.
    let yr = decay_base_rate(RAY, 365 * 24 * 3600);
    assert!(yr < RAY / 1_000_000, "a year ⇒ ~0, got {yr}");
}

#[test]
fn bump_scales_with_redeemed_fraction() {
    // Redeem 10% of a market's debt ⇒ base rises by 10%/BETA = 5% (RAY/20).
    let b = bump_base_rate(0, 100, 1_000);
    assert!(b.abs_diff(RAY / 20) < RAY / 100_000, "10%/2 = 5%, got {b}");
    // Redeem 100% ⇒ +50% (RAY/2).
    let full = bump_base_rate(0, 1_000, 1_000);
    assert!(full.abs_diff(RAY / 2) < RAY / 100_000, "100%/2 = 50%, got {full}");
    // Accumulates on an existing base-rate.
    let stacked = bump_base_rate(RAY / 20, 100, 1_000);
    assert!(stacked.abs_diff(RAY / 10) < RAY / 100_000, "5% + 5% = 10%, got {stacked}");
}

#[test]
fn bump_edge_cases() {
    assert_eq!(bump_base_rate(RAY / 4, 0, 1_000), RAY / 4, "zero redeemed ⇒ no bump");
    assert_eq!(bump_base_rate(RAY / 4, 100, 0), RAY / 4, "zero debt ⇒ no bump");
    // Saturates at RAY (can't exceed 100%).
    assert_eq!(bump_base_rate(RAY, 1_000, 1_000), RAY, "saturates at RAY");
}

#[test]
fn effective_fee_disabled_is_flat_floor() {
    // dynamic_max_bps == 0 ⇒ exactly the flat fee, regardless of base_rate.
    assert_eq!(effective_fee_bps(0, 50, 0, 500), 50);
    assert_eq!(effective_fee_bps(RAY, 50, 0, 500), 50, "huge base-rate ignored when disabled");
    assert_eq!(effective_fee_bps(RAY / 2, 0, 0, 500), 0, "floor 0 + disabled ⇒ 0");
}

#[test]
fn effective_fee_adds_base_rate_over_the_floor() {
    // base_rate 1% (RAY/100) ⇒ 100 bps dynamic; floor 50 ⇒ 150 bps, under the 500 cap.
    assert_eq!(effective_fee_bps(RAY / 100, 50, 500, 500), 150);
    // Dynamic add capped by dynamic_max_bps (200): base 3% would be 300 bps but caps to 200 ⇒ 250.
    assert_eq!(effective_fee_bps(3 * RAY / 100, 50, 200, 500), 250);
    // Overall cap: floor 50 + dynamic 500 would be 550 but clamps to the 500 cap.
    assert_eq!(effective_fee_bps(5 * RAY / 100, 50, 500, 500), 500);
}

#[test]
fn effective_fee_is_monotone_in_base_rate() {
    let mut prev = 0u16;
    for k in 0..=50u128 {
        let f = effective_fee_bps(k * RAY / 1000, 50, 5000, 5000);
        assert!(f >= prev, "fee must be non-decreasing in base_rate");
        prev = f;
    }
}
