//! The laws of the oracle on concrete values.

use fusion::oracle::{
    aggregate, collateral_price, debt_price, Observation, ObservationRing, OracleConfig, OracleMode, PriceView,
    TwapConfig, TwapError,
};

const CFG: OracleConfig = OracleConfig {
    max_conf_bps: 500,
    max_deviation_bps: 100,
    twap_max_divergence_bps: 200,
    max_age_secs: 60,
    k_bps: 20_000,
    band_lower_ray: 0,
    band_upper_ray: 0,
    liq_max_divergence_bps: 300,
    canonical_required: false,
    twap_corridor_optional: false,
};

fn view(price: u128, conf: u128, publish_ts: i64) -> PriceView {
    PriceView { price, conf, expo: -8, publish_ts }
}

#[test]
fn age_saturates() {
    assert!(view(1, 0, i64::MIN).is_stale(i64::MAX, i64::MAX - 1));
    assert!(!view(1, 0, i64::MIN).is_stale(i64::MAX, i64::MAX));
    assert!(!view(1, 0, i64::MAX).is_stale(i64::MIN, 0));
    assert!(!view(1, 0, i64::MAX).is_stale(i64::MIN, i64::MIN));
    assert!(view(1, 0, 100).is_stale(161, 60));
    assert!(!view(1, 0, 100).is_stale(160, 60));
}

#[test]
fn uncertainty_is_conservative() {
    let mut last = (u128::MAX, 0);
    for conf in [0u128, 1, 10, 999, 5_000, 1_000_000, u128::MAX] {
        let p = view(10_000, conf, 0);
        let c = collateral_price(&p, 20_000);
        let d = debt_price(&p, 20_000);
        assert!(c <= 10_000 && 10_000 <= d);
        assert!(c <= last.0 && d >= last.1);
        last = (c, d);
    }
    assert_eq!(collateral_price(&view(10_000, 5_001, 0), 20_000), 0);
    assert_eq!(debt_price(&view(u128::MAX, 1, 0), 20_000), u128::MAX);
    assert_eq!(view(1, u128::MAX, 0).conf_ratio_bps(), u128::MAX);
}

#[test]
fn price_is_never_lost() {
    for (p, s) in [(0u128, 7u128), (7, 0), (7, 9)] {
        for ts in [0i64, 500, 1_000] {
            let r = aggregate(view(p, 0, ts), Some(view(s, 0, 400)), None, None, 1_000, &CFG);
            assert!(r.collateral_price > 0);
        }
    }
    // An equal age keeps the primary.
    let r = aggregate(view(7, 0, 400), Some(view(9, 0, 400)), None, None, 1_000, &CFG);
    assert_eq!(r.collateral_price, 7);
}

#[test]
fn canonical_is_purely_conservative() {
    let p = view(1_000_000, 100, 1_000);
    let s = Some(view(1_000_000, 100, 1_000));
    let without = aggregate(p, s, Some(1_000_000), None, 1_000, &CFG);
    for c in [0u128, 1, 999_999, 1_000_000, 2_000_000] {
        let with = aggregate(p, s, Some(1_000_000), Some(c), 1_000, &CFG);
        assert!(with.collateral_price <= without.collateral_price && with.collateral_price <= c);
        assert_eq!(with.debt_price, without.debt_price);
        assert_eq!(with.mode, without.mode);
        assert_eq!((with.fresh, with.plausible, with.liq_divergent), (true, true, false));
    }
    let required = OracleConfig { canonical_required: true, ..CFG };
    assert_eq!(aggregate(p, s, Some(1_000_000), None, 1_000, &required).mode, OracleMode::MintFrozen);
    assert_eq!(aggregate(p, s, Some(1_000_000), Some(1), 1_000, &required).mode, OracleMode::MintAllowed);
}

#[test]
fn optional_corridor_binds_only_when_present() {
    let p = view(1_000_000, 100, 1_000);
    let s = Some(view(1_000_000, 100, 1_000));
    let optional = OracleConfig { twap_corridor_optional: true, ..CFG };
    assert_eq!(aggregate(p, s, None, None, 1_000, &optional).mode, OracleMode::MintAllowed);
    assert_eq!(aggregate(p, s, Some(1_020_000), None, 1_000, &optional).mode, OracleMode::MintAllowed);
    assert_eq!(aggregate(p, s, Some(1_020_101), None, 1_000, &optional).mode, OracleMode::MintFrozen);
    assert_eq!(aggregate(p, s, None, None, 1_000, &CFG).mode, OracleMode::MintFrozen);
}

#[test]
fn deviation_is_symmetric_and_strict_at_the_limit() {
    // 1% exactly is within the band, in both directions.
    for (a, b) in [(1_000_000u128, 1_010_000u128), (1_010_000, 1_000_000)] {
        let r = aggregate(view(a, 0, 1_000), Some(view(b, 0, 1_000)), Some(a), None, 1_000, &CFG);
        assert_eq!(r.mode, OracleMode::MintAllowed);
    }
    for (a, b) in [(1_000_000u128, 1_010_100u128), (1_010_100, 1_000_000)] {
        let r = aggregate(view(a, 0, 1_000), Some(view(b, 0, 1_000)), Some(a), None, 1_000, &CFG);
        assert_eq!(r.mode, OracleMode::MintFrozen);
        assert!(!r.liq_divergent);
    }
}

#[test]
fn paused_liquidations_mean_frozen_mints() {
    let p = view(1_000_000, 0, 1_000);
    let r = aggregate(p, Some(view(1_031_000, 0, 1_000)), Some(1_000_000), None, 1_000, &CFG);
    assert!(r.liq_divergent);
    assert_eq!(r.mode, OracleMode::MintFrozen);
    // Never by another exponent, a stale primary, or nothing to compare with.
    let mut other = view(2_000_000, 0, 1_000);
    other.expo = -6;
    assert!(!aggregate(p, Some(other), None, None, 1_000, &CFG).liq_divergent);
    assert!(!aggregate(view(1_000_000, 0, 0), None, Some(5), None, 1_000, &CFG).liq_divergent);
    assert!(!aggregate(p, None, None, None, 1_000, &CFG).liq_divergent);
    // A zero average disagrees without bound.
    assert!(aggregate(p, None, Some(0), None, 1_000, &CFG).liq_divergent);
}

#[test]
fn confidence_ratio_saturates_its_result_only() {
    assert_eq!(view(u128::MAX, u128::MAX, 0).conf_ratio_bps(), 10_000);
    assert_eq!(view(u128::MAX, u128::MAX / 20, 0).conf_ratio_bps(), 499); // just below 5%
    assert_eq!(view(u128::MAX / 2, u128::MAX, 0).conf_ratio_bps(), 20_000);
    assert_eq!(view(10_000, u128::MAX, 0).conf_ratio_bps(), u128::MAX);
    assert_eq!(view(9_999, u128::MAX, 0).conf_ratio_bps(), u128::MAX);
    // A confidence of 100% freezes mints at every scale of the price.
    for price in [1_000_000u128, u128::MAX] {
        let p = view(price, price, 1_000);
        let r = aggregate(p, Some(p), Some(price), None, 1_000, &CFG);
        assert_eq!(r.mode, OracleMode::MintFrozen);
        let tight = view(price, price / 100, 1_000);
        let r = aggregate(tight, Some(tight), Some(price), None, 1_000, &CFG);
        assert_eq!(r.mode, OracleMode::MintAllowed);
    }
}

#[test]
fn mint_bounds_hold_at_their_edges() {
    let s = Some(view(1_000_000, 0, 1_000));
    // 5% of confidence is allowed, and anything that rounds down to it.
    assert_eq!(aggregate(view(1_000_000, 50_099, 1_000), s, Some(1_000_000), None, 1_000, &CFG).mode, OracleMode::MintAllowed);
    assert_eq!(aggregate(view(1_000_000, 50_100, 1_000), s, Some(1_000_000), None, 1_000, &CFG).mode, OracleMode::MintFrozen);
}

const LOOSE: TwapConfig = TwapConfig { min_samples: 1, max_staleness: i64::MAX };

#[test]
fn average_lies_within_the_prices() {
    let mut r = ObservationRing::<6>::default();
    for (price, ts) in [(90u128, 0i64), (110, 7), (95, 30), (130, 31), (100, 55)] {
        r.push(price, ts).unwrap();
    }
    for now in 55..80i64 {
        let avg = r.twap(now, 50, &LOOSE).unwrap();
        assert!((90..=130).contains(&avg));
    }
    // (90 * 2 + 110 * 23 + 95 * 1 + 130 * 24 + 100 * 5) / 55 over [5, 60].
    assert_eq!(r.twap(60, 55, &LOOSE), Some((90 * 2 + 110 * 23 + 95 + 130 * 24 + 100 * 5) / 55));
    assert_eq!(r.last(), Some(Observation { price: 100, ts: 55 }));
}

#[test]
fn ring_keeps_the_newest_in_order() {
    let mut r = ObservationRing::<2>::new();
    assert!(r.is_empty());
    for k in 0..9i64 {
        r.push(k as u128, k).unwrap();
        assert_eq!(r.push(1, k), Err(TwapError::NonMonotonicTs));
        assert_eq!(r.len(), if k == 0 { 1 } else { 2 });
        assert_eq!(r.last(), Some(Observation { price: k as u128, ts: k }));
    }
    // Retained: 7 and 8.
    assert_eq!((r.nth(0).ts, r.nth(1).ts), (7, 8));
    assert_eq!(r.twap(9, 2, &LOOSE), Some(7));
    assert_eq!(r.twap(9, 3, &LOOSE), None);
}

#[test]
fn extreme_times_are_refused() {
    let mut r = ObservationRing::<4>::new();
    r.push(5, i64::MIN).unwrap();
    // The age overflows: no average.
    assert_eq!(r.twap(i64::MAX, 1, &LOOSE), None);
    assert_eq!(r.twap(0, i64::MAX, &LOOSE), None);
    assert_eq!(r.twap(-1, i64::MAX, &LOOSE), Some(5));
    // The start of the window overflows.
    assert_eq!(r.twap(i64::MIN + 1, 2, &LOOSE), None);
    assert_eq!(r.twap(i64::MIN + 1, 1, &LOOSE), Some(5));
}
