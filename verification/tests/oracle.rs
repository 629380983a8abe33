//! The price aggregator.

use fusion::oracle::{
    aggregate, collateral_price, debt_price, OracleConfig, OracleMode, OracleResult, PriceView, Timestamp, BPS,
};

fn pv(price: u128, conf: u128, ts: Timestamp) -> PriceView {
    PriceView { price, conf, expo: -8, publish_ts: ts }
}

#[test]
fn conf_ratio() {
    // conf 1% of price -> 100 bps
    assert_eq!(pv(100_000, 1_000, 0).conf_ratio_bps(), 100);
    assert_eq!(pv(0, 1, 0).conf_ratio_bps(), u128::MAX);
}

#[test]
fn asymmetric_pricing() {
    let p = pv(1_000_000, 10_000, 0); // price 1.0e6, conf 1%
    // k = 2.12σ -> haircut/markup = 21_200 bps of conf = 21_200
    assert_eq!(collateral_price(&p, 21_200), 1_000_000 - 21_200);
    assert_eq!(debt_price(&p, 21_200), 1_000_000 + 21_200);
    // collateral always valued <= debt under uncertainty
    assert!(collateral_price(&p, 21_200) <= debt_price(&p, 21_200));
}

const CFG: OracleConfig = OracleConfig {
    max_conf_bps: 500,            // 5%
    max_deviation_bps: 100,       // 1%
    twap_max_divergence_bps: 200, // 2%
    max_age_secs: 60,
    k_bps: 21_200,      // 2.12σ
    band_lower_ray: 0, // plausibility band off
    band_upper_ray: 0,
    liq_max_divergence_bps: 0, // liquidation-divergence limit off
    canonical_required: false, // no canonical leg
    twap_corridor_optional: false, // corridor load-bearing
};
const NOW: Timestamp = 1_000;

fn checked(r: OracleResult) -> OracleResult {
    assert!(
        r.collateral_price <= r.debt_price,
        "collateral_price {} > debt_price {}",
        r.collateral_price,
        r.debt_price
    );
    r
}

fn fresh_pyth() -> PriceView {
    pv(1_000_000, 1_000, NOW - 10) // conf 10 bps
}

fn fresh_sb() -> PriceView {
    pv(1_001_000, 2_000, NOW - 5) // 10 bps off pyth
}

#[test]
fn aggregate_agree_and_fresh_is_ok() {
    let r = checked(aggregate(fresh_pyth(), Some(fresh_sb()), Some(1_005_000), None, NOW, &CFG));
    assert_eq!(r.mode, OracleMode::MintAllowed);
    assert!(r.fresh);
    // Prices come from Pyth, ∓ 2.12σ.
    assert_eq!(r.collateral_price, 1_000_000 - 2_120);
    assert_eq!(r.debt_price, 1_000_000 + 2_120);
}

#[test]
fn aggregate_deviation_beyond_band_freezes() {
    let sb = pv(1_020_000, 2_000, NOW - 5); // 200 bps off pyth > 100
    let r = checked(aggregate(fresh_pyth(), Some(sb), Some(1_005_000), None, NOW, &CFG));
    assert_eq!(r.mode, OracleMode::MintFrozen);
    assert!(r.fresh, "fresh feed, frozen mode — `fresh` is independent of `mode`");
    assert_eq!(r.collateral_price, 1_000_000 - 2_120); // prices still served (pyth)
}

#[test]
fn aggregate_one_feed_stale_freezes_but_prices_returned() {
    // Switchboard stale -> frozen, priced off Pyth.
    let stale_sb = pv(1_001_000, 2_000, NOW - 61);
    let r = checked(aggregate(fresh_pyth(), Some(stale_sb), Some(1_005_000), None, NOW, &CFG));
    assert_eq!(r.mode, OracleMode::MintFrozen);
    assert_eq!(r.collateral_price, 1_000_000 - 2_120);

    // Pyth stale -> frozen, priced off the fresh Switchboard view.
    let stale_pyth = pv(1_000_000, 1_000, NOW - 61);
    let r = checked(aggregate(stale_pyth, Some(fresh_sb()), Some(1_005_000), None, NOW, &CFG));
    assert_eq!(r.mode, OracleMode::MintFrozen);
    assert_eq!(r.collateral_price, 1_001_000 - 2_000 * 21_200 / BPS);
    assert_eq!(r.debt_price, 1_001_000 + 2_000 * 21_200 / BPS);
}

#[test]
fn aggregate_both_stale_uses_freshest_never_no_price() {
    let stale_pyth = pv(1_000_000, 1_000, NOW - 200);
    let staler_sb = pv(900_000, 2_000, NOW - 300);
    let r = checked(aggregate(stale_pyth, Some(staler_sb), None, None, NOW, &CFG));
    assert_eq!(r.mode, OracleMode::MintFrozen);
    assert!(!r.fresh, "neither feed fresh ⇒ the served price is a stale fallback");
    assert_eq!(r.collateral_price, 1_000_000 - 2_120); // pyth is fresher

    let fresher_sb = pv(900_000, 2_000, NOW - 100);
    let r = checked(aggregate(stale_pyth, Some(fresher_sb), None, None, NOW, &CFG));
    assert_eq!(r.collateral_price, 900_000 - 2_000 * 21_200 / BPS); // sb is fresher

    // Pyth price zero, no switchboard: still a result, conservatively floored.
    let r = checked(aggregate(pv(0, 1_000, NOW - 200), None, None, None, NOW, &CFG));
    assert_eq!(r.mode, OracleMode::MintFrozen);
    assert_eq!(r.collateral_price, 0);
}

#[test]
fn aggregate_twap_corridor_breach_freezes() {
    let r = checked(aggregate(fresh_pyth(), Some(fresh_sb()), Some(1_030_000), None, NOW, &CFG));
    assert_eq!(r.mode, OracleMode::MintFrozen); // 300 bps > 200
    let r = checked(aggregate(fresh_pyth(), Some(fresh_sb()), Some(0), None, NOW, &CFG));
    assert_eq!(r.mode, OracleMode::MintFrozen); // zero TWAP can never agree
}

#[test]
fn aggregate_missing_inputs_freeze() {
    let r = checked(aggregate(fresh_pyth(), None, Some(1_005_000), None, NOW, &CFG));
    assert_eq!(r.mode, OracleMode::MintFrozen); // no switchboard
    let r = checked(aggregate(fresh_pyth(), Some(fresh_sb()), None, None, NOW, &CFG));
    assert_eq!(r.mode, OracleMode::MintFrozen); // no TWAP
}

#[test]
fn aggregate_conf_too_wide_freezes() {
    let wide = pv(1_000_000, 60_000, NOW - 10); // 600 bps > 500
    let r = checked(aggregate(wide, Some(fresh_sb()), Some(1_005_000), None, NOW, &CFG));
    assert_eq!(r.mode, OracleMode::MintFrozen);
    // Wide σ widens the conservative spread — exactly the degraded behavior we want.
    assert_eq!(r.collateral_price, 1_000_000 - 60_000 * 21_200 / BPS);
    assert_eq!(r.debt_price, 1_000_000 + 60_000 * 21_200 / BPS);
}

#[test]
fn aggregate_expo_mismatch_freezes() {
    let mut sb = fresh_sb();
    sb.expo = -6; // not comparable to pyth's -8: raw deviation would be garbage
    let r = checked(aggregate(fresh_pyth(), Some(sb), Some(1_005_000), None, NOW, &CFG));
    assert_eq!(r.mode, OracleMode::MintFrozen);
}

#[test]
fn aggregate_invariant_holds_everywhere() {
    // Grid sweep: collateral_price <= debt_price in EVERY case, including extremes.
    for &price in &[0u128, 1, 1_000_000, u128::MAX] {
        for &conf in &[0u128, 1, 50_000, u128::MAX] {
            for &ts in &[NOW, NOW - 61, -1] {
                for sb in [None, Some(pv(999_000, 3_000, NOW - 1))] {
                    for twap in [None, Some(1_002_000)] {
                        checked(aggregate(pv(price, conf, ts), sb, twap, None, NOW, &CFG));
                    }
                }
            }
        }
    }
}

#[test]
fn plausibility_band_default_off_is_always_plausible() {
    // (0, 0) band ⇒ plausible regardless of price.
    let r = checked(aggregate(fresh_pyth(), Some(fresh_sb()), Some(1_005_000), None, NOW, &CFG));
    assert!(r.plausible);
    assert_eq!(r.mode, OracleMode::MintAllowed);
    let absurd = pv(100_000_000, 1_000, NOW - 10); // 100× the others
    assert!(aggregate(absurd, None, None, None, NOW, &CFG).plausible, "disabled band never trips");
}

#[test]
fn plausibility_band_catches_absurd_price() {
    // A coarse rail ~[0.5×, 5×] around the ~1_000_000 fixtures.
    let banded = OracleConfig { band_lower_ray: 500_000, band_upper_ray: 5_000_000, ..CFG };
    // In-band, fresh, agreeing ⇒ Ok + plausible.
    let r = checked(aggregate(fresh_pyth(), Some(fresh_sb()), Some(1_005_000), None, NOW, &banded));
    assert!(r.plausible);
    assert_eq!(r.mode, OracleMode::MintAllowed);

    // A 100× mis-scale (the Sept-2021 Pyth class): fresh + self-consistent across legs, but absurd.
    let hi = pv(100_000_000, 1_000, NOW - 10);
    let r = aggregate(hi, Some(pv(100_100_000, 2_000, NOW - 5)), Some(100_500_000), None, NOW, &banded);
    assert!(!r.plausible, "above the upper band ⇒ implausible");
    assert_eq!(r.mode, OracleMode::MintFrozen, "implausible ⇒ mints freeze (the crank withholds the commit)");
    assert!(r.collateral_price <= r.debt_price, "prices still served");

    // A 1/100 mis-scale: below the lower band.
    let lo = pv(10_000, 10, NOW - 10);
    let r = aggregate(lo, Some(pv(10_010, 20, NOW - 5)), Some(10_050), None, NOW, &banded);
    assert!(!r.plausible, "below the lower band ⇒ implausible");
    assert_eq!(r.mode, OracleMode::MintFrozen);
}

#[test]
fn plausibility_band_is_single_sided_disableable() {
    // Upper-only (lower disabled): tiny price plausible, huge price not.
    let upper_only = OracleConfig { band_lower_ray: 0, band_upper_ray: 5_000_000, ..CFG };
    assert!(aggregate(pv(1, 0, NOW), None, None, None, NOW, &upper_only).plausible);
    assert!(!aggregate(pv(9_000_000, 0, NOW), None, None, None, NOW, &upper_only).plausible);
    // Lower-only (upper disabled): huge price plausible, tiny price not.
    let lower_only = OracleConfig { band_lower_ray: 500_000, band_upper_ray: 0, ..CFG };
    assert!(aggregate(pv(9_000_000, 0, NOW), None, None, None, NOW, &lower_only).plausible);
    assert!(!aggregate(pv(1, 0, NOW), None, None, None, NOW, &lower_only).plausible);
}

#[test]
fn plausibility_band_uses_mid_not_haircut_price() {
    // The band evaluates the MID (pre-k·σ) price, so a WIDE confidence cannot push the haircut
    // collateral_price below a lower bound and manufacture a synthetic outage.
    let banded = OracleConfig { band_lower_ray: 500_000, band_upper_ray: 5_000_000, ..CFG };
    let wide = pv(600_000, 590_000, NOW - 10); // conf ~98% of price ⇒ haircut saturates low
    let r = aggregate(wide, None, None, None, NOW, &banded);
    assert!(r.plausible, "mid 600k is in-band even though the haircut price is far below the lower bound");
    assert!(r.collateral_price < 500_000, "haircut price IS below the band — proves we banded the mid, not the haircut");
}

#[test]
fn liq_divergence_disabled_by_default() {
    // CFG has liq_max_divergence_bps == 0 — even a wild secondary disagreement is not liq-divergent.
    let sb = pv(2_000_000, 2_000, NOW - 5); // 100% off
    assert!(!aggregate(fresh_pyth(), Some(sb), Some(2_000_000), None, NOW, &CFG).liq_divergent);
}

#[test]
fn liq_divergence_trips_only_on_gross_disagreement() {
    let cfg = OracleConfig { liq_max_divergence_bps: 2_000, ..CFG }; // 20%
    // 10% SB disagreement: under the 20% liq threshold ⇒ NOT liq-divergent (mints may still freeze).
    let mild = pv(1_100_000, 2_000, NOW - 5);
    assert!(!aggregate(fresh_pyth(), Some(mild), Some(1_005_000), None, NOW, &cfg).liq_divergent);
    // 30% SB disagreement: over the threshold ⇒ liq-divergent.
    let gross = pv(1_300_000, 2_000, NOW - 5);
    assert!(aggregate(fresh_pyth(), Some(gross), Some(1_005_000), None, NOW, &cfg).liq_divergent);
    // The DEX-TWAP can trip it too (SB absent, TWAP 30% off).
    assert!(aggregate(fresh_pyth(), None, Some(1_300_000), None, NOW, &cfg).liq_divergent);
}

#[test]
fn liq_divergence_missing_or_stale_secondary_never_trips() {
    let cfg = OracleConfig { liq_max_divergence_bps: 2_000, ..CFG };
    // No secondary present ⇒ never divergent (an SB/TWAP outage must not freeze liquidations).
    assert!(!aggregate(fresh_pyth(), None, None, None, NOW, &cfg).liq_divergent);
    // A STALE Switchboard is "not present" for divergence — only a fresh, present feed counts.
    let stale_sb = pv(1_300_000, 2_000, NOW - 61);
    assert!(!aggregate(fresh_pyth(), Some(stale_sb), None, None, NOW, &cfg).liq_divergent);
}

#[test]
fn liq_divergence_requires_fresh_primary() {
    let cfg = OracleConfig { liq_max_divergence_bps: 2_000, ..CFG };
    // Stale primary ⇒ no divergence verdict (liquidation is already staleness-gated; don't pause
    // liquidations on an absent primary).
    let stale_pyth = pv(1_000_000, 1_000, NOW - 61);
    let fresh_div_sb = pv(1_300_000, 2_000, NOW - 5);
    assert!(!aggregate(stale_pyth, Some(fresh_div_sb), None, None, NOW, &cfg).liq_divergent);
}

#[test]
fn liq_divergence_is_looser_than_mint_freeze() {
    // A disagreement in the band (mint_deviation, liq_threshold] freezes mints but does NOT pause
    // liquidations — the whole point of the looser liquidation threshold.
    let cfg = OracleConfig { liq_max_divergence_bps: 2_000, ..CFG }; // mint 1% / liq 20%
    let sb = pv(1_050_000, 2_000, NOW - 5); // 5% off: > 1% (freezes mints), < 20% (no liq pause)
    let r = aggregate(fresh_pyth(), Some(sb), Some(1_005_000), None, NOW, &cfg);
    assert_eq!(r.mode, OracleMode::MintFrozen, "5% disagreement freezes mints");
    assert!(!r.liq_divergent, "but is under the 20% liquidation-divergence threshold");
}

#[test]
fn canonical_caps_collateral_but_not_debt() {
    // LST market: market price 1_000_000, canonical lower at 950_000 (the trustless stake-pool
    // valuation). Collateral is capped at MIN(market, canonical) − k·σ; debt stays on market.
    let cfg = OracleConfig { canonical_required: true, ..CFG };
    let r = checked(aggregate(fresh_pyth(), Some(fresh_sb()), Some(1_005_000), Some(950_000), NOW, &cfg));
    // collateral = 950_000 − (conf 1_000 · 21_200/10_000 = 2_120) = 947_880
    assert_eq!(r.collateral_price, 950_000 - 2_120, "collateral capped at the canonical mid");
    // debt = market 1_000_000 + 2_120 (unchanged — redeemers/liquidation price off the market view)
    assert_eq!(r.debt_price, 1_000_000 + 2_120, "debt is NOT pulled down by the canonical cap");
    assert!(r.collateral_price < r.debt_price);
}

#[test]
fn canonical_above_market_does_not_raise_collateral() {
    // A canonical ABOVE the market price is the safe direction (market not inflated) — MIN keeps
    // the market price, so collateral is unchanged. Defends only against upward market manip.
    let cfg = OracleConfig { canonical_required: true, ..CFG };
    let r = checked(aggregate(fresh_pyth(), Some(fresh_sb()), Some(1_005_000), Some(1_100_000), NOW, &cfg));
    assert_eq!(r.collateral_price, 1_000_000 - 2_120, "MIN keeps the (lower) market price");
    assert_eq!(r.mode, OracleMode::MintAllowed, "fresh + agreeing + canonical present ⇒ Ok");
}

#[test]
fn lst_market_missing_canonical_freezes_mints() {
    // canonical_required (LST) + None canonical (stale/zero/absent stake-pool rate) ⇒ freeze
    // mints (the over-mint defense can't be verified), but prices still serve off the market.
    let cfg = OracleConfig { canonical_required: true, ..CFG };
    let r = checked(aggregate(fresh_pyth(), Some(fresh_sb()), Some(1_005_000), None, NOW, &cfg));
    assert_eq!(r.mode, OracleMode::MintFrozen, "no canonical ⇒ no mint");
    assert!(r.fresh, "the market feed is still fresh");
    assert_eq!(r.collateral_price, 1_000_000 - 2_120, "fall back to the market price, never 0");
}

#[test]
fn lst_market_with_canonical_can_mint() {
    // The positive control: an LST market mints when everything is fresh/agreeing AND a healthy
    // canonical is present (here equal to market, so the cap is a no-op).
    let cfg = OracleConfig { canonical_required: true, ..CFG };
    let r = checked(aggregate(fresh_pyth(), Some(fresh_sb()), Some(1_005_000), Some(1_000_000), NOW, &cfg));
    assert_eq!(r.mode, OracleMode::MintAllowed);
}

#[test]
fn non_lst_market_ignores_canonical_arg() {
    // canonical_required = false (default): a None canonical does NOT freeze, and a Some canonical
    // is still honored as a collateral cap (harmless for non-LST since callers pass None).
    let r = checked(aggregate(fresh_pyth(), Some(fresh_sb()), Some(1_005_000), None, NOW, &CFG));
    assert_eq!(r.mode, OracleMode::MintAllowed, "non-LST market unaffected by the absent canonical");
}

#[test]
fn canonical_invariant_holds_under_sweep() {
    // collateral_price <= debt_price in EVERY canonical configuration, including a canonical of 0
    // (which floors collateral to 0 but must never exceed debt or panic).
    let cfg = OracleConfig { canonical_required: true, ..CFG };
    for canon in [None, Some(0u128), Some(1), Some(500_000), Some(1_000_000), Some(u128::MAX)] {
        for sb in [None, Some(fresh_sb())] {
            for twap in [None, Some(1_005_000u128)] {
                checked(aggregate(fresh_pyth(), sb, twap, canon, NOW, &cfg));
            }
        }
    }
}
