//! Oracle validation.
//!
//! Pyth (primary), Switchboard (secondary), and a self-maintained DEX average, combined into one
//! asymmetric price and a mode. An oracle failure freezes new mints only: repay, liquidation, and
//! redemption always keep a price.

pub mod twap;

pub use crate::oracle::twap::{Observation, ObservationRing, Timestamp, TwapConfig, TwapError};

use crate::math::arith::{lemma_floor, lemma_floor_ge, lemma_floor_le, lemma_floor_mono, lemma_mul_mono, lemma_u128_product};
use crate::math::mul_div_floor;
use vstd::prelude::*;

verus! {

/// Actions currently permitted, derived from oracle health alone.
#[derive(Clone, Copy, Debug, PartialEq, Eq, Structural)]
pub enum OracleMode {
    /// Feeds fresh and confidence tight: minting allowed.
    MintAllowed,
    /// Stale, confidence too wide, or feeds diverge: new mints frozen.
    MintFrozen,
}

/// Normalized price view, independent of the oracle. `value = price * 10^expo`; `publish_ts` is in unix
/// seconds.
#[derive(Clone, Copy, Debug)]
pub struct PriceView {
    pub price: u128,
    pub conf: u128,
    pub expo: i32,
    pub publish_ts: Timestamp,
}

/// Basis-point denominator.
pub const BPS: u128 = 10_000;

/// `a * b`, saturating at `u128::MAX`.
pub open spec fn saturated_product(a: u128, b: u128) -> u128 {
    if a * b <= u128::MAX {
        (a * b) as u128
    } else {
        u128::MAX
    }
}

fn product(a: u128, b: u128) -> (r: u128)
    ensures
        r == saturated_product(a, b),
{
    match a.checked_mul(b) {
        Some(x) => x,
        None => u128::MAX,
    }
}

/// An integer, clamped to the range of `i64`.
pub open spec fn clamp_i64(v: int) -> int {
    if v > i64::MAX {
        i64::MAX as int
    } else if v < i64::MIN {
        i64::MIN as int
    } else {
        v
    }
}

impl PriceView {
    /// Confidence over price, in basis points, not above `u128::MAX`; `u128::MAX` for a zero price.
    pub open spec fn conf_ratio(self) -> u128 {
        if self.price == 0 {
            u128::MAX
        } else {
            let ratio = self.conf * BPS / self.price as int;
            if ratio > u128::MAX {
                u128::MAX
            } else {
                ratio as u128
            }
        }
    }

    /// Older than `max_age_secs`.
    pub open spec fn stale(self, now: Timestamp, max_age_secs: i64) -> bool {
        clamp_i64(now - self.publish_ts) > max_age_secs
    }

    /// Confidence ratio in basis points. Wide means: freeze new mints.
    pub fn conf_ratio_bps(&self) -> (r: u128)
        ensures
            r == self.conf_ratio(),
    {
        if self.price == 0 {
            return u128::MAX;
        }
        proof {
            lemma_u128_product(self.conf, BPS);
            lemma_floor(self.conf * BPS, self.price as int);
        }
        match mul_div_floor(self.conf, BPS, self.price) {
            Some(ratio) => ratio,
            None => u128::MAX,
        }
    }

    /// Whether the view is older than `max_age_secs`, with a saturating age.
    pub fn is_stale(&self, now: Timestamp, max_age_secs: i64) -> (r: bool)
        ensures
            r == self.stale(now, max_age_secs),
    {
        match now.checked_sub(self.publish_ts) {
            Some(age) => age > max_age_secs,
            None => now > self.publish_ts && i64::MAX > max_age_secs,
        }
    }
}

/// `k * conf`: what uncertainty takes off the collateral price and adds to the debt price.
pub open spec fn margin(conf: u128, k_bps: u128) -> u128 {
    saturated_product(conf, k_bps) / BPS
}

/// `price - k * conf`, not below zero.
pub open spec fn price_less_margin(price: u128, conf: u128, k_bps: u128) -> u128 {
    if price >= margin(conf, k_bps) {
        (price - margin(conf, k_bps)) as u128
    } else {
        0
    }
}

/// `price + k * conf`, not above `u128::MAX`.
pub open spec fn price_plus_margin(price: u128, conf: u128, k_bps: u128) -> u128 {
    if price + margin(conf, k_bps) <= u128::MAX {
        (price + margin(conf, k_bps)) as u128
    } else {
        u128::MAX
    }
}

/// Collateral valuation: `price - k * conf`.
pub fn collateral_price(p: &PriceView, k_bps: u128) -> (r: u128)
    ensures
        r == price_less_margin(p.price, p.conf, k_bps),
{
    let haircut: u128 = product(p.conf, k_bps) / BPS;
    p.price.saturating_sub(haircut)
}

/// Debt valuation: `price + k * conf`.
pub fn debt_price(p: &PriceView, k_bps: u128) -> (r: u128)
    ensures
        r == price_plus_margin(p.price, p.conf, k_bps),
{
    let markup: u128 = product(p.conf, k_bps) / BPS;
    p.price.saturating_add(markup)
}

/// Validation thresholds of one collateral.
#[derive(Clone, Copy, Debug)]
pub struct OracleConfig {
    /// Freeze mints if the primary's confidence ratio exceeds this (bps).
    pub max_conf_bps: u128,
    /// Agreement band between primary and secondary (bps).
    pub max_deviation_bps: u128,
    /// Corridor against the DEX average (bps).
    pub twap_max_divergence_bps: u128,
    /// Staleness cutoff for both feeds (seconds).
    pub max_age_secs: i64,
    /// Asymmetry: collateral `price - k * conf`, debt `price + k * conf`.
    pub k_bps: u128,
    /// Plausibility band, lower bound; 0 disables it.
    pub band_lower_ray: u128,
    /// Plausibility band, upper bound; 0 disables it.
    pub band_upper_ray: u128,
    /// A fresh primary that disagrees with a present secondary by more than this (bps) pauses
    /// liquidations; 0 disables it.
    pub liq_max_divergence_bps: u128,
    /// Minting requires a canonical price.
    pub canonical_required: bool,
    /// The DEX corridor binds only where an average is present.
    pub twap_corridor_optional: bool,
}

/// Validated asymmetric price and the permitted actions. Always returned, even with every feed
/// degraded.
#[derive(Clone, Copy, Debug)]
pub struct OracleResult {
    /// For minting: conservative low.
    pub collateral_price: u128,
    /// For liquidation: conservative high.
    pub debt_price: u128,
    pub mode: OracleMode,
    /// Whether the chosen price came from a fresh feed.
    pub fresh: bool,
    /// Whether the chosen mid price lies within the plausibility band.
    pub plausible: bool,
    /// Whether a fresh primary grossly disagrees with a present secondary.
    pub liq_divergent: bool,
}

/// Relative gap in basis points, against the smaller value; `u128::MAX` where that is zero.
pub open spec fn deviation(a: u128, b: u128) -> u128 {
    let lo = if a < b {
        a
    } else {
        b
    };
    let hi = if a < b {
        b
    } else {
        a
    };
    if lo == 0 {
        u128::MAX
    } else {
        saturated_product((hi - lo) as u128, BPS) / lo
    }
}

fn deviation_bps(a: u128, b: u128) -> (r: u128)
    ensures
        r == deviation(a, b),
{
    let (lo, hi) = if a < b {
        (a, b)
    } else {
        (b, a)
    };
    if lo == 0 {
        return u128::MAX;
    }
    product(hi - lo, BPS) / lo
}

/// A view with a price that is not stale.
pub open spec fn is_fresh(v: PriceView, now: Timestamp, cfg: OracleConfig) -> bool {
    !v.stale(now, cfg.max_age_secs) && v.price > 0
}

/// A secondary that is present and fresh.
pub open spec fn is_fresh_if_any(v: Option<PriceView>, now: Timestamp, cfg: OracleConfig) -> bool {
    v matches Some(s) && is_fresh(s, now, cfg)
}

/// The best available view: the primary if fresh, else the secondary if fresh, else the newer of the
/// two that has a price.
pub open spec fn chosen_view(
    pyth: PriceView,
    switchboard: Option<PriceView>,
    now: Timestamp,
    cfg: OracleConfig,
) -> PriceView {
    if is_fresh(pyth, now, cfg) {
        pyth
    } else if is_fresh_if_any(switchboard, now, cfg) {
        switchboard->0
    } else {
        match switchboard {
            Some(s) => if s.price > 0 && (pyth.price == 0 || s.publish_ts > pyth.publish_ts) {
                s
            } else {
                pyth
            },
            None => pyth,
        }
    }
}

/// The mid price lies within the band; a bound of 0 does not bind.
pub open spec fn in_band(price: u128, cfg: OracleConfig) -> bool {
    (cfg.band_lower_ray == 0 || price >= cfg.band_lower_ray) && (cfg.band_upper_ray == 0 || price
        <= cfg.band_upper_ray)
}

/// The secondary is fresh, on the primary's scale, and within `bps` of it.
pub open spec fn secondary_agrees(
    pyth: PriceView,
    switchboard: Option<PriceView>,
    now: Timestamp,
    cfg: OracleConfig,
    bps: u128,
) -> bool {
    is_fresh_if_any(switchboard, now, cfg) && switchboard->0.expo == pyth.expo && deviation(
        pyth.price,
        switchboard->0.price,
    ) <= bps
}

/// The secondary is fresh, on the primary's scale, and further than `bps` from it.
pub open spec fn secondary_diverges(
    pyth: PriceView,
    switchboard: Option<PriceView>,
    now: Timestamp,
    cfg: OracleConfig,
    bps: u128,
) -> bool {
    is_fresh_if_any(switchboard, now, cfg) && switchboard->0.expo == pyth.expo && deviation(
        pyth.price,
        switchboard->0.price,
    ) > bps
}

/// Liquidations pause: a fresh primary grossly disagrees with a present secondary.
pub open spec fn pauses_liquidation(
    pyth: PriceView,
    switchboard: Option<PriceView>,
    dex_twap: Option<u128>,
    now: Timestamp,
    cfg: OracleConfig,
) -> bool {
    &&& cfg.liq_max_divergence_bps > 0
    &&& is_fresh(pyth, now, cfg)
    &&& secondary_diverges(pyth, switchboard, now, cfg, cfg.liq_max_divergence_bps) || (dex_twap
        matches Some(t) && deviation(pyth.price, t) > cfg.liq_max_divergence_bps)
}

/// Minting is allowed: every check of the mode holds.
pub open spec fn allows_mint(
    pyth: PriceView,
    switchboard: Option<PriceView>,
    dex_twap: Option<u128>,
    canonical: Option<u128>,
    now: Timestamp,
    cfg: OracleConfig,
) -> bool {
    &&& is_fresh(pyth, now, cfg)
    &&& pyth.conf_ratio() <= cfg.max_conf_bps
    &&& secondary_agrees(pyth, switchboard, now, cfg, cfg.max_deviation_bps)
    &&& match dex_twap {
        Some(t) => deviation(pyth.price, t) <= cfg.twap_max_divergence_bps,
        None => cfg.twap_corridor_optional,
    }
    &&& in_band(chosen_view(pyth, switchboard, now, cfg).price, cfg)
    &&& cfg.canonical_required ==> canonical is Some
}

/// The market price, capped at the canonical one where there is one.
pub open spec fn capped(price: u128, canonical: Option<u128>) -> u128 {
    match canonical {
        Some(c) => if price < c {
            price
        } else {
            c
        },
        None => price,
    }
}

/// The aggregate of the feeds.
pub open spec fn aggregated(
    pyth: PriceView,
    switchboard: Option<PriceView>,
    dex_twap: Option<u128>,
    canonical: Option<u128>,
    now: Timestamp,
    cfg: OracleConfig,
) -> OracleResult {
    let chosen = chosen_view(pyth, switchboard, now, cfg);
    OracleResult {
        collateral_price: price_less_margin(
            capped(chosen.price, canonical),
            chosen.conf,
            cfg.k_bps,
        ),
        debt_price: price_plus_margin(chosen.price, chosen.conf, cfg.k_bps),
        mode: if allows_mint(pyth, switchboard, dex_twap, canonical, now, cfg) {
            OracleMode::MintAllowed
        } else {
            OracleMode::MintFrozen
        },
        fresh: is_fresh(pyth, now, cfg) || is_fresh_if_any(switchboard, now, cfg),
        plausible: in_band(chosen.price, cfg),
        liq_divergent: pauses_liquidation(pyth, switchboard, dex_twap, now, cfg),
    }
}

/// Combine Pyth (primary), Switchboard (secondary), and the DEX average (corridor) into one validated
/// asymmetric price and a mode.
///
/// Mode `MintAllowed` requires a fresh primary of tight confidence, a fresh secondary on the same
/// exponent and within the agreement band, the DEX average within its corridor, a plausible price, and
/// a canonical price where the market requires one. Anything missing, stale, or divergent degrades to
/// `MintFrozen`; a price is still returned from the best available view.
///
/// A canonical price caps the collateral price before the margin is taken off; the debt price stays on
/// the market view.
pub fn aggregate(
    pyth: PriceView,
    switchboard: Option<PriceView>,
    dex_twap: Option<u128>,
    canonical: Option<u128>,
    now: Timestamp,
    cfg: &OracleConfig,
) -> (r: OracleResult)
    ensures
        r == aggregated(pyth, switchboard, dex_twap, canonical, now, *cfg),
{
    let pyth_fresh: bool = !pyth.is_stale(now, cfg.max_age_secs) && pyth.price > 0;
    let sb_fresh: bool = match switchboard {
        Some(s) => !s.is_stale(now, cfg.max_age_secs) && s.price > 0,
        None => false,
    };
    // Price selection, independent of the mode.
    let chosen: PriceView = if pyth_fresh {
        pyth
    } else {
        match switchboard {
            Some(s) => if sb_fresh || (s.price > 0 && (pyth.price == 0 || s.publish_ts
                > pyth.publish_ts)) {
                s
            } else {
                pyth
            },
            None => pyth,
        }
    };
    let plausible: bool = (cfg.band_lower_ray == 0 || chosen.price >= cfg.band_lower_ray) && (
    cfg.band_upper_ray == 0 || chosen.price <= cfg.band_upper_ray);

    // Liquidation divergence: never tripped by a missing or stale secondary.
    let sb_gap: Option<u128> = match switchboard {
        Some(s) => if sb_fresh && s.expo == pyth.expo {
            Some(deviation_bps(pyth.price, s.price))
        } else {
            None
        },
        None => None,
    };
    let twap_gap: Option<u128> = match dex_twap {
        Some(t) => Some(deviation_bps(pyth.price, t)),
        None => None,
    };
    let sb_diverges: bool = match sb_gap {
        Some(g) => g > cfg.liq_max_divergence_bps,
        None => false,
    };
    let twap_diverges: bool = match twap_gap {
        Some(g) => g > cfg.liq_max_divergence_bps,
        None => false,
    };
    let liq_divergent: bool = cfg.liq_max_divergence_bps > 0 && pyth_fresh && (sb_diverges
        || twap_diverges);

    // The canonical price caps the collateral side only.
    let coll_mid: u128 = match canonical {
        Some(c) => if chosen.price < c {
            chosen.price
        } else {
            c
        },
        None => chosen.price,
    };
    let coll_haircut: u128 = product(chosen.conf, cfg.k_bps) / BPS;
    let collateral: u128 = coll_mid.saturating_sub(coll_haircut);

    let sb_agrees: bool = match sb_gap {
        Some(g) => g <= cfg.max_deviation_bps,
        None => false,
    };
    let in_corridor: bool = match twap_gap {
        Some(g) => g <= cfg.twap_max_divergence_bps,
        None => cfg.twap_corridor_optional,
    };
    let mint_allowed: bool = pyth_fresh && pyth.conf_ratio_bps() <= cfg.max_conf_bps && sb_agrees
        && in_corridor && plausible && (!cfg.canonical_required || canonical.is_some());
    OracleResult {
        collateral_price: collateral,
        debt_price: debt_price(&chosen, cfg.k_bps),
        mode: if mint_allowed {
            OracleMode::MintAllowed
        } else {
            OracleMode::MintFrozen
        },
        fresh: pyth_fresh || sb_fresh,
        plausible,
        liq_divergent,
    }
}

// Laws.

/// The collateral price never exceeds the debt price.
pub proof fn law_collateral_price_is_at_most_debt_price(
    pyth: PriceView,
    switchboard: Option<PriceView>,
    dex_twap: Option<u128>,
    canonical: Option<u128>,
    now: Timestamp,
    cfg: OracleConfig,
)
    ensures
        ({
            let r = aggregated(pyth, switchboard, dex_twap, canonical, now, cfg);
            let mid = chosen_view(pyth, switchboard, now, cfg).price;
            r.collateral_price <= mid <= r.debt_price
        }),
{
}

/// A canonical price caps the collateral price.
pub proof fn law_canonical_caps_collateral(
    pyth: PriceView,
    switchboard: Option<PriceView>,
    dex_twap: Option<u128>,
    canonical: u128,
    now: Timestamp,
    cfg: OracleConfig,
)
    ensures
        aggregated(pyth, switchboard, dex_twap, Some(canonical), now, cfg).collateral_price
            <= canonical,
{
}

/// The canonical price is purely conservative: with it the collateral price is never higher than
/// without, and nothing but the collateral price and the mode depends on it.
pub proof fn law_canonical_never_raises_collateral(
    pyth: PriceView,
    switchboard: Option<PriceView>,
    dex_twap: Option<u128>,
    canonical: u128,
    now: Timestamp,
    cfg: OracleConfig,
)
    ensures
        ({
            let with = aggregated(pyth, switchboard, dex_twap, Some(canonical), now, cfg);
            let without = aggregated(pyth, switchboard, dex_twap, None, now, cfg);
            &&& with.collateral_price <= without.collateral_price
            &&& with.debt_price == without.debt_price
            &&& with.fresh == without.fresh
            &&& with.plausible == without.plausible
            &&& with.liq_divergent == without.liq_divergent
        }),
{
}

/// Where no canonical price is required, the mode does not depend on it; where one is required and
/// missing, mints are frozen.
pub proof fn law_canonical_and_mode(
    pyth: PriceView,
    switchboard: Option<PriceView>,
    dex_twap: Option<u128>,
    canonical: Option<u128>,
    now: Timestamp,
    cfg: OracleConfig,
)
    ensures
        !cfg.canonical_required ==> aggregated(
            pyth,
            switchboard,
            dex_twap,
            canonical,
            now,
            cfg,
        ).mode == aggregated(pyth, switchboard, dex_twap, None, now, cfg).mode,
        cfg.canonical_required ==> aggregated(
            pyth,
            switchboard,
            dex_twap,
            None,
            now,
            cfg,
        ).mode == OracleMode::MintFrozen,
{
}

/// A price is never lost: where either feed has one, stale or not, one is chosen.
pub proof fn law_price_is_never_lost(
    pyth: PriceView,
    switchboard: Option<PriceView>,
    now: Timestamp,
    cfg: OracleConfig,
)
    requires
        pyth.price > 0 || (switchboard matches Some(s) && s.price > 0),
    ensures
        chosen_view(pyth, switchboard, now, cfg).price > 0,
{
}

/// Minting is allowed only off a fresh, plausible primary whose confidence is at most the limit (one
/// below `u128::MAX` binds), with a fresh secondary on the same exponent and within the agreement band,
/// an average within its corridor, and a canonical price where one is required.
pub proof fn law_mint_needs_healthy_feeds(
    pyth: PriceView,
    switchboard: Option<PriceView>,
    dex_twap: Option<u128>,
    canonical: Option<u128>,
    now: Timestamp,
    cfg: OracleConfig,
)
    requires
        aggregated(pyth, switchboard, dex_twap, canonical, now, cfg).mode == OracleMode::MintAllowed,
    ensures
        aggregated(pyth, switchboard, dex_twap, canonical, now, cfg).fresh,
        aggregated(pyth, switchboard, dex_twap, canonical, now, cfg).plausible,
        is_fresh(pyth, now, cfg),
        is_fresh_if_any(switchboard, now, cfg),
        chosen_view(pyth, switchboard, now, cfg) == pyth,
        pyth.conf_ratio() <= cfg.max_conf_bps,
        cfg.max_conf_bps < u128::MAX ==> pyth.conf * BPS < (cfg.max_conf_bps + 1) * pyth.price,
        switchboard matches Some(s) && s.expo == pyth.expo && deviation(pyth.price, s.price)
            <= cfg.max_deviation_bps,
        dex_twap is None ==> cfg.twap_corridor_optional,
        dex_twap matches Some(t) ==> deviation(pyth.price, t) <= cfg.twap_max_divergence_bps,
        cfg.canonical_required ==> canonical is Some,
{
    let ratio = pyth.conf * BPS / pyth.price as int;
    lemma_floor(pyth.conf * BPS, pyth.price as int);
    if cfg.max_conf_bps < u128::MAX {
        lemma_mul_mono(ratio + 1, cfg.max_conf_bps + 1, pyth.price as int);
    }
}

/// Liquidations pause only on disagreement: never while the limit is 0, the primary is stale, or no
/// secondary is present and fresh.
pub proof fn law_missing_secondary_never_pauses_liquidation(
    pyth: PriceView,
    switchboard: Option<PriceView>,
    dex_twap: Option<u128>,
    canonical: Option<u128>,
    now: Timestamp,
    cfg: OracleConfig,
)
    requires
        cfg.liq_max_divergence_bps == 0 || !is_fresh(pyth, now, cfg) || (!is_fresh_if_any(
            switchboard,
            now,
            cfg,
        ) && dex_twap is None),
    ensures
        !aggregated(pyth, switchboard, dex_twap, canonical, now, cfg).liq_divergent,
{
}

/// Where the liquidation limit is no tighter than the mint limits, paused liquidations mean frozen
/// mints.
pub proof fn law_liquidation_limit_is_looser(
    pyth: PriceView,
    switchboard: Option<PriceView>,
    dex_twap: Option<u128>,
    canonical: Option<u128>,
    now: Timestamp,
    cfg: OracleConfig,
)
    requires
        cfg.liq_max_divergence_bps >= cfg.max_deviation_bps,
        cfg.liq_max_divergence_bps >= cfg.twap_max_divergence_bps,
        aggregated(pyth, switchboard, dex_twap, canonical, now, cfg).liq_divergent,
    ensures
        aggregated(pyth, switchboard, dex_twap, canonical, now, cfg).mode
            == OracleMode::MintFrozen,
{
}

/// With both bounds off, every price is plausible; the band reads the mid price alone, so confidence
/// cannot trip it.
pub proof fn law_band_reads_the_mid_price(
    pyth: PriceView,
    switchboard: Option<PriceView>,
    dex_twap: Option<u128>,
    canonical: Option<u128>,
    now: Timestamp,
    cfg: OracleConfig,
)
    ensures
        aggregated(pyth, switchboard, dex_twap, canonical, now, cfg).plausible == in_band(
            chosen_view(pyth, switchboard, now, cfg).price,
            cfg,
        ),
        cfg.band_lower_ray == 0 && cfg.band_upper_ray == 0 ==> aggregated(
            pyth,
            switchboard,
            dex_twap,
            canonical,
            now,
            cfg,
        ).plausible,
{
}

/// Uncertainty works against the borrower: a wider confidence never raises the collateral price and
/// never lowers the debt price.
pub proof fn law_uncertainty_is_conservative(price: u128, conf1: u128, conf2: u128, k_bps: u128)
    requires
        conf1 <= conf2,
    ensures
        price_less_margin(price, conf2, k_bps) <= price_less_margin(price, conf1, k_bps) <= price,
        price <= price_plus_margin(price, conf1, k_bps) <= price_plus_margin(price, conf2, k_bps),
{
    lemma_mul_mono(conf1 as int, conf2 as int, k_bps as int);
    lemma_mul_mono(0, conf1 as int, k_bps as int);
    lemma_floor_mono(
        saturated_product(conf1, k_bps) as int,
        saturated_product(conf2, k_bps) as int,
        BPS as int,
    );
}

/// The gap of two prices `lo <= hi` exceeds a limit exactly when `hi - lo`, in basis points, comes to
/// `limit + 1` times `lo`, whichever of the two is named first. The product is cut at `u128::MAX`, so a
/// limit that no such product reaches is never exceeded.
pub proof fn law_deviation_exceeds_a_limit(lo: u128, hi: u128, limit: u128)
    requires
        lo <= hi,
    ensures
        ({
            let far = limit < u128::MAX && (hi - lo) * 10_000 >= (limit + 1) * lo && u128::MAX >= (limit
                + 1) * lo;
            &&& deviation(lo, hi) > limit <==> far
            &&& deviation(hi, lo) > limit <==> far
        }),
{
    if lo > 0 {
        let n = saturated_product((hi - lo) as u128, BPS);
        let far = n >= (limit + 1) * lo;
        if far {
            lemma_floor_ge(n as int, lo as int, limit + 1);
        } else {
            lemma_floor_le(n as int, lo as int, limit as int);
        }
        if limit == u128::MAX {
            assert((limit + 1) * lo >= limit + 1) by (nonlinear_arith)
                requires
                    lo >= 1,
                    limit >= 0,
            ;
        }
    } else {
        assert((limit + 1) * lo == 0) by (nonlinear_arith)
            requires
                lo == 0,
        ;
    }
}

/// A view is stale exactly when it is older than the limit; an age counts up to `i64::MAX`, so that
/// limit makes nothing stale.
pub proof fn law_stale_is_older_than_the_limit(v: PriceView, now: Timestamp, max_age_secs: i64)
    ensures
        v.stale(now, max_age_secs) <==> now - v.publish_ts > max_age_secs && max_age_secs < i64::MAX,
{
}

/// The confidence ratio is the largest number of basis points with `ratio * price <= conf * 10_000`, or
/// `u128::MAX` where that is larger or the price is zero.
pub proof fn law_conf_ratio_is_floor(v: PriceView)
    ensures
        v.price == 0 ==> v.conf_ratio() == u128::MAX,
        v.price > 0 ==> v.conf_ratio() * v.price <= v.conf * 10_000,
        v.price > 0 && v.conf_ratio() < u128::MAX ==> v.conf * 10_000 < (v.conf_ratio() + 1) * v.price,
{
    if v.price > 0 {
        let ratio = v.conf * BPS / v.price as int;
        lemma_u128_product(v.conf, BPS);
        lemma_floor(v.conf * BPS, v.price as int);
        if ratio > u128::MAX {
            lemma_mul_mono(u128::MAX as int, ratio, v.price as int);
        }
    }
}

/// The confidence ratio is within a limit exactly when `conf`, in basis points, stays below `limit + 1`
/// times the price.
proof fn lemma_conf_within(v: PriceView, limit: u128)
    requires
        v.price > 0,
    ensures
        v.conf_ratio() <= limit <==> limit == u128::MAX || v.conf * 10_000 < (limit + 1) * v.price,
{
    law_conf_ratio_is_floor(v);
    let ratio = v.conf_ratio();
    if limit < u128::MAX {
        if ratio <= limit {
            lemma_mul_mono(ratio + 1, limit + 1, v.price as int);
        } else {
            lemma_mul_mono(limit + 1, ratio as int, v.price as int);
        }
    }
}

/// Liquidations pause exactly on a gap: the limit is on, the primary is fresh, and the secondary, fresh
/// and on the same exponent, or the average lies further from the primary than the limit, above or
/// below it. Freshness is a price above zero and an age within the limit; the gap is measured against
/// the smaller price.
pub proof fn law_liquidation_pauses_exactly_on_a_gap(
    pyth: PriceView,
    switchboard: Option<PriceView>,
    dex_twap: Option<u128>,
    canonical: Option<u128>,
    now: Timestamp,
    cfg: OracleConfig,
)
    ensures
        ({
            let limit = cfg.liq_max_divergence_bps;
            let age = cfg.max_age_secs;
            let far = |a: int, b: int|
                limit < u128::MAX && if a <= b {
                    (b - a) * 10_000 >= (limit + 1) * a && u128::MAX >= (limit + 1) * a
                } else {
                    (a - b) * 10_000 >= (limit + 1) * b && u128::MAX >= (limit + 1) * b
                };
            let recent = |v: PriceView|
                v.price > 0 && (now - v.publish_ts <= age || age == i64::MAX);
            aggregated(pyth, switchboard, dex_twap, canonical, now, cfg).liq_divergent <==> limit > 0
                && recent(pyth) && ((switchboard matches Some(s) && recent(s) && s.expo == pyth.expo
                && far(pyth.price as int, s.price as int)) || (dex_twap matches Some(t) && far(
                pyth.price as int,
                t as int,
            )))
        }),
{
    lemma_gap_either_way(pyth, switchboard, dex_twap, cfg.liq_max_divergence_bps);
}

/// [`law_deviation_exceeds_a_limit`] for the primary against the secondary and the average.
proof fn lemma_gap_either_way(
    pyth: PriceView,
    switchboard: Option<PriceView>,
    dex_twap: Option<u128>,
    limit: u128,
)
    ensures
        ({
            let far = |a: int, b: int|
                limit < u128::MAX && if a <= b {
                    (b - a) * 10_000 >= (limit + 1) * a && u128::MAX >= (limit + 1) * a
                } else {
                    (a - b) * 10_000 >= (limit + 1) * b && u128::MAX >= (limit + 1) * b
                };
            &&& switchboard matches Some(s) ==> (deviation(pyth.price, s.price) > limit <==> far(
                pyth.price as int,
                s.price as int,
            ))
            &&& dex_twap matches Some(t) ==> (deviation(pyth.price, t) > limit <==> far(
                pyth.price as int,
                t as int,
            ))
        }),
{
    if let Some(s) = switchboard {
        if pyth.price <= s.price {
            law_deviation_exceeds_a_limit(pyth.price, s.price, limit);
        } else {
            law_deviation_exceeds_a_limit(s.price, pyth.price, limit);
        }
    }
    if let Some(t) = dex_twap {
        if pyth.price <= t {
            law_deviation_exceeds_a_limit(pyth.price, t, limit);
        } else {
            law_deviation_exceeds_a_limit(t, pyth.price, limit);
        }
    }
}

/// Two fresh feeds that trade their prices agree or disagree as before: which of them is the higher one
/// does not matter to the pause, nor to the agreement that minting needs.
pub proof fn law_verdict_survives_swapped_prices(
    pyth: PriceView,
    secondary: PriceView,
    canonical: Option<u128>,
    now: Timestamp,
    cfg: OracleConfig,
)
    requires
        pyth.price > 0,
        secondary.price > 0,
    ensures
        ({
            let pyth2 = PriceView { price: secondary.price, ..pyth };
            let secondary2 = PriceView { price: pyth.price, ..secondary };
            let r = aggregated(pyth, Some(secondary), None, canonical, now, cfg);
            let r2 = aggregated(pyth2, Some(secondary2), None, canonical, now, cfg);
            &&& r.liq_divergent == r2.liq_divergent
            &&& secondary_agrees(pyth, Some(secondary), now, cfg, cfg.max_deviation_bps)
                == secondary_agrees(pyth2, Some(secondary2), now, cfg, cfg.max_deviation_bps)
        }),
{
    law_deviation_is_symmetric(pyth.price, secondary.price);
}

/// Minting is allowed exactly where all of this holds: the primary is fresh and its confidence within
/// the limit; the secondary is fresh, on the same exponent, and within the agreement band on either
/// side; the average is within its corridor on either side, or missing where the corridor is optional;
/// the primary's price is within the band; a canonical price is there where one is required.
pub proof fn law_mint_is_allowed_exactly_on_healthy_feeds(
    pyth: PriceView,
    switchboard: Option<PriceView>,
    dex_twap: Option<u128>,
    canonical: Option<u128>,
    now: Timestamp,
    cfg: OracleConfig,
)
    ensures
        ({
            let age = cfg.max_age_secs;
            let far = |a: int, b: int, limit: u128|
                limit < u128::MAX && if a <= b {
                    (b - a) * 10_000 >= (limit + 1) * a && u128::MAX >= (limit + 1) * a
                } else {
                    (a - b) * 10_000 >= (limit + 1) * b && u128::MAX >= (limit + 1) * b
                };
            let recent = |v: PriceView|
                v.price > 0 && (now - v.publish_ts <= age || age == i64::MAX);
            let p = pyth.price as int;
            aggregated(pyth, switchboard, dex_twap, canonical, now, cfg).mode
                == OracleMode::MintAllowed <==> recent(pyth) && (cfg.max_conf_bps == u128::MAX || pyth.conf
                * 10_000 < (cfg.max_conf_bps + 1) * p) && (switchboard matches Some(s) && recent(s)
                && s.expo == pyth.expo && !far(p, s.price as int, cfg.max_deviation_bps)) && (
            match dex_twap {
                Some(t) => !far(p, t as int, cfg.twap_max_divergence_bps),
                None => cfg.twap_corridor_optional,
            }) && (cfg.band_lower_ray == 0 || cfg.band_lower_ray <= p) && (cfg.band_upper_ray == 0 || p
                <= cfg.band_upper_ray) && (canonical is Some || !cfg.canonical_required)
        }),
{
    lemma_gap_either_way(pyth, switchboard, dex_twap, cfg.max_deviation_bps);
    lemma_gap_either_way(pyth, switchboard, dex_twap, cfg.twap_max_divergence_bps);
    if pyth.price > 0 {
        lemma_conf_within(pyth, cfg.max_conf_bps);
    }
}

/// The view `v` that prices come from is the primary where it is fresh; else the secondary where that is
/// fresh; else the later of the two that has a price at all, the primary on a tie. Its price is lowered
/// and raised by the same `margin`, the largest with `margin * 10_000 <= conf * k`, this product cut at
/// `u128::MAX`. The collateral price starts from the lower of the price and the canonical price, and
/// neither leaves the range of `u128`; the band reads the price alone.
pub proof fn law_prices_come_from_the_best_view(
    pyth: PriceView,
    switchboard: Option<PriceView>,
    dex_twap: Option<u128>,
    canonical: Option<u128>,
    now: Timestamp,
    cfg: OracleConfig,
    v: PriceView,
    margin: int,
)
    requires
        ({
            let age = cfg.max_age_secs;
            let recent = |w: PriceView|
                w.price > 0 && (now - w.publish_ts <= age || age == i64::MAX);
            if recent(pyth) {
                v == pyth
            } else if switchboard matches Some(s) && (recent(s) || (s.price > 0 && (pyth.price == 0
                || s.publish_ts > pyth.publish_ts))) {
                v == switchboard->0
            } else {
                v == pyth
            }
        }),
        if v.conf * cfg.k_bps <= u128::MAX {
            margin * 10_000 <= v.conf * cfg.k_bps < (margin + 1) * 10_000
        } else {
            margin * 10_000 <= u128::MAX < (margin + 1) * 10_000
        },
    ensures
        ({
            let age = cfg.max_age_secs;
            let recent = |w: PriceView|
                w.price > 0 && (now - w.publish_ts <= age || age == i64::MAX);
            let r = aggregated(pyth, switchboard, dex_twap, canonical, now, cfg);
            let bounded = match canonical {
                Some(c) => vstd::math::min(c as int, v.price as int),
                None => v.price as int,
            };
            &&& r.collateral_price == vstd::math::max(bounded - margin, 0)
            &&& r.debt_price == vstd::math::min(v.price + margin, u128::MAX as int)
            &&& r.fresh <==> recent(pyth) || (switchboard matches Some(s) && recent(s))
            &&& r.plausible <==> (cfg.band_lower_ray == 0 || cfg.band_lower_ray <= v.price) && (
            cfg.band_upper_ray == 0 || v.price <= cfg.band_upper_ray)
        }),
{
    lemma_margin(v.conf, cfg.k_bps, margin);
}

proof fn lemma_margin(conf: u128, k_bps: u128, m: int)
    requires
        if conf * k_bps <= u128::MAX {
            m * 10_000 <= conf * k_bps < (m + 1) * 10_000
        } else {
            m * 10_000 <= u128::MAX < (m + 1) * 10_000
        },
    ensures
        margin(conf, k_bps) == m,
{
    lemma_u128_product(conf, k_bps);
    let n = saturated_product(conf, k_bps) as int;
    lemma_floor_le(n, 10_000, m);
    lemma_floor_ge(n, 10_000, m);
}

/// The two valuations lie the same margin off the price, each side cut at its end of the range: the
/// margin is the largest with `margin * 10_000 <= conf * k`, this product cut at `u128::MAX`.
pub proof fn law_valuations_are_the_price_and_a_margin(
    price: u128,
    conf: u128,
    k_bps: u128,
    margin: int,
)
    requires
        if conf * k_bps <= u128::MAX {
            margin * 10_000 <= conf * k_bps < (margin + 1) * 10_000
        } else {
            margin * 10_000 <= u128::MAX < (margin + 1) * 10_000
        },
    ensures
        price_less_margin(price, conf, k_bps) == vstd::math::max(price - margin, 0),
        price_plus_margin(price, conf, k_bps) == vstd::math::min(price + margin, u128::MAX as int),
{
    lemma_margin(conf, k_bps, margin);
}

/// The gap of two prices does not depend on their order; a price has no gap to itself, and an unbounded
/// one to zero.
pub proof fn law_deviation_is_symmetric(a: u128, b: u128)
    ensures
        deviation(a, b) == deviation(b, a),
        a == b && a > 0 ==> deviation(a, b) == 0,
        a == 0 || b == 0 ==> deviation(a, b) == u128::MAX,
{
    if a == b && a > 0 {
        vstd::arithmetic::div_mod::lemma_div_of0(a as int);
    }
}

} // verus!
