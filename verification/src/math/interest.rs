//! Per-position interest: the weighted-debt-sum accrual.
//!
//! Each borrower has their own rate, while the market accrues interest with one multiply:
//!
//! - Aggregate: over `dt` seconds the market owes `sum(debt_i * rate_i) * dt / INTEREST_DENOM`.
//! - Per position, realized on touch: `debt * rate * period / INTEREST_DENOM`.
//!
//! The aggregate rounds up, the per-position interest rounds down, so the market never mints less
//! interest than its positions book as debt.

use crate::math::arith::{ceil_div, fit_u128, lemma_floor, lemma_floor_ge, lemma_mul_mono};
use crate::math::laws::law_ceiling_is_least;
use crate::math::{mul_div_ceil, mul_div_floor};
use vstd::prelude::*;

verus! {

/// Seconds in a financial year of 365 days.
pub const SECONDS_PER_YEAR: u128 = 31_536_000;

/// Basis-point denominator of the rates.
pub const INTEREST_RATE_DENOM: u128 = 10_000;

/// The combined denominator: `SECONDS_PER_YEAR * INTEREST_RATE_DENOM`.
pub const INTEREST_DENOM: u128 = 315_360_000_000;

/// `debt * rate`, where it fits `u128`.
pub open spec fn weight(recorded_debt: u128, rate_bps: u16) -> Option<u128> {
    fit_u128(recorded_debt * rate_bps)
}

/// `floor(debt * rate * period / INTEREST_DENOM)`, where the weighted debt and the result fit `u128`.
pub open spec fn interest_floor(recorded_debt: u128, rate_bps: u16, period: u64) -> Option<u128> {
    match weight(recorded_debt, rate_bps) {
        Some(w) => fit_u128(w * period / INTEREST_DENOM as int),
        None => None,
    }
}

/// `ceil(debt * rate * period / INTEREST_DENOM)`, where the weighted debt and the result fit `u128`.
pub open spec fn interest_ceil(recorded_debt: u128, rate_bps: u16, period: u64) -> Option<u128> {
    match weight(recorded_debt, rate_bps) {
        Some(w) => fit_u128(ceil_div(w * period, INTEREST_DENOM as int)),
        None => None,
    }
}

/// A position's contribution to the market's weighted debt sum: `recorded_debt * rate_bps`. `None`
/// exactly when that exceeds `u128`.
#[inline]
pub fn weighted_debt(recorded_debt: u128, rate_bps: u16) -> (r: Option<u128>)
    ensures
        r == weight(recorded_debt, rate_bps),
{
    recorded_debt.checked_mul(rate_bps as u128)
}

/// Aggregate pending interest over `dt` seconds of a market whose positions sum to `weighted_sum`:
/// `ceil(weighted_sum * dt / INTEREST_DENOM)`. `None` exactly when that exceeds `u128`.
#[inline]
pub fn pending_aggregate_interest(weighted_sum: u128, dt: u64) -> (r: Option<u128>)
    ensures
        r == fit_u128(ceil_div(weighted_sum * dt, INTEREST_DENOM as int)),
        r matches Some(c) ==> (c - 1) * INTEREST_DENOM < weighted_sum * dt <= c * INTEREST_DENOM,
        r is None <==> weighted_sum * dt > u128::MAX * INTEREST_DENOM,
{
    proof {
        law_ceiling_is_least(weighted_sum, dt as u128, INTEREST_DENOM);
    }
    mul_div_ceil(weighted_sum, dt as u128, INTEREST_DENOM)
}

/// A position's interest over `period` seconds at its own rate, rounded down:
/// `floor(recorded_debt * rate_bps * period / INTEREST_DENOM)`. `None` exactly when
/// `recorded_debt * rate_bps` or the result exceeds `u128`.
#[inline]
pub fn accrued_interest(recorded_debt: u128, rate_bps: u16, period: u64) -> (r: Option<u128>)
    ensures
        r == interest_floor(recorded_debt, rate_bps, period),
{
    match weighted_debt(recorded_debt, rate_bps) {
        Some(weighted) => mul_div_floor(weighted, period as u128, INTEREST_DENOM),
        None => None,
    }
}

/// Upfront fee for a premature rate adjustment: one `period_secs` of interest, rounded up against the
/// borrower. `None` exactly when `recorded_debt * rate_bps` or the result exceeds `u128`.
#[inline]
pub fn premature_adjustment_fee(recorded_debt: u128, rate_bps: u16, period_secs: u64) -> (r: Option<
    u128,
>)
    ensures
        r == interest_ceil(recorded_debt, rate_bps, period_secs),
{
    match weighted_debt(recorded_debt, rate_bps) {
        Some(weighted) => mul_div_ceil(weighted, period_secs as u128, INTEREST_DENOM),
        None => None,
    }
}

// Laws.

/// The denominator is a year of basis points.
pub proof fn law_denominator_is_a_year_of_bps()
    ensures
        INTEREST_DENOM == SECONDS_PER_YEAR * INTEREST_RATE_DENOM,
{
}

/// The fee is never short of the linear accrual, and at most one unit above it.
pub proof fn law_fee_covers_accrual(recorded_debt: u128, rate_bps: u16, period: u64)
    ensures
        interest_ceil(recorded_debt, rate_bps, period) is Some ==> interest_floor(
            recorded_debt,
            rate_bps,
            period,
        ) is Some,
        interest_ceil(recorded_debt, rate_bps, period) matches Some(fee) ==> {
            let accrued = interest_floor(recorded_debt, rate_bps, period)->0;
            accrued <= fee <= accrued + 1
        },
{
    if let Some(w) = weight(recorded_debt, rate_bps) {
        lemma_mul_mono(0, w as int, period as int);
        lemma_floor(w * period, INTEREST_DENOM as int);
    }
}

/// No debt, no rate, or no time: no interest and no fee.
pub proof fn law_no_interest_without_debt_rate_and_time(
    recorded_debt: u128,
    rate_bps: u16,
    period: u64,
)
    requires
        recorded_debt == 0 || rate_bps == 0 || period == 0,
        weight(recorded_debt, rate_bps) is Some,
    ensures
        interest_floor(recorded_debt, rate_bps, period) == Some(0u128),
        interest_ceil(recorded_debt, rate_bps, period) == Some(0u128),
{
    let w = weight(recorded_debt, rate_bps)->0;
    assert(w * period == 0) by (nonlinear_arith)
        requires
            w == recorded_debt * rate_bps,
            recorded_debt == 0 || rate_bps == 0 || period == 0,
    ;
}

/// Accrued interest is the largest number of units whose multiple of the denominator stays within
/// `debt * rate * period`, and the fee the least that covers it. Both fail exactly when `debt * rate`
/// exceeds `u128` or the number does.
pub proof fn law_interest_is_rounded_to_the_unit(recorded_debt: u128, rate_bps: u16, period: u64)
    ensures
        ({
            let owed = recorded_debt * rate_bps * period;
            let year = SECONDS_PER_YEAR * INTEREST_RATE_DENOM;
            let accrued = interest_floor(recorded_debt, rate_bps, period);
            let fee = interest_ceil(recorded_debt, rate_bps, period);
            &&& accrued matches Some(a) ==> a * year <= owed < (a + 1) * year
            &&& fee matches Some(f) ==> (f - 1) * year < owed <= f * year
            &&& accrued is None <==> recorded_debt * rate_bps > u128::MAX || owed >= (u128::MAX + 1)
                * year
            &&& fee is None <==> recorded_debt * rate_bps > u128::MAX || owed > u128::MAX * year
        }),
{
    let d = INTEREST_DENOM as int;
    let w = recorded_debt * rate_bps;
    let n = w * period;
    lemma_mul_mono(0, recorded_debt as int, rate_bps as int);
    lemma_mul_mono(0, w, period as int);
    lemma_floor(n, d);
    crate::math::laws::law_ceil_is_least(n, d);
}

/// A position weighs its debt times its rate, wherever that fits.
pub proof fn law_weight_is_the_product(recorded_debt: u128, rate_bps: u16)
    ensures
        weight(recorded_debt, rate_bps) matches Some(w) ==> w == recorded_debt * rate_bps,
        weight(recorded_debt, rate_bps) is None <==> recorded_debt * rate_bps > u128::MAX,
{
    lemma_mul_mono(0, recorded_debt as int, rate_bps as int);
}

/// One whole year of interest is the rate's share of the debt.
pub proof fn law_year_of_interest(recorded_debt: u128, rate_bps: u16)
    requires
        weight(recorded_debt, rate_bps) is Some,
    ensures
        interest_floor(recorded_debt, rate_bps, SECONDS_PER_YEAR as u64) == fit_u128(
            recorded_debt * rate_bps / INTEREST_RATE_DENOM as int,
        ),
{
    let w: int = recorded_debt * rate_bps;
    assert(w >= 0) by (nonlinear_arith)
        requires
            w == recorded_debt * rate_bps,
            recorded_debt >= 0,
            rate_bps >= 0,
    ;
    assert(w * 31_536_000 / 315_360_000_000 == w / 10_000);
}

/// The positions of a market, as `(recorded debt, rate)`.
pub open spec fn weighted_sum(positions: Seq<(u128, u16)>) -> int
    decreases positions.len(),
{
    if positions.len() == 0 {
        0
    } else {
        weighted_sum(positions.drop_last()) + positions.last().0 * positions.last().1
    }
}

/// The interest that the positions book one by one, each rounded down.
pub open spec fn booked_interest(positions: Seq<(u128, u16)>, period: u64) -> int
    decreases positions.len(),
{
    if positions.len() == 0 {
        0
    } else {
        booked_interest(positions.drop_last(), period) + positions.last().0 * positions.last().1
            * period / INTEREST_DENOM as int
    }
}

proof fn lemma_booked_interest(positions: Seq<(u128, u16)>, period: u64)
    ensures
        weighted_sum(positions) >= 0,
        0 <= booked_interest(positions, period),
        booked_interest(positions, period) * INTEREST_DENOM <= weighted_sum(positions) * period
            <= (booked_interest(positions, period) + positions.len()) * INTEREST_DENOM,
    decreases positions.len(),
{
    let d = INTEREST_DENOM as int;
    if positions.len() == 0 {
        assert(0 * d == 0 && 0 * period == 0);
    } else {
        lemma_booked_interest(positions.drop_last(), period);
        let (debt, rate) = positions.last();
        let w: int = debt * rate;
        assert(w >= 0) by (nonlinear_arith)
            requires
                w == debt * rate,
                debt >= 0,
                rate >= 0,
        ;
        lemma_mul_mono(0, w, period as int);
        lemma_floor(w * period, d);
        let q = w * period / d;
        let s = weighted_sum(positions.drop_last());
        let b = booked_interest(positions.drop_last(), period);
        let n = positions.drop_last().len() as int;
        assert((s + w) * period == s * period + w * period) by (nonlinear_arith);
        assert((b + q) * d == b * d + q * d) by (nonlinear_arith);
        assert((q + 1) * d == q * d + d) by (nonlinear_arith);
        assert((b + q + (n + 1)) * d == (b + n) * d + q * d + d) by (nonlinear_arith);
    }
}

/// The market's aggregate interest is never short of the sum of what its positions book, and exceeds
/// it by at most one unit per position.
pub proof fn law_aggregate_covers_positions(positions: Seq<(u128, u16)>, dt: u64)
    requires
        weighted_sum(positions) <= u128::MAX,
    ensures
        weighted_sum(positions) >= 0,
        booked_interest(positions, dt) <= ceil_div(
            weighted_sum(positions) * dt,
            INTEREST_DENOM as int,
        ) <= booked_interest(positions, dt) + positions.len(),
{
    let d = INTEREST_DENOM as int;
    lemma_booked_interest(positions, dt);
    let n = weighted_sum(positions) * dt;
    let b = booked_interest(positions, dt);
    lemma_floor_ge(n, d, b);
    crate::math::laws::law_ceil_is_least(n, d);
    let c = ceil_div(n, d);
    let k = b + positions.len();
    assert(c - 1 < k) by (nonlinear_arith)
        requires
            (c - 1) * d < k * d,
            d > 0,
    ;
}

/// Interest is linear in time up to rounding: two adjacent periods book no more than their sum, and
/// at most one unit less.
pub proof fn law_interest_is_linear_in_time(recorded_debt: u128, rate_bps: u16, t1: u64, t2: u64)
    requires
        t1 + t2 <= u64::MAX,
        interest_floor(recorded_debt, rate_bps, (t1 + t2) as u64) is Some,
    ensures
        interest_floor(recorded_debt, rate_bps, t1) is Some,
        interest_floor(recorded_debt, rate_bps, t2) is Some,
        ({
            let both = interest_floor(recorded_debt, rate_bps, t1)->0 + interest_floor(
                recorded_debt,
                rate_bps,
                t2,
            )->0;
            both <= interest_floor(recorded_debt, rate_bps, (t1 + t2) as u64)->0 <= both + 1
        }),
{
    let d = INTEREST_DENOM as int;
    let w = weight(recorded_debt, rate_bps)->0 as int;
    lemma_mul_mono(0, t1 as int, w);
    lemma_mul_mono(0, t2 as int, w);
    assert(w * (t1 + t2) == w * t1 + w * t2) by (nonlinear_arith);
}

} // verus!
