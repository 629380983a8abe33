//! The dynamic redemption base rate: a fee that spikes with redemption volume and decays over time.
//!
//! The flat fee of a market is the floor; the base rate, in RAY, is added on top, up to a maximum. A
//! maximum of 0 switches the dynamic part off.

use crate::math::arith::{lemma_floor, lemma_floor_exact, lemma_floor_ge, lemma_floor_mono, lemma_mul_mono, lemma_u128_product};
use crate::math::laws::{law_ray_pow_bounded, law_ray_pow_decays, law_ray_pow_is_close, law_ray_pow_is_lower_bound};
use crate::math::{mul_div_floor, ray_mul, ray_pow, ray_pow_from, RAY};
use vstd::arithmetic::power::{lemma_pow_positive, pow};
use vstd::prelude::*;

verus! {

/// Per-minute decay factor in RAY: `0.5^(1/360)`, a half-life of six hours.
pub const BASE_RATE_DECAY_PER_MINUTE: u128 = 998_076_443_575_628_823_990_894_592;

/// Dampener of the spike: redeeming a fraction `f` of the debt raises the base rate by `f / BETA`.
pub const BASE_RATE_BETA: u128 = 2;

/// One basis point in RAY.
pub const RAY_PER_BPS: u128 = 100_000_000_000_000_000_000_000;

/// The decay factor over a number of whole minutes.
pub open spec fn decay_factor(minutes: nat) -> u128 {
    ray_pow_from(RAY, BASE_RATE_DECAY_PER_MINUTE, minutes)->0
}

/// The base rate after `secs_elapsed` seconds: it decays once per whole minute.
pub open spec fn decayed(base_rate: u128, secs_elapsed: i64) -> u128 {
    if secs_elapsed <= 0 {
        base_rate
    } else {
        (base_rate * decay_factor((secs_elapsed / 60) as nat) / RAY as int) as u128
    }
}

proof fn lemma_decay_factor(minutes: nat)
    ensures
        ray_pow_from(RAY, BASE_RATE_DECAY_PER_MINUTE, minutes) == Some(decay_factor(minutes)),
        decay_factor(minutes) <= RAY,
        minutes == 0 ==> decay_factor(minutes) == RAY,
{
    law_ray_pow_bounded(RAY, BASE_RATE_DECAY_PER_MINUTE, minutes);
}

/// A base rate times a factor at most 1.0.
proof fn lemma_decay_shrinks(base_rate: u128, factor: u128)
    requires
        factor <= RAY,
    ensures
        0 <= base_rate * factor / RAY as int <= base_rate,
{
    lemma_mul_mono(factor as int, RAY as int, base_rate as int);
    lemma_mul_mono(0, base_rate as int, factor as int);
    lemma_floor_exact(base_rate as int, RAY as int);
    lemma_floor_mono(base_rate * factor, base_rate * RAY, RAY as int);
    lemma_floor(base_rate * factor, RAY as int);
}

/// Decay a stored base rate (RAY) forward by `secs_elapsed` seconds, per whole minute; unchanged on a
/// zero or negative interval.
pub fn decay_base_rate(base_rate: u128, secs_elapsed: i64) -> (r: u128)
    ensures
        r == decayed(base_rate, secs_elapsed),
{
    proof {
        if secs_elapsed > 0 {
            let minutes = (secs_elapsed / 60) as nat;
            lemma_decay_factor(minutes);
            lemma_decay_shrinks(base_rate, decay_factor(minutes));
            lemma_floor_exact(base_rate as int, RAY as int);
        }
    }
    if base_rate == 0 || secs_elapsed <= 0 {
        return base_rate;
    }
    let minutes: u64 = secs_elapsed as u64 / 60;
    if minutes == 0 {
        return base_rate;
    }
    let factor: u128 = ray_pow(BASE_RATE_DECAY_PER_MINUTE, minutes).unwrap_or(0);
    ray_mul(base_rate, factor).unwrap_or(0)
}

/// The base rate raised by the redeemed fraction of the debt over BETA, up to 100%.
pub open spec fn bumped(base_rate: u128, redeemed: u128, total_debt: u128) -> u128 {
    if total_debt == 0 || redeemed == 0 {
        base_rate
    } else {
        let raised = base_rate + redeemed * RAY / total_debt as int / BASE_RATE_BETA as int;
        if raised < RAY {
            raised as u128
        } else {
            RAY
        }
    }
}

/// Bump the decayed base rate after redeeming `redeemed` against a market that carries `total_debt`:
/// `base += (redeemed / total_debt) / BETA`, saturating at `RAY`. No bump when either is zero.
pub fn bump_base_rate(base_rate: u128, redeemed: u128, total_debt: u128) -> (r: u128)
    ensures
        r == bumped(base_rate, redeemed, total_debt),
{
    if total_debt == 0 || redeemed == 0 {
        return base_rate;
    }
    proof {
        lemma_u128_product(redeemed, RAY);
        lemma_floor(redeemed * RAY, total_debt as int);
    }
    let frac: u128 = match mul_div_floor(redeemed, RAY, total_debt) {
        Some(q) => q / BASE_RATE_BETA,
        None => {
            // The fraction exceeds every rate: saturated.
            return RAY;
        },
    };
    let raised: u128 = base_rate.saturating_add(frac);
    if raised < RAY {
        raised
    } else {
        RAY
    }
}

/// The effective fee in basis points: the floor plus the capped dynamic part, capped as a whole.
pub open spec fn fee_bps(base_rate: u128, floor_bps: u16, dynamic_max_bps: u16, cap_bps: u16) -> int {
    let dyn_bps = base_rate / RAY_PER_BPS;
    let dyn_capped = if dyn_bps < dynamic_max_bps {
        dyn_bps as int
    } else {
        dynamic_max_bps as int
    };
    if floor_bps + dyn_capped < cap_bps {
        floor_bps + dyn_capped
    } else {
        cap_bps as int
    }
}

/// The effective redemption fee in basis points: the flat `floor_bps` plus the base rate in basis
/// points, this part capped by `dynamic_max_bps`, the sum capped by `cap_bps`.
pub fn effective_fee_bps(base_rate: u128, floor_bps: u16, dynamic_max_bps: u16, cap_bps: u16) -> (r:
    u16)
    ensures
        r == fee_bps(base_rate, floor_bps, dynamic_max_bps, cap_bps),
{
    let dyn_bps: u128 = base_rate / RAY_PER_BPS;
    let dyn_capped: u128 = if dyn_bps < dynamic_max_bps as u128 {
        dyn_bps
    } else {
        dynamic_max_bps as u128
    };
    let sum: u128 = floor_bps as u128 + dyn_capped;
    if sum < cap_bps as u128 {
        sum as u16
    } else {
        cap_bps
    }
}

// Laws.

/// Decay never raises a rate, and more time never leaves a higher one.
pub proof fn law_decay_is_monotone_in_time(base_rate: u128, t1: i64, t2: i64)
    requires
        t1 <= t2,
    ensures
        decayed(base_rate, t2) <= decayed(base_rate, t1) <= base_rate,
{
    if t1 > 0 {
        let m1 = (t1 / 60) as nat;
        lemma_decay_factor(m1);
        lemma_decay_shrinks(base_rate, decay_factor(m1));
    }
    if t2 > 0 {
        let m2 = (t2 / 60) as nat;
        lemma_decay_factor(m2);
        lemma_decay_shrinks(base_rate, decay_factor(m2));
        if t1 > 0 {
            let m1 = (t1 / 60) as nat;
            law_ray_pow_decays(BASE_RATE_DECAY_PER_MINUTE, m1, m2);
            lemma_mul_mono(decay_factor(m2) as int, decay_factor(m1) as int, base_rate as int);
            lemma_floor_mono(
                base_rate * decay_factor(m2),
                base_rate * decay_factor(m1),
                RAY as int,
            );
        }
    }
}

/// Decay keeps the order of the rates, and zero stays zero.
pub proof fn law_decay_is_monotone_in_rate(r1: u128, r2: u128, secs: i64)
    requires
        r1 <= r2,
    ensures
        decayed(r1, secs) <= decayed(r2, secs),
        decayed(0, secs) == 0,
{
    if secs > 0 {
        let f = decay_factor((secs / 60) as nat);
        lemma_decay_factor((secs / 60) as nat);
        lemma_decay_shrinks(r1, f);
        lemma_decay_shrinks(r2, f);
        lemma_decay_shrinks(0, f);
        lemma_mul_mono(r1 as int, r2 as int, f as int);
        lemma_floor_mono(r1 * f, r2 * f, RAY as int);
    }
}

/// Less than a whole minute does not decay.
pub proof fn law_no_decay_within_a_minute(base_rate: u128, secs: i64)
    requires
        secs < 60,
    ensures
        decayed(base_rate, secs) == base_rate,
{
    lemma_decay_factor(0);
    lemma_floor_exact(base_rate as int, RAY as int);
}

/// A bump never lowers a rate within 100%, and never leaves one above 100%.
pub proof fn law_bump_is_bounded(base_rate: u128, redeemed: u128, total_debt: u128)
    requires
        base_rate <= RAY,
    ensures
        base_rate <= bumped(base_rate, redeemed, total_debt) <= RAY,
{
    if total_debt > 0 {
        lemma_u128_product(redeemed, RAY);
        lemma_floor(redeemed * RAY, total_debt as int);
    }
}

/// Redeeming more, against the same debt, never bumps less.
pub proof fn law_bump_is_monotone(base_rate: u128, r1: u128, r2: u128, total_debt: u128)
    requires
        base_rate <= RAY,
        r1 <= r2,
    ensures
        bumped(base_rate, r1, total_debt) <= bumped(base_rate, r2, total_debt),
{
    law_bump_is_bounded(base_rate, r2, total_debt);
    if total_debt > 0 {
        lemma_u128_product(r1, RAY);
        lemma_mul_mono(r1 as int, r2 as int, RAY as int);
        lemma_floor_mono(r1 * RAY, r2 * RAY, total_debt as int);
        lemma_floor(r1 * RAY, total_debt as int);
    }
}

/// A bump adds exactly the redeemed fraction of the debt over BETA, floored: short of 100%, the rise is
/// the largest one with `rise * BETA * total_debt <= redeemed * RAY`; 100% is reached exactly where the
/// rate and that rise come to it; with nothing redeemed, or no debt, the rate stays.
pub proof fn law_bump_adds_the_damped_fraction(base_rate: u128, redeemed: u128, total_debt: u128)
    ensures
        ({
            let r = bumped(base_rate, redeemed, total_debt);
            let unit = BASE_RATE_BETA * total_debt;
            &&& redeemed == 0 || total_debt == 0 ==> r == base_rate
            &&& redeemed > 0 && total_debt > 0 ==> {
                &&& r <= RAY
                &&& r < RAY ==> base_rate <= r && (r - base_rate) * unit <= redeemed * RAY < (r
                    - base_rate + 1) * unit
                &&& r == RAY <==> base_rate >= RAY || redeemed * RAY >= (RAY - base_rate) * unit
            }
        }),
{
    if redeemed > 0 && total_debt > 0 {
        let d = total_debt as int;
        let beta = BASE_RATE_BETA as int;
        let n = redeemed * RAY;
        let unit = beta * d;
        lemma_u128_product(redeemed, RAY);
        lemma_floor(n, d);
        lemma_floor(n / d, beta);
        assert(d * beta == unit) by (nonlinear_arith)
            requires
                unit == beta * d,
        ;
        vstd::arithmetic::div_mod::lemma_div_denominator(n, d, beta);
        assert(n / d / beta == n / unit);
        lemma_floor(n, unit);
        if n >= (RAY - base_rate) * unit {
            lemma_floor_ge(n, unit, RAY - base_rate);
        } else if base_rate < RAY && n / unit >= RAY - base_rate {
            lemma_mul_mono(RAY - base_rate, n / unit, unit);
        }
    }
}

/// Two redemptions against the same debt bump as one of their sum does, up to one unit of flooring each.
pub proof fn law_bumps_add_up(base_rate: u128, r1: u128, r2: u128, total_debt: u128)
    requires
        total_debt > 0,
        r1 + r2 <= u128::MAX,
        bumped(base_rate, (r1 + r2) as u128, total_debt) < RAY,
    ensures
        ({
            let twice = bumped(bumped(base_rate, r1, total_debt), r2, total_debt);
            let once = bumped(base_rate, (r1 + r2) as u128, total_debt);
            twice <= once <= twice + 1
        }),
{
    let d = total_debt as int;
    let unit = BASE_RATE_BETA * d;
    let mid = bumped(base_rate, r1, total_debt);
    let twice = bumped(mid, r2, total_debt);
    let once = bumped(base_rate, (r1 + r2) as u128, total_debt);
    law_bump_adds_the_damped_fraction(base_rate, r1, total_debt);
    law_bump_adds_the_damped_fraction(mid, r2, total_debt);
    law_bump_adds_the_damped_fraction(base_rate, (r1 + r2) as u128, total_debt);
    assert((r1 + r2) * RAY == r1 * RAY + r2 * RAY) by (nonlinear_arith);
    if r1 > 0 && r2 > 0 {
        lemma_u128_product(r1, RAY);
        lemma_u128_product(r2, RAY);
        let k = once - base_rate;
        // Neither bump saturates where the sum does not.
        assert((RAY - base_rate) * unit > (r1 + r2) * RAY);
        assert(mid < RAY);
        let a = mid - base_rate;
        assert((RAY - mid) * unit == (RAY - base_rate) * unit - a * unit) by (nonlinear_arith)
            requires
                a == mid - base_rate,
        ;
        if twice == RAY {
            assert((a + 1) * unit == a * unit + unit) by (nonlinear_arith);
            lemma_bump_room(a, RAY - mid, k, unit, r1 * RAY, r2 * RAY);
        } else {
            let b = twice - mid;
            lemma_bump_room(a, b, k, unit, r1 * RAY, r2 * RAY);
            assert((a + 1) * unit + (b + 1) * unit == (a + b + 2) * unit) by (nonlinear_arith);
            assert(k < a + b + 2) by (nonlinear_arith)
                requires
                    k * unit < (a + b + 2) * unit,
                    unit > 0,
            ;
        }
    } else if r1 == 0 {
        assert(0 * RAY == 0);
    }
}

proof fn lemma_bump_room(a: int, b: int, k: int, unit: int, n1: int, n2: int)
    requires
        unit > 0,
        a * unit <= n1,
        b * unit <= n2,
        n1 + n2 < (k + 1) * unit,
    ensures
        a + b <= k,
{
    assert(a * unit + b * unit == (a + b) * unit) by (nonlinear_arith);
    assert(a + b < k + 1) by (nonlinear_arith)
        requires
            (a + b) * unit < (k + 1) * unit,
            unit > 0,
    ;
}

/// Over an interval that holds `minutes` whole minutes, the rate decays by the per-minute factor to
/// that power: never above `base_rate * factor^minutes`, and below it by less than 1 plus one unit in
/// RAY of the rate for every minute.
pub proof fn law_decay_is_the_power_of_the_minutes(base_rate: u128, secs: i64, minutes: nat)
    requires
        minutes * 60 <= secs < minutes * 60 + 60,
    ensures
        ({
            let r = decayed(base_rate, secs);
            let kept = pow(BASE_RATE_DECAY_PER_MINUTE as int, minutes);
            let whole = pow(RAY as int, minutes);
            &&& r * whole <= base_rate * kept
            &&& base_rate * kept * RAY < ((r + 1) * RAY + base_rate * minutes) * whole
        }),
{
    let ray = RAY as int;
    let r = decayed(base_rate, secs);
    let kept = pow(BASE_RATE_DECAY_PER_MINUTE as int, minutes);
    let whole = pow(ray, minutes);
    lemma_pow_positive(ray, minutes);
    lemma_pow_positive(BASE_RATE_DECAY_PER_MINUTE as int, minutes);
    lemma_decay_factor(minutes);
    let f = decay_factor(minutes);
    lemma_floor_exact(base_rate as int, ray);
    if secs > 0 {
        assert((secs / 60) as nat == minutes);
    }
    assert(r == base_rate * f / ray) by {
        lemma_decay_shrinks(base_rate, f);
    }
    lemma_floor(base_rate * f, ray);
    law_ray_pow_is_lower_bound(BASE_RATE_DECAY_PER_MINUTE, minutes, f);
    law_ray_pow_is_close(BASE_RATE_DECAY_PER_MINUTE, minutes, f);
    // f * whole <= kept * ray <= (f + minutes) * whole
    assert((r * whole) * ray <= (base_rate * kept) * ray) by {
        assert((r * whole) * ray == (r * ray) * whole) by (nonlinear_arith);
        lemma_mul_mono(r * ray, base_rate * f, whole);
        assert((base_rate * f) * whole == base_rate * (f * whole)) by (nonlinear_arith);
        lemma_mul_mono(f * whole, kept * ray, base_rate as int);
        assert(base_rate * (kept * ray) == (base_rate * kept) * ray) by (nonlinear_arith);
    }
    assert(r * whole <= base_rate * kept) by (nonlinear_arith)
        requires
            (r * whole) * ray <= (base_rate * kept) * ray,
            ray > 0,
    ;
    let m = minutes as int;
    lemma_mul_mono(kept * ray, (f + m) * whole, base_rate as int);
    assert(base_rate * (kept * ray) == base_rate * kept * ray) by (nonlinear_arith);
    assert(base_rate * ((f + m) * whole) == (base_rate * f) * whole + (base_rate * m) * whole)
        by (nonlinear_arith);
    assert((base_rate * f) * whole < ((r + 1) * ray) * whole) by (nonlinear_arith)
        requires
            base_rate * f < (r + 1) * ray,
            whole > 0,
    ;
    assert(((r + 1) * ray) * whole + (base_rate * m) * whole == ((r + 1) * ray + base_rate * m)
        * whole) by (nonlinear_arith);
}

/// The rate 1.0 decays to the RAY power of the per-minute factor over the whole minutes, and any other rate
/// keeps the same share of itself, floored.
pub proof fn law_decay_is_proportional(base_rate: u128, secs: i64, minutes: nat)
    requires
        secs < 60 && minutes == 0 || minutes * 60 <= secs < minutes * 60 + 60,
    ensures
        ray_pow_from(RAY, BASE_RATE_DECAY_PER_MINUTE, minutes) == Some(decayed(RAY, secs)),
        decayed(base_rate, secs) * RAY <= base_rate * decayed(RAY, secs) < (decayed(base_rate, secs) + 1)
            * RAY,
{
    let ray = RAY as int;
    lemma_floor_exact(ray, ray);
    lemma_decay_factor(minutes);
    assert((base_rate + 1) * ray == base_rate * ray + ray) by (nonlinear_arith);
    if secs > 0 {
        assert((secs / 60) as nat == minutes);
        let f = decay_factor((secs / 60) as nat);
        lemma_decay_factor((secs / 60) as nat);
        lemma_decay_shrinks(base_rate, f);
        lemma_decay_shrinks(RAY, f);
        lemma_floor_exact(f as int, ray);
        lemma_floor(base_rate * f, ray);
    }
}

/// The fee is the floor plus the base rate in whole basis points, this part not above its maximum and
/// the sum not above the cap: below the cap it exceeds the floor by the largest such number of basis
/// points, and the cap is charged exactly where floor and dynamic part come to it.
pub proof fn law_fee_adds_the_base_rate(
    base_rate: u128,
    floor_bps: u16,
    dynamic_max_bps: u16,
    cap_bps: u16,
)
    ensures
        ({
            let fee = fee_bps(base_rate, floor_bps, dynamic_max_bps, cap_bps);
            let part = fee - floor_bps;
            let room = cap_bps - floor_bps;
            &&& fee <= cap_bps
            &&& fee < cap_bps ==> 0 <= part <= dynamic_max_bps && part * RAY_PER_BPS <= base_rate
                && (part < dynamic_max_bps ==> base_rate < (part + 1) * RAY_PER_BPS)
            &&& fee == cap_bps <==> room <= 0 || (room <= dynamic_max_bps && base_rate >= room
                * RAY_PER_BPS)
        }),
{
}

/// Switched off, the fee is the flat floor within the cap, whatever the base rate.
pub proof fn law_disabled_fee_is_flat(base_rate: u128, floor_bps: u16, cap_bps: u16)
    ensures
        fee_bps(base_rate, floor_bps, 0, cap_bps) == (if floor_bps < cap_bps {
            floor_bps
        } else {
            cap_bps
        }),
{
}

/// The fee never falls as the base rate grows, and lies between the floor and the cap, where the floor
/// is within the cap.
pub proof fn law_fee_is_monotone_and_bounded(
    r1: u128,
    r2: u128,
    floor_bps: u16,
    dynamic_max_bps: u16,
    cap_bps: u16,
)
    requires
        r1 <= r2,
    ensures
        fee_bps(r1, floor_bps, dynamic_max_bps, cap_bps) <= fee_bps(
            r2,
            floor_bps,
            dynamic_max_bps,
            cap_bps,
        ) <= cap_bps,
        floor_bps <= cap_bps ==> floor_bps <= fee_bps(r1, floor_bps, dynamic_max_bps, cap_bps),
        fee_bps(r1, floor_bps, dynamic_max_bps, cap_bps) <= floor_bps + dynamic_max_bps,
{
}

} // verus!
