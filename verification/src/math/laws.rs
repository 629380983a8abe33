//! Laws of the fixed-point core: rounding directions, monotonicity, and the RAY power.

use crate::math::arith::{ceil_div, fit_u128, lemma_floor, lemma_floor_exact, lemma_floor_ge, lemma_floor_le, lemma_floor_mono, lemma_mul_mono};
use crate::math::{bps_share, ceil_mul_div, exact_div, floor_mul_div, ray_pow_from, RAY};
use vstd::arithmetic::power::{lemma_pow0, lemma_pow1, lemma_pow_adds, lemma_pow_increases, lemma_pow_multiplies, lemma_pow_positive, pow};
use vstd::prelude::*;

verus! {

/// The ceiling of `n / d` is the least integer `c` with `c * d >= n`.
pub proof fn law_ceil_is_least(n: int, d: int)
    requires
        d > 0,
    ensures
        (ceil_div(n, d) - 1) * d < n <= ceil_div(n, d) * d,
{
    lemma_floor(n, d);
    let q = n / d;
    assert((q + 1) * d == q * d + d && (q - 1) * d == q * d - d && q * d == d * q)
        by (nonlinear_arith);
}

/// The ceiling is the floor, plus one exactly when there is a remainder; it overflows only past the
/// floor's range.
pub proof fn law_ceil_is_floor_plus_remainder_indicator(a: u128, b: u128, denom: u128)
    requires
        denom > 0,
    ensures
        ceil_mul_div(a, b, denom) is Some ==> floor_mul_div(a, b, denom) is Some,
        floor_mul_div(a, b, denom) matches Some(f) ==> ceil_mul_div(a, b, denom) == (if a * b
            % denom as int == 0 {
            Some(f)
        } else {
            fit_u128(f + 1)
        }),
{
    lemma_floor(a * b, denom as int);
    assert(a * b >= 0) by (nonlinear_arith)
        requires
            a >= 0,
            b >= 0,
    ;
}

/// A zero denominator fails closed in both directions.
pub proof fn law_zero_denominator_fails(a: u128, b: u128)
    ensures
        floor_mul_div(a, b, 0) is None,
        ceil_mul_div(a, b, 0) is None,
{
}

/// Both directions are monotone in the first factor.
pub proof fn law_mul_div_monotone(a1: u128, a2: u128, b: u128, denom: u128)
    requires
        a1 <= a2,
        floor_mul_div(a2, b, denom) is Some,
    ensures
        floor_mul_div(a1, b, denom) is Some,
        floor_mul_div(a1, b, denom)->0 <= floor_mul_div(a2, b, denom)->0,
        ceil_mul_div(a2, b, denom) is Some ==> ceil_mul_div(a1, b, denom) is Some && ceil_mul_div(
            a1,
            b,
            denom,
        )->0 <= ceil_mul_div(a2, b, denom)->0,
{
    let d = denom as int;
    lemma_mul_mono(a1 as int, a2 as int, b as int);
    lemma_mul_mono(0, a1 as int, b as int);
    lemma_floor_mono(a1 * b, a2 * b, d);
    lemma_floor(a1 * b, d);
    lemma_floor(a2 * b, d);
    law_ceil_is_least(a1 * b, d);
    law_ceil_is_least(a2 * b, d);
    let c1 = ceil_div(a1 * b, d);
    let c2 = ceil_div(a2 * b, d);
    assert(c1 - 1 < c2) by (nonlinear_arith)
        requires
            (c1 - 1) * d < c2 * d,
            d > 0,
    ;
}

/// The debt that a position owes is never charged short, and at most one unit over: it is the least
/// `debt` with `debt * RAY >= art * rate`.
pub proof fn law_present_debt_never_undercharges(art: u128, rate: u128, debt: u128)
    requires
        fit_u128(ceil_div(art * rate, RAY as int)) == Some(debt),
    ensures
        (debt - 1) * RAY < art * rate <= debt * RAY,
{
    law_ceil_is_least(art * rate, RAY as int);
    assert(art * rate >= 0) by (nonlinear_arith)
        requires
            art >= 0,
            rate >= 0,
    ;
    lemma_floor(art * rate, RAY as int);
}

/// Up to 100% the share always fits and never exceeds the amount; 100% is the amount itself.
pub proof fn law_bps_share_bounded(amount: u64, bps: u16)
    requires
        bps <= 10_000,
    ensures
        bps_share(amount, bps) is Some,
        bps_share(amount, bps)->0 <= amount,
        bps == 10_000 ==> bps_share(amount, bps)->0 == amount,
{
    let n: int = amount * bps;
    assert(0 <= n <= amount * 10_000) by (nonlinear_arith)
        requires
            n == amount * bps,
            0 <= bps <= 10_000,
            amount >= 0,
    ;
}

/// A larger amount or a larger rate never gives a smaller share.
pub proof fn law_bps_share_monotone(a1: u64, a2: u64, b1: u16, b2: u16)
    requires
        a1 <= a2,
        b1 <= b2,
        bps_share(a2, b2) is Some,
    ensures
        bps_share(a1, b1) is Some,
        bps_share(a1, b1)->0 <= bps_share(a2, b2)->0,
{
    assert(0 <= a1 * b1 <= a2 * b2) by (nonlinear_arith)
        requires
            0 <= a1 <= a2,
            0 <= b1 <= b2,
    ;
}

/// The floor of `a * b / denom` is the largest `q` with `q * denom <= a * b`; there is none for a zero
/// denominator, and it fails to fit exactly when `a * b` reaches `2^128 * denom`.
pub proof fn law_floor_is_greatest(a: u128, b: u128, denom: u128)
    ensures
        floor_mul_div(a, b, denom) matches Some(q) ==> denom > 0 && q * denom <= a * b < (q + 1) * denom,
        floor_mul_div(a, b, denom) is None <==> denom == 0 || a * b >= (u128::MAX + 1) * denom,
{
    lemma_mul_mono(0, a as int, b as int);
    if denom > 0 {
        lemma_floor(a * b, denom as int);
        if a * b >= (u128::MAX + 1) * denom {
            lemma_floor_ge(a * b, denom as int, u128::MAX + 1);
        } else {
            lemma_floor_le(a * b, denom as int, u128::MAX as int);
        }
    }
}

/// The ceiling of `a * b / denom` is the least `c` with `c * denom >= a * b`; there is none for a zero
/// denominator, and it fails to fit exactly when `a * b` exceeds `u128::MAX * denom`.
pub proof fn law_ceiling_is_least(a: u128, b: u128, denom: u128)
    ensures
        ceil_mul_div(a, b, denom) matches Some(c) ==> denom > 0 && (c - 1) * denom < a * b <= c * denom,
        ceil_mul_div(a, b, denom) is None <==> denom == 0 || a * b > u128::MAX * denom,
{
    lemma_mul_mono(0, a as int, b as int);
    if denom > 0 {
        let d = denom as int;
        lemma_floor(a * b, d);
        law_ceil_is_least(a * b, d);
        let c = ceil_div(a * b, d);
        if c > u128::MAX {
            lemma_mul_mono(u128::MAX as int, c - 1, d);
        } else {
            lemma_mul_mono(c, u128::MAX as int, d);
        }
    }
}

/// The quotient and the remainder make up the dividend.
pub proof fn law_exact_div_restores(n: int, denom: u128)
    requires
        n >= 0,
    ensures
        exact_div(n, denom) matches Some((q, rem)) ==> q * denom + rem == n && rem < denom,
        exact_div(n, denom) is None <==> denom == 0 || n >= (u128::MAX + 1) * denom,
{
    if denom > 0 {
        let d = denom as int;
        lemma_floor(n, d);
        assert(d * (n / d) == (n / d) * d) by (nonlinear_arith);
        if n >= (u128::MAX + 1) * denom {
            lemma_floor_ge(n, d, u128::MAX + 1);
        } else {
            lemma_floor_le(n, d, u128::MAX as int);
        }
    }
}

/// A share is the largest `s` with `s * 10_000 <= amount * bps`, and fails exactly when that exceeds
/// `u64`.
pub proof fn law_bps_share_is_floor(amount: u64, bps: u16)
    ensures
        bps_share(amount, bps) matches Some(s) ==> s * 10_000 <= amount * bps < (s + 1) * 10_000,
        bps_share(amount, bps) is None <==> amount * bps >= (u64::MAX + 1) * 10_000,
{
    lemma_mul_mono(0, amount as int, bps as int);
}

/// `x^0 == 1.0` and `x^1 == x`.
pub proof fn law_ray_pow_identities(base: u128)
    ensures
        ray_pow_from(RAY, base, 0) == Some(RAY),
        ray_pow_from(RAY, base, 1) == Some(base),
{
    lemma_floor_exact(base as int, RAY as int);
}

/// `k^e` over the squares and products of [`ray_pow_from`], where none of them rounds.
proof fn lemma_ray_pow_exact(zc: int, bc: int, z: u128, b: u128, e: nat)
    requires
        z == zc * RAY,
        b == bc * RAY,
        zc >= 0,
        bc >= 0,
        zc >= 1 || bc == 0,
    ensures
        ray_pow_from(z, b, e) == fit_u128(zc * pow(bc, e) * RAY),
    decreases e,
{
    let r = RAY as int;
    if e == 0 {
        lemma_pow0(bc);
        assert(zc * 1 * r == zc * r) by (nonlinear_arith);
    } else {
        assert(z * b == (zc * bc * r) * r) by (nonlinear_arith)
            requires
                z == zc * r,
                b == bc * r,
        ;
        lemma_floor_exact(zc * bc * r, r);
        assert(b * b == (bc * bc * r) * r) by (nonlinear_arith)
            requires
                b == bc * r,
        ;
        lemma_floor_exact(bc * bc * r, r);
        lemma_pow1(bc);
        if e == 1 {
        } else {
            let zc2 = if e % 2 == 1 {
                zc * bc
            } else {
                zc
            };
            let bc2 = bc * bc;
            assert(zc2 >= 0 && bc2 >= 0 && (zc2 >= 1 || bc2 == 0)) by (nonlinear_arith)
                requires
                    zc2 == zc * bc || zc2 == zc,
                    bc2 == bc * bc,
                    zc >= 0,
                    bc >= 0,
                    zc >= 1 || bc == 0,
            ;
            // pow(bc, e) splits into the square's power and the odd factor.
            lemma_pow_multiplies(bc, 2, e / 2);
            lemma_pow_adds(bc, 1, 1);
            assert(pow(bc, 2) == bc2);
            assert(pow(bc2, e / 2) == pow(bc, 2 * (e / 2)));
            lemma_pow_adds(bc, 2 * (e / 2), e % 2);
            lemma_pow0(bc);
            let h = pow(bc2, e / 2);
            assert(zc2 * h == zc * pow(bc, e)) by (nonlinear_arith)
                requires
                    pow(bc, e) == h * bc && zc2 == zc * bc || pow(bc, e) == h * 1 && zc2 == zc,
            ;
            // A product that does not fit leaves the whole power too large.
            if bc >= 1 {
                lemma_pow_increases(bc as nat, 2, e);
                let p = pow(bc, e);
                assert(zc * p * r >= bc2 * r) by (nonlinear_arith)
                    requires
                        p >= bc2,
                        zc >= 1,
                        bc2 >= 0,
                        r > 0,
                ;
                assert(zc * p * r >= zc * bc * r) by (nonlinear_arith)
                    requires
                        p >= bc2,
                        bc2 == bc * bc,
                        bc >= 1,
                        zc >= 1,
                        r > 0,
                {
                    assert(bc2 >= bc);
                    assert(zc * p >= zc * bc);
                }
            } else {
                assert(zc * bc * r == 0 && bc2 * r == 0) by (nonlinear_arith)
                    requires
                        bc == 0,
                        bc2 == bc * bc,
                ;
            }
            let taken = if e % 2 == 1 {
                fit_u128(z * b / r)
            } else {
                Some(z)
            };
            if taken is Some && fit_u128(b * b / r) is Some {
                assert(zc2 * r >= 0 && bc2 * r >= 0) by (nonlinear_arith)
                    requires
                        zc2 >= 0,
                        bc2 >= 0,
                        r > 0,
                ;
                lemma_ray_pow_exact(zc2, bc2, taken->0, fit_u128(b * b / r)->0, e / 2);
            }
        }
    }
}

/// On a whole base the power is exact: `(k * RAY)^e` is `k^e * RAY`, and it fails exactly when that
/// exceeds `u128`.
pub proof fn law_ray_pow_exact_on_whole_bases(k: u128, e: nat)
    requires
        k * RAY <= u128::MAX,
    ensures
        ray_pow_from(RAY, (k * RAY) as u128, e) == fit_u128(pow(k as int, e) * RAY),
{
    lemma_ray_pow_exact(1, k as int, RAY, (k * RAY) as u128, e);
    assert(1 * pow(k as int, e) == pow(k as int, e));
}

/// A floored product of two lower bounds of RAY powers is a lower bound of the power of the sum.
proof fn lemma_ray_bound_product(x: int, z: int, m: nat, b: int, n: nat)
    requires
        x >= 0,
        z >= 0,
        b >= 0,
        z * pow(RAY as int, m) <= pow(x, m) * RAY,
        b * pow(RAY as int, n) <= pow(x, n) * RAY,
    ensures
        (z * b / RAY as int) * pow(RAY as int, m + n) <= pow(x, m + n) * RAY,
{
    let r = RAY as int;
    let c = z * b / r;
    lemma_pow_adds(r, m, n);
    lemma_pow_adds(x, m, n);
    lemma_pow_positive(r, m);
    lemma_pow_positive(r, n);
    let rm = pow(r, m);
    let rn = pow(r, n);
    let xm = pow(x, m);
    let xn = pow(x, n);
    lemma_floor(z * b, r);
    assert((z * rm) * (b * rn) <= (xm * r) * (xn * r)) by (nonlinear_arith)
        requires
            0 <= z * rm <= xm * r,
            0 <= b * rn <= xn * r,
    ;
    assert((z * rm) * (b * rn) == (z * b) * (rm * rn)) by (nonlinear_arith);
    assert((xm * r) * (xn * r) == ((xm * xn) * r) * r) by (nonlinear_arith);
    assert((c * r) * (rm * rn) <= (z * b) * (rm * rn)) by (nonlinear_arith)
        requires
            c * r <= z * b,
            rm > 0,
            rn > 0,
    {
        assert(rm * rn > 0);
    }
    assert((c * r) * (rm * rn) == (c * (rm * rn)) * r) by (nonlinear_arith);
    assert(c * (rm * rn) <= (xm * xn) * r) by (nonlinear_arith)
        requires
            (c * (rm * rn)) * r <= ((xm * xn) * r) * r,
            r > 0,
    ;
}

proof fn lemma_ray_pow_lower_bound(x: int, z: u128, m: nat, b: u128, n: nat, e: nat)
    requires
        x >= 0,
        z * pow(RAY as int, m) <= pow(x, m) * RAY,
        b * pow(RAY as int, n) <= pow(x, n) * RAY,
        ray_pow_from(z, b, e) is Some,
    ensures
        ray_pow_from(z, b, e)->0 * pow(RAY as int, m + n * e) <= pow(x, m + n * e) * RAY,
    decreases e,
{
    let r = RAY as int;
    if e == 0 {
        assert(n * e == 0) by (nonlinear_arith)
            requires
                e == 0,
        ;
    } else {
        lemma_ray_bound_product(x, z as int, m, b as int, n);
        assert(0 <= z * b && 0 <= b * b) by (nonlinear_arith)
            requires
                z >= 0,
                b >= 0,
        ;
        lemma_floor(z * b, r);
        lemma_floor(b * b, r);
        if e == 1 {
            assert(n * e == n) by (nonlinear_arith)
                requires
                    e == 1,
            ;
        } else {
            lemma_ray_bound_product(x, b as int, n, b as int, n);
            let b2 = fit_u128(b * b / r)->0;
            let h = e / 2;
            if e % 2 == 1 {
                let z2 = fit_u128(z * b / r)->0;
                lemma_ray_pow_lower_bound(x, z2, m + n, b2, n + n, h);
                assert((m + n) + (n + n) * h == m + n * e) by (nonlinear_arith)
                    requires
                        e == 2 * h + 1,
                ;
            } else {
                lemma_ray_pow_lower_bound(x, z, m, b2, n + n, h);
                assert(m + (n + n) * h == m + n * e) by (nonlinear_arith)
                    requires
                        e == 2 * h,
                ;
            }
        }
    }
}

/// The flooring makes the power a lower bound of the true one: `(result / RAY) <= (base / RAY)^e`,
/// written without division.
pub proof fn law_ray_pow_is_lower_bound(base: u128, e: nat, result: u128)
    requires
        ray_pow_from(RAY, base, e) == Some(result),
    ensures
        result * pow(RAY as int, e) <= pow(base as int, e) * RAY,
{
    let r = RAY as int;
    lemma_pow0(r);
    lemma_pow0(base as int);
    lemma_pow1(r);
    lemma_pow1(base as int);
    lemma_ray_pow_lower_bound(base as int, RAY, 0, base, 1, e);
    assert(0 + 1 * e == e);
}

/// A RAY product with a factor at most 1.0 does not grow.
proof fn lemma_ray_product_shrinks(z: u128, b: u128)
    requires
        b <= RAY,
    ensures
        0 <= z * b / RAY as int <= z,
        fit_u128(z * b / RAY as int) == Some((z * b / RAY as int) as u128),
{
    lemma_mul_mono(b as int, RAY as int, z as int);
    lemma_mul_mono(0, z as int, b as int);
    lemma_floor(z * b, RAY as int);
    assert(z * b < (z + 1) * RAY) by {
        assert((z + 1) * RAY == z * RAY + RAY) by (nonlinear_arith);
    }
    lemma_floor_le(z * b, RAY as int, z as int);
}

/// A RAY product is monotone in both factors.
proof fn lemma_ray_product_mono(z1: u128, b1: u128, z2: u128, b2: u128)
    requires
        z1 <= z2,
        b1 <= b2,
    ensures
        0 <= z1 * b1 / RAY as int <= z2 * b2 / RAY as int,
{
    assert(0 <= z1 * b1 <= z2 * b2) by (nonlinear_arith)
        requires
            0 <= z1 <= z2,
            0 <= b1 <= b2,
    ;
    lemma_floor_mono(z1 * b1, z2 * b2, RAY as int);
    lemma_floor(z1 * b1, RAY as int);
}

/// A base at most 1.0 never overflows, and its powers never exceed what they start from.
pub proof fn law_ray_pow_bounded(z: u128, b: u128, e: nat)
    requires
        b <= RAY,
    ensures
        ray_pow_from(z, b, e) is Some,
        ray_pow_from(z, b, e)->0 <= z,
    decreases e,
{
    if e > 0 {
        lemma_ray_product_shrinks(z, b);
        lemma_ray_product_shrinks(b, b);
        if e > 1 {
            let b2 = (b * b / RAY as int) as u128;
            let z2 = if e % 2 == 1 {
                (z * b / RAY as int) as u128
            } else {
                z
            };
            law_ray_pow_bounded(z2, b2, e / 2);
        }
    }
}

/// The power is monotone in its start and in its base.
pub proof fn law_ray_pow_monotone(z1: u128, z2: u128, b1: u128, b2: u128, e: nat)
    requires
        z1 <= z2,
        b1 <= b2,
        ray_pow_from(z2, b2, e) is Some,
    ensures
        ray_pow_from(z1, b1, e) is Some,
        ray_pow_from(z1, b1, e)->0 <= ray_pow_from(z2, b2, e)->0,
    decreases e,
{
    if e > 0 {
        lemma_ray_product_mono(z1, b1, z2, b2);
        lemma_ray_product_mono(b1, b1, b2, b2);
        if e > 1 {
            let q1 = (b1 * b1 / RAY as int) as u128;
            let q2 = (b2 * b2 / RAY as int) as u128;
            if e % 2 == 1 {
                law_ray_pow_monotone(
                    (z1 * b1 / RAY as int) as u128,
                    (z2 * b2 / RAY as int) as u128,
                    q1,
                    q2,
                    e / 2,
                );
            } else {
                law_ray_pow_monotone(z1, z2, q1, q2, e / 2);
            }
        }
    }
}

/// One more factor, against a start `z` that already holds one.
proof fn lemma_ray_pow_one_more(z: u128, b: u128, e: nat)
    requires
        b <= RAY,
        b <= z,
    ensures
        ray_pow_from(RAY, b, e + 1) is Some,
        ray_pow_from(z, b, e) is Some,
        ray_pow_from(RAY, b, e + 1)->0 <= ray_pow_from(z, b, e)->0,
    decreases e,
{
    law_ray_pow_bounded(RAY, b, e + 1);
    law_ray_pow_bounded(z, b, e);
    lemma_floor_exact(b as int, RAY as int);
    lemma_ray_product_shrinks(b, b);
    lemma_ray_product_shrinks(z, b);
    let b2 = (b * b / RAY as int) as u128;
    if e == 0 {
    } else if e % 2 == 0 {
        law_ray_pow_bounded(z, b2, e / 2);
        law_ray_pow_monotone(b, z, b2, b2, e / 2);
        assert((e + 1) / 2 == e / 2);
        assert(ray_pow_from(RAY, b, e + 1) == ray_pow_from(b, b2, e / 2));
    } else {
        let z2 = (z * b / RAY as int) as u128;
        lemma_ray_product_mono(b, b, z, b);
        lemma_ray_pow_one_more(z2, b2, e / 2);
        assert((e + 1) / 2 == e / 2 + 1);
        assert(ray_pow_from(RAY, b, e + 1) == ray_pow_from(RAY, b2, e / 2 + 1));
        if e == 1 {
            assert(ray_pow_from(z2, b2, 0) == Some(z2));
        }
    }
}

/// A base at most 1.0 decays: a larger exponent never gives a larger power.
pub proof fn law_ray_pow_decays(base: u128, e1: nat, e2: nat)
    requires
        base <= RAY,
        e1 <= e2,
    ensures
        ray_pow_from(RAY, base, e1) is Some,
        ray_pow_from(RAY, base, e2) is Some,
        ray_pow_from(RAY, base, e2)->0 <= ray_pow_from(RAY, base, e1)->0 <= RAY,
    decreases e2 - e1,
{
    law_ray_pow_bounded(RAY, base, e1);
    if e1 < e2 {
        law_ray_pow_decays(base, e1, (e2 - 1) as nat);
        lemma_ray_pow_one_more(RAY, base, (e2 - 1) as nat);
    }
}

/// A floored product of two powers of a base at most 1.0, each short by at most `sz` and `sb`, is short
/// of the power of the sum by at most `sz + sb + 1`.
proof fn lemma_ray_close_product(x: int, z: int, m: nat, sz: int, b: int, n: nat, sb: int)
    requires
        0 <= x <= RAY,
        0 <= z,
        0 <= b <= RAY,
        sz >= 0,
        sb >= 0,
        pow(x, m) * RAY <= (z + sz) * pow(RAY as int, m),
        pow(x, n) * RAY <= (b + sb) * pow(RAY as int, n),
    ensures
        pow(x, m + n) * RAY <= (z * b / RAY as int + sz + sb + 1) * pow(RAY as int, m + n),
{
    let r = RAY as int;
    let c = z * b / r;
    lemma_pow_adds(r, m, n);
    lemma_pow_adds(x, m, n);
    lemma_pow_positive(r, m);
    lemma_pow_positive(r, n);
    lemma_pow_nonnegative(x, m);
    lemma_pow_nonnegative(x, n);
    lemma_pow_ordered(x, r, m);
    let rm = pow(r, m);
    let rn = pow(r, n);
    let xm = pow(x, m);
    let xn = pow(x, n);
    lemma_floor(z * b, r);
    // xm * xn * r <= xm * (b + sb) * rn, one factor at a time.
    lemma_mul_mono(xn * r, (b + sb) * rn, xm);
    assert(xm * (xn * r) == (xm * xn) * r) by (nonlinear_arith);
    assert(xm * ((b + sb) * rn) == (xm * b + xm * sb) * rn) by (nonlinear_arith);
    lemma_mul_mono(xm, rm, sb);
    // xm * b * r <= (z + sz) * b * rm <= (c + 1 + sz) * r * rm
    lemma_mul_mono(xm * r, (z + sz) * rm, b);
    assert((xm * r) * b == (xm * b) * r) by (nonlinear_arith);
    assert(((z + sz) * rm) * b == (z * b + sz * b) * rm) by (nonlinear_arith);
    lemma_mul_mono(b, r, sz);
    assert((c + 1) * r + sz * r == (c + 1 + sz) * r) by (nonlinear_arith);
    lemma_mul_mono(z * b + sz * b, (c + 1 + sz) * r, rm);
    assert(((c + 1 + sz) * r) * rm == ((c + 1 + sz) * rm) * r) by (nonlinear_arith);
    assert(xm * b <= (c + 1 + sz) * rm) by (nonlinear_arith)
        requires
            (xm * b) * r <= ((c + 1 + sz) * rm) * r,
            r > 0,
    ;
    assert((c + 1 + sz) * rm + rm * sb == (c + sz + sb + 1) * rm) by (nonlinear_arith);
    assert(xm * sb == sb * xm && rm * sb == sb * rm) by (nonlinear_arith);
    lemma_mul_mono(xm * b + xm * sb, (c + sz + sb + 1) * rm, rn);
    assert(((c + sz + sb + 1) * rm) * rn == (c + sz + sb + 1) * (rm * rn)) by (nonlinear_arith);
}

proof fn lemma_pow_nonnegative(x: int, n: nat)
    requires
        x >= 0,
    ensures
        pow(x, n) >= 0,
{
    if x > 0 {
        lemma_pow_positive(x, n);
    } else if n == 0 {
        lemma_pow0(x);
    } else {
        vstd::arithmetic::power::lemma0_pow(n);
    }
}

proof fn lemma_pow_ordered(x: int, y: int, n: nat)
    requires
        0 <= x <= y,
    ensures
        pow(x, n) <= pow(y, n),
    decreases n,
{
    if n == 0 {
        lemma_pow0(x);
        lemma_pow0(y);
    } else {
        let k = (n - 1) as nat;
        lemma_pow_ordered(x, y, k);
        lemma_pow_nonnegative(x, k);
        lemma_pow1(x);
        lemma_pow1(y);
        lemma_pow_adds(x, 1, k);
        lemma_pow_adds(y, 1, k);
        lemma_mul_mono(pow(x, k), pow(y, k), x);
        lemma_pow_nonnegative(y, k);
        lemma_mul_mono(x, y, pow(y, k));
    }
}

proof fn lemma_ray_pow_close(x: int, z: u128, m: nat, sz: int, b: u128, n: nat, sb: int, e: nat)
    requires
        0 <= x <= RAY,
        b <= RAY,
        sz >= 0,
        sb >= 0,
        pow(x, m) * RAY <= (z + sz) * pow(RAY as int, m),
        pow(x, n) * RAY <= (b + sb) * pow(RAY as int, n),
    ensures
        ray_pow_from(z, b, e) is Some,
        pow(x, m + n * e) * RAY <= (ray_pow_from(z, b, e)->0 + sz + (sb + 1) * e) * pow(
            RAY as int,
            m + n * e,
        ),
    decreases e,
{
    law_ray_pow_bounded(z, b, e);
    if e == 0 {
        assert(n * e == 0 && (sb + 1) * e == 0) by (nonlinear_arith)
            requires
                e == 0,
        ;
    } else {
        lemma_ray_product_shrinks(z, b);
        lemma_ray_product_shrinks(b, b);
        lemma_ray_close_product(x, z as int, m, sz, b as int, n, sb);
        if e == 1 {
            assert(n * e == n && (sb + 1) * e == sb + 1) by (nonlinear_arith)
                requires
                    e == 1,
            ;
        } else {
            lemma_ray_close_product(x, b as int, n, sb, b as int, n, sb);
            let b2 = fit_u128(b * b / RAY as int)->0;
            let h = e / 2;
            let sb2 = sb + sb + 1;
            if e % 2 == 1 {
                let z2 = fit_u128(z * b / RAY as int)->0;
                lemma_ray_pow_close(x, z2, m + n, sz + sb + 1, b2, n + n, sb2, h);
                assert((m + n) + (n + n) * h == m + n * e) by (nonlinear_arith)
                    requires
                        e == 2 * h + 1,
                ;
                assert(sz + sb + 1 + (sb2 + 1) * h == sz + (sb + 1) * e) by (nonlinear_arith)
                    requires
                        e == 2 * h + 1,
                        sb2 == sb + sb + 1,
                ;
            } else {
                lemma_ray_pow_close(x, z, m, sz, b2, n + n, sb2, h);
                assert(m + (n + n) * h == m + n * e) by (nonlinear_arith)
                    requires
                        e == 2 * h,
                ;
                assert(sz + (sb2 + 1) * h == sz + (sb + 1) * e) by (nonlinear_arith)
                    requires
                        e == 2 * h,
                        sb2 == sb + sb + 1,
                ;
            }
        }
    }
}

/// For a base at most 1.0 the floorings lose at most one unit for each factor: the true power
/// `(base / RAY)^e`, in RAY, is at most `result + e`, written without division.
pub proof fn law_ray_pow_is_close(base: u128, e: nat, result: u128)
    requires
        base <= RAY,
        ray_pow_from(RAY, base, e) == Some(result),
    ensures
        pow(base as int, e) * RAY <= (result + e) * pow(RAY as int, e),
{
    let r = RAY as int;
    lemma_pow0(r);
    lemma_pow0(base as int);
    lemma_pow1(r);
    lemma_pow1(base as int);
    lemma_ray_pow_close(base as int, RAY, 0, 0, base, 1, 0, e);
    assert(0 + 1 * e == e);
    assert((0 + 1) * e == e);
}

/// A power from any start: an even exponent is half of it on the square of the base, and an odd one takes
/// the base into the start first. `square` and `taken` are the floored products, which must fit.
pub proof fn law_ray_pow_by_squares(
    start: u128,
    base: u128,
    square: u128,
    taken: u128,
    half: nat,
)
    requires
        square * RAY <= base * base < (square + 1) * RAY,
        taken * RAY <= start * base < (taken + 1) * RAY,
    ensures
        ray_pow_from(start, base, 0) == Some(start),
        ray_pow_from(start, base, 1) == Some(taken),
        half > 0 ==> ray_pow_from(start, base, 2 * half) == ray_pow_from(start, square, half),
        half > 0 ==> ray_pow_from(start, base, 2 * half + 1) == ray_pow_from(taken, square, half),
{
    lemma_floor_le(base * base, RAY as int, square as int);
    lemma_floor_ge(base * base, RAY as int, square as int);
    lemma_floor_le(start * base, RAY as int, taken as int);
    lemma_floor_ge(start * base, RAY as int, taken as int);
    assert((2 * half) / 2 == half && (2 * half) % 2 == 0);
    assert((2 * half + 1) / 2 == half && (2 * half + 1) % 2 == 1);
}

/// Where the square of the base does not fit, no power from the square on does; nor does an odd one where
/// the product of the start and the base does not.
pub proof fn law_ray_pow_fails_with_its_products(start: u128, base: u128, e: nat)
    ensures
        e >= 2 && base * base >= (u128::MAX + 1) * RAY ==> ray_pow_from(start, base, e) is None,
        e % 2 == 1 && start * base >= (u128::MAX + 1) * RAY ==> ray_pow_from(start, base, e) is None,
{
    if base * base >= (u128::MAX + 1) * RAY {
        lemma_floor_ge(base * base, RAY as int, u128::MAX + 1);
    }
    if start * base >= (u128::MAX + 1) * RAY {
        lemma_floor_ge(start * base, RAY as int, u128::MAX + 1);
    }
}

} // verus!
