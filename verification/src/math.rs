//! Fixed-point money math.
//!
//! Scales:
//! - **WAD** = 1e18: token quantities
//! - **RAY** = 1e27: rates, prices, the interest accumulator
//!
//! A product of two WAD- or RAY-scaled values exceeds `u128`, so every multiply-divide goes through
//! an exact 256-bit intermediate and never wraps. A result that does not fit `u128` is `None`.
//!
//! Rounding is against the borrower: results that increase debt round up (`*_up`), collateral
//! credit and results that decrease debt round down.

pub mod arith;
pub mod interest;
pub mod laws;
pub mod oracle_scale;
pub mod rate_bucket;
pub mod reactor_amounts;
pub mod reactor_laws;
pub mod reactor_pool;
pub mod recovery;
pub mod redemption;
pub mod redistribution;
pub mod u256;
pub mod wide;

use crate::math::arith::{ceil_div, fit_u128, lemma_floor, lemma_floor_exact, lemma_u128_product};
use crate::math::laws::{law_ceiling_is_least, law_floor_is_greatest};
use crate::math::u256::{from_u128, quotient, remainder, times, to_u128};
use vstd::prelude::*;

verus! {

/// 1e18
pub const WAD: u128 = 1_000_000_000_000_000_000;

/// 1e27
pub const RAY: u128 = 1_000_000_000_000_000_000_000_000_000;

pub const HALF_WAD: u128 = WAD / 2;

pub const HALF_RAY: u128 = RAY / 2;

/// Basis-point denominator.
pub const BPS_DENOMINATOR: u128 = 10_000;

// Core: exact `a * b / denom` over a 256-bit intermediate.

/// Quotient and remainder of `n / denom`, where there is a quotient and it fits `u128`.
pub open spec fn exact_div(n: int, denom: u128) -> Option<(u128, u128)> {
    if denom == 0 || n / denom as int > u128::MAX {
        None
    } else {
        Some(((n / denom as int) as u128, (n % denom as int) as u128))
    }
}

/// `floor(a * b / denom)`, where `denom` is non-zero and the result fits `u128`.
pub open spec fn floor_mul_div(a: u128, b: u128, denom: u128) -> Option<u128> {
    if denom == 0 {
        None
    } else {
        fit_u128(a * b / denom as int)
    }
}

/// `ceil(a * b / denom)`, where `denom` is non-zero and the result fits `u128`.
pub open spec fn ceil_mul_div(a: u128, b: u128, denom: u128) -> Option<u128> {
    if denom == 0 {
        None
    } else {
        fit_u128(ceil_div(a * b, denom as int))
    }
}

/// Exact `floor(a * b / denom)` and whether the remainder is non-zero, computed over a 256-bit
/// intermediate. `None` exactly when `denom == 0` or the quotient exceeds `u128::MAX`.
pub fn wide_mul_div(a: u128, b: u128, denom: u128) -> (r: Option<(u128, bool)>)
    ensures
        r == (match exact_div(a * b, denom) {
            Some((q, rem)) => Some((q, rem != 0)),
            None => None,
        }),
{
    if denom == 0 {
        return None;
    }
    proof {
        lemma_u128_product(a, b);
        lemma_floor(a * b, denom as int);
    }
    let prod = times(from_u128(a), from_u128(b));
    let d = from_u128(denom);
    match to_u128(quotient(prod, d)) {
        Some(q) => Some((q, !remainder(prod, d).is_zero())),
        None => None,
    }
}

/// `floor(a * b / denom)`, computed exactly in 256 bits. `None` exactly when `denom == 0` or the
/// quotient exceeds `u128::MAX`.
#[inline]
pub fn mul_div_floor(a: u128, b: u128, denom: u128) -> (r: Option<u128>)
    ensures
        r == floor_mul_div(a, b, denom),
{
    match wide_mul_div(a, b, denom) {
        Some((q, _)) => Some(q),
        None => None,
    }
}

/// `ceil(a * b / denom)`. `None` exactly when `denom == 0` or the ceiling exceeds `u128::MAX`.
#[inline]
pub fn mul_div_ceil(a: u128, b: u128, denom: u128) -> (r: Option<u128>)
    ensures
        r == ceil_mul_div(a, b, denom),
{
    proof {
        if denom != 0 {
            lemma_u128_product(a, b);
            lemma_floor(a * b, denom as int);
        }
    }
    match wide_mul_div(a, b, denom) {
        Some((q, has_rem)) => if has_rem {
            q.checked_add(1)
        } else {
            Some(q)
        },
        None => None,
    }
}

// WAD (1e18) and RAY (1e27) fixed-point multiply and divide.

/// `floor(a * b / WAD)`.
#[inline]
pub fn wad_mul(a: u128, b: u128) -> (r: Option<u128>)
    ensures
        r == fit_u128(a * b / WAD as int),
        r matches Some(q) ==> q * WAD <= a * b < (q + 1) * WAD,
        r is None <==> a * b >= (u128::MAX + 1) * WAD,
{
    proof {
        law_floor_is_greatest(a, b, WAD);
    }
    mul_div_floor(a, b, WAD)
}

/// `ceil(a * b / WAD)`, for a result that increases debt.
#[inline]
pub fn wad_mul_up(a: u128, b: u128) -> (r: Option<u128>)
    ensures
        r == fit_u128(ceil_div(a * b, WAD as int)),
        r matches Some(c) ==> (c - 1) * WAD < a * b <= c * WAD,
        r is None <==> a * b > u128::MAX * WAD,
{
    proof {
        law_ceiling_is_least(a, b, WAD);
    }
    mul_div_ceil(a, b, WAD)
}

/// `floor(a * WAD / b)`. `None` as well when `b == 0`.
#[inline]
pub fn wad_div(a: u128, b: u128) -> (r: Option<u128>)
    ensures
        r == floor_mul_div(a, WAD, b),
        r matches Some(q) ==> b > 0 && q * b <= a * WAD < (q + 1) * b,
        r is None <==> b == 0 || a * WAD >= (u128::MAX + 1) * b,
{
    proof {
        law_floor_is_greatest(a, WAD, b);
    }
    mul_div_floor(a, WAD, b)
}

/// `floor(a * b / RAY)`.
#[inline]
pub fn ray_mul(a: u128, b: u128) -> (r: Option<u128>)
    ensures
        r == fit_u128(a * b / RAY as int),
        r matches Some(q) ==> q * RAY <= a * b < (q + 1) * RAY,
        r is None <==> a * b >= (u128::MAX + 1) * RAY,
{
    proof {
        law_floor_is_greatest(a, b, RAY);
    }
    mul_div_floor(a, b, RAY)
}

/// `ceil(a * b / RAY)`, for a result that increases debt.
#[inline]
pub fn ray_mul_up(a: u128, b: u128) -> (r: Option<u128>)
    ensures
        r == fit_u128(ceil_div(a * b, RAY as int)),
        r matches Some(c) ==> (c - 1) * RAY < a * b <= c * RAY,
        r is None <==> a * b > u128::MAX * RAY,
{
    proof {
        law_ceiling_is_least(a, b, RAY);
    }
    mul_div_ceil(a, b, RAY)
}

/// `floor(a * RAY / b)`. `None` as well when `b == 0`.
#[inline]
pub fn ray_div(a: u128, b: u128) -> (r: Option<u128>)
    ensures
        r == floor_mul_div(a, RAY, b),
        r matches Some(q) ==> b > 0 && q * b <= a * RAY < (q + 1) * b,
        r is None <==> b == 0 || a * RAY >= (u128::MAX + 1) * b,
{
    proof {
        law_floor_is_greatest(a, RAY, b);
    }
    mul_div_floor(a, RAY, b)
}

/// Debt of a position in present value: `art * rate / RAY`, rounded up against the borrower.
#[inline]
pub fn present_debt(art: u128, rate: u128) -> (r: Option<u128>)
    ensures
        r == fit_u128(ceil_div(art * rate, RAY as int)),
        r matches Some(c) ==> (c - 1) * RAY < art * rate <= c * RAY,
        r is None <==> art * rate > u128::MAX * RAY,
{
    proof {
        law_ceiling_is_least(art, rate, RAY);
    }
    ray_mul_up(art, rate)
}

/// `z * b^e` in RAY fixed point by repeated squaring, every product floored: the odd powers of the
/// binary expansion of `e` go into `z` from the lowest bit up, and `b` is squared between two bits.
/// `None` where one of these products exceeds `u128`.
pub open spec fn ray_pow_from(z: u128, b: u128, e: nat) -> Option<u128>
    decreases e,
{
    if e == 0 {
        Some(z)
    } else {
        let taken = if e % 2 == 1 {
            fit_u128(z * b / RAY as int)
        } else {
            Some(z)
        };
        if e == 1 {
            taken
        } else {
            match (taken, fit_u128(b * b / RAY as int)) {
                (Some(z2), Some(b2)) => ray_pow_from(z2, b2, e / 2),
                _ => None,
            }
        }
    }
}

/// `base^exp` in RAY fixed point, via binary exponentiation. `base` and the result are RAY-scaled;
/// `base^0 == RAY`. Each squaring and each multiply floors. `None` exactly when one of them exceeds
/// `u128`.
pub fn ray_pow(base: u128, exp: u64) -> (r: Option<u128>)
    ensures
        r == ray_pow_from(RAY, base, exp as nat),
{
    let mut e: u64 = exp;
    let mut z: u128 = if e % 2 == 1 {
        base
    } else {
        RAY
    };
    let mut b: u128 = base;
    proof {
        lemma_floor_exact(base as int, RAY as int);
    }
    while e > 1
        invariant
            ray_pow_from(RAY, base, exp as nat) == (if e <= 1 {
                Some(z)
            } else {
                match fit_u128(b * b / RAY as int) {
                    Some(b2) => ray_pow_from(z, b2, (e / 2) as nat),
                    None => None,
                }
            }),
        decreases e,
    {
        match ray_mul(b, b) {
            Some(b2) => {
                b = b2;
            },
            None => {
                return None;
            },
        }
        e = e / 2;
        if e % 2 == 1 {
            match ray_mul(z, b) {
                Some(z2) => {
                    z = z2;
                },
                None => {
                    return None;
                },
            }
        }
    }
    Some(z)
}

/// `floor(amount * bps / 10_000)`, where it fits `u64`.
pub open spec fn bps_share(amount: u64, bps: u16) -> Option<u64> {
    let share = amount * bps / BPS_DENOMINATOR as int;
    if share <= u64::MAX {
        Some(share as u64)
    } else {
        None
    }
}

/// `floor(amount * bps / 10_000)`. `None` exactly when the result exceeds `u64`.
#[inline]
pub fn apply_bps(amount: u64, bps: u16) -> (r: Option<u64>)
    ensures
        r == bps_share(amount, bps),
{
    proof {
        assert(0 <= amount * bps <= 0xffff_ffff_ffff_ffff * 0xffff) by (nonlinear_arith)
            requires
                0 <= amount <= 0xffff_ffff_ffff_ffff,
                0 <= bps <= 0xffff,
        ;
    }
    let scaled: u128 = amount as u128 * bps as u128 / BPS_DENOMINATOR;
    if scaled <= u64::MAX as u128 {
        Some(scaled as u64)
    } else {
        None
    }
}

} // verus!
