//! Facts about integer products and quotients that the proofs share.

use vstd::arithmetic::div_mod::{lemma_div_is_ordered, lemma_div_pos_is_pos, lemma_fundamental_div_mod, lemma_mod_bound};
use vstd::prelude::*;

verus! {

/// The integer as a `u128`, where it fits.
pub open spec fn fit_u128(v: int) -> Option<u128> {
    if v <= u128::MAX {
        Some(v as u128)
    } else {
        None
    }
}

/// The smallest integer at or above `n / d`.
pub open spec fn ceil_div(n: int, d: int) -> int {
    if n % d == 0 {
        n / d
    } else {
        n / d + 1
    }
}

/// The floor of `n / d` is the `q` with `q * d <= n < (q + 1) * d`.
pub proof fn lemma_floor(n: int, d: int)
    requires
        d > 0,
    ensures
        n == d * (n / d) + n % d,
        0 <= n % d < d,
        (n / d) * d <= n < (n / d + 1) * d,
        n >= 0 ==> n / d >= 0,
        n >= 0 ==> n / d <= n,
{
    lemma_fundamental_div_mod(n, d);
    lemma_mod_bound(n, d);
    let q = n / d;
    assert(q * d == d * q) by (nonlinear_arith);
    assert((q + 1) * d == d * q + d) by (nonlinear_arith);
    if n >= 0 {
        lemma_div_pos_is_pos(n, d);
        vstd::arithmetic::div_mod::lemma_div_nonincreasing(n, d);
    }
}

/// A lower bound on a floor: `k * d <= n` gives `k <= n / d`.
pub proof fn lemma_floor_ge(n: int, d: int, k: int)
    requires
        d > 0,
        k * d <= n,
    ensures
        k <= n / d,
{
    lemma_floor(n, d);
    let q = n / d;
    assert(k < q + 1) by (nonlinear_arith)
        requires
            k * d < (q + 1) * d,
            d > 0,
    ;
}

/// An upper bound on a floor: `n < (k + 1) * d` gives `n / d <= k`.
pub proof fn lemma_floor_le(n: int, d: int, k: int)
    requires
        d > 0,
        n < (k + 1) * d,
    ensures
        n / d <= k,
{
    lemma_floor(n, d);
    let q = n / d;
    assert(q < k + 1) by (nonlinear_arith)
        requires
            q * d < (k + 1) * d,
            d > 0,
    ;
}

/// The floor of an exact multiple.
pub proof fn lemma_floor_exact(k: int, d: int)
    requires
        d > 0,
    ensures
        (k * d) / d == k,
        (k * d) % d == 0,
        (d * k) / d == k,
        (d * k) % d == 0,
{
    assert(k * d == d * k) by (nonlinear_arith);
    vstd::arithmetic::div_mod::lemma_div_multiples_vanish(k, d);
    vstd::arithmetic::div_mod::lemma_mod_multiples_basic(k, d);
}

/// Dividing keeps the order of the numerators.
pub proof fn lemma_floor_mono(a: int, b: int, d: int)
    requires
        d > 0,
        a <= b,
    ensures
        a / d <= b / d,
{
    lemma_div_is_ordered(a, b, d);
}

/// Multiplying by a non-negative integer keeps the order.
pub proof fn lemma_mul_mono(a: int, b: int, c: int)
    requires
        a <= b,
        c >= 0,
    ensures
        a * c <= b * c,
        c * a <= c * b,
{
    assert(a * c <= b * c && c * a <= c * b) by (nonlinear_arith)
        requires
            a <= b,
            c >= 0,
    ;
}

/// The product of two values at most `u128::MAX` stays below `2^256`.
pub proof fn lemma_u128_product(a: u128, b: u128)
    ensures
        0 <= a * b < crate::math::u256::two_256(),
{
    assert(0 <= a * b <= 0xffff_ffff_ffff_ffff_ffff_ffff_ffff_ffff
        * 0xffff_ffff_ffff_ffff_ffff_ffff_ffff_ffff) by (nonlinear_arith)
        requires
            0 <= a <= 0xffff_ffff_ffff_ffff_ffff_ffff_ffff_ffff,
            0 <= b <= 0xffff_ffff_ffff_ffff_ffff_ffff_ffff_ffff,
    ;
}

} // verus!
