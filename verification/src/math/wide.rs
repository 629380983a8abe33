//! 256-bit products and quotients over native 128-bit words.
//!
//! The same `a * b / denom` that [`crate::math::u256`] offers, written out over 64-bit halves and
//! a restoring binary long division. The contracts of both speak of the same quotient
//! ([`exact_div`]), so both answer alike.

use crate::math::exact_div;
use crate::math::u256::two_128;
use vstd::arithmetic::div_mod::{lemma_div_denominator, lemma_fundamental_div_mod, lemma_fundamental_div_mod_converse, lemma_mod_multiples_vanish};
use vstd::arithmetic::power2::{lemma_pow2_adds, lemma_pow2_pos, lemma_pow2_unfold, pow2};
use vstd::prelude::*;

verus! {

/// The integer `hi * 2^128 + lo`.
pub open spec fn join(hi: u128, lo: u128) -> int {
    hi * two_128() + lo
}

proof fn lemma_halves(x: u128)
    ensures
        x == (x >> 64) * 0x1_0000_0000_0000_0000 + (x & 0xffff_ffff_ffff_ffff),
        (x >> 64) <= 0xffff_ffff_ffff_ffff,
        (x & 0xffff_ffff_ffff_ffff) <= 0xffff_ffff_ffff_ffff,
{
    assert(x == (x >> 64) * 0x1_0000_0000_0000_0000 + (x & 0xffff_ffff_ffff_ffff)) by (bit_vector);
    assert((x >> 64) <= 0xffff_ffff_ffff_ffff) by (bit_vector);
    assert((x & 0xffff_ffff_ffff_ffff) <= 0xffff_ffff_ffff_ffff) by (bit_vector);
}

proof fn lemma_stack_halves(low: u128, high: u128)
    requires
        low <= 0xffff_ffff_ffff_ffff,
    ensures
        (low | (high << 64)) == low + (high & 0xffff_ffff_ffff_ffff) * 0x1_0000_0000_0000_0000,
{
    assert((low | (high << 64)) == low + (high & 0xffff_ffff_ffff_ffff) * 0x1_0000_0000_0000_0000)
        by (bit_vector)
        requires
            low <= 0xffff_ffff_ffff_ffff,
    ;
}

proof fn lemma_half_product(x: u128, y: u128)
    requires
        x <= 0xffff_ffff_ffff_ffff,
        y <= 0xffff_ffff_ffff_ffff,
    ensures
        0 <= x * y <= 0xffff_ffff_ffff_ffff * 0xffff_ffff_ffff_ffff,
{
    assert(0 <= x * y <= 0xffff_ffff_ffff_ffff * 0xffff_ffff_ffff_ffff) by (nonlinear_arith)
        requires
            x <= 0xffff_ffff_ffff_ffff,
            y <= 0xffff_ffff_ffff_ffff,
    ;
}

/// Full 256-bit product of two `u128`s as `(hi, lo)`, with `a * b == hi * 2^128 + lo`; schoolbook
/// over 64-bit halves.
pub fn wide_mul(a: u128, b: u128) -> (r: (u128, u128))
    ensures
        join(r.0, r.1) == a * b,
{
    let m: u128 = 0xffff_ffff_ffff_ffff;
    let a0: u128 = a & m;
    let a1: u128 = a >> 64;
    let b0: u128 = b & m;
    let b1: u128 = b >> 64;
    proof {
        lemma_halves(a);
        lemma_halves(b);
        lemma_half_product(a0, b0);
        lemma_half_product(a1, b0);
        lemma_half_product(a0, b1);
        lemma_half_product(a1, b1);
    }
    let lo_lo: u128 = a0 * b0;
    let mid1: u128 = a1 * b0;
    let mid2: u128 = a0 * b1;
    let hi_hi: u128 = a1 * b1;
    proof {
        lemma_halves(lo_lo);
        lemma_halves(mid1);
        lemma_halves(mid2);
    }
    let cross: u128 = (lo_lo >> 64) + (mid1 & m) + (mid2 & m);
    let lo: u128 = (lo_lo & m) | (cross << 64);
    proof {
        lemma_halves(cross);
        lemma_stack_halves(lo_lo & m, cross);
        assert(a * b == hi_hi * 0x1_0000_0000_0000_0000_0000_0000_0000_0000 + (mid1 + mid2)
            * 0x1_0000_0000_0000_0000 + lo_lo) by (nonlinear_arith)
            requires
                a == a1 * 0x1_0000_0000_0000_0000 + a0,
                b == b1 * 0x1_0000_0000_0000_0000 + b0,
                lo_lo == a0 * b0,
                mid1 == a1 * b0,
                mid2 == a0 * b1,
                hi_hi == a1 * b1,
        ;
        let hi: int = hi_hi + (mid1 >> 64) + (mid2 >> 64) + (cross >> 64);
        assert(hi * two_128() + lo == a * b);
        assert(a * b < two_128() * two_128()) by (nonlinear_arith)
            requires
                0 <= a < two_128(),
                0 <= b < two_128(),
        ;
        assert(hi < two_128());
    }
    let hi: u128 = hi_hi + (mid1 >> 64) + (mid2 >> 64) + (cross >> 64);
    (hi, lo)
}

/// The bit of weight `2^i` in `x`.
proof fn lemma_bit(x: u128, i: u32)
    requires
        i < 128,
    ensures
        ((x >> i) & 1) == (x as int / pow2(i as nat) as int) % 2,
{
    vstd::bits::lemma_u128_shr_is_div(x, i as u128);
    let y: u128 = x >> (i as u128);
    assert(x >> i == x >> (i as u128)) by (bit_vector);
    assert(y & 1 == y % 2) by (bit_vector);
}

/// Dropping one bit fewer: the shifted integer doubles and takes in the next bit.
proof fn lemma_next_bit(hi: u128, lo: u128, i: u32)
    requires
        i < 256,
    ensures
        join(hi, lo) / pow2(i as nat) as int == 2 * (join(hi, lo) / pow2((i + 1) as nat) as int) + (
        if i >= 128 {
            (hi >> ((i - 128) as u32)) & 1
        } else {
            (lo >> i) & 1
        }),
        i >= 128 ==> join(hi, lo) / pow2(i as nat) as int <= hi,
{
    let n = join(hi, lo);
    let p = pow2(i as nat) as int;
    lemma_pow2_pos(i as nat);
    lemma_pow2_unfold((i + 1) as nat);
    assert(pow2((i + 1) as nat) == 2 * p);
    lemma_div_denominator(n, p, 2);
    assert(p * 2 == 2 * p);
    let t = n / p;
    assert(n / (2 * p) == t / 2);
    assert(t == 2 * (t / 2) + t % 2);
    vstd::arithmetic::power2::lemma2_to64();
    lemma_pow2_adds(64, 64);
    assert(pow2(128) == two_128());
    if i >= 128 {
        let k = (i - 128) as nat;
        lemma_pow2_adds(128, k);
        lemma_pow2_pos(k);
        lemma_div_denominator(n, two_128(), pow2(k) as int);
        lemma_fundamental_div_mod_converse(n, two_128(), hi as int, lo as int);
        assert(t == hi as int / pow2(k) as int);
        lemma_bit(hi, (i - 128) as u32);
        vstd::arithmetic::div_mod::lemma_div_nonincreasing(hi as int, pow2(k) as int);
    } else {
        let k = (128 - i) as nat;
        lemma_pow2_adds(i as nat, k);
        lemma_pow2_unfold(k);
        let h = pow2((k - 1) as nat) as int;
        let ql = lo as int / p;
        let rl = lo as int % p;
        lemma_fundamental_div_mod(lo as int, p);
        vstd::arithmetic::div_mod::lemma_mod_bound(lo as int, p);
        assert(n == (hi * (2 * h) + ql) * p + rl) by (nonlinear_arith)
            requires
                n == hi * two_128() + lo,
                two_128() == p * (2 * h),
                lo == p * ql + rl,
        ;
        lemma_fundamental_div_mod_converse(n, p, hi * (2 * h) + ql, rl);
        assert(t == hi * (2 * h) + ql);
        assert(hi * (2 * h) == 2 * (hi * h)) by (nonlinear_arith);
        lemma_mod_multiples_vanish(hi * h, ql, 2);
        lemma_bit(lo, i);
    }
}

proof fn lemma_double(x: u128, bit: u128)
    requires
        bit <= 1,
    ensures
        (x >> 127) * two_128() + ((x << 1) | bit) == 2 * x + bit,
        (x >> 127) <= 1,
        x < 0x8000_0000_0000_0000_0000_0000_0000_0000 ==> (x << 1) == 2 * x,
        x < 0x8000_0000_0000_0000_0000_0000_0000_0000 ==> ((x << 1) | 1) == 2 * x + 1,
{
    assert((x >> 127) * 0x1_0000_0000_0000_0000_0000_0000_0000_0000 + ((x << 1) | bit) == 2 * x
        + bit) by (bit_vector)
        requires
            bit <= 1,
    ;
    assert((x >> 127) <= 1) by (bit_vector);
    assert(x < 0x8000_0000_0000_0000_0000_0000_0000_0000 ==> (x << 1) == 2 * x) by (bit_vector);
    assert(x < 0x8000_0000_0000_0000_0000_0000_0000_0000 ==> ((x << 1) | 1) == 2 * x + 1)
        by (bit_vector);
}

/// `(hi * 2^128 + lo) / denom` and its remainder; `None` exactly when the quotient exceeds
/// `u128::MAX`, that is when `hi >= denom`. Restoring binary long division: one flat loop over
/// the 256 bits, with the bit that the shift of the remainder drops carried beside it.
pub fn div_256_by_128(hi: u128, lo: u128, denom: u128) -> (r: Option<(u128, u128)>)
    requires
        denom != 0,
    ensures
        r == exact_div(join(hi, lo), denom),
        r is None <==> hi >= denom,
{
    let ghost n = join(hi, lo);
    let ghost d = denom as int;
    proof {
        lemma_fundamental_div_mod(n, d);
        vstd::arithmetic::div_mod::lemma_mod_bound(n, d);
        let q = n / d;
        if hi >= denom {
            assert(q >= two_128()) by (nonlinear_arith)
                requires
                    n == d * q + n % d,
                    n % d < d,
                    n >= d * two_128(),
                    d > 0,
            {
                assert(d * (q + 1) > d * two_128());
            }
        } else {
            assert(q < two_128()) by (nonlinear_arith)
                requires
                    n == d * q + n % d,
                    n % d >= 0,
                    n < d * two_128(),
                    d > 0,
            ;
        }
    }
    if hi >= denom {
        return None;
    }
    if hi == 0 {
        return Some((lo / denom, lo % denom));
    }
    let mut rem: u128 = 0;
    let mut quo: u128 = 0;
    let mut i: u32 = 256;
    proof {
        vstd::arithmetic::power2::lemma2_to64();
        lemma_pow2_adds(64, 64);
        lemma_pow2_adds(128, 128);
        assert(n < pow2(256)) by {
            assert(pow2(256) == two_128() * two_128());
        }
        vstd::arithmetic::div_mod::lemma_basic_div(n, pow2(256) as int);
    }
    while i > 0
        invariant
            i <= 256,
            hi < denom,
            denom == d,
            n == join(hi, lo),
            rem < denom,
            quo * d + rem == n / pow2(i as nat) as int,
            i > 0 ==> n / pow2(i as nat) as int * 2 < d * two_128(),
        decreases i,
    {
        i = i - 1;
        let bit: u128 = if i >= 128 {
            (hi >> (i - 128)) & 1
        } else {
            (lo >> i) & 1
        };
        proof {
            lemma_next_bit(hi, lo, i);
            if i >= 128 {
                lemma_bit(hi, (i - 128) as u32);
            } else {
                lemma_bit(lo, i);
            }
            assert(bit <= 1);
            lemma_double(rem, bit);
            lemma_double(quo, 0);
            assert(quo < 0x8000_0000_0000_0000_0000_0000_0000_0000) by (nonlinear_arith)
                requires
                    (quo * d + rem) * 2 < d * two_128(),
                    rem >= 0,
                    d > 0,
            ;
        }
        let ghost quo0 = quo;
        let ghost rem0 = rem;
        let carry: u128 = rem >> 127;
        rem = (rem << 1) | bit;
        quo = quo << 1;
        if carry == 1 || rem >= denom {
            rem = rem.wrapping_sub(denom);
            quo = quo | 1;
        }
        proof {
            let t = n / pow2(i as nat) as int;
            assert(2 * (quo0 * d + rem0) + bit == t);
            assert(quo * d + rem == t) by (nonlinear_arith)
                requires
                    2 * (quo0 * d + rem0) + bit == t,
                    (quo == 2 * quo0 && rem == 2 * rem0 + bit) || (quo == 2 * quo0 + 1 && rem == 2
                        * rem0 + bit - d),
            ;
            if i > 0 {
                assert(t * 2 < d * two_128()) by {
                    lemma_pow2_unfold(i as nat);
                    lemma_pow2_pos((i - 1) as nat);
                    let h = pow2((i - 1) as nat) as int;
                    lemma_fundamental_div_mod(n, 2 * h);
                    vstd::arithmetic::div_mod::lemma_mod_bound(n, 2 * h);
                    assert(t * 2 <= n) by (nonlinear_arith)
                        requires
                            n == (2 * h) * t + n % (2 * h),
                            n % (2 * h) >= 0,
                            h >= 1,
                            t >= 0,
                    ;
                    assert(n < d * two_128());
                }
            }
        }
    }
    proof {
        assert(pow2(0) == 1) by {
            vstd::arithmetic::power2::lemma2_to64();
        }
        assert(n / 1 == n);
        lemma_fundamental_div_mod_converse(n, d, quo as int, rem as int);
    }
    Some((quo, rem))
}

/// `(a * b + add) / denom` as `(quotient, remainder)`, exact over a 256-bit intermediate. `None`
/// exactly when `denom == 0` or the quotient exceeds `u128::MAX`.
pub fn wide_muladd_div(a: u128, b: u128, add: u128, denom: u128) -> (r: Option<(u128, u128)>)
    ensures
        r == exact_div(a * b + add, denom),
{
    if denom == 0 {
        return None;
    }
    let (hi0, lo0) = wide_mul(a, b);
    let lo: u128 = lo0.wrapping_add(add);
    let carry: bool = lo < lo0;
    let mut hi: u128 = hi0;
    proof {
        assert(a * b <= (two_128() - 1) * (two_128() - 1)) by (nonlinear_arith)
            requires
                0 <= a <= two_128() - 1,
                0 <= b <= two_128() - 1,
        ;
    }
    if carry {
        hi = hi + 1;
    }
    assert(join(hi, lo) == a * b + add);
    div_256_by_128(hi, lo, denom)
}

} // verus!
