//! Price scaling: feed prices into RAY-scaled units, and the Q64.64 square-root price of a
//! concentrated-liquidity pool into a RAY-scaled price. All intermediates are 256 bits wide.
//!
//! - A `*_ray` price is RAY-scaled quote per whole base token.
//! - A spot price is RAY-scaled stablecoin-native per native collateral unit:
//!   `usd_ray * 10^fusd_decimals / 10^coll_decimals`.

use crate::math::arith::{fit_u128, lemma_floor, lemma_floor_ge, lemma_floor_le, lemma_floor_mono, lemma_mul_mono, lemma_u128_product};
use crate::math::u256::{checked_times, from_u128, power, quotient, shift_right, to_u128, two_128, two_256, U256};
use crate::math::RAY;
use vstd::arithmetic::power::{lemma_pow1, lemma_pow_adds, lemma_pow_increases, lemma_pow_positive, pow};
use vstd::arithmetic::power2::{lemma2_to64, pow2};
use vstd::prelude::*;

verus! {

/// `10^e`.
pub open spec fn ten_to(e: int) -> int {
    pow(10, e as nat)
}

/// The largest exponent of ten that is scaled by.
pub const MAX_EXPONENT: u32 = 60;

proof fn lemma_ten_to(e: int)
    requires
        0 <= e <= 60,
    ensures
        1 <= ten_to(e) < two_256(),
{
    lemma_pow1(10);
    lemma_pow_adds(10, 1, 1);
    assert(pow(10, 2) == 100);
    lemma_pow_adds(10, 2, 2);
    assert(pow(10, 4) == 10_000);
    lemma_pow_adds(10, 4, 4);
    assert(pow(10, 8) == 100_000_000);
    lemma_pow_adds(10, 8, 8);
    assert(pow(10, 16) == 10_000_000_000_000_000);
    lemma_pow_adds(10, 16, 16);
    assert(pow(10, 32) == 100_000_000_000_000_000_000_000_000_000_000);
    lemma_pow_adds(10, 16, 8);
    assert(pow(10, 24) == 1_000_000_000_000_000_000_000_000);
    lemma_pow_adds(10, 24, 4);
    assert(pow(10, 28) == 10_000_000_000_000_000_000_000_000_000);
    lemma_pow_adds(10, 32, 28);
    assert(pow(10, 60)
        == 1_000_000_000_000_000_000_000_000_000_000_000_000_000_000_000_000_000_000_000_000);
    lemma_pow_increases(10, e as nat, 60);
    lemma_pow_positive(10, e as nat);
}

/// `10^e` over 256 bits; `None` exactly when `e` exceeds 60.
fn ten_pow(e: u32) -> (r: Option<U256>)
    ensures
        r is Some <==> e <= MAX_EXPONENT,
        r matches Some(v) ==> v@ == ten_to(e as int),
        e <= MAX_EXPONENT ==> 1 <= ten_to(e as int) < two_256(),
{
    if e > MAX_EXPONENT {
        return None;
    }
    proof {
        lemma_ten_to(e as int);
    }
    Some(power(from_u128(10), e))
}

/// `price * 10^expo` in RAY, floored, where the exponent is within 60 and the result fits `u128`.
pub open spec fn price_in_ray(price: u128, expo: i32) -> Option<u128> {
    if expo < -60 || expo > 60 {
        None
    } else if expo < 0 {
        fit_u128(price * RAY / ten_to(-expo))
    } else {
        fit_u128(price * RAY * ten_to(expo as int))
    }
}

/// RAY-scaled value of `price * 10^expo`. `None` exactly when the exponent exceeds 60 either way or the
/// result exceeds `u128`.
pub fn px_to_ray(price: u128, expo: i32) -> (r: Option<u128>)
    ensures
        r == price_in_ray(price, expo),
{
    proof {
        lemma_u128_product(price, RAY);
    }
    let base = match checked_times(from_u128(price), from_u128(RAY)) {
        Some(x) => x,
        None => {
            return None;
        },
    };
    let scaled = if expo < 0 {
        let e: u32 = (-(expo as i64)) as u32;
        match ten_pow(e) {
            Some(t) => quotient(base, t),
            None => {
                return None;
            },
        }
    } else {
        match ten_pow(expo as u32) {
            Some(t) => match checked_times(base, t) {
                Some(x) => x,
                None => {
                    return None;
                },
            },
            None => {
                return None;
            },
        }
    };
    to_u128(scaled)
}

/// `usd_ray * 10^fusd_decimals / 10^coll_decimals`, floored, where the decimals are within 60, the
/// numerator fits 256 bits, and the result fits `u128`.
pub open spec fn spot_of(usd_ray: u128, coll_decimals: u8, fusd_decimals: u8) -> Option<u128> {
    let num = usd_ray * ten_to(fusd_decimals as int);
    if fusd_decimals > 60 || coll_decimals > 60 || num >= two_256() {
        None
    } else {
        fit_u128(num / ten_to(coll_decimals as int))
    }
}

/// Spot price from a RAY-scaled USD price per whole collateral token. `None` exactly when a number of
/// decimals exceeds 60, the scaled price exceeds 256 bits, or the result exceeds `u128`.
pub fn usd_ray_to_spot(usd_ray: u128, coll_decimals: u8, fusd_decimals: u8) -> (r: Option<u128>)
    ensures
        r == spot_of(usd_ray, coll_decimals, fusd_decimals),
{
    let num = match ten_pow(fusd_decimals as u32) {
        Some(t) => match checked_times(from_u128(usd_ray), t) {
            Some(x) => x,
            None => {
                return None;
            },
        },
        None => {
            return None;
        },
    };
    match ten_pow(coll_decimals as u32) {
        Some(t) => to_u128(quotient(num, t)),
        None => None,
    }
}

/// The native price `sqrt_price^2 / 2^128` in RAY, floored after each half of the division:
/// `((sqrt_price^2 / 2^64) * RAY) / 2^64`.
pub open spec fn raw_price_in_ray(sqrt_price: u128) -> int {
    (sqrt_price * sqrt_price / 0x1_0000_0000_0000_0000) * RAY / 0x1_0000_0000_0000_0000
}

/// The RAY price of a Q64.64 square-root price: zero is no price, and every intermediate must fit 256
/// bits.
pub open spec fn decoded_price(sqrt_price: u128, base_decimals: u8, quote_decimals: u8) -> Option<
    u128,
> {
    let num = raw_price_in_ray(sqrt_price) * ten_to(base_decimals as int);
    if sqrt_price == 0 || base_decimals > 60 || quote_decimals > 60 {
        None
    } else if (sqrt_price * sqrt_price / 0x1_0000_0000_0000_0000) * RAY >= two_256() || num
        >= two_256() {
        None
    } else {
        fit_u128(num / ten_to(quote_decimals as int))
    }
}

/// RAY-scaled price, quote whole-tokens per base whole-token, from a Q64.64 `sqrt_price`
/// (`sqrt(quote-native / base-native)`). The division by `2^128` is split around the RAY multiply.
/// `None` exactly when `sqrt_price` is zero, a number of decimals exceeds 60, an intermediate exceeds
/// 256 bits, or the result exceeds `u128`.
pub fn sqrt_price_q64_to_ray(sqrt_price: u128, base_decimals: u8, quote_decimals: u8) -> (r: Option<
    u128,
>)
    ensures
        r == decoded_price(sqrt_price, base_decimals, quote_decimals),
{
    if sqrt_price == 0 {
        return None;
    }
    proof {
        lemma_u128_product(sqrt_price, sqrt_price);
        lemma2_to64();
        assert(pow2(64) == 0x1_0000_0000_0000_0000);
    }
    let sp = from_u128(sqrt_price);
    let sq = match checked_times(sp, sp) {
        Some(x) => x,
        None => {
            return None;
        },
    };
    let q = shift_right(sq, 64);
    let price_raw_ray = match checked_times(q, from_u128(RAY)) {
        Some(x) => shift_right(x, 64),
        None => {
            return None;
        },
    };
    let num = match ten_pow(base_decimals as u32) {
        Some(t) => match checked_times(price_raw_ray, t) {
            Some(x) => x,
            None => {
                return None;
            },
        },
        None => {
            return None;
        },
    };
    match ten_pow(quote_decimals as u32) {
        Some(t) => to_u128(quotient(num, t)),
        None => None,
    }
}

// Laws.

/// A larger price never scales to a smaller one, and scales whenever the larger one does.
pub proof fn law_px_to_ray_is_monotone(p1: u128, p2: u128, expo: i32)
    requires
        p1 <= p2,
        price_in_ray(p2, expo) is Some,
    ensures
        price_in_ray(p1, expo) is Some,
        price_in_ray(p1, expo)->0 <= price_in_ray(p2, expo)->0,
{
    lemma_mul_mono(p1 as int, p2 as int, RAY as int);
    lemma_mul_mono(0, p1 as int, RAY as int);
    if expo < 0 {
        lemma_ten_to(-expo);
        lemma_floor_mono(p1 * RAY, p2 * RAY, ten_to(-expo));
        lemma_floor(p1 * RAY, ten_to(-expo));
    } else {
        lemma_ten_to(expo as int);
        lemma_mul_mono(p1 * RAY, p2 * RAY, ten_to(expo as int));
        lemma_mul_mono(0, p1 * RAY, ten_to(expo as int));
    }
}

/// The spot price is monotone in the USD price.
pub proof fn law_usd_ray_to_spot_is_monotone(
    p1: u128,
    p2: u128,
    coll_decimals: u8,
    fusd_decimals: u8,
)
    requires
        p1 <= p2,
        spot_of(p2, coll_decimals, fusd_decimals) is Some,
    ensures
        spot_of(p1, coll_decimals, fusd_decimals) is Some,
        spot_of(p1, coll_decimals, fusd_decimals)->0 <= spot_of(
            p2,
            coll_decimals,
            fusd_decimals,
        )->0,
{
    let f = ten_to(fusd_decimals as int);
    let c = ten_to(coll_decimals as int);
    lemma_ten_to(fusd_decimals as int);
    lemma_ten_to(coll_decimals as int);
    lemma_mul_mono(p1 as int, p2 as int, f);
    lemma_mul_mono(0, p1 as int, f);
    lemma_floor_mono(p1 * f, p2 * f, c);
    lemma_floor(p1 * f, c);
}

/// The decoded price is monotone in the square-root price.
pub proof fn law_sqrt_price_is_monotone(
    s1: u128,
    s2: u128,
    base_decimals: u8,
    quote_decimals: u8,
)
    requires
        0 < s1 <= s2,
        decoded_price(s2, base_decimals, quote_decimals) is Some,
    ensures
        decoded_price(s1, base_decimals, quote_decimals) is Some,
        decoded_price(s1, base_decimals, quote_decimals)->0 <= decoded_price(
            s2,
            base_decimals,
            quote_decimals,
        )->0,
{
    let w: int = 0x1_0000_0000_0000_0000;
    assert(0 <= s1 * s1 <= s2 * s2) by (nonlinear_arith)
        requires
            0 <= s1 <= s2,
    ;
    let q1 = s1 * s1 / w;
    let q2 = s2 * s2 / w;
    assert(0 <= q1 <= q2);
    assert(0 <= q1 * RAY <= q2 * RAY);
    let r1 = raw_price_in_ray(s1);
    let r2 = raw_price_in_ray(s2);
    assert(0 <= r1 <= r2);
    let b = ten_to(base_decimals as int);
    let c = ten_to(quote_decimals as int);
    lemma_ten_to(base_decimals as int);
    lemma_ten_to(quote_decimals as int);
    lemma_mul_mono(r1, r2, b);
    lemma_mul_mono(0, r1, b);
    lemma_floor_mono(r1 * b, r2 * b, c);
    lemma_floor(r1 * b, c);
}

/// The two halves of the division lose little: the raw price lies below the true
/// `sqrt_price^2 * RAY / 2^128` by less than `RAY / 2^64 + 1`, and never above it.
pub proof fn law_raw_price_is_close(sqrt_price: u128)
    ensures
        raw_price_in_ray(sqrt_price) * two_128() <= sqrt_price * sqrt_price * RAY,
        sqrt_price * sqrt_price * RAY < (raw_price_in_ray(sqrt_price) + 1) * two_128() + RAY
            * 0x1_0000_0000_0000_0000,
{
    lemma_u128_product(sqrt_price, sqrt_price);
}

/// A scaled price is `price * RAY * 10^expo`, floored where the exponent is negative: it is the largest
/// `v` with `v * 10^-expo <= price * RAY`, and the exact product for the other exponents. It fails
/// exactly when the exponent exceeds 60 either way or that value exceeds `u128`.
pub proof fn law_px_to_ray_is_exact(price: u128, expo: i32)
    ensures
        expo < -60 || expo > 60 ==> price_in_ray(price, expo) is None,
        -60 <= expo < 0 ==> {
            let t = pow(10, (-expo) as nat);
            &&& price_in_ray(price, expo) matches Some(v) ==> v * t <= price * RAY < (v + 1) * t
            &&& price_in_ray(price, expo) is None <==> price * RAY >= two_128() * t
        },
        0 <= expo <= 60 ==> {
            let t = pow(10, expo as nat);
            &&& price_in_ray(price, expo) matches Some(v) ==> v == price * RAY * t
            &&& price_in_ray(price, expo) is None <==> price * RAY * t >= two_128()
        },
{
    lemma_u128_product(price, RAY);
    if -60 <= expo < 0 {
        lemma_ten_to(-expo);
        lemma_fitting_floor(price * RAY, ten_to(-expo));
    } else if 0 <= expo <= 60 {
        lemma_ten_to(expo as int);
        lemma_mul_mono(0, price * RAY, ten_to(expo as int));
    }
}

/// What [`fit_u128`] keeps of a floor, in products.
proof fn lemma_fitting_floor(n: int, d: int)
    requires
        n >= 0,
        d > 0,
    ensures
        fit_u128(n / d) matches Some(v) ==> v * d <= n < (v + 1) * d,
        fit_u128(n / d) is None <==> n >= two_128() * d,
{
    lemma_floor(n, d);
    if n >= two_128() * d {
        lemma_floor_ge(n, d, two_128());
    } else {
        lemma_floor_le(n, d, two_128() - 1);
    }
}

/// One decimal more in the exponent is a factor of ten in the price.
pub proof fn law_px_to_ray_shifts_by_ten(price: u128, expo: i32)
    requires
        -60 <= expo < 60,
        price_in_ray(price, (expo + 1) as i32) is Some,
    ensures
        price_in_ray(price, expo) matches Some(v) && v * 10 <= price_in_ray(
            price,
            (expo + 1) as i32,
        )->0 <= v * 10 + 9,
        expo >= 0 ==> price_in_ray(price, (expo + 1) as i32)->0 == price_in_ray(price, expo)->0 * 10,
{
    let up = (expo + 1) as i32;
    law_px_to_ray_is_exact(price, expo);
    law_px_to_ray_is_exact(price, up);
    lemma_pow1(10);
    lemma_u128_product(price, RAY);
    let n = price * RAY;
    if expo < -1 {
        let t = pow(10, (-up) as nat);
        lemma_pow_adds(10, (-up) as nat, 1);
        lemma_pow_positive(10, (-up) as nat);
        lemma_ten_shift(n, t);
        lemma_fitting_floor(n, t);
        lemma_fitting_floor(n, t * 10);
    } else if expo == -1 {
        vstd::arithmetic::power::lemma_pow0(10);
        assert(n * 1 == n);
    } else {
        let t = pow(10, expo as nat);
        lemma_pow_adds(10, expo as nat, 1);
        lemma_pow_positive(10, expo as nat);
        assert(n * (t * 10) == (n * t) * 10) by (nonlinear_arith);
        lemma_mul_mono(0, n, t);
    }
}

/// Dividing by ten times as much divides the floor by ten.
proof fn lemma_ten_shift(n: int, t: int)
    requires
        n >= 0,
        t > 0,
    ensures
        n / (t * 10) == (n / t) / 10,
        0 <= n / (t * 10) <= n / t,
{
    vstd::arithmetic::div_mod::lemma_div_denominator(n, t, 10);
    lemma_floor(n, t);
}

/// The spot price is the largest `v` with `v * 10^coll_decimals <= usd_ray * 10^fusd_decimals`; it fails
/// exactly when a number of decimals exceeds 60, the right side reaches `2^256`, or `v` exceeds `u128`.
pub proof fn law_usd_ray_to_spot_is_exact(usd_ray: u128, coll_decimals: u8, fusd_decimals: u8)
    ensures
        ({
            let num = usd_ray * pow(10, fusd_decimals as nat);
            let t = pow(10, coll_decimals as nat);
            let r = spot_of(usd_ray, coll_decimals, fusd_decimals);
            &&& r matches Some(v) ==> v * t <= num < (v + 1) * t
            &&& r is None <==> coll_decimals > 60 || fusd_decimals > 60 || num >= two_256() || num
                >= two_128() * t
        }),
{
    if coll_decimals <= 60 && fusd_decimals <= 60 {
        lemma_ten_to(coll_decimals as int);
        lemma_ten_to(fusd_decimals as int);
        let num = usd_ray * ten_to(fusd_decimals as int);
        lemma_mul_mono(0, usd_ray as int, ten_to(fusd_decimals as int));
        lemma_fitting_floor(num, ten_to(coll_decimals as int));
    }
}

/// One collateral decimal more divides the spot price by ten; a decimal more on both sides leaves it.
pub proof fn law_usd_ray_to_spot_shifts_by_ten(usd_ray: u128, coll_decimals: u8, fusd_decimals: u8)
    requires
        coll_decimals < 60,
        spot_of(usd_ray, coll_decimals, fusd_decimals) is Some,
    ensures
        spot_of(usd_ray, (coll_decimals + 1) as u8, fusd_decimals) == Some(
            (spot_of(usd_ray, coll_decimals, fusd_decimals)->0 / 10) as u128,
        ),
        fusd_decimals < 60 && usd_ray * pow(10, (fusd_decimals + 1) as nat) < two_256() ==> spot_of(
            usd_ray,
            (coll_decimals + 1) as u8,
            (fusd_decimals + 1) as u8,
        ) == spot_of(usd_ray, coll_decimals, fusd_decimals),
{
    let f = ten_to(fusd_decimals as int);
    let c = ten_to(coll_decimals as int);
    lemma_ten_to(coll_decimals as int);
    lemma_ten_to(fusd_decimals as int);
    lemma_mul_mono(0, usd_ray as int, f);
    lemma_pow1(10);
    lemma_pow_adds(10, coll_decimals as nat, 1);
    assert(ten_to(coll_decimals + 1) == c * 10);
    lemma_ten_shift(usd_ray * f, c);
    lemma_floor(usd_ray * f, c);
    if fusd_decimals < 60 {
        lemma_pow_adds(10, fusd_decimals as nat, 1);
        assert(usd_ray * (f * 10) == (usd_ray * f) * 10) by (nonlinear_arith);
        vstd::arithmetic::div_mod::lemma_div_denominator((usd_ray * f) * 10, 10, c);
        assert(10 * c == c * 10);
    }
}

/// The decoded price in products alone. `half` is the floor of `sqrt_price^2 / 2^64` and `raw` that of
/// `half * RAY / 2^64`: the price is the largest `v` with `v * 10^quote <= raw * 10^base`, whichever of
/// the two numbers of decimals is larger. It fails exactly when `sqrt_price` is zero, a number of
/// decimals exceeds 60, `half * RAY` or `raw * 10^base` reaches `2^256`, or `v` exceeds `u128`.
pub proof fn law_sqrt_price_is_scaled_by_decimals(
    sqrt_price: u128,
    base_decimals: u8,
    quote_decimals: u8,
    half: int,
    raw: int,
)
    requires
        half * 0x1_0000_0000_0000_0000 <= sqrt_price * sqrt_price < (half + 1)
            * 0x1_0000_0000_0000_0000,
        raw * 0x1_0000_0000_0000_0000 <= half * RAY < (raw + 1) * 0x1_0000_0000_0000_0000,
    ensures
        ({
            let num = raw * pow(10, base_decimals as nat);
            let t = pow(10, quote_decimals as nat);
            let r = decoded_price(sqrt_price, base_decimals, quote_decimals);
            &&& r matches Some(v) ==> v * t <= num < (v + 1) * t
            &&& r is None <==> sqrt_price == 0 || base_decimals > 60 || quote_decimals > 60 || half
                * RAY >= two_256() || num >= two_256() || num >= two_128() * t
        }),
{
    let w: int = 0x1_0000_0000_0000_0000;
    lemma_u128_product(sqrt_price, sqrt_price);
    lemma_floor_le(sqrt_price * sqrt_price, w, half);
    lemma_floor_ge(sqrt_price * sqrt_price, w, half);
    lemma_floor_le(half * RAY, w, raw);
    lemma_floor_ge(half * RAY, w, raw);
    assert(raw == raw_price_in_ray(sqrt_price));
    if base_decimals <= 60 && quote_decimals <= 60 {
        lemma_ten_to(base_decimals as int);
        lemma_ten_to(quote_decimals as int);
        lemma_mul_mono(0, raw, ten_to(base_decimals as int));
        lemma_fitting_floor(raw * ten_to(base_decimals as int), ten_to(quote_decimals as int));
    }
}

/// The decoded price against the true one: `v * 10^quote * 2^128` never exceeds
/// `sqrt_price^2 * RAY * 10^base`, and falls short of it by no more than the floorings lose.
pub proof fn law_sqrt_price_is_close(
    sqrt_price: u128,
    base_decimals: u8,
    quote_decimals: u8,
    v: u128,
)
    requires
        decoded_price(sqrt_price, base_decimals, quote_decimals) == Some(v),
    ensures
        ({
            let b = pow(10, base_decimals as nat);
            let t = pow(10, quote_decimals as nat);
            &&& v * t * two_128() <= sqrt_price * sqrt_price * RAY * b
            &&& sqrt_price * sqrt_price * RAY * b < (v + 1) * t * two_128() + (two_128() + RAY
                * 0x1_0000_0000_0000_0000) * b
        }),
{
    let b = ten_to(base_decimals as int);
    let t = ten_to(quote_decimals as int);
    let raw = raw_price_in_ray(sqrt_price);
    let n = sqrt_price * sqrt_price * RAY;
    lemma_ten_to(base_decimals as int);
    lemma_ten_to(quote_decimals as int);
    law_raw_price_is_close(sqrt_price);
    lemma_u128_product(sqrt_price, sqrt_price);
    lemma_mul_mono(0, raw, b);
    lemma_fitting_floor(raw * b, t);
    lemma_mul_mono(raw * two_128(), n, b);
    assert((raw * two_128()) * b == (raw * b) * two_128()) by (nonlinear_arith);
    let slack = two_128() + RAY * 0x1_0000_0000_0000_0000;
    assert((raw + 1) * two_128() + RAY * 0x1_0000_0000_0000_0000 == raw * two_128() + slack);
    assert(n * b < (raw * two_128() + slack) * b) by (nonlinear_arith)
        requires
            n < raw * two_128() + slack,
            b > 0,
    ;
    assert((raw * two_128() + slack) * b == (raw * b) * two_128() + slack * b) by (nonlinear_arith)
        requires
            (raw * two_128()) * b == (raw * b) * two_128(),
    ;
}

/// One quote decimal more divides the price by ten, and one base decimal more multiplies it by ten, up
/// to the digit that the flooring hid.
pub proof fn law_sqrt_price_shifts_by_ten(sqrt_price: u128, base_decimals: u8, quote_decimals: u8)
    requires
        decoded_price(sqrt_price, base_decimals, quote_decimals) is Some,
    ensures
        quote_decimals < 60 ==> decoded_price(
            sqrt_price,
            base_decimals,
            (quote_decimals + 1) as u8,
        ) == Some((decoded_price(sqrt_price, base_decimals, quote_decimals)->0 / 10) as u128),
        base_decimals < 60 ==> (decoded_price(
            sqrt_price,
            (base_decimals + 1) as u8,
            quote_decimals,
        ) matches Some(up) ==> ({
            let v = decoded_price(sqrt_price, base_decimals, quote_decimals)->0;
            v * 10 <= up <= v * 10 + 9
        })),
{
    let b = ten_to(base_decimals as int);
    let t = ten_to(quote_decimals as int);
    let raw = raw_price_in_ray(sqrt_price);
    lemma_ten_to(base_decimals as int);
    lemma_ten_to(quote_decimals as int);
    law_raw_price_is_close(sqrt_price);
    lemma_u128_product(sqrt_price, sqrt_price);
    lemma_mul_mono(0, raw, b);
    lemma_pow1(10);
    lemma_pow_adds(10, quote_decimals as nat, 1);
    lemma_pow_adds(10, base_decimals as nat, 1);
    assert(ten_to(quote_decimals + 1) == t * 10);
    assert(ten_to(base_decimals + 1) == b * 10);
    lemma_ten_shift(raw * b, t);
    lemma_floor(raw * b, t);
    assert(raw * (b * 10) == (raw * b) * 10) by (nonlinear_arith);
    let v = raw * b / t;
    assert((v * 10) * t == (v * t) * 10) by (nonlinear_arith);
    assert((v * 10 + 10) * t == ((v + 1) * t) * 10) by (nonlinear_arith);
    lemma_floor_ge((raw * b) * 10, t, v * 10);
    lemma_floor_le((raw * b) * 10, t, v * 10 + 9);
}

/// A square-root price of `2^64` is the price 1.0.
pub proof fn law_unit_sqrt_price_is_one(decimals: u8)
    requires
        decimals <= 60,
        RAY * ten_to(decimals as int) < two_256(),
    ensures
        decoded_price(0x1_0000_0000_0000_0000, decimals, decimals) == Some(RAY),
{
    let s: u128 = 0x1_0000_0000_0000_0000;
    assert(s * s == two_128());
    assert(two_128() / 0x1_0000_0000_0000_0000 == 0x1_0000_0000_0000_0000);
    assert(raw_price_in_ray(s) == RAY);
    lemma_ten_to(decimals as int);
    crate::math::arith::lemma_floor_exact(RAY as int, ten_to(decimals as int));
}

} // verus!
