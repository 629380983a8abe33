//! Fixed-point primitives.

use bnum::types::U256;
use fusion::math::redistribution::PRECISION;
use fusion::math::wide::{div_256_by_128, wide_mul, wide_muladd_div};
use fusion::math::{
    apply_bps, mul_div_ceil, mul_div_floor, present_debt, ray_div, ray_mul, ray_mul_up, ray_pow, wad_div, wad_mul,
    wad_mul_up, RAY, WAD,
};

#[test]
fn constants() {
    assert_eq!(WAD, 10u128.pow(18));
    assert_eq!(RAY, 10u128.pow(27));
}

#[test]
fn mul_div_floor_exact_and_floor() {
    assert_eq!(mul_div_floor(6, 7, 2), Some(21));
    assert_eq!(mul_div_floor(7, 1, 2), Some(3)); // floors
    assert_eq!(mul_div_floor(1, 1, 0), None); // div by zero
    // Products wider than 128 bits are exact.
    assert_eq!(mul_div_floor(RAY, RAY, RAY), Some(RAY));
    assert_eq!(mul_div_floor(u128::MAX, u128::MAX, u128::MAX), Some(u128::MAX));
    // Quotient overflows u128 -> None (not a wrap).
    assert_eq!(mul_div_floor(u128::MAX, u128::MAX, 1), None);
}

#[test]
fn mul_div_ceil_rounds_up() {
    assert_eq!(mul_div_ceil(7, 1, 2), Some(4)); // 3.5 -> 4
    assert_eq!(mul_div_ceil(6, 2, 3), Some(4)); // exact -> equals floor
    assert_eq!(mul_div_ceil(0, 5, 3), Some(0));
    // ceil >= floor, differ by exactly 1 when there's a remainder
    assert_eq!(mul_div_ceil(7, 3, 2).unwrap(), mul_div_floor(7, 3, 2).unwrap() + 1);
}

#[test]
fn wad_ray_ops() {
    assert_eq!(wad_mul(2 * WAD, 3 * WAD), Some(6 * WAD));
    assert_eq!(ray_mul(RAY, RAY), Some(RAY)); // identity
    assert_eq!(ray_mul(2 * RAY, 2 * RAY), Some(4 * RAY));
    assert_eq!(wad_div(WAD, 2 * WAD), Some(WAD / 2));
    assert_eq!(ray_div(RAY, RAY), Some(RAY));
    // up vs floor differ by 1 on a non-zero remainder
    assert_eq!(ray_mul(RAY + 1, RAY + 1), Some(RAY + 2)); // floor((RAY+1)^2/RAY)
    assert_eq!(ray_mul_up(RAY + 1, RAY + 1), Some(RAY + 3));
    // `wad_mul_up` (the WAD ceil twin): exact multiple has no rounding; a non-zero remainder
    // rounds up against the debtor, one above the floor.
    assert_eq!(wad_mul_up(2 * WAD, 3 * WAD), Some(6 * WAD)); // exact
    assert_eq!(wad_mul(WAD + 1, WAD + 1), Some(WAD + 2)); // floor((WAD+1)^2/WAD)
    assert_eq!(wad_mul_up(WAD + 1, WAD + 1), Some(WAD + 3));
}

#[test]
fn present_debt_rounds_up() {
    // Any fractional debt rounds UP against the borrower: 1 * (RAY+1)/RAY = 1 + 1/RAY -> 2.
    assert_eq!(present_debt(1, RAY + 1), Some(2));
    // No rounding when exact.
    assert_eq!(present_debt(5 * WAD, RAY), Some(5 * WAD));
    assert_eq!(present_debt(WAD, RAY), Some(WAD)); // rate 1.0 -> debt == art
    assert_eq!(present_debt(WAD, 2 * RAY), Some(2 * WAD)); // rate 2.0
}

#[test]
fn ray_pow_works() {
    assert_eq!(ray_pow(123 * RAY, 0), Some(RAY)); // x^0 = 1.0
    assert_eq!(ray_pow(123, 1), Some(123)); // x^1 = x
    assert_eq!(ray_pow(RAY, 5), Some(RAY)); // 1.0^n = 1.0
    assert_eq!(ray_pow(2 * RAY, 3), Some(8 * RAY)); // 2^3 = 8
    assert_eq!(ray_pow(2 * RAY, 10), Some(1024 * RAY)); // 2^10
    // 1.1^2 = 1.21 (RAY-scaled), exact at this scale
    let one_point_one = RAY + RAY / 10;
    assert_eq!(ray_pow(one_point_one, 2), Some(RAY + RAY / 10 + RAY / 10 + RAY / 100));
}

#[test]
fn bps() {
    assert_eq!(apply_bps(10_000, 500), Some(500)); // 5%
    assert_eq!(apply_bps(1_000_000, 11_000), Some(1_100_000)); // 110%
    assert_eq!(apply_bps(0, 9_999), Some(0));
    assert_eq!(apply_bps(u64::MAX, 65_535), None); // overflow on downcast
}

#[test]
fn mul_div_matches_u128_reference() {
    let mut s: u128 = 0x2545_F491_4F6C_DD1D;
    let mut next = || {
        s = s
            .wrapping_mul(6_364_136_223_846_793_005)
            .wrapping_add(1_442_695_040_888_963_407);
        s
    };
    let mask: u128 = (1u128 << 60) - 1; // products < 2^120, always fit u128
    for _ in 0..5_000 {
        let a = next() & mask;
        let b = next() & mask;
        let d = (next() % (u64::MAX as u128)) + 1; // non-zero
        let prod = a * b; // fits by construction
        assert_eq!(mul_div_floor(a, b, d), Some(prod / d));
        let expect_ceil = prod / d + if prod % d != 0 { 1 } else { 0 };
        assert_eq!(mul_div_ceil(a, b, d), Some(expect_ceil));
    }
}

fn check_product(a: u128, b: u128, d: u128) {
    // `wide_mul` reconstructs the exact 256-bit product.
    let (hi, lo) = wide_mul(a, b);
    let prod = U256::from(a) * U256::from(b);
    assert_eq!((U256::from(hi) << 128u32) + U256::from(lo), prod, "wide_mul wrong: {a}*{b}");
    if d == 0 {
        return; // div_256_by_128 asks for denom != 0
    }
    let dd = U256::from(d);
    let q_ref = prod / dd;
    let r_ref = prod % dd;
    let fits = q_ref <= U256::from(u128::MAX);
    match div_256_by_128(hi, lo, d) {
        Some((q, r)) => {
            assert!(fits, "Some, but the quotient overflows u128: {a}*{b}/{d}");
            assert_eq!(U256::from(q), q_ref, "quotient mismatch: {a}*{b}/{d}");
            assert_eq!(U256::from(r), r_ref, "remainder mismatch: {a}*{b}/{d}");
        }
        None => assert!(!fits, "None, but the quotient fits u128: {a}*{b}/{d}"),
    }
}

#[test]
fn shim_matches_bnum() {
    // Edge cases, with the overflow boundary and the WAD/RAY denominators.
    let edges = [
        0u128, 1, 2, WAD, RAY, u64::MAX as u128, (u64::MAX as u128) + 1, u128::MAX, u128::MAX - 1,
    ];
    for &a in &edges {
        for &b in &edges {
            for &d in &edges {
                check_product(a, b, d);
            }
        }
    }
    // Full-range random.
    let mut s: u128 = 0x9E37_79B9_7F4A_7C15;
    let mut next = || {
        s = s.wrapping_mul(6_364_136_223_846_793_005).wrapping_add(1_442_695_040_888_963_407);
        s
    };
    for _ in 0..20_000 {
        let (a, b, d) = (next(), next(), next() | 1); // d != 0
        check_product(a, b, d);
    }
}

fn check_sum(a: u128, b: u128, add: u128, d: u128) {
    if d == 0 {
        assert_eq!(wide_muladd_div(a, b, add, d), None);
        return;
    }
    let num = U256::from(a) * U256::from(b) + U256::from(add);
    let dd = U256::from(d);
    let q_ref = num / dd;
    let r_ref = num % dd;
    let fits = q_ref <= U256::from(u128::MAX);
    match wide_muladd_div(a, b, add, d) {
        Some((q, r)) => {
            assert!(fits, "Some, but the quotient overflows u128: ({a}*{b}+{add})/{d}");
            assert_eq!(U256::from(q), q_ref, "quotient mismatch: ({a}*{b}+{add})/{d}");
            assert_eq!(U256::from(r), r_ref, "remainder mismatch: ({a}*{b}+{add})/{d}");
        }
        None => assert!(!fits, "None, but the quotient fits u128: ({a}*{b}+{add})/{d}"),
    }
}

#[test]
fn muladd_div_matches_bnum() {
    // The redistribution::PRECISION multiplier + small/edge stakes & errors.
    let edges = [0u128, 1, 2, 255, WAD, RAY, u64::MAX as u128, (u64::MAX as u128) + 1, u128::MAX];
    for &a in &edges {
        for &add in &edges {
            for &d in &edges {
                check_sum(a, PRECISION, add, d); // the accumulate shape
                check_sum(a, 2, add, d.max(1)); // a generic shape too
            }
        }
    }
    // Full-range random.
    let mut s: u128 = 0xDEAD_BEEF_CAFE_F00D;
    let mut next = || {
        s = s.wrapping_mul(6_364_136_223_846_793_005).wrapping_add(1_442_695_040_888_963_407);
        s
    };
    for _ in 0..20_000 {
        check_sum(next(), next(), next(), next() | 1);
    }
}

fn checked_int_pow(k: u128, e: u32) -> Option<u128> {
    let mut acc: u128 = 1;
    for _ in 0..e {
        acc = acc.checked_mul(k)?;
    }
    Some(acc)
}

#[test]
fn ray_pow_matches_reference() {
    let mut s: u128 = 0xA5A5_5A5A_1234_9876;
    let mut next = || {
        s = s.wrapping_mul(6_364_136_223_846_793_005).wrapping_add(1_442_695_040_888_963_407);
        s
    };
    for _ in 0..20_000 {
        let k = next() % 2000; // base factor 0..1999 — k*RAY <= 1999e27 < u128::MAX always fits
        let e = (next() % 40) as u64; // exponent 0..39 — a healthy mix of in-range and overflow
        // Intermediates never exceed the final (powers grow), so ray_pow returns None EXACTLY when
        // k^e * RAY overflows u128 — which `checked_int_pow(..).checked_mul(RAY)` predicts exactly.
        let expected = checked_int_pow(k, e as u32).and_then(|p| p.checked_mul(RAY));
        assert_eq!(ray_pow(k * RAY, e), expected, "k={k} e={e}");
    }
    // Explicit edges: x^0 == 1.0 for a non-trivial base; a squaring that overflows fails closed.
    assert_eq!(ray_pow(123 * RAY, 0), Some(RAY));
    assert_eq!(ray_pow(u128::MAX, 2), None);
}
