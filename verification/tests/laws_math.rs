//! The laws of the fixed-point core on concrete values.

use fusion::math::interest::{
    accrued_interest, pending_aggregate_interest, premature_adjustment_fee, weighted_debt, INTEREST_DENOM,
    INTEREST_RATE_DENOM, SECONDS_PER_YEAR,
};
use fusion::math::oracle_scale::{px_to_ray, sqrt_price_q64_to_ray, usd_ray_to_spot, MAX_EXPONENT};
use fusion::math::rate_bucket;
use fusion::math::rate_bucket::{
    bucket_of, clear, cmp_collateral_ratio, count_set, first_set, first_set_from, is_set, num_buckets,
};
use fusion::math::recovery::{absorb, Absorption};
use fusion::math::redemption::{
    bump_base_rate, decay_base_rate, effective_fee_bps, BASE_RATE_BETA, BASE_RATE_DECAY_PER_MINUTE, RAY_PER_BPS,
};
use fusion::math::redistribution::{
    compute_stake, pending, redistribute, RedistError, RedistSnapshot, RedistState, PRECISION,
};
use fusion::math::u256::U256;
use fusion::math::wide::{div_256_by_128, wide_mul, wide_muladd_div};
use fusion::math::{
    apply_bps, mul_div_ceil, mul_div_floor, present_debt, ray_div, ray_mul, ray_mul_up, ray_pow, wad_div, wide_mul_div,
    BPS_DENOMINATOR, HALF_RAY, HALF_WAD, RAY, WAD,
};
use std::cmp::Ordering;

const MAX: u128 = u128::MAX;

#[test]
fn half_constants_and_denominators() {
    assert_eq!(HALF_WAD, 500_000_000_000_000_000);
    assert_eq!(HALF_RAY, 500_000_000_000_000_000_000_000_000);
    assert_eq!(BPS_DENOMINATOR, 10_000);
    assert_eq!(INTEREST_DENOM, SECONDS_PER_YEAR * INTEREST_RATE_DENOM);
    assert_eq!(RAY_PER_BPS * 10_000, RAY);
    assert_eq!(BASE_RATE_BETA, 2);
    assert_eq!(MAX_EXPONENT, 60);
    assert_eq!(PRECISION, WAD);
}

#[test]
fn zero_is_zero_over_four_limbs() {
    assert!(U256 { limbs: [0, 0, 0, 0] }.is_zero());
    for i in 0..4 {
        let mut limbs = [0u64; 4];
        limbs[i] = 1;
        assert!(!U256 { limbs }.is_zero());
    }
}

#[test]
fn quotient_and_remainder_flag() {
    assert_eq!(wide_mul_div(7, 3, 2), Some((10, true)));
    assert_eq!(wide_mul_div(8, 3, 2), Some((12, false)));
    assert_eq!(wide_mul_div(MAX, MAX, MAX), Some((MAX, false)));
    assert_eq!(wide_mul_div(MAX, MAX, MAX - 1), None); // (2^128 - 1)^2 / (2^128 - 2) is 2^128
    assert_eq!(wide_mul_div(MAX, 2, 2), Some((MAX, false)));
    assert_eq!(wide_mul_div(MAX, 3, 2), None);
    assert_eq!(wide_mul_div(0, MAX, 0), None);
}

#[test]
fn ceiling_is_floor_plus_remainder_indicator() {
    for (a, b, d) in [(7u128, 1u128, 2u128), (6, 2, 3), (MAX, MAX - 1, MAX), (RAY + 1, RAY + 1, RAY), (5, 0, 9)] {
        let (q, has_rem) = wide_mul_div(a, b, d).unwrap();
        assert_eq!(mul_div_floor(a, b, d), Some(q));
        assert_eq!(mul_div_ceil(a, b, d), if has_rem { q.checked_add(1) } else { Some(q) });
    }
    assert_eq!(mul_div_ceil(MAX, MAX, MAX), Some(MAX));
    assert_eq!(mul_div_ceil(1, 1, 0), None);
}

#[test]
fn ceiling_past_the_largest_value_fails() {
    // (2^64 + 1) * (2^128 - 2^64 + 1) = 2^192 + 1, so the quotient by 2^64 is 2^128 exactly.
    let a = (1u128 << 64) + 1;
    let b = MAX - (1u128 << 64) + 2;
    assert_eq!(mul_div_floor(a, b, 1u128 << 64), None);
    // (2^64 + 2) * (2^128 - 2^65 + 3) = 2^192 - 2^64 + 6: the floor fits, the ceiling does not.
    let a = (1u128 << 64) + 2;
    let b = MAX - (1u128 << 65) + 4;
    assert_eq!(mul_div_floor(a, b, 1u128 << 64), Some(MAX));
    assert_eq!(mul_div_ceil(a, b, 1u128 << 64), None);
    let (hi, lo) = wide_mul(MAX, 3);
    assert_eq!((hi, lo), (2, MAX - 2));
    assert_eq!(wide_muladd_div(MAX, 3, 1, 3), Some((MAX, 1)));
    assert_eq!(wide_muladd_div(MAX, 3, 3, 3), None);
}

#[test]
fn products_are_monotone() {
    let mut last = 0;
    for a in 0..50u128 {
        let floor = mul_div_floor(a, 17, 5).unwrap();
        let ceil = mul_div_ceil(a, 17, 5).unwrap();
        assert!(floor >= last && ceil >= floor);
        last = floor;
    }
}

#[test]
fn long_division_at_its_edges() {
    assert_eq!(div_256_by_128(0, 17, 5), Some((3, 2)));
    assert_eq!(div_256_by_128(1, 0, 2), Some((1u128 << 127, 0)));
    assert_eq!(div_256_by_128(4, 0, 5), Some((272225893536750770770699685945414569164, 4)));
    assert_eq!(div_256_by_128(MAX - 1, MAX, MAX), Some((MAX, MAX - 1)));
    assert_eq!(div_256_by_128(5, 0, 5), None);
    assert_eq!(wide_mul(MAX, MAX), (MAX - 1, 1));
    assert_eq!(wide_mul(1u128 << 127, 2), (1, 0));
    assert_eq!(wide_mul(0, MAX), (0, 0));
}

#[test]
fn quotients_of_the_fixed_points() {
    assert_eq!(ray_div(1, 3), Some(333_333_333_333_333_333_333_333_333));
    assert_eq!(ray_div(RAY, 3), None); // the quotient passes 128 bits
    assert_eq!(ray_div(1, 0), None);
    assert_eq!(wad_div(1, 3), Some(333_333_333_333_333_333));
    assert_eq!(wad_div(1, 0), None);
    assert_eq!(ray_mul(3, RAY / 2), Some(1));
    assert_eq!(ray_mul_up(3, RAY / 2), Some(2));
}

#[test]
fn debt_is_never_undercharged() {
    for (art, rate) in [(1u128, RAY + 1), (7, RAY + RAY / 3), (1_000, 2 * RAY), (0, RAY), (3, 0)] {
        let debt = present_debt(art, rate).unwrap();
        assert!(debt * RAY >= art * rate);
        assert!(debt == 0 || (debt - 1) * RAY < art * rate);
    }
    assert_eq!(present_debt(MAX, 2 * RAY), None);
}

#[test]
fn share_is_bounded_and_monotone() {
    assert_eq!(apply_bps(u64::MAX, 10_000), Some(u64::MAX));
    assert_eq!(apply_bps(u64::MAX, 10_001), None);
    assert_eq!(apply_bps(9_999, 1), Some(0));
    let mut last = 0;
    for bps in 0..=10_000u16 {
        let share = apply_bps(123_457, bps).unwrap();
        assert!(share >= last && share <= 123_457);
        last = share;
    }
}

#[test]
fn power_floors_and_decays() {
    // 1.5^3 = 3.375, exact; (1/3)^2 floored.
    assert_eq!(ray_pow(RAY + HALF_RAY, 3), Some(3 * RAY + 375 * RAY / 1000));
    let third = RAY / 3;
    assert_eq!(ray_pow(third, 2), mul_div_floor(third, third, RAY));
    assert!(ray_pow(third, 2).unwrap() <= RAY / 9);
    // A base below 1.0 decays, never overflows, and reaches zero.
    let mut last = RAY;
    for e in 0..400u64 {
        let p = ray_pow(HALF_RAY, e).unwrap();
        assert!(p <= last);
        last = p;
    }
    assert_eq!(ray_pow(HALF_RAY, u64::MAX), Some(0));
    // Monotone in the base.
    assert!(ray_pow(RAY + 1, 1000).unwrap() <= ray_pow(RAY + 2, 1000).unwrap());
}

#[test]
fn interest_is_linear_and_a_year_is_the_rate() {
    let debt = 1_234_567_890u128;
    let year = SECONDS_PER_YEAR as u64;
    assert_eq!(accrued_interest(debt, 777, year), Some(debt * 777 / 10_000));
    for (t1, t2) in [(1u64, 2u64), (86_400, 3), (1_000_000, 999_999)] {
        let both = accrued_interest(debt, 777, t1).unwrap() + accrued_interest(debt, 777, t2).unwrap();
        let whole = accrued_interest(debt, 777, t1 + t2).unwrap();
        assert!(both <= whole && whole <= both + 1);
    }
    // The numerator may overflow though nothing accrues.
    assert_eq!(accrued_interest(MAX, 2, 0), None);
    assert_eq!(weighted_debt(MAX, 2), None);
    assert_eq!(weighted_debt(MAX, 1), Some(MAX));
    assert_eq!(pending_aggregate_interest(MAX, u64::MAX), None);
    assert_eq!(premature_adjustment_fee(1, 1, 1), Some(1));
}

#[test]
fn aggregate_covers_the_positions() {
    let positions = [(1_000_000_007u128, 501u16), (999_983, 1_333), (17, 2_550), (5_000_000_000, 50)];
    for dt in [1u64, 59, 86_401, 31_536_001] {
        let sum: u128 = positions.iter().map(|&(d, r)| weighted_debt(d, r).unwrap()).sum();
        let booked: u128 = positions.iter().map(|&(d, r)| accrued_interest(d, r, dt).unwrap()).sum();
        let owed = pending_aggregate_interest(sum, dt).unwrap();
        assert!(booked <= owed && owed <= booked + positions.len() as u128);
    }
}

#[test]
fn scaled_prices_are_monotone() {
    let mut last = (0, 0, 0);
    for p in 1..200u128 {
        let next = (
            px_to_ray(p * 1_000_003, -7).unwrap(),
            usd_ray_to_spot(p * RAY, 9, 6).unwrap(),
            sqrt_price_q64_to_ray(p << 60, 9, 6).unwrap(),
        );
        assert!(next.0 >= last.0 && next.1 >= last.1 && next.2 >= last.2);
        last = next;
    }
    assert_eq!(px_to_ray(123_456, -60), Some(0));
    assert_eq!(px_to_ray(1, -61), None);
    assert_eq!(px_to_ray(1, 61), None);
    assert_eq!(px_to_ray(1, i32::MIN), None);
    assert_eq!(px_to_ray(0, 60), Some(0));
    assert_eq!(px_to_ray(7, -3), Some(7 * RAY / 1000));
    assert_eq!(usd_ray_to_spot(RAY, 61, 6), None);
    assert_eq!(usd_ray_to_spot(RAY, 6, 61), None);
    assert_eq!(usd_ray_to_spot(RAY, 49, 49), Some(RAY));
    assert_eq!(usd_ray_to_spot(RAY, 60, 60), None); // RAY * 10^60 passes 256 bits
    assert_eq!(usd_ray_to_spot(RAY, 60, 0), Some(0));
}

#[test]
fn square_root_price_is_close_to_the_square() {
    // sqrt_price = 3 * 2^63: the price is 2.25.
    assert_eq!(sqrt_price_q64_to_ray(3u128 << 63, 6, 6), Some(2 * RAY + RAY / 4));
    assert_eq!(sqrt_price_q64_to_ray(1u128 << 64, 60, 60), None); // RAY * 10^60 passes 256 bits
    assert_eq!(sqrt_price_q64_to_ray(1u128 << 64, 49, 49), Some(RAY));
    assert_eq!(sqrt_price_q64_to_ray(1, 0, 0), Some(0));
    assert_eq!(sqrt_price_q64_to_ray(MAX, 0, 0), None);
    assert_eq!(sqrt_price_q64_to_ray(1u128 << 64, 61, 6), None);
    assert_eq!(sqrt_price_q64_to_ray(1u128 << 64, 6, 61), None);
}

#[test]
fn buckets_are_monotone_and_in_range() {
    let mut last = 0;
    for rate in 0..=3_000u16 {
        let b = bucket_of(rate, 10, 256);
        assert!(b >= last && b < 256);
        last = b;
    }
    assert_eq!(bucket_of(77, 0, 256), 77); // a width of 0 counts as 1
    assert_eq!(bucket_of(77, 10, 1), 0);
}

#[test]
fn marks_and_counts_agree() {
    let mut g = vec![0u64; 3];
    assert_eq!(num_buckets(&g), 192);
    assert_eq!(num_buckets(&[]), 0);
    assert_eq!(first_set(&[]), None);
    assert_eq!(count_set(&g), 0);
    for b in [5usize, 64, 127, 128, 191, 5] {
        let fresh = !is_set(&g, b);
        let before = count_set(&g);
        rate_bucket::set(&mut g, b);
        assert_eq!(count_set(&g), before + u32::from(fresh));
    }
    let mut found = Vec::new();
    let mut from = 0;
    while let Some(b) = first_set_from(&g, from) {
        found.push(b);
        from = b + 1;
    }
    assert_eq!(found, vec![5, 64, 127, 128, 191]);
    clear(&mut g, 127);
    clear(&mut g, 127);
    assert_eq!(count_set(&g), 4);
    assert_eq!(first_set_from(&g, 65), Some(128));
    assert_eq!(first_set_from(&g, usize::MAX), None);
    assert_eq!(count_set(&[u64::MAX, 0, u64::MAX]), 128);
}

#[test]
fn marking_and_unmarking() {
    let words = [0x8000_0000_0000_0001u64, 0, 42];
    for b in 0..192usize {
        let was = is_set(&words, b);
        let mut marked = words;
        rate_bucket::set(&mut marked, b);
        let mut again = marked;
        rate_bucket::set(&mut again, b);
        assert_eq!(again, marked);
        assert_eq!(count_set(&marked), count_set(&words) + u32::from(!was));
        let mut cleared = marked;
        clear(&mut cleared, b);
        assert_eq!(count_set(&cleared), count_set(&marked) - 1);
        assert_eq!(cleared == words, !was);
        assert!((0..192).all(|c| c == b || is_set(&marked, c) == is_set(&words, c)));
    }
}

#[test]
fn lowest_bucket_agrees() {
    for words in [[0u64, 0], [0, 8], [4, 8], [u64::MAX, 0]] {
        assert_eq!(first_set(&words), first_set_from(&words, 0));
        assert_eq!(first_set(&words).is_none(), count_set(&words) == 0);
    }
    assert_eq!(first_set(&[0, 8]), Some(67));
}

#[test]
fn ratio_order_is_an_order() {
    let ps = [(200u64, 100u128), (150, 100), (u64::MAX, u128::MAX), (1, 3), (2, 6)];
    for a in ps {
        for b in ps {
            let ab = cmp_collateral_ratio(a.0, a.1, b.0, b.1);
            assert_eq!(ab, cmp_collateral_ratio(b.0, b.1, a.0, a.1).reverse());
            for c in ps {
                let bc = cmp_collateral_ratio(b.0, b.1, c.0, c.1);
                if ab != Ordering::Greater && bc != Ordering::Greater {
                    assert_ne!(cmp_collateral_ratio(a.0, a.1, c.0, c.1), Ordering::Greater);
                }
            }
        }
    }
    assert_eq!(cmp_collateral_ratio(1, 3, 2, 6), Ordering::Equal);
    assert_eq!(cmp_collateral_ratio(u64::MAX, 1, 1, u128::MAX), Ordering::Greater);
    assert_eq!(cmp_collateral_ratio(1, u128::MAX, u64::MAX, 1), Ordering::Less);
}

#[test]
fn waterfall_laws() {
    assert_eq!(Absorption::default(), absorb(0, 5, false, 5, 5));
    for (debt, cap, rec, bal, glob) in
        [(100u128, 30u128, false, 20u128, 10u128), (100, 30, true, 20, 10), (MAX, 0, false, MAX, MAX), (60, 30, false, 20, 10)]
    {
        let a = absorb(debt, cap, rec, bal, glob);
        assert_eq!(a.reactor + a.redist + a.buffer + a.global + a.unhomed, debt);
        assert!(a.reactor <= cap && a.buffer <= bal && a.global <= glob);
        assert!(a.buffer == 0 || (a.reactor == cap && !rec));
        assert!(a.global == 0 || a.buffer == bal);
        assert_eq!(a.unhomed > 0, !rec && debt.checked_sub(cap).and_then(|x| x.checked_sub(bal)).and_then(|x| x.checked_sub(glob)).is_some_and(|x| x > 0));
        let off = absorb(debt, cap, rec, bal, 0);
        assert_eq!((off.reactor, off.redist, off.buffer, off.global), (a.reactor, a.redist, a.buffer, 0));
        assert_eq!(off.unhomed, a.global + a.unhomed);
    }
}

#[test]
fn base_rate_decays_and_bumps() {
    // One minute is one factor.
    assert_eq!(decay_base_rate(RAY, 60), BASE_RATE_DECAY_PER_MINUTE);
    assert_eq!(decay_base_rate(RAY, 119), BASE_RATE_DECAY_PER_MINUTE);
    assert_eq!(decay_base_rate(RAY, i64::MIN), RAY);
    let mut last = RAY;
    for t in 0..200i64 {
        let r = decay_base_rate(RAY, t * 37);
        assert!(r <= last);
        last = r;
    }
    assert!(decay_base_rate(RAY / 3, 7_200) <= decay_base_rate(RAY / 2, 7_200));
    // A bump is monotone and bounded; a fraction past every rate saturates.
    let mut last = RAY / 10;
    for r in 0..100u128 {
        let b = bump_base_rate(RAY / 10, r, 60);
        assert!(b >= last && b <= RAY);
        last = b;
    }
    assert_eq!(last, RAY / 10 + 99 * RAY / 60 / 2);
    assert_eq!(bump_base_rate(0, MAX, 1), RAY);
    assert_eq!(bump_base_rate(MAX, 1, MAX), RAY);
}

#[test]
fn fee_stays_between_floor_and_cap() {
    assert_eq!(effective_fee_bps(RAY_PER_BPS * 7 + 1, 50, 100, 500), 57);
    assert_eq!(effective_fee_bps(RAY, 600, 0, 500), 500); // a floor above the cap is capped
    assert_eq!(effective_fee_bps(MAX, 65_535, 65_535, 65_535), 65_535);
    assert_eq!(effective_fee_bps(MAX, 0, 65_535, 65_535), 65_535);
    assert_eq!(effective_fee_bps(RAY_PER_BPS - 1, 50, 100, 500), 50);
}

#[test]
fn redistribution_is_a_proper_division() {
    let mut st = RedistState::new();
    for (coll, art) in [(3u128, 1u128), (10, 0), (0, 7), (999, 1_000)] {
        let before = st;
        redistribute(&mut st, 97, coll, art).unwrap();
        assert_eq!(
            (st.l_coll - before.l_coll) * 97 + st.last_coll_error,
            coll * PRECISION + before.last_coll_error
        );
        assert_eq!((st.l_art - before.l_art) * 97 + st.last_art_error, art * PRECISION + before.last_art_error);
        assert!(st.last_coll_error < 97 && st.last_art_error < 97);
    }
    // Three recipients of the whole stake never receive more than was redistributed.
    let snap = RedistSnapshot::default();
    let got: u128 = [50u128, 30, 17].iter().map(|&s| pending(s, &st, &snap).unwrap().0).sum();
    assert!(got <= 1012 && 1012 - got <= 3);
}

#[test]
fn refused_redistribution_commits_the_collateral_side_only() {
    // The debt side overflows: the collateral side is already accumulated.
    let mut st = RedistState { l_coll: 0, l_art: MAX, last_coll_error: 0, last_art_error: 0 };
    assert_eq!(redistribute(&mut st, 2, 3, 2), Err(RedistError::AccumulatorOverflow));
    assert_eq!(st, RedistState { l_coll: 3 * PRECISION / 2, l_art: MAX, last_coll_error: 0, last_art_error: 0 });
    // Without stakes nothing moves.
    let before = st;
    assert_eq!(redistribute(&mut st, 0, 3, 2), Err(RedistError::NoStakes));
    assert_eq!(st, before);
    // A gain past the range is an arithmetic error.
    let high = RedistState { l_coll: MAX, l_art: 0, last_coll_error: 0, last_art_error: 0 };
    assert_eq!(pending(MAX, &high, &RedistSnapshot::default()), Err(RedistError::Math));
    // An accumulator below the snapshot gives nothing.
    assert_eq!(pending(5, &RedistState::new(), &RedistSnapshot { l_coll: 1, l_art: 1 }), Ok((0, 0)));
}

#[test]
fn gain_is_monotone_in_stake_and_fresh_snapshots_have_none() {
    let mut st = RedistState::new();
    redistribute(&mut st, 1_000_003, 77, 55).unwrap();
    let snap = RedistSnapshot::default();
    let mut last = (0, 0);
    for s in (0..1_000_003u128).step_by(99_991) {
        let got = pending(s, &st, &snap).unwrap();
        assert!(got.0 >= last.0 && got.1 >= last.1);
        last = got;
    }
    assert_eq!(pending(MAX, &st, &st.snapshot()), Ok((0, 0)));
}

#[test]
fn stakes_never_inflate() {
    for (a, b, tss, tcs) in [(60u128, 40u128, 100u128, 130u128), (1, 1, 3, 7), (0, 9, 9, 9)] {
        let sa = compute_stake(a, tss, tcs).unwrap();
        let sb = compute_stake(b, tss, tcs).unwrap();
        let both = compute_stake(a + b, tss, tcs).unwrap();
        assert!(sa + sb <= both && both <= tss);
        assert!(sa <= a && sb <= b);
    }
    assert_eq!(compute_stake(MAX, MAX, 1), Err(RedistError::Math));
}
