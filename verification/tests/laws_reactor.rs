//! The laws of the Reactor Pool on concrete values.

use fusion::math::reactor_pool::{
    collateral_gain, compounded_deposit, offset, s_idx, update_product, update_product_u128, PoolState, ReactorError,
    Snapshot, DECIMAL_PRECISION, MAX_EPOCHS, MAX_SCALES, SCALE_FACTOR,
};

const STRIDE: u64 = 4;

fn pool(total: u128) -> (PoolState, Vec<u128>) {
    let mut st = PoolState::default();
    st.total_deposits = total;
    (st, vec![0u128; 16])
}

#[test]
fn grid_dimensions() {
    assert_eq!((MAX_SCALES, MAX_EPOCHS), (64, 128));
    assert_eq!(SCALE_FACTOR * SCALE_FACTOR, DECIMAL_PRECISION);
}

#[test]
fn cells_never_alias() {
    let mut seen = vec![false; 16];
    for epoch in 0..6u64 {
        for scale in 0..6u64 {
            match s_idx(epoch, scale, STRIDE, 16) {
                Some(i) => {
                    assert_eq!(i as u64, epoch * STRIDE + scale);
                    assert!(!seen[i]);
                    seen[i] = true;
                },
                None => assert!(scale >= 4 || epoch >= 4),
            }
        }
    }
    assert!(seen.iter().all(|&s| s));
    assert_eq!(s_idx(u64::MAX, 0, u64::MAX, usize::MAX), None);
    assert_eq!(s_idx(0, 0, 0, 16), None);
}

#[test]
fn product_update_rescales_least() {
    assert_eq!(update_product(DECIMAL_PRECISION, DECIMAL_PRECISION / 2), Ok((DECIMAL_PRECISION / 2, 0)));
    // One rescale: 1e18 * 1e8 / 1e18 = 1e8 lies below the floor.
    assert_eq!(update_product(DECIMAL_PRECISION, 100_000_000), Ok((100_000_000 * SCALE_FACTOR, 1)));
    // Two rescales: 1e9 * 1 / 1e18 is 1e-9.
    assert_eq!(update_product(SCALE_FACTOR, 1), Ok((SCALE_FACTOR, 2)));
    assert_eq!(update_product(0, 1), Err(ReactorError::Math));
    assert_eq!(update_product(u128::MAX, u128::MAX), Err(ReactorError::Math));
    assert_eq!(update_product_u128(u128::MAX, u128::MAX), Err(ReactorError::Math));
    assert_eq!(update_product_u128(0, 1), Err(ReactorError::Math));
    // Where the product passes 128 bits only the wide one answers.
    assert_eq!(update_product(u128::MAX, 2), Ok((680_564_733_841_876_926_926, 0)));
    assert_eq!(update_product_u128(u128::MAX, 2), Err(ReactorError::Math));
}

#[test]
fn refused_offset_keeps_the_pool() {
    let (mut st, mut g) = pool(0);
    assert_eq!(offset(&mut st, &mut g, STRIDE, 0, 0), Err(ReactorError::NoDeposits));
    assert_eq!(st, PoolState::new());
    let (mut st, mut g) = pool(10);
    assert_eq!(offset(&mut st, &mut g, STRIDE, 11, 7), Err(ReactorError::DebtExceedsDeposits));
    assert_eq!((st, g), pool(10));
    // Past the last epoch: only the residuals and the sum of the current cell moved.
    let (mut st, mut g) = pool(10);
    st.epoch = 3;
    assert_eq!(offset(&mut st, &mut g, STRIDE, 10, 7), Err(ReactorError::EpochOverflow));
    assert_eq!((st.epoch, st.scale, st.p, st.total_deposits), (3, 0, DECIMAL_PRECISION, 10));
    assert_eq!(g[12], 7 * DECIMAL_PRECISION / 10 * DECIMAL_PRECISION);
    // Outside the grid from the start.
    let (mut st, mut g) = pool(10);
    st.epoch = 4;
    assert_eq!(offset(&mut st, &mut g, STRIDE, 5, 7), Err(ReactorError::EpochOverflow));
    // Past the last scale.
    let (mut st, mut g) = pool(1_000_000_000_000);
    st.scale = 3;
    assert_eq!(offset(&mut st, &mut g, STRIDE, 999_999_999_999, 7), Err(ReactorError::ScaleOverflow));
    assert_eq!((st.scale, st.p, st.total_deposits), (3, DECIMAL_PRECISION, 1_000_000_000_000));
}

#[test]
fn partial_offset_residuals_and_direction() {
    let (mut st, mut g) = pool(97);
    let snap = st.snapshot(&g, STRIDE);
    offset(&mut st, &mut g, STRIDE, 40, 13).unwrap();
    assert_eq!(st.total_deposits, 57);
    assert_eq!((st.epoch, st.scale), (0, 0));
    assert_eq!(st.last_coll_error, 13 * DECIMAL_PRECISION % 97);
    assert_eq!(st.last_loss_error, (40 * DECIMAL_PRECISION / 97 + 1) * 97 - 40 * DECIMAL_PRECISION);
    assert!(1 <= st.last_loss_error && st.last_loss_error <= 97);
    assert_eq!(st.p, DECIMAL_PRECISION - (40 * DECIMAL_PRECISION / 97 + 1));
    // Only the current cell moved.
    assert_eq!(g[0], 13 * DECIMAL_PRECISION / 97 * DECIMAL_PRECISION);
    assert!(g[1..].iter().all(|&c| c == 0));
    // Solvent, and the whole pool gains all but at most one unit.
    assert!(compounded_deposit(&st, 97, &snap) <= 57);
    let gain = collateral_gain(&g, STRIDE, 97, &snap).unwrap();
    assert!(gain == 12 || gain == 13);
}

#[test]
fn full_drain_resets() {
    let (mut st, mut g) = pool(97);
    st.last_loss_error = 3;
    offset(&mut st, &mut g, STRIDE, 97, 13).unwrap();
    assert_eq!(
        st,
        PoolState {
            p: DECIMAL_PRECISION,
            epoch: 1,
            scale: 0,
            total_deposits: 0,
            last_coll_error: 13 * DECIMAL_PRECISION % 97,
            last_loss_error: 0,
        }
    );
}

#[test]
fn solvent_over_a_run_up_to_the_bound() {
    let (mut st, mut g) = pool(DECIMAL_PRECISION);
    let snap = st.snapshot(&g, STRIDE);
    let mut seized = 0u128;
    for (k, part) in [3u128, 2, 1_000, 7, 2, 1_000_000].iter().enumerate() {
        let debt = st.total_deposits / part;
        offset(&mut st, &mut g, STRIDE, debt, k as u128 + 1).unwrap();
        seized += k as u128 + 1;
        assert!(compounded_deposit(&st, DECIMAL_PRECISION, &snap) <= st.total_deposits);
        assert!(collateral_gain(&g, STRIDE, DECIMAL_PRECISION, &snap).unwrap() <= seized);
    }
}

#[test]
fn excess_past_the_bound_stays_bounded() {
    // Past 1e18 deposits the rounding of the product may leave the claim of the whole above the rest, here of
    // 3e18 deposits by two units, within 3e18 / 1e18.
    let total = 3 * DECIMAL_PRECISION;
    let (mut st, mut g) = pool(total);
    let snap = st.snapshot(&g, STRIDE);
    offset(&mut st, &mut g, STRIDE, total / 10 * 9, 0).unwrap();
    offset(&mut st, &mut g, STRIDE, total / 10 - 10_000_000_000, 0).unwrap();
    assert_eq!(st.total_deposits, 10_000_000_000);
    assert_eq!(compounded_deposit(&st, total, &snap), 10_000_000_002);
}

#[test]
fn loss_may_round_up_to_the_whole_unit() {
    // With 1e18 deposits an offset of all but one unit rounds the loss per unit up to 1.0: the epoch rolls with
    // one unit left.
    let (mut st, mut g) = pool(DECIMAL_PRECISION);
    offset(&mut st, &mut g, STRIDE, DECIMAL_PRECISION - 1, 0).unwrap();
    assert_eq!((st.epoch, st.total_deposits), (1, 1));
    // One deposit fewer, and the scale grows instead.
    let (mut st, mut g) = pool(DECIMAL_PRECISION - 1);
    offset(&mut st, &mut g, STRIDE, DECIMAL_PRECISION - 2, 0).unwrap();
    assert_eq!((st.epoch, st.total_deposits), (0, 1));
    assert!(st.scale > 0);
}

#[test]
fn untouched_deposit_is_whole() {
    let (st, g) = pool(500);
    let snap = st.snapshot(&g, STRIDE);
    assert_eq!(snap, Snapshot { p: DECIMAL_PRECISION, s: 0, scale: 0, epoch: 0 });
    assert_eq!(compounded_deposit(&st, 300, &snap), 300);
    assert_eq!(collateral_gain(&g, STRIDE, 300, &snap), Ok(0));
    assert_eq!(compounded_deposit(&st, 0, &snap), 0);
    assert_eq!(collateral_gain(&g, STRIDE, 0, &snap), Ok(0));
}

#[test]
fn claims_survive_rescales_and_epochs() {
    let (mut st, mut g) = pool(1_000_000_000_000);
    let snap = st.snapshot(&g, STRIDE);
    // A near drain rescales once; the gains of both scales count.
    offset(&mut st, &mut g, STRIDE, 999_999_999_000, 500).unwrap();
    assert_eq!(st.scale, 1);
    let first = collateral_gain(&g, STRIDE, 1_000_000_000_000, &snap).unwrap();
    st.total_deposits = 2_000;
    offset(&mut st, &mut g, STRIDE, 1_000, 100).unwrap();
    let second = collateral_gain(&g, STRIDE, 1_000_000_000_000, &snap).unwrap();
    assert!(first <= second && second <= 600);
    // A full drain wipes the deposit and keeps the gain.
    offset(&mut st, &mut g, STRIDE, 1_000, 0).unwrap();
    assert_eq!(st.epoch, 1);
    assert_eq!(compounded_deposit(&st, 1_000_000_000_000, &snap), 0);
    assert_eq!(collateral_gain(&g, STRIDE, 1_000_000_000_000, &snap), Ok(second));
}

#[test]
fn dust_and_far_scales_are_dropped() {
    let st = PoolState { p: SCALE_FACTOR, epoch: 0, scale: 1, total_deposits: 5, last_coll_error: 0, last_loss_error: 0 };
    let at = |p: u128, scale: u64| Snapshot { p, s: 0, scale, epoch: 0 };
    // One rescale on, down to 1e-18 of the deposit: below the dust limit.
    assert_eq!(compounded_deposit(&st, 1_000_000_000_000_000_000, &at(DECIMAL_PRECISION, 0)), 0);
    let two = PoolState { p: DECIMAL_PRECISION, scale: 2, ..st };
    assert_eq!(compounded_deposit(&two, 1_000_000_000, &at(SCALE_FACTOR, 0)), 0);
    assert_eq!(compounded_deposit(&two, 1_000_000_000, &at(DECIMAL_PRECISION, 1)), 1);
    // Past a rescale the share is exact up to `u128::MAX / 1e9`; a share past 128 bits counts as nothing.
    let one = PoolState { p: DECIMAL_PRECISION, scale: 1, ..st };
    let most = u128::MAX / SCALE_FACTOR;
    assert_eq!(compounded_deposit(&one, most, &at(SCALE_FACTOR, 0)), most);
    assert_eq!(compounded_deposit(&one, most + 1, &at(SCALE_FACTOR, 0)), 0);
    assert_eq!(compounded_deposit(&one, u128::MAX, &at(SCALE_FACTOR, 0)), 0);
    assert_eq!(compounded_deposit(&one, 7_000_000_000, &at(DECIMAL_PRECISION, 0)), 7);
    assert_eq!(compounded_deposit(&one, 5, &at(0, 0)), 0);
    // A zero product in the snapshot pays nothing, and its gain is an error.
    assert_eq!(compounded_deposit(&two, 5, &at(0, 2)), 0);
    assert_eq!(collateral_gain(&[1, 1], 2, 5, &at(0, 0)), Err(ReactorError::Math));
    assert_eq!(collateral_gain(&[u128::MAX, u128::MAX], 2, 5, &at(1, 0)), Err(ReactorError::Math));
}

#[test]
fn depositors_never_exceed_the_whole() {
    let (mut st, mut g) = pool(1_000_003);
    let snap = st.snapshot(&g, STRIDE);
    offset(&mut st, &mut g, STRIDE, 333_337, 4_242).unwrap();
    let parts = [500_000u128, 300_001, 200_002];
    let kept: u128 = parts.iter().map(|&d| compounded_deposit(&st, d, &snap)).sum();
    let gained: u128 = parts.iter().map(|&d| collateral_gain(&g, STRIDE, d, &snap).unwrap()).sum();
    assert!(kept <= compounded_deposit(&st, 1_000_003, &snap));
    assert!(gained <= collateral_gain(&g, STRIDE, 1_000_003, &snap).unwrap());
    assert!(kept <= st.total_deposits && gained <= 4_242);
}

#[test]
fn nothing_drifts_over_a_run() {
    let (mut st, mut g) = pool(1_000_003);
    let mut distributed = 0u128;
    let mut seized = 0u128;
    for k in 1..60u128 {
        let total = st.total_deposits;
        let before = st.last_coll_error;
        offset(&mut st, &mut g, STRIDE, k, 3 * k + 1).unwrap();
        distributed += (3 * k + 1) * DECIMAL_PRECISION + before - st.last_coll_error;
        seized += 3 * k + 1;
        assert!(st.last_coll_error < total);
    }
    assert_eq!(distributed + st.last_coll_error, seized * DECIMAL_PRECISION);
}

#[test]
fn offset_never_raises_a_deposit() {
    let (mut st, mut g) = pool(1_000_000_000_000);
    let snap = st.snapshot(&g, STRIDE);
    let mut last = compounded_deposit(&st, 900_000_000_000, &snap);
    assert_eq!(last, 900_000_000_000);
    // Halves, a near drain that rescales, another partial, and a full drain.
    for debt in [500_000_000_000u128, 499_999_999_000, 400, 600] {
        offset(&mut st, &mut g, STRIDE, debt, 1).unwrap();
        let now = compounded_deposit(&st, 900_000_000_000, &snap);
        assert!(now <= last);
        last = now;
    }
    assert_eq!((st.epoch, last), (1, 0));
}

#[test]
fn offset_within_the_envelope_succeeds() {
    // At the edge of the envelope: u128::MAX / 1e18 deposits, offset in full and in part.
    let total = u128::MAX / DECIMAL_PRECISION;
    for debt in [total, total - 1, total / 2, 1_000] {
        let (mut st, mut g) = pool(total);
        assert_eq!(offset(&mut st, &mut g, STRIDE, debt, total), Ok(()));
    }
    // One deposit more: a loss that rounds up to the whole unit no longer fits.
    let (mut st, mut g) = pool(total + 1);
    assert_eq!(offset(&mut st, &mut g, STRIDE, total, 0), Err(ReactorError::Math));
    // Less debt than the carried loss residual is refused.
    let (mut st, mut g) = pool(10);
    st.last_loss_error = DECIMAL_PRECISION + 1;
    assert_eq!(offset(&mut st, &mut g, STRIDE, 1, 0), Err(ReactorError::Math));
    st.last_loss_error = DECIMAL_PRECISION;
    assert_eq!(offset(&mut st, &mut g, STRIDE, 1, 0), Ok(()));
    // Pool-sized offsets succeed from 1e18 deposits down, with a gain after each.
    let (mut st, mut g) = pool(DECIMAL_PRECISION);
    let snap = st.snapshot(&g, STRIDE);
    let mut seized = 0;
    for part in [2u128, 3, 1_000, 7, 1] {
        let debt = st.total_deposits / part;
        offset(&mut st, &mut g, STRIDE, debt, 5).unwrap();
        seized += 5;
        assert!(collateral_gain(&g, STRIDE, DECIMAL_PRECISION, &snap).unwrap() <= seized);
    }
    assert_eq!(st.epoch, 1);
}
