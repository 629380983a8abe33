//! The product-sum pool.

use fusion::math::reactor_pool::{collateral_gain, compounded_deposit, offset, update_product, update_product_u128, PoolState, ReactorError, DECIMAL_PRECISION, MAX_EPOCHS, MAX_SCALES, SCALE_FACTOR};

const STRIDE: u64 = MAX_SCALES;

fn grid() -> Vec<u128> {
    vec![0u128; (MAX_EPOCHS * MAX_SCALES) as usize]
}

#[test]
fn fresh_pool() {
    let st = PoolState::new();
    assert_eq!(st.p, DECIMAL_PRECISION);
    assert_eq!(st.epoch, 0);
    assert_eq!(st.scale, 0);
}

#[test]
fn partial_offset_one_depositor() {
    // One depositor with 100 fUSD; a liquidation offsets 40 debt, adds 10 collateral.
    let mut st = PoolState::new();
    st.total_deposits = 100;
    let mut g = grid();
    let snap = st.snapshot(&g, STRIDE);

    offset(&mut st, &mut g, STRIDE, 40, 10).unwrap();

    // Deposits fell to 60; the sole depositor owns the whole pool, so:
    assert_eq!(st.total_deposits, 60);
    let comp = compounded_deposit(&st, 100, &snap);
    // Liquity's loss-per-unit "+1" keeps the pool solvent: compounded rounds DOWN to
    // <= remaining deposits (the dust stays as a buffer), here 59 vs 60.
    assert!(comp <= 60 && 60 - comp <= 1, "compounded within dust of pool: {}", comp);
    let gain = collateral_gain(&g, STRIDE, 100, &snap).unwrap();
    assert_eq!(gain, 10, "sole depositor gets all seized collateral");
}

#[test]
fn two_depositors_share_pro_rata() {
    // 60 + 40 = 100 total; offset 50 debt / 20 coll. Each should keep 50% of deposit
    // and earn collateral pro-rata to their share.
    let mut st = PoolState::new();
    st.total_deposits = 100;
    let mut g = grid();
    let snap = st.snapshot(&g, STRIDE);

    offset(&mut st, &mut g, STRIDE, 50, 20).unwrap();

    assert_eq!(st.total_deposits, 50);
    let a = compounded_deposit(&st, 60, &snap); // ~30
    let b = compounded_deposit(&st, 40, &snap); // ~20
    assert!((a as i128 - 30).abs() <= 1);
    assert!((b as i128 - 20).abs() <= 1);
    // Solvency invariant: compounded deposits never exceed the pool; deficit is dust.
    assert!(a + b <= st.total_deposits, "no over-allocation: {} > {}", a + b, st.total_deposits);
    assert!(st.total_deposits - (a + b) <= 2, "deficit is dust: {}", st.total_deposits - (a + b));

    let ga = collateral_gain(&g, STRIDE, 60, &snap).unwrap(); // ~12
    let gb = collateral_gain(&g, STRIDE, 40, &snap).unwrap(); // ~8
    assert!((ga as i128 - 12).abs() <= 1);
    assert!((gb as i128 - 8).abs() <= 1);
    assert!(ga + gb <= 20 && ga + gb >= 19, "collateral conserved (minus dust): {}", ga + gb);
}

#[test]
fn full_offset_rolls_epoch_and_wipes_deposits() {
    let mut st = PoolState::new();
    st.total_deposits = 100;
    let mut g = grid();
    let snap = st.snapshot(&g, STRIDE);

    offset(&mut st, &mut g, STRIDE, 100, 25).unwrap(); // debt == total -> full drain

    assert_eq!(st.epoch, 1);
    assert_eq!(st.scale, 0);
    assert_eq!(st.p, DECIMAL_PRECISION);
    assert_eq!(st.total_deposits, 0);
    // Depositor from epoch 0 is wiped (compounded -> 0) but still claims their gain.
    assert_eq!(compounded_deposit(&st, 100, &snap), 0);
    assert_eq!(collateral_gain(&g, STRIDE, 100, &snap).unwrap(), 25);
}

#[test]
fn scale_bumps_when_product_underflows() {
    // A near-total offset (99.9999%+) collapses P below SCALE_FACTOR -> scale++.
    let mut st = PoolState::new();
    st.total_deposits = 1_000_000_000_000; // 1e12
    let mut g = grid();
    // offset almost everything: leaves 1 unit of 1e12 -> product_factor ~ 1e-12 * 1e18 = 1e6
    offset(&mut st, &mut g, STRIDE, 1_000_000_000_000 - 1, 1_000_000).unwrap();
    assert!(st.scale >= 1, "scale should bump on product underflow, got {}", st.scale);
    assert!(st.p >= SCALE_FACTOR, "P rescaled back above SCALE_FACTOR: {}", st.p);
    assert_eq!(st.total_deposits, 1);
}

#[test]
fn error_feedback_no_drift_over_many_offsets() {
    // Many tiny offsets should distribute ~all collateral with no systematic drift,
    // thanks to last_coll_error feedback.
    let mut st = PoolState::new();
    st.total_deposits = 1_000_000; // 1e6
    let mut g = grid();
    let snap = st.snapshot(&g, STRIDE);
    let rounds = 1000u128;
    for _ in 0..rounds {
        // offset 1 unit of debt, 3 units of collateral each round
        offset(&mut st, &mut g, STRIDE, 1, 3).unwrap();
    }
    assert_eq!(st.total_deposits, 1_000_000 - rounds);
    let gain = collateral_gain(&g, STRIDE, 1_000_000, &snap).unwrap();
    // total collateral added = 3 * 1000 = 3000; sole depositor should get ~all of it.
    assert!(gain >= 3000 - 2 && gain <= 3000, "no drift: got {} expected ~3000", gain);
}

#[test]
fn rejects_debt_exceeding_deposits() {
    let mut st = PoolState::new();
    st.total_deposits = 10;
    let mut g = grid();
    assert_eq!(offset(&mut st, &mut g, STRIDE, 11, 1), Err(ReactorError::DebtExceedsDeposits));
    assert_eq!(offset(&mut PoolState::new(), &mut g, STRIDE, 1, 1), Err(ReactorError::NoDeposits));
}

#[test]
fn large_realistic_market_with_lst_ratio_never_overflows() {
    let mut st = PoolState::new();
    st.total_deposits = 10_000_000_000u128 * 1_000_000; // $10B at 6 decimals = 1e16 native
    let mut g = grid();

    for round in 0u128..30 {
        let total = st.total_deposits;
        // A near-total offset once (round 10) to force a product collapse + scale bump; ordinary
        // ~14% partials otherwise. Seized collateral is ~7× the offset debt (a 9-dec ~$150 LST/SOL
        // ratio), well under the ~340 marginal limit.
        let debt = if round == 10 { total - 1 } else { total / 7 };
        let coll = debt.saturating_mul(7);
        offset(&mut st, &mut g, STRIDE, debt, coll).expect("realistic large offset never overflows");
        assert!(st.p >= SCALE_FACTOR && st.p <= DECIMAL_PRECISION, "P in range: {}", st.p);
        assert!(st.scale < MAX_SCALES, "scale stays inside the grid: {}", st.scale);
        assert!(st.epoch < MAX_EPOCHS, "epoch stays inside the grid: {}", st.epoch);
        // Re-fund toward the original size so later rounds stay large.
        st.total_deposits = st.total_deposits.saturating_add(total / 2);
    }
}

#[test]
fn epoch_grid_absorbs_max_rolls_then_reverts() {
    let mut st = PoolState::new();
    let mut g = grid();
    // The grid addresses epochs 0..MAX_EPOCHS-1, so it absorbs (MAX_EPOCHS - 1) full-drain rolls.
    for e in 1..MAX_EPOCHS {
        st.total_deposits = 1_000_000; // re-fund the drained pool
        offset(&mut st, &mut g, STRIDE, 1_000_000, 500).expect("full drain within the grid rolls the epoch");
        assert_eq!(st.epoch, e, "epoch rolled to {e}");
    }
    // One more full drain would need an out-of-grid cell at epoch == MAX_EPOCHS -> revert, not wrap.
    st.total_deposits = 1_000_000;
    assert_eq!(
        offset(&mut st, &mut g, STRIDE, 1_000_000, 500),
        Err(ReactorError::EpochOverflow),
        "the (MAX_EPOCHS)th roll is a migration trigger, not a silent wrap"
    );
}

#[test]
fn offset_reverts_not_wraps_beyond_envelope() {
    let mut g = grid();

    // `debt_to_offset · 1e18` overflows (partial offset, so the loss-numerator path runs).
    let mut st = PoolState::new();
    st.total_deposits = u128::MAX;
    assert_eq!(offset(&mut st, &mut g, STRIDE, u128::MAX / 2, 0), Err(ReactorError::Math));

    // `coll_to_add · 1e18` overflows.
    let mut st = PoolState::new();
    st.total_deposits = u128::MAX;
    assert_eq!(offset(&mut st, &mut g, STRIDE, 1, u128::MAX), Err(ReactorError::Math));

    // The marginal `coll_gain_per_unit · P` overflows when coll/total >> 340 even though `coll·1e18`
    // itself fits (total 1e6, coll 1e12 -> ratio 1e6).
    let mut st = PoolState::new();
    st.total_deposits = 1_000_000;
    assert_eq!(offset(&mut st, &mut g, STRIDE, 1, 1_000_000_000_000), Err(ReactorError::Math));
}

fn check_twin(p: u128, factor: u128) {
    assert_eq!(
        update_product_u128(p, factor),
        update_product(p, factor),
        "p={p} factor={factor}"
    );
}

#[test]
fn update_product_matches_bnum() {
    let ps = [
        SCALE_FACTOR,
        SCALE_FACTOR + 1,
        SCALE_FACTOR * 7,
        DECIMAL_PRECISION / 3,
        DECIMAL_PRECISION - 1,
        DECIMAL_PRECISION,
    ];
    let factors =
        [1u128, 2, SCALE_FACTOR - 1, SCALE_FACTOR, SCALE_FACTOR + 1, DECIMAL_PRECISION - 1, DECIMAL_PRECISION];
    for &p in &ps {
        for &f in &factors {
            check_twin(p, f);
        }
    }
    let mut s: u128 = 0x1234_5678_9ABC_DEF0;
    let mut next = || {
        s = s.wrapping_mul(6_364_136_223_846_793_005).wrapping_add(1_442_695_040_888_963_407);
        s
    };
    for _ in 0..20_000 {
        let p = SCALE_FACTOR + next() % (DECIMAL_PRECISION - SCALE_FACTOR + 1);
        let f = 1 + next() % DECIMAL_PRECISION;
        check_twin(p, f);
    }
}
