//! Laws of the Reactor Pool: the range of the product, what an offset keeps, solvency, and
//! conservation of the seized collateral.

use crate::math::arith::{lemma_floor, lemma_floor_exact, lemma_floor_ge, lemma_floor_le, lemma_floor_mono, lemma_mul_mono};
use crate::math::floor_mul_div;
use crate::math::reactor_pool::{cell, coll_gain_per_unit, coll_numerator, compounded, fresh_pool_state, gain_since, lemma_partial_loss, loss_error, loss_numerator, loss_per_unit, offset_outcome, product_factor, raw_compounded, rescale, sum_at, sum_since, PoolState, ReactorError, Snapshot, DECIMAL_PRECISION, SCALE_FACTOR};
use vstd::arithmetic::power::{lemma_pow0, lemma_pow1, lemma_pow_adds, lemma_pow_positive, pow};
use vstd::prelude::*;

verus! {

// The grid.

/// Two cells of the grid never alias: an in-range `(epoch, scale)` is found back from its index.
pub proof fn law_cells_never_alias(e1: int, s1: int, e2: int, s2: int, stride: int, len: int)
    requires
        e1 >= 0,
        s1 >= 0,
        e2 >= 0,
        s2 >= 0,
        cell(e1, s1, stride, len) is Some,
        cell(e1, s1, stride, len) == cell(e2, s2, stride, len),
    ensures
        e1 == e2,
        s1 == s2,
        0 <= cell(e1, s1, stride, len)->0 < len,
{
    let i = e1 * stride + s1;
    vstd::arithmetic::div_mod::lemma_fundamental_div_mod_converse(i, stride, e1, s1);
    vstd::arithmetic::div_mod::lemma_fundamental_div_mod_converse(i, stride, e2, s2);
    assert(e1 * stride >= 0) by (nonlinear_arith)
        requires
            e1 >= 0,
            stride > 0,
    ;
}

/// Every cell past the current one is still zero.
pub open spec fn fresh_ahead(st: PoolState, grid: Seq<u128>, stride: u64) -> bool {
    forall|i: int|
        st.epoch * stride + st.scale < i < grid.len() ==> #[trigger] grid[i] == 0
}

// The product.

/// `P` lies between its floor and 1.0.
pub open spec fn product_in_range(st: PoolState) -> bool {
    SCALE_FACTOR <= st.p <= DECIMAL_PRECISION
}

/// A successful rescale by `b - bumps` steps is the exact floor of the scaled numerator, at or above
/// the floor.
pub proof fn lemma_rescale(num: int, bumps: int)
    requires
        num >= 0,
        0 <= bumps,
    ensures
        rescale(num, bumps) matches Ok((p, b)) ==> bumps <= b <= 4 && p == num * pow(
            SCALE_FACTOR as int,
            (b - bumps) as nat,
        ) / DECIMAL_PRECISION as int && p >= SCALE_FACTOR,
        rescale(num, bumps) matches Err(e) ==> e == ReactorError::Math,
    decreases 5 - bumps,
{
    let sf = SCALE_FACTOR as int;
    if bumps > 4 {
    } else if num / DECIMAL_PRECISION as int >= SCALE_FACTOR {
        lemma_pow0(sf);
        assert(num * 1 == num);
    } else {
        lemma_rescale(num * sf, bumps + 1);
        if let Ok((p, b)) = rescale(num * sf, bumps + 1) {
            lemma_pow1(sf);
            lemma_pow_adds(sf, 1, (b - bumps - 1) as nat);
            let rest = pow(sf, (b - bumps - 1) as nat);
            assert(num * sf * rest == num * (sf * rest)) by (nonlinear_arith);
        }
    }
}

/// Over the real domain the product update never fails, rescales at most twice, and stays in range.
pub proof fn law_update_product_stays_in_range(p: u128, factor: u128)
    requires
        SCALE_FACTOR <= p <= DECIMAL_PRECISION,
        1 <= factor <= DECIMAL_PRECISION,
    ensures
        p * factor <= u128::MAX,
        rescale(p * factor, 0) is Ok,
        SCALE_FACTOR <= rescale(p * factor, 0)->Ok_0.0 <= DECIMAL_PRECISION,
        rescale(p * factor, 0)->Ok_0.1 <= 2,
{
    let n: int = p * factor;
    assert(1_000_000_000 <= n <= 1_000_000_000_000_000_000_000_000_000_000_000_000)
        by (nonlinear_arith)
        requires
            n == p * factor,
            1_000_000_000 <= p <= 1_000_000_000_000_000_000,
            1 <= factor <= 1_000_000_000_000_000_000,
    ;
    reveal_with_fuel(rescale, 4);
}

/// The product is rescaled no further than needed: one rescale less would leave it below the floor.
pub proof fn law_rescale_is_least(num: int, p: u128, b: u32)
    requires
        num >= 0,
        rescale(num, 0) == Ok::<(u128, u32), ReactorError>((p, b)),
    ensures
        p == num * pow(SCALE_FACTOR as int, b as nat) / DECIMAL_PRECISION as int,
        b > 0 ==> num * pow(SCALE_FACTOR as int, (b - 1) as nat) / (DECIMAL_PRECISION as int)
            < SCALE_FACTOR,
{
    lemma_rescale(num, 0);
    lemma_rescale_least(num, 0);
}

pub proof fn lemma_rescale_least(num: int, bumps: int)
    requires
        num >= 0,
        bumps >= 0,
    ensures
        rescale(num, bumps) matches Ok((p, b)) ==> b > bumps ==> num * pow(
            SCALE_FACTOR as int,
            (b - bumps - 1) as nat,
        ) / (DECIMAL_PRECISION as int) < SCALE_FACTOR,
    decreases 5 - bumps,
{
    let sf = SCALE_FACTOR as int;
    lemma_rescale(num, bumps);
    if bumps <= 4 && num / (DECIMAL_PRECISION as int) < SCALE_FACTOR {
        lemma_rescale(num * sf, bumps + 1);
        lemma_rescale_least(num * sf, bumps + 1);
        if let Ok((p, b)) = rescale(num * sf, bumps + 1) {
            if b == bumps + 1 {
                lemma_pow0(sf);
                assert(num * 1 == num);
            } else {
                lemma_pow1(sf);
                lemma_pow_adds(sf, 1, (b - bumps - 2) as nat);
                let rest = pow(sf, (b - bumps - 2) as nat);
                assert(num * sf * rest == num * (sf * rest)) by (nonlinear_arith);
            }
        }
    }
}

// One offset.

/// The parts of a successful offset.
pub proof fn lemma_offset_ok(st: PoolState, grid: Seq<u128>, stride: u64, debt: u128, coll: u128)
    requires
        offset_outcome(st, grid, stride, debt, coll).result is Ok,
    ensures
        ({
            let o = offset_outcome(st, grid, stride, debt, coll);
            let t = st.total_deposits as int;
            let i = st.epoch * stride + st.scale;
            let factor = product_factor(st, debt);
            &&& t > 0
            &&& debt <= t
            &&& o.state.total_deposits == t - debt
            &&& 0 <= o.state.last_coll_error < t
            &&& coll_gain_per_unit(st, coll) >= 0
            &&& coll_gain_per_unit(st, coll) * t + o.state.last_coll_error == coll
                * DECIMAL_PRECISION + st.last_coll_error
            &&& o.state.last_loss_error == loss_error(st, debt)
            &&& st.scale < stride
            &&& 0 <= i < grid.len()
            &&& o.grid == grid.update(i, (grid[i] + coll_gain_per_unit(st, coll) * st.p) as u128)
            &&& grid[i] + coll_gain_per_unit(st, coll) * st.p <= u128::MAX
            &&& 0 <= factor <= DECIMAL_PRECISION
            &&& debt < t ==> 1 <= o.state.last_loss_error <= t
            &&& debt < t ==> factor * t == (t - debt) * DECIMAL_PRECISION + st.last_loss_error
                - o.state.last_loss_error
            &&& factor == 0 ==> o.state.epoch == st.epoch + 1 && o.state.scale == 0 && o.state.p
                == DECIMAL_PRECISION
            &&& factor > 0 ==> debt < t && o.state.epoch == st.epoch && o.state.scale >= st.scale
                && rescale(st.p * factor, 0) == Ok::<(u128, u32), ReactorError>(
                (o.state.p, (o.state.scale - st.scale) as u32),
            )
        }),
{
    let t = st.total_deposits as int;
    lemma_floor(coll_numerator(st, coll), t);
    let u = coll_gain_per_unit(st, coll);
    assert(t * u == u * t) by (nonlinear_arith);
    if debt < t {
        lemma_partial_loss(st, debt);
    }
    assert(u * st.p >= 0) by (nonlinear_arith)
        requires
            u >= 0,
            st.p >= 0,
    ;
    assert(st.epoch * stride >= 0) by (nonlinear_arith)
        requires
            st.epoch >= 0,
            stride >= 0,
    ;
    let f = product_factor(st, debt);
    assert(st.p * f >= 0) by (nonlinear_arith)
        requires
            st.p >= 0,
            f >= 0,
    ;
    lemma_rescale(st.p * f, 0);
}

/// A refused offset moves nothing but the carried residuals: the deposits, the product, the scale,
/// and the epoch are as before.
pub proof fn law_refused_offset_keeps_pool(
    st: PoolState,
    grid: Seq<u128>,
    stride: u64,
    debt: u128,
    coll: u128,
)
    requires
        offset_outcome(st, grid, stride, debt, coll).result is Err,
    ensures
        offset_outcome(st, grid, stride, debt, coll).state == (PoolState {
            last_coll_error: offset_outcome(st, grid, stride, debt, coll).state.last_coll_error,
            last_loss_error: offset_outcome(st, grid, stride, debt, coll).state.last_loss_error,
            ..st
        }),
{
}

/// An offset with no deposits, or for more than the deposits, is refused and changes nothing.
pub proof fn law_oversized_offset_is_refused(
    st: PoolState,
    grid: Seq<u128>,
    stride: u64,
    debt: u128,
    coll: u128,
)
    requires
        debt > st.total_deposits || st.total_deposits == 0,
    ensures
        offset_outcome(st, grid, stride, debt, coll).state == st,
        offset_outcome(st, grid, stride, debt, coll).grid == grid,
        offset_outcome(st, grid, stride, debt, coll).result == (if st.total_deposits == 0 {
            Err::<(), ReactorError>(ReactorError::NoDeposits)
        } else {
            Err(ReactorError::DebtExceedsDeposits)
        }),
{
}

/// Whatever its result, an offset keeps the product in range.
pub proof fn law_offset_keeps_product_in_range(
    st: PoolState,
    grid: Seq<u128>,
    stride: u64,
    debt: u128,
    coll: u128,
)
    requires
        product_in_range(st),
    ensures
        product_in_range(offset_outcome(st, grid, stride, debt, coll).state),
        product_in_range(fresh_pool_state()),
{
    let o = offset_outcome(st, grid, stride, debt, coll);
    if o.result is Ok {
        lemma_offset_ok(st, grid, stride, debt, coll);
        let f = product_factor(st, debt);
        if f > 0 {
            law_update_product_stays_in_range(st.p, f as u128);
        }
    }
}

/// An offset within the overflow envelope succeeds: the deposits and the collateral fit `u128` times 1e18,
/// the sum has room for what is added, the debt is not below the carried loss residual, and the grid has
/// room for two more scales and one more epoch.
pub proof fn law_offset_within_the_envelope_succeeds(
    st: PoolState,
    grid: Seq<u128>,
    stride: u64,
    debt: u128,
    coll: u128,
)
    requires
        product_in_range(st),
        0 < st.total_deposits,
        debt <= st.total_deposits,
        st.total_deposits * DECIMAL_PRECISION <= u128::MAX,
        debt < st.total_deposits ==> st.last_loss_error <= debt * DECIMAL_PRECISION,
        coll_numerator(st, coll) <= u128::MAX,
        sum_at(grid, st.epoch as int, st.scale as int, stride as int) + coll_gain_per_unit(st, coll)
            * st.p <= u128::MAX,
        st.epoch < u64::MAX,
        cell(st.epoch as int, st.scale + 2, stride as int, grid.len() as int) is Some,
        cell(st.epoch + 1, 0, stride as int, grid.len() as int) is Some,
    ensures
        offset_outcome(st, grid, stride, debt, coll).result is Ok,
{
    let t = st.total_deposits as int;
    let d = DECIMAL_PRECISION as int;
    lemma_mul_mono(debt as int, t, d);
    assert(coll_gain_per_unit(st, coll) * st.p <= u128::MAX);
    if debt < t {
        lemma_partial_loss(st, debt);
        lemma_mul_mono(loss_per_unit(st, debt), d, t);
        let f = product_factor(st, debt);
        if f > 0 {
            law_update_product_stays_in_range(st.p, f as u128);
        }
    }
}

/// The envelope in round numbers: with at most 1e18 deposits, residuals below 1e18, and no more seized
/// units than deposits, an offset of some debt succeeds while the sum leaves room for 2e36 and the grid
/// for two more scales and one more epoch.
pub proof fn law_pool_sized_offset_succeeds(
    st: PoolState,
    grid: Seq<u128>,
    stride: u64,
    debt: u128,
    coll: u128,
)
    requires
        product_in_range(st),
        0 < debt <= st.total_deposits <= DECIMAL_PRECISION,
        coll <= st.total_deposits,
        st.last_loss_error <= DECIMAL_PRECISION,
        st.last_coll_error < st.total_deposits,
        sum_at(grid, st.epoch as int, st.scale as int, stride as int) + 2 * DECIMAL_PRECISION
            * DECIMAL_PRECISION <= u128::MAX,
        st.epoch < u64::MAX,
        cell(st.epoch as int, st.scale + 2, stride as int, grid.len() as int) is Some,
        cell(st.epoch + 1, 0, stride as int, grid.len() as int) is Some,
    ensures
        offset_outcome(st, grid, stride, debt, coll).result is Ok,
{
    let t = st.total_deposits as int;
    let d = DECIMAL_PRECISION as int;
    let n = coll_numerator(st, coll);
    lemma_mul_mono(t, d, d);
    lemma_mul_mono(coll as int, t, d);
    lemma_mul_mono(1, debt as int, d);
    assert((d + 1) * t == t * d + t) by (nonlinear_arith);
    lemma_floor_le(n, t, d);
    lemma_floor(n, t);
    let u = coll_gain_per_unit(st, coll);
    assert(u * st.p <= d * d) by (nonlinear_arith)
        requires
            0 <= u <= d,
            0 <= st.p <= d,
    ;
    law_offset_within_the_envelope_succeeds(st, grid, stride, debt, coll);
}

/// With the product in range, a successful offset never moves backwards: the deposits fall by
/// exactly the debt, the epoch stays or rolls by one (and then scale and product are reset), within an
/// epoch the scale grows by at most two, and within a scale the product does not grow.
pub proof fn law_offset_moves_forward(
    st: PoolState,
    grid: Seq<u128>,
    stride: u64,
    debt: u128,
    coll: u128,
)
    requires
        product_in_range(st),
        offset_outcome(st, grid, stride, debt, coll).result is Ok,
    ensures
        ({
            let after = offset_outcome(st, grid, stride, debt, coll).state;
            &&& after.total_deposits == st.total_deposits - debt
            &&& after.epoch == st.epoch ==> st.scale <= after.scale <= st.scale + 2
            &&& after.epoch == st.epoch && after.scale == st.scale ==> after.p <= st.p
            &&& after.epoch != st.epoch ==> after.epoch == st.epoch + 1 && after.scale == 0
                && after.p == DECIMAL_PRECISION
        }),
{
    lemma_offset_ok(st, grid, stride, debt, coll);
    let f = product_factor(st, debt);
    if f > 0 {
        law_update_product_stays_in_range(st.p, f as u128);
        let d = DECIMAL_PRECISION as int;
        let n = st.p * f;
        lemma_mul_mono(0, f, st.p as int);
        lemma_mul_mono(f, d, st.p as int);
        lemma_rescale(n, 0);
        lemma_pow0(SCALE_FACTOR as int);
        assert(n * 1 == n);
        lemma_floor_mono(n, st.p * d, d);
        lemma_floor_exact(st.p as int, d);
    }
}

/// The epoch rolls exactly when the whole pool is offset, or when the loss per unit rounds up to the
/// whole unit; with fewer than `1e18 + last_loss_error` deposits that is a full drain only.
pub proof fn law_epoch_rolls_iff_drained(
    st: PoolState,
    grid: Seq<u128>,
    stride: u64,
    debt: u128,
    coll: u128,
)
    requires
        offset_outcome(st, grid, stride, debt, coll).result is Ok,
    ensures
        offset_outcome(st, grid, stride, debt, coll).state.epoch != st.epoch <==> debt
            == st.total_deposits || loss_numerator(st, debt) >= (DECIMAL_PRECISION - 1)
            * st.total_deposits,
        st.total_deposits < DECIMAL_PRECISION + st.last_loss_error ==> (offset_outcome(
            st,
            grid,
            stride,
            debt,
            coll,
        ).state.epoch != st.epoch <==> debt == st.total_deposits),
{
    lemma_offset_ok(st, grid, stride, debt, coll);
    let t = st.total_deposits as int;
    let d = DECIMAL_PRECISION as int;
    if debt < t {
        lemma_partial_loss(st, debt);
        assert(debt * d <= (t - 1) * d) by (nonlinear_arith)
            requires
                debt <= t - 1,
                d >= 0,
        ;
        assert((t - 1) * d == t * d - d) by (nonlinear_arith);
        assert((d - 1) * t == t * d - t) by (nonlinear_arith);
    }
}

/// A full drain resets the pool: no deposits, the next epoch, scale 0, product 1.0, no loss residual;
/// and the collateral residual is a proper remainder.
pub proof fn law_full_drain_resets(st: PoolState, grid: Seq<u128>, stride: u64, coll: u128)
    requires
        offset_outcome(st, grid, stride, st.total_deposits, coll).result is Ok,
    ensures
        ({
            let after = offset_outcome(st, grid, stride, st.total_deposits, coll).state;
            &&& after.total_deposits == 0
            &&& after.epoch == st.epoch + 1
            &&& after.scale == 0
            &&& after.p == DECIMAL_PRECISION
            &&& after.last_loss_error == 0
            &&& after.last_coll_error < st.total_deposits
        }),
{
    lemma_offset_ok(st, grid, stride, st.total_deposits, coll);
}

/// The residuals of a partial offset: the loss is rounded up, by at least 1 and at most the total;
/// the collateral residual is a proper remainder.
pub proof fn law_partial_offset_residuals(
    st: PoolState,
    grid: Seq<u128>,
    stride: u64,
    debt: u128,
    coll: u128,
)
    requires
        debt < st.total_deposits,
        offset_outcome(st, grid, stride, debt, coll).result is Ok,
    ensures
        1 <= offset_outcome(st, grid, stride, debt, coll).state.last_loss_error
            <= st.total_deposits,
        offset_outcome(st, grid, stride, debt, coll).state.last_coll_error < st.total_deposits,
{
    lemma_offset_ok(st, grid, stride, debt, coll);
}

/// The sums only grow, and only the current cell moves: whatever its result, an offset leaves every
/// other cell as it was.
pub proof fn law_sums_only_grow(
    st: PoolState,
    grid: Seq<u128>,
    stride: u64,
    debt: u128,
    coll: u128,
    i: int,
)
    requires
        0 <= i < grid.len(),
    ensures
        offset_outcome(st, grid, stride, debt, coll).grid.len() == grid.len(),
        offset_outcome(st, grid, stride, debt, coll).grid[i] >= grid[i],
        i != st.epoch * stride + st.scale ==> offset_outcome(st, grid, stride, debt, coll).grid[i]
            == grid[i],
{
    let t = st.total_deposits as int;
    if t > 0 {
        lemma_floor(coll_numerator(st, coll), t);
        let u = coll_gain_per_unit(st, coll);
        assert(u * st.p >= 0) by (nonlinear_arith)
            requires
                u >= 0,
                st.p >= 0,
        ;
    }
}

/// The cells past the current one stay zero, so a fresh scale or epoch always starts from zero.
pub proof fn law_cells_ahead_stay_zero(
    st: PoolState,
    grid: Seq<u128>,
    stride: u64,
    debt: u128,
    coll: u128,
)
    requires
        fresh_ahead(st, grid, stride),
    ensures
        fresh_ahead(
            offset_outcome(st, grid, stride, debt, coll).state,
            offset_outcome(st, grid, stride, debt, coll).grid,
            stride,
        ),
{
    let o = offset_outcome(st, grid, stride, debt, coll);
    if o.result is Ok {
        lemma_offset_ok(st, grid, stride, debt, coll);
        if o.state.epoch == st.epoch + 1 {
            assert((st.epoch + 1) * stride == st.epoch * stride + stride) by (nonlinear_arith);
        }
    } else {
        law_refused_offset_keeps_pool(st, grid, stride, debt, coll);
    }
    assert forall|i: int| o.state.epoch * stride + o.state.scale < i < o.grid.len() implies
        #[trigger] o.grid[i] == 0 by {
        assert(o.grid.len() == grid.len());
        assert(st.epoch * stride >= 0) by (nonlinear_arith)
            requires
                st.epoch >= 0,
                stride >= 0,
        ;
        law_sums_only_grow(st, grid, stride, debt, coll, i);
        assert(grid[i] == 0);
    }
}

// Solvency.

/// The pool backs claims of `shares / unit` per unit of product, up to `slack` parts of 1e-18:
/// `shares * P / unit <= total_deposits + (slack - last_loss_error) / 1e18`, without division.
///
/// A deposit `d` with a snapshot at product `p` claims `d / p`; each rescale since then multiplies
/// its unit by 1e9.
pub open spec fn backs(st: PoolState, shares: int, unit: int, slack: int) -> bool {
    shares * st.p * DECIMAL_PRECISION <= (st.total_deposits * DECIMAL_PRECISION
        - st.last_loss_error + slack) * unit
}

/// A partial offset keeps all claims backed: the `+1` in the loss per unit takes from the claims at
/// least what leaves the pool.
pub proof fn law_offset_keeps_claims_backed(
    st: PoolState,
    grid: Seq<u128>,
    stride: u64,
    debt: u128,
    coll: u128,
    shares: int,
    unit: int,
    slack: int,
)
    requires
        offset_outcome(st, grid, stride, debt, coll).result is Ok,
        offset_outcome(st, grid, stride, debt, coll).state.epoch == st.epoch,
        backs(st, shares, unit, slack),
        slack >= st.last_loss_error,
        shares >= 0,
        unit > 0,
    ensures
        backs(
            offset_outcome(st, grid, stride, debt, coll).state,
            shares,
            unit * pow(
                SCALE_FACTOR as int,
                (offset_outcome(st, grid, stride, debt, coll).state.scale - st.scale) as nat,
            ),
            slack,
        ),
{
    let after = offset_outcome(st, grid, stride, debt, coll).state;
    lemma_offset_ok(st, grid, stride, debt, coll);
    let d = DECIMAL_PRECISION as int;
    let f = product_factor(st, debt);
    let b = (after.scale - st.scale) as nat;
    let m = pow(SCALE_FACTOR as int, b);
    let t = st.total_deposits as int;
    let t2 = after.total_deposits as int;
    let e = st.last_loss_error as int;
    let e2 = after.last_loss_error as int;
    let p = st.p as int;
    let p2 = after.p as int;
    assert(p * f >= 0) by (nonlinear_arith)
        requires
            p >= 0,
            f >= 0,
    ;
    lemma_rescale(p * f, 0);
    lemma_pow_positive(SCALE_FACTOR as int, b);
    lemma_floor(p * f * m, d);
    assert(p2 * d <= p * f * m);
    // What the claims lose covers what the pool loses.
    let before = t * d - e + slack;
    let left = t2 * d - e2 + slack;
    assert(before * f <= left * d) by (nonlinear_arith)
        requires
            before == t * d - e + slack,
            left == t2 * d - e2 + slack,
            f * t == t2 * d + e - e2,
            0 <= f <= d,
            slack >= e,
    {
        assert(before * f == (f * t) * d + (slack - e) * f);
        assert((slack - e) * f <= (slack - e) * d);
        assert(left * d == (t2 * d + e - e2) * d + (slack - e) * d);
    }
    assert((shares * p2 * d) * d <= (left * (unit * m)) * d) by (nonlinear_arith)
        requires
            p2 * d <= p * f * m,
            shares * p * d <= before * unit,
            before * f <= left * d,
            shares >= 0,
            unit > 0,
            m > 0,
            d > 0,
            f >= 0,
    {
        assert(shares * (p2 * d) <= shares * (p * f * m));
        assert((shares * (p2 * d)) * d <= (shares * (p * f * m)) * d);
        assert((shares * (p * f * m)) * d == (shares * p * d) * (f * m));
        assert(f * m >= 0);
        assert((shares * p * d) * (f * m) <= (before * unit) * (f * m));
        assert((before * unit) * (f * m) == (before * f) * (unit * m));
        assert(unit * m > 0);
        assert((before * f) * (unit * m) <= (left * d) * (unit * m));
    }
    assert(shares * p2 * d <= left * (unit * m)) by (nonlinear_arith)
        requires
            (shares * p2 * d) * d <= (left * (unit * m)) * d,
            d > 0,
    ;
}

/// A deposit at the current product adds exactly its own claim.
pub proof fn law_deposit_keeps_claims_backed(
    st: PoolState,
    deposit: u128,
    shares: int,
    unit: int,
    slack: int,
)
    requires
        backs(st, shares, unit, slack),
        st.total_deposits + deposit <= u128::MAX,
    ensures
        backs(
            PoolState { total_deposits: (st.total_deposits + deposit) as u128, ..st },
            shares * st.p + deposit * unit,
            unit * st.p,
            slack,
        ),
{
    let d = DECIMAL_PRECISION as int;
    let p = st.p as int;
    let x = st.total_deposits * d - st.last_loss_error + slack;
    let y = (st.total_deposits + deposit) * d - st.last_loss_error + slack;
    assert((shares * p + deposit * unit) * p * d <= y * (unit * p)) by (nonlinear_arith)
        requires
            shares * p * d <= x * unit,
            y == x + deposit * d,
            p >= 0,
    {
        assert((shares * p + deposit * unit) * p * d == (shares * p * d) * p + (deposit * d * unit)
            * p);
        assert((shares * p * d) * p <= (x * unit) * p);
        assert(y * (unit * p) == (x * unit) * p + (deposit * d * unit) * p);
    }
}

/// A depositor who realizes their deposit at the rounded-down `value` of their claim
/// (`value <= own * P / own_unit`) and withdraws part of it leaves every other claim backed.
pub proof fn law_withdrawal_keeps_claims_backed(
    st: PoolState,
    own: int,
    own_unit: int,
    value: int,
    withdrawn: u128,
    shares: int,
    unit: int,
    slack: int,
)
    requires
        backs(st, shares * own_unit + own * unit, unit * own_unit, slack),
        own_unit > 0,
        unit > 0,
        value * own_unit <= own * st.p,
        withdrawn <= value,
        withdrawn <= st.total_deposits,
    ensures
        backs(
            PoolState { total_deposits: (st.total_deposits - withdrawn) as u128, ..st },
            shares * st.p + (value - withdrawn) * unit,
            unit * st.p,
            slack,
        ),
{
    let d = DECIMAL_PRECISION as int;
    let p = st.p as int;
    let w = withdrawn as int;
    let x = st.total_deposits * d - st.last_loss_error + slack;
    let y = (st.total_deposits - w) * d - st.last_loss_error + slack;
    assert(y == x - w * d) by (nonlinear_arith)
        requires
            x == st.total_deposits * d - st.last_loss_error + slack,
            y == (st.total_deposits - w) * d - st.last_loss_error + slack,
    ;
    let claims = (shares * p + value * unit) * d;
    let sp = shares * p;
    let vu = value * unit;
    assert(claims * own_unit == sp * d * own_unit + vu * d * own_unit) by (nonlinear_arith)
        requires
            claims == (sp + vu) * d,
    ;
    assert(sp * d * own_unit == (shares * own_unit * p) * d) by (nonlinear_arith)
        requires
            sp == shares * p,
    ;
    assert(vu * d * own_unit == (value * own_unit) * (unit * d)) by (nonlinear_arith)
        requires
            vu == value * unit,
    ;
    assert(unit * d > 0) by (nonlinear_arith)
        requires
            unit > 0,
            d > 0,
    ;
    lemma_mul_mono(value * own_unit, own * p, unit * d);
    assert((shares * own_unit + own * unit) * p * d == (shares * own_unit * p) * d + (own * p) * (
    unit * d)) by (nonlinear_arith);
    assert(x * (unit * own_unit) == (x * unit) * own_unit) by (nonlinear_arith);
    assert(claims <= x * unit) by (nonlinear_arith)
        requires
            claims * own_unit <= (x * unit) * own_unit,
            own_unit > 0,
    ;
    assert((shares * p + (value - w) * unit) * p * d == claims * p - (w * d * unit) * p)
        by (nonlinear_arith)
        requires
            claims == (shares * p + value * unit) * d,
    ;
    lemma_mul_mono(claims, x * unit, p);
    assert(y * (unit * p) == (x * unit) * p - (w * d * unit) * p) by (nonlinear_arith)
        requires
            y == x - w * d,
    ;
}

/// The deposit before the dust guard is a floor of the claim.
proof fn lemma_raw_compounded_is_floor(st: PoolState, initial: u128, snap: Snapshot)
    requires
        snap.p > 0,
        snap.scale <= st.scale,
    ensures
        raw_compounded(st, initial, snap) * (snap.p * pow(
            SCALE_FACTOR as int,
            (st.scale - snap.scale) as nat,
        )) <= initial * st.p,
{
    let n: int = initial * st.p;
    let q = snap.p as int;
    let sf = SCALE_FACTOR as int;
    assert(n >= 0) by (nonlinear_arith)
        requires
            n == initial * st.p,
            initial >= 0,
            st.p >= 0,
    ;
    lemma_floor(n, q);
    let share = match floor_mul_div(initial, st.p, snap.p) {
        Some(x) => x as int,
        None => 0int,
    };
    assert(0 <= share * q <= n) by (nonlinear_arith)
        requires
            share == 0 || share * q <= n,
            share >= 0,
            q > 0,
            n >= 0,
    ;
    lemma_pow0(sf);
    lemma_pow1(sf);
    let diff = (st.scale - snap.scale) as nat;
    let m = pow(sf, diff);
    let raw = raw_compounded(st, initial, snap) as int;
    if diff == 0 {
        assert(q * 1 == q);
    } else if diff == 1 {
        lemma_floor(share, sf);
        assert(raw * (q * sf) <= n) by (nonlinear_arith)
            requires
                raw * sf <= share,
                share * q <= n,
                q > 0,
        {
            assert((raw * sf) * q <= share * q);
            assert(raw * (q * sf) == (raw * sf) * q);
        }
    } else {
        assert(0 * (q * m) == 0);
    }
}

/// A backed claim can be paid out: the compounded deposit does not exceed what the pool holds, as
/// long as less than one whole unit of slack is left.
pub proof fn law_backed_claim_is_payable(
    st: PoolState,
    initial: u128,
    snap: Snapshot,
    slack: int,
)
    requires
        snap.p > 0,
        snap.scale <= st.scale,
        backs(
            st,
            initial as int,
            snap.p * pow(SCALE_FACTOR as int, (st.scale - snap.scale) as nat),
            slack,
        ),
        slack - st.last_loss_error < DECIMAL_PRECISION,
    ensures
        compounded(st, initial, snap) <= raw_compounded(st, initial, snap) <= st.total_deposits,
{
    lemma_raw_compounded_is_floor(st, initial, snap);
    let d = DECIMAL_PRECISION as int;
    let m = pow(SCALE_FACTOR as int, (st.scale - snap.scale) as nat);
    lemma_pow_positive(SCALE_FACTOR as int, (st.scale - snap.scale) as nat);
    let unit = snap.p * m;
    let c = raw_compounded(st, initial, snap) as int;
    let x = st.total_deposits * d - st.last_loss_error + slack;
    assert(unit > 0) by (nonlinear_arith)
        requires
            unit == snap.p * m,
            snap.p > 0,
            m > 0,
    ;
    assert(c * d <= x) by (nonlinear_arith)
        requires
            c * unit <= initial * st.p,
            initial * st.p * d <= x * unit,
            unit > 0,
            d > 0,
    {
        assert((c * unit) * d <= (initial * st.p) * d);
        assert((c * d) * unit == (c * unit) * d);
    }
    assert(c <= st.total_deposits) by (nonlinear_arith)
        requires
            c * d < st.total_deposits * d + d,
            d > 0,
    ;
}

/// Depositors who share a snapshot never claim more together than one deposit of the sum would.
pub proof fn law_shares_never_exceed_the_whole(st: PoolState, a: u128, b: u128, snap: Snapshot)
    requires
        snap.p > 0,
        a + b <= u128::MAX,
        floor_mul_div((a + b) as u128, st.p, snap.p) is Some,
    ensures
        raw_compounded(st, a, snap) + raw_compounded(st, b, snap) <= raw_compounded(
            st,
            (a + b) as u128,
            snap,
        ),
{
    let q = snap.p as int;
    let p = st.p as int;
    lemma_mul_mono(0, a as int, p);
    lemma_mul_mono(0, b as int, p);
    assert((a + b) * p == a * p + b * p) by (nonlinear_arith);
    lemma_floor(a * p, q);
    lemma_floor(b * p, q);
    let x = a * p / q;
    let y = b * p / q;
    assert((x + y) * q == x * q + y * q) by (nonlinear_arith);
    lemma_floor_ge((a + b) * p, q, x + y);
}

/// No deposit is lost to overflow: from a snapshot with its product at or above the floor, and, within one
/// scale, not below the current one, the share fits `u128` and what is left of the deposit is the exact
/// floor, at most the deposit. Past a rescale this is so of deposits up to `u128::MAX / 1e9`.
pub proof fn law_share_is_exact(st: PoolState, initial: u128, snap: Snapshot)
    requires
        product_in_range(st),
        snap.p >= SCALE_FACTOR,
        st.scale == snap.scale ==> st.p <= snap.p,
        st.scale != snap.scale ==> initial * SCALE_FACTOR <= u128::MAX,
    ensures
        floor_mul_div(initial, st.p, snap.p) is Some,
        st.scale == snap.scale ==> raw_compounded(st, initial, snap) == initial * st.p
            / snap.p as int,
        st.scale == snap.scale + 1 ==> raw_compounded(st, initial, snap) == initial * st.p / (snap.p
            * SCALE_FACTOR),
        raw_compounded(st, initial, snap) <= initial,
{
    let q = snap.p as int;
    let sf = SCALE_FACTOR as int;
    let n = initial * st.p;
    let k = if st.scale == snap.scale {
        1int
    } else {
        sf
    };
    lemma_mul_mono(0, initial as int, st.p as int);
    lemma_mul_mono(sf, q, sf);
    assert(n <= (initial * k) * q) by (nonlinear_arith)
        requires
            n == initial * st.p,
            st.p <= k * q,
            initial >= 0,
    ;
    lemma_floor_mono(n, (initial * k) * q, q);
    lemma_floor_exact(initial * k, q);
    lemma_floor(n, q);
    lemma_floor_mono(n / q, initial * sf, sf);
    lemma_floor_exact(initial as int, sf);
    vstd::arithmetic::div_mod::lemma_div_denominator(n, q, sf);
}

/// An offset only ever reduces a deposit: what compounds from a snapshot never grows, across rescales
/// and epochs. The share of the deposit must fit `u128` beforehand, as one that does not counts as
/// nothing.
pub proof fn law_offset_never_raises_a_deposit(
    st: PoolState,
    grid: Seq<u128>,
    stride: u64,
    debt: u128,
    coll: u128,
    initial: u128,
    snap: Snapshot,
)
    requires
        offset_outcome(st, grid, stride, debt, coll).result is Ok,
        snap.p > 0,
        snap.epoch <= st.epoch,
        snap.epoch == st.epoch ==> snap.scale <= st.scale && floor_mul_div(
            initial,
            st.p,
            snap.p,
        ) is Some,
    ensures
        compounded(offset_outcome(st, grid, stride, debt, coll).state, initial, snap)
            <= compounded(st, initial, snap),
{
    let after = offset_outcome(st, grid, stride, debt, coll).state;
    lemma_offset_ok(st, grid, stride, debt, coll);
    if after.epoch == st.epoch && snap.epoch == st.epoch {
        let d = DECIMAL_PRECISION as int;
        let sf = SCALE_FACTOR as int;
        let p = st.p as int;
        let p2 = after.p as int;
        let f = product_factor(st, debt);
        let n = p * f;
        lemma_mul_mono(0, f, p);
        lemma_mul_mono(f, d, p);
        lemma_rescale(n, 0);
        let b = (after.scale - st.scale) as nat;
        let q = snap.p as int;
        lemma_mul_mono(0, initial as int, p);
        lemma_mul_mono(0, p2, initial as int);
        lemma_floor(initial * p, q);
        lemma_floor(initial * p2, q);
        let share = initial * p / q;
        let share2 = initial * p2 / q;
        if b == 0 {
            lemma_pow0(sf);
            assert(n * 1 == n);
            lemma_floor_mono(n, p * d, d);
            lemma_floor_exact(p, d);
            lemma_mul_mono(p2, p, initial as int);
            lemma_floor_mono(initial * p2, initial * p, q);
            lemma_floor_mono(share2, share, sf);
        } else if b == 1 && st.scale == snap.scale {
            lemma_pow1(sf);
            assert(n * sf <= (p * sf) * d) by (nonlinear_arith)
                requires
                    n <= p * d,
                    sf > 0,
            ;
            lemma_floor_mono(n * sf, (p * sf) * d, d);
            lemma_floor_exact(p * sf, d);
            lemma_mul_mono(p2, p * sf, initial as int);
            assert(initial * (p * sf) == (initial * p) * sf) by (nonlinear_arith);
            assert((initial * p) * sf < ((share + 1) * q) * sf) by (nonlinear_arith)
                requires
                    initial * p < (share + 1) * q,
                    sf > 0,
            ;
            assert(share2 < (share + 1) * sf) by (nonlinear_arith)
                requires
                    share2 * q < ((share + 1) * q) * sf,
                    q > 0,
            {
                assert(((share + 1) * q) * sf == ((share + 1) * sf) * q);
            }
            lemma_floor_le(share2, sf, share);
        }
        assert(raw_compounded(after, initial, snap) <= raw_compounded(st, initial, snap));
    }
}

// Runs of offsets.

/// The state and grid after a run of `(debt, coll)` offsets with no deposit or withdrawal between;
/// `None` where one of them is refused.
pub open spec fn run(st: PoolState, grid: Seq<u128>, stride: u64, ops: Seq<(u128, u128)>) -> Option<
    (PoolState, Seq<u128>),
>
    decreases ops.len(),
{
    if ops.len() == 0 {
        Some((st, grid))
    } else {
        match run(st, grid, stride, ops.drop_last()) {
            None => None,
            Some((s, g)) => {
                let o = offset_outcome(s, g, stride, ops.last().0, ops.last().1);
                if o.result is Ok {
                    Some((o.state, o.grid))
                } else {
                    None
                }
            },
        }
    }
}

/// The state after a run.
pub open spec fn run_state(
    st: PoolState,
    grid: Seq<u128>,
    stride: u64,
    ops: Seq<(u128, u128)>,
) -> PoolState {
    let (s, g) = run(st, grid, stride, ops)->0;
    s
}

/// The grid after a run.
pub open spec fn run_grid(
    st: PoolState,
    grid: Seq<u128>,
    stride: u64,
    ops: Seq<(u128, u128)>,
) -> Seq<u128> {
    let (s, g) = run(st, grid, stride, ops)->0;
    g
}

/// All collateral seized in a run.
pub open spec fn seized(ops: Seq<(u128, u128)>) -> int
    decreases ops.len(),
{
    if ops.len() == 0 {
        0
    } else {
        seized(ops.drop_last()) + ops.last().1
    }
}

proof fn lemma_seized_nonneg(ops: Seq<(u128, u128)>)
    ensures
        seized(ops) >= 0,
    decreases ops.len(),
{
    if ops.len() > 0 {
        lemma_seized_nonneg(ops.drop_last());
    }
}

/// The gains per unit of a run, summed.
pub open spec fn units_gained(
    st: PoolState,
    grid: Seq<u128>,
    stride: u64,
    ops: Seq<(u128, u128)>,
) -> int
    decreases ops.len(),
{
    if ops.len() == 0 {
        0
    } else {
        units_gained(st, grid, stride, ops.drop_last()) + coll_gain_per_unit(
            run_state(st, grid, stride, ops.drop_last()),
            ops.last().1,
        )
    }
}

/// What a run gives to the deposits, in parts of 1e-18: the gain per unit times the deposits of each
/// offset, summed.
pub open spec fn distributed(
    st: PoolState,
    grid: Seq<u128>,
    stride: u64,
    ops: Seq<(u128, u128)>,
) -> int
    decreases ops.len(),
{
    if ops.len() == 0 {
        0
    } else {
        let s = run_state(st, grid, stride, ops.drop_last());
        distributed(st, grid, stride, ops.drop_last()) + coll_gain_per_unit(s, ops.last().1)
            * s.total_deposits
    }
}

/// No drift: over any run, what is distributed is exactly what was seized, up to the change of the
/// one carried residual.
pub proof fn law_no_drift(st: PoolState, grid: Seq<u128>, stride: u64, ops: Seq<(u128, u128)>)
    requires
        run(st, grid, stride, ops) is Some,
    ensures
        distributed(st, grid, stride, ops) == seized(ops) * DECIMAL_PRECISION + st.last_coll_error
            - run_state(st, grid, stride, ops).last_coll_error,
    decreases ops.len(),
{
    if ops.len() > 0 {
        law_no_drift(st, grid, stride, ops.drop_last());
        let (s, g) = run(st, grid, stride, ops.drop_last())->0;
        lemma_offset_ok(s, g, stride, ops.last().0, ops.last().1);
        let d = DECIMAL_PRECISION as int;
        assert(seized(ops) * d == seized(ops.drop_last()) * d + ops.last().1 * d)
            by (nonlinear_arith)
            requires
                seized(ops) == seized(ops.drop_last()) + ops.last().1,
        ;
    }
}

/// The totals and residuals of a run, against a bound on where it starts.
proof fn lemma_run_bounds(
    st: PoolState,
    grid: Seq<u128>,
    stride: u64,
    ops: Seq<(u128, u128)>,
    bound: int,
)
    requires
        run(st, grid, stride, ops) is Some,
        st.total_deposits <= bound,
        st.last_loss_error <= bound,
    ensures
        ({
            let (s, g) = run(st, grid, stride, ops)->0;
            &&& s.total_deposits <= st.total_deposits
            &&& s.last_loss_error <= bound
            &&& s.epoch >= st.epoch
            &&& s.epoch == st.epoch ==> s.scale >= st.scale
            &&& s.epoch == st.epoch && ops.len() > 0 ==> s.last_loss_error >= 1
            &&& g.len() == grid.len()
        }),
    decreases ops.len(),
{
    if ops.len() > 0 {
        lemma_run_bounds(st, grid, stride, ops.drop_last(), bound);
        let (s, g) = run(st, grid, stride, ops.drop_last())->0;
        lemma_offset_ok(s, g, stride, ops.last().0, ops.last().1);
    }
}

/// The claim of the whole pool stays backed over a run within one epoch.
proof fn lemma_run_backs(
    st: PoolState,
    grid: Seq<u128>,
    stride: u64,
    ops: Seq<(u128, u128)>,
    bound: int,
)
    requires
        run(st, grid, stride, ops) is Some,
        run_state(st, grid, stride, ops).epoch == st.epoch,
        st.total_deposits <= bound,
        st.last_loss_error <= bound,
        st.p > 0,
    ensures
        backs(
            run_state(st, grid, stride, ops),
            st.total_deposits as int,
            st.p * pow(
                SCALE_FACTOR as int,
                (run_state(st, grid, stride, ops).scale - st.scale) as nat,
            ),
            bound,
        ),
    decreases ops.len(),
{
    let sf = SCALE_FACTOR as int;
    let d = DECIMAL_PRECISION as int;
    if ops.len() == 0 {
        lemma_pow0(sf);
        let x = st.total_deposits * d - st.last_loss_error + bound;
        assert(st.total_deposits * st.p * d <= x * (st.p * 1)) by (nonlinear_arith)
            requires
                x >= st.total_deposits * d,
                st.p >= 0,
        ;
    } else {
        let prefix = ops.drop_last();
        lemma_run_bounds(st, grid, stride, prefix, bound);
        let (s, g) = run(st, grid, stride, prefix)->0;
        lemma_offset_ok(s, g, stride, ops.last().0, ops.last().1);
        lemma_run_backs(st, grid, stride, prefix, bound);
        let m = pow(sf, (s.scale - st.scale) as nat);
        lemma_pow_positive(sf, (s.scale - st.scale) as nat);
        let unit = st.p * m;
        assert(unit > 0) by (nonlinear_arith)
            requires
                unit == st.p * m,
                st.p > 0,
                m > 0,
        ;
        law_offset_keeps_claims_backed(
            s,
            g,
            stride,
            ops.last().0,
            ops.last().1,
            st.total_deposits as int,
            unit,
            bound,
        );
        let after = run_state(st, grid, stride, ops);
        lemma_pow_adds(sf, (s.scale - st.scale) as nat, (after.scale - s.scale) as nat);
        let m2 = pow(sf, (after.scale - s.scale) as nat);
        assert((st.p * m) * m2 == st.p * (m * m2)) by (nonlinear_arith);
    }
}

/// Solvency over any run of offsets: whoever owned the whole pool at the start never compounds to
/// more than the pool still holds, across every rescale, and is wiped to zero once the epoch rolled.
/// The pool starts with at most 1e18 deposits.
pub proof fn law_whole_pool_stays_solvent(
    st: PoolState,
    grid: Seq<u128>,
    stride: u64,
    ops: Seq<(u128, u128)>,
    entry: Snapshot,
)
    requires
        run(st, grid, stride, ops) is Some,
        st.total_deposits <= DECIMAL_PRECISION,
        st.last_loss_error <= DECIMAL_PRECISION,
        st.p > 0,
        entry.p == st.p,
        entry.scale == st.scale,
        entry.epoch == st.epoch,
    ensures
        compounded(run_state(st, grid, stride, ops), st.total_deposits, entry) <= run_state(
            st,
            grid,
            stride,
            ops,
        ).total_deposits,
        run_state(st, grid, stride, ops).epoch != st.epoch ==> compounded(
            run_state(st, grid, stride, ops),
            st.total_deposits,
            entry,
        ) == 0,
{
    let d = DECIMAL_PRECISION as int;
    let after = run_state(st, grid, stride, ops);
    lemma_run_bounds(st, grid, stride, ops, d);
    if after.epoch == st.epoch {
        if ops.len() == 0 {
            lemma_floor_exact(st.total_deposits as int, st.p as int);
        } else {
            lemma_run_backs(st, grid, stride, ops, d);
            law_backed_claim_is_payable(after, st.total_deposits, entry, d);
        }
    }
}

/// Beyond 1e18 deposits the excess of the whole pool's claim is bounded by what the start allows:
/// less than `max(total_deposits, last_loss_error) / 1e18` whole units.
pub proof fn law_whole_pool_excess_is_bounded(
    st: PoolState,
    grid: Seq<u128>,
    stride: u64,
    ops: Seq<(u128, u128)>,
    entry: Snapshot,
    bound: int,
)
    requires
        run(st, grid, stride, ops) is Some,
        run_state(st, grid, stride, ops).epoch == st.epoch,
        st.total_deposits <= bound,
        st.last_loss_error <= bound,
        st.p > 0,
        entry.p == st.p,
        entry.scale == st.scale,
        entry.epoch == st.epoch,
    ensures
        compounded(run_state(st, grid, stride, ops), st.total_deposits, entry) * DECIMAL_PRECISION
            <= run_state(st, grid, stride, ops).total_deposits * DECIMAL_PRECISION + bound,
{
    let d = DECIMAL_PRECISION as int;
    let after = run_state(st, grid, stride, ops);
    lemma_run_bounds(st, grid, stride, ops, bound);
    lemma_run_backs(st, grid, stride, ops, bound);
    lemma_raw_compounded_is_floor(after, st.total_deposits, entry);
    let m = pow(SCALE_FACTOR as int, (after.scale - st.scale) as nat);
    lemma_pow_positive(SCALE_FACTOR as int, (after.scale - st.scale) as nat);
    let unit = st.p * m;
    let c = raw_compounded(after, st.total_deposits, entry) as int;
    let x = after.total_deposits * d - after.last_loss_error + bound;
    assert(unit > 0) by (nonlinear_arith)
        requires
            unit == st.p * m,
            st.p > 0,
            m > 0,
    ;
    assert(c * d <= x) by (nonlinear_arith)
        requires
            c * unit <= st.total_deposits * after.p,
            st.total_deposits * after.p * d <= x * unit,
            unit > 0,
            d > 0,
    {
        assert((c * unit) * d <= (st.total_deposits * after.p) * d);
        assert((c * d) * unit == (c * unit) * d);
    }
    let guarded = compounded(after, st.total_deposits, entry) as int;
    lemma_mul_mono(guarded, c, d);
}

/// One offset from a pool without a carried loss residual is solvent at any size: the whole pool
/// compounds to no more than what is left.
pub proof fn law_first_offset_is_solvent(
    st: PoolState,
    grid: Seq<u128>,
    stride: u64,
    debt: u128,
    coll: u128,
    entry: Snapshot,
)
    requires
        offset_outcome(st, grid, stride, debt, coll).result is Ok,
        st.last_loss_error <= DECIMAL_PRECISION,
        st.p > 0,
        entry.p == st.p,
        entry.scale == st.scale,
        entry.epoch == st.epoch,
    ensures
        compounded(
            offset_outcome(st, grid, stride, debt, coll).state,
            st.total_deposits,
            entry,
        ) <= offset_outcome(st, grid, stride, debt, coll).state.total_deposits,
{
    let d = DECIMAL_PRECISION as int;
    let after = offset_outcome(st, grid, stride, debt, coll).state;
    let slack = st.last_loss_error as int;
    lemma_offset_ok(st, grid, stride, debt, coll);
    if after.epoch == st.epoch {
        assert(backs(st, st.total_deposits as int, st.p as int, slack)) by {
            assert(st.total_deposits * st.p * d == (st.total_deposits * d) * st.p)
                by (nonlinear_arith);
        }
        law_offset_keeps_claims_backed(
            st,
            grid,
            stride,
            debt,
            coll,
            st.total_deposits as int,
            st.p as int,
            slack,
        );
        law_backed_claim_is_payable(after, st.total_deposits, entry, slack);
    }
}

/// A deposit that nothing has touched since its snapshot is whole, and has gained nothing.
pub proof fn law_untouched_deposit_is_whole(
    st: PoolState,
    grid: Seq<u128>,
    stride: u64,
    deposit: u128,
    snap: Snapshot,
)
    requires
        st.p > 0,
        fresh_ahead(st, grid, stride),
        snap.p == st.p,
        snap.s == sum_at(grid, st.epoch as int, st.scale as int, stride as int),
        snap.scale == st.scale,
        snap.epoch == st.epoch,
    ensures
        compounded(st, deposit, snap) == deposit,
        gain_since(grid, stride, deposit, snap) == Ok::<u128, ReactorError>(0),
{
    lemma_floor_exact(deposit as int, st.p as int);
    assert(sum_at(grid, st.epoch as int, st.scale + 1, stride as int) == 0) by {
        assert(st.epoch * stride >= 0) by (nonlinear_arith)
            requires
                st.epoch >= 0,
                stride >= 0,
        ;
    }
    assert(sum_since(grid, stride, snap) == 0);
    assert(deposit * 0 == 0);
    vstd::arithmetic::div_mod::lemma_div_of0(st.p as int);
}

// The seized collateral.

/// Where the sums only grow, a gain only grows.
pub proof fn law_gain_only_accrues(
    before: Seq<u128>,
    after: Seq<u128>,
    stride: u64,
    initial: u128,
    snap: Snapshot,
)
    requires
        before.len() == after.len(),
        forall|i: int| 0 <= i < before.len() ==> #[trigger] before[i] <= after[i],
        gain_since(after, stride, initial, snap) is Ok,
    ensures
        gain_since(before, stride, initial, snap) is Ok,
        gain_since(before, stride, initial, snap)->Ok_0 <= gain_since(
            after,
            stride,
            initial,
            snap,
        )->Ok_0,
{
    let e = snap.epoch as int;
    assert(e * stride >= 0) by (nonlinear_arith)
        requires
            e >= 0,
            stride >= 0,
    ;
    assert(sum_at(before, e, snap.scale as int, stride as int) <= sum_at(
        after,
        e,
        snap.scale as int,
        stride as int,
    ));
    assert(sum_at(before, e, snap.scale + 1, stride as int) <= sum_at(
        after,
        e,
        snap.scale + 1,
        stride as int,
    ));
    let x = sum_since(before, stride, snap);
    let y = sum_since(after, stride, snap);
    if initial > 0 {
        lemma_mul_mono(x, y, initial as int);
        lemma_mul_mono(0, x, initial as int);
        lemma_floor_mono(initial * x, initial * y, snap.p as int);
        lemma_floor(initial * x, snap.p as int);
        let fx = floor_mul_div(initial, x as u128, snap.p)->0;
        let fy = floor_mul_div(initial, y as u128, snap.p)->0;
        lemma_floor_mono(fx as int, fy as int, DECIMAL_PRECISION as int);
    }
}

/// Depositors who share a snapshot never gain more together than one deposit of the sum would.
pub proof fn law_gains_never_exceed_the_whole(
    grid: Seq<u128>,
    stride: u64,
    a: u128,
    b: u128,
    snap: Snapshot,
)
    requires
        a + b <= u128::MAX,
        gain_since(grid, stride, (a + b) as u128, snap) is Ok,
    ensures
        gain_since(grid, stride, a, snap) is Ok,
        gain_since(grid, stride, b, snap) is Ok,
        gain_since(grid, stride, a, snap)->Ok_0 + gain_since(grid, stride, b, snap)->Ok_0
            <= gain_since(grid, stride, (a + b) as u128, snap)->Ok_0,
{
    if a > 0 && b > 0 {
        let x = sum_since(grid, stride, snap);
        let q = snap.p as int;
        lemma_mul_mono(0, a as int, x);
        lemma_mul_mono(0, b as int, x);
        assert((a + b) * x == a * x + b * x) by (nonlinear_arith);
        lemma_floor(a * x, q);
        lemma_floor(b * x, q);
        lemma_floor((a + b) * x, q);
        let fa = a * x / q;
        let fb = b * x / q;
        assert((fa + fb) * q == fa * q + fb * q) by (nonlinear_arith);
        lemma_floor_ge((a + b) * x, q, fa + fb);
    }
}

/// The whole pool's collateral over a run, before any rounding down of the gain: it exceeds what was
/// seized by no more than the first residual and the slack of its claim allow.
proof fn lemma_run_gain(
    st: PoolState,
    grid: Seq<u128>,
    stride: u64,
    ops: Seq<(u128, u128)>,
    bound: int,
)
    requires
        run(st, grid, stride, ops) is Some,
        st.total_deposits <= bound,
        st.last_loss_error <= bound,
        st.p > 0,
        fresh_ahead(st, grid, stride),
    ensures
        ({
            let (s, g) = run(st, grid, stride, ops)->0;
            let at = sum_at(g, st.epoch as int, st.scale as int, stride as int) - sum_at(
                grid,
                st.epoch as int,
                st.scale as int,
                stride as int,
            );
            let next = sum_at(g, st.epoch as int, st.scale + 1, stride as int);
            &&& at >= 0
            &&& st.total_deposits * (at * SCALE_FACTOR + next) * DECIMAL_PRECISION <= ((seized(ops)
                * DECIMAL_PRECISION + st.last_coll_error - s.last_coll_error) * DECIMAL_PRECISION
                + bound * units_gained(st, grid, stride, ops)) * (st.p * SCALE_FACTOR)
            &&& units_gained(st, grid, stride, ops) >= 0
        }),
    decreases ops.len(),
{
    let sf = SCALE_FACTOR as int;
    let d = DECIMAL_PRECISION as int;
    let e0 = st.epoch as int;
    let s0 = st.scale as int;
    let w = stride as int;
    assert(e0 * w >= 0) by (nonlinear_arith)
        requires
            e0 >= 0,
            w >= 0,
    ;
    if ops.len() == 0 {
        assert(sum_at(grid, e0, s0 + 1, w) == 0);
        assert(st.total_deposits * (0 * sf + 0) * d == 0) by (nonlinear_arith);
        assert(((0 * d + 0) * d + bound * 0) * (st.p * sf) == 0) by (nonlinear_arith);
    } else {
        let prefix = ops.drop_last();
        let (debt, coll) = ops.last();
        lemma_run_gain(st, grid, stride, prefix, bound);
        lemma_run_bounds(st, grid, stride, prefix, bound);
        let (s, g) = run(st, grid, stride, prefix)->0;
        let o = offset_outcome(s, g, stride, debt, coll);
        lemma_offset_ok(s, g, stride, debt, coll);
        let u = coll_gain_per_unit(s, coll);
        let i = s.epoch * stride + s.scale;
        let added = u * s.p;
        assert(added >= 0) by (nonlinear_arith)
            requires
                added == u * s.p,
                u >= 0,
                s.p >= 0,
        ;
        let at1 = sum_at(g, e0, s0, w) - sum_at(grid, e0, s0, w);
        let next1 = sum_at(g, e0, s0 + 1, w) as int;
        let at2 = sum_at(o.grid, e0, s0, w) - sum_at(grid, e0, s0, w);
        let next2 = sum_at(o.grid, e0, s0 + 1, w) as int;
        // Which of the two cells the offset wrote.
        if cell(e0, s0, w, g.len() as int) is Some && cell(e0, s0, w, g.len() as int)->0 == i {
            law_cells_never_alias(e0, s0, s.epoch as int, s.scale as int, w, g.len() as int);
        }
        if cell(e0, s0 + 1, w, g.len() as int) is Some && cell(e0, s0 + 1, w, g.len() as int)->0
            == i {
            law_cells_never_alias(e0, s0 + 1, s.epoch as int, s.scale as int, w, g.len() as int);
        }
        let here = s.epoch == e0 && s.scale == s0;
        let there = s.epoch == e0 && s.scale == s0 + 1;
        assert(at2 == at1 + if here {
            added
        } else {
            0
        });
        assert(next2 == next1 + if there {
            added
        } else {
            0
        });
        // What the claim earns of it is at most its part of the pool.
        let more = (at2 - at1) * sf + (next2 - next1);
        let t0 = st.total_deposits as int;
        let p0 = st.p as int;
        let t = s.total_deposits as int;
        let share = u * (t * d + bound);
        assert(t0 * more * d <= share * (p0 * sf)) by {
            if here || there {
                lemma_run_backs(st, grid, stride, prefix, bound);
                lemma_pow0(sf);
                lemma_pow1(sf);
                let x = t * d - s.last_loss_error + bound;
                if here {
                    assert(t0 * more * d <= share * (p0 * sf)) by (nonlinear_arith)
                        requires
                            more == (u * s.p) * sf,
                            t0 * s.p * d <= x * (p0 * 1),
                            x <= t * d + bound,
                            share == u * (t * d + bound),
                            u >= 0,
                            p0 > 0,
                            sf > 0,
                    {
                        assert(t0 * more * d == (t0 * s.p * d) * (u * sf));
                        assert(u * sf >= 0);
                        assert((t0 * s.p * d) * (u * sf) <= (x * p0) * (u * sf));
                        assert((x * p0) * (u * sf) == (u * x) * (p0 * sf));
                        assert(u * x <= share);
                        assert(p0 * sf > 0);
                    }
                } else {
                    assert(t0 * more * d <= share * (p0 * sf)) by (nonlinear_arith)
                        requires
                            more == u * s.p,
                            t0 * s.p * d <= x * (p0 * sf),
                            x <= t * d + bound,
                            share == u * (t * d + bound),
                            u >= 0,
                            p0 > 0,
                            sf > 0,
                    {
                        assert(t0 * more * d == (t0 * s.p * d) * u);
                        assert((t0 * s.p * d) * u <= (x * (p0 * sf)) * u);
                        assert((x * (p0 * sf)) * u == (u * x) * (p0 * sf));
                        assert(u * x <= share);
                        assert(p0 * sf > 0);
                    }
                }
            } else {
                assert(t0 * more * d <= share * (p0 * sf)) by (nonlinear_arith)
                    requires
                        more == 0,
                        share == u * (t * d + bound),
                        u >= 0,
                        t >= 0,
                        d > 0,
                        bound >= 0,
                        p0 > 0,
                        sf > 0,
                {
                    assert(share >= 0);
                    assert(p0 * sf > 0);
                }
            }
        }
        let c0 = st.last_coll_error as int;
        let c1 = s.last_coll_error as int;
        let c2 = o.state.last_coll_error as int;
        let y1 = (seized(prefix) * d + c0 - c1) * d + bound * units_gained(st, grid, stride, prefix);
        let y2 = (seized(ops) * d + c0 - c2) * d + bound * units_gained(st, grid, stride, ops);
        assert(y2 == y1 + share) by (nonlinear_arith)
            requires
                y1 == (seized(prefix) * d + c0 - c1) * d + bound * units_gained(
                    st,
                    grid,
                    stride,
                    prefix,
                ),
                y2 == (seized(ops) * d + c0 - c2) * d + bound * units_gained(st, grid, stride, ops),
                share == u * (t * d + bound),
                seized(ops) == seized(prefix) + coll,
                units_gained(st, grid, stride, ops) == units_gained(st, grid, stride, prefix) + u,
                u * t + c2 == coll * d + c1,
        {
            assert(share == (u * t) * d + bound * u);
            assert((seized(prefix) + coll) * d == seized(prefix) * d + coll * d);
        }
        assert(t0 * (at2 * sf + next2) * d == t0 * (at1 * sf + next1) * d + t0 * more * d)
            by (nonlinear_arith)
            requires
                more == (at2 - at1) * sf + (next2 - next1),
        ;
        assert(y2 * (p0 * sf) == y1 * (p0 * sf) + share * (p0 * sf)) by (nonlinear_arith)
            requires
                y2 == y1 + share,
        ;
    }
}

/// The gain of the whole pool over any run, at any size: whoever owned the pool at the start gains at most
/// what was seized plus the first residual and the slack of the claim, in parts of 1e-36; and the gain is
/// computable wherever the sums and 1e18 times that bound fit `u128`.
pub proof fn law_whole_pool_gain_excess_is_bounded(
    st: PoolState,
    grid: Seq<u128>,
    stride: u64,
    ops: Seq<(u128, u128)>,
    entry: Snapshot,
    bound: int,
)
    requires
        run(st, grid, stride, ops) is Some,
        st.total_deposits <= bound,
        st.last_loss_error <= bound,
        st.p > 0,
        fresh_ahead(st, grid, stride),
        entry.p == st.p,
        entry.s == sum_at(grid, st.epoch as int, st.scale as int, stride as int),
        entry.scale == st.scale,
        entry.epoch == st.epoch,
    ensures
        ({
            let d = DECIMAL_PRECISION as int;
            let g = run_grid(st, grid, stride, ops);
            let result = gain_since(g, stride, st.total_deposits, entry);
            let most = seized(ops) * d * d + st.last_coll_error * d + bound * units_gained(
                st,
                grid,
                stride,
                ops,
            );
            &&& sum_since(g, stride, entry) <= u128::MAX && most <= u128::MAX * d ==> result is Ok
            &&& result matches Ok(gain) ==> gain * d * d <= most
        }),
{
    let (s, g) = run(st, grid, stride, ops)->0;
    let sf = SCALE_FACTOR as int;
    let d = DECIMAL_PRECISION as int;
    let c0 = st.last_coll_error as int;
    let units = units_gained(st, grid, stride, ops);
    let most = seized(ops) * d * d + c0 * d + bound * units;
    lemma_seized_nonneg(ops);
    lemma_run_gain(st, grid, stride, ops, bound);
    assert(most >= 0) by (nonlinear_arith)
        requires
            most == seized(ops) * d * d + c0 * d + bound * units,
            seized(ops) >= 0,
            c0 >= 0,
            bound >= 0,
            units >= 0,
            d > 0,
    ;
    if st.total_deposits > 0 {
        let at = sum_at(g, st.epoch as int, st.scale as int, stride as int) - entry.s;
        let next = sum_at(g, st.epoch as int, st.scale + 1, stride as int) as int;
        let sum = sum_since(g, stride, entry);
        lemma_floor(next, sf);
        assert(sum * sf <= at * sf + next) by (nonlinear_arith)
            requires
                sum == at + next / sf,
                (next / sf) * sf <= next,
        ;
        let t0 = st.total_deposits as int;
        let p0 = st.p as int;
        lemma_mul_mono(0, t0, sum);
        lemma_floor(t0 * sum, p0);
        let share = t0 * sum / p0;
        lemma_floor(share, d);
        let y = (seized(ops) * d + c0 - s.last_coll_error) * d + bound * units;
        let z = at * sf + next;
        assert((share * d) * (p0 * sf) <= y * (p0 * sf)) by (nonlinear_arith)
            requires
                share * p0 <= t0 * sum,
                sum * sf <= z,
                t0 * z * d <= y * (p0 * sf),
                t0 > 0,
                p0 > 0,
                sf > 0,
                d > 0,
        {
            assert((share * p0) * sf <= (t0 * sum) * sf);
            assert((t0 * sum) * sf == t0 * (sum * sf));
            assert(t0 * (sum * sf) <= t0 * z);
            assert(((share * p0) * sf) * d <= (t0 * z) * d);
            assert((share * d) * (p0 * sf) == ((share * p0) * sf) * d);
        }
        assert(share * d <= y) by (nonlinear_arith)
            requires
                (share * d) * (p0 * sf) <= y * (p0 * sf),
                p0 > 0,
                sf > 0,
        {
            assert(p0 * sf > 0);
        }
        assert(y <= most) by (nonlinear_arith)
            requires
                y == (seized(ops) * d + c0 - s.last_coll_error) * d + bound * units,
                most == seized(ops) * d * d + c0 * d + bound * units,
                s.last_coll_error >= 0,
                d > 0,
        ;
        if most <= u128::MAX * d {
            assert(share <= u128::MAX) by (nonlinear_arith)
                requires
                    share * d <= u128::MAX * d,
                    d > 0,
            ;
        }
        lemma_mul_mono((share / d) * d, share, d);
    }
}

/// The seized collateral is conserved over any run: whoever owned the whole pool at the start gains
/// no more than what was seized, as long as the first residual and the slack of the claim together
/// stay below one unit; and the gain is computable wherever the sums and 1e18 times one unit more than
/// what was seized fit `u128`.
pub proof fn law_whole_pool_gain_is_conserved(
    st: PoolState,
    grid: Seq<u128>,
    stride: u64,
    ops: Seq<(u128, u128)>,
    entry: Snapshot,
    bound: int,
)
    requires
        run(st, grid, stride, ops) is Some,
        st.total_deposits <= bound,
        st.last_loss_error <= bound,
        st.p > 0,
        fresh_ahead(st, grid, stride),
        entry.p == st.p,
        entry.s == sum_at(grid, st.epoch as int, st.scale as int, stride as int),
        entry.scale == st.scale,
        entry.epoch == st.epoch,
        st.last_coll_error * DECIMAL_PRECISION + bound * units_gained(st, grid, stride, ops)
            < DECIMAL_PRECISION * DECIMAL_PRECISION,
    ensures
        sum_since(run_grid(st, grid, stride, ops), stride, entry) <= u128::MAX && (seized(ops) + 1)
            * DECIMAL_PRECISION <= u128::MAX ==> gain_since(
            run_grid(st, grid, stride, ops),
            stride,
            st.total_deposits,
            entry,
        ) is Ok,
        gain_since(run_grid(st, grid, stride, ops), stride, st.total_deposits, entry) matches Ok(
            gain,
        ) ==> gain <= seized(ops),
{
    let d = DECIMAL_PRECISION as int;
    let all = seized(ops);
    let slack = st.last_coll_error * d + bound * units_gained(st, grid, stride, ops);
    law_whole_pool_gain_excess_is_bounded(st, grid, stride, ops, entry, bound);
    assert((all + 1) * d * d == all * d * d + d * d) by (nonlinear_arith);
    if (all + 1) * d <= u128::MAX {
        lemma_mul_mono((all + 1) * d, u128::MAX as int, d);
    }
    let result = gain_since(run_grid(st, grid, stride, ops), stride, st.total_deposits, entry);
    if let Ok(gain) = result {
        assert(gain < all + 1) by (nonlinear_arith)
            requires
                gain * d * d < (all + 1) * d * d,
                d > 0,
        {
            assert(gain * d * d == gain * (d * d));
            assert((all + 1) * d * d == (all + 1) * (d * d));
            assert(d * d > 0);
        }
    }
}

/// No offset of the run seizes more collateral units than the deposits it finds.
pub open spec fn seizes_within_pool(
    st: PoolState,
    grid: Seq<u128>,
    stride: u64,
    ops: Seq<(u128, u128)>,
) -> bool
    decreases ops.len(),
{
    ops.len() == 0 || (seizes_within_pool(st, grid, stride, ops.drop_last()) && ops.last().1
        <= run_state(st, grid, stride, ops.drop_last()).total_deposits)
}

proof fn lemma_units_gained_bound(
    st: PoolState,
    grid: Seq<u128>,
    stride: u64,
    ops: Seq<(u128, u128)>,
    bound: int,
)
    requires
        run(st, grid, stride, ops) is Some,
        st.total_deposits <= bound,
        st.last_loss_error <= bound,
        st.last_coll_error <= bound,
        seizes_within_pool(st, grid, stride, ops),
    ensures
        units_gained(st, grid, stride, ops) <= ops.len() * (DECIMAL_PRECISION + bound),
        run_state(st, grid, stride, ops).last_coll_error <= bound,
    decreases ops.len(),
{
    let d = DECIMAL_PRECISION as int;
    if ops.len() == 0 {
        assert(0 * (d + bound) == 0);
    } else {
        let prefix = ops.drop_last();
        lemma_units_gained_bound(st, grid, stride, prefix, bound);
        lemma_run_bounds(st, grid, stride, prefix, bound);
        let (s, g) = run(st, grid, stride, prefix)->0;
        let coll = ops.last().1 as int;
        lemma_offset_ok(s, g, stride, ops.last().0, ops.last().1);
        let t = s.total_deposits as int;
        let n = coll_numerator(s, ops.last().1);
        assert(n < (d + bound + 1) * t) by (nonlinear_arith)
            requires
                n == coll * d + s.last_coll_error,
                coll <= t,
                s.last_coll_error <= bound,
                bound >= 0,
                t >= 1,
                d >= 1,
        {
            assert(coll * d <= t * d);
            assert(bound <= bound * t);
            assert((d + bound + 1) * t == d * t + bound * t + t);
        }
        lemma_floor_le(n, t, d + bound);
        let k = prefix.len() as int;
        assert((k + 1) * (d + bound) == k * (d + bound) + (d + bound)) by (nonlinear_arith);
    }
}

/// Over a run whose every seizure is no larger than the pool it meets, the gain of the whole pool
/// never exceeds what was seized, as long as `bound * (1e18 + bound)` per offset stays below 1e36
/// in all, for a `bound` on the deposits and residuals at the start; and the gain is computable wherever
/// the sums and 1e18 times one unit more than what was seized fit `u128`.
pub proof fn law_pool_sized_seizures_are_conserved(
    st: PoolState,
    grid: Seq<u128>,
    stride: u64,
    ops: Seq<(u128, u128)>,
    entry: Snapshot,
    bound: int,
)
    requires
        run(st, grid, stride, ops) is Some,
        st.total_deposits <= bound,
        st.last_loss_error <= bound,
        st.last_coll_error <= bound,
        st.p > 0,
        fresh_ahead(st, grid, stride),
        entry.p == st.p,
        entry.s == sum_at(grid, st.epoch as int, st.scale as int, stride as int),
        entry.scale == st.scale,
        entry.epoch == st.epoch,
        seizes_within_pool(st, grid, stride, ops),
        st.last_coll_error * DECIMAL_PRECISION + bound * (ops.len() * (DECIMAL_PRECISION + bound))
            < DECIMAL_PRECISION * DECIMAL_PRECISION,
    ensures
        sum_since(run_grid(st, grid, stride, ops), stride, entry) <= u128::MAX && (seized(ops) + 1)
            * DECIMAL_PRECISION <= u128::MAX ==> gain_since(
            run_grid(st, grid, stride, ops),
            stride,
            st.total_deposits,
            entry,
        ) is Ok,
        gain_since(run_grid(st, grid, stride, ops), stride, st.total_deposits, entry) matches Ok(
            gain,
        ) ==> gain <= seized(ops),
{
    lemma_units_gained_bound(st, grid, stride, ops, bound);
    lemma_mul_mono(
        units_gained(st, grid, stride, ops),
        ops.len() * (DECIMAL_PRECISION + bound),
        bound,
    );
    law_whole_pool_gain_is_conserved(st, grid, stride, ops, entry, bound);
}

/// One offset pays the whole pool all it seized but at most one unit, on a drain as on a partial
/// offset.
pub proof fn law_one_offset_pays_out(
    st: PoolState,
    grid: Seq<u128>,
    stride: u64,
    debt: u128,
    coll: u128,
    entry: Snapshot,
)
    requires
        offset_outcome(st, grid, stride, debt, coll).result is Ok,
        st.total_deposits <= DECIMAL_PRECISION,
        st.last_coll_error < DECIMAL_PRECISION,
        st.p > 0,
        fresh_ahead(st, grid, stride),
        entry.p == st.p,
        entry.s == sum_at(grid, st.epoch as int, st.scale as int, stride as int),
        entry.scale == st.scale,
        entry.epoch == st.epoch,
    ensures
        gain_since(
            offset_outcome(st, grid, stride, debt, coll).grid,
            stride,
            st.total_deposits,
            entry,
        ) matches Ok(gain) && coll - 1 <= gain <= coll,
{
    let o = offset_outcome(st, grid, stride, debt, coll);
    let d = DECIMAL_PRECISION as int;
    lemma_offset_ok(st, grid, stride, debt, coll);
    let u = coll_gain_per_unit(st, coll);
    let t = st.total_deposits as int;
    let p = st.p as int;
    let e = st.epoch as int;
    let w = stride as int;
    let marginal = u * st.p;
    assert(marginal >= 0) by (nonlinear_arith)
        requires
            marginal == u * p,
            u >= 0,
            p >= 0,
    ;
    let i = e * w + st.scale;
    assert(sum_at(o.grid, e, st.scale as int, w) == grid[i] + marginal);
    assert(sum_at(o.grid, e, st.scale + 1, w) == 0);
    let sum = sum_since(o.grid, stride, entry);
    assert(sum == marginal);
    assert(t * sum == (t * u) * p) by (nonlinear_arith)
        requires
            sum == u * p,
    ;
    assert(t * u == u * t) by (nonlinear_arith);
    lemma_floor_exact(t * u, p);
    let c = coll as int;
    assert(c * d - d < t * u < c * d + d);
    lemma_mul_mono(0, t, u);
    assert((c - 1) * d == c * d - d && (c + 1) * d == c * d + d) by (nonlinear_arith);
    lemma_floor_ge(t * u, d, c - 1);
    lemma_floor_le(t * u, d, c);
    assert(t * u <= u128::MAX);
}

} // verus!
