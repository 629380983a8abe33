//! Laws of the Reactor Pool in amounts: what one offset books, what a deposit keeps, and what it gains,
//! each bounded from both sides by products of what went in.

use crate::math::arith::{lemma_floor, lemma_floor_exact, lemma_floor_ge, lemma_floor_le, lemma_floor_mono, lemma_mul_mono};
use crate::math::laws::law_floor_is_greatest;
use crate::math::reactor_laws::{fresh_ahead, law_update_product_stays_in_range, lemma_offset_ok, lemma_rescale, lemma_rescale_least, product_in_range};
use crate::math::reactor_pool::{cell, coll_gain_per_unit, compounded, gain_since, lemma_partial_loss, loss_per_unit, offset_outcome, product_factor, raw_compounded, rescale, sum_at, sum_since, PoolState, ReactorError, Snapshot, DECIMAL_PRECISION, SCALE_FACTOR};
use vstd::arithmetic::power::{lemma_pow0, lemma_pow1, pow};
use vstd::prelude::*;

verus! {

// The grid and the product.

/// The grid is row-major: `(epoch, scale)` lies at `epoch * stride + scale`, inside its row and inside
/// the grid or nowhere; what lies nowhere sums to 0.
pub proof fn law_grid_is_row_major(grid: Seq<u128>, epoch: u64, scale: int, stride: u64)
    ensures
        ({
            let i = epoch * stride + scale;
            let at = cell(epoch as int, scale, stride as int, grid.len() as int);
            let sum = sum_at(grid, epoch as int, scale, stride as int);
            if scale < stride && i < grid.len() {
                at == Some(i) && sum == grid[i]
            } else {
                at is None && sum == 0
            }
        }),
{
}

/// The product update succeeds exactly on a non-zero numerator whose quotient by 1e18 fits `u128`. It
/// scales by 1e9 the least number of times that lifts the numerator to 1e27, and the product is the
/// floor of the scaled numerator over 1e18.
pub proof fn law_rescale_is_exact(num: int)
    requires
        num >= 0,
    ensures
        rescale(num, 0) is Ok <==> 0 < num < (u128::MAX + 1) * DECIMAL_PRECISION,
        rescale(num, 0) is Err ==> rescale(num, 0)->Err_0 == ReactorError::Math,
        rescale(num, 0) matches Ok((p, b)) ==> {
            let scaled = num * pow(1_000_000_000, b as nat);
            &&& p * DECIMAL_PRECISION <= scaled < (p + 1) * DECIMAL_PRECISION
            &&& scaled >= 1_000_000_000 * DECIMAL_PRECISION
            &&& b > 0 ==> num * pow(1_000_000_000, (b - 1) as nat) < 1_000_000_000 * DECIMAL_PRECISION
        },
{
    let d = DECIMAL_PRECISION as int;
    let sf = SCALE_FACTOR as int;
    lemma_rescale(num, 0);
    lemma_rescale_least(num, 0);
    reveal_with_fuel(rescale, 6);
    if let Ok((p, b)) = rescale(num, 0) {
        let scaled = num * pow(sf, b as nat);
        lemma_floor(scaled, d);
        lemma_mul_mono(sf, p as int, d);
        if b > 0 {
            lemma_floor(num * pow(sf, (b - 1) as nat), d);
        }
    }
}

// One offset.

/// The grid holds the cell that the state moves to: the first one of the next epoch after a drain, else
/// the one `bumps` scales on.
pub open spec fn room_for(st: PoolState, len: int, stride: u64, drained: bool, bumps: int) -> bool {
    if drained {
        st.epoch < u64::MAX && 0 < stride && (st.epoch + 1) * stride < len
    } else {
        bumps == 0 || (st.scale + bumps <= u64::MAX && st.scale + bumps < stride && st.epoch * stride
            + st.scale + bumps < len)
    }
}

/// An offset in amounts. `gain` is the collateral per unit, the largest with
/// `gain * total <= coll * 1e18 + residual`; `loss` is the debt per unit, the least that exceeds
/// `(debt * 1e18 - residual) / total`. The offset succeeds exactly when these amounts fit, the current
/// cell and the one that follows lie in the grid, and the product can be scaled; then the cell grows by
/// `gain * P`, the residuals are what the roundings left, the deposits fall by the debt, and the product
/// is multiplied by `1e18 - loss`, or the epoch rolls. A refused offset keeps what it had booked up to
/// the step that failed: each residual once its amounts fit, and the cell once its sum does.
pub proof fn law_offset_books_the_amounts(
    st: PoolState,
    grid: Seq<u128>,
    stride: u64,
    debt: u128,
    coll: u128,
    gain: int,
    loss: int,
)
    requires
        0 < st.total_deposits,
        debt <= st.total_deposits,
        gain * st.total_deposits <= coll * DECIMAL_PRECISION + st.last_coll_error < (gain + 1)
            * st.total_deposits,
        debt < st.total_deposits ==> (loss - 1) * st.total_deposits <= debt * DECIMAL_PRECISION
            - st.last_loss_error < loss * st.total_deposits,
        debt == st.total_deposits ==> loss == DECIMAL_PRECISION,
    ensures
        ({
            let o = offset_outcome(st, grid, stride, debt, coll);
            let t = st.total_deposits as int;
            let i = st.epoch * stride + st.scale;
            let partial = debt < t;
            let scaled = rescale(st.p * (DECIMAL_PRECISION - loss), 0);
            let drained = loss == DECIMAL_PRECISION;
            let bumps = if scaled is Ok {
                scaled->Ok_0.1 as int
            } else {
                0
            };
            let counted = coll * DECIMAL_PRECISION + st.last_coll_error <= u128::MAX;
            let charged = counted && (partial ==> st.last_loss_error <= debt * DECIMAL_PRECISION
                <= u128::MAX && loss * t <= u128::MAX);
            let fits = charged && gain * st.p <= u128::MAX;
            let inside = st.scale < stride && i < grid.len();
            let summed = grid[i] + gain * st.p <= u128::MAX;
            &&& o.result is Ok <==> fits && inside && summed && (drained || scaled is Ok)
                && room_for(st, grid.len() as int, stride, drained, bumps)
            &&& o.result is Err ==> o.result->Err_0 == (if !fits {
                ReactorError::Math
            } else if !inside {
                ReactorError::EpochOverflow
            } else if !summed {
                ReactorError::Math
            } else if drained {
                ReactorError::EpochOverflow
            } else if scaled is Err {
                ReactorError::Math
            } else {
                ReactorError::ScaleOverflow
            })
            &&& o.state.last_coll_error == if counted {
                coll * DECIMAL_PRECISION + st.last_coll_error - gain * t
            } else {
                st.last_coll_error as int
            }
            &&& o.state.last_loss_error == if !charged {
                st.last_loss_error as int
            } else if partial {
                loss * t - (debt * DECIMAL_PRECISION - st.last_loss_error)
            } else {
                0
            }
            &&& o.grid == if fits && inside && summed {
                grid.update(i, (grid[i] + gain * st.p) as u128)
            } else {
                grid
            }
            &&& o.result is Ok ==> {
                &&& o.state.total_deposits == t - debt
                &&& drained ==> o.state.epoch == st.epoch + 1 && o.state.scale == 0 && o.state.p
                    == DECIMAL_PRECISION
                &&& !drained ==> o.state.epoch == st.epoch && o.state.scale == st.scale + bumps
                    && o.state.p == scaled->Ok_0.0
            }
        }),
{
    let t = st.total_deposits as int;
    let n = coll * DECIMAL_PRECISION + st.last_coll_error;
    lemma_floor_le(n, t, gain);
    lemma_floor_ge(n, t, gain);
    lemma_floor(n, t);
    assert(coll_gain_per_unit(st, coll) == gain);
    assert(t * gain == gain * t) by (nonlinear_arith);
    assert(gain * st.p >= 0) by (nonlinear_arith)
        requires
            gain >= 0,
            st.p >= 0,
    ;
    assert(st.epoch * stride >= 0) by (nonlinear_arith)
        requires
            st.epoch >= 0,
            stride >= 0,
    ;
    if debt < t {
        let m = debt * DECIMAL_PRECISION - st.last_loss_error;
        lemma_floor_le(m, t, loss - 1);
        lemma_floor_ge(m, t, loss - 1);
        assert(loss_per_unit(st, debt) == loss);
        if m >= 0 {
            lemma_partial_loss(st, debt);
        }
    }
    assert((st.epoch + 1) * stride + 0 == (st.epoch + 1) * stride);
    let f = DECIMAL_PRECISION - loss;
    assert(product_factor(st, debt) == f);
    if f > 0 {
        lemma_mul_mono(0, f, st.p as int);
        lemma_rescale(st.p * f, 0);
    }
}

// Deposits.

/// What is left of a deposit is its share of the product: `initial * P / P_0`, over 1e9 after one
/// rescale, floored. It is kept whenever it is at least one unit and at least `initial / 1e9` of them,
/// and dropped to 0 only below that, past the first rescale, after an epoch roll, or where the share
/// before the rescale exceeds `u128`.
pub proof fn law_deposit_keeps_its_share(st: PoolState, initial: u128, snap: Snapshot)
    ensures
        ({
            let r = compounded(st, initial, snap);
            let n = initial * st.p;
            let gap = st.scale - snap.scale;
            let unit = if gap == 0 {
                snap.p as int
            } else {
                snap.p * 1_000_000_000
            };
            let least = initial as int / 1_000_000_000;
            let counts = snap.epoch >= st.epoch && (gap == 0 || gap == 1) && snap.p > 0 && n < (
            u128::MAX + 1) * snap.p;
            &&& counts && n >= unit && n >= least * unit ==> r > 0 && r * unit <= n < (r + 1) * unit
            &&& !counts || n < unit || n < least * unit ==> r == 0
        }),
{
    let n = initial * st.p;
    let q = snap.p as int;
    let sf = SCALE_FACTOR as int;
    let gap = st.scale - snap.scale;
    lemma_mul_mono(0, initial as int, st.p as int);
    law_floor_is_greatest(initial, st.p, snap.p);
    if snap.p > 0 && (gap == 0 || gap == 1) && n < (u128::MAX + 1) * snap.p {
        let unit = if gap == 0 {
            q
        } else {
            q * sf
        };
        let raw = raw_compounded(st, initial, snap) as int;
        lemma_floor(n, q);
        vstd::arithmetic::div_mod::lemma_div_denominator(n, q, sf);
        assert(unit > 0);
        assert(raw == n / unit);
        lemma_floor(n, unit);
        let least = initial as int / 1_000_000_000;
        if n >= least * unit {
            lemma_floor_ge(n, unit, least);
        } else {
            lemma_floor_le(n, unit, least - 1);
        }
        if n >= unit {
            lemma_floor_ge(n, unit, 1);
        } else {
            lemma_floor_le(n, unit, 0);
        }
    }
}

/// A partial offset takes from every deposit its share of the debt, and no more than the roundings on
/// top: what is left of `deposit` is at most its part of what is left of the pool and of the carried
/// residual, and falls short of its part of the pool by less than 1 plus two parts in `P`. So it is
/// across one rescale too, unless the deposit shrank to 1e-9.
pub proof fn law_partial_offset_keeps_the_pro_rata_deposit(
    st: PoolState,
    grid: Seq<u128>,
    stride: u64,
    debt: u128,
    coll: u128,
    deposit: u128,
    entry: Snapshot,
)
    requires
        offset_outcome(st, grid, stride, debt, coll).result is Ok,
        product_in_range(st),
        entry.p == st.p,
        entry.scale == st.scale,
        entry.epoch == st.epoch,
        ({
            let after = offset_outcome(st, grid, stride, debt, coll).state;
            &&& after.epoch == st.epoch
            &&& after.scale == st.scale || (after.scale == st.scale + 1 && after.p >= st.p && deposit
                * SCALE_FACTOR <= u128::MAX)
        }),
    ensures
        ({
            let r = compounded(offset_outcome(st, grid, stride, debt, coll).state, deposit, entry);
            let t = st.total_deposits as int;
            &&& r * t * DECIMAL_PRECISION <= deposit * ((t - debt) * DECIMAL_PRECISION
                + st.last_loss_error)
            &&& deposit * (t - debt) * st.p < (r + 1) * t * st.p + 2 * deposit * t
        }),
{
    let after = offset_outcome(st, grid, stride, debt, coll).state;
    let t = st.total_deposits as int;
    let d = deposit as int;
    let p = st.p as int;
    let p2 = after.p as int;
    let one = DECIMAL_PRECISION as int;
    let sf = SCALE_FACTOR as int;
    let f = product_factor(st, debt);
    let r = compounded(after, deposit, entry) as int;
    lemma_offset_ok(st, grid, stride, debt, coll);
    if f == 0 {
        assert(false);
    }
    law_update_product_stays_in_range(st.p, f as u128);
    lemma_rescale(p * f, 0);
    let b = (after.scale - st.scale) as nat;
    lemma_pow0(sf);
    lemma_pow1(sf);
    let k = if b == 0 {
        1int
    } else {
        sf
    };
    let n = p * f * k;
    assert(n == p * f * pow(sf, b));
    lemma_mul_mono(0, f, p);
    lemma_floor(n, one);
    // p2 * one <= p * f * k < (p2 + 1) * one
    law_deposit_keeps_its_share(after, deposit, entry);
    let unit = if b == 0 {
        p
    } else {
        p * 1_000_000_000
    };
    assert(unit == p * k) by (nonlinear_arith)
        requires
            unit == p && k == 1 || unit == p * sf && k == sf,
            sf == 1_000_000_000,
    ;
    // p2 <= p * k, so the share fits.
    lemma_mul_mono(f, one, p * k);
    assert(p * f * k == (p * k) * f) by (nonlinear_arith);
    lemma_floor_mono(n, (p * k) * one, one);
    lemma_floor_exact(p * k, one);
    assert(p2 <= p * k);
    assert(d * p2 <= (d * k) * p) by (nonlinear_arith)
        requires
            p2 <= p * k,
            d >= 0,
    ;
    assert(d * k <= u128::MAX);
    assert((d * k) * p < (u128::MAX + 1) * p) by (nonlinear_arith)
        requires
            d * k <= u128::MAX,
            p > 0,
    ;
    // p2 * 1e9 >= p * k, so the dust guard does not bite.
    let least = d / 1_000_000_000;
    if b == 0 {
        assert(p2 * 1_000_000_000 >= p * k);
    } else {
        assert(p2 * 1_000_000_000 >= p * k) by (nonlinear_arith)
            requires
                p2 >= p,
                k == 1_000_000_000,
                p >= 0,
        ;
    }
    lemma_mul_mono(0, d, p2);
    assert(d * p2 >= least * unit) by (nonlinear_arith)
        requires
            least * 1_000_000_000 <= d,
            p2 * 1_000_000_000 >= unit,
            least >= 0,
            p2 >= 0,
    {
        assert(least * unit <= least * (p2 * 1_000_000_000));
        assert(least * (p2 * 1_000_000_000) == (least * 1_000_000_000) * p2);
        assert((least * 1_000_000_000) * p2 <= d * p2);
    }
    assert(r * unit <= d * p2 < (r + 1) * unit) by {
        if d * p2 < unit {
            assert(r == 0);
            assert(0 * unit == 0 && 1 * unit == unit);
        }
    }
    lemma_pro_rata_above(d, p, p2, k, f, one, r, t, (t - debt) * one + st.last_loss_error);
    lemma_pro_rata_below(
        d,
        p,
        p2,
        k,
        f,
        one,
        r,
        t,
        t - debt,
    );
}

proof fn lemma_pro_rata_above(
    d: int,
    p: int,
    p2: int,
    k: int,
    f: int,
    one: int,
    r: int,
    t: int,
    left: int,
)
    requires
        d >= 0,
        p > 0,
        k > 0,
        t > 0,
        one > 0,
        r * (p * k) <= d * p2,
        p2 * one <= p * f * k,
        f * t <= left,
    ensures
        r * t * one <= d * left,
{
    let u = p * k;
    assert(u > 0) by (nonlinear_arith)
        requires
            u == p * k,
            p > 0,
            k > 0,
    ;
    assert((r * one) * u <= (d * f) * u) by {
        assert((r * one) * u == (r * u) * one) by (nonlinear_arith);
        lemma_mul_mono(r * u, d * p2, one);
        assert((d * p2) * one == d * (p2 * one)) by (nonlinear_arith);
        lemma_mul_mono(p2 * one, p * f * k, d);
        assert(d * (p * f * k) == (d * f) * u) by (nonlinear_arith)
            requires
                u == p * k,
        ;
    }
    assert(r * one <= d * f) by (nonlinear_arith)
        requires
            (r * one) * u <= (d * f) * u,
            u > 0,
    ;
    lemma_mul_mono(r * one, d * f, t);
    assert((r * one) * t == r * t * one) by (nonlinear_arith);
    assert((d * f) * t == d * (f * t)) by (nonlinear_arith);
    lemma_mul_mono(f * t, left, d);
}

proof fn lemma_pro_rata_below(
    d: int,
    p: int,
    p2: int,
    k: int,
    f: int,
    one: int,
    r: int,
    t: int,
    left: int,
)
    requires
        d >= 0,
        0 < p <= one,
        k > 0,
        t > 0,
        d * p2 < (r + 1) * (p * k),
        p * f * k < (p2 + 1) * one,
        left * one - t <= f * t,
    ensures
        d * left * p < (r + 1) * t * p + 2 * d * t,
{
    let u = p * k;
    assert(0 < u <= one * k) by (nonlinear_arith)
        requires
            u == p * k,
            0 < p <= one,
            k > 0,
    ;
    let dt = d * t;
    assert(dt >= 0) by (nonlinear_arith)
        requires
            dt == d * t,
            d >= 0,
            t > 0,
    ;
    // d * left * one * u <= d * t * f * u + d * t * u
    lemma_mul_mono(left * one, f * t + t, d);
    lemma_mul_mono(d * (left * one), d * (f * t + t), u);
    assert((d * (f * t + t)) * u == dt * (p * f * k) + dt * u) by (nonlinear_arith)
        requires
            dt == d * t,
            u == p * k,
    ;
    lemma_mul_mono(p * f * k, (p2 + 1) * one, dt);
    assert(dt * ((p2 + 1) * one) == (d * p2) * (t * one) + dt * one) by (nonlinear_arith)
        requires
            dt == d * t,
    ;
    assert((d * p2) * (t * one) < ((r + 1) * u) * (t * one)) by (nonlinear_arith)
        requires
            d * p2 < (r + 1) * u,
            t > 0,
            one > 0,
    {
        assert(t * one > 0);
    }
    lemma_mul_mono(u, one * k, dt);
    assert(dt * one <= dt * (one * k)) by (nonlinear_arith)
        requires
            dt >= 0,
            one > 0,
            k >= 1,
    {
        assert(one <= one * k);
    }
    let lhs = d * left * p;
    let rhs = (r + 1) * t * p + 2 * d * t;
    assert((d * (left * one)) * u == lhs * (one * k)) by (nonlinear_arith)
        requires
            lhs == d * left * p,
            u == p * k,
    ;
    let w = one * k;
    let s = (r + 1) * t * p;
    assert(((r + 1) * u) * (t * one) == s * w) by (nonlinear_arith)
        requires
            s == (r + 1) * t * p,
            u == p * k,
            w == one * k,
    ;
    assert(2 * d * t == 2 * dt) by (nonlinear_arith)
        requires
            dt == d * t,
    ;
    assert(s * w + dt * w + dt * w == rhs * w) by (nonlinear_arith)
        requires
            rhs == s + 2 * dt,
    ;
    assert(lhs < rhs) by (nonlinear_arith)
        requires
            lhs * w < rhs * w,
            w > 0,
    ;
}

// Gains.

/// A gain is the deposit's share of what the sums grew by since the snapshot: the growth at the
/// snapshot's scale, plus the sum one rescale later over 1e9. `here` and `next` are those two cells, 0
/// outside the grid, and `carried` the floor of `next / 1e9`. The gain is the largest with
/// `gain * 1e18 * P_0 <= initial * growth`; it fails exactly when a non-zero deposit meets a growth or a
/// share that exceeds `u128`, or a zero product.
pub proof fn law_gain_is_the_share_of_the_growth(
    grid: Seq<u128>,
    stride: u64,
    initial: u128,
    snap: Snapshot,
    here: u128,
    next: u128,
    carried: int,
)
    requires
        ({
            let i = snap.epoch * stride + snap.scale;
            &&& here == if snap.scale < stride && i < grid.len() {
                grid[i]
            } else {
                0
            }
            &&& next == if snap.scale + 1 < stride && i + 1 < grid.len() {
                grid[i + 1]
            } else {
                0
            }
        }),
        carried * 1_000_000_000 <= next < (carried + 1) * 1_000_000_000,
    ensures
        ({
            let growth = vstd::math::max(here - snap.s, 0) + carried;
            let r = gain_since(grid, stride, initial, snap);
            let unit = DECIMAL_PRECISION * snap.p;
            &&& initial == 0 ==> r == Ok::<u128, ReactorError>(0)
            &&& r matches Ok(gain) ==> initial == 0 || (gain * unit <= initial * growth < (gain + 1)
                * unit)
            &&& r is Err <==> initial > 0 && (growth > u128::MAX || snap.p == 0 || initial * growth >= (
            u128::MAX + 1) * snap.p)
            &&& r is Err ==> r->Err_0 == ReactorError::Math
        }),
{
    let e = snap.epoch as int;
    let w = stride as int;
    assert(e * w + (snap.scale + 1) == e * w + snap.scale + 1);
    assert(sum_at(grid, e, snap.scale as int, w) == here);
    assert(sum_at(grid, e, snap.scale + 1, w) == next);
    let sum = sum_since(grid, stride, snap);
    let growth = vstd::math::max(here - snap.s, 0) + carried;
    assert(sum == growth);
    if initial > 0 && sum <= u128::MAX {
        law_floor_is_greatest(initial, sum as u128, snap.p);
        if snap.p > 0 && initial * growth < (u128::MAX + 1) * snap.p {
            let q = snap.p as int;
            let d = DECIMAL_PRECISION as int;
            lemma_mul_mono(0, growth, initial as int);
            let n = initial * growth;
            vstd::arithmetic::div_mod::lemma_div_denominator(n, q, d);
            assert(q * d == d * q) by (nonlinear_arith);
            lemma_floor(n, q);
            assert(d * q > 0) by (nonlinear_arith)
                requires
                    d > 0,
                    q > 0,
            ;
            lemma_floor(n, d * q);
        }
    }
}

/// One offset pays every deposit its share of the seized collateral: at most its part of what was
/// seized and of the carried residual, and short of its part of what was seized by less than one unit
/// and the rounding of the gain per unit.
pub proof fn law_offset_pays_every_deposit_pro_rata(
    st: PoolState,
    grid: Seq<u128>,
    stride: u64,
    debt: u128,
    coll: u128,
    deposit: u128,
    entry: Snapshot,
)
    requires
        offset_outcome(st, grid, stride, debt, coll).result is Ok,
        deposit <= st.total_deposits,
        st.p > 0,
        fresh_ahead(st, grid, stride),
        entry.p == st.p,
        entry.s == sum_at(grid, st.epoch as int, st.scale as int, stride as int),
        entry.scale == st.scale,
        entry.epoch == st.epoch,
    ensures
        gain_since(offset_outcome(st, grid, stride, debt, coll).grid, stride, deposit, entry) matches Ok(
            gain,
        ) && gain * DECIMAL_PRECISION * st.total_deposits <= deposit * (coll * DECIMAL_PRECISION
            + st.last_coll_error) && deposit * (coll * DECIMAL_PRECISION + st.last_coll_error
            - st.total_deposits) < (gain + 1) * DECIMAL_PRECISION * st.total_deposits,
{
    let o = offset_outcome(st, grid, stride, debt, coll);
    let d = DECIMAL_PRECISION as int;
    lemma_offset_ok(st, grid, stride, debt, coll);
    let u = coll_gain_per_unit(st, coll);
    let t = st.total_deposits as int;
    let p = st.p as int;
    let e = st.epoch as int;
    let w = stride as int;
    let a = deposit as int;
    let marginal = u * st.p;
    lemma_mul_mono(0, u, p);
    let i = e * w + st.scale;
    assert(sum_at(o.grid, e, st.scale as int, w) == grid[i] + marginal);
    assert(sum_at(o.grid, e, st.scale + 1, w) == 0);
    let sum = sum_since(o.grid, stride, entry);
    assert(sum == marginal);
    assert(a * sum == (a * u) * p) by (nonlinear_arith)
        requires
            sum == u * p,
    ;
    lemma_floor_exact(a * u, p);
    lemma_mul_mono(0, a, u);
    lemma_mul_mono(a, t, u);
    assert(t * u == u * t) by (nonlinear_arith);
    let seized = coll * d + st.last_coll_error;
    assert(seized <= u128::MAX);
    assert(a * u <= seized);
    let g = (a * u) / d;
    lemma_floor(a * u, d);
    if deposit > 0 {
        assert(gain_since(o.grid, stride, deposit, entry) == Ok::<u128, ReactorError>(g as u128));
    } else {
        assert(a * u == 0) by (nonlinear_arith)
            requires
                a == 0,
        ;
    }
    // g * d <= a * u < (g + 1) * d, over t.
    lemma_mul_mono(g * d, a * u, t);
    assert((a * u) * t == a * (u * t)) by (nonlinear_arith);
    lemma_mul_mono(u * t, seized, a);
    assert((a * u) * t < ((g + 1) * d) * t) by (nonlinear_arith)
        requires
            a * u < (g + 1) * d,
            t > 0,
    ;
    lemma_mul_mono(seized - t, u * t, a);
}

} // verus!
