//! Reactor-Pool product-sum (`P` / `S`) accounting: stablecoin depositors absorb liquidated debt and
//! earn the seized collateral, in constant time per liquidation.
//!
//! - `P`: running product, starting at [`DECIMAL_PRECISION`]. Each offset multiplies it by
//!   `1 - loss_per_unit`; where it would drop below [`SCALE_FACTOR`] it is rescaled up and `scale`
//!   grows; a full-pool offset resets it and `epoch` grows.
//! - `S`: per-`(epoch, scale)` collateral gain per unit staked, a flat grid that the caller owns,
//!   addressed `epoch * stride + scale`. A cell only ever grows, so a depositor's gain can always be
//!   computed. An offset that would leave the grid is refused.
//!
//! Division residuals are carried in `last_coll_error` and `last_loss_error`, so repeated small
//! offsets do not drift. Every overflow is an error, never a wrap.

use crate::math::arith::{fit_u128, lemma_floor, lemma_floor_ge, lemma_floor_le, lemma_u128_product};
use crate::math::u256::{at_least, from_u128, quotient, times, to_u128};
use crate::math::{floor_mul_div, mul_div_floor};
use vstd::prelude::*;

verus! {

/// 1e18: the scale of the product and of the per-unit sums.
pub const DECIMAL_PRECISION: u128 = 1_000_000_000_000_000_000;

/// 1e9: the floor of `P`, and the factor of one rescale.
pub const SCALE_FACTOR: u128 = 1_000_000_000;

/// Recommended dimensions of the `S` grid (`MAX_EPOCHS * MAX_SCALES` cells). The functions here
/// take any dimensions.
pub const MAX_SCALES: u64 = 64;

pub const MAX_EPOCHS: u64 = 128;

#[derive(Clone, Copy, Debug, PartialEq, Eq, Structural)]
pub enum ReactorError {
    /// Offset attempted against an empty pool.
    NoDeposits,
    /// The debt to offset exceeds the total deposits.
    DebtExceedsDeposits,
    /// `scale` would leave the grid.
    ScaleOverflow,
    /// `epoch` would leave the grid.
    EpochOverflow,
    /// Arithmetic overflow.
    Math,
}

/// A depositor's snapshot of the pool, taken at their last interaction.
#[derive(Clone, Copy, Debug, PartialEq, Eq, Structural)]
pub struct Snapshot {
    pub p: u128,
    pub s: u128,
    pub scale: u64,
    pub epoch: u64,
}

/// The scalar state of the pool; the `S` grid is owned by the caller as a slice.
#[derive(Clone, Copy, Debug, PartialEq, Eq, Structural)]
pub struct PoolState {
    pub p: u128,
    pub epoch: u64,
    pub scale: u64,
    /// Total stablecoin currently deposited.
    pub total_deposits: u128,
    pub last_coll_error: u128,
    pub last_loss_error: u128,
}

/// The state of an empty pool at epoch 0.
pub open spec fn fresh_pool_state() -> PoolState {
    PoolState {
        p: DECIMAL_PRECISION,
        epoch: 0,
        scale: 0,
        total_deposits: 0,
        last_coll_error: 0,
        last_loss_error: 0,
    }
}

/// Position of the cell `(epoch, scale)` in a flat grid of `len` cells, where it lies inside.
pub open spec fn cell(epoch: int, scale: int, stride: int, len: int) -> Option<int> {
    if scale < stride && epoch * stride + scale < len {
        Some(epoch * stride + scale)
    } else {
        None
    }
}

/// The sum at `(epoch, scale)`; a cell outside the grid counts as 0.
pub open spec fn sum_at(grid: Seq<u128>, epoch: int, scale: int, stride: int) -> u128 {
    match cell(epoch, scale, stride, grid.len() as int) {
        Some(i) => grid[i],
        None => 0,
    }
}

impl Default for PoolState {
    fn default() -> (r: Self)
        ensures
            r == fresh_pool_state(),
    {
        Self::new()
    }
}

impl PoolState {
    pub fn new() -> (r: Self)
        ensures
            r == fresh_pool_state(),
    {
        PoolState {
            p: DECIMAL_PRECISION,
            epoch: 0,
            scale: 0,
            total_deposits: 0,
            last_coll_error: 0,
            last_loss_error: 0,
        }
    }

    /// Snapshot the pool at the current `(p, S[epoch, scale], scale, epoch)`, taken when a depositor
    /// provides, withdraws, or realizes.
    pub fn snapshot(&self, s_grid: &[u128], stride: u64) -> (r: Snapshot)
        ensures
            r == (Snapshot {
                p: self.p,
                s: sum_at(s_grid@, self.epoch as int, self.scale as int, stride as int),
                scale: self.scale,
                epoch: self.epoch,
            }),
    {
        let s: u128 = match s_idx(self.epoch, self.scale, stride, s_grid.len()) {
            Some(i) => s_grid[i],
            None => 0,
        };
        Snapshot { p: self.p, s, scale: self.scale, epoch: self.epoch }
    }
}

/// Flat index into the `S` grid; `None` exactly when the cell is out of range.
#[inline]
pub fn s_idx(epoch: u64, scale: u64, stride: u64, len: usize) -> (r: Option<usize>)
    ensures
        r == (match cell(epoch as int, scale as int, stride as int, len as int) {
            Some(i) => Some(i as usize),
            None => None,
        }),
        r matches Some(i) ==> i < len && i == epoch * stride + scale,
{
    if scale >= stride {
        return None;
    }
    proof {
        assert(0 <= epoch * stride <= 0xffff_ffff_ffff_ffff * 0xffff_ffff_ffff_ffff)
            by (nonlinear_arith)
            requires
                0 <= epoch <= 0xffff_ffff_ffff_ffff,
                0 <= stride <= 0xffff_ffff_ffff_ffff,
        ;
    }
    let i: u128 = epoch as u128 * stride as u128 + scale as u128;
    if i < len as u128 {
        Some(i as usize)
    } else {
        None
    }
}

/// New product and number of rescales, starting from the numerator `num` after `bumps` rescales:
/// while `num / 1e18` lies below the floor 1e9, `num` grows by 1e9, at most four times.
pub open spec fn rescale(num: int, bumps: int) -> Result<(u128, u32), ReactorError>
    decreases 5 - bumps,
{
    if bumps > 4 {
        Err(ReactorError::Math)
    } else if num / DECIMAL_PRECISION as int >= SCALE_FACTOR {
        match fit_u128(num / DECIMAL_PRECISION as int) {
            Some(p) => Ok((p, bumps as u32)),
            None => Err(ReactorError::Math),
        }
    } else {
        rescale(num * SCALE_FACTOR, bumps + 1)
    }
}

/// New `P` and the number of `scale` bumps: `p * factor / 1e18`, rescaled up to at least
/// [`SCALE_FACTOR`].
pub fn update_product(p: u128, factor: u128) -> (r: Result<(u128, u32), ReactorError>)
    ensures
        r == rescale(p * factor, 0),
{
    proof {
        lemma_u128_product(p, factor);
    }
    let prec = from_u128(DECIMAL_PRECISION);
    let sf = from_u128(SCALE_FACTOR);
    let threshold = from_u128(SCALE_FACTOR);
    let mut num = times(from_u128(p), from_u128(factor));
    let mut bumps: u32 = 0;
    loop
        invariant
            prec@ == DECIMAL_PRECISION,
            sf@ == SCALE_FACTOR,
            threshold@ == SCALE_FACTOR,
            bumps <= 4,
            num@ >= 0,
            rescale(p * factor, 0) == rescale(num@, bumps as int),
        decreases 5 - bumps,
    {
        let new_p = quotient(num, prec);
        if at_least(new_p, threshold) {
            return match to_u128(new_p) {
                Some(q) => Ok((q, bumps)),
                None => Err(ReactorError::Math),
            };
        }
        assert(num@ * SCALE_FACTOR == num@ * sf@);
        num = times(num, sf);
        bumps = bumps + 1;
        if bumps > 4 {
            return Err(ReactorError::Math);
        }
    }
}

/// [`update_product`] over native `u128` arithmetic: the same answer wherever `p * factor` fits
/// `u128`, an error elsewhere.
pub fn update_product_u128(p: u128, factor: u128) -> (r: Result<(u128, u32), ReactorError>)
    ensures
        r == (if p * factor > u128::MAX {
            Err(ReactorError::Math)
        } else {
            rescale(p * factor, 0)
        }),
{
    let mut num: u128 = match p.checked_mul(factor) {
        Some(n) => n,
        None => {
            return Err(ReactorError::Math);
        },
    };
    let mut bumps: u32 = 0;
    loop
        invariant
            bumps <= 4,
            rescale(p * factor, 0) == rescale(num as int, bumps as int),
            p * factor <= u128::MAX,
        decreases 5 - bumps,
    {
        let new_p: u128 = num / DECIMAL_PRECISION;
        if new_p >= SCALE_FACTOR {
            return Ok((new_p, bumps));
        }
        num = num * SCALE_FACTOR;
        bumps = bumps + 1;
        if bumps > 4 {
            return Err(ReactorError::Math);
        }
    }
}

// One offset, as a function of the state, the grid, and the two amounts.

/// `coll * 1e18` plus the carried residual.
pub open spec fn coll_numerator(st: PoolState, coll: u128) -> int {
    coll * DECIMAL_PRECISION + st.last_coll_error
}

/// Collateral gain per unit staked.
pub open spec fn coll_gain_per_unit(st: PoolState, coll: u128) -> int {
    coll_numerator(st, coll) / st.total_deposits as int
}

/// `debt * 1e18` less the carried residual.
pub open spec fn loss_numerator(st: PoolState, debt: u128) -> int {
    debt * DECIMAL_PRECISION - st.last_loss_error
}

/// Loss per unit staked, one above the floor, so that the loss is never under-counted.
pub open spec fn loss_per_unit(st: PoolState, debt: u128) -> int {
    loss_numerator(st, debt) / st.total_deposits as int + 1
}

/// What the product is multiplied by: 0 where the pool is emptied.
pub open spec fn product_factor(st: PoolState, debt: u128) -> int {
    if debt == st.total_deposits {
        0
    } else {
        DECIMAL_PRECISION - loss_per_unit(st, debt)
    }
}

/// The residual of the loss: what the rounded-up loss takes beyond the debt.
pub open spec fn loss_error(st: PoolState, debt: u128) -> int {
    if debt == st.total_deposits {
        0
    } else {
        loss_per_unit(st, debt) * st.total_deposits - loss_numerator(st, debt)
    }
}

/// What an offset leaves behind: the state, the grid, and the result.
pub struct Outcome {
    pub state: PoolState,
    pub grid: Seq<u128>,
    pub result: Result<(), ReactorError>,
}

/// The product, scale, and epoch after the sums are written.
pub open spec fn advance(st: PoolState, stride: u64, len: int, factor: int) -> Result<
    PoolState,
    ReactorError,
> {
    if factor == 0 {
        if cell(st.epoch + 1, 0, stride as int, len) is None || st.epoch == u64::MAX {
            Err(ReactorError::EpochOverflow)
        } else {
            Ok(
                PoolState {
                    epoch: (st.epoch + 1) as u64,
                    scale: 0,
                    p: DECIMAL_PRECISION,
                    ..st
                },
            )
        }
    } else {
        match rescale(st.p * factor, 0) {
            Err(e) => Err(e),
            Ok((new_p, bumps)) => if bumps > 0 && (st.scale + bumps > u64::MAX || cell(
                st.epoch as int,
                st.scale + bumps,
                stride as int,
                len,
            ) is None) {
                Err(ReactorError::ScaleOverflow)
            } else {
                Ok(PoolState { p: new_p, scale: (st.scale + bumps) as u64, ..st })
            },
        }
    }
}

/// One offset of `debt` against `coll`. The residuals are committed before a later step may fail;
/// everything else moves only together.
pub open spec fn offset_outcome(
    st: PoolState,
    grid: Seq<u128>,
    stride: u64,
    debt: u128,
    coll: u128,
) -> Outcome {
    let total = st.total_deposits;
    if total == 0 {
        Outcome { state: st, grid, result: Err(ReactorError::NoDeposits) }
    } else if debt > total {
        Outcome { state: st, grid, result: Err(ReactorError::DebtExceedsDeposits) }
    } else if coll_numerator(st, coll) > u128::MAX {
        Outcome { state: st, grid, result: Err(ReactorError::Math) }
    } else {
        let st1 = PoolState {
            last_coll_error: (coll_numerator(st, coll) % total as int) as u128,
            ..st
        };
        if debt < total && (debt * DECIMAL_PRECISION > u128::MAX || loss_numerator(st, debt) < 0
            || loss_per_unit(st, debt) * total > u128::MAX) {
            Outcome { state: st1, grid, result: Err(ReactorError::Math) }
        } else {
            let st2 = PoolState { last_loss_error: loss_error(st, debt) as u128, ..st1 };
            let marginal = coll_gain_per_unit(st, coll) * st.p;
            let at = cell(st.epoch as int, st.scale as int, stride as int, grid.len() as int);
            if marginal > u128::MAX {
                Outcome { state: st2, grid, result: Err(ReactorError::Math) }
            } else if at is None {
                Outcome { state: st2, grid, result: Err(ReactorError::EpochOverflow) }
            } else if grid[at->0] + marginal > u128::MAX {
                Outcome { state: st2, grid, result: Err(ReactorError::Math) }
            } else {
                let grid2 = grid.update(at->0, (grid[at->0] + marginal) as u128);
                match advance(st2, stride, grid.len() as int, product_factor(st, debt)) {
                    Err(e) => Outcome { state: st2, grid: grid2, result: Err(e) },
                    Ok(st3) => Outcome {
                        state: PoolState { total_deposits: (total - debt) as u128, ..st3 },
                        grid: grid2,
                        result: Ok(()),
                    },
                }
            }
        }
    }
}

/// A partial loss leaves a factor from 0 up to 1e18, and a residual from 1 up to the total.
pub proof fn lemma_partial_loss(st: PoolState, debt: u128)
    requires
        debt < st.total_deposits,
        loss_numerator(st, debt) >= 0,
    ensures
        1 <= loss_per_unit(st, debt) <= DECIMAL_PRECISION,
        1 <= loss_error(st, debt) <= st.total_deposits,
        product_factor(st, debt) * st.total_deposits == (st.total_deposits - debt)
            * DECIMAL_PRECISION + st.last_loss_error - loss_error(st, debt),
        product_factor(st, debt) == 0 <==> loss_numerator(st, debt) >= (DECIMAL_PRECISION - 1)
            * st.total_deposits,
{
    let t = st.total_deposits as int;
    let d = DECIMAL_PRECISION as int;
    let n = loss_numerator(st, debt);
    lemma_floor(n, t);
    let q = n / t;
    assert((q + 1) * t == q * t + t) by (nonlinear_arith);
    assert(debt * d <= (t - 1) * d) by (nonlinear_arith)
        requires
            debt <= t - 1,
            d >= 0,
    ;
    assert((t - 1) * d == t * d - d) by (nonlinear_arith);
    assert(d * t == t * d) by (nonlinear_arith);
    lemma_floor_le(n, t, d - 1);
    assert((d - (q + 1)) * t == d * t - (q + 1) * t) by (nonlinear_arith);
    assert((t - debt) * d == t * d - debt * d) by (nonlinear_arith);
    if n >= (d - 1) * t {
        lemma_floor_ge(n, t, d - 1);
    } else if q + 1 >= d {
        assert(q * t >= (d - 1) * t) by (nonlinear_arith)
            requires
                q >= d - 1,
                t >= 0,
        ;
    }
}

/// Apply a liquidation to the pool: burn `debt_to_offset` of deposits and distribute `coll_to_add`
/// of seized collateral to the depositors. Updates `st` and `s_grid` in place.
pub fn offset(
    st: &mut PoolState,
    s_grid: &mut [u128],
    stride: u64,
    debt_to_offset: u128,
    coll_to_add: u128,
) -> (r: Result<(), ReactorError>)
    ensures
        (Outcome { state: *final(st), grid: final(s_grid)@, result: r }) == offset_outcome(
            *old(st),
            old(s_grid)@,
            stride,
            debt_to_offset,
            coll_to_add,
        ),
{
    let ghost st0 = *st;
    let ghost grid0 = s_grid@;
    let total: u128 = st.total_deposits;
    if total == 0 {
        return Err(ReactorError::NoDeposits);
    }
    if debt_to_offset > total {
        return Err(ReactorError::DebtExceedsDeposits);
    }
    // Collateral gain per unit staked, with error feedback.

    let coll_num: u128 = match coll_to_add.checked_mul(DECIMAL_PRECISION) {
        Some(x) => match x.checked_add(st.last_coll_error) {
            Some(y) => y,
            None => {
                return Err(ReactorError::Math);
            },
        },
        None => {
            return Err(ReactorError::Math);
        },
    };
    let gain_per_unit: u128 = coll_num / total;
    proof {
        lemma_floor(coll_num as int, total as int);
    }
    st.last_coll_error = coll_num - gain_per_unit * total;

    // Loss per unit staked, and the product factor.
    let factor: u128;
    if debt_to_offset == total {
        st.last_loss_error = 0;
        factor = 0;
    } else {
        let loss_num: u128 = match debt_to_offset.checked_mul(DECIMAL_PRECISION) {
            Some(x) => match x.checked_sub(st.last_loss_error) {
                Some(y) => y,
                None => {
                    return Err(ReactorError::Math);
                },
            },
            None => {
                return Err(ReactorError::Math);
            },
        };
        proof {
            lemma_partial_loss(st0, debt_to_offset);
        }
        let loss: u128 = loss_num / total + 1;
        st.last_loss_error = match loss.checked_mul(total) {
            Some(x) => x - loss_num,
            None => {
                return Err(ReactorError::Math);
            },
        };
        factor = DECIMAL_PRECISION - loss;
    }

    // Accumulate S at the current (epoch, scale): gain per unit, times P.
    let marginal: u128 = match gain_per_unit.checked_mul(st.p) {
        Some(x) => x,
        None => {
            return Err(ReactorError::Math);
        },
    };
    let cur_i: usize = match s_idx(st.epoch, st.scale, stride, s_grid.len()) {
        Some(i) => i,
        None => {
            return Err(ReactorError::EpochOverflow);
        },
    };
    let cur_s: u128 = match s_grid[cur_i].checked_add(marginal) {
        Some(x) => x,
        None => {
            return Err(ReactorError::Math);
        },
    };
    s_grid[cur_i] = cur_s;

    // Update P, scale, epoch.
    if factor == 0 {
        let new_epoch: u64 = match st.epoch.checked_add(1) {
            Some(e) => e,
            None => {
                return Err(ReactorError::EpochOverflow);
            },
        };
        if s_idx(new_epoch, 0, stride, s_grid.len()).is_none() {
            return Err(ReactorError::EpochOverflow);
        }
        st.epoch = new_epoch;
        st.scale = 0;
        st.p = DECIMAL_PRECISION;
    } else {
        let (new_p, bumps) = match update_product(st.p, factor) {
            Ok(x) => x,
            Err(e) => {
                return Err(e);
            },
        };
        if bumps > 0 {
            let new_scale: u64 = match st.scale.checked_add(bumps as u64) {
                Some(s) => s,
                None => {
                    return Err(ReactorError::ScaleOverflow);
                },
            };
            if s_idx(st.epoch, new_scale, stride, s_grid.len()).is_none() {
                return Err(ReactorError::ScaleOverflow);
            }
            st.scale = new_scale;
        }
        st.p = new_p;
    }
    st.total_deposits = total - debt_to_offset;
    Ok(())
}

/// `initial * p / snap.p`, over 1e9 after one rescale, before the dust guard. A share past `u128` counts
/// as nothing.
pub open spec fn raw_compounded(st: PoolState, initial_deposit: u128, snap: Snapshot) -> u128 {
    let share = match floor_mul_div(initial_deposit, st.p, snap.p) {
        Some(x) => x,
        None => 0,
    };
    if st.scale == snap.scale {
        share
    } else if st.scale == snap.scale + 1 {
        share / SCALE_FACTOR
    } else {
        0
    }
}

/// The deposit that is left of `initial_deposit` since the snapshot: nothing after an epoch roll or
/// once it shrank below 1e-9 of the deposit.
pub open spec fn compounded(st: PoolState, initial_deposit: u128, snap: Snapshot) -> u128 {
    if snap.epoch < st.epoch {
        0
    } else {
        let raw = raw_compounded(st, initial_deposit, snap);
        if raw < initial_deposit / 1_000_000_000 {
            0
        } else {
            raw
        }
    }
}

/// A depositor's current compounded deposit, given their snapshot.
pub fn compounded_deposit(st: &PoolState, initial_deposit: u128, snap: &Snapshot) -> (r: u128)
    requires
        initial_deposit == 0 || snap.epoch < st.epoch || snap.scale <= st.scale,
    ensures
        r == compounded(*st, initial_deposit, *snap),
{
    proof {
        if initial_deposit == 0 && snap.p != 0 {
            assert(initial_deposit * st.p == 0) by (nonlinear_arith)
                requires
                    initial_deposit == 0,
            ;
            vstd::arithmetic::div_mod::lemma_div_of0(snap.p as int);
        }
    }
    if initial_deposit == 0 || snap.epoch < st.epoch {
        return 0;
    }
    let scale_diff: u64 = st.scale - snap.scale;
    let remaining: u128 = if scale_diff == 0 {
        mul_div_floor(initial_deposit, st.p, snap.p).unwrap_or(0)
    } else if scale_diff == 1 {
        mul_div_floor(initial_deposit, st.p, snap.p).unwrap_or(0) / SCALE_FACTOR
    } else {
        0
    };
    // Dust guard: drop deposits that have shrunk below 1e-9 of what was deposited.
    if remaining < initial_deposit / 1_000_000_000 {
        0
    } else {
        remaining
    }
}

/// Collateral sum per unit of product since the snapshot: what was added at the snapshot's scale,
/// plus what was added one rescale later.
pub open spec fn sum_since(grid: Seq<u128>, stride: u64, snap: Snapshot) -> int {
    let s_at = sum_at(grid, snap.epoch as int, snap.scale as int, stride as int);
    let s_next = sum_at(grid, snap.epoch as int, snap.scale + 1, stride as int);
    (if s_at >= snap.s {
        s_at - snap.s
    } else {
        0
    }) + s_next / SCALE_FACTOR
}

/// Collateral accrued by `initial_deposit` since the snapshot.
pub open spec fn gain_since(
    grid: Seq<u128>,
    stride: u64,
    initial_deposit: u128,
    snap: Snapshot,
) -> Result<u128, ReactorError> {
    if initial_deposit == 0 {
        Ok(0)
    } else {
        let sum = sum_since(grid, stride, snap);
        if sum > u128::MAX || floor_mul_div(initial_deposit, sum as u128, snap.p) is None {
            Err(ReactorError::Math)
        } else {
            Ok(floor_mul_div(initial_deposit, sum as u128, snap.p)->0 / DECIMAL_PRECISION)
        }
    }
}

/// A depositor's accrued collateral gain since their snapshot.
pub fn collateral_gain(s_grid: &[u128], stride: u64, initial_deposit: u128, snap: &Snapshot) -> (r:
    Result<u128, ReactorError>)
    requires
        initial_deposit == 0 || snap.scale < u64::MAX,
    ensures
        r == gain_since(s_grid@, stride, initial_deposit, *snap),
{
    if initial_deposit == 0 {
        return Ok(0);
    }
    let s_at: u128 = match s_idx(snap.epoch, snap.scale, stride, s_grid.len()) {
        Some(i) => s_grid[i],
        None => 0,
    };
    let first_portion: u128 = s_at.saturating_sub(snap.s);
    let s_next: u128 = match s_idx(snap.epoch, snap.scale + 1, stride, s_grid.len()) {
        Some(i) => s_grid[i],
        None => 0,
    };
    let second_portion: u128 = s_next / SCALE_FACTOR;
    let sum: u128 = match first_portion.checked_add(second_portion) {
        Some(x) => x,
        None => {
            return Err(ReactorError::Math);
        },
    };
    match mul_div_floor(initial_deposit, sum, snap.p) {
        Some(t) => Ok(t / DECIMAL_PRECISION),
        None => Err(ReactorError::Math),
    }
}

} // verus!
