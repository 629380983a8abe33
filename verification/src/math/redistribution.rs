//! Redistribution of a liquidation's uncovered debt and collateral across the remaining positions.
//!
//! Two accumulators hold the reward per unit staked (1e18-scaled); each redistribution adds
//! `amount * 1e18 / total_stakes`, and the residual of the division is carried to the next one, so
//! small redistributions do not drift. A position holds a stake and a snapshot of the accumulators;
//! its pending gains are `stake * (L_now - L_snapshot) / 1e18`.
//!
//! The accumulators only grow; a sum past `u128` is an error, never a wrap.

use crate::math::arith::{lemma_floor, lemma_floor_ge, lemma_floor_le, lemma_floor_mono, lemma_mul_mono};
use crate::math::u256::{checked_plus, checked_times, from_u128, minus, quotient, times, to_u128};
use crate::math::{floor_mul_div, mul_div_floor};
use vstd::prelude::*;

verus! {

/// 1e18: the precision of the reward per unit.
pub const PRECISION: u128 = 1_000_000_000_000_000_000;

#[derive(Clone, Copy, Debug, PartialEq, Eq, Structural)]
pub enum RedistError {
    /// Redistribution attempted with no staked position to receive it.
    NoStakes,
    /// An accumulator would exceed `u128`.
    AccumulatorOverflow,
    /// Arithmetic overflow.
    Math,
}

/// The accumulators of a market, with the carried residuals.
#[derive(Clone, Copy, Debug, PartialEq, Eq, Structural)]
pub struct RedistState {
    pub l_coll: u128,
    pub l_art: u128,
    pub last_coll_error: u128,
    pub last_art_error: u128,
}

/// A position's snapshot of the accumulators at its last touch.
#[derive(Clone, Copy, Debug, PartialEq, Eq, Structural)]
pub struct RedistSnapshot {
    pub l_coll: u128,
    pub l_art: u128,
}

/// The genesis state: nothing redistributed yet.
pub open spec fn fresh_redist_state() -> RedistState {
    RedistState { l_coll: 0, l_art: 0, last_coll_error: 0, last_art_error: 0 }
}

impl Default for RedistState {
    fn default() -> (r: Self)
        ensures
            r == fresh_redist_state(),
    {
        RedistState { l_coll: 0, l_art: 0, last_coll_error: 0, last_art_error: 0 }
    }
}

impl Default for RedistSnapshot {
    fn default() -> (r: Self)
        ensures
            r == (RedistSnapshot { l_coll: 0, l_art: 0 }),
    {
        RedistSnapshot { l_coll: 0, l_art: 0 }
    }
}

impl RedistState {
    pub fn new() -> (r: Self)
        ensures
            r == fresh_redist_state(),
    {
        Self::default()
    }

    /// The current snapshot point: what a freshly touched position records.
    pub fn snapshot(&self) -> (r: RedistSnapshot)
        ensures
            r == (RedistSnapshot { l_coll: self.l_coll, l_art: self.l_art }),
    {
        RedistSnapshot { l_coll: self.l_coll, l_art: self.l_art }
    }
}

/// What is divided among the stakes: the amount in 1e-18 parts, plus the carried residual.
pub open spec fn reward_numerator(last_error: u128, amount: u128) -> int {
    amount * PRECISION + last_error
}

/// The accumulator after one step, or the error; an accumulator past `u128` is refused.
pub open spec fn accumulated(l: u128, last_error: u128, total_stakes: u128, amount: u128) -> Result<
    u128,
    RedistError,
> {
    let l2 = l + reward_numerator(last_error, amount) / total_stakes as int;
    if l2 <= u128::MAX {
        Ok(l2 as u128)
    } else {
        Err(RedistError::AccumulatorOverflow)
    }
}

/// The residual after one step: untouched where the reward per unit itself exceeds `u128`.
pub open spec fn carried(last_error: u128, total_stakes: u128, amount: u128) -> u128 {
    let n = reward_numerator(last_error, amount);
    if n / total_stakes as int <= u128::MAX {
        (n % total_stakes as int) as u128
    } else {
        last_error
    }
}

proof fn lemma_reward_numerator(last_error: u128, amount: u128, total_stakes: u128)
    requires
        total_stakes > 0,
    ensures
        0 <= amount * PRECISION,
        0 <= reward_numerator(last_error, amount) < crate::math::u256::two_256(),
        0 <= reward_numerator(last_error, amount) / total_stakes as int,
        reward_numerator(last_error, amount) == (reward_numerator(last_error, amount)
            / total_stakes as int) * total_stakes + reward_numerator(last_error, amount)
            % total_stakes as int,
        0 <= reward_numerator(last_error, amount) % (total_stakes as int) < total_stakes,
{
    let n = reward_numerator(last_error, amount);
    lemma_floor(n, total_stakes as int);
    let q = n / total_stakes as int;
    assert(total_stakes * q == q * total_stakes) by (nonlinear_arith);
}

/// `l + (amount * 1e18 + last_error) / total_stakes`, with the new residual in `last_error`, over a
/// 256-bit intermediate.
fn accumulate(l: u128, last_error: &mut u128, total_stakes: u128, amount: u128) -> (r: Result<
    u128,
    RedistError,
>)
    requires
        total_stakes > 0,
    ensures
        r == accumulated(l, *old(last_error), total_stakes, amount),
        *final(last_error) == carried(*old(last_error), total_stakes, amount),
{
    let err: u128 = *last_error;
    proof {
        lemma_reward_numerator(err, amount, total_stakes);
    }
    let product = match checked_times(from_u128(amount), from_u128(PRECISION)) {
        Some(x) => x,
        None => {
            return Err(RedistError::Math);
        },
    };
    let numerator = match checked_plus(product, from_u128(err)) {
        Some(x) => x,
        None => {
            return Err(RedistError::Math);
        },
    };
    let ts = from_u128(total_stakes);
    let reward_per_unit = quotient(numerator, ts);
    let rem: u128 = match to_u128(minus(numerator, times(reward_per_unit, ts))) {
        Some(x) => x,
        None => {
            return Err(RedistError::Math);
        },
    };
    let rpu: u128 = match to_u128(reward_per_unit) {
        Some(x) => x,
        None => {
            return Err(RedistError::AccumulatorOverflow);
        },
    };
    *last_error = rem;
    match l.checked_add(rpu) {
        Some(x) => Ok(x),
        None => Err(RedistError::AccumulatorOverflow),
    }
}

/// The state and the result of one redistribution. The collateral side is committed before the debt
/// side may fail; each residual moves with its own division.
pub open spec fn redistribute_outcome(
    st: RedistState,
    total_stakes: u128,
    coll: u128,
    art: u128,
) -> (RedistState, Result<(), RedistError>) {
    if total_stakes == 0 {
        (st, Err(RedistError::NoStakes))
    } else {
        let st1 = RedistState {
            last_coll_error: carried(st.last_coll_error, total_stakes, coll),
            ..st
        };
        match accumulated(st.l_coll, st.last_coll_error, total_stakes, coll) {
            Err(e) => (st1, Err(e)),
            Ok(l_coll) => {
                let st2 = RedistState {
                    l_coll,
                    last_art_error: carried(st.last_art_error, total_stakes, art),
                    ..st1
                };
                match accumulated(st.l_art, st.last_art_error, total_stakes, art) {
                    Err(e) => (st2, Err(e)),
                    Ok(l_art) => (RedistState { l_art, ..st2 }, Ok(())),
                }
            },
        }
    }
}

/// Spread `coll` collateral and `art` normalized debt across all positions that hold stake, by
/// raising the accumulators with error feedback. `total_stakes` is the sum of the receiving
/// positions' stakes.
pub fn redistribute(st: &mut RedistState, total_stakes: u128, coll: u128, art: u128) -> (r: Result<
    (),
    RedistError,
>)
    ensures
        (*final(st), r) == redistribute_outcome(*old(st), total_stakes, coll, art),
{
    if total_stakes == 0 {
        return Err(RedistError::NoStakes);
    }
    let mut coll_error: u128 = st.last_coll_error;
    let l_coll = accumulate(st.l_coll, &mut coll_error, total_stakes, coll);
    st.last_coll_error = coll_error;
    match l_coll {
        Ok(l) => {
            st.l_coll = l;
        },
        Err(e) => {
            return Err(e);
        },
    }
    let mut art_error: u128 = st.last_art_error;
    let l_art = accumulate(st.l_art, &mut art_error, total_stakes, art);
    st.last_art_error = art_error;
    match l_art {
        Ok(l) => {
            st.l_art = l;
        },
        Err(e) => {
            return Err(e);
        },
    }
    Ok(())
}

/// `floor(stake * (l_now - l_snap) / 1e18)`, nothing where the accumulator has not grown; an error
/// where it exceeds `u128`.
pub open spec fn pending_gain(stake: u128, l_now: u128, l_snap: u128) -> Result<u128, RedistError> {
    let delta = if l_now >= l_snap {
        l_now - l_snap
    } else {
        0
    };
    let gain = stake * delta / PRECISION as int;
    if gain <= u128::MAX {
        Ok(gain as u128)
    } else {
        Err(RedistError::Math)
    }
}

/// Both pending gains of a position, `(collateral, normalized debt)`.
pub open spec fn pending_gains(stake: u128, st: RedistState, snap: RedistSnapshot) -> Result<
    (u128, u128),
    RedistError,
> {
    match (
        pending_gain(stake, st.l_coll, snap.l_coll),
        pending_gain(stake, st.l_art, snap.l_art),
    ) {
        (Ok(c), Ok(a)) => Ok((c, a)),
        _ => Err(RedistError::Math),
    }
}

fn pending_one(stake: u128, l_now: u128, l_snap: u128) -> (r: Result<u128, RedistError>)
    ensures
        r == pending_gain(stake, l_now, l_snap),
{
    let delta: u128 = l_now.saturating_sub(l_snap);
    if stake == 0 || delta == 0 {
        proof {
            assert(stake * delta == 0) by (nonlinear_arith)
                requires
                    stake == 0 || delta == 0,
            ;
        }
        return Ok(0);
    }
    match mul_div_floor(stake, delta, PRECISION) {
        Some(x) => Ok(x),
        None => Err(RedistError::Math),
    }
}

/// A position's pending redistribution gains since its snapshot: `(collateral, normalized debt)`, each
/// `floor(stake * (L_now - L_snapshot) / 1e18)`.
pub fn pending(stake: u128, st: &RedistState, snap: &RedistSnapshot) -> (r: Result<
    (u128, u128),
    RedistError,
>)
    ensures
        r == pending_gains(stake, *st, *snap),
{
    let c: u128 = match pending_one(stake, st.l_coll, snap.l_coll) {
        Ok(x) => x,
        Err(e) => {
            return Err(e);
        },
    };
    let a: u128 = match pending_one(stake, st.l_art, snap.l_art) {
        Ok(x) => x,
        Err(e) => {
            return Err(e);
        },
    };
    Ok((c, a))
}

/// The stake of a position: its collateral, scaled by the stakes and collateral of the market at the
/// last liquidation; the collateral itself before the first one.
pub open spec fn stake_of(
    coll: u128,
    total_stakes_snapshot: u128,
    total_collateral_snapshot: u128,
) -> Result<u128, RedistError> {
    if total_collateral_snapshot == 0 {
        Ok(coll)
    } else {
        match floor_mul_div(coll, total_stakes_snapshot, total_collateral_snapshot) {
            Some(x) => Ok(x),
            None => Err(RedistError::Math),
        }
    }
}

/// A position's stake: `coll * total_stakes_snapshot / total_collateral_snapshot`, or `coll` before the
/// first liquidation (`total_collateral_snapshot == 0`).
pub fn compute_stake(
    coll: u128,
    total_stakes_snapshot: u128,
    total_collateral_snapshot: u128,
) -> (r: Result<u128, RedistError>)
    ensures
        r == stake_of(coll, total_stakes_snapshot, total_collateral_snapshot),
{
    if total_collateral_snapshot == 0 {
        Ok(coll)
    } else {
        match mul_div_floor(coll, total_stakes_snapshot, total_collateral_snapshot) {
            Some(x) => Ok(x),
            None => Err(RedistError::Math),
        }
    }
}

// Laws.

/// The division is proper: what an accumulator gains, times the stakes, plus the new residual, is
/// exactly what was redistributed plus the old residual; and the new residual is a remainder.
pub proof fn law_redistribution_is_proper_division(
    st: RedistState,
    total_stakes: u128,
    coll: u128,
    art: u128,
    after: RedistState,
)
    requires
        redistribute_outcome(st, total_stakes, coll, art) == (after, Ok::<(), RedistError>(())),
    ensures
        (after.l_coll - st.l_coll) * total_stakes + after.last_coll_error == coll * PRECISION
            + st.last_coll_error,
        (after.l_art - st.l_art) * total_stakes + after.last_art_error == art * PRECISION
            + st.last_art_error,
        after.last_coll_error < total_stakes,
        after.last_art_error < total_stakes,
        after.l_coll >= st.l_coll,
        after.l_art >= st.l_art,
{
    lemma_reward_numerator(st.last_coll_error, coll, total_stakes);
    lemma_reward_numerator(st.last_art_error, art, total_stakes);
}

/// A redistribution in amounts. `coll_gain` and `art_gain` are the rewards per unit staked, the largest
/// whose multiples of the stakes stay within the amount in 1e-18 parts and the carried residual. It
/// succeeds exactly when both accumulators have room for them. The collateral side is booked whenever
/// its own accumulator has room, the debt side only after it; a residual moves with its own reward where
/// that fits `u128`.
pub proof fn law_redistribution_books_the_amounts(
    st: RedistState,
    total_stakes: u128,
    coll: u128,
    art: u128,
    coll_gain: int,
    art_gain: int,
    after: RedistState,
    result: Result<(), RedistError>,
)
    requires
        redistribute_outcome(st, total_stakes, coll, art) == (after, result),
        total_stakes > 0,
        coll_gain * total_stakes <= coll * PRECISION + st.last_coll_error < (coll_gain + 1)
            * total_stakes,
        art_gain * total_stakes <= art * PRECISION + st.last_art_error < (art_gain + 1)
            * total_stakes,
    ensures
        ({
            let coll_room = st.l_coll + coll_gain <= u128::MAX;
            let art_room = st.l_art + art_gain <= u128::MAX;
            &&& result == if coll_room && art_room {
                Ok::<(), RedistError>(())
            } else {
                Err(RedistError::AccumulatorOverflow)
            }
            &&& after.l_coll == st.l_coll + if coll_room {
                coll_gain
            } else {
                0
            }
            &&& after.l_art == st.l_art + if coll_room && art_room {
                art_gain
            } else {
                0
            }
            &&& after.last_coll_error == if coll_gain <= u128::MAX {
                coll * PRECISION + st.last_coll_error - coll_gain * total_stakes
            } else {
                st.last_coll_error as int
            }
            &&& after.last_art_error == if coll_room && art_gain <= u128::MAX {
                art * PRECISION + st.last_art_error - art_gain * total_stakes
            } else {
                st.last_art_error as int
            }
        }),
{
    let t = total_stakes as int;
    lemma_reward_numerator(st.last_coll_error, coll, total_stakes);
    lemma_reward_numerator(st.last_art_error, art, total_stakes);
    let nc = reward_numerator(st.last_coll_error, coll);
    let na = reward_numerator(st.last_art_error, art);
    lemma_floor_ge(nc, t, coll_gain);
    lemma_floor_le(nc, t, coll_gain);
    lemma_floor_ge(na, t, art_gain);
    lemma_floor_le(na, t, art_gain);
}

/// Each pending gain is the stake's share of the growth of its own accumulator since the snapshot, the
/// largest with `gain * 1e18 <= stake * growth`; the pair fails exactly when one of them exceeds `u128`.
pub proof fn law_pending_is_the_share_of_the_growth(stake: u128, st: RedistState, snap: RedistSnapshot)
    ensures
        ({
            let coll_growth = vstd::math::max(st.l_coll - snap.l_coll, 0);
            let art_growth = vstd::math::max(st.l_art - snap.l_art, 0);
            let r = pending_gains(stake, st, snap);
            &&& r matches Ok((c, a)) ==> c * PRECISION <= stake * coll_growth < (c + 1) * PRECISION && a
                * PRECISION <= stake * art_growth < (a + 1) * PRECISION
            &&& r is Err <==> stake * coll_growth >= (u128::MAX + 1) * PRECISION || stake * art_growth
                >= (u128::MAX + 1) * PRECISION
            &&& r is Err ==> r->Err_0 == RedistError::Math
        }),
{
    let coll_growth = vstd::math::max(st.l_coll - snap.l_coll, 0);
    let art_growth = vstd::math::max(st.l_art - snap.l_art, 0);
    lemma_mul_mono(0, coll_growth, stake as int);
    lemma_mul_mono(0, art_growth, stake as int);
}

/// After the first liquidation a stake stands to the collateral as the market's stakes stood to its
/// collateral, floored; it fails exactly when it exceeds `u128`.
pub proof fn law_stake_is_proportional(
    coll: u128,
    total_stakes_snapshot: u128,
    total_collateral_snapshot: u128,
)
    requires
        total_collateral_snapshot > 0,
    ensures
        ({
            let r = stake_of(coll, total_stakes_snapshot, total_collateral_snapshot);
            let n = coll * total_stakes_snapshot;
            &&& r matches Ok(stake) ==> stake * total_collateral_snapshot <= n < (stake + 1)
                * total_collateral_snapshot
            &&& r is Err <==> n >= (u128::MAX + 1) * total_collateral_snapshot
            &&& r is Err ==> r->Err_0 == RedistError::Math
        }),
{
    crate::math::laws::law_floor_is_greatest(
        coll,
        total_stakes_snapshot,
        total_collateral_snapshot,
    );
}

/// Without stakes nothing is redistributed and nothing changes.
pub proof fn law_no_stakes_is_refused(st: RedistState, coll: u128, art: u128)
    ensures
        redistribute_outcome(st, 0, coll, art) == (st, Err::<(), RedistError>(
            RedistError::NoStakes,
        )),
{
}

/// Whatever its result, a redistribution never lowers an accumulator.
pub proof fn law_accumulators_only_grow(
    st: RedistState,
    total_stakes: u128,
    coll: u128,
    art: u128,
    after: RedistState,
    result: Result<(), RedistError>,
)
    requires
        redistribute_outcome(st, total_stakes, coll, art) == (after, result),
    ensures
        after.l_coll >= st.l_coll,
        after.l_art >= st.l_art,
        result is Err ==> after.l_art == st.l_art,
{
    if total_stakes > 0 {
        lemma_reward_numerator(st.last_coll_error, coll, total_stakes);
        lemma_reward_numerator(st.last_art_error, art, total_stakes);
    }
}

/// A snapshot counts only what comes after it.
pub proof fn law_fresh_snapshot_has_no_gain(stake: u128, st: RedistState)
    ensures
        pending_gains(
            stake,
            st,
            RedistSnapshot { l_coll: st.l_coll, l_art: st.l_art },
        ) == Ok::<(u128, u128), RedistError>((0, 0)),
{
    assert(stake * 0 == 0);
}

/// A larger stake never receives less.
pub proof fn law_gain_is_monotone_in_stake(s1: u128, s2: u128, l_now: u128, l_snap: u128)
    requires
        s1 <= s2,
        pending_gain(s2, l_now, l_snap) is Ok,
    ensures
        pending_gain(s1, l_now, l_snap) is Ok,
        pending_gain(s1, l_now, l_snap)->Ok_0 <= pending_gain(s2, l_now, l_snap)->Ok_0,
{
    let delta = if l_now >= l_snap {
        l_now - l_snap
    } else {
        0
    };
    lemma_mul_mono(s1 as int, s2 as int, delta);
    lemma_mul_mono(0, s1 as int, delta);
    lemma_floor_mono(s1 * delta, s2 * delta, PRECISION as int);
}

/// The sum of a sequence of stakes.
pub open spec fn total_of(stakes: Seq<u128>) -> int
    decreases stakes.len(),
{
    if stakes.len() == 0 {
        0
    } else {
        total_of(stakes.drop_last()) + stakes.last()
    }
}

/// The sum of what the stakes receive of an accumulator's growth `delta`, each rounded down.
pub open spec fn received(stakes: Seq<u128>, delta: int) -> int
    decreases stakes.len(),
{
    if stakes.len() == 0 {
        0
    } else {
        received(stakes.drop_last(), delta) + stakes.last() * delta / PRECISION as int
    }
}

proof fn lemma_received(stakes: Seq<u128>, delta: int)
    requires
        delta >= 0,
    ensures
        total_of(stakes) >= 0,
        received(stakes, delta) >= 0,
        received(stakes, delta) * PRECISION <= total_of(stakes) * delta,
        total_of(stakes) * delta <= (received(stakes, delta) + stakes.len()) * PRECISION
            - stakes.len(),
    decreases stakes.len(),
{
    let p = PRECISION as int;
    if stakes.len() == 0 {
        assert(0 * p == 0 && 0 * delta == 0);
    } else {
        lemma_received(stakes.drop_last(), delta);
        let s = stakes.last() as int;
        lemma_mul_mono(0, s, delta);
        lemma_floor(s * delta, p);
        let q = s * delta / p;
        let t = total_of(stakes.drop_last());
        let r = received(stakes.drop_last(), delta);
        let n = stakes.drop_last().len() as int;
        assert((t + s) * delta == t * delta + s * delta) by (nonlinear_arith);
        assert((r + q) * p == r * p + q * p) by (nonlinear_arith);
        assert((q + 1) * p == q * p + p) by (nonlinear_arith);
        assert((r + q + (n + 1)) * p == (r + n) * p + q * p + p) by (nonlinear_arith);
    }
}

/// Conservation: recipients whose stakes sum to the total receive together no more than what was
/// redistributed, from a state whose residual is below one unit, and fall short by at most one unit
/// each while the stakes are at most 1e18.
pub proof fn law_redistribution_conserves(
    st: RedistState,
    stakes: Seq<u128>,
    total_stakes: u128,
    coll: u128,
    art: u128,
    after: RedistState,
)
    requires
        redistribute_outcome(st, total_stakes, coll, art) == (after, Ok::<(), RedistError>(())),
        total_of(stakes) == total_stakes,
        st.last_coll_error < PRECISION,
        st.last_art_error < PRECISION,
    ensures
        received(stakes, after.l_coll - st.l_coll) <= coll,
        received(stakes, after.l_art - st.l_art) <= art,
        total_stakes <= PRECISION ==> coll - received(stakes, after.l_coll - st.l_coll)
            <= stakes.len(),
        total_stakes <= PRECISION ==> art - received(stakes, after.l_art - st.l_art)
            <= stakes.len(),
{
    law_redistribution_is_proper_division(st, total_stakes, coll, art, after);
    lemma_conserves(
        stakes,
        total_stakes as int,
        after.l_coll - st.l_coll,
        coll as int,
        st.last_coll_error as int,
        after.last_coll_error as int,
    );
    lemma_conserves(
        stakes,
        total_stakes as int,
        after.l_art - st.l_art,
        art as int,
        st.last_art_error as int,
        after.last_art_error as int,
    );
}

proof fn lemma_conserves(
    stakes: Seq<u128>,
    total_stakes: int,
    delta: int,
    amount: int,
    before: int,
    after: int,
)
    requires
        delta >= 0,
        total_of(stakes) == total_stakes,
        delta * total_stakes + after == amount * PRECISION + before,
        0 <= before < PRECISION,
        0 <= after < total_stakes,
    ensures
        received(stakes, delta) <= amount,
        total_stakes <= PRECISION ==> amount - received(stakes, delta) <= stakes.len(),
{
    let p = PRECISION as int;
    lemma_received(stakes, delta);
    let r = received(stakes, delta);
    let n = stakes.len() as int;
    assert(delta * total_stakes == total_stakes * delta) by (nonlinear_arith);
    assert(r < amount + 1) by (nonlinear_arith)
        requires
            r * p < amount * p + p,
            p > 0,
    ;
    if total_stakes <= p {
        assert(amount - 1 < r + n) by (nonlinear_arith)
            requires
                amount * p - p < (r + n) * p,
                p > 0,
        ;
    }
}

/// A run of redistributions over the same stakes; `None` where one is refused.
pub open spec fn redistribute_all(
    st: RedistState,
    total_stakes: u128,
    ops: Seq<(u128, u128)>,
) -> Option<RedistState>
    decreases ops.len(),
{
    if ops.len() == 0 {
        Some(st)
    } else {
        match redistribute_all(st, total_stakes, ops.drop_last()) {
            None => None,
            Some(s) => match redistribute_outcome(
                s,
                total_stakes,
                ops.last().0,
                ops.last().1,
            ) {
                (after, Ok(_)) => Some(after),
                (_, Err(_)) => None,
            },
        }
    }
}

/// All collateral of a run.
pub open spec fn total_coll(ops: Seq<(u128, u128)>) -> int
    decreases ops.len(),
{
    if ops.len() == 0 {
        0
    } else {
        total_coll(ops.drop_last()) + ops.last().0
    }
}

/// All debt of a run.
pub open spec fn total_art(ops: Seq<(u128, u128)>) -> int
    decreases ops.len(),
{
    if ops.len() == 0 {
        0
    } else {
        total_art(ops.drop_last()) + ops.last().1
    }
}

/// The residual makes a run of divisions exact: only the last residual is outstanding.
pub proof fn law_run_is_exact(
    st: RedistState,
    total_stakes: u128,
    ops: Seq<(u128, u128)>,
    after: RedistState,
)
    requires
        redistribute_all(st, total_stakes, ops) == Some(after),
        total_stakes > 0,
        st.last_coll_error < total_stakes,
        st.last_art_error < total_stakes,
    ensures
        (after.l_coll - st.l_coll) * total_stakes + after.last_coll_error == total_coll(ops)
            * PRECISION + st.last_coll_error,
        (after.l_art - st.l_art) * total_stakes + after.last_art_error == total_art(ops)
            * PRECISION + st.last_art_error,
        after.l_coll >= st.l_coll,
        after.l_art >= st.l_art,
        after.last_coll_error < total_stakes,
        after.last_art_error < total_stakes,
    decreases ops.len(),
{
    let p = PRECISION as int;
    if ops.len() == 0 {
        assert(0 * total_stakes == 0);
    } else {
        let s = redistribute_all(st, total_stakes, ops.drop_last())->0;
        law_run_is_exact(st, total_stakes, ops.drop_last(), s);
        law_redistribution_is_proper_division(
            s,
            total_stakes,
            ops.last().0,
            ops.last().1,
            after,
        );
        let t = total_stakes as int;
        assert((after.l_coll - st.l_coll) * t == (after.l_coll - s.l_coll) * t + (s.l_coll
            - st.l_coll) * t) by (nonlinear_arith);
        assert((after.l_art - st.l_art) * t == (after.l_art - s.l_art) * t + (s.l_art - st.l_art)
            * t) by (nonlinear_arith);
    }
}

/// No drift: over any number of redistributions a sole recipient, with at most 1e18 stake, receives
/// all that was redistributed but at most one unit.
pub proof fn law_no_drift_over_many_redistributions(
    st: RedistState,
    stake: u128,
    ops: Seq<(u128, u128)>,
    after: RedistState,
)
    requires
        redistribute_all(st, stake, ops) == Some(after),
        0 < stake <= PRECISION,
        st.last_coll_error < stake,
        st.last_art_error < stake,
        total_coll(ops) <= u128::MAX,
        total_art(ops) <= u128::MAX,
    ensures
        pending_gains(
            stake,
            after,
            RedistSnapshot { l_coll: st.l_coll, l_art: st.l_art },
        ) matches Ok((c, a)) && total_coll(ops) - 1 <= c <= total_coll(ops) && total_art(ops) - 1
            <= a <= total_art(ops),
{
    law_run_is_exact(st, stake, ops, after);
    lemma_sole_recipient(stake, after.l_coll - st.l_coll, total_coll(ops), st.last_coll_error as int, after.last_coll_error as int);
    lemma_sole_recipient(stake, after.l_art - st.l_art, total_art(ops), st.last_art_error as int, after.last_art_error as int);
}

proof fn lemma_sole_recipient(stake: u128, delta: int, amount: int, before: int, after: int)
    requires
        0 < stake <= PRECISION,
        delta * stake + after == amount * PRECISION + before,
        0 <= before < stake,
        0 <= after < stake,
        delta >= 0,
    ensures
        amount - 1 <= stake * delta / PRECISION as int <= amount,
        stake * delta / PRECISION as int >= 0,
{
    let p = PRECISION as int;
    assert(stake * delta == delta * stake) by (nonlinear_arith);
    assert((amount - 1) * p == amount * p - p && (amount + 1) * p == amount * p + p)
        by (nonlinear_arith);
    lemma_floor_ge(stake * delta, p, amount - 1);
    lemma_floor_le(stake * delta, p, amount);
    lemma_mul_mono(0, stake as int, delta);
    lemma_floor(stake * delta, p);
}

/// Before the first liquidation the stake is the collateral.
pub proof fn law_genesis_stake_is_collateral(coll: u128, total_stakes_snapshot: u128)
    ensures
        stake_of(coll, total_stakes_snapshot, 0) == Ok::<u128, RedistError>(coll),
{
}

/// Where the collateral grew at least as fast as the stakes, no position is staked above its
/// collateral, and the stake always computes.
pub proof fn law_stake_never_exceeds_collateral(
    coll: u128,
    total_stakes_snapshot: u128,
    total_collateral_snapshot: u128,
)
    requires
        total_stakes_snapshot <= total_collateral_snapshot,
    ensures
        stake_of(coll, total_stakes_snapshot, total_collateral_snapshot) matches Ok(stake) && stake
            <= coll,
{
    if total_collateral_snapshot > 0 {
        let t = total_collateral_snapshot as int;
        lemma_mul_mono(total_stakes_snapshot as int, t, coll as int);
        assert((coll + 1) * t == coll * t + t) by (nonlinear_arith);
        lemma_floor_le(coll * total_stakes_snapshot, t, coll as int);
    }
}

/// The stakes of positions never sum to more than the stake of their summed collateral, nor, while
/// that collateral is within the market's, to more than the market's stakes.
pub proof fn law_stakes_never_inflate(
    a: u128,
    b: u128,
    total_stakes_snapshot: u128,
    total_collateral_snapshot: u128,
)
    requires
        a + b <= total_collateral_snapshot,
        total_collateral_snapshot > 0,
    ensures
        ({
            let sa = stake_of(a, total_stakes_snapshot, total_collateral_snapshot);
            let sb = stake_of(b, total_stakes_snapshot, total_collateral_snapshot);
            let both = stake_of((a + b) as u128, total_stakes_snapshot, total_collateral_snapshot);
            &&& sa is Ok && sb is Ok && both is Ok
            &&& sa->Ok_0 + sb->Ok_0 <= both->Ok_0 <= total_stakes_snapshot
        }),
{
    let t = total_collateral_snapshot as int;
    let k = total_stakes_snapshot as int;
    lemma_mul_mono(0, a as int, k);
    lemma_mul_mono(0, b as int, k);
    lemma_mul_mono(a + b, t, k);
    assert((a + b) * k == a * k + b * k) by (nonlinear_arith);
    lemma_floor(a * k, t);
    lemma_floor(b * k, t);
    let x = a * k / t;
    let y = b * k / t;
    assert((x + y) * t == x * t + y * t) by (nonlinear_arith);
    lemma_floor_ge((a + b) * k, t, x + y);
    assert((k + 1) * t == t * k + t) by (nonlinear_arith);
    lemma_floor_le((a + b) * k, t, k);
}

} // verus!
