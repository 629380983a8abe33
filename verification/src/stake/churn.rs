//! Hysteresis and churn limits of the rebalance phase.
//!
//! A move is valid only when the deviation from the target exceeds both a fixed minimum and a
//! pool-relative threshold. The principal moved per epoch is capped globally and per validator; every
//! action shrinks the remaining global budget.

use crate::stake::{bps_of, bps_part, law_bps_part_is_floor};
use vstd::prelude::*;

verus! {

/// The larger of the absolute minimum and the pool-relative part.
pub open spec fn threshold_of(total_lamports: u64, min_abs_lamports: u64, bps: u64) -> u64 {
    let part = bps_part(total_lamports, bps);
    if min_abs_lamports > part {
        min_abs_lamports
    } else {
        part
    }
}

/// Hysteresis threshold: `max(min_abs_lamports, floor(total * bps / 10_000))`.
#[inline]
pub fn hysteresis(total_lamports: u64, min_abs_lamports: u64, bps: u64) -> (r: u64)
    ensures
        r == threshold_of(total_lamports, min_abs_lamports, bps),
{
    let part: u64 = bps_of(total_lamports, bps);
    if min_abs_lamports > part {
        min_abs_lamports
    } else {
        part
    }
}

/// A move is valid only when the deviation strictly exceeds the threshold.
#[inline]
pub fn exceeds_hysteresis(deviation_abs: u64, threshold: u64) -> (r: bool)
    ensures
        r == (deviation_abs > threshold),
{
    deviation_abs > threshold
}

/// Global churn budget of an epoch: `floor(total * global_churn_cap_bps / 10_000)`.
#[inline]
pub fn global_churn_budget(total_lamports: u64, global_churn_cap_bps: u64) -> (r: u64)
    ensures
        r == bps_part(total_lamports, global_churn_cap_bps),
{
    bps_of(total_lamports, global_churn_cap_bps)
}

/// Move cap of one validator in an epoch: `floor(total * validator_move_cap_bps / 10_000)`.
#[inline]
pub fn validator_move_cap(total_lamports: u64, validator_move_cap_bps: u64) -> (r: u64)
    ensures
        r == bps_part(total_lamports, validator_move_cap_bps),
{
    bps_of(total_lamports, validator_move_cap_bps)
}

pub open spec fn smaller(a: u64, b: u64) -> u64 {
    if a < b {
        a
    } else {
        b
    }
}

/// The least of the four bounds, or 0 where that is below the minimum action and no full drain.
pub open spec fn action_of(
    deviation: u64,
    remaining_global_budget: u64,
    per_validator_move_cap: u64,
    source_capacity: u64,
    min_action: u64,
    deviation_is_full_drain: bool,
) -> u64 {
    let amount = smaller(
        smaller(deviation, remaining_global_budget),
        smaller(per_validator_move_cap, source_capacity),
    );
    if amount < min_action && !deviation_is_full_drain {
        0
    } else {
        amount
    }
}

/// The lamports that one rebalance action may move: the least of deviation, remaining global budget,
/// per-validator cap, and source capacity. An amount below `min_action` is 0, unless the move drains the
/// validator in full.
#[inline]
pub fn action_amount(
    deviation: u64,
    remaining_global_budget: u64,
    per_validator_move_cap: u64,
    source_capacity: u64,
    min_action: u64,
    deviation_is_full_drain: bool,
) -> (r: u64)
    ensures
        r == action_of(
            deviation,
            remaining_global_budget,
            per_validator_move_cap,
            source_capacity,
            min_action,
            deviation_is_full_drain,
        ),
{
    let mut amount: u64 = deviation;
    if remaining_global_budget < amount {
        amount = remaining_global_budget;
    }
    if per_validator_move_cap < amount {
        amount = per_validator_move_cap;
    }
    if source_capacity < amount {
        amount = source_capacity;
    }
    if amount < min_action && !deviation_is_full_drain {
        0
    } else {
        amount
    }
}

// Laws.

/// The threshold is the least number of lamports that is not below the minimum and reaches the pool's
/// part: it is the minimum, or the floor of the part.
pub proof fn law_threshold_is_the_larger_bound(
    total_lamports: u64,
    min_abs_lamports: u64,
    bps: u64,
)
    ensures
        ({
            let t = threshold_of(total_lamports, min_abs_lamports, bps);
            &&& t >= min_abs_lamports
            &&& t < u64::MAX ==> total_lamports * bps < (t + 1) * 10_000
            &&& t == min_abs_lamports || t * 10_000 <= total_lamports * bps
        }),
{
    law_bps_part_is_floor(total_lamports, bps);
    let part = bps_part(total_lamports, bps);
    crate::math::arith::lemma_mul_mono(
        part + 1,
        threshold_of(total_lamports, min_abs_lamports, bps) + 1,
        10_000,
    );
}

/// An action moves all that its bounds allow: with `least` the least of the four, it is `least` on a full
/// drain and wherever `least` reaches the minimum, and nothing otherwise.
pub proof fn law_action_moves_the_least_bound(
    deviation: u64,
    budget: u64,
    cap: u64,
    source: u64,
    min_action: u64,
    full_drain: bool,
    least: u64,
)
    requires
        least <= deviation,
        least <= budget,
        least <= cap,
        least <= source,
        least == deviation || least == budget || least == cap || least == source,
    ensures
        full_drain || least >= min_action ==> action_of(
            deviation,
            budget,
            cap,
            source,
            min_action,
            full_drain,
        ) == least,
        !full_drain && least < min_action ==> action_of(
            deviation,
            budget,
            cap,
            source,
            min_action,
            full_drain,
        ) == 0,
{
}

/// Every bound holds on every action, and the minimum holds on all but full drains.
pub proof fn law_action_is_bounded(
    deviation: u64,
    budget: u64,
    cap: u64,
    source: u64,
    min_action: u64,
    full_drain: bool,
)
    ensures
        ({
            let a = action_of(deviation, budget, cap, source, min_action, full_drain);
            &&& a <= deviation && a <= budget && a <= cap && a <= source
            &&& a == 0 || a >= min_action || full_drain
        }),
{
}

/// A full drain is never held back by the minimum.
pub proof fn law_full_drain_always_finishes(
    deviation: u64,
    budget: u64,
    cap: u64,
    source: u64,
    min_action: u64,
)
    requires
        deviation <= budget,
        deviation <= cap,
        deviation <= source,
    ensures
        action_of(deviation, budget, cap, source, min_action, true) == deviation,
{
}

/// What one action of a sequence asks for.
pub struct Request {
    pub deviation: u64,
    pub cap: u64,
    pub source: u64,
    pub min_action: u64,
    pub full_drain: bool,
}

/// The global budget left after a sequence of actions.
pub open spec fn budget_after(initial: u64, requests: Seq<Request>) -> int
    decreases requests.len(),
{
    if requests.len() == 0 {
        initial as int
    } else {
        let budget = budget_after(initial, requests.drop_last());
        let q = requests.last();
        budget - action_of(
            q.deviation,
            budget as u64,
            q.cap,
            q.source,
            q.min_action,
            q.full_drain,
        )
    }
}

/// What a sequence of actions moves in all.
pub open spec fn moved(initial: u64, requests: Seq<Request>) -> int
    decreases requests.len(),
{
    if requests.len() == 0 {
        0
    } else {
        let q = requests.last();
        moved(initial, requests.drop_last()) + action_of(
            q.deviation,
            budget_after(initial, requests.drop_last()) as u64,
            q.cap,
            q.source,
            q.min_action,
            q.full_drain,
        )
    }
}

/// The caps hold over any sequence of actions: what was moved and what is left is the initial budget,
/// which is never overdrawn.
pub proof fn law_budget_is_never_overdrawn(initial: u64, requests: Seq<Request>)
    ensures
        0 <= budget_after(initial, requests) <= initial,
        moved(initial, requests) + budget_after(initial, requests) == initial,
        moved(initial, requests) <= initial,
    decreases requests.len(),
{
    if requests.len() > 0 {
        law_budget_is_never_overdrawn(initial, requests.drop_last());
    }
}

} // verus!
