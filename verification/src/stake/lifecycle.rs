//! Validator lifecycle state machine and the allocation caps derived from it.
//!
//! One failed epoch freezes increases without forcing a decrease; two consecutive failed epochs drain
//! the validator, unless the global liveness guard is active. A commission breach drains immediately and
//! is never suppressed by the guard. Candidates promote to Active only after two consecutive healthy
//! epochs while carrying pool stake.

use crate::stake::{bps_of, bps_part, law_bps_part_is_floor};
use vstd::prelude::*;

verus! {

/// Consecutive failed epochs of liveness before a validator drains.
pub const LIVENESS_FAILURE_EPOCHS: u8 = 2;

/// Consecutive healthy epochs, while carrying pool stake, before a Candidate promotes.
pub const CANDIDATE_HEALTHY_EPOCHS: u8 = 2;

/// Validator lifecycle status, stored as one byte.
#[derive(Clone, Copy, Debug, PartialEq, Eq, Structural)]
pub enum ValidatorStatus {
    /// Recorded, but not in the validator list. Receives no stake.
    Registered,
    /// In probation. Receives directed stake only, up to the candidate cap.
    Candidate,
    /// Completed probation. Receives directed and neutral stake, up to the active cap.
    Active,
    /// Breach, persistent failure, or removal. Its target is 0.
    Draining,
    /// No stake, no target, removal delay completed. Terminal.
    Removable,
}

impl ValidatorStatus {
    /// The stored byte of a status.
    pub open spec fn byte(self) -> u8 {
        match self {
            ValidatorStatus::Registered => 0,
            ValidatorStatus::Candidate => 1,
            ValidatorStatus::Active => 2,
            ValidatorStatus::Draining => 3,
            ValidatorStatus::Removable => 4,
        }
    }

    /// The stored byte.
    #[inline]
    pub fn as_u8(self) -> (r: u8)
        ensures
            r == self.byte(),
    {
        match self {
            ValidatorStatus::Registered => 0,
            ValidatorStatus::Candidate => 1,
            ValidatorStatus::Active => 2,
            ValidatorStatus::Draining => 3,
            ValidatorStatus::Removable => 4,
        }
    }

    /// Parse the stored byte; `None` exactly for a byte of no status.
    #[inline]
    pub fn from_u8(v: u8) -> (r: Option<Self>)
        ensures
            r matches Some(s) ==> s.byte() == v,
            r is None <==> v > 4,
    {
        match v {
            0 => Some(ValidatorStatus::Registered),
            1 => Some(ValidatorStatus::Candidate),
            2 => Some(ValidatorStatus::Active),
            3 => Some(ValidatorStatus::Draining),
            4 => Some(ValidatorStatus::Removable),
            _ => None,
        }
    }
}

/// One completed epoch's observations of a validator.
#[derive(Clone, Copy, Debug, PartialEq, Eq, Structural)]
pub struct LifecycleInput {
    /// The commission is at or below the cap.
    pub commission_ok: bool,
    /// Both liveness checks passed in this epoch.
    pub liveness_ok: bool,
    /// Consecutive failed epochs before this one.
    pub consecutive_failures: u8,
    /// Consecutive healthy epochs with pool stake before this one.
    pub consecutive_healthy: u8,
    /// The validator carried pool stake through this epoch.
    pub has_pool_stake: bool,
    /// The global liveness guard is active.
    pub guard_active: bool,
    /// Zero active and transient stake, and a zero target.
    pub zero_stake_and_target: bool,
    /// The removal delay has elapsed since the validator began draining.
    pub removal_delay_elapsed: bool,
}

/// The decision of an epoch: the next status, the streaks to persist, and whether increases are frozen.
#[derive(Clone, Copy, Debug, PartialEq, Eq, Structural)]
pub struct LifecycleOutcome {
    pub status: ValidatorStatus,
    pub consecutive_failures: u8,
    pub consecutive_healthy: u8,
    pub increases_frozen: bool,
}

/// A streak counts on, up to the largest byte.
pub open spec fn counted_on(streak: u8) -> u8 {
    if streak == u8::MAX {
        u8::MAX
    } else {
        (streak + 1) as u8
    }
}

/// The failure streak after the epoch: a healthy epoch zeroes it.
pub open spec fn failures_after(input: LifecycleInput) -> u8 {
    if input.liveness_ok {
        0
    } else {
        counted_on(input.consecutive_failures)
    }
}

/// The promotion streak after the epoch: it counts only healthy epochs with pool stake.
pub open spec fn healthy_after(input: LifecycleInput) -> u8 {
    if input.liveness_ok && input.has_pool_stake {
        counted_on(input.consecutive_healthy)
    } else {
        0
    }
}

/// Whether a Candidate or Active validator drains: a commission breach, or a liveness streak while the
/// guard is off.
pub open spec fn must_drain(input: LifecycleInput) -> bool {
    !input.commission_ok || (failures_after(input) >= LIVENESS_FAILURE_EPOCHS
        && !input.guard_active)
}

/// The next status.
pub open spec fn next_status(current: ValidatorStatus, input: LifecycleInput) -> ValidatorStatus {
    match current {
        ValidatorStatus::Registered => ValidatorStatus::Registered,
        ValidatorStatus::Removable => ValidatorStatus::Removable,
        ValidatorStatus::Draining => if input.zero_stake_and_target && input.removal_delay_elapsed {
            ValidatorStatus::Removable
        } else {
            ValidatorStatus::Draining
        },
        ValidatorStatus::Candidate => if must_drain(input) {
            ValidatorStatus::Draining
        } else if healthy_after(input) >= CANDIDATE_HEALTHY_EPOCHS {
            ValidatorStatus::Active
        } else {
            ValidatorStatus::Candidate
        },
        ValidatorStatus::Active => if must_drain(input) {
            ValidatorStatus::Draining
        } else {
            ValidatorStatus::Active
        },
    }
}

/// Advance one validator's lifecycle by one completed epoch.
///
/// For Candidate and Active, in this order: a commission breach drains, never suppressed by the guard; a
/// liveness streak drains, unless the guard is active (the streak still counts); a Candidate with a
/// healthy streak promotes. Registered never transitions here, Removable is terminal, and Draining moves
/// to Removable only at zero stake and target, after the removal delay.
pub fn advance_lifecycle(current: ValidatorStatus, input: &LifecycleInput) -> (r: LifecycleOutcome)
    ensures
        r == (LifecycleOutcome {
            status: next_status(current, *input),
            consecutive_failures: failures_after(*input),
            consecutive_healthy: healthy_after(*input),
            increases_frozen: !input.liveness_ok,
        }),
{
    let consecutive_failures: u8 = if input.liveness_ok {
        0
    } else {
        input.consecutive_failures.saturating_add(1)
    };
    let consecutive_healthy: u8 = if input.liveness_ok && input.has_pool_stake {
        input.consecutive_healthy.saturating_add(1)
    } else {
        0
    };
    let status = match current {
        ValidatorStatus::Registered => ValidatorStatus::Registered,
        ValidatorStatus::Removable => ValidatorStatus::Removable,
        ValidatorStatus::Draining => if input.zero_stake_and_target && input.removal_delay_elapsed {
            ValidatorStatus::Removable
        } else {
            ValidatorStatus::Draining
        },
        ValidatorStatus::Candidate | ValidatorStatus::Active => if !input.commission_ok {
            ValidatorStatus::Draining
        } else if consecutive_failures >= LIVENESS_FAILURE_EPOCHS && !input.guard_active {
            ValidatorStatus::Draining
        } else if current == ValidatorStatus::Candidate && consecutive_healthy
            >= CANDIDATE_HEALTHY_EPOCHS {
            ValidatorStatus::Active
        } else {
            current
        },
    };
    LifecycleOutcome {
        status,
        consecutive_failures,
        consecutive_healthy,
        increases_frozen: !input.liveness_ok,
    }
}

/// Less than half of the delegated stake is healthy.
pub open spec fn guard_is_on(healthy_delegated_lamports: u64, total_delegated_lamports: u64) -> bool {
    healthy_delegated_lamports * 2 < total_delegated_lamports
}

/// Global liveness guard: on exactly when less than half of the delegated stake passes the health check.
/// Off with no delegated stake.
#[inline]
pub fn global_liveness_guard(healthy_delegated_lamports: u64, total_delegated_lamports: u64) -> (r:
    bool)
    ensures
        r == guard_is_on(healthy_delegated_lamports, total_delegated_lamports),
{
    healthy_delegated_lamports as u128 * 2 < total_delegated_lamports as u128
}

/// The largest final target of a validator in a status.
pub open spec fn cap_of(
    status: ValidatorStatus,
    total_pool_lamports: u64,
    candidate_cap_bps: u64,
    active_cap_bps: u64,
) -> u64 {
    match status {
        ValidatorStatus::Candidate => bps_part(total_pool_lamports, candidate_cap_bps),
        ValidatorStatus::Active => bps_part(total_pool_lamports, active_cap_bps),
        _ => 0,
    }
}

/// The allocation cap of a status: 0 for Registered, Draining, and Removable, a part of the pool for
/// Candidate and Active.
#[inline]
pub fn lifecycle_cap(
    status: ValidatorStatus,
    total_pool_lamports: u64,
    candidate_cap_bps: u64,
    active_cap_bps: u64,
) -> (r: u64)
    ensures
        r == cap_of(status, total_pool_lamports, candidate_cap_bps, active_cap_bps),
{
    match status {
        ValidatorStatus::Registered | ValidatorStatus::Draining | ValidatorStatus::Removable => 0,
        ValidatorStatus::Candidate => bps_of(total_pool_lamports, candidate_cap_bps),
        ValidatorStatus::Active => bps_of(total_pool_lamports, active_cap_bps),
    }
}

// Laws.

/// A status is found back from its byte, and no two share one.
pub proof fn law_status_byte_round_trips(a: ValidatorStatus, b: ValidatorStatus)
    ensures
        a.byte() <= 4,
        a.byte() == b.byte() ==> a == b,
{
}

/// The transitions that exist, and no others.
pub proof fn law_transitions_are_legal(current: ValidatorStatus, input: LifecycleInput)
    ensures
        ({
            let next = next_status(current, input);
            ||| next == current
            ||| current == ValidatorStatus::Candidate && next == ValidatorStatus::Active
            ||| current == ValidatorStatus::Candidate && next == ValidatorStatus::Draining
            ||| current == ValidatorStatus::Active && next == ValidatorStatus::Draining
            ||| current == ValidatorStatus::Draining && next == ValidatorStatus::Removable
        }),
{
}

/// A commission breach drains a staked validator at once, whatever the guard and the streaks.
pub proof fn law_commission_breach_is_never_suppressed(
    current: ValidatorStatus,
    input: LifecycleInput,
)
    requires
        current == ValidatorStatus::Candidate || current == ValidatorStatus::Active,
        !input.commission_ok,
    ensures
        next_status(current, input) == ValidatorStatus::Draining,
{
}

/// Under the guard, or after a single failure, liveness alone never drains; and the streak still counts.
pub proof fn law_guard_suppresses_liveness_drain(current: ValidatorStatus, input: LifecycleInput)
    requires
        current == ValidatorStatus::Candidate || current == ValidatorStatus::Active,
        input.commission_ok,
        input.guard_active || input.consecutive_failures == 0,
    ensures
        next_status(current, input) != ValidatorStatus::Draining,
        !input.liveness_ok ==> failures_after(input) == counted_on(input.consecutive_failures),
{
}

/// Two consecutive failed epochs drain, once the guard is off.
pub proof fn law_persistent_failure_drains(current: ValidatorStatus, input: LifecycleInput)
    requires
        current == ValidatorStatus::Candidate || current == ValidatorStatus::Active,
        !input.liveness_ok,
        !input.guard_active,
        input.consecutive_failures >= 1,
    ensures
        next_status(current, input) == ValidatorStatus::Draining,
{
}

/// A Candidate promotes only on a healthy epoch with pool stake, after another such epoch.
pub proof fn law_promotion_needs_two_healthy_epochs(input: LifecycleInput)
    ensures
        next_status(ValidatorStatus::Candidate, input) == ValidatorStatus::Active <==> {
            &&& input.commission_ok
            &&& input.liveness_ok
            &&& input.has_pool_stake
            &&& input.consecutive_healthy >= 1
        },
{
}

/// Only Candidate and Active validators have a cap, so only they can be given stake.
pub proof fn law_other_statuses_have_no_cap(
    status: ValidatorStatus,
    total_pool_lamports: u64,
    candidate_cap_bps: u64,
    active_cap_bps: u64,
)
    requires
        status != ValidatorStatus::Candidate,
        status != ValidatorStatus::Active,
    ensures
        cap_of(status, total_pool_lamports, candidate_cap_bps, active_cap_bps) == 0,
{
}

/// The guard is on exactly where the failing stake outweighs the healthy stake: never without delegated
/// stake, never on a tie, and the less so the more of the stake is healthy.
pub proof fn law_guard_needs_a_failing_majority(healthy: u64, healthier: u64, total: u64)
    requires
        healthy <= healthier,
    ensures
        guard_is_on(healthy, total) <==> total - healthy > healthy,
        !guard_is_on(healthy, 0),
        guard_is_on(healthier, total) ==> guard_is_on(healthy, total),
{
}

/// The bytes number the statuses in the order of a validator's life, from 0 to 4.
pub proof fn law_status_bytes_follow_the_lifecycle()
    ensures
        0 <= ValidatorStatus::Registered.byte() < ValidatorStatus::Candidate.byte()
            < ValidatorStatus::Active.byte() < ValidatorStatus::Draining.byte()
            < ValidatorStatus::Removable.byte() <= 4,
{
}

/// A validator with stake drains exactly on a commission breach, or on a failed epoch that follows another
/// one while the guard is off.
pub proof fn law_drains_exactly_on_breach_or_failure(current: ValidatorStatus, input: LifecycleInput)
    requires
        current == ValidatorStatus::Candidate || current == ValidatorStatus::Active,
    ensures
        next_status(current, input) == ValidatorStatus::Draining <==> !input.commission_ok || (
        !input.liveness_ok && input.consecutive_failures >= 1 && !input.guard_active),
        current == ValidatorStatus::Active && next_status(current, input) != ValidatorStatus::Draining
            ==> next_status(current, input) == ValidatorStatus::Active,
{
}

/// A draining validator is removable exactly at zero stake and target, after the delay; until then it
/// drains on. The two ends of the lifecycle stay where they are.
pub proof fn law_removal_waits_for_stake_and_delay(input: LifecycleInput)
    ensures
        next_status(ValidatorStatus::Draining, input) == (if input.zero_stake_and_target
            && input.removal_delay_elapsed {
            ValidatorStatus::Removable
        } else {
            ValidatorStatus::Draining
        }),
        next_status(ValidatorStatus::Registered, input) == ValidatorStatus::Registered,
        next_status(ValidatorStatus::Removable, input) == ValidatorStatus::Removable,
{
}

/// The streaks count consecutive epochs, whatever the status: a failed one ends the healthy streak and
/// adds one failure; a healthy one ends the failures, and adds one healthy epoch where the validator
/// carried pool stake and none else. Neither counts past 255.
pub proof fn law_streaks_count_consecutive_epochs(input: LifecycleInput)
    ensures
        input.liveness_ok ==> failures_after(input) == 0,
        !input.liveness_ok ==> failures_after(input) == vstd::math::min(
            input.consecutive_failures + 1,
            255,
        ),
        input.liveness_ok && input.has_pool_stake ==> healthy_after(input) == vstd::math::min(
            input.consecutive_healthy + 1,
            255,
        ),
        !input.liveness_ok || !input.has_pool_stake ==> healthy_after(input) == 0,
{
}

/// Two epochs in a row: with the streaks carried over, two failures drain and two healthy epochs with pool
/// stake promote, where the commission holds and the guard is off.
pub proof fn law_two_epochs_decide(first: LifecycleInput, second: LifecycleInput)
    requires
        first.commission_ok && second.commission_ok,
        !second.guard_active,
        second.consecutive_failures == failures_after(first),
        second.consecutive_healthy == healthy_after(first),
    ensures
        !first.liveness_ok && !second.liveness_ok ==> next_status(ValidatorStatus::Active, second)
            == ValidatorStatus::Draining && next_status(ValidatorStatus::Candidate, second)
            == ValidatorStatus::Draining,
        first.liveness_ok && first.has_pool_stake && second.liveness_ok && second.has_pool_stake
            ==> next_status(ValidatorStatus::Candidate, second) == ValidatorStatus::Active,
        first.liveness_ok || second.liveness_ok ==> next_status(ValidatorStatus::Active, second)
            == ValidatorStatus::Active,
{
}

/// The cap of a validator with stake is the floor of its own part of the pool.
pub proof fn law_cap_is_the_part_of_the_pool(
    total_pool_lamports: u64,
    candidate_cap_bps: u64,
    active_cap_bps: u64,
)
    ensures
        ({
            let c = cap_of(
                ValidatorStatus::Candidate,
                total_pool_lamports,
                candidate_cap_bps,
                active_cap_bps,
            );
            let a = cap_of(
                ValidatorStatus::Active,
                total_pool_lamports,
                candidate_cap_bps,
                active_cap_bps,
            );
            &&& c * 10_000 <= total_pool_lamports * candidate_cap_bps
            &&& c < u64::MAX ==> total_pool_lamports * candidate_cap_bps < (c + 1) * 10_000
            &&& a * 10_000 <= total_pool_lamports * active_cap_bps
            &&& a < u64::MAX ==> total_pool_lamports * active_cap_bps < (a + 1) * 10_000
        }),
{
    law_bps_part_is_floor(total_pool_lamports, candidate_cap_bps);
    law_bps_part_is_floor(total_pool_lamports, active_cap_bps);
}

} // verus!
