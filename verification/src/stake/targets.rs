//! Epoch target allocation: directed floors, the neutral pool, and the equal capacity rounds that
//! distribute it.
//!
//! Directed targets are per-validator floors, clipped by the lifecycle cap. Everything productive that
//! direction does not claim forms the neutral pool, which is distributed equally across the Active
//! validators with capacity left, in deterministic rounds. Every productive lamport is either assigned
//! to a validator or recorded as shortfall.
//!
//! A round is an incremental fold ([`begin_round`], [`step`]): the caller walks the unsaturated
//! validators in index order, and an epoch-derived rotation decides which ordinals receive the integer
//! remainder, so the grants do not depend on how the walk is split.

use crate::math::arith::{lemma_floor, lemma_floor_ge, lemma_floor_le, lemma_mul_mono};
use crate::stake::lifecycle::ValidatorStatus;
use vstd::prelude::*;

verus! {

/// Validator capacity of the pool.
pub const MAX_VALIDATORS: u64 = 1_024;

/// Upper bound on capacity rounds: each round but the last saturates at least one validator.
pub const MAX_NEUTRAL_ROUNDS: u64 = MAX_VALIDATORS;

/// `a + b`, saturating at `u64::MAX`.
pub open spec fn saturated_sum(a: int, b: int) -> u64 {
    if a + b > u64::MAX {
        u64::MAX
    } else {
        (a + b) as u64
    }
}

// Directed targets and the neutral pool.

/// `min(floor(productive * shares / supply), cap)`; nothing without supply.
pub open spec fn directed(productive: int, shares: int, supply: int, cap: int) -> int {
    if supply == 0 {
        0
    } else {
        let raw = productive * shares / supply;
        if raw < cap {
            raw
        } else {
            cap
        }
    }
}

/// Directed target floor of one validator: `min(floor(productive * shares / supply), lifecycle_cap)`; 0
/// for a zero supply.
#[inline]
pub fn directed_target(productive: u64, directed_shares: u64, supply: u64, lifecycle_cap: u64) -> (r:
    u64)
    ensures
        r == directed(
            productive as int,
            directed_shares as int,
            supply as int,
            lifecycle_cap as int,
        ),
{
    if supply == 0 {
        return 0;
    }
    proof {
        assert(0 <= productive * directed_shares <= 0xffff_ffff_ffff_ffff * 0xffff_ffff_ffff_ffff)
            by (nonlinear_arith)
            requires
                0 <= productive <= 0xffff_ffff_ffff_ffff,
                0 <= directed_shares <= 0xffff_ffff_ffff_ffff,
        ;
        lemma_floor(productive * directed_shares, supply as int);
    }
    let raw: u128 = productive as u128 * directed_shares as u128 / supply as u128;
    if raw < lifecycle_cap as u128 {
        raw as u64
    } else {
        lifecycle_cap
    }
}

/// What direction leaves of the productive lamports; none for a plan that directs too much.
pub open spec fn neutral_pool(
    productive: u64,
    sum_directed_targets: u64,
    total_directed_shares: u64,
    supply: u64,
) -> Option<u64> {
    if total_directed_shares > supply || sum_directed_targets > productive {
        None
    } else {
        Some((productive - sum_directed_targets) as u64)
    }
}

/// The neutral pool, with the plan-level guard built in: `None`, reject the plan, exactly when the
/// directed shares exceed the supply or the directed targets exceed the productive lamports.
#[inline]
pub fn neutral_total(
    productive: u64,
    sum_directed_targets: u64,
    total_directed_shares: u64,
    supply: u64,
) -> (r: Option<u64>)
    ensures
        r == neutral_pool(productive, sum_directed_targets, total_directed_shares, supply),
        r matches Some(neutral) ==> neutral + sum_directed_targets == productive,
        r is Some <==> total_directed_shares <= supply && sum_directed_targets <= productive,
{
    if total_directed_shares > supply {
        return None;
    }
    productive.checked_sub(sum_directed_targets)
}

/// What an Active validator can still take up to its cap; nothing for another status.
pub open spec fn room_of(status: ValidatorStatus, lifecycle_cap: u64, current_target: u64) -> u64 {
    if status == ValidatorStatus::Active && lifecycle_cap > current_target {
        (lifecycle_cap - current_target) as u64
    } else {
        0
    }
}

/// Neutral capacity of one validator: an Active one exposes `cap - current_target`, not below 0; every
/// other status exposes 0.
#[inline]
pub fn neutral_capacity(status: ValidatorStatus, lifecycle_cap: u64, current_target: u64) -> (r: u64)
    ensures
        r == room_of(status, lifecycle_cap, current_target),
{
    match status {
        ValidatorStatus::Active => lifecycle_cap.saturating_sub(current_target),
        _ => 0,
    }
}

/// `epoch % n`; 0 where `n == 0`.
pub open spec fn rotation(epoch: int, n: int) -> int {
    if n == 0 {
        0
    } else {
        epoch % n
    }
}

/// Epoch-derived rotation start over `n` entries.
#[inline]
pub fn rotation_start(epoch: u64, n: u64) -> (r: u64)
    ensures
        r == rotation(epoch as int, n as int),
        n > 0 ==> r < n,
{
    if n == 0 {
        0
    } else {
        epoch % n
    }
}

// One capacity round.

/// The persisted state of one capacity round.
#[derive(Clone, Copy, Debug, PartialEq, Eq, Structural)]
pub struct NeutralRound {
    /// Neutral lamports remaining at the start of the round.
    pub remaining: u64,
    /// Unsaturated Active validators at the start of the round; each is stepped once.
    pub n_unsaturated: u64,
    /// `remaining / n_unsaturated`.
    pub tranche: u64,
    /// `remaining % n_unsaturated`: the number of `tranche + 1` grants.
    pub remainder: u64,
    /// Rotated start ordinal of the remainder window.
    pub start: u64,
    /// Validators stepped so far; the next ordinal.
    pub steps: u64,
    /// Remainder slots consumed so far.
    pub remainder_used: u64,
    /// Lamports granted so far.
    pub granted: u64,
    /// Validators that hit their capacity in this round.
    pub saturated: u64,
}

impl NeutralRound {
    /// Every unsaturated validator has been stepped.
    pub open spec fn complete(self) -> bool {
        self.steps >= self.n_unsaturated
    }

    /// What the grants so far leave.
    pub open spec fn left(self) -> u64 {
        if self.remaining >= self.granted {
            (self.remaining - self.granted) as u64
        } else {
            0
        }
    }

    /// Every unsaturated validator has been stepped.
    #[inline]
    pub fn is_complete(&self) -> (r: bool)
        ensures
            r == self.complete(),
    {
        self.steps >= self.n_unsaturated
    }

    /// Neutral lamports remaining after the grants of this round.
    #[inline]
    pub fn remaining_after(&self) -> (r: u64)
        ensures
            r == self.left(),
    {
        self.remaining.saturating_sub(self.granted)
    }
}

/// The state at the start of a round.
pub open spec fn round_at_start(remaining: u64, n: u64, epoch: u64) -> NeutralRound {
    NeutralRound {
        remaining,
        n_unsaturated: n,
        tranche: remaining / n,
        remainder: remaining % n,
        start: rotation(epoch as int, n as int) as u64,
        steps: 0,
        remainder_used: 0,
        granted: 0,
        saturated: 0,
    }
}

/// Begin a capacity round. `None` exactly when there is nothing to distribute or no unsaturated
/// validator remains.
#[inline]
pub fn begin_round(remaining: u64, n_unsaturated: u64, epoch: u64) -> (r: Option<NeutralRound>)
    ensures
        r == (if remaining == 0 || n_unsaturated == 0 {
            None
        } else {
            Some(round_at_start(remaining, n_unsaturated, epoch))
        }),
{
    if remaining == 0 || n_unsaturated == 0 {
        return None;
    }
    Some(
        NeutralRound {
            remaining,
            n_unsaturated,
            tranche: remaining / n_unsaturated,
            remainder: remaining % n_unsaturated,
            start: rotation_start(epoch, n_unsaturated),
            steps: 0,
            remainder_used: 0,
            granted: 0,
            saturated: 0,
        },
    )
}

/// Whether ordinal `o` of `n` falls in the window of `remainder` ordinals that starts at `start`.
pub open spec fn in_window(o: int, n: int, start: int, remainder: int) -> bool {
    (o + n - start) % n < remainder
}

/// What one step grants: one above the tranche inside the window, clipped to the capacity.
pub open spec fn step_grant(state: NeutralRound, capacity: u64) -> u64 {
    let base = if in_window(
        state.steps as int,
        state.n_unsaturated as int,
        state.start as int,
        state.remainder as int,
    ) {
        saturated_sum(state.tranche as int, 1)
    } else {
        state.tranche
    };
    if base < capacity {
        base
    } else {
        capacity
    }
}

/// The state after one step.
pub open spec fn stepped(state: NeutralRound, capacity: u64) -> NeutralRound {
    let grant = step_grant(state, capacity);
    NeutralRound {
        steps: (state.steps + 1) as u64,
        remainder_used: if in_window(
            state.steps as int,
            state.n_unsaturated as int,
            state.start as int,
            state.remainder as int,
        ) {
            saturated_sum(state.remainder_used as int, 1)
        } else {
            state.remainder_used
        },
        granted: saturated_sum(state.granted as int, grant as int),
        saturated: if grant == capacity {
            saturated_sum(state.saturated as int, 1)
        } else {
            state.saturated
        },
        ..state
    }
}

/// Fold one validator into the round and return its grant: `min(base, capacity)`, where `base` is one
/// above the tranche for ordinals in the rotated remainder window. A step past the completion of the
/// round is inert and returns 0.
pub fn step(state: &mut NeutralRound, validator_remaining_capacity: u64) -> (r: u64)
    requires
        old(state).complete() || old(state).start <= old(state).steps + old(state).n_unsaturated,
    ensures
        old(state).complete() ==> r == 0 && *final(state) == *old(state),
        !old(state).complete() ==> r == step_grant(*old(state), validator_remaining_capacity)
            && *final(state) == stepped(*old(state), validator_remaining_capacity),
{
    if state.is_complete() {
        return 0;
    }
    let n: u128 = state.n_unsaturated as u128;
    let rotated: u128 = (state.steps as u128 + n - state.start as u128) % n;
    let window: bool = rotated < state.remainder as u128;
    let base: u64 = if window {
        state.tranche.saturating_add(1)
    } else {
        state.tranche
    };
    let grant: u64 = if base < validator_remaining_capacity {
        base
    } else {
        validator_remaining_capacity
    };
    state.steps = state.steps + 1;
    if window {
        state.remainder_used = state.remainder_used.saturating_add(1);
    }
    state.granted = state.granted.saturating_add(grant);
    if grant == validator_remaining_capacity {
        state.saturated = state.saturated.saturating_add(1);
    }
    grant
}

// The whole distribution.

/// Outcome of a full neutral distribution.
#[derive(Clone, Copy, Debug, PartialEq, Eq, Structural)]
pub struct NeutralOutcome {
    /// Capacity rounds executed.
    pub rounds: u64,
    /// Neutral lamports that no capacity could absorb.
    pub shortfall: u64,
}

/// How many of the first `i` validators have capacity left.
pub open spec fn with_capacity(caps: Seq<u64>, i: int) -> int
    decreases i,
{
    if i <= 0 {
        0
    } else {
        with_capacity(caps, i - 1) + if caps[i - 1] > 0 {
            1int
        } else {
            0int
        }
    }
}

/// How many validators have capacity left.
pub open spec fn unsaturated(caps: Seq<u64>) -> int {
    with_capacity(caps, caps.len() as int)
}

/// The share of ordinal `o` before clipping: the equal tranche, one more inside the rotated window.
pub open spec fn equal_share(remaining: int, n: int, epoch: u64, o: int) -> int {
    remaining / n + if in_window(o, n, rotation(epoch as int, n), remaining % n) {
        1int
    } else {
        0int
    }
}

/// What validator `i` receives in a round: its equal share, clipped to its capacity.
pub open spec fn round_grant(remaining: int, epoch: u64, caps: Seq<u64>, i: int) -> int {
    let share = equal_share(remaining, unsaturated(caps), epoch, with_capacity(caps, i));
    if caps[i] == 0 {
        0
    } else if share < caps[i] {
        share
    } else {
        caps[i] as int
    }
}

/// What the first `i` validators receive in a round.
pub open spec fn round_granted(remaining: int, epoch: u64, caps: Seq<u64>, i: int) -> int
    decreases i,
{
    if i <= 0 {
        0
    } else {
        round_granted(remaining, epoch, caps, i - 1) + round_grant(remaining, epoch, caps, i - 1)
    }
}

/// The capacities after a round.
pub open spec fn round_caps(remaining: int, epoch: u64, caps: Seq<u64>) -> Seq<u64> {
    Seq::new(caps.len(), |i: int| (caps[i] - round_grant(remaining, epoch, caps, i)) as u64)
}

/// The result of all rounds: how many there were, what is left over, and the capacities left.
pub struct Distribution {
    pub rounds: int,
    pub shortfall: int,
    pub caps: Seq<u64>,
}

/// Rounds are repeated until nothing remains or nobody has capacity.
pub open spec fn distribution(remaining: int, epoch: u64, caps: Seq<u64>) -> Distribution
    decreases
            if remaining > 0 {
                unsaturated(caps) + 1
            } else {
                0
            },
{
    if remaining <= 0 || unsaturated(caps) <= 0 {
        Distribution { rounds: 0, shortfall: remaining, caps }
    } else {
        proof {
            lemma_round_progress(remaining, epoch, caps);
        }
        let rest = distribution(
            remaining - round_granted(remaining, epoch, caps, caps.len() as int),
            epoch,
            round_caps(remaining, epoch, caps),
        );
        Distribution { rounds: rest.rounds + 1, ..rest }
    }
}

proof fn lemma_with_capacity_bounds(caps: Seq<u64>, i: int, j: int)
    requires
        0 <= i <= j,
    ensures
        0 <= with_capacity(caps, i) <= with_capacity(caps, j),
        with_capacity(caps, j) <= with_capacity(caps, i) + (j - i),
    decreases j,
{
    if i < j {
        lemma_with_capacity_bounds(caps, i, j - 1);
    } else if i > 0 {
        lemma_with_capacity_bounds(caps, i - 1, i - 1);
    }
}

/// The shares of the first `k` ordinals.
spec fn shares_below(remaining: int, n: int, epoch: u64, k: int) -> int
    decreases k,
{
    if k <= 0 {
        0
    } else {
        shares_below(remaining, n, epoch, k - 1) + equal_share(remaining, n, epoch, k - 1)
    }
}

/// How many of the first `k` ordinals fall in the window, in closed form.
spec fn window_below(k: int, n: int, start: int, remainder: int) -> int {
    if start + remainder <= n {
        if k <= start {
            0
        } else if k <= start + remainder {
            k - start
        } else {
            remainder
        }
    } else {
        (if k <= start + remainder - n {
            k
        } else {
            start + remainder - n
        }) + (if k <= start {
            0
        } else {
            k - start
        })
    }
}

proof fn lemma_window_step(k: int, n: int, start: int, remainder: int)
    requires
        0 <= k < n,
        0 <= start < n,
        0 <= remainder < n,
    ensures
        window_below(k + 1, n, start, remainder) == window_below(k, n, start, remainder)
            + if in_window(k, n, start, remainder) {
            1int
        } else {
            0int
        },
{
    let x = k + n - start;
    if k >= start {
        vstd::arithmetic::div_mod::lemma_fundamental_div_mod_converse(x, n, 1, k - start);
    } else {
        vstd::arithmetic::div_mod::lemma_fundamental_div_mod_converse(x, n, 0, x);
    }
}

proof fn lemma_shares_below(remaining: int, n: int, epoch: u64, k: int)
    requires
        remaining > 0,
        0 <= k <= n,
        n > 0,
    ensures
        shares_below(remaining, n, epoch, k) == (remaining / n) * k + window_below(
            k,
            n,
            rotation(epoch as int, n),
            remaining % n,
        ),
        k == n ==> shares_below(remaining, n, epoch, k) == remaining,
    decreases k,
{
    lemma_floor(remaining, n);
    lemma_floor(epoch as int, n);
    let t = remaining / n;
    if k == 0 {
        assert(t * 0 == 0);
    } else {
        lemma_shares_below(remaining, n, epoch, k - 1);
        lemma_window_step(k - 1, n, rotation(epoch as int, n), remaining % n);
        assert(t * k == t * (k - 1) + t) by (nonlinear_arith);
    }
    assert(t * n == n * t) by (nonlinear_arith);
}

/// The grants of a round against the shares: never more, and exactly as much while nobody saturates.
proof fn lemma_round_prefix(remaining: int, epoch: u64, caps: Seq<u64>, i: int)
    requires
        remaining > 0,
        0 <= i <= caps.len(),
        unsaturated(caps) > 0,
    ensures
        0 <= round_granted(remaining, epoch, caps, i) <= shares_below(
            remaining,
            unsaturated(caps),
            epoch,
            with_capacity(caps, i),
        ) <= remaining,
        0 <= with_capacity(caps, i) <= unsaturated(caps),
        with_capacity(round_caps(remaining, epoch, caps), i) <= with_capacity(caps, i),
        with_capacity(round_caps(remaining, epoch, caps), i) == with_capacity(caps, i)
            ==> round_granted(remaining, epoch, caps, i) == shares_below(
            remaining,
            unsaturated(caps),
            epoch,
            with_capacity(caps, i),
        ),
    decreases i,
{
    let n = unsaturated(caps);
    lemma_with_capacity_bounds(caps, 0, i);
    lemma_with_capacity_bounds(caps, i, caps.len() as int);
    lemma_shares_mono(remaining, n, epoch, with_capacity(caps, i), n);
    lemma_shares_below(remaining, n, epoch, n);
    if i > 0 {
        lemma_round_prefix(remaining, epoch, caps, i - 1);
        lemma_grant_bounds(remaining, epoch, caps, i - 1);
        let after = round_caps(remaining, epoch, caps);
        assert(after[i - 1] == caps[i - 1] - round_grant(remaining, epoch, caps, i - 1));
    }
}

proof fn lemma_shares_mono(remaining: int, n: int, epoch: u64, k: int, m: int)
    requires
        remaining > 0,
        n > 0,
        0 <= k <= m,
    ensures
        0 <= shares_below(remaining, n, epoch, k) <= shares_below(remaining, n, epoch, m),
    decreases m,
{
    lemma_floor(remaining, n);
    if k < m {
        lemma_shares_mono(remaining, n, epoch, k, m - 1);
    } else if k > 0 {
        lemma_shares_mono(remaining, n, epoch, k - 1, k - 1);
    }
}

proof fn lemma_grant_bounds(remaining: int, epoch: u64, caps: Seq<u64>, i: int)
    requires
        remaining > 0,
        0 <= i < caps.len(),
        unsaturated(caps) > 0,
    ensures
        0 <= round_grant(remaining, epoch, caps, i) <= caps[i],
{
    lemma_floor(remaining, unsaturated(caps));
}

/// A round grants no more than what remains, and either grants all of it or saturates someone.
pub proof fn lemma_round_progress(remaining: int, epoch: u64, caps: Seq<u64>)
    ensures
        remaining > 0 && unsaturated(caps) > 0 ==> {
            &&& 0 <= round_granted(remaining, epoch, caps, caps.len() as int) <= remaining
            &&& 0 <= unsaturated(round_caps(remaining, epoch, caps)) <= unsaturated(caps)
            &&& round_granted(remaining, epoch, caps, caps.len() as int) < remaining
                ==> unsaturated(round_caps(remaining, epoch, caps)) < unsaturated(caps)
        },
{
    if remaining > 0 && unsaturated(caps) > 0 {
        lemma_round_prefix(remaining, epoch, caps, caps.len() as int);
        lemma_shares_below(remaining, unsaturated(caps), epoch, unsaturated(caps));
        lemma_with_capacity_bounds(
            round_caps(remaining, epoch, caps),
            0,
            caps.len() as int,
        );
    }
}

/// The share of an ordinal never exceeds what remains.
proof fn lemma_share_bound(remaining: int, n: int, epoch: u64, o: int)
    requires
        remaining > 0,
        n > 0,
    ensures
        0 <= equal_share(remaining, n, epoch, o) <= remaining,
{
    lemma_floor(remaining, n);
    let t = remaining / n;
    assert(t <= n * t) by (nonlinear_arith)
        requires
            n >= 1,
            t >= 0,
    ;
    if in_window(o, n, rotation(epoch as int, n), remaining % n) {
        lemma_floor(o + n - rotation(epoch as int, n), n);
    }
}

/// How many entries are non-zero.
fn count_with_capacity(caps: &[u64]) -> (n: u64)
    ensures
        n == unsaturated(caps@),
{
    let mut n: u64 = 0;
    let mut i: usize = 0;
    while i < caps.len()
        invariant
            i <= caps@.len(),
            n == with_capacity(caps@, i as int),
            n <= i,
        decreases caps@.len() - i,
    {
        if caps[i] > 0 {
            n = n + 1;
        }
        i = i + 1;
    }
    n
}

/// Distribute `neutral` across the validators until it is exhausted or no capacity remains, in rounds of
/// [`begin_round`] and [`step`].
///
/// `remaining_capacity[v]` is the neutral capacity of each validator (0 keeps it out of every round),
/// decremented in place; `targets[v]` accumulates the grants in place, saturating.
pub fn distribute_neutral(
    neutral: u64,
    epoch: u64,
    remaining_capacity: &mut [u64],
    targets: &mut [u64],
) -> (r: NeutralOutcome)
    requires
        old(remaining_capacity)@.len() == old(targets)@.len(),
    ensures
        ({
            let d = distribution(neutral as int, epoch, old(remaining_capacity)@);
            &&& r.rounds == d.rounds
            &&& r.shortfall == d.shortfall
            &&& final(remaining_capacity)@ == d.caps
            &&& d.caps.len() == old(targets)@.len()
            &&& final(targets)@.len() == old(targets)@.len()
            &&& forall|i: int|
                0 <= i < old(targets)@.len() ==> #[trigger] final(targets)@[i] == saturated_sum(
                    old(targets)@[i] as int,
                    old(remaining_capacity)@[i] - d.caps[i],
                )
        }),
{
    let ghost caps0 = remaining_capacity@;
    let ghost targets0 = targets@;
    let ghost whole = distribution(neutral as int, epoch, caps0);
    let len: usize = remaining_capacity.len();
    let mut remaining: u64 = neutral;
    let mut rounds: u64 = 0;
    proof {
        lemma_with_capacity_bounds(caps0, 0, caps0.len() as int);
    }
    loop
        invariant
            remaining_capacity@.len() == caps0.len(),
            targets@.len() == caps0.len(),
            targets0.len() == caps0.len(),
            caps0.len() == len,
            caps0 == old(remaining_capacity)@,
            targets0 == old(targets)@,
            whole == distribution(neutral as int, epoch, caps0),
            ({
                let rest = distribution(remaining as int, epoch, remaining_capacity@);
                &&& whole.rounds == rounds + rest.rounds
                &&& whole.shortfall == rest.shortfall
                &&& whole.caps == rest.caps
            }),
            forall|i: int|
                0 <= i < caps0.len() ==> #[trigger] remaining_capacity@[i] <= caps0[i],
            forall|i: int|
                0 <= i < caps0.len() ==> #[trigger] targets@[i] == saturated_sum(
                    targets0[i] as int,
                    caps0[i] - remaining_capacity@[i],
                ),
            0 <= unsaturated(remaining_capacity@),
            remaining > 0 ==> rounds + unsaturated(remaining_capacity@) <= unsaturated(caps0),
            unsaturated(caps0) <= caps0.len(),
        decreases
                (if remaining > 0 {
                    unsaturated(remaining_capacity@) + 1
                } else {
                    0
                }),
    {
        let n_unsaturated: u64 = count_with_capacity(remaining_capacity);
        let mut round: NeutralRound = match begin_round(remaining, n_unsaturated, epoch) {
            Some(x) => x,
            None => {
                return NeutralOutcome { rounds, shortfall: remaining };
            },
        };
        let ghost caps1 = remaining_capacity@;
        let ghost targets1 = targets@;
        let ghost n = unsaturated(caps1);
        proof {
            lemma_round_progress(remaining as int, epoch, caps1);
        }
        let mut i: usize = 0;
        while i < len
            invariant
                i <= caps1.len(),
                caps1.len() == len,
                remaining_capacity@.len() == caps1.len(),
                targets@.len() == caps1.len(),
                targets1.len() == caps1.len(),
                remaining > 0,
                n == unsaturated(caps1),
                n > 0,
                n == n_unsaturated,
                round == (NeutralRound {
                    steps: with_capacity(caps1, i as int) as u64,
                    remainder_used: round.remainder_used,
                    granted: round_granted(remaining as int, epoch, caps1, i as int) as u64,
                    saturated: round.saturated,
                    ..round_at_start(remaining, n_unsaturated, epoch)
                }),
                0 <= with_capacity(caps1, i as int) <= n,
                0 <= round_granted(remaining as int, epoch, caps1, i as int) <= remaining,
                forall|j: int|
                    0 <= j < caps1.len() ==> #[trigger] remaining_capacity@[j] == (if j < i {
                        round_caps(remaining as int, epoch, caps1)[j]
                    } else {
                        caps1[j]
                    }),
                forall|j: int|
                    0 <= j < caps1.len() ==> #[trigger] targets@[j] == (if j < i {
                        saturated_sum(
                            targets1[j] as int,
                            round_grant(remaining as int, epoch, caps1, j),
                        )
                    } else {
                        targets1[j]
                    }),
            decreases caps1.len() - i,
        {
            let capacity: u64 = remaining_capacity[i];
            proof {
                lemma_round_prefix(remaining as int, epoch, caps1, i + 1);
                lemma_with_capacity_bounds(caps1, i + 1, caps1.len() as int);
                lemma_grant_bounds(remaining as int, epoch, caps1, i as int);
                lemma_share_bound(
                    remaining as int,
                    n,
                    epoch,
                    with_capacity(caps1, i as int),
                );
                assert(capacity == caps1[i as int]);
                lemma_floor(epoch as int, n);
            }
            if capacity > 0 {
                let grant: u64 = step(&mut round, capacity);
                assert(grant == round_grant(remaining as int, epoch, caps1, i as int));
                targets[i] = targets[i].saturating_add(grant);
                remaining_capacity[i] = capacity.saturating_sub(grant);
            }
            i = i + 1;
        }
        assert(remaining_capacity@ =~= round_caps(remaining as int, epoch, caps1));
        remaining = round.remaining_after();
        rounds = rounds + 1;
        proof {
            assert forall|k: int| 0 <= k < caps0.len() implies #[trigger] remaining_capacity@[k]
                <= caps0[k] && targets@[k] == saturated_sum(
                targets0[k] as int,
                caps0[k] - remaining_capacity@[k],
            ) by {
                lemma_grant_bounds(round.remaining as int, epoch, caps1, k);
                assert(caps1[k] <= caps0[k]);
                assert(targets1[k] == saturated_sum(targets0[k] as int, caps0[k] - caps1[k]));
            }
        }
    }
}

// Laws.

/// A directed target never exceeds the cap, and within the supply it never exceeds the productive
/// lamports.
pub proof fn law_directed_target_is_bounded(productive: int, shares: int, supply: int, cap: int)
    requires
        productive >= 0,
        shares >= 0,
        supply >= 0,
        cap >= 0,
    ensures
        0 <= directed(productive, shares, supply, cap) <= cap,
        shares <= supply ==> directed(productive, shares, supply, cap) <= productive,
{
    if supply > 0 {
        lemma_mul_mono(0, shares, productive);
        lemma_floor(productive * shares, supply);
        if shares <= supply {
            lemma_mul_mono(shares, supply, productive);
            assert((productive + 1) * supply == productive * supply + supply) by (nonlinear_arith);
            lemma_floor_le(productive * shares, supply, productive);
        }
    }
}

/// The sum of the directed shares.
pub open spec fn total_shares(validators: Seq<(u64, u64)>) -> int
    decreases validators.len(),
{
    if validators.len() == 0 {
        0
    } else {
        total_shares(validators.drop_last()) + validators.last().0
    }
}

/// The sum of the directed targets of validators with `(shares, cap)`.
pub open spec fn total_directed(productive: int, supply: int, validators: Seq<(u64, u64)>) -> int
    decreases validators.len(),
{
    if validators.len() == 0 {
        0
    } else {
        total_directed(productive, supply, validators.drop_last()) + directed(
            productive,
            validators.last().0 as int,
            supply,
            validators.last().1 as int,
        )
    }
}

proof fn lemma_total_directed(productive: int, supply: int, validators: Seq<(u64, u64)>)
    requires
        productive >= 0,
        supply > 0,
    ensures
        0 <= total_shares(validators),
        0 <= total_directed(productive, supply, validators),
        total_directed(productive, supply, validators) * supply <= productive * total_shares(
            validators,
        ),
    decreases validators.len(),
{
    if validators.len() == 0 {
        assert(0 * supply == 0 && productive * 0 == 0);
    } else {
        lemma_total_directed(productive, supply, validators.drop_last());
        let (d, cap) = validators.last();
        lemma_mul_mono(0, d as int, productive);
        lemma_floor(productive * d, supply);
        let raw = productive * d / supply;
        let t = directed(productive, d as int, supply, cap as int);
        lemma_mul_mono(t, raw, supply);
        let before = total_directed(productive, supply, validators.drop_last());
        let shares = total_shares(validators.drop_last());
        assert((before + t) * supply == before * supply + t * supply) by (nonlinear_arith);
        assert(productive * (shares + d) == productive * shares + productive * d)
            by (nonlinear_arith);
    }
}

/// While the directed shares are within the supply, the directed targets together never exceed the
/// productive lamports, so the plan guard rejects on the shares alone.
pub proof fn law_directed_targets_fit(productive: u64, supply: u64, validators: Seq<(u64, u64)>)
    requires
        total_shares(validators) <= supply,
    ensures
        total_directed(productive as int, supply as int, validators) <= productive,
{
    if supply > 0 {
        let p = productive as int;
        let s = supply as int;
        lemma_total_directed(p, s, validators);
        lemma_mul_mono(total_shares(validators), s, p);
        let t = total_directed(p, s, validators);
        assert(t <= p) by (nonlinear_arith)
            requires
                t * s <= p * s,
                s > 0,
        ;
    } else {
        lemma_no_supply_no_targets(productive as int, validators);
    }
}

proof fn lemma_no_supply_no_targets(productive: int, validators: Seq<(u64, u64)>)
    ensures
        total_directed(productive, 0, validators) == 0,
    decreases validators.len(),
{
    if validators.len() > 0 {
        lemma_no_supply_no_targets(productive, validators.drop_last());
    }
}

/// A round, stepped through validators with these capacities in order.
pub open spec fn steps_over(state: NeutralRound, capacities: Seq<u64>) -> NeutralRound
    decreases capacities.len(),
{
    if capacities.len() == 0 {
        state
    } else {
        stepped(steps_over(state, capacities.drop_last()), capacities.last())
    }
}

/// The first `k` steps of a fresh round: what they granted, and what they used of the window.
proof fn lemma_steps_over(remaining: u64, n: u64, epoch: u64, capacities: Seq<u64>)
    requires
        remaining > 0,
        n > 0,
        capacities.len() <= n,
    ensures
        ({
            let k = capacities.len() as int;
            let fresh = round_at_start(remaining, n, epoch);
            let state = steps_over(fresh, capacities);
            let shares = shares_below(remaining as int, n as int, epoch, k);
            &&& state == (NeutralRound {
                steps: k as u64,
                remainder_used: state.remainder_used,
                granted: state.granted,
                saturated: state.saturated,
                ..fresh
            })
            &&& state.remainder_used == window_below(
                k,
                n as int,
                rotation(epoch as int, n as int),
                (remaining % n) as int,
            )
            &&& 0 <= state.granted <= shares <= remaining
            &&& state.saturated <= k
            &&& state.saturated == 0 ==> state.granted == shares
        }),
    decreases capacities.len(),
{
    let k = capacities.len() as int;
    let r = remaining as int;
    let m = n as int;
    lemma_shares_mono(r, m, epoch, k, m);
    lemma_shares_below(r, m, epoch, m);
    lemma_floor(epoch as int, m);
    if k > 0 {
        lemma_steps_over(remaining, n, epoch, capacities.drop_last());
        lemma_window_step(k - 1, m, rotation(epoch as int, m), r % m);
        lemma_share_bound(r, m, epoch, k - 1);
        lemma_shares_mono(r, m, epoch, k - 1, m);
    }
}

/// A completed round conserves exactly: it granted no more than what remained, all integer remainders
/// were assigned, and where something still remains it saturated at least one validator.
pub proof fn law_round_conserves_and_saturates(
    remaining: u64,
    n: u64,
    epoch: u64,
    capacities: Seq<u64>,
)
    requires
        remaining > 0,
        n > 0,
        capacities.len() == n,
    ensures
        ({
            let state = steps_over(round_at_start(remaining, n, epoch), capacities);
            &&& state.complete()
            &&& state.granted <= state.remaining
            &&& state.remaining == remaining
            &&& state.remainder_used == state.remainder
            &&& state.granted < state.remaining ==> state.saturated >= 1
        }),
{
    lemma_steps_over(remaining, n, epoch, capacities);
    lemma_shares_below(remaining as int, n as int, epoch, n as int);
    lemma_floor(epoch as int, n as int);
}

/// The grant of a step never exceeds the capacity.
pub proof fn law_grant_is_within_capacity(state: NeutralRound, capacity: u64)
    ensures
        step_grant(state, capacity) <= capacity,
{
}

/// The sum of a sequence of capacities or targets.
pub open spec fn total(values: Seq<u64>) -> int
    decreases values.len(),
{
    if values.len() == 0 {
        0
    } else {
        total(values.drop_last()) + values.last()
    }
}

proof fn lemma_total_prefix(values: Seq<u64>, i: int)
    requires
        0 < i <= values.len(),
    ensures
        total(values.take(i)) == total(values.take(i - 1)) + values[i - 1],
{
    assert(values.take(i).drop_last() =~= values.take(i - 1));
}

/// A round moves exactly what it grants out of the capacities.
proof fn lemma_round_total(remaining: int, epoch: u64, caps: Seq<u64>, i: int)
    requires
        remaining > 0,
        unsaturated(caps) > 0,
        0 <= i <= caps.len(),
    ensures
        total(round_caps(remaining, epoch, caps).take(i)) + round_granted(
            remaining,
            epoch,
            caps,
            i,
        ) == total(caps.take(i)),
    decreases i,
{
    let after = round_caps(remaining, epoch, caps);
    if i > 0 {
        lemma_round_total(remaining, epoch, caps, i - 1);
        lemma_total_prefix(caps, i);
        lemma_total_prefix(after, i);
        lemma_grant_bounds(remaining, epoch, caps, i - 1);
    } else {
        assert(after.take(0).len() == 0);
        assert(caps.take(0).len() == 0);
    }
}

/// The distribution as a whole: it conserves the neutral pool exactly, never exceeds a capacity, leaves
/// a shortfall only when every capacity is exhausted, and ends within as many rounds as there were
/// validators with capacity, so within [`MAX_NEUTRAL_ROUNDS`] for a pool of at most [`MAX_VALIDATORS`].
pub proof fn law_distribution_conserves(neutral: int, epoch: u64, caps: Seq<u64>)
    requires
        neutral >= 0,
    ensures
        ({
            let d = distribution(neutral, epoch, caps);
            &&& d.caps.len() == caps.len()
            &&& forall|i: int| 0 <= i < caps.len() ==> #[trigger] d.caps[i] <= caps[i]
            &&& total(caps) - total(d.caps) + d.shortfall == neutral
            &&& 0 <= d.shortfall <= neutral
            &&& d.shortfall > 0 ==> forall|i: int|
                0 <= i < caps.len() ==> #[trigger] d.caps[i] == 0
            &&& 0 <= d.rounds <= unsaturated(caps) <= caps.len()
            &&& caps.len() <= MAX_VALIDATORS ==> d.rounds <= MAX_NEUTRAL_ROUNDS
        }),
    decreases
            if neutral > 0 {
                unsaturated(caps) + 1
            } else {
                0
            },
{
    lemma_with_capacity_bounds(caps, 0, caps.len() as int);
    if neutral <= 0 || unsaturated(caps) <= 0 {
        if neutral > 0 {
            assert forall|i: int| 0 <= i < caps.len() implies #[trigger] caps[i] == 0 by {
                lemma_with_capacity_bounds(caps, 0, i);
                lemma_with_capacity_bounds(caps, i + 1, caps.len() as int);
            }
        }
    } else {
        lemma_round_progress(neutral, epoch, caps);
        let after = round_caps(neutral, epoch, caps);
        let granted = round_granted(neutral, epoch, caps, caps.len() as int);
        law_distribution_conserves(neutral - granted, epoch, after);
        lemma_round_total(neutral, epoch, caps, caps.len() as int);
        assert(after.take(after.len() as int) =~= after);
        assert(caps.take(caps.len() as int) =~= caps);
        let rest = distribution(neutral - granted, epoch, after);
        assert forall|i: int| 0 <= i < caps.len() implies #[trigger] rest.caps[i] <= caps[i] by {
            lemma_grant_bounds(neutral, epoch, caps, i);
            assert(rest.caps[i] <= after[i]);
        }
        if neutral - granted <= 0 {
            assert(rest.rounds == 0);
        }
    }
}

/// A directed target is its share of the productive lamports, floored, up to the cap: below the cap it is
/// the largest with `target * supply <= productive * shares`, and the cap is reached exactly where that
/// share comes to it. Without supply it is 0.
pub proof fn law_directed_target_is_the_share(productive: int, shares: int, supply: int, cap: int)
    requires
        productive >= 0,
        shares >= 0,
        supply >= 0,
        cap >= 0,
    ensures
        ({
            let d = directed(productive, shares, supply, cap);
            &&& supply == 0 ==> d == 0
            &&& supply > 0 ==> d <= cap
            &&& supply > 0 && d < cap ==> d * supply <= productive * shares < (d + 1) * supply
            &&& supply > 0 ==> (d == cap <==> productive * shares >= cap * supply)
        }),
{
    if supply > 0 {
        let n = productive * shares;
        lemma_mul_mono(0, shares, productive);
        lemma_floor(n, supply);
        if n >= cap * supply {
            lemma_floor_ge(n, supply, cap);
        } else if n / supply >= cap {
            lemma_mul_mono(cap, n / supply, supply);
        }
    }
}

/// The neutral pool completes the directed targets to the productive lamports; there is one exactly where
/// the shares are within the supply and the targets within the productive lamports.
pub proof fn law_neutral_pool_completes_the_plan(
    productive: u64,
    sum_directed_targets: u64,
    total_directed_shares: u64,
    supply: u64,
)
    ensures
        ({
            let r = neutral_pool(productive, sum_directed_targets, total_directed_shares, supply);
            &&& r matches Some(neutral) ==> sum_directed_targets + neutral == productive
            &&& r is Some <==> total_directed_shares <= supply && sum_directed_targets <= productive
        }),
{
}

/// An Active validator's room lifts its target to the cap, or leaves it where it is past that; no other
/// status has room.
pub proof fn law_room_reaches_the_cap(
    status: ValidatorStatus,
    lifecycle_cap: u64,
    current_target: u64,
)
    ensures
        ({
            let room = room_of(status, lifecycle_cap, current_target);
            &&& status == ValidatorStatus::Active ==> current_target + room == vstd::math::max(
                lifecycle_cap as int,
                current_target as int,
            )
            &&& status != ValidatorStatus::Active ==> room == 0
        }),
{
}

/// What a round granted and what it leaves make up what remained at its start; a round is complete exactly
/// once its steps are as many as its validators.
pub proof fn law_round_accounts_for_what_remained(state: NeutralRound)
    ensures
        state.granted <= state.remaining ==> state.granted + state.left() == state.remaining,
        state.granted > state.remaining ==> state.left() == 0,
        state.complete() <==> !(state.steps < state.n_unsaturated),
{
}

/// The rotation starts at 0 and moves on by one ordinal every epoch, round and round.
pub proof fn law_rotation_advances_by_one(epoch: int, n: int)
    requires
        epoch >= 0,
        n > 0,
    ensures
        rotation(0, n) == 0,
        0 <= rotation(epoch, n) < n,
        rotation(epoch + 1, n) == (if rotation(epoch, n) + 1 == n {
            0
        } else {
            rotation(epoch, n) + 1
        }),
        rotation(epoch, 0) == 0,
{
    lemma_floor(epoch, n);
    vstd::arithmetic::div_mod::lemma_fundamental_div_mod_converse(0, n, 0, 0);
    let q = epoch / n;
    let r = epoch % n;
    assert(epoch == q * n + r) by (nonlinear_arith)
        requires
            epoch == n * q + r,
    ;
    if r + 1 == n {
        assert((q + 1) * n == q * n + n) by (nonlinear_arith);
        vstd::arithmetic::div_mod::lemma_fundamental_div_mod_converse(epoch + 1, n, q + 1, 0);
    } else {
        vstd::arithmetic::div_mod::lemma_fundamental_div_mod_converse(epoch + 1, n, q, r + 1);
    }
}

/// The window is the run of `remainder` ordinals from `start` on, wrapping past the last ordinal.
pub proof fn law_window_wraps_around(o: int, n: int, start: int, remainder: int)
    requires
        0 <= o < n,
        0 <= start < n,
        0 <= remainder <= n,
    ensures
        in_window(o, n, start, remainder) <==> start <= o < start + remainder || o < start + remainder
            - n,
{
    let x = o + n - start;
    if o >= start {
        vstd::arithmetic::div_mod::lemma_fundamental_div_mod_converse(x, n, 1, o - start);
    } else {
        vstd::arithmetic::div_mod::lemma_fundamental_div_mod_converse(x, n, 0, x);
    }
}

/// A fresh round splits what remains into equal tranches and a remainder below their number; nothing is
/// stepped, used, granted, or saturated yet.
pub proof fn law_fresh_round_splits_equally(remaining: u64, n: u64, epoch: u64)
    requires
        n > 0,
    ensures
        ({
            let fresh = round_at_start(remaining, n, epoch);
            &&& fresh.remaining == remaining && fresh.n_unsaturated == n
            &&& fresh.tranche * n + fresh.remainder == remaining
            &&& fresh.remainder < n
            &&& fresh.start < n
            &&& fresh.start == rotation(epoch as int, n as int)
            &&& fresh.steps == 0 && fresh.remainder_used == 0 && fresh.granted == 0
                && fresh.saturated == 0
        }),
{
    lemma_floor(remaining as int, n as int);
    lemma_floor(epoch as int, n as int);
    let t = (remaining / n) as int;
    assert(n * t == t * n) by (nonlinear_arith);
}

/// A step of a round that is under way. `rotated` is how far the ordinal lies behind the start, `laps` whole
/// rounds aside. The ordinal's share is the tranche, and one more where it is rotated into the remainder; it
/// is granted up to the capacity. The step counts itself, its grant, its place in the window, and whether
/// it used the capacity up, each count up to `u64::MAX`; the rest of the round stays.
pub proof fn law_step_grants_the_share(
    state: NeutralRound,
    capacity: u64,
    rotated: int,
    laps: int,
)
    requires
        state.steps < state.n_unsaturated,
        0 <= rotated < state.n_unsaturated,
        rotated + laps * state.n_unsaturated == state.steps - state.start,
    ensures
        ({
            let max = u64::MAX as int;
            let lucky = rotated < state.remainder;
            let share = if lucky {
                vstd::math::min(state.tranche + 1, max)
            } else {
                state.tranche as int
            };
            let grant = step_grant(state, capacity);
            let after = stepped(state, capacity);
            &&& grant == vstd::math::min(share, capacity as int)
            &&& after.steps == state.steps + 1
            &&& after.granted == vstd::math::min(state.granted + grant, max)
            &&& after.remainder_used == if lucky {
                vstd::math::min(state.remainder_used + 1, max)
            } else {
                state.remainder_used as int
            }
            &&& after.saturated == if share >= capacity {
                vstd::math::min(state.saturated + 1, max)
            } else {
                state.saturated as int
            }
            &&& after.remaining == state.remaining && after.n_unsaturated == state.n_unsaturated
            &&& after.tranche == state.tranche && after.remainder == state.remainder
            &&& after.start == state.start
        }),
{
    let n = state.n_unsaturated as int;
    let x = state.steps + n - state.start;
    assert(x == (laps + 1) * n + rotated) by (nonlinear_arith)
        requires
            rotated + laps * n == x - n,
    ;
    vstd::arithmetic::div_mod::lemma_fundamental_div_mod_converse(x, n, laps + 1, rotated);
}

/// The validators with capacity are those with a positive entry, counted.
pub proof fn law_with_capacity_counts_positive_entries(caps: Seq<u64>, i: int)
    requires
        0 <= i <= caps.len(),
    ensures
        with_capacity(caps, i) == caps.take(i).filter(|c: u64| c > 0).len(),
    decreases i,
{
    let positive = |c: u64| c > 0;
    reveal(Seq::filter);
    if i > 0 {
        law_with_capacity_counts_positive_entries(caps, i - 1);
        assert(caps.take(i).drop_last() =~= caps.take(i - 1));
        assert(caps.take(i).last() == caps[i - 1]);
    }
}

/// The rounds, one by one: where something remains and somebody has capacity, the distribution is one
/// round and the distribution of what that leaves. In the round every validator with capacity loses its
/// share of it, or all of it if the share is larger: the equal `tranche`, and one more for those whose
/// ordinal lies in the run of `remainder` ordinals from the rotation on.
pub proof fn law_distribution_goes_round_by_round(
    neutral: int,
    epoch: u64,
    caps: Seq<u64>,
    after: Seq<u64>,
    tranche: int,
    remainder: int,
)
    requires
        neutral > 0,
        ({
            let n = with_capacity(caps, caps.len() as int);
            let end = rotation(epoch as int, n) + remainder;
            &&& n > 0
            &&& tranche * n + remainder == neutral
            &&& 0 <= remainder < n
            &&& after.len() == caps.len()
            &&& forall|i: int|
                0 <= i < caps.len() ==> #[trigger] after[i] == ({
                    let o = with_capacity(caps, i);
                    let lucky = end - remainder <= o < end || o < end - n;
                    vstd::math::max(
                        0,
                        caps[i] - if lucky {
                            tranche + 1
                        } else {
                            tranche
                        },
                    )
                })
        }),
    ensures
        ({
            let d = distribution(neutral, epoch, caps);
            let rest = distribution(neutral - (total(caps) - total(after)), epoch, after);
            &&& d.rounds == rest.rounds + 1
            &&& d.shortfall == rest.shortfall
            &&& d.caps == rest.caps
        }),
{
    let n = unsaturated(caps);
    let start = rotation(epoch as int, n);
    assert(neutral == n * tranche + remainder) by (nonlinear_arith)
        requires
            tranche * n + remainder == neutral,
    ;
    assert(tranche * n == n * tranche) by (nonlinear_arith);
    vstd::arithmetic::div_mod::lemma_fundamental_div_mod_converse(neutral, n, tranche, remainder);
    lemma_floor(epoch as int, n);
    lemma_floor(neutral, n);
    let next = round_caps(neutral, epoch, caps);
    assert forall|i: int| 0 <= i < caps.len() implies #[trigger] next[i] == after[i] by {
        let o = with_capacity(caps, i);
        lemma_with_capacity_bounds(caps, 0, i);
        lemma_with_capacity_bounds(caps, i + 1, caps.len() as int);
        lemma_grant_bounds(neutral, epoch, caps, i);
        if caps[i] > 0 {
            law_window_wraps_around(o, n, start, remainder);
        }
        assert(after[i] == after[i]);
    }
    assert(next =~= after);
    lemma_round_total(neutral, epoch, caps, caps.len() as int);
    assert(after.take(after.len() as int) =~= after);
    assert(caps.take(caps.len() as int) =~= caps);
    lemma_round_progress(neutral, epoch, caps);
}

/// Nothing is moved where nothing remains or nobody has capacity.
pub proof fn law_distribution_stops(neutral: int, epoch: u64, caps: Seq<u64>)
    requires
        neutral == 0 || forall|i: int| 0 <= i < caps.len() ==> #[trigger] caps[i] == 0,
        neutral >= 0,
    ensures
        distribution(neutral, epoch, caps).rounds == 0,
        distribution(neutral, epoch, caps).shortfall == neutral,
        distribution(neutral, epoch, caps).caps == caps,
{
    if neutral > 0 {
        lemma_no_capacity(caps, caps.len() as int);
    }
}

proof fn lemma_no_capacity(caps: Seq<u64>, i: int)
    requires
        0 <= i <= caps.len(),
        forall|k: int| 0 <= k < caps.len() ==> #[trigger] caps[k] == 0,
    ensures
        with_capacity(caps, i) == 0,
    decreases i,
{
    if i > 0 {
        lemma_no_capacity(caps, i - 1);
        assert(caps[i - 1] == 0);
    }
}

/// The distribution is fair: a validator that has capacity left has received as much as any other, up to
/// one lamport for every round.
pub proof fn law_distribution_is_fair(neutral: int, epoch: u64, caps: Seq<u64>, i: int, j: int)
    requires
        neutral >= 0,
        0 <= i < caps.len(),
        0 <= j < caps.len(),
        distribution(neutral, epoch, caps).caps[j] > 0,
    ensures
        ({
            let d = distribution(neutral, epoch, caps);
            caps[i] - d.caps[i] <= caps[j] - d.caps[j] + d.rounds
        }),
    decreases
            if neutral > 0 {
                unsaturated(caps) + 1
            } else {
                0
            },
{
    if neutral > 0 && unsaturated(caps) > 0 {
        lemma_round_progress(neutral, epoch, caps);
        let after = round_caps(neutral, epoch, caps);
        let left = neutral - round_granted(neutral, epoch, caps, caps.len() as int);
        lemma_grant_bounds(neutral, epoch, caps, i);
        lemma_grant_bounds(neutral, epoch, caps, j);
        law_distribution_conserves(left, epoch, after);
        law_distribution_is_fair(left, epoch, after, i, j);
        let rest = distribution(left, epoch, after);
        assert(rest.caps[j] <= after[j]);
        assert(after[i] == caps[i] - round_grant(neutral, epoch, caps, i));
        assert(after[j] == caps[j] - round_grant(neutral, epoch, caps, j));
        lemma_floor(neutral, unsaturated(caps));
    }
}

/// With capacity for everyone's share, one round splits the pool equally: every validator with capacity
/// receives the tranche, or one more inside the rotated window.
pub proof fn law_ample_capacity_splits_equally(neutral: int, epoch: u64, caps: Seq<u64>)
    requires
        neutral > 0,
        unsaturated(caps) > 0,
        forall|i: int|
            0 <= i < caps.len() && #[trigger] caps[i] > 0 ==> caps[i] > neutral / unsaturated(caps),
    ensures
        ({
            let d = distribution(neutral, epoch, caps);
            &&& d.rounds == 1
            &&& d.shortfall == 0
            &&& forall|i: int|
                0 <= i < caps.len() ==> #[trigger] d.caps[i] == caps[i] - if caps[i] == 0 {
                    0
                } else {
                    equal_share(neutral, unsaturated(caps), epoch, with_capacity(caps, i))
                }
        }),
{
    let n = unsaturated(caps);
    lemma_floor(neutral, n);
    lemma_ample_prefix(neutral, epoch, caps, caps.len() as int);
    lemma_shares_below(neutral, n, epoch, n);
    lemma_round_progress(neutral, epoch, caps);
    let after = round_caps(neutral, epoch, caps);
    assert(distribution(0, epoch, after) == (Distribution { rounds: 0, shortfall: 0, caps: after }));
    assert forall|i: int| 0 <= i < caps.len() implies #[trigger] after[i] == caps[i] - if caps[i]
        == 0 {
        0
    } else {
        equal_share(neutral, n, epoch, with_capacity(caps, i))
    } by {
        lemma_grant_bounds(neutral, epoch, caps, i);
    }
}

proof fn lemma_ample_prefix(neutral: int, epoch: u64, caps: Seq<u64>, i: int)
    requires
        neutral > 0,
        unsaturated(caps) > 0,
        0 <= i <= caps.len(),
        forall|k: int|
            0 <= k < caps.len() && #[trigger] caps[k] > 0 ==> caps[k] > neutral / unsaturated(caps),
    ensures
        round_granted(neutral, epoch, caps, i) == shares_below(
            neutral,
            unsaturated(caps),
            epoch,
            with_capacity(caps, i),
        ),
    decreases i,
{
    if i > 0 {
        lemma_ample_prefix(neutral, epoch, caps, i - 1);
        lemma_with_capacity_bounds(caps, 0, i - 1);
        assert(caps[i - 1] > 0 ==> caps[i - 1] > neutral / unsaturated(caps));
    }
}

/// The final targets: what each validator started from, plus what its capacity lost. Where target and
/// capacity together fit, nothing saturates, so the targets gain exactly what was distributed, and a
/// target never exceeds its cap.
pub proof fn law_plan_conserves(
    productive: u64,
    epoch: u64,
    caps: Seq<u64>,
    directed_targets: Seq<u64>,
    final_targets: Seq<u64>,
)
    requires
        caps.len() == directed_targets.len(),
        final_targets.len() == caps.len(),
        total(directed_targets) <= productive,
        forall|i: int|
            0 <= i < caps.len() ==> #[trigger] directed_targets[i] + caps[i] <= u64::MAX,
        forall|i: int|
            0 <= i < caps.len() ==> #[trigger] final_targets[i] == saturated_sum(
                directed_targets[i] as int,
                caps[i] - distribution(
                    productive - total(directed_targets),
                    epoch,
                    caps,
                ).caps[i],
            ),
    ensures
        total(final_targets) + distribution(
            productive - total(directed_targets),
            epoch,
            caps,
        ).shortfall == productive,
        forall|i: int|
            0 <= i < caps.len() ==> directed_targets[i] <= #[trigger] final_targets[i]
                <= directed_targets[i] + caps[i],
{
    let neutral = productive - total(directed_targets);
    let d = distribution(neutral, epoch, caps);
    law_distribution_conserves(neutral, epoch, caps);
    assert forall|i: int| 0 <= i < caps.len() implies directed_targets[i]
        <= #[trigger] final_targets[i] <= directed_targets[i] + caps[i] && final_targets[i]
        == directed_targets[i] + caps[i] - d.caps[i] by {
        assert(d.caps[i] <= caps[i]);
        assert(directed_targets[i] + caps[i] <= u64::MAX);
    }
    lemma_plan_total(caps, d.caps, directed_targets, final_targets, caps.len() as int);
    assert(final_targets.take(caps.len() as int) =~= final_targets);
    assert(directed_targets.take(caps.len() as int) =~= directed_targets);
    assert(caps.take(caps.len() as int) =~= caps);
    assert(d.caps.take(caps.len() as int) =~= d.caps);
}

proof fn lemma_plan_total(
    caps: Seq<u64>,
    left: Seq<u64>,
    before: Seq<u64>,
    after: Seq<u64>,
    i: int,
)
    requires
        0 <= i <= caps.len(),
        left.len() == caps.len(),
        before.len() == caps.len(),
        after.len() == caps.len(),
        forall|k: int|
            0 <= k < caps.len() ==> #[trigger] after[k] == before[k] + caps[k] - left[k],
    ensures
        total(after.take(i)) == total(before.take(i)) + total(caps.take(i)) - total(left.take(i)),
    decreases i,
{
    if i > 0 {
        lemma_plan_total(caps, left, before, after, i - 1);
        lemma_total_prefix(caps, i);
        lemma_total_prefix(left, i);
        lemma_total_prefix(before, i);
        lemma_total_prefix(after, i);
        assert(after[i - 1] == before[i - 1] + caps[i - 1] - left[i - 1]);
    } else {
        assert(after.take(0).len() == 0 && before.take(0).len() == 0);
        assert(caps.take(0).len() == 0 && left.take(0).len() == 0);
    }
}

} // verus!
