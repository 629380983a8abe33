//! The time-weighted average price over a self-maintained ring of observations.
//!
//! A permissionless crank appends `{price, ts}` observations. The average is never a primary price,
//! only a divergence corridor: every price is weighted by the time it was in effect, and the average
//! spans a full window, so a pump of a few blocks cannot move it. The average rounds down.

use crate::math::arith::{lemma_floor, lemma_floor_exact, lemma_floor_ge, lemma_floor_le, lemma_mul_mono};
use vstd::prelude::*;

verus! {

/// Unix seconds.
pub type Timestamp = i64;

#[derive(Clone, Copy, Debug, PartialEq, Eq, Structural)]
pub enum TwapError {
    /// `push` requires strictly increasing timestamps.
    NonMonotonicTs,
}

/// One sampled observation: the pool price at time `ts`.
#[derive(Clone, Copy, Debug, PartialEq, Eq, Structural)]
pub struct Observation {
    pub price: u128,
    pub ts: Timestamp,
}

/// Guards on [`ObservationRing::twap`].
#[derive(Clone, Copy, Debug)]
pub struct TwapConfig {
    /// Minimum number of retained observations.
    pub min_samples: u32,
    /// Maximum allowed `now - newest.ts`.
    pub max_staleness: i64,
}

/// Fixed-capacity ring of observations, oldest overwritten first: parallel arrays, the next write
/// slot, and the number of valid observations.
#[derive(Clone, Copy, Debug)]
pub struct ObservationRing<const N: usize> {
    prices: [u128; N],
    ts: [Timestamp; N],
    next: u64,
    count: u64,
}

// The model: the retained observations in chronological order.

/// Timestamps strictly increase.
pub open spec fn increasing(obs: Seq<Observation>) -> bool {
    forall|i: int, j: int|
        #![trigger obs[i], obs[j]]
        0 <= i < j < obs.len() ==> obs[i].ts < obs[j].ts
}

/// How long, within `[start, now]`, the price of observation `k` was in effect: from its own time to
/// that of the next observation, or to `now` for the newest.
pub open spec fn held(obs: Seq<Observation>, k: int, start: int, now: int) -> int {
    let from = if obs[k].ts > start {
        obs[k].ts as int
    } else {
        start
    };
    let next = if k + 1 < obs.len() {
        obs[k + 1].ts as int
    } else {
        now
    };
    let to = if next < now {
        next
    } else {
        now
    };
    if to > from {
        to - from
    } else {
        0
    }
}

/// The time that the first `n` observations were in effect.
pub open spec fn held_before(obs: Seq<Observation>, n: int, start: int, now: int) -> int
    decreases n,
{
    if n <= 0 {
        0
    } else {
        held_before(obs, n - 1, start, now) + held(obs, n - 1, start, now)
    }
}

/// The sum of price times time over the first `n` observations.
pub open spec fn weighted_before(obs: Seq<Observation>, n: int, start: int, now: int) -> int
    decreases n,
{
    if n <= 0 {
        0
    } else {
        weighted_before(obs, n - 1, start, now) + obs[n - 1].price * held(obs, n - 1, start, now)
    }
}

/// Whether the observations cover the window that ends at `now`, and are recent enough.
pub open spec fn covers(obs: Seq<Observation>, now: int, window: int, cfg: TwapConfig) -> bool {
    &&& window > 0
    &&& obs.len() >= cfg.min_samples
    &&& obs.len() > 0
    &&& obs.last().ts <= now
    &&& now - obs.last().ts <= cfg.max_staleness
    &&& now - window >= i64::MIN
    &&& obs[0].ts <= now - window
}

/// The average over the window, where it is covered and the weighted sum fits `u128`.
pub open spec fn average(obs: Seq<Observation>, now: int, window: int, cfg: TwapConfig) -> Option<
    u128,
> {
    let sum = weighted_before(obs, obs.len() as int, now - window, now);
    if covers(obs, now, window, cfg) && sum <= u128::MAX {
        Some((sum / window) as u128)
    } else {
        None
    }
}

/// The retained observations after one more: the oldest gives way once the ring is full.
pub open spec fn appended(obs: Seq<Observation>, capacity: int, o: Observation) -> Seq<Observation> {
    if obs.len() < capacity {
        obs.push(o)
    } else {
        obs.drop_first().push(o)
    }
}

proof fn lemma_held_nonneg(obs: Seq<Observation>, n: int, start: int, now: int)
    ensures
        held_before(obs, n, start, now) >= 0,
        weighted_before(obs, n, start, now) >= 0,
    decreases n,
{
    if n > 0 {
        lemma_held_nonneg(obs, n - 1, start, now);
        lemma_mul_mono(0, obs[n - 1].price as int, held(obs, n - 1, start, now));
    }
}

proof fn lemma_weighted_mono(obs: Seq<Observation>, m: int, n: int, start: int, now: int)
    requires
        0 <= m <= n,
    ensures
        0 <= weighted_before(obs, m, start, now) <= weighted_before(obs, n, start, now),
    decreases n,
{
    lemma_held_nonneg(obs, m, start, now);
    if m < n {
        lemma_weighted_mono(obs, m, n - 1, start, now);
        lemma_mul_mono(0, obs[n - 1].price as int, held(obs, n - 1, start, now));
    }
}

impl<const N: usize> ObservationRing<N> {
    /// Slot of the `k`-th retained observation.
    closed spec fn slot(self, k: int) -> int {
        let oldest = if self.next >= self.count {
            self.next - self.count
        } else {
            self.next - self.count + N
        };
        if oldest + k < N {
            oldest + k
        } else {
            oldest + k - N
        }
    }

    /// The retained observations, oldest first.
    pub closed spec fn view(&self) -> Seq<Observation> {
        Seq::new(
            self.count as nat,
            |k: int|
                Observation { price: self.prices@[self.slot(k)], ts: self.ts@[self.slot(k)] },
        )
    }

    /// The cursor and the count are within the capacity, and the retained timestamps increase.
    pub closed spec fn wf(self) -> bool {
        &&& N > 0
        &&& self.next < N
        &&& self.count <= N
        &&& self.count < N ==> self.next == self.count
        &&& increasing(self.view())
    }

    /// A ring holds at most its capacity, in strictly increasing order of time.
    pub proof fn law_observations_are_ordered(self)
        requires
            self.wf(),
        ensures
            N > 0,
            self.view().len() <= N,
            increasing(self.view()),
    {
    }

    /// An empty ring. The capacity must be non-zero and even.
    pub fn new() -> (r: Self)
        requires
            N > 0,
            N % 2 == 0,
        ensures
            r.wf(),
            r.view() == Seq::<Observation>::empty(),
    {
        Self::default()
    }

    pub fn len(&self) -> (r: usize)
        requires
            self.wf(),
        ensures
            r == self.view().len(),
    {
        self.count as usize
    }

    pub fn is_empty(&self) -> (r: bool)
        ensures
            r == (self.view().len() == 0),
    {
        self.count == 0
    }

    /// Newest observation, if any.
    pub fn last(&self) -> (r: Option<Observation>)
        requires
            self.wf(),
        ensures
            r == (if self.view().len() == 0 {
                None
            } else {
                Some(self.view().last())
            }),
    {
        if self.count == 0 {
            return None;
        }
        let idx: usize = if self.next == 0 {
            N - 1
        } else {
            self.next as usize - 1
        };
        assert(self.slot(self.count - 1) == idx);
        Some(Observation { price: self.prices[idx], ts: self.ts[idx] })
    }

    /// `k`-th retained observation in chronological order (0 = oldest).
    pub fn nth(&self, k: usize) -> (r: Observation)
        requires
            self.wf(),
            k < self.view().len(),
        ensures
            r == self.view()[k as int],
    {
        let next: usize = self.next as usize;
        let count: usize = self.count as usize;
        let oldest: usize = if next >= count {
            next - count
        } else {
            next + (N - count)
        };
        let idx: usize = if k < N - oldest {
            oldest + k
        } else {
            k - (N - oldest)
        };
        assert(self.slot(k as int) == idx);
        Observation { price: self.prices[idx], ts: self.ts[idx] }
    }

    /// Append an observation, overwriting the oldest. Timestamps must strictly increase: an equal or
    /// older `ts` is rejected.
    pub fn push(&mut self, price: u128, ts: Timestamp) -> (r: Result<(), TwapError>)
        requires
            old(self).wf(),
        ensures
            final(self).wf(),
            r is Err <==> old(self).view().len() > 0 && ts <= old(self).view().last().ts,
            r is Err ==> *final(self) == *old(self),
            r is Ok ==> final(self).view() == appended(
                old(self).view(),
                N as int,
                Observation { price, ts },
            ),
    {
        let ghost before = *self;
        if let Some(last) = self.last() {
            if ts <= last.ts {
                return Err(TwapError::NonMonotonicTs);
            }
        }
        let idx: usize = self.next as usize;
        self.prices[idx] = price;
        self.ts[idx] = ts;
        self.next = if self.next + 1 == N as u64 {
            0
        } else {
            self.next + 1
        };
        if self.count < N as u64 {
            self.count = self.count + 1;
        }
        proof {
            let o = Observation { price, ts };
            let old_view = before.view();
            let new_view = appended(old_view, N as int, o);
            assert(self.view().len() == new_view.len());
            assert forall|k: int| 0 <= k < self.view().len() implies #[trigger] self.view()[k]
                == new_view[k] by {
                if before.count < N {
                    assert(self.slot(k) == k);
                    if k < old_view.len() {
                        assert(before.slot(k) == k);
                    }
                } else {
                    if k + 1 < N {
                        assert(self.slot(k) == before.slot(k + 1));
                        assert(before.slot(k + 1) != idx);
                        assert(new_view[k] == old_view[k + 1]);
                    } else {
                        assert(self.slot(k) == idx);
                    }
                }
            }
            assert(self.view() =~= new_view);
            assert(increasing(new_view)) by {
                assert forall|i: int, j: int|
                    #![trigger new_view[i], new_view[j]]
                    0 <= i < j < new_view.len() implies new_view[i].ts < new_view[j].ts by {
                    let shift = if before.count < N {
                        0int
                    } else {
                        1int
                    };
                    assert(new_view[i] == old_view[i + shift]);
                    if j + 1 < new_view.len() {
                        assert(new_view[j] == old_view[j + shift]);
                    } else {
                        let m = old_view.len() - 1;
                        assert(i + shift <= m);
                        if i + shift < m {
                            assert(old_view[i + shift].ts < old_view[m].ts);
                        }
                        assert(new_view[j] == o);
                    }
                }
            }
        }
        Ok(())
    }

    /// Time-weighted average price over the trailing `window` seconds that end at `now`.
    ///
    /// Each observation's price holds from its own time until the next observation's; the newest holds
    /// until `now`. `None`, never an extrapolated or partial average, unless all of these hold:
    /// `window > 0`; the newest sample is not in the future, and at most `max_staleness` old; at least
    /// `min_samples` observations are retained; they span the window; nothing overflows.
    pub fn twap(&self, now: Timestamp, window: i64, cfg: &TwapConfig) -> (r: Option<u128>)
        requires
            self.wf(),
        ensures
            r == average(self.view(), now as int, window as int, *cfg),
    {
        if window <= 0 || self.count < cfg.min_samples as u64 || self.count == 0 {
            return None;
        }
        let newest: Observation = match self.last() {
            Some(o) => o,
            None => {
                return None;
            },
        };
        if now < newest.ts {
            return None;
        }
        match now.checked_sub(newest.ts) {
            Some(age) => if age > cfg.max_staleness {
                return None;
            },
            None => {
                return None;
            },
        }
        let start: i64 = match now.checked_sub(window) {
            Some(s) => s,
            None => {
                return None;
            },
        };
        // No extrapolation: the oldest retained sample must predate the window.
        if self.nth(0).ts > start {
            return None;
        }
        let ghost obs = self.view();
        let mut acc: u128 = 0;
        let n: usize = self.count as usize;
        let mut k: usize = 0;
        while k < n
            invariant
                self.wf(),
                obs == self.view(),
                n == obs.len(),
                k <= n,
                start == now - window,
                window > 0,
                acc == weighted_before(obs, k as int, start as int, now as int),
                covers(obs, now as int, window as int, *cfg),
            decreases n - k,
        {
            let o: Observation = self.nth(k);
            let seg_start: i64 = if o.ts > start {
                o.ts
            } else {
                start
            };
            let next_ts: i64 = if k + 1 < n {
                self.nth(k + 1).ts
            } else {
                now
            };
            let seg_end: i64 = if next_ts < now {
                next_ts
            } else {
                now
            };
            proof {
                lemma_weighted_mono(obs, k + 1, n as int, start as int, now as int);
                lemma_weighted_mono(obs, k as int, k + 1, start as int, now as int);
            }
            if seg_end > seg_start {
                let dur: u128 = (seg_end - seg_start) as u128;
                let ghost part: int = o.price * dur;
                assert(part == obs[k as int].price * held(obs, k as int, start as int, now as int));
                match o.price.checked_mul(dur) {
                    Some(x) => match acc.checked_add(x) {
                        Some(y) => {
                            acc = y;
                        },
                        None => {
                            return None;
                        },
                    },
                    None => {
                        return None;
                    },
                }
            } else {
                assert(obs[k as int].price * 0 == 0);
            }
            k = k + 1;
        }
        Some(acc / window as u128)
    }
}

impl<const N: usize> Default for ObservationRing<N> {
    fn default() -> (r: Self)
        ensures
            N > 0 ==> r.wf() && r.view() == Seq::<Observation>::empty(),
    {
        let r = Self { prices: [0; N], ts: [0; N], next: 0, count: 0 };
        assert(r.view() =~= Seq::<Observation>::empty());
        r
    }
}

// Laws.

/// Where the observations span the window, the times they were in effect add up to the window, exactly.
pub proof fn law_weights_add_up_to_the_window(obs: Seq<Observation>, now: int, window: int)
    requires
        increasing(obs),
        obs.len() > 0,
        window > 0,
        obs[0].ts <= now - window,
        obs.last().ts <= now,
    ensures
        held_before(obs, obs.len() as int, now - window, now) == window,
{
    lemma_held_prefix(obs, obs.len() as int, now - window, now);
}

/// The first `n` observations were in effect from the start of the window up to the next one.
proof fn lemma_held_prefix(obs: Seq<Observation>, n: int, start: int, now: int)
    requires
        increasing(obs),
        1 <= n <= obs.len(),
        start <= now,
        obs[0].ts <= start,
        obs.last().ts <= now,
    ensures
        held_before(obs, n, start, now) == {
            let to = if n < obs.len() {
                obs[n].ts as int
            } else {
                now
            };
            if to > start {
                to - start
            } else {
                0
            }
        },
    decreases n,
{
    if n < obs.len() && n < obs.len() - 1 {
        assert(obs[n].ts < obs[obs.len() - 1].ts);
    }
    if n == 1 {
        assert(held_before(obs, 0, start, now) == 0);
    } else {
        lemma_held_prefix(obs, n - 1, start, now);
        assert(obs[n - 2].ts < obs[n - 1].ts);
        if n < obs.len() {
            assert(obs[n - 1].ts < obs[n].ts);
        }
    }
}

/// Bounds on the prices bound the weighted sum.
proof fn lemma_weighted_bounds(
    obs: Seq<Observation>,
    n: int,
    start: int,
    now: int,
    low: int,
    high: int,
)
    requires
        0 <= n <= obs.len(),
        forall|k: int| #![trigger obs[k]] 0 <= k < n ==> low <= obs[k].price <= high,
    ensures
        low * held_before(obs, n, start, now) <= weighted_before(obs, n, start, now) <= high
            * held_before(obs, n, start, now),
    decreases n,
{
    if n == 0 {
        assert(low * 0 == 0 && high * 0 == 0);
    } else {
        lemma_weighted_bounds(obs, n - 1, start, now, low, high);
        let h = held(obs, n - 1, start, now);
        let b = held_before(obs, n - 1, start, now);
        lemma_mul_mono(low, obs[n - 1].price as int, h);
        lemma_mul_mono(obs[n - 1].price as int, high, h);
        assert(low * (b + h) == low * b + low * h && high * (b + h) == high * b + high * h)
            by (nonlinear_arith);
    }
}

/// The price in effect at the second `s`: that of the newest observation not after it.
pub open spec fn price_at(obs: Seq<Observation>, s: int) -> int
    decreases obs.len(),
{
    if obs.len() == 0 {
        0
    } else if obs.last().ts <= s {
        obs.last().price as int
    } else {
        price_at(obs.drop_last(), s)
    }
}

/// The prices in effect at the seconds from `from` up to `to`, added up.
pub open spec fn price_seconds(obs: Seq<Observation>, from: int, to: int) -> int
    decreases to - from,
{
    if to <= from {
        0
    } else {
        price_seconds(obs, from, to - 1) + price_at(obs, to - 1)
    }
}

/// Between two observations the price of the earlier one is in effect.
proof fn lemma_price_at(obs: Seq<Observation>, k: int, s: int)
    requires
        increasing(obs),
        0 <= k < obs.len(),
        obs[k].ts <= s,
        k + 1 < obs.len() ==> s < obs[k + 1].ts,
    ensures
        price_at(obs, s) == obs[k].price,
    decreases obs.len(),
{
    if k + 1 < obs.len() {
        if k + 1 < obs.len() - 1 {
            assert(obs[k + 1].ts < obs[obs.len() - 1].ts);
        }
        let rest = obs.drop_last();
        assert(increasing(rest)) by {
            assert forall|i: int, j: int| #![trigger rest[i], rest[j]] 0 <= i < j < rest.len() implies rest[i].ts
                < rest[j].ts by {
                assert(rest[i] == obs[i] && rest[j] == obs[j]);
            }
        }
        lemma_price_at(rest, k, s);
    }
}

/// A stretch of seconds within the time of one observation, from a second `from` before it.
proof fn lemma_price_seconds_stretch(obs: Seq<Observation>, k: int, from: int, mid: int, to: int)
    requires
        increasing(obs),
        0 <= k < obs.len(),
        obs[k].ts <= mid,
        k + 1 < obs.len() ==> to <= obs[k + 1].ts,
        from <= mid <= to,
    ensures
        price_seconds(obs, from, to) == price_seconds(obs, from, mid) + obs[k].price * (to - mid),
    decreases to - mid,
{
    if mid < to {
        lemma_price_seconds_stretch(obs, k, from, mid, to - 1);
        lemma_price_at(obs, k, to - 1);
        let p = obs[k].price as int;
        assert(p * (to - mid) == p * (to - 1 - mid) + p) by (nonlinear_arith);
    } else {
        assert(obs[k].price * 0 == 0);
    }
}

/// The first `n` observations weigh what their seconds within the window add up to.
proof fn lemma_weighted_is_price_seconds(obs: Seq<Observation>, n: int, start: int, now: int)
    requires
        increasing(obs),
        1 <= n <= obs.len(),
        start <= now,
        obs[0].ts <= start,
        obs.last().ts <= now,
    ensures
        ({
            let to = if n < obs.len() {
                obs[n].ts as int
            } else {
                now
            };
            weighted_before(obs, n, start, now) == price_seconds(obs, start, to)
        }),
    decreases n,
{
    let to = if n < obs.len() {
        obs[n].ts as int
    } else {
        now
    };
    if n < obs.len() - 1 {
        assert(obs[n].ts < obs[obs.len() - 1].ts);
    }
    if n < obs.len() {
        assert(obs[n - 1].ts < obs[n].ts);
    }
    let h = held(obs, n - 1, start, now);
    let from = if obs[n - 1].ts > start {
        obs[n - 1].ts as int
    } else {
        start
    };
    if n == 1 {
        assert(weighted_before(obs, 0, start, now) == 0);
        assert(from == start);
    } else {
        lemma_weighted_is_price_seconds(obs, n - 1, start, now);
    }
    assert(price_seconds(obs, start, start) == 0);
    if to > from {
        lemma_price_seconds_stretch(obs, n - 1, start, from, to);
    } else {
        assert(obs[n - 1].price * 0 == 0);
    }
}

/// The average is the mean, over the seconds of the window, of the price in effect at each, floored. It
/// is there exactly when the window is positive, the observations are as many as required and at least
/// one, the newest is neither in the future nor older than allowed, the oldest is not after the start of
/// the window, and the prices add up within `u128`.
pub proof fn law_average_is_the_mean_of_the_seconds(
    obs: Seq<Observation>,
    now: int,
    window: int,
    cfg: TwapConfig,
)
    requires
        increasing(obs),
    ensures
        ({
            let total = price_seconds(obs, now - window, now);
            let r = average(obs, now, window, cfg);
            &&& r matches Some(v) ==> v * window <= total < (v + 1) * window
            &&& r is Some <==> window > 0 && obs.len() >= cfg.min_samples && obs.len() > 0
                && obs.last().ts <= now <= obs.last().ts + cfg.max_staleness && obs[0].ts + window
                <= now && total <= u128::MAX
        }),
{
    if window > 0 && obs.len() > 0 && obs.last().ts <= now && obs[0].ts + window <= now {
        lemma_weighted_is_price_seconds(obs, obs.len() as int, now - window, now);
        let sum = weighted_before(obs, obs.len() as int, now - window, now);
        lemma_held_nonneg(obs, obs.len() as int, now - window, now);
        lemma_floor(sum, window);
    }
}

/// The average lies between the lowest and the highest retained price.
pub proof fn law_average_is_within_prices(
    obs: Seq<Observation>,
    now: int,
    window: int,
    cfg: TwapConfig,
    low: u128,
    high: u128,
)
    requires
        increasing(obs),
        average(obs, now, window, cfg) is Some,
        forall|k: int| #![trigger obs[k]] 0 <= k < obs.len() ==> low <= obs[k].price <= high,
    ensures
        low <= average(obs, now, window, cfg)->0 <= high,
{
    law_weights_add_up_to_the_window(obs, now, window);
    lemma_weighted_bounds(obs, obs.len() as int, now - window, now, low as int, high as int);
    let sum = weighted_before(obs, obs.len() as int, now - window, now);
    lemma_floor_ge(sum, window, low as int);
    assert((high + 1) * window == high * window + window) by (nonlinear_arith);
    lemma_floor_le(sum, window, high as int);
}

/// A constant price averages to itself, exactly, wherever the weighted sum fits.
pub proof fn law_constant_price_is_exact(
    obs: Seq<Observation>,
    now: int,
    window: int,
    cfg: TwapConfig,
    price: u128,
)
    requires
        increasing(obs),
        covers(obs, now, window, cfg),
        price * window <= u128::MAX,
        forall|k: int| #![trigger obs[k]] 0 <= k < obs.len() ==> obs[k].price == price,
    ensures
        average(obs, now, window, cfg) == Some(price),
{
    law_weights_add_up_to_the_window(obs, now, window);
    lemma_weighted_bounds(obs, obs.len() as int, now - window, now, price as int, price as int);
    lemma_floor_exact(price as int, window);
}

/// A fresh print cannot dominate: it carries only the time since it was pushed. With every earlier price
/// at most `high`, the average is at most `high` plus the print's excess, weighted by that time.
pub proof fn law_fresh_print_cannot_dominate(
    obs: Seq<Observation>,
    now: int,
    window: int,
    cfg: TwapConfig,
    high: u128,
)
    requires
        increasing(obs),
        average(obs, now, window, cfg) is Some,
        obs.len() >= 2,
        obs.last().ts >= now - window,
        forall|k: int| #![trigger obs[k]] 0 <= k < obs.len() - 1 ==> obs[k].price <= high,
    ensures
        average(obs, now, window, cfg)->0 * window <= high * (window - (now - obs.last().ts))
            + obs.last().price * (now - obs.last().ts),
{
    let n = obs.len() as int;
    let start = now - window;
    law_weights_add_up_to_the_window(obs, now, window);
    lemma_weighted_bounds(obs, n - 1, start, now, 0, high as int);
    let h = held(obs, n - 1, start, now);
    assert(h == now - obs.last().ts);
    let sum = weighted_before(obs, n, start, now);
    lemma_held_nonneg(obs, n, start, now);
    lemma_floor(sum, window);
}

/// An observation past the newest never yields an average: a sample in the future is refused.
pub proof fn law_future_sample_is_refused(
    obs: Seq<Observation>,
    now: int,
    window: int,
    cfg: TwapConfig,
)
    requires
        obs.len() > 0,
        obs.last().ts > now,
    ensures
        average(obs, now, window, cfg) is None,
{
}

/// Appending keeps the order and never exceeds the capacity; the newest is what was appended.
pub proof fn law_append_keeps_order(obs: Seq<Observation>, capacity: int, o: Observation)
    requires
        increasing(obs),
        0 < capacity,
        obs.len() <= capacity,
        obs.len() > 0 ==> obs.last().ts < o.ts,
    ensures
        increasing(appended(obs, capacity, o)),
        appended(obs, capacity, o).len() <= capacity,
        appended(obs, capacity, o).last() == o,
{
    let v = appended(obs, capacity, o);
    assert forall|i: int, j: int| #![trigger v[i], v[j]] 0 <= i < j < v.len() implies v[i].ts
        < v[j].ts by {
        let shift = if obs.len() < capacity {
            0int
        } else {
            1int
        };
        assert(v[i] == obs[i + shift]);
        if j + 1 < v.len() {
            assert(v[j] == obs[j + shift]);
        } else {
            let m = obs.len() - 1;
            if i + shift < m {
                assert(obs[i + shift].ts < obs[m].ts);
            }
        }
    }
}

/// Appending loses at most the oldest: a ring with room keeps all it had before the new one, and a full
/// one all but the first, in place.
pub proof fn law_append_drops_only_the_oldest(obs: Seq<Observation>, capacity: int, o: Observation)
    requires
        0 < capacity,
        obs.len() <= capacity,
    ensures
        ({
            let v = appended(obs, capacity, o);
            let lost = obs.len() + 1 - v.len();
            &&& v.len() == vstd::math::min(obs.len() as int + 1, capacity)
            &&& v.last() == o
            &&& forall|i: int| 0 <= i < v.len() - 1 ==> #[trigger] v[i] == obs[i + lost]
        }),
{
}

} // verus!
