//! The loss-absorption waterfall of a liquidation.
//!
//! A liquidation's present debt is extinguished across tiers in strict order: the Reactor Pool,
//! redistribution to the other positions (all or nothing), the market's own insurance buffer, the
//! global backstop reserve, and what is left un-homed, the signal to shut the market down.

use vstd::prelude::*;

verus! {

/// How a liquidation's debt is extinguished across the tiers. The five fields sum to the debt.
#[derive(Clone, Copy, Debug, PartialEq, Eq, Structural)]
pub struct Absorption {
    /// Offset by the Reactor Pool.
    pub reactor: u128,
    /// Redistributed to the other active positions.
    pub redist: u128,
    /// Absorbed by the market's own insurance buffer.
    pub buffer: u128,
    /// Absorbed by the global backstop reserve.
    pub global: u128,
    /// What no tier could extinguish; non-zero means: shut the market down.
    pub unhomed: u128,
}

impl Default for Absorption {
    fn default() -> (r: Self)
        ensures
            r == (Absorption { reactor: 0, redist: 0, buffer: 0, global: 0, unhomed: 0 }),
    {
        Absorption { reactor: 0, redist: 0, buffer: 0, global: 0, unhomed: 0 }
    }
}

pub open spec fn least(a: int, b: int) -> int {
    if a < b {
        a
    } else {
        b
    }
}

/// What each tier takes: as much of what the tiers before it left as it can hold.
pub open spec fn is_waterfall(
    a: Absorption,
    debt: u128,
    reactor_capacity: u128,
    has_redist_recipients: bool,
    buffer_balance: u128,
    global_available: u128,
) -> bool {
    let after_reactor = debt - a.reactor;
    let after_redist = after_reactor - a.redist;
    let after_buffer = after_redist - a.buffer;
    &&& a.reactor == least(debt as int, reactor_capacity as int)
    &&& a.redist == (if has_redist_recipients {
        after_reactor
    } else {
        0
    })
    &&& a.buffer == least(after_redist, buffer_balance as int)
    &&& a.global == least(after_buffer, global_available as int)
    &&& a.unhomed == after_buffer - a.global
}

/// Split `debt` across the tiers in strict order. Each tier takes up to its capacity; redistribution
/// takes everything left or nothing. `global_available` is what the global reserve may contribute to
/// this liquidation.
#[inline]
pub fn absorb(
    debt: u128,
    reactor_capacity: u128,
    has_redist_recipients: bool,
    buffer_balance: u128,
    global_available: u128,
) -> (r: Absorption)
    ensures
        is_waterfall(
            r,
            debt,
            reactor_capacity,
            has_redist_recipients,
            buffer_balance,
            global_available,
        ),
{
    let reactor: u128 = if debt < reactor_capacity {
        debt
    } else {
        reactor_capacity
    };
    let rem1: u128 = debt - reactor;
    let redist: u128 = if has_redist_recipients {
        rem1
    } else {
        0
    };
    let rem2: u128 = rem1 - redist;
    let buffer: u128 = if rem2 < buffer_balance {
        rem2
    } else {
        buffer_balance
    };
    let rem3: u128 = rem2 - buffer;
    let global: u128 = if rem3 < global_available {
        rem3
    } else {
        global_available
    };
    let unhomed: u128 = rem3 - global;
    Absorption { reactor, redist, buffer, global, unhomed }
}

// Laws.

/// The split accounts for the whole debt, exactly.
pub proof fn law_absorb_conserves_debt(
    a: Absorption,
    debt: u128,
    reactor_capacity: u128,
    has_redist_recipients: bool,
    buffer_balance: u128,
    global_available: u128,
)
    requires
        is_waterfall(
            a,
            debt,
            reactor_capacity,
            has_redist_recipients,
            buffer_balance,
            global_available,
        ),
    ensures
        a.reactor + a.redist + a.buffer + a.global + a.unhomed == debt,
{
}

/// The tiers fill in order: a later tier takes anything only once every earlier one is full.
pub proof fn law_absorb_fills_in_order(
    a: Absorption,
    debt: u128,
    reactor_capacity: u128,
    has_redist_recipients: bool,
    buffer_balance: u128,
    global_available: u128,
)
    requires
        is_waterfall(
            a,
            debt,
            reactor_capacity,
            has_redist_recipients,
            buffer_balance,
            global_available,
        ),
    ensures
        a.redist > 0 ==> a.reactor == reactor_capacity && has_redist_recipients,
        a.buffer > 0 ==> a.reactor == reactor_capacity && !has_redist_recipients,
        a.global > 0 ==> a.reactor == reactor_capacity && !has_redist_recipients && a.buffer
            == buffer_balance,
        a.unhomed > 0 ==> a.reactor == reactor_capacity && !has_redist_recipients && a.buffer
            == buffer_balance && a.global == global_available,
{
}

/// No tier is ever overdrawn.
pub proof fn law_absorb_never_overdraws(
    a: Absorption,
    debt: u128,
    reactor_capacity: u128,
    has_redist_recipients: bool,
    buffer_balance: u128,
    global_available: u128,
)
    requires
        is_waterfall(
            a,
            debt,
            reactor_capacity,
            has_redist_recipients,
            buffer_balance,
            global_available,
        ),
    ensures
        a.reactor <= reactor_capacity,
        a.buffer <= buffer_balance,
        a.global <= global_available,
        !has_redist_recipients ==> a.redist == 0,
{
}

/// Something is left un-homed exactly when no tier can cover: nobody to redistribute to, and the
/// debt exceeds the pool and both buffers together.
pub proof fn law_unhomed_iff_no_tier_covers(
    a: Absorption,
    debt: u128,
    reactor_capacity: u128,
    has_redist_recipients: bool,
    buffer_balance: u128,
    global_available: u128,
)
    requires
        is_waterfall(
            a,
            debt,
            reactor_capacity,
            has_redist_recipients,
            buffer_balance,
            global_available,
        ),
    ensures
        a.unhomed > 0 <==> !has_redist_recipients && debt > reactor_capacity + buffer_balance
            + global_available,
{
}

/// Without a global reserve the other tiers split as if it did not exist: what it would have taken
/// is un-homed.
pub proof fn law_global_only_takes_from_unhomed(
    a: Absorption,
    b: Absorption,
    debt: u128,
    reactor_capacity: u128,
    has_redist_recipients: bool,
    buffer_balance: u128,
    global_available: u128,
)
    requires
        is_waterfall(
            a,
            debt,
            reactor_capacity,
            has_redist_recipients,
            buffer_balance,
            global_available,
        ),
        is_waterfall(b, debt, reactor_capacity, has_redist_recipients, buffer_balance, 0),
    ensures
        a.reactor == b.reactor,
        a.redist == b.redist,
        a.buffer == b.buffer,
        b.global == 0,
        a.global + a.unhomed == b.unhomed,
{
}

} // verus!
