//! Stake-pool allocation: the reserve split, the validator lifecycle, target allocation, churn limits,
//! preference countability, and crank rewards. Integers in, integers out.

pub mod churn;
pub mod lifecycle;
pub mod preference;
pub mod reserve;
pub mod rewards;
pub mod targets;

use vstd::prelude::*;

verus! {

/// Basis-point denominator.
pub const BPS_DENOMINATOR: u64 = 10_000;

/// `floor(amount * bps / 10_000)`, saturating at `u64::MAX`.
pub open spec fn bps_part(amount: u64, bps: u64) -> u64 {
    let q = amount * bps / BPS_DENOMINATOR as int;
    if q <= u64::MAX {
        q as u64
    } else {
        u64::MAX
    }
}

/// `floor(amount * bps / 10_000)`. Saturates to `u64::MAX` where the quotient exceeds `u64`: as a cap,
/// that is no cap.
#[inline]
pub fn bps_of(amount: u64, bps: u64) -> (r: u64)
    ensures
        r == bps_part(amount, bps),
{
    proof {
        assert(0 <= amount * bps <= 0xffff_ffff_ffff_ffff * 0xffff_ffff_ffff_ffff)
            by (nonlinear_arith)
            requires
                0 <= amount <= 0xffff_ffff_ffff_ffff,
                0 <= bps <= 0xffff_ffff_ffff_ffff,
        ;
    }
    let q: u128 = amount as u128 * bps as u128 / BPS_DENOMINATOR as u128;
    if q <= u64::MAX as u128 {
        q as u64
    } else {
        u64::MAX
    }
}

// Laws.

/// Up to 100% the part never exceeds the amount, and 100% is the amount.
pub proof fn law_bps_part_is_bounded(amount: u64, bps: u64)
    requires
        bps <= 10_000,
    ensures
        bps_part(amount, bps) <= amount,
        bps == 10_000 ==> bps_part(amount, bps) == amount,
        bps_part(amount, bps) == amount * bps / BPS_DENOMINATOR as int,
{
    assert(0 <= amount * bps <= amount * 10_000) by (nonlinear_arith)
        requires
            0 <= bps <= 10_000,
            amount >= 0,
    ;
}

/// The part is the largest with `part * 10_000 <= amount * bps`, or `u64::MAX` where that is larger.
pub proof fn law_bps_part_is_floor(amount: u64, bps: u64)
    ensures
        bps_part(amount, bps) * 10_000 <= amount * bps,
        bps_part(amount, bps) < u64::MAX ==> amount * bps < (bps_part(amount, bps) + 1) * 10_000,
{
    assert(0 <= amount * bps) by (nonlinear_arith)
        requires
            amount >= 0,
            bps >= 0,
    ;
}

/// A larger amount or a larger rate never gives a smaller part.
pub proof fn law_bps_part_is_monotone(a1: u64, a2: u64, b1: u64, b2: u64)
    requires
        a1 <= a2,
        b1 <= b2,
    ensures
        bps_part(a1, b1) <= bps_part(a2, b2),
{
    assert(0 <= a1 * b1 <= a2 * b2) by (nonlinear_arith)
        requires
            0 <= a1 <= a2,
            0 <= b1 <= b2,
    ;
}

} // verus!
