//! Operational reserve policy: a fixed percentage of the pool, with an absolute minimum, never more than
//! the pool. Everything above it is productive.

use crate::stake::{bps_of, bps_part, law_bps_part_is_floor};
use vstd::prelude::*;

verus! {

/// `min(total, max(minimum, part))`.
pub open spec fn reserve_of(
    total_lamports: u64,
    reserve_min_lamports: u64,
    reserve_target_bps: u64,
) -> u64 {
    let part = bps_part(total_lamports, reserve_target_bps);
    let wanted = if reserve_min_lamports > part {
        reserve_min_lamports
    } else {
        part
    };
    if total_lamports < wanted {
        total_lamports
    } else {
        wanted
    }
}

/// Reserve target: `min(total, max(reserve_min, floor(total * bps / 10_000)))`.
#[inline]
pub fn reserve_target(
    total_lamports: u64,
    reserve_min_lamports: u64,
    reserve_target_bps: u64,
) -> (r: u64)
    ensures
        r == reserve_of(total_lamports, reserve_min_lamports, reserve_target_bps),
        r <= total_lamports,
{
    let part: u64 = bps_of(total_lamports, reserve_target_bps);
    let wanted: u64 = if reserve_min_lamports > part {
        reserve_min_lamports
    } else {
        part
    };
    if total_lamports < wanted {
        total_lamports
    } else {
        wanted
    }
}

/// What the reserve leaves of the pool.
pub open spec fn productive_of(total_lamports: u64, reserve: u64) -> u64 {
    if total_lamports >= reserve {
        (total_lamports - reserve) as u64
    } else {
        0
    }
}

/// Productive lamports: `total - reserve`, 0 where the reserve exceeds the total.
#[inline]
pub fn productive_lamports(total_lamports: u64, reserve: u64) -> (r: u64)
    ensures
        r == productive_of(total_lamports, reserve),
{
    total_lamports.saturating_sub(reserve)
}

// Laws.

/// The reserve is within the pool, at least its minimum where the pool holds that much, and what it
/// leaves makes up the pool.
pub proof fn law_reserve_split_conserves(
    total_lamports: u64,
    reserve_min_lamports: u64,
    reserve_target_bps: u64,
)
    ensures
        ({
            let reserve = reserve_of(total_lamports, reserve_min_lamports, reserve_target_bps);
            &&& reserve <= total_lamports
            &&& total_lamports >= reserve_min_lamports ==> reserve >= reserve_min_lamports
            &&& total_lamports < reserve_min_lamports ==> reserve == total_lamports
            &&& reserve + productive_of(total_lamports, reserve) == total_lamports
        }),
{
}

/// Reserve and productive lamports make up the pool, or the reserve alone where that is larger.
pub proof fn law_productive_completes_the_pool(total_lamports: u64, reserve: u64)
    ensures
        reserve + productive_of(total_lamports, reserve) == vstd::math::max(
            total_lamports as int,
            reserve as int,
        ),
{
}

/// The reserve is the larger of the minimum and the pool's part, within the pool: below the pool it is
/// at least the minimum and the floor of the part, and one of the two; it is the whole pool exactly where
/// the minimum or the part comes to that.
pub proof fn law_reserve_is_the_larger_bound(
    total_lamports: u64,
    reserve_min_lamports: u64,
    reserve_target_bps: u64,
)
    ensures
        ({
            let r = reserve_of(total_lamports, reserve_min_lamports, reserve_target_bps);
            let wanted = total_lamports * reserve_target_bps;
            &&& r <= total_lamports
            &&& r < total_lamports ==> r >= reserve_min_lamports && wanted < (r + 1) * 10_000 && (r
                == reserve_min_lamports || r * 10_000 <= wanted)
            &&& r == total_lamports <==> reserve_min_lamports >= total_lamports || wanted
                >= total_lamports * 10_000
        }),
{
    law_bps_part_is_floor(total_lamports, reserve_target_bps);
}

} // verus!
