//! View of a native vote account, for the eligibility of a validator: its commission, whether a given
//! epoch earned credits, and how recently it voted.
//!
//! The account is bincode (little-endian, u64 collection lengths, a u32 version tag), padded with zeros:
//!
//! | offset | size | field |
//! |--------|------|-------|
//! | 0      | 4    | version tag: 1 or 2 |
//! | 4      | 64   | node and withdrawer keys (skipped) |
//! | 68     | 1    | `commission` |
//! | 69     | 8+   | `votes`: count, then entries of 12 (version 1) or 13 bytes (version 2), newest last |
//! | ..     | 1/9  | `root_slot`: tag byte 0 or 1, then a u64 for 1 |
//! | ..     | 8+   | `authorized_voters`: count, then entries of 40 bytes |
//! | ..     | 1545 | `prior_voters`: fixed block |
//! | ..     | 8+   | `epoch_credits`: count, then `(epoch, credits, prev_credits)` of 24 bytes |
//! | ..     | 16   | `last_timestamp`: slot, timestamp |
//!
//! Any other version is refused. Every count is checked before it is used, and the walk must fit the
//! data through `last_timestamp`.

use crate::view::bytes::{lemma_reads_agree, u32_le, u32_value, u64_le, u64_value};
use vstd::prelude::*;

verus! {

/// Version tag with 12-byte vote entries.
pub const VERSION_TAG_V1_14_11: u32 = 1;

/// Version tag with 13-byte vote entries: a latency byte leads.
pub const VERSION_TAG_V3: u32 = 2;

const COMMISSION_OFFSET: usize = 68;

const VOTES_COUNT_OFFSET: u64 = 69;

const LOCKOUT_BYTES: u64 = 12;

const LANDED_VOTE_BYTES: u64 = 13;

const AUTHORIZED_VOTER_ENTRY_BYTES: u64 = 40;

const PRIOR_VOTERS_BYTES: u64 = 1545;

const EPOCH_CREDITS_ENTRY_BYTES: u64 = 24;

const LAST_TIMESTAMP_BYTES: u64 = 16;

#[derive(Clone, Copy, Debug, PartialEq, Eq, Structural)]
pub enum VoteStateError {
    /// The data ended before a field that the walk needed.
    TooShort,
    /// Another version tag.
    UnsupportedVersion,
    /// An option tag other than 0 or 1, or a collection whose size overflows.
    Malformed,
}

/// What eligibility reads of a vote account.
#[derive(Clone, Copy, Debug, PartialEq, Eq, Structural)]
pub struct VoteSample {
    /// Commission percentage.
    pub commission: u8,
    /// The queried epoch has an entry with `credits > prev_credits`.
    pub prior_epoch_credit_growth: bool,
    /// Slot of the newest vote, or of the last timestamp where that is newer.
    pub freshness_slot: u64,
}

// The walk, as a function of the data.

/// `end`, where it fits `u64` and lies within the data.
pub open spec fn within(data: Seq<u8>, end: int) -> Result<int, VoteStateError> {
    if end > u64::MAX {
        Err(VoteStateError::Malformed)
    } else if end > data.len() {
        Err(VoteStateError::TooShort)
    } else {
        Ok(end)
    }
}

/// Past the collection at `cur`: a count, then that many entries of `width` bytes.
pub open spec fn past_collection(data: Seq<u8>, cur: int, width: int) -> Result<
    int,
    VoteStateError,
> {
    let total = u64_value(data, cur) * width;
    if cur + 8 > data.len() {
        Err(VoteStateError::TooShort)
    } else if total > u64::MAX {
        Err(VoteStateError::Malformed)
    } else {
        within(data, cur + 8 + total)
    }
}

/// Past the optional root slot at `cur`.
pub open spec fn past_root_slot(data: Seq<u8>, cur: int) -> Result<int, VoteStateError> {
    if cur >= data.len() {
        Err(VoteStateError::TooShort)
    } else if data[cur] == 0 {
        Ok(cur + 1)
    } else if data[cur] == 1 {
        within(data, cur + 9)
    } else {
        Err(VoteStateError::Malformed)
    }
}

/// Whether the last of the first `n` credit entries that is of `epoch` shows growth.
pub open spec fn grew(data: Seq<u8>, start: int, n: int, epoch: u64) -> bool
    decreases n,
{
    if n <= 0 {
        false
    } else {
        let entry = start + 24 * (n - 1);
        if u64_value(data, entry) == epoch {
            u64_value(data, entry + 8) > u64_value(data, entry + 16)
        } else {
            grew(data, start, n - 1, epoch)
        }
    }
}

/// Width of a vote entry.
pub open spec fn vote_width(data: Seq<u8>) -> int {
    if u32_value(data, 0) == VERSION_TAG_V3 {
        13
    } else {
        12
    }
}

/// Where the credit entries start and where the last timestamp is, or the first error of the walk.
pub open spec fn walk(data: Seq<u8>) -> Result<(int, int), VoteStateError> {
    if data.len() < 4 {
        Err(VoteStateError::TooShort)
    } else if u32_value(data, 0) != VERSION_TAG_V1_14_11 && u32_value(data, 0) != VERSION_TAG_V3 {
        Err(VoteStateError::UnsupportedVersion)
    } else {
        match past_collection(data, 69, vote_width(data)) {
            Err(e) => Err(e),
            Ok(votes_end) => match past_root_slot(data, votes_end) {
                Err(e) => Err(e),
                Ok(voters) => match past_collection(data, voters, 40) {
                    Err(e) => Err(e),
                    Ok(prior) => match within(data, prior + 1545) {
                        Err(e) => Err(e),
                        Ok(credits) => match past_collection(data, credits, 24) {
                            Err(e) => Err(e),
                            Ok(stamp) => if stamp + 8 > data.len() {
                                Err(VoteStateError::TooShort)
                            } else {
                                match within(data, stamp + 16) {
                                    Err(e) => Err(e),
                                    Ok(_) => Ok((credits + 8, stamp)),
                                }
                            },
                        },
                    },
                },
            },
        }
    }
}

/// The newest slot that the data shows: that of the last vote entry, if there is one, or that of the
/// last timestamp.
pub open spec fn newest_slot(data: Seq<u8>, stamp: int) -> int {
    let count = u64_value(data, 69);
    let width = vote_width(data);
    let last_vote = u64_value(data, 77 + width * (count - 1) + (width - 12));
    let last_stamp = u64_value(data, stamp);
    if count > 0 && last_vote > last_stamp {
        last_vote
    } else {
        last_stamp
    }
}

/// The sample of a vote account for an epoch.
pub open spec fn sample(data: Seq<u8>, prior_epoch: u64) -> Result<VoteSample, VoteStateError> {
    match walk(data) {
        Err(e) => Err(e),
        Ok((credits, stamp)) => Ok(
            VoteSample {
                commission: data[68],
                prior_epoch_credit_growth: grew(
                    data,
                    credits,
                    (stamp - credits) / 24,
                    prior_epoch,
                ),
                freshness_slot: newest_slot(data, stamp) as u64,
            },
        ),
    }
}

/// The offset or error that the walk gives.
pub open spec fn is_offset(r: Result<u64, VoteStateError>, end: Result<int, VoteStateError>) -> bool {
    match end {
        Ok(end) => r matches Ok(off) && off == end,
        Err(e) => r == Err::<u64, VoteStateError>(e),
    }
}

/// The `u64` at a 64-bit offset.
fn u64_at(data: &[u8], off: u64) -> (r: Option<u64>)
    ensures
        r is Some <==> off + 8 <= data@.len(),
        r matches Some(v) ==> v == u64_value(data@, off as int),
{
    if off <= data.len() as u64 {
        u64_le(data, off as usize)
    } else {
        None
    }
}

/// The byte at a 64-bit offset.
fn u8_at(data: &[u8], off: u64) -> (r: Option<u8>)
    ensures
        r == (if off < data@.len() {
            Some(data@[off as int])
        } else {
            None
        }),
{
    if off < data.len() as u64 {
        Some(data[off as usize])
    } else {
        None
    }
}

/// The offset `cur + by`, where it lies within the data.
fn ensure_within(data: &[u8], cur: u64, by: u64) -> (r: Result<u64, VoteStateError>)
    ensures
        is_offset(r, within(data@, cur + by)),
{
    match cur.checked_add(by) {
        Some(end) => if end <= data.len() as u64 {
            Ok(end)
        } else {
            Err(VoteStateError::TooShort)
        },
        None => Err(VoteStateError::Malformed),
    }
}

/// Skip a collection at `cur`: a count, then entries of `entry_bytes` bytes. Gives the offset past it.
fn skip_counted(data: &[u8], cur: u64, entry_bytes: u64) -> (r: Result<u64, VoteStateError>)
    ensures
        is_offset(r, past_collection(data@, cur as int, entry_bytes as int)),
        r matches Ok(end) ==> end >= cur + 8,
{
    let len: usize = data.len();
    let count: u64 = match u64_at(data, cur) {
        Some(v) => v,
        None => {
            return Err(VoteStateError::TooShort);
        },
    };
    match count.checked_mul(entry_bytes) {
        Some(total) => ensure_within(data, cur + 8, total),
        None => Err(VoteStateError::Malformed),
    }
}

/// The slot of the newest vote, where there is a vote: the last entry's, after its latency byte where it
/// has one.
fn last_vote_slot(data: &[u8], votes_end: u64, entry_bytes: u64) -> (r: Option<u64>)
    requires
        12 <= entry_bytes <= 13,
        votes_end == 77 + u64_value(data@, 69) * entry_bytes,
        77 <= votes_end <= data@.len(),
    ensures
        r is Some <==> u64_value(data@, 69) > 0,
        r matches Some(slot) ==> slot == u64_value(
            data@,
            77 + entry_bytes * (u64_value(data@, 69) - 1) + (entry_bytes - 12),
        ),
{
    match u64_at(data, VOTES_COUNT_OFFSET) {
        Some(count) => {
            if count == 0 {
                return None;
            }
            assert(entry_bytes * (count - 1) == count * entry_bytes - entry_bytes && count * entry_bytes
                >= entry_bytes) by (nonlinear_arith)
                requires
                    count > 0,
            ;
            u64_at(data, votes_end - LOCKOUT_BYTES)
        },
        None => None,
    }
}

/// Past the optional root slot at `cur`.
fn skip_root_slot(data: &[u8], cur: u64) -> (r: Result<u64, VoteStateError>)
    ensures
        is_offset(r, past_root_slot(data@, cur as int)),
{
    let len: usize = data.len();
    match u8_at(data, cur) {
        Some(0) => Ok(cur + 1),
        Some(1) => ensure_within(data, cur, 9),
        Some(_) => Err(VoteStateError::Malformed),
        None => Err(VoteStateError::TooShort),
    }
}

/// Whether the last of the credit entries from `start` to `end` that is of `epoch` shows growth.
fn credit_growth(data: &[u8], start: u64, end: u64, epoch: u64) -> (r: bool)
    requires
        start <= end <= data@.len(),
        (end - start) % 24 == 0,
    ensures
        r == grew(data@, start as int, (end - start) / 24, epoch),
{
    let len: usize = data.len();
    let mut growth: bool = false;
    let mut entry: u64 = start;
    let ghost mut n: int = 0;
    while entry < end
        invariant
            start <= entry <= end <= data@.len(),
            data@.len() == len,
            entry == start + 24 * n,
            n >= 0,
            (end - start) % 24 == 0,
            growth == grew(data@, start as int, n, epoch),
        decreases end - entry,
    {
        assert(entry + 24 <= end);
        match (u64_at(data, entry), u64_at(data, entry + 8), u64_at(data, entry + 16)) {
            (Some(of), Some(credits), Some(before)) => {
                if of == epoch {
                    growth = credits > before;
                }
            },
            _ => {},
        }
        entry = entry + EPOCH_CREDITS_ENTRY_BYTES;
        proof {
            n = n + 1;
        }
    }
    assert(n == (end - start) / 24);
    growth
}

/// Parse a vote account and answer the eligibility questions for `prior_epoch`, the last completed epoch.
/// Bytes after `last_timestamp` are ignored.
pub fn parse(data: &[u8], prior_epoch: u64) -> (r: Result<VoteSample, VoteStateError>)
    ensures
        r == sample(data@, prior_epoch),
{
    let len: usize = data.len();
    let tag: u32 = match u32_le(data, 0) {
        Some(v) => v,
        None => {
            return Err(VoteStateError::TooShort);
        },
    };
    let entry_bytes: u64 = if tag == VERSION_TAG_V1_14_11 {
        LOCKOUT_BYTES
    } else if tag == VERSION_TAG_V3 {
        LANDED_VOTE_BYTES
    } else {
        return Err(VoteStateError::UnsupportedVersion);
    };
    let votes_end: u64 = match skip_counted(data, VOTES_COUNT_OFFSET, entry_bytes) {
        Ok(c) => c,
        Err(e) => {
            return Err(e);
        },
    };
    let voters: u64 = match skip_root_slot(data, votes_end) {
        Ok(c) => c,
        Err(e) => {
            return Err(e);
        },
    };
    let prior: u64 = match skip_counted(data, voters, AUTHORIZED_VOTER_ENTRY_BYTES) {
        Ok(c) => c,
        Err(e) => {
            return Err(e);
        },
    };
    let credits: u64 = match ensure_within(data, prior, PRIOR_VOTERS_BYTES) {
        Ok(c) => c,
        Err(e) => {
            return Err(e);
        },
    };
    let stamp: u64 = match skip_counted(data, credits, EPOCH_CREDITS_ENTRY_BYTES) {
        Ok(c) => c,
        Err(e) => {
            return Err(e);
        },
    };
    let last_timestamp_slot: u64 = match u64_at(data, stamp) {
        Some(v) => v,
        None => {
            return Err(VoteStateError::TooShort);
        },
    };
    match ensure_within(data, stamp, LAST_TIMESTAMP_BYTES) {
        Ok(_) => {},
        Err(e) => {
            return Err(e);
        },
    }
    let prior_epoch_credit_growth: bool = credit_growth(data, credits + 8, stamp, prior_epoch);
    let freshness_slot: u64 = match last_vote_slot(data, votes_end, entry_bytes) {
        Some(slot) => if slot > last_timestamp_slot {
            slot
        } else {
            last_timestamp_slot
        },
        None => last_timestamp_slot,
    };
    Ok(VoteSample { commission: data[COMMISSION_OFFSET], prior_epoch_credit_growth, freshness_slot })
}

// Laws.

/// Buffers that agree below `n` have the same collection end there.
proof fn lemma_collection_agrees(a: Seq<u8>, b: Seq<u8>, n: int, cur: int, width: int)
    requires
        0 <= cur,
        0 <= width,
        n <= a.len(),
        n <= b.len(),
        forall|i: int| 0 <= i < n ==> #[trigger] a[i] == b[i],
        past_collection(a, cur, width) matches Ok(end) && end <= n,
    ensures
        past_collection(b, cur, width) == past_collection(a, cur, width),
        past_collection(a, cur, width) matches Ok(end) ==> end >= cur + 8,
        u64_value(b, cur) == u64_value(a, cur),
{
    let count = u64_value(a, cur);
    assert(count * width >= 0) by (nonlinear_arith)
        requires
            count >= 0,
            width >= 0,
    ;
    lemma_reads_agree(a, b, cur, n);
}

/// Buffers that agree on their credit entries show the same growth.
proof fn lemma_growth_agrees(a: Seq<u8>, b: Seq<u8>, start: int, n: int, epoch: u64)
    requires
        0 <= start,
        start + 24 * n <= a.len(),
        start + 24 * n <= b.len(),
        forall|i: int| start <= i < start + 24 * n ==> #[trigger] a[i] == b[i],
    ensures
        grew(a, start, n, epoch) == grew(b, start, n, epoch),
    decreases n,
{
    if n > 0 {
        let entry = start + 24 * (n - 1);
        lemma_reads_agree(a, b, entry, entry + 24);
        lemma_reads_agree(a, b, entry + 8, entry + 24);
        lemma_reads_agree(a, b, entry + 16, entry + 24);
        lemma_growth_agrees(a, b, start, n - 1, epoch);
    }
}

/// Nothing after the last timestamp is read: buffers that agree up to it are sampled alike, whatever
/// follows it and however long they are.
pub proof fn law_padding_is_ignored(a: Seq<u8>, b: Seq<u8>, epoch: u64)
    requires
        walk(a) matches Ok((credits, stamp)) && stamp + 16 <= b.len() && (forall|i: int|
            0 <= i < stamp + 16 ==> #[trigger] a[i] == b[i]),
    ensures
        walk(b) == walk(a),
        sample(b, epoch) == sample(a, epoch),
{
    let (credits, stamp) = walk(a)->Ok_0;
    let n = stamp + 16;
    let width = vote_width(a);
    let votes_end = past_collection(a, 69, width)->Ok_0;
    let voters = past_root_slot(a, votes_end)->Ok_0;
    let prior = past_collection(a, voters, 40)->Ok_0;
    let count = u64_value(a, 69);
    assert(count * width >= 0) by (nonlinear_arith)
        requires
            count >= 0,
            width >= 0,
    ;
    lemma_reads_agree(a, b, 0, n);
    lemma_collection_agrees(a, b, n, 69, width);
    lemma_collection_agrees(a, b, n, voters, 40);
    lemma_collection_agrees(a, b, n, prior + 1545, 24);
    lemma_reads_agree(a, b, stamp, n);
    lemma_growth_agrees(a, b, credits, (stamp - credits) / 24, epoch);
    if count > 0 {
        let last = 77 + width * (count - 1) + (width - 12);
        assert(width * (count - 1) == count * width - width && width * (count - 1) >= 0)
            by (nonlinear_arith)
            requires
                count > 0,
                width >= 0,
        ;
        lemma_reads_agree(a, b, last, n);
    }
}

/// Every truncation before the end of the last timestamp is refused.
pub proof fn law_truncation_is_refused(data: Seq<u8>, len: int, epoch: u64)
    requires
        walk(data) matches Ok((credits, stamp)) && 0 <= len < stamp + 16,
    ensures
        sample(data.take(len), epoch) is Err,
{
    law_accepted_account_is_complete(data);
    let cut = data.take(len);
    if walk(cut) is Ok {
        law_padding_is_ignored(cut, data, epoch);
    }
}

/// An accepted account holds the whole walk.
pub proof fn law_accepted_account_is_complete(data: Seq<u8>)
    requires
        walk(data) is Ok,
    ensures
        walk(data) matches Ok((credits, stamp)) && 77 < credits <= stamp && stamp + 16 <= data.len() && (
        stamp - credits) % 24 == 0,
{
    let width = vote_width(data);
    let count = u64_value(data, 69);
    assert(count * width >= 0) by (nonlinear_arith)
        requires
            count >= 0,
            width >= 0,
    ;
}

/// A version tag other than the two known ones is refused, whatever the rest holds.
pub proof fn law_unknown_version_is_refused(data: Seq<u8>, epoch: u64)
    requires
        data.len() >= 4,
        u32_value(data, 0) != VERSION_TAG_V1_14_11,
        u32_value(data, 0) != VERSION_TAG_V3,
    ensures
        sample(data, epoch) == Err::<VoteSample, VoteStateError>(VoteStateError::UnsupportedVersion),
{
}

/// The queried epoch decides about the credit growth alone.
pub proof fn law_epoch_decides_growth_alone(data: Seq<u8>, e1: u64, e2: u64)
    ensures
        sample(data, e1) is Ok == sample(data, e2) is Ok,
        sample(data, e1) matches Ok(s) ==> sample(data, e2) matches Ok(t) && s.commission == t.commission
            && s.freshness_slot == t.freshness_slot,
{
}

/// Growth is that of the last entry of the epoch: the entry `k`, if no later one is of the epoch.
pub proof fn law_last_entry_of_the_epoch_decides(
    data: Seq<u8>,
    start: int,
    n: int,
    epoch: u64,
    k: int,
)
    requires
        0 <= k < n,
        u64_value(data, start + 24 * k) == epoch,
        forall|j: int| k < j < n ==> #[trigger] u64_value(data, start + 24 * j) != epoch,
    ensures
        grew(data, start, n, epoch) == (u64_value(data, start + 24 * k + 8) > u64_value(
            data,
            start + 24 * k + 16,
        )),
    decreases n,
{
    if k < n - 1 {
        assert(u64_value(data, start + 24 * (n - 1)) != epoch);
        law_last_entry_of_the_epoch_decides(data, start, n - 1, epoch, k);
    }
}

/// An epoch without an entry shows no growth.
pub proof fn law_absent_epoch_shows_no_growth(data: Seq<u8>, start: int, n: int, epoch: u64)
    requires
        forall|j: int| 0 <= j < n ==> #[trigger] u64_value(data, start + 24 * j) != epoch,
    ensures
        !grew(data, start, n, epoch),
    decreases n,
{
    if n > 0 {
        assert(u64_value(data, start + 24 * (n - 1)) != epoch);
        law_absent_epoch_shows_no_growth(data, start, n - 1, epoch);
    }
}

/// The walk follows the layout. Behind the fixed part stand the votes, 12 or 13 bytes each by the version;
/// the root slot, one byte or nine by its tag; the voters, 40 bytes each; 1545 bytes; the credits, 24 bytes
/// each; and the last timestamp, 16 bytes. Data are accepted exactly where the version is one of the two,
/// the tag is 0 or 1, and they hold all of this.
pub proof fn law_walk_follows_the_layout(data: Seq<u8>, epoch: u64)
    requires
        data.len() <= u64::MAX,
    ensures
        ({
            let version = u32_value(data, 0);
            let votes_end = 77 + u64_value(data, 69) * if version == 2 {
                13int
            } else {
                12int
            };
            let voters = votes_end + if data[votes_end] == 0 {
                1int
            } else {
                9int
            };
            let credits = voters + 8 + u64_value(data, voters) * 40 + 1545;
            let stamp = credits + 8 + u64_value(data, credits) * 24;
            let whole = (version == 1 || version == 2) && data[votes_end] <= 1 && stamp + 16
                <= data.len();
            &&& walk(data) is Ok <==> whole
            &&& sample(data, epoch) is Ok <==> whole
            &&& whole ==> walk(data) == Ok::<(int, int), VoteStateError>((credits + 8, stamp))
        }),
{
    let version = u32_value(data, 0);
    let width = if version == 2 {
        13int
    } else {
        12int
    };
    let votes = u64_value(data, 69);
    assert(0 <= votes * width) by (nonlinear_arith)
        requires
            votes >= 0,
            width >= 0,
    ;
}

/// What a sample holds: the commission byte; whether the last credit entry of the epoch, if there is one,
/// shows more credits than before; and the later of the last vote's slot, which ends 4 bytes before the
/// votes do, and the last timestamp's slot.
pub proof fn law_sample_holds_what_the_account_shows(data: Seq<u8>, epoch: u64, s: VoteSample)
    requires
        sample(data, epoch) == Ok::<VoteSample, VoteStateError>(s),
    ensures
        ({
            let (credits, stamp) = walk(data)->Ok_0;
            let n = (stamp - credits) / 24;
            let votes = u64_value(data, 69);
            let votes_end = 77 + votes * if u32_value(data, 0) == 2 {
                13int
            } else {
                12int
            };
            let last_vote = u64_value(data, votes_end - 12);
            let last_stamp = u64_value(data, stamp);
            &&& s.commission == data[68]
            &&& s.freshness_slot == if votes == 0 {
                last_stamp
            } else {
                vstd::math::max(last_vote, last_stamp)
            }
            &&& s.prior_epoch_credit_growth <==> exists|k: int|
                0 <= k < n && #[trigger] is_last_of_epoch(data, credits, n, epoch, k) && u64_value(
                    data,
                    credits + 24 * k + 8,
                ) > u64_value(data, credits + 24 * k + 16)
        }),
{
    let (credits, stamp) = walk(data)->Ok_0;
    let n = (stamp - credits) / 24;
    let width = vote_width(data);
    let votes = u64_value(data, 69);
    assert(width * (votes - 1) == votes * width - width) by (nonlinear_arith);
    assert(0 <= u64_value(data, stamp) <= u64::MAX);
    lemma_grew_has_witness(data, credits, n, epoch);
    if exists|k: int|
        0 <= k < n && #[trigger] is_last_of_epoch(data, credits, n, epoch, k) && u64_value(
            data,
            credits + 24 * k + 8,
        ) > u64_value(data, credits + 24 * k + 16) {
        let k = choose|k: int|
            0 <= k < n && #[trigger] is_last_of_epoch(data, credits, n, epoch, k) && u64_value(
                data,
                credits + 24 * k + 8,
            ) > u64_value(data, credits + 24 * k + 16);
        law_last_entry_of_the_epoch_decides(data, credits, n, epoch, k);
    }
}

/// Entry `k` of the `n` credit entries from `start` on is of the epoch, and no later one is.
pub open spec fn is_last_of_epoch(data: Seq<u8>, start: int, n: int, epoch: u64, k: int) -> bool {
    &&& u64_value(data, start + 24 * k) == epoch
    &&& forall|j: int| k < j < n ==> #[trigger] u64_value(data, start + 24 * j) != epoch
}

proof fn lemma_grew_has_witness(data: Seq<u8>, start: int, n: int, epoch: u64)
    ensures
        grew(data, start, n, epoch) ==> exists|k: int|
            0 <= k < n && #[trigger] is_last_of_epoch(data, start, n, epoch, k) && u64_value(
                data,
                start + 24 * k + 8,
            ) > u64_value(data, start + 24 * k + 16),
    decreases n,
{
    if n > 0 && grew(data, start, n, epoch) {
        let last = n - 1;
        if u64_value(data, start + 24 * last) == epoch {
            assert(is_last_of_epoch(data, start, n, epoch, last));
        } else {
            lemma_grew_has_witness(data, start, n - 1, epoch);
            let k = choose|k: int|
                0 <= k < n - 1 && #[trigger] is_last_of_epoch(data, start, n - 1, epoch, k)
                    && u64_value(data, start + 24 * k + 8) > u64_value(data, start + 24 * k + 16);
            assert forall|j: int| k < j < n implies #[trigger] u64_value(data, start + 24 * j)
                != epoch by {
                if j == last {
                }
            }
            assert(is_last_of_epoch(data, start, n, epoch, k));
        }
    }
}

/// A truncated account is refused as too short, wherever before the end of the last timestamp it was
/// cut off.
pub proof fn law_truncation_is_too_short(data: Seq<u8>, len: int, epoch: u64)
    requires
        walk(data) matches Ok((credits, stamp)) && 0 <= len < stamp + 16,
    ensures
        sample(data.take(len), epoch) == Err::<VoteSample, VoteStateError>(VoteStateError::TooShort),
{
    law_accepted_account_is_complete(data);
    law_truncation_is_refused(data, len, epoch);
    let cut = data.take(len);
    let (credits, stamp) = walk(data)->Ok_0;
    let width = vote_width(data);
    let votes_end = past_collection(data, 69, width)->Ok_0;
    let voters = past_root_slot(data, votes_end)->Ok_0;
    let prior = past_collection(data, voters, 40)->Ok_0;
    let count = u64_value(data, 69);
    assert(count * width >= 0) by (nonlinear_arith)
        requires
            count >= 0,
            width >= 0,
    ;
    assert forall|i: int| 0 <= i < len implies #[trigger] cut[i] == data[i] by {}
    if len >= 4 {
        lemma_reads_agree(cut, data, 0, len);
        lemma_collection_cut(data, len, 69, width);
        if past_collection(cut, 69, width) is Ok {
            if past_root_slot(cut, votes_end) is Ok {
                lemma_collection_cut(data, len, voters, 40);
                if past_collection(cut, voters, 40) is Ok && within(cut, prior + 1545) is Ok {
                    lemma_collection_cut(data, len, prior + 1545, 24);
                }
            }
        }
    }
}

/// A collection of accepted data, after a cut: it ends where it did, or is too short.
proof fn lemma_collection_cut(data: Seq<u8>, len: int, cur: int, width: int)
    requires
        0 <= len <= data.len(),
        0 <= cur,
        0 <= width,
        past_collection(data, cur, width) is Ok,
    ensures
        past_collection(data.take(len), cur, width) == past_collection(data, cur, width)
            || past_collection(data.take(len), cur, width) == Err::<int, VoteStateError>(
            VoteStateError::TooShort,
        ),
        past_collection(data.take(len), cur, width) is Ok ==> past_collection(data, cur, width)->Ok_0
            <= len,
{
    let cut = data.take(len);
    assert forall|i: int| 0 <= i < len implies #[trigger] cut[i] == data[i] by {}
    if cur + 8 <= len {
        lemma_reads_agree(cut, data, cur, len);
    }
}

/// A collection ends behind its count and that many entries, where the data reach so far. A size past
/// `u64` is malformed, and any other end past the data is too short.
pub proof fn law_collection_ends_behind_its_entries(data: Seq<u8>, cur: int, width: int)
    requires
        0 <= cur,
        0 <= width,
        data.len() <= u64::MAX,
    ensures
        ({
            let end = cur + 8 + u64_value(data, cur) * width;
            let r = past_collection(data, cur, width);
            &&& r matches Ok(at) ==> at == end
            &&& r is Ok <==> end <= data.len()
            &&& r == Err::<int, VoteStateError>(VoteStateError::Malformed) <==> cur + 8 <= data.len()
                && end > u64::MAX
        }),
{
    let count = u64_value(data, cur);
    assert(count * width >= 0) by (nonlinear_arith)
        requires
            count >= 0,
            width >= 0,
    ;
}

/// Every refusal has its own reason. The version is unsupported exactly where it is there and neither of
/// the two. The account is malformed exactly where the walk reaches a root tag above 1, or a collection
/// that would end past `u64`. All else that is refused is too short.
pub proof fn law_refusals_have_their_reasons(data: Seq<u8>, epoch: u64)
    requires
        data.len() <= i64::MAX,
    ensures
        ({
            let known = u32_value(data, 0) == 1 || u32_value(data, 0) == 2;
            let votes_end = 77 + u64_value(data, 69) * if u32_value(data, 0) == 2 {
                13int
            } else {
                12int
            };
            let voters = votes_end + if data[votes_end] == 0 {
                1int
            } else {
                9int
            };
            let voters_end = voters + 8 + u64_value(data, voters) * 40;
            let credits = voters_end + 1545;
            let credits_end = credits + 8 + u64_value(data, credits) * 24;
            let rooted = votes_end < data.len() && data[votes_end] <= 1;
            let malformed = data.len() >= 77 && known && (votes_end > u64::MAX || (votes_end
                < data.len() && data[votes_end] > 1) || (rooted && voters + 8 <= data.len() && voters_end
                > u64::MAX) || (rooted && credits + 8 <= data.len() && credits_end > u64::MAX));
            let r = sample(data, epoch);
            &&& r == Err::<VoteSample, VoteStateError>(VoteStateError::UnsupportedVersion)
                <==> data.len() >= 4 && !known
            &&& r == Err::<VoteSample, VoteStateError>(VoteStateError::Malformed) <==> malformed
        }),
{
    let width = vote_width(data);
    let votes = u64_value(data, 69);
    assert(0 <= votes * width) by (nonlinear_arith)
        requires
            votes >= 0,
            width >= 0,
    ;
}

} // verus!
