//! View of an SPL stake-pool validator list.
//!
//! | offset | size | field |
//! |--------|------|-------|
//! | 0      | 1    | `account_type` (2 = validator list) |
//! | 1      | 4    | `max_validators` (u32): allocated capacity |
//! | 5      | 4    | length (u32): entries in the list |
//! | 9      | 73 i | entry `i` |
//!
//! An entry is 73 bytes:
//!
//! | rel. offset | size | field |
//! |-------------|------|-------|
//! | +0          | 8    | `active_stake_lamports` |
//! | +8          | 8    | `transient_stake_lamports` |
//! | +16         | 8    | `last_update_epoch` |
//! | +24         | 8    | `transient_seed_suffix` |
//! | +32         | 4    | unused |
//! | +36         | 4    | `validator_seed_suffix` |
//! | +40         | 1    | `status` |
//! | +41         | 32   | `vote_account_address` |
//!
//! The account is allocated to its capacity, so bytes past the last entry are expected and ignored. A
//! length that claims more entries than the data holds is refused.

use crate::view::bytes::{array32, key_at, law_numbers_are_read_back, le_bytes, lemma_le_bytes_len, lemma_part, lemma_reads_agree, lemma_reads_shift, u32_le, u32_value, u64_le, u64_value};
use vstd::prelude::*;

verus! {

/// Account type of a validator list.
pub const ACCOUNT_TYPE_VALIDATOR_LIST: u8 = 2;

const MAX_VALIDATORS_OFFSET: usize = 1;

const VEC_LEN_OFFSET: usize = 5;

const ENTRIES_OFFSET: usize = 9;

const ENTRY_LEN: usize = 73;

#[derive(Clone, Copy, Debug, PartialEq, Eq, Structural)]
pub enum ValidatorListError {
    /// Data shorter than the header.
    TooShort,
    /// Byte 0 is not the validator-list account type.
    NotValidatorList,
    /// The length claims more entries than the data holds.
    EntriesTruncated,
}

/// The validated header.
#[derive(Clone, Copy, Debug, PartialEq, Eq, Structural)]
pub struct ValidatorListHeader {
    /// Allocated capacity.
    pub max_validators: u32,
    /// Entries in the list.
    pub len: u32,
}

/// The status of a validator inside the pool.
#[derive(Clone, Copy, Debug, PartialEq, Eq, Structural)]
pub enum StakeStatus {
    Active,
    DeactivatingTransient,
    ReadyForRemoval,
    DeactivatingValidator,
    DeactivatingAll,
}

impl StakeStatus {
    /// The byte of a status.
    pub open spec fn byte(self) -> u8 {
        match self {
            StakeStatus::Active => 0,
            StakeStatus::DeactivatingTransient => 1,
            StakeStatus::ReadyForRemoval => 2,
            StakeStatus::DeactivatingValidator => 3,
            StakeStatus::DeactivatingAll => 4,
        }
    }

    /// The status of a byte, where it has one.
    pub open spec fn of_byte(v: u8) -> Option<StakeStatus> {
        if v == 0 {
            Some(StakeStatus::Active)
        } else if v == 1 {
            Some(StakeStatus::DeactivatingTransient)
        } else if v == 2 {
            Some(StakeStatus::ReadyForRemoval)
        } else if v == 3 {
            Some(StakeStatus::DeactivatingValidator)
        } else if v == 4 {
            Some(StakeStatus::DeactivatingAll)
        } else {
            None
        }
    }

    /// `None` for a byte of no status.
    pub fn from_u8(v: u8) -> (r: Option<Self>)
        ensures
            r == Self::of_byte(v),
    {
        match v {
            0 => Some(StakeStatus::Active),
            1 => Some(StakeStatus::DeactivatingTransient),
            2 => Some(StakeStatus::ReadyForRemoval),
            3 => Some(StakeStatus::DeactivatingValidator),
            4 => Some(StakeStatus::DeactivatingAll),
            _ => None,
        }
    }
}

/// One entry of the list.
#[derive(Clone, Copy, Debug, PartialEq, Eq)]
pub struct ValidatorEntry {
    pub active_stake_lamports: u64,
    pub transient_stake_lamports: u64,
    pub last_update_epoch: u64,
    pub transient_seed_suffix: u64,
    /// 0 = default seed.
    pub validator_seed_suffix: u32,
    /// Raw status byte; see [`StakeStatus::from_u8`].
    pub status: u8,
    pub vote_account_address: [u8; 32],
}

impl ValidatorEntry {
    /// The decoded status, `None` for an unknown byte.
    pub fn stake_status(&self) -> (r: Option<StakeStatus>)
        ensures
            r == StakeStatus::of_byte(self.status),
    {
        StakeStatus::from_u8(self.status)
    }
}

/// What parsing the header gives: an error for short data, another account type, or too few entries, in
/// this order, else the header.
pub open spec fn header_of(data: Seq<u8>) -> Result<ValidatorListHeader, ValidatorListError> {
    if data.len() < 9 {
        Err(ValidatorListError::TooShort)
    } else if data[0] != ACCOUNT_TYPE_VALIDATOR_LIST {
        Err(ValidatorListError::NotValidatorList)
    } else if 9 + 73 * u32_value(data, 5) > data.len() {
        Err(ValidatorListError::EntriesTruncated)
    } else {
        Ok(
            ValidatorListHeader {
                max_validators: u32_value(data, 1) as u32,
                len: u32_value(data, 5) as u32,
            },
        )
    }
}

/// The entry holds the fields that the data has at `base`.
pub open spec fn shows(e: ValidatorEntry, data: Seq<u8>, base: int) -> bool {
    &&& e.active_stake_lamports == u64_value(data, base)
    &&& e.transient_stake_lamports == u64_value(data, base + 8)
    &&& e.last_update_epoch == u64_value(data, base + 16)
    &&& e.transient_seed_suffix == u64_value(data, base + 24)
    &&& e.validator_seed_suffix == u32_value(data, base + 36)
    &&& e.status == data[base + 40]
    &&& e.vote_account_address@ == key_at(data, base + 41)
}

/// Validate the header, and that the data holds the entries it declares.
pub fn parse_header(data: &[u8]) -> (r: Result<ValidatorListHeader, ValidatorListError>)
    ensures
        r == header_of(data@),
        r matches Ok(h) ==> h.len == u32_value(data@, 5) && h.max_validators == u32_value(data@, 1),
{
    if data.len() < ENTRIES_OFFSET {
        return Err(ValidatorListError::TooShort);
    }
    if data[0] != ACCOUNT_TYPE_VALIDATOR_LIST {
        return Err(ValidatorListError::NotValidatorList);
    }
    let max_validators: u32 = match u32_le(data, MAX_VALIDATORS_OFFSET) {
        Some(v) => v,
        None => {
            return Err(ValidatorListError::TooShort);
        },
    };
    let len: u32 = match u32_le(data, VEC_LEN_OFFSET) {
        Some(v) => v,
        None => {
            return Err(ValidatorListError::TooShort);
        },
    };
    let declared_end: u64 = len as u64 * ENTRY_LEN as u64 + ENTRIES_OFFSET as u64;
    if declared_end > data.len() as u64 {
        return Err(ValidatorListError::EntriesTruncated);
    }
    Ok(ValidatorListHeader { max_validators, len })
}

/// The `i`-th entry. `None` exactly when the header is refused or `i` is not below its length.
pub fn entry_at(data: &[u8], i: u32) -> (r: Option<ValidatorEntry>)
    ensures
        r is Some <==> (header_of(data@) matches Ok(h) && i < h.len),
        r matches Some(e) ==> shows(e, data@, 9 + 73 * i),
{
    let header: ValidatorListHeader = match parse_header(data) {
        Ok(h) => h,
        Err(_) => {
            return None;
        },
    };
    if i >= header.len {
        return None;
    }
    let end: usize = data.len();
    assert(9 + 73 * (i + 1) <= end);
    let base: usize = ENTRIES_OFFSET + i as usize * ENTRY_LEN;
    match (
        u64_le(data, base),
        u64_le(data, base + 8),
        u64_le(data, base + 16),
        u64_le(data, base + 24),
        u32_le(data, base + 36),
        array32(data, base + 41),
    ) {
        (
            Some(active_stake_lamports),
            Some(transient_stake_lamports),
            Some(last_update_epoch),
            Some(transient_seed_suffix),
            Some(validator_seed_suffix),
            Some(vote_account_address),
        ) => Some(
            ValidatorEntry {
                active_stake_lamports,
                transient_stake_lamports,
                last_update_epoch,
                transient_seed_suffix,
                validator_seed_suffix,
                status: data[base + 40],
                vote_account_address,
            },
        ),
        _ => None,
    }
}

// Laws.

/// Bytes past the declared entries are ignored: an accepted list stays accepted, with the same header
/// and entries, whatever follows it.
pub proof fn law_trailing_capacity_is_ignored(
    a: Seq<u8>,
    b: Seq<u8>,
    i: u32,
    e: ValidatorEntry,
)
    requires
        header_of(a) is Ok,
        b.len() >= 9 + 73 * u32_value(a, 5),
        forall|k: int| 0 <= k < 9 + 73 * u32_value(a, 5) ==> #[trigger] a[k] == b[k],
    ensures
        header_of(b) == header_of(a),
        i < u32_value(a, 5) ==> shows(e, a, 9 + 73 * i) == shows(e, b, 9 + 73 * i),
{
    let end = 9 + 73 * u32_value(a, 5);
    lemma_reads_agree(a, b, 1, end);
    lemma_reads_agree(a, b, 5, end);
    if i < u32_value(a, 5) {
        let base = 9 + 73 * i;
        lemma_reads_agree(a, b, base, end);
        lemma_reads_agree(a, b, base + 8, end);
        lemma_reads_agree(a, b, base + 16, end);
        lemma_reads_agree(a, b, base + 24, end);
        lemma_reads_agree(a, b, base + 36, end);
        lemma_reads_agree(a, b, base + 41, end);
    }
}

/// A status is found back from its byte; every other byte has none.
pub proof fn law_status_byte_round_trips(s: StakeStatus, v: u8)
    ensures
        StakeStatus::of_byte(s.byte()) == Some(s),
        StakeStatus::of_byte(v) is None <==> v > 4,
        StakeStatus::of_byte(v) matches Some(t) ==> t.byte() == v,
{
}

/// A header that was written with a capacity and a number of entries is read back with them. It is
/// accepted exactly where the account type is right and the data hold that many entries of 73 bytes behind
/// the nine of the header; short data, another type, and missing entries are each refused with their own
/// error, in this order.
pub proof fn law_written_header_is_read_back(data: Seq<u8>, max_validators: u32, len: u32)
    ensures
        data.len() < 9 ==> header_of(data) == Err::<ValidatorListHeader, ValidatorListError>(
            ValidatorListError::TooShort,
        ),
        data.len() >= 9 && data[0] != 2 ==> header_of(data) == Err::<
            ValidatorListHeader,
            ValidatorListError,
        >(ValidatorListError::NotValidatorList),
        data.len() >= 9 && data[0] == 2 && data.subrange(1, 5) == le_bytes(max_validators as int, 4)
            && data.subrange(5, 9) == le_bytes(len as int, 4) ==> header_of(data) == if (data.len() - 9)
            >= len * 73 {
            Ok::<ValidatorListHeader, ValidatorListError>(ValidatorListHeader { max_validators, len })
        } else {
            Err(ValidatorListError::EntriesTruncated)
        },
{
    if data.len() >= 9 {
        law_numbers_are_read_back(data, 1, max_validators as int);
        law_numbers_are_read_back(data, 5, len as int);
    }
}

/// The bytes of an entry: every field behind the one before it, with four unused bytes before the seed
/// suffix of the validator.
pub open spec fn written_entry(e: ValidatorEntry, unused: Seq<u8>) -> Seq<u8> {
    le_bytes(e.active_stake_lamports as int, 8) + le_bytes(e.transient_stake_lamports as int, 8)
        + le_bytes(e.last_update_epoch as int, 8) + le_bytes(e.transient_seed_suffix as int, 8) + unused
        + le_bytes(e.validator_seed_suffix as int, 4) + seq![e.status] + e.vote_account_address@
}

/// An entry that was written at `base` is read back from there, whatever stands before and after it.
#[verifier::rlimit(40)]
pub proof fn law_written_entry_is_read_back(
    data: Seq<u8>,
    base: int,
    unused: Seq<u8>,
    e: ValidatorEntry,
    f: ValidatorEntry,
)
    requires
        0 <= base <= data.len(),
        unused.len() == 4,
        written_entry(e, unused).is_prefix_of(data.skip(base)),
        shows(f, data, base),
    ensures
        written_entry(e, unused).len() == 73,
        f.active_stake_lamports == e.active_stake_lamports,
        f.transient_stake_lamports == e.transient_stake_lamports,
        f.last_update_epoch == e.last_update_epoch,
        f.transient_seed_suffix == e.transient_seed_suffix,
        f.validator_seed_suffix == e.validator_seed_suffix,
        f.status == e.status,
        f.vote_account_address@ == e.vote_account_address@,
{
    let d = data.skip(base);
    lemma_le_bytes_len(e.active_stake_lamports as int);
    lemma_le_bytes_len(e.transient_stake_lamports as int);
    lemma_le_bytes_len(e.last_update_epoch as int);
    lemma_le_bytes_len(e.transient_seed_suffix as int);
    lemma_le_bytes_len(e.validator_seed_suffix as int);
    let s0 = Seq::<u8>::empty();
    let s1 = le_bytes(e.active_stake_lamports as int, 8);
    let s2 = s1 + le_bytes(e.transient_stake_lamports as int, 8);
    let s3 = s2 + le_bytes(e.last_update_epoch as int, 8);
    let s4 = s3 + le_bytes(e.transient_seed_suffix as int, 8);
    let s5 = s4 + unused;
    let s6 = s5 + le_bytes(e.validator_seed_suffix as int, 4);
    let s7 = s6 + seq![e.status];
    lemma_part(d, s7, e.vote_account_address@);
    lemma_part(d, s6, seq![e.status]);
    lemma_part(d, s5, le_bytes(e.validator_seed_suffix as int, 4));
    lemma_part(d, s4, unused);
    lemma_part(d, s3, le_bytes(e.transient_seed_suffix as int, 8));
    lemma_part(d, s2, le_bytes(e.last_update_epoch as int, 8));
    lemma_part(d, s1, le_bytes(e.transient_stake_lamports as int, 8));
    assert(s0 + s1 =~= s1);
    lemma_part(d, s0, s1);
    law_numbers_are_read_back(d, 0, e.active_stake_lamports as int);
    law_numbers_are_read_back(d, 8, e.transient_stake_lamports as int);
    law_numbers_are_read_back(d, 16, e.last_update_epoch as int);
    law_numbers_are_read_back(d, 24, e.transient_seed_suffix as int);
    law_numbers_are_read_back(d, 36, e.validator_seed_suffix as int);
    assert(d.subrange(40, 41)[0] == d[40]);
    lemma_reads_shift(data, base, 0);
    lemma_reads_shift(data, base, 8);
    lemma_reads_shift(data, base, 16);
    lemma_reads_shift(data, base, 24);
    lemma_reads_shift(data, base, 36);
    lemma_reads_shift(data, base, 41);
}

/// The bytes number the statuses from 0 to 4, in this order.
pub proof fn law_status_bytes_are_numbered()
    ensures
        StakeStatus::Active.byte() < StakeStatus::DeactivatingTransient.byte()
            < StakeStatus::ReadyForRemoval.byte() < StakeStatus::DeactivatingValidator.byte()
            < StakeStatus::DeactivatingAll.byte() <= 4,
{
}

} // verus!
