//! View of an SPL stake-pool account.
//!
//! The account is borsh-serialized by a native program: byte 0 is the account type, the rest a plain
//! running sum of the fields:
//!
//! | offset | size | field |
//! |--------|------|-------|
//! | 0      | 1    | `account_type` (1 = stake pool) |
//! | 1      | 32   | `manager` |
//! | 33     | 32   | `staker` |
//! | 65     | 32   | `stake_deposit_authority` |
//! | 97     | 1    | `stake_withdraw_bump_seed` |
//! | 98     | 32   | `validator_list` |
//! | 130    | 32   | `reserve_stake` |
//! | 162    | 32   | `pool_mint` |
//! | 194    | 32   | `manager_fee_account` |
//! | 226    | 32   | `token_program_id` |
//! | 258    | 8    | `total_lamports` |
//! | 266    | 8    | `pool_token_supply` |
//! | 274    | 8    | `last_update_epoch` |
//! | 282    | 48   | `lockup` (`unix_timestamp` i64, `epoch` u64, `custodian`) |
//! | 330    | 16   | `epoch_fee` (`denominator` u64, `numerator` u64) |
//!
//! The field after these has a variable width, so nothing at or past offset 346 is read.

use crate::view::bytes::{array32, i64_le, i64_value, key_at, law_numbers_are_read_back, le_bytes, lemma_le_bytes_len, lemma_part, lemma_reads_agree, u64_le, u64_value};
use vstd::prelude::*;

verus! {

/// Account type of a stake pool.
pub const ACCOUNT_TYPE_STAKE_POOL: u8 = 1;

const MANAGER_OFFSET: usize = 1;

const STAKER_OFFSET: usize = 33;

const STAKE_DEPOSIT_AUTHORITY_OFFSET: usize = 65;

const STAKE_WITHDRAW_BUMP_OFFSET: usize = 97;

const VALIDATOR_LIST_OFFSET: usize = 98;

const RESERVE_STAKE_OFFSET: usize = 130;

const POOL_MINT_OFFSET: usize = 162;

const MANAGER_FEE_ACCOUNT_OFFSET: usize = 194;

const TOKEN_PROGRAM_OFFSET: usize = 226;

const TOTAL_LAMPORTS_OFFSET: usize = 258;

const POOL_TOKEN_SUPPLY_OFFSET: usize = 266;

const LAST_UPDATE_EPOCH_OFFSET: usize = 274;

const LOCKUP_UNIX_TIMESTAMP_OFFSET: usize = 282;

const LOCKUP_EPOCH_OFFSET: usize = 290;

const LOCKUP_CUSTODIAN_OFFSET: usize = 298;

const EPOCH_FEE_DENOMINATOR_OFFSET: usize = 330;

const EPOCH_FEE_NUMERATOR_OFFSET: usize = 338;

/// End of the fixed-offset region: the smallest account accepted.
pub const STAKE_POOL_FIXED_LEN: usize = 346;

#[derive(Clone, Copy, Debug, PartialEq, Eq, Structural)]
pub enum StakePoolError {
    /// Data shorter than the fixed-offset region.
    TooShort,
    /// Byte 0 is not the stake-pool account type.
    NotStakePool,
}

/// The lockup of a pool.
#[derive(Clone, Copy, Debug, PartialEq, Eq)]
pub struct Lockup {
    pub unix_timestamp: i64,
    pub epoch: u64,
    pub custodian: [u8; 32],
}

/// A fee, `numerator / denominator`.
#[derive(Clone, Copy, Debug, PartialEq, Eq)]
pub struct Fee {
    pub denominator: u64,
    pub numerator: u64,
}

/// Every field of the fixed-offset region. Keys are raw bytes.
#[derive(Clone, Copy, Debug, PartialEq, Eq)]
pub struct StakePoolView {
    pub manager: [u8; 32],
    pub staker: [u8; 32],
    pub stake_deposit_authority: [u8; 32],
    pub stake_withdraw_bump_seed: u8,
    /// The validator-list account of this pool.
    pub validator_list: [u8; 32],
    pub reserve_stake: [u8; 32],
    /// The mint that this pool issues.
    pub pool_mint: [u8; 32],
    pub manager_fee_account: [u8; 32],
    pub token_program: [u8; 32],
    /// Total lamports that back the pool.
    pub total_lamports: u64,
    /// Total pool tokens minted.
    pub pool_token_supply: u64,
    /// Epoch of the last balance update.
    pub last_update_epoch: u64,
    pub lockup: Lockup,
    pub epoch_fee: Fee,
}

/// The view holds the fields that the data has at their offsets.
pub open spec fn shows(v: StakePoolView, data: Seq<u8>) -> bool {
    &&& v.manager@ == key_at(data, 1)
    &&& v.staker@ == key_at(data, 33)
    &&& v.stake_deposit_authority@ == key_at(data, 65)
    &&& v.stake_withdraw_bump_seed == data[97]
    &&& v.validator_list@ == key_at(data, 98)
    &&& v.reserve_stake@ == key_at(data, 130)
    &&& v.pool_mint@ == key_at(data, 162)
    &&& v.manager_fee_account@ == key_at(data, 194)
    &&& v.token_program@ == key_at(data, 226)
    &&& v.total_lamports == u64_value(data, 258)
    &&& v.pool_token_supply == u64_value(data, 266)
    &&& v.last_update_epoch == u64_value(data, 274)
    &&& v.lockup.unix_timestamp == i64_value(data, 282)
    &&& v.lockup.epoch == u64_value(data, 290)
    &&& v.lockup.custodian@ == key_at(data, 298)
    &&& v.epoch_fee.denominator == u64_value(data, 330)
    &&& v.epoch_fee.numerator == u64_value(data, 338)
}

/// What parsing gives: an error for short data or another account type, in this order, else the view.
pub open spec fn is_parse(data: Seq<u8>, r: Result<StakePoolView, StakePoolError>) -> bool {
    if data.len() < STAKE_POOL_FIXED_LEN {
        r == Err::<StakePoolView, StakePoolError>(StakePoolError::TooShort)
    } else if data[0] != ACCOUNT_TYPE_STAKE_POOL {
        r == Err::<StakePoolView, StakePoolError>(StakePoolError::NotStakePool)
    } else {
        r matches Ok(v) && shows(v, data)
    }
}

/// A key inside the fixed region.
fn key(data: &[u8], off: usize) -> (r: [u8; 32])
    requires
        off + 32 <= data@.len(),
    ensures
        r@ == key_at(data@, off as int),
{
    match array32(data, off) {
        Some(k) => k,
        None => [0;32],
    }
}

/// A `u64` inside the fixed region.
fn number(data: &[u8], off: usize) -> (r: u64)
    requires
        off + 8 <= data@.len(),
    ensures
        r == u64_value(data@, off as int),
{
    match u64_le(data, off) {
        Some(v) => v,
        None => 0,
    }
}

/// Parse a stake-pool account. Reads only offsets below [`STAKE_POOL_FIXED_LEN`].
pub fn parse(data: &[u8]) -> (r: Result<StakePoolView, StakePoolError>)
    ensures
        is_parse(data@, r),
{
    if data.len() < STAKE_POOL_FIXED_LEN {
        return Err(StakePoolError::TooShort);
    }
    if data[0] != ACCOUNT_TYPE_STAKE_POOL {
        return Err(StakePoolError::NotStakePool);
    }
    let unix_timestamp: i64 = match i64_le(data, LOCKUP_UNIX_TIMESTAMP_OFFSET) {
        Some(v) => v,
        None => {
            return Err(StakePoolError::TooShort);
        },
    };
    Ok(
        StakePoolView {
            manager: key(data, MANAGER_OFFSET),
            staker: key(data, STAKER_OFFSET),
            stake_deposit_authority: key(data, STAKE_DEPOSIT_AUTHORITY_OFFSET),
            stake_withdraw_bump_seed: data[STAKE_WITHDRAW_BUMP_OFFSET],
            validator_list: key(data, VALIDATOR_LIST_OFFSET),
            reserve_stake: key(data, RESERVE_STAKE_OFFSET),
            pool_mint: key(data, POOL_MINT_OFFSET),
            manager_fee_account: key(data, MANAGER_FEE_ACCOUNT_OFFSET),
            token_program: key(data, TOKEN_PROGRAM_OFFSET),
            total_lamports: number(data, TOTAL_LAMPORTS_OFFSET),
            pool_token_supply: number(data, POOL_TOKEN_SUPPLY_OFFSET),
            last_update_epoch: number(data, LAST_UPDATE_EPOCH_OFFSET),
            lockup: Lockup {
                unix_timestamp,
                epoch: number(data, LOCKUP_EPOCH_OFFSET),
                custodian: key(data, LOCKUP_CUSTODIAN_OFFSET),
            },
            epoch_fee: Fee {
                denominator: number(data, EPOCH_FEE_DENOMINATOR_OFFSET),
                numerator: number(data, EPOCH_FEE_NUMERATOR_OFFSET),
            },
        },
    )
}

// Laws.

/// Nothing at or past the end of the fixed region is read: data that agree below it parse alike.
pub proof fn law_parse_ignores_the_tail(
    a: Seq<u8>,
    b: Seq<u8>,
    r: Result<StakePoolView, StakePoolError>,
)
    requires
        a.len() >= STAKE_POOL_FIXED_LEN,
        b.len() >= STAKE_POOL_FIXED_LEN,
        forall|i: int| 0 <= i < STAKE_POOL_FIXED_LEN ==> #[trigger] a[i] == b[i],
        is_parse(a, r),
    ensures
        is_parse(b, r),
{
    lemma_reads_agree(a, b, 1, 346);
    lemma_reads_agree(a, b, 33, 346);
    lemma_reads_agree(a, b, 65, 346);
    lemma_reads_agree(a, b, 98, 346);
    lemma_reads_agree(a, b, 130, 346);
    lemma_reads_agree(a, b, 162, 346);
    lemma_reads_agree(a, b, 194, 346);
    lemma_reads_agree(a, b, 226, 346);
    lemma_reads_agree(a, b, 258, 346);
    lemma_reads_agree(a, b, 266, 346);
    lemma_reads_agree(a, b, 274, 346);
    lemma_reads_agree(a, b, 282, 346);
    lemma_reads_agree(a, b, 290, 346);
    lemma_reads_agree(a, b, 298, 346);
    lemma_reads_agree(a, b, 330, 346);
    lemma_reads_agree(a, b, 338, 346);
}

/// The fixed region of the account of a pool with these fields: the account type, then every field behind
/// the one before it, keys as they are and numbers in little-endian order.
pub open spec fn written(w: StakePoolView) -> Seq<u8> {
    seq![1u8] + w.manager@ + w.staker@ + w.stake_deposit_authority@
        + seq![w.stake_withdraw_bump_seed] + w.validator_list@ + w.reserve_stake@ + w.pool_mint@
        + w.manager_fee_account@ + w.token_program@ + le_bytes(w.total_lamports as int, 8)
        + le_bytes(w.pool_token_supply as int, 8) + le_bytes(w.last_update_epoch as int, 8)
        + le_bytes(w.lockup.unix_timestamp as int, 8) + le_bytes(w.lockup.epoch as int, 8)
        + w.lockup.custodian@ + le_bytes(w.epoch_fee.denominator as int, 8)
        + le_bytes(w.epoch_fee.numerator as int, 8)
}

/// A pool that was written out is read back field by field, whatever follows its fixed region.
#[verifier::rlimit(40)]
pub proof fn law_written_pool_is_read_back(
    w: StakePoolView,
    tail: Seq<u8>,
    r: Result<StakePoolView, StakePoolError>,
)
    requires
        is_parse(written(w) + tail, r),
    ensures
        written(w).len() == 346,
        r is Ok,
        ({
            let v = r->Ok_0;
            &&& v.manager@ == w.manager@
            &&& v.staker@ == w.staker@
            &&& v.stake_deposit_authority@ == w.stake_deposit_authority@
            &&& v.stake_withdraw_bump_seed == w.stake_withdraw_bump_seed
            &&& v.validator_list@ == w.validator_list@
            &&& v.reserve_stake@ == w.reserve_stake@
            &&& v.pool_mint@ == w.pool_mint@
            &&& v.manager_fee_account@ == w.manager_fee_account@
            &&& v.token_program@ == w.token_program@
            &&& v.total_lamports == w.total_lamports
            &&& v.pool_token_supply == w.pool_token_supply
            &&& v.last_update_epoch == w.last_update_epoch
            &&& v.lockup.unix_timestamp == w.lockup.unix_timestamp
            &&& v.lockup.epoch == w.lockup.epoch
            &&& v.lockup.custodian@ == w.lockup.custodian@
            &&& v.epoch_fee.denominator == w.epoch_fee.denominator
            &&& v.epoch_fee.numerator == w.epoch_fee.numerator
        }),
{
    let data = written(w) + tail;
    lemma_le_bytes_len(w.total_lamports as int);
    lemma_le_bytes_len(w.pool_token_supply as int);
    lemma_le_bytes_len(w.last_update_epoch as int);
    lemma_le_bytes_len(w.lockup.unix_timestamp as int);
    lemma_le_bytes_len(w.lockup.epoch as int);
    lemma_le_bytes_len(w.epoch_fee.denominator as int);
    lemma_le_bytes_len(w.epoch_fee.numerator as int);
    let s0 = seq![1u8];
    let s1 = s0 + w.manager@;
    let s2 = s1 + w.staker@;
    let s3 = s2 + w.stake_deposit_authority@;
    let s4 = s3 + seq![w.stake_withdraw_bump_seed];
    let s5 = s4 + w.validator_list@;
    let s6 = s5 + w.reserve_stake@;
    let s7 = s6 + w.pool_mint@;
    let s8 = s7 + w.manager_fee_account@;
    let s9 = s8 + w.token_program@;
    let s10 = s9 + le_bytes(w.total_lamports as int, 8);
    let s11 = s10 + le_bytes(w.pool_token_supply as int, 8);
    let s12 = s11 + le_bytes(w.last_update_epoch as int, 8);
    let s13 = s12 + le_bytes(w.lockup.unix_timestamp as int, 8);
    let s14 = s13 + le_bytes(w.lockup.epoch as int, 8);
    let s15 = s14 + w.lockup.custodian@;
    let s16 = s15 + le_bytes(w.epoch_fee.denominator as int, 8);
    let s17 = s16 + le_bytes(w.epoch_fee.numerator as int, 8);
    assert(data.subrange(0, s17.len() as int) =~= s17);
    lemma_part(data, s16, le_bytes(w.epoch_fee.numerator as int, 8));
    lemma_part(data, s15, le_bytes(w.epoch_fee.denominator as int, 8));
    lemma_part(data, s14, w.lockup.custodian@);
    lemma_part(data, s13, le_bytes(w.lockup.epoch as int, 8));
    lemma_part(data, s12, le_bytes(w.lockup.unix_timestamp as int, 8));
    lemma_part(data, s11, le_bytes(w.last_update_epoch as int, 8));
    lemma_part(data, s10, le_bytes(w.pool_token_supply as int, 8));
    lemma_part(data, s9, le_bytes(w.total_lamports as int, 8));
    lemma_part(data, s8, w.token_program@);
    lemma_part(data, s7, w.manager_fee_account@);
    lemma_part(data, s6, w.pool_mint@);
    lemma_part(data, s5, w.reserve_stake@);
    lemma_part(data, s4, w.validator_list@);
    lemma_part(data, s3, seq![w.stake_withdraw_bump_seed]);
    lemma_part(data, s2, w.stake_deposit_authority@);
    lemma_part(data, s1, w.staker@);
    lemma_part(data, s0, w.manager@);
    assert(data.subrange(0, 1)[0] == data[0]);
    assert(data.subrange(97, 98)[0] == data[97]);
    law_numbers_are_read_back(data, 258, w.total_lamports as int);
    law_numbers_are_read_back(data, 266, w.pool_token_supply as int);
    law_numbers_are_read_back(data, 274, w.last_update_epoch as int);
    law_numbers_are_read_back(data, 282, w.lockup.unix_timestamp as int);
    law_numbers_are_read_back(data, 290, w.lockup.epoch as int);
    law_numbers_are_read_back(data, 330, w.epoch_fee.denominator as int);
    law_numbers_are_read_back(data, 338, w.epoch_fee.numerator as int);
}

/// Short data and another account type are refused, each with its own error, and nothing else is.
pub proof fn law_refusals_are_short_data_and_other_types(
    data: Seq<u8>,
    r: Result<StakePoolView, StakePoolError>,
)
    requires
        is_parse(data, r),
    ensures
        r == Err::<StakePoolView, StakePoolError>(StakePoolError::TooShort) <==> data.len() < 346,
        r == Err::<StakePoolView, StakePoolError>(StakePoolError::NotStakePool) <==> data.len() >= 346
            && data[0] != 1,
{
}

} // verus!
