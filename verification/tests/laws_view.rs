//! The laws of the account views on concrete values.

use fusion::view::bytes::{array32, i64_le, u32_le, u64_le, u8_at};
use fusion::view::position;
use fusion::view::position::{PositionError, PositionView, POSITION_DISCRIMINATOR, POSITION_MIN_LEN};
use fusion::view::stake_account::{delegation_voter, STAKE_STATE_TAG_STAKE};
use fusion::view::stake_pool;
use fusion::view::stake_pool::{ACCOUNT_TYPE_STAKE_POOL, STAKE_POOL_FIXED_LEN};
use fusion::view::validator_list::{entry_at, parse_header, StakeStatus, ValidatorListError, ValidatorListHeader};
use fusion::view::vote_state;
use fusion::view::vote_state::{VoteSample, VoteStateError};

/// Bytes that differ from their neighbours.
fn pattern(len: usize) -> Vec<u8> {
    (0..len).map(|i| (i * 37 + 11) as u8).collect()
}

#[test]
fn readers_agree_with_the_native_ones() {
    let data = pattern(100);
    for off in 0..=100usize {
        assert_eq!(u8_at(&data, off), data.get(off).copied());
        assert_eq!(u32_le(&data, off).is_some(), off + 4 <= 100);
        assert_eq!(u64_le(&data, off).is_some(), off + 8 <= 100);
        assert_eq!(array32(&data, off).is_some(), off + 32 <= 100);
        if off + 8 <= 100 {
            let mut b = [0u8; 8];
            b.copy_from_slice(&data[off..off + 8]);
            assert_eq!(u64_le(&data, off), Some(u64::from_le_bytes(b)));
            assert_eq!(i64_le(&data, off), Some(i64::from_le_bytes(b)));
        }
    }
    assert_eq!(i64_le(&[0, 0, 0, 0, 0, 0, 0, 0x80], 0), Some(i64::MIN));
    assert_eq!(i64_le(&[0xFF; 8], 0), Some(-1));
    assert_eq!(u64_le(&[0xFF; 8], 0), Some(u64::MAX));
    assert_eq!(u32_le(&[0xFF; 4], 0), Some(u32::MAX));
}

#[test]
fn stake_pool_ignores_its_tail() {
    let mut head = pattern(STAKE_POOL_FIXED_LEN);
    head[0] = ACCOUNT_TYPE_STAKE_POOL;
    let want = stake_pool::parse(&head).unwrap();
    for tail in [0usize, 1, 60] {
        for fill in [0u8, 0xFF] {
            let mut data = head.clone();
            data.resize(STAKE_POOL_FIXED_LEN + tail, fill);
            assert_eq!(stake_pool::parse(&data), Ok(want));
        }
    }
    assert_eq!(want.stake_withdraw_bump_seed, head[97]);
    assert_eq!(want.lockup.custodian[..], head[298..330]);
}

#[test]
fn position_reads_its_four_fields_only() {
    let mut data = pattern(POSITION_MIN_LEN + 5);
    data[..8].copy_from_slice(&POSITION_DISCRIMINATOR);
    let want = position::parse(&data).unwrap();
    for i in (80..181).chain(189..POSITION_MIN_LEN + 5) {
        let mut other = data.clone();
        other[i] ^= 0x5A;
        assert_eq!(position::parse(&other), Ok(want));
    }
    for i in 0..8 {
        let mut other = data.clone();
        other[i] ^= 0x5A;
        assert_eq!(position::parse(&other), Err(PositionError::BadDiscriminator));
    }
    let ink = u64_le(&data, 72).unwrap();
    let ink_nonce = u64_le(&data, 181).unwrap();
    assert_eq!(want, PositionView { owner: array32(&data, 8).unwrap(), collateral_mint: array32(&data, 40).unwrap(), ink, ink_nonce });
    // Short data is reported before a wrong discriminator.
    assert_eq!(position::parse(&[0; 212]), Err(PositionError::TooShort));
}

#[test]
fn delegation_reads_tag_and_voter_only() {
    let mut data = pattern(200);
    data[..4].copy_from_slice(&STAKE_STATE_TAG_STAKE.to_le_bytes());
    let want = delegation_voter(&data).unwrap();
    assert_eq!(want[..], data[124..156]);
    for i in (4..124).chain(156..200) {
        let mut other = data.clone();
        other[i] ^= 0x5A;
        assert_eq!(delegation_voter(&other), Some(want));
    }
}

#[test]
fn list_ignores_its_spare_capacity() {
    let mut data = pattern(9 + 73 * 2);
    data[0] = 2;
    data[5..9].copy_from_slice(&2u32.to_le_bytes());
    let header = parse_header(&data).unwrap();
    assert_eq!(header, ValidatorListHeader { max_validators: u32_le(&data, 1).unwrap(), len: 2 });
    let entries = [entry_at(&data, 0).unwrap(), entry_at(&data, 1).unwrap()];
    let mut longer = data.clone();
    longer.resize(9 + 73 * 5 + 17, 0xFF);
    assert_eq!(parse_header(&longer), Ok(header));
    assert_eq!([entry_at(&longer, 0).unwrap(), entry_at(&longer, 1).unwrap()], entries);
    assert_eq!(entry_at(&longer, 2), None);
    // One byte short.
    assert_eq!(parse_header(&data[..9 + 73 * 2 - 1]), Err(ValidatorListError::EntriesTruncated));
    assert_eq!(StakeStatus::from_u8(2), Some(StakeStatus::ReadyForRemoval));
    assert_eq!(StakeStatus::from_u8(3), Some(StakeStatus::DeactivatingValidator));
}

/// A vote account of one version, written by hand.
fn vote_account(tag: u32, votes: &[u64], root: Option<u64>, credits: &[(u64, u64, u64)], stamp: u64) -> Vec<u8> {
    let mut d = Vec::new();
    d.extend_from_slice(&tag.to_le_bytes());
    d.extend_from_slice(&[9u8; 64]);
    d.push(42);
    d.extend_from_slice(&(votes.len() as u64).to_le_bytes());
    for slot in votes {
        if tag == 2 {
            d.push(0xEE);
        }
        d.extend_from_slice(&slot.to_le_bytes());
        d.extend_from_slice(&[1, 0, 0, 0]);
    }
    match root {
        Some(r) => {
            d.push(1);
            d.extend_from_slice(&r.to_le_bytes());
        },
        None => d.push(0),
    }
    d.extend_from_slice(&1u64.to_le_bytes());
    d.extend_from_slice(&[5u8; 40]);
    d.extend_from_slice(&[0u8; 1545]);
    d.extend_from_slice(&(credits.len() as u64).to_le_bytes());
    for &(epoch, now, before) in credits {
        for v in [epoch, now, before] {
            d.extend_from_slice(&v.to_le_bytes());
        }
    }
    d.extend_from_slice(&stamp.to_le_bytes());
    d.extend_from_slice(&1_700_000_000i64.to_le_bytes());
    d
}

#[test]
fn both_versions_sample_alike() {
    for tag in [1u32, 2] {
        for root in [None, Some(7)] {
            let d = vote_account(tag, &[10, 20, 30], root, &[(4, 9, 8), (5, 9, 9)], 25);
            let want = VoteSample { commission: 42, prior_epoch_credit_growth: true, freshness_slot: 30 };
            assert_eq!(vote_state::parse(&d, 4), Ok(want));
            assert_eq!(vote_state::parse(&d, 5), Ok(VoteSample { prior_epoch_credit_growth: false, ..want }));
            assert_eq!(vote_state::parse(&d, 6), Ok(VoteSample { prior_epoch_credit_growth: false, ..want }));
            // The newer of the two slots counts.
            let late = vote_account(tag, &[10, 20, 30], root, &[], 31);
            assert_eq!(vote_state::parse(&late, 4).unwrap().freshness_slot, 31);
            // Trailing bytes are ignored, every truncation is refused.
            let mut padded = d.clone();
            padded.extend_from_slice(&[0xFF; 100]);
            assert_eq!(vote_state::parse(&padded, 4), Ok(want));
            for len in 0..d.len() {
                assert!(vote_state::parse(&d[..len], 4).is_err());
            }
        }
    }
}

#[test]
fn last_entry_of_an_epoch_decides() {
    let d = vote_account(2, &[], None, &[(4, 9, 8), (4, 9, 9)], 25);
    assert!(!vote_state::parse(&d, 4).unwrap().prior_epoch_credit_growth);
    let d = vote_account(2, &[], None, &[(4, 9, 9), (4, 9, 8), (3, 1, 1)], 25);
    assert!(vote_state::parse(&d, 4).unwrap().prior_epoch_credit_growth);
}

#[test]
fn vote_errors_come_in_order() {
    assert_eq!(vote_state::parse(&[], 0), Err(VoteStateError::TooShort));
    assert_eq!(vote_state::parse(&[1, 0, 0], 0), Err(VoteStateError::TooShort));
    assert_eq!(vote_state::parse(&[3, 0, 0, 0], 0), Err(VoteStateError::UnsupportedVersion));
    let d = vote_account(1, &[10], Some(7), &[(4, 9, 8)], 25);
    // A size that overflows is malformed; one that does not fit the data is too short.
    let put = |at: usize, v: u64| {
        let mut e = d.clone();
        e[at..at + 8].copy_from_slice(&v.to_le_bytes());
        vote_state::parse(&e, 4)
    };
    assert_eq!(put(69, u64::MAX), Err(VoteStateError::Malformed));
    assert_eq!(put(69, u64::MAX / 12), Err(VoteStateError::Malformed));
    assert_eq!(put(69, 1_000), Err(VoteStateError::TooShort));
    let root = 69 + 8 + 12;
    let mut e = d.clone();
    e[root] = 2;
    assert_eq!(vote_state::parse(&e, 4), Err(VoteStateError::Malformed));
    let voters = root + 9;
    assert_eq!(put(voters, u64::MAX), Err(VoteStateError::Malformed));
    assert_eq!(put(voters, 1_000), Err(VoteStateError::TooShort));
    let credits = voters + 8 + 40 + 1545;
    assert_eq!(put(credits, u64::MAX), Err(VoteStateError::Malformed));
    assert_eq!(put(credits, 2), Err(VoteStateError::TooShort));
    assert_eq!(vote_state::parse(&d[..d.len() - 1], 4), Err(VoteStateError::TooShort));
}
