//! Validator list view.

use fusion::view::validator_list::{
    entry_at, parse_header, StakeStatus, ValidatorListError, ACCOUNT_TYPE_VALIDATOR_LIST,
};

const ENTRIES_OFFSET: usize = 9;

const ENTRY_LEN: usize = 73;

fn entry_bytes(seed: u8, status: u8) -> [u8; ENTRY_LEN] {
    let mut e = [0u8; ENTRY_LEN];
    e[0..8].copy_from_slice(&(1_000 + seed as u64).to_le_bytes()); // active
    e[8..16].copy_from_slice(&(2_000 + seed as u64).to_le_bytes()); // transient
    e[16..24].copy_from_slice(&(700 + seed as u64).to_le_bytes()); // last_update_epoch
    e[24..32].copy_from_slice(&(30 + seed as u64).to_le_bytes()); // transient_seed_suffix
    e[32..36].copy_from_slice(&0xDEAD_BEEFu32.to_le_bytes()); // unused (must be ignored)
    e[36..40].copy_from_slice(&(40 + seed as u32).to_le_bytes()); // validator_seed_suffix
    e[40] = status;
    e[41..73].copy_from_slice(&[seed; 32]); // vote_account_address
    e
}

fn list_buf(capacity: u32, entries: &[[u8; ENTRY_LEN]]) -> Vec<u8> {
    let mut buf = vec![0u8; ENTRIES_OFFSET + capacity as usize * ENTRY_LEN];
    buf[0] = ACCOUNT_TYPE_VALIDATOR_LIST;
    buf[1..5].copy_from_slice(&capacity.to_le_bytes());
    buf[5..9].copy_from_slice(&(entries.len() as u32).to_le_bytes());
    for (i, e) in entries.iter().enumerate() {
        let base = ENTRIES_OFFSET + i * ENTRY_LEN;
        buf[base..base + ENTRY_LEN].copy_from_slice(e);
    }
    buf
}

#[test]
fn header_len_and_capacity() {
    let buf = list_buf(5, &[entry_bytes(1, 0), entry_bytes(2, 1), entry_bytes(3, 4)]);
    let h = parse_header(&buf).unwrap();
    assert_eq!(h.max_validators, 5);
    assert_eq!(h.len, 3);
}

#[test]
fn entries_parse_every_field() {
    let buf = list_buf(5, &[entry_bytes(1, 0), entry_bytes(2, 1), entry_bytes(3, 4)]);
    for (i, seed, status) in [(0u32, 1u8, StakeStatus::Active), (1, 2, StakeStatus::DeactivatingTransient), (2, 3, StakeStatus::DeactivatingAll)]
    {
        let e = entry_at(&buf, i).unwrap();
        assert_eq!(e.active_stake_lamports, 1_000 + seed as u64);
        assert_eq!(e.transient_stake_lamports, 2_000 + seed as u64);
        assert_eq!(e.last_update_epoch, 700 + seed as u64);
        assert_eq!(e.transient_seed_suffix, 30 + seed as u64);
        assert_eq!(e.validator_seed_suffix, 40 + seed as u32);
        assert_eq!(e.stake_status(), Some(status));
        assert_eq!(e.vote_account_address, [seed; 32]);
    }
}

#[test]
fn index_past_len_is_none() {
    let buf = list_buf(5, &[entry_bytes(1, 0)]);
    assert!(entry_at(&buf, 0).is_some());
    assert_eq!(entry_at(&buf, 1), None);
    assert_eq!(entry_at(&buf, 4), None); // within capacity, past len
    assert_eq!(entry_at(&buf, u32::MAX), None);
}

#[test]
fn empty_list() {
    let buf = list_buf(4, &[]);
    let h = parse_header(&buf).unwrap();
    assert_eq!((h.len, h.max_validators), (0, 4));
    assert_eq!(entry_at(&buf, 0), None);
}

#[test]
fn rejects_wrong_account_type_and_short_data() {
    let mut buf = list_buf(2, &[entry_bytes(1, 0)]);
    buf[0] = 1; // StakePool, not ValidatorList
    assert_eq!(parse_header(&buf), Err(ValidatorListError::NotValidatorList));
    assert_eq!(entry_at(&buf, 0), None);
    assert_eq!(parse_header(&[2, 0, 0, 0]), Err(ValidatorListError::TooShort));
    assert_eq!(parse_header(&[]), Err(ValidatorListError::TooShort));
}

#[test]
fn rejects_overclaiming_len() {
    let mut buf = list_buf(2, &[entry_bytes(1, 0), entry_bytes(2, 0)]);
    buf[5..9].copy_from_slice(&3u32.to_le_bytes()); // claims 3, holds 2
    assert_eq!(parse_header(&buf), Err(ValidatorListError::EntriesTruncated));
    assert_eq!(entry_at(&buf, 0), None);
    buf[5..9].copy_from_slice(&u32::MAX.to_le_bytes()); // absurd claim: no u64 overflow
    assert_eq!(parse_header(&buf), Err(ValidatorListError::EntriesTruncated));
}

#[test]
fn unknown_status_fails_closed_in_decode() {
    let buf = list_buf(1, &[entry_bytes(1, 5)]);
    let e = entry_at(&buf, 0).unwrap();
    assert_eq!(e.status, 5);
    assert_eq!(e.stake_status(), None);
    for v in 0..=4u8 {
        assert!(StakeStatus::from_u8(v).is_some());
    }
    assert_eq!(StakeStatus::from_u8(0xFF), None);
}
