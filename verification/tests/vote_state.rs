//! Vote account view.

use fusion::view::bytes::u32_le;
use fusion::view::vote_state::{parse, VoteStateError, VERSION_TAG_V1_14_11, VERSION_TAG_V3};
use solana_pubkey::Pubkey;
use solana_vote_interface::authorized_voters::AuthorizedVoters;
use solana_vote_interface::state::{
    BlockTimestamp, LandedVote, Lockout, VoteState1_14_11, VoteStateV3, VoteStateVersions,
};

const COMMISSION_OFFSET: usize = 68;

const VOTES_COUNT_OFFSET: usize = 69;

fn v3_state(
    commission: u8,
    vote_slots: &[u64],
    epoch_credits: &[(u64, u64, u64)],
    ts_slot: u64,
) -> VoteStateV3 {
    VoteStateV3 {
        commission,
        votes: vote_slots
            .iter()
            .enumerate()
            .map(|(i, &slot)| LandedVote {
                latency: 2,
                lockout: Lockout::new_with_confirmation_count(
                    slot,
                    (vote_slots.len() as u32).saturating_sub(i as u32),
                ),
            })
            .collect(),
        root_slot: Some(4_242),
        authorized_voters: AuthorizedVoters::new(7, Pubkey::new_from_array([3u8; 32])),
        epoch_credits: epoch_credits.to_vec(),
        last_timestamp: BlockTimestamp { slot: ts_slot, timestamp: 1_700_000_000 },
        ..VoteStateV3::default()
    }
}

fn serialize_exact(versioned: &VoteStateVersions) -> Vec<u8> {
    bincode::serialize(versioned).unwrap()
}

fn serialize_account(versioned: &VoteStateVersions) -> Vec<u8> {
    let mut buf = vec![0u8; VoteStateV3::size_of()];
    VoteStateV3::serialize(versioned, &mut buf).unwrap();
    buf
}

fn v3_fixture() -> VoteStateVersions {
    VoteStateVersions::new_v3(v3_state(
        5,
        &[100, 200, 300],
        &[(6, 90, 80), (7, 100, 90), (8, 100, 100)],
        290,
    ))
}

#[test]
fn v3_fixture_fields() {
    let buf = serialize_account(&v3_fixture());
    let s = parse(&buf, 7).unwrap();
    assert_eq!(s.commission, 5);
    assert!(s.prior_epoch_credit_growth); // (7, 100, 90): 100 > 90
    assert_eq!(s.freshness_slot, 300); // last landed vote beats last_timestamp.slot 290

    // Zero credit growth (credits == prev_credits) is NOT growth.
    assert!(!parse(&buf, 8).unwrap().prior_epoch_credit_growth);
    // An epoch with no entry at all reads as no growth (fail-closed).
    assert!(!parse(&buf, 5).unwrap().prior_epoch_credit_growth);
}

#[test]
fn v1_14_11_fixture_fields() {
    let v1: VoteState1_14_11 = v3_state(
        9,
        &[100, 200, 355],
        &[(41, 500, 480), (42, 500, 500)],
        310,
    )
    .into();
    let buf = serialize_account(&VoteStateVersions::V1_14_11(Box::new(v1)));
    assert_eq!(u32_le(&buf, 0), Some(VERSION_TAG_V1_14_11));
    let s = parse(&buf, 41).unwrap();
    assert_eq!(s.commission, 9);
    assert!(s.prior_epoch_credit_growth);
    assert_eq!(s.freshness_slot, 355);
    assert!(!parse(&buf, 42).unwrap().prior_epoch_credit_growth);
}

#[test]
fn empty_votes_fall_back_to_last_timestamp_slot() {
    let buf = serialize_account(&VoteStateVersions::new_v3(v3_state(
        0,
        &[],
        &[(7, 10, 5)],
        999,
    )));
    assert_eq!(parse(&buf, 7).unwrap().freshness_slot, 999);
}

#[test]
fn padding_is_ignored() {
    let versioned = v3_fixture();
    assert_eq!(
        parse(&serialize_exact(&versioned), 7),
        parse(&serialize_account(&versioned), 7)
    );
}

#[test]
fn documented_fixed_offsets_match_reference_serialization() {
    let exact = serialize_exact(&v3_fixture());
    assert_eq!(&exact[0..4], &VERSION_TAG_V3.to_le_bytes());
    assert_eq!(exact[COMMISSION_OFFSET], 5);
    assert_eq!(&exact[VOTES_COUNT_OFFSET..VOTES_COUNT_OFFSET + 8], &3u64.to_le_bytes());
}

#[test]
fn unsupported_version_tags_err() {
    let mut buf = vec![0u8; 3762]; // all zeros ⇒ tag 0 (V0_23_5 / uninitialized)
    assert_eq!(parse(&buf, 7), Err(VoteStateError::UnsupportedVersion));
    buf[0..4].copy_from_slice(&3u32.to_le_bytes()); // the future V4 tag
    assert_eq!(parse(&buf, 7), Err(VoteStateError::UnsupportedVersion));
    buf[0..4].copy_from_slice(&u32::MAX.to_le_bytes());
    assert_eq!(parse(&buf, 7), Err(VoteStateError::UnsupportedVersion));
}

#[test]
fn every_truncation_errs() {
    let exact = serialize_exact(&v3_fixture());
    assert!(parse(&exact, 7).is_ok());
    for len in 0..exact.len() {
        assert!(parse(&exact[..len], 7).is_err(), "prefix of {len} bytes must not parse");
    }
}

#[test]
fn adversarial_lengths_and_tags_err() {
    // votes count u64::MAX — count*13 must not overflow.
    let mut buf = serialize_account(&v3_fixture());
    buf[VOTES_COUNT_OFFSET..VOTES_COUNT_OFFSET + 8].copy_from_slice(&u64::MAX.to_le_bytes());
    assert!(parse(&buf, 7).is_err());

    // Rebuild with an empty tower so downstream offsets are easy: root_slot tag follows
    // immediately after the count.
    let empty_tower = VoteStateVersions::new_v3(v3_state(1, &[], &[(7, 2, 1)], 50));
    let exact = serialize_exact(&empty_tower);
    let root_tag_off = VOTES_COUNT_OFFSET + 8;
    assert_eq!(exact[root_tag_off], 1); // Some(root_slot) in the fixture

    let mut bad_opt = exact.clone();
    bad_opt[root_tag_off] = 2; // invalid Option tag
    assert_eq!(parse(&bad_opt, 7), Err(VoteStateError::Malformed));

    // authorized_voters count u64::MAX (count*40 must not overflow).
    let voters_count_off = root_tag_off + 9; // tag byte + Some(u64)
    let mut bad_voters = exact.clone();
    bad_voters[voters_count_off..voters_count_off + 8]
        .copy_from_slice(&u64::MAX.to_le_bytes());
    assert!(parse(&bad_voters, 7).is_err());

    // epoch_credits count over-claiming the buffer.
    let credits_count_off = voters_count_off + 8 + 40 + (32 * 48 + 8 + 1);
    let mut bad_credits = exact;
    bad_credits[credits_count_off..credits_count_off + 8]
        .copy_from_slice(&1_000_000u64.to_le_bytes());
    assert!(parse(&bad_credits, 7).is_err());
}
