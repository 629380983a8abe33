//! Position view.

use fusion::view::position::{parse, PositionError, POSITION_DISCRIMINATOR, POSITION_MIN_LEN};

/// A position account with every field set to a distinct pattern, in the order of the layout.
fn realistic_position() -> Vec<u8> {
    let mut buf = Vec::new();
    buf.extend_from_slice(&[170, 188, 143, 228, 122, 64, 247, 208]); // discriminator
    buf.extend_from_slice(&[0x11; 32]); // owner
    buf.extend_from_slice(&[0x22; 32]); // collateral_mint
    buf.extend_from_slice(&0x0102_0304_0506_0708u64.to_le_bytes()); // ink
    buf.extend_from_slice(&0x1112_1314_1516_1718_191A_1B1C_1D1E_1F20u128.to_le_bytes()); // recorded_debt
    buf.extend_from_slice(&0x2122u16.to_le_bytes()); // user_rate_bps
    buf.push(0x33); // bump
    buf.extend_from_slice(&(-0x4142_4344_4546_4748i64).to_le_bytes()); // last_debt_update
    buf.extend_from_slice(&0x5152_5354_5556_5758_595A_5B5C_5D5E_5F60u128.to_le_bytes()); // stake
    buf.extend_from_slice(&0x6162_6364_6566_6768_696A_6B6C_6D6E_6F70u128.to_le_bytes()); // redist_l_coll_snapshot
    buf.extend_from_slice(&0x7172_7374_7576_7778_797A_7B7C_7D7E_7F80u128.to_le_bytes()); // redist_l_art_snapshot
    buf.extend_from_slice(&0x8182_8384_8586_8788u64.to_le_bytes()); // reserve_lamports
    buf.extend_from_slice(&0x9192u16.to_le_bytes()); // bucket
    buf.extend_from_slice(&0xA1A2_A3A4_A5A6_A7A8u64.to_le_bytes()); // coll_surplus
    buf.extend_from_slice(&(-0x31B2_B3B4_B5B6_B7B8i64).to_le_bytes()); // last_rate_adjust_ts
    buf.extend_from_slice(&0xC1C2_C3C4_C5C6_C7C8u64.to_le_bytes()); // ink_nonce
    buf.extend_from_slice(&[0xEE; 24]); // reserved
    buf
}

#[test]
fn round_trips_real_fusd_core_position() {
    let buf = realistic_position();
    assert_eq!(buf.len(), 213);
    assert_eq!(buf.len(), POSITION_MIN_LEN);

    let v = parse(&buf).unwrap();
    assert_eq!(v.owner, [0x11; 32]);
    assert_eq!(v.collateral_mint, [0x22; 32]);
    assert_eq!(v.ink, 0x0102_0304_0506_0708);
    assert_eq!(v.ink_nonce, 0xC1C2_C3C4_C5C6_C7C8);
}

#[test]
fn discriminator_matches_fusd_core() {
    // The first eight bytes of sha256("account:Position").
    assert_eq!(POSITION_DISCRIMINATOR, [0xAA, 0xBC, 0x8F, 0xE4, 0x7A, 0x40, 0xF7, 0xD0]);
}

#[test]
fn rejects_short_data() {
    let buf = realistic_position();
    assert_eq!(parse(&buf[..buf.len() - 1]), Err(PositionError::TooShort));
    assert_eq!(parse(&[]), Err(PositionError::TooShort));
}

#[test]
fn accepts_grown_account() {
    let mut buf = realistic_position();
    buf.extend_from_slice(&[0xFF; 32]);
    assert_eq!(parse(&buf).unwrap().ink, 0x0102_0304_0506_0708);
}

#[test]
fn rejects_wrong_discriminator() {
    let mut buf = realistic_position();
    buf[0] ^= 0x01;
    assert_eq!(parse(&buf), Err(PositionError::BadDiscriminator));
    // All-zero discriminator (uninitialized account data) is also rejected.
    let zeroed = vec![0u8; POSITION_MIN_LEN];
    assert_eq!(parse(&zeroed), Err(PositionError::BadDiscriminator));
}
