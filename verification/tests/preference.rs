//! Preference counting.

use fusion::stake::preference::{countable, Address, PositionView, PreferenceView};

const FUSOL: Address = [7u8; 32];
const OWNER: Address = [1u8; 32];

fn base_pref() -> PreferenceView {
    PreferenceView {
        owner: OWNER,
        observed_ink_nonce: 42,
        eligible_from_epoch: 100,
        last_counted_epoch: 99,
    }
}

fn base_pos() -> PositionView {
    PositionView { owner: OWNER, collateral_mint: FUSOL, ink: 1_000, ink_nonce: 42 }
}

#[test]
fn countable_when_all_five_clauses_hold() {
    assert!(countable(&base_pref(), &base_pos(), &FUSOL, 100));
}

#[test]
fn wrong_mint_not_countable() {
    let pos = PositionView { collateral_mint: [8u8; 32], ..base_pos() };
    assert!(!countable(&base_pref(), &pos, &FUSOL, 100));
}

#[test]
fn owner_mismatch_not_countable() {
    let pos = PositionView { owner: [2u8; 32], ..base_pos() };
    assert!(!countable(&base_pref(), &pos, &FUSOL, 100));
}

#[test]
fn nonce_mismatch_gives_zero_influence() {
    // Any collateral change (deposit/withdraw/redeem/liquidate/redistribute)
    // bumps the nonce and invalidates the preference until resync.
    let pos = PositionView { ink_nonce: 43, ..base_pos() };
    assert!(!countable(&base_pref(), &pos, &FUSOL, 100));
}

#[test]
fn changes_delayed_one_epoch() {
    // eligible_from_epoch = 100: not countable at 99, countable from 100 on.
    assert!(!countable(&base_pref(), &base_pos(), &FUSOL, 99));
    assert!(countable(&base_pref(), &base_pos(), &FUSOL, 100));
    assert!(countable(&base_pref(), &base_pos(), &FUSOL, 101));
}

#[test]
fn one_count_per_epoch() {
    // Counting at epoch 100 records last_counted_epoch = 100: a second snapshot
    // in the same epoch is not countable; the next epoch it is again.
    let counted = PreferenceView { last_counted_epoch: 100, ..base_pref() };
    assert!(!countable(&counted, &base_pos(), &FUSOL, 100));
    assert!(countable(&counted, &base_pos(), &FUSOL, 101));
}

#[test]
fn exactly_the_conjunction_of_five_clauses() {
    for bits in 0u8..32 {
        let mint_ok = bits & 1 != 0;
        let owner_ok = bits & 2 != 0;
        let nonce_ok = bits & 4 != 0;
        let delay_ok = bits & 8 != 0;
        let uncounted = bits & 16 != 0;
        let pref = PreferenceView {
            owner: OWNER,
            observed_ink_nonce: 42,
            eligible_from_epoch: if delay_ok { 100 } else { 101 },
            last_counted_epoch: if uncounted { 99 } else { 100 },
        };
        let pos = PositionView {
            owner: if owner_ok { OWNER } else { [2u8; 32] },
            collateral_mint: if mint_ok { FUSOL } else { [8u8; 32] },
            ink: 1_000,
            ink_nonce: if nonce_ok { 42 } else { 43 },
        };
        let expect = mint_ok && owner_ok && nonce_ok && delay_ok && uncounted;
        assert_eq!(countable(&pref, &pos, &FUSOL, 100), expect, "bits={bits:05b}");
    }
}
