//! The loss waterfall.

use fusion::math::recovery::{absorb, Absorption};

#[test]
fn reactor_fully_covers() {
    // Pool larger than the debt: the RP absorbs all of it.
    assert_eq!(absorb(100, 250, true, 999, 999), Absorption { reactor: 100, redist: 0, buffer: 0, global: 0, unhomed: 0 });
    assert_eq!(absorb(100, 100, false, 0, 0), Absorption { reactor: 100, redist: 0, buffer: 0, global: 0, unhomed: 0 });
}

#[test]
fn redistribution_takes_the_remainder() {
    // RP covers 40, the other 60 redistributes (recipients exist); buffers untouched.
    assert_eq!(absorb(100, 40, true, 999, 999), Absorption { reactor: 40, redist: 60, buffer: 0, global: 0, unhomed: 0 });
}

#[test]
fn local_buffer_covers_when_no_recipients() {
    // RP covers 40, no recipients, local buffer (>= 60) absorbs the rest; global untouched.
    assert_eq!(absorb(100, 40, false, 60, 999), Absorption { reactor: 40, redist: 0, buffer: 60, global: 0, unhomed: 0 });
    assert_eq!(absorb(100, 40, false, 1000, 0), Absorption { reactor: 40, redist: 0, buffer: 60, global: 0, unhomed: 0 });
}

#[test]
fn global_covers_after_local_buffer() {
    // RP 40, no recipients, local buffer only 25 -> global (>= 35) catches the rest BEFORE un-homed.
    assert_eq!(absorb(100, 40, false, 25, 35), Absorption { reactor: 40, redist: 0, buffer: 25, global: 35, unhomed: 0 });
    assert_eq!(absorb(100, 40, false, 25, 1000), Absorption { reactor: 40, redist: 0, buffer: 25, global: 35, unhomed: 0 });
    // Local buffer empty: the global tier carries the whole post-RP remainder.
    assert_eq!(absorb(100, 40, false, 0, 60), Absorption { reactor: 40, redist: 0, buffer: 0, global: 60, unhomed: 0 });
}

#[test]
fn global_haircuts_fail_closed_then_unhomed() {
    // RP 40, no recipients, local buffer 25, global only 20 -> 25 + 20 absorbed, 15 un-homed.
    assert_eq!(absorb(100, 40, false, 25, 20), Absorption { reactor: 40, redist: 0, buffer: 25, global: 20, unhomed: 15 });
    // Both buffers empty: the whole post-RP remainder is un-homed.
    assert_eq!(absorb(100, 40, false, 0, 0), Absorption { reactor: 40, redist: 0, buffer: 0, global: 0, unhomed: 60 });
}

#[test]
fn global_available_zero_is_byte_identical_to_four_tier() {
    // With no global buffer, the four other tiers share the debt.
    assert_eq!(absorb(100, 40, false, 25, 0), Absorption { reactor: 40, redist: 0, buffer: 25, global: 0, unhomed: 35 });
    assert_eq!(absorb(100, 40, true, 25, 0), Absorption { reactor: 40, redist: 60, buffer: 0, global: 0, unhomed: 0 });
}

#[test]
fn conservation_holds_everywhere() {
    for &debt in &[0u128, 1, 50, 100] {
        for &cap in &[0u128, 30, 100, 200] {
            for &rec in &[true, false] {
                for &bal in &[0u128, 25, 1000] {
                    for &glob in &[0u128, 20, 1000] {
                        let a = absorb(debt, cap, rec, bal, glob);
                        assert_eq!(a.reactor + a.redist + a.buffer + a.global + a.unhomed, debt, "conservation");
                        assert!(a.reactor <= cap);
                        assert!(a.buffer <= bal);
                        assert!(a.global <= glob);
                    }
                }
            }
        }
    }
}
