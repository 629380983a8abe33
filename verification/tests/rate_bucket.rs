//! Rate buckets.

use fusion::math::rate_bucket;
use fusion::math::rate_bucket::{bucket_of, clear, cmp_collateral_ratio, count_set, first_set, first_set_from, is_set};
use std::cmp::Ordering;

fn grid() -> Vec<u64> {
    vec![0u64; 4] // 256 buckets
}

#[test]
fn bucket_of_quantizes_and_clamps() {
    // 256 buckets @ 0.10% (10 bps) -> 0..25.5%.
    assert_eq!(bucket_of(0, 10, 256), 0);
    assert_eq!(bucket_of(9, 10, 256), 0);
    assert_eq!(bucket_of(10, 10, 256), 1);
    assert_eq!(bucket_of(505, 10, 256), 50); // 5.05% -> bucket 50
    assert_eq!(bucket_of(2_550, 10, 256), 255); // top of range
    assert_eq!(bucket_of(60_000, 10, 256), 255); // clamps into the last bucket
}

#[test]
fn set_clear_is_set_roundtrip() {
    let mut g = grid();
    assert!(!is_set(&g, 100));
    rate_bucket::set(&mut g, 100);
    assert!(is_set(&g, 100));
    assert_eq!(count_set(&g), 1);
    // distinct bucket in another word
    rate_bucket::set(&mut g, 200);
    assert!(is_set(&g, 200));
    assert_eq!(count_set(&g), 2);
    clear(&mut g, 100);
    assert!(!is_set(&g, 100));
    assert!(is_set(&g, 200));
    assert_eq!(count_set(&g), 1);
}

#[test]
fn boundary_buckets() {
    let mut g = grid();
    rate_bucket::set(&mut g, 0);
    rate_bucket::set(&mut g, 63); // top of word 0
    rate_bucket::set(&mut g, 64); // bottom of word 1
    rate_bucket::set(&mut g, 255); // top of the grid
    assert!(is_set(&g, 0) && is_set(&g, 63) && is_set(&g, 64) && is_set(&g, 255));
    assert_eq!(count_set(&g), 4);
}

#[test]
fn first_set_finds_lowest() {
    let mut g = grid();
    assert_eq!(first_set(&g), None);
    rate_bucket::set(&mut g, 130);
    rate_bucket::set(&mut g, 70);
    rate_bucket::set(&mut g, 200);
    assert_eq!(first_set(&g), Some(70), "lowest non-empty bucket");
    clear(&mut g, 70);
    assert_eq!(first_set(&g), Some(130));
    clear(&mut g, 130);
    clear(&mut g, 200);
    assert_eq!(first_set(&g), None);
}

#[test]
fn first_set_lowest_is_zero() {
    let mut g = grid();
    rate_bucket::set(&mut g, 0);
    rate_bucket::set(&mut g, 5);
    assert_eq!(first_set(&g), Some(0));
}

#[test]
fn first_set_from_resumes() {
    let mut g = grid();
    rate_bucket::set(&mut g, 10);
    rate_bucket::set(&mut g, 70);
    rate_bucket::set(&mut g, 71);
    rate_bucket::set(&mut g, 200);
    assert_eq!(first_set_from(&g, 0), Some(10));
    assert_eq!(first_set_from(&g, 10), Some(10)); // inclusive
    assert_eq!(first_set_from(&g, 11), Some(70));
    assert_eq!(first_set_from(&g, 64), Some(70)); // crosses a word boundary
    assert_eq!(first_set_from(&g, 71), Some(71));
    assert_eq!(first_set_from(&g, 72), Some(200));
    assert_eq!(first_set_from(&g, 201), None);
    assert_eq!(first_set_from(&g, 256), None); // out of range
}

#[test]
fn first_set_from_within_word_masks_correctly() {
    let mut g = grid();
    // bits 1 and 40 in word 0
    rate_bucket::set(&mut g, 1);
    rate_bucket::set(&mut g, 40);
    assert_eq!(first_set_from(&g, 0), Some(1));
    assert_eq!(first_set_from(&g, 2), Some(40));
    assert_eq!(first_set_from(&g, 41), None);
}

#[test]
fn collateral_ratio_ordering() {
    // CR_a = 200/100 = 2.0; CR_b = 150/100 = 1.5 -> b is lower.
    assert_eq!(cmp_collateral_ratio(200, 100, 150, 100), Ordering::Greater);
    assert_eq!(cmp_collateral_ratio(150, 100, 200, 100), Ordering::Less);
    // equal CR (same ratio, different scale): 200/100 == 400/200.
    assert_eq!(cmp_collateral_ratio(200, 100, 400, 200), Ordering::Equal);
    // sort a set lowest-CR-first
    let mut v = vec![(300u64, 100u128), (150, 100), (250, 100)];
    v.sort_by(|a, b| cmp_collateral_ratio(a.0, a.1, b.0, b.1));
    assert_eq!(v, vec![(150, 100), (250, 100), (300, 100)]);
    // huge values don't overflow (256-bit intermediate)
    assert_eq!(cmp_collateral_ratio(u64::MAX, u128::MAX, u64::MAX, u128::MAX), Ordering::Equal);
}

#[test]
fn full_grid_drain_order() {
    // Set every bucket, then drain lowest-first via first_set_from, confirming strict ascending.
    let mut g = grid();
    for b in 0..256 {
        rate_bucket::set(&mut g, b);
    }
    let mut expected = 0usize;
    let mut cursor = 0usize;
    while let Some(b) = first_set_from(&g, cursor) {
        assert_eq!(b, expected, "buckets drain in strict ascending order");
        clear(&mut g, b);
        expected += 1;
        cursor = b; // re-scan from here; the bit is now cleared
    }
    assert_eq!(expected, 256, "all buckets visited once, in order");
    assert_eq!(first_set(&g), None);
}
