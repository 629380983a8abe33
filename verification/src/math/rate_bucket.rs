//! The rate-bucket bitmap that redemption is targeted by.
//!
//! Redemption hits the lowest borrower-set rate first. Each position's rate is quantized into a
//! fixed-width bucket, and a bitmap marks the non-empty buckets; the lowest set bit is the bucket that
//! redemption starts at. Within a bucket the positions are ordered by collateral ratio.
//!
//! The bitmap is a slice of 64-bit words that the caller owns; bucket `b` is bit `b % 64` of word
//! `b / 64`.

use crate::math::arith::{lemma_floor_mono, lemma_u128_product};
use crate::math::u256::{from_u128, order, times, U256};
use core::cmp::Ordering;
use vstd::arithmetic::power2::pow2;
use vstd::prelude::*;

verus! {

/// Bit `k` of a word.
pub open spec fn bit(w: u64, k: u64) -> bool {
    (w >> k) & 1u64 == 1u64
}

/// Whether bucket `b` is marked.
pub open spec fn marked(words: Seq<u64>, b: int) -> bool {
    bit(words[b / 64], (b % 64) as u64)
}

/// The number of buckets that the words hold.
pub open spec fn capacity(words: Seq<u64>) -> int {
    words.len() as int * 64
}

/// How many of the first `n` buckets are marked.
pub open spec fn marked_below(words: Seq<u64>, n: int) -> int
    decreases n,
{
    if n <= 0 {
        0
    } else {
        marked_below(words, n - 1) + if marked(words, n - 1) {
            1int
        } else {
            0int
        }
    }
}

/// `after` is `before` with bucket `b` marked, and nothing else changed.
pub open spec fn is_marking(before: Seq<u64>, after: Seq<u64>, b: int) -> bool {
    &&& after.len() == before.len()
    &&& forall|c: int|
        0 <= c < capacity(before) ==> #[trigger] marked(after, c) == (c == b || marked(before, c))
}

/// `after` is `before` with bucket `b` unmarked, and nothing else changed.
pub open spec fn is_unmarking(before: Seq<u64>, after: Seq<u64>, b: int) -> bool {
    &&& after.len() == before.len()
    &&& forall|c: int|
        0 <= c < capacity(before) ==> #[trigger] marked(after, c) == (c != b && marked(before, c))
}

/// The bucket of a rate: its quotient by the width (a width of 0 counts as 1), clamped into the last
/// bucket.
pub open spec fn bucket(rate_bps: int, width_bps: int, num_buckets: int) -> int {
    let raw = rate_bps / if width_bps == 0 {
        1
    } else {
        width_bps
    };
    if raw < num_buckets - 1 {
        raw
    } else {
        num_buckets - 1
    }
}

/// Map a borrower rate to a bucket index in `[0, num_buckets)`; rates at or above the top bucket clamp
/// into the last one.
#[inline]
pub fn bucket_of(rate_bps: u16, width_bps: u16, num_buckets: usize) -> (r: usize)
    requires
        num_buckets > 0,
    ensures
        r == bucket(rate_bps as int, width_bps as int, num_buckets as int),
        r < num_buckets,
{
    let width: u16 = if width_bps == 0 {
        1
    } else {
        width_bps
    };
    let raw: usize = (rate_bps / width) as usize;
    if raw < num_buckets - 1 {
        raw
    } else {
        num_buckets - 1
    }
}

/// The number of representable buckets: 64 per word.
#[inline]
pub fn num_buckets(words: &[u64]) -> (r: usize)
    requires
        words@.len() * 64 <= usize::MAX,
    ensures
        r == words@.len() * 64,
{
    words.len() * 64
}

proof fn lemma_set_bit(w: u64, k: u64)
    requires
        k < 64,
    ensures
        forall|j: u64| j < 64 ==> #[trigger] bit(w | (1u64 << k), j) == (j == k || bit(w, j)),
{
    assert forall|j: u64| j < 64 implies #[trigger] bit(w | (1u64 << k), j) == (j == k || bit(
        w,
        j,
    )) by {
        assert((((w | (1u64 << k)) >> j) & 1u64 == 1u64) == (j == k || (w >> j) & 1u64 == 1u64))
            by (bit_vector)
            requires
                j < 64,
                k < 64,
        ;
    }
}

proof fn lemma_clear_bit(w: u64, k: u64)
    requires
        k < 64,
    ensures
        forall|j: u64|
            j < 64 ==> #[trigger] bit(w & !(1u64 << k), j) == (j != k && bit(w, j)),
{
    assert forall|j: u64| j < 64 implies #[trigger] bit(w & !(1u64 << k), j) == (j != k && bit(
        w,
        j,
    )) by {
        assert((((w & !(1u64 << k)) >> j) & 1u64 == 1u64) == (j != k && (w >> j) & 1u64 == 1u64))
            by (bit_vector)
            requires
                j < 64,
                k < 64,
        ;
    }
}

/// Mark bucket `b` non-empty.
#[inline]
pub fn set(words: &mut [u64], b: usize)
    requires
        b < old(words)@.len() * 64,
    ensures
        is_marking(old(words)@, final(words)@, b as int),
{
    let ghost before = words@;
    let k: u64 = (b % 64) as u64;
    words[b / 64] = words[b / 64] | (1u64 << k);
    proof {
        lemma_set_bit(before[b as int / 64], k);
        assert forall|c: int| 0 <= c < before.len() * 64 implies #[trigger] marked(words@, c) == (c
            == b || marked(before, c)) by {
            if c / 64 == b as int / 64 {
                assert(bit(words@[c / 64], (c % 64) as u64) == ((c % 64) as u64 == k || bit(
                    before[c / 64],
                    (c % 64) as u64,
                )));
            }
        }
    }
}

/// Mark bucket `b` empty.
#[inline]
pub fn clear(words: &mut [u64], b: usize)
    requires
        b < old(words)@.len() * 64,
    ensures
        is_unmarking(old(words)@, final(words)@, b as int),
{
    let ghost before = words@;
    let k: u64 = (b % 64) as u64;
    words[b / 64] = words[b / 64] & !(1u64 << k);
    proof {
        lemma_clear_bit(before[b as int / 64], k);
        assert forall|c: int| 0 <= c < before.len() * 64 implies #[trigger] marked(words@, c) == (c
            != b && marked(before, c)) by {
            if c / 64 == b as int / 64 {
                assert(bit(words@[c / 64], (c % 64) as u64) == ((c % 64) as u64 != k && bit(
                    before[c / 64],
                    (c % 64) as u64,
                )));
            }
        }
    }
}

/// Is bucket `b` non-empty?
#[inline]
pub fn is_set(words: &[u64], b: usize) -> (r: bool)
    requires
        b < words@.len() * 64,
    ensures
        r == marked(words@, b as int),
{
    let w: u64 = words[b / 64];
    let k: u64 = (b % 64) as u64;
    proof {
        assert((w & (1u64 << k) != 0) == ((w >> k) & 1u64 == 1u64)) by (bit_vector)
            requires
                k < 64,
        ;
    }
    w & (1u64 << k) != 0
}

/// The lowest marked bucket at or above `from`, if there is one.
pub open spec fn is_first_marked(words: Seq<u64>, from: int, r: Option<usize>) -> bool {
    match r {
        Some(b) => {
            &&& from <= b < words.len() * 64
            &&& marked(words, b as int)
            &&& forall|c: int| from <= c < b ==> !#[trigger] marked(words, c)
        },
        None => forall|c: int| from <= c < words.len() * 64 ==> !#[trigger] marked(words, c),
    }
}

/// The lowest set bit of a non-zero word is the number of its trailing zeros.
proof fn lemma_lowest_bit(w: u64)
    requires
        w != 0,
    ensures
        vstd::std_specs::bits::u64_trailing_zeros(w) < 64,
        bit(w, vstd::std_specs::bits::u64_trailing_zeros(w) as u64),
        forall|j: u64|
            j < vstd::std_specs::bits::u64_trailing_zeros(w) ==> !#[trigger] bit(w, j),
{
    vstd::std_specs::bits::axiom_u64_trailing_zeros(w);
    let z = vstd::std_specs::bits::u64_trailing_zeros(w);
    assert forall|j: u64| j < z implies !#[trigger] bit(w, j) by {
        assert((w >> j) & 1u64 == 0u64);
    }
}

proof fn lemma_zero_word(k: u64)
    requires
        k < 64,
    ensures
        !bit(0, k),
{
    assert((0u64 >> k) & 1u64 == 0u64) by (bit_vector)
        requires
            k < 64,
    ;
}

/// The lowest non-empty bucket, or `None` if every bucket is empty.
#[inline]
pub fn first_set(words: &[u64]) -> (r: Option<usize>)
    requires
        words@.len() * 64 <= usize::MAX,
    ensures
        is_first_marked(words@, 0, r),
{
    let mut i: usize = 0;
    while i < words.len()
        invariant
            i <= words@.len(),
            words@.len() * 64 <= usize::MAX,
            forall|c: int| 0 <= c < i * 64 ==> !#[trigger] marked(words@, c),
        decreases words@.len() - i,
    {
        let w: u64 = words[i];
        if w != 0 {
            let z: u32 = w.trailing_zeros();
            proof {
                lemma_lowest_bit(w);
                assert forall|c: int| i * 64 <= c < i * 64 + z implies !#[trigger] marked(
                    words@,
                    c,
                ) by {
                    assert(c / 64 == i && c % 64 == c - i * 64);
                    assert(!bit(w, (c % 64) as u64));
                }
                assert((i * 64 + z) / 64 == i && (i * 64 + z) % 64 == z as int);
            }
            return Some(i * 64 + z as usize);
        }
        proof {
            assert forall|c: int| i * 64 <= c < (i + 1) * 64 implies !#[trigger] marked(
                words@,
                c,
            ) by {
                assert(c / 64 == i);
                lemma_zero_word((c % 64) as u64);
            }
        }
        i = i + 1;
    }
    None
}

/// The lowest non-empty bucket `>= from`, or `None`, as well when `from` is past the last bucket.
#[inline]
pub fn first_set_from(words: &[u64], from: usize) -> (r: Option<usize>)
    requires
        words@.len() * 64 <= usize::MAX,
    ensures
        is_first_marked(words@, from as int, r),
{
    let n: usize = num_buckets(words);
    if from >= n {
        return None;
    }
    let start_word: usize = from / 64;
    let k: u64 = (from % 64) as u64;
    let w0: u64 = words[start_word];
    // Mask off the bits below `from` in the starting word.
    let first_word: u64 = w0 & (u64::MAX << k);
    proof {
        assert forall|j: u64| j < 64 implies #[trigger] bit(first_word, j) == (j >= k && bit(
            w0,
            j,
        )) by {
            assert((((w0 & (0xffff_ffff_ffff_ffffu64 << k)) >> j) & 1u64 == 1u64) == (j >= k && (w0
                >> j) & 1u64 == 1u64)) by (bit_vector)
                requires
                    j < 64,
                    k < 64,
            ;
        }
    }
    if first_word != 0 {
        let z: u32 = first_word.trailing_zeros();
        proof {
            lemma_lowest_bit(first_word);
            assert forall|c: int| from <= c < start_word * 64 + z implies !#[trigger] marked(
                words@,
                c,
            ) by {
                assert(c / 64 == start_word && c % 64 == c - start_word * 64);
                assert(!bit(first_word, (c % 64) as u64));
            }
            assert((start_word * 64 + z) / 64 == start_word && (start_word * 64 + z) % 64
                == z as int);
            assert(bit(first_word, z as u64));
        }
        return Some(start_word * 64 + z as usize);
    }
    proof {
        assert forall|c: int| from <= c < (start_word + 1) * 64 implies !#[trigger] marked(
            words@,
            c,
        ) by {
            assert(c / 64 == start_word && c % 64 == c - start_word * 64);
            lemma_zero_word((c % 64) as u64);
            assert(!bit(first_word, (c % 64) as u64));
        }
    }
    let mut i: usize = start_word + 1;
    while i < words.len()
        invariant
            start_word < i <= words@.len(),
            words@.len() * 64 <= usize::MAX,
            start_word == from / 64,
            forall|c: int| from <= c < i * 64 ==> !#[trigger] marked(words@, c),
        decreases words@.len() - i,
    {
        let w: u64 = words[i];
        if w != 0 {
            let z: u32 = w.trailing_zeros();
            proof {
                lemma_lowest_bit(w);
                assert forall|c: int| i * 64 <= c < i * 64 + z implies !#[trigger] marked(
                    words@,
                    c,
                ) by {
                    assert(c / 64 == i && c % 64 == c - i * 64);
                    assert(!bit(w, (c % 64) as u64));
                }
                assert((i * 64 + z) / 64 == i && (i * 64 + z) % 64 == z as int);
            }
            return Some(i * 64 + z as usize);
        }
        proof {
            assert forall|c: int| i * 64 <= c < (i + 1) * 64 implies !#[trigger] marked(
                words@,
                c,
            ) by {
                assert(c / 64 == i);
                lemma_zero_word((c % 64) as u64);
            }
        }
        i = i + 1;
    }
    None
}

proof fn lemma_marked_below_mono(words: Seq<u64>, m: int, n: int)
    requires
        0 <= m <= n,
    ensures
        0 <= marked_below(words, m) <= marked_below(words, n) <= marked_below(words, m) + (n - m),
    decreases n,
{
    if m < n {
        lemma_marked_below_mono(words, m, n - 1);
    } else if m > 0 {
        lemma_marked_below_mono(words, m - 1, m - 1);
    }
}

/// Count of non-empty buckets.
#[inline]
pub fn count_set(words: &[u64]) -> (r: u32)
    requires
        marked_below(words@, capacity(words@)) <= u32::MAX,
    ensures
        r == marked_below(words@, capacity(words@)),
{
    let mut count: u32 = 0;
    let mut i: usize = 0;
    while i < words.len()
        invariant
            i <= words@.len(),
            count == marked_below(words@, i * 64),
            marked_below(words@, capacity(words@)) <= u32::MAX,
        decreases words@.len() - i,
    {
        let w: u64 = words[i];
        let mut k: u64 = 0;
        while k < 64
            invariant
                i < words@.len(),
                w == words@[i as int],
                k <= 64,
                count == marked_below(words@, i * 64 + k),
                marked_below(words@, capacity(words@)) <= u32::MAX,
            decreases 64 - k,
        {
            proof {
                assert((i * 64 + k) / 64 == i && (i * 64 + k) % 64 == k as int);
                lemma_marked_below_mono(words@, i * 64 + k + 1, capacity(words@));
            }
            if (w >> k) & 1 == 1 {
                count = count + 1;
            }
            k = k + 1;
        }
        i = i + 1;
    }
    count
}

/// `ink * art` over 256 bits.
fn ratio_product(ink: u64, art: u128) -> (r: U256)
    ensures
        r@ == ink * art,
{
    proof {
        lemma_u128_product(ink as u128, art);
    }
    times(from_u128(ink as u128), from_u128(art))
}

/// The order of the collateral ratios `ink_a / art_a` and `ink_b / art_b`, cross-multiplied.
pub open spec fn ratio_order(ink_a: u64, art_a: u128, ink_b: u64, art_b: u128) -> Ordering {
    if ink_a * art_b < ink_b * art_a {
        Ordering::Less
    } else if ink_a * art_b == ink_b * art_a {
        Ordering::Equal
    } else {
        Ordering::Greater
    }
}

/// Order two positions by collateral ratio, ascending: `ink_a * art_b` against `ink_b * art_a`, in 256
/// bits.
#[inline]
pub fn cmp_collateral_ratio(ink_a: u64, art_a: u128, ink_b: u64, art_b: u128) -> (r: Ordering)
    ensures
        r == ratio_order(ink_a, art_a, ink_b, art_b),
{
    let lhs = ratio_product(ink_a, art_b);
    let rhs = ratio_product(ink_b, art_a);
    order(lhs, rhs)
}

// Laws.

/// Every rate has a bucket inside the grid, and a higher rate never a lower one.
pub proof fn law_bucket_is_monotone(r1: int, r2: int, width_bps: int, num_buckets: int)
    requires
        0 <= r1 <= r2,
        width_bps >= 0,
        num_buckets > 0,
    ensures
        0 <= bucket(r1, width_bps, num_buckets) <= bucket(r2, width_bps, num_buckets)
            < num_buckets,
{
    let w = if width_bps == 0 {
        1
    } else {
        width_bps
    };
    lemma_floor_mono(r1, r2, w);
    crate::math::arith::lemma_floor(r1, w);
}

/// A bucket holds its rates: below the last one, those from `bucket * width` up to the next multiple; the
/// last one also all above. A width of 0 counts as 1.
pub proof fn law_bucket_holds_its_rates(rate_bps: int, width_bps: int, num_buckets: int)
    requires
        rate_bps >= 0,
        width_bps >= 0,
        num_buckets > 0,
    ensures
        ({
            let b = bucket(rate_bps, width_bps, num_buckets);
            let w = vstd::math::max(width_bps, 1);
            &&& 0 <= b < num_buckets
            &&& b * w <= rate_bps
            &&& b < num_buckets - 1 ==> rate_bps < (b + 1) * w
        }),
{
    let w = vstd::math::max(width_bps, 1);
    crate::math::arith::lemma_floor(rate_bps, w);
    let raw = rate_bps / w;
    let b = bucket(rate_bps, width_bps, num_buckets);
    crate::math::arith::lemma_mul_mono(b, raw, w);
}

/// Bucket `b` is marked exactly where digit `b % 64` of the binary expansion of word `b / 64` is 1.
pub proof fn law_mark_is_a_binary_digit(words: Seq<u64>, b: int)
    requires
        0 <= b < words.len() * 64,
    ensures
        marked(words, b) <==> (words[b / 64] as int / pow2((b % 64) as nat) as int) % 2 == 1,
{
    let w = words[b / 64];
    let k = (b % 64) as u64;
    vstd::bits::lemma_u64_shr_is_div(w, k);
    let v = w >> k;
    assert(v & 1u64 == v % 2) by (bit_vector);
}

/// The first marked bucket is unique: no lower one can be skipped.
pub proof fn law_first_marked_is_unique(
    words: Seq<u64>,
    from: int,
    a: Option<usize>,
    b: Option<usize>,
)
    requires
        is_first_marked(words, from, a),
        is_first_marked(words, from, b),
    ensures
        a == b,
{
    if let Some(x) = a {
        if let Some(y) = b {
            if x < y {
                assert(marked(words, x as int));
            } else if y < x {
                assert(marked(words, y as int));
            }
        } else {
            assert(marked(words, x as int));
        }
    } else if let Some(y) = b {
        assert(marked(words, y as int));
    }
}

/// A search from `from` finds a bucket exactly where one is marked there or above, and then the lowest of
/// them.
pub proof fn law_search_finds_the_lowest(words: Seq<u64>, from: int, r: Option<usize>)
    requires
        is_first_marked(words, from, r),
    ensures
        r is Some <==> exists|c: int| from <= c < capacity(words) && #[trigger] marked(words, c),
        r matches Some(b) ==> b < capacity(words) && marked(words, b as int),
        forall|c: int|
            #![trigger marked(words, c)]
            from <= c < capacity(words) && marked(words, c) ==> (r matches Some(b) && from <= b <= c),
{
    if let Some(b) = r {
        assert(marked(words, b as int));
    }
}

/// A search resumed past the first marked bucket continues the same ascending order: what it finds is
/// the lowest marked bucket above it.
pub proof fn law_search_resumes_in_order(
    words: Seq<u64>,
    from: int,
    first: usize,
    next: Option<usize>,
)
    requires
        is_first_marked(words, from, Some(first)),
        is_first_marked(words, first + 1, next),
    ensures
        next matches Some(b) ==> first < b,
        forall|c: int|
            #![trigger marked(words, c)]
            from <= c < words.len() * 64 && marked(words, c) ==> c == first || (next matches Some(
                b,
            ) && b <= c),
{
}

/// Two words with the same bits are equal.
proof fn lemma_bits_determine_word(v: u64, w: u64)
    requires
        forall|k: u64| k < 64 ==> #[trigger] bit(v, k) == bit(w, k),
    ensures
        v == w,
{
    let x: u64 = v ^ w;
    if x != 0 {
        lemma_lowest_bit(x);
        let z = vstd::std_specs::bits::u64_trailing_zeros(x) as u64;
        assert(bit(v, z) == bit(w, z));
        assert(((v ^ w) >> z) & 1u64 == 1u64 ==> ((v >> z) & 1u64 == 1u64) != ((w >> z) & 1u64
            == 1u64)) by (bit_vector)
            requires
                z < 64,
        ;
    }
    assert(v ^ w == 0u64 ==> v == w) by (bit_vector);
}

/// The marks determine the words: two grids of one size with the same buckets marked are equal.
pub proof fn law_marks_determine_the_words(a: Seq<u64>, b: Seq<u64>)
    requires
        a.len() == b.len(),
        forall|c: int| 0 <= c < capacity(a) ==> #[trigger] marked(a, c) == marked(b, c),
    ensures
        a == b,
{
    assert forall|i: int| 0 <= i < a.len() implies a[i] == b[i] by {
        assert forall|k: u64| k < 64 implies #[trigger] bit(a[i], k) == bit(b[i], k) by {
            let c = i * 64 + k;
            assert(c / 64 == i && c % 64 == k as int);
            assert(marked(a, c) == marked(b, c));
        }
        lemma_bits_determine_word(a[i], b[i]);
    }
    assert(a =~= b);
}

/// The count over the first `n` buckets follows one mark.
proof fn lemma_count_follows_mark(before: Seq<u64>, after: Seq<u64>, b: int, n: int)
    requires
        0 <= b,
        forall|c: int|
            0 <= c < n ==> #[trigger] marked(after, c) == (c == b || marked(before, c)),
    ensures
        marked_below(after, n) == marked_below(before, n) + if b < n && !marked(before, b) {
            1int
        } else {
            0int
        },
    decreases n,
{
    if n > 0 {
        lemma_count_follows_mark(before, after, b, n - 1);
        assert(marked(after, n - 1) == (n - 1 == b || marked(before, n - 1)));
    }
}

/// Marking a bucket marks it and no other, raises the count by one if it was empty and not at all if it
/// was marked, and changes nothing when done again.
pub proof fn law_marking(before: Seq<u64>, after: Seq<u64>, again: Seq<u64>, b: int)
    requires
        0 <= b < capacity(before),
        is_marking(before, after, b),
        is_marking(after, again, b),
    ensures
        after.len() == before.len(),
        marked(after, b),
        forall|c: int|
            0 <= c < capacity(before) && c != b ==> #[trigger] marked(after, c) == marked(before, c),
        marked_below(after, capacity(after)) == marked_below(before, capacity(before))
            + if marked(before, b) {
            0int
        } else {
            1int
        },
        again == after,
{
    lemma_count_follows_mark(before, after, b, capacity(before));
    law_marks_determine_the_words(again, after);
}

/// Unmarking a bucket empties it and no other, lowers the count by one if it was marked and not at all if
/// it was empty, and changes nothing when done again.
pub proof fn law_unmarking(before: Seq<u64>, after: Seq<u64>, again: Seq<u64>, b: int)
    requires
        0 <= b < capacity(before),
        is_unmarking(before, after, b),
        is_unmarking(after, again, b),
    ensures
        after.len() == before.len(),
        !marked(after, b),
        forall|c: int|
            0 <= c < capacity(before) && c != b ==> #[trigger] marked(after, c) == marked(before, c),
        marked_below(after, capacity(after)) == marked_below(before, capacity(before))
            - if marked(before, b) {
            1int
        } else {
            0int
        },
        again == after,
{
    law_marks_determine_the_words(again, after);
    if marked(before, b) {
        lemma_count_follows_mark(after, before, b, capacity(before));
    } else {
        law_marks_determine_the_words(after, before);
    }
}

/// Unmarking undoes the marking of an empty bucket, bit for bit.
pub proof fn law_unmarking_undoes_marking(
    before: Seq<u64>,
    marking: Seq<u64>,
    after: Seq<u64>,
    b: int,
)
    requires
        0 <= b < capacity(before),
        !marked(before, b),
        is_marking(before, marking, b),
        is_unmarking(marking, after, b),
    ensures
        after == before,
{
    law_marks_determine_the_words(after, before);
}

/// The count is zero exactly when no bucket is marked.
pub proof fn law_count_zero_iff_empty(words: Seq<u64>, n: int)
    requires
        n >= 0,
    ensures
        marked_below(words, n) == 0 <==> forall|c: int|
            0 <= c < n ==> !#[trigger] marked(words, c),
    decreases n,
{
    if n > 0 {
        law_count_zero_iff_empty(words, n - 1);
        lemma_marked_below_mono(words, n - 1, n);
        if marked_below(words, n) == 0 {
            assert(!marked(words, n - 1));
            assert(marked_below(words, n - 1) == 0);
            assert forall|c: int| 0 <= c < n implies !#[trigger] marked(words, c) by {
                if c == n - 1 {
                }
            }
        }
        if forall|c: int| 0 <= c < n ==> !#[trigger] marked(words, c) {
            assert(!marked(words, n - 1));
        }
    }
}

/// The lowest marked bucket: a search from the start finds a marked bucket with none below it, the same one
/// that a search from bucket 0 finds, and finds nothing exactly when the count is zero.
pub proof fn law_lowest_bucket_agrees(words: Seq<u64>, first: Option<usize>, from_zero: Option<usize>)
    requires
        is_first_marked(words, 0, first),
        is_first_marked(words, 0, from_zero),
    ensures
        first == from_zero,
        first matches Some(b) ==> b < capacity(words) && marked(words, b as int) && forall|c: int|
            0 <= c < b ==> !#[trigger] marked(words, c),
        first is None <==> marked_below(words, capacity(words)) == 0,
{
    law_first_marked_is_unique(words, 0, first, from_zero);
    law_count_zero_iff_empty(words, capacity(words));
    if let Some(b) = first {
        assert(marked(words, b as int));
    }
}

/// The order is that of the ratios, by cross products: exactly one of the three, also where a debt is
/// zero.
pub proof fn law_ratio_order_is_by_cross_products(ink_a: u64, art_a: u128, ink_b: u64, art_b: u128)
    ensures
        ratio_order(ink_a, art_a, ink_b, art_b) == Ordering::Less <==> ink_a * art_b < ink_b * art_a,
        ratio_order(ink_a, art_a, ink_b, art_b) == Ordering::Equal <==> ink_a * art_b == ink_b * art_a,
        ratio_order(ink_a, art_a, ink_b, art_b) == Ordering::Greater <==> ink_a * art_b > ink_b
            * art_a,
{
}

/// More collateral on the same debt is a higher ratio, and more debt on the same collateral a lower one.
pub proof fn law_ratio_order_follows_collateral_and_debt(
    ink_1: u64,
    ink_2: u64,
    art_1: u128,
    art_2: u128,
)
    requires
        ink_1 < ink_2,
        0 < art_1 < art_2,
    ensures
        ratio_order(ink_1, art_1, ink_2, art_1) == Ordering::Less,
        ratio_order(ink_2, art_2, ink_2, art_1) == Ordering::Less,
{
    assert(ink_1 * art_1 < ink_2 * art_1) by (nonlinear_arith)
        requires
            ink_1 < ink_2,
            0 < art_1,
    ;
    assert(ink_2 * art_1 < ink_2 * art_2) by (nonlinear_arith)
        requires
            0 < ink_2,
            art_1 < art_2,
    ;
}

/// The order of two ratios is reversed when they are swapped.
pub proof fn law_ratio_order_is_antisymmetric(ink_a: u64, art_a: u128, ink_b: u64, art_b: u128)
    ensures
        ratio_order(ink_a, art_a, ink_b, art_b) == Ordering::Less <==> ratio_order(
            ink_b,
            art_b,
            ink_a,
            art_a,
        ) == Ordering::Greater,
        ratio_order(ink_a, art_a, ink_b, art_b) == Ordering::Equal <==> ratio_order(
            ink_b,
            art_b,
            ink_a,
            art_a,
        ) == Ordering::Equal,
{
}

/// Between positions that carry debt the order is transitive.
pub proof fn law_ratio_order_is_transitive(
    ink_a: u64,
    art_a: u128,
    ink_b: u64,
    art_b: u128,
    ink_c: u64,
    art_c: u128,
)
    requires
        art_a > 0,
        art_b > 0,
        art_c > 0,
        ratio_order(ink_a, art_a, ink_b, art_b) != Ordering::Greater,
        ratio_order(ink_b, art_b, ink_c, art_c) != Ordering::Greater,
    ensures
        ratio_order(ink_a, art_a, ink_c, art_c) != Ordering::Greater,
        ratio_order(ink_a, art_a, ink_c, art_c) == Ordering::Equal ==> ratio_order(
            ink_a,
            art_a,
            ink_b,
            art_b,
        ) == Ordering::Equal && ratio_order(ink_b, art_b, ink_c, art_c) == Ordering::Equal,
{
    assert((ink_a * art_c) * art_b <= (ink_c * art_a) * art_b) by (nonlinear_arith)
        requires
            ink_a * art_b <= ink_b * art_a,
            ink_b * art_c <= ink_c * art_b,
            art_a > 0,
            art_c > 0,
    {
        assert((ink_a * art_b) * art_c <= (ink_b * art_a) * art_c);
        assert((ink_b * art_c) * art_a <= (ink_c * art_b) * art_a);
        assert((ink_a * art_c) * art_b == (ink_a * art_b) * art_c);
        assert((ink_b * art_a) * art_c == (ink_b * art_c) * art_a);
        assert((ink_c * art_b) * art_a == (ink_c * art_a) * art_b);
    }
    assert(ink_a * art_c <= ink_c * art_a) by (nonlinear_arith)
        requires
            (ink_a * art_c) * art_b <= (ink_c * art_a) * art_b,
            art_b > 0,
    ;
    if ink_a * art_c == ink_c * art_a {
        assert(ink_a * art_b == ink_b * art_a && ink_b * art_c == ink_c * art_b)
            by (nonlinear_arith)
            requires
                ink_a * art_b <= ink_b * art_a,
                ink_b * art_c <= ink_c * art_b,
                ink_a * art_c == ink_c * art_a,
                art_a > 0,
                art_b > 0,
                art_c > 0,
        {
            assert((ink_a * art_b) * art_c == (ink_a * art_c) * art_b);
            assert((ink_c * art_a) * art_b == (ink_c * art_b) * art_a);
            assert((ink_b * art_a) * art_c == (ink_b * art_c) * art_a);
            if ink_a * art_b < ink_b * art_a {
                assert((ink_a * art_b) * art_c < (ink_b * art_a) * art_c);
                assert((ink_b * art_c) * art_a <= (ink_c * art_b) * art_a);
            }
            if ink_b * art_c < ink_c * art_b {
                assert((ink_b * art_c) * art_a < (ink_c * art_b) * art_a);
                assert((ink_a * art_b) * art_c <= (ink_b * art_a) * art_c);
            }
        }
    }
}

/// Scaling a position's collateral and debt alike leaves its order unchanged.
pub proof fn law_ratio_order_is_scale_invariant(
    ink_a: u64,
    art_a: u128,
    ink_b: u64,
    art_b: u128,
    ink_k: u64,
    art_k: u128,
    k: int,
)
    requires
        k > 0,
        ink_k == ink_a * k,
        art_k == art_a * k,
    ensures
        ratio_order(ink_k, art_k, ink_b, art_b) == ratio_order(ink_a, art_a, ink_b, art_b),
{
    let x: int = ink_a * art_b;
    let y: int = ink_b * art_a;
    assert(ink_k * art_b == x * k) by (nonlinear_arith)
        requires
            ink_k == ink_a * k,
            x == ink_a * art_b,
    ;
    assert(ink_b * art_k == y * k) by (nonlinear_arith)
        requires
            art_k == art_a * k,
            y == ink_b * art_a,
    ;
    assert(x < y ==> x * k < y * k) by (nonlinear_arith)
        requires
            k > 0,
    ;
    assert(y < x ==> y * k < x * k) by (nonlinear_arith)
        requires
            k > 0,
    ;
}

} // verus!
