//! Bounds-checked little-endian readers. Every reader gives `None` exactly when it would touch a byte
//! past the end.

use vstd::prelude::*;

verus! {

/// The little-endian value of the four bytes at `off`.
pub open spec fn u32_value(data: Seq<u8>, off: int) -> int {
    data[off] + 0x100 * data[off + 1] + 0x1_0000 * data[off + 2] + 0x100_0000 * data[off + 3]
}

/// The little-endian value of the eight bytes at `off`.
pub open spec fn u64_value(data: Seq<u8>, off: int) -> int {
    u32_value(data, off) + 0x1_0000_0000 * u32_value(data, off + 4)
}

/// The eight bytes at `off`, in two's complement.
pub open spec fn i64_value(data: Seq<u8>, off: int) -> int {
    let v = u64_value(data, off);
    if v < 0x8000_0000_0000_0000 {
        v
    } else {
        v - 0x1_0000_0000_0000_0000
    }
}

/// The 32 bytes at `off`.
pub open spec fn key_at(data: Seq<u8>, off: int) -> Seq<u8> {
    data.subrange(off, off + 32)
}

/// The byte at `off`.
pub fn u8_at(data: &[u8], off: usize) -> (r: Option<u8>)
    ensures
        r == (if off < data@.len() {
            Some(data@[off as int])
        } else {
            None
        }),
{
    if off < data.len() {
        Some(data[off])
    } else {
        None
    }
}

/// The little-endian `u32` at `off`.
pub fn u32_le(data: &[u8], off: usize) -> (r: Option<u32>)
    ensures
        r == (if off + 4 <= data@.len() {
            Some(u32_value(data@, off as int) as u32)
        } else {
            None
        }),
        r matches Some(v) ==> v == u32_value(data@, off as int),
{
    if data.len() < 4 || off > data.len() - 4 {
        return None;
    }
    Some(
        data[off] as u32 + 0x100 * data[off + 1] as u32 + 0x1_0000 * data[off + 2] as u32
            + 0x100_0000 * data[off + 3] as u32,
    )
}

/// The little-endian `u64` at `off`.
pub fn u64_le(data: &[u8], off: usize) -> (r: Option<u64>)
    ensures
        r == (if off + 8 <= data@.len() {
            Some(u64_value(data@, off as int) as u64)
        } else {
            None
        }),
        r matches Some(v) ==> v == u64_value(data@, off as int),
{
    if data.len() < 8 || off > data.len() - 8 {
        return None;
    }
    match (u32_le(data, off), u32_le(data, off + 4)) {
        (Some(low), Some(high)) => Some(low as u64 + 0x1_0000_0000 * high as u64),
        _ => None,
    }
}

/// The little-endian `i64` at `off`.
pub fn i64_le(data: &[u8], off: usize) -> (r: Option<i64>)
    ensures
        r == (if off + 8 <= data@.len() {
            Some(i64_value(data@, off as int) as i64)
        } else {
            None
        }),
        r matches Some(v) ==> v == i64_value(data@, off as int),
{
    match u64_le(data, off) {
        Some(v) => if v < 0x8000_0000_0000_0000 {
            Some(v as i64)
        } else {
            Some(-((u64::MAX - v) as i64) - 1)
        },
        None => None,
    }
}

/// The 32 bytes at `off`.
pub fn array32(data: &[u8], off: usize) -> (r: Option<[u8; 32]>)
    ensures
        r is Some <==> off + 32 <= data@.len(),
        r matches Some(a) ==> a@ == key_at(data@, off as int),
{
    if data.len() < 32 || off > data.len() - 32 {
        return None;
    }
    let mut out: [u8; 32] = [0;32];
    let mut i: usize = 0;
    while i < 32
        invariant
            i <= 32,
            off + 32 <= data@.len() <= usize::MAX,
            forall|k: int| 0 <= k < i ==> #[trigger] out@[k] == data@[off + k],
        decreases 32 - i,
    {
        out[i] = data[off + i];
        i = i + 1;
    }
    assert(out@ =~= key_at(data@, off as int));
    Some(out)
}

/// The readers of two buffers agree wherever their bytes do.
pub proof fn lemma_reads_agree(a: Seq<u8>, b: Seq<u8>, off: int, end: int)
    requires
        0 <= off <= end,
        end <= a.len(),
        end <= b.len(),
        forall|i: int| off <= i < end ==> #[trigger] a[i] == b[i],
    ensures
        off + 4 <= end ==> u32_value(a, off) == u32_value(b, off),
        off + 8 <= end ==> u64_value(a, off) == u64_value(b, off) && i64_value(a, off)
            == i64_value(b, off),
        off + 32 <= end ==> key_at(a, off) == key_at(b, off),
{
    if off + 32 <= end {
        assert(key_at(a, off) =~= key_at(b, off));
    }
}

/// The `n` bytes of a number in little-endian order, a negative one in two's complement.
pub open spec fn le_bytes(v: int, n: nat) -> Seq<u8>
    decreases n,
{
    if n == 0 {
        Seq::empty()
    } else {
        seq![(v % 256) as u8] + le_bytes(v / 256, (n - 1) as nat)
    }
}

/// A number is read back from its little-endian bytes, wherever they stand.
pub proof fn law_numbers_are_read_back(data: Seq<u8>, off: int, v: int)
    requires
        0 <= off,
    ensures
        off + 4 <= data.len() && 0 <= v <= u32::MAX && data.subrange(off, off + 4) == le_bytes(v, 4)
            ==> u32_value(data, off) == v,
        off + 8 <= data.len() && 0 <= v <= u64::MAX && data.subrange(off, off + 8) == le_bytes(v, 8)
            ==> u64_value(data, off) == v,
        off + 8 <= data.len() && i64::MIN <= v <= i64::MAX && data.subrange(off, off + 8) == le_bytes(
            v,
            8,
        ) ==> i64_value(data, off) == v,
{
    if off + 4 <= data.len() && data.subrange(off, off + 4) == le_bytes(v, 4) {
        lemma_four_bytes(data, off, v);
    }
    if off + 8 <= data.len() && data.subrange(off, off + 8) == le_bytes(v, 8) {
        lemma_eight_bytes(v);
        let low = v % 0x1_0000_0000;
        let high = v / 0x1_0000_0000;
        lemma_four_bytes_len(low);
        let eight = data.subrange(off, off + 8);
        assert(data.subrange(off, off + 4) =~= eight.subrange(0, 4));
        assert(data.subrange(off + 4, off + 4 + 4) =~= eight.subrange(4, 8));
        assert(eight.subrange(0, 4) =~= le_bytes(low, 4));
        assert(eight.subrange(4, 8) =~= le_bytes(high, 4));
        lemma_four_bytes(data, off, low);
        lemma_four_bytes(data, off + 4, high);
    }
}

proof fn lemma_four_bytes_len(v: int)
    ensures
        le_bytes(v, 4) == seq![
            (v % 256) as u8,
            (v / 256 % 256) as u8,
            (v / 256 / 256 % 256) as u8,
            (v / 256 / 256 / 256 % 256) as u8,
        ],
{
    reveal_with_fuel(le_bytes, 5);
    assert(le_bytes(v, 4) =~= seq![
        (v % 256) as u8,
        (v / 256 % 256) as u8,
        (v / 256 / 256 % 256) as u8,
        (v / 256 / 256 / 256 % 256) as u8,
    ]);
}

/// Four bytes read as the number modulo `2^32`.
proof fn lemma_four_bytes(data: Seq<u8>, off: int, v: int)
    requires
        0 <= off,
        off + 4 <= data.len(),
        data.subrange(off, off + 4) == le_bytes(v, 4),
    ensures
        u32_value(data, off) == v % 0x1_0000_0000,
{
    lemma_four_bytes_len(v);
    let s = data.subrange(off, off + 4);
    assert(s[0] == data[off] && s[1] == data[off + 1] && s[2] == data[off + 2] && s[3] == data[off
        + 3]);
}

/// Eight bytes are those of the two halves.
proof fn lemma_eight_bytes(v: int)
    ensures
        le_bytes(v, 8) == le_bytes(v % 0x1_0000_0000, 4) + le_bytes(v / 0x1_0000_0000, 4),
{
    let low = v % 0x1_0000_0000;
    let high = v / 0x1_0000_0000;
    lemma_four_bytes_len(low);
    lemma_four_bytes_len(v);
    lemma_four_bytes_len(high);
    assert(v / 256 / 256 / 256 / 256 == high);
    assert(le_bytes(v, 8) =~= le_bytes(v, 4) + le_bytes(high, 4)) by {
        reveal_with_fuel(le_bytes, 5);
    }
}

/// A key is the 32 bytes from its offset on.
pub proof fn law_key_is_read_in_place(data: Seq<u8>, off: int, key: Seq<u8>)
    requires
        0 <= off,
        off + 32 <= data.len(),
    ensures
        key_at(data, off) == key <==> key.len() == 32 && forall|i: int|
            0 <= i < 32 ==> #[trigger] key[i] == data[off + i],
{
    if key.len() == 32 && forall|i: int| 0 <= i < 32 ==> #[trigger] key[i] == data[off + i] {
        assert(key_at(data, off) =~= key);
    }
    if key_at(data, off) == key {
        assert forall|i: int| 0 <= i < 32 implies #[trigger] key[i] == data[off + i] by {
            assert(key_at(data, off)[i] == data[off + i]);
        }
    }
}

/// Two parts of data that start with both.
pub proof fn lemma_part(data: Seq<u8>, s: Seq<u8>, part: Seq<u8>)
    requires
        (s + part).is_prefix_of(data),
    ensures
        s.is_prefix_of(data),
        data.subrange(s.len() as int, (s.len() + part.len()) as int) == part,
{
    let both = s + part;
    assert(data.subrange(0, both.len() as int) == both);
    assert(data.subrange(0, s.len() as int) =~= s) by {
        assert forall|i: int| 0 <= i < s.len() implies data[i] == s[i] by {
            assert(both[i] == data.subrange(0, both.len() as int)[i]);
        }
    }
    assert(data.subrange(s.len() as int, (s.len() + part.len()) as int) =~= part) by {
        assert forall|i: int| 0 <= i < part.len() implies data[s.len() + i] == part[i] by {
            assert(both[s.len() + i] == data.subrange(0, both.len() as int)[s.len() + i]);
        }
    }
}

/// As many bytes as asked for.
pub proof fn lemma_le_bytes_len(v: int)
    ensures
        le_bytes(v, 4).len() == 4,
        le_bytes(v, 8).len() == 8,
{
    reveal_with_fuel(le_bytes, 9);
}

/// Data past `base` read as the data from `base` on.
pub proof fn lemma_reads_shift(data: Seq<u8>, base: int, off: int)
    requires
        0 <= base <= data.len(),
        0 <= off,
    ensures
        base + off + 4 <= data.len() ==> u32_value(data.skip(base), off) == u32_value(data, base + off),
        base + off + 8 <= data.len() ==> u64_value(data.skip(base), off) == u64_value(data, base + off),
        base + off + 32 <= data.len() ==> key_at(data.skip(base), off) == key_at(data, base + off),
{
    if base + off + 32 <= data.len() {
        assert(key_at(data.skip(base), off) =~= key_at(data, base + off));
    }
}

} // verus!
