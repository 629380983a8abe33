//! View of a CDP position account: owner, collateral market, collateral, and its change counter.
//!
//! | offset | size | field |
//! |--------|------|-------|
//! | 0      | 8    | account discriminator |
//! | 8      | 32   | `owner` |
//! | 40     | 32   | `collateral_mint` |
//! | 72     | 8    | `ink`: locked collateral |
//! | 80     | 101  | debt, rate, stake, snapshots, surplus |
//! | 181    | 8    | `ink_nonce`: bumps whenever `ink` changes |
//! | 189    | 24   | reserved |

use crate::view::bytes::{array32, key_at, law_numbers_are_read_back, le_bytes, lemma_reads_agree, u64_le, u64_value};
use vstd::prelude::*;

verus! {

/// Account discriminator: the first eight bytes of `sha256("account:Position")`.
pub const POSITION_DISCRIMINATOR: [u8; 8] = [170, 188, 143, 228, 122, 64, 247, 208];

const OWNER_OFFSET: usize = 8;

const COLLATERAL_MINT_OFFSET: usize = 40;

const INK_OFFSET: usize = 72;

const INK_NONCE_OFFSET: usize = 181;

/// The size of a position account; a shorter one is not genuine.
pub const POSITION_MIN_LEN: usize = 213;

#[derive(Clone, Copy, Debug, PartialEq, Eq, Structural)]
pub enum PositionError {
    /// Data shorter than a position account.
    TooShort,
    /// The discriminator is another account's.
    BadDiscriminator,
}

/// What the preference sync reads of a position.
#[derive(Clone, Copy, Debug, PartialEq, Eq)]
pub struct PositionView {
    pub owner: [u8; 32],
    /// The collateral market of the position.
    pub collateral_mint: [u8; 32],
    /// Locked collateral.
    pub ink: u64,
    /// Counter of collateral changes.
    pub ink_nonce: u64,
}

/// The first eight bytes are the discriminator.
pub open spec fn has_discriminator(data: Seq<u8>) -> bool {
    &&& data[0] == 170
    &&& data[1] == 188
    &&& data[2] == 143
    &&& data[3] == 228
    &&& data[4] == 122
    &&& data[5] == 64
    &&& data[6] == 247
    &&& data[7] == 208
}

/// The view holds the fields that the data has at their offsets.
pub open spec fn shows(v: PositionView, data: Seq<u8>) -> bool {
    &&& v.owner@ == key_at(data, 8)
    &&& v.collateral_mint@ == key_at(data, 40)
    &&& v.ink == u64_value(data, 72)
    &&& v.ink_nonce == u64_value(data, 181)
}

/// What parsing gives: an error for short data or another discriminator, in this order, else the view.
pub open spec fn is_parse(data: Seq<u8>, r: Result<PositionView, PositionError>) -> bool {
    if data.len() < POSITION_MIN_LEN {
        r == Err::<PositionView, PositionError>(PositionError::TooShort)
    } else if !has_discriminator(data) {
        r == Err::<PositionView, PositionError>(PositionError::BadDiscriminator)
    } else {
        r matches Ok(v) && shows(v, data)
    }
}

/// Parse a position account.
pub fn parse(data: &[u8]) -> (r: Result<PositionView, PositionError>)
    ensures
        is_parse(data@, r),
{
    if data.len() < POSITION_MIN_LEN {
        return Err(PositionError::TooShort);
    }
    let d: [u8; 8] = POSITION_DISCRIMINATOR;
    let mut i: usize = 0;
    while i < 8
        invariant
            i <= 8,
            data@.len() >= POSITION_MIN_LEN,
            d@ == seq![170u8, 188, 143, 228, 122, 64, 247, 208],
            forall|k: int| 0 <= k < i ==> #[trigger] data@[k] == d@[k],
        decreases 8 - i,
    {
        if data[i] != d[i] {
            return Err(PositionError::BadDiscriminator);
        }
        i = i + 1;
    }
    assert(data@[0] == d@[0] && data@[1] == d@[1] && data@[2] == d@[2] && data@[3] == d@[3]);
    assert(data@[4] == d@[4] && data@[5] == d@[5] && data@[6] == d@[6] && data@[7] == d@[7]);
    match (
        array32(data, OWNER_OFFSET),
        array32(data, COLLATERAL_MINT_OFFSET),
        u64_le(data, INK_OFFSET),
        u64_le(data, INK_NONCE_OFFSET),
    ) {
        (Some(owner), Some(collateral_mint), Some(ink), Some(ink_nonce)) => Ok(
            PositionView { owner, collateral_mint, ink, ink_nonce },
        ),
        _ => Err(PositionError::TooShort),
    }
}

// Laws.

/// A grown account reads alike, and so does one that differs in the fields that are not read: only the
/// discriminator and the bytes of the four fields matter.
pub proof fn law_grown_account_reads_alike(
    a: Seq<u8>,
    b: Seq<u8>,
    r: Result<PositionView, PositionError>,
)
    requires
        a.len() >= POSITION_MIN_LEN,
        b.len() >= POSITION_MIN_LEN,
        forall|i: int| 0 <= i < 80 ==> #[trigger] a[i] == b[i],
        forall|i: int| 181 <= i < 189 ==> #[trigger] a[i] == b[i],
        is_parse(a, r),
    ensures
        is_parse(b, r),
{
    lemma_reads_agree(a, b, 8, 80);
    lemma_reads_agree(a, b, 40, 80);
    lemma_reads_agree(a, b, 72, 80);
    lemma_reads_agree(a, b, 181, 189);
    assert(a[0] == b[0] && a[1] == b[1] && a[2] == b[2] && a[3] == b[3]);
    assert(a[4] == b[4] && a[5] == b[5] && a[6] == b[6] && a[7] == b[7]);
}

/// An account that was written with these fields is read back with them: behind the discriminator the
/// two keys and the little-endian collateral, and the little-endian counter at its place. Data shorter
/// than an account, or with any other discriminator, are refused, each with its own error.
pub proof fn law_written_account_is_read_back(
    data: Seq<u8>,
    owner: Seq<u8>,
    collateral_mint: Seq<u8>,
    ink: u64,
    ink_nonce: u64,
    r: Result<PositionView, PositionError>,
)
    requires
        is_parse(data, r),
    ensures
        data.len() < 213 <==> r == Err::<PositionView, PositionError>(PositionError::TooShort),
        data.len() >= 213 ==> (r == Err::<PositionView, PositionError>(PositionError::BadDiscriminator)
            <==> data.subrange(0, 8) != seq![170u8, 188, 143, 228, 122, 64, 247, 208]),
        data.len() >= 213 && data.subrange(0, 8) == seq![170u8, 188, 143, 228, 122, 64, 247, 208]
            && data.subrange(8, 40) == owner && data.subrange(40, 72) == collateral_mint
            && data.subrange(72, 80) == le_bytes(ink as int, 8) && data.subrange(181, 189) == le_bytes(
            ink_nonce as int,
            8,
        ) ==> r is Ok && r->Ok_0.owner@ == owner && r->Ok_0.collateral_mint@ == collateral_mint
            && r->Ok_0.ink == ink && r->Ok_0.ink_nonce == ink_nonce,
{
    if data.len() >= 213 {
        let head = data.subrange(0, 8);
        let d = seq![170u8, 188, 143, 228, 122, 64, 247, 208];
        assert(head[0] == data[0] && head[1] == data[1] && head[2] == data[2] && head[3] == data[3]);
        assert(head[4] == data[4] && head[5] == data[5] && head[6] == data[6] && head[7] == data[7]);
        if has_discriminator(data) {
            assert(head =~= d);
        } else {
            assert(head != d) by {
                if head == d {
                    assert(d[0] == 170 && d[1] == 188 && d[2] == 143 && d[3] == 228);
                    assert(d[4] == 122 && d[5] == 64 && d[6] == 247 && d[7] == 208);
                }
            }
        }
        assert(key_at(data, 8) =~= data.subrange(8, 40));
        assert(key_at(data, 40) =~= data.subrange(40, 72));
        law_numbers_are_read_back(data, 72, ink as int);
        law_numbers_are_read_back(data, 181, ink_nonce as int);
    }
}

} // verus!
