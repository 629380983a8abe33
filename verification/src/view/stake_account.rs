//! View of a native stake account: the voter that it delegates to.
//!
//! | offset | size | field |
//! |--------|------|-------|
//! | 0      | 4    | state tag (u32): 0 uninitialized, 1 initialized, 2 stake, 3 rewards pool |
//! | 4      | 120  | meta: reserve, authorities, lockup |
//! | 124    | 32   | delegation: voter |
//! | 156    | ..   | delegation: stake and epochs, credits, flags |
//!
//! The delegation exists for tag 2 only.

use crate::view::bytes::{array32, key_at, lemma_reads_agree, u32_le, u32_value};
use vstd::prelude::*;

verus! {

/// State tag of a delegated stake account.
pub const STAKE_STATE_TAG_STAKE: u32 = 2;

const STATE_TAG_OFFSET: usize = 0;

const DELEGATION_VOTER_OFFSET: usize = 124;

/// Whether the data is a delegated stake account, long enough to hold its voter.
pub open spec fn is_delegated(data: Seq<u8>) -> bool {
    data.len() >= 156 && u32_value(data, 0) == STAKE_STATE_TAG_STAKE
}

/// The voter of the delegation. `None` exactly for another state tag and for data too short to hold the
/// voter.
pub fn delegation_voter(data: &[u8]) -> (r: Option<[u8; 32]>)
    ensures
        r is Some <==> is_delegated(data@),
        r matches Some(voter) ==> voter@ == key_at(data@, 124),
{
    match u32_le(data, STATE_TAG_OFFSET) {
        Some(tag) => if tag != STAKE_STATE_TAG_STAKE {
            return None;
        },
        None => {
            return None;
        },
    }
    array32(data, DELEGATION_VOTER_OFFSET)
}

/// Only the tag and the voter are read: data that agree on both give the same answer.
pub proof fn law_only_tag_and_voter_matter(a: Seq<u8>, b: Seq<u8>)
    requires
        a.len() >= 156,
        b.len() >= 156,
        forall|i: int| 0 <= i < 4 ==> #[trigger] a[i] == b[i],
        forall|i: int| 124 <= i < 156 ==> #[trigger] a[i] == b[i],
    ensures
        is_delegated(a) == is_delegated(b),
        key_at(a, 124) == key_at(b, 124),
{
    lemma_reads_agree(a, b, 0, 4);
    lemma_reads_agree(a, b, 124, 156);
}

/// An account is delegated exactly where it is long enough for its voter and starts with the bytes
/// 2, 0, 0, 0; the voter is the 32 bytes that end at 156.
pub proof fn law_delegated_account_starts_with_its_tag(data: Seq<u8>)
    ensures
        is_delegated(data) <==> data.len() >= 156 && data.subrange(0, 4) == seq![2u8, 0, 0, 0],
        data.len() >= 156 ==> key_at(data, 124) == data.take(156).skip(124),
{
    if data.len() >= 156 {
        let head = data.subrange(0, 4);
        let tag = seq![2u8, 0, 0, 0];
        assert(head[0] == data[0] && head[1] == data[1] && head[2] == data[2] && head[3] == data[3]);
        if is_delegated(data) {
            assert(head =~= tag);
        } else if head == tag {
            assert(tag[0] == 2 && tag[1] == 0 && tag[2] == 0 && tag[3] == 0);
        }
        assert(key_at(data, 124) =~= data.take(156).skip(124));
    }
}

} // verus!
