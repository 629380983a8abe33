//! Preference countability: whether the validator direction of one position counts in an epoch.
//!
//! Any collateral change bumps the position's ink nonce, which desynchronizes the preference until its
//! owner resyncs it, and a resync counts only from the next epoch on, so the same shares never direct
//! stake twice in one epoch.

use vstd::prelude::*;

verus! {

/// A 32-byte on-chain address.
pub type Address = [u8; 32];

/// The preference record of one position.
#[derive(Clone, Copy, Debug, PartialEq, Eq)]
pub struct PreferenceView {
    /// Position owner at the last sync.
    pub owner: Address,
    /// The position's ink nonce at the last sync.
    pub observed_ink_nonce: u64,
    /// First epoch this preference may count.
    pub eligible_from_epoch: u64,
    /// Last epoch this preference was counted.
    pub last_counted_epoch: u64,
}

/// The position fields that the check reads.
#[derive(Clone, Copy, Debug, PartialEq, Eq)]
pub struct PositionView {
    pub owner: Address,
    pub collateral_mint: Address,
    /// Recorded collateral: the weight a countable preference adds.
    pub ink: u64,
    /// Counter bumped on every change of the recorded collateral.
    pub ink_nonce: u64,
}

/// Whether the preference counts in `epoch`: the right mint, the same owner, an unchanged nonce, past the
/// delay, and not counted in this epoch yet.
pub open spec fn counts(
    pref: PreferenceView,
    pos: PositionView,
    fusol_mint: Address,
    epoch: u64,
) -> bool {
    &&& pos.collateral_mint@ == fusol_mint@
    &&& pos.owner@ == pref.owner@
    &&& pos.ink_nonce == pref.observed_ink_nonce
    &&& epoch >= pref.eligible_from_epoch
    &&& pref.last_counted_epoch != epoch
}

/// Whether two addresses hold the same bytes.
fn same_address(a: &Address, b: &Address) -> (r: bool)
    ensures
        r == (a@ == b@),
{
    let mut i: usize = 0;
    while i < 32
        invariant
            i <= 32,
            forall|k: int| 0 <= k < i ==> #[trigger] a@[k] == b@[k],
        decreases 32 - i,
    {
        if a[i] != b[i] {
            assert(a@[i as int] != b@[i as int]);
            return false;
        }
        i = i + 1;
    }
    assert(a@ =~= b@);
    true
}

/// Is this preference countable for `current_epoch`?
#[inline]
pub fn countable(
    pref: &PreferenceView,
    pos: &PositionView,
    fusol_mint: &Address,
    current_epoch: u64,
) -> (r: bool)
    ensures
        r == counts(*pref, *pos, *fusol_mint, current_epoch),
{
    same_address(&pos.collateral_mint, fusol_mint) && same_address(&pos.owner, &pref.owner)
        && pos.ink_nonce == pref.observed_ink_nonce && current_epoch >= pref.eligible_from_epoch
        && pref.last_counted_epoch != current_epoch
}

// Laws.

/// A preference counts exactly where nothing stands against it: byte for byte the right mint and the
/// same owner, the nonce of the last sync, an epoch from the eligible one on, and another one than was
/// counted last.
pub proof fn law_counts_exactly_in_sync(
    pref: PreferenceView,
    pos: PositionView,
    fusol_mint: Address,
    epoch: u64,
)
    ensures
        !counts(pref, pos, fusol_mint, epoch) <==> (exists|i: int|
            0 <= i < 32 && (#[trigger] pos.collateral_mint@[i] != fusol_mint@[i])) || (exists|i: int|
            0 <= i < 32 && (#[trigger] pos.owner@[i] != pref.owner@[i])) || pos.ink_nonce
            != pref.observed_ink_nonce || epoch < pref.eligible_from_epoch || epoch
            == pref.last_counted_epoch,
{
    if forall|i: int| 0 <= i < 32 ==> (#[trigger] pos.collateral_mint@[i] == fusol_mint@[i]) {
        assert(pos.collateral_mint@ =~= fusol_mint@);
    }
    if forall|i: int| 0 <= i < 32 ==> (#[trigger] pos.owner@[i] == pref.owner@[i]) {
        assert(pos.owner@ =~= pref.owner@);
    }
}

/// A preference in sync counts once in every epoch from the eligible one on: counted in one, it counts
/// again in the next.
pub proof fn law_counts_once_in_every_epoch(
    pref: PreferenceView,
    pos: PositionView,
    fusol_mint: Address,
    epoch: u64,
)
    requires
        counts(pref, pos, fusol_mint, epoch),
        epoch < u64::MAX,
    ensures
        !counts(PreferenceView { last_counted_epoch: epoch, ..pref }, pos, fusol_mint, epoch),
        counts(
            PreferenceView { last_counted_epoch: epoch, ..pref },
            pos,
            fusol_mint,
            (epoch + 1) as u64,
        ),
{
}

/// One count per epoch: once counted in an epoch, a preference does not count in it again.
pub proof fn law_one_count_per_epoch(
    pref: PreferenceView,
    pos: PositionView,
    fusol_mint: Address,
    epoch: u64,
)
    ensures
        !counts(PreferenceView { last_counted_epoch: epoch, ..pref }, pos, fusol_mint, epoch),
{
}

/// A change takes effect one epoch later: resynced in an epoch, a preference does not count in it.
pub proof fn law_resync_is_delayed(
    pref: PreferenceView,
    pos: PositionView,
    fusol_mint: Address,
    epoch: u64,
)
    requires
        pref.eligible_from_epoch == epoch + 1,
    ensures
        !counts(pref, pos, fusol_mint, epoch),
{
}

/// Any change of the nonce since the last sync takes all influence away.
pub proof fn law_changed_nonce_never_counts(
    pref: PreferenceView,
    pos: PositionView,
    fusol_mint: Address,
    epoch: u64,
)
    requires
        pos.ink_nonce != pref.observed_ink_nonce,
    ensures
        !counts(pref, pos, fusol_mint, epoch),
{
}

/// How much collateral a position holds does not matter for whether it counts.
pub proof fn law_weight_does_not_matter(
    pref: PreferenceView,
    pos: PositionView,
    fusol_mint: Address,
    epoch: u64,
    ink: u64,
)
    ensures
        counts(pref, pos, fusol_mint, epoch) == counts(
            pref,
            PositionView { ink, ..pos },
            fusol_mint,
            epoch,
        ),
{
}

} // verus!
