//! Crank reward payouts from the maintenance vault, bounded by the epoch budget and the vault balance. A
//! zero payout is a normal outcome.

use crate::stake::churn::smaller;
use vstd::prelude::*;

verus! {

/// The least of the reward, the budget, and the balance.
pub open spec fn payout_of(task_reward: u64, epoch_budget_remaining: u64, vault_balance: u64) -> u64 {
    smaller(smaller(task_reward, epoch_budget_remaining), vault_balance)
}

/// The shares paid for a crank task: `min(task_reward, epoch_budget_remaining, vault_balance)`.
#[inline]
pub fn payout(task_reward: u64, epoch_budget_remaining: u64, vault_balance: u64) -> (r: u64)
    ensures
        r == payout_of(task_reward, epoch_budget_remaining, vault_balance),
{
    let bounded: u64 = if task_reward < epoch_budget_remaining {
        task_reward
    } else {
        epoch_budget_remaining
    };
    if bounded < vault_balance {
        bounded
    } else {
        vault_balance
    }
}

/// The payout exceeds none of its three bounds, and is one of them.
pub proof fn law_payout_is_least_of_three(task_reward: u64, budget: u64, vault: u64)
    ensures
        ({
            let p = payout_of(task_reward, budget, vault);
            &&& p <= task_reward && p <= budget && p <= vault
            &&& p == task_reward || p == budget || p == vault
        }),
{
}

} // verus!
