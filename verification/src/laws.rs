//! Laws of the library, each stated as a public proof function and proved
//! from the contracts and invariants of the modules themselves.

use vstd::prelude::*;
use crate::rewards::{
    RewardsDistributionByToken, RewardsEngine, WEIGHT_TOTAL, pool_current, pool_delta, user_delta,
    valid_distribution, weights_total,
};
use crate::orchestrator::Orchestrator;
use crate::staking::{
    ContractError, MAX_CLAIMS, StakeLedger, or_zero, sum_balances_at, unstake_outcome,
};
use crate::types::BlockInfo;

verus! {

/// At every height, a well-formed ledger's recorded total equals the sum of
/// every account's recorded balance in force at that height.
pub proof fn lemma_total_matches_balance_sum(l: StakeLedger, h: u64)
    requires
        l.wf(),
    ensures
        sum_balances_at(l.balances.entries@, h) == or_zero(l.total.value_at(h)),
{
}

/// With no unstaking duration configured, an unstake of the amount just
/// staked is accepted: every check of the unstake path passes on the
/// post-stake state. The anti-saturation guard asks that twice the staked
/// total stays below the numeric maximum, and the ledger must hold enough
/// bank balance to pay the amount back.
pub proof fn lemma_round_trip_unstake_succeeds(
    l0: StakeLedger,
    l1: StakeLedger,
    sender: u64,
    amount: u128,
    block: BlockInfo,
    contract_balance: u128,
)
    requires
        l0.wf(),
        l1.wf(),
        amount > 0,
        l1.config.unstaking_duration is None,
        contract_balance >= amount,
        l1.total_current() + amount < u128::MAX,
        l1.total_current() == l0.total_current() + amount,
        l1.balance_current(sender) == l0.balance_current(sender) + amount,
    ensures
        unstake_outcome(l1, sender, amount, block, contract_balance) is Ok,
{
    assert(l1.balance_current(sender) >= amount);
    assert(l1.balances.current(sender) is Some);
    assert(l1.balances.contains_key(sender));
}

/// Stake then unstake of the same amount, with no duration configured,
/// returns the ledger to its pre-stake balances: every current balance, the
/// current total, every balance in force below the block's height, and the
/// pending claims are as they were. The transfer instruction the unstake
/// returns hands the caller's bank balance back as well.
pub proof fn lemma_round_trip_restores(
    l0: StakeLedger,
    l1: StakeLedger,
    l2: StakeLedger,
    sender: u64,
    amount: u128,
    height: u64,
)
    requires
        l1.total_current() == l0.total_current() + amount,
        l1.balance_current(sender) == l0.balance_current(sender) + amount,
        forall|a: u64| a != sender ==> l1.balance_current(a) == l0.balance_current(a),
        forall|a: u64, h: u64| h < height ==> l1.balance_at(a, h) == l0.balance_at(a, h),
        forall|h: u64| h < height ==> l1.total.value_at(h) == l0.total.value_at(h),
        l1.claims == l0.claims,
        l2.total_current() == l1.total_current() - amount,
        l2.balance_current(sender) == l1.balance_current(sender) - amount,
        forall|a: u64| a != sender ==> l2.balance_current(a) == l1.balance_current(a),
        forall|a: u64, h: u64| h < height ==> l2.balance_at(a, h) == l1.balance_at(a, h),
        forall|h: u64| h < height ==> l2.total.value_at(h) == l1.total.value_at(h),
        l2.claims == l1.claims,
    ensures
        l2.total_current() == l0.total_current(),
        l2.balance_current(sender) == l0.balance_current(sender),
        forall|a: u64| a != sender ==> l2.balance_current(a) == l0.balance_current(a),
        forall|a: u64, h: u64| h < height ==> l2.balance_at(a, h) == l0.balance_at(a, h),
        forall|h: u64| h < height ==> l2.total.value_at(h) == l0.total.value_at(h),
        l2.claims == l0.claims,
{
}

/// Distribution is linear: running the same distribution twice, with the
/// same attached amount and no stake changes in between, accrues exactly
/// twice the one-run delta to every pool and every user's debt.
pub proof fn lemma_distribution_linearity(
    en0: RewardsEngine,
    en1: RewardsEngine,
    en2: RewardsEngine,
    orch: Orchestrator,
    ledgers: Seq<StakeLedger>,
    amount: u128,
)
    requires
        en1.config == en0.config,
        en2.config == en1.config,
        en1.pools@.len() == en0.pools@.len(),
        en2.pools@.len() == en1.pools@.len(),
        forall|i: int|
            0 <= i < en0.pools@.len() ==> (#[trigger] en1.pools@[i]).token == en0.pools@[i].token,
        forall|i: int|
            0 <= i < en1.pools@.len() ==> (#[trigger] en2.pools@[i]).token == en1.pools@[i].token,
        forall|i: int|
            0 <= i < en0.pools@.len() ==> pool_current(
                en1.pools@,
                (#[trigger] en0.pools@[i]).token.denom@,
            ) == pool_current(en0.pools@, en0.pools@[i].token.denom@) + pool_delta(
                amount,
                en0.config.rewards_distribution@,
                en0.pools@[i].token.denom@,
            ),
        forall|i: int|
            0 <= i < en1.pools@.len() ==> pool_current(
                en2.pools@,
                (#[trigger] en1.pools@[i]).token.denom@,
            ) == pool_current(en1.pools@, en1.pools@[i].token.denom@) + pool_delta(
                amount,
                en1.config.rewards_distribution@,
                en1.pools@[i].token.denom@,
            ),
        forall|a: u64|
            en1.user_debt(a) == en0.user_debt(a) + user_delta(
                orch,
                ledgers,
                amount,
                en0.config.rewards_distribution@,
                a,
            ),
        forall|a: u64|
            en2.user_debt(a) == en1.user_debt(a) + user_delta(
                orch,
                ledgers,
                amount,
                en1.config.rewards_distribution@,
                a,
            ),
    ensures
        forall|a: u64|
            en2.user_debt(a) == en0.user_debt(a) + 2 * user_delta(
                orch,
                ledgers,
                amount,
                en0.config.rewards_distribution@,
                a,
            ),
        forall|i: int|
            0 <= i < en0.pools@.len() ==> pool_current(
                en2.pools@,
                (#[trigger] en0.pools@[i]).token.denom@,
            ) == pool_current(en0.pools@, en0.pools@[i].token.denom@) + 2 * pool_delta(
                amount,
                en0.config.rewards_distribution@,
                en0.pools@[i].token.denom@,
            ),
{
    assert(en1.config.rewards_distribution@ == en0.config.rewards_distribution@);
    assert forall|i: int|
        0 <= i < en0.pools@.len() implies pool_current(
        en2.pools@,
        (#[trigger] en0.pools@[i]).token.denom@,
    ) == pool_current(en0.pools@, en0.pools@[i].token.denom@) + 2 * pool_delta(
        amount,
        en0.config.rewards_distribution@,
        en0.pools@[i].token.denom@,
    ) by {
        assert(en1.pools@[i].token == en0.pools@[i].token);
    }
}

/// An unstake of exactly the staked total succeeds for its sole staker,
/// while one unit more is rejected as an invalid amount — provided the
/// anti-saturation guard leaves room and the payout or claim path is open.
pub proof fn lemma_unstake_boundary(
    l: StakeLedger,
    sender: u64,
    block: BlockInfo,
    contract_balance: u128,
)
    requires
        l.wf(),
        l.balances.contains_key(sender),
        l.balance_current(sender) == l.total_current(),
        l.total_current() > 0,
        2 * l.total_current() + 1 < u128::MAX,
        l.config.unstaking_duration is None ==> contract_balance as int >= l.total_current(),
        l.config.unstaking_duration is Some ==> l.claims.claims_of(sender).len() < MAX_CLAIMS,
    ensures
        unstake_outcome(l, sender, l.total_current() as u128, block, contract_balance) is Ok,
        unstake_outcome(l, sender, (l.total_current() + 1) as u128, block, contract_balance)
            == Err::<(), ContractError>(ContractError::InvalidUnstakeAmount {}),
{
}

/// A weight table is acceptable exactly when its weights sum to the fixed
/// total; any other sum fails validation, and the configuration entry
/// points reject it before committing anything.
pub proof fn lemma_weight_sum_enforced(d: Seq<RewardsDistributionByToken>)
    ensures
        valid_distribution(d) <==> weights_total(d) == WEIGHT_TOTAL,
{
}

} // verus!
