//! The rewards engine: distributes externally supplied reward tokens across
//! registered denominations by static weight, accrues per-user claimable
//! rewards proportional to stake share, and settles claims.
//!
//! Bookkeeping invariants: each user's `reward_debt` equals the sum of that
//! user's per-denomination records, and each pool's undistributed total
//! covers everything recorded for its denomination across all users.

use vstd::prelude::*;
use crate::orchestrator::{Orchestrator, ledgers_wf};
use crate::snapmap::{SnapEntry, SnapshotMap, lemma_map_index_unique};
use crate::snapshot::{Changelog, lemma_current_in_force};
use crate::staking::{
    StakeLedger, StakerBalanceResponse, lemma_count_le_at_key, lemma_sum_current_take_le, or_zero,
    page_len, page_start, sum_balances_current,
};
use crate::types::{BankSend, Coin, TokenDenom};

verus! {

/// Weights are parts of this fixed total.
pub const WEIGHT_TOTAL: u64 = 100_000;

/// Page size used when listing stakers through the orchestrator.
pub const STAKERS_LIMIT: u32 = 1000;

#[derive(PartialEq, Eq, Debug)]
pub enum ContractError {
    /// The caller is not the owner of the engine.
    NotOwner {},
    /// The distribution weights do not sum to the fixed total.
    InvalidRewardsDistribution { total_weight: u64 },
    /// No reward-token funds were attached.
    NoRewardsToDistribute {},
    /// The caller has no accrued rewards.
    NoRewardsToClaim {},
    /// Checked arithmetic over- or underflowed.
    Overflow {},
    /// A per-staker division met a zero total stake.
    DivideByZero {},
    /// No pool or registration exists for this denomination.
    NotFound { denom: String },
    /// The caller has no recorded state.
    UserNotFound {},
}

/// One denomination's share of every distribution.
#[derive(Debug)]
pub struct RewardsDistributionByToken {
    pub denom: TokenDenom,
    pub weight: u64,
}

#[derive(Debug)]
pub struct Config {
    pub staking_orchestrator_addr: u64,
    pub reward_token: TokenDenom,
    pub rewards_distribution: Vec<RewardsDistributionByToken>,
}

/// The amount recorded for one denomination within a user's state.
#[derive(PartialEq, Eq, Debug, Clone, Copy)]
pub struct RewardsRecord {
    pub rewards: u128,
}

/// One denomination's entry in a user's per-denomination records.
#[derive(Debug)]
pub struct DenomRewards {
    pub denom: String,
    pub record: RewardsRecord,
}

/// A user's accrued rewards: the aggregate debt, the height of the last
/// claim, and the per-denomination breakdown the claim settles against.
#[derive(Debug)]
pub struct UserState {
    pub reward_debt: u128,
    pub last_claim_block_height: u64,
    pub rewards_data: Vec<DenomRewards>,
}

/// A pool's state for one denomination: the undistributed reward total owed
/// to that denomination's stakers, as of `block_height`.
#[derive(Debug)]
pub struct PoolState {
    pub denom: TokenDenom,
    pub total_rewards: u128,
    pub block_height: u64,
}

/// A pool total keyed by its token, without the height.
#[derive(Debug)]
pub struct PoolStateByDenom {
    pub denom: TokenDenom,
    pub total_rewards: u128,
}

#[derive(Debug)]
pub struct ConfigResponse {
    pub staking_orchestrator_addr: u64,
    pub reward_token: TokenDenom,
    pub rewards_distribution: Vec<RewardsDistributionByToken>,
}

#[derive(Debug)]
pub struct PoolStateResponse {
    pub denom: TokenDenom,
    pub total_rewards: u128,
    pub block_height: u64,
}

#[derive(Debug)]
pub struct ListPoolStatesResponse {
    pub pool_states: Vec<PoolStateResponse>,
}

#[derive(Debug)]
pub struct UserStateResponse {
    pub address: u64,
    pub reward_debt: u128,
    pub rewards_data: Vec<DenomRewards>,
}

#[derive(Debug)]
pub struct AllUserStatesResponse {
    pub user_states: Vec<UserStateResponse>,
}

/// `a` and `b` record the same denominations and amounts, in order.
pub open spec fn records_match(a: Seq<DenomRewards>, b: Seq<DenomRewards>) -> bool {
    &&& a.len() == b.len()
    &&& forall|k: int|
        0 <= k < a.len() ==> (#[trigger] a[k]).denom@ == b[k].denom@ && a[k].record == b[k].record
}

/// A field-for-field copy of a user's per-denomination records.
fn dup_records(s: &Vec<DenomRewards>) -> (r: Vec<DenomRewards>)
    ensures
        records_match(r@, s@),
{
    let n = s.len();
    let mut r: Vec<DenomRewards> = Vec::new();
    let mut k: usize = 0;
    while k < n
        invariant
            k <= n == s@.len(),
            r@.len() == k,
            forall|j: int|
                0 <= j < k ==> (#[trigger] r@[j]).denom@ == s@[j].denom@ && r@[j].record
                    == s@[j].record,
        decreases n - k,
    {
        r.push(DenomRewards { denom: s[k].denom.clone(), record: s[k].record });
        k += 1;
    }
    r
}

/// One pool slot: the token and the history of its reward total.
pub struct PoolEntry {
    pub token: TokenDenom,
    pub log: Changelog<u128>,
}

// ---------------------------------------------------------------------------
// Pools
// ---------------------------------------------------------------------------

pub open spec fn pools_unique(s: Seq<PoolEntry>) -> bool {
    forall|i: int, j: int| 0 <= i < j < s.len() ==> s[i].token.denom@ != s[j].token.denom@
}

pub open spec fn contains_pool(s: Seq<PoolEntry>, d: Seq<char>) -> bool {
    exists|i: int| 0 <= i < s.len() && s[i].token.denom@ == d
}

pub open spec fn pool_index(s: Seq<PoolEntry>, d: Seq<char>) -> int {
    choose|i: int| 0 <= i < s.len() && s[i].token.denom@ == d
}

/// The undistributed total a pool currently holds; zero when the pool does
/// not exist.
pub open spec fn pool_current(s: Seq<PoolEntry>, d: Seq<char>) -> int {
    if contains_pool(s, d) {
        match s[pool_index(s, d)].log.current() {
            Some(v) => v as int,
            None => 0,
        }
    } else {
        0
    }
}

pub proof fn lemma_pool_index_unique(s: Seq<PoolEntry>, i: int)
    requires
        pools_unique(s),
        0 <= i < s.len(),
    ensures
        contains_pool(s, s[i].token.denom@),
        pool_index(s, s[i].token.denom@) == i,
{
    let d = s[i].token.denom@;
    assert(contains_pool(s, d));
    let j = pool_index(s, d);
    assert(0 <= j < s.len() && s[j].token.denom@ == d);
    if j < i {
        assert(s[j].token.denom@ != s[i].token.denom@);
    } else if j > i {
        assert(s[i].token.denom@ != s[j].token.denom@);
    }
}

/// The first coin of `denom` determines the attached amount.
pub proof fn lemma_funds_amount_first(funds: Seq<Coin>, d: Seq<char>, i: int)
    requires
        0 <= i < funds.len(),
        funds[i].denom@ == d,
        forall|x: int| 0 <= x < i ==> funds[x].denom@ != d,
    ensures
        funds_amount_of(funds, d) == funds[i].amount,
    decreases i,
{
    if i > 0 {
        assert(forall|x: int| 0 <= x < i - 1 ==> funds.skip(1)[x].denom@ != d);
        assert(funds.skip(1)[i - 1] == funds[i]);
        lemma_funds_amount_first(funds.skip(1), d, i - 1);
    }
}

/// With no matching coin, the attached amount is zero.
pub proof fn lemma_funds_amount_none(funds: Seq<Coin>, d: Seq<char>)
    requires
        forall|x: int| 0 <= x < funds.len() ==> funds[x].denom@ != d,
    ensures
        funds_amount_of(funds, d) == 0,
    decreases funds.len(),
{
    if funds.len() > 0 {
        assert(forall|x: int| 0 <= x < funds.len() - 1 ==> funds.skip(1)[x].denom@ != d);
        lemma_funds_amount_none(funds.skip(1), d);
    }
}

/// Find the first coin of `denom`, if any.
fn find_coin(funds: &Vec<Coin>, denom: &String) -> (r: Option<usize>)
    ensures
        match r {
            Some(i) => i < funds@.len() && funds@[i as int].denom@ == denom@ && (forall|x: int|
                0 <= x < i ==> funds@[x].denom@ != denom@),
            None => forall|x: int| 0 <= x < funds@.len() ==> funds@[x].denom@ != denom@,
        },
{
    let n = funds.len();
    let mut i: usize = 0;
    while i < n
        invariant
            i <= n == funds@.len(),
            forall|x: int| 0 <= x < i ==> funds@[x].denom@ != denom@,
        decreases n - i,
    {
        if funds[i].denom == *denom {
            return Some(i);
        }
        i += 1;
    }
    None
}

/// Overwrite one pool's running total at `height`, leaving every other
/// pool's value untouched.
fn bump_pool(pools: &mut Vec<PoolEntry>, pk: usize, height: u64, new_value: u128)
    requires
        pools_unique(old(pools)@),
        pk < old(pools)@.len(),
        forall|i: int| 0 <= i < old(pools)@.len() ==> (#[trigger] old(pools)@[i]).log.wf(),
        forall|i: int| 0 <= i < old(pools)@.len() ==> (#[trigger] old(pools)@[i]).log.is_written(),
        forall|i: int|
            0 <= i < old(pools)@.len() ==> (#[trigger] old(pools)@[i]).log.latest_height()
                <= height as int,
    ensures
        pools_unique(final(pools)@),
        final(pools)@.len() == old(pools)@.len(),
        forall|i: int|
            0 <= i < final(pools)@.len() ==> (#[trigger] final(pools)@[i]).token == old(
                pools,
            )@[i].token,
        forall|i: int| 0 <= i < final(pools)@.len() ==> (#[trigger] final(pools)@[i]).log.wf(),
        forall|i: int|
            0 <= i < final(pools)@.len() ==> (#[trigger] final(pools)@[i]).log.is_written(),
        forall|i: int|
            0 <= i < final(pools)@.len() ==> (#[trigger] final(pools)@[i]).log.latest_height()
                <= height as int,
        pool_current(final(pools)@, old(pools)@[pk as int].token.denom@) == new_value as int,
        forall|d: Seq<char>|
            d != old(pools)@[pk as int].token.denom@ ==> pool_current(final(pools)@, d)
                == pool_current(old(pools)@, d),
        forall|d: Seq<char>| contains_pool(final(pools)@, d) <==> contains_pool(old(pools)@, d),
{
    let mut pe = pools.remove(pk);
    pe.log.save(height, new_value);
    pools.insert(pk, pe);
    proof {
        let s0 = old(pools)@;
        let s1 = pools@;
        assert(s1 =~= s0.update(pk as int, s1[pk as int]));
        assert forall|a2: int, b: int| 0 <= a2 < b < s1.len() implies s1[a2].token.denom@
            != s1[b].token.denom@ by {
            assert(s0[a2].token.denom@ != s0[b].token.denom@);
        }
        lemma_pool_index_unique(s1, pk as int);
        assert forall|d: Seq<char>| d != s0[pk as int].token.denom@ implies pool_current(s1, d)
            == pool_current(s0, d) && (contains_pool(s1, d) <==> contains_pool(s0, d)) by {
            if contains_pool(s0, d) {
                let i = pool_index(s0, d);
                lemma_pool_index_unique(s0, i);
                assert(i != pk as int);
                assert(s1[i] == s0[i]);
                lemma_pool_index_unique(s1, i);
            } else if contains_pool(s1, d) {
                let i = pool_index(s1, d);
                lemma_pool_index_unique(s1, i);
                assert(i != pk as int);
                assert(s0[i].token.denom@ == d);
            }
        }
        lemma_pool_index_unique(s0, pk as int);
    }
}

/// Find the first record for `denom` in a user's record list, if any.
fn find_record(recs: &Vec<DenomRewards>, denom: &String) -> (r: Option<usize>)
    ensures
        match r {
            Some(i) => i < recs@.len() && recs@[i as int].denom@ == denom@,
            None => forall|x: int| 0 <= x < recs@.len() ==> recs@[x].denom@ != denom@,
        },
{
    let n = recs.len();
    let mut i: usize = 0;
    while i < n
        invariant
            i <= n == recs@.len(),
            forall|x: int| 0 <= x < i ==> recs@[x].denom@ != denom@,
        decreases n - i,
    {
        if recs[i].denom == *denom {
            return Some(i);
        }
        i += 1;
    }
    None
}

/// Find the pool for `denom`, if any.
fn find_pool(pools: &Vec<PoolEntry>, denom: &String) -> (r: Option<usize>)
    requires
        pools_unique(pools@),
    ensures
        match r {
            Some(i) => i < pools@.len() && pools@[i as int].token.denom@ == denom@
                && contains_pool(pools@, denom@) && pool_index(pools@, denom@) == i as int,
            None => !contains_pool(pools@, denom@),
        },
{
    let n = pools.len();
    let mut i: usize = 0;
    while i < n
        invariant
            i <= n == pools@.len(),
            pools_unique(pools@),
            forall|k: int| 0 <= k < i ==> pools@[k].token.denom@ != denom@,
        decreases n - i,
    {
        if pools[i].token.denom == *denom {
            proof {
                lemma_pool_index_unique(pools@, i as int);
            }
            return Some(i);
        }
        i += 1;
    }
    None
}

// ---------------------------------------------------------------------------
// Distribution weights
// ---------------------------------------------------------------------------

pub open spec fn weights_total(d: Seq<RewardsDistributionByToken>) -> int
    decreases d.len(),
{
    if d.len() == 0 {
        0
    } else {
        weights_total(d.drop_last()) + d.last().weight
    }
}

pub open spec fn valid_distribution(d: Seq<RewardsDistributionByToken>) -> bool {
    weights_total(d) == WEIGHT_TOTAL
}

/// Validates that the weights sum to the fixed total exactly.
pub fn validate_distribution(distribution: &Vec<RewardsDistributionByToken>) -> (r: Result<
    u64,
    ContractError,
>)
    requires
        weights_total(distribution@) <= u64::MAX,
    ensures
        r is Ok <==> valid_distribution(distribution@),
        r matches Ok(w) ==> w as int == weights_total(distribution@),
        r matches Err(e) ==> (e matches ContractError::InvalidRewardsDistribution {
            total_weight,
        } && total_weight as int == weights_total(distribution@)),
{
    let n = distribution.len();
    let mut total: u64 = 0;
    let mut i: usize = 0;
    while i < n
        invariant
            i <= n == distribution@.len(),
            weights_total(distribution@) <= u64::MAX,
            total as int == weights_total(distribution@.take(i as int)),
        decreases n - i,
    {
        proof {
            assert(distribution@.take(i as int + 1).drop_last() =~= distribution@.take(i as int));
            assert(distribution@.take(i as int + 1).last() == distribution@[i as int]);
            lemma_weights_take_le(distribution@, i as int + 1);
        }
        total = total + distribution[i].weight;
        i += 1;
    }
    proof {
        assert(distribution@.take(n as int) =~= distribution@);
    }
    if total != WEIGHT_TOTAL {
        return Err(ContractError::InvalidRewardsDistribution { total_weight: total });
    }
    Ok(total)
}

/// A prefix never weighs more than the whole sequence.
pub proof fn lemma_weights_take_le(s: Seq<RewardsDistributionByToken>, i: int)
    requires
        0 <= i <= s.len(),
    ensures
        weights_total(s.take(i)) <= weights_total(s),
    decreases s.len(),
{
    if i < s.len() {
        assert(s.drop_last() =~= s.take(s.len() - 1));
        lemma_weights_take_le(s.take(s.len() - 1), i);
        assert(s.take(s.len() - 1).take(i) =~= s.take(i));
    } else {
        assert(s.take(i) =~= s);
    }
}

// ---------------------------------------------------------------------------
// User records
// ---------------------------------------------------------------------------

pub open spec fn contains_record(s: Seq<DenomRewards>, d: Seq<char>) -> bool {
    exists|i: int| 0 <= i < s.len() && s[i].denom@ == d
}

pub open spec fn record_index(s: Seq<DenomRewards>, d: Seq<char>) -> int {
    choose|i: int| 0 <= i < s.len() && s[i].denom@ == d
}

/// The amount a user has recorded for denomination `d`; zero when absent.
pub open spec fn record_amount(s: Seq<DenomRewards>, d: Seq<char>) -> int {
    if contains_record(s, d) {
        s[record_index(s, d)].record.rewards as int
    } else {
        0
    }
}

/// Sum of all per-denomination amounts of one user.
pub open spec fn records_total(s: Seq<DenomRewards>) -> int
    decreases s.len(),
{
    if s.len() == 0 {
        0
    } else {
        records_total(s.drop_last()) + s.last().record.rewards
    }
}

/// A user's records are keyed uniquely, and the aggregate debt is exactly
/// their sum: the debt is derived, never independently maintained.
pub open spec fn user_state_wf(u: UserState) -> bool {
    &&& forall|i: int, j: int|
        0 <= i < j < u.rewards_data@.len() ==> u.rewards_data@[i].denom@
            != u.rewards_data@[j].denom@
    &&& u.reward_debt as int == records_total(u.rewards_data@)
}

pub proof fn lemma_records_index_unique(s: Seq<DenomRewards>, i: int)
    requires
        forall|a: int, b: int| 0 <= a < b < s.len() ==> s[a].denom@ != s[b].denom@,
        0 <= i < s.len(),
    ensures
        contains_record(s, s[i].denom@),
        record_index(s, s[i].denom@) == i,
{
    let d = s[i].denom@;
    assert(contains_record(s, d));
    let j = record_index(s, d);
    assert(0 <= j < s.len() && s[j].denom@ == d);
    if j < i {
        assert(s[j].denom@ != s[i].denom@);
    } else if j > i {
        assert(s[i].denom@ != s[j].denom@);
    }
}

pub proof fn lemma_records_total_nonneg(s: Seq<DenomRewards>)
    ensures
        records_total(s) >= 0,
    decreases s.len(),
{
    if s.len() > 0 {
        lemma_records_total_nonneg(s.drop_last());
    }
}

/// Removing one record removes exactly its amount from the total.
pub proof fn lemma_records_total_remove(s: Seq<DenomRewards>, i: int)
    requires
        0 <= i < s.len(),
    ensures
        records_total(s) == records_total(s.remove(i)) + s[i].record.rewards,
    decreases s.len(),
{
    if i == s.len() - 1 {
        assert(s.remove(i) =~= s.drop_last());
    } else {
        assert(s.remove(i).drop_last() =~= s.drop_last().remove(i));
        lemma_records_total_remove(s.drop_last(), i);
        assert(s.drop_last()[i] == s[i]);
        assert(s.remove(i).last() == s.last());
    }
}

/// No single record exceeds the user's total.
pub proof fn lemma_record_le_total(s: Seq<DenomRewards>, d: Seq<char>)
    ensures
        record_amount(s, d) <= records_total(s),
{
    if contains_record(s, d) {
        let i = record_index(s, d);
        lemma_records_total_remove(s, i);
        lemma_records_total_nonneg(s.remove(i));
    } else {
        lemma_records_total_nonneg(s);
    }
}

/// Walking a uniquely-keyed record list one entry at a time: the entry at
/// `k` is new to the prefix, and no other denomination's amount moves.
pub proof fn lemma_record_amount_take_step(s: Seq<DenomRewards>, k: int)
    requires
        forall|a: int, b: int| 0 <= a < b < s.len() ==> s[a].denom@ != s[b].denom@,
        0 <= k < s.len(),
    ensures
        record_amount(s.take(k), s[k].denom@) == 0,
        record_amount(s.take(k + 1), s[k].denom@) == s[k].record.rewards,
        forall|d: Seq<char>|
            d != s[k].denom@ ==> record_amount(s.take(k + 1), d) == record_amount(s.take(k), d),
{
    let dk = s[k].denom@;
    if contains_record(s.take(k), dk) {
        let j = record_index(s.take(k), dk);
        assert(s[j].denom@ == dk);
    }
    assert(s.take(k + 1)[k] == s[k]);
    lemma_records_index_unique(s.take(k + 1), k);
    assert forall|d: Seq<char>| d != dk implies record_amount(s.take(k + 1), d) == record_amount(
        s.take(k),
        d,
    ) by {
        if contains_record(s.take(k), d) {
            let j = record_index(s.take(k), d);
            assert(s.take(k + 1)[j] == s.take(k)[j]);
            lemma_records_index_unique(s.take(k + 1), j);
            lemma_records_index_unique(s.take(k), j);
        } else if contains_record(s.take(k + 1), d) {
            let j = record_index(s.take(k + 1), d);
            assert(j != k);
            assert(s.take(k)[j].denom@ == d);
        }
    }
}

/// Matching record lists agree on every denomination's amount.
pub proof fn lemma_record_amount_matches(a: Seq<DenomRewards>, b: Seq<DenomRewards>, d: Seq<char>)
    requires
        records_match(a, b),
        forall|i: int, j: int| 0 <= i < j < a.len() ==> a[i].denom@ != a[j].denom@,
    ensures
        record_amount(a, d) == record_amount(b, d),
{
    if contains_record(a, d) {
        let i = record_index(a, d);
        assert(b[i].denom@ == d);
        assert forall|x: int, y: int| 0 <= x < y < b.len() implies b[x].denom@ != b[y].denom@ by {
            assert(a[x].denom@ != a[y].denom@);
        }
        lemma_records_index_unique(b, i);
    } else if contains_record(b, d) {
        let i = record_index(b, d);
        assert(a[i].denom@ == d);
    }
}

/// After replacing or appending the record at `i` (its denomination fixed),
/// every other denomination's amount is unchanged.
pub proof fn lemma_records_frame(s0: Seq<DenomRewards>, s1: Seq<DenomRewards>, i: int)
    requires
        forall|a: int, b: int| 0 <= a < b < s0.len() ==> s0[a].denom@ != s0[b].denom@,
        forall|a: int, b: int| 0 <= a < b < s1.len() ==> s1[a].denom@ != s1[b].denom@,
        0 <= i < s1.len(),
        i < s0.len() ==> s1.len() == s0.len() && s0[i].denom@ == s1[i].denom@,
        i >= s0.len() ==> s1.len() == s0.len() + 1 && i == s0.len(),
        forall|j: int| 0 <= j < s1.len() && j != i ==> s1[j] == s0[j],
    ensures
        record_amount(s1, s1[i].denom@) == s1[i].record.rewards,
        forall|d: Seq<char>|
            d != s1[i].denom@ ==> record_amount(s1, d) == record_amount(s0, d),
{
    let dn = s1[i].denom@;
    lemma_records_index_unique(s1, i);
    assert forall|d: Seq<char>| d != dn implies record_amount(s1, d) == record_amount(s0, d) by {
        if contains_record(s0, d) {
            let j = record_index(s0, d);
            lemma_records_index_unique(s0, j);
            if j == i {
                assert(s0[i].denom@ == dn);
            }
            assert(j != i);
            assert(s1[j] == s0[j]);
            lemma_records_index_unique(s1, j);
        } else if contains_record(s1, d) {
            let j = record_index(s1, d);
            lemma_records_index_unique(s1, j);
            assert(j != i);
            assert(s0[j].denom@ == d);
        }
    }
}

/// The current record of one user slot; meaningful when the slot was
/// written.
pub open spec fn current_state(e: SnapEntry<UserState>) -> UserState {
    e.log.current()->0
}

// ---------------------------------------------------------------------------
// Sums over all users
// ---------------------------------------------------------------------------

/// What all users together hold recorded for denomination `d`.
pub open spec fn users_owed(s: Seq<SnapEntry<UserState>>, d: Seq<char>) -> int
    decreases s.len(),
{
    if s.len() == 0 {
        0
    } else {
        users_owed(s.drop_last(), d) + record_amount(current_state(s.last()).rewards_data@, d)
    }
}

pub proof fn lemma_users_owed_nonneg(s: Seq<SnapEntry<UserState>>, d: Seq<char>)
    ensures
        users_owed(s, d) >= 0,
    decreases s.len(),
{
    if s.len() > 0 {
        lemma_users_owed_nonneg(s.drop_last(), d);
    }
}

/// Changing only the user slot at `i` changes the owed sum by that user's
/// delta.
pub proof fn lemma_users_owed_update(
    s1: Seq<SnapEntry<UserState>>,
    s2: Seq<SnapEntry<UserState>>,
    i: int,
    d: Seq<char>,
)
    requires
        s1.len() == s2.len(),
        0 <= i < s1.len(),
        forall|j: int| 0 <= j < s1.len() && j != i ==> s1[j] == s2[j],
    ensures
        users_owed(s2, d) == users_owed(s1, d) - record_amount(
            current_state(s1[i]).rewards_data@,
            d,
        ) + record_amount(current_state(s2[i]).rewards_data@, d),
    decreases s1.len(),
{
    if i == s1.len() - 1 {
        assert(s1.drop_last() =~= s2.drop_last());
    } else {
        assert(s1.drop_last()[i] == s1[i]);
        assert(s2.drop_last()[i] == s2[i]);
        lemma_users_owed_update(s1.drop_last(), s2.drop_last(), i, d);
        assert(s1.last() == s2.last());
    }
}

/// Removing the user slot at `i` removes exactly its contribution.
pub proof fn lemma_users_owed_remove(s: Seq<SnapEntry<UserState>>, i: int, d: Seq<char>)
    requires
        0 <= i < s.len(),
    ensures
        users_owed(s, d) == users_owed(s.remove(i), d) + record_amount(
            current_state(s[i]).rewards_data@,
            d,
        ),
    decreases s.len(),
{
    if i == s.len() - 1 {
        assert(s.remove(i) =~= s.drop_last());
    } else {
        assert(s.remove(i).drop_last() =~= s.drop_last().remove(i));
        lemma_users_owed_remove(s.drop_last(), i, d);
        assert(s.drop_last()[i] == s[i]);
        assert(s.remove(i).last() == s.last());
    }
}

/// No single user's record exceeds the owed sum.
pub proof fn lemma_user_record_le_owed(s: Seq<SnapEntry<UserState>>, i: int, d: Seq<char>)
    requires
        0 <= i < s.len(),
    ensures
        record_amount(current_state(s[i]).rewards_data@, d) <= users_owed(s, d),
{
    lemma_users_owed_remove(s, i, d);
    lemma_users_owed_nonneg(s.remove(i), d);
}

/// The debt a user map currently records for `x`; zero when unrecorded.
pub open spec fn map_debt(m: SnapshotMap<UserState>, x: u64) -> int {
    match m.current(x) {
        Some(u) => u.reward_debt as int,
        None => 0,
    }
}

/// What a user map currently records for `x` under denomination `d`.
pub open spec fn map_record(m: SnapshotMap<UserState>, x: u64, d: Seq<char>) -> int {
    match m.current(x) {
        Some(u) => record_amount(u.rewards_data@, d),
        None => 0,
    }
}

/// Matching record lists have the same total.
pub proof fn lemma_records_total_matches(a: Seq<DenomRewards>, b: Seq<DenomRewards>)
    requires
        records_match(a, b),
    ensures
        records_total(a) == records_total(b),
    decreases a.len(),
{
    if a.len() > 0 {
        lemma_records_total_matches(a.drop_last(), b.drop_last());
    }
}

/// One staker's accrual step: writing `a`'s state — its debt raised by
/// `reward` and its record under `d` raised by `reward` — moves the owed
/// sum for `d` up by exactly `reward` and touches nothing else.
#[verifier::rlimit(60)]
pub proof fn lemma_distribute_staker_step(
    m0: SnapshotMap<UserState>,
    m1: SnapshotMap<UserState>,
    a: u64,
    recs_before: Seq<DenomRewards>,
    found: bool,
    target: int,
    d: Seq<char>,
    reward: u128,
    debt0: u128,
)
    requires
        m0.wf(),
        m1.wf(),
        forall|i: int| 0 <= i < m0.entries@.len() ==> user_state_wf(
            current_state(#[trigger] m0.entries@[i]),
        ),
        m1.contains_key(a),
        m0.contains_key(a) ==> {
            &&& m1.entries@.len() == m0.entries@.len()
            &&& m1.index_of(a) == m0.index_of(a)
            &&& forall|j: int|
                0 <= j < m0.entries@.len() && j != m0.index_of(a) ==> m1.entries@[j]
                    == m0.entries@[j]
            &&& m0.current(a) matches Some(u0) && u0.reward_debt == debt0 && records_match(
                recs_before,
                u0.rewards_data@,
            )
        },
        !m0.contains_key(a) ==> {
            &&& m1.entries@.len() == m0.entries@.len() + 1
            &&& 0 <= m1.index_of(a) < m1.entries@.len()
            &&& m1.entries@.remove(m1.index_of(a)) =~= m0.entries@
            &&& debt0 == 0
            &&& recs_before.len() == 0
        },
        forall|x: u64| x != a ==> (m1.contains_key(x) <==> m0.contains_key(x)),
        forall|x: u64| x != a && m0.contains_key(x) ==> m1.log_of(x) == m0.log_of(x),
        forall|i: int, jx: int|
            0 <= i < jx < recs_before.len() ==> recs_before[i].denom@ != recs_before[jx].denom@,
        found ==> 0 <= target < recs_before.len() && recs_before[target].denom@ == d,
        !found ==> forall|x: int| 0 <= x < recs_before.len() ==> recs_before[x].denom@ != d,
        debt0 + reward <= u128::MAX,
        found ==> recs_before[target].record.rewards + reward <= u128::MAX,
        m1.current(a) matches Some(u1) && u1.reward_debt as int == debt0 + reward && {
            &&& (found ==> u1.rewards_data@.len() == recs_before.len()
                && u1.rewards_data@[target].denom@ == d
                && u1.rewards_data@[target].record.rewards == recs_before[target].record.rewards
                + reward && (forall|x: int|
                0 <= x < recs_before.len() && x != target ==> u1.rewards_data@[x]
                    == recs_before[x]))
            &&& (!found ==> u1.rewards_data@.len() == recs_before.len() + 1
                && u1.rewards_data@[recs_before.len() as int].denom@ == d
                && u1.rewards_data@[recs_before.len() as int].record.rewards == reward && (
            forall|x: int| 0 <= x < recs_before.len() ==> u1.rewards_data@[x] == recs_before[x]))
        },
    ensures
        forall|i: int| 0 <= i < m1.entries@.len() ==> user_state_wf(
            current_state(#[trigger] m1.entries@[i]),
        ),
        map_debt(m1, a) == debt0 + reward,
        map_record(m1, a, d) == record_amount(recs_before, d) + reward,
        record_amount(recs_before, d) == map_record(m0, a, d),
        forall|d2: Seq<char>| d2 != d ==> map_record(m1, a, d2) == map_record(m0, a, d2),
        forall|x: u64| x != a ==> map_debt(m1, x) == map_debt(m0, x),
        forall|x: u64, d2: Seq<char>| x != a ==> map_record(m1, x, d2) == map_record(m0, x, d2),
        users_owed(m1.entries@, d) == users_owed(m0.entries@, d) + reward,
        forall|d2: Seq<char>| d2 != d ==> users_owed(m1.entries@, d2) == users_owed(m0.entries@, d2),
        forall|k2: int|
            0 <= k2 < (m1.current(a)->0).rewards_data@.len() ==> ((
            #[trigger] (m1.current(a)->0).rewards_data@[k2]).denom@ == d || contains_record(
                recs_before,
                (m1.current(a)->0).rewards_data@[k2].denom@,
            )),
{
    let u1 = m1.current(a)->0;
    let recs1 = u1.rewards_data@;
    let i1 = m1.index_of(a);
    lemma_map_index_unique(m1, i1);
    assert(current_state(m1.entries@[i1]) == u1);
    // the new record list is uniquely keyed, and its amounts follow
    if found {
        assert(forall|x: int|
            0 <= x < recs1.len() ==> (#[trigger] recs1[x]).denom@ == recs_before[x].denom@);
    }
    assert forall|x: int, y: int| 0 <= x < y < recs1.len() implies recs1[x].denom@
        != recs1[y].denom@ by {
        if found {
            assert(recs_before[x].denom@ != recs_before[y].denom@);
        } else {
            if y < recs_before.len() {
                assert(recs_before[x].denom@ != recs_before[y].denom@);
            } else {
                assert(recs1[y].denom@ == d);
                assert(recs1[x] == recs_before[x]);
            }
        }
    }
    let ti: int = if found {
        target
    } else {
        recs_before.len() as int
    };
    lemma_records_frame(recs_before, recs1, ti);
    if found {
        lemma_records_index_unique(recs_before, target);
    }
    assert(record_amount(recs1, d) == record_amount(recs_before, d) + reward);
    // total follows the debt
    if found {
        lemma_records_total_remove(recs1, target);
        lemma_records_total_remove(recs_before, target);
        assert(recs1.remove(target) =~= recs_before.remove(target));
    } else {
        assert(recs1.drop_last() =~= recs_before);
    }
    assert(records_total(recs1) == records_total(recs_before) + reward);
    if m0.contains_key(a) {
        let u0 = m0.current(a)->0;
        let i0 = m0.index_of(a);
        lemma_map_index_unique(m0, i0);
        assert(user_state_wf(current_state(m0.entries@[i0])));
        lemma_records_total_matches(recs_before, u0.rewards_data@);
        assert(user_state_wf(u1));
        assert forall|d2: Seq<char>| true implies record_amount(recs_before, d2) == record_amount(
            u0.rewards_data@,
            d2,
        ) by {
            lemma_record_amount_matches(recs_before, u0.rewards_data@, d2);
        }
        assert forall|i: int| 0 <= i < m1.entries@.len() implies user_state_wf(
            current_state(#[trigger] m1.entries@[i]),
        ) by {
            if i != i0 {
                assert(m1.entries@[i] == m0.entries@[i]);
            }
        }
        assert forall|d2: Seq<char>| true implies users_owed(m1.entries@, d2) == users_owed(
            m0.entries@,
            d2,
        ) + (if d2 == d {
            reward as int
        } else {
            0
        }) by {
            lemma_users_owed_update(m0.entries@, m1.entries@, i0, d2);
        }
    } else {
        assert(user_state_wf(u1));
        assert forall|i: int| 0 <= i < m1.entries@.len() implies user_state_wf(
            current_state(#[trigger] m1.entries@[i]),
        ) by {
            if i != i1 {
                let j = if i < i1 {
                    i
                } else {
                    i - 1
                };
                assert(m1.entries@.remove(i1)[j] == m1.entries@[i]);
                assert(m0.entries@[j] == m1.entries@[i]);
                assert(user_state_wf(current_state(m0.entries@[j])));
            }
        }
        assert(record_amount(recs_before, d) == 0);
        assert forall|d2: Seq<char>| true implies users_owed(m1.entries@, d2) == users_owed(
            m0.entries@,
            d2,
        ) + (if d2 == d {
            reward as int
        } else {
            0
        }) by {
            lemma_users_owed_remove(m1.entries@, i1, d2);
            assert(m1.entries@.remove(i1) =~= m0.entries@);
            lemma_records_frame(recs_before, recs1, ti);
        }
    }
    assert forall|x: u64| x != a implies map_debt(m1, x) == map_debt(m0, x) && (forall|
        d2: Seq<char>,
    |
        map_record(m1, x, d2) == map_record(m0, x, d2)) by {
        if m0.contains_key(x) {
            assert(m1.log_of(x) == m0.log_of(x));
        }
    }
    assert forall|k2: int| 0 <= k2 < recs1.len() implies ((#[trigger] recs1[k2]).denom@ == d
        || contains_record(recs_before, recs1[k2].denom@)) by {
        if k2 != ti {
            assert(recs1[k2] == recs_before[k2]);
            lemma_records_index_unique(recs_before, k2);
        }
    }
}

/// Some user of `m` has `d` among their per-denomination records.
pub open spec fn some_user_records(m: SnapshotMap<UserState>, d: Seq<char>) -> bool {
    exists|i: int, k: int|
        0 <= i < m.entries@.len() && 0 <= k < current_state(m.entries@[i]).rewards_data@.len()
            && current_state(m.entries@[i]).rewards_data@[k].denom@ == d
}

/// Accrue one denomination's slice across its stakers: each staker's debt
/// and record under `denom_j` grow by their stake share of `share`, rounded
/// down. What all users together gain under `denom_j` never exceeds
/// `share`: the sum of the rounded-down shares is bounded by the slice.
#[verifier::rlimit(100)]
#[verifier::spinoff_prover]
fn accrue_stakers(
    users: &mut SnapshotMap<UserState>,
    stakers: &Vec<StakerBalanceResponse>,
    denom_j: &String,
    share: u128,
    total_staked: u128,
    height: u64,
    Ghost(l): Ghost<StakeLedger>,
) -> (r: Result<(), ContractError>)
    requires
        old(users).wf(),
        forall|i: int| 0 <= i < old(users).entries@.len() ==> user_state_wf(
            current_state(#[trigger] old(users).entries@[i]),
        ),
        forall|i: int|
            0 <= i < old(users).entries@.len() ==> (
            #[trigger] old(users).entries@[i]).log.latest_height() <= height as int,
        l.wf(),
        stakers@.len() == l.balances.entries@.len(),
        forall|k: int|
            0 <= k < stakers@.len() ==> (#[trigger] stakers@[k]).address
                == l.balances.entries@[k].key && stakers@[k].balance as int == or_zero(
                l.balances.entries@[k].log.current(),
            ),
        share > 0,
        total_staked as int == l.total_current(),
        stakers@.len() > 0 ==> total_staked > 0,
    ensures
        final(users).wf(),
        forall|i: int| 0 <= i < final(users).entries@.len() ==> user_state_wf(
            current_state(#[trigger] final(users).entries@[i]),
        ),
        forall|i: int|
            0 <= i < final(users).entries@.len() ==> (
            #[trigger] final(users).entries@[i]).log.latest_height() <= height as int,
        forall|i: int, k2: int|
            0 <= i < final(users).entries@.len() && 0 <= k2 < current_state(
                final(users).entries@[i],
            ).rewards_data@.len() ==> ((#[trigger] current_state(
                final(users).entries@[i],
            ).rewards_data@[k2]).denom@ == denom_j@ || some_user_records(
                *old(users),
                current_state(final(users).entries@[i]).rewards_data@[k2].denom@,
            )),
        users_owed(final(users).entries@, denom_j@) <= users_owed(old(users).entries@, denom_j@)
            + share,
        forall|d2: Seq<char>|
            d2 != denom_j@ ==> users_owed(final(users).entries@, d2) == users_owed(
                old(users).entries@,
                d2,
            ),
        r is Err ==> exists|k: int|
            0 <= k < l.balances.entries@.len() && {
                let b = or_zero((#[trigger] l.balances.entries@[k]).log.current());
                ||| b * share > u128::MAX
                ||| map_debt(*old(users), l.balances.entries@[k].key) + b * share / (
                    total_staked as int
                ) > u128::MAX
            },
        r is Ok ==> {
            &&& forall|k: int|
                0 <= k < l.balances.entries@.len() ==> {
                    let b = or_zero((#[trigger] l.balances.entries@[k]).log.current());
                    &&& b * share <= u128::MAX
                    &&& map_debt(*old(users), l.balances.entries@[k].key) + b * share / (
                    total_staked as int) <= u128::MAX
                }
            &&& forall|a: u64|
                l.balances.contains_key(a) ==> map_debt(*final(users), a) == map_debt(
                    *old(users),
                    a,
                ) + l.balance_current(a) * share / (total_staked as int)
            &&& forall|a: u64|
                !l.balances.contains_key(a) ==> map_debt(*final(users), a) == map_debt(
                    *old(users),
                    a,
                )
            &&& forall|a: u64|
                l.balances.contains_key(a) ==> map_record(*final(users), a, denom_j@)
                    == map_record(*old(users), a, denom_j@) + l.balance_current(a) * share / (
                total_staked as int)
            &&& forall|a: u64, d2: Seq<char>|
                d2 != denom_j@ ==> map_record(*final(users), a, d2) == map_record(
                    *old(users),
                    a,
                    d2,
                )
            &&& forall|a: u64|
                !l.balances.contains_key(a) ==> map_record(*final(users), a, denom_j@)
                    == map_record(*old(users), a, denom_j@)
        },
{
    let ghost lseq = l.balances.entries@;
    let ns = stakers.len();
    let ghost mut s_r: int = 0;
    let mut k: usize = 0;
    while k < ns
        invariant
            k <= ns,
            ns == lseq.len() == stakers@.len(),
            ns > 0 ==> total_staked > 0,
            total_staked as int == l.total_current(),
            l.wf(),
            lseq == l.balances.entries@,
            forall|k2: int|
                0 <= k2 < ns ==> (#[trigger] stakers@[k2]).address == lseq[k2].key
                    && stakers@[k2].balance as int == or_zero(lseq[k2].log.current()),
            share > 0,
            old(users).wf(),
            forall|i: int| 0 <= i < old(users).entries@.len() ==> user_state_wf(
                current_state(#[trigger] old(users).entries@[i]),
            ),
            users.wf(),
            forall|i: int| 0 <= i < users.entries@.len() ==> user_state_wf(
                current_state(#[trigger] users.entries@[i]),
            ),
            forall|i: int|
                0 <= i < users.entries@.len() ==> (
                #[trigger] users.entries@[i]).log.latest_height() <= height as int,
            forall|i: int, k2: int|
                0 <= i < users.entries@.len() && 0 <= k2 < current_state(
                    users.entries@[i],
                ).rewards_data@.len() ==> ((#[trigger] current_state(
                    users.entries@[i],
                ).rewards_data@[k2]).denom@ == denom_j@ || some_user_records(
                    *old(users),
                    current_state(users.entries@[i]).rewards_data@[k2].denom@,
                )),
            users_owed(users.entries@, denom_j@) == users_owed(old(users).entries@, denom_j@)
                + s_r,
            total_staked as int * s_r <= sum_balances_current(lseq.take(k as int)) * (
            share as int),
            s_r >= 0,
            s_r <= share as int,
            forall|d2: Seq<char>|
                d2 != denom_j@ ==> users_owed(users.entries@, d2) == users_owed(
                    old(users).entries@,
                    d2,
                ),
            forall|a: u64|
                (l.balances.contains_key(a) && l.balances.index_of(a) < k as int) ==> map_debt(
                    *users,
                    a,
                ) == map_debt(*old(users), a) + l.balance_current(a) * (share as int) / (
                total_staked as int),
            forall|a: u64|
                !(l.balances.contains_key(a) && l.balances.index_of(a) < k as int) ==> map_debt(
                    *users,
                    a,
                ) == map_debt(*old(users), a),
            forall|a: u64|
                (l.balances.contains_key(a) && l.balances.index_of(a) < k as int) ==> map_record(
                    *users,
                    a,
                    denom_j@,
                ) == map_record(*old(users), a, denom_j@) + l.balance_current(a) * (share as int)
                    / (total_staked as int),
            forall|a: u64|
                !(l.balances.contains_key(a) && l.balances.index_of(a) < k as int) ==> map_record(
                    *users,
                    a,
                    denom_j@,
                ) == map_record(*old(users), a, denom_j@),
            forall|a: u64, d2: Seq<char>|
                d2 != denom_j@ ==> map_record(*users, a, d2) == map_record(*old(users), a, d2),
            forall|k2: int|
                0 <= k2 < k ==> {
                    let b = or_zero((#[trigger] lseq[k2]).log.current());
                    &&& b * share <= u128::MAX
                    &&& map_debt(*old(users), lseq[k2].key) + b * share / (total_staked as int)
                        <= u128::MAX
                },
        decreases ns - k,
    {
        let st = stakers[k];
        let reward_num = match st.balance.checked_mul(share) {
            Some(p) => p,
            None => {
                proof {
                    assert(or_zero(lseq[k as int].log.current()) * share > u128::MAX);
                    lemma_sum_current_take_le(lseq, k as int);
                    l.lemma_total_is_sum_of_currents();
                    assert(s_r <= share as int) by (nonlinear_arith)
                        requires
                            total_staked as int * s_r <= sum_balances_current(lseq.take(k as int))
                                * (share as int),
                            sum_balances_current(lseq.take(k as int)) <= total_staked as int,
                            total_staked > 0,
                            s_r >= 0,
                            share > 0,
                    ;
                }
                return Err(ContractError::Overflow {});
            },
        };
        let user_reward = reward_num / total_staked;
        proof {
            lemma_map_index_unique(l.balances, k as int);
            assert(l.balance_current(st.address) == st.balance as int);
        }
        let (debt0, lcbh, recs0) = match users.get(st.address) {
            Some(u) => (u.reward_debt, u.last_claim_block_height, dup_records(&u.rewards_data)),
            None => (0, 0, Vec::new()),
        };
        let new_debt = match debt0.checked_add(user_reward) {
            Some(v) => v,
            None => {
                proof {
                    assert(debt0 as int == map_debt(*users, st.address));
                    assert(map_debt(*old(users), st.address) + st.balance * share / (
                    total_staked as int) > u128::MAX);
                    lemma_sum_current_take_le(lseq, k as int);
                    l.lemma_total_is_sum_of_currents();
                    assert(s_r <= share as int) by (nonlinear_arith)
                        requires
                            total_staked as int * s_r <= sum_balances_current(lseq.take(k as int))
                                * (share as int),
                            sum_balances_current(lseq.take(k as int)) <= total_staked as int,
                            total_staked > 0,
                            s_r >= 0,
                            share > 0,
                    ;
                }
                return Err(ContractError::Overflow {});
            },
        };
        let mut recs = recs0;
        let ghost recs_before = recs@;
        let ri_opt = find_record(&recs, denom_j);
        let ghost found = ri_opt is Some;
        let ghost target: int = if ri_opt is Some {
            ri_opt->0 as int
        } else {
            recs_before.len() as int
        };
        match ri_opt {
            Some(ri) => {
                let mut re = recs.remove(ri);
                let new_amt = match re.record.rewards.checked_add(user_reward) {
                    Some(v) => v,
                    None => {
                        proof {
                            let u0 = users.current(st.address)->0;
                            assert(user_state_wf(u0)) by {
                                let ui = users.index_of(st.address);
                                lemma_map_index_unique(*users, ui);
                            }
                            lemma_record_le_total(u0.rewards_data@, denom_j@);
                            lemma_records_index_unique(recs_before, target);
                            lemma_record_amount_matches(recs_before, u0.rewards_data@, denom_j@);
                            assert(map_debt(*old(users), st.address) + st.balance * share / (
                            total_staked as int) > u128::MAX);
                            lemma_sum_current_take_le(lseq, k as int);
                            l.lemma_total_is_sum_of_currents();
                            assert(s_r <= share as int) by (nonlinear_arith)
                                requires
                                    total_staked as int * s_r <= sum_balances_current(
                                        lseq.take(k as int),
                                    ) * (share as int),
                                    sum_balances_current(lseq.take(k as int))
                                        <= total_staked as int,
                                    total_staked > 0,
                                    s_r >= 0,
                                    share > 0,
                            ;
                        }
                        return Err(ContractError::Overflow {});
                    },
                };
                re.record = RewardsRecord { rewards: new_amt };
                recs.insert(ri, re);
            },
            None => {
                recs.push(
                    DenomRewards {
                        denom: denom_j.clone(),
                        record: RewardsRecord { rewards: user_reward },
                    },
                );
            },
        }
        let new_state = UserState {
            reward_debt: new_debt,
            last_claim_block_height: lcbh,
            rewards_data: recs,
        };
        let ghost users_prev = *users;
        users.save(st.address, height, new_state);
        proof {
            if users_prev.contains_key(st.address) {
                let ui0 = users_prev.index_of(st.address);
                lemma_map_index_unique(users_prev, ui0);
            }
            lemma_distribute_staker_step(
                users_prev,
                *users,
                st.address,
                recs_before,
                found,
                target,
                denom_j@,
                user_reward,
                debt0,
            );
            assert(lseq.take(k as int + 1).drop_last() =~= lseq.take(k as int));
            assert(lseq.take(k as int + 1).last() == lseq[k as int]);
            assert(sum_balances_current(lseq.take(k as int + 1)) == sum_balances_current(
                lseq.take(k as int),
            ) + st.balance);
            assert(total_staked as int * (s_r + user_reward) <= sum_balances_current(
                lseq.take(k as int + 1),
            ) * (share as int)) by (nonlinear_arith)
                requires
                    total_staked as int * s_r <= sum_balances_current(lseq.take(k as int)) * (
                    share as int),
                    user_reward as int == (st.balance as int * (share as int)) / (
                    total_staked as int),
                    total_staked > 0,
                    st.balance * share <= u128::MAX,
                    sum_balances_current(lseq.take(k as int + 1)) == sum_balances_current(
                        lseq.take(k as int),
                    ) + st.balance,
            ;
            s_r = s_r + user_reward;
            lemma_sum_current_take_le(lseq, k as int + 1);
            l.lemma_total_is_sum_of_currents();
            assert(s_r <= share as int) by (nonlinear_arith)
                requires
                    total_staked as int * s_r <= sum_balances_current(lseq.take(k as int + 1)) * (
                    share as int),
                    sum_balances_current(lseq.take(k as int + 1)) <= total_staked as int,
                    total_staked > 0,
                    s_r >= 0,
                    share > 0,
            ;
            assert forall|i: int|
                0 <= i < users.entries@.len() implies (
            #[trigger] users.entries@[i]).log.latest_height() <= height as int by {
                if users_prev.contains_key(st.address) {
                    let ui = users_prev.index_of(st.address);
                    if i != ui {
                        assert(users.entries@[i] == users_prev.entries@[i]);
                    } else {
                        assert(users.log_of(st.address).latest_height() == height as int);
                    }
                } else {
                    let ui = users.index_of(st.address);
                    if i != ui {
                        let i2 = if i < ui {
                            i
                        } else {
                            i - 1
                        };
                        assert(users.entries@.remove(ui)[i2] == users_prev.entries@[i2]);
                        assert(users.entries@[i] == users_prev.entries@[i2]);
                    } else {
                        assert(users.log_of(st.address).latest_height() == height as int);
                    }
                }
            }
            assert forall|i: int, k2: int|
                0 <= i < users.entries@.len() && 0 <= k2 < current_state(
                    users.entries@[i],
                ).rewards_data@.len() implies ((#[trigger] current_state(
                users.entries@[i],
            ).rewards_data@[k2]).denom@ == denom_j@ || some_user_records(
                *old(users),
                current_state(users.entries@[i]).rewards_data@[k2].denom@,
            )) by {
                let ui = users.index_of(st.address);
                lemma_map_index_unique(*users, ui);
                if i == ui {
                    let dd = current_state(users.entries@[i]).rewards_data@[k2].denom@;
                    if dd != denom_j@ {
                        assert(contains_record(recs_before, dd));
                        let k0 = record_index(recs_before, dd);
                        assert(users_prev.contains_key(st.address));
                        let ui0 = users_prev.index_of(st.address);
                        lemma_map_index_unique(users_prev, ui0);
                        assert(current_state(users_prev.entries@[ui0]).rewards_data@[k0].denom@
                            == dd);
                    }
                } else {
                    if users_prev.contains_key(st.address) {
                        assert(users.entries@[i] == users_prev.entries@[i]);
                    } else {
                        let i2 = if i < ui {
                            i
                        } else {
                            i - 1
                        };
                        assert(users.entries@.remove(ui)[i2] == users_prev.entries@[i2]);
                        assert(users.entries@[i] == users_prev.entries@[i2]);
                    }
                }
            }
            assert forall|a: u64|
                (l.balances.contains_key(a) && l.balances.index_of(a) < k as int + 1) implies
                map_debt(*users, a) == map_debt(*old(users), a) + l.balance_current(a) * (
            share as int) / (total_staked as int) by {
                let ia = l.balances.index_of(a);
                lemma_map_index_unique(l.balances, ia);
                if a != st.address {
                    assert(ia != k as int);
                }
            }
            assert forall|a: u64|
                (l.balances.contains_key(a) && l.balances.index_of(a) < k as int + 1) implies
                map_record(*users, a, denom_j@) == map_record(*old(users), a, denom_j@)
                + l.balance_current(a) * (share as int) / (total_staked as int) by {
                let ia = l.balances.index_of(a);
                lemma_map_index_unique(l.balances, ia);
                if a != st.address {
                    assert(ia != k as int);
                }
            }
            assert forall|a: u64|
                !(l.balances.contains_key(a) && l.balances.index_of(a) < k as int + 1) implies
                map_debt(*users, a) == map_debt(*old(users), a) && map_record(*users, a, denom_j@)
                == map_record(*old(users), a, denom_j@) by {
                assert(a != st.address) by {
                    lemma_map_index_unique(l.balances, k as int);
                }
            }
            assert(or_zero(lseq[k as int].log.current()) * share <= u128::MAX);
            assert(debt0 as int == map_debt(users_prev, st.address));
            assert(map_debt(*old(users), lseq[k as int].key) + or_zero(
                lseq[k as int].log.current(),
            ) * share / (total_staked as int) <= u128::MAX);
        }
        k += 1;
    }
    proof {
        lemma_sum_current_take_le(lseq, ns as int);
        l.lemma_total_is_sum_of_currents();
        if ns > 0 {
            assert(s_r <= share as int) by (nonlinear_arith)
                requires
                    total_staked as int * s_r <= sum_balances_current(lseq.take(ns as int)) * (
                    share as int),
                    sum_balances_current(lseq.take(ns as int)) <= total_staked as int,
                    total_staked > 0,
                    s_r >= 0,
                    share > 0,
            ;
        }
        assert forall|a: u64| l.balances.contains_key(a) implies l.balances.index_of(a)
            < ns as int by {
            let ia = l.balances.index_of(a);
            lemma_map_index_unique(l.balances, ia);
        }
    }
    Ok(())
}

/// Run one distribution entry: compute its share, bump its pool, and
/// accrue every staker of its denomination, all measured against the
/// starting engine state `en0` and the prefix of entries already processed.
#[verifier::rlimit(100)]
fn distribute_entry(
    pools: &mut Vec<PoolEntry>,
    users: &mut SnapshotMap<UserState>,
    entry_denom: &String,
    entry_weight: u64,
    amount: u128,
    height: u64,
    orch: &Orchestrator,
    ledgers: &Vec<StakeLedger>,
    Ghost(en0): Ghost<RewardsEngine>,
    Ghost(jj): Ghost<int>,
) -> (r: Result<(), ContractError>)
    requires
        orch.wf(),
        orch.registry_resolves(ledgers@),
        ledgers_wf(ledgers@),
        en0.wf(),
        amount > 0,
        0 <= jj < en0.config.rewards_distribution@.len(),
        en0.config.rewards_distribution@[jj].denom.denom@ == entry_denom@,
        en0.config.rewards_distribution@[jj].weight == entry_weight,
        old(pools)@.len() == en0.pools@.len(),
        forall|i: int|
            0 <= i < old(pools)@.len() ==> (#[trigger] old(pools)@[i]).token
                == en0.pools@[i].token,
        forall|i: int| 0 <= i < old(pools)@.len() ==> (#[trigger] old(pools)@[i]).log.wf(),
        forall|i: int| 0 <= i < old(pools)@.len() ==> (#[trigger] old(pools)@[i]).log.is_written(),
        forall|i: int|
            0 <= i < old(pools)@.len() ==> (#[trigger] old(pools)@[i]).log.latest_height()
                <= height as int,
        forall|i: int|
            0 <= i < en0.pools@.len() ==> pool_current(
                old(pools)@,
                (#[trigger] en0.pools@[i]).token.denom@,
            ) == pool_current(en0.pools@, en0.pools@[i].token.denom@) + pool_delta(
                amount,
                en0.config.rewards_distribution@.take(jj),
                en0.pools@[i].token.denom@,
            ),
        old(users).wf(),
        forall|i: int| 0 <= i < old(users).entries@.len() ==> user_state_wf(
            current_state(#[trigger] old(users).entries@[i]),
        ),
        forall|i: int|
            0 <= i < old(users).entries@.len() ==> (
            #[trigger] old(users).entries@[i]).log.latest_height() <= height as int,
        forall|i: int, k: int|
            0 <= i < old(users).entries@.len() && 0 <= k < current_state(
                old(users).entries@[i],
            ).rewards_data@.len() ==> contains_pool(
                old(pools)@,
                (#[trigger] current_state(old(users).entries@[i]).rewards_data@[k]).denom@,
            ),
        forall|i: int|
            0 <= i < old(pools)@.len() ==> users_owed(
                old(users).entries@,
                (#[trigger] old(pools)@[i]).token.denom@,
            ) <= pool_current(old(pools)@, old(pools)@[i].token.denom@),
        forall|a: u64|
            map_debt(*old(users), a) == map_debt(en0.users, a) + user_delta(
                *orch,
                ledgers@,
                amount,
                en0.config.rewards_distribution@.take(jj),
                a,
            ),
        forall|a: u64, d: Seq<char>|
            map_record(*old(users), a, d) == map_record(en0.users, a, d) + user_denom_delta(
                *orch,
                ledgers@,
                amount,
                en0.config.rewards_distribution@.take(jj),
                a,
                d,
            ),
    ensures
        final(pools)@.len() == en0.pools@.len(),
        forall|i: int|
            0 <= i < final(pools)@.len() ==> (#[trigger] final(pools)@[i]).token
                == en0.pools@[i].token,
        forall|i: int| 0 <= i < final(pools)@.len() ==> (#[trigger] final(pools)@[i]).log.wf(),
        forall|i: int|
            0 <= i < final(pools)@.len() ==> (#[trigger] final(pools)@[i]).log.is_written(),
        forall|i: int|
            0 <= i < final(pools)@.len() ==> (#[trigger] final(pools)@[i]).log.latest_height()
                <= height as int,
        final(users).wf(),
        forall|i: int| 0 <= i < final(users).entries@.len() ==> user_state_wf(
            current_state(#[trigger] final(users).entries@[i]),
        ),
        forall|i: int|
            0 <= i < final(users).entries@.len() ==> (
            #[trigger] final(users).entries@[i]).log.latest_height() <= height as int,
        forall|i: int, k: int|
            0 <= i < final(users).entries@.len() && 0 <= k < current_state(
                final(users).entries@[i],
            ).rewards_data@.len() ==> contains_pool(
                final(pools)@,
                (#[trigger] current_state(final(users).entries@[i]).rewards_data@[k]).denom@,
            ),
        forall|i: int|
            0 <= i < final(pools)@.len() ==> users_owed(
                final(users).entries@,
                (#[trigger] final(pools)@[i]).token.denom@,
            ) <= pool_current(final(pools)@, final(pools)@[i].token.denom@),
        r is Err ==> !distribute_step_ok(en0, *orch, ledgers@, amount, jj),
        r is Ok ==> {
            &&& distribute_step_ok(en0, *orch, ledgers@, amount, jj)
            &&& forall|i: int|
                0 <= i < en0.pools@.len() ==> pool_current(
                    final(pools)@,
                    (#[trigger] en0.pools@[i]).token.denom@,
                ) == pool_current(en0.pools@, en0.pools@[i].token.denom@) + pool_delta(
                    amount,
                    en0.config.rewards_distribution@.take(jj + 1),
                    en0.pools@[i].token.denom@,
                )
            &&& forall|a: u64|
                map_debt(*final(users), a) == map_debt(en0.users, a) + user_delta(
                    *orch,
                    ledgers@,
                    amount,
                    en0.config.rewards_distribution@.take(jj + 1),
                    a,
                )
            &&& forall|a: u64, d: Seq<char>|
                map_record(*final(users), a, d) == map_record(en0.users, a, d)
                    + user_denom_delta(
                    *orch,
                    ledgers@,
                    amount,
                    en0.config.rewards_distribution@.take(jj + 1),
                    a,
                    d,
                )
        },
{
    let ghost dist = en0.config.rewards_distribution@;
            let product = match amount.checked_mul(entry_weight as u128) {
                Some(p) => p,
                None => {
                    proof {
                        assert(!distribute_step_ok(en0, *orch, ledgers@, amount, jj));
                    }
                    return Err(ContractError::Overflow {});
                },
            };
            let share128: u128 = product / (WEIGHT_TOTAL as u128);
            proof {
                assert(share128 as int == share_of(amount, entry_weight));
                assert(dist.take(jj + 1).drop_last() =~= dist.take(jj));
                assert(dist.take(jj + 1).last() == dist[jj]);
            }
            if share128 == 0 {
                proof {
                    assert forall|a: u64, d: Seq<char>| true implies user_denom_delta(
                        *orch,
                        ledgers@,
                        amount,
                        dist.take(jj + 1),
                        a,
                        d,
                    ) == user_denom_delta(*orch, ledgers@, amount, dist.take(jj), a, d) by {
                        assert(entry_reward(*orch, ledgers@, amount, dist[jj], a) == 0);
                    }
                    assert forall|a: u64| true implies user_delta(
                        *orch,
                        ledgers@,
                        amount,
                        dist.take(jj + 1),
                        a,
                    ) == user_delta(*orch, ledgers@, amount, dist.take(jj), a) by {
                        assert(entry_reward(*orch, ledgers@, amount, dist[jj], a) == 0);
                    }
                    assert(distribute_step_ok(en0, *orch, ledgers@, amount, jj));
                }
                return Ok(());
            }
            let denom_j = entry_denom.clone();
            let pk = match find_pool(&(*pools), &denom_j) {
                Some(p) => p,
                None => {
                    proof {
                        if contains_pool(en0.pools@, denom_j@) {
                            let pi = pool_index(en0.pools@, denom_j@);
                            lemma_pool_index_unique(en0.pools@, pi);
                            assert((*pools)@[pi].token == en0.pools@[pi].token);
                            assert(contains_pool((*pools)@, denom_j@));
                        }
                        assert(!distribute_step_ok(en0, *orch, ledgers@, amount, jj));
                    }
                    return Err(ContractError::NotFound { denom: denom_j });
                },
            };
            let pool0_val = match (*pools)[pk].log.load() {
                Some(v) => *v,
                None => 0,
            };
            proof {
                lemma_pool_index_unique((*pools)@, pk as int);
                lemma_pool_index_unique(en0.pools@, pk as int);
                assert(contains_pool(en0.pools@, denom_j@));
                assert(pool0_val as int == pool_current(en0.pools@, denom_j@) + pool_delta(
                    amount,
                    dist.take(jj),
                    denom_j@,
                ));
            }
            let new_pool = match pool0_val.checked_add(share128) {
                Some(v) => v,
                None => {
                    proof {
                        assert(!distribute_step_ok(en0, *orch, ledgers@, amount, jj));
                    }
                    return Err(ContractError::Overflow {});
                },
            };
            let ghost pools_before = (*pools)@;
            bump_pool(pools, pk, height, new_pool);
            proof {
                lemma_pool_index_unique(pools_before, pk as int);
                assert(pool_current(pools_before, denom_j@) == pool0_val as int);
                lemma_pool_index_unique((*pools)@, pk as int);
                assert(contains_pool((*pools)@, denom_j@));
                assert(pool_current((*pools)@, denom_j@) == new_pool as int);
                assert(users_owed((*users).entries@, denom_j@) <= pool0_val as int);
                assert forall|i: int|
                    0 <= i < en0.pools@.len() implies pool_current(
                    (*pools)@,
                    (#[trigger] en0.pools@[i]).token.denom@,
                ) == pool_current(en0.pools@, en0.pools@[i].token.denom@)
                    + pool_delta(amount, dist.take(jj + 1), en0.pools@[i].token.denom@) by {
                    let di = en0.pools@[i].token.denom@;
                    if di != denom_j@ {
                        assert(pool_current((*pools)@, di) == pool_current(pools_before, di));
                    }
                }
                assert forall|i: int|
                    0 <= i < (*pools)@.len() implies users_owed(
                    (*users).entries@,
                    (#[trigger] (*pools)@[i]).token.denom@,
                ) <= pool_current((*pools)@, (*pools)@[i].token.denom@) by {
                    let di = (*pools)@[i].token.denom@;
                    assert(pools_before[i].token == (*pools)@[i].token);
                    lemma_pool_index_unique(pools_before, i);
                    assert(users_owed((*users).entries@, di) <= pool_current(pools_before, di));
                    if di != denom_j@ {
                        assert(pool_current((*pools)@, di) == pool_current(pools_before, di));
                    }
                }
            }
            let bag = match query_staking_contract_by_denom(orch, ledgers, &denom_j) {
                Ok(b) => b,
                Err(e) => {
                    proof {
                        assert(!orch.contains_denom(denom_j@));
                        assert(!distribute_step_ok(en0, *orch, ledgers@, amount, jj));
                    }
                    return Err(e);
                },
            };
            let ghost l = ledgers@[orch.registered(denom_j@).address as int];
            let ghost lseq = l.balances.entries@;
            let total_staked = bag.total_staked;
            let ns = bag.stakers.len();
            if ns > 0 && total_staked == 0 {
                proof {
                    assert(!distribute_step_ok(en0, *orch, ledgers@, amount, jj));
                }
                return Err(ContractError::DivideByZero {});
            }
            let ghost users_start = *users;
            let acc = accrue_stakers(
                users,
                &bag.stakers,
                &denom_j,
                share128,
                total_staked,
                height,
                Ghost(l),
            );
            if let Err(e) = acc {
                proof {
                    let kw = choose|kx: int|
                        0 <= kx < lseq.len() && {
                            let b = or_zero((#[trigger] lseq[kx]).log.current());
                            ||| b * share128 > u128::MAX
                            ||| map_debt(users_start, lseq[kx].key) + b * share128 / (
                                total_staked as int
                            ) > u128::MAX
                        };
                    let aw = lseq[kw].key;
                    lemma_map_index_unique(l.balances, kw);
                    assert(l.balance_current(aw) == or_zero(lseq[kw].log.current()));
                    assert(map_debt(users_start, aw) == map_debt(en0.users, aw)
                        + user_delta(*orch, ledgers@, amount, dist.take(jj), aw));
                    assert(en0.user_debt(aw) == map_debt(en0.users, aw));
                    assert(entry_reward(*orch, ledgers@, amount, dist[jj], aw) == or_zero(
                        lseq[kw].log.current(),
                    ) * (share128 as int) / (total_staked as int));
                    assert(!distribute_step_ok(en0, *orch, ledgers@, amount, jj));
                }
                return Err(e);
            }
            proof {
                assert forall|i: int|
                    0 <= i < (*pools)@.len() implies users_owed(
                    (*users).entries@,
                    (#[trigger] (*pools)@[i]).token.denom@,
                ) <= pool_current((*pools)@, (*pools)@[i].token.denom@) by {
                    let di = (*pools)@[i].token.denom@;
                    if di == denom_j@ {
                        assert(users_owed((*users).entries@, di) <= users_owed(
                            users_start.entries@,
                            di,
                        ) + share128);
                    } else {
                        assert(users_owed((*users).entries@, di) == users_owed(
                            users_start.entries@,
                            di,
                        ));
                    }
                }
                assert forall|i: int, k2: int|
                    0 <= i < (*users).entries@.len() && 0 <= k2 < current_state(
                        (*users).entries@[i],
                    ).rewards_data@.len() implies contains_pool(
                    (*pools)@,
                    (#[trigger] current_state((*users).entries@[i]).rewards_data@[k2]).denom@,
                ) by {
                    let dd = current_state((*users).entries@[i]).rewards_data@[k2].denom@;
                    if dd != denom_j@ {
                        assert(some_user_records(users_start, dd));
                        let (i0, k0): (int, int) = choose|i0: int, k0: int|
                            0 <= i0 < users_start.entries@.len() && 0 <= k0 < current_state(
                                users_start.entries@[i0],
                            ).rewards_data@.len() && current_state(
                                users_start.entries@[i0],
                            ).rewards_data@[k0].denom@ == dd;
                        assert(contains_pool(
                            (*pools)@,
                            current_state(users_start.entries@[i0]).rewards_data@[k0].denom@,
                        ));
                    }
                }
                assert forall|a: u64| true implies map_debt((*users), a) == map_debt(
                    en0.users,
                    a,
                ) + user_delta(*orch, ledgers@, amount, dist.take(jj + 1), a) by {
                    assert(map_debt(users_start, a) == map_debt(en0.users, a) + user_delta(
                        *orch,
                        ledgers@,
                        amount,
                        dist.take(jj),
                        a,
                    ));
                    if l.balances.contains_key(a) {
                        assert(entry_reward(*orch, ledgers@, amount, dist[jj], a)
                            == l.balance_current(a) * (share128 as int) / (total_staked as int));
                    } else {
                        assert(l.balance_current(a) == 0);
                        assert(entry_reward(*orch, ledgers@, amount, dist[jj], a) == 0);
                    }
                }
                assert forall|a: u64, d: Seq<char>| true implies map_record((*users), a, d)
                    == map_record(en0.users, a, d) + user_denom_delta(
                    *orch,
                    ledgers@,
                    amount,
                    dist.take(jj + 1),
                    a,
                    d,
                ) by {
                    assert(map_record(users_start, a, d) == map_record(en0.users, a, d)
                        + user_denom_delta(*orch, ledgers@, amount, dist.take(jj), a, d));
                    if d == denom_j@ {
                        if l.balances.contains_key(a) {
                            assert(entry_reward(*orch, ledgers@, amount, dist[jj], a)
                                == l.balance_current(a) * (share128 as int) / (
                            total_staked as int));
                        } else {
                            assert(l.balance_current(a) == 0);
                            assert(entry_reward(*orch, ledgers@, amount, dist[jj], a) == 0);
                        }
                    }
                }
                assert(distribute_step_ok(en0, *orch, ledgers@, amount, jj)) by {
                    assert forall|k2: int| 0 <= k2 < lseq.len() implies {
                        let b = or_zero((#[trigger] lseq[k2]).log.current());
                        &&& b * (share128 as int) <= u128::MAX
                        &&& en0.user_debt(lseq[k2].key) + user_delta(
                            *orch,
                            ledgers@,
                            amount,
                            dist.take(jj),
                            lseq[k2].key,
                        ) + entry_reward(*orch, ledgers@, amount, dist[jj], lseq[k2].key)
                            <= u128::MAX
                    } by {
                        let b = or_zero(lseq[k2].log.current());
                        lemma_map_index_unique(l.balances, k2);
                        assert(map_debt(users_start, lseq[k2].key) + b * share128 / (
                        total_staked as int) <= u128::MAX);
                        assert(map_debt(users_start, lseq[k2].key) == map_debt(
                            en0.users,
                            lseq[k2].key,
                        ) + user_delta(*orch, ledgers@, amount, dist.take(jj), lseq[k2].key));
                        assert(en0.user_debt(lseq[k2].key) == map_debt(
                            en0.users,
                            lseq[k2].key,
                        ));
                        assert(entry_reward(*orch, ledgers@, amount, dist[jj], lseq[k2].key) == b
                            * (share128 as int) / (total_staked as int));
                    }
                }
            }

    Ok(())
}

// ---------------------------------------------------------------------------
// The engine
// ---------------------------------------------------------------------------

/// The rewards engine: the distribution configuration, one snapshot-indexed
/// pool per configured denomination, and snapshot-indexed per-user states.
pub struct RewardsEngine {
    pub owner: u64,
    pub config: Config,
    pub pools: Vec<PoolEntry>,
    pub users: SnapshotMap<UserState>,
    pub last_height: u64,
}

impl RewardsEngine {
    pub open spec fn wf(self) -> bool {
        &&& pools_unique(self.pools@)
        &&& forall|i: int| 0 <= i < self.pools@.len() ==> (#[trigger] self.pools@[i]).log.wf()
        &&& forall|i: int|
            0 <= i < self.pools@.len() ==> (#[trigger] self.pools@[i]).log.is_written()
        &&& forall|i: int|
            0 <= i < self.pools@.len() ==> (#[trigger] self.pools@[i]).log.latest_height()
                <= self.last_height as int
        &&& self.users.wf()
        &&& forall|i: int|
            0 <= i < self.users.entries@.len() ==> user_state_wf(
                current_state(#[trigger] self.users.entries@[i]),
            )
        &&& forall|i: int|
            0 <= i < self.users.entries@.len() ==> (
            #[trigger] self.users.entries@[i]).log.latest_height() <= self.last_height as int
        &&& forall|i: int, k: int|
            0 <= i < self.users.entries@.len() && 0 <= k < current_state(
                self.users.entries@[i],
            ).rewards_data@.len() ==> contains_pool(
                self.pools@,
                (#[trigger] current_state(self.users.entries@[i]).rewards_data@[k]).denom@,
            )
        &&& forall|i: int|
            0 <= i < self.pools@.len() ==> users_owed(
                self.users.entries@,
                (#[trigger] self.pools@[i]).token.denom@,
            ) <= pool_current(self.pools@, self.pools@[i].token.denom@)
    }

    /// The debt a user currently carries; zero when unrecorded.
    pub open spec fn user_debt(self, account: u64) -> int {
        match self.users.current(account) {
            Some(u) => u.reward_debt as int,
            None => 0,
        }
    }

    /// What a user currently has recorded for one denomination.
    pub open spec fn user_record(self, account: u64, d: Seq<char>) -> int {
        match self.users.current(account) {
            Some(u) => record_amount(u.rewards_data@, d),
            None => 0,
        }
    }

    /// Set up a fresh engine: validates the weight table and opens a pool at
    /// zero for each configured denomination. The owner defaults to the
    /// sender.
    pub fn instantiate(
        owner: Option<u64>,
        sender: u64,
        staking_orchestrator_addr: u64,
        reward_token: TokenDenom,
        rewards_distribution: Vec<RewardsDistributionByToken>,
        height: u64,
    ) -> (r: Result<RewardsEngine, ContractError>)
        requires
            weights_total(rewards_distribution@) <= u64::MAX,
        ensures
            r is Ok <==> valid_distribution(rewards_distribution@),
            r matches Err(e) ==> (e matches ContractError::InvalidRewardsDistribution {
                total_weight,
            } && total_weight as int == weights_total(rewards_distribution@)),
            r matches Ok(en) ==> {
                &&& en.wf()
                &&& en.owner == (if owner is Some {
                    owner->0
                } else {
                    sender
                })
                &&& en.config.staking_orchestrator_addr == staking_orchestrator_addr
                &&& en.config.reward_token == reward_token
                &&& en.config.rewards_distribution == rewards_distribution
                &&& en.last_height == height
                &&& en.users.entries@.len() == 0
                &&& forall|j: int|
                    0 <= j < rewards_distribution@.len() ==> contains_pool(
                        en.pools@,
                        (#[trigger] rewards_distribution@[j]).denom.denom@,
                    ) && pool_current(en.pools@, rewards_distribution@[j].denom.denom@) == 0
                &&& forall|i: int|
                    0 <= i < en.pools@.len() ==> exists|j: int|
                        0 <= j < rewards_distribution@.len()
                            && rewards_distribution@[j].denom.denom@ == (
                        #[trigger] en.pools@[i]).token.denom@
            },
    {
        let selected_owner = match owner {
            Some(o) => o,
            None => sender,
        };
        if let Err(e) = validate_distribution(&rewards_distribution) {
            return Err(e);
        }
        let mut pools: Vec<PoolEntry> = Vec::new();
        let n = rewards_distribution.len();
        let mut j: usize = 0;
        while j < n
            invariant
                j <= n == rewards_distribution@.len(),
                pools_unique(pools@),
                forall|i: int| 0 <= i < pools@.len() ==> (#[trigger] pools@[i]).log.wf(),
                forall|i: int| 0 <= i < pools@.len() ==> (#[trigger] pools@[i]).log.is_written(),
                forall|i: int|
                    0 <= i < pools@.len() ==> (#[trigger] pools@[i]).log.latest_height()
                        == height as int,
                forall|i: int|
                    0 <= i < pools@.len() ==> (#[trigger] pools@[i]).log.current() == Some(0u128),
                forall|k: int|
                    0 <= k < j ==> contains_pool(
                        pools@,
                        (#[trigger] rewards_distribution@[k]).denom.denom@,
                    ),
                forall|i: int|
                    0 <= i < pools@.len() ==> exists|k: int|
                        0 <= k < j && rewards_distribution@[k].denom.denom@ == (
                    #[trigger] pools@[i]).token.denom@,
            decreases n - j,
        {
            let token = rewards_distribution[j].denom.duplicate();
            match find_pool(&pools, &token.denom) {
                Some(_) => {},
                None => {
                    let mut log: Changelog<u128> = Changelog::new();
                    log.save(height, 0);
                    let ghost pools0 = pools@;
                    pools.push(PoolEntry { token, log });
                    proof {
                        assert forall|a: int, b: int|
                            0 <= a < b < pools@.len() implies pools@[a].token.denom@
                            != pools@[b].token.denom@ by {
                            if b < pools0.len() {
                                assert(pools@[a] == pools0[a] && pools@[b] == pools0[b]);
                            } else {
                                assert(pools@[a] == pools0[a]);
                            }
                        }
                        lemma_pool_index_unique(pools@, pools0.len() as int);
                        assert forall|d: Seq<char>| contains_pool(pools0, d) implies contains_pool(
                            pools@,
                            d,
                        ) && pool_current(pools@, d) == pool_current(pools0, d) by {
                            let jd = pool_index(pools0, d);
                            lemma_pool_index_unique(pools0, jd);
                            assert(pools@[jd] == pools0[jd]);
                            lemma_pool_index_unique(pools@, jd);
                        }
                    }
                },
            }
            j += 1;
        }
        let engine = RewardsEngine {
            owner: selected_owner,
            config: Config {
                staking_orchestrator_addr,
                reward_token,
                rewards_distribution,
            },
            pools,
            users: SnapshotMap::new(),
            last_height: height,
        };
        proof {
            assert forall|i: int|
                0 <= i < engine.pools@.len() implies users_owed(
                engine.users.entries@,
                (#[trigger] engine.pools@[i]).token.denom@,
            ) <= pool_current(engine.pools@, engine.pools@[i].token.denom@) by {
                lemma_pool_index_unique(engine.pools@, i);
            }
        }
        Ok(engine)
    }

    /// Owner-only: update the orchestrator address, the reward token, and/or
    /// the distribution table; a replacement table must satisfy the
    /// weight-sum invariant before anything is committed.
    pub fn execute_update_config(
        &mut self,
        sender: u64,
        staking_orchestrator_addr: Option<u64>,
        reward_token: Option<TokenDenom>,
        rewards_distribution: Option<Vec<RewardsDistributionByToken>>,
    ) -> (r: Result<(), ContractError>)
        requires
            old(self).wf(),
            rewards_distribution matches Some(d) ==> weights_total(d@) <= u64::MAX,
        ensures
            final(self).wf(),
            sender != old(self).owner ==> r == Err::<(), ContractError>(ContractError::NotOwner {})
                && *final(self) == *old(self),
            sender == old(self).owner && (rewards_distribution matches Some(d)
                && !valid_distribution(d@)) ==> r is Err && *final(self) == *old(self),
            sender == old(self).owner && (rewards_distribution matches Some(d)
                ==> valid_distribution(d@)) ==> {
                &&& r is Ok
                &&& final(self).config.staking_orchestrator_addr == (
                if staking_orchestrator_addr is Some {
                    staking_orchestrator_addr->0
                } else {
                    old(self).config.staking_orchestrator_addr
                })
                &&& final(self).config.reward_token == (if reward_token is Some {
                    reward_token->0
                } else {
                    old(self).config.reward_token
                })
                &&& final(self).config.rewards_distribution
                    == (if rewards_distribution is Some {
                    rewards_distribution->0
                } else {
                    old(self).config.rewards_distribution
                })
                &&& final(self).pools == old(self).pools
                &&& final(self).users == old(self).users
                &&& final(self).last_height == old(self).last_height
                &&& final(self).owner == old(self).owner
            },
    {
        if sender != self.owner {
            return Err(ContractError::NotOwner {});
        }
        match &rewards_distribution {
            Some(distribution) => {
                if let Err(e) = validate_distribution(distribution) {
                    return Err(e);
                }
            },
            None => {},
        }
        if let Some(addr) = staking_orchestrator_addr {
            self.config.staking_orchestrator_addr = addr;
        }
        if let Some(token) = reward_token {
            self.config.reward_token = token;
        }
        if let Some(distribution) = rewards_distribution {
            self.config.rewards_distribution = distribution;
        }
        Ok(())
    }

    /// Settle the caller's accrued rewards: the full debt is paid out in the
    /// reward token, each per-denomination record is subtracted from its
    /// pool, and the caller's state is reset. The pool subtractions cannot
    /// underflow: the engine's invariant keeps every pool at or above what
    /// its users hold recorded.
    pub fn execute_claim_rewards(&mut self, sender: u64, height: u64) -> (r: Result<
        BankSend,
        ContractError,
    >)
        requires
            old(self).wf(),
            old(self).last_height <= height,
        ensures
            final(self).wf(),
            final(self).owner == old(self).owner,
            final(self).config == old(self).config,
            !old(self).users.contains_key(sender) ==> r == Err::<BankSend, ContractError>(
                ContractError::UserNotFound {},
            ) && *final(self) == *old(self),
            old(self).users.contains_key(sender) && old(self).user_debt(sender) == 0 ==> r
                == Err::<BankSend, ContractError>(ContractError::NoRewardsToClaim {})
                && *final(self) == *old(self),
            old(self).users.contains_key(sender) && old(self).user_debt(sender) > 0 ==> {
                &&& r matches Ok(b) && b.to_account == sender && b.amount as int == old(
                    self,
                ).user_debt(sender) && b.denom@ == old(self).config.reward_token.denom@
                &&& final(self).user_debt(sender) == 0
                &&& (final(self).users.current(sender) matches Some(u) && u.rewards_data@.len()
                    == 0 && u.last_claim_block_height == height)
                &&& forall|a: u64|
                    a != sender ==> final(self).users.current(a) == old(self).users.current(a)
                &&& final(self).pools@.len() == old(self).pools@.len()
                &&& forall|i: int|
                    0 <= i < old(self).pools@.len() ==> (#[trigger] final(self).pools@[i]).token
                        == old(self).pools@[i].token
                &&& forall|i: int|
                    0 <= i < old(self).pools@.len() ==> pool_current(
                        final(self).pools@,
                        (#[trigger] old(self).pools@[i]).token.denom@,
                    ) == pool_current(old(self).pools@, old(self).pools@[i].token.denom@) - old(
                        self,
                    ).user_record(sender, old(self).pools@[i].token.denom@)
                &&& final(self).last_height == height
            },
    {
        let (debt, records) = match self.users.get(sender) {
            None => {
                return Err(ContractError::UserNotFound {});
            },
            Some(u) => (u.reward_debt, dup_records(&u.rewards_data)),
        };
        if debt == 0 {
            return Err(ContractError::NoRewardsToClaim {});
        }
        let ghost uidx = self.users.index_of(sender);
        proof {
            lemma_map_index_unique(self.users, uidx);
        }
        let n = records.len();
        let mut k: usize = 0;
        while k < n
            invariant
                k <= n == records@.len(),
                old(self).wf(),
                old(self).last_height <= height,
                old(self).users.contains_key(sender),
                uidx == old(self).users.index_of(sender),
                0 <= uidx < old(self).users.entries@.len(),
                old(self).users.entries@[uidx].key == sender,
                records_match(records@, current_state(old(self).users.entries@[uidx]).rewards_data@),
                forall|a: int, b: int|
                    0 <= a < b < records@.len() ==> records@[a].denom@ != records@[b].denom@,
                forall|i: int, j: int|
                    0 <= i < records@.len() && 0 <= j < old(self).pools@.len() && (
                    #[trigger] records@[i]).denom@ == (#[trigger] old(self).pools@[j]).token.denom@
                        ==> true,
                forall|i: int|
                    0 <= i < records@.len() ==> contains_pool(
                        old(self).pools@,
                        (#[trigger] records@[i]).denom@,
                    ),
                self.users == old(self).users,
                self.owner == old(self).owner,
                self.config == old(self).config,
                self.last_height == old(self).last_height,
                self.pools@.len() == old(self).pools@.len(),
                forall|i: int|
                    0 <= i < self.pools@.len() ==> (#[trigger] self.pools@[i]).token == old(
                        self,
                    ).pools@[i].token,
                forall|i: int| 0 <= i < self.pools@.len() ==> (#[trigger] self.pools@[i]).log.wf(),
                forall|i: int|
                    0 <= i < self.pools@.len() ==> (#[trigger] self.pools@[i]).log.is_written(),
                forall|i: int|
                    0 <= i < self.pools@.len() ==> (#[trigger] self.pools@[i]).log.latest_height()
                        <= height as int,
                forall|i: int|
                    0 <= i < old(self).pools@.len() ==> pool_current(
                        self.pools@,
                        (#[trigger] old(self).pools@[i]).token.denom@,
                    ) == pool_current(old(self).pools@, old(self).pools@[i].token.denom@)
                        - record_amount(records@.take(k as int), old(self).pools@[i].token.denom@),
            decreases n - k,
        {
            let amt = records[k].record.rewards;
            let pk = match find_pool(&self.pools, &records[k].denom) {
                Some(p) => p,
                None => {
                    proof {
                        assert(contains_pool(old(self).pools@, records@[k as int].denom@));
                        let pj = pool_index(old(self).pools@, records@[k as int].denom@);
                        lemma_pool_index_unique(old(self).pools@, pj);
                        assert(self.pools@[pj].token == old(self).pools@[pj].token);
                        assert(contains_pool(self.pools@, records@[k as int].denom@));
                        assert(false);
                    }
                    return Err(ContractError::NotFound { denom: records[k].denom.clone() });
                },
            };
            let current_total = match self.pools[pk].log.load() {
                Some(t) => *t,
                None => 0,
            };
            proof {
                let dk = records@[k as int].denom@;
                let pj = pool_index(old(self).pools@, dk);
                lemma_pool_index_unique(old(self).pools@, pj);
                lemma_pool_index_unique(self.pools@, pk as int);
                assert(pk as int == pj);
                lemma_record_amount_take_step(records@, k as int);
                assert(pool_current(self.pools@, dk) == pool_current(old(self).pools@, dk));
                lemma_user_record_le_owed(old(self).users.entries@, uidx, dk);
                lemma_records_index_unique(records@, k as int);
                assert(record_amount(
                    current_state(old(self).users.entries@[uidx]).rewards_data@,
                    dk,
                ) == amt as int);
                assert(users_owed(old(self).users.entries@, dk) <= pool_current(
                    old(self).pools@,
                    dk,
                ));
                assert(amt as int <= pool_current(self.pools@, dk));
                assert(current_total as int == pool_current(self.pools@, dk));
            }
            let ghost pools_before = self.pools@;
            let mut pe = self.pools.remove(pk);
            pe.log.save(height, current_total - amt);
            self.pools.insert(pk, pe);
            proof {
                let dk = records@[k as int].denom@;
                assert(self.pools@ =~= pools_before.update(pk as int, self.pools@[pk as int]));
                assert forall|a2: int, b: int|
                    0 <= a2 < b < self.pools@.len() implies self.pools@[a2].token.denom@
                    != self.pools@[b].token.denom@ by {
                    assert(old(self).pools@[a2].token.denom@ != old(self).pools@[b].token.denom@);
                }
                lemma_record_amount_take_step(records@, k as int);
                assert forall|i: int|
                    0 <= i < old(self).pools@.len() implies pool_current(
                    self.pools@,
                    (#[trigger] old(self).pools@[i]).token.denom@,
                ) == pool_current(old(self).pools@, old(self).pools@[i].token.denom@)
                    - record_amount(
                    records@.take(k as int + 1),
                    old(self).pools@[i].token.denom@,
                ) by {
                    let di = old(self).pools@[i].token.denom@;
                    lemma_pool_index_unique(old(self).pools@, i);
                    lemma_pool_index_unique(pools_before, i);
                    lemma_pool_index_unique(self.pools@, i);
                    if i == pk as int {
                        assert(di == dk);
                        assert(pool_current(self.pools@, di) == current_total - amt);
                    } else {
                        assert(self.pools@[i] == pools_before[i]);
                        assert(di != dk);
                    }
                }
            }
            k += 1;
        }
        proof {
            assert(records@.take(n as int) =~= records@);
        }
        let empty_records: Vec<DenomRewards> = Vec::new();
        self.users.save(
            sender,
            height,
            UserState {
                reward_debt: 0,
                last_claim_block_height: height,
                rewards_data: empty_records,
            },
        );
        self.last_height = height;
        proof {
            let s0 = old(self).users.entries@;
            let s1 = self.users.entries@;
            let ghost urec = current_state(s0[uidx]).rewards_data@;
            assert(records@.take(n as int) =~= records@);
            assert forall|d: Seq<char>| true implies record_amount(records@, d) == record_amount(
                urec,
                d,
            ) by {
                lemma_record_amount_matches(records@, urec, d);
            }
            assert forall|i: int|
                0 <= i < old(self).pools@.len() implies pool_current(
                self.pools@,
                (#[trigger] old(self).pools@[i]).token.denom@,
            ) == pool_current(old(self).pools@, old(self).pools@[i].token.denom@) - old(
                self,
            ).user_record(sender, old(self).pools@[i].token.denom@) by {
                let di = old(self).pools@[i].token.denom@;
                assert(record_amount(records@, di) == record_amount(urec, di));
            }
            assert forall|i: int| 0 <= i < s1.len() implies user_state_wf(
                current_state(#[trigger] s1[i]),
            ) by {
                if i != uidx {
                    assert(s1[i] == s0[i]);
                    assert(user_state_wf(current_state(s0[i])));
                }
            }
            assert forall|a: u64| a != sender implies self.users.current(a) == old(
                self,
            ).users.current(a) by {
                assert(self.users.contains_key(a) <==> old(self).users.contains_key(a));
                if old(self).users.contains_key(a) {
                    assert(self.users.log_of(a) == old(self).users.log_of(a));
                }
            }
            assert forall|i: int|
                0 <= i < self.pools@.len() implies users_owed(
                s1,
                (#[trigger] self.pools@[i]).token.denom@,
            ) <= pool_current(self.pools@, self.pools@[i].token.denom@) by {
                let di = self.pools@[i].token.denom@;
                lemma_users_owed_update(s0, s1, uidx, di);
                assert(record_amount(current_state(s1[uidx]).rewards_data@, di) == 0);
                assert(old(self).pools@[i].token.denom@ == di);
                assert(record_amount(urec, di) == record_amount(
                    current_state(s0[uidx]).rewards_data@,
                    di,
                ));
                assert(users_owed(s0, di) <= pool_current(old(self).pools@, di));
            }
            assert forall|i: int, kk: int|
                0 <= i < s1.len() && 0 <= kk < current_state(s1[i]).rewards_data@.len() implies contains_pool(
                self.pools@,
                (#[trigger] current_state(s1[i]).rewards_data@[kk]).denom@,
            ) by {
                if i != uidx {
                    assert(s1[i] == s0[i]);
                    let d = current_state(s0[i]).rewards_data@[kk].denom@;
                    assert(contains_pool(old(self).pools@, d));
                    let pj = pool_index(old(self).pools@, d);
                    lemma_pool_index_unique(old(self).pools@, pj);
                    assert(self.pools@[pj].token == old(self).pools@[pj].token);
                }
            }
        }
        Ok(
            BankSend {
                to_account: sender,
                denom: self.config.reward_token.denom.clone(),
                amount: debt,
            },
        )
    }

    /// Distribute the attached reward funds: each configured denomination
    /// receives its weighted slice in its pool, and every staker of that
    /// denomination accrues their stake share of the slice, rounded down.
    /// Rounding dust is never distributed. On an error the platform rolls
    /// the whole transition back, so no intermediate state is promised,
    /// beyond the engine's invariants.
    #[verifier::rlimit(100)]
    pub fn execute_distribute_rewards(
        &mut self,
        funds: &Vec<Coin>,
        height: u64,
        orch: &Orchestrator,
        ledgers: &Vec<StakeLedger>,
    ) -> (r: Result<u128, ContractError>)
        requires
            old(self).wf(),
            old(self).last_height <= height,
            orch.wf(),
            orch.registry_resolves(ledgers@),
            ledgers_wf(ledgers@),
        ensures
            final(self).wf(),
            final(self).owner == old(self).owner,
            final(self).config == old(self).config,
            ({
                let amount = funds_amount_of(funds@, old(self).config.reward_token.denom@);
                let dist = old(self).config.rewards_distribution@;
                &&& (amount == 0 ==> r == Err::<u128, ContractError>(
                    ContractError::NoRewardsToDistribute {},
                ) && *final(self) == *old(self))
                &&& (r is Ok <==> amount > 0 && distribute_ok(*old(self), *orch, ledgers@, amount))
                &&& (r is Ok ==> {
                    &&& r == Ok::<u128, ContractError>(amount)
                    &&& final(self).last_height == height
                    &&& final(self).pools@.len() == old(self).pools@.len()
                    &&& forall|i: int|
                        0 <= i < old(self).pools@.len()
                            ==> (#[trigger] final(self).pools@[i]).token == old(
                            self,
                        ).pools@[i].token
                    &&& forall|i: int|
                        0 <= i < old(self).pools@.len() ==> pool_current(
                            final(self).pools@,
                            (#[trigger] old(self).pools@[i]).token.denom@,
                        ) == pool_current(old(self).pools@, old(self).pools@[i].token.denom@)
                            + pool_delta(amount, dist, old(self).pools@[i].token.denom@)
                    &&& forall|a: u64|
                        final(self).user_debt(a) == old(self).user_debt(a) + user_delta(
                            *orch,
                            ledgers@,
                            amount,
                            dist,
                            a,
                        )
                    &&& forall|a: u64, d: Seq<char>|
                        final(self).user_record(a, d) == old(self).user_record(a, d)
                            + user_denom_delta(*orch, ledgers@, amount, dist, a, d)
                })
            }),
    {
        let reward_denom = self.config.reward_token.denom.clone();
        let amount: u128 = match find_coin(funds, &reward_denom) {
            Some(i) => {
                proof {
                    lemma_funds_amount_first(funds@, reward_denom@, i as int);
                }
                funds[i].amount
            },
            None => {
                proof {
                    lemma_funds_amount_none(funds@, reward_denom@);
                }
                0
            },
        };
        if amount == 0 {
            return Err(ContractError::NoRewardsToDistribute {});
        }
        self.last_height = height;
        let ghost dist = old(self).config.rewards_distribution@;
        let nd = self.config.rewards_distribution.len();
        let mut j: usize = 0;
        while j < nd
            invariant
                j <= nd == dist.len(),
                dist == self.config.rewards_distribution@,
                self.owner == old(self).owner,
                self.config == old(self).config,
                self.last_height == height,
                old(self).wf(),
                old(self).last_height <= height,
                orch.wf(),
                orch.registry_resolves(ledgers@),
                ledgers_wf(ledgers@),
                amount > 0,
                amount == funds_amount_of(funds@, old(self).config.reward_token.denom@),
                self.pools@.len() == old(self).pools@.len(),
                forall|i: int|
                    0 <= i < self.pools@.len() ==> (#[trigger] self.pools@[i]).token == old(
                        self,
                    ).pools@[i].token,
                forall|i: int| 0 <= i < self.pools@.len() ==> (#[trigger] self.pools@[i]).log.wf(),
                forall|i: int|
                    0 <= i < self.pools@.len() ==> (#[trigger] self.pools@[i]).log.is_written(),
                forall|i: int|
                    0 <= i < self.pools@.len() ==> (#[trigger] self.pools@[i]).log.latest_height()
                        <= height as int,
                forall|i: int|
                    0 <= i < old(self).pools@.len() ==> pool_current(
                        self.pools@,
                        (#[trigger] old(self).pools@[i]).token.denom@,
                    ) == pool_current(old(self).pools@, old(self).pools@[i].token.denom@)
                        + pool_delta(amount, dist.take(j as int), old(self).pools@[i].token.denom@),
                self.users.wf(),
                forall|i: int|
                    0 <= i < self.users.entries@.len() ==> user_state_wf(
                        current_state(#[trigger] self.users.entries@[i]),
                    ),
                forall|i: int|
                    0 <= i < self.users.entries@.len() ==> (
                    #[trigger] self.users.entries@[i]).log.latest_height() <= height as int,
                forall|i: int, k: int|
                    0 <= i < self.users.entries@.len() && 0 <= k < current_state(
                        self.users.entries@[i],
                    ).rewards_data@.len() ==> contains_pool(
                        self.pools@,
                        (#[trigger] current_state(self.users.entries@[i]).rewards_data@[k]).denom@,
                    ),
                forall|i: int|
                    0 <= i < self.pools@.len() ==> users_owed(
                        self.users.entries@,
                        (#[trigger] self.pools@[i]).token.denom@,
                    ) <= pool_current(self.pools@, self.pools@[i].token.denom@),
                forall|a: u64|
                    map_debt(self.users, a) == map_debt(old(self).users, a) + user_delta(
                        *orch,
                        ledgers@,
                        amount,
                        dist.take(j as int),
                        a,
                    ),
                forall|a: u64, d: Seq<char>|
                    map_record(self.users, a, d) == map_record(old(self).users, a, d)
                        + user_denom_delta(*orch, ledgers@, amount, dist.take(j as int), a, d),
                forall|j2: int|
                    0 <= j2 < j ==> distribute_step_ok(*old(self), *orch, ledgers@, amount, j2),
            decreases nd - j,
        {
            let ghost jj = j as int;
            let entry_weight = self.config.rewards_distribution[j].weight;
            let denom_j = self.config.rewards_distribution[j].denom.denom.clone();
            let step = distribute_entry(
                &mut self.pools,
                &mut self.users,
                &denom_j,
                entry_weight,
                amount,
                height,
                orch,
                ledgers,
                Ghost(*old(self)),
                Ghost(jj),
            );
            if let Err(e) = step {
                return Err(e);
            }
            j += 1;
        }
        proof {
            assert(dist.take(nd as int) =~= dist);
            assert forall|a: u64| true implies self.user_debt(a) == old(self).user_debt(a)
                + user_delta(*orch, ledgers@, amount, dist, a) by {
                assert(map_debt(self.users, a) == map_debt(old(self).users, a) + user_delta(
                    *orch,
                    ledgers@,
                    amount,
                    dist.take(nd as int),
                    a,
                ));
            }
            assert forall|a: u64, d: Seq<char>| true implies self.user_record(a, d) == old(
                self,
            ).user_record(a, d) + user_denom_delta(*orch, ledgers@, amount, dist, a, d) by {
                assert(map_record(self.users, a, d) == map_record(old(self).users, a, d)
                    + user_denom_delta(*orch, ledgers@, amount, dist.take(nd as int), a, d));
            }
        }
        Ok(amount)
    }

    pub fn query_config(&self) -> (r: ConfigResponse)
        ensures
            r.staking_orchestrator_addr == self.config.staking_orchestrator_addr,
            r.reward_token.denom@ == self.config.reward_token.denom@,
            r.reward_token.exponent == self.config.reward_token.exponent,
            distribution_matches(r.rewards_distribution@, self.config.rewards_distribution@),
    {
        let src = &self.config.rewards_distribution;
        let n = src.len();
        let mut dist: Vec<RewardsDistributionByToken> = Vec::new();
        let mut k: usize = 0;
        while k < n
            invariant
                k <= n == src@.len(),
                dist@.len() == k,
                forall|j: int|
                    0 <= j < k ==> (#[trigger] dist@[j]).denom.denom@ == src@[j].denom.denom@
                        && dist@[j].denom.exponent == src@[j].denom.exponent && dist@[j].weight
                        == src@[j].weight,
            decreases n - k,
        {
            dist.push(
                RewardsDistributionByToken {
                    denom: src[k].denom.duplicate(),
                    weight: src[k].weight,
                },
            );
            k += 1;
        }
        ConfigResponse {
            staking_orchestrator_addr: self.config.staking_orchestrator_addr,
            reward_token: self.config.reward_token.duplicate(),
            rewards_distribution: dist,
        }
    }

    /// All pool states, in registration order, each with the height of its
    /// latest update.
    pub fn query_all_pool_states(&self) -> (r: ListPoolStatesResponse)
        requires
            self.wf(),
        ensures
            r.pool_states@.len() == self.pools@.len(),
            forall|i: int|
                0 <= i < self.pools@.len() ==> {
                    let p = #[trigger] r.pool_states@[i];
                    let e = self.pools@[i];
                    &&& p.denom.denom@ == e.token.denom@
                    &&& p.denom.exponent == e.token.exponent
                    &&& Some(p.total_rewards) == e.log.current()
                    &&& p.block_height as int == e.log.latest_height()
                },
    {
        let n = self.pools.len();
        let mut states: Vec<PoolStateResponse> = Vec::new();
        let mut i: usize = 0;
        while i < n
            invariant
                i <= n == self.pools@.len(),
                self.wf(),
                states@.len() == i,
                forall|j: int|
                    0 <= j < i ==> {
                        let p = #[trigger] states@[j];
                        let e = self.pools@[j];
                        &&& p.denom.denom@ == e.token.denom@
                        &&& p.denom.exponent == e.token.exponent
                        &&& Some(p.total_rewards) == e.log.current()
                        &&& p.block_height as int == e.log.latest_height()
                    },
            decreases n - i,
        {
            let entry = &self.pools[i];
            let last = entry.log.entry_at_height(u64::MAX);
            let (total_rewards, block_height): (u128, u64) = match last {
                Some(e) => (e.value, e.height),
                None => (0, 0),
            };
            states.push(
                PoolStateResponse { denom: entry.token.duplicate(), total_rewards, block_height },
            );
            i += 1;
        }
        ListPoolStatesResponse { pool_states: states }
    }

    /// One pool's state, at the given height or currently; an unknown
    /// denomination or a height before the pool existed is a not-found
    /// error.
    pub fn query_pool_state(&self, denom: String, block_height: Option<u64>) -> (r: Result<
        PoolStateResponse,
        ContractError,
    >)
        requires
            self.wf(),
        ensures
            !contains_pool(self.pools@, denom@) ==> (r matches Err(e) && e matches
                ContractError::NotFound { denom: d } && d@ == denom@),
            contains_pool(self.pools@, denom@) ==> {
                let e = self.pools@[pool_index(self.pools@, denom@)];
                let qh = if block_height is Some {
                    block_height->0
                } else {
                    u64::MAX
                };
                match crate::snapshot::entry_in_force(e.log.entries@, qh) {
                    Some(ce) => r matches Ok(p) && p.denom.denom@ == denom@ && p.denom.exponent
                        == e.token.exponent && p.total_rewards == ce.value && p.block_height
                        == ce.height,
                    None => (r matches Err(er) && er matches ContractError::NotFound { denom: d }
                        && d@ == denom@),
                }
            },
    {
        match find_pool(&self.pools, &denom) {
            None => Err(ContractError::NotFound { denom }),
            Some(i) => {
                let entry = &self.pools[i];
                let qh = match block_height {
                    Some(h) => h,
                    None => u64::MAX,
                };
                match entry.log.entry_at_height(qh) {
                    None => Err(ContractError::NotFound { denom }),
                    Some(ce) => Ok(
                        PoolStateResponse {
                            denom: entry.token.duplicate(),
                            total_rewards: ce.value,
                            block_height: ce.height,
                        },
                    ),
                }
            },
        }
    }

    /// All user states, ascending by address.
    pub fn query_all_user_states(&self) -> (r: AllUserStatesResponse)
        requires
            self.wf(),
        ensures
            r.user_states@.len() == self.users.entries@.len(),
            forall|i: int|
                0 <= i < self.users.entries@.len() ==> {
                    let u = #[trigger] r.user_states@[i];
                    let e = self.users.entries@[i];
                    &&& u.address == e.key
                    &&& u.reward_debt == current_state(e).reward_debt
                    &&& records_match(u.rewards_data@, current_state(e).rewards_data@)
                },
    {
        let n = self.users.entries.len();
        let mut states: Vec<UserStateResponse> = Vec::new();
        let mut i: usize = 0;
        while i < n
            invariant
                i <= n == self.users.entries@.len(),
                self.wf(),
                states@.len() == i,
                forall|j: int|
                    0 <= j < i ==> {
                        let u = #[trigger] states@[j];
                        let e = self.users.entries@[j];
                        &&& u.address == e.key
                        &&& u.reward_debt == current_state(e).reward_debt
                        &&& records_match(u.rewards_data@, current_state(e).rewards_data@)
                    },
            decreases n - i,
        {
            let entry = &self.users.entries[i];
            match entry.log.load() {
                Some(u) => {
                    states.push(
                        UserStateResponse {
                            address: entry.key,
                            reward_debt: u.reward_debt,
                            rewards_data: dup_records(&u.rewards_data),
                        },
                    );
                },
                None => {},
            }
            i += 1;
        }
        AllUserStatesResponse { user_states: states }
    }

    /// One user's state, at the given height or currently; an unknown user
    /// or a height before their first record is a not-found error.
    pub fn query_user_state(&self, address: u64, block_height: Option<u64>) -> (r: Result<
        UserStateResponse,
        ContractError,
    >)
        requires
            self.wf(),
        ensures
            ({
                let looked = match block_height {
                    None => self.users.current(address),
                    Some(h) => self.users.value_at(address, h),
                };
                match looked {
                    Some(u) => r matches Ok(resp) && resp.address == address && resp.reward_debt
                        == u.reward_debt && records_match(resp.rewards_data@, u.rewards_data@),
                    None => r == Err::<UserStateResponse, ContractError>(
                        ContractError::UserNotFound {},
                    ),
                }
            }),
    {
        let looked = match block_height {
            None => self.users.get(address),
            Some(h) => self.users.get_at_height(address, h),
        };
        match looked {
            None => Err(ContractError::UserNotFound {}),
            Some(u) => Ok(
                UserStateResponse {
                    address,
                    reward_debt: u.reward_debt,
                    rewards_data: dup_records(&u.rewards_data),
                },
            ),
        }
    }
}

// ---------------------------------------------------------------------------
// The distribution's arithmetic, stated once
// ---------------------------------------------------------------------------

/// The attached amount of `denom`: the first matching coin, or zero.
pub open spec fn funds_amount_of(funds: Seq<Coin>, denom: Seq<char>) -> u128
    decreases funds.len(),
{
    if funds.len() == 0 {
        0
    } else if funds[0].denom@ == denom {
        funds[0].amount
    } else {
        funds_amount_of(funds.skip(1), denom)
    }
}

/// One denomination's slice of a distribution: floor division over the
/// fixed weight total.
pub open spec fn share_of(amount: u128, weight: u64) -> int {
    amount * weight / (WEIGHT_TOTAL as int)
}

/// What one distribution entry accrues to account `a`: the account's stake
/// share of the entry's slice, rounded down; zero where the entry is
/// skipped or nothing is staked.
pub open spec fn entry_reward(
    orch: Orchestrator,
    ledgers: Seq<StakeLedger>,
    amount: u128,
    entry: RewardsDistributionByToken,
    a: u64,
) -> int {
    let share = share_of(amount, entry.weight);
    let d = entry.denom.denom@;
    if share == 0 || !orch.contains_denom(d) {
        0
    } else {
        let l = ledgers[orch.registered(d).address as int];
        if l.total_current() == 0 {
            0
        } else {
            l.balance_current(a) * share / l.total_current()
        }
    }
}

/// Everything a distribution prefix accrues to account `a`.
pub open spec fn user_delta(
    orch: Orchestrator,
    ledgers: Seq<StakeLedger>,
    amount: u128,
    dist: Seq<RewardsDistributionByToken>,
    a: u64,
) -> int
    decreases dist.len(),
{
    if dist.len() == 0 {
        0
    } else {
        user_delta(orch, ledgers, amount, dist.drop_last(), a) + entry_reward(
            orch,
            ledgers,
            amount,
            dist.last(),
            a,
        )
    }
}

/// What a distribution prefix accrues to account `a` under denomination `d`
/// alone.
pub open spec fn user_denom_delta(
    orch: Orchestrator,
    ledgers: Seq<StakeLedger>,
    amount: u128,
    dist: Seq<RewardsDistributionByToken>,
    a: u64,
    d: Seq<char>,
) -> int
    decreases dist.len(),
{
    if dist.len() == 0 {
        0
    } else {
        user_denom_delta(orch, ledgers, amount, dist.drop_last(), a, d) + if dist.last().denom.denom@
            == d {
            entry_reward(orch, ledgers, amount, dist.last(), a)
        } else {
            0
        }
    }
}

/// What a distribution prefix adds to the pool of denomination `d`.
pub open spec fn pool_delta(
    amount: u128,
    dist: Seq<RewardsDistributionByToken>,
    d: Seq<char>,
) -> int
    decreases dist.len(),
{
    if dist.len() == 0 {
        0
    } else {
        pool_delta(amount, dist.drop_last(), d) + if dist.last().denom.denom@ == d {
            share_of(amount, dist.last().weight)
        } else {
            0
        }
    }
}

/// Whether step `j` of the distribution can complete against the starting
/// state `en`: the share arithmetic stays in range, a pool and a registered
/// ledger exist wherever a positive share is due, no division by zero
/// arises, and no accrual can overflow.
pub open spec fn distribute_step_ok(
    en: RewardsEngine,
    orch: Orchestrator,
    ledgers: Seq<StakeLedger>,
    amount: u128,
    j: int,
) -> bool {
    let dist = en.config.rewards_distribution@;
    let entry = dist[j];
    let share = share_of(amount, entry.weight);
    let d = entry.denom.denom@;
    &&& amount * entry.weight <= u128::MAX
    &&& (share > 0 ==> {
        &&& contains_pool(en.pools@, d)
        &&& orch.contains_denom(d)
        &&& pool_current(en.pools@, d) + pool_delta(amount, dist.take(j + 1), d) <= u128::MAX
        &&& {
            let l = ledgers[orch.registered(d).address as int];
            &&& (l.balances.entries@.len() > 0 ==> l.total_current() > 0)
            &&& forall|k: int|
                0 <= k < l.balances.entries@.len() ==> or_zero(
                    (#[trigger] l.balances.entries@[k]).log.current(),
                ) * share <= u128::MAX
            &&& forall|k: int|
                0 <= k < l.balances.entries@.len() ==> en.user_debt(
                    (#[trigger] l.balances.entries@[k]).key,
                ) + user_delta(orch, ledgers, amount, dist.take(j), l.balances.entries@[k].key)
                    + entry_reward(orch, ledgers, amount, entry, l.balances.entries@[k].key)
                    <= u128::MAX
        }
    })
}

/// Whether the whole distribution can complete against `en`.
pub open spec fn distribute_ok(
    en: RewardsEngine,
    orch: Orchestrator,
    ledgers: Seq<StakeLedger>,
    amount: u128,
) -> bool {
    forall|j: int|
        0 <= j < en.config.rewards_distribution@.len() ==> distribute_step_ok(
            en,
            orch,
            ledgers,
            amount,
            j,
        )
}

/// Everything the distribution needs to know about one denomination's
/// stakers: the full ascending list and the summed stake.
pub struct StakingBag {
    pub stakers: Vec<StakerBalanceResponse>,
    pub total_staked: u128,
}

/// `out` lists every staker of the ledger, ascending by address, with their
/// current balances.
pub open spec fn bag_lists_all_stakers(l: StakeLedger, out: Seq<StakerBalanceResponse>) -> bool {
    &&& out.len() == l.balances.entries@.len()
    &&& forall|k: int|
        0 <= k < out.len() ==> (#[trigger] out[k]).address == l.balances.entries@[k].key
            && out[k].balance as int == or_zero(l.balances.entries@[k].log.current())
}

/// Collect every staker of `denom` by paging through the orchestrator's
/// listing, `STAKERS_LIMIT` at a time, until an empty page comes back; the
/// balances are summed as the total stake. The sum cannot overflow: the
/// ledger's invariant bounds it by the recorded total.
pub fn query_staking_contract_by_denom(
    orch: &Orchestrator,
    ledgers: &Vec<StakeLedger>,
    denom: &String,
) -> (r: Result<StakingBag, ContractError>)
    requires
        orch.wf(),
        orch.registry_resolves(ledgers@),
        ledgers_wf(ledgers@),
    ensures
        !orch.contains_denom(denom@) ==> (r matches Err(e) && e matches ContractError::NotFound {
            denom: d,
        } && d@ == denom@),
        orch.contains_denom(denom@) ==> {
            let l = ledgers@[orch.registered(denom@).address as int];
            &&& r matches Ok(bag)
            &&& r matches Ok(bag) ==> {
                &&& bag_lists_all_stakers(l, bag.stakers@)
                &&& bag.total_staked as int == l.total_current()
            }
        },
{
    let limit = Some(STAKERS_LIMIT);
    let first = orch.query_list_stakers_by_denom(ledgers, denom.clone(), None, limit);
    let mut acc: Vec<StakerBalanceResponse> = match first {
        Err(crate::orchestrator::ContractError::NotFound { denom: d }) => {
            return Err(ContractError::NotFound { denom: d });
        },
        Err(_) => {
            return Err(ContractError::NotFound { denom: denom.clone() });
        },
        Ok(resp) => resp.stakers,
    };
    let ghost l = ledgers@[orch.registered(denom@).address as int];
    let ghost lseq = l.balances.entries@;
    loop
        invariant
            limit == Some(STAKERS_LIMIT),
            orch.wf(),
            orch.registry_resolves(ledgers@),
            ledgers_wf(ledgers@),
            orch.contains_denom(denom@),
            l == ledgers@[orch.registered(denom@).address as int],
            lseq == l.balances.entries@,
            l.wf(),
            acc@.len() <= lseq.len(),
            forall|k: int|
                0 <= k < acc@.len() ==> (#[trigger] acc@[k]).address == lseq[k].key
                    && acc@[k].balance as int == or_zero(lseq[k].log.current()),
            acc@.len() == 0 ==> lseq.len() == 0,
        decreases lseq.len() - acc@.len(),
    {
        let m = acc.len();
        if m == 0 {
            proof {
                l.lemma_total_is_sum_of_currents();
            }
            return Ok(StakingBag { stakers: acc, total_staked: 0 });
        }
        let last_addr = acc[m - 1].address;
        proof {
            lemma_count_le_at_key(lseq, m as int - 1);
        }
        let page = match orch.query_list_stakers_by_denom(
            ledgers,
            denom.clone(),
            Some(last_addr),
            limit,
        ) {
            Err(crate::orchestrator::ContractError::NotFound { denom: d }) => {
                return Err(ContractError::NotFound { denom: d });
            },
            Err(_) => {
                return Err(ContractError::NotFound { denom: denom.clone() });
            },
            Ok(resp) => resp.stakers,
        };
        if page.len() == 0 {
            proof {
                assert(page@.len() == page_len(lseq, Some(last_addr), limit));
                assert(page_start(lseq, Some(last_addr)) == m as int);
                assert(lseq.len() == m as int);
            }
            let n = m;
            let mut total: u128 = 0;
            let mut k: usize = 0;
            while k < n
                invariant
                    k <= n == lseq.len() == acc@.len(),
                    l.wf(),
                    lseq == l.balances.entries@,
                    forall|j: int|
                        0 <= j < acc@.len() ==> (#[trigger] acc@[j]).address == lseq[j].key
                            && acc@[j].balance as int == or_zero(lseq[j].log.current()),
                    total as int == sum_balances_current(lseq.take(k as int)),
                decreases n - k,
            {
                proof {
                    assert(lseq.take(k as int + 1).drop_last() =~= lseq.take(k as int));
                    assert(lseq.take(k as int + 1).last() == lseq[k as int]);
                    lemma_sum_current_take_le(lseq, k as int + 1);
                    l.lemma_total_is_sum_of_currents();
                }
                total = total + acc[k].balance;
                k += 1;
            }
            proof {
                assert(lseq.take(n as int) =~= lseq);
                l.lemma_total_is_sum_of_currents();
            }
            return Ok(StakingBag { stakers: acc, total_staked: total });
        }
        let p = page.len();
        let mut k: usize = 0;
        while k < p
            invariant
                k <= p == page@.len(),
                acc@.len() == m + k,
                m + p <= lseq.len(),
                lseq == l.balances.entries@,
                forall|j: int|
                    0 <= j < page@.len() ==> (#[trigger] page@[j]).address == lseq[m + j].key
                        && page@[j].balance as int == or_zero(lseq[m + j].log.current()),
                forall|j: int|
                    0 <= j < acc@.len() ==> (#[trigger] acc@[j]).address == lseq[j].key
                        && acc@[j].balance as int == or_zero(lseq[j].log.current()),
            decreases p - k,
        {
            acc.push(page[k]);
            k += 1;
        }
    }
}

/// `a` and `b` carry the same denominations and weights, in order.
pub open spec fn distribution_matches(
    a: Seq<RewardsDistributionByToken>,
    b: Seq<RewardsDistributionByToken>,
) -> bool {
    &&& a.len() == b.len()
    &&& forall|k: int|
        0 <= k < a.len() ==> (#[trigger] a[k]).denom.denom@ == b[k].denom.denom@
            && a[k].denom.exponent == b[k].denom.exponent && a[k].weight == b[k].weight
}

} // verus!
