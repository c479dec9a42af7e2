//! The staking ledger for one token denomination: snapshot-indexed
//! per-account balances, a snapshot-indexed aggregate total, and pending
//! time-locked withdrawal claims.
//!
//! Core invariant: at every height, the recorded total equals the sum of all
//! recorded account balances.

use vstd::prelude::*;
use crate::claims::{Claim, Claims, matured_total, pending_after};
use crate::duration::{
    Duration, UnboundingDurationError, expiry_after, expiry_fits, valid_duration,
    validate_duration,
};
use crate::snapmap::{SnapEntry, SnapshotMap, lemma_map_index_unique};
use crate::snapshot::{Changelog, lemma_current_in_force};
use crate::types::{BankSend, BlockInfo, Coin, TokenDenom};

verus! {

/// A cap on concurrently pending claims per owner, bounding storage growth.
pub const MAX_CLAIMS: u64 = 100;

#[derive(PartialEq, Eq, Debug)]
pub enum ContractError {
    /// Checked arithmetic in the store over- or underflowed.
    Overflow {},
    /// A configured unstaking duration was invalid.
    UnboundingDurationError(UnboundingDurationError),
    NoStakeAmount {},
    InvalidDenom {},
    NoUnstakeAmount {},
    AvoidSaturationAttack {},
    InvalidUnstakeAmount {},
    TooManyClaims {},
    NothingToClaim {},
    /// The caller is not the owner of the ledger.
    NotOwner {},
}

#[derive(Debug)]
pub struct Config {
    pub staking_token: TokenDenom,
    pub unstaking_duration: Option<Duration>,
}

#[derive(Debug)]
pub struct MigrateMsg {}

#[derive(Debug)]
pub struct ConfigResponse {
    pub staking_token: TokenDenom,
    pub unstaking_duration: Option<Duration>,
}

#[derive(Debug)]
pub struct StakedBalanceAtHeightResponse {
    pub balance: u128,
    pub height: u64,
}

#[derive(Debug)]
pub struct TotalStakedAtHeightResponse {
    pub total: u128,
    pub height: u64,
}

#[derive(Clone, Copy, Debug)]
pub struct StakerBalanceResponse {
    pub address: u64,
    pub balance: u128,
}

#[derive(Debug)]
pub struct ListStakersResponse {
    pub stakers: Vec<StakerBalanceResponse>,
}

#[derive(Debug)]
pub struct ClaimsResponse {
    pub claims: Vec<Claim>,
}

pub open spec fn or_zero(v: Option<u128>) -> int {
    match v {
        Some(x) => x as int,
        None => 0,
    }
}

/// Sum of the balances recorded in `s` as in force at height `h`.
pub open spec fn sum_balances_at(s: Seq<SnapEntry<u128>>, h: u64) -> int
    decreases s.len(),
{
    if s.len() == 0 {
        0
    } else {
        sum_balances_at(s.drop_last(), h) + or_zero(s.last().log.value_at(h))
    }
}

/// Sum of the most recently recorded balances in `s`.
pub open spec fn sum_balances_current(s: Seq<SnapEntry<u128>>) -> int
    decreases s.len(),
{
    if s.len() == 0 {
        0
    } else {
        sum_balances_current(s.drop_last()) + or_zero(s.last().log.current())
    }
}

pub proof fn lemma_sum_nonneg(s: Seq<SnapEntry<u128>>, h: u64)
    ensures
        sum_balances_at(s, h) >= 0,
    decreases s.len(),
{
    if s.len() > 0 {
        lemma_sum_nonneg(s.drop_last(), h);
    }
}

/// Changing only the entry at `i` changes the sum by that entry's delta.
pub proof fn lemma_sum_update(s1: Seq<SnapEntry<u128>>, s2: Seq<SnapEntry<u128>>, i: int, h: u64)
    requires
        s1.len() == s2.len(),
        0 <= i < s1.len(),
        forall|j: int| 0 <= j < s1.len() && j != i ==> s1[j] == s2[j],
    ensures
        sum_balances_at(s2, h) == sum_balances_at(s1, h) - or_zero(s1[i].log.value_at(h))
            + or_zero(s2[i].log.value_at(h)),
    decreases s1.len(),
{
    if i == s1.len() - 1 {
        assert(s1.drop_last() =~= s2.drop_last());
    } else {
        assert(s1.drop_last()[i] == s1[i]);
        assert(s2.drop_last()[i] == s2[i]);
        lemma_sum_update(s1.drop_last(), s2.drop_last(), i, h);
        assert(s1.last() == s2.last());
    }
}

/// Removing the entry at `i` removes exactly its contribution.
pub proof fn lemma_sum_remove(s: Seq<SnapEntry<u128>>, i: int, h: u64)
    requires
        0 <= i < s.len(),
    ensures
        sum_balances_at(s, h) == sum_balances_at(s.remove(i), h) + or_zero(s[i].log.value_at(h)),
    decreases s.len(),
{
    if i == s.len() - 1 {
        assert(s.remove(i) =~= s.drop_last());
    } else {
        assert(s.remove(i).drop_last() =~= s.drop_last().remove(i));
        lemma_sum_remove(s.drop_last(), i, h);
        assert(s.drop_last()[i] == s[i]);
        assert(s.remove(i).last() == s.last());
    }
}

/// No single entry exceeds the sum.
pub proof fn lemma_sum_entry_le(s: Seq<SnapEntry<u128>>, i: int, h: u64)
    requires
        0 <= i < s.len(),
    ensures
        or_zero(s[i].log.value_at(h)) <= sum_balances_at(s, h),
{
    lemma_sum_remove(s, i, h);
    lemma_sum_nonneg(s.remove(i), h);
}

/// At a height at or beyond every slot's latest write, the sum at that
/// height is the sum of current values.
pub proof fn lemma_sum_at_high(s: Seq<SnapEntry<u128>>, h: u64)
    requires
        forall|i: int| 0 <= i < s.len() ==> (#[trigger] s[i]).log.latest_height() <= h as int,
    ensures
        sum_balances_at(s, h) == sum_balances_current(s),
    decreases s.len(),
{
    if s.len() > 0 {
        assert(s[s.len() - 1] == s.last());
        lemma_current_in_force(s.last().log, h);
        assert(forall|i: int|
            0 <= i < s.drop_last().len() ==> (#[trigger] s.drop_last()[i]).log.latest_height()
                <= h as int);
        lemma_sum_at_high(s.drop_last(), h);
    }
}

/// A prefix never sums to more than the whole sequence.
pub proof fn lemma_sum_current_take_le(s: Seq<SnapEntry<u128>>, i: int)
    requires
        0 <= i <= s.len(),
    ensures
        sum_balances_current(s.take(i)) <= sum_balances_current(s),
    decreases s.len(),
{
    if i < s.len() {
        assert(s.drop_last() =~= s.take(s.len() - 1));
        lemma_sum_current_take_le(s.take(s.len() - 1), i);
        assert(s.take(s.len() - 1).take(i) =~= s.take(i));
    } else {
        assert(s.take(i) =~= s);
    }
}

/// The staking ledger of one denomination.
pub struct StakeLedger {
    pub config: Config,
    pub owner: u64,
    pub balances: SnapshotMap<u128>,
    pub total: Changelog<u128>,
    pub claims: Claims,
}

impl StakeLedger {
    /// Every account's history stops at or before the total's latest write,
    /// so a write at a fresh height is fresh for every slot.
    pub open spec fn heights_bounded(self) -> bool {
        forall|i: int|
            0 <= i < self.balances.entries@.len() ==> (
            #[trigger] self.balances.entries@[i]).log.latest_height()
                <= self.total.latest_height()
    }

    /// The core invariant: at every height, the recorded total equals the
    /// sum of all recorded balances.
    pub open spec fn total_matches_sum(self) -> bool {
        forall|h: u64| sum_balances_at(self.balances.entries@, h) == or_zero(self.total.value_at(h))
    }

    pub open spec fn wf(self) -> bool {
        &&& self.balances.wf()
        &&& self.total.wf()
        &&& self.total.is_written()
        &&& self.claims.wf()
        &&& valid_duration(self.config.unstaking_duration)
        &&& self.heights_bounded()
        &&& self.total_matches_sum()
    }

    pub open spec fn total_current(self) -> int {
        or_zero(self.total.current())
    }

    pub open spec fn balance_current(self, account: u64) -> int {
        or_zero(self.balances.current(account))
    }

    pub open spec fn balance_at(self, account: u64, h: u64) -> int {
        or_zero(self.balances.value_at(account, h))
    }

    /// The sum of all current balances is exactly the current total: the
    /// height-indexed invariant, read off at the latest height.
    pub proof fn lemma_total_is_sum_of_currents(self)
        requires
            self.wf(),
        ensures
            sum_balances_current(self.balances.entries@) == self.total_current(),
    {
        lemma_current_in_force(self.total, u64::MAX);
        lemma_sum_at_high(self.balances.entries@, u64::MAX);
    }

    /// The recorded total never falls below any single recorded balance.
    pub proof fn lemma_balance_le_total(self, account: u64)
        requires
            self.wf(),
        ensures
            self.balance_current(account) <= self.total_current(),
    {
        lemma_current_in_force(self.total, u64::MAX);
        lemma_sum_at_high(self.balances.entries@, u64::MAX);
        if self.balances.contains_key(account) {
            let i = self.balances.index_of(account);
            lemma_current_in_force(self.balances.entries@[i].log, u64::MAX);
            lemma_sum_entry_le(self.balances.entries@, i, u64::MAX);
        } else {
            lemma_sum_nonneg(self.balances.entries@, u64::MAX);
        }
    }

    /// Set up a fresh ledger: validates the unstaking duration and records a
    /// zero total at the current height. The owner defaults to the sender.
    pub fn instantiate(
        owner: Option<u64>,
        sender: u64,
        denom_unit: TokenDenom,
        unbonding_period: Option<Duration>,
        height: u64,
    ) -> (r: Result<StakeLedger, ContractError>)
        ensures
            r is Ok <==> valid_duration(unbonding_period),
            !valid_duration(unbonding_period) ==> r == Err::<StakeLedger, ContractError>(
                ContractError::UnboundingDurationError(
                    UnboundingDurationError::InvalidUnboundingDuration {},
                ),
            ),
            r matches Ok(ledger) ==> {
                &&& ledger.wf()
                &&& ledger.owner == (if owner is Some {
                    owner->0
                } else {
                    sender
                })
                &&& ledger.config.staking_token.denom@ == denom_unit.denom@
                &&& ledger.config.staking_token.exponent == denom_unit.exponent
                &&& ledger.config.unstaking_duration == unbonding_period
                &&& ledger.total_current() == 0
                &&& ledger.total.latest_height() == height as int
                &&& forall|a: u64| ledger.balance_current(a) == 0
                &&& forall|a: u64| ledger.claims.claims_of(a) == Seq::<Claim>::empty()
            },
    {
        let selected_owner = match owner {
            Some(o) => o,
            None => sender,
        };
        if let Err(e) = validate_duration(unbonding_period) {
            return Err(ContractError::UnboundingDurationError(e));
        }
        let config = Config { staking_token: denom_unit, unstaking_duration: unbonding_period };
        let mut total: Changelog<u128> = Changelog::new();
        total.save(height, 0);
        let ledger = StakeLedger {
            config,
            owner: selected_owner,
            balances: SnapshotMap::new(),
            total,
            claims: Claims::new(),
        };
        proof {
            assert forall|h: u64|
                sum_balances_at(ledger.balances.entries@, h) == or_zero(
                    ledger.total.value_at(h),
                ) by {
                assert(sum_balances_at(ledger.balances.entries@, h) == 0);
                if h < height {
                    assert(ledger.total.value_at(h) is None);
                }
            }
        }
        Ok(ledger)
    }

    /// Stake the attached funds: the caller must attach exactly the
    /// configured denomination, in a positive amount. Both the caller's
    /// balance and the total grow by that amount at the current height.
    pub fn execute_stake(&mut self, sender: u64, funds: &Vec<Coin>, height: u64) -> (r: Result<
        u128,
        ContractError,
    >)
        requires
            old(self).wf(),
            old(self).total.latest_height() <= height as int,
        ensures
            final(self).wf(),
            final(self).config == old(self).config,
            final(self).owner == old(self).owner,
            final(self).claims == old(self).claims,
            r is Err ==> *final(self) == *old(self),
            funds@.len() == 0 ==> r == Err::<u128, ContractError>(ContractError::NoStakeAmount {}),
            funds@.len() > 0 && !funds_all_match(funds@, old(self).config.staking_token.denom@)
                ==> r == Err::<u128, ContractError>(ContractError::InvalidDenom {}),
            funds@.len() > 0 && funds_all_match(funds@, old(self).config.staking_token.denom@)
                && funds@[0].amount == 0 ==> r == Err::<u128, ContractError>(
                ContractError::NoStakeAmount {},
            ),
            funds@.len() > 0 && funds_all_match(funds@, old(self).config.staking_token.denom@)
                && funds@[0].amount > 0 ==> {
                let amount = funds@[0].amount;
                &&& (old(self).total_current() + amount > u128::MAX ==> r == Err::<
                    u128,
                    ContractError,
                >(ContractError::Overflow {}))
                &&& (old(self).total_current() + amount <= u128::MAX ==> {
                    &&& r == Ok::<u128, ContractError>(amount)
                    &&& final(self).total_current() == old(self).total_current() + amount
                    &&& final(self).balance_current(sender) == old(self).balance_current(sender)
                        + amount
                    &&& final(self).total.latest_height() == height as int
                    &&& forall|h: u64|
                        h < height ==> final(self).total.value_at(h) == old(self).total.value_at(h)
                    &&& forall|a: u64, h: u64|
                        h < height ==> final(self).balance_at(a, h) == old(self).balance_at(a, h)
                    &&& forall|a: u64|
                        a != sender ==> final(self).balance_current(a) == old(
                            self,
                        ).balance_current(a)
                    &&& forall|a: u64, h: u64|
                        a != sender ==> final(self).balance_at(a, h) == old(self).balance_at(a, h)
                    &&& forall|h: u64|
                        h >= height ==> or_zero(final(self).total.value_at(h)) == old(
                            self,
                        ).total_current() + amount
                    &&& forall|h: u64|
                        h >= height ==> final(self).balance_at(sender, h) == old(
                            self,
                        ).balance_current(sender) + amount
                })
            },
    {
        if funds.len() == 0 {
            return Err(ContractError::NoStakeAmount {});
        }
        let n = funds.len();
        let mut i: usize = 0;
        while i < n
            invariant
                *self == *old(self),
                old(self).wf(),
                i <= n == funds@.len(),
                forall|k: int|
                    0 <= k < i ==> (#[trigger] funds@[k]).denom@
                        == self.config.staking_token.denom@,
            decreases n - i,
        {
            if !(funds[i].denom == self.config.staking_token.denom) {
                return Err(ContractError::InvalidDenom {});
            }
            i += 1;
        }
        let amount = funds[0].amount;
        if amount == 0 {
            return Err(ContractError::NoStakeAmount {});
        }
        let total0 = match self.total.load() {
            Some(t) => *t,
            None => 0,
        };
        if total0 > u128::MAX - amount {
            return Err(ContractError::Overflow {});
        }
        let bal0 = match self.balances.get(sender) {
            Some(b) => *b,
            None => 0,
        };
        proof {
            self.lemma_balance_le_total(sender);
            if self.balances.contains_key(sender) {
                let i0 = self.balances.index_of(sender);
                lemma_map_index_unique(self.balances, i0);
            }
        }
        self.balances.save(sender, height, bal0 + amount);
        self.total.save(height, total0 + amount);
        proof {
            let s0 = old(self).balances.entries@;
            let s1 = self.balances.entries@;
            let existed = old(self).balances.contains_key(sender);
            let ghost pos: int = if existed {
                old(self).balances.index_of(sender)
            } else {
                self.balances.index_of(sender)
            };
            if existed {
                lemma_map_index_unique(old(self).balances, pos);
            }
            assert forall|h: u64|
                sum_balances_at(s1, h) == or_zero(self.total.value_at(h)) by {
                assert(sum_balances_at(s0, h) == or_zero(old(self).total.value_at(h)));
                if existed {
                    lemma_sum_update(s0, s1, pos, h);
                    assert(self.balances.index_of(sender) == pos);
                    assert(s1[pos].log == self.balances.log_of(sender));
                    assert(s0[pos].log == old(self).balances.log_of(sender));
                    if h >= height {
                        assert(s0[pos].log.latest_height() <= old(self).total.latest_height());
                        lemma_current_in_force(s0[pos].log, h);
                        assert(or_zero(s0[pos].log.value_at(h)) == bal0 as int);
                        assert(or_zero(s1[pos].log.value_at(h)) == bal0 + amount);
                        lemma_current_in_force(old(self).total, h);
                        assert(or_zero(old(self).total.value_at(h)) == total0 as int);
                        assert(or_zero(self.total.value_at(h)) == total0 + amount);
                    } else {
                        assert(or_zero(s1[pos].log.value_at(h)) == or_zero(s0[pos].log.value_at(h)));
                        assert(self.total.value_at(h) == old(self).total.value_at(h));
                    }
                } else {
                    lemma_sum_remove(s1, pos, h);
                    assert(s1.remove(pos) =~= s0);
                    assert(sum_balances_at(s1.remove(pos), h) == sum_balances_at(s0, h));
                    assert(self.balances.index_of(sender) == pos);
                    assert(s1[pos].log == self.balances.log_of(sender));
                    if h >= height {
                        assert(or_zero(s1[pos].log.value_at(h)) == bal0 + amount);
                        lemma_current_in_force(old(self).total, h);
                        assert(or_zero(old(self).total.value_at(h)) == total0 as int);
                        assert(or_zero(self.total.value_at(h)) == total0 + amount);
                    } else {
                        assert(old(self).balances.value_at(sender, h) is None);
                        assert(or_zero(s1[pos].log.value_at(h)) == 0);
                        assert(self.total.value_at(h) == old(self).total.value_at(h));
                    }
                }
            }
            assert forall|i2: int|
                0 <= i2 < s1.len() implies (#[trigger] s1[i2]).log.latest_height()
                <= self.total.latest_height() by {
                if existed {
                    if i2 != pos {
                        assert(s1[i2] == s0[i2]);
                    }
                } else {
                    if i2 != pos {
                        let j = if i2 < pos {
                            i2
                        } else {
                            i2 - 1
                        };
                        assert(s1.remove(pos) =~= s0);
                        assert(s1[i2] == s0[j]);
                    }
                }
            }
            assert forall|a: u64, h: u64|
                h < height implies self.balance_at(a, h) == old(self).balance_at(a, h) by {
                if a != sender {
                    assert(self.balances.value_at(a, h) == old(self).balances.value_at(a, h));
                }
            }
            assert forall|a: u64, h: u64|
                a != sender implies self.balance_at(a, h) == old(self).balance_at(a, h) by {
                assert(self.balances.value_at(a, h) == old(self).balances.value_at(a, h));
            }
        }
        Ok(amount)
    }

    /// Unstake `amount`: both the caller's balance and the total shrink by
    /// `amount` at the current height. With no unstaking duration configured
    /// the amount is transferred back at once; otherwise a pending claim is
    /// created that matures after the configured duration.
    pub fn execute_unstake(
        &mut self,
        sender: u64,
        amount: u128,
        block: &BlockInfo,
        contract_balance: u128,
    ) -> (r: Result<Option<BankSend>, ContractError>)
        requires
            old(self).wf(),
            old(self).total.latest_height() <= block.height as int,
            old(self).config.unstaking_duration matches Some(d) ==> expiry_fits(d, *block),
        ensures
            final(self).wf(),
            final(self).config == old(self).config,
            final(self).owner == old(self).owner,
            r is Err ==> *final(self) == *old(self),
            unstake_outcome(*old(self), sender, amount, *block, contract_balance) matches Err(e)
                ==> r == Err::<Option<BankSend>, ContractError>(e),
            unstake_outcome(*old(self), sender, amount, *block, contract_balance) is Ok ==> {
                let total0 = old(self).total_current();
                let bal0 = old(self).balance_current(sender);
                &&& final(self).total_current() == total0 - amount
                &&& final(self).balance_current(sender) == bal0 - amount
                &&& final(self).total.latest_height() == block.height as int
                &&& forall|h: u64|
                    h < block.height ==> final(self).total.value_at(h) == old(self).total.value_at(
                        h,
                    )
                &&& forall|a: u64, h: u64|
                    h < block.height ==> final(self).balance_at(a, h) == old(self).balance_at(a, h)
                &&& forall|a: u64|
                    a != sender ==> final(self).balance_current(a) == old(self).balance_current(a)
                &&& forall|a: u64, h: u64|
                    a != sender ==> final(self).balance_at(a, h) == old(self).balance_at(a, h)
                &&& forall|h: u64|
                    h >= block.height ==> or_zero(final(self).total.value_at(h)) == total0 - amount
                &&& forall|h: u64|
                    h >= block.height ==> final(self).balance_at(sender, h) == bal0 - amount
                &&& (old(self).config.unstaking_duration is None ==> {
                    &&& r matches Ok(Some(b)) && b.to_account == sender && b.amount == amount
                        && b.denom@ == old(self).config.staking_token.denom@
                    &&& final(self).claims == old(self).claims
                })
                &&& (old(self).config.unstaking_duration matches Some(d) ==> {
                    &&& r matches Ok(o) && o is None
                    &&& final(self).claims.claims_of(sender) == old(self).claims.claims_of(
                        sender,
                    ).push(Claim { amount, release_at: expiry_after(d, *block) })
                    &&& forall|a: u64|
                        a != sender ==> final(self).claims.claims_of(a) == old(
                            self,
                        ).claims.claims_of(a)
                })
            },
    {
        if self.balances.get(sender).is_none() {
            return Err(ContractError::NoUnstakeAmount {});
        }
        let total0 = match self.total.load() {
            Some(t) => *t,
            None => 0,
        };
        if total0 == 0 {
            return Err(ContractError::NoStakeAmount {});
        }
        if total0 >= u128::MAX - amount {
            return Err(ContractError::AvoidSaturationAttack {});
        }
        if amount > total0 {
            return Err(ContractError::InvalidUnstakeAmount {});
        }
        let bal0 = match self.balances.get(sender) {
            Some(b) => *b,
            None => 0,
        };
        if amount > bal0 {
            return Err(ContractError::InvalidUnstakeAmount {});
        }
        let duration = self.config.unstaking_duration;
        match duration {
            None => {
                if contract_balance < amount {
                    return Err(ContractError::InvalidUnstakeAmount {});
                }
            },
            Some(_) => {
                let pending = self.claims.count(sender);
                if pending >= MAX_CLAIMS as usize {
                    return Err(ContractError::TooManyClaims {});
                }
            },
        }
        proof {
            if self.balances.contains_key(sender) {
                let i0 = self.balances.index_of(sender);
                lemma_map_index_unique(self.balances, i0);
            }
        }
        let height = block.height;
        self.balances.save(sender, height, bal0 - amount);
        self.total.save(height, total0 - amount);
        proof {
            let s0 = old(self).balances.entries@;
            let s1 = self.balances.entries@;
            let ghost pos: int = old(self).balances.index_of(sender);
            lemma_map_index_unique(old(self).balances, pos);
            assert forall|h: u64|
                sum_balances_at(s1, h) == or_zero(self.total.value_at(h)) by {
                assert(sum_balances_at(s0, h) == or_zero(old(self).total.value_at(h)));
                lemma_sum_update(s0, s1, pos, h);
                assert(self.balances.index_of(sender) == pos);
                assert(s1[pos].log == self.balances.log_of(sender));
                assert(s0[pos].log == old(self).balances.log_of(sender));
                if h >= height {
                    assert(s0[pos].log.latest_height() <= old(self).total.latest_height());
                    lemma_current_in_force(s0[pos].log, h);
                    assert(or_zero(s0[pos].log.value_at(h)) == bal0 as int);
                    assert(or_zero(s1[pos].log.value_at(h)) == bal0 - amount);
                    lemma_current_in_force(old(self).total, h);
                    assert(or_zero(old(self).total.value_at(h)) == total0 as int);
                    assert(or_zero(self.total.value_at(h)) == total0 - amount);
                } else {
                    assert(self.balances.value_at(sender, h) == old(self).balances.value_at(
                        sender,
                        h,
                    ));
                    assert(or_zero(s1[pos].log.value_at(h)) == or_zero(s0[pos].log.value_at(h)));
                    assert(self.total.value_at(h) == old(self).total.value_at(h));
                }
            }
            assert forall|i2: int|
                0 <= i2 < s1.len() implies (#[trigger] s1[i2]).log.latest_height()
                <= self.total.latest_height() by {
                if i2 != pos {
                    assert(s1[i2] == s0[i2]);
                }
            }
            assert forall|a: u64, h: u64|
                h < height implies self.balance_at(a, h) == old(self).balance_at(a, h) by {
                if a != sender {
                    assert(self.balances.value_at(a, h) == old(self).balances.value_at(a, h));
                }
            }
            assert forall|a: u64, h: u64|
                a != sender implies self.balance_at(a, h) == old(self).balance_at(a, h) by {
                assert(self.balances.value_at(a, h) == old(self).balances.value_at(a, h));
            }
        }
        match duration {
            None => Ok(
                Some(
                    BankSend {
                        to_account: sender,
                        denom: self.config.staking_token.denom.clone(),
                        amount,
                    },
                ),
            ),
            Some(d) => {
                let release_at = d.after(block);
                self.claims.create_claim(sender, amount, release_at);
                Ok(None)
            },
        }
    }

    /// Release all of the caller's matured claims as a single transfer.
    pub fn execute_claim(&mut self, sender: u64, block: &BlockInfo) -> (r: Result<
        BankSend,
        ContractError,
    >)
        requires
            old(self).wf(),
            matured_total(old(self).claims.claims_of(sender), *block) <= u128::MAX,
        ensures
            final(self).wf(),
            final(self).config == old(self).config,
            final(self).owner == old(self).owner,
            final(self).balances == old(self).balances,
            final(self).total == old(self).total,
            matured_total(old(self).claims.claims_of(sender), *block) == 0 ==> r == Err::<
                BankSend,
                ContractError,
            >(ContractError::NothingToClaim {}) && *final(self) == *old(self),
            matured_total(old(self).claims.claims_of(sender), *block) > 0 ==> {
                &&& r matches Ok(b) && b.to_account == sender && b.amount as int == matured_total(
                    old(self).claims.claims_of(sender),
                    *block,
                ) && b.denom@ == old(self).config.staking_token.denom@
                &&& final(self).claims.claims_of(sender) == pending_after(
                    old(self).claims.claims_of(sender),
                    *block,
                )
                &&& forall|a: u64|
                    a != sender ==> final(self).claims.claims_of(a) == old(self).claims.claims_of(
                        a,
                    )
            },
    {
        let matured = self.claims.matured_amount(sender, block);
        if matured == 0 {
            return Err(ContractError::NothingToClaim {});
        }
        let paid = self.claims.claim_tokens(sender, block);
        Ok(
            BankSend {
                to_account: sender,
                denom: self.config.staking_token.denom.clone(),
                amount: paid,
            },
        )
    }

    /// Owner-only: replace the unstaking duration after validating it.
    pub fn execute_update_config(&mut self, sender: u64, unbonding_period: Option<Duration>) -> (r:
        Result<(), ContractError>)
        requires
            old(self).wf(),
        ensures
            final(self).wf(),
            sender != old(self).owner ==> r == Err::<(), ContractError>(ContractError::NotOwner {})
                && *final(self) == *old(self),
            sender == old(self).owner && !valid_duration(unbonding_period) ==> r == Err::<
                (),
                ContractError,
            >(
                ContractError::UnboundingDurationError(
                    UnboundingDurationError::InvalidUnboundingDuration {},
                ),
            ) && *final(self) == *old(self),
            sender == old(self).owner && valid_duration(unbonding_period) ==> {
                &&& r is Ok
                &&& final(self).config.unstaking_duration == unbonding_period
                &&& final(self).config.staking_token == old(self).config.staking_token
                &&& final(self).owner == old(self).owner
                &&& final(self).balances == old(self).balances
                &&& final(self).total == old(self).total
                &&& final(self).claims == old(self).claims
            },
    {
        if sender != self.owner {
            return Err(ContractError::NotOwner {});
        }
        if let Err(e) = validate_duration(unbonding_period) {
            return Err(ContractError::UnboundingDurationError(e));
        }
        self.config.unstaking_duration = unbonding_period;
        Ok(())
    }

    pub fn query_config(&self) -> (r: ConfigResponse)
        ensures
            r.staking_token.denom@ == self.config.staking_token.denom@,
            r.staking_token.exponent == self.config.staking_token.exponent,
            r.unstaking_duration == self.config.unstaking_duration,
    {
        ConfigResponse {
            staking_token: self.config.staking_token.duplicate(),
            unstaking_duration: self.config.unstaking_duration,
        }
    }

    /// The balance of `address` as of the queried height, defaulting to the
    /// current height; a missing record reads as zero, not as an error.
    pub fn query_staked_balance(&self, address: u64, height: Option<u64>, env_height: u64) -> (r:
        StakedBalanceAtHeightResponse)
        requires
            self.wf(),
        ensures
            r.height == (if height is Some {
                height->0
            } else {
                env_height
            }),
            r.balance as int == self.balance_at(address, r.height),
    {
        let query_height = match height {
            Some(h) => h,
            None => env_height,
        };
        let balance = match self.balances.get_at_height(address, query_height) {
            Some(b) => *b,
            None => 0,
        };
        StakedBalanceAtHeightResponse { balance, height: query_height }
    }

    /// The total staked as of the queried height, defaulting to the current
    /// height; zero before the first record.
    pub fn query_total_staked_at_height(&self, height: Option<u64>, env_height: u64) -> (r:
        TotalStakedAtHeightResponse)
        requires
            self.wf(),
        ensures
            r.height == (if height is Some {
                height->0
            } else {
                env_height
            }),
            r.total as int == or_zero(self.total.value_at(r.height)),
    {
        let query_height = match height {
            Some(h) => h,
            None => env_height,
        };
        let total = match self.total.load_at_height(query_height) {
            Some(t) => *t,
            None => 0,
        };
        TotalStakedAtHeightResponse { total, height: query_height }
    }

    /// All pending claims of `address`, matured or not.
    pub fn query_claims(&self, address: u64) -> (r: ClaimsResponse)
        requires
            self.wf(),
        ensures
            r.claims@ == self.claims.claims_of(address),
    {
        ClaimsResponse { claims: self.claims.query_claims(address) }
    }

    /// A page of current balances, ascending by address, starting after
    /// `start_after` (exclusive) and at most `limit` long.
    pub fn query_all_stakers(&self, start_after: Option<u64>, limit: Option<u32>) -> (r:
        ListStakersResponse)
        requires
            self.wf(),
        ensures
            stakers_page_matches(self.balances.entries@, start_after, limit, r.stakers@),
    {
        let s_len = self.balances.entries.len();
        let start = match start_after {
            Some(a) => self.balances.upper_bound(a),
            None => 0,
        };
        proof {
            if start_after is Some {
                lemma_count_le_partition(self.balances.entries@, start_after->0, start as int);
            }
        }
        let max_count: usize = match limit {
            Some(l) => l as usize,
            None => s_len,
        };
        let mut stakers: Vec<StakerBalanceResponse> = Vec::new();
        let mut idx: usize = start;
        while idx < s_len && stakers.len() < max_count
            invariant
                self.wf(),
                start <= idx <= s_len == self.balances.entries@.len(),
                stakers@.len() == idx - start,
                stakers@.len() <= max_count,
                max_count == (match limit {
                    Some(l) => l as usize,
                    None => s_len,
                }),
                forall|j: int|
                    0 <= j < stakers@.len() ==> (#[trigger] stakers@[j]).address
                        == self.balances.entries@[start + j].key && stakers@[j].balance as int
                        == or_zero(self.balances.entries@[start + j].log.current()),
            decreases s_len - idx,
        {
            let balance = match self.balances.entries[idx].log.load() {
                Some(b) => *b,
                None => 0,
            };
            stakers.push(
                StakerBalanceResponse { address: self.balances.entries[idx].key, balance },
            );
            idx += 1;
        }
        ListStakersResponse { stakers }
    }
}

/// How many entries of `s` carry a key at or below `bound`.
pub open spec fn count_le(s: Seq<SnapEntry<u128>>, bound: u64) -> int
    decreases s.len(),
{
    if s.len() == 0 {
        0
    } else {
        count_le(s.drop_last(), bound) + if s.last().key <= bound {
            1int
        } else {
            0int
        }
    }
}

/// When the keys at or below `bound` are exactly those before position `i`,
/// their count is `i`.
pub proof fn lemma_count_le_partition(s: Seq<SnapEntry<u128>>, bound: u64, i: int)
    requires
        0 <= i <= s.len(),
        forall|k: int| 0 <= k < i ==> s[k].key <= bound,
        forall|k: int| i <= k < s.len() ==> s[k].key > bound,
    ensures
        count_le(s, bound) == i,
    decreases s.len(),
{
    if s.len() > 0 {
        assert(forall|k: int| 0 <= k < s.drop_last().len() ==> s.drop_last()[k] == s[k]);
        if i == s.len() {
            assert(s.last().key <= bound);
            lemma_count_le_partition(s.drop_last(), bound, i - 1);
        } else {
            assert(s.last().key > bound);
            lemma_count_le_partition(s.drop_last(), bound, i);
        }
    }
}

/// In a strictly sorted sequence, exactly `k + 1` keys lie at or below the
/// key at position `k`.
pub proof fn lemma_count_le_at_key(s: Seq<SnapEntry<u128>>, k: int)
    requires
        0 <= k < s.len(),
        forall|i: int, j: int| 0 <= i < j < s.len() ==> s[i].key < s[j].key,
    ensures
        count_le(s, s[k].key) == k + 1,
{
    lemma_count_le_partition(s, s[k].key, k + 1);
}

/// Where a page of stakers begins: just past the entries at or below the
/// exclusive start bound.
pub open spec fn page_start(s: Seq<SnapEntry<u128>>, start_after: Option<u64>) -> int {
    match start_after {
        None => 0,
        Some(a) => count_le(s, a),
    }
}

/// How long the page is: what remains past the start, capped by the limit.
pub open spec fn page_len(
    s: Seq<SnapEntry<u128>>,
    start_after: Option<u64>,
    limit: Option<u32>,
) -> int {
    let avail = s.len() - page_start(s, start_after);
    match limit {
        None => avail,
        Some(l) => if l as int <= avail {
            l as int
        } else {
            avail
        },
    }
}

/// `out` is exactly the requested page of current balances, ascending by
/// address.
pub open spec fn stakers_page_matches(
    s: Seq<SnapEntry<u128>>,
    start_after: Option<u64>,
    limit: Option<u32>,
    out: Seq<StakerBalanceResponse>,
) -> bool {
    &&& out.len() == page_len(s, start_after, limit)
    &&& forall|j: int|
        0 <= j < out.len() ==> (#[trigger] out[j]).address == s[page_start(s, start_after) + j].key
            && out[j].balance as int == or_zero(s[page_start(s, start_after) + j].log.current())
}

/// Which error, if any, an unstake of `amount` by `sender` meets, in the
/// order the checks are made.
pub open spec fn unstake_outcome(
    l: StakeLedger,
    sender: u64,
    amount: u128,
    block: BlockInfo,
    contract_balance: u128,
) -> Result<(), ContractError> {
    let total0 = l.total_current();
    let bal0 = l.balance_current(sender);
    if !l.balances.contains_key(sender) {
        Err(ContractError::NoUnstakeAmount {})
    } else if total0 == 0 {
        Err(ContractError::NoStakeAmount {})
    } else if total0 + amount >= u128::MAX {
        Err(ContractError::AvoidSaturationAttack {})
    } else if amount > total0 {
        Err(ContractError::InvalidUnstakeAmount {})
    } else if amount > bal0 {
        Err(ContractError::InvalidUnstakeAmount {})
    } else {
        match l.config.unstaking_duration {
            None => if contract_balance < amount {
                Err(ContractError::InvalidUnstakeAmount {})
            } else {
                Ok(())
            },
            Some(d) => if l.claims.claims_of(sender).len() >= MAX_CLAIMS {
                Err(ContractError::TooManyClaims {})
            } else {
                Ok(())
            },
        }
    }
}

/// Every attached coin carries the given denomination.
pub open spec fn funds_all_match(funds: Seq<Coin>, denom: Seq<char>) -> bool {
    forall|i: int| 0 <= i < funds.len() ==> (#[trigger] funds[i]).denom@ == denom
}

} // verus!
