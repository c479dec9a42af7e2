//! Pending time-locked withdrawals, grouped per owner. A claim is created on
//! unstake when an unstaking duration is configured, and consumed when its
//! release threshold has passed.

use vstd::prelude::*;
use crate::duration::{Expiration, is_released};
use crate::types::BlockInfo;

verus! {

/// A pending, time-locked withdrawal awaiting maturity.
#[derive(Clone, Copy, Debug)]
pub struct Claim {
    pub amount: u128,
    pub release_at: Expiration,
}

pub struct ClaimsEntry {
    pub account: u64,
    pub claims: Vec<Claim>,
}

/// All pending claims of a ledger, grouped per owner.
pub struct Claims {
    pub entries: Vec<ClaimsEntry>,
}

/// Total amount of the claims in `s` already released as of `block`.
pub open spec fn matured_total(s: Seq<Claim>, block: BlockInfo) -> int
    decreases s.len(),
{
    if s.len() == 0 {
        0
    } else {
        matured_total(s.drop_last(), block) + if is_released(s.last().release_at, block) {
            s.last().amount as int
        } else {
            0
        }
    }
}

/// The claims of `s` not yet released as of `block`, in their original order.
pub open spec fn pending_after(s: Seq<Claim>, block: BlockInfo) -> Seq<Claim>
    decreases s.len(),
{
    if s.len() == 0 {
        Seq::empty()
    } else if is_released(s.last().release_at, block) {
        pending_after(s.drop_last(), block)
    } else {
        pending_after(s.drop_last(), block).push(s.last())
    }
}

/// A prefix never matures more than the whole sequence.
pub proof fn lemma_matured_take_le(s: Seq<Claim>, block: BlockInfo, i: int)
    requires
        0 <= i <= s.len(),
    ensures
        matured_total(s.take(i), block) <= matured_total(s, block),
    decreases s.len(),
{
    if i < s.len() {
        assert(s.drop_last() =~= s.take(s.len() - 1));
        lemma_matured_take_le(s.take(s.len() - 1), block, i);
        assert(s.take(s.len() - 1).take(i) =~= s.take(i));
    } else {
        assert(s.take(i) =~= s);
    }
}

impl Claims {
    /// Each owner occurs at most once.
    pub open spec fn wf(self) -> bool {
        forall|i: int, j: int|
            0 <= i < j < self.entries@.len() ==> self.entries@[i].account
                != self.entries@[j].account
    }

    pub open spec fn contains_account(self, account: u64) -> bool {
        exists|i: int| 0 <= i < self.entries@.len() && self.entries@[i].account == account
    }

    pub open spec fn index_of(self, account: u64) -> int {
        choose|i: int| 0 <= i < self.entries@.len() && self.entries@[i].account == account
    }

    /// The pending claims of `account`, oldest first.
    pub open spec fn claims_of(self, account: u64) -> Seq<Claim> {
        if self.contains_account(account) {
            self.entries@[self.index_of(account)].claims@
        } else {
            Seq::empty()
        }
    }

    pub fn new() -> (c: Claims)
        ensures
            c.wf(),
            forall|a: u64| c.claims_of(a) == Seq::<Claim>::empty(),
    {
        Claims { entries: Vec::new() }
    }

    fn find_account(&self, account: u64) -> (r: Option<usize>)
        requires
            self.wf(),
        ensures
            match r {
                Some(i) => i < self.entries@.len() && self.entries@[i as int].account == account
                    && self.contains_account(account) && self.index_of(account) == i as int,
                None => !self.contains_account(account),
            },
    {
        let n = self.entries.len();
        let mut i: usize = 0;
        while i < n
            invariant
                i <= n == self.entries@.len(),
                self.wf(),
                forall|k: int| 0 <= k < i ==> self.entries@[k].account != account,
            decreases n - i,
        {
            if self.entries[i].account == account {
                proof {
                    lemma_claims_index_unique(*self, i as int);
                }
                return Some(i);
            }
            i += 1;
        }
        None
    }

    /// Append a new claim for `account`.
    pub fn create_claim(&mut self, account: u64, amount: u128, release_at: Expiration)
        requires
            old(self).wf(),
        ensures
            final(self).wf(),
            final(self).claims_of(account) == old(self).claims_of(account).push(
                Claim { amount, release_at },
            ),
            forall|a: u64| a != account ==> final(self).claims_of(a) == old(self).claims_of(a),
    {
        match self.find_account(account) {
            Some(i) => {
                let mut entry = self.entries.remove(i);
                entry.claims.push(Claim { amount, release_at });
                self.entries.insert(i, entry);
                proof {
                    lemma_claims_frame(*old(self), *self, i as int, account);
                }
            },
            None => {
                let mut fresh: Vec<Claim> = Vec::new();
                fresh.push(Claim { amount, release_at });
                self.entries.push(ClaimsEntry { account, claims: fresh });
                proof {
                    let i = old(self).entries@.len() as int;
                    assert forall|a2: int, b: int|
                        0 <= a2 < b < self.entries@.len() implies self.entries@[a2].account
                        != self.entries@[b].account by {
                        if b < i {
                            assert(self.entries@[a2] == old(self).entries@[a2]);
                            assert(self.entries@[b] == old(self).entries@[b]);
                        } else {
                            assert(self.entries@[a2] == old(self).entries@[a2]);
                        }
                    }
                    lemma_claims_index_unique(*self, i);
                    assert(self.claims_of(account) =~= old(self).claims_of(account).push(
                        Claim { amount, release_at },
                    ));
                    assert forall|a: u64| a != account implies self.claims_of(a) == old(
                        self,
                    ).claims_of(a) by {
                        if old(self).contains_account(a) {
                            let j = old(self).index_of(a);
                            lemma_claims_index_unique(*old(self), j);
                            assert(self.entries@[j] == old(self).entries@[j]);
                            lemma_claims_index_unique(*self, j);
                        } else if self.contains_account(a) {
                            let j = self.index_of(a);
                            lemma_claims_index_unique(*self, j);
                            assert(self.entries@[j] == old(self).entries@[j]);
                        }
                    }
                }
            },
        }
    }

    /// Release every claim of `account` whose threshold has passed as of
    /// `block`: the matured claims are removed and their total returned; the
    /// immature ones stay, in order.
    pub fn claim_tokens(&mut self, account: u64, block: &BlockInfo) -> (total: u128)
        requires
            old(self).wf(),
            matured_total(old(self).claims_of(account), *block) <= u128::MAX,
        ensures
            final(self).wf(),
            total as int == matured_total(old(self).claims_of(account), *block),
            final(self).claims_of(account) == pending_after(
                old(self).claims_of(account),
                *block,
            ),
            forall|a: u64| a != account ==> final(self).claims_of(a) == old(self).claims_of(a),
    {
        match self.find_account(account) {
            None => 0,
            Some(i) => {
                let mut entry = self.entries.remove(i);
                let ghost all = entry.claims@;
                let n = entry.claims.len();
                let mut kept: Vec<Claim> = Vec::new();
                let mut total: u128 = 0;
                let mut idx: usize = 0;
                while idx < n
                    invariant
                        idx <= n,
                        n == entry.claims@.len(),
                        entry.claims@ == all,
                        matured_total(all, *block) <= u128::MAX,
                        kept@ == pending_after(all.take(idx as int), *block),
                        total as int == matured_total(all.take(idx as int), *block),
                    decreases n - idx,
                {
                    let c = entry.claims[idx];
                    proof {
                        assert(all.take(idx as int + 1).drop_last() =~= all.take(idx as int));
                        assert(all.take(idx as int + 1).last() == all[idx as int]);
                        lemma_matured_take_le(all, *block, idx as int + 1);
                    }
                    if c.release_at.is_expired(block) {
                        total = total + c.amount;
                    } else {
                        kept.push(c);
                    }
                    idx += 1;
                }
                proof {
                    assert(all.take(n as int) =~= all);
                }
                entry.claims = kept;
                self.entries.insert(i, entry);
                proof {
                    lemma_claims_frame(*old(self), *self, i as int, account);
                }
                total
            },
        }
    }

    /// Total already-released amount of `account`, without consuming it.
    pub fn matured_amount(&self, account: u64, block: &BlockInfo) -> (total: u128)
        requires
            self.wf(),
            matured_total(self.claims_of(account), *block) <= u128::MAX,
        ensures
            total as int == matured_total(self.claims_of(account), *block),
    {
        match self.find_account(account) {
            None => 0,
            Some(i) => {
                let ghost all = self.entries@[i as int].claims@;
                let n = self.entries[i].claims.len();
                let mut total: u128 = 0;
                let mut idx: usize = 0;
                while idx < n
                    invariant
                        idx <= n,
                        i < self.entries@.len(),
                        n == self.entries@[i as int].claims@.len(),
                        all == self.entries@[i as int].claims@,
                        all == self.claims_of(account),
                        matured_total(all, *block) <= u128::MAX,
                        total as int == matured_total(all.take(idx as int), *block),
                    decreases n - idx,
                {
                    let c = self.entries[i].claims[idx];
                    proof {
                        assert(all.take(idx as int + 1).drop_last() =~= all.take(idx as int));
                        assert(all.take(idx as int + 1).last() == all[idx as int]);
                        lemma_matured_take_le(all, *block, idx as int + 1);
                    }
                    if c.release_at.is_expired(block) {
                        total = total + c.amount;
                    }
                    idx += 1;
                }
                proof {
                    assert(all.take(n as int) =~= all);
                }
                total
            },
        }
    }

    /// How many claims `account` has pending.
    pub fn count(&self, account: u64) -> (n: usize)
        requires
            self.wf(),
        ensures
            n == self.claims_of(account).len(),
    {
        match self.find_account(account) {
            Some(i) => self.entries[i].claims.len(),
            None => 0,
        }
    }

    /// A copy of the pending claims of `account`, matured or not.
    pub fn query_claims(&self, account: u64) -> (r: Vec<Claim>)
        requires
            self.wf(),
        ensures
            r@ == self.claims_of(account),
    {
        let mut r: Vec<Claim> = Vec::new();
        match self.find_account(account) {
            None => r,
            Some(i) => {
                let n = self.entries[i].claims.len();
                let mut idx: usize = 0;
                while idx < n
                    invariant
                        idx <= n,
                        i < self.entries@.len(),
                        n == self.entries@[i as int].claims@.len(),
                        r@ == self.entries@[i as int].claims@.take(idx as int),
                    decreases n - idx,
                {
                    r.push(self.entries[i].claims[idx]);
                    proof {
                        assert(r@ =~= self.entries@[i as int].claims@.take(idx as int + 1));
                    }
                    idx += 1;
                }
                proof {
                    assert(self.entries@[i as int].claims@.take(n as int) =~= self.entries@[
                        i as int
                    ].claims@);
                }
                r
            },
        }
    }
}

/// Each account occurs at exactly one position.
pub proof fn lemma_claims_index_unique(c: Claims, i: int)
    requires
        c.wf(),
        0 <= i < c.entries@.len(),
    ensures
        c.contains_account(c.entries@[i].account),
        c.index_of(c.entries@[i].account) == i,
{
    let account = c.entries@[i].account;
    assert(c.contains_account(account));
    let j = c.index_of(account);
    assert(0 <= j < c.entries@.len() && c.entries@[j].account == account);
    if j < i {
        assert(c.entries@[j].account != c.entries@[i].account);
    } else if j > i {
        assert(c.entries@[i].account != c.entries@[j].account);
    }
}

/// After replacing the entry at `i` (keeping its account), every other
/// account's claims are unchanged, and `claims_of(account)` reads the new
/// entry.
proof fn lemma_claims_frame(c0: Claims, c1: Claims, i: int, account: u64)
    requires
        c0.wf(),
        0 <= i < c0.entries@.len(),
        c1.entries@.len() == c0.entries@.len(),
        c0.entries@[i].account == account,
        c1.entries@[i].account == account,
        forall|j: int| 0 <= j < c0.entries@.len() && j != i ==> c1.entries@[j] == c0.entries@[j],
    ensures
        c1.wf(),
        c1.claims_of(account) == c1.entries@[i].claims@,
        forall|a: u64| a != account ==> c1.claims_of(a) == c0.claims_of(a),
{
    assert forall|a2: int, b: int|
        0 <= a2 < b < c1.entries@.len() implies c1.entries@[a2].account
        != c1.entries@[b].account by {
        assert(c0.entries@[a2].account != c0.entries@[b].account);
    }
    lemma_claims_index_unique(c1, i);
    assert forall|a: u64| a != account implies c1.claims_of(a) == c0.claims_of(a) by {
        if c0.contains_account(a) {
            let j = c0.index_of(a);
            lemma_claims_index_unique(c0, j);
            assert(c1.entries@[j] == c0.entries@[j]);
            lemma_claims_index_unique(c1, j);
        } else if c1.contains_account(a) {
            let j = c1.index_of(a);
            lemma_claims_index_unique(c1, j);
            assert(c0.entries@[j].account == a);
        }
    }
}

} // verus!
