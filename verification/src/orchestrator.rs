//! The orchestrator: a registry mapping token denomination to the staking
//! ledger responsible for it, an asynchronous create-and-reply protocol for
//! provisioning new ledgers, and fan-out query aggregation.
//!
//! Ledger addresses are indices into the platform's contract table, passed
//! to the aggregate queries as a slice of ledgers.

use vstd::prelude::*;
use crate::duration::Duration;
use crate::staking::{
    StakeLedger, StakedBalanceAtHeightResponse, StakerBalanceResponse, stakers_page_matches,
};
use crate::types::{Coin, TokenDenom};

verus! {

/// The reply tag carried by the instantiate submessage.
pub const INSTANTIATE_STAKING_REPLY_ID: u64 = 1;

#[derive(PartialEq, Eq, Debug)]
pub enum ContractError {
    /// The caller is not the owner of the orchestrator.
    NotOwner {},
    /// A reply arrived with an unrecognized tag.
    UnknownReplyId { id: u64 },
    /// The instantiate submessage reported failure.
    SubContractInstantiationFailed {},
    /// A successful reply carried no instantiate payload.
    MissingInstantiateData {},
    /// The reply named a contract the platform does not know.
    InvalidContractAddress {},
    /// The queried denomination has no registered ledger.
    NotFound { denom: String },
}

/// One registered ledger: its address and the token it stakes.
#[derive(Debug)]
pub struct RegisteredContract {
    pub address: u64,
    pub token: TokenDenom,
}

/// The message sent to instantiate a new staking ledger.
#[derive(Debug)]
pub struct InstantiateMsg {
    pub owner: Option<u64>,
    pub denom_unit: TokenDenom,
    pub unbonding_period: Option<Duration>,
}

/// An instantiate submessage handed to the platform, tagged so the reply can
/// be routed back; registration is deferred to that reply.
#[derive(Debug)]
pub struct InstantiateRequest {
    pub admin: u64,
    pub code_id: u64,
    pub msg: InstantiateMsg,
    pub funds: Vec<Coin>,
    pub reply_id: u64,
}

/// What the platform reports back for the instantiate submessage.
#[derive(Debug)]
pub enum SubMsgOutcome {
    Failure {},
    Success { contract_address: Option<u64> },
}

/// A reply delivered after a submessage completes.
#[derive(Debug)]
pub struct ReplyMsg {
    pub id: u64,
    pub outcome: SubMsgOutcome,
}

/// The new contract's address carried by a successful reply, if any.
pub open spec fn reply_address(msg: ReplyMsg) -> Option<u64> {
    match msg.outcome {
        SubMsgOutcome::Failure {} => None,
        SubMsgOutcome::Success { contract_address } => contract_address,
    }
}

#[derive(Debug)]
pub struct StakingContractByDenomResponse {
    pub denom: String,
    pub registered_contract: RegisteredContract,
}

/// One denomination's staked balance within the aggregate query.
#[derive(Debug)]
pub struct TokenStakedBalance {
    pub denom: String,
    pub staked_balance: StakedBalanceAtHeightResponse,
}

#[derive(Debug)]
pub struct AllTokensStakedBalanceAtHeightResponse {
    pub tokens_staked_balance: Vec<TokenStakedBalance>,
}

#[derive(Debug)]
pub struct ListStakersByDenomResponse {
    pub denom: String,
    pub stakers: Vec<StakerBalanceResponse>,
}

/// Every ledger in the platform's table is well-formed.
pub open spec fn ledgers_wf(ledgers: Seq<StakeLedger>) -> bool {
    forall|i: int| 0 <= i < ledgers.len() ==> (#[trigger] ledgers[i]).wf()
}

pub struct Orchestrator {
    pub owner: u64,
    pub registry: Vec<RegisteredContract>,
}

impl Orchestrator {
    /// Each denomination is registered at most once.
    pub open spec fn wf(self) -> bool {
        forall|i: int, j: int|
            0 <= i < j < self.registry@.len() ==> self.registry@[i].token.denom@
                != self.registry@[j].token.denom@
    }

    pub open spec fn contains_denom(self, denom: Seq<char>) -> bool {
        exists|i: int| 0 <= i < self.registry@.len() && self.registry@[i].token.denom@ == denom
    }

    pub open spec fn index_of_denom(self, denom: Seq<char>) -> int {
        choose|i: int| 0 <= i < self.registry@.len() && self.registry@[i].token.denom@ == denom
    }

    /// The registered ledger for `denom`; meaningful only when registered.
    pub open spec fn registered(self, denom: Seq<char>) -> RegisteredContract {
        self.registry@[self.index_of_denom(denom)]
    }

    /// Every registered address resolves within the platform's table.
    pub open spec fn registry_resolves(self, ledgers: Seq<StakeLedger>) -> bool {
        forall|i: int|
            0 <= i < self.registry@.len() ==> (#[trigger] self.registry@[i]).address
                < ledgers.len()
    }

    /// Set up a fresh orchestrator with an empty registry. The owner
    /// defaults to the sender.
    pub fn instantiate(owner: Option<u64>, sender: u64) -> (o: Orchestrator)
        ensures
            o.wf(),
            o.owner == (if owner is Some {
                owner->0
            } else {
                sender
            }),
            o.registry@.len() == 0,
    {
        let selected_owner = match owner {
            Some(o) => o,
            None => sender,
        };
        Orchestrator { owner: selected_owner, registry: Vec::new() }
    }

    fn find_denom(&self, denom: &String) -> (r: Option<usize>)
        requires
            self.wf(),
        ensures
            match r {
                Some(i) => i < self.registry@.len() && self.registry@[i as int].token.denom@
                    == denom@ && self.contains_denom(denom@) && self.index_of_denom(denom@)
                    == i as int,
                None => !self.contains_denom(denom@),
            },
    {
        let n = self.registry.len();
        let mut i: usize = 0;
        while i < n
            invariant
                i <= n == self.registry@.len(),
                self.wf(),
                forall|k: int| 0 <= k < i ==> self.registry@[k].token.denom@ != denom@,
            decreases n - i,
        {
            if self.registry[i].token.denom == *denom {
                proof {
                    lemma_registry_index_unique(*self, i as int);
                }
                return Some(i);
            }
            i += 1;
        }
        None
    }

    /// Owner-only: ask the platform to instantiate a new staking ledger,
    /// tagged for the registration reply. No registry write happens here:
    /// the new ledger's address is unknown until the platform acknowledges.
    pub fn execute_create_staking_contract(
        &self,
        sender: u64,
        env_contract: u64,
        code_id: u64,
        denom_unit: TokenDenom,
        unbonding_period: Option<Duration>,
        owner: Option<u64>,
        funds: Vec<Coin>,
    ) -> (r: Result<InstantiateRequest, ContractError>)
        ensures
            sender != self.owner ==> r == Err::<InstantiateRequest, ContractError>(
                ContractError::NotOwner {},
            ),
            sender == self.owner ==> {
                let selected = if owner is Some {
                    owner->0
                } else {
                    env_contract
                };
                &&& r matches Ok(req)
                &&& r matches Ok(req) ==> {
                    &&& req.admin == selected
                    &&& req.code_id == code_id
                    &&& req.msg.owner == Some(selected)
                    &&& req.msg.denom_unit == denom_unit
                    &&& req.msg.unbonding_period == unbonding_period
                    &&& req.funds == funds
                    &&& req.reply_id == INSTANTIATE_STAKING_REPLY_ID
                }
            },
    {
        if sender != self.owner {
            return Err(ContractError::NotOwner {});
        }
        let selected_owner = match owner {
            Some(o) => o,
            None => env_contract,
        };
        let msg = InstantiateMsg {
            owner: Some(selected_owner),
            denom_unit,
            unbonding_period,
        };
        Ok(
            InstantiateRequest {
                admin: selected_owner,
                code_id,
                msg,
                funds,
                reply_id: INSTANTIATE_STAKING_REPLY_ID,
            },
        )
    }

    /// Handle the platform's reply to the instantiate submessage: decode the
    /// new ledger's address, read its configuration back, and register it
    /// under its staking denomination. Any unrecognized tag or missing
    /// payload is a hard error and nothing is registered.
    pub fn reply(&mut self, msg: &ReplyMsg, ledgers: &Vec<StakeLedger>) -> (r: Result<
        (),
        ContractError,
    >)
        requires
            old(self).wf(),
        ensures
            final(self).wf(),
            final(self).owner == old(self).owner,
            r is Err ==> *final(self) == *old(self),
            msg.id != INSTANTIATE_STAKING_REPLY_ID ==> r == Err::<(), ContractError>(
                ContractError::UnknownReplyId { id: msg.id },
            ),
            msg.id == INSTANTIATE_STAKING_REPLY_ID && msg.outcome is Failure ==> r == Err::<
                (),
                ContractError,
            >(ContractError::SubContractInstantiationFailed {}),
            msg.id == INSTANTIATE_STAKING_REPLY_ID && msg.outcome is Success && reply_address(
                *msg,
            ) is None ==> r == Err::<(), ContractError>(ContractError::MissingInstantiateData {}),
            msg.id == INSTANTIATE_STAKING_REPLY_ID && reply_address(*msg) is Some
                && reply_address(*msg)->0 >= ledgers@.len() ==> r == Err::<(), ContractError>(
                ContractError::InvalidContractAddress {},
            ),
            msg.id == INSTANTIATE_STAKING_REPLY_ID && reply_address(*msg) is Some
                && reply_address(*msg)->0 < ledgers@.len() ==> {
                let addr = reply_address(*msg)->0;
                let child = ledgers@[addr as int];
                let denom = child.config.staking_token.denom@;
                &&& r is Ok
                &&& final(self).contains_denom(denom)
                &&& final(self).registered(denom).address == addr
                &&& final(self).registered(denom).token.denom@ == denom
                &&& final(self).registered(denom).token.exponent
                    == child.config.staking_token.exponent
                &&& forall|d: Seq<char>|
                    d != denom ==> (final(self).contains_denom(d) <==> old(self).contains_denom(
                        d,
                    ))
                &&& forall|d: Seq<char>|
                    d != denom && old(self).contains_denom(d) ==> final(self).registered(d) == old(
                        self,
                    ).registered(d)
            },
    {
        if msg.id != INSTANTIATE_STAKING_REPLY_ID {
            return Err(ContractError::UnknownReplyId { id: msg.id });
        }
        let addr = match &msg.outcome {
            SubMsgOutcome::Failure {} => {
                return Err(ContractError::SubContractInstantiationFailed {});
            },
            SubMsgOutcome::Success { contract_address } => {
                match contract_address {
                    None => {
                        return Err(ContractError::MissingInstantiateData {});
                    },
                    Some(a) => *a,
                }
            },
        };
        if addr >= ledgers.len() as u64 {
            return Err(ContractError::InvalidContractAddress {});
        }
        let child_config = ledgers[addr as usize].query_config();
        let contract = RegisteredContract { address: addr, token: child_config.staking_token };
        let key = contract.token.denom.clone();
        match self.find_denom(&key) {
            Some(i) => {
                let _previous = self.registry.remove(i);
                self.registry.insert(i, contract);
                proof {
                    let s0 = old(self).registry@;
                    let s1 = self.registry@;
                    assert(s1 =~= s0.update(i as int, s1[i as int]));
                    assert forall|a2: int, b: int|
                        0 <= a2 < b < s1.len() implies s1[a2].token.denom@
                        != s1[b].token.denom@ by {
                        assert(s0[a2].token.denom@ != s0[b].token.denom@);
                    }
                    lemma_registry_index_unique(*self, i as int);
                    assert(s0[i as int].token.denom@ == s1[i as int].token.denom@);
                    lemma_registry_frame(*old(self), *self, i as int);
                }
            },
            None => {
                self.registry.push(contract);
                proof {
                    let s0 = old(self).registry@;
                    let s1 = self.registry@;
                    let i = s0.len() as int;
                    assert forall|a2: int, b: int|
                        0 <= a2 < b < s1.len() implies s1[a2].token.denom@
                        != s1[b].token.denom@ by {
                        if b < i {
                            assert(s1[a2] == s0[a2] && s1[b] == s0[b]);
                        } else {
                            assert(s1[a2] == s0[a2]);
                        }
                    }
                    lemma_registry_index_unique(*self, i);
                    lemma_registry_frame(*old(self), *self, i);
                }
            },
        }
        Ok(())
    }

    /// The registered ledger for `denom`; an unregistered denomination is a
    /// not-found error, never an empty answer.
    pub fn query_staking_contract_by_denom(&self, denom: String) -> (r: Result<
        StakingContractByDenomResponse,
        ContractError,
    >)
        requires
            self.wf(),
        ensures
            !self.contains_denom(denom@) ==> (r matches Err(e) && e matches
                ContractError::NotFound { denom: d } && d@ == denom@),
            self.contains_denom(denom@) ==> {
                &&& r matches Ok(resp)
                &&& r matches Ok(resp) ==> {
                    &&& resp.denom@ == denom@
                    &&& resp.registered_contract.address == self.registered(denom@).address
                    &&& resp.registered_contract.token.denom@ == self.registered(
                        denom@,
                    ).token.denom@
                    &&& resp.registered_contract.token.exponent == self.registered(
                        denom@,
                    ).token.exponent
                }
            },
    {
        match self.find_denom(&denom) {
            None => Err(ContractError::NotFound { denom }),
            Some(i) => {
                let entry = &self.registry[i];
                Ok(
                    StakingContractByDenomResponse {
                        denom,
                        registered_contract: RegisteredContract {
                            address: entry.address,
                            token: entry.token.duplicate(),
                        },
                    },
                )
            },
        }
    }

    /// Fan out one staked-balance query per registered denomination and
    /// assemble the denomination-to-balance table, in registry order.
    pub fn query_all_tokens_staked_balance_at_height(
        &self,
        ledgers: &Vec<StakeLedger>,
        address: u64,
        height: Option<u64>,
        env_height: u64,
    ) -> (r: AllTokensStakedBalanceAtHeightResponse)
        requires
            self.wf(),
            self.registry_resolves(ledgers@),
            ledgers_wf(ledgers@),
        ensures
            r.tokens_staked_balance@.len() == self.registry@.len(),
            forall|j: int|
                0 <= j < self.registry@.len() ==> {
                    let item = #[trigger] r.tokens_staked_balance@[j];
                    let entry = self.registry@[j];
                    let qh = if height is Some {
                        height->0
                    } else {
                        env_height
                    };
                    &&& item.denom@ == entry.token.denom@
                    &&& item.staked_balance.height == qh
                    &&& item.staked_balance.balance as int == ledgers@[entry.address as int].balance_at(
                        address,
                        qh,
                    )
                },
    {
        let n = self.registry.len();
        let mut out: Vec<TokenStakedBalance> = Vec::new();
        let mut i: usize = 0;
        while i < n
            invariant
                i <= n == self.registry@.len(),
                self.wf(),
                self.registry_resolves(ledgers@),
                ledgers_wf(ledgers@),
                out@.len() == i,
                forall|j: int|
                    0 <= j < i ==> {
                        let item = #[trigger] out@[j];
                        let entry = self.registry@[j];
                        let qh = if height is Some {
                            height->0
                        } else {
                            env_height
                        };
                        &&& item.denom@ == entry.token.denom@
                        &&& item.staked_balance.height == qh
                        &&& item.staked_balance.balance as int == ledgers@[entry.address as int].balance_at(
                            address,
                            qh,
                        )
                    },
            decreases n - i,
        {
            let entry = &self.registry[i];
            let lcount = ledgers.len();
            proof {
                assert(self.registry@[i as int].address < ledgers@.len());
                assert(entry.address as int <= usize::MAX as int);
            }
            let ledger = &ledgers[entry.address as usize];
            let staked_balance = ledger.query_staked_balance(address, height, env_height);
            out.push(TokenStakedBalance { denom: entry.token.denom.clone(), staked_balance });
            i += 1;
        }
        AllTokensStakedBalanceAtHeightResponse { tokens_staked_balance: out }
    }

    /// Proxy a paginated staker listing to the ledger registered for
    /// `denom`; an unregistered denomination is a not-found error.
    pub fn query_list_stakers_by_denom(
        &self,
        ledgers: &Vec<StakeLedger>,
        denom: String,
        start_after: Option<u64>,
        limit: Option<u32>,
    ) -> (r: Result<ListStakersByDenomResponse, ContractError>)
        requires
            self.wf(),
            self.registry_resolves(ledgers@),
            ledgers_wf(ledgers@),
        ensures
            !self.contains_denom(denom@) ==> (r matches Err(e) && e matches
                ContractError::NotFound { denom: d } && d@ == denom@),
            self.contains_denom(denom@) ==> {
                &&& r matches Ok(resp)
                &&& r matches Ok(resp) ==> {
                    &&& resp.denom@ == denom@
                    &&& stakers_page_matches(
                        ledgers@[self.registered(denom@).address as int].balances.entries@,
                        start_after,
                        limit,
                        resp.stakers@,
                    )
                }
            },
    {
        match self.find_denom(&denom) {
            None => Err(ContractError::NotFound { denom }),
            Some(i) => {
                let addr = self.registry[i].address;
                let lcount = ledgers.len();
                proof {
                    assert(self.registry@[i as int].address < ledgers@.len());
                    assert(addr as int <= usize::MAX as int);
                }
                let page = ledgers[addr as usize].query_all_stakers(start_after, limit);
                Ok(ListStakersByDenomResponse { denom, stakers: page.stakers })
            },
        }
    }
}

/// Each denomination occurs at exactly one registry position.
pub proof fn lemma_registry_index_unique(o: Orchestrator, i: int)
    requires
        o.wf(),
        0 <= i < o.registry@.len(),
    ensures
        o.contains_denom(o.registry@[i].token.denom@),
        o.index_of_denom(o.registry@[i].token.denom@) == i,
{
    let denom = o.registry@[i].token.denom@;
    assert(o.contains_denom(denom));
    let j = o.index_of_denom(denom);
    assert(0 <= j < o.registry@.len() && o.registry@[j].token.denom@ == denom);
    if j < i {
        assert(o.registry@[j].token.denom@ != o.registry@[i].token.denom@);
    } else if j > i {
        assert(o.registry@[i].token.denom@ != o.registry@[j].token.denom@);
    }
}

/// Writing registry position `i` leaves every other denomination's
/// registration unchanged.
proof fn lemma_registry_frame(o0: Orchestrator, o1: Orchestrator, i: int)
    requires
        o0.wf(),
        o1.wf(),
        0 <= i < o1.registry@.len(),
        i < o0.registry@.len() ==> o1.registry@.len() == o0.registry@.len()
            && o0.registry@[i].token.denom@ == o1.registry@[i].token.denom@,
        i >= o0.registry@.len() ==> o1.registry@.len() == o0.registry@.len() + 1 && i
            == o0.registry@.len(),
        forall|j: int|
            0 <= j < o1.registry@.len() && j != i ==> o1.registry@[j] == o0.registry@[j],
    ensures
        forall|d: Seq<char>|
            d != o1.registry@[i].token.denom@ ==> (o1.contains_denom(d) <==> o0.contains_denom(
                d,
            )),
        forall|d: Seq<char>|
            d != o1.registry@[i].token.denom@ && o0.contains_denom(d) ==> o1.registered(d)
                == o0.registered(d),
{
    let denom = o1.registry@[i].token.denom@;
    assert forall|d: Seq<char>|
        d != denom && o0.contains_denom(d) implies o1.contains_denom(d) && o1.registered(d)
        == o0.registered(d) by {
        let j = o0.index_of_denom(d);
        lemma_registry_index_unique(o0, j);
        if j == i {
            assert(o0.registry@[i].token.denom@ == denom);
        }
        assert(j != i);
        assert(j < o1.registry@.len());
        assert(o1.registry@[j] == o0.registry@[j]);
        lemma_registry_index_unique(o1, j);
    }
    assert forall|d: Seq<char>| d != denom && o1.contains_denom(d) implies o0.contains_denom(
        d,
    ) by {
        let j = o1.index_of_denom(d);
        lemma_registry_index_unique(o1, j);
        assert(j != i);
        assert(o0.registry@[j].token.denom@ == d);
    }
}

} // verus!
