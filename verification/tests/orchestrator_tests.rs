use symphony_staking::duration::Duration;
use symphony_staking::orchestrator::{
    ContractError, Orchestrator, ReplyMsg, SubMsgOutcome, INSTANTIATE_STAKING_REPLY_ID,
};
use symphony_staking::staking::StakeLedger;
use symphony_staking::types::{Coin, TokenDenom};

const OWNER: u64 = 1;
const ORCHESTRATOR_ADDR: u64 = 100;
const STAKING_CODE_ID: u64 = 7;

fn denom_unit(denom: &str) -> TokenDenom {
    TokenDenom { denom: denom.to_string(), exponent: 6 }
}

fn coin(amount: u128, denom: &str) -> Coin {
    Coin { denom: denom.to_string(), amount }
}

/// Play the platform: run the create-and-reply protocol for one new ledger.
fn create_staking_contract(
    orch: &mut Orchestrator,
    ledgers: &mut Vec<StakeLedger>,
    denom: &str,
    unbonding_period: Option<Duration>,
) {
    let request = orch
        .execute_create_staking_contract(
            OWNER,
            ORCHESTRATOR_ADDR,
            STAKING_CODE_ID,
            denom_unit(denom),
            unbonding_period,
            Some(OWNER),
            vec![],
        )
        .unwrap();
    assert_eq!(request.reply_id, INSTANTIATE_STAKING_REPLY_ID);
    assert_eq!(request.code_id, STAKING_CODE_ID);
    let ledger = StakeLedger::instantiate(
        request.msg.owner,
        ORCHESTRATOR_ADDR,
        request.msg.denom_unit,
        request.msg.unbonding_period,
        1,
    )
    .unwrap();
    ledgers.push(ledger);
    let address = (ledgers.len() - 1) as u64;
    let reply = ReplyMsg {
        id: request.reply_id,
        outcome: SubMsgOutcome::Success { contract_address: Some(address) },
    };
    orch.reply(&reply, ledgers).unwrap();
}

#[test]
fn staking_orchestrator_instantiate() {
    let orch = Orchestrator::instantiate(Some(OWNER), OWNER);
    assert_eq!(orch.owner, OWNER);
    assert_eq!(orch.registry.len(), 0);
}

#[test]
fn execute_create_staking_contract() {
    let mut orch = Orchestrator::instantiate(Some(OWNER), OWNER);
    let mut ledgers: Vec<StakeLedger> = Vec::new();
    create_staking_contract(&mut orch, &mut ledgers, "ustake", None);

    let contract_data = orch.query_staking_contract_by_denom("ustake".to_string()).unwrap();
    assert_eq!(contract_data.denom, "ustake".to_string());
    assert_eq!(contract_data.registered_contract.token.denom, "ustake".to_string());
    assert_eq!(contract_data.registered_contract.address, 0);
}

#[test]
fn create_staking_contract_is_owner_only() {
    let orch = Orchestrator::instantiate(Some(OWNER), OWNER);
    let err = orch
        .execute_create_staking_contract(
            OWNER + 1,
            ORCHESTRATOR_ADDR,
            STAKING_CODE_ID,
            denom_unit("ustake"),
            None,
            None,
            vec![],
        )
        .unwrap_err();
    assert_eq!(err, ContractError::NotOwner {});
}

#[test]
fn query_all_staked_tokens() {
    let mut orch = Orchestrator::instantiate(Some(OWNER), OWNER);
    let mut ledgers: Vec<StakeLedger> = Vec::new();
    create_staking_contract(&mut orch, &mut ledgers, "ustake", None);
    create_staking_contract(&mut orch, &mut ledgers, "ucoin", None);

    let all_staked = orch.query_all_tokens_staked_balance_at_height(&ledgers, OWNER, None, 1);
    assert_eq!(all_staked.tokens_staked_balance.len(), 2);
    for item in &all_staked.tokens_staked_balance {
        assert_eq!(item.staked_balance.balance, 0);
    }

    let contract_data = orch.query_staking_contract_by_denom("ustake".to_string()).unwrap();
    let staking_contract = contract_data.registered_contract.address as usize;
    let funds = vec![coin(100, "ustake")];
    ledgers[staking_contract].execute_stake(OWNER, &funds, 1).unwrap();

    let all_staked = orch.query_all_tokens_staked_balance_at_height(&ledgers, OWNER, None, 2);
    assert_eq!(all_staked.tokens_staked_balance.len(), 2);
    for item in &all_staked.tokens_staked_balance {
        if item.denom == "ustake" {
            assert_eq!(item.staked_balance.balance, 100);
        } else {
            assert_eq!(item.denom, "ucoin".to_string());
            assert_eq!(item.staked_balance.balance, 0);
        }
    }
}

#[test]
fn list_stakers_by_denom_unregistered_is_not_found() {
    let orch = Orchestrator::instantiate(Some(OWNER), OWNER);
    let ledgers: Vec<StakeLedger> = Vec::new();
    let err = orch
        .query_list_stakers_by_denom(&ledgers, "nosuch".to_string(), None, None)
        .unwrap_err();
    assert_eq!(err, ContractError::NotFound { denom: "nosuch".to_string() });
}

#[test]
fn list_stakers_by_denom_pages_through_the_ledger() {
    let mut orch = Orchestrator::instantiate(Some(OWNER), OWNER);
    let mut ledgers: Vec<StakeLedger> = Vec::new();
    create_staking_contract(&mut orch, &mut ledgers, "ustake", None);
    for account in [4u64, 2, 8] {
        let funds = vec![coin(account as u128, "ustake")];
        ledgers[0].execute_stake(account, &funds, 1).unwrap();
    }
    let page = orch
        .query_list_stakers_by_denom(&ledgers, "ustake".to_string(), Some(2), Some(1))
        .unwrap();
    assert_eq!(page.denom, "ustake".to_string());
    assert_eq!(page.stakers.len(), 1);
    assert_eq!(page.stakers[0].address, 4);
    assert_eq!(page.stakers[0].balance, 4);
}

#[test]
fn re_registering_a_denomination_overwrites_the_entry() {
    let mut orch = Orchestrator::instantiate(Some(OWNER), OWNER);
    let mut ledgers: Vec<StakeLedger> = Vec::new();
    create_staking_contract(&mut orch, &mut ledgers, "ustake", None);
    create_staking_contract(&mut orch, &mut ledgers, "ustake", None);

    assert_eq!(orch.registry.len(), 1);
    let contract_data = orch.query_staking_contract_by_denom("ustake".to_string()).unwrap();
    assert_eq!(contract_data.registered_contract.address, 1);
}

#[test]
fn reply_with_unknown_id_is_rejected() {
    let mut orch = Orchestrator::instantiate(Some(OWNER), OWNER);
    let ledgers: Vec<StakeLedger> = Vec::new();
    let reply = ReplyMsg { id: 9, outcome: SubMsgOutcome::Success { contract_address: Some(0) } };
    let err = orch.reply(&reply, &ledgers).unwrap_err();
    assert_eq!(err, ContractError::UnknownReplyId { id: 9 });
}

#[test]
fn reply_with_failed_submessage_is_rejected() {
    let mut orch = Orchestrator::instantiate(Some(OWNER), OWNER);
    let ledgers: Vec<StakeLedger> = Vec::new();
    let reply =
        ReplyMsg { id: INSTANTIATE_STAKING_REPLY_ID, outcome: SubMsgOutcome::Failure {} };
    let err = orch.reply(&reply, &ledgers).unwrap_err();
    assert_eq!(err, ContractError::SubContractInstantiationFailed {});
    assert_eq!(orch.registry.len(), 0);
}

#[test]
fn reply_without_payload_is_rejected() {
    let mut orch = Orchestrator::instantiate(Some(OWNER), OWNER);
    let ledgers: Vec<StakeLedger> = Vec::new();
    let reply = ReplyMsg {
        id: INSTANTIATE_STAKING_REPLY_ID,
        outcome: SubMsgOutcome::Success { contract_address: None },
    };
    let err = orch.reply(&reply, &ledgers).unwrap_err();
    assert_eq!(err, ContractError::MissingInstantiateData {});
}

#[test]
fn reply_with_unknown_address_is_rejected() {
    let mut orch = Orchestrator::instantiate(Some(OWNER), OWNER);
    let ledgers: Vec<StakeLedger> = Vec::new();
    let reply = ReplyMsg {
        id: INSTANTIATE_STAKING_REPLY_ID,
        outcome: SubMsgOutcome::Success { contract_address: Some(3) },
    };
    let err = orch.reply(&reply, &ledgers).unwrap_err();
    assert_eq!(err, ContractError::InvalidContractAddress {});
}

#[test]
fn query_unregistered_staking_contract_is_not_found() {
    let orch = Orchestrator::instantiate(Some(OWNER), OWNER);
    let err = orch.query_staking_contract_by_denom("ustake".to_string()).unwrap_err();
    assert_eq!(err, ContractError::NotFound { denom: "ustake".to_string() });
}
