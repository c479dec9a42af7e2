use symphony_staking::duration::Duration;
use symphony_staking::orchestrator::{Orchestrator, ReplyMsg, SubMsgOutcome};
use symphony_staking::rewards::{
    ContractError, RewardsDistributionByToken, RewardsEngine, WEIGHT_TOTAL,
};
use symphony_staking::staking::StakeLedger;
use symphony_staking::types::{Coin, TokenDenom};

const OWNER: u64 = 1;
const STAKER_A: u64 = 3;
const STAKER_B: u64 = 4;
const ORCHESTRATOR_ADDR: u64 = 100;
const STAKE_DENOM: &str = "ustake";
const REWARD_DENOM: &str = "urev";

fn denom_unit(denom: &str) -> TokenDenom {
    TokenDenom { denom: denom.to_string(), exponent: 6 }
}

fn coin(amount: u128, denom: &str) -> Coin {
    Coin { denom: denom.to_string(), amount }
}

fn weighted(denom: &str, weight: u64) -> RewardsDistributionByToken {
    RewardsDistributionByToken { denom: denom_unit(denom), weight }
}

/// Play the platform: provision one ledger through the orchestrator.
fn create_staking_contract(
    orch: &mut Orchestrator,
    ledgers: &mut Vec<StakeLedger>,
    denom: &str,
    unbonding_period: Option<Duration>,
) {
    let request = orch
        .execute_create_staking_contract(
            OWNER,
            ORCHESTRATOR_ADDR,
            7,
            denom_unit(denom),
            unbonding_period,
            Some(OWNER),
            vec![],
        )
        .unwrap();
    let ledger = StakeLedger::instantiate(
        request.msg.owner,
        ORCHESTRATOR_ADDR,
        request.msg.denom_unit,
        request.msg.unbonding_period,
        1,
    )
    .unwrap();
    ledgers.push(ledger);
    let address = (ledgers.len() - 1) as u64;
    let reply = ReplyMsg {
        id: request.reply_id,
        outcome: SubMsgOutcome::Success { contract_address: Some(address) },
    };
    orch.reply(&reply, ledgers).unwrap();
}

fn instantiate_rewards(distribution: Vec<RewardsDistributionByToken>) -> RewardsEngine {
    RewardsEngine::instantiate(
        Some(OWNER),
        OWNER,
        ORCHESTRATOR_ADDR,
        denom_unit(REWARD_DENOM),
        distribution,
        1,
    )
    .unwrap()
}

#[test]
fn staking_rewards_instantiate() {
    let rewards_distribution = vec![weighted("ustake", 50_000), weighted("ustable", 50_000)];
    let engine = instantiate_rewards(rewards_distribution);

    let config = engine.query_config();
    assert_eq!(config.staking_orchestrator_addr, ORCHESTRATOR_ADDR);
    assert_eq!(config.reward_token.denom, REWARD_DENOM.to_string());
    assert_eq!(config.rewards_distribution.len(), 2);
    assert_eq!(config.rewards_distribution[0].denom.denom, "ustake".to_string());
    assert_eq!(config.rewards_distribution[0].weight, 50_000);
    assert_eq!(config.rewards_distribution[1].denom.denom, "ustable".to_string());
    assert_eq!(config.rewards_distribution[1].weight, 50_000);

    let pool_states = engine.query_all_pool_states();
    assert_eq!(pool_states.pool_states.len(), 2);
    for pool in &pool_states.pool_states {
        assert_eq!(pool.total_rewards, 0);
    }
}

#[test]
fn instantiate_rejects_weights_not_summing_to_total() {
    let result = RewardsEngine::instantiate(
        Some(OWNER),
        OWNER,
        ORCHESTRATOR_ADDR,
        denom_unit(REWARD_DENOM),
        vec![weighted("ustake", 50_000)],
        1,
    );
    match result {
        Err(e) => assert_eq!(e, ContractError::InvalidRewardsDistribution { total_weight: 50_000 }),
        Ok(_) => panic!("a weight table summing to half the total must be rejected"),
    }
}

#[test]
fn update_config_revalidates_weights() {
    let mut engine = instantiate_rewards(vec![weighted(STAKE_DENOM, WEIGHT_TOTAL)]);

    let err = engine
        .execute_update_config(OWNER + 1, None, None, None)
        .unwrap_err();
    assert_eq!(err, ContractError::NotOwner {});

    let err = engine
        .execute_update_config(OWNER, None, None, Some(vec![weighted("ustake", 99_999)]))
        .unwrap_err();
    assert_eq!(err, ContractError::InvalidRewardsDistribution { total_weight: 99_999 });
    assert_eq!(engine.query_config().rewards_distribution[0].weight, WEIGHT_TOTAL);

    engine
        .execute_update_config(
            OWNER,
            Some(ORCHESTRATOR_ADDR + 1),
            None,
            Some(vec![weighted("ustake", 40_000), weighted("ucoin", 60_000)]),
        )
        .unwrap();
    let config = engine.query_config();
    assert_eq!(config.staking_orchestrator_addr, ORCHESTRATOR_ADDR + 1);
    assert_eq!(config.rewards_distribution.len(), 2);
}

#[test]
fn distribute_rewards() {
    let mut orch = Orchestrator::instantiate(Some(OWNER), OWNER);
    let mut ledgers: Vec<StakeLedger> = Vec::new();
    create_staking_contract(&mut orch, &mut ledgers, STAKE_DENOM, None);

    let mut engine = instantiate_rewards(vec![weighted(STAKE_DENOM, 100_000)]);

    let funds = vec![coin(100, STAKE_DENOM)];
    ledgers[0].execute_stake(STAKER_A, &funds, 1).unwrap();

    let no_funds: Vec<Coin> = vec![];
    let err = engine
        .execute_distribute_rewards(&no_funds, 2, &orch, &ledgers)
        .unwrap_err();
    assert_eq!(err, ContractError::NoRewardsToDistribute {});

    let funds = vec![coin(1_000_000, REWARD_DENOM)];
    let distributed = engine
        .execute_distribute_rewards(&funds, 2, &orch, &ledgers)
        .unwrap();
    assert_eq!(distributed, 1_000_000);

    let user_states = engine.query_all_user_states();
    assert_eq!(user_states.user_states.len(), 1);
    assert_eq!(user_states.user_states[0].reward_debt, 1_000_000);

    let pool_state = engine.query_pool_state(STAKE_DENOM.to_string(), None).unwrap();
    assert_eq!(pool_state.total_rewards, 1_000_000);

    let user_state = engine.query_user_state(STAKER_A, None).unwrap();
    assert_eq!(user_state.reward_debt, 1_000_000);

    let send = engine.execute_claim_rewards(STAKER_A, 3).unwrap();
    assert_eq!(send.to_account, STAKER_A);
    assert_eq!(send.denom, REWARD_DENOM.to_string());
    assert_eq!(send.amount, 1_000_000);

    let user_state = engine.query_user_state(STAKER_A, None).unwrap();
    assert_eq!(user_state.reward_debt, 0);

    let pool_state = engine.query_pool_state(STAKE_DENOM.to_string(), None).unwrap();
    assert_eq!(pool_state.total_rewards, 0);
}

#[test]
fn two_stakers_split_rewards_equally() {
    let mut orch = Orchestrator::instantiate(Some(OWNER), OWNER);
    let mut ledgers: Vec<StakeLedger> = Vec::new();
    create_staking_contract(&mut orch, &mut ledgers, STAKE_DENOM, None);
    let mut engine = instantiate_rewards(vec![weighted(STAKE_DENOM, 100_000)]);

    let funds = vec![coin(100, STAKE_DENOM)];
    ledgers[0].execute_stake(STAKER_A, &funds, 1).unwrap();
    ledgers[0].execute_stake(STAKER_B, &funds, 1).unwrap();

    let funds = vec![coin(1_000_000, REWARD_DENOM)];
    engine.execute_distribute_rewards(&funds, 2, &orch, &ledgers).unwrap();

    assert_eq!(engine.query_user_state(STAKER_A, None).unwrap().reward_debt, 500_000);
    assert_eq!(engine.query_user_state(STAKER_B, None).unwrap().reward_debt, 500_000);

    let send = engine.execute_claim_rewards(STAKER_A, 3).unwrap();
    assert_eq!(send.amount, 500_000);
    assert_eq!(engine.query_user_state(STAKER_A, None).unwrap().reward_debt, 0);

    // the pool decreases by exactly the claimed half
    let pool_state = engine.query_pool_state(STAKE_DENOM.to_string(), None).unwrap();
    assert_eq!(pool_state.total_rewards, 500_000);
    assert_eq!(engine.query_user_state(STAKER_B, None).unwrap().reward_debt, 500_000);
}

#[test]
fn distributing_twice_doubles_the_accruals() {
    let mut orch = Orchestrator::instantiate(Some(OWNER), OWNER);
    let mut ledgers: Vec<StakeLedger> = Vec::new();
    create_staking_contract(&mut orch, &mut ledgers, STAKE_DENOM, None);
    let mut engine = instantiate_rewards(vec![weighted(STAKE_DENOM, 100_000)]);

    let funds = vec![coin(100, STAKE_DENOM)];
    ledgers[0].execute_stake(STAKER_A, &funds, 1).unwrap();
    ledgers[0].execute_stake(STAKER_B, &funds, 1).unwrap();

    let reward_funds = vec![coin(1_000_001, REWARD_DENOM)];
    engine.execute_distribute_rewards(&reward_funds, 2, &orch, &ledgers).unwrap();
    let debt_once = engine.query_user_state(STAKER_A, None).unwrap().reward_debt;
    let pool_once = engine.query_pool_state(STAKE_DENOM.to_string(), None).unwrap().total_rewards;

    engine.execute_distribute_rewards(&reward_funds, 3, &orch, &ledgers).unwrap();
    assert_eq!(engine.query_user_state(STAKER_A, None).unwrap().reward_debt, 2 * debt_once);
    assert_eq!(engine.query_user_state(STAKER_B, None).unwrap().reward_debt, 2 * debt_once);
    assert_eq!(
        engine.query_pool_state(STAKE_DENOM.to_string(), None).unwrap().total_rewards,
        2 * pool_once
    );
}

#[test]
fn rounding_dust_is_never_distributed() {
    let mut orch = Orchestrator::instantiate(Some(OWNER), OWNER);
    let mut ledgers: Vec<StakeLedger> = Vec::new();
    create_staking_contract(&mut orch, &mut ledgers, "uaaa", None);
    create_staking_contract(&mut orch, &mut ledgers, "ubbb", None);
    let mut engine = RewardsEngine::instantiate(
        Some(OWNER),
        OWNER,
        ORCHESTRATOR_ADDR,
        denom_unit(REWARD_DENOM),
        vec![weighted("uaaa", 33_333), weighted("ubbb", 66_667)],
        1,
    )
    .unwrap();

    let funds = vec![coin(3, "uaaa")];
    ledgers[0].execute_stake(STAKER_A, &funds, 1).unwrap();
    let funds = vec![coin(7, "uaaa")];
    ledgers[0].execute_stake(STAKER_B, &funds, 1).unwrap();

    let funds = vec![coin(1000, REWARD_DENOM)];
    engine.execute_distribute_rewards(&funds, 2, &orch, &ledgers).unwrap();

    // shares: floor(1000 * 33333 / 100000) = 333, floor(1000 * 66667 / 100000) = 666
    assert_eq!(engine.query_pool_state("uaaa".to_string(), None).unwrap().total_rewards, 333);
    assert_eq!(engine.query_pool_state("ubbb".to_string(), None).unwrap().total_rewards, 666);
    // per-staker: floor(3 * 333 / 10) = 99 and floor(7 * 333 / 10) = 233; one unit of dust stays
    assert_eq!(engine.query_user_state(STAKER_A, None).unwrap().reward_debt, 99);
    assert_eq!(engine.query_user_state(STAKER_B, None).unwrap().reward_debt, 233);
}

#[test]
fn pool_history_is_snapshot_indexed() {
    let mut orch = Orchestrator::instantiate(Some(OWNER), OWNER);
    let mut ledgers: Vec<StakeLedger> = Vec::new();
    create_staking_contract(&mut orch, &mut ledgers, STAKE_DENOM, None);
    let mut engine = instantiate_rewards(vec![weighted(STAKE_DENOM, WEIGHT_TOTAL)]);

    let funds = vec![coin(100, STAKE_DENOM)];
    ledgers[0].execute_stake(STAKER_A, &funds, 1).unwrap();
    let funds = vec![coin(1_000, REWARD_DENOM)];
    engine.execute_distribute_rewards(&funds, 5, &orch, &ledgers).unwrap();

    let before = engine.query_pool_state(STAKE_DENOM.to_string(), Some(4)).unwrap();
    assert_eq!(before.total_rewards, 0);
    assert_eq!(before.block_height, 1);

    let after = engine.query_pool_state(STAKE_DENOM.to_string(), Some(5)).unwrap();
    assert_eq!(after.total_rewards, 1_000);
    assert_eq!(after.block_height, 5);
}

#[test]
fn claim_rewards_errors() {
    let mut engine = instantiate_rewards(vec![weighted(STAKE_DENOM, WEIGHT_TOTAL)]);
    let err = engine.execute_claim_rewards(STAKER_A, 2).unwrap_err();
    assert_eq!(err, ContractError::UserNotFound {});
}

#[test]
fn claim_rewards_with_zero_debt_is_rejected() {
    let mut orch = Orchestrator::instantiate(Some(OWNER), OWNER);
    let mut ledgers: Vec<StakeLedger> = Vec::new();
    create_staking_contract(&mut orch, &mut ledgers, STAKE_DENOM, None);
    let mut engine = instantiate_rewards(vec![weighted(STAKE_DENOM, WEIGHT_TOTAL)]);

    let funds = vec![coin(100, STAKE_DENOM)];
    ledgers[0].execute_stake(STAKER_A, &funds, 1).unwrap();
    let funds = vec![coin(10, REWARD_DENOM)];
    engine.execute_distribute_rewards(&funds, 2, &orch, &ledgers).unwrap();
    engine.execute_claim_rewards(STAKER_A, 3).unwrap();

    let err = engine.execute_claim_rewards(STAKER_A, 4).unwrap_err();
    assert_eq!(err, ContractError::NoRewardsToClaim {});
}

#[test]
fn distribute_with_zero_total_stake_and_listed_stakers_fails() {
    let mut orch = Orchestrator::instantiate(Some(OWNER), OWNER);
    let mut ledgers: Vec<StakeLedger> = Vec::new();
    create_staking_contract(&mut orch, &mut ledgers, STAKE_DENOM, None);
    let mut engine = instantiate_rewards(vec![weighted(STAKE_DENOM, WEIGHT_TOTAL)]);

    // stake and unstake fully: the staker stays listed with a zero balance
    let funds = vec![coin(100, STAKE_DENOM)];
    ledgers[0].execute_stake(STAKER_A, &funds, 1).unwrap();
    let block = symphony_staking::types::BlockInfo { height: 1, time: 10 };
    ledgers[0].execute_unstake(STAKER_A, 100, &block, 100).unwrap();

    let funds = vec![coin(1_000, REWARD_DENOM)];
    let err = engine.execute_distribute_rewards(&funds, 2, &orch, &ledgers).unwrap_err();
    assert_eq!(err, ContractError::DivideByZero {});
}

#[test]
fn distribute_with_no_stakers_skips_the_denomination() {
    let mut orch = Orchestrator::instantiate(Some(OWNER), OWNER);
    let mut ledgers: Vec<StakeLedger> = Vec::new();
    create_staking_contract(&mut orch, &mut ledgers, STAKE_DENOM, None);
    let mut engine = instantiate_rewards(vec![weighted(STAKE_DENOM, WEIGHT_TOTAL)]);

    let funds = vec![coin(1_000, REWARD_DENOM)];
    engine.execute_distribute_rewards(&funds, 2, &orch, &ledgers).unwrap();
    // the pool accrues its slice, and no user state exists
    assert_eq!(engine.query_pool_state(STAKE_DENOM.to_string(), None).unwrap().total_rewards, 1_000);
    assert_eq!(engine.query_all_user_states().user_states.len(), 0);
}

#[test]
fn distribute_unregistered_denomination_is_not_found() {
    let orch = Orchestrator::instantiate(Some(OWNER), OWNER);
    let ledgers: Vec<StakeLedger> = Vec::new();
    let mut engine = instantiate_rewards(vec![weighted("uxyz", WEIGHT_TOTAL)]);
    let funds = vec![coin(1_000, REWARD_DENOM)];
    let err = engine.execute_distribute_rewards(&funds, 2, &orch, &ledgers).unwrap_err();
    assert_eq!(err, ContractError::NotFound { denom: "uxyz".to_string() });
}

#[test]
fn distribute_without_pool_is_not_found() {
    let mut orch = Orchestrator::instantiate(Some(OWNER), OWNER);
    let mut ledgers: Vec<StakeLedger> = Vec::new();
    create_staking_contract(&mut orch, &mut ledgers, "unew", None);
    let mut engine = instantiate_rewards(vec![weighted(STAKE_DENOM, WEIGHT_TOTAL)]);
    // replacing the table does not open pools for new denominations
    engine
        .execute_update_config(OWNER, None, None, Some(vec![weighted("unew", WEIGHT_TOTAL)]))
        .unwrap();
    let funds = vec![coin(1_000, REWARD_DENOM)];
    let err = engine.execute_distribute_rewards(&funds, 2, &orch, &ledgers).unwrap_err();
    assert_eq!(err, ContractError::NotFound { denom: "unew".to_string() });
}

#[test]
fn distribute_share_overflow_is_checked() {
    let orch = Orchestrator::instantiate(Some(OWNER), OWNER);
    let ledgers: Vec<StakeLedger> = Vec::new();
    let mut engine = instantiate_rewards(vec![weighted(STAKE_DENOM, WEIGHT_TOTAL)]);
    let funds = vec![coin(u128::MAX, REWARD_DENOM)];
    let err = engine.execute_distribute_rewards(&funds, 2, &orch, &ledgers).unwrap_err();
    assert_eq!(err, ContractError::Overflow {});
}

#[test]
fn pool_and_user_queries_report_not_found() {
    let engine = instantiate_rewards(vec![weighted(STAKE_DENOM, WEIGHT_TOTAL)]);
    let err = engine.query_pool_state("nosuch".to_string(), None).unwrap_err();
    assert_eq!(err, ContractError::NotFound { denom: "nosuch".to_string() });
    // before the pool existed, a height query finds nothing
    let err = engine.query_pool_state(STAKE_DENOM.to_string(), Some(0)).unwrap_err();
    assert_eq!(err, ContractError::NotFound { denom: STAKE_DENOM.to_string() });
    let err = engine.query_user_state(STAKER_A, None).unwrap_err();
    assert_eq!(err, ContractError::UserNotFound {});
}
