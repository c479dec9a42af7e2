use symphony_staking::claims::Claim;
use symphony_staking::duration::{Duration, Expiration, UnboundingDurationError};
use symphony_staking::staking::{ContractError, StakeLedger, MAX_CLAIMS};
use symphony_staking::types::{BlockInfo, Coin, TokenDenom};

const OWNER: u64 = 1;
const OTHER_USER: u64 = 2;
const TIME_BETWEEN_BLOCKS: u64 = 5;

fn native_token() -> TokenDenom {
    TokenDenom { denom: "ustake".to_string(), exponent: 6 }
}

fn coin(amount: u128, denom: &str) -> Coin {
    Coin { denom: denom.to_string(), amount }
}

fn genesis_block() -> BlockInfo {
    BlockInfo { height: 1, time: 10 }
}

fn next_block(block: &mut BlockInfo) {
    block.height += 1;
    block.time += TIME_BETWEEN_BLOCKS;
}

fn instantiate_staking(unbounding_duration: Option<Duration>) -> StakeLedger {
    StakeLedger::instantiate(Some(OWNER), OWNER, native_token(), unbounding_duration, 1).unwrap()
}

#[test]
fn native_staking_instantiate() {
    let ledger = instantiate_staking(Some(Duration::Time(100)));
    let config = ledger.query_config();
    assert_eq!(config.staking_token.denom, "ustake".to_string());
    assert_eq!(config.staking_token.exponent, 6);
    assert_eq!(config.unstaking_duration, Some(Duration::Time(100)));
    assert_eq!(ledger.owner, OWNER);
}

#[test]
fn native_staking_instantiate_without_explicit_owner() {
    let ledger =
        StakeLedger::instantiate(None, OWNER, native_token(), Some(Duration::Time(100)), 1)
            .unwrap();
    let config = ledger.query_config();
    assert_eq!(config.staking_token.denom, "ustake".to_string());
    assert_eq!(config.unstaking_duration, Some(Duration::Time(100)));
    assert_eq!(ledger.owner, OWNER);
}

#[test]
fn instantiate_rejects_zero_duration() {
    for duration in [Duration::Time(0), Duration::Height(0)] {
        let result = StakeLedger::instantiate(None, OWNER, native_token(), Some(duration), 1);
        match result {
            Err(e) => assert_eq!(
                e,
                ContractError::UnboundingDurationError(
                    UnboundingDurationError::InvalidUnboundingDuration {}
                )
            ),
            Ok(_) => panic!("a zero duration must be rejected"),
        }
    }
}

#[test]
fn execute_stake_should_fail_if_no_funds() {
    let mut ledger = instantiate_staking(Some(Duration::Time(100)));
    let funds: Vec<Coin> = vec![];
    let err = ledger.execute_stake(OWNER, &funds, 1).unwrap_err();
    assert_eq!(err, ContractError::NoStakeAmount {});
}

#[test]
fn execute_stake_should_fail_if_more_than_one_coin_sent() {
    let mut ledger = instantiate_staking(Some(Duration::Time(100)));
    let funds = vec![coin(0, "ustake"), coin(100, "utoken")];
    let err = ledger.execute_stake(OWNER, &funds, 1).unwrap_err();
    assert_eq!(err, ContractError::InvalidDenom {});
}

#[test]
fn execute_stake_should_fail_if_amount_is_zero() {
    let mut ledger = instantiate_staking(Some(Duration::Time(100)));
    let funds = vec![coin(0, "ustake")];
    let err = ledger.execute_stake(OWNER, &funds, 1).unwrap_err();
    assert_eq!(err, ContractError::NoStakeAmount {});
}

#[test]
fn execute_stake_should_succeed() {
    let mut ledger = instantiate_staking(Some(Duration::Time(100)));
    let mut block = genesis_block();
    let funds = vec![coin(100, "ustake")];
    let staked = ledger.execute_stake(OWNER, &funds, block.height).unwrap();
    assert_eq!(staked, 100);

    next_block(&mut block);

    let staked_balance = ledger.query_staked_balance(OWNER, None, block.height);
    assert_eq!(staked_balance.balance, 100);

    let total_staked = ledger.query_total_staked_at_height(None, block.height);
    assert_eq!(total_staked.total, 100);
}

#[test]
fn staked_balance_is_snapshot_indexed() {
    let mut ledger = instantiate_staking(None);
    let funds = vec![coin(100, "ustake")];
    ledger.execute_stake(OWNER, &funds, 5).unwrap();
    let funds = vec![coin(50, "ustake")];
    ledger.execute_stake(OWNER, &funds, 8).unwrap();

    // before the first write nothing is recorded
    assert_eq!(ledger.query_staked_balance(OWNER, Some(4), 9).balance, 0);
    assert_eq!(ledger.query_total_staked_at_height(Some(4), 9).total, 0);
    // a write at height h is visible from h on, until superseded
    assert_eq!(ledger.query_staked_balance(OWNER, Some(5), 9).balance, 100);
    assert_eq!(ledger.query_staked_balance(OWNER, Some(7), 9).balance, 100);
    assert_eq!(ledger.query_staked_balance(OWNER, Some(8), 9).balance, 150);
    assert_eq!(ledger.query_staked_balance(OWNER, None, 9).balance, 150);
    assert_eq!(ledger.query_total_staked_at_height(Some(7), 9).total, 100);
    assert_eq!(ledger.query_total_staked_at_height(Some(8), 9).total, 150);
}

#[test]
fn execute_unstake_should_fail_if_no_staked_amount() {
    let mut ledger = instantiate_staking(Some(Duration::Time(100)));
    let block = genesis_block();
    let err = ledger.execute_unstake(OWNER, 100, &block, 0).unwrap_err();
    assert_eq!(err, ContractError::NoUnstakeAmount {});
}

#[test]
fn execute_unstake_should_fail_if_amount_is_bigger_than_total_staked() {
    let mut ledger = instantiate_staking(None);
    let mut block = genesis_block();
    let funds = vec![coin(100, "ustake")];
    ledger.execute_stake(OWNER, &funds, block.height).unwrap();
    next_block(&mut block);
    let err = ledger.execute_unstake(OWNER, 200, &block, 100).unwrap_err();
    assert_eq!(err, ContractError::InvalidUnstakeAmount {});
}

#[test]
fn execute_unstake_should_fail_if_amount_is_bigger_than_user_staked() {
    let mut ledger = instantiate_staking(None);
    let mut block = genesis_block();
    let funds = vec![coin(100, "ustake")];
    ledger.execute_stake(OWNER, &funds, block.height).unwrap();
    ledger.execute_stake(OTHER_USER, &funds, block.height).unwrap();
    next_block(&mut block);
    let err = ledger.execute_unstake(OWNER, 200, &block, 200).unwrap_err();
    assert_eq!(err, ContractError::InvalidUnstakeAmount {});
}

#[test]
fn execute_unstake_should_succeed() {
    let mut ledger = instantiate_staking(None);
    let mut block = genesis_block();
    let funds = vec![coin(100, "ustake")];
    ledger.execute_stake(OWNER, &funds, block.height).unwrap();
    ledger.execute_stake(OTHER_USER, &funds, block.height).unwrap();
    next_block(&mut block);

    let send = ledger.execute_unstake(OWNER, 100, &block, 200).unwrap().unwrap();
    assert_eq!(send.to_account, OWNER);
    assert_eq!(send.denom, "ustake".to_string());
    assert_eq!(send.amount, 100);

    next_block(&mut block);
    assert_eq!(ledger.query_staked_balance(OWNER, None, block.height).balance, 0);
    assert_eq!(ledger.query_staked_balance(OTHER_USER, None, block.height).balance, 100);
}

#[test]
fn execute_unstake_fails_if_contract_balance_is_short() {
    let mut ledger = instantiate_staking(None);
    let block = genesis_block();
    let funds = vec![coin(100, "ustake")];
    ledger.execute_stake(OWNER, &funds, block.height).unwrap();
    let err = ledger.execute_unstake(OWNER, 100, &block, 99).unwrap_err();
    assert_eq!(err, ContractError::InvalidUnstakeAmount {});
}

#[test]
fn execute_unstake_guards_against_saturation() {
    let mut ledger = instantiate_staking(None);
    let block = genesis_block();
    let funds = vec![coin(u128::MAX - 5, "ustake")];
    ledger.execute_stake(OWNER, &funds, block.height).unwrap();
    let err = ledger.execute_unstake(OWNER, 10, &block, u128::MAX).unwrap_err();
    assert_eq!(err, ContractError::AvoidSaturationAttack {});
}

#[test]
fn execute_stake_overflow_is_checked() {
    let mut ledger = instantiate_staking(None);
    let funds = vec![coin(u128::MAX - 10, "ustake")];
    ledger.execute_stake(OWNER, &funds, 1).unwrap();
    let funds = vec![coin(11, "ustake")];
    let err = ledger.execute_stake(OTHER_USER, &funds, 1).unwrap_err();
    assert_eq!(err, ContractError::Overflow {});
}

#[test]
fn unstake_boundary_at_total_staked() {
    let mut ledger = instantiate_staking(None);
    let mut block = genesis_block();
    let funds = vec![coin(100, "ustake")];
    ledger.execute_stake(OWNER, &funds, block.height).unwrap();
    next_block(&mut block);

    let err = ledger.execute_unstake(OWNER, 101, &block, 1000).unwrap_err();
    assert_eq!(err, ContractError::InvalidUnstakeAmount {});

    let send = ledger.execute_unstake(OWNER, 100, &block, 1000).unwrap().unwrap();
    assert_eq!(send.amount, 100);
    assert_eq!(ledger.query_total_staked_at_height(None, block.height).total, 0);
}

#[test]
fn execute_unstake_with_unbound_period_should_succeed() {
    let mut ledger = instantiate_staking(Some(Duration::Time(5)));
    let mut block = genesis_block();
    let funds = vec![coin(100, "ustake")];
    ledger.execute_stake(OWNER, &funds, block.height).unwrap();
    next_block(&mut block);

    let outcome = ledger.execute_unstake(OWNER, 100, &block, 100).unwrap();
    assert!(outcome.is_none());

    next_block(&mut block);
    assert_eq!(ledger.query_staked_balance(OWNER, None, block.height).balance, 0);

    let claims = ledger.query_claims(OWNER);
    assert_eq!(claims.claims.len(), 1);
    assert_eq!(claims.claims[0].amount, 100);
    assert_eq!(claims.claims[0].release_at, Expiration::AtTime(block.time));

    // the unbound period has passed, so the funds can be claimed
    let send = ledger.execute_claim(OWNER, &block).unwrap();
    assert_eq!(send.to_account, OWNER);
    assert_eq!(send.amount, 100);
    assert_eq!(send.denom, "ustake".to_string());
    assert_eq!(ledger.query_claims(OWNER).claims.len(), 0);
}

#[test]
fn execute_unstake_with_unbound_period_should_fail_before_time() {
    let mut ledger = instantiate_staking(Some(Duration::Time(15)));
    let mut block = genesis_block();
    let funds = vec![coin(100, "ustake")];
    ledger.execute_stake(OWNER, &funds, block.height).unwrap();
    next_block(&mut block);

    let outcome = ledger.execute_unstake(OWNER, 100, &block, 100).unwrap();
    assert!(outcome.is_none());

    next_block(&mut block);
    assert_eq!(ledger.query_staked_balance(OWNER, None, block.height).balance, 0);

    let claims = ledger.query_claims(OWNER);
    assert_eq!(claims.claims.len(), 1);
    assert_eq!(claims.claims[0].amount, 100);
    assert_eq!(claims.claims[0].release_at, Expiration::AtTime(block.time + 10));

    let err = ledger.execute_claim(OWNER, &block).unwrap_err();
    assert_eq!(err, ContractError::NothingToClaim {});
    assert_eq!(ledger.query_claims(OWNER).claims.len(), 1);
}

#[test]
fn claim_fails_immediately_then_succeeds_after_time() {
    // stake 100 ustake with a five-second unbonding period
    let mut ledger = instantiate_staking(Some(Duration::Time(5)));
    let mut block = genesis_block();
    let funds = vec![coin(100, "ustake")];
    ledger.execute_stake(OWNER, &funds, block.height).unwrap();
    ledger.execute_unstake(OWNER, 100, &block, 100).unwrap();

    // immediately claiming finds nothing matured
    let err = ledger.execute_claim(OWNER, &block).unwrap_err();
    assert_eq!(err, ContractError::NothingToClaim {});

    // advance chain time by five seconds: the claim matures
    block.time += 5;
    let send = ledger.execute_claim(OWNER, &block).unwrap();
    assert_eq!(send.amount, 100);
    assert_eq!(send.denom, "ustake".to_string());
    assert_eq!(ledger.query_claims(OWNER).claims.len(), 0);
}

#[test]
fn too_many_claims_are_rejected() {
    let mut ledger = instantiate_staking(Some(Duration::Time(50)));
    let block = genesis_block();
    let funds = vec![coin(1000, "ustake")];
    ledger.execute_stake(OWNER, &funds, block.height).unwrap();
    for _ in 0..MAX_CLAIMS {
        ledger.execute_unstake(OWNER, 1, &block, 1000).unwrap();
    }
    let err = ledger.execute_unstake(OWNER, 1, &block, 1000).unwrap_err();
    assert_eq!(err, ContractError::TooManyClaims {});
}

#[test]
fn unstake_with_zero_total_reports_no_stake() {
    let mut ledger = instantiate_staking(None);
    let block = genesis_block();
    let funds = vec![coin(100, "ustake")];
    ledger.execute_stake(OWNER, &funds, block.height).unwrap();
    ledger.execute_unstake(OWNER, 100, &block, 100).unwrap();
    // the record remains with a zero balance, but the total is zero
    let err = ledger.execute_unstake(OWNER, 1, &block, 100).unwrap_err();
    assert_eq!(err, ContractError::NoStakeAmount {});
}

#[test]
fn update_config_is_owner_only_and_validated() {
    let mut ledger = instantiate_staking(Some(Duration::Time(100)));
    let err = ledger.execute_update_config(OTHER_USER, None).unwrap_err();
    assert_eq!(err, ContractError::NotOwner {});

    let err = ledger.execute_update_config(OWNER, Some(Duration::Height(0))).unwrap_err();
    assert_eq!(
        err,
        ContractError::UnboundingDurationError(
            UnboundingDurationError::InvalidUnboundingDuration {}
        )
    );
    assert_eq!(ledger.query_config().unstaking_duration, Some(Duration::Time(100)));

    ledger.execute_update_config(OWNER, Some(Duration::Height(7))).unwrap();
    assert_eq!(ledger.query_config().unstaking_duration, Some(Duration::Height(7)));
}

#[test]
fn list_stakers_pages_in_ascending_order() {
    let mut ledger = instantiate_staking(None);
    for account in [5u64, 3, 9, 1] {
        let funds = vec![coin(10 * (account as u128), "ustake")];
        ledger.execute_stake(account, &funds, 1).unwrap();
    }
    let all = ledger.query_all_stakers(None, None);
    let listed: Vec<(u64, u128)> = all.stakers.iter().map(|s| (s.address, s.balance)).collect();
    assert_eq!(listed, vec![(1, 10), (3, 30), (5, 50), (9, 90)]);

    let page = ledger.query_all_stakers(Some(3), Some(2));
    let listed: Vec<(u64, u128)> = page.stakers.iter().map(|s| (s.address, s.balance)).collect();
    assert_eq!(listed, vec![(5, 50), (9, 90)]);

    let page = ledger.query_all_stakers(Some(9), Some(2));
    assert_eq!(page.stakers.len(), 0);
}

#[test]
fn claims_keep_unmatured_entries_in_order() {
    let mut ledger = instantiate_staking(Some(Duration::Time(10)));
    let mut block = genesis_block();
    let funds = vec![coin(100, "ustake")];
    ledger.execute_stake(OWNER, &funds, block.height).unwrap();

    ledger.execute_unstake(OWNER, 30, &block, 100).unwrap();
    block.time += 4;
    ledger.execute_unstake(OWNER, 20, &block, 100).unwrap();

    // after ten seconds only the first claim has matured
    block.time += 6;
    let send = ledger.execute_claim(OWNER, &block).unwrap();
    assert_eq!(send.amount, 30);
    let remaining: Vec<Claim> = ledger.query_claims(OWNER).claims;
    assert_eq!(remaining.len(), 1);
    assert_eq!(remaining[0].amount, 20);
}
