use cw_plus::multitest::bank::{BankQuery, BankResponse, BankState, SimpleBank};
use cw_plus::multitest::coin::{coin, Coin};
use cw_plus::multitest::wasm::Event;
use cw_plus::multitest::staking::{
    calculate_rewards, BankAction, Delegation, DistributionKeeper, DistributionMsg, FullDelegation,
    StakeKeeper, StakingError, StakingInfo, StakingMsg, StakingQuery, StakingQueryResponse,
    StakingState, StakingSudo, Validator,
};

const BLOCK_TIME: u64 = 1_571_797_419_879_305_533;
const YEAR: u64 = 60 * 60 * 24 * 365 * 1_000_000_000;

fn percent(x: u128) -> u128 {
    x * 10_000_000_000_000_000
}

fn validator(address: &str, commission: u128, max_commission: u128, max_change_rate: u128) -> Validator {
    Validator { address: address.to_string(), commission, max_commission, max_change_rate }
}

fn setup_test_env(apr: u128, commission: u128) -> (StakingState, StakeKeeper, DistributionKeeper, String) {
    let mut state = StakingState::new();
    state.setup(StakingInfo { bonded_denom: "TOKEN".to_string(), unbonding_time: 60, apr });
    state
        .add_validator(BLOCK_TIME, validator("testvaloper1", commission, percent(100), percent(1)), true)
        .unwrap();
    (state, StakeKeeper::new(), DistributionKeeper::new(), "testvaloper1".to_string())
}

fn apply(bank: &SimpleBank, store: &mut BankState, action: BankAction) {
    match action {
        BankAction::Send { from, to, amount } => bank.send(store, &from, &to, amount).unwrap(),
        BankAction::Mint { to, amount } => bank.mint(store, &to, amount),
    }
}

fn balance(bank: &SimpleBank, store: &BankState, addr: &str) -> u128 {
    match bank.query(store, BankQuery::Balance { address: addr.to_string(), denom: "TOKEN".to_string() }) {
        BankResponse::Balance { amount } => amount.amount,
        _ => panic!("wrong response"),
    }
}

// The only event reported, as its type and attributes.
fn event_of(events: &[Event]) -> (String, Vec<(String, String)>) {
    assert_eq!(events.len(), 1);
    (
        events[0].ty.clone(),
        events[0].attributes.iter().map(|a| (a.key.clone(), a.value.clone())).collect(),
    )
}

fn rewards(state: &StakingState, time: u64, delegator: &str, validator: &str) -> u128 {
    state
        .get_rewards(time, &delegator.to_string(), &validator.to_string())
        .unwrap()
        .unwrap()
        .amount
}

#[test]
fn add_get_validators() {
    let mut state = StakingState::new();
    let valoper1 = validator("testvaloper1", percent(10), percent(20), percent(1));
    state.add_validator(BLOCK_TIME, valoper1.clone(), true).unwrap();
    let val = state.get_validator(&"testvaloper1".to_string()).unwrap();
    assert_eq!(val, valoper1);
    // try to add with same address
    let fake = validator("testvaloper1", percent(1), percent(10), percent(100));
    assert_eq!(state.add_validator(BLOCK_TIME, fake, true), Err(StakingError::ValidatorExists));
    // should still be the value set before
    let val = state.get_validator(&"testvaloper1".to_string()).unwrap();
    assert_eq!(val, valoper1);
}

#[test]
fn validator_slashing() {
    let mut state = StakingState::new();
    let stake = StakeKeeper::new();
    let delegator = "delegator".to_string();
    let val = "testvaloper1".to_string();
    state.add_validator(BLOCK_TIME, validator("testvaloper1", percent(10), percent(20), percent(1)), true).unwrap();
    // stake 100 tokens
    state.add_stake(BLOCK_TIME, &delegator, &val, &coin(100, "TOKEN")).unwrap();
    // slash 50%
    stake
        .sudo(&mut state, BLOCK_TIME, StakingSudo::Slash { validator: val.clone(), percentage: percent(50) }, true)
        .unwrap();
    let left = state.get_stake(&delegator, &val).unwrap();
    assert_eq!(left.amount, 50, "should have slashed 50%");
    // slash all
    stake
        .sudo(&mut state, BLOCK_TIME, StakingSudo::Slash { validator: val.clone(), percentage: percent(100) }, true)
        .unwrap();
    assert_eq!(state.get_stake(&delegator, &val), None, "should have slashed whole stake");
}

#[test]
fn rewards_work_for_single_delegator() {
    let (mut state, _stake, distr, val) = setup_test_env(percent(10), percent(10));
    let delegator = "delegator".to_string();
    let mut time = BLOCK_TIME;
    // stake 200 tokens
    state.add_stake(time, &delegator, &val, &coin(200, "TOKEN")).unwrap();
    // wait 1/2 year
    time += YEAR / 2;
    // should now have 200 * 10% / 2 - 10% commission = 9 tokens reward
    assert_eq!(rewards(&state, time, "delegator", "testvaloper1"), 9, "should have 9 tokens reward");
    // withdraw rewards
    distr
        .execute(&mut state, time, &delegator, DistributionMsg::WithdrawDelegatorReward { validator: val.clone() }, true)
        .unwrap();
    // should have no rewards left
    assert_eq!(rewards(&state, time, "delegator", "testvaloper1"), 0);
    // wait another 1/2 year
    time += YEAR / 2;
    // should now have 9 tokens again
    assert_eq!(rewards(&state, time, "delegator", "testvaloper1"), 9);
}

#[test]
fn rewards_work_for_multiple_delegators() {
    let (mut state, _stake, distr, val) = setup_test_env(percent(10), percent(10));
    let bank = SimpleBank {};
    let mut bank_store = BankState::new();
    let d1 = "delegator1".to_string();
    let d2 = "delegator2".to_string();
    let mut time = BLOCK_TIME;
    // add 100 stake to delegator1 and 200 to delegator2
    state.add_stake(time, &d1, &val, &coin(100, "TOKEN")).unwrap();
    state.add_stake(time, &d2, &val, &coin(200, "TOKEN")).unwrap();
    // wait 1 year
    time += YEAR;
    assert_eq!(rewards(&state, time, "delegator1", "testvaloper1"), 9);
    assert_eq!(rewards(&state, time, "delegator2", "testvaloper1"), 18);
    // delegator1 stakes 100 more
    state.add_stake(time, &d1, &val, &coin(100, "TOKEN")).unwrap();
    // wait another year
    time += YEAR;
    assert_eq!(rewards(&state, time, "delegator1", "testvaloper1"), 27);
    assert_eq!(rewards(&state, time, "delegator2", "testvaloper1"), 36);
    // delegator2 unstakes 100 (has 100 left after that)
    state.remove_stake(time, &d2, &val, &coin(100, "TOKEN")).unwrap();
    // and delegator1 withdraws rewards
    let response = distr
        .execute(&mut state, time, &d1, DistributionMsg::WithdrawDelegatorReward { validator: val.clone() }, true)
        .unwrap();
    assert_eq!(
        event_of(&response.events),
        (
            "withdraw_delegator_reward".to_string(),
            vec![
                ("validator".to_string(), "testvaloper1".to_string()),
                ("sender".to_string(), "delegator1".to_string()),
                ("amount".to_string(), "27TOKEN".to_string()),
            ]
        )
    );
    apply(&bank, &mut bank_store, response.action.unwrap());
    assert_eq!(balance(&bank, &bank_store, "delegator1"), 27, "withdraw should change bank balance");
    assert_eq!(rewards(&state, time, "delegator1", "testvaloper1"), 0, "withdraw should reduce rewards to 0");
    // wait another year
    time += YEAR;
    assert_eq!(rewards(&state, time, "delegator1", "testvaloper1"), 18);
    assert_eq!(rewards(&state, time, "delegator2", "testvaloper1"), 45);
}

#[test]
fn execute() {
    // test all execute msgs
    let (mut state, stake, distr, validator1) = setup_test_env(percent(10), percent(10));
    let bank = SimpleBank {};
    let mut bank_store = BankState::new();
    let d1 = "delegator1".to_string();
    let mut time = BLOCK_TIME;
    // fund delegator1 account
    bank.set_balance(&mut bank_store, &d1, vec![coin(1000, "TOKEN")]);
    // add second validator
    let validator2 = "validator2".to_string();
    state.add_validator(time, validator("validator2", 0, percent(20), percent(1)), true).unwrap();
    // delegate 100 tokens to validator1
    let action = stake
        .execute(&mut state, time, &d1, StakingMsg::Delegate { validator: validator1.clone(), amount: coin(100, "TOKEN") }, true)
        .unwrap()
        .action
        .unwrap();
    apply(&bank, &mut bank_store, action);
    // should now have 100 tokens less
    assert_eq!(balance(&bank, &bank_store, "delegator1"), 900);
    // wait a year
    time += YEAR;
    // withdraw rewards
    let action = distr
        .execute(&mut state, time, &d1, DistributionMsg::WithdrawDelegatorReward { validator: validator1.clone() }, true)
        .unwrap()
        .action
        .unwrap();
    apply(&bank, &mut bank_store, action);
    // redelegate to validator2
    let response = stake
        .execute(
            &mut state,
            time,
            &d1,
            StakingMsg::Redelegate {
                src_validator: validator1.clone(),
                dst_validator: validator2.clone(),
                amount: coin(100, "TOKEN"),
            },
            true,
        )
        .unwrap();
    assert!(response.action.is_none());
    assert_eq!(
        event_of(&response.events),
        (
            "redelegate".to_string(),
            vec![
                ("source_validator".to_string(), "testvaloper1".to_string()),
                ("destination_validator".to_string(), "validator2".to_string()),
                ("amount".to_string(), "100TOKEN".to_string()),
            ]
        )
    );
    // should have same amount as before
    assert_eq!(balance(&bank, &bank_store, "delegator1"), 900 + 100 / 10 * 9 / 10);
    let delegations = stake
        .query(&state, time, StakingQuery::AllDelegations { delegator: d1.clone() }, true)
        .unwrap();
    assert_eq!(
        delegations,
        StakingQueryResponse::AllDelegations {
            delegations: vec![Delegation {
                delegator: d1.clone(),
                validator: validator2.clone(),
                amount: coin(100, "TOKEN"),
            }]
        }
    );
    // undelegate all tokens
    stake
        .execute(&mut state, time, &d1, StakingMsg::Undelegate { validator: validator2.clone(), amount: coin(100, "TOKEN") }, true)
        .unwrap();
    // wait for unbonding period (60 seconds in default config)
    time += 60 * 1_000_000_000;
    // need to manually cause queue to get processed
    let actions = stake.sudo(&mut state, time, StakingSudo::ProcessQueue {}, true).unwrap();
    for action in actions {
        apply(&bank, &mut bank_store, action);
    }
    // check bank balance
    assert_eq!(balance(&bank, &bank_store, "delegator1"), 1000 + 100 / 10 * 9 / 10);
}

#[test]
fn cannot_steal() {
    let (mut state, stake, _distr, validator1) = setup_test_env(percent(10), percent(10));
    let d1 = "delegator1".to_string();
    // delegate 100 tokens to validator1
    stake
        .execute(&mut state, BLOCK_TIME, &d1, StakingMsg::Delegate { validator: validator1.clone(), amount: coin(100, "TOKEN") }, true)
        .unwrap();
    // undelegate more tokens than we have
    let e = stake
        .execute(&mut state, BLOCK_TIME, &d1, StakingMsg::Undelegate { validator: validator1.clone(), amount: coin(200, "TOKEN") }, true)
        .unwrap_err();
    assert_eq!(e, StakingError::InsufficientStake);
    // add second validator
    let validator2 = "validator2".to_string();
    state.add_validator(BLOCK_TIME, validator("validator2", 0, percent(20), percent(1)), true).unwrap();
    // redelegate more tokens than we have
    let e = stake
        .execute(
            &mut state,
            BLOCK_TIME,
            &d1,
            StakingMsg::Redelegate {
                src_validator: validator1.clone(),
                dst_validator: validator2,
                amount: coin(200, "TOKEN"),
            },
            true,
        )
        .unwrap_err();
    assert_eq!(e, StakingError::InsufficientStake);
}

#[test]
fn query_staking() {
    // run all staking queries
    let (mut state, stake, _distr, validator1) = setup_test_env(percent(10), percent(10));
    let d1 = "delegator1".to_string();
    let d2 = "delegator2".to_string();
    // add another validator
    let validator2 = "testvaloper2".to_string();
    let valoper2 = validator("testvaloper2", 0, percent(1), percent(1));
    state.add_validator(BLOCK_TIME, valoper2.clone(), true).unwrap();
    // query validators
    let valoper1 = match stake.query(&state, BLOCK_TIME, StakingQuery::Validator { address: validator1.clone() }, true).unwrap() {
        StakingQueryResponse::Validator { validator } => validator.unwrap(),
        _ => panic!("wrong response"),
    };
    let validators = stake.query(&state, BLOCK_TIME, StakingQuery::AllValidators {}, true).unwrap();
    assert_eq!(validators, StakingQueryResponse::AllValidators { validators: vec![valoper1, valoper2] });
    // query non-existent validator
    let response = stake
        .query(&state, BLOCK_TIME, StakingQuery::Validator { address: "notvaloper".to_string() }, true)
        .unwrap();
    assert_eq!(response, StakingQueryResponse::Validator { validator: None });
    // query bonded denom
    let response = stake.query(&state, BLOCK_TIME, StakingQuery::BondedDenom {}, true).unwrap();
    assert_eq!(response, StakingQueryResponse::BondedDenom { denom: "TOKEN".to_string() });
    // delegate some tokens with delegator1 and delegator2
    stake
        .execute(&mut state, BLOCK_TIME, &d1, StakingMsg::Delegate { validator: validator1.clone(), amount: coin(100, "TOKEN") }, true)
        .unwrap();
    stake
        .execute(&mut state, BLOCK_TIME, &d1, StakingMsg::Delegate { validator: validator2.clone(), amount: coin(160, "TOKEN") }, true)
        .unwrap();
    stake
        .execute(&mut state, BLOCK_TIME, &d2, StakingMsg::Delegate { validator: validator1.clone(), amount: coin(150, "TOKEN") }, true)
        .unwrap();
    // query all delegations
    let response1 = stake
        .query(&state, BLOCK_TIME, StakingQuery::AllDelegations { delegator: d1.clone() }, true)
        .unwrap();
    assert_eq!(
        response1,
        StakingQueryResponse::AllDelegations {
            delegations: vec![
                Delegation { delegator: d1.clone(), validator: validator1.clone(), amount: coin(100, "TOKEN") },
                Delegation { delegator: d1.clone(), validator: validator2.clone(), amount: coin(160, "TOKEN") },
            ]
        }
    );
    let response2 = stake
        .query(&state, BLOCK_TIME, StakingQuery::Delegation { delegator: d2.clone(), validator: validator1.clone() }, true)
        .unwrap();
    assert_eq!(
        response2,
        StakingQueryResponse::Delegation {
            delegation: Some(FullDelegation {
                delegator: d2.clone(),
                validator: validator1.clone(),
                amount: coin(150, "TOKEN"),
                can_redelegate: coin(150, "TOKEN"),
                accumulated_rewards: vec![],
            })
        }
    );
}

#[test]
fn calculate_rewards_for_half_a_year() {
    // 200 tokens at 10% for half a year is 10 tokens, less 10% commission
    let r = calculate_rewards(YEAR / 2, 0, percent(10), percent(10), 200);
    assert_eq!(r, 9 * 1_000_000_000_000_000_000);
    // nothing accrues within the same second
    let r = calculate_rewards(999_999_999, 0, percent(10), percent(10), 200);
    assert_eq!(r, 0);
}

#[test]
fn delegating_the_wrong_denom_or_nothing_is_refused() {
    let (mut state, stake, _distr, validator1) = setup_test_env(percent(10), percent(10));
    let d1 = "delegator1".to_string();
    let e = stake
        .execute(&mut state, BLOCK_TIME, &d1, StakingMsg::Delegate { validator: validator1.clone(), amount: coin(100, "OTHER") }, true)
        .unwrap_err();
    assert_eq!(e, StakingError::WrongDenom);
    let e = stake
        .execute(&mut state, BLOCK_TIME, &d1, StakingMsg::Delegate { validator: validator1.clone(), amount: coin(0, "TOKEN") }, true)
        .unwrap_err();
    assert_eq!(e, StakingError::ZeroAmount);
    let e = stake
        .execute(&mut state, BLOCK_TIME, &d1, StakingMsg::Delegate { validator: "nobody".to_string(), amount: coin(1, "TOKEN") }, true)
        .unwrap_err();
    assert_eq!(e, StakingError::ValidatorNotFound);
}

#[test]
fn slash_above_hundred_percent_is_refused() {
    let (mut state, stake, _distr, validator1) = setup_test_env(percent(10), percent(10));
    let e = stake
        .sudo(&mut state, BLOCK_TIME, StakingSudo::Slash { validator: validator1, percentage: percent(101) }, true)
        .unwrap_err();
    assert_eq!(e, StakingError::InvalidPercentage);
}

#[test]
fn unbonding_waits_for_its_time() {
    let (mut state, stake, _distr, validator1) = setup_test_env(percent(10), percent(10));
    let d1 = "delegator1".to_string();
    stake
        .execute(&mut state, BLOCK_TIME, &d1, StakingMsg::Delegate { validator: validator1.clone(), amount: coin(100, "TOKEN") }, true)
        .unwrap();
    stake
        .execute(&mut state, BLOCK_TIME, &d1, StakingMsg::Undelegate { validator: validator1.clone(), amount: coin(40, "TOKEN") }, true)
        .unwrap();
    // not yet due
    let actions = stake.sudo(&mut state, BLOCK_TIME + 59 * 1_000_000_000, StakingSudo::ProcessQueue {}, true).unwrap();
    assert!(actions.is_empty());
    let actions = stake.sudo(&mut state, BLOCK_TIME + 60 * 1_000_000_000, StakingSudo::ProcessQueue {}, true).unwrap();
    assert_eq!(
        actions,
        vec![BankAction::Send {
            from: "staking_module".to_string(),
            to: "delegator1".to_string(),
            amount: vec![Coin { denom: "TOKEN".to_string(), amount: 40 }],
        }]
    );
    // the queue is empty afterwards
    let actions = stake.sudo(&mut state, BLOCK_TIME + 120 * 1_000_000_000, StakingSudo::ProcessQueue {}, true).unwrap();
    assert!(actions.is_empty());
}

#[test]
fn withdrawing_without_stake_fails() {
    let (mut state, _stake, distr, validator1) = setup_test_env(percent(10), percent(10));
    let e = distr
        .execute(&mut state, BLOCK_TIME, &"nobody".to_string(), DistributionMsg::WithdrawDelegatorReward { validator: validator1 }, true)
        .unwrap_err();
    assert_eq!(e, StakingError::StakeNotFound);
    let e = distr
        .execute(&mut state, BLOCK_TIME, &"nobody".to_string(), DistributionMsg::SetWithdrawAddress { address: "x".to_string() }, true)
        .unwrap_err();
    assert_eq!(e, StakingError::Unsupported);
}

#[test]
fn delegate_then_undelegate_restores_stake() {
    let (mut state, stake, _distr, val) = setup_test_env(percent(10), percent(10));
    let d1 = "delegator1".to_string();
    state.add_stake(BLOCK_TIME, &d1, &val, &coin(100, "TOKEN")).unwrap();
    let before = state.get_stake(&d1, &val);
    let time = BLOCK_TIME + YEAR;
    stake
        .execute(&mut state, time, &d1, StakingMsg::Delegate { validator: val.clone(), amount: coin(50, "TOKEN") }, true)
        .unwrap();
    assert_eq!(state.get_stake(&d1, &val).unwrap().amount, 150);
    stake
        .execute(&mut state, time, &d1, StakingMsg::Undelegate { validator: val.clone(), amount: coin(50, "TOKEN") }, true)
        .unwrap();
    assert_eq!(state.get_stake(&d1, &val), before);
}

#[test]
fn slashing_never_adds_stake() {
    let (mut state, stake, _distr, val) = setup_test_env(percent(10), percent(10));
    let d1 = "delegator1".to_string();
    state.add_stake(BLOCK_TIME, &d1, &val, &coin(80, "TOKEN")).unwrap();
    stake
        .sudo(&mut state, BLOCK_TIME, StakingSudo::Slash { validator: val.clone(), percentage: 0 }, true)
        .unwrap();
    assert_eq!(state.get_stake(&d1, &val).unwrap().amount, 80);
    stake
        .sudo(&mut state, BLOCK_TIME, StakingSudo::Slash { validator: val.clone(), percentage: percent(25) }, true)
        .unwrap();
    assert_eq!(state.get_stake(&d1, &val).unwrap().amount, 60);
}

#[test]
fn rewards_start_when_stake_arrives() {
    let (mut state, _, _, val) = setup_test_env(percent(10), percent(10));
    let delegator = "delegator".to_string();
    // the validator holds nothing for a year; its rewards are still settled up to then
    state.add_stake(BLOCK_TIME + YEAR, &delegator, &val, &coin(100, "TOKEN")).unwrap();
    // one year of 10% on 100 tokens, less 10% commission
    assert_eq!(rewards(&state, BLOCK_TIME + 2 * YEAR, "delegator", "testvaloper1"), 9);
}

#[test]
fn staking_messages_report_events() {
    let (mut state, stake, _, val) = setup_test_env(percent(10), percent(10));
    let d1 = "delegator1".to_string();
    let response = stake
        .execute(&mut state, BLOCK_TIME, &d1, StakingMsg::Delegate { validator: val.clone(), amount: coin(120, "TOKEN") }, true)
        .unwrap();
    assert_eq!(
        event_of(&response.events),
        (
            "delegate".to_string(),
            vec![
                ("validator".to_string(), "testvaloper1".to_string()),
                ("amount".to_string(), "120TOKEN".to_string()),
                ("new_shares".to_string(), "120".to_string()),
            ]
        )
    );
    let response = stake
        .execute(&mut state, BLOCK_TIME, &d1, StakingMsg::Undelegate { validator: val.clone(), amount: coin(20, "TOKEN") }, true)
        .unwrap();
    assert_eq!(
        event_of(&response.events),
        (
            "unbond".to_string(),
            vec![
                ("validator".to_string(), "testvaloper1".to_string()),
                ("amount".to_string(), "20TOKEN".to_string()),
                ("completion_time".to_string(), "2022-09-27T14:00:00+00:00".to_string()),
            ]
        )
    );
}

#[test]
fn refused_addresses_change_nothing() {
    let (mut state, stake, distr, validator1) = setup_test_env(percent(10), percent(10));
    let d1 = "delegator1".to_string();
    let msg = StakingMsg::Delegate { validator: validator1.clone(), amount: coin(100, "TOKEN") };
    assert_eq!(
        stake.execute(&mut state, BLOCK_TIME, &d1, msg, false).unwrap_err(),
        StakingError::InvalidAddress
    );
    let msg = DistributionMsg::WithdrawDelegatorReward { validator: validator1.clone() };
    assert_eq!(
        distr.execute(&mut state, BLOCK_TIME, &d1, msg, false).unwrap_err(),
        StakingError::InvalidAddress
    );
    // nothing was staked
    let msg = StakingMsg::Undelegate { validator: validator1.clone(), amount: coin(1, "TOKEN") };
    assert!(stake.execute(&mut state, BLOCK_TIME, &d1, msg, true).is_err());
    let slash = StakingSudo::Slash { validator: validator1.clone(), percentage: percent(50) };
    assert_eq!(stake.sudo(&mut state, BLOCK_TIME, slash, false).unwrap_err(), StakingError::InvalidAddress);
    let q = StakingQuery::AllDelegations { delegator: d1.clone() };
    assert_eq!(stake.query(&state, BLOCK_TIME, q, false).unwrap_err(), StakingError::InvalidAddress);
    // the validator is looked up first
    let q = StakingQuery::Delegation { delegator: d1.clone(), validator: "nobody".to_string() };
    assert_eq!(stake.query(&state, BLOCK_TIME, q, false).unwrap_err(), StakingError::NonExistentValidator);
    let q = StakingQuery::Delegation { delegator: d1, validator: validator1 };
    assert_eq!(stake.query(&state, BLOCK_TIME, q, false).unwrap_err(), StakingError::InvalidAddress);
    let v = validator("validator9", 0, percent(20), percent(1));
    assert_eq!(state.add_validator(BLOCK_TIME, v, false), Err(StakingError::InvalidAddress));
}

#[test]
fn redelegation_keeps_the_total_stake() {
    let (mut state, stake, distr, validator1) = setup_test_env(percent(10), percent(10));
    state.add_validator(BLOCK_TIME, validator("validator2", 0, percent(20), percent(1)), true).unwrap();
    let validator2 = "validator2".to_string();
    let d1 = "delegator1".to_string();
    let total = |state: &StakingState| -> u128 {
        match stake.query(state, BLOCK_TIME, StakingQuery::AllDelegations { delegator: d1.clone() }, true).unwrap() {
            StakingQueryResponse::AllDelegations { delegations } => delegations.iter().map(|d| d.amount.amount).sum(),
            _ => panic!("unexpected answer"),
        }
    };
    let msg = StakingMsg::Delegate { validator: validator1.clone(), amount: coin(100, "TOKEN") };
    stake.execute(&mut state, BLOCK_TIME, &d1, msg, true).unwrap();
    assert_eq!(total(&state), 100);
    let msg = StakingMsg::Redelegate {
        src_validator: validator1.clone(),
        dst_validator: validator2.clone(),
        amount: coin(40, "TOKEN"),
    };
    let response = stake.execute(&mut state, BLOCK_TIME, &d1, msg, true).unwrap();
    assert!(response.action.is_none());
    assert_eq!(total(&state), 100);
    assert_eq!(state.get_stake(&d1, &validator1), Some(coin(60, "TOKEN")));
    assert_eq!(state.get_stake(&d1, &validator2), Some(coin(40, "TOKEN")));
    // withdrawing in the block the rewards were settled leaves nothing to withdraw later
    let msg = DistributionMsg::WithdrawDelegatorReward { validator: validator1.clone() };
    distr.execute(&mut state, BLOCK_TIME, &d1, msg, true).unwrap();
    assert_eq!(rewards(&state, BLOCK_TIME, "delegator1", "testvaloper1"), 0);
}
