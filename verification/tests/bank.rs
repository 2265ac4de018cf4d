use cw_plus::multitest::bank::{BankError, BankMsg, BankQuery, BankResponse, BankState, SimpleBank};
use cw_plus::multitest::coin::{coin, Coin};

fn coins(amount: u128, denom: &str) -> Vec<Coin> {
    vec![coin(amount, denom)]
}

#[test]
fn get_set_balance() {
    let mut store = BankState::new();

    let owner = "owner".to_string();
    let rcpt = "receiver".to_string();
    let init_funds = vec![coin(100, "eth"), coin(20, "btc")];
    let norm = vec![coin(20, "btc"), coin(100, "eth")];

    // set money
    let bank = SimpleBank {};
    bank.set_balance(&mut store, &owner, init_funds);

    // get balance work
    let rich = bank.get_balance(&store, &owner);
    assert_eq!(rich, norm);
    let poor = bank.get_balance(&store, &rcpt);
    assert_eq!(poor, vec![]);

    // proper queries work
    let req = BankQuery::AllBalances { address: owner.clone() };
    let res = bank.query(&store, req);
    assert_eq!(res, BankResponse::AllBalances { amount: norm });

    let req = BankQuery::AllBalances { address: rcpt.clone() };
    let res = bank.query(&store, req);
    assert_eq!(res, BankResponse::AllBalances { amount: vec![] });

    let req = BankQuery::Balance { address: owner.clone(), denom: "eth".into() };
    let res = bank.query(&store, req);
    assert_eq!(res, BankResponse::Balance { amount: coin(100, "eth") });

    let req = BankQuery::Balance { address: owner, denom: "foobar".into() };
    let res = bank.query(&store, req);
    assert_eq!(res, BankResponse::Balance { amount: coin(0, "foobar") });

    let req = BankQuery::Balance { address: rcpt, denom: "eth".into() };
    let res = bank.query(&store, req);
    assert_eq!(res, BankResponse::Balance { amount: coin(0, "eth") });
}

#[test]
fn send_coins() {
    let mut store = BankState::new();

    let owner = "owner".to_string();
    let rcpt = "receiver".to_string();
    let init_funds = vec![coin(20, "btc"), coin(100, "eth")];
    let rcpt_funds = vec![coin(5, "btc")];

    // set money
    let bank = SimpleBank {};
    bank.set_balance(&mut store, &owner, init_funds);
    bank.set_balance(&mut store, &rcpt, rcpt_funds);

    // send both tokens
    let to_send = vec![coin(30, "eth"), coin(5, "btc")];
    let msg = BankMsg::Send { to_address: rcpt.clone(), amount: to_send };
    bank.execute(&mut store, &owner, msg.clone()).unwrap();
    let rich = bank.get_balance(&store, &owner);
    assert_eq!(vec![coin(15, "btc"), coin(70, "eth")], rich);
    let poor = bank.get_balance(&store, &rcpt);
    assert_eq!(vec![coin(10, "btc"), coin(30, "eth")], poor);

    // can send from any account with funds
    bank.execute(&mut store, &rcpt, msg).unwrap();

    // cannot send too much
    let msg = BankMsg::Send { to_address: rcpt, amount: coins(20, "btc") };
    bank.execute(&mut store, &owner, msg).unwrap_err();

    let rich = bank.get_balance(&store, &owner);
    assert_eq!(vec![coin(15, "btc"), coin(70, "eth")], rich);
}

#[test]
fn burn_coins() {
    let mut store = BankState::new();

    let owner = "owner".to_string();
    let rcpt = "recipient".to_string();
    let init_funds = vec![coin(20, "btc"), coin(100, "eth")];

    // set money
    let bank = SimpleBank {};
    bank.set_balance(&mut store, &owner, init_funds);

    // burn both tokens
    let to_burn = vec![coin(30, "eth"), coin(5, "btc")];
    let msg = BankMsg::Burn { amount: to_burn };
    bank.execute(&mut store, &owner, msg).unwrap();
    let rich = bank.get_balance(&store, &owner);
    assert_eq!(vec![coin(15, "btc"), coin(70, "eth")], rich);

    // cannot burn too much
    let msg = BankMsg::Burn { amount: coins(20, "btc") };
    let err = bank.execute(&mut store, &owner, msg).unwrap_err();
    assert_eq!(err, BankError::Overflow);
    let rich = bank.get_balance(&store, &owner);
    assert_eq!(vec![coin(15, "btc"), coin(70, "eth")], rich);

    // cannot burn from empty account
    let msg = BankMsg::Burn { amount: coins(1, "btc") };
    let err = bank.execute(&mut store, &rcpt, msg).unwrap_err();
    assert_eq!(err, BankError::Overflow);
}

#[test]
fn mint_merges_denominations() {
    let mut store = BankState::new();
    let bank = SimpleBank {};
    let who = "who".to_string();
    bank.mint(&mut store, &who, vec![coin(3, "b"), coin(0, "z"), coin(4, "a"), coin(1, "b")]);
    assert_eq!(bank.get_balance(&store, &who), vec![coin(4, "a"), coin(4, "b")]);
}
