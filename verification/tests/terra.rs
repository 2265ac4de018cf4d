use cw_plus::multitest::bank::{BankState, SimpleBank};
use cw_plus::multitest::coin::coin;
use cw_plus::multitest::terra::{TerraError, TerraMock, TerraMsg, TerraMsgWrapper, TerraRoute};

const TAX_RATE_ONE_SIXTH: u128 = 166_666_666_666_666_666;

fn balance(bank: &SimpleBank, store: &BankState, addr: &str) -> Vec<(String, u128)> {
    bank.get_balance(store, &addr.to_string())
        .into_iter()
        .map(|c| (c.denom, c.amount))
        .collect()
}

#[test]
fn swap_send_is_taxed_on_the_offer() {
    let terra = TerraMock::new();
    let msg = TerraMsgWrapper {
        route: TerraRoute::Market,
        msg_data: TerraMsg::SwapSend {
            offer_coin: coin(1000, "uusd"),
            ask_denom: "uluna".to_string(),
            to_address: "bob".to_string(),
        },
    };
    let taxable = terra.get_taxable_coins(&msg);
    assert_eq!(taxable, vec![coin(1000, "uusd")]);

    let swap = TerraMsgWrapper {
        route: TerraRoute::Market,
        msg_data: TerraMsg::Swap { offer_coin: coin(1000, "uusd"), ask_denom: "uluna".to_string() },
    };
    assert!(terra.get_taxable_coins(&swap).is_empty());
}

#[test]
fn taxes_are_rate_times_amount_up_to_the_cap() {
    let terra = TerraMock::new();
    let coins = vec![coin(600, "uusd"), coin(60_000_000, "uusd")];
    let taxes = terra.calculate_taxes(&coins, TAX_RATE_ONE_SIXTH, &[1_390_000, 1_390_000]);
    // 600 / 6 rounds down to 99 with the truncated rate; the large one hits the cap
    assert_eq!(taxes, vec![coin(99, "uusd"), coin(1_390_000, "uusd")]);
    assert!(terra.calculate_taxes(&coins, 0, &[]).is_empty());
}

#[test]
fn swap_moves_funds_with_a_spread_of_one() {
    let terra = TerraMock::new();
    let bank = SimpleBank {};
    let mut store = BankState::new();
    let alice = "alice".to_string();
    bank.set_balance(&mut store, &alice, vec![coin(100, "uluna")]);

    let resp = terra
        .swap(&bank, &mut store, &alice, coin(10, "uluna"), "uusd".to_string(), None, coin(770, "uusd"), true)
        .unwrap();
    assert_eq!(balance(&bank, &store, "alice"), vec![("uluna".to_string(), 90), ("uusd".to_string(), 769)]);
    assert_eq!(resp.events.len(), 2);
    assert_eq!(resp.events[0].ty, "swap");
    let attrs: Vec<(String, String)> = resp.events[0]
        .attributes
        .iter()
        .map(|a| (a.key.clone(), a.value.clone()))
        .collect();
    assert_eq!(
        attrs,
        vec![
            ("offer".to_string(), "10uluna".to_string()),
            ("trader".to_string(), "alice".to_string()),
            ("recipient".to_string(), "alice".to_string()),
            ("swap_coin".to_string(), "769uusd".to_string()),
            ("swap_fee".to_string(), "1uusd".to_string()),
        ]
    );
    assert_eq!(resp.events[1].ty, "message");
    assert_eq!(resp.events[1].attributes[0].value, "market");
}

#[test]
fn swap_send_credits_the_recipient() {
    let terra = TerraMock::new();
    let bank = SimpleBank {};
    let mut store = BankState::new();
    let alice = "alice".to_string();
    bank.set_balance(&mut store, &alice, vec![coin(100, "uluna")]);
    let msg = TerraMsgWrapper {
        route: TerraRoute::Market,
        msg_data: TerraMsg::SwapSend {
            offer_coin: coin(100, "uluna"),
            ask_denom: "uusd".to_string(),
            to_address: "bob".to_string(),
        },
    };
    terra.execute(&bank, &mut store, &alice, msg, coin(7700, "uusd"), true).unwrap();
    assert!(balance(&bank, &store, "alice").is_empty());
    assert_eq!(balance(&bank, &store, "bob"), vec![("uusd".to_string(), 7699)]);
}

#[test]
fn swap_refusals() {
    let terra = TerraMock::new();
    let bank = SimpleBank {};
    let mut store = BankState::new();
    let alice = "alice".to_string();
    bank.set_balance(&mut store, &alice, vec![coin(5, "uluna")]);
    let e = terra
        .swap(&bank, &mut store, &alice, coin(1, "uluna"), "uluna".to_string(), None, coin(1, "uluna"), true)
        .unwrap_err();
    assert_eq!(e, TerraError::RecursiveSwap);
    let e = terra
        .swap(&bank, &mut store, &alice, coin(6, "uluna"), "uusd".to_string(), None, coin(100, "uusd"), true)
        .unwrap_err();
    assert_eq!(e, TerraError::InsufficientFunds);
    assert_eq!(balance(&bank, &store, "alice"), vec![("uluna".to_string(), 5)]);
}

#[test]
fn swap_to_a_refused_recipient_moves_nothing() {
    let terra = TerraMock::new();
    let bank = SimpleBank {};
    let mut store = BankState::new();
    let alice = "alice".to_string();
    bank.set_balance(&mut store, &alice, vec![coin(100, "uluna")]);
    let err = terra
        .swap(
            &bank,
            &mut store,
            &alice,
            coin(10, "uluna"),
            "uusd".to_string(),
            Some("Bob".to_string()),
            coin(770, "uusd"),
            false,
        )
        .unwrap_err();
    assert_eq!(err, TerraError::InvalidAddress);
    assert_eq!(balance(&bank, &store, "alice"), vec![("uluna".to_string(), 100)]);
    // without a recipient the check does not matter
    terra
        .swap(&bank, &mut store, &alice, coin(10, "uluna"), "uusd".to_string(), None, coin(770, "uusd"), false)
        .unwrap();
    assert_eq!(balance(&bank, &store, "alice"), vec![("uluna".to_string(), 90), ("uusd".to_string(), 769)]);
}
