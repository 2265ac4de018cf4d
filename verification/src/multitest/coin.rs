//! Amounts of native tokens.
use vstd::prelude::*;

verus! {

/// An amount of one native token.
#[derive(Clone, Debug, PartialEq, Eq)]
pub struct Coin {
    pub denom: String,
    pub amount: u128,
}

/// The view of a coin: its denomination and amount.
pub open spec fn coin_view(c: Coin) -> (Seq<char>, u128) {
    (c.denom@, c.amount)
}

/// The views of a list of coins.
pub open spec fn coins_view(cs: Seq<Coin>) -> Seq<(Seq<char>, u128)> {
    cs.map_values(|c: Coin| coin_view(c))
}

/// A coin of the given amount and denomination.
pub fn coin(amount: u128, denom: &str) -> (r: Coin)
    ensures
        r.amount == amount,
        r.denom@ == denom@,
{
    Coin { denom: denom.to_owned(), amount }
}

/// A copy of a coin.
pub fn copy_coin(c: &Coin) -> (r: Coin)
    ensures
        coin_view(r) == coin_view(*c),
{
    Coin { denom: c.denom.clone(), amount: c.amount }
}

} // verus!
