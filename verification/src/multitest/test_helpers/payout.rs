//! Messages of a contract that pays a fixed amount to whoever executes it.
use crate::multitest::coin::Coin;
use vstd::prelude::*;

verus! {

#[derive(Debug, Clone)]
pub struct InstantiateMessage {
    pub payout: Coin,
}

#[derive(Debug, Clone, Default)]
pub struct SudoMsg {
    pub set_count: u32,
}

#[derive(Debug, Clone)]
pub enum QueryMsg {
    Count {},
    Payout {},
}

#[derive(Debug, Clone, Default)]
pub struct CountResponse {
    pub count: u32,
}

} // verus!
