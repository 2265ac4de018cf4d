//! A model of a chain for testing contracts: its bank, staking and contract modules.
pub mod balance;
pub mod bank;
pub mod cache;
pub mod coin;
pub mod decimal;
pub mod staking;
pub mod table;
pub mod wasm;
pub mod terra;
pub mod instantiate;
pub mod app;
pub mod test_helpers;
