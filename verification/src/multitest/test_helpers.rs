//! Messages of the contracts used to test the chain model.
pub mod hackatom;
pub mod payout;

use vstd::prelude::*;

verus! {

#[derive(Debug, Clone, Default)]
pub struct EmptyMsg {}

/// This is just a demo place so we can test custom message handling
#[derive(Debug, Clone, PartialEq, Eq)]
pub enum CustomMsg {
    SetName { name: String },
    SetAge { age: u32 },
}

} // verus!
