//! Messages of a contract which when executed releases the funds to beneficiary.
use vstd::prelude::*;

verus! {

#[derive(Debug, Clone)]
pub struct InstantiateMsg {
    pub beneficiary: String,
}

#[derive(Debug, Clone)]
pub struct MigrateMsg {
    // just use some other string so we see there are other types
    pub new_guy: String,
}

#[derive(Debug, Clone)]
pub enum QueryMsg {
    // returns InstantiateMsg
    Beneficiary {},
}

} // verus!
