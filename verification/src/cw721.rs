//! Traits shared by non-fungible token contracts.
use vstd::prelude::*;

verus! {

/// Messages a contract can send to its chain's own modules.
pub trait CustomMsg: Clone + core::fmt::Debug + PartialEq {}

/// The message type of chains without messages of their own.
#[derive(Clone, Debug, PartialEq, Eq)]
pub struct Empty {}

impl CustomMsg for Empty {}

} // verus!
