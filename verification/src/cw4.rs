//! Messages and raw storage keys of group membership contracts.
use crate::helpers::{length_prefixed, namespaced_key};
use vstd::prelude::*;

verus! {

/// TOTAL_KEY is meant for raw queries
pub const TOTAL_KEY: &'static str = "total";

pub const MEMBERS_KEY: &'static str = "members";

pub const MEMBERS_CHECKPOINTS: &'static str = "members__checkpoints";

pub const MEMBERS_CHANGELOG: &'static str = "members__changelog";

/// A member of a group and its voting weight.
#[derive(Clone, Debug, PartialEq, Eq)]
pub struct Member {
    pub addr: String,
    pub weight: u64,
}

/// The queries a group contract answers.
#[derive(Clone, Debug, PartialEq, Eq)]
pub enum Cw4QueryMsg {
    /// Return AdminResponse
    Admin {},
    /// Return TotalWeightResponse
    TotalWeight {},
    /// Returns MembersListResponse
    ListMembers { start_after: Option<String>, limit: Option<u32> },
    /// Returns MemberResponse
    Member { addr: String, at_height: Option<u64> },
    /// Shows all registered hooks. Returns HooksResponse.
    Hooks {},
}

/// The messages a group contract handles besides its own.
#[derive(Clone, Debug, PartialEq, Eq)]
pub enum Cw4ExecuteMsg {
    /// Change the admin
    UpdateAdmin { admin: Option<String> },
    /// Add a new hook to be informed of all membership changes. Must be called by Admin
    AddHook { addr: String },
    /// Remove a hook. Must be called by Admin
    RemoveHook { addr: String },
}

#[derive(Clone, Debug, PartialEq, Eq)]
pub struct MemberListResponse {
    pub members: Vec<Member>,
}

#[derive(Clone, Debug, PartialEq, Eq)]
pub struct MemberResponse {
    pub weight: Option<u64>,
}

#[derive(Clone, Debug, PartialEq, Eq)]
pub struct AdminResponse {
    pub admin: Option<String>,
}

#[derive(Clone, Debug, PartialEq, Eq)]
pub struct TotalWeightResponse {
    pub weight: u64,
}

#[derive(Clone, Debug, PartialEq, Eq)]
pub struct HooksResponse {
    pub hooks: Vec<String>,
}

/// MemberDiff shows the old and new states for a given cw4 member.
/// old = None, new = Some -> Insert
/// old = Some, new = Some -> Update
/// old = Some, new = None -> Delete
#[derive(Clone, Debug, PartialEq, Eq)]
pub struct MemberDiff {
    pub addr: String,
    pub old_weight: Option<u64>,
    pub new_weight: Option<u64>,
}

impl MemberDiff {
    pub fn new(addr: String, old_weight: Option<u64>, new_weight: Option<u64>) -> (r: Self)
        ensures
            r == (MemberDiff { addr, old_weight, new_weight }),
    {
        MemberDiff { addr, old_weight, new_weight }
    }
}

/// The membership changes a hook is told about.
#[derive(Clone, Debug, PartialEq, Eq)]
pub struct MemberChangedHookMsg {
    pub diffs: Vec<MemberDiff>,
}

/// The bytes of the members namespace.
pub open spec fn members_namespace() -> Seq<u8> {
    seq![109u8, 101u8, 109u8, 98u8, 101u8, 114u8, 115u8]
}

/// member_key is meant for raw queries for one member, given canonical address:
/// the length-prefixed members namespace followed by the address.
pub fn member_key(address: &[u8]) -> (r: Vec<u8>)
    ensures
        r@ == length_prefixed(members_namespace()) + address@,
{
    let mut key: Vec<u8> = vec![0u8, 7u8, 109u8, 101u8, 109u8, 98u8, 101u8, 114u8, 115u8];
    key.extend_from_slice(address);
    assert(key@ =~= length_prefixed(members_namespace()) + address@);
    key
}

/// The raw key of a member is the key under which a map in the members namespace
/// stores the entry of that address.
pub proof fn lemma_member_key_is_map_key(address: Seq<u8>)
    ensures
        length_prefixed(members_namespace()) + address == namespaced_key(
            seq![members_namespace()],
            address,
        ),
{
    reveal_with_fuel(crate::helpers::nested_prefix, 2);
    assert(seq![members_namespace()].drop_first() =~= Seq::<Seq<u8>>::empty());
    assert(length_prefixed(members_namespace()) + Seq::<u8>::empty() =~= length_prefixed(
        members_namespace(),
    ));
}

/// Why a member's weight could not be read.
#[derive(Clone, Copy, Debug, PartialEq, Eq, Structural)]
pub enum WeightError {
    /// The stored bytes are not a weight.
    ParseErr,
}

/// The weight of a member from the raw value stored under its member key: an empty value
/// means the address is no member.
pub fn member_weight(value: &[u8]) -> (r: Result<Option<u64>, WeightError>)
    ensures
        value@.len() == 0 ==> r == Ok::<Option<u64>, WeightError>(None),
        value@.len() > 0 ==> r == match crate::snapshot::u64_of(value@) {
            Some(w) => Ok::<Option<u64>, WeightError>(Some(w)),
            None => Err(WeightError::ParseErr),
        },
{
    // This is the only place we customize
    if value.len() == 0 {
        Ok(None)
    } else {
        match crate::snapshot::parse_u64(value) {
            Some(w) => Ok(Some(w)),
            None => Err(WeightError::ParseErr),
        }
    }
}

} // verus!
