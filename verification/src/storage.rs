//! The key-value store that all storage containers write to.
//!
//! Values live in `cosmwasm_std::MemoryStorage`; what it holds is described by the map
//! `storage_contents` from byte keys to byte values.
use crate::helpers::lex_lt;
use cosmwasm_std::MemoryStorage;
use cosmwasm_std::Storage;
use vstd::prelude::*;

verus! {

/// Why a value could not be read from storage.
#[derive(Debug, Clone, Copy, PartialEq, Eq)]
pub enum StorageError {
    /// No value is stored at the key.
    NotFound,
    /// The stored bytes do not have the expected form.
    ParseErr,
}

#[verifier::external_type_specification]
#[verifier::external_body]
pub struct ExMemoryStorage(MemoryStorage);

/// The entries that a storage holds.
pub uninterp spec fn storage_contents(store: MemoryStorage) -> Map<Seq<u8>, Seq<u8>>;

/// `MemoryStorage::new`: a storage with no entries.
#[verifier::external_body]
pub fn storage_new() -> (r: MemoryStorage)
    ensures
        storage_contents(r).dom() =~= Set::empty(),
{
    MemoryStorage::new()
}

/// `Storage::get` on a `MemoryStorage`: the value stored at the key, if any.
#[verifier::external_body]
pub fn storage_get(store: &MemoryStorage, key: &[u8]) -> (r: Option<Vec<u8>>)
    ensures
        r is Some <==> storage_contents(*store).contains_key(key@),
        r matches Some(v) ==> v@ == storage_contents(*store)[key@],
{
    store.get(key)
}

/// `Storage::set` on a `MemoryStorage`: the key now holds the value; nothing else changes.
/// The store panics on an empty value, which `requires` rules out.
#[verifier::external_body]
pub fn storage_set(store: &mut MemoryStorage, key: &[u8], value: &[u8])
    requires
        value@.len() > 0,
    ensures
        storage_contents(*final(store)) == storage_contents(*old(store)).insert(key@, value@),
{
    store.set(key, value)
}

/// `Storage::remove` on a `MemoryStorage`: the key holds nothing; nothing else changes.
#[verifier::external_body]
pub fn storage_remove(store: &mut MemoryStorage, key: &[u8])
    ensures
        storage_contents(*final(store)) == storage_contents(*old(store)).remove(key@),
{
    store.remove(key)
}

/// The direction in which a range walks its keys.
#[derive(Debug, Clone, Copy, PartialEq, Eq)]
pub enum Order {
    Ascending,
    Descending,
}

/// `k` lies in the range from `start` (included) to `end` (excluded); a missing end is open.
pub open spec fn in_range(k: Seq<u8>, start: Option<Seq<u8>>, end: Option<Seq<u8>>) -> bool {
    &&& (start matches Some(s) ==> !lex_lt(k, s))
    &&& (end matches Some(e) ==> lex_lt(k, e))
}

/// The entries of a collected range, as byte strings.
pub open spec fn entries_view(r: Seq<(Vec<u8>, Vec<u8>)>) -> Seq<(Seq<u8>, Seq<u8>)> {
    r.map_values(|p: (Vec<u8>, Vec<u8>)| (p.0@, p.1@))
}

/// `entries` are exactly the stored entries whose keys lie in the range, each once, in
/// ascending or descending key order.
pub open spec fn is_range_of(
    contents: Map<Seq<u8>, Seq<u8>>,
    start: Option<Seq<u8>>,
    end: Option<Seq<u8>>,
    order: Order,
    entries: Seq<(Seq<u8>, Seq<u8>)>,
) -> bool {
    &&& forall|i: int|
        0 <= i < entries.len() ==> {
            &&& contents.contains_key(#[trigger] entries[i].0)
            &&& contents[entries[i].0] == entries[i].1
            &&& in_range(entries[i].0, start, end)
        }
    &&& forall|k: Seq<u8>|
        contents.contains_key(k) && in_range(k, start, end) ==> exists|i: int|
            0 <= i < entries.len() && #[trigger] entries[i].0 == k
    &&& forall|i: int, j: int|
        0 <= i < j < entries.len() ==> match order {
            Order::Ascending => lex_lt(#[trigger] entries[i].0, #[trigger] entries[j].0),
            Order::Descending => lex_lt(entries[j].0, entries[i].0),
        }
}

/// `Storage::range` on a `MemoryStorage`, collected: the stored entries with keys from
/// `start` (included) to `end` (excluded), in the given key order. The store keeps its
/// entries in a `BTreeMap<Vec<u8>, Vec<u8>>`, whose keys are ordered lexicographically.
#[verifier::external_body]
pub fn storage_range(
    store: &MemoryStorage,
    start: Option<&[u8]>,
    end: Option<&[u8]>,
    order: Order,
) -> (r: Vec<(Vec<u8>, Vec<u8>)>)
    ensures
        is_range_of(
            storage_contents(*store),
            match start {
                Some(s) => Some(s@),
                None => None,
            },
            match end {
                Some(e) => Some(e@),
                None => None,
            },
            order,
            entries_view(r@),
        ),
{
    let o = match order {
        Order::Ascending => cosmwasm_std::Order::Ascending,
        Order::Descending => cosmwasm_std::Order::Descending,
    };
    store.range(start, end, o).collect()
}

} // verus!
