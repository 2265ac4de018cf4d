//! A single value stored at a fixed key.
use crate::storage::{storage_contents, storage_get, storage_remove, storage_set, StorageError};
use cosmwasm_std::MemoryStorage;
use vstd::prelude::*;

verus! {

/// Item stores one value at the given key.
/// It functions just as `Path` but needs no allocation for its key.
pub struct Item<'a> {
    // this is the full key - no need to length-prefix it, we only store one item
    storage_key: &'a [u8],
}

impl<'a> Item<'a> {
    /// The key the item is stored at.
    pub closed spec fn key(&self) -> Seq<u8> {
        self.storage_key@
    }

    pub fn new(storage_key: &'a [u8]) -> (r: Self)
        ensures
            r.key() == storage_key@,
    {
        Item { storage_key }
    }

    /// Stores the (serialized) value at the item's key.
    pub fn save(&self, store: &mut MemoryStorage, data: &[u8])
        requires
            data@.len() > 0,
        ensures
            storage_contents(*final(store)) == storage_contents(*old(store)).insert(
                self.key(),
                data@,
            ),
    {
        storage_set(store, self.storage_key, data);
    }

    pub fn remove(&self, store: &mut MemoryStorage)
        ensures
            storage_contents(*final(store)) == storage_contents(*old(store)).remove(self.key()),
    {
        storage_remove(store, self.storage_key);
    }

    /// Returns an error if no data is set at the key.
    pub fn load(&self, store: &MemoryStorage) -> (r: Result<Vec<u8>, StorageError>)
        ensures
            r is Ok <==> storage_contents(*store).contains_key(self.key()),
            r matches Ok(v) ==> v@ == storage_contents(*store)[self.key()],
            r matches Err(e) ==> e == StorageError::NotFound,
    {
        match storage_get(store, self.storage_key) {
            Some(v) => Ok(v),
            None => Err(StorageError::NotFound),
        }
    }

    /// Returns `None` if no data is set at the key.
    pub fn may_load(&self, store: &MemoryStorage) -> (r: Option<Vec<u8>>)
        ensures
            r is Some <==> storage_contents(*store).contains_key(self.key()),
            r matches Some(v) ==> v@ == storage_contents(*store)[self.key()],
    {
        storage_get(store, self.storage_key)
    }

    /// Loads the data, applies `action` to it, and stores the result.
    /// If the data exists, `action(Some(value))` is called; otherwise `action(None)`.
    pub fn update<A, E>(&self, store: &mut MemoryStorage, action: A) -> (r: Result<Vec<u8>, E>)
        where
            A: FnOnce(Option<Vec<u8>>) -> Result<Vec<u8>, E>,
        requires
            forall|input: Option<Vec<u8>>| #[trigger] call_requires(action, (input,)),
            forall|input: Option<Vec<u8>>, out: Result<Vec<u8>, E>|
                call_ensures(action, (input,), out) ==> (out matches Ok(v) ==> v@.len() > 0),
        ensures
            exists|input: Option<Vec<u8>>|
                {
                    &&& (input is Some <==> storage_contents(*old(store)).contains_key(self.key()))
                    &&& (input matches Some(v) ==> v@ == storage_contents(*old(store))[self.key()])
                    &&& call_ensures(action, (input,), r)
                },
            r matches Ok(v) ==> storage_contents(*final(store)) == storage_contents(
                *old(store),
            ).insert(self.key(), v@),
            r is Err ==> storage_contents(*final(store)) == storage_contents(*old(store)),
    {
        let input = self.may_load(store);
        let output = action(input);
        match output {
            Ok(v) => {
                self.save(store, v.as_slice());
                Ok(v)
            },
            Err(e) => Err(e),
        }
    }
}

/// What a load gives back after a save: the saved value, while every other key of the
/// storage keeps what it held.
pub proof fn lemma_save_then_load(
    contents: Map<Seq<u8>, Seq<u8>>,
    key: Seq<u8>,
    data: Seq<u8>,
    other: Seq<u8>,
)
    requires
        other != key,
    ensures
        contents.insert(key, data).contains_key(key),
        contents.insert(key, data)[key] == data,
        contents.insert(key, data).contains_key(other) == contents.contains_key(other),
        contents.insert(key, data)[other] == contents[other],
        !contents.remove(key).contains_key(key),
        contents.remove(key).contains_key(other) == contents.contains_key(other),
{
}

} // verus!
