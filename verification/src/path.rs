//! The full storage key of one entry of a map.
use crate::helpers::{
    all_encodable, namespaced_key, nested_namespaces_with_key, slices_view,
};
use crate::storage::{storage_contents, storage_get, storage_remove, storage_set, StorageError};
use cosmwasm_std::MemoryStorage;
use vstd::prelude::*;

verus! {

/// The storage key of a map entry: the map's namespace and all key parts but the last
/// are length-prefixed, the last key part is appended raw.
pub open spec fn path_key(namespace: Seq<u8>, parts: Seq<Seq<u8>>) -> Seq<u8> {
    namespaced_key(seq![namespace] + parts.drop_last(), parts.last())
}

/// The namespace and key parts can form a path.
pub open spec fn path_encodable(namespace: Seq<u8>, parts: Seq<Seq<u8>>) -> bool {
    namespace.len() <= 0xFFFF && parts.len() > 0 && all_encodable(parts.drop_last())
}

pub struct Path {
    /// all namespaces prefixes and concatenated with the key
    storage_key: Vec<u8>,
}

impl Path {
    /// The key the entry is stored at.
    pub closed spec fn key(&self) -> Seq<u8> {
        self.storage_key@
    }

    /// The raw storage key.
    pub fn deref(&self) -> (r: &[u8])
        ensures
            r@ == self.key(),
    {
        self.storage_key.as_slice()
    }

    pub fn new(namespace: &[u8], keys: &[&[u8]]) -> (r: Self)
        requires
            path_encodable(namespace@, slices_view(keys@)),
        ensures
            r.key() == path_key(namespace@, slices_view(keys@)),
    {
        let l = keys.len();
        let mut top: Vec<&[u8]> = Vec::new();
        top.push(namespace);
        let mut subs: Vec<&[u8]> = Vec::new();
        let mut i: usize = 0;
        while i < l - 1
            invariant
                l == keys@.len(),
                l > 0,
                i <= l - 1,
                subs@.len() == i,
                slices_view(subs@) == slices_view(keys@).take(i as int),
            decreases l - 1 - i,
        {
            let ghost before = subs@;
            subs.push(keys[i]);
            proof {
                assert forall|j: int| 0 <= j < i + 1 implies #[trigger] slices_view(subs@)[j]
                    == slices_view(keys@).take(i + 1)[j] by {
                    if j < i {
                        assert(subs@[j] == before[j]);
                        assert(slices_view(before)[j] == slices_view(keys@).take(i as int)[j]);
                    }
                }
                assert(slices_view(subs@) =~= slices_view(keys@).take(i + 1));
            }
            i = i + 1;
        }
        let ghost parts = slices_view(keys@);
        assert(parts.take(l - 1) =~= parts.drop_last());
        assert(slices_view(top@) =~= seq![namespace@]);
        assert(parts.drop_last().len() == l - 1);
        assert forall|j: int| 0 <= j < slices_view(top@).len() implies #[trigger] slices_view(
            top@,
        )[j].len() <= 0xFFFF by {
            assert(slices_view(top@)[j] == namespace@);
        }
        let storage_key = nested_namespaces_with_key(top.as_slice(), subs.as_slice(), keys[l - 1]);
        Path { storage_key }
    }

    /// Stores the (serialized) value at the path.
    pub fn save(&self, store: &mut MemoryStorage, data: &[u8])
        requires
            data@.len() > 0,
        ensures
            storage_contents(*final(store)) == storage_contents(*old(store)).insert(
                self.key(),
                data@,
            ),
    {
        storage_set(store, self.storage_key.as_slice(), data);
    }

    pub fn remove(&self, store: &mut MemoryStorage)
        ensures
            storage_contents(*final(store)) == storage_contents(*old(store)).remove(self.key()),
    {
        storage_remove(store, self.storage_key.as_slice());
    }

    /// Returns an error if no data is set at the path.
    pub fn load(&self, store: &MemoryStorage) -> (r: Result<Vec<u8>, StorageError>)
        ensures
            r is Ok <==> storage_contents(*store).contains_key(self.key()),
            r matches Ok(v) ==> v@ == storage_contents(*store)[self.key()],
            r matches Err(e) ==> e == StorageError::NotFound,
    {
        match storage_get(store, self.storage_key.as_slice()) {
            Some(v) => Ok(v),
            None => Err(StorageError::NotFound),
        }
    }

    /// Returns `None` if no data is set at the path.
    pub fn may_load(&self, store: &MemoryStorage) -> (r: Option<Vec<u8>>)
        ensures
            r is Some <==> storage_contents(*store).contains_key(self.key()),
            r matches Some(v) ==> v@ == storage_contents(*store)[self.key()],
    {
        storage_get(store, self.storage_key.as_slice())
    }

    /// Whether any data is stored at the path, without reading it.
    pub fn has(&self, store: &MemoryStorage) -> (r: bool)
        ensures
            r == storage_contents(*store).contains_key(self.key()),
    {
        storage_get(store, self.storage_key.as_slice()).is_some()
    }

    /// Loads the data, applies `action` to it, and stores the result.
    pub fn update<A, E>(&self, store: &mut MemoryStorage, action: A) -> (r: Result<Vec<u8>, E>)
        where
            A: FnOnce(Option<Vec<u8>>) -> Result<Vec<u8>, E>,
        requires
            forall|input: Option<Vec<u8>>| #[trigger] call_requires(action, (input,)),
            forall|input: Option<Vec<u8>>, out: Result<Vec<u8>, E>|
                call_ensures(action, (input,), out) ==> (out matches Ok(v) ==> v@.len() > 0),
        ensures
            exists|input: Option<Vec<u8>>|
                {
                    &&& (input is Some <==> storage_contents(*old(store)).contains_key(self.key()))
                    &&& (input matches Some(v) ==> v@ == storage_contents(*old(store))[self.key()])
                    &&& call_ensures(action, (input,), r)
                },
            r matches Ok(v) ==> storage_contents(*final(store)) == storage_contents(
                *old(store),
            ).insert(self.key(), v@),
            r is Err ==> storage_contents(*final(store)) == storage_contents(*old(store)),
    {
        let input = self.may_load(store);
        let output = action(input);
        match output {
            Ok(v) => {
                self.save(store, v.as_slice());
                Ok(v)
            },
            Err(e) => Err(e),
        }
    }
}

} // verus!
