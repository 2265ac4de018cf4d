//! A map whose values are also found through secondary indexes.
//!
//! Values are stored as the bytes the caller serialized them to; the index functions read
//! those bytes.
use crate::indexes::{
    multi_record, parse_unique, unique_record, unique_ref_bytes, IndexError, MultiIndex, UniqueIndex,
};
use crate::helpers::{
    all_encodable, lemma_length_bytes_injective, length_bytes, length_prefixed, namespaced_key,
    nested_prefix,
};
use crate::keys::{joinable, joined_key_of, Prefixer, PrimaryKey};
use crate::prefix::{
    is_prefix_range, is_range_between, opt_prefix_bound, prefix_end_as_bound, prefix_start_as_bound,
    Bound, Prefix, PrefixBound,
};
use crate::storage::{entries_view, Order};
use crate::map::StorageMap;
use crate::path::{path_encodable, path_key, Path};
use crate::snapshot::{current_at, digits_of, lemma_count_roundtrip, opt_bytes, UpdateError};
use crate::storage::{storage_contents, StorageError};
use cosmwasm_std::MemoryStorage;
use vstd::prelude::*;
use vstd::utf8::encode_utf8;

verus! {

/// The stored value seen through a shared reference, as the index hooks take it.
pub open spec fn opt_ref(o: &Option<Vec<u8>>) -> Option<&Vec<u8>> {
    match o {
        Some(v) => Some(v),
        None => None,
    }
}


/// The indexes of an indexed map: saving or removing the index entries of a value.
pub trait IndexList {
    /// The index functions can be applied to the value and their results written.
    spec fn accepts(&self, data: &Vec<u8>) -> bool;

    /// `after` and `r` are what saving the index entries of `data` under `pk` in `before`
    /// can give.
    spec fn saved(
        &self,
        before: Map<Seq<u8>, Seq<u8>>,
        pk: Seq<u8>,
        data: &Vec<u8>,
        after: Map<Seq<u8>, Seq<u8>>,
        r: Result<(), IndexError>,
    ) -> bool;

    /// `after` and `r` are what removing the index entries of `data` under `pk` in
    /// `before` can give.
    spec fn removed(
        &self,
        before: Map<Seq<u8>, Seq<u8>>,
        pk: Seq<u8>,
        data: &Vec<u8>,
        after: Map<Seq<u8>, Seq<u8>>,
        r: Result<(), IndexError>,
    ) -> bool;

    fn save_indexes(&self, store: &mut MemoryStorage, pk: &[u8], data: &Vec<u8>) -> (r: Result<
        (),
        IndexError,
    >)
        requires
            self.accepts(data),
        ensures
            self.saved(storage_contents(*old(store)), pk@, data, storage_contents(*final(store)), r),
    ;

    fn remove_indexes(&self, store: &mut MemoryStorage, pk: &[u8], old_data: &Vec<u8>) -> (r:
        Result<(), IndexError>)
        requires
            self.accepts(old_data),
        ensures
            self.removed(
                storage_contents(*old(store)),
                pk@,
                old_data,
                storage_contents(*final(store)),
                r,
            ),
    ;
}

impl<'a, IK: PrimaryKey, F: Fn(&Vec<u8>) -> IK> IndexList for MultiIndex<'a, IK, Vec<u8>, F> {
    open spec fn accepts(&self, data: &Vec<u8>) -> bool {
        self.idx_namespace().len() <= 0xFFFF && self.indexable(data)
    }

    open spec fn saved(
        &self,
        before: Map<Seq<u8>, Seq<u8>>,
        pk: Seq<u8>,
        data: &Vec<u8>,
        after: Map<Seq<u8>, Seq<u8>>,
        r: Result<(), IndexError>,
    ) -> bool {
        &&& r is Ok
        &&& exists|ik: IK|
            call_ensures(self.index_fn(), (data,), ik) && after == before.insert(
                self.entry_key(ik, pk),
                crate::snapshot::digits_of((pk.len() as u32) as nat),
            )
    }

    open spec fn removed(
        &self,
        before: Map<Seq<u8>, Seq<u8>>,
        pk: Seq<u8>,
        data: &Vec<u8>,
        after: Map<Seq<u8>, Seq<u8>>,
        r: Result<(), IndexError>,
    ) -> bool {
        &&& r is Ok
        &&& exists|ik: IK|
            call_ensures(self.index_fn(), (data,), ik) && after == before.remove(
                self.entry_key(ik, pk),
            )
    }

    fn save_indexes(&self, store: &mut MemoryStorage, pk: &[u8], data: &Vec<u8>) -> (r: Result<
        (),
        IndexError,
    >) {
        let _ = self.save(store, pk, data);
        Ok(())
    }

    fn remove_indexes(&self, store: &mut MemoryStorage, pk: &[u8], old_data: &Vec<u8>) -> (r:
        Result<(), IndexError>) {
        let _ = self.remove(store, pk, old_data);
        Ok(())
    }
}

impl<'a, IK: PrimaryKey, F: Fn(&Vec<u8>) -> IK> IndexList for UniqueIndex<'a, IK, Vec<u8>, F> {
    open spec fn accepts(&self, data: &Vec<u8>) -> bool {
        self.indexable(data)
    }

    open spec fn saved(
        &self,
        before: Map<Seq<u8>, Seq<u8>>,
        pk: Seq<u8>,
        data: &Vec<u8>,
        after: Map<Seq<u8>, Seq<u8>>,
        r: Result<(), IndexError>,
    ) -> bool {
        exists|ik: IK|
            {
                &&& call_ensures(self.index_fn(), (data,), ik)
                &&& before.contains_key(self.entry_key(ik)) ==> r == Err::<(), IndexError>(
                    IndexError::UniqueViolation,
                ) && after == before
                &&& !before.contains_key(self.entry_key(ik)) ==> r == Ok::<(), IndexError>(())
                    && after == before.insert(
                    self.entry_key(ik),
                    crate::indexes::unique_ref_bytes(pk, data@),
                )
                &&& r is Ok ==> crate::indexes::parse_unique(
                    crate::indexes::unique_ref_bytes(pk, data@),
                ) == Some((pk, data@))
            }
    }

    open spec fn removed(
        &self,
        before: Map<Seq<u8>, Seq<u8>>,
        pk: Seq<u8>,
        data: &Vec<u8>,
        after: Map<Seq<u8>, Seq<u8>>,
        r: Result<(), IndexError>,
    ) -> bool {
        &&& r is Ok
        &&& exists|ik: IK|
            call_ensures(self.index_fn(), (data,), ik) && after == before.remove(
                self.entry_key(ik),
            )
    }

    fn save_indexes(&self, store: &mut MemoryStorage, pk: &[u8], data: &Vec<u8>) -> (r: Result<
        (),
        IndexError,
    >) {
        self.save(store, pk, data)
    }

    fn remove_indexes(&self, store: &mut MemoryStorage, pk: &[u8], old_data: &Vec<u8>) -> (r:
        Result<(), IndexError>) {
        self.remove(store, pk, old_data)
    }
}

/// Two lists of indexes, the first one updated first; the first failure stops.
impl<A: IndexList, B: IndexList> IndexList for (A, B) {
    open spec fn accepts(&self, data: &Vec<u8>) -> bool {
        self.0.accepts(data) && self.1.accepts(data)
    }

    open spec fn saved(
        &self,
        before: Map<Seq<u8>, Seq<u8>>,
        pk: Seq<u8>,
        data: &Vec<u8>,
        after: Map<Seq<u8>, Seq<u8>>,
        r: Result<(), IndexError>,
    ) -> bool {
        exists|mid: Map<Seq<u8>, Seq<u8>>, r1: Result<(), IndexError>|
            {
                &&& self.0.saved(before, pk, data, mid, r1)
                &&& r1 is Err ==> r == r1 && after == mid
                &&& r1 is Ok ==> self.1.saved(mid, pk, data, after, r)
            }
    }

    open spec fn removed(
        &self,
        before: Map<Seq<u8>, Seq<u8>>,
        pk: Seq<u8>,
        data: &Vec<u8>,
        after: Map<Seq<u8>, Seq<u8>>,
        r: Result<(), IndexError>,
    ) -> bool {
        exists|mid: Map<Seq<u8>, Seq<u8>>, r1: Result<(), IndexError>|
            {
                &&& self.0.removed(before, pk, data, mid, r1)
                &&& r1 is Err ==> r == r1 && after == mid
                &&& r1 is Ok ==> self.1.removed(mid, pk, data, after, r)
            }
    }

    fn save_indexes(&self, store: &mut MemoryStorage, pk: &[u8], data: &Vec<u8>) -> (r: Result<
        (),
        IndexError,
    >) {
        let ghost before = storage_contents(*store);
        let r1 = self.0.save_indexes(store, pk, data);
        let ghost mid = storage_contents(*store);
        match r1 {
            Err(e) => {
                assert(self.0.saved(before, pk@, data, mid, r1));
                Err(e)
            },
            Ok(_) => {
                let r = self.1.save_indexes(store, pk, data);
                assert(self.0.saved(before, pk@, data, mid, r1));
                r
            },
        }
    }

    fn remove_indexes(&self, store: &mut MemoryStorage, pk: &[u8], old_data: &Vec<u8>) -> (r:
        Result<(), IndexError>) {
        let ghost before = storage_contents(*store);
        let r1 = self.0.remove_indexes(store, pk, old_data);
        let ghost mid = storage_contents(*store);
        match r1 {
            Err(e) => {
                assert(self.0.removed(before, pk@, old_data, mid, r1));
                Err(e)
            },
            Ok(_) => {
                let r = self.1.remove_indexes(store, pk, old_data);
                assert(self.0.removed(before, pk@, old_data, mid, r1));
                r
            },
        }
    }
}

/// Why an update of an indexed map failed: an index refused the new value, or the action
/// refused.
#[derive(Clone, Debug, PartialEq, Eq)]
pub enum MapUpdateError<E> {
    Index(IndexError),
    Action(E),
}

/// IndexedBucket works like a bucket but has a secondary index
pub struct IndexedMap<'a, K, I> {
    pk_namespace: &'a [u8],
    primary: StorageMap<'a, K>,
    /// This is meant to be read directly to get the proper types, like:
    /// map.idx.owner.items(...)
    pub idx: I,
}

impl<'a, K: PrimaryKey, I: IndexList> IndexedMap<'a, K, I> {
    /// The indexes.
    pub closed spec fn indexes(&self) -> I {
        self.idx
    }

    /// The namespace of the values.
    pub closed spec fn pk_namespace(&self) -> Seq<u8> {
        self.primary.namespace()
    }

    /// Where the value of `k` is stored.
    pub open spec fn entry_key(&self, k: K) -> Seq<u8> {
        path_key(self.pk_namespace(), k.key_spec())
    }

    /// `k` can be a key of the map, and its joined form the primary key of index entries.
    pub open spec fn key_ok(&self, k: K) -> bool {
        path_encodable(self.pk_namespace(), k.key_spec()) && joinable(k.key_spec())
    }

    /// The index entries of the old value (if any) are removed.
    pub open spec fn old_entries_removed(
        &self,
        before: Map<Seq<u8>, Seq<u8>>,
        pk: Seq<u8>,
        old_data: Option<&Vec<u8>>,
        after: Map<Seq<u8>, Seq<u8>>,
        r: Result<(), IndexError>,
    ) -> bool {
        match old_data {
            None => after == before && r == Ok::<(), IndexError>(()),
            Some(o) => self.indexes().removed(before, pk, o, after, r),
        }
    }

    /// What replacing the value of `k` (whose current value is `old_data`) by `data` does:
    /// the old index entries go, the new ones come, then the value is written or removed;
    /// the first failure stops, leaving what was done so far.
    pub open spec fn replaced(
        &self,
        before: Map<Seq<u8>, Seq<u8>>,
        k: K,
        data: Option<&Vec<u8>>,
        old_data: Option<&Vec<u8>>,
        after: Map<Seq<u8>, Seq<u8>>,
        r: Result<(), IndexError>,
    ) -> bool {
        let pk = joined_key_of(k.key_spec());
        exists|m1: Map<Seq<u8>, Seq<u8>>, r1: Result<(), IndexError>|
            {
                &&& #[trigger] self.old_entries_removed(before, pk, old_data, m1, r1)
                &&& r1 is Err ==> r == r1 && after == m1
                &&& r1 is Ok ==> match data {
                    None => r == Ok::<(), IndexError>(()) && after == m1.remove(self.entry_key(k)),
                    Some(d) => exists|m2: Map<Seq<u8>, Seq<u8>>, r2: Result<(), IndexError>|
                        {
                            &&& #[trigger] self.indexes().saved(m1, pk, d, m2, r2)
                            &&& r2 is Err ==> r == r2 && after == m2
                            &&& r2 is Ok ==> r == Ok::<(), IndexError>(()) && after == m2.insert(
                                self.entry_key(k),
                                d@,
                            )
                        },
                }
            }
    }

    pub fn new(pk_namespace: &'a str, indexes: I) -> (r: Self)
        ensures
            r.pk_namespace() == encode_utf8(pk_namespace@),
            r.indexes() == indexes,
    {
        IndexedMap {
            pk_namespace: pk_namespace.as_bytes(),
            primary: StorageMap::new(pk_namespace),
            idx: indexes,
        }
    }

    pub fn key(&self, k: K) -> (r: Path)
        requires
            path_encodable(self.pk_namespace(), k.key_spec()),
        ensures
            r.key() == self.entry_key(k),
    {
        self.primary.key(k)
    }

    /// replace writes data to key. old_data must be the current stored value (from a previous load)
    /// and is used to properly update the index. This is used by save, replace, and update
    /// and can be called directly if you want to optimize
    pub fn replace(
        &self,
        store: &mut MemoryStorage,
        key: K,
        data: Option<&Vec<u8>>,
        old_data: Option<&Vec<u8>>,
    ) -> (r: Result<(), IndexError>)
        requires
            self.key_ok(key),
            data matches Some(d) ==> d@.len() > 0 && self.indexes().accepts(d),
            old_data matches Some(o) ==> self.indexes().accepts(o),
        ensures
            self.replaced(
                storage_contents(*old(store)),
                key,
                data,
                old_data,
                storage_contents(*final(store)),
                r,
            ),
    {
        let ghost before = storage_contents(*store);
        let ghost ek = self.entry_key(key);
        // this is the key *relative* to the primary map namespace
        let pk = key.joined_key();
        let r1 = match old_data {
            Some(old) => self.idx.remove_indexes(store, pk.as_slice(), old),
            None => Ok(()),
        };
        let ghost m1 = storage_contents(*store);
        assert(self.old_entries_removed(before, pk@, old_data, m1, r1));
        match r1 {
            Err(e) => {
                return Err(e);
            },
            Ok(_) => {},
        }
        match data {
            Some(updated) => {
                let r2 = self.idx.save_indexes(store, pk.as_slice(), updated);
                let ghost m2 = storage_contents(*store);
                match r2 {
                    Err(e) => {
                        assert(self.idx.saved(m1, pk@, updated, m2, r2));
                        Err(e)
                    },
                    Ok(_) => {
                        self.primary.save(store, key, updated.as_slice());
                        assert(self.idx.saved(m1, pk@, updated, m2, r2));
                        Ok(())
                    },
                }
            },
            None => {
                self.primary.remove(store, key);
                Ok(())
            },
        }
    }

    /// The bytes every key of the map starts with.
    pub open spec fn root_prefix(&self) -> Seq<u8> {
        namespaced_key(seq![self.pk_namespace()], Seq::empty())
    }

    /// The entries of the map between the bounds, in the given order, each with its raw
    /// key.
    pub fn range(
        &self,
        store: &MemoryStorage,
        min: Option<Bound>,
        max: Option<Bound>,
        order: Order,
    ) -> (r: Vec<(Vec<u8>, Vec<u8>)>)
        requires
            self.pk_namespace().len() <= 0xFFFF,
        ensures
            is_prefix_range(
                storage_contents(*store),
                self.root_prefix(),
                min,
                max,
                order,
                entries_view(r@),
            ),
    {
        self.primary.range(store, min, max, order)
    }

    /// The entries whose keys start with the given first key parts.
    pub fn prefix<P: Prefixer>(&self, p: P) -> (r: Prefix)
        requires
            self.pk_namespace().len() <= 0xFFFF,
            all_encodable(p.prefix_spec()),
        ensures
            r.prefix_bytes() == namespaced_key(seq![self.pk_namespace()] + p.prefix_spec(), Seq::empty()),
    {
        self.primary.prefix(p)
    }

    /// The entries whose keys start with the given first key parts (all but the last
    /// part fixed).
    pub fn sub_prefix<P: Prefixer>(&self, p: P) -> (r: Prefix)
        requires
            self.pk_namespace().len() <= 0xFFFF,
            all_encodable(p.prefix_spec()),
        ensures
            r.prefix_bytes() == namespaced_key(seq![self.pk_namespace()] + p.prefix_spec(), Seq::empty()),
    {
        self.primary.sub_prefix(p)
    }

    /// The entries whose keys start with a prefix between the prefix bounds, in the given
    /// order, each with its raw key.
    pub fn prefix_range<P: Prefixer>(
        &self,
        store: &MemoryStorage,
        min: Option<PrefixBound<P>>,
        max: Option<PrefixBound<P>>,
        order: Order,
    ) -> (r: Vec<(Vec<u8>, Vec<u8>)>)
        requires
            self.pk_namespace().len() <= 0xFFFF,
            min matches Some(b) ==> all_encodable(b.prefix_key().prefix_spec()),
            max matches Some(b) ==> all_encodable(b.prefix_key().prefix_spec()),
        ensures
            is_range_between(
                storage_contents(*store),
                self.root_prefix(),
                prefix_start_as_bound(opt_prefix_bound(min)),
                prefix_end_as_bound(opt_prefix_bound(max)),
                order,
                entries_view(r@),
            ),
    {
        self.primary.prefix_range(store, min, max, order)
    }

    /// load will return an error if no data is set at the given key
    pub fn load(&self, store: &MemoryStorage, key: K) -> (r: Result<Vec<u8>, StorageError>)
        requires
            path_encodable(self.pk_namespace(), key.key_spec()),
        ensures
            r is Ok <==> storage_contents(*store).contains_key(self.entry_key(key)),
            r matches Ok(v) ==> v@ == storage_contents(*store)[self.entry_key(key)],
            r matches Err(e) ==> e == StorageError::NotFound,
    {
        self.primary.load(store, key)
    }

    /// may_load returns `None` if no data is set at the key.
    pub fn may_load(&self, store: &MemoryStorage, key: K) -> (r: Option<Vec<u8>>)
        requires
            path_encodable(self.pk_namespace(), key.key_spec()),
        ensures
            opt_bytes(r) == current_at(storage_contents(*store), self.entry_key(key)),
    {
        self.primary.may_load(store, key)
    }
}

impl<'a, K: PrimaryKey + Copy, I: IndexList> IndexedMap<'a, K, I> {
    /// The index functions accept every value that may be stored.
    pub open spec fn accepts_all(&self) -> bool {
        forall|d: &Vec<u8>| #[trigger] self.indexes().accepts(d)
    }

    /// save will store the value; this must load the old value to update the indexes
    /// properly.
    pub fn save(&self, store: &mut MemoryStorage, key: K, data: &Vec<u8>) -> (r: Result<
        (),
        IndexError,
    >)
        requires
            self.key_ok(key),
            data@.len() > 0,
            self.accepts_all(),
        ensures
            exists|old_data: Option<Vec<u8>>|
                {
                    &&& opt_bytes(old_data) == current_at(
                        storage_contents(*old(store)),
                        self.entry_key(key),
                    )
                    &&& self.replaced(
                        storage_contents(*old(store)),
                        key,
                        Some(data),
                        match old_data {
                            Some(o) => Some(&o),
                            None => None,
                        },
                        storage_contents(*final(store)),
                        r,
                    )
                },
    {
        let old_data = self.may_load(store, key);
        assert(self.indexes().accepts(data));
        match old_data {
            Some(o) => {
                assert(self.indexes().accepts(&o));
                self.replace(store, key, Some(data), Some(&o))
            },
            None => self.replace(store, key, Some(data), None),
        }
    }

    /// remove drops the value and its index entries.
    pub fn remove(&self, store: &mut MemoryStorage, key: K) -> (r: Result<(), IndexError>)
        requires
            self.key_ok(key),
            self.accepts_all(),
        ensures
            exists|old_data: Option<Vec<u8>>|
                {
                    &&& opt_bytes(old_data) == current_at(
                        storage_contents(*old(store)),
                        self.entry_key(key),
                    )
                    &&& self.replaced(
                        storage_contents(*old(store)),
                        key,
                        None,
                        match old_data {
                            Some(o) => Some(&o),
                            None => None,
                        },
                        storage_contents(*final(store)),
                        r,
                    )
                },
    {
        let old_data = self.may_load(store, key);
        match old_data {
            Some(o) => {
                assert(self.indexes().accepts(&o));
                self.replace(store, key, None, Some(&o))
            },
            None => self.replace(store, key, None, None),
        }
    }

    /// Loads the value of `key`, lets `action` answer a new one, and writes it with its
    /// index entries as `replace` does.
    pub fn update<A, E>(&self, store: &mut MemoryStorage, key: K, action: A) -> (r: Result<
        Vec<u8>,
        MapUpdateError<E>,
    >)
        where
            A: FnOnce(Option<Vec<u8>>) -> Result<Vec<u8>, E>,
        requires
            self.key_ok(key),
            self.accepts_all(),
            forall|input: Option<Vec<u8>>| #[trigger] call_requires(action, (input,)),
            forall|input: Option<Vec<u8>>, out: Result<Vec<u8>, E>|
                call_ensures(action, (input,), out) ==> (out matches Ok(v) ==> v@.len() > 0),
        ensures
            exists|input: Option<Vec<u8>>, out: Result<Vec<u8>, E>|
                #![trigger call_ensures(action, (input,), out)]
                {
                    &&& opt_bytes(input) == current_at(
                        storage_contents(*old(store)),
                        self.entry_key(key),
                    )
                    &&& call_ensures(action, (input,), out)
                    &&& match out {
                        Err(e) => r == Err::<Vec<u8>, MapUpdateError<E>>(MapUpdateError::Action(e))
                            && storage_contents(*final(store)) == storage_contents(*old(store)),
                        Ok(v) => exists|prev: Option<Vec<u8>>, rr: Result<(), IndexError>|
                            {
                                &&& opt_bytes(prev) == opt_bytes(input)
                                &&& #[trigger] self.replaced(
                                    storage_contents(*old(store)),
                                    key,
                                    Some(&v),
                                    opt_ref(&prev),
                                    storage_contents(*final(store)),
                                    rr,
                                )
                                &&& rr matches Err(e) ==> r == Err::<Vec<u8>, MapUpdateError<E>>(
                                    MapUpdateError::Index(e),
                                )
                                &&& rr is Ok ==> (r matches Ok(o) && o@ == v@)
                            },
                    }
                },
    {
        let ghost c = storage_contents(*store);
        let input = self.may_load(store, key);
        let old_val = match &input {
            Some(v) => Some(crate::prefix::copy_bytes(v.as_slice())),
            None => None,
        };
        let ghost iv = input;
        let output = action(input);
        let ghost ov = output;
        match output {
            Err(e) => {
                proof {
                    assert(call_ensures(action, (iv,), ov));
                }
                Err(MapUpdateError::Action(e))
            },
            Ok(v) => {
                assert(self.indexes().accepts(&v));
                let rr = match &old_val {
                    Some(o) => {
                        assert(self.indexes().accepts(o));
                        self.replace(store, key, Some(&v), Some(o))
                    },
                    None => self.replace(store, key, Some(&v), None),
                };
                proof {
                    assert(match iv {
                        Some(o) => old_val matches Some(p) && p@ == o@,
                        None => old_val is None,
                    });
                    assert(opt_bytes(old_val) == opt_bytes(iv));
                }
                let res = match rr {
                    Err(e) => Err(MapUpdateError::Index(e)),
                    Ok(_) => Ok(v),
                };
                proof {
                    assert(self.replaced(c, key, Some(&v), opt_ref(&old_val), storage_contents(*store), rr));
                    assert(call_ensures(action, (iv,), ov));
                }
                res
            },
        }
    }
}


/// Entries of two maps with different namespaces never share a storage key.
pub proof fn lemma_path_key_namespace(a: Seq<u8>, parts_a: Seq<Seq<u8>>, b: Seq<u8>, parts_b: Seq<Seq<u8>>)
    requires
        a.len() <= 0xFFFF,
        b.len() <= 0xFFFF,
        path_key(a, parts_a) == path_key(b, parts_b),
    ensures
        a == b,
{
    let s = path_key(a, parts_a);
    lemma_path_key_split(a, parts_a);
    lemma_path_key_split(b, parts_b);
    assert(s[0] == length_bytes(a.len())[0]);
    assert(s[1] == length_bytes(a.len())[1]);
    assert(s[0] == length_bytes(b.len())[0]);
    assert(s[1] == length_bytes(b.len())[1]);
    assert(length_bytes(a.len()) =~= length_bytes(b.len()));
    lemma_length_bytes_injective(a.len(), b.len());
    assert(s.subrange(2, 2 + a.len() as int) =~= a);
    assert(s.subrange(2, 2 + b.len() as int) =~= b);
}

/// An entry key is the length-prefixed namespace followed by the joined key parts.
pub proof fn lemma_path_key_split(ns: Seq<u8>, parts: Seq<Seq<u8>>)
    ensures
        path_key(ns, parts) == length_prefixed(ns) + joined_key_of(parts),
        path_key(ns, parts) == namespaced_key(seq![ns], joined_key_of(parts)),
{
    let l = seq![ns] + parts.drop_last();
    reveal_with_fuel(nested_prefix, 2);
    assert(l[0] == ns);
    assert(l.drop_first() =~= parts.drop_last());
    assert(nested_prefix(seq![ns]) =~= length_prefixed(ns)) by {
        assert(seq![ns].drop_first() =~= Seq::<Seq<u8>>::empty());
    }
    assert(path_key(ns, parts) =~= length_prefixed(ns) + joined_key_of(parts));
}

impl<'a, K: PrimaryKey, IK: PrimaryKey, F: Fn(&Vec<u8>) -> IK> IndexedMap<
    'a,
    K,
    UniqueIndex<'a, IK, Vec<u8>, F>,
> {
    /// Once a value is saved, its unique index holds an entry under the value's index
    /// value, and reading that entry gives back the value's primary key and the value.
    pub proof fn lemma_unique_index_finds_saved(
        &self,
        before: Map<Seq<u8>, Seq<u8>>,
        k: K,
        data: &Vec<u8>,
        old_data: Option<&Vec<u8>>,
        after: Map<Seq<u8>, Seq<u8>>,
    )
        requires
            self.pk_namespace().len() <= 0xFFFF,
            self.indexes().idx_namespace().len() <= 0xFFFF,
            self.indexes().idx_namespace() != self.pk_namespace(),
            self.replaced(before, k, Some(data), old_data, after, Ok(())),
        ensures
            exists|ik: IK|
                {
                    &&& call_ensures(self.indexes().index_fn(), (data,), ik)
                    &&& after.contains_key(self.indexes().entry_key(ik))
                    &&& unique_record(after[self.indexes().entry_key(ik)]) == Ok::<
                        (Seq<u8>, Seq<u8>),
                        StorageError,
                    >((joined_key_of(k.key_spec()), data@))
                },
    {
        let pk = joined_key_of(k.key_spec());
        let (m1, r1) = choose|m1: Map<Seq<u8>, Seq<u8>>, r1: Result<(), IndexError>|
            {
                &&& #[trigger] self.old_entries_removed(before, pk, old_data, m1, r1)
                &&& r1 is Err ==> Ok::<(), IndexError>(()) == r1 && after == m1
                &&& r1 is Ok ==> exists|m2: Map<Seq<u8>, Seq<u8>>, r2: Result<(), IndexError>|
                    {
                        &&& #[trigger] self.indexes().saved(m1, pk, data, m2, r2)
                        &&& r2 is Err ==> Ok::<(), IndexError>(()) == r2 && after == m2
                        &&& r2 is Ok ==> after == m2.insert(self.entry_key(k), data@)
                    }
            };
        let (m2, r2) = choose|m2: Map<Seq<u8>, Seq<u8>>, r2: Result<(), IndexError>|
            {
                &&& #[trigger] self.indexes().saved(m1, pk, data, m2, r2)
                &&& r2 is Err ==> Ok::<(), IndexError>(()) == r2 && after == m2
                &&& r2 is Ok ==> after == m2.insert(self.entry_key(k), data@)
            };
        let ix = self.indexes();
        let ik = choose|ik: IK|
            {
                &&& call_ensures(ix.index_fn(), (data,), ik)
                &&& m1.contains_key(ix.entry_key(ik)) ==> r2 == Err::<(), IndexError>(
                    IndexError::UniqueViolation,
                ) && m2 == m1
                &&& !m1.contains_key(ix.entry_key(ik)) ==> r2 == Ok::<(), IndexError>(()) && m2
                    == m1.insert(ix.entry_key(ik), unique_ref_bytes(pk, data@))
                &&& r2 is Ok ==> parse_unique(unique_ref_bytes(pk, data@)) == Some((pk, data@))
            };
        if self.entry_key(k) == ix.entry_key(ik) {
            lemma_path_key_namespace(
                self.pk_namespace(),
                k.key_spec(),
                ix.idx_namespace(),
                ik.key_spec(),
            );
        }
        assert(after[ix.entry_key(ik)] == unique_ref_bytes(pk, data@));
    }
}

impl<'a, K: PrimaryKey, IK: PrimaryKey, F: Fn(&Vec<u8>) -> IK> IndexedMap<
    'a,
    K,
    MultiIndex<'a, IK, Vec<u8>, F>,
> {
    /// Once a value is saved, its multi-index holds an entry under the value's index
    /// value and its primary key, and reading that entry through the map's namespace gives
    /// back the primary key and the value.
    pub proof fn lemma_multi_index_finds_saved(
        &self,
        before: Map<Seq<u8>, Seq<u8>>,
        k: K,
        data: &Vec<u8>,
        old_data: Option<&Vec<u8>>,
        after: Map<Seq<u8>, Seq<u8>>,
    )
        requires
            self.pk_namespace().len() <= 0xFFFF,
            self.indexes().idx_namespace().len() <= 0xFFFF,
            self.indexes().idx_namespace() != self.pk_namespace(),
            self.indexes().pk_namespace() == self.pk_namespace(),
            joined_key_of(k.key_spec()).len() < 0x1_0000_0000,
            self.replaced(before, k, Some(data), old_data, after, Ok(())),
        ensures
            exists|ik: IK|
                {
                    &&& call_ensures(self.indexes().index_fn(), (data,), ik)
                    &&& after.contains_key(self.indexes().entry_key(ik, joined_key_of(k.key_spec())))
                    &&& multi_record(
                        after,
                        self.pk_namespace(),
                        namespaced_key(ik.key_spec(), joined_key_of(k.key_spec())),
                        after[self.indexes().entry_key(ik, joined_key_of(k.key_spec()))],
                    ) == Ok::<(Seq<u8>, Seq<u8>), StorageError>((joined_key_of(k.key_spec()), data@))
                },
    {
        let pk = joined_key_of(k.key_spec());
        let (m1, r1) = choose|m1: Map<Seq<u8>, Seq<u8>>, r1: Result<(), IndexError>|
            {
                &&& #[trigger] self.old_entries_removed(before, pk, old_data, m1, r1)
                &&& r1 is Err ==> Ok::<(), IndexError>(()) == r1 && after == m1
                &&& r1 is Ok ==> exists|m2: Map<Seq<u8>, Seq<u8>>, r2: Result<(), IndexError>|
                    {
                        &&& #[trigger] self.indexes().saved(m1, pk, data, m2, r2)
                        &&& r2 is Err ==> Ok::<(), IndexError>(()) == r2 && after == m2
                        &&& r2 is Ok ==> after == m2.insert(self.entry_key(k), data@)
                    }
            };
        let (m2, r2) = choose|m2: Map<Seq<u8>, Seq<u8>>, r2: Result<(), IndexError>|
            {
                &&& #[trigger] self.indexes().saved(m1, pk, data, m2, r2)
                &&& r2 is Err ==> Ok::<(), IndexError>(()) == r2 && after == m2
                &&& r2 is Ok ==> after == m2.insert(self.entry_key(k), data@)
            };
        let ix = self.indexes();
        let ik = choose|ik: IK|
            call_ensures(ix.index_fn(), (data,), ik) && m2 == m1.insert(
                ix.entry_key(ik, pk),
                digits_of((pk.len() as u32) as nat),
            );
        let ek = ix.entry_key(ik, pk);
        if self.entry_key(k) == ek {
            lemma_path_key_namespace(
                self.pk_namespace(),
                k.key_spec(),
                ix.idx_namespace(),
                seq![namespaced_key(ik.key_spec(), pk)],
            );
        }
        assert(after[ek] == digits_of((pk.len() as u32) as nat));
        lemma_count_roundtrip(pk.len() as u32);
        let key = namespaced_key(ik.key_spec(), pk);
        assert(key.subrange(key.len() - pk.len(), key.len() as int) =~= pk);
        lemma_path_key_split(self.pk_namespace(), k.key_spec());
        assert(after.contains_key(self.entry_key(k)));
        assert(after[self.entry_key(k)] == data@);
    }
}
} // verus!
