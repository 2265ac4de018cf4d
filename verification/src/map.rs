//! A map of typed keys to stored values under one namespace.
use crate::helpers::{
    all_encodable, is_prefix_of, lemma_namespaced_key_injective, length_bytes, namespaced_key,
    nested_prefix, slices_view,
};
use crate::keys::Prefixer;
use crate::de::{KeyDeserialize, KeyError};
use crate::keys::{key_parts, parts_as_slices, PrimaryKey};
use crate::path::{path_encodable, path_key, Path};
use crate::prefix::{
    decodable_keys, decode_entries, decoded_entries, end_key, is_prefix_range, is_range_between,
    keys_view, lemma_range_entries_safe, lemma_range_keys_under_namespace, lemma_range_trimmable,
    namespaced_prefix_range, opt_bound, opt_prefix_bound, outputs_view, prefix_end_as_bound,
    prefix_range_ok, prefix_start_as_bound, range_ok_between, range_readable, start_key, trim_keys,
    Bound, Prefix, PrefixBound,
};
use crate::storage::in_range;
use crate::storage::{entries_view, is_range_of, Order};
use crate::storage::{storage_contents, StorageError};
use cosmwasm_std::MemoryStorage;
use core::marker::PhantomData;
use vstd::prelude::*;
use vstd::utf8::{encode_scalar, encode_utf8};

verus! {

pub struct StorageMap<'a, K> {
    namespace: &'a [u8],
    key_type: PhantomData<K>,
}

impl<'a, K> StorageMap<'a, K> {
    /// The namespace is text, so it never ends in a 255 byte.
    #[verifier::type_invariant]
    spec fn namespace_is_text(self) -> bool {
        self.namespace@.len() == 0 || self.namespace@.last() != 255
    }
}

/// No byte of the UTF-8 encoding of a scalar is 255.
proof fn lemma_scalar_bytes_below_max(s: u32)
    ensures
        forall|i: int| 0 <= i < encode_scalar(s).len() ==> encode_scalar(s)[i] != 255,
{
    assert((s & 0x7F) as u8 != 255u8) by (bit_vector);
    assert(0xC0u8 | ((s >> 6) & 0x1F) as u8 != 255u8) by (bit_vector);
    assert(0xE0u8 | ((s >> 12) & 0x0F) as u8 != 255u8) by (bit_vector);
    assert(0xF0u8 | ((s >> 18) & 0x7) as u8 != 255u8) by (bit_vector);
    assert(0x80u8 | (s & 0x3F) as u8 != 255u8) by (bit_vector);
    assert(0x80u8 | ((s >> 6) & 0x3F) as u8 != 255u8) by (bit_vector);
    assert(0x80u8 | ((s >> 12) & 0x3F) as u8 != 255u8) by (bit_vector);
}

/// No byte of UTF-8 text is 255.
pub proof fn lemma_utf8_bytes_below_max(chars: Seq<char>)
    ensures
        forall|i: int| 0 <= i < encode_utf8(chars).len() ==> encode_utf8(chars)[i] != 255,
    decreases chars.len(),
{
    if chars.len() > 0 {
        lemma_utf8_bytes_below_max(chars.drop_first());
        lemma_scalar_bytes_below_max(chars[0] as u32);
        let a = encode_scalar(chars[0] as u32);
        let b = encode_utf8(chars.drop_first());
        assert(encode_utf8(chars) == a + b);
        assert forall|i: int| 0 <= i < (a + b).len() implies (a + b)[i] != 255 by {
            if i >= a.len() {
                assert((a + b)[i] == b[i - a.len()]);
            }
        }
    }
}

impl<'a, K: PrimaryKey> StorageMap<'a, K> {
    /// The namespace all entries of the map are stored under.
    pub closed spec fn namespace(&self) -> Seq<u8> {
        self.namespace@
    }

    /// The storage key of the entry for `k`.
    pub open spec fn entry_key(&self, k: K) -> Seq<u8> {
        path_key(self.namespace(), k.key_spec())
    }

    /// `k` can be a key of this map.
    pub open spec fn key_ok(&self, k: K) -> bool {
        path_encodable(self.namespace(), k.key_spec())
    }

    pub fn new(namespace: &'a str) -> (r: Self)
        ensures
            r.namespace() == encode_utf8(namespace@),
    {
        proof {
            lemma_utf8_bytes_below_max(namespace@);
        }
        StorageMap { namespace: namespace.as_bytes(), key_type: PhantomData }
    }

    pub fn key(&self, k: K) -> (r: Path)
        requires
            self.key_ok(k),
        ensures
            r.key() == self.entry_key(k),
    {
        let keys = k.key();
        let slices = parts_as_slices(&keys, keys.len());
        assert(key_parts(keys@).take(keys@.len() as int) =~= key_parts(keys@));
        Path::new(self.namespace, slices.as_slice())
    }

    pub fn save(&self, store: &mut MemoryStorage, k: K, data: &[u8])
        requires
            self.key_ok(k),
            data@.len() > 0,
        ensures
            storage_contents(*final(store)) == storage_contents(*old(store)).insert(
                self.entry_key(k),
                data@,
            ),
    {
        self.key(k).save(store, data)
    }

    pub fn remove(&self, store: &mut MemoryStorage, k: K)
        requires
            self.key_ok(k),
        ensures
            storage_contents(*final(store)) == storage_contents(*old(store)).remove(
                self.entry_key(k),
            ),
    {
        self.key(k).remove(store)
    }

    /// Returns an error if no data is set for the key.
    pub fn load(&self, store: &MemoryStorage, k: K) -> (r: Result<Vec<u8>, StorageError>)
        requires
            self.key_ok(k),
        ensures
            r is Ok <==> storage_contents(*store).contains_key(self.entry_key(k)),
            r matches Ok(v) ==> v@ == storage_contents(*store)[self.entry_key(k)],
            r matches Err(e) ==> e == StorageError::NotFound,
    {
        self.key(k).load(store)
    }

    /// Returns `None` if no data is set for the key.
    pub fn may_load(&self, store: &MemoryStorage, k: K) -> (r: Option<Vec<u8>>)
        requires
            self.key_ok(k),
        ensures
            r is Some <==> storage_contents(*store).contains_key(self.entry_key(k)),
            r matches Some(v) ==> v@ == storage_contents(*store)[self.entry_key(k)],
    {
        self.key(k).may_load(store)
    }

    /// Whether any data is stored for the key, without reading it.
    pub fn has(&self, store: &MemoryStorage, k: K) -> (r: bool)
        requires
            self.key_ok(k),
        ensures
            r == storage_contents(*store).contains_key(self.entry_key(k)),
    {
        self.key(k).has(store)
    }

    /// Loads the data for the key, applies `action` to it, and stores the result.
    pub fn update<A, E>(&self, store: &mut MemoryStorage, k: K, action: A) -> (r: Result<
        Vec<u8>,
        E,
    >)
        where
            A: FnOnce(Option<Vec<u8>>) -> Result<Vec<u8>, E>,
        requires
            self.key_ok(k),
            forall|input: Option<Vec<u8>>| #[trigger] call_requires(action, (input,)),
            forall|input: Option<Vec<u8>>, out: Result<Vec<u8>, E>|
                call_ensures(action, (input,), out) ==> (out matches Ok(v) ==> v@.len() > 0),
        ensures
            exists|input: Option<Vec<u8>>|
                {
                    &&& (input is Some <==> storage_contents(*old(store)).contains_key(
                        self.entry_key(k),
                    ))
                    &&& (input matches Some(v) ==> v@ == storage_contents(*old(store))[self.entry_key(
                        k,
                    )])
                    &&& call_ensures(action, (input,), r)
                },
            r matches Ok(v) ==> storage_contents(*final(store)) == storage_contents(
                *old(store),
            ).insert(self.entry_key(k), v@),
            r is Err ==> storage_contents(*final(store)) == storage_contents(*old(store)),
    {
        self.key(k).update(store, action)
    }

    /// What a load gives back after a save: the saved value under the saved key, while
    /// the entry of every other key of the map (with as many parts) keeps what it held;
    /// after a remove, the key holds nothing and the other entries stay.
    pub proof fn lemma_save_then_load(
        &self,
        contents: Map<Seq<u8>, Seq<u8>>,
        k: K,
        data: Seq<u8>,
        other: K,
    )
        requires
            self.key_ok(k),
            self.key_ok(other),
            other.key_spec().len() == k.key_spec().len(),
            other.key_spec() != k.key_spec(),
        ensures
            contents.insert(self.entry_key(k), data)[self.entry_key(k)] == data,
            contents.insert(self.entry_key(k), data).contains_key(self.entry_key(other))
                == contents.contains_key(self.entry_key(other)),
            contents.insert(self.entry_key(k), data)[self.entry_key(other)] == contents[self.entry_key(
                other,
            )],
            !contents.remove(self.entry_key(k)).contains_key(self.entry_key(k)),
            contents.remove(self.entry_key(k)).contains_key(self.entry_key(other))
                == contents.contains_key(self.entry_key(other)),
    {
        if self.entry_key(other) == self.entry_key(k) {
            lemma_map_entries_distinct(
                self.namespace(),
                other.key_spec(),
                self.namespace(),
                k.key_spec(),
            );
        }
    }

    /// The bytes every key of the map starts with.
    pub open spec fn root_prefix(&self) -> Seq<u8> {
        namespaced_key(seq![self.namespace()], Seq::empty())
    }

    fn no_prefix(&self) -> (r: Prefix)
        requires
            self.namespace().len() <= 0xFFFF,
        ensures
            r.prefix_bytes() == self.root_prefix(),
    {
        let subs: Vec<&[u8]> = Vec::new();
        assert(slices_view(subs@) =~= Seq::<Seq<u8>>::empty());
        assert(seq![self.namespace()] + Seq::<Seq<u8>>::empty() =~= seq![self.namespace()]);
        Prefix::new(self.namespace, subs.as_slice())
    }

    /// The entries whose keys start with the given first key parts.
    pub fn prefix<P: Prefixer>(&self, p: P) -> (r: Prefix)
        requires
            self.namespace().len() <= 0xFFFF,
            all_encodable(p.prefix_spec()),
        ensures
            r.prefix_bytes() == namespaced_key(seq![self.namespace()] + p.prefix_spec(), Seq::empty()),
    {
        let parts = p.prefix();
        let slices = parts_as_slices(&parts, parts.len());
        assert(key_parts(parts@).take(parts@.len() as int) =~= key_parts(parts@));
        Prefix::new(self.namespace, slices.as_slice())
    }

    /// The entries whose keys start with the given first key parts (all but the last
    /// part of a key are fixed).
    pub fn sub_prefix<P: Prefixer>(&self, p: P) -> (r: Prefix)
        requires
            self.namespace().len() <= 0xFFFF,
            all_encodable(p.prefix_spec()),
        ensures
            r.prefix_bytes() == namespaced_key(seq![self.namespace()] + p.prefix_spec(), Seq::empty()),
    {
        self.prefix(p)
    }

    /// The entries whose keys start with the given first key parts; their remaining key
    /// parts are read back by `Prefix::range_de` with the suffix type.
    pub fn prefix_de<P: Prefixer>(&self, p: P) -> (r: Prefix)
        requires
            self.namespace().len() <= 0xFFFF,
            all_encodable(p.prefix_spec()),
        ensures
            r.prefix_bytes() == namespaced_key(seq![self.namespace()] + p.prefix_spec(), Seq::empty()),
    {
        self.prefix(p)
    }

    /// The entries whose keys start with the given first key parts (all but the last
    /// part fixed), to be read back with the suffix type.
    pub fn sub_prefix_de<P: Prefixer>(&self, p: P) -> (r: Prefix)
        requires
            self.namespace().len() <= 0xFFFF,
            all_encodable(p.prefix_spec()),
        ensures
            r.prefix_bytes() == namespaced_key(seq![self.namespace()] + p.prefix_spec(), Seq::empty()),
    {
        self.prefix(p)
    }

    /// The root prefix is empty or does not end in a 255 byte, as the namespace is text.
    proof fn lemma_root_prefix_open(&self)
        requires
            self.namespace().len() == 0 || self.namespace().last() != 255,
        ensures
            self.root_prefix().len() == 0 || self.root_prefix().last() != 255,
    {
        let ns = self.namespace();
        reveal_with_fuel(nested_prefix, 2);
        assert(seq![ns].drop_first() =~= Seq::<Seq<u8>>::empty());
        assert(self.root_prefix() =~= length_bytes(ns.len()) + ns);
    }

    /// The entries of the map whose keys start with a prefix between the prefix bounds,
    /// in the given order, each with its raw key (the map's namespace cut off).
    pub fn prefix_range<P: Prefixer>(
        &self,
        store: &MemoryStorage,
        min: Option<PrefixBound<P>>,
        max: Option<PrefixBound<P>>,
        order: Order,
    ) -> (r: Vec<(Vec<u8>, Vec<u8>)>)
        requires
            self.namespace().len() <= 0xFFFF,
            min matches Some(b) ==> all_encodable(b.prefix_key().prefix_spec()),
            max matches Some(b) ==> all_encodable(b.prefix_key().prefix_spec()),
        ensures
            is_range_between(
                storage_contents(*store),
                self.root_prefix(),
                prefix_start_as_bound(opt_prefix_bound(min)),
                prefix_end_as_bound(opt_prefix_bound(max)),
                order,
                entries_view(r@),
            ),
    {
        proof {
            use_type_invariant(self);
            self.lemma_root_prefix_open();
            lemma_range_trimmable(
                storage_contents(*store),
                self.root_prefix(),
                prefix_start_as_bound(opt_prefix_bound(min)),
                prefix_end_as_bound(opt_prefix_bound(max)),
            );
        }
        namespaced_prefix_range(store, self.namespace, min, max, order)
    }

    /// The entries of the map with keys between the bounds, in the given order, each with
    /// its raw key (the map's namespace cut off).
    pub fn range(
        &self,
        store: &MemoryStorage,
        min: Option<Bound>,
        max: Option<Bound>,
        order: Order,
    ) -> (r: Vec<(Vec<u8>, Vec<u8>)>)
        requires
            self.namespace().len() <= 0xFFFF,
        ensures
            is_prefix_range(
                storage_contents(*store),
                self.root_prefix(),
                min,
                max,
                order,
                entries_view(r@),
            ),
    {
        proof {
            use_type_invariant(self);
            self.lemma_root_range_ok(storage_contents(*store), min, max);
        }
        self.no_prefix().range(store, min, max, order)
    }

    /// The raw keys of the map between the bounds, in the given order.
    pub fn keys(
        &self,
        store: &MemoryStorage,
        min: Option<Bound>,
        max: Option<Bound>,
        order: Order,
    ) -> (r: Vec<Vec<u8>>)
        requires
            self.namespace().len() <= 0xFFFF,
        ensures
            exists|entries: Seq<(Seq<u8>, Seq<u8>)>|
                {
                    &&& is_prefix_range(
                        storage_contents(*store),
                        self.root_prefix(),
                        min,
                        max,
                        order,
                        entries,
                    )
                    &&& keys_view(r@) == entries.map_values(|p: (Seq<u8>, Seq<u8>)| p.0)
                },
    {
        proof {
            use_type_invariant(self);
            self.lemma_root_range_ok(storage_contents(*store), min, max);
        }
        self.no_prefix().keys(store, min, max, order)
    }

    /// Every range of the whole map can be collected: its keys all start with the map's
    /// prefix, which does not end in a 255 byte when the namespace does not (as no text
    /// does).
    pub proof fn lemma_root_range_ok(
        &self,
        contents: Map<Seq<u8>, Seq<u8>>,
        min: Option<Bound>,
        max: Option<Bound>,
    )
        requires
            self.namespace().len() == 0 || self.namespace().last() != 255,
        ensures
            prefix_range_ok(contents, self.root_prefix(), min, max),
    {
        let ns = self.namespace();
        let p = self.root_prefix();
        reveal_with_fuel(nested_prefix, 2);
        assert(seq![ns].drop_first() =~= Seq::<Seq<u8>>::empty());
        assert(p =~= length_bytes(ns.len()) + ns);
        lemma_range_trimmable(contents, p, opt_bound(min), opt_bound(max));
    }
}

impl<'a, K: PrimaryKey + KeyDeserialize> StorageMap<'a, K> {
    /// Every key stored under the map can be read back as a `K` without panicking.
    pub open spec fn keys_readable(&self, contents: Map<Seq<u8>, Seq<u8>>) -> bool {
        forall|k: Seq<u8>|
            #[trigger] contents.contains_key(k) && is_prefix_of(self.root_prefix(), k) ==> K::safe(
                k.subrange(self.root_prefix().len() as int, k.len() as int),
            )
    }

    /// The keys a range of the whole map finds can be read back.
    proof fn lemma_range_keys_readable(
        &self,
        contents: Map<Seq<u8>, Seq<u8>>,
        min: Option<Bound>,
        max: Option<Bound>,
        order: Order,
        entries: Seq<(Seq<u8>, Seq<u8>)>,
    )
        requires
            self.namespace().len() == 0 || self.namespace().last() != 255,
            self.keys_readable(contents),
            is_prefix_range(contents, self.root_prefix(), min, max, order, entries),
        ensures
            forall|i: int| 0 <= i < entries.len() ==> K::safe(#[trigger] entries[i].0),
    {
        let p = self.root_prefix();
        let ns = self.namespace();
        reveal_with_fuel(nested_prefix, 2);
        assert(seq![ns].drop_first() =~= Seq::<Seq<u8>>::empty());
        assert(p =~= length_bytes(ns.len()) + ns);
        let raw = choose|raw: Seq<(Seq<u8>, Seq<u8>)>|
            {
                &&& is_range_of(
                    contents,
                    Some(start_key(p, opt_bound(min))),
                    Some(end_key(p, opt_bound(max))),
                    order,
                    raw,
                )
                &&& entries == trim_keys(raw, p.len())
            };
        assert forall|i: int| 0 <= i < entries.len() implies K::safe(#[trigger] entries[i].0) by {
            assert(contents.contains_key(raw[i].0));
            lemma_range_keys_under_namespace(p, opt_bound(min), opt_bound(max), raw[i].0);
            assert(entries[i].0 == raw[i].0.subrange(p.len() as int, raw[i].0.len() as int));
        }
    }

    /// Every range of the map, between any byte bounds, finds only keys that can be read
    /// back.
    proof fn lemma_readable_between(
        &self,
        contents: Map<Seq<u8>, Seq<u8>>,
        min: Option<(Seq<u8>, bool)>,
        max: Option<(Seq<u8>, bool)>,
    )
        requires
            self.namespace().len() == 0 || self.namespace().last() != 255,
            self.keys_readable(contents),
        ensures
            range_readable::<K>(contents, self.root_prefix(), min, max),
            range_ok_between(contents, self.root_prefix(), min, max),
    {
        let p = self.root_prefix();
        self.lemma_root_prefix_open();
        lemma_range_trimmable(contents, p, min, max);
        assert forall|k: Seq<u8>|
            #[trigger] contents.contains_key(k) && in_range(
                k,
                Some(start_key(p, min)),
                Some(end_key(p, max)),
            ) implies K::safe(k.subrange(p.len() as int, k.len() as int)) by {
            lemma_range_keys_under_namespace(p, min, max, k);
        }
    }

    /// The entries of the map whose keys start with a prefix between the prefix bounds, in
    /// the given order, with their keys read back as `K` (each reading may fail on its
    /// own).
    pub fn prefix_range_de<P: Prefixer>(
        &self,
        store: &MemoryStorage,
        min: Option<PrefixBound<P>>,
        max: Option<PrefixBound<P>>,
        order: Order,
    ) -> (r: Vec<Result<(K::Output, Vec<u8>), KeyError>>)
        requires
            self.namespace().len() <= 0xFFFF,
            min matches Some(b) ==> all_encodable(b.prefix_key().prefix_spec()),
            max matches Some(b) ==> all_encodable(b.prefix_key().prefix_spec()),
            self.keys_readable(storage_contents(*store)),
        ensures
            exists|entries: Seq<(Seq<u8>, Seq<u8>)>|
                {
                    &&& is_range_between(
                        storage_contents(*store),
                        self.root_prefix(),
                        prefix_start_as_bound(opt_prefix_bound(min)),
                        prefix_end_as_bound(opt_prefix_bound(max)),
                        order,
                        entries,
                    )
                    &&& decoded_entries::<K>(r@, entries)
                },
    {
        let ghost c = storage_contents(*store);
        let ghost lo = prefix_start_as_bound(opt_prefix_bound(min));
        let ghost hi = prefix_end_as_bound(opt_prefix_bound(max));
        let all = self.prefix_range(store, min, max, order);
        let ghost ev = entries_view(all@);
        proof {
            use_type_invariant(self);
            self.lemma_readable_between(c, lo, hi);
            lemma_range_entries_safe::<K>(c, self.root_prefix(), lo, hi, order, ev);
        }
        decode_entries::<K>(all)
    }

    /// The keys of the map between the bounds, in the given order, read back as `K`; keys
    /// that cannot be read are left out.
    pub fn keys_de(
        &self,
        store: &MemoryStorage,
        min: Option<Bound>,
        max: Option<Bound>,
        order: Order,
    ) -> (r: Vec<K::Output>)
        requires
            self.namespace().len() <= 0xFFFF,
            self.keys_readable(storage_contents(*store)),
        ensures
            exists|entries: Seq<(Seq<u8>, Seq<u8>)>|
                {
                    &&& is_prefix_range(
                        storage_contents(*store),
                        self.root_prefix(),
                        min,
                        max,
                        order,
                        entries,
                    )
                    &&& outputs_view(r@) == decodable_keys::<K>(entries)
                },
    {
        proof {
            use_type_invariant(self);
            self.lemma_readable_between(storage_contents(*store), opt_bound(min), opt_bound(max));
        }
        self.no_prefix().keys_de::<K>(store, min, max, order)
    }

    /// The entries of the map between the bounds, in the given order, with their keys read
    /// back as `K` (each reading may fail on its own).
    pub fn range_de(
        &self,
        store: &MemoryStorage,
        min: Option<Bound>,
        max: Option<Bound>,
        order: Order,
    ) -> (r: Vec<Result<(K::Output, Vec<u8>), KeyError>>)
        requires
            self.namespace().len() <= 0xFFFF,
            self.keys_readable(storage_contents(*store)),
        ensures
            exists|entries: Seq<(Seq<u8>, Seq<u8>)>|
                {
                    &&& is_prefix_range(
                        storage_contents(*store),
                        self.root_prefix(),
                        min,
                        max,
                        order,
                        entries,
                    )
                    &&& r@.len() == entries.len()
                    &&& forall|i: int|
                        0 <= i < entries.len() ==> {
                            &&& (#[trigger] r@[i] is Ok <==> K::decodable(entries[i].0))
                            &&& r@[i] matches Ok(p) ==> p.0@ == K::decoded(entries[i].0) && p.1@
                                == entries[i].1
                        }
                },
    {
        let ghost c = storage_contents(*store);
        let all = self.range(store, min, max, order);
        let ghost ev = entries_view(all@);
        proof {
            use_type_invariant(self);
            self.lemma_range_keys_readable(c, min, max, order, ev);
        }
        let mut out: Vec<Result<(K::Output, Vec<u8>), KeyError>> = Vec::new();
        let mut i: usize = 0;
        while i < all.len()
            invariant
                i <= all@.len(),
                out@.len() == i,
                ev == entries_view(all@),
                forall|j: int| 0 <= j < ev.len() ==> K::safe(#[trigger] ev[j].0),
                forall|j: int|
                    0 <= j < i ==> {
                        &&& (#[trigger] out@[j] is Ok <==> K::decodable(ev[j].0))
                        &&& out@[j] matches Ok(p) ==> p.0@ == K::decoded(ev[j].0) && p.1@
                            == ev[j].1
                    },
            decreases all@.len() - i,
        {
            let (k, v) = &all[i];
            assert(ev[i as int] == (k@, v@));
            let key = crate::prefix::copy_bytes(k.as_slice());
            let value = crate::prefix::copy_bytes(v.as_slice());
            assert(K::safe(ev[i as int].0));
            assert(key@ == ev[i as int].0);
            let item = match K::from_vec(key) {
                Ok(o) => Ok((o, value)),
                Err(e) => Err(e),
            };
            out.push(item);
            i = i + 1;
        }
        out
    }
}

/// Entries of maps never overlap: two storage keys built from namespaces and key parts
/// (with the same number of parts) are equal only if the namespaces and all the parts
/// are equal. So saving one entry leaves every other entry of every map as it was.
pub proof fn lemma_map_entries_distinct(
    namespace_a: Seq<u8>,
    parts_a: Seq<Seq<u8>>,
    namespace_b: Seq<u8>,
    parts_b: Seq<Seq<u8>>,
)
    requires
        path_encodable(namespace_a, parts_a),
        path_encodable(namespace_b, parts_b),
        parts_a.len() == parts_b.len(),
        path_key(namespace_a, parts_a) == path_key(namespace_b, parts_b),
    ensures
        namespace_a == namespace_b,
        parts_a == parts_b,
{
    let la = seq![namespace_a] + parts_a.drop_last();
    let lb = seq![namespace_b] + parts_b.drop_last();
    assert forall|i: int| 0 <= i < la.len() implies #[trigger] la[i].len() <= 0xFFFF by {
        if i > 0 {
            assert(la[i] == parts_a.drop_last()[i - 1]);
        }
    }
    assert forall|i: int| 0 <= i < lb.len() implies #[trigger] lb[i].len() <= 0xFFFF by {
        if i > 0 {
            assert(lb[i] == parts_b.drop_last()[i - 1]);
        }
    }
    assert(all_encodable(la));
    assert(all_encodable(lb));
    lemma_namespaced_key_injective(la, parts_a.last(), lb, parts_b.last());
    assert(la[0] == lb[0]);
    assert(parts_a.drop_last() =~= la.drop_first());
    assert(parts_b.drop_last() =~= lb.drop_first());
    assert(parts_a =~= parts_a.drop_last().push(parts_a.last()));
    assert(parts_b =~= parts_b.drop_last().push(parts_b.last()));

}


/// Maps with different namespaces never share a storage key: each key is the
/// length-prefixed namespace followed by the key parts, so whatever keys the two maps are
/// given, their storage keys differ, and saving or removing through one never changes what
/// the other loads.
pub proof fn lemma_maps_disjoint<K1: PrimaryKey, K2: PrimaryKey>(
    m1: StorageMap<K1>,
    m2: StorageMap<K2>,
    k1: K1,
    k2: K2,
    contents: Map<Seq<u8>, Seq<u8>>,
    data: Seq<u8>,
)
    requires
        m1.namespace() != m2.namespace(),
        m1.key_ok(k1),
        m2.key_ok(k2),
    ensures
        m1.entry_key(k1) != m2.entry_key(k2),
        contents.insert(m1.entry_key(k1), data).contains_key(m2.entry_key(k2))
            == contents.contains_key(m2.entry_key(k2)),
        contents.insert(m1.entry_key(k1), data)[m2.entry_key(k2)] == contents[m2.entry_key(k2)],
        contents.remove(m1.entry_key(k1)).contains_key(m2.entry_key(k2))
            == contents.contains_key(m2.entry_key(k2)),
        contents.remove(m1.entry_key(k1))[m2.entry_key(k2)] == contents[m2.entry_key(k2)],
{
    if m1.entry_key(k1) == m2.entry_key(k2) {
        crate::indexed_map::lemma_path_key_namespace(
            m1.namespace(),
            k1.key_spec(),
            m2.namespace(),
            k2.key_spec(),
        );
    }
}

} // verus!
