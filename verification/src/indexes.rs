//! Secondary indexes over the values of a map.
use crate::helpers::{all_encodable, namespaced_key, namespaces_with_key, nested_prefix, slices_view};
use crate::keys::{joinable, joined_key_of, PrimaryKey};
use crate::map::StorageMap;
use crate::path::path_key;
use crate::snapshot::{count_of, count_text, digits_of};
use crate::prefix::{
    entries_safe, is_range_between, opt_bound, opt_prefix_bound, prefix_end_as_bound,
    prefix_start_as_bound, range_ok_between, start_key, end_key, Bound, Prefix, PrefixBound,
};
use crate::storage::{entries_view, in_range, Order};
use crate::keys::Prefixer;
use crate::de::{string_from_utf8, KeyDeserialize};
use crate::storage::{storage_contents, storage_get, StorageError};
use cosmwasm_std::MemoryStorage;
use core::marker::PhantomData;
use vstd::prelude::*;
use vstd::string::StringSliceAdditionalSpecFns;
use vstd::utf8::{
    decode_utf8, encode_utf8, encode_utf8_decode_utf8, encode_utf8_valid_utf8, is_ascii_chars,
    is_ascii_chars_encode_utf8, valid_utf8,
};

verus! {

/// The UTF-8 bytes of a text, used as an index value.
pub fn index_string(data: &str) -> (r: Vec<u8>)
    ensures
        r@ == encode_utf8(data@),
{
    let b = data.as_bytes();
    assert(b@ == data.spec_bytes());
    let mut v: Vec<u8> = Vec::new();
    v.extend_from_slice(b);
    v
}

pub fn index_tuple(name: &str, age: u32) -> (r: (Vec<u8>, u32))
    ensures
        r.0@ == encode_utf8(name@),
        r.1 == age,
{
    (index_string(name), age)
}

pub fn index_triple(name: &str, age: u32, pk: Vec<u8>) -> (r: (Vec<u8>, u32, Vec<u8>))
    ensures
        r.0@ == encode_utf8(name@),
        r.1 == age,
        r.2@ == pk@,
{
    (index_string(name), age, pk)
}

pub fn index_string_tuple(data1: &str, data2: &str) -> (r: (Vec<u8>, Vec<u8>))
    ensures
        r.0@ == encode_utf8(data1@),
        r.1@ == encode_utf8(data2@),
{
    (index_string(data1), index_string(data2))
}

/// MultiIndex stores (namespace, index_name, idx_value, pk) -> b"pk_len".
/// Allows many values per index, and references pk.
/// The associated primary key value is stored in the main (pk_namespace) map,
/// which stores (namespace, pk_namespace, pk) -> value.
pub struct MultiIndex<'a, IK, T, F> {
    index: F,
    idx_namespace: &'a [u8],
    // note, we collapse the ik - combining everything under the namespace - and
    // concatenating the pk
    idx_map: StorageMap<'a, Vec<u8>>,
    pk_namespace: &'a [u8],
    phantom: PhantomData<(IK, T)>,
}

impl<'a, IK: PrimaryKey, T, F: Fn(&T) -> IK> MultiIndex<'a, IK, T, F> {
    /// The namespace of the index entries.
    pub closed spec fn idx_namespace(&self) -> Seq<u8> {
        self.idx_map.namespace()
    }

    /// The namespace of the primary map.
    pub closed spec fn pk_namespace(&self) -> Seq<u8> {
        self.pk_namespace@
    }

    /// The function that computes the index value of a stored value.
    pub closed spec fn index_fn(&self) -> F {
        self.index
    }

    /// Create a new MultiIndex
    ///
    /// idx_fn - lambda creating index key from value
    /// pk_namespace - prefix for the primary key
    /// idx_namespace - prefix for the index value
    pub fn new(idx_fn: F, pk_namespace: &'a str, idx_namespace: &'a str) -> (r: Self)
        ensures
            r.idx_namespace() == encode_utf8(idx_namespace@),
            r.pk_namespace() == encode_utf8(pk_namespace@),
            r.index_fn() == idx_fn,
    {
        let i = idx_namespace.as_bytes();
        let p = pk_namespace.as_bytes();
        MultiIndex {
            index: idx_fn,
            idx_namespace: i,
            idx_map: StorageMap::new(idx_namespace),
            pk_namespace: p,
            phantom: PhantomData,
        }
    }

    /// The index value of a stored value.
    pub fn index_of(&self, data: &T) -> (r: IK)
        requires
            call_requires(self.index_fn(), (data,)),
        ensures
            call_ensures(self.index_fn(), (data,), r),
    {
        (self.index)(data)
    }

    /// The prefix of the index entries for an index value: every part of the index
    /// value is length-prefixed, and the primary key follows.
    pub fn index_key(&self, k: IK) -> (r: Vec<u8>)
        requires
            all_encodable(k.key_spec()),
        ensures
            r@ == nested_prefix(k.key_spec()),
    {
        let empty: [u8; 0] = [];
        let r = k.joined_extra_key(empty.as_slice());
        assert(namespaced_key(k.key_spec(), empty@) =~= nested_prefix(k.key_spec()));
        r
    }
}

/// UniqueIndex stores (namespace, index_name, idx_value) -> {key, value}
/// Allows one value per index (i.e. unique) and copies pk and data.
pub struct UniqueIndex<'a, IK, T, F> {
    index: F,
    idx_map: StorageMap<'a, IK>,
    idx_namespace: &'a [u8],
    phantom: PhantomData<T>,
}

impl<'a, IK: PrimaryKey, T, F: Fn(&T) -> IK> UniqueIndex<'a, IK, T, F> {
    /// The namespace of the index entries.
    pub closed spec fn idx_namespace(&self) -> Seq<u8> {
        self.idx_map.namespace()
    }

    /// The function that computes the index value of a stored value.
    pub closed spec fn index_fn(&self) -> F {
        self.index
    }

    /// Create a new UniqueIndex
    ///
    /// idx_fn - lambda creating index key from index value
    /// idx_namespace - prefix for the index value
    pub fn new(idx_fn: F, idx_namespace: &'a str) -> (r: Self)
        ensures
            r.idx_namespace() == encode_utf8(idx_namespace@),
            r.index_fn() == idx_fn,
    {
        let i = idx_namespace.as_bytes();
        UniqueIndex {
            index: idx_fn,
            idx_map: StorageMap::new(idx_namespace),
            idx_namespace: i,
            phantom: PhantomData,
        }
    }

    /// The index value of a stored value.
    pub fn index_of(&self, data: &T) -> (r: IK)
        requires
            call_requires(self.index_fn(), (data,)),
        ensures
            call_ensures(self.index_fn(), (data,), r),
    {
        (self.index)(data)
    }

    /// The key of the index entry for an index value.
    pub fn index_key(&self, k: IK) -> (r: Vec<u8>)
        requires
            joinable(k.key_spec()),
        ensures
            r@ == joined_key_of(k.key_spec()),
    {
        k.joined_key()
    }
}

/// Why an index refused a value.
#[derive(Clone, Copy, Debug, PartialEq, Eq, Structural)]
pub enum IndexError {
    /// Another value already holds the index value of a unique index.
    UniqueViolation,
}

impl<'a, IK: PrimaryKey, T, F: Fn(&T) -> IK> MultiIndex<'a, IK, T, F> {
    /// Where the entry of a primary key under an index value is stored: the index value's
    /// parts are length-prefixed and the primary key follows.
    pub open spec fn entry_key(&self, ik: IK, pk: Seq<u8>) -> Seq<u8> {
        path_key(self.idx_namespace(), seq![namespaced_key(ik.key_spec(), pk)])
    }

    /// The index function can be applied to the value, and its results can be written.
    pub open spec fn indexable(&self, data: &T) -> bool {
        &&& call_requires(self.index_fn(), (data,))
        &&& forall|ik: IK| call_ensures(self.index_fn(), (data,), ik) ==> all_encodable(ik.key_spec())
    }

    /// Records that the value stored under `pk` has its index value: the entry holds the
    /// length of `pk`, so that `pk` can be cut back off the entry's key.
    pub fn save(&self, store: &mut MemoryStorage, pk: &[u8], data: &T) -> (r: Result<(), StorageError>)
        requires
            self.idx_namespace().len() <= 0xFFFF,
            self.indexable(data),
        ensures
            r is Ok,
            exists|ik: IK|
                call_ensures(self.index_fn(), (data,), ik) && storage_contents(*final(store))
                    == storage_contents(*old(store)).insert(
                    self.entry_key(ik, pk@),
                    digits_of((pk@.len() as u32) as nat),
                ),
    {
        let ik = (self.index)(data);
        assert(call_ensures(self.index_fn(), (data,), ik));
        let idx = ik.joined_extra_key(pk);
        assert(self.idx_map.entry_key(idx) == self.entry_key(ik, pk@));
        let len_text = count_text(pk.len() as u32);
        proof {
            crate::snapshot::lemma_count_roundtrip(pk@.len() as u32);
        }
        self.idx_map.save(store, idx, len_text.as_slice());
        Ok(())
    }

    /// Drops the entry of `pk` under the index value of its old value.
    pub fn remove(&self, store: &mut MemoryStorage, pk: &[u8], old_data: &T) -> (r: Result<
        (),
        StorageError,
    >)
        requires
            self.idx_namespace().len() <= 0xFFFF,
            self.indexable(old_data),
        ensures
            r is Ok,
            exists|ik: IK|
                call_ensures(self.index_fn(), (old_data,), ik) && storage_contents(*final(store))
                    == storage_contents(*old(store)).remove(self.entry_key(ik, pk@)),
    {
        let ik = (self.index)(old_data);
        assert(call_ensures(self.index_fn(), (old_data,), ik));
        let idx = ik.joined_extra_key(pk);
        assert(self.idx_map.entry_key(idx) == self.entry_key(ik, pk@));
        self.idx_map.remove(store, idx);
        Ok(())
    }
}

/// What `Binary::to_base64` gives for bytes: their standard base64 text.
pub uninterp spec fn base64_of(bytes: Seq<u8>) -> Seq<char>;

/// What `Binary::from_base64` gives for a text: the bytes it encodes, or `None` when it is
/// not base64.
pub uninterp spec fn base64_decoded(text: Seq<char>) -> Option<Seq<u8>>;

/// `Binary::to_base64`: the standard base64 text of the bytes, named by `base64_of`. Its
/// characters come from the standard alphabet and `=` (so they are ASCII and no `"`), and
/// `Binary::from_base64` reads the text back into the bytes.
#[verifier::external_body]
fn binary_to_base64(bytes: &[u8]) -> (r: String)
    ensures
        r@ == base64_of(bytes@),
        is_ascii_chars(r@),
        forall|i: int| 0 <= i < r@.len() ==> r@[i] != '"',
        base64_decoded(r@) == Some(bytes@),
{
    cosmwasm_std::Binary::from(bytes).to_base64()
}

/// `Binary::from_base64`: the bytes that a base64 text encodes, named by `base64_decoded`;
/// `None` where the text is not base64.
#[verifier::external_body]
fn binary_from_base64(text: &str) -> (r: Option<Vec<u8>>)
    ensures
        match r {
            Some(b) => base64_decoded(text@) == Some(b@),
            None => base64_decoded(text@) is None,
        },
{
    cosmwasm_std::Binary::from_base64(text).ok().map(|b| b.to_vec())
}

/// The bytes a unique index entry starts with: `{"pk":"`.
pub open spec fn unique_head() -> Seq<u8> {
    seq![123u8, 34u8, 112u8, 107u8, 34u8, 58u8, 34u8]
}

/// The bytes between the primary key and the value of a unique index entry: `","value":`.
pub open spec fn unique_sep() -> Seq<u8> {
    seq![34u8, 44u8, 34u8, 118u8, 97u8, 108u8, 117u8, 101u8, 34u8, 58u8]
}

/// The stored form of a unique index entry: the primary key (in base64) and a copy of the
/// value, as `{"pk":"...","value":...}`.
pub open spec fn unique_ref_bytes(pk: Seq<u8>, value: Seq<u8>) -> Seq<u8> {
    unique_head() + encode_utf8(base64_of(pk)) + unique_sep() + value + seq![125u8]
}

/// `j` is where the quote that closes the primary key of an entry stands: the first `"`
/// after the head.
pub open spec fn quote_end(v: Seq<u8>, j: int) -> bool {
    &&& 7 <= j < v.len()
    &&& v[j] == 34
    &&& forall|i: int| 7 <= i < j ==> v[i] != 34
}

/// The primary key and the value that the stored bytes of a unique index entry hold, read
/// in the form that saving writes; `None` where they have another form.
pub open spec fn parse_unique(v: Seq<u8>) -> Option<(Seq<u8>, Seq<u8>)> {
    if v.len() >= 7 && v.subrange(0, 7) == unique_head() && exists|j: int| quote_end(v, j) {
        let j = choose|j: int| quote_end(v, j);
        let text = v.subrange(7, j);
        if j + 10 < v.len() && v.subrange(j, j + 10) == unique_sep() && v.last() == 125
            && valid_utf8(text) {
            match base64_decoded(decode_utf8(text)) {
                Some(pk) => Some((pk, v.subrange(j + 10, v.len() - 1))),
                None => None,
            }
        } else {
            None
        }
    } else {
        None
    }
}

/// Only one position closes the primary key.
proof fn lemma_quote_end_unique(v: Seq<u8>, j: int, k: int)
    requires
        quote_end(v, j),
        quote_end(v, k),
    ensures
        j == k,
{
    if j < k {
        assert(v[j] != 34);
    } else if k < j {
        assert(v[k] != 34);
    }
}

/// What saving writes reads back as the primary key and the value, whenever the base64
/// text of the key is ASCII without quotes and decodes back into the key.
pub proof fn lemma_unique_ref_roundtrip(pk: Seq<u8>, value: Seq<u8>)
    requires
        is_ascii_chars(base64_of(pk)),
        forall|i: int| 0 <= i < base64_of(pk).len() ==> base64_of(pk)[i] != '"',
        base64_decoded(base64_of(pk)) == Some(pk),
    ensures
        parse_unique(unique_ref_bytes(pk, value)) == Some((pk, value)),
{
    let chars = base64_of(pk);
    let text = encode_utf8(chars);
    let v = unique_ref_bytes(pk, value);
    is_ascii_chars_encode_utf8(chars);
    let j: int = 7 + text.len() as int;
    assert(v =~= unique_head() + text + unique_sep() + value + seq![125u8]);
    assert(v.subrange(0, 7) =~= unique_head());
    assert forall|i: int| 7 <= i < j implies v[i] != 34 by {
        assert(v[i] == text[i - 7]);
        assert(chars[i - 7] as u8 == text[i - 7]);
        assert(chars[i - 7] != '"');
    }
    assert(quote_end(v, j));
    let c = choose|k: int| quote_end(v, k);
    lemma_quote_end_unique(v, j, c);
    assert(v.subrange(7, j) =~= text);
    assert(v.subrange(j, j + 10) =~= unique_sep());
    assert(v.subrange(j + 10, v.len() - 1) =~= value);
    encode_utf8_valid_utf8(chars);
    encode_utf8_decode_utf8(chars);
}

/// The bytes from `start` up to `end`.
fn bytes_between(b: &[u8], start: usize, end: usize) -> (r: Vec<u8>)
    requires
        start <= end <= b@.len(),
    ensures
        r@ == b@.subrange(start as int, end as int),
{
    let mut out: Vec<u8> = Vec::new();
    let mut i: usize = start;
    while i < end
        invariant
            start <= i <= end <= b@.len(),
            out@ == b@.subrange(start as int, i as int),
        decreases end - i,
    {
        out.push(b[i]);
        assert(out@ =~= b@.subrange(start as int, i + 1));
        i = i + 1;
    }
    out
}

/// Reads a unique index entry back into the primary key and the value it holds.
pub fn deserialize_unique_v(v: &[u8]) -> (r: Result<(Vec<u8>, Vec<u8>), StorageError>)
    ensures
        match parse_unique(v@) {
            Some((pk, value)) => r matches Ok(p) && p.0@ == pk && p.1@ == value,
            None => r == Err::<(Vec<u8>, Vec<u8>), StorageError>(StorageError::ParseErr),
        },
{
    let n = v.len();
    if n < 7 || v[0] != 123 || v[1] != 34 || v[2] != 112 || v[3] != 107 || v[4] != 34 || v[5]
        != 58 || v[6] != 34 {
        proof {
            if n >= 7 {
                assert(v@.subrange(0, 7)[0] == v@[0]);
                assert(v@.subrange(0, 7)[1] == v@[1]);
                assert(v@.subrange(0, 7)[2] == v@[2]);
                assert(v@.subrange(0, 7)[3] == v@[3]);
                assert(v@.subrange(0, 7)[4] == v@[4]);
                assert(v@.subrange(0, 7)[5] == v@[5]);
                assert(v@.subrange(0, 7)[6] == v@[6]);
            }
        }
        return Err(StorageError::ParseErr);
    }
    assert(v@.subrange(0, 7) =~= unique_head());
    let mut j: usize = 7;
    while j < n && v[j] != 34
        invariant
            7 <= j <= n == v@.len(),
            forall|i: int| 7 <= i < j ==> v@[i] != 34,
        decreases n - j,
    {
        j = j + 1;
    }
    if j == n {
        proof {
            assert forall|k: int| !quote_end(v@, k) by {
                if quote_end(v@, k) {
                    assert(v@[k] != 34);
                }
            }
        }
        return Err(StorageError::ParseErr);
    }
    proof {
        assert(quote_end(v@, j as int));
        let c = choose|k: int| quote_end(v@, k);
        lemma_quote_end_unique(v@, j as int, c);
    }
    if n - j <= 10 || v[j + 1] != 44 || v[j + 2] != 34 || v[j + 3] != 118 || v[j + 4] != 97
        || v[j + 5] != 108 || v[j + 6] != 117 || v[j + 7] != 101 || v[j + 8] != 34 || v[j + 9]
        != 58 || v[n - 1] != 125 {
        proof {
            if j + 10 < n {
                let sub = v@.subrange(j as int, j + 10);
                assert(sub[1] == v@[j + 1]);
                assert(sub[2] == v@[j + 2]);
                assert(sub[3] == v@[j + 3]);
                assert(sub[4] == v@[j + 4]);
                assert(sub[5] == v@[j + 5]);
                assert(sub[6] == v@[j + 6]);
                assert(sub[7] == v@[j + 7]);
                assert(sub[8] == v@[j + 8]);
                assert(sub[9] == v@[j + 9]);
            }
        }
        return Err(StorageError::ParseErr);
    }
    assert(v@.subrange(j as int, j + 10) =~= unique_sep());
    let text = bytes_between(v, 7, j);
    let s = match string_from_utf8(text) {
        Ok(s) => s,
        Err(_) => {
            return Err(StorageError::ParseErr);
        },
    };
    let pk = match binary_from_base64(s.as_str()) {
        Some(pk) => pk,
        None => {
            return Err(StorageError::ParseErr);
        },
    };
    let value = bytes_between(v, j + 10, n - 1);
    Ok((pk, value))
}

impl<'a, IK: PrimaryKey, F: Fn(&Vec<u8>) -> IK> UniqueIndex<'a, IK, Vec<u8>, F> {
    /// Where the entry for an index value is stored.
    pub open spec fn entry_key(&self, ik: IK) -> Seq<u8> {
        path_key(self.idx_namespace(), ik.key_spec())
    }

    /// The index function can be applied to the value, and its results can be written.
    pub open spec fn indexable(&self, data: &Vec<u8>) -> bool {
        &&& call_requires(self.index_fn(), (data,))
        &&& forall|ik: IK|
            call_ensures(self.index_fn(), (data,), ik) ==> crate::path::path_encodable(
                self.idx_namespace(),
                ik.key_spec(),
            )
    }

    /// Records the value stored under `pk` under its index value, which no other value
    /// may hold: an index value already taken is refused and nothing changes.
    pub fn save(&self, store: &mut MemoryStorage, pk: &[u8], data: &Vec<u8>) -> (r: Result<
        (),
        IndexError,
    >)
        requires
            self.indexable(data),
        ensures
            exists|ik: IK|
                {
                    &&& call_ensures(self.index_fn(), (data,), ik)
                    &&& storage_contents(*old(store)).contains_key(self.entry_key(ik)) ==> r
                        == Err::<(), IndexError>(IndexError::UniqueViolation)
                        && storage_contents(*final(store)) == storage_contents(*old(store))
                    &&& !storage_contents(*old(store)).contains_key(self.entry_key(ik)) ==> r
                        == Ok::<(), IndexError>(()) && storage_contents(*final(store))
                        == storage_contents(*old(store)).insert(
                        self.entry_key(ik),
                        unique_ref_bytes(pk@, data@),
                    )
                },
            r is Ok ==> parse_unique(unique_ref_bytes(pk@, data@)) == Some((pk@, data@)),
    {
        let ik = (self.index)(data);
        assert(call_ensures(self.index_fn(), (data,), ik));
        let ghost ek = self.entry_key(ik);
        assert(self.idx_map.entry_key(ik) == ek);
        let path = self.idx_map.key(ik);
        assert(path.key() == ek);
        // error if this is already set
        if path.has(store) {
            return Err(IndexError::UniqueViolation);
        }
        let b64 = binary_to_base64(pk);
        proof {
            lemma_unique_ref_roundtrip(pk@, data@);
        }
        let mut v: Vec<u8> = vec![123u8, 34u8, 112u8, 107u8, 34u8, 58u8, 34u8];
        let b64s = b64.as_str();
        let bs = b64s.as_bytes();
        proof {
            assert(bs@ == b64s.spec_bytes());
        }
        v.extend_from_slice(bs);
        v.extend_from_slice(&[34u8, 44u8, 34u8, 118u8, 97u8, 108u8, 117u8, 101u8, 34u8, 58u8]);
        v.extend_from_slice(data.as_slice());
        v.push(125u8);
        assert(v@ =~= unique_ref_bytes(pk@, data@));
        path.save(store, v.as_slice());
        Ok(())
    }

    /// Drops the entry under the index value of the old value.
    pub fn remove(&self, store: &mut MemoryStorage, pk: &[u8], old_data: &Vec<u8>) -> (r: Result<
        (),
        IndexError,
    >)
        requires
            self.indexable(old_data),
        ensures
            r is Ok,
            exists|ik: IK|
                call_ensures(self.index_fn(), (old_data,), ik) && storage_contents(*final(store))
                    == storage_contents(*old(store)).remove(self.entry_key(ik)),
    {
        let ik = (self.index)(old_data);
        assert(call_ensures(self.index_fn(), (old_data,), ik));
        assert(self.idx_map.entry_key(ik) == self.entry_key(ik));
        self.idx_map.remove(store, ik);
        Ok(())
    }
}

/// The bytes from `offset` on.
fn bytes_from(b: &[u8], offset: usize) -> (r: Vec<u8>)
    requires
        offset <= b@.len(),
    ensures
        r@ == b@.subrange(offset as int, b@.len() as int),
{
    let mut out: Vec<u8> = Vec::new();
    let mut i: usize = offset;
    while i < b.len()
        invariant
            offset <= i <= b@.len(),
            out@ == b@.subrange(offset as int, i as int),
        decreases b@.len() - i,
    {
        out.push(b[i]);
        assert(out@ =~= b@.subrange(offset as int, i + 1));
        i = i + 1;
    }
    out
}

/// A record read through an index: the primary key and the value, as bytes.
pub open spec fn record_view(r: Result<(Vec<u8>, Vec<u8>), StorageError>) -> Result<
    (Seq<u8>, Seq<u8>),
    StorageError,
> {
    match r {
        Ok((k, v)) => Ok((k@, v@)),
        Err(e) => Err(e),
    }
}

/// What a multi-index entry reads back as: its key ends with the primary key, whose
/// length the entry holds, and the value is loaded from the primary namespace.
pub open spec fn multi_record(
    contents: Map<Seq<u8>, Seq<u8>>,
    pk_namespace: Seq<u8>,
    key: Seq<u8>,
    pk_len: Seq<u8>,
) -> Result<(Seq<u8>, Seq<u8>), StorageError> {
    match count_of(pk_len) {
        None => Err(StorageError::ParseErr),
        Some(n) => {
            let pk = key.subrange(key.len() - n, key.len() as int);
            let full = namespaced_key(seq![pk_namespace], pk);
            if contents.contains_key(full) {
                Ok((pk, contents[full]))
            } else {
                Err(StorageError::NotFound)
            }
        },
    }
}

/// What a unique index entry reads back as.
pub open spec fn unique_record(v: Seq<u8>) -> Result<(Seq<u8>, Seq<u8>), StorageError> {
    match parse_unique(v) {
        Some(p) => Ok(p),
        None => Err(StorageError::ParseErr),
    }
}

/// Recovers the primary key from the key of a multi-index entry, whose value holds the
/// primary key's length, and loads the value stored under it in the primary namespace.
pub fn deserialize_multi_v(
    store: &MemoryStorage,
    pk_namespace: &[u8],
    key: Vec<u8>,
    pk_len: Vec<u8>,
) -> (r: Result<(Vec<u8>, Vec<u8>), StorageError>)
    requires
        pk_namespace@.len() <= 0xFFFF,
        count_of(pk_len@) matches Some(n) ==> n <= key@.len(),
    ensures
        record_view(r) == multi_record(storage_contents(*store), pk_namespace@, key@, pk_len@),
{
    // Deserialize pk_len
    let n = match crate::snapshot::parse_count(pk_len.as_slice()) {
        None => {
            return Err(StorageError::ParseErr);
        },
        Some(n) => n,
    };
    // Recover pk from last part of k
    let offset = key.len() - n as usize;
    let pk = bytes_from(key.as_slice(), offset);
    let mut names: Vec<&[u8]> = Vec::new();
    names.push(pk_namespace);
    assert(slices_view(names@) =~= seq![pk_namespace@]);
    let full_key = namespaces_with_key(names.as_slice(), pk.as_slice());
    match storage_get(store, full_key.as_slice()) {
        None => Err(StorageError::NotFound),
        Some(v) => Ok((pk, v)),
    }
}


/// Every multi-index entry that a range under `prefix` between the bounds can find holds
/// a primary key length that fits in its key (with the prefix cut off).
pub open spec fn multi_lengths_fit(
    contents: Map<Seq<u8>, Seq<u8>>,
    prefix: Seq<u8>,
    min: Option<(Seq<u8>, bool)>,
    max: Option<(Seq<u8>, bool)>,
) -> bool {
    forall|k: Seq<u8>|
        #[trigger] contents.contains_key(k) && in_range(
            k,
            Some(start_key(prefix, min)),
            Some(end_key(prefix, max)),
        ) ==> (count_of(contents[k]) matches Some(n) ==> n + prefix.len() <= k.len())
}

/// The entries of a range whose keys fit their stored primary key lengths.
pub open spec fn entry_lengths_fit(entries: Seq<(Seq<u8>, Seq<u8>)>) -> bool {
    forall|i: int|
        0 <= i < entries.len() ==> (count_of(#[trigger] entries[i].1) matches Some(n) ==> n
            <= entries[i].0.len())
}

/// The entries of a range under a prefix whose multi-index entries fit their lengths fit
/// them too, once the prefix is cut off.
pub proof fn lemma_range_lengths_fit(
    contents: Map<Seq<u8>, Seq<u8>>,
    prefix: Seq<u8>,
    min: Option<(Seq<u8>, bool)>,
    max: Option<(Seq<u8>, bool)>,
    order: Order,
    entries: Seq<(Seq<u8>, Seq<u8>)>,
)
    requires
        multi_lengths_fit(contents, prefix, min, max),
        is_range_between(contents, prefix, min, max, order, entries),
    ensures
        entry_lengths_fit(entries),
{
    let raw = choose|raw: Seq<(Seq<u8>, Seq<u8>)>|
        {
            &&& crate::storage::is_range_of(
                contents,
                Some(start_key(prefix, min)),
                Some(end_key(prefix, max)),
                order,
                raw,
            )
            &&& entries == crate::prefix::trim_keys(raw, prefix.len())
        };
    assert forall|i: int| 0 <= i < entries.len() implies (count_of(#[trigger] entries[i].1) matches Some(
        n,
    ) ==> n <= entries[i].0.len()) by {
        assert(contents.contains_key(raw[i].0));
        assert(entries[i] == (
            raw[i].0.subrange(prefix.len() as int, raw[i].0.len() as int),
            raw[i].1,
        ));
    }
}

/// How the entries under an index prefix are read back.
#[derive(Clone, Copy, Debug, PartialEq, Eq, Structural)]
pub enum IndexKind {
    /// Entries hold the length of the primary key that ends their key; the value is in
    /// the primary namespace.
    Multi,
    /// Entries hold the primary key and a copy of the value.
    Unique,
}

/// What an entry of an index of the kind reads back as.
pub open spec fn record_of(
    kind: IndexKind,
    contents: Map<Seq<u8>, Seq<u8>>,
    pk_namespace: Seq<u8>,
    entry: (Seq<u8>, Seq<u8>),
) -> Result<(Seq<u8>, Seq<u8>), StorageError> {
    match kind {
        IndexKind::Multi => multi_record(contents, pk_namespace, entry.0, entry.1),
        IndexKind::Unique => unique_record(entry.1),
    }
}

/// Each result is what the entry at the same place reads back as.
pub open spec fn records_match(
    kind: IndexKind,
    contents: Map<Seq<u8>, Seq<u8>>,
    pk_namespace: Seq<u8>,
    r: Seq<Result<(Vec<u8>, Vec<u8>), StorageError>>,
    entries: Seq<(Seq<u8>, Seq<u8>)>,
) -> bool {
    &&& r.len() == entries.len()
    &&& forall|i: int|
        0 <= i < entries.len() ==> record_view(#[trigger] r[i]) == record_of(
            kind,
            contents,
            pk_namespace,
            entries[i],
        )
}

/// Reads index entries back into the primary keys and values they stand for.
fn read_records(
    store: &MemoryStorage,
    kind: IndexKind,
    pk_namespace: &[u8],
    all: Vec<(Vec<u8>, Vec<u8>)>,
) -> (r: Vec<Result<(Vec<u8>, Vec<u8>), StorageError>>)
    requires
        pk_namespace@.len() <= 0xFFFF,
        kind == IndexKind::Multi ==> entry_lengths_fit(entries_view(all@)),
    ensures
        records_match(kind, storage_contents(*store), pk_namespace@, r@, entries_view(all@)),
{
    let ghost ev = entries_view(all@);
    let ghost c = storage_contents(*store);
    let mut out: Vec<Result<(Vec<u8>, Vec<u8>), StorageError>> = Vec::new();
    let mut i: usize = 0;
    while i < all.len()
        invariant
            i <= all@.len(),
            out@.len() == i,
            ev == entries_view(all@),
            c == storage_contents(*store),
            pk_namespace@.len() <= 0xFFFF,
            kind == IndexKind::Multi ==> entry_lengths_fit(ev),
            forall|j: int|
                0 <= j < i ==> record_view(#[trigger] out@[j]) == record_of(
                    kind,
                    c,
                    pk_namespace@,
                    ev[j],
                ),
        decreases all@.len() - i,
    {
        let (k, v) = &all[i];
        assert(ev[i as int] == (k@, v@));
        let item = match kind {
            IndexKind::Multi => {
                let key = crate::prefix::copy_bytes(k.as_slice());
                let len = crate::prefix::copy_bytes(v.as_slice());
                assert(count_of(ev[i as int].1) matches Some(n) ==> n <= ev[i as int].0.len());
                deserialize_multi_v(store, pk_namespace, key, len)
            },
            IndexKind::Unique => deserialize_unique_v(v.as_slice()),
        };
        out.push(item);
        i = i + 1;
    }
    out
}

/// The entries of an index under a prefix of index values, read back into the primary
/// keys and values they stand for.
pub struct IndexPrefix {
    prefix: Prefix,
    pk_namespace: Vec<u8>,
    kind: IndexKind,
}

impl IndexPrefix {
    /// The bytes every entry under the prefix starts with.
    pub closed spec fn prefix_bytes(&self) -> Seq<u8> {
        self.prefix.prefix_bytes()
    }

    /// The namespace where the values of a multi-index live.
    pub closed spec fn pk_name(&self) -> Seq<u8> {
        self.pk_namespace@
    }

    /// How the entries are read back.
    pub closed spec fn kind(&self) -> IndexKind {
        self.kind
    }

    /// A range under the prefix between the bounds can be read without panicking.
    pub open spec fn readable(
        &self,
        contents: Map<Seq<u8>, Seq<u8>>,
        min: Option<(Seq<u8>, bool)>,
        max: Option<(Seq<u8>, bool)>,
    ) -> bool {
        &&& self.pk_name().len() <= 0xFFFF
        &&& range_ok_between(contents, self.prefix_bytes(), min, max)
        &&& self.kind() == IndexKind::Multi ==> multi_lengths_fit(
            contents,
            self.prefix_bytes(),
            min,
            max,
        )
    }

    /// The records under the prefix whose remaining keys lie between the bounds, in the
    /// given order: each is the primary key and the value, or why it could not be read.
    pub fn range(
        &self,
        store: &MemoryStorage,
        min: Option<Bound>,
        max: Option<Bound>,
        order: Order,
    ) -> (r: Vec<Result<(Vec<u8>, Vec<u8>), StorageError>>)
        requires
            self.readable(storage_contents(*store), opt_bound(min), opt_bound(max)),
        ensures
            exists|entries: Seq<(Seq<u8>, Seq<u8>)>|
                {
                    &&& is_range_between(
                        storage_contents(*store),
                        self.prefix_bytes(),
                        opt_bound(min),
                        opt_bound(max),
                        order,
                        entries,
                    )
                    &&& records_match(
                        self.kind(),
                        storage_contents(*store),
                        self.pk_name(),
                        r@,
                        entries,
                    )
                },
    {
        let all = self.prefix.range(store, min, max, order);
        let ghost ev = entries_view(all@);
        proof {
            if self.kind == IndexKind::Multi {
                lemma_range_lengths_fit(
                    storage_contents(*store),
                    self.prefix_bytes(),
                    opt_bound(min),
                    opt_bound(max),
                    order,
                    ev,
                );
            }
        }
        let r = read_records(store, self.kind, self.pk_namespace.as_slice(), all);
        assert(is_range_between(
            storage_contents(*store),
            self.prefix_bytes(),
            opt_bound(min),
            opt_bound(max),
            order,
            ev,
        ));
        r
    }

    /// The keys under the prefix (the prefix cut off) between the bounds, in the given
    /// order: for a multi-index, the primary keys.
    pub fn keys(
        &self,
        store: &MemoryStorage,
        min: Option<Bound>,
        max: Option<Bound>,
        order: Order,
    ) -> (r: Vec<Vec<u8>>)
        requires
            range_ok_between(
                storage_contents(*store),
                self.prefix_bytes(),
                opt_bound(min),
                opt_bound(max),
            ),
        ensures
            exists|entries: Seq<(Seq<u8>, Seq<u8>)>|
                {
                    &&& is_range_between(
                        storage_contents(*store),
                        self.prefix_bytes(),
                        opt_bound(min),
                        opt_bound(max),
                        order,
                        entries,
                    )
                    &&& crate::prefix::keys_view(r@) == entries.map_values(
                        |p: (Seq<u8>, Seq<u8>)| p.0,
                    )
                },
    {
        self.prefix.keys(store, min, max, order)
    }
}


impl<'a, IK: PrimaryKey, T, F: Fn(&T) -> IK> MultiIndex<'a, IK, T, F> {
    /// The bytes every entry of the index starts with.
    pub open spec fn idx_root(&self) -> Seq<u8> {
        namespaced_key(seq![self.idx_namespace()], Seq::empty())
    }

    /// The entries of the index whose index values start with the given parts.
    pub fn prefix<P: Prefixer>(&self, p: P) -> (r: IndexPrefix)
        requires
            self.idx_namespace().len() <= 0xFFFF,
            all_encodable(p.prefix_spec()),
        ensures
            r.prefix_bytes() == namespaced_key(
                seq![self.idx_namespace()] + p.prefix_spec(),
                Seq::empty(),
            ),
            r.pk_name() == self.pk_namespace(),
            r.kind() == IndexKind::Multi,
    {
        IndexPrefix {
            prefix: self.idx_map.prefix(p),
            pk_namespace: crate::prefix::copy_bytes(self.pk_namespace),
            kind: IndexKind::Multi,
        }
    }

    /// The entries of the index whose index values start with the given parts (all but
    /// the last part fixed).
    pub fn sub_prefix<P: Prefixer>(&self, p: P) -> (r: IndexPrefix)
        requires
            self.idx_namespace().len() <= 0xFFFF,
            all_encodable(p.prefix_spec()),
        ensures
            r.prefix_bytes() == namespaced_key(
                seq![self.idx_namespace()] + p.prefix_spec(),
                Seq::empty(),
            ),
            r.pk_name() == self.pk_namespace(),
            r.kind() == IndexKind::Multi,
    {
        self.prefix(p)
    }

    /// The records of the index between the bounds on the raw index keys, in the given
    /// order: each is the primary key and the value, or why it could not be read.
    pub fn range(
        &self,
        store: &MemoryStorage,
        min: Option<Bound>,
        max: Option<Bound>,
        order: Order,
    ) -> (r: Vec<Result<(Vec<u8>, Vec<u8>), StorageError>>)
        requires
            self.idx_namespace().len() <= 0xFFFF,
            self.pk_namespace().len() <= 0xFFFF,
            multi_lengths_fit(storage_contents(*store), self.idx_root(), opt_bound(min), opt_bound(max)),
        ensures
            exists|entries: Seq<(Seq<u8>, Seq<u8>)>|
                {
                    &&& is_range_between(
                        storage_contents(*store),
                        self.idx_root(),
                        opt_bound(min),
                        opt_bound(max),
                        order,
                        entries,
                    )
                    &&& records_match(
                        IndexKind::Multi,
                        storage_contents(*store),
                        self.pk_namespace(),
                        r@,
                        entries,
                    )
                },
    {
        let all = self.idx_map.range(store, min, max, order);
        let ghost ev = entries_view(all@);
        proof {
            lemma_range_lengths_fit(
                storage_contents(*store),
                self.idx_root(),
                opt_bound(min),
                opt_bound(max),
                order,
                ev,
            );
        }
        let r = read_records(store, IndexKind::Multi, self.pk_namespace, all);
        assert(is_range_between(
            storage_contents(*store),
            self.idx_root(),
            opt_bound(min),
            opt_bound(max),
            order,
            ev,
        ));
        r
    }

    /// The raw keys of the index entries between the bounds, in the given order.
    pub fn keys(
        &self,
        store: &MemoryStorage,
        min: Option<Bound>,
        max: Option<Bound>,
        order: Order,
    ) -> (r: Vec<Vec<u8>>)
        requires
            self.idx_namespace().len() <= 0xFFFF,
        ensures
            exists|entries: Seq<(Seq<u8>, Seq<u8>)>|
                {
                    &&& is_range_between(
                        storage_contents(*store),
                        self.idx_root(),
                        opt_bound(min),
                        opt_bound(max),
                        order,
                        entries,
                    )
                    &&& crate::prefix::keys_view(r@) == entries.map_values(
                        |p: (Seq<u8>, Seq<u8>)| p.0,
                    )
                },
    {
        let r = self.idx_map.keys(store, min, max, order);
        proof {
            let entries = choose|entries: Seq<(Seq<u8>, Seq<u8>)>|
                {
                    &&& crate::prefix::is_prefix_range(
                        storage_contents(*store),
                        self.idx_map.root_prefix(),
                        min,
                        max,
                        order,
                        entries,
                    )
                    &&& crate::prefix::keys_view(r@) == entries.map_values(
                        |p: (Seq<u8>, Seq<u8>)| p.0,
                    )
                };
            assert(is_range_between(
                storage_contents(*store),
                self.idx_root(),
                opt_bound(min),
                opt_bound(max),
                order,
                entries,
            ));
        }
        r
    }

    /// The records of the index whose index values start with a prefix between the prefix
    /// bounds, in the given order.
    pub fn prefix_range<P: Prefixer>(
        &self,
        store: &MemoryStorage,
        min: Option<PrefixBound<P>>,
        max: Option<PrefixBound<P>>,
        order: Order,
    ) -> (r: Vec<Result<(Vec<u8>, Vec<u8>), StorageError>>)
        requires
            self.idx_namespace().len() <= 0xFFFF,
            self.pk_namespace().len() <= 0xFFFF,
            min matches Some(b) ==> all_encodable(b.prefix_key().prefix_spec()),
            max matches Some(b) ==> all_encodable(b.prefix_key().prefix_spec()),
            multi_lengths_fit(
                storage_contents(*store),
                self.idx_root(),
                prefix_start_as_bound(opt_prefix_bound(min)),
                prefix_end_as_bound(opt_prefix_bound(max)),
            ),
        ensures
            exists|entries: Seq<(Seq<u8>, Seq<u8>)>|
                {
                    &&& is_range_between(
                        storage_contents(*store),
                        self.idx_root(),
                        prefix_start_as_bound(opt_prefix_bound(min)),
                        prefix_end_as_bound(opt_prefix_bound(max)),
                        order,
                        entries,
                    )
                    &&& records_match(
                        IndexKind::Multi,
                        storage_contents(*store),
                        self.pk_namespace(),
                        r@,
                        entries,
                    )
                },
    {
        let ghost lo = prefix_start_as_bound(opt_prefix_bound(min));
        let ghost hi = prefix_end_as_bound(opt_prefix_bound(max));
        let all = self.idx_map.prefix_range(store, min, max, order);
        let ghost ev = entries_view(all@);
        proof {
            lemma_range_lengths_fit(storage_contents(*store), self.idx_root(), lo, hi, order, ev);
        }
        read_records(store, IndexKind::Multi, self.pk_namespace, all)
    }

    /// The primary keys indexed under the given index value parts, in ascending order.
    pub fn all_pks<P: Prefixer>(&self, store: &MemoryStorage, p: P) -> (r: Vec<Vec<u8>>)
        requires
            self.idx_namespace().len() <= 0xFFFF,
            all_encodable(p.prefix_spec()),
            range_ok_between(
                storage_contents(*store),
                namespaced_key(seq![self.idx_namespace()] + p.prefix_spec(), Seq::empty()),
                None,
                None,
            ),
        ensures
            exists|entries: Seq<(Seq<u8>, Seq<u8>)>|
                {
                    &&& is_range_between(
                        storage_contents(*store),
                        namespaced_key(seq![self.idx_namespace()] + p.prefix_spec(), Seq::empty()),
                        None,
                        None,
                        Order::Ascending,
                        entries,
                    )
                    &&& crate::prefix::keys_view(r@) == entries.map_values(
                        |p: (Seq<u8>, Seq<u8>)| p.0,
                    )
                },
    {
        let prefix = self.prefix(p);
        prefix.keys(store, None, None, Order::Ascending)
    }

    /// The records indexed under the given index value parts, in ascending order of
    /// primary key; the first record that cannot be read gives the error.
    pub fn all_items<P: Prefixer>(&self, store: &MemoryStorage, p: P) -> (r: Result<
        Vec<(Vec<u8>, Vec<u8>)>,
        StorageError,
    >)
        requires
            self.idx_namespace().len() <= 0xFFFF,
            self.pk_namespace().len() <= 0xFFFF,
            all_encodable(p.prefix_spec()),
            range_ok_between(
                storage_contents(*store),
                namespaced_key(seq![self.idx_namespace()] + p.prefix_spec(), Seq::empty()),
                None,
                None,
            ),
            multi_lengths_fit(
                storage_contents(*store),
                namespaced_key(seq![self.idx_namespace()] + p.prefix_spec(), Seq::empty()),
                None,
                None,
            ),
        ensures
            exists|entries: Seq<(Seq<u8>, Seq<u8>)>|
                {
                    &&& is_range_between(
                        storage_contents(*store),
                        namespaced_key(seq![self.idx_namespace()] + p.prefix_spec(), Seq::empty()),
                        None,
                        None,
                        Order::Ascending,
                        entries,
                    )
                    &&& collected_records(
                        IndexKind::Multi,
                        storage_contents(*store),
                        self.pk_namespace(),
                        r,
                        entries,
                    )
                },
    {
        let prefix = self.prefix(p);
        let all = prefix.range(store, None, None, Order::Ascending);
        let ghost c = storage_contents(*store);
        let ghost pb = prefix.prefix_bytes();
        let ghost pkn = self.pk_namespace();
        let r = collect_records(all);
        proof {
            let entries = choose|entries: Seq<(Seq<u8>, Seq<u8>)>|
                {
                    &&& is_range_between(c, pb, None, None, Order::Ascending, entries)
                    &&& records_match(IndexKind::Multi, c, pkn, all@, entries)
                };
            if r is Ok {
                let v = r->Ok_0;
                {
                    assert forall|i: int| 0 <= i < entries.len() implies record_of(
                        IndexKind::Multi,
                        c,
                        pkn,
                        entries[i],
                    ) == Ok::<(Seq<u8>, Seq<u8>), StorageError>((v@[i].0@, v@[i].1@)) by {
                        assert(record_view(all@[i]) == record_of(IndexKind::Multi, c, pkn, entries[i]));
                    }
                }
            } else {
                let e = r->Err_0;
                {
                    let i = choose|i: int|
                        0 <= i < all@.len() && record_view(#[trigger] all@[i]) == Err::<
                            (Seq<u8>, Seq<u8>),
                            StorageError,
                        >(e) && forall|j: int| 0 <= j < i ==> all@[j] is Ok;
                    assert(record_view(all@[i]) == record_of(IndexKind::Multi, c, pkn, entries[i]));
                    assert forall|j: int| 0 <= j < i implies record_of(
                        IndexKind::Multi,
                        c,
                        pkn,
                        entries[j],
                    ) is Ok by {
                        assert(record_view(all@[j]) == record_of(IndexKind::Multi, c, pkn, entries[j]));
                    }
                }
            }
            assert(collected_records(IndexKind::Multi, c, pkn, r, entries));
        }
        r
    }
}

/// `r` is every record read, when all can be read; else the error of the first that
/// cannot.
pub open spec fn collected_records(
    kind: IndexKind,
    contents: Map<Seq<u8>, Seq<u8>>,
    pk_namespace: Seq<u8>,
    r: Result<Vec<(Vec<u8>, Vec<u8>)>, StorageError>,
    entries: Seq<(Seq<u8>, Seq<u8>)>,
) -> bool {
    match r {
        Ok(v) => {
            &&& v@.len() == entries.len()
            &&& forall|i: int|
                0 <= i < entries.len() ==> record_of(kind, contents, pk_namespace, entries[i])
                    == Ok::<(Seq<u8>, Seq<u8>), StorageError>((v@[i].0@, v@[i].1@))
        },
        Err(e) => exists|i: int|
            {
                &&& 0 <= i < entries.len()
                &&& record_of(kind, contents, pk_namespace, entries[i]) == Err::<
                    (Seq<u8>, Seq<u8>),
                    StorageError,
                >(e)
                &&& forall|j: int|
                    0 <= j < i ==> record_of(kind, contents, pk_namespace, entries[j]) is Ok
            },
    }
}

/// Collects read records: all of them, or the first error.
fn collect_records(all: Vec<Result<(Vec<u8>, Vec<u8>), StorageError>>) -> (r: Result<
    Vec<(Vec<u8>, Vec<u8>)>,
    StorageError,
>)
    ensures
        match r {
            Ok(v) => v@.len() == all@.len() && forall|i: int|
                0 <= i < all@.len() ==> record_view(#[trigger] all@[i]) == Ok::<
                    (Seq<u8>, Seq<u8>),
                    StorageError,
                >((v@[i].0@, v@[i].1@)),
            Err(e) => exists|i: int|
                0 <= i < all@.len() && record_view(#[trigger] all@[i]) == Err::<
                    (Seq<u8>, Seq<u8>),
                    StorageError,
                >(e) && forall|j: int| 0 <= j < i ==> all@[j] is Ok,
        },
{
    let mut out: Vec<(Vec<u8>, Vec<u8>)> = Vec::new();
    let mut i: usize = 0;
    while i < all.len()
        invariant
            i <= all@.len(),
            out@.len() == i,
            forall|j: int|
                0 <= j < i ==> record_view(#[trigger] all@[j]) == Ok::<
                    (Seq<u8>, Seq<u8>),
                    StorageError,
                >((out@[j].0@, out@[j].1@)),
        decreases all@.len() - i,
    {
        match &all[i] {
            Ok((k, v)) => {
                let pair = (crate::prefix::copy_bytes(k.as_slice()), crate::prefix::copy_bytes(v.as_slice()));
                out.push(pair);
            },
            Err(e) => {
                let e = *e;
                assert(record_view(all@[i as int]) == Err::<(Seq<u8>, Seq<u8>), StorageError>(e));
                return Err(e);
            },
        }
        i = i + 1;
    }
    Ok(out)
}

impl<'a, IK: PrimaryKey, T, F: Fn(&T) -> IK> UniqueIndex<'a, IK, T, F> {
    /// The bytes every entry of the index starts with.
    pub open spec fn idx_root(&self) -> Seq<u8> {
        namespaced_key(seq![self.idx_namespace()], Seq::empty())
    }

    /// The entries of the index whose index values start with the given parts.
    pub fn prefix<P: Prefixer>(&self, p: P) -> (r: IndexPrefix)
        requires
            self.idx_namespace().len() <= 0xFFFF,
            all_encodable(p.prefix_spec()),
        ensures
            r.prefix_bytes() == namespaced_key(
                seq![self.idx_namespace()] + p.prefix_spec(),
                Seq::empty(),
            ),
            r.pk_name() == Seq::<u8>::empty(),
            r.kind() == IndexKind::Unique,
    {
        let none: Vec<u8> = Vec::new();
        IndexPrefix { prefix: self.idx_map.prefix(p), pk_namespace: none, kind: IndexKind::Unique }
    }

    /// The entries of the index whose index values start with the given parts (all but
    /// the last part fixed).
    pub fn sub_prefix<P: Prefixer>(&self, p: P) -> (r: IndexPrefix)
        requires
            self.idx_namespace().len() <= 0xFFFF,
            all_encodable(p.prefix_spec()),
        ensures
            r.prefix_bytes() == namespaced_key(
                seq![self.idx_namespace()] + p.prefix_spec(),
                Seq::empty(),
            ),
            r.pk_name() == Seq::<u8>::empty(),
            r.kind() == IndexKind::Unique,
    {
        self.prefix(p)
    }

    /// The records of the index between the bounds on the raw index keys, in the given
    /// order: each is the primary key and the copy of the value, or why it could not be
    /// read.
    pub fn range(
        &self,
        store: &MemoryStorage,
        min: Option<Bound>,
        max: Option<Bound>,
        order: Order,
    ) -> (r: Vec<Result<(Vec<u8>, Vec<u8>), StorageError>>)
        requires
            self.idx_namespace().len() <= 0xFFFF,
        ensures
            exists|entries: Seq<(Seq<u8>, Seq<u8>)>|
                {
                    &&& is_range_between(
                        storage_contents(*store),
                        self.idx_root(),
                        opt_bound(min),
                        opt_bound(max),
                        order,
                        entries,
                    )
                    &&& records_match(
                        IndexKind::Unique,
                        storage_contents(*store),
                        Seq::empty(),
                        r@,
                        entries,
                    )
                },
    {
        let all = self.idx_map.range(store, min, max, order);
        let ghost ev = entries_view(all@);
        let none: Vec<u8> = Vec::new();
        let r = read_records(store, IndexKind::Unique, none.as_slice(), all);
        assert(none@ =~= Seq::<u8>::empty());
        assert(is_range_between(
            storage_contents(*store),
            self.idx_root(),
            opt_bound(min),
            opt_bound(max),
            order,
            ev,
        ));
        r
    }

    /// The raw keys of the index entries between the bounds, in the given order.
    pub fn keys(
        &self,
        store: &MemoryStorage,
        min: Option<Bound>,
        max: Option<Bound>,
        order: Order,
    ) -> (r: Vec<Vec<u8>>)
        requires
            self.idx_namespace().len() <= 0xFFFF,
        ensures
            exists|entries: Seq<(Seq<u8>, Seq<u8>)>|
                {
                    &&& is_range_between(
                        storage_contents(*store),
                        self.idx_root(),
                        opt_bound(min),
                        opt_bound(max),
                        order,
                        entries,
                    )
                    &&& crate::prefix::keys_view(r@) == entries.map_values(
                        |p: (Seq<u8>, Seq<u8>)| p.0,
                    )
                },
    {
        let r = self.idx_map.keys(store, min, max, order);
        proof {
            let entries = choose|entries: Seq<(Seq<u8>, Seq<u8>)>|
                {
                    &&& crate::prefix::is_prefix_range(
                        storage_contents(*store),
                        self.idx_map.root_prefix(),
                        min,
                        max,
                        order,
                        entries,
                    )
                    &&& crate::prefix::keys_view(r@) == entries.map_values(
                        |p: (Seq<u8>, Seq<u8>)| p.0,
                    )
                };
            assert(is_range_between(
                storage_contents(*store),
                self.idx_root(),
                opt_bound(min),
                opt_bound(max),
                order,
                entries,
            ));
        }
        r
    }

    /// The record stored under an index value: its primary key and the copy of its value,
    /// `None` when no value holds the index value.
    pub fn item(&self, store: &MemoryStorage, idx: IK) -> (r: Result<
        Option<(Vec<u8>, Vec<u8>)>,
        StorageError,
    >)
        requires
            crate::path::path_encodable(self.idx_namespace(), idx.key_spec()),
        ensures
            !storage_contents(*store).contains_key(path_key(self.idx_namespace(), idx.key_spec()))
                ==> r == Ok::<Option<(Vec<u8>, Vec<u8>)>, StorageError>(None),
            storage_contents(*store).contains_key(path_key(self.idx_namespace(), idx.key_spec()))
                ==> match unique_record(
                storage_contents(*store)[path_key(self.idx_namespace(), idx.key_spec())],
            ) {
                Ok((pk, value)) => r matches Ok(Some(p)) && p.0@ == pk && p.1@ == value,
                Err(e) => r == Err::<Option<(Vec<u8>, Vec<u8>)>, StorageError>(e),
            },
    {
        match self.idx_map.may_load(store, idx) {
            None => Ok(None),
            Some(v) => match deserialize_unique_v(v.as_slice()) {
                Ok(p) => Ok(Some(p)),
                Err(e) => Err(e),
            },
        }
    }
}

/// A record whose primary key is read back as a `PK`: the read value of the key and the
/// stored value, or why either could not be read.
pub open spec fn de_record<PK: KeyDeserialize>(rec: Result<(Seq<u8>, Seq<u8>), StorageError>) -> Result<
    (<PK::Output as View>::V, Seq<u8>),
    StorageError,
> {
    match rec {
        Err(e) => Err(e),
        Ok((pk, v)) => if PK::decodable(pk) {
            Ok((PK::decoded(pk), v))
        } else {
            Err(StorageError::ParseErr)
        },
    }
}

/// A record with a read-back primary key, as views.
pub open spec fn de_view<PK: KeyDeserialize>(r: Result<(PK::Output, Vec<u8>), StorageError>) -> Result<
    (<PK::Output as View>::V, Seq<u8>),
    StorageError,
> {
    match r {
        Ok((k, v)) => Ok((k@, v@)),
        Err(e) => Err(e),
    }
}

/// Every primary key that a record in a range under `prefix` between the bounds holds
/// can be read back as a `PK` without panicking.
pub open spec fn range_pks_safe<PK: KeyDeserialize>(
    kind: IndexKind,
    contents: Map<Seq<u8>, Seq<u8>>,
    pk_namespace: Seq<u8>,
    prefix: Seq<u8>,
    min: Option<(Seq<u8>, bool)>,
    max: Option<(Seq<u8>, bool)>,
) -> bool {
    forall|k: Seq<u8>|
        #[trigger] contents.contains_key(k) && in_range(
            k,
            Some(start_key(prefix, min)),
            Some(end_key(prefix, max)),
        ) ==> (record_of(
            kind,
            contents,
            pk_namespace,
            (k.subrange(prefix.len() as int, k.len() as int), contents[k]),
        ) matches Ok(p) ==> PK::safe(p.0))
}

/// The records of a range under a prefix with readable primary keys hold readable keys.
pub proof fn lemma_range_pks_safe<PK: KeyDeserialize>(
    kind: IndexKind,
    contents: Map<Seq<u8>, Seq<u8>>,
    pk_namespace: Seq<u8>,
    prefix: Seq<u8>,
    min: Option<(Seq<u8>, bool)>,
    max: Option<(Seq<u8>, bool)>,
    order: Order,
    entries: Seq<(Seq<u8>, Seq<u8>)>,
)
    requires
        range_pks_safe::<PK>(kind, contents, pk_namespace, prefix, min, max),
        is_range_between(contents, prefix, min, max, order, entries),
    ensures
        forall|i: int|
            0 <= i < entries.len() ==> (record_of(kind, contents, pk_namespace, #[trigger] entries[i])
                matches Ok(p) ==> PK::safe(p.0)),
{
    let raw = choose|raw: Seq<(Seq<u8>, Seq<u8>)>|
        {
            &&& crate::storage::is_range_of(
                contents,
                Some(start_key(prefix, min)),
                Some(end_key(prefix, max)),
                order,
                raw,
            )
            &&& entries == crate::prefix::trim_keys(raw, prefix.len())
        };
    assert forall|i: int| 0 <= i < entries.len() implies (record_of(
        kind,
        contents,
        pk_namespace,
        #[trigger] entries[i],
    ) matches Ok(p) ==> PK::safe(p.0)) by {
        assert(contents.contains_key(raw[i].0));
        assert(entries[i] == (
            raw[i].0.subrange(prefix.len() as int, raw[i].0.len() as int),
            raw[i].1,
        ));
    }
}

/// Reads the primary key of every record back as a `PK`.
fn decode_record_keys<PK: KeyDeserialize>(records: Vec<Result<(Vec<u8>, Vec<u8>), StorageError>>) -> (r: Vec<
    Result<(PK::Output, Vec<u8>), StorageError>,
>)
    requires
        forall|i: int|
            0 <= i < records@.len() ==> (record_view(#[trigger] records@[i]) matches Ok(p)
                ==> PK::safe(p.0)),
    ensures
        r@.len() == records@.len(),
        forall|i: int|
            0 <= i < records@.len() ==> de_view::<PK>(#[trigger] r@[i]) == de_record::<PK>(
                record_view(records@[i]),
            ),
{
    let mut out: Vec<Result<(PK::Output, Vec<u8>), StorageError>> = Vec::new();
    let mut i: usize = 0;
    while i < records.len()
        invariant
            i <= records@.len(),
            out@.len() == i,
            forall|j: int|
                0 <= j < records@.len() ==> (record_view(#[trigger] records@[j]) matches Ok(p)
                    ==> PK::safe(p.0)),
            forall|j: int|
                0 <= j < i ==> de_view::<PK>(#[trigger] out@[j]) == de_record::<PK>(
                    record_view(records@[j]),
                ),
        decreases records@.len() - i,
    {
        let item = match &records[i] {
            Err(e) => Err(*e),
            Ok((k, v)) => {
                let key = crate::prefix::copy_bytes(k.as_slice());
                let value = crate::prefix::copy_bytes(v.as_slice());
                assert(record_view(records@[i as int]) == Ok::<(Seq<u8>, Seq<u8>), StorageError>((k@, v@)));
                match PK::from_vec(key) {
                    Ok(o) => Ok((o, value)),
                    Err(_) => Err(StorageError::ParseErr),
                }
            },
        };
        out.push(item);
        i = i + 1;
    }
    out
}

/// The primary keys of the records that can be read back as a `PK`, read back, in order;
/// the other records are left out.
pub open spec fn decodable_pks<PK: KeyDeserialize>(
    recs: Seq<Result<(Seq<u8>, Seq<u8>), StorageError>>,
) -> Seq<<PK::Output as View>::V>
    decreases recs.len(),
{
    if recs.len() == 0 {
        Seq::empty()
    } else {
        let rest = decodable_pks::<PK>(recs.drop_last());
        match de_record::<PK>(recs.last()) {
            Ok((k, _)) => rest.push(k),
            Err(_) => rest,
        }
    }
}

/// The records read back, as views.
pub open spec fn records_view(r: Seq<Result<(Vec<u8>, Vec<u8>), StorageError>>) -> Seq<
    Result<(Seq<u8>, Seq<u8>), StorageError>,
> {
    r.map_values(|x: Result<(Vec<u8>, Vec<u8>), StorageError>| record_view(x))
}

/// Keeps the read-back keys of the records that could be read.
fn keep_keys<PK: KeyDeserialize>(records: Vec<Result<(PK::Output, Vec<u8>), StorageError>>, Ghost(recs): Ghost<
    Seq<Result<(Seq<u8>, Seq<u8>), StorageError>>,
>) -> (r: Vec<PK::Output>)
    requires
        records@.len() == recs.len(),
        forall|i: int|
            0 <= i < recs.len() ==> de_view::<PK>(#[trigger] records@[i]) == de_record::<PK>(recs[i]),
    ensures
        crate::prefix::outputs_view(r@) == decodable_pks::<PK>(recs),
{
    let mut out: Vec<PK::Output> = Vec::new();
    let mut records = records;
    let ghost all = records@;
    let mut i: usize = 0;
    let n = records.len();
    while i < n
        invariant
            i <= n == all.len() == recs.len(),
            records@ =~= all.skip(i as int),
            forall|j: int|
                0 <= j < recs.len() ==> de_view::<PK>(#[trigger] all[j]) == de_record::<PK>(recs[j]),
            crate::prefix::outputs_view(out@) == decodable_pks::<PK>(recs.take(i as int)),
        decreases n - i,
    {
        let item = records.remove(0);
        assert(item == all[i as int]);
        assert(recs.take(i + 1).drop_last() =~= recs.take(i as int));
        assert(recs.take(i + 1).last() == recs[i as int]);
        match item {
            Ok((k, _)) => {
                let ghost before = out@;
                out.push(k);
                assert(crate::prefix::outputs_view(out@) =~= crate::prefix::outputs_view(before).push(k@));
            },
            Err(_) => {},
        }
        i = i + 1;
    }
    assert(recs.take(n as int) =~= recs);
    out
}

/// What the entries read back as, in order.
pub open spec fn records_of(
    kind: IndexKind,
    contents: Map<Seq<u8>, Seq<u8>>,
    pk_namespace: Seq<u8>,
    entries: Seq<(Seq<u8>, Seq<u8>)>,
) -> Seq<Result<(Seq<u8>, Seq<u8>), StorageError>> {
    entries.map_values(|e: (Seq<u8>, Seq<u8>)| record_of(kind, contents, pk_namespace, e))
}

/// Each result is the record of the entry at the same place with its primary key read
/// back as a `PK`.
pub open spec fn de_records_match<PK: KeyDeserialize>(
    kind: IndexKind,
    contents: Map<Seq<u8>, Seq<u8>>,
    pk_namespace: Seq<u8>,
    r: Seq<Result<(PK::Output, Vec<u8>), StorageError>>,
    entries: Seq<(Seq<u8>, Seq<u8>)>,
) -> bool {
    &&& r.len() == entries.len()
    &&& forall|i: int|
        0 <= i < entries.len() ==> de_view::<PK>(#[trigger] r[i]) == de_record::<PK>(
            record_of(kind, contents, pk_namespace, entries[i]),
        )
}

/// Reads the primary keys of the records of a range back as `PK`s.
fn decode_range_records<PK: KeyDeserialize>(
    recs: Vec<Result<(Vec<u8>, Vec<u8>), StorageError>>,
    Ghost(kind): Ghost<IndexKind>,
    Ghost(contents): Ghost<Map<Seq<u8>, Seq<u8>>>,
    Ghost(pk_namespace): Ghost<Seq<u8>>,
    Ghost(entries): Ghost<Seq<(Seq<u8>, Seq<u8>)>>,
) -> (r: Vec<Result<(PK::Output, Vec<u8>), StorageError>>)
    requires
        records_match(kind, contents, pk_namespace, recs@, entries),
        forall|i: int|
            0 <= i < entries.len() ==> (record_of(kind, contents, pk_namespace, #[trigger] entries[i])
                matches Ok(p) ==> PK::safe(p.0)),
    ensures
        de_records_match::<PK>(kind, contents, pk_namespace, r@, entries),
{
    assert forall|i: int| 0 <= i < recs@.len() implies (record_view(#[trigger] recs@[i]) matches Ok(p)
        ==> PK::safe(p.0)) by {
        assert(record_view(recs@[i]) == record_of(kind, contents, pk_namespace, entries[i]));
    }
    let r = decode_record_keys::<PK>(recs);
    assert forall|i: int| 0 <= i < entries.len() implies de_view::<PK>(#[trigger] r@[i])
        == de_record::<PK>(record_of(kind, contents, pk_namespace, entries[i])) by {
        assert(record_view(recs@[i]) == record_of(kind, contents, pk_namespace, entries[i]));
    }
    r
}

impl IndexPrefix {
    /// The records under the prefix between the bounds, in the given order, with their
    /// primary keys read back as `PK`.
    pub fn range_de<PK: KeyDeserialize>(
        &self,
        store: &MemoryStorage,
        min: Option<Bound>,
        max: Option<Bound>,
        order: Order,
    ) -> (r: Vec<Result<(PK::Output, Vec<u8>), StorageError>>)
        requires
            self.readable(storage_contents(*store), opt_bound(min), opt_bound(max)),
            range_pks_safe::<PK>(
                self.kind(),
                storage_contents(*store),
                self.pk_name(),
                self.prefix_bytes(),
                opt_bound(min),
                opt_bound(max),
            ),
        ensures
            exists|entries: Seq<(Seq<u8>, Seq<u8>)>|
                {
                    &&& is_range_between(
                        storage_contents(*store),
                        self.prefix_bytes(),
                        opt_bound(min),
                        opt_bound(max),
                        order,
                        entries,
                    )
                    &&& de_records_match::<PK>(
                        self.kind(),
                        storage_contents(*store),
                        self.pk_name(),
                        r@,
                        entries,
                    )
                },
    {
        let ghost c = storage_contents(*store);
        let recs = self.range(store, min, max, order);
        let ghost entries = choose|entries: Seq<(Seq<u8>, Seq<u8>)>|
            {
                &&& is_range_between(
                    c,
                    self.prefix_bytes(),
                    opt_bound(min),
                    opt_bound(max),
                    order,
                    entries,
                )
                &&& records_match(self.kind(), c, self.pk_name(), recs@, entries)
            };
        proof {
            lemma_range_pks_safe::<PK>(
                self.kind(),
                c,
                self.pk_name(),
                self.prefix_bytes(),
                opt_bound(min),
                opt_bound(max),
                order,
                entries,
            );
        }
        decode_range_records::<PK>(recs, Ghost(self.kind()), Ghost(c), Ghost(self.pk_name()), Ghost(entries))
    }
}

impl<'a, IK: PrimaryKey, T, F: Fn(&T) -> IK> UniqueIndex<'a, IK, T, F> {
    /// The entries whose index values start with the given parts, to be read with the
    /// primary key type.
    pub fn prefix_de<P: Prefixer>(&self, p: P) -> (r: IndexPrefix)
        requires
            self.idx_namespace().len() <= 0xFFFF,
            all_encodable(p.prefix_spec()),
        ensures
            r.prefix_bytes() == namespaced_key(
                seq![self.idx_namespace()] + p.prefix_spec(),
                Seq::empty(),
            ),
            r.pk_name() == Seq::<u8>::empty(),
            r.kind() == IndexKind::Unique,
    {
        self.prefix(p)
    }

    /// The entries whose index values start with the given parts (all but the last part
    /// fixed), to be read with the primary key type.
    pub fn sub_prefix_de<P: Prefixer>(&self, p: P) -> (r: IndexPrefix)
        requires
            self.idx_namespace().len() <= 0xFFFF,
            all_encodable(p.prefix_spec()),
        ensures
            r.prefix_bytes() == namespaced_key(
                seq![self.idx_namespace()] + p.prefix_spec(),
                Seq::empty(),
            ),
            r.pk_name() == Seq::<u8>::empty(),
            r.kind() == IndexKind::Unique,
    {
        self.prefix(p)
    }

    /// The records of the index between the bounds on the raw index keys, in the given
    /// order, with their primary keys read back as `PK`.
    pub fn range_de<PK: KeyDeserialize>(
        &self,
        store: &MemoryStorage,
        min: Option<Bound>,
        max: Option<Bound>,
        order: Order,
    ) -> (r: Vec<Result<(PK::Output, Vec<u8>), StorageError>>)
        requires
            self.idx_namespace().len() <= 0xFFFF,
            range_pks_safe::<PK>(
                IndexKind::Unique,
                storage_contents(*store),
                Seq::empty(),
                self.idx_root(),
                opt_bound(min),
                opt_bound(max),
            ),
        ensures
            exists|entries: Seq<(Seq<u8>, Seq<u8>)>|
                {
                    &&& is_range_between(
                        storage_contents(*store),
                        self.idx_root(),
                        opt_bound(min),
                        opt_bound(max),
                        order,
                        entries,
                    )
                    &&& de_records_match::<PK>(
                        IndexKind::Unique,
                        storage_contents(*store),
                        Seq::empty(),
                        r@,
                        entries,
                    )
                },
    {
        let ghost c = storage_contents(*store);
        let recs = self.range(store, min, max, order);
        let ghost entries = choose|entries: Seq<(Seq<u8>, Seq<u8>)>|
            {
                &&& is_range_between(
                    c,
                    self.idx_root(),
                    opt_bound(min),
                    opt_bound(max),
                    order,
                    entries,
                )
                &&& records_match(IndexKind::Unique, c, Seq::empty(), recs@, entries)
            };
        proof {
            lemma_range_pks_safe::<PK>(
                IndexKind::Unique,
                c,
                Seq::empty(),
                self.idx_root(),
                opt_bound(min),
                opt_bound(max),
                order,
                entries,
            );
        }
        decode_range_records::<PK>(recs, Ghost(IndexKind::Unique), Ghost(c), Ghost(Seq::empty()), Ghost(entries))
    }

    /// The primary keys of the records of the index between the bounds, in the given
    /// order, read back as `PK`; records that cannot be read are left out.
    pub fn keys_de<PK: KeyDeserialize>(
        &self,
        store: &MemoryStorage,
        min: Option<Bound>,
        max: Option<Bound>,
        order: Order,
    ) -> (r: Vec<PK::Output>)
        requires
            self.idx_namespace().len() <= 0xFFFF,
            range_pks_safe::<PK>(
                IndexKind::Unique,
                storage_contents(*store),
                Seq::empty(),
                self.idx_root(),
                opt_bound(min),
                opt_bound(max),
            ),
        ensures
            exists|entries: Seq<(Seq<u8>, Seq<u8>)>|
                {
                    &&& is_range_between(
                        storage_contents(*store),
                        self.idx_root(),
                        opt_bound(min),
                        opt_bound(max),
                        order,
                        entries,
                    )
                    &&& crate::prefix::outputs_view(r@) == decodable_pks::<PK>(
                        records_of(IndexKind::Unique, storage_contents(*store), Seq::empty(), entries),
                    )
                },
    {
        let ghost c = storage_contents(*store);
        let all = self.range_de::<PK>(store, min, max, order);
        let ghost entries = choose|entries: Seq<(Seq<u8>, Seq<u8>)>|
            {
                &&& is_range_between(
                    c,
                    self.idx_root(),
                    opt_bound(min),
                    opt_bound(max),
                    order,
                    entries,
                )
                &&& de_records_match::<PK>(IndexKind::Unique, c, Seq::empty(), all@, entries)
            };
        let ghost recs = records_of(IndexKind::Unique, c, Seq::empty(), entries);
        keep_keys::<PK>(all, Ghost(recs))
    }

    /// The records of the index whose index values start with a prefix between the prefix
    /// bounds, in the given order, with their primary keys read back as `PK`.
    pub fn prefix_range_de<P: Prefixer, PK: KeyDeserialize>(
        &self,
        store: &MemoryStorage,
        min: Option<PrefixBound<P>>,
        max: Option<PrefixBound<P>>,
        order: Order,
    ) -> (r: Vec<Result<(PK::Output, Vec<u8>), StorageError>>)
        requires
            self.idx_namespace().len() <= 0xFFFF,
            min matches Some(b) ==> all_encodable(b.prefix_key().prefix_spec()),
            max matches Some(b) ==> all_encodable(b.prefix_key().prefix_spec()),
            range_pks_safe::<PK>(
                IndexKind::Unique,
                storage_contents(*store),
                Seq::empty(),
                self.idx_root(),
                prefix_start_as_bound(opt_prefix_bound(min)),
                prefix_end_as_bound(opt_prefix_bound(max)),
            ),
        ensures
            exists|entries: Seq<(Seq<u8>, Seq<u8>)>|
                {
                    &&& is_range_between(
                        storage_contents(*store),
                        self.idx_root(),
                        prefix_start_as_bound(opt_prefix_bound(min)),
                        prefix_end_as_bound(opt_prefix_bound(max)),
                        order,
                        entries,
                    )
                    &&& de_records_match::<PK>(
                        IndexKind::Unique,
                        storage_contents(*store),
                        Seq::empty(),
                        r@,
                        entries,
                    )
                },
    {
        let ghost c = storage_contents(*store);
        let ghost lo = prefix_start_as_bound(opt_prefix_bound(min));
        let ghost hi = prefix_end_as_bound(opt_prefix_bound(max));
        let all = self.idx_map.prefix_range(store, min, max, order);
        let ghost ev = entries_view(all@);
        let none: Vec<u8> = Vec::new();
        let recs = read_records(store, IndexKind::Unique, none.as_slice(), all);
        assert(none@ =~= Seq::<u8>::empty());
        proof {
            lemma_range_pks_safe::<PK>(IndexKind::Unique, c, Seq::empty(), self.idx_root(), lo, hi, order, ev);
        }
        decode_range_records::<PK>(recs, Ghost(IndexKind::Unique), Ghost(c), Ghost(Seq::empty()), Ghost(ev))
    }
}
} // verus!
