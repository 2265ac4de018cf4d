//! Composite storage keys.
//!
//! A key is a list of parts. All parts but the last are length-prefixed namespaces and
//! the last one is appended raw; a prefix is a list of parts that are all length-prefixed.
use crate::helpers::{
    all_encodable, namespaced_key, namespaces_with_key, nested_prefix, slices_view,
};
use crate::int_key::{cw_bytes_of, CwIntKey};
use vstd::prelude::*;
use vstd::utf8::encode_utf8;

verus! {

/// One part of a key: borrowed bytes or the encoding of an integer.
pub enum Key<'a> {
    Ref(&'a [u8]),
    Val8([u8; 1]),
    Val16([u8; 2]),
    Val32([u8; 4]),
    Val64([u8; 8]),
}

impl<'a> Key<'a> {
    /// The bytes of the part.
    pub open spec fn bytes(self) -> Seq<u8> {
        match self {
            Key::Ref(r) => r@,
            Key::Val8(v) => v@,
            Key::Val16(v) => v@,
            Key::Val32(v) => v@,
            Key::Val64(v) => v@,
        }
    }

    pub fn as_ref(&self) -> (r: &[u8])
        ensures
            r@ == self.bytes(),
    {
        match self {
            Key::Ref(r) => r,
            Key::Val8(v) => v.as_slice(),
            Key::Val16(v) => v.as_slice(),
            Key::Val32(v) => v.as_slice(),
            Key::Val64(v) => v.as_slice(),
        }
    }
}

/// The bytes of each part.
pub open spec fn key_parts(keys: Seq<Key>) -> Seq<Seq<u8>> {
    keys.map_values(|k: Key| k.bytes())
}

/// The storage key for a list of key parts: all but the last are namespaces.
pub open spec fn joined_key_of(parts: Seq<Seq<u8>>) -> Seq<u8> {
    namespaced_key(parts.drop_last(), parts.last())
}

/// A list of parts can be joined: it is not empty and its namespaces are encodable.
pub open spec fn joinable(parts: Seq<Seq<u8>>) -> bool {
    parts.len() > 0 && all_encodable(parts.drop_last())
}

pub(crate) fn parts_as_slices<'b>(keys: &'b Vec<Key<'b>>, count: usize) -> (r: Vec<&'b [u8]>)
    requires
        count <= keys@.len(),
    ensures
        slices_view(r@) == key_parts(keys@).take(count as int),
{
    let mut out: Vec<&'b [u8]> = Vec::new();
    let mut i: usize = 0;
    while i < count
        invariant
            i <= count <= keys@.len(),
            out@.len() == i,
            slices_view(out@) == key_parts(keys@).take(i as int),
        decreases count - i,
    {
        let part = keys[i].as_ref();
        let ghost before = out@;
        out.push(part);
        proof {
            assert(out@ == before.push(part));
            assert forall|j: int| 0 <= j < i + 1 implies #[trigger] slices_view(out@)[j] == key_parts(
                keys@,
            ).take(i + 1)[j] by {
                assert(slices_view(out@)[j] == out@[j]@);
                assert(key_parts(keys@)[j] == keys@[j].bytes());
                if j < i {
                    assert(out@[j] == before[j]);
                    assert(slices_view(before)[j] == before[j]@);
                    assert(slices_view(before)[j] == key_parts(keys@).take(i as int)[j]);
                } else {
                    assert(out@[j] == part);
                }
            }
            assert(slices_view(out@) =~= key_parts(keys@).take(i + 1));
        }
        i = i + 1;
    }
    out
}

/// Types that can be a (composite) key of a map.
pub trait PrimaryKey {
    /// The parts of the key.
    spec fn key_spec(&self) -> Seq<Seq<u8>>;

    /// Returns a slice of key steps, which can be optionally combined.
    fn key(&self) -> (r: Vec<Key<'_>>)
        ensures
            key_parts(r@) == self.key_spec(),
    ;

    fn joined_key(&self) -> (r: Vec<u8>)
        requires
            joinable(self.key_spec()),
        ensures
            r@ == joined_key_of(self.key_spec()),
    {
        let keys = self.key();
        let l = keys.len();
        let ghost parts = key_parts(keys@);
        let namespaces = parts_as_slices(&keys, l - 1);
        let last = keys[l - 1].as_ref();
        assert(parts.take(l - 1) =~= parts.drop_last());
        namespaces_with_key(namespaces.as_slice(), last)
    }

    fn joined_extra_key(&self, key: &[u8]) -> (r: Vec<u8>)
        requires
            all_encodable(self.key_spec()),
        ensures
            r@ == namespaced_key(self.key_spec(), key@),
    {
        let keys = self.key();
        let l = keys.len();
        let namespaces = parts_as_slices(&keys, l);
        assert(key_parts(keys@).take(l as int) =~= key_parts(keys@));
        namespaces_with_key(namespaces.as_slice(), key)
    }
}

/// Types that can be used as the prefix of a range over a map.
pub trait Prefixer {
    /// The namespaces of the prefix.
    spec fn prefix_spec(&self) -> Seq<Seq<u8>>;

    /// Returns 0 or more namespaces that should be length-prefixed and concatenated
    /// for range searches.
    fn prefix(&self) -> (r: Vec<Key<'_>>)
        ensures
            key_parts(r@) == self.prefix_spec(),
    ;

    fn joined_prefix(&self) -> (r: Vec<u8>)
        requires
            all_encodable(self.prefix_spec()),
        ensures
            r@ == nested_prefix(self.prefix_spec()),
    {
        let prefixes = self.prefix();
        let l = prefixes.len();
        let namespaces = parts_as_slices(&prefixes, l);
        assert(key_parts(prefixes@).take(l as int) =~= key_parts(prefixes@));
        let empty: [u8; 0] = [];
        let r = namespaces_with_key(namespaces.as_slice(), empty.as_slice());
        assert(r@ =~= nested_prefix(self.prefix_spec()));
        r
    }
}

// Empty / no primary key
impl PrimaryKey for () {
    open spec fn key_spec(&self) -> Seq<Seq<u8>> {
        Seq::empty()
    }

    fn key(&self) -> (r: Vec<Key<'_>>) {
        let r: Vec<Key> = Vec::new();
        assert(key_parts(r@) =~= Seq::<Seq<u8>>::empty());
        r
    }
}

impl Prefixer for () {
    open spec fn prefix_spec(&self) -> Seq<Seq<u8>> {
        Seq::empty()
    }

    fn prefix(&self) -> (r: Vec<Key<'_>>) {
        let r: Vec<Key> = Vec::new();
        assert(key_parts(r@) =~= Seq::<Seq<u8>>::empty());
        r
    }
}

impl<'a> PrimaryKey for &'a [u8] {
    open spec fn key_spec(&self) -> Seq<Seq<u8>> {
        seq![(*self)@]
    }

    fn key(&self) -> (r: Vec<Key<'_>>) {
        // this is simple, we don't add more prefixes
        let mut r: Vec<Key> = Vec::new();
        r.push(Key::Ref(*self));
        assert(key_parts(r@) =~= seq![(*self)@]);
        r
    }
}

impl<'a> Prefixer for &'a [u8] {
    open spec fn prefix_spec(&self) -> Seq<Seq<u8>> {
        seq![(*self)@]
    }

    fn prefix(&self) -> (r: Vec<Key<'_>>) {
        let mut r: Vec<Key> = Vec::new();
        r.push(Key::Ref(*self));
        assert(key_parts(r@) =~= seq![(*self)@]);
        r
    }
}

// Provide a string version of this to raw encode strings
impl<'a> PrimaryKey for &'a str {
    open spec fn key_spec(&self) -> Seq<Seq<u8>> {
        seq![encode_utf8((*self)@)]
    }

    fn key(&self) -> (r: Vec<Key<'_>>) {
        let mut r: Vec<Key> = Vec::new();
        r.push(Key::Ref(self.as_bytes()));
        assert(key_parts(r@) =~= seq![encode_utf8((*self)@)]);
        r
    }
}

impl<'a> Prefixer for &'a str {
    open spec fn prefix_spec(&self) -> Seq<Seq<u8>> {
        seq![encode_utf8((*self)@)]
    }

    fn prefix(&self) -> (r: Vec<Key<'_>>) {
        let mut r: Vec<Key> = Vec::new();
        r.push(Key::Ref(self.as_bytes()));
        assert(key_parts(r@) =~= seq![encode_utf8((*self)@)]);
        r
    }
}

impl PrimaryKey for Vec<u8> {
    open spec fn key_spec(&self) -> Seq<Seq<u8>> {
        seq![self@]
    }

    fn key(&self) -> (r: Vec<Key<'_>>) {
        let mut r: Vec<Key> = Vec::new();
        r.push(Key::Ref(self.as_slice()));
        assert(key_parts(r@) =~= seq![self@]);
        r
    }
}

impl Prefixer for Vec<u8> {
    open spec fn prefix_spec(&self) -> Seq<Seq<u8>> {
        seq![self@]
    }

    fn prefix(&self) -> (r: Vec<Key<'_>>) {
        let mut r: Vec<Key> = Vec::new();
        r.push(Key::Ref(self.as_slice()));
        assert(key_parts(r@) =~= seq![self@]);
        r
    }
}

impl PrimaryKey for String {
    open spec fn key_spec(&self) -> Seq<Seq<u8>> {
        seq![encode_utf8(self@)]
    }

    fn key(&self) -> (r: Vec<Key<'_>>) {
        let mut r: Vec<Key> = Vec::new();
        r.push(Key::Ref(self.as_str().as_bytes()));
        assert(key_parts(r@) =~= seq![encode_utf8(self@)]);
        r
    }
}

impl Prefixer for String {
    open spec fn prefix_spec(&self) -> Seq<Seq<u8>> {
        seq![encode_utf8(self@)]
    }

    fn prefix(&self) -> (r: Vec<Key<'_>>) {
        let mut r: Vec<Key> = Vec::new();
        r.push(Key::Ref(self.as_str().as_bytes()));
        assert(key_parts(r@) =~= seq![encode_utf8(self@)]);
        r
    }
}

// use generics for combining there - so we can use &[u8], Vec<u8>, or integers
impl<T: PrimaryKey + Prefixer, U: PrimaryKey> PrimaryKey for (T, U) {
    open spec fn key_spec(&self) -> Seq<Seq<u8>> {
        self.0.key_spec() + self.1.key_spec()
    }

    fn key(&self) -> (r: Vec<Key<'_>>) {
        let mut keys = self.0.key();
        let mut rest = self.1.key();
        let ghost k0 = keys@;
        let ghost k1 = rest@;
        keys.append(&mut rest);
        assert(key_parts(keys@) =~= key_parts(k0) + key_parts(k1));
        keys
    }
}

impl<T: PrimaryKey + Prefixer, U: PrimaryKey + Prefixer, V: PrimaryKey> PrimaryKey for (T, U, V) {
    open spec fn key_spec(&self) -> Seq<Seq<u8>> {
        self.0.key_spec() + self.1.key_spec() + self.2.key_spec()
    }

    fn key(&self) -> (r: Vec<Key<'_>>) {
        let mut keys = self.0.key();
        let mut mid = self.1.key();
        let mut last = self.2.key();
        let ghost k0 = keys@;
        let ghost k1 = mid@;
        let ghost k2 = last@;
        keys.append(&mut mid);
        keys.append(&mut last);
        assert(key_parts(keys@) =~= key_parts(k0) + key_parts(k1) + key_parts(k2));
        keys
    }
}

impl<T: Prefixer, U: Prefixer> Prefixer for (T, U) {
    open spec fn prefix_spec(&self) -> Seq<Seq<u8>> {
        self.0.prefix_spec() + self.1.prefix_spec()
    }

    fn prefix(&self) -> (r: Vec<Key<'_>>) {
        let mut res = self.0.prefix();
        let mut rest = self.1.prefix();
        let ghost k0 = res@;
        let ghost k1 = rest@;
        res.append(&mut rest);
        assert(key_parts(res@) =~= key_parts(k0) + key_parts(k1));
        res
    }
}

impl<T: Prefixer, U: Prefixer, V: Prefixer> Prefixer for (T, U, V) {
    open spec fn prefix_spec(&self) -> Seq<Seq<u8>> {
        self.0.prefix_spec() + self.1.prefix_spec() + self.2.prefix_spec()
    }

    fn prefix(&self) -> (r: Vec<Key<'_>>) {
        let mut res = self.0.prefix();
        let mut mid = self.1.prefix();
        let mut last = self.2.prefix();
        let ghost k0 = res@;
        let ghost k1 = mid@;
        let ghost k2 = last@;
        res.append(&mut mid);
        res.append(&mut last);
        assert(key_parts(res@) =~= key_parts(k0) + key_parts(k1) + key_parts(k2));
        res
    }
}

impl PrimaryKey for u8 {
    open spec fn key_spec(&self) -> Seq<Seq<u8>> {
        seq![cw_bytes_of(*self)]
    }

    fn key(&self) -> (r: Vec<Key<'_>>) {
        let mut r: Vec<Key> = Vec::new();
        r.push(Key::Val8(self.to_cw_bytes()));
        assert(key_parts(r@) =~= seq![cw_bytes_of(*self)]);
        r
    }
}

impl Prefixer for u8 {
    open spec fn prefix_spec(&self) -> Seq<Seq<u8>> {
        seq![cw_bytes_of(*self)]
    }

    fn prefix(&self) -> (r: Vec<Key<'_>>) {
        let mut r: Vec<Key> = Vec::new();
        r.push(Key::Val8(self.to_cw_bytes()));
        assert(key_parts(r@) =~= seq![cw_bytes_of(*self)]);
        r
    }
}

impl PrimaryKey for i8 {
    open spec fn key_spec(&self) -> Seq<Seq<u8>> {
        seq![cw_bytes_of(*self)]
    }

    fn key(&self) -> (r: Vec<Key<'_>>) {
        let mut r: Vec<Key> = Vec::new();
        r.push(Key::Val8(self.to_cw_bytes()));
        assert(key_parts(r@) =~= seq![cw_bytes_of(*self)]);
        r
    }
}

impl Prefixer for i8 {
    open spec fn prefix_spec(&self) -> Seq<Seq<u8>> {
        seq![cw_bytes_of(*self)]
    }

    fn prefix(&self) -> (r: Vec<Key<'_>>) {
        let mut r: Vec<Key> = Vec::new();
        r.push(Key::Val8(self.to_cw_bytes()));
        assert(key_parts(r@) =~= seq![cw_bytes_of(*self)]);
        r
    }
}

impl PrimaryKey for u16 {
    open spec fn key_spec(&self) -> Seq<Seq<u8>> {
        seq![cw_bytes_of(*self)]
    }

    fn key(&self) -> (r: Vec<Key<'_>>) {
        let mut r: Vec<Key> = Vec::new();
        r.push(Key::Val16(self.to_cw_bytes()));
        assert(key_parts(r@) =~= seq![cw_bytes_of(*self)]);
        r
    }
}

impl Prefixer for u16 {
    open spec fn prefix_spec(&self) -> Seq<Seq<u8>> {
        seq![cw_bytes_of(*self)]
    }

    fn prefix(&self) -> (r: Vec<Key<'_>>) {
        let mut r: Vec<Key> = Vec::new();
        r.push(Key::Val16(self.to_cw_bytes()));
        assert(key_parts(r@) =~= seq![cw_bytes_of(*self)]);
        r
    }
}

impl PrimaryKey for i16 {
    open spec fn key_spec(&self) -> Seq<Seq<u8>> {
        seq![cw_bytes_of(*self)]
    }

    fn key(&self) -> (r: Vec<Key<'_>>) {
        let mut r: Vec<Key> = Vec::new();
        r.push(Key::Val16(self.to_cw_bytes()));
        assert(key_parts(r@) =~= seq![cw_bytes_of(*self)]);
        r
    }
}

impl Prefixer for i16 {
    open spec fn prefix_spec(&self) -> Seq<Seq<u8>> {
        seq![cw_bytes_of(*self)]
    }

    fn prefix(&self) -> (r: Vec<Key<'_>>) {
        let mut r: Vec<Key> = Vec::new();
        r.push(Key::Val16(self.to_cw_bytes()));
        assert(key_parts(r@) =~= seq![cw_bytes_of(*self)]);
        r
    }
}

impl PrimaryKey for u32 {
    open spec fn key_spec(&self) -> Seq<Seq<u8>> {
        seq![cw_bytes_of(*self)]
    }

    fn key(&self) -> (r: Vec<Key<'_>>) {
        let mut r: Vec<Key> = Vec::new();
        r.push(Key::Val32(self.to_cw_bytes()));
        assert(key_parts(r@) =~= seq![cw_bytes_of(*self)]);
        r
    }
}

impl Prefixer for u32 {
    open spec fn prefix_spec(&self) -> Seq<Seq<u8>> {
        seq![cw_bytes_of(*self)]
    }

    fn prefix(&self) -> (r: Vec<Key<'_>>) {
        let mut r: Vec<Key> = Vec::new();
        r.push(Key::Val32(self.to_cw_bytes()));
        assert(key_parts(r@) =~= seq![cw_bytes_of(*self)]);
        r
    }
}

impl PrimaryKey for i32 {
    open spec fn key_spec(&self) -> Seq<Seq<u8>> {
        seq![cw_bytes_of(*self)]
    }

    fn key(&self) -> (r: Vec<Key<'_>>) {
        let mut r: Vec<Key> = Vec::new();
        r.push(Key::Val32(self.to_cw_bytes()));
        assert(key_parts(r@) =~= seq![cw_bytes_of(*self)]);
        r
    }
}

impl Prefixer for i32 {
    open spec fn prefix_spec(&self) -> Seq<Seq<u8>> {
        seq![cw_bytes_of(*self)]
    }

    fn prefix(&self) -> (r: Vec<Key<'_>>) {
        let mut r: Vec<Key> = Vec::new();
        r.push(Key::Val32(self.to_cw_bytes()));
        assert(key_parts(r@) =~= seq![cw_bytes_of(*self)]);
        r
    }
}

impl PrimaryKey for u64 {
    open spec fn key_spec(&self) -> Seq<Seq<u8>> {
        seq![cw_bytes_of(*self)]
    }

    fn key(&self) -> (r: Vec<Key<'_>>) {
        let mut r: Vec<Key> = Vec::new();
        r.push(Key::Val64(self.to_cw_bytes()));
        assert(key_parts(r@) =~= seq![cw_bytes_of(*self)]);
        r
    }
}

impl Prefixer for u64 {
    open spec fn prefix_spec(&self) -> Seq<Seq<u8>> {
        seq![cw_bytes_of(*self)]
    }

    fn prefix(&self) -> (r: Vec<Key<'_>>) {
        let mut r: Vec<Key> = Vec::new();
        r.push(Key::Val64(self.to_cw_bytes()));
        assert(key_parts(r@) =~= seq![cw_bytes_of(*self)]);
        r
    }
}

impl PrimaryKey for i64 {
    open spec fn key_spec(&self) -> Seq<Seq<u8>> {
        seq![cw_bytes_of(*self)]
    }

    fn key(&self) -> (r: Vec<Key<'_>>) {
        let mut r: Vec<Key> = Vec::new();
        r.push(Key::Val64(self.to_cw_bytes()));
        assert(key_parts(r@) =~= seq![cw_bytes_of(*self)]);
        r
    }
}

impl Prefixer for i64 {
    open spec fn prefix_spec(&self) -> Seq<Seq<u8>> {
        seq![cw_bytes_of(*self)]
    }

    fn prefix(&self) -> (r: Vec<Key<'_>>) {
        let mut r: Vec<Key> = Vec::new();
        r.push(Key::Val64(self.to_cw_bytes()));
        assert(key_parts(r@) =~= seq![cw_bytes_of(*self)]);
        r
    }
}

/// Keys whose prefix form is their key form, as every key type of this library has: a
/// range over the prefix of such a key reaches exactly the entries stored under it.
pub trait UniformKey: PrimaryKey + Prefixer {
    proof fn lemma_prefix_is_key(&self)
        ensures
            self.prefix_spec() == self.key_spec(),
    ;
}

impl UniformKey for () {
    proof fn lemma_prefix_is_key(&self) {
    }
}

impl<'a> UniformKey for &'a [u8] {
    proof fn lemma_prefix_is_key(&self) {
    }
}

impl<'a> UniformKey for &'a str {
    proof fn lemma_prefix_is_key(&self) {
    }
}

impl UniformKey for Vec<u8> {
    proof fn lemma_prefix_is_key(&self) {
    }
}

impl UniformKey for String {
    proof fn lemma_prefix_is_key(&self) {
    }
}

impl UniformKey for u8 {
    proof fn lemma_prefix_is_key(&self) {
    }
}

impl UniformKey for i8 {
    proof fn lemma_prefix_is_key(&self) {
    }
}

impl UniformKey for u16 {
    proof fn lemma_prefix_is_key(&self) {
    }
}

impl UniformKey for i16 {
    proof fn lemma_prefix_is_key(&self) {
    }
}

impl UniformKey for u32 {
    proof fn lemma_prefix_is_key(&self) {
    }
}

impl UniformKey for i32 {
    proof fn lemma_prefix_is_key(&self) {
    }
}

impl UniformKey for u64 {
    proof fn lemma_prefix_is_key(&self) {
    }
}

impl UniformKey for i64 {
    proof fn lemma_prefix_is_key(&self) {
    }
}

impl<T: UniformKey, U: UniformKey> UniformKey for (T, U) {
    proof fn lemma_prefix_is_key(&self) {
        self.0.lemma_prefix_is_key();
        self.1.lemma_prefix_is_key();
    }
}

impl<T: UniformKey, U: UniformKey, V: UniformKey> UniformKey for (T, U, V) {
    proof fn lemma_prefix_is_key(&self) {
        self.0.lemma_prefix_is_key();
        self.1.lemma_prefix_is_key();
        self.2.lemma_prefix_is_key();
    }
}

} // verus!
