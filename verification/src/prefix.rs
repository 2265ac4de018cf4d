//! Byte bounds of a range inside a namespace.
//!
//! A range over the keys under `namespace` is turned into a start key (included) and an
//! end key (excluded) of the underlying storage.
use crate::helpers::{
    all_encodable, concat, is_prefix_of, lex_lt, namespace_upper_bound, namespaced_key,
    nested_namespaces_with_key, nested_prefix, slices_view, trim, upper_bound_of,
};
use crate::de::{KeyDeserialize, KeyError};
use crate::helpers::namespaces_with_key;
use crate::keys::Prefixer;
use crate::keys_old::Endian;
use crate::int_key::be_bytes;
use crate::storage::{
    entries_view, in_range, is_range_of, storage_contents, storage_range, Order,
};
use cosmwasm_std::MemoryStorage;
use vstd::prelude::*;

verus! {

/// Bound is used to defines the two ends of a range, more explicit than Option<u8>
/// Include means we use the given bytes as a limit and *include* anything at that exact key
/// Exclude means we use the given bytes as a limit and *exclude* anything at that exact key
#[derive(Clone, Debug)]
pub enum Bound {
    Inclusive(Vec<u8>),
    Exclusive(Vec<u8>),
}

impl Bound {
    /// The limit bytes and whether the limit itself is included.
    pub open spec fn view_bound(self) -> (Seq<u8>, bool) {
        match self {
            Bound::Inclusive(v) => (v@, true),
            Bound::Exclusive(v) => (v@, false),
        }
    }

    /// Turns bytes into an inclusive bound.
    pub fn inclusive(limit: Vec<u8>) -> (r: Self)
        ensures
            r.view_bound() == (limit@, true),
    {
        Bound::Inclusive(limit)
    }

    /// Turns bytes into an exclusive bound.
    pub fn exclusive(limit: Vec<u8>) -> (r: Self)
        ensures
            r.view_bound() == (limit@, false),
    {
        Bound::Exclusive(limit)
    }

    /// Turns an integer into an inclusive bound on its big-endian bytes.
    pub fn inclusive_int<T: Endian>(limit: T) -> (r: Self)
        ensures
            r.view_bound() == (be_bytes(limit.raw_value(), T::byte_len()), true),
    {
        Bound::Inclusive(limit.to_be_bytes_vec())
    }

    /// Turns an integer into an exclusive bound on its big-endian bytes.
    pub fn exclusive_int<T: Endian>(limit: T) -> (r: Self)
        ensures
            r.view_bound() == (be_bytes(limit.raw_value(), T::byte_len()), false),
    {
        Bound::Exclusive(limit.to_be_bytes_vec())
    }
}

/// A bound on the prefix of a composite key.
pub enum PrefixBound<K> {
    Inclusive(K),
    Exclusive(K),
}

impl<K: Prefixer> PrefixBound<K> {
    pub fn inclusive(k: K) -> (r: Self)
        ensures
            r == PrefixBound::Inclusive(k),
    {
        PrefixBound::Inclusive(k)
    }

    pub fn exclusive(k: K) -> (r: Self)
        ensures
            r == PrefixBound::Exclusive(k),
    {
        PrefixBound::Exclusive(k)
    }

    /// The prefix of the bound.
    pub open spec fn prefix_key(&self) -> K {
        match self {
            PrefixBound::Inclusive(k) => *k,
            PrefixBound::Exclusive(k) => *k,
        }
    }

    /// The bytes of the prefix and whether it is included.
    pub open spec fn bound_spec(&self) -> (Seq<u8>, bool) {
        (nested_prefix(self.prefix_key().prefix_spec()), self is Inclusive)
    }

    pub fn to_bound(&self) -> (r: Bound)
        requires
            all_encodable(self.prefix_key().prefix_spec()),
        ensures
            r.view_bound() == self.bound_spec(),
    {
        match self {
            PrefixBound::Exclusive(k) => Bound::Exclusive(k.joined_prefix()),
            PrefixBound::Inclusive(k) => Bound::Inclusive(k.joined_prefix()),
        }
    }
}

/// A copy of the bytes.
pub(crate) fn copy_bytes(b: &[u8]) -> (r: Vec<u8>)
    ensures
        r@ == b@,
{
    let mut v: Vec<u8> = Vec::new();
    v.extend_from_slice(b);
    v
}

/// The limit followed by a zero byte: the first key after the limit.
pub fn extend_one_byte(limit: &[u8]) -> (r: Vec<u8>)
    ensures
        r@ == limit@.push(0),
{
    let mut v: Vec<u8> = Vec::new();
    v.extend_from_slice(limit);
    v.push(0);
    v
}

/// The storage key where a range over `namespace` starts (included).
pub open spec fn start_key(namespace: Seq<u8>, bound: Option<(Seq<u8>, bool)>) -> Seq<u8> {
    match bound {
        None => namespace,
        Some((limit, true)) => namespace + limit,
        Some((limit, false)) => namespace + limit.push(0),
    }
}

/// The storage key where a range over `namespace` ends (excluded).
pub open spec fn end_key(namespace: Seq<u8>, bound: Option<(Seq<u8>, bool)>) -> Seq<u8> {
    match bound {
        None => upper_bound_of(namespace),
        Some((limit, false)) => namespace + limit,
        Some((limit, true)) => namespace + limit.push(0),
    }
}

/// The storage key where a range over prefixes under `namespace` starts (included):
/// an excluded prefix skips every key that starts with it.
pub open spec fn prefix_start_key(namespace: Seq<u8>, bound: Option<(Seq<u8>, bool)>) -> Seq<u8> {
    match bound {
        None => namespace,
        Some((limit, true)) => namespace + limit,
        Some((limit, false)) => namespace + upper_bound_of(limit),
    }
}

/// The storage key where a range over prefixes under `namespace` ends (excluded):
/// an included prefix takes in every key that starts with it.
pub open spec fn prefix_end_key(namespace: Seq<u8>, bound: Option<(Seq<u8>, bool)>) -> Seq<u8> {
    match bound {
        None => upper_bound_of(namespace),
        Some((limit, false)) => namespace + limit,
        Some((limit, true)) => namespace + upper_bound_of(limit),
    }
}

/// The view of an optional bound.
pub open spec fn opt_bound(bound: Option<Bound>) -> Option<(Seq<u8>, bool)> {
    match bound {
        None => None,
        Some(b) => Some(b.view_bound()),
    }
}

/// The view of an optional prefix bound.
pub open spec fn opt_prefix_bound<K: Prefixer>(bound: Option<PrefixBound<K>>) -> Option<
    (Seq<u8>, bool),
> {
    match bound {
        None => None,
        Some(b) => Some(b.bound_spec()),
    }
}

pub fn calc_start_bound(namespace: &[u8], bound: Option<Bound>) -> (r: Vec<u8>)
    ensures
        r@ == start_key(namespace@, opt_bound(bound)),
{
    match bound {
        None => copy_bytes(namespace),
        // this is the natural limits of the underlying Storage
        Some(Bound::Inclusive(limit)) => concat(namespace, limit.as_slice()),
        Some(Bound::Exclusive(limit)) => {
            let e = extend_one_byte(limit.as_slice());
            concat(namespace, e.as_slice())
        },
    }
}

pub fn calc_end_bound(namespace: &[u8], bound: Option<Bound>) -> (r: Vec<u8>)
    ensures
        r@ == end_key(namespace@, opt_bound(bound)),
{
    match bound {
        None => namespace_upper_bound(namespace),
        // this is the natural limits of the underlying Storage
        Some(Bound::Exclusive(limit)) => concat(namespace, limit.as_slice()),
        Some(Bound::Inclusive(limit)) => {
            let e = extend_one_byte(limit.as_slice());
            concat(namespace, e.as_slice())
        },
    }
}

/// The bound of an optional prefix bound, as bytes.
fn prefix_to_bound<K: Prefixer>(bound: Option<PrefixBound<K>>) -> (r: Option<Bound>)
    requires
        bound matches Some(b) ==> all_encodable(b.prefix_key().prefix_spec()),
    ensures
        opt_bound(r) == opt_prefix_bound(bound),
{
    match bound {
        None => None,
        Some(b) => Some(b.to_bound()),
    }
}

pub fn calc_prefix_start_bound<K: Prefixer>(namespace: &[u8], bound: Option<PrefixBound<K>>) -> (r:
    Vec<u8>)
    requires
        bound matches Some(b) ==> all_encodable(b.prefix_key().prefix_spec()),
    ensures
        r@ == prefix_start_key(namespace@, opt_prefix_bound(bound)),
{
    match prefix_to_bound(bound) {
        None => copy_bytes(namespace),
        // this is the natural limits of the underlying Storage
        Some(Bound::Inclusive(limit)) => concat(namespace, limit.as_slice()),
        Some(Bound::Exclusive(limit)) => {
            let e = namespace_upper_bound(limit.as_slice());
            concat(namespace, e.as_slice())
        },
    }
}

pub fn calc_prefix_end_bound<K: Prefixer>(namespace: &[u8], bound: Option<PrefixBound<K>>) -> (r:
    Vec<u8>)
    requires
        bound matches Some(b) ==> all_encodable(b.prefix_key().prefix_spec()),
    ensures
        r@ == prefix_end_key(namespace@, opt_prefix_bound(bound)),
{
    match prefix_to_bound(bound) {
        None => namespace_upper_bound(namespace),
        // this is the natural limits of the underlying Storage
        Some(Bound::Exclusive(limit)) => concat(namespace, limit.as_slice()),
        Some(Bound::Inclusive(limit)) => {
            let e = namespace_upper_bound(limit.as_slice());
            concat(namespace, e.as_slice())
        },
    }
}

/// The entries with the first `n` bytes of each key cut off.
pub open spec fn trim_keys(raw: Seq<(Seq<u8>, Seq<u8>)>, n: nat) -> Seq<(Seq<u8>, Seq<u8>)> {
    raw.map_values(|p: (Seq<u8>, Seq<u8>)| (p.0.subrange(n as int, p.0.len() as int), p.1))
}

/// Trimming every key of a range by the namespace length cannot fail: no stored key in
/// the range is shorter than the namespace.
pub open spec fn trimmable(
    contents: Map<Seq<u8>, Seq<u8>>,
    namespace: Seq<u8>,
    start: Seq<u8>,
    end: Seq<u8>,
) -> bool {
    forall|k: Seq<u8>|
        #[trigger] contents.contains_key(k) && in_range(k, Some(start), Some(end)) ==> k.len()
            >= namespace.len()
}

/// The entries stored from the key `start` (included) to the key `end` (excluded), in the
/// given order, each with the first bytes (as many as `namespace` has) cut off its key.
fn collect_trimmed(
    store: &MemoryStorage,
    namespace: &[u8],
    start: &[u8],
    end: &[u8],
    order: Order,
) -> (r: Vec<(Vec<u8>, Vec<u8>)>)
    requires
        trimmable(storage_contents(*store), namespace@, start@, end@),
    ensures
        exists|raw: Seq<(Seq<u8>, Seq<u8>)>|
            {
                &&& is_range_of(storage_contents(*store), Some(start@), Some(end@), order, raw)
                &&& entries_view(r@) == trim_keys(raw, namespace@.len())
            },
{
    let ghost s = start@;
    let ghost e = end@;
    let raw = storage_range(store, Some(start), Some(end), order);
    let ghost rv = entries_view(raw@);
    let mut out: Vec<(Vec<u8>, Vec<u8>)> = Vec::new();
    let mut i: usize = 0;
    while i < raw.len()
        invariant
            i <= raw@.len(),
            out@.len() == i,
            rv == entries_view(raw@),
            is_range_of(storage_contents(*store), Some(s), Some(e), order, rv),
            trimmable(storage_contents(*store), namespace@, s, e),
            entries_view(out@) == trim_keys(rv, namespace@.len()).take(i as int),
        decreases raw@.len() - i,
    {
        let (k, v) = &raw[i];
        assert(rv[i as int] == (k@, v@));
        assert(storage_contents(*store).contains_key(rv[i as int].0));
        let tk = trim(namespace, k.as_slice());
        let tv = copy_bytes(v.as_slice());
        let ghost before = out@;
        out.push((tk, tv));
        assert(out@ == before.push((tk, tv)));
        assert(entries_view(out@)[i as int] == (tk@, tv@));
        assert(trim_keys(rv, namespace@.len())[i as int] == (tk@, tv@));
        assert(entries_view(out@) =~= trim_keys(rv, namespace@.len()).take(i + 1));
        i = i + 1;
    }
    assert(trim_keys(rv, namespace@.len()).take(raw@.len() as int) =~= trim_keys(
        rv,
        namespace@.len(),
    ));
    out
}

/// The entries stored under `namespace` between the bounds, in the given order, each
/// with the namespace cut off its key.
pub fn range_with_prefix(
    store: &MemoryStorage,
    namespace: &[u8],
    start: Option<Bound>,
    end: Option<Bound>,
    order: Order,
) -> (r: Vec<(Vec<u8>, Vec<u8>)>)
    requires
        trimmable(
            storage_contents(*store),
            namespace@,
            start_key(namespace@, opt_bound(start)),
            end_key(namespace@, opt_bound(end)),
        ),
    ensures
        exists|raw: Seq<(Seq<u8>, Seq<u8>)>|
            {
                &&& is_range_of(
                    storage_contents(*store),
                    Some(start_key(namespace@, opt_bound(start))),
                    Some(end_key(namespace@, opt_bound(end))),
                    order,
                    raw,
                )
                &&& entries_view(r@) == trim_keys(raw, namespace@.len())
            },
{
    let start = calc_start_bound(namespace, start);
    let end = calc_end_bound(namespace, end);
    collect_trimmed(store, namespace, start.as_slice(), end.as_slice(), order)
}

/// Where a range over prefixes starts, as a bound on keys: an excluded prefix starts the
/// range after every key that extends it.
pub open spec fn prefix_start_as_bound(bound: Option<(Seq<u8>, bool)>) -> Option<(Seq<u8>, bool)> {
    match bound {
        None => None,
        Some((limit, true)) => Some((limit, true)),
        Some((limit, false)) => Some((upper_bound_of(limit), true)),
    }
}

/// Where a range over prefixes ends, as a bound on keys: an included prefix takes in every
/// key that extends it.
pub open spec fn prefix_end_as_bound(bound: Option<(Seq<u8>, bool)>) -> Option<(Seq<u8>, bool)> {
    match bound {
        None => None,
        Some((limit, false)) => Some((limit, false)),
        Some((limit, true)) => Some((upper_bound_of(limit), false)),
    }
}

/// The entries of the map stored under `namespace` whose keys start with a prefix between
/// the two prefix bounds, in the given order, each with the namespace part cut off.
pub fn namespaced_prefix_range<K: Prefixer>(
    store: &MemoryStorage,
    namespace: &[u8],
    start: Option<PrefixBound<K>>,
    end: Option<PrefixBound<K>>,
    order: Order,
) -> (r: Vec<(Vec<u8>, Vec<u8>)>)
    requires
        namespace@.len() <= 0xFFFF,
        start matches Some(b) ==> all_encodable(b.prefix_key().prefix_spec()),
        end matches Some(b) ==> all_encodable(b.prefix_key().prefix_spec()),
        range_ok_between(
            storage_contents(*store),
            namespaced_key(seq![namespace@], Seq::empty()),
            prefix_start_as_bound(opt_prefix_bound(start)),
            prefix_end_as_bound(opt_prefix_bound(end)),
        ),
    ensures
        is_range_between(
            storage_contents(*store),
            namespaced_key(seq![namespace@], Seq::empty()),
            prefix_start_as_bound(opt_prefix_bound(start)),
            prefix_end_as_bound(opt_prefix_bound(end)),
            order,
            entries_view(r@),
        ),
{
    let mut names: Vec<&[u8]> = Vec::new();
    names.push(namespace);
    assert(slices_view(names@) =~= seq![namespace@]);
    let empty: Vec<u8> = Vec::new();
    let prefix = namespaces_with_key(names.as_slice(), empty.as_slice());
    assert(empty@ =~= Seq::<u8>::empty());
    let start = calc_prefix_start_bound(prefix.as_slice(), start);
    let end = calc_prefix_end_bound(prefix.as_slice(), end);
    collect_trimmed(store, prefix.as_slice(), start.as_slice(), end.as_slice(), order)
}

/// Every key that a range under `prefix` between the bounds can find can be read back as
/// a `K` (with the prefix cut off) without panicking.
pub open spec fn range_readable<K: KeyDeserialize>(
    contents: Map<Seq<u8>, Seq<u8>>,
    prefix: Seq<u8>,
    min: Option<(Seq<u8>, bool)>,
    max: Option<(Seq<u8>, bool)>,
) -> bool {
    forall|k: Seq<u8>|
        #[trigger] contents.contains_key(k) && in_range(
            k,
            Some(start_key(prefix, min)),
            Some(end_key(prefix, max)),
        ) ==> K::safe(k.subrange(prefix.len() as int, k.len() as int))
}

/// Every key of the entries can be read back as a `K` without panicking.
pub open spec fn entries_safe<K: KeyDeserialize>(entries: Seq<(Seq<u8>, Seq<u8>)>) -> bool {
    forall|i: int| 0 <= i < entries.len() ==> K::safe(#[trigger] entries[i].0)
}

/// The keys of a range under a readable prefix can all be read back.
pub proof fn lemma_range_entries_safe<K: KeyDeserialize>(
    contents: Map<Seq<u8>, Seq<u8>>,
    prefix: Seq<u8>,
    min: Option<(Seq<u8>, bool)>,
    max: Option<(Seq<u8>, bool)>,
    order: Order,
    entries: Seq<(Seq<u8>, Seq<u8>)>,
)
    requires
        range_readable::<K>(contents, prefix, min, max),
        is_range_between(contents, prefix, min, max, order, entries),
    ensures
        entries_safe::<K>(entries),
{
    let raw = choose|raw: Seq<(Seq<u8>, Seq<u8>)>|
        {
            &&& is_range_of(
                contents,
                Some(start_key(prefix, min)),
                Some(end_key(prefix, max)),
                order,
                raw,
            )
            &&& entries == trim_keys(raw, prefix.len())
        };
    assert forall|i: int| 0 <= i < entries.len() implies K::safe(#[trigger] entries[i].0) by {
        assert(contents.contains_key(raw[i].0));
        assert(entries[i].0 == raw[i].0.subrange(prefix.len() as int, raw[i].0.len() as int));
    }
}

/// Each result is the key of the entry at the same place read back as a `K`, with its
/// value, or the reason the key could not be read.
pub open spec fn decoded_entries<K: KeyDeserialize>(
    r: Seq<Result<(K::Output, Vec<u8>), KeyError>>,
    entries: Seq<(Seq<u8>, Seq<u8>)>,
) -> bool {
    &&& r.len() == entries.len()
    &&& forall|i: int|
        0 <= i < entries.len() ==> {
            &&& (#[trigger] r[i] is Ok <==> K::decodable(entries[i].0))
            &&& r[i] matches Ok(p) ==> p.0@ == K::decoded(entries[i].0) && p.1@ == entries[i].1
        }
}

/// The keys of the entries that can be read back as a `K`, read back, in order; the
/// others are left out.
pub open spec fn decodable_keys<K: KeyDeserialize>(entries: Seq<(Seq<u8>, Seq<u8>)>) -> Seq<
    <K::Output as View>::V,
>
    decreases entries.len(),
{
    if entries.len() == 0 {
        Seq::empty()
    } else {
        let rest = decodable_keys::<K>(entries.drop_last());
        if K::decodable(entries.last().0) {
            rest.push(K::decoded(entries.last().0))
        } else {
            rest
        }
    }
}

/// The views of the values.
pub open spec fn outputs_view<T: View>(r: Seq<T>) -> Seq<T::V> {
    r.map_values(|o: T| o@)
}

/// Reads every key back as a `K`, keeping the values.
pub fn decode_entries<K: KeyDeserialize>(all: Vec<(Vec<u8>, Vec<u8>)>) -> (r: Vec<
    Result<(K::Output, Vec<u8>), KeyError>,
>)
    requires
        entries_safe::<K>(entries_view(all@)),
    ensures
        decoded_entries::<K>(r@, entries_view(all@)),
{
    let ghost ev = entries_view(all@);
    let mut out: Vec<Result<(K::Output, Vec<u8>), KeyError>> = Vec::new();
    let mut i: usize = 0;
    while i < all.len()
        invariant
            i <= all@.len(),
            out@.len() == i,
            ev == entries_view(all@),
            entries_safe::<K>(ev),
            forall|j: int|
                0 <= j < i ==> {
                    &&& (#[trigger] out@[j] is Ok <==> K::decodable(ev[j].0))
                    &&& out@[j] matches Ok(p) ==> p.0@ == K::decoded(ev[j].0) && p.1@ == ev[j].1
                },
        decreases all@.len() - i,
    {
        let (k, v) = &all[i];
        assert(ev[i as int] == (k@, v@));
        let key = copy_bytes(k.as_slice());
        let value = copy_bytes(v.as_slice());
        assert(K::safe(ev[i as int].0));
        let item = match K::from_vec(key) {
            Ok(o) => Ok((o, value)),
            Err(e) => Err(e),
        };
        out.push(item);
        i = i + 1;
    }
    out
}

/// Reads every key back as a `K`, leaving out those that cannot be read.
pub fn decode_keys<K: KeyDeserialize>(all: Vec<(Vec<u8>, Vec<u8>)>) -> (r: Vec<K::Output>)
    requires
        entries_safe::<K>(entries_view(all@)),
    ensures
        outputs_view(r@) == decodable_keys::<K>(entries_view(all@)),
{
    let ghost ev = entries_view(all@);
    let mut out: Vec<K::Output> = Vec::new();
    let mut i: usize = 0;
    while i < all.len()
        invariant
            i <= all@.len(),
            ev == entries_view(all@),
            entries_safe::<K>(ev),
            outputs_view(out@) == decodable_keys::<K>(ev.take(i as int)),
        decreases all@.len() - i,
    {
        let (k, _) = &all[i];
        assert(ev[i as int].0 == k@);
        let key = copy_bytes(k.as_slice());
        assert(K::safe(ev[i as int].0));
        assert(ev.take(i + 1).drop_last() =~= ev.take(i as int));
        assert(ev.take(i + 1).last() == ev[i as int]);
        match K::from_vec(key) {
            Ok(o) => {
                let ghost before = out@;
                out.push(o);
                assert(outputs_view(out@) =~= outputs_view(before).push(o@));
            },
            Err(_) => {},
        }
        i = i + 1;
    }
    assert(ev.take(all@.len() as int) =~= ev);
    out
}

/// The keys of the entries.
pub open spec fn keys_view(r: Seq<Vec<u8>>) -> Seq<Seq<u8>> {
    r.map_values(|k: Vec<u8>| k@)
}

/// A range under the prefix bytes, between bounds given as bytes, can be collected from
/// the contents.
pub open spec fn range_ok_between(
    contents: Map<Seq<u8>, Seq<u8>>,
    prefix: Seq<u8>,
    min: Option<(Seq<u8>, bool)>,
    max: Option<(Seq<u8>, bool)>,
) -> bool {
    trimmable(contents, prefix, start_key(prefix, min), end_key(prefix, max))
}

/// `entries` are the stored entries under the prefix bytes between the bounds (given as
/// bytes), in the given order, with the prefix cut off their keys.
pub open spec fn is_range_between(
    contents: Map<Seq<u8>, Seq<u8>>,
    prefix: Seq<u8>,
    min: Option<(Seq<u8>, bool)>,
    max: Option<(Seq<u8>, bool)>,
    order: Order,
    entries: Seq<(Seq<u8>, Seq<u8>)>,
) -> bool {
    exists|raw: Seq<(Seq<u8>, Seq<u8>)>|
        {
            &&& is_range_of(
                contents,
                Some(start_key(prefix, min)),
                Some(end_key(prefix, max)),
                order,
                raw,
            )
            &&& entries == trim_keys(raw, prefix.len())
        }
}

/// A range under the prefix bytes can be collected from the contents.
pub open spec fn prefix_range_ok(
    contents: Map<Seq<u8>, Seq<u8>>,
    prefix: Seq<u8>,
    min: Option<Bound>,
    max: Option<Bound>,
) -> bool {
    range_ok_between(contents, prefix, opt_bound(min), opt_bound(max))
}

/// `entries` are the stored entries under the prefix bytes between the bounds, in the
/// given order, with the prefix cut off their keys.
pub open spec fn is_prefix_range(
    contents: Map<Seq<u8>, Seq<u8>>,
    prefix: Seq<u8>,
    min: Option<Bound>,
    max: Option<Bound>,
    order: Order,
    entries: Seq<(Seq<u8>, Seq<u8>)>,
) -> bool {
    is_range_between(contents, prefix, opt_bound(min), opt_bound(max), order, entries)
}

/// All entries that share a prefix of namespaces: iterating a `Prefix` walks the entries
/// whose keys start with it, each with the prefix cut off.
pub struct Prefix {
    /// all namespaces prefixes and concatenated with the key
    storage_prefix: Vec<u8>,
}

impl Prefix {
    /// The bytes every key under the prefix starts with.
    pub closed spec fn prefix_bytes(&self) -> Seq<u8> {
        self.storage_prefix@
    }

    /// A range of this prefix can be collected on the store.
    pub open spec fn range_ok(&self, store: MemoryStorage, min: Option<Bound>, max: Option<Bound>) -> bool {
        prefix_range_ok(storage_contents(store), self.prefix_bytes(), min, max)
    }

    /// The entries under the prefix between the bounds, in the given order, with the
    /// prefix cut off their keys.
    pub open spec fn is_range(
        &self,
        store: MemoryStorage,
        min: Option<Bound>,
        max: Option<Bound>,
        order: Order,
        entries: Seq<(Seq<u8>, Seq<u8>)>,
    ) -> bool {
        is_prefix_range(storage_contents(store), self.prefix_bytes(), min, max, order, entries)
    }

    pub fn new(top_name: &[u8], sub_names: &[&[u8]]) -> (r: Self)
        requires
            top_name@.len() <= 0xFFFF,
            all_encodable(slices_view(sub_names@)),
        ensures
            r.prefix_bytes() == namespaced_key(
                seq![top_name@] + slices_view(sub_names@),
                Seq::empty(),
            ),
    {
        let mut top: Vec<&[u8]> = Vec::new();
        top.push(top_name);
        assert(slices_view(top@) =~= seq![top_name@]);
        let empty: Vec<u8> = Vec::new();
        let storage_prefix = nested_namespaces_with_key(top.as_slice(), sub_names, empty.as_slice());
        Prefix { storage_prefix }
    }

    /// The bytes every key under the prefix starts with.
    pub fn deref(&self) -> (r: &[u8])
        ensures
            r@ == self.prefix_bytes(),
    {
        self.storage_prefix.as_slice()
    }

    pub fn range(
        &self,
        store: &MemoryStorage,
        min: Option<Bound>,
        max: Option<Bound>,
        order: Order,
    ) -> (r: Vec<(Vec<u8>, Vec<u8>)>)
        requires
            self.range_ok(*store, min, max),
        ensures
            self.is_range(*store, min, max, order, entries_view(r@)),
    {
        range_with_prefix(store, self.storage_prefix.as_slice(), min, max, order)
    }

    pub fn keys(
        &self,
        store: &MemoryStorage,
        min: Option<Bound>,
        max: Option<Bound>,
        order: Order,
    ) -> (r: Vec<Vec<u8>>)
        requires
            self.range_ok(*store, min, max),
        ensures
            exists|entries: Seq<(Seq<u8>, Seq<u8>)>|
                {
                    &&& self.is_range(*store, min, max, order, entries)
                    &&& keys_view(r@) == entries.map_values(|p: (Seq<u8>, Seq<u8>)| p.0)
                },
    {
        let all = self.range(store, min, max, order);
        let ghost entries = entries_view(all@);
        let mut out: Vec<Vec<u8>> = Vec::new();
        let mut i: usize = 0;
        while i < all.len()
            invariant
                i <= all@.len(),
                out@.len() == i,
                entries == entries_view(all@),
                keys_view(out@) == entries.map_values(|p: (Seq<u8>, Seq<u8>)| p.0).take(i as int),
            decreases all@.len() - i,
        {
            let k = copy_bytes(all[i].0.as_slice());
            let ghost before = out@;
            out.push(k);
            assert(out@ == before.push(k));
            assert(keys_view(out@) =~= entries.map_values(|p: (Seq<u8>, Seq<u8>)| p.0).take(
                i + 1,
            ));
            i = i + 1;
        }
        assert(entries.map_values(|p: (Seq<u8>, Seq<u8>)| p.0).take(all@.len() as int)
            =~= entries.map_values(|p: (Seq<u8>, Seq<u8>)| p.0));
        out
    }

    /// The entries under the prefix between the bounds, in the given order, with their
    /// keys (the prefix cut off) read back as `K`; each key that cannot be read gives its
    /// error in place.
    pub fn range_de<K: KeyDeserialize>(
        &self,
        store: &MemoryStorage,
        min: Option<Bound>,
        max: Option<Bound>,
        order: Order,
    ) -> (r: Vec<Result<(K::Output, Vec<u8>), KeyError>>)
        requires
            self.range_ok(*store, min, max),
            range_readable::<K>(
                storage_contents(*store),
                self.prefix_bytes(),
                opt_bound(min),
                opt_bound(max),
            ),
        ensures
            exists|entries: Seq<(Seq<u8>, Seq<u8>)>|
                {
                    &&& self.is_range(*store, min, max, order, entries)
                    &&& decoded_entries::<K>(r@, entries)
                },
    {
        let all = self.range(store, min, max, order);
        let ghost ev = entries_view(all@);
        proof {
            lemma_range_entries_safe::<K>(
                storage_contents(*store),
                self.prefix_bytes(),
                opt_bound(min),
                opt_bound(max),
                order,
                ev,
            );
        }
        let r = decode_entries::<K>(all);
        assert(self.is_range(*store, min, max, order, ev));
        r
    }

    /// The keys under the prefix between the bounds, in the given order, read back as
    /// `K` (the prefix cut off); keys that cannot be read are left out.
    pub fn keys_de<K: KeyDeserialize>(
        &self,
        store: &MemoryStorage,
        min: Option<Bound>,
        max: Option<Bound>,
        order: Order,
    ) -> (r: Vec<K::Output>)
        requires
            self.range_ok(*store, min, max),
            range_readable::<K>(
                storage_contents(*store),
                self.prefix_bytes(),
                opt_bound(min),
                opt_bound(max),
            ),
        ensures
            exists|entries: Seq<(Seq<u8>, Seq<u8>)>|
                {
                    &&& self.is_range(*store, min, max, order, entries)
                    &&& outputs_view(r@) == decodable_keys::<K>(entries)
                },
    {
        let all = self.range(store, min, max, order);
        let ghost ev = entries_view(all@);
        proof {
            lemma_range_entries_safe::<K>(
                storage_contents(*store),
                self.prefix_bytes(),
                opt_bound(min),
                opt_bound(max),
                order,
                ev,
            );
        }
        let r = decode_keys::<K>(all);
        assert(self.is_range(*store, min, max, order, ev));
        r
    }
}

/// A range that starts at an included bound finds the entry stored exactly at the bound
/// first, when there is one.
pub proof fn lemma_range_starts_at_bound(
    contents: Map<Seq<u8>, Seq<u8>>,
    prefix: Seq<u8>,
    start: Seq<u8>,
    entries: Seq<(Seq<u8>, Seq<u8>)>,
)
    requires
        exists|i: int| 0 <= i < prefix.len() && prefix[i] != 255,
        is_range_between(contents, prefix, Some((start, true)), None, Order::Ascending, entries),
        contents.contains_key(prefix + start),
    ensures
        entries.len() > 0,
        entries[0] == (start, contents[prefix + start]),
{
    let raw = choose|raw: Seq<(Seq<u8>, Seq<u8>)>|
        {
            &&& is_range_of(
                contents,
                Some(start_key(prefix, Some((start, true)))),
                Some(end_key(prefix, None)),
                Order::Ascending,
                raw,
            )
            &&& entries == trim_keys(raw, prefix.len())
        };
    let k = prefix + start;
    assert(k.subrange(0, prefix.len() as int) =~= prefix);
    lemma_prefixed_keys_in_range(prefix, k);
    if lex_lt(k, k) {
        lemma_lex_lt_asymmetric(k, k);
    }
    assert(in_range(k, Some(start_key(prefix, Some((start, true)))), Some(end_key(prefix, None))));
    let i = choose|i: int| 0 <= i < raw.len() && #[trigger] raw[i].0 == k;
    if i > 0 {
        assert(lex_lt(raw[0].0, raw[i].0));
        assert(in_range(raw[0].0, Some(k), Some(end_key(prefix, None))));
    }
    assert(raw[0].0 == k);
    assert(k.subrange(prefix.len() as int, k.len() as int) =~= start);
}

/// No byte string comes before itself, and two strings cannot each come before the other.
pub proof fn lemma_lex_lt_asymmetric(x: Seq<u8>, y: Seq<u8>)
    requires
        lex_lt(x, y),
    ensures
        x != y,
        !lex_lt(y, x),
{
    if x == y {
        if !(is_prefix_of(x, y) && x.len() < y.len()) {
            let i = choose|i: int|
                0 <= i < x.len() && i < y.len() && x[i] < y[i] && x.subrange(0, i) == y.subrange(
                    0,
                    i,
                );
            assert(false);
        }
    }
    if lex_lt(y, x) {
        if is_prefix_of(x, y) && x.len() < y.len() {
            if !(is_prefix_of(y, x) && y.len() < x.len()) {
                let j = choose|j: int|
                    0 <= j < y.len() && j < x.len() && y[j] < x[j] && y.subrange(0, j)
                        == x.subrange(0, j);
                assert(y.subrange(0, x.len() as int)[j] == y[j]);
            }
        } else {
            let i = choose|i: int|
                0 <= i < x.len() && i < y.len() && x[i] < y[i] && x.subrange(0, i) == y.subrange(
                    0,
                    i,
                );
            if is_prefix_of(y, x) && y.len() < x.len() {
                assert(x.subrange(0, y.len() as int)[i] == x[i]);
            } else {
                let j = choose|j: int|
                    0 <= j < y.len() && j < x.len() && y[j] < x[j] && y.subrange(0, j)
                        == x.subrange(0, j);
                if i < j {
                    assert(y.subrange(0, j)[i] == y[i]);
                    assert(x.subrange(0, j)[i] == x[i]);
                } else if j < i {
                    assert(y.subrange(0, i)[j] == y[j]);
                    assert(x.subrange(0, i)[j] == x[j]);
                }
            }
        }
    }
}

/// A string that does not start with `p` is a proper prefix of `p`, or differs from `p`
/// at a first position.
pub(crate) proof fn lemma_prefix_split(p: Seq<u8>, k: Seq<u8>)
    requires
        !is_prefix_of(p, k),
    ensures
        (k.len() < p.len() && is_prefix_of(k, p)) || exists|i: int|
            0 <= i < k.len() && i < p.len() && k[i] != p[i] && k.subrange(0, i) == p.subrange(
                0,
                i,
            ),
    decreases p.len(),
{
    if p.len() == 0 {
        assert(k.subrange(0, 0) =~= p);
    } else {
        let q = p.drop_last();
        let n = q.len() as int;
        if is_prefix_of(q, k) {
            if k.len() == n {
                assert(k =~= q);
                assert(p.subrange(0, n) =~= q);
            } else {
                assert(k.subrange(0, n) == q);
                if k[n] == p[n] {
                    assert(k.subrange(0, p.len() as int) =~= p);
                }
                assert(p.subrange(0, n) =~= q);
                assert(k[n] != p[n] && k.subrange(0, n) == p.subrange(0, n));
            }
        } else {
            lemma_prefix_split(q, k);
            if k.len() < q.len() && is_prefix_of(k, q) {
                assert(p.subrange(0, k.len() as int) =~= q.subrange(0, k.len() as int));
            } else {
                let i = choose|i: int|
                    0 <= i < k.len() && i < q.len() && k[i] != q[i] && k.subrange(0, i)
                        == q.subrange(0, i);
                assert(p.subrange(0, i) =~= q.subrange(0, i));
                assert(k[i] != p[i] && k.subrange(0, i) == p.subrange(0, i));
            }
        }
    }
}

/// Every key that a range under `namespace` can reach starts with the namespace, as long
/// as the namespace is empty or does not end in a 255 byte: then no key in the range is
/// shorter than the namespace, and `range_with_prefix` may be called on every store.
pub proof fn lemma_range_keys_under_namespace(
    namespace: Seq<u8>,
    start: Option<(Seq<u8>, bool)>,
    end: Option<(Seq<u8>, bool)>,
    k: Seq<u8>,
)
    requires
        namespace.len() == 0 || namespace.last() != 255,
        in_range(k, Some(start_key(namespace, start)), Some(end_key(namespace, end))),
    ensures
        is_prefix_of(namespace, k),
{
    let s = start_key(namespace, start);
    let e = end_key(namespace, end);
    let n = namespace.len() as int;
    assert(s.subrange(0, n) =~= namespace);
    if !is_prefix_of(namespace, k) {
        lemma_prefix_split(namespace, k);
        if k.len() < namespace.len() && is_prefix_of(k, namespace) {
            assert(s.subrange(0, k.len() as int) =~= namespace.subrange(0, k.len() as int));
            assert(lex_lt(k, s));
        } else {
            let i = choose|i: int|
                0 <= i < k.len() && i < namespace.len() && k[i] != namespace[i] && k.subrange(
                    0,
                    i,
                ) == namespace.subrange(0, i);
            assert(s.subrange(0, i) =~= namespace.subrange(0, i));
            assert(s[i] == namespace[i]);
            if k[i] < namespace[i] {
                assert(lex_lt(k, s));
            } else {
                match end {
                    Some(_) => {
                        assert(e.subrange(0, i) =~= namespace.subrange(0, i));
                        assert(e[i] == namespace[i]);
                        assert(lex_lt(e, k));
                        lemma_lex_lt_asymmetric(e, k);
                    },
                    None => {
                        let last = n - 1;
                        assert(e == namespace.drop_last().push((namespace.last() + 1) as u8));
                        if i < last {
                            assert(e.subrange(0, i) =~= namespace.subrange(0, i));
                            assert(lex_lt(e, k));
                            lemma_lex_lt_asymmetric(e, k);
                        } else if k[i] > e[i] {
                            assert(e.subrange(0, i) =~= namespace.subrange(0, i));
                            assert(lex_lt(e, k));
                            lemma_lex_lt_asymmetric(e, k);
                        } else {
                            assert(k.subrange(0, e.len() as int) =~= e);
                            if k.len() > e.len() {
                                assert(lex_lt(e, k));
                                lemma_lex_lt_asymmetric(e, k);
                            } else {
                                assert(k =~= e);
                                lemma_lex_lt_asymmetric(k, e);
                            }
                        }
                    },
                }
            }
        }
    }
}

/// A range under a namespace that is empty or does not end in a 255 byte can be
/// collected on every store.
pub proof fn lemma_range_trimmable(
    contents: Map<Seq<u8>, Seq<u8>>,
    namespace: Seq<u8>,
    start: Option<(Seq<u8>, bool)>,
    end: Option<(Seq<u8>, bool)>,
)
    requires
        namespace.len() == 0 || namespace.last() != 255,
    ensures
        trimmable(contents, namespace, start_key(namespace, start), end_key(namespace, end)),
{
    assert forall|k: Seq<u8>|
        #[trigger] contents.contains_key(k) && in_range(
            k,
            Some(start_key(namespace, start)),
            Some(end_key(namespace, end)),
        ) implies k.len() >= namespace.len() by {
        lemma_range_keys_under_namespace(namespace, start, end, k);
    }
}

/// Appending a zero byte gives the next key: it comes after the limit, and no key lies
/// strictly between the two.
pub proof fn lemma_extend_one_byte_successor(limit: Seq<u8>, k: Seq<u8>)
    ensures
        lex_lt(limit, limit.push(0)),
        !(lex_lt(limit, k) && lex_lt(k, limit.push(0))),
{
    let e = limit.push(0);
    assert(e.subrange(0, limit.len() as int) =~= limit);
    assert(is_prefix_of(limit, e));
    if lex_lt(limit, k) && lex_lt(k, e) {
        if is_prefix_of(limit, k) && limit.len() < k.len() {
            // k extends the limit, so its next byte is at least 0 and k is not below e
            if is_prefix_of(k, e) && k.len() < e.len() {
                assert(k.len() <= limit.len());
            } else {
                let i = choose|i: int|
                    0 <= i < k.len() && i < e.len() && k[i] < e[i] && k.subrange(0, i)
                        == e.subrange(0, i);
                if i < limit.len() {
                    assert(k[i] == k.subrange(0, limit.len() as int)[i]);
                    assert(e[i] == e.subrange(0, limit.len() as int)[i]);
                } else {
                    assert(e[i] == 0);
                }
            }
        } else {
            let i = choose|i: int|
                0 <= i < limit.len() && i < k.len() && limit[i] < k[i] && limit.subrange(0, i)
                    == k.subrange(0, i);
            // k leaves the limit upward at i, and e agrees with the limit there
            if is_prefix_of(k, e) && k.len() < e.len() {
                assert(k[i] == e.subrange(0, k.len() as int)[i]);
                assert(e[i] == limit[i]);
            } else {
                let j = choose|j: int|
                    0 <= j < k.len() && j < e.len() && k[j] < e[j] && k.subrange(0, j)
                        == e.subrange(0, j);
                if j < i {
                    assert(k[j] == k.subrange(0, i)[j]);
                    assert(limit[j] == limit.subrange(0, i)[j]);
                    assert(e[j] == limit[j]);
                } else if j == i {
                    assert(e[j] == limit[j]);
                } else {
                    assert(k[i] == k.subrange(0, j)[i]);
                    assert(e[i] == e.subrange(0, j)[i]);
                    assert(e[i] == limit[i]);
                }
            }
        }
    }
}

/// Every key that starts with a namespace lies in the range from the namespace up to
/// (excluding) its upper bound, as long as the namespace has a byte below 255.
pub proof fn lemma_prefixed_keys_in_range(namespace: Seq<u8>, k: Seq<u8>)
    requires
        is_prefix_of(namespace, k),
        exists|i: int| 0 <= i < namespace.len() && namespace[i] != 255,
    ensures
        namespace == k || lex_lt(namespace, k),
        lex_lt(k, upper_bound_of(namespace)),
{
    if namespace.len() < k.len() {
        assert(lex_lt(namespace, k));
    } else {
        assert(k =~= namespace);
    }
    lemma_upper_bound_above(namespace, k);
}

/// A key that starts with `p` lies below the upper bound of `p`, unless `p` is all 255s.
proof fn lemma_upper_bound_above(p: Seq<u8>, k: Seq<u8>)
    requires
        is_prefix_of(p, k),
        exists|i: int| 0 <= i < p.len() && p[i] != 255,
    ensures
        lex_lt(k, upper_bound_of(p)),
    decreases p.len(),
{
    let u = upper_bound_of(p);
    let n = p.len() - 1;
    if p.last() == 255 {
        let q = p.drop_last();
        assert(q.len() > 0 && exists|i: int| 0 <= i < q.len() && q[i] != 255) by {
            let i = choose|i: int| 0 <= i < p.len() && p[i] != 255;
            assert(i < n);
            assert(q[i] == p[i]);
        }
        assert(is_prefix_of(q, k)) by {
            assert(k.subrange(0, q.len() as int) =~= k.subrange(0, p.len() as int).drop_last());
        }
        lemma_upper_bound_above(q, k);
        let uq = upper_bound_of(q);
        assert(u == uq.push(0));
        lemma_upper_bound_len(q);
        // k is below uq at some position inside q, and u extends uq
        if is_prefix_of(k, uq) && k.len() < uq.len() {
            assert(k.len() < q.len());
            assert(k.len() >= p.len());
        } else {
            let i = choose|i: int|
                0 <= i < k.len() && i < uq.len() && k[i] < uq[i] && k.subrange(0, i)
                    == uq.subrange(0, i);
            assert(u[i] == uq[i]);
            assert(u.subrange(0, i) =~= uq.subrange(0, i));
        }
    } else {
        assert(u == p.drop_last().push((p.last() + 1) as u8));
        assert(k[n] == p[n]) by {
            assert(k.subrange(0, p.len() as int)[n] == k[n]);
        }
        assert(k.subrange(0, n) =~= u.subrange(0, n)) by {
            assert forall|j: int| 0 <= j < n implies k.subrange(0, n)[j] == u.subrange(0, n)[j] by {
                assert(k.subrange(0, p.len() as int)[j] == k[j]);
            }
        }
    }
}

pub(crate) proof fn lemma_upper_bound_len(input: Seq<u8>)
    ensures
        upper_bound_of(input).len() == input.len(),
    decreases input.len(),
{
    if input.len() > 0 && input.last() == 255 {
        lemma_upper_bound_len(input.drop_last());
    }
}

/// The upper bound of `p` keeps the first bytes of `p`, up to a position that has a byte
/// below 255 after it.
pub(crate) proof fn lemma_upper_bound_keeps_front(p: Seq<u8>, i: int)
    requires
        0 <= i,
        exists|t: int| i < t < p.len() && p[t] != 255,
    ensures
        upper_bound_of(p).len() == p.len(),
        forall|j: int| 0 <= j <= i ==> #[trigger] upper_bound_of(p)[j] == p[j],
    decreases p.len(),
{
    lemma_upper_bound_len(p);
    let n = p.len() - 1;
    if p.last() == 255 {
        let q = p.drop_last();
        assert(exists|t: int| i < t < q.len() && q[t] != 255) by {
            let t = choose|t: int| i < t < p.len() && p[t] != 255;
            assert(t < n);
            assert(q[t] == p[t]);
        }
        lemma_upper_bound_keeps_front(q, i);
        assert(upper_bound_of(p) == upper_bound_of(q).push(0));
        assert forall|j: int| 0 <= j <= i implies #[trigger] upper_bound_of(p)[j] == p[j] by {
            assert(upper_bound_of(p)[j] == upper_bound_of(q)[j]);
            assert(q[j] == p[j]);
        }
    } else {
        let t = choose|t: int| i < t < p.len() && p[t] != 255;
        assert(i < n);
    }
}

/// A key that first differs from `p` at a position with a byte below 255 after it in `p`
/// lies outside every range from `p` followed by anything up to the upper bound of `p`.
pub(crate) proof fn lemma_outside_prefix_range(x: Seq<u8>, p: Seq<u8>, s: Seq<u8>, i: int)
    requires
        0 <= i < p.len(),
        i < x.len(),
        x.subrange(0, i) == p.subrange(0, i),
        x[i] != p[i],
        exists|t: int| i < t < p.len() && p[t] != 255,
    ensures
        !in_range(x, Some(p + s), Some(upper_bound_of(p))),
{
    if x[i] < p[i] {
        assert(lex_lt(x, p));
        let q = p + s;
        assert(q.subrange(0, i) =~= p.subrange(0, i));
        assert(q[i] == p[i]);
        assert(lex_lt(x, q));
    } else {
        let u = upper_bound_of(p);
        lemma_upper_bound_keeps_front(p, i);
        assert(u.subrange(0, i) =~= x.subrange(0, i)) by {
            assert forall|j: int| 0 <= j < i implies #[trigger] u.subrange(0, i)[j] == x.subrange(0, i)[j] by {
                assert(u[j] == p[j]);
                assert(p.subrange(0, i)[j] == p[j]);
                assert(x.subrange(0, i)[j] == x[j]);
            }
        }
        assert(u[i] == p[i]);
        assert(lex_lt(u, x));
        lemma_lex_lt_asymmetric(u, x);
    }
}

} // verus!
