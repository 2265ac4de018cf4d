//! Length-prefixed key namespacing.
//!
//! A namespace is written as its length (two bytes, big endian) followed by its bytes.
//! Nested namespaces are the concatenation of such length-prefixed parts, and a full
//! key is the nested prefix followed by the raw key bytes.
use crate::storage::{storage_contents, storage_get, storage_remove, storage_set};
use cosmwasm_std::MemoryStorage;
use vstd::prelude::*;

verus! {

/// The two-byte big-endian encoding of a length below 65536.
pub open spec fn length_bytes(n: nat) -> Seq<u8> {
    seq![(n / 256) as u8, (n % 256) as u8]
}

/// A namespace preceded by the encoding of its length.
pub open spec fn length_prefixed(namespace: Seq<u8>) -> Seq<u8> {
    length_bytes(namespace.len()) + namespace
}

/// The concatenation of the length-prefixed namespaces, in order.
pub open spec fn nested_prefix(namespaces: Seq<Seq<u8>>) -> Seq<u8>
    decreases namespaces.len(),
{
    if namespaces.len() == 0 {
        Seq::empty()
    } else {
        length_prefixed(namespaces[0]) + nested_prefix(namespaces.drop_first())
    }
}

/// The full storage key of `key` under the nested namespaces.
pub open spec fn namespaced_key(namespaces: Seq<Seq<u8>>, key: Seq<u8>) -> Seq<u8> {
    nested_prefix(namespaces) + key
}

/// Every namespace is short enough for its length to fit in two bytes.
pub open spec fn all_encodable(namespaces: Seq<Seq<u8>>) -> bool {
    forall|i: int| 0 <= i < namespaces.len() ==> #[trigger] namespaces[i].len() <= 0xFFFF
}

/// The byte contents of a slice of byte slices.
pub open spec fn slices_view(namespaces: Seq<&[u8]>) -> Seq<Seq<u8>> {
    namespaces.map_values(|s: &[u8]| s@)
}

/// `b` starts with `a`.
pub open spec fn is_prefix_of(a: Seq<u8>, b: Seq<u8>) -> bool {
    a.len() <= b.len() && b.subrange(0, a.len() as int) == a
}

/// The lexicographic order on byte strings that `Vec<u8>` and the storage use:
/// either `a` is a proper prefix of `b`, or at the first position where they differ
/// `a` holds the smaller byte.
pub open spec fn lex_lt(a: Seq<u8>, b: Seq<u8>) -> bool {
    ||| (is_prefix_of(a, b) && a.len() < b.len())
    ||| exists|i: int|
        0 <= i < a.len() && i < b.len() && a[i] < b[i] && a.subrange(0, i) == b.subrange(0, i)
}

/// The successor of a namespace used as the exclusive end of its key range: the last
/// byte that is not 255 is incremented and the 255s after it become 0.
pub open spec fn upper_bound_of(input: Seq<u8>) -> Seq<u8>
    decreases input.len(),
{
    if input.len() == 0 {
        input
    } else if input.last() == 255 {
        upper_bound_of(input.drop_last()).push(0)
    } else {
        input.drop_last().push((input.last() + 1) as u8)
    }
}

/// Every byte is 255.
pub open spec fn all_max(input: Seq<u8>) -> bool {
    forall|i: int| 0 <= i < input.len() ==> input[i] == 255
}

pub proof fn lemma_length_bytes_injective(n: nat, m: nat)
    requires
        n <= 0xFFFF,
        m <= 0xFFFF,
        length_bytes(n) == length_bytes(m),
    ensures
        n == m,
{
    assert(length_bytes(n)[0] == length_bytes(m)[0]);
    assert(length_bytes(n)[1] == length_bytes(m)[1]);
}

proof fn lemma_nested_prefix_push(namespaces: Seq<Seq<u8>>, last: Seq<u8>)
    ensures
        nested_prefix(namespaces.push(last)) == nested_prefix(namespaces) + length_prefixed(last),
    decreases namespaces.len(),
{
    if namespaces.len() == 0 {
        assert(namespaces.push(last).drop_first() =~= Seq::<Seq<u8>>::empty());
        assert(nested_prefix(namespaces.push(last).drop_first()) =~= Seq::<u8>::empty());
        assert(namespaces.push(last)[0] == last);
        assert(nested_prefix(namespaces.push(last)) =~= length_prefixed(last));
    } else {
        assert(namespaces.push(last).drop_first() =~= namespaces.drop_first().push(last));
        lemma_nested_prefix_push(namespaces.drop_first(), last);
        assert(nested_prefix(namespaces.push(last)) =~= length_prefixed(namespaces[0])
            + nested_prefix(namespaces.drop_first().push(last)));
        assert(nested_prefix(namespaces.push(last)) =~= nested_prefix(namespaces)
            + length_prefixed(last));
    }
}

/// Distinct lists of namespaces, of the same number, never produce the same storage key:
/// if two namespaced keys are equal then so are their namespaces and their keys.
pub proof fn lemma_namespaced_key_injective(
    a: Seq<Seq<u8>>,
    key_a: Seq<u8>,
    b: Seq<Seq<u8>>,
    key_b: Seq<u8>,
)
    requires
        a.len() == b.len(),
        all_encodable(a),
        all_encodable(b),
        namespaced_key(a, key_a) == namespaced_key(b, key_b),
    ensures
        a == b,
        key_a == key_b,
    decreases a.len(),
{
    if a.len() == 0 {
        assert(namespaced_key(a, key_a) =~= key_a);
        assert(namespaced_key(b, key_b) =~= key_b);
    } else {
        let s = namespaced_key(a, key_a);
        let ra = namespaced_key(a.drop_first(), key_a);
        let rb = namespaced_key(b.drop_first(), key_b);
        assert(s =~= length_bytes(a[0].len()) + (a[0] + ra));
        assert(s =~= length_bytes(b[0].len()) + (b[0] + rb));
        assert(a[0].len() <= 0xFFFF);
        assert(b[0].len() <= 0xFFFF);
        assert(s[0] == length_bytes(a[0].len())[0]);
        assert(s[0] == length_bytes(b[0].len())[0]);
        assert(s[1] == length_bytes(a[0].len())[1]);
        assert(s[1] == length_bytes(b[0].len())[1]);
        assert(length_bytes(a[0].len()) =~= length_bytes(b[0].len()));
        lemma_length_bytes_injective(a[0].len(), b[0].len());
        let n = a[0].len() as int;
        assert(s.subrange(2, 2 + n) =~= a[0]);
        assert(s.subrange(2, 2 + n) =~= b[0]);
        assert(s.subrange(2 + n, s.len() as int) =~= ra);
        assert(s.subrange(2 + n, s.len() as int) =~= rb);
        assert forall|i: int| 0 <= i < a.drop_first().len() implies #[trigger] a.drop_first()[i].len()
            <= 0xFFFF by {
            assert(a.drop_first()[i] == a[i + 1]);
        }
        assert forall|i: int| 0 <= i < b.drop_first().len() implies #[trigger] b.drop_first()[i].len()
            <= 0xFFFF by {
            assert(b.drop_first()[i] == b[i + 1]);
        }
        lemma_namespaced_key_injective(a.drop_first(), key_a, b.drop_first(), key_b);
        assert(a =~= seq![a[0]] + a.drop_first());
        assert(b =~= seq![b[0]] + b.drop_first());
    }
}

/// Encodes the length of a given namespace as a 2 byte big endian encoded integer.
pub fn encode_length(namespace: &[u8]) -> (r: [u8; 2])
    requires
        namespace@.len() <= 0xFFFF,
    ensures
        r@ == length_bytes(namespace@.len()),
{
    let len = namespace.len();
    let r = [(len / 256) as u8, (len % 256) as u8];
    assert(r@ =~= length_bytes(namespace@.len()));
    r
}

/// Calculates the raw key prefix for a given namespace.
pub fn to_length_prefixed(namespace: &[u8]) -> (r: Vec<u8>)
    requires
        namespace@.len() <= 0xFFFF,
    ensures
        r@ == length_prefixed(namespace@),
{
    let mut out: Vec<u8> = Vec::with_capacity(namespace.len() + 2);
    let len_bytes = encode_length(namespace);
    out.extend_from_slice(&len_bytes);
    out.extend_from_slice(namespace);
    assert(out@ =~= length_prefixed(namespace@));
    out
}

/// Appends each namespace, length-prefixed, to `out`.
fn append_namespaces(out: &mut Vec<u8>, namespaces: &[&[u8]])
    requires
        all_encodable(slices_view(namespaces@)),
    ensures
        final(out)@ == old(out)@ + nested_prefix(slices_view(namespaces@)),
{
    let ghost nss = slices_view(namespaces@);
    let ghost start = out@;
    let mut i: usize = 0;
    assert(nss.take(0) =~= Seq::<Seq<u8>>::empty());
    assert(start + nested_prefix(nss.take(0)) =~= start);
    while i < namespaces.len()
        invariant
            i <= namespaces@.len(),
            nss == slices_view(namespaces@),
            all_encodable(nss),
            out@ == start + nested_prefix(nss.take(i as int)),
        decreases namespaces@.len() - i,
    {
        let namespace = namespaces[i];
        assert(nss[i as int] == namespace@);
        assert(namespace@.len() <= 0xFFFF);
        let len_bytes = encode_length(namespace);
        out.extend_from_slice(&len_bytes);
        out.extend_from_slice(namespace);
        proof {
            assert(nss.take(i + 1) =~= nss.take(i as int).push(nss[i as int]));
            lemma_nested_prefix_push(nss.take(i as int), nss[i as int]);
            assert(out@ =~= start + nested_prefix(nss.take(i + 1)));
        }
        i = i + 1;
    }
    assert(nss.take(namespaces@.len() as int) =~= nss);
}

/// Calculates the raw key prefix for a given nested namespace.
pub fn to_length_prefixed_nested(namespaces: &[&[u8]]) -> (r: Vec<u8>)
    requires
        all_encodable(slices_view(namespaces@)),
    ensures
        r@ == nested_prefix(slices_view(namespaces@)),
{
    let mut size: usize = 0;
    let mut i: usize = 0;
    while i < namespaces.len()
        decreases namespaces@.len() - i,
    {
        size = size.saturating_add(namespaces[i].len().saturating_add(2));
        i = i + 1;
    }
    let mut out: Vec<u8> = Vec::with_capacity(size);
    append_namespaces(&mut out, namespaces);
    assert(out@ =~= nested_prefix(slices_view(namespaces@)));
    out
}

/// The full key of `key` under the nested namespaces.
pub fn namespaces_with_key(namespaces: &[&[u8]], key: &[u8]) -> (r: Vec<u8>)
    requires
        all_encodable(slices_view(namespaces@)),
    ensures
        r@ == namespaced_key(slices_view(namespaces@), key@),
{
    let mut size: usize = key.len();
    let mut i: usize = 0;
    while i < namespaces.len()
        decreases namespaces@.len() - i,
    {
        size = size.saturating_add(namespaces[i].len().saturating_add(2));
        i = i + 1;
    }
    let mut out: Vec<u8> = Vec::with_capacity(size);
    append_namespaces(&mut out, namespaces);
    out.extend_from_slice(key);
    assert(out@ =~= namespaced_key(slices_view(namespaces@), key@));
    out
}

/// Customization of `namespaces_with_key` for when there are multiple sets of
/// namespaces we do not want to combine just to call it.
pub fn nested_namespaces_with_key(top_names: &[&[u8]], sub_names: &[&[u8]], key: &[u8]) -> (r:
    Vec<u8>)
    requires
        all_encodable(slices_view(top_names@)),
        all_encodable(slices_view(sub_names@)),
    ensures
        r@ == namespaced_key(slices_view(top_names@) + slices_view(sub_names@), key@),
{
    let mut size: usize = key.len();
    let mut i: usize = 0;
    while i < top_names.len()
        decreases top_names@.len() - i,
    {
        size = size.saturating_add(top_names[i].len().saturating_add(2));
        i = i + 1;
    }
    i = 0;
    while i < sub_names.len()
        decreases sub_names@.len() - i,
    {
        size = size.saturating_add(sub_names[i].len().saturating_add(2));
        i = i + 1;
    }
    let mut out: Vec<u8> = Vec::with_capacity(size);
    append_namespaces(&mut out, top_names);
    append_namespaces(&mut out, sub_names);
    out.extend_from_slice(key);
    proof {
        lemma_nested_prefix_concat(slices_view(top_names@), slices_view(sub_names@));
    }
    assert(out@ =~= namespaced_key(slices_view(top_names@) + slices_view(sub_names@), key@));
    out
}

proof fn lemma_nested_prefix_concat(a: Seq<Seq<u8>>, b: Seq<Seq<u8>>)
    ensures
        nested_prefix(a + b) == nested_prefix(a) + nested_prefix(b),
    decreases a.len(),
{
    if a.len() == 0 {
        assert(a + b =~= b);
        assert(nested_prefix(a) + nested_prefix(b) =~= nested_prefix(b));
    } else {
        assert((a + b).drop_first() =~= a.drop_first() + b);
        lemma_nested_prefix_concat(a.drop_first(), b);
        assert(nested_prefix(a + b) =~= nested_prefix(a) + nested_prefix(b));
    }
}

/// The key of `key` under a single length-prefixed namespace.
pub fn length_prefixed_with_key(namespace: &[u8], key: &[u8]) -> (r: Vec<u8>)
    requires
        namespace@.len() <= 0xFFFF,
    ensures
        r@ == length_prefixed(namespace@) + key@,
{
    let mut out: Vec<u8> = Vec::with_capacity((namespace.len() + 2).saturating_add(key.len()));
    let len_bytes = encode_length(namespace);
    out.extend_from_slice(&len_bytes);
    out.extend_from_slice(namespace);
    out.extend_from_slice(key);
    assert(out@ =~= length_prefixed(namespace@) + key@);
    out
}

/// The namespace followed by the key.
pub fn concat(namespace: &[u8], key: &[u8]) -> (r: Vec<u8>)
    ensures
        r@ == namespace@ + key@,
{
    let mut k: Vec<u8> = Vec::new();
    k.extend_from_slice(namespace);
    k.extend_from_slice(key);
    assert(k@ =~= namespace@ + key@);
    k
}

/// The key with the namespace's length in bytes removed from its front.
pub fn trim(namespace: &[u8], key: &[u8]) -> (r: Vec<u8>)
    requires
        namespace@.len() <= key@.len(),
    ensures
        r@ == key@.subrange(namespace@.len() as int, key@.len() as int),
{
    let mut out: Vec<u8> = Vec::with_capacity(key.len() - namespace.len());
    let mut i: usize = namespace.len();
    while i < key.len()
        invariant
            namespace@.len() <= i <= key@.len(),
            out@ == key@.subrange(namespace@.len() as int, i as int),
        decreases key@.len() - i,
    {
        out.push(key[i]);
        assert(out@ =~= key@.subrange(namespace@.len() as int, i + 1));
        i = i + 1;
    }
    out
}

/// Returns a new vec of same length and last byte incremented by one.
/// If last bytes are 255, we handle overflow up the chain.
/// If all bytes are 255, this returns all zeros, which is never a namespace's bound.
pub fn namespace_upper_bound(input: &[u8]) -> (r: Vec<u8>)
    ensures
        r@ == upper_bound_of(input@),
        r@.len() == input@.len(),
{
    // the trailing 255s roll over to 0; the byte before them is incremented
    let mut i: usize = input.len();
    while i > 0 && input[i - 1] == 255
        invariant
            i <= input@.len(),
            forall|j: int| i <= j < input@.len() ==> input@[j] == 255,
        decreases i,
    {
        i = i - 1;
    }
    let mut copy: Vec<u8> = Vec::with_capacity(input.len());
    let mut j: usize = 0;
    while j < input.len()
        invariant
            i <= input@.len(),
            j <= input@.len(),
            copy@.len() == j,
            i > 0 ==> input@[i - 1] != 255,
            forall|k: int| 0 <= k < j ==> #[trigger] copy@[k] == if k + 1 < i {
                input@[k]
            } else if k + 1 == i {
                (input@[k] + 1) as u8
            } else {
                0u8
            },
        decreases input@.len() - j,
    {
        if j + 1 < i {
            copy.push(input[j]);
        } else if j + 1 == i {
            copy.push(input[j] + 1);
        } else {
            copy.push(0);
        }
        j = j + 1;
    }
    proof {
        lemma_upper_bound_suffix(input@, i as int);
        let p = input@.subrange(0, i as int);
        if i > 0 {
            assert(p.last() == input@[i - 1]);
            assert(upper_bound_of(p) =~= p.drop_last().push((p.last() + 1) as u8));
        } else {
            assert(p =~= Seq::<u8>::empty());
        }
        assert(copy@ =~= upper_bound_of(p) + Seq::new((input@.len() - i) as nat, |k: int| 0u8));
    }
    copy
}

/// The bytes after position `i` are all 255, so the bound only changes them into zeros.
proof fn lemma_upper_bound_suffix(input: Seq<u8>, i: int)
    requires
        0 <= i <= input.len(),
        forall|j: int| i <= j < input.len() ==> input[j] == 255,
    ensures
        upper_bound_of(input) == upper_bound_of(input.subrange(0, i)) + Seq::new(
            (input.len() - i) as nat,
            |j: int| 0u8,
        ),
        upper_bound_of(input).len() == input.len(),
    decreases input.len(),
{
    if input.len() == i {
        assert(input.subrange(0, i) =~= input);
        assert(upper_bound_of(input) + Seq::new(0, |j: int| 0u8) =~= upper_bound_of(input));
        lemma_upper_bound_len(input);
    } else {
        lemma_upper_bound_suffix(input.drop_last(), i);
        assert(input.drop_last().subrange(0, i) =~= input.subrange(0, i));
        assert(upper_bound_of(input) =~= upper_bound_of(input.subrange(0, i)) + Seq::new(
            (input.len() - i) as nat,
            |j: int| 0u8,
        ));
    }
}

proof fn lemma_upper_bound_len(input: Seq<u8>)
    ensures
        upper_bound_of(input).len() == input.len(),
    decreases input.len(),
{
    if input.len() > 0 && input.last() == 255 {
        lemma_upper_bound_len(input.drop_last());
    }
}


/// The value stored under `key` in the namespace (the namespace bytes followed by the key).
pub fn get_with_prefix(storage: &MemoryStorage, namespace: &[u8], key: &[u8]) -> (r: Option<Vec<u8>>)
    ensures
        opt_value(r) == current_value(storage_contents(*storage), namespace@ + key@),
{
    let k = concat(namespace, key);
    storage_get(storage, k.as_slice())
}

/// Stores the value under `key` in the namespace.
pub fn set_with_prefix(storage: &mut MemoryStorage, namespace: &[u8], key: &[u8], value: &[u8])
    requires
        value@.len() > 0,
    ensures
        storage_contents(*final(storage)) == storage_contents(*old(storage)).insert(
            namespace@ + key@,
            value@,
        ),
{
    let k = concat(namespace, key);
    storage_set(storage, k.as_slice(), value);
}

/// Removes what is stored under `key` in the namespace.
pub fn remove_with_prefix(storage: &mut MemoryStorage, namespace: &[u8], key: &[u8])
    ensures
        storage_contents(*final(storage)) == storage_contents(*old(storage)).remove(
            namespace@ + key@,
        ),
{
    let k = concat(namespace, key);
    storage_remove(storage, k.as_slice());
}

/// The bytes of an optional value.
pub open spec fn opt_value(o: Option<Vec<u8>>) -> Option<Seq<u8>> {
    match o {
        Some(v) => Some(v@),
        None => None,
    }
}

/// The value stored at a key, if any.
pub open spec fn current_value(contents: Map<Seq<u8>, Seq<u8>>, key: Seq<u8>) -> Option<Seq<u8>> {
    if contents.contains_key(key) {
        Some(contents[key])
    } else {
        None
    }
}

} // verus!
