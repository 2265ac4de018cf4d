//! A double-ended queue kept in storage.
//!
//! The elements live at consecutive positions (4-byte big-endian, wrapping around)
//! from `head` up to, not including, `tail`; both positions are stored under their own
//! one-byte keys, and absent positions read as 0.
use crate::helpers::{length_prefixed, namespaced_key, namespaces_with_key, nested_prefix};
use crate::int_key::{be_bytes, be_value, lemma_be_bytes_value, lemma_pow256_values, CwIntKey};
use crate::storage::{storage_contents, storage_get, storage_remove, storage_set, StorageError};
use cosmwasm_std::MemoryStorage;
use vstd::prelude::*;
use vstd::utf8::encode_utf8;

verus! {

/// Number of distinct positions.
pub open spec fn positions() -> int {
    0x1_0000_0000
}

/// A position taken modulo the number of positions.
pub open spec fn wrap(x: int) -> int {
    x % positions()
}

/// The key holding the element at position `p`.
pub open spec fn position_key(ns: Seq<u8>, p: int) -> Seq<u8> {
    namespaced_key(seq![ns], be_bytes(p as nat, 4))
}

/// The key holding the head position.
pub open spec fn head_key(ns: Seq<u8>) -> Seq<u8> {
    namespaced_key(seq![ns], seq![104u8])
}

/// The key holding the tail position.
pub open spec fn tail_key(ns: Seq<u8>) -> Seq<u8> {
    namespaced_key(seq![ns], seq![116u8])
}

/// A stored position: absent reads as 0, four bytes read big endian, anything else
/// cannot be read (`None`).
pub open spec fn meta_value(c: Map<Seq<u8>, Seq<u8>>, k: Seq<u8>) -> Option<int> {
    if !c.contains_key(k) {
        Some(0)
    } else if c[k].len() == 4 {
        Some(be_value(c[k]) as int)
    } else {
        None
    }
}

/// Both positions can be read.
pub open spec fn meta_readable(c: Map<Seq<u8>, Seq<u8>>, ns: Seq<u8>) -> bool {
    meta_value(c, head_key(ns)) is Some && meta_value(c, tail_key(ns)) is Some
}

pub open spec fn head_of(c: Map<Seq<u8>, Seq<u8>>, ns: Seq<u8>) -> int {
    meta_value(c, head_key(ns))->0
}

pub open spec fn tail_of(c: Map<Seq<u8>, Seq<u8>>, ns: Seq<u8>) -> int {
    meta_value(c, tail_key(ns))->0
}

/// The number of elements.
pub open spec fn deque_len(c: Map<Seq<u8>, Seq<u8>>, ns: Seq<u8>) -> int {
    wrap(tail_of(c, ns) - head_of(c, ns))
}

/// The storage holds a deque: the positions can be read, every position from head to
/// tail holds an element and no other position does.
pub open spec fn deque_wf(c: Map<Seq<u8>, Seq<u8>>, ns: Seq<u8>) -> bool {
    &&& meta_readable(c, ns)
    &&& forall|i: int|
        0 <= i < deque_len(c, ns) ==> #[trigger] c.contains_key(
            position_key(ns, wrap(head_of(c, ns) + i)),
        )
    &&& forall|p: int|
        0 <= p < positions() && wrap(p - head_of(c, ns)) >= deque_len(c, ns)
            ==> !#[trigger] c.contains_key(position_key(ns, p))
}

/// The elements from front to back.
pub open spec fn deque_view(c: Map<Seq<u8>, Seq<u8>>, ns: Seq<u8>) -> Seq<Seq<u8>> {
    Seq::new(
        deque_len(c, ns) as nat,
        |i: int| c[position_key(ns, wrap(head_of(c, ns) + i))],
    )
}

/// No key of the deque is present.
pub open spec fn deque_absent(c: Map<Seq<u8>, Seq<u8>>, ns: Seq<u8>) -> bool {
    &&& !c.contains_key(head_key(ns))
    &&& !c.contains_key(tail_key(ns))
    &&& forall|p: int| 0 <= p < positions() ==> !#[trigger] c.contains_key(position_key(ns, p))
}

proof fn lemma_keys_distinct(ns: Seq<u8>, p: int, q: int)
    requires
        0 <= p < positions(),
        0 <= q < positions(),
    ensures
        position_key(ns, p) != head_key(ns),
        position_key(ns, p) != tail_key(ns),
        head_key(ns) != tail_key(ns),
        position_key(ns, p) == position_key(ns, q) ==> p == q,
        position_key(ns, p).len() == nested_prefix(seq![ns]).len() + 4,
{
    lemma_pow256_values();
    lemma_be_bytes_value(p as nat, 4);
    lemma_be_bytes_value(q as nat, 4);
    let pre = nested_prefix(seq![ns]);
    assert(head_key(ns) =~= pre + seq![104u8]);
    assert(tail_key(ns) =~= pre + seq![116u8]);
    assert(head_key(ns)[pre.len() as int] == 104u8);
    assert(tail_key(ns)[pre.len() as int] == 116u8);
    if position_key(ns, p) == position_key(ns, q) {
        assert(position_key(ns, p).subrange(pre.len() as int, pre.len() + 4int) =~= be_bytes(
            p as nat,
            4,
        ));
        assert(position_key(ns, q).subrange(pre.len() as int, pre.len() + 4int) =~= be_bytes(
            q as nat,
            4,
        ));
    }
}

/// The encoding of a stored position reads back as that position.
proof fn lemma_meta_roundtrip(p: int)
    requires
        0 <= p < positions(),
    ensures
        be_bytes(p as nat, 4).len() == 4,
        be_value(be_bytes(p as nat, 4)) == p,
{
    lemma_pow256_values();
    lemma_be_bytes_value(p as nat, 4);
}

/// A storage without any key of the deque holds the empty deque.
pub proof fn lemma_deque_starts_empty(c: Map<Seq<u8>, Seq<u8>>, ns: Seq<u8>)
    requires
        deque_absent(c, ns),
    ensures
        deque_wf(c, ns),
        deque_view(c, ns) == Seq::<Seq<u8>>::empty(),
{
    assert(deque_view(c, ns) =~= Seq::<Seq<u8>>::empty());
}

/// Pushing at the back appends the value to the deque.
pub proof fn lemma_push_back(c: Map<Seq<u8>, Seq<u8>>, ns: Seq<u8>, v: Seq<u8>)
    requires
        deque_wf(c, ns),
        deque_len(c, ns) + 1 < positions(),
    ensures
        ({
            let t = tail_of(c, ns);
            let c2 = c.insert(position_key(ns, t), v).insert(
                tail_key(ns),
                be_bytes(wrap(t + 1) as nat, 4),
            );
            &&& deque_wf(c2, ns)
            &&& deque_view(c2, ns) == deque_view(c, ns).push(v)
        }),
{
    let h = head_of(c, ns);
    let t = tail_of(c, ns);
    let n = deque_len(c, ns);
    let c2 = c.insert(position_key(ns, t), v).insert(tail_key(ns), be_bytes(wrap(t + 1) as nat, 4));
    lemma_meta_value_range(c, head_key(ns));
    lemma_meta_value_range(c, tail_key(ns));
    lemma_meta_roundtrip(wrap(t + 1));
    lemma_keys_distinct(ns, t, t);
    assert(head_of(c2, ns) == h);
    assert(tail_of(c2, ns) == wrap(t + 1));
    assert(deque_len(c2, ns) == n + 1);
    assert(t == wrap(h + n));
    assert forall|i: int| 0 <= i < deque_len(c2, ns) implies #[trigger] c2.contains_key(
        position_key(ns, wrap(head_of(c2, ns) + i)),
    ) by {
        lemma_keys_distinct(ns, wrap(h + i), t);
        if i < n {
            assert(c.contains_key(position_key(ns, wrap(h + i))));
        }
    }
    assert forall|p: int|
        0 <= p < positions() && wrap(p - head_of(c2, ns)) >= deque_len(c2, ns) implies !#[trigger] c2.contains_key(
        position_key(ns, p),
    ) by {
        lemma_keys_distinct(ns, p, t);
        assert(!c.contains_key(position_key(ns, p)));
    }
    assert forall|i: int| 0 <= i < n + 1 implies #[trigger] deque_view(c2, ns)[i] == deque_view(
        c,
        ns,
    ).push(v)[i] by {
        lemma_keys_distinct(ns, wrap(h + i), t);
    }
    assert(deque_view(c2, ns) =~= deque_view(c, ns).push(v));
}

/// Pushing at the front prepends the value to the deque.
pub proof fn lemma_push_front(c: Map<Seq<u8>, Seq<u8>>, ns: Seq<u8>, v: Seq<u8>)
    requires
        deque_wf(c, ns),
        deque_len(c, ns) + 1 < positions(),
    ensures
        ({
            let p = wrap(head_of(c, ns) - 1);
            let c2 = c.insert(position_key(ns, p), v).insert(head_key(ns), be_bytes(p as nat, 4));
            &&& deque_wf(c2, ns)
            &&& deque_view(c2, ns) == seq![v] + deque_view(c, ns)
        }),
{
    let h = head_of(c, ns);
    let t = tail_of(c, ns);
    let n = deque_len(c, ns);
    let p = wrap(h - 1);
    let c2 = c.insert(position_key(ns, p), v).insert(head_key(ns), be_bytes(p as nat, 4));
    lemma_meta_value_range(c, head_key(ns));
    lemma_meta_value_range(c, tail_key(ns));
    lemma_meta_roundtrip(p);
    lemma_keys_distinct(ns, p, p);
    assert(head_of(c2, ns) == p);
    assert(tail_of(c2, ns) == t);
    assert(deque_len(c2, ns) == n + 1);
    assert forall|i: int| 0 <= i < deque_len(c2, ns) implies #[trigger] c2.contains_key(
        position_key(ns, wrap(head_of(c2, ns) + i)),
    ) by {
        lemma_keys_distinct(ns, wrap(p + i), p);
        if i > 0 {
            assert(wrap(p + i) == wrap(h + (i - 1)));
            assert(c.contains_key(position_key(ns, wrap(h + (i - 1)))));
        }
    }
    assert forall|q: int|
        0 <= q < positions() && wrap(q - head_of(c2, ns)) >= deque_len(c2, ns) implies !#[trigger] c2.contains_key(
        position_key(ns, q),
    ) by {
        lemma_keys_distinct(ns, q, p);
        assert(wrap(q - h) >= n);
        assert(!c.contains_key(position_key(ns, q)));
    }
    assert forall|i: int| 0 <= i < n + 1 implies #[trigger] deque_view(c2, ns)[i] == (seq![v]
        + deque_view(c, ns))[i] by {
        lemma_keys_distinct(ns, wrap(p + i), p);
        if i > 0 {
            assert(wrap(p + i) == wrap(h + (i - 1)));
        }
    }
    assert(deque_view(c2, ns) =~= seq![v] + deque_view(c, ns));
}

/// Popping from the front returns the first element and removes it.
pub proof fn lemma_pop_front(c: Map<Seq<u8>, Seq<u8>>, ns: Seq<u8>)
    requires
        deque_wf(c, ns),
    ensures
        ({
            let h = head_of(c, ns);
            let c2 = c.remove(position_key(ns, h)).insert(
                head_key(ns),
                be_bytes(wrap(h + 1) as nat, 4),
            );
            &&& c.contains_key(position_key(ns, h)) <==> deque_view(c, ns).len() > 0
            &&& deque_view(c, ns).len() > 0 ==> {
                &&& c[position_key(ns, h)] == deque_view(c, ns)[0]
                &&& deque_wf(c2, ns)
                &&& deque_view(c2, ns) == deque_view(c, ns).drop_first()
            }
        }),
{
    let h = head_of(c, ns);
    let t = tail_of(c, ns);
    let n = deque_len(c, ns);
    lemma_meta_value_range(c, head_key(ns));
    lemma_meta_value_range(c, tail_key(ns));
    assert(wrap(h + 0) == h);
    if n == 0 {
        assert(wrap(h - h) >= n);
    } else {
        let c2 = c.remove(position_key(ns, h)).insert(
            head_key(ns),
            be_bytes(wrap(h + 1) as nat, 4),
        );
        lemma_meta_roundtrip(wrap(h + 1));
        lemma_keys_distinct(ns, h, h);
        assert(head_of(c2, ns) == wrap(h + 1));
        assert(tail_of(c2, ns) == t);
        assert(deque_len(c2, ns) == n - 1);
        assert forall|i: int| 0 <= i < deque_len(c2, ns) implies #[trigger] c2.contains_key(
            position_key(ns, wrap(head_of(c2, ns) + i)),
        ) by {
            assert(wrap(wrap(h + 1) + i) == wrap(h + (i + 1)));
            lemma_keys_distinct(ns, wrap(h + (i + 1)), h);
            assert(c.contains_key(position_key(ns, wrap(h + (i + 1)))));
        }
        assert forall|q: int|
            0 <= q < positions() && wrap(q - head_of(c2, ns)) >= deque_len(c2, ns) implies !#[trigger] c2.contains_key(
            position_key(ns, q),
        ) by {
            lemma_keys_distinct(ns, q, h);
            if q != h {
                assert(wrap(q - h) >= n);
                assert(!c.contains_key(position_key(ns, q)));
            }
        }
        assert forall|i: int| 0 <= i < n - 1 implies #[trigger] deque_view(c2, ns)[i]
            == deque_view(c, ns).drop_first()[i] by {
            assert(wrap(wrap(h + 1) + i) == wrap(h + (i + 1)));
            lemma_keys_distinct(ns, wrap(h + (i + 1)), h);
        }
        assert(deque_view(c2, ns) =~= deque_view(c, ns).drop_first());
    }
}

/// Popping from the back returns the last element and removes it.
pub proof fn lemma_pop_back(c: Map<Seq<u8>, Seq<u8>>, ns: Seq<u8>)
    requires
        deque_wf(c, ns),
    ensures
        ({
            let p = wrap(tail_of(c, ns) - 1);
            let c2 = c.remove(position_key(ns, p)).insert(tail_key(ns), be_bytes(p as nat, 4));
            let n = deque_view(c, ns).len();
            &&& c.contains_key(position_key(ns, p)) <==> n > 0
            &&& n > 0 ==> {
                &&& c[position_key(ns, p)] == deque_view(c, ns)[n - 1]
                &&& deque_wf(c2, ns)
                &&& deque_view(c2, ns) == deque_view(c, ns).drop_last()
            }
        }),
{
    let h = head_of(c, ns);
    let t = tail_of(c, ns);
    let n = deque_len(c, ns);
    let p = wrap(t - 1);
    lemma_meta_value_range(c, head_key(ns));
    lemma_meta_value_range(c, tail_key(ns));
    if n == 0 {
        assert(wrap(p - h) >= n);
    } else {
        assert(p == wrap(h + (n - 1)));
        let c2 = c.remove(position_key(ns, p)).insert(tail_key(ns), be_bytes(p as nat, 4));
        lemma_meta_roundtrip(p);
        lemma_keys_distinct(ns, p, p);
        assert(head_of(c2, ns) == h);
        assert(tail_of(c2, ns) == p);
        assert(deque_len(c2, ns) == n - 1);
        assert forall|i: int| 0 <= i < deque_len(c2, ns) implies #[trigger] c2.contains_key(
            position_key(ns, wrap(head_of(c2, ns) + i)),
        ) by {
            lemma_keys_distinct(ns, wrap(h + i), p);
            assert(c.contains_key(position_key(ns, wrap(h + i))));
        }
        assert forall|q: int|
            0 <= q < positions() && wrap(q - head_of(c2, ns)) >= deque_len(c2, ns) implies !#[trigger] c2.contains_key(
            position_key(ns, q),
        ) by {
            lemma_keys_distinct(ns, q, p);
            if q != p {
                assert(wrap(q - h) >= n);
                assert(!c.contains_key(position_key(ns, q)));
            }
        }
        assert forall|i: int| 0 <= i < n - 1 implies #[trigger] deque_view(c2, ns)[i]
            == deque_view(c, ns).drop_last()[i] by {
            lemma_keys_distinct(ns, wrap(h + i), p);
        }
        assert(deque_view(c2, ns) =~= deque_view(c, ns).drop_last());
    }
}

proof fn lemma_meta_value_range(c: Map<Seq<u8>, Seq<u8>>, k: Seq<u8>)
    requires
        meta_value(c, k) is Some,
    ensures
        0 <= meta_value(c, k)->0 < positions(),
{
    if c.contains_key(k) {
        lemma_pow256_values();
        crate::int_key::lemma_be_value_bound(c[k]);
    }
}

/// A deque stores multiple items at the given key. It provides efficient FIFO and LIFO access.
pub struct Deque<'a> {
    // prefix of the deque items
    namespace: &'a [u8],
}

impl<'a> Deque<'a> {
    /// The namespace the deque's keys live under.
    pub closed spec fn namespace(&self) -> Seq<u8> {
        self.namespace@
    }

    pub fn new(prefix: &'a str) -> (r: Self)
        ensures
            r.namespace() == encode_utf8(prefix@),
    {
        Deque { namespace: prefix.as_bytes() }
    }

    fn full_key(&self, key: &[u8]) -> (r: Vec<u8>)
        requires
            self.namespace@.len() <= 0xFFFF,
        ensures
            r@ == namespaced_key(seq![self.namespace@], key@),
    {
        let mut names: Vec<&[u8]> = Vec::new();
        names.push(self.namespace);
        assert(crate::helpers::slices_view(names@) =~= seq![self.namespace@]);
        namespaces_with_key(names.as_slice(), key)
    }

    /// Reads a stored position: absent is 0, otherwise it must be 4 bytes.
    fn read_meta_key(&self, store: &MemoryStorage, key: &[u8]) -> (r: Result<u32, StorageError>)
        requires
            self.namespace@.len() <= 0xFFFF,
        ensures
            ({
                let k = namespaced_key(seq![self.namespace@], key@);
                let c = storage_contents(*store);
                &&& r is Ok <==> meta_value(c, k) is Some
                &&& r matches Ok(v) ==> v == meta_value(c, k)->0
                &&& r matches Err(e) ==> e == StorageError::ParseErr
            }),
    {
        let full_key = self.full_key(key);
        match storage_get(store, full_key.as_slice()) {
            Some(vec) => {
                if vec.len() == 4 {
                    let arr = crate::int_key::to_arr4(vec);
                    let v = u32::from_cw_bytes(arr);
                    Ok(v)
                } else {
                    Err(StorageError::ParseErr)
                }
            },
            None => Ok(0),
        }
    }

    fn set_meta_key(&self, store: &mut MemoryStorage, key: &[u8], value: u32)
        requires
            self.namespace@.len() <= 0xFFFF,
        ensures
            storage_contents(*final(store)) == storage_contents(*old(store)).insert(
                namespaced_key(seq![self.namespace@], key@),
                be_bytes(value as nat, 4),
            ),
    {
        let full_key = self.full_key(key);
        let bytes = value.to_cw_bytes();
        storage_set(store, full_key.as_slice(), bytes.as_slice());
    }

    /// Gets the head position from storage. Unless the deque is empty, this points to the
    /// first element.
    fn head(&self, store: &MemoryStorage) -> (r: Result<u32, StorageError>)
        requires
            self.namespace@.len() <= 0xFFFF,
        ensures
            r is Ok <==> meta_value(storage_contents(*store), head_key(self.namespace@)) is Some,
            r matches Ok(v) ==> v == head_of(storage_contents(*store), self.namespace@),
            r matches Err(e) ==> e == StorageError::ParseErr,
    {
        let key: [u8; 1] = [104u8];
        assert(key@ =~= seq![104u8]);
        self.read_meta_key(store, key.as_slice())
    }

    /// Gets the tail position from storage. This points to the first empty position after
    /// the last element.
    fn tail(&self, store: &MemoryStorage) -> (r: Result<u32, StorageError>)
        requires
            self.namespace@.len() <= 0xFFFF,
        ensures
            r is Ok <==> meta_value(storage_contents(*store), tail_key(self.namespace@)) is Some,
            r matches Ok(v) ==> v == tail_of(storage_contents(*store), self.namespace@),
            r matches Err(e) ==> e == StorageError::ParseErr,
    {
        let key: [u8; 1] = [116u8];
        assert(key@ =~= seq![116u8]);
        self.read_meta_key(store, key.as_slice())
    }

    fn set_head(&self, store: &mut MemoryStorage, value: u32)
        requires
            self.namespace@.len() <= 0xFFFF,
        ensures
            storage_contents(*final(store)) == storage_contents(*old(store)).insert(
                head_key(self.namespace@),
                be_bytes(value as nat, 4),
            ),
    {
        let key: [u8; 1] = [104u8];
        assert(key@ =~= seq![104u8]);
        self.set_meta_key(store, key.as_slice(), value)
    }

    fn set_tail(&self, store: &mut MemoryStorage, value: u32)
        requires
            self.namespace@.len() <= 0xFFFF,
        ensures
            storage_contents(*final(store)) == storage_contents(*old(store)).insert(
                tail_key(self.namespace@),
                be_bytes(value as nat, 4),
            ),
    {
        let key: [u8; 1] = [116u8];
        assert(key@ =~= seq![116u8]);
        self.set_meta_key(store, key.as_slice(), value)
    }

    fn position_full_key(&self, pos: u32) -> (r: Vec<u8>)
        requires
            self.namespace@.len() <= 0xFFFF,
        ensures
            r@ == position_key(self.namespace@, pos as int),
    {
        let bytes = pos.to_cw_bytes();
        self.full_key(bytes.as_slice())
    }

    /// Tries to get the value at the given position.
    fn get_unchecked(&self, store: &MemoryStorage, pos: u32) -> (r: Option<Vec<u8>>)
        requires
            self.namespace@.len() <= 0xFFFF,
        ensures
            r is Some <==> storage_contents(*store).contains_key(
                position_key(self.namespace@, pos as int),
            ),
            r matches Some(v) ==> v@ == storage_contents(*store)[position_key(
                self.namespace@,
                pos as int,
            )],
    {
        let key = self.position_full_key(pos);
        storage_get(store, key.as_slice())
    }

    /// Removes the value at the given position.
    fn remove_unchecked(&self, store: &mut MemoryStorage, pos: u32)
        requires
            self.namespace@.len() <= 0xFFFF,
        ensures
            storage_contents(*final(store)) == storage_contents(*old(store)).remove(
                position_key(self.namespace@, pos as int),
            ),
    {
        let key = self.position_full_key(pos);
        storage_remove(store, key.as_slice());
    }

    /// Sets the value at the given position.
    fn set_unchecked(&self, store: &mut MemoryStorage, pos: u32, value: &[u8])
        requires
            self.namespace@.len() <= 0xFFFF,
            value@.len() > 0,
        ensures
            storage_contents(*final(store)) == storage_contents(*old(store)).insert(
                position_key(self.namespace@, pos as int),
                value@,
            ),
    {
        let key = self.position_full_key(pos);
        storage_set(store, key.as_slice(), value);
    }

    /// Adds the given value to the end of the deque.
    pub fn push_back(&self, store: &mut MemoryStorage, value: &[u8]) -> (r: Result<
        (),
        StorageError,
    >)
        requires
            self.namespace().len() <= 0xFFFF,
            value@.len() > 0,
        ensures
            ({
                let ns = self.namespace();
                let c = storage_contents(*old(store));
                let t = tail_of(c, ns);
                &&& r is Ok <==> meta_value(c, tail_key(ns)) is Some
                &&& r is Err ==> storage_contents(*final(store)) == c
                &&& r is Ok ==> storage_contents(*final(store)) == c.insert(
                    position_key(ns, t),
                    value@,
                ).insert(tail_key(ns), be_bytes(wrap(t + 1) as nat, 4))
                &&& deque_wf(c, ns) && deque_len(c, ns) + 1 < positions() ==> {
                    &&& deque_wf(storage_contents(*final(store)), ns)
                    &&& deque_view(storage_contents(*final(store)), ns) == deque_view(c, ns).push(
                        value@,
                    )
                }
            }),
    {
        let ghost c = storage_contents(*store);
        // save value
        let pos = match self.tail(store) {
            Ok(p) => p,
            Err(e) => {
                return Err(e);
            },
        };
        self.set_unchecked(store, pos, value);
        // update tail
        self.set_tail(store, pos.wrapping_add(1));
        proof {
            lemma_meta_value_range(c, tail_key(self.namespace@));
            assert(pos.wrapping_add(1) == wrap(pos + 1));
            if deque_wf(c, self.namespace@) && deque_len(c, self.namespace@) + 1 < positions() {
                lemma_push_back(c, self.namespace@, value@);
            }
        }
        Ok(())
    }

    /// Adds the given value to the front of the deque.
    pub fn push_front(&self, store: &mut MemoryStorage, value: &[u8]) -> (r: Result<
        (),
        StorageError,
    >)
        requires
            self.namespace().len() <= 0xFFFF,
            value@.len() > 0,
        ensures
            ({
                let ns = self.namespace();
                let c = storage_contents(*old(store));
                let p = wrap(head_of(c, ns) - 1);
                &&& r is Ok <==> meta_value(c, head_key(ns)) is Some
                &&& r is Err ==> storage_contents(*final(store)) == c
                &&& r is Ok ==> storage_contents(*final(store)) == c.insert(
                    position_key(ns, p),
                    value@,
                ).insert(head_key(ns), be_bytes(p as nat, 4))
                &&& deque_wf(c, ns) && deque_len(c, ns) + 1 < positions() ==> {
                    &&& deque_wf(storage_contents(*final(store)), ns)
                    &&& deque_view(storage_contents(*final(store)), ns) == seq![value@]
                        + deque_view(c, ns)
                }
            }),
    {
        let ghost c = storage_contents(*store);
        // need to subtract first, because head potentially points to existing element
        let head = match self.head(store) {
            Ok(p) => p,
            Err(e) => {
                return Err(e);
            },
        };
        let pos = head.wrapping_sub(1);
        self.set_unchecked(store, pos, value);
        // update head
        self.set_head(store, pos);
        proof {
            lemma_meta_value_range(c, head_key(self.namespace@));
            assert(pos == wrap(head - 1));
            if deque_wf(c, self.namespace@) && deque_len(c, self.namespace@) + 1 < positions() {
                lemma_push_front(c, self.namespace@, value@);
            }
        }
        Ok(())
    }

    /// Removes the last element of the deque and returns it.
    pub fn pop_back(&self, store: &mut MemoryStorage) -> (r: Result<
        Option<Vec<u8>>,
        StorageError,
    >)
        requires
            self.namespace().len() <= 0xFFFF,
        ensures
            ({
                let ns = self.namespace();
                let c = storage_contents(*old(store));
                let p = wrap(tail_of(c, ns) - 1);
                &&& r is Ok <==> meta_value(c, tail_key(ns)) is Some
                &&& r is Err ==> storage_contents(*final(store)) == c
                &&& r matches Ok(o) ==> {
                    &&& (o is Some <==> c.contains_key(position_key(ns, p)))
                    &&& (o matches Some(v) ==> v@ == c[position_key(ns, p)])
                    &&& (o is Some ==> storage_contents(*final(store)) == c.remove(
                        position_key(ns, p),
                    ).insert(tail_key(ns), be_bytes(p as nat, 4)))
                    &&& (o is None ==> storage_contents(*final(store)) == c)
                }
                &&& deque_wf(c, ns) ==> {
                    &&& deque_wf(storage_contents(*final(store)), ns)
                    &&& (r matches Ok(o) && (o is Some <==> deque_view(c, ns).len() > 0))
                    &&& (r matches Ok(Some(v)) ==> v@ == deque_view(c, ns).last())
                    &&& deque_view(c, ns).len() > 0 ==> deque_view(storage_contents(*final(store)), ns)
                        == deque_view(c, ns).drop_last()
                }
            }),
    {
        let ghost c = storage_contents(*store);
        // get position
        let tail = match self.tail(store) {
            Ok(p) => p,
            Err(e) => {
                return Err(e);
            },
        };
        let pos = tail.wrapping_sub(1);
        let value = self.get_unchecked(store, pos);
        if value.is_some() {
            self.remove_unchecked(store, pos);
            // only update tail if a value was popped
            self.set_tail(store, pos);
        }
        proof {
            lemma_meta_value_range(c, tail_key(self.namespace@));
            assert(pos == wrap(tail - 1));
            if deque_wf(c, self.namespace@) {
                lemma_pop_back(c, self.namespace@);
            }
        }
        Ok(value)
    }

    /// Removes the first element of the deque and returns it.
    pub fn pop_front(&self, store: &mut MemoryStorage) -> (r: Result<
        Option<Vec<u8>>,
        StorageError,
    >)
        requires
            self.namespace().len() <= 0xFFFF,
        ensures
            ({
                let ns = self.namespace();
                let c = storage_contents(*old(store));
                let h = head_of(c, ns);
                &&& r is Ok <==> meta_value(c, head_key(ns)) is Some
                &&& r is Err ==> storage_contents(*final(store)) == c
                &&& r matches Ok(o) ==> {
                    &&& (o is Some <==> c.contains_key(position_key(ns, h)))
                    &&& (o matches Some(v) ==> v@ == c[position_key(ns, h)])
                    &&& (o is Some ==> storage_contents(*final(store)) == c.remove(
                        position_key(ns, h),
                    ).insert(head_key(ns), be_bytes(wrap(h + 1) as nat, 4)))
                    &&& (o is None ==> storage_contents(*final(store)) == c)
                }
                &&& deque_wf(c, ns) ==> {
                    &&& deque_wf(storage_contents(*final(store)), ns)
                    &&& (r matches Ok(o) && (o is Some <==> deque_view(c, ns).len() > 0))
                    &&& (r matches Ok(Some(v)) ==> v@ == deque_view(c, ns)[0])
                    &&& deque_view(c, ns).len() > 0 ==> deque_view(storage_contents(*final(store)), ns)
                        == deque_view(c, ns).drop_first()
                }
            }),
    {
        let ghost c = storage_contents(*store);
        // get position
        let pos = match self.head(store) {
            Ok(p) => p,
            Err(e) => {
                return Err(e);
            },
        };
        let value = self.get_unchecked(store, pos);
        if value.is_some() {
            self.remove_unchecked(store, pos);
            // only update head if a value was popped
            self.set_head(store, pos.wrapping_add(1));
        }
        proof {
            lemma_meta_value_range(c, head_key(self.namespace@));
            assert(pos.wrapping_add(1) == wrap(pos + 1));
            if deque_wf(c, self.namespace@) {
                lemma_pop_front(c, self.namespace@);
            }
        }
        Ok(value)
    }

    /// Returns the first element of the deque without removing it.
    pub fn front(&self, store: &MemoryStorage) -> (r: Result<Option<Vec<u8>>, StorageError>)
        requires
            self.namespace().len() <= 0xFFFF,
        ensures
            ({
                let ns = self.namespace();
                let c = storage_contents(*store);
                let k = position_key(ns, head_of(c, ns));
                &&& r is Ok <==> meta_value(c, head_key(ns)) is Some
                &&& r matches Ok(o) ==> (o is Some <==> c.contains_key(k)) && (o matches Some(v)
                    ==> v@ == c[k])
                &&& deque_wf(c, ns) ==> (r matches Ok(o) && (o is Some <==> deque_view(c, ns).len()
                    > 0) && (o matches Some(v) ==> v@ == deque_view(c, ns)[0]))
            }),
    {
        let pos = match self.head(store) {
            Ok(p) => p,
            Err(e) => {
                return Err(e);
            },
        };
        let r = self.get_unchecked(store, pos);
        proof {
            let c = storage_contents(*store);
            if deque_wf(c, self.namespace@) {
                lemma_pop_front(c, self.namespace@);
            }
        }
        Ok(r)
    }

    /// Returns the last element of the deque without removing it.
    pub fn back(&self, store: &MemoryStorage) -> (r: Result<Option<Vec<u8>>, StorageError>)
        requires
            self.namespace().len() <= 0xFFFF,
        ensures
            ({
                let ns = self.namespace();
                let c = storage_contents(*store);
                let k = position_key(ns, wrap(tail_of(c, ns) - 1));
                &&& r is Ok <==> meta_value(c, tail_key(ns)) is Some
                &&& r matches Ok(o) ==> (o is Some <==> c.contains_key(k)) && (o matches Some(v)
                    ==> v@ == c[k])
                &&& deque_wf(c, ns) ==> (r matches Ok(o) && (o is Some <==> deque_view(c, ns).len()
                    > 0) && (o matches Some(v) ==> v@ == deque_view(c, ns).last()))
            }),
    {
        let tail = match self.tail(store) {
            Ok(p) => p,
            Err(e) => {
                return Err(e);
            },
        };
        let pos = tail.wrapping_sub(1);
        let r = self.get_unchecked(store, pos);
        proof {
            let c = storage_contents(*store);
            lemma_meta_value_range(c, tail_key(self.namespace@));
            assert(pos == wrap(tail - 1));
            if deque_wf(c, self.namespace@) {
                lemma_pop_back(c, self.namespace@);
            }
        }
        Ok(r)
    }

    /// Gets the length of the deque.
    pub fn len(&self, store: &MemoryStorage) -> (r: Result<u32, StorageError>)
        requires
            self.namespace().len() <= 0xFFFF,
        ensures
            ({
                let ns = self.namespace();
                let c = storage_contents(*store);
                &&& r is Ok <==> meta_readable(c, ns)
                &&& r matches Ok(n) ==> n == deque_len(c, ns)
                &&& deque_wf(c, ns) ==> (r matches Ok(n) && n == deque_view(c, ns).len())
            }),
    {
        let tail = match self.tail(store) {
            Ok(p) => p,
            Err(e) => {
                return Err(e);
            },
        };
        let head = match self.head(store) {
            Ok(p) => p,
            Err(e) => {
                return Err(e);
            },
        };
        proof {
            let c = storage_contents(*store);
            lemma_meta_value_range(c, tail_key(self.namespace@));
            lemma_meta_value_range(c, head_key(self.namespace@));
        }
        Ok(tail.wrapping_sub(head))
    }

    /// Returns `true` if the deque contains no elements.
    pub fn is_empty(&self, store: &MemoryStorage) -> (r: Result<bool, StorageError>)
        requires
            self.namespace().len() <= 0xFFFF,
        ensures
            ({
                let ns = self.namespace();
                let c = storage_contents(*store);
                &&& r is Ok <==> meta_readable(c, ns)
                &&& r matches Ok(b) ==> (b <==> deque_len(c, ns) == 0)
            }),
    {
        match self.len(store) {
            Ok(n) => Ok(n == 0),
            Err(e) => Err(e),
        }
    }
}


/// The elements at the positions from `start` up to, not including, `end`.
pub open spec fn window_view(c: Map<Seq<u8>, Seq<u8>>, ns: Seq<u8>, start: int, end: int) -> Seq<
    Seq<u8>,
> {
    Seq::new(wrap(end - start) as nat, |i: int| c[position_key(ns, wrap(start + i))])
}

/// Every position from `start` up to, not including, `end` holds an element.
pub open spec fn window_filled(c: Map<Seq<u8>, Seq<u8>>, ns: Seq<u8>, start: int, end: int) -> bool {
    forall|i: int|
        0 <= i < wrap(end - start) ==> #[trigger] c.contains_key(position_key(ns, wrap(start + i)))
}

/// A double-ended walk over the positions of a deque.
pub struct DequeIter<'a> {
    deque: &'a Deque<'a>,
    storage: &'a MemoryStorage,
    start: u32,
    end: u32,
}

impl<'a> DequeIter<'a> {
    /// The next position from the front.
    pub closed spec fn start(&self) -> int {
        self.start as int
    }

    /// The position after the last one from the back.
    pub closed spec fn end(&self) -> int {
        self.end as int
    }

    /// The namespace of the walked deque.
    pub closed spec fn namespace(&self) -> Seq<u8> {
        self.deque.namespace@
    }

    /// The entries of the walked storage.
    pub closed spec fn contents(&self) -> Map<Seq<u8>, Seq<u8>> {
        storage_contents(*self.storage)
    }

    /// The elements still to be walked.
    pub open spec fn remaining(&self) -> Seq<Seq<u8>> {
        window_view(self.contents(), self.namespace(), self.start(), self.end())
    }

    pub open spec fn well_formed(&self) -> bool {
        &&& self.namespace().len() <= 0xFFFF
        &&& 0 <= self.start() < positions()
        &&& 0 <= self.end() < positions()
    }

    fn item_at(&self, pos: u32) -> (r: Result<Vec<u8>, StorageError>)
        requires
            self.well_formed(),
        ensures
            r is Ok <==> self.contents().contains_key(position_key(self.namespace(), pos as int)),
            r matches Ok(v) ==> v@ == self.contents()[position_key(self.namespace(), pos as int)],
            r matches Err(e) ==> e == StorageError::NotFound,
    {
        match self.deque.get_unchecked(self.storage, pos) {
            Some(v) => Ok(v),
            None => Err(StorageError::NotFound),
        }
    }

    pub fn next(&mut self) -> (r: Option<Result<Vec<u8>, StorageError>>)
        requires
            old(self).well_formed(),
        ensures
            final(self).well_formed(),
            final(self).namespace() == old(self).namespace(),
            final(self).contents() == old(self).contents(),
            final(self).end() == old(self).end(),
            old(self).start() == old(self).end() ==> r is None && final(self).start() == old(self).start(),
            old(self).start() != old(self).end() ==> {
                let k = position_key(old(self).namespace(), old(self).start());
                &&& final(self).start() == wrap(old(self).start() + 1)
                &&& r matches Some(item) && (item is Ok <==> old(self).contents().contains_key(k))
                &&& (r matches Some(Ok(v)) ==> v@ == old(self).contents()[k])
            },
            old(self).start() != old(self).end() ==> final(self).remaining()
                == old(self).remaining().drop_first() && old(self).remaining().len() > 0
                && (r matches Some(Ok(v)) ==> v@ == old(self).remaining()[0]),
    {
        if self.start == self.end {
            return None;
        }
        let ghost old_remaining = self.remaining();
        let item = self.item_at(self.start);
        self.start = self.start.wrapping_add(1);
        proof {
            let s = old(self).start();
            let e = self.end();
            assert(wrap(e - s) > 0);
            assert(wrap(s + 0) == s);
            assert(wrap(e - self.start()) == wrap(e - s) - 1);
            assert forall|i: int| 0 <= i < wrap(e - s) - 1 implies #[trigger] self.remaining()[i]
                == old_remaining.drop_first()[i] by {
                assert(wrap(self.start() + i) == wrap(s + (i + 1)));
            }
            assert(self.remaining() =~= old_remaining.drop_first());
        }
        Some(item)
    }

    pub fn next_back(&mut self) -> (r: Option<Result<Vec<u8>, StorageError>>)
        requires
            old(self).well_formed(),
        ensures
            final(self).well_formed(),
            final(self).namespace() == old(self).namespace(),
            final(self).contents() == old(self).contents(),
            final(self).start() == old(self).start(),
            old(self).start() == old(self).end() ==> r is None && final(self).end() == old(self).end(),
            old(self).start() != old(self).end() ==> {
                let k = position_key(old(self).namespace(), wrap(old(self).end() - 1));
                &&& final(self).end() == wrap(old(self).end() - 1)
                &&& r matches Some(item) && (item is Ok <==> old(self).contents().contains_key(k))
                &&& (r matches Some(Ok(v)) ==> v@ == old(self).contents()[k])
            },
            old(self).start() != old(self).end() ==> final(self).remaining()
                == old(self).remaining().drop_last() && old(self).remaining().len() > 0
                && (r matches Some(Ok(v)) ==> v@ == old(self).remaining().last()),
    {
        if self.start == self.end {
            return None;
        }
        let ghost old_remaining = self.remaining();
        // end points to position after last element
        let pos = self.end.wrapping_sub(1);
        let item = self.item_at(pos);
        self.end = pos;
        proof {
            let s = self.start();
            let e = old(self).end();
            assert(wrap(e - s) > 0);
            assert(wrap(e - self.end()) == 1);
            assert(wrap(self.end() - s) == wrap(e - s) - 1);
            assert(wrap(s + (wrap(e - s) - 1)) == self.end());
            assert(self.remaining() =~= old_remaining.drop_last());
        }
        Some(item)
    }

    /// Skips `n` elements from the front (all remaining ones if there are fewer; `n` is
    /// taken modulo 2^32), then returns the next one.
    pub fn nth(&mut self, n: usize) -> (r: Option<Result<Vec<u8>, StorageError>>)
        requires
            old(self).well_formed(),
        ensures
            final(self).well_formed(),
            final(self).namespace() == old(self).namespace(),
            final(self).contents() == old(self).contents(),
            final(self).end() == old(self).end(),
            ({
                let m = (n as int) % positions();
                let len = wrap(old(self).end() - old(self).start());
                &&& len < m ==> r is None && final(self).start() == old(self).end()
                &&& m <= len < positions() ==> (r is None <==> m == len)
                &&& m < len ==> {
                    &&& final(self).start() == wrap(old(self).start() + m + 1)
                    &&& (r matches Some(Ok(v)) ==> v@ == old(self).remaining()[m])
                    &&& final(self).remaining() == old(self).remaining().skip(m + 1)
                }
            }),
    {
        let ghost old_remaining = self.remaining();
        let m: u32 = (n as u64 % 0x1_0000_0000u64) as u32;
        // make sure that we don't skip past the end
        if self.end.wrapping_sub(self.start) < m {
            // mark as empty
            self.start = self.end;
        } else {
            self.start = self.start.wrapping_add(m);
        }
        let ghost mid_remaining = self.remaining();
        proof {
            let s = old(self).start();
            let e = self.end();
            if wrap(e - s) >= m {
                assert(self.start() == wrap(s + m));
                assert(wrap(e - self.start()) == wrap(e - s) - m);
                assert forall|i: int| 0 <= i < wrap(e - s) - m implies #[trigger] mid_remaining[i]
                    == old_remaining.skip(m as int)[i] by {
                    assert(wrap(self.start() + i) == wrap(s + (m + i)));
                }
                assert(mid_remaining =~= old_remaining.skip(m as int));
            }
        }
        let r = self.next();
        proof {
            let s = old(self).start();
            let e = self.end();
            if wrap(e - s) > m {
                assert(self.remaining() =~= old_remaining.skip(m + 1));
                assert(wrap(wrap(s + m) + 1) == wrap(s + m + 1));
            }
        }
        r
    }

    /// Skips `n` elements from the back (all remaining ones if there are fewer; `n` is
    /// taken modulo 2^32), then returns the next one from the back.
    pub fn nth_back(&mut self, n: usize) -> (r: Option<Result<Vec<u8>, StorageError>>)
        requires
            old(self).well_formed(),
        ensures
            final(self).well_formed(),
            final(self).namespace() == old(self).namespace(),
            final(self).contents() == old(self).contents(),
            final(self).start() == old(self).start(),
            ({
                let m = (n as int) % positions();
                let len = wrap(old(self).end() - old(self).start());
                &&& len < m ==> r is None && final(self).end() == old(self).start()
                &&& m <= len ==> (r is None <==> m == len)
                &&& m < len ==> {
                    &&& final(self).end() == wrap(old(self).end() - m - 1)
                    &&& (r matches Some(Ok(v)) ==> v@ == old(self).remaining()[len - 1 - m])
                    &&& final(self).remaining() == old(self).remaining().take(len - m - 1)
                }
            }),
    {
        let ghost old_remaining = self.remaining();
        let m: u32 = (n as u64 % 0x1_0000_0000u64) as u32;
        // make sure that we don't skip past the start
        if self.end.wrapping_sub(self.start) < m {
            // mark as empty
            self.end = self.start;
        } else {
            self.end = self.end.wrapping_sub(m);
        }
        let ghost mid_remaining = self.remaining();
        proof {
            let s = self.start();
            let e = old(self).end();
            if wrap(e - s) >= m {
                assert(self.end() == wrap(e - m));
                assert(wrap(self.end() - s) == wrap(e - s) - m);
                assert(mid_remaining =~= old_remaining.take(wrap(e - s) - m));
            }
        }
        let r = self.next_back();
        proof {
            let s = self.start();
            let e = old(self).end();
            if wrap(e - s) > m {
                assert(self.remaining() =~= old_remaining.take(wrap(e - s) - m - 1));
                assert(wrap(wrap(e - m) - 1) == wrap(e - m - 1));
            }
        }
        r
    }

    /// The number of elements still to be walked, exactly.
    pub fn size_hint(&self) -> (r: (usize, Option<usize>))
        requires
            self.well_formed(),
        ensures
            r.0 == wrap(self.end() - self.start()),
            r.1 == Some(r.0),
    {
        let len = self.end.wrapping_sub(self.start) as usize;
        (len, Some(len))
    }
}

impl<'a> Deque<'a> {
    /// A walk over the elements of the deque, front to back or back to front.
    pub fn iter(&'a self, store: &'a MemoryStorage) -> (r: Result<DequeIter<'a>, StorageError>)
        requires
            self.namespace().len() <= 0xFFFF,
        ensures
            ({
                let ns = self.namespace();
                let c = storage_contents(*store);
                &&& r is Ok <==> meta_readable(c, ns)
                &&& r matches Ok(it) ==> {
                    &&& it.well_formed()
                    &&& it.namespace() == ns
                    &&& it.contents() == c
                    &&& it.start() == head_of(c, ns)
                    &&& it.end() == tail_of(c, ns)
                }
                &&& deque_wf(c, ns) ==> (r matches Ok(it) && it.remaining() == deque_view(c, ns))
            }),
    {
        let start = match self.head(store) {
            Ok(p) => p,
            Err(e) => {
                return Err(e);
            },
        };
        let end = match self.tail(store) {
            Ok(p) => p,
            Err(e) => {
                return Err(e);
            },
        };
        proof {
            lemma_meta_value_range(storage_contents(*store), head_key(self.namespace@));
            lemma_meta_value_range(storage_contents(*store), tail_key(self.namespace@));
        }
        let it = DequeIter { deque: self, storage: store, start, end };
        assert(it.remaining() =~= deque_view(storage_contents(*store), self.namespace@));
        Ok(it)
    }
}

} // verus!
