//! A first-in first-out queue kept in storage.
//!
//! It uses the same layout as the deque: pushing appends at the tail, popping takes the
//! element at the head.
use crate::deque::{
    deque_len, deque_view, deque_wf, head_key, head_of, meta_readable, meta_value, position_key,
    positions, tail_key, tail_of, wrap, Deque, DequeIter,
};
use crate::int_key::be_bytes;
use crate::storage::{storage_contents, StorageError};
use cosmwasm_std::MemoryStorage;
use vstd::prelude::*;
use vstd::utf8::encode_utf8;

verus! {

/// A queue stores multiple items at the given key. It provides efficient FIFO access.
pub struct Queue<'a> {
    // the storage layout it shares with the deque
    deque: Deque<'a>,
}

impl<'a> Queue<'a> {
    /// The namespace the queue's keys live under.
    pub closed spec fn namespace(&self) -> Seq<u8> {
        self.deque.namespace()
    }

    pub fn new(prefix: &'a str) -> (r: Self)
        ensures
            r.namespace() == encode_utf8(prefix@),
    {
        Queue { deque: Deque::new(prefix) }
    }

    /// Adds the given value to the end of the queue.
    pub fn push(&self, store: &mut MemoryStorage, value: &[u8]) -> (r: Result<(), StorageError>)
        requires
            self.namespace().len() <= 0xFFFF,
            value@.len() > 0,
        ensures
            ({
                let ns = self.namespace();
                let c = storage_contents(*old(store));
                let t = tail_of(c, ns);
                &&& r is Ok <==> meta_value(c, tail_key(ns)) is Some
                &&& r is Err ==> storage_contents(*final(store)) == c
                &&& r is Ok ==> storage_contents(*final(store)) == c.insert(
                    position_key(ns, t),
                    value@,
                ).insert(tail_key(ns), be_bytes(wrap(t + 1) as nat, 4))
                &&& deque_wf(c, ns) && deque_len(c, ns) + 1 < positions() ==> {
                    &&& deque_wf(storage_contents(*final(store)), ns)
                    &&& deque_view(storage_contents(*final(store)), ns) == deque_view(c, ns).push(
                        value@,
                    )
                }
            }),
    {
        self.deque.push_back(store, value)
    }

    /// Removes the first item of the queue and returns it.
    pub fn pop(&self, store: &mut MemoryStorage) -> (r: Result<Option<Vec<u8>>, StorageError>)
        requires
            self.namespace().len() <= 0xFFFF,
        ensures
            ({
                let ns = self.namespace();
                let c = storage_contents(*old(store));
                let h = head_of(c, ns);
                &&& r is Ok <==> meta_value(c, head_key(ns)) is Some
                &&& r is Err ==> storage_contents(*final(store)) == c
                &&& r matches Ok(o) ==> {
                    &&& (o is Some <==> c.contains_key(position_key(ns, h)))
                    &&& (o matches Some(v) ==> v@ == c[position_key(ns, h)])
                    &&& (o is Some ==> storage_contents(*final(store)) == c.remove(
                        position_key(ns, h),
                    ).insert(head_key(ns), be_bytes(wrap(h + 1) as nat, 4)))
                    &&& (o is None ==> storage_contents(*final(store)) == c)
                }
                &&& deque_wf(c, ns) ==> {
                    &&& deque_wf(storage_contents(*final(store)), ns)
                    &&& (r matches Ok(o) && (o is Some <==> deque_view(c, ns).len() > 0))
                    &&& (r matches Ok(Some(v)) ==> v@ == deque_view(c, ns)[0])
                    &&& deque_view(c, ns).len() > 0 ==> deque_view(storage_contents(*final(store)), ns)
                        == deque_view(c, ns).drop_first()
                }
            }),
    {
        self.deque.pop_front(store)
    }

    /// Gets the length of the queue.
    pub fn len(&self, store: &MemoryStorage) -> (r: Result<u32, StorageError>)
        requires
            self.namespace().len() <= 0xFFFF,
        ensures
            ({
                let ns = self.namespace();
                let c = storage_contents(*store);
                &&& r is Ok <==> meta_readable(c, ns)
                &&& r matches Ok(n) ==> n == deque_len(c, ns)
                &&& deque_wf(c, ns) ==> (r matches Ok(n) && n == deque_view(c, ns).len())
            }),
    {
        self.deque.len(store)
    }

    /// Returns `true` if the queue contains no elements.
    pub fn is_empty(&self, store: &MemoryStorage) -> (r: Result<bool, StorageError>)
        requires
            self.namespace().len() <= 0xFFFF,
        ensures
            ({
                let ns = self.namespace();
                let c = storage_contents(*store);
                &&& r is Ok <==> meta_readable(c, ns)
                &&& r matches Ok(b) ==> (b <==> deque_len(c, ns) == 0)
            }),
    {
        self.deque.is_empty(store)
    }

    /// An iterator over the items of the queue, from the first to the last.
    pub fn iter(&'a self, store: &'a MemoryStorage) -> (r: Result<QueueIter<'a>, StorageError>)
        requires
            self.namespace().len() <= 0xFFFF,
        ensures
            ({
                let ns = self.namespace();
                let c = storage_contents(*store);
                &&& r is Ok <==> meta_readable(c, ns)
                &&& r matches Ok(it) ==> {
                    &&& it.well_formed()
                    &&& it.namespace() == ns
                    &&& it.contents() == c
                    &&& it.start() == head_of(c, ns)
                    &&& it.end() == tail_of(c, ns)
                }
                &&& deque_wf(c, ns) ==> (r matches Ok(it) && it.remaining() == deque_view(c, ns))
            }),
    {
        self.deque.iter(store)
    }
}

/// The iterator over a queue walks it as the deque's iterator does.
pub type QueueIter<'a> = DequeIter<'a>;

} // verus!
