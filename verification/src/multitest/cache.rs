//! A write cache over a store: the writes a step makes are held back and reach the store
//! only when the step succeeded.
use crate::multitest::wasm::{data_view, events_view, reply_for, AppResponse, Reply, ReplyOn};
use crate::snapshot::current_at;
use crate::storage::{storage_contents, storage_get, storage_remove, storage_set};
use cosmwasm_std::MemoryStorage;
use vstd::prelude::*;

verus! {

/// One held-back write, as bytes: a value set at a key, or the key removed.
pub open spec fn write_view(w: (Vec<u8>, Option<Vec<u8>>)) -> (Seq<u8>, Option<Seq<u8>>) {
    (
        w.0@,
        match w.1 {
            Some(v) => Some(v@),
            None => None,
        },
    )
}

/// The contents after one write.
pub open spec fn apply_write(c: Map<Seq<u8>, Seq<u8>>, w: (Seq<u8>, Option<Seq<u8>>)) -> Map<
    Seq<u8>,
    Seq<u8>,
> {
    match w.1 {
        Some(v) => c.insert(w.0, v),
        None => c.remove(w.0),
    }
}

/// The contents after the writes, made in order.
pub open spec fn apply_writes(c: Map<Seq<u8>, Seq<u8>>, ws: Seq<(Seq<u8>, Option<Seq<u8>>)>) -> Map<
    Seq<u8>,
    Seq<u8>,
>
    decreases ws.len(),
{
    if ws.len() == 0 {
        c
    } else {
        apply_write(apply_writes(c, ws.drop_last()), ws.last())
    }
}

/// What a key reads through the writes: the last write to it, else the store.
pub open spec fn read_through(
    c: Map<Seq<u8>, Seq<u8>>,
    ws: Seq<(Seq<u8>, Option<Seq<u8>>)>,
    k: Seq<u8>,
) -> Option<Seq<u8>>
    decreases ws.len(),
{
    if ws.len() == 0 {
        current_at(c, k)
    } else if ws.last().0 == k {
        ws.last().1
    } else {
        read_through(c, ws.drop_last(), k)
    }
}

/// Committing the writes makes the store read every key as it read through the cache.
pub proof fn lemma_commit_reads_as_cache(
    c: Map<Seq<u8>, Seq<u8>>,
    ws: Seq<(Seq<u8>, Option<Seq<u8>>)>,
    k: Seq<u8>,
)
    ensures
        current_at(apply_writes(c, ws), k) == read_through(c, ws, k),
    decreases ws.len(),
{
    if ws.len() > 0 {
        lemma_commit_reads_as_cache(c, ws.drop_last(), k);
    }
}

/// Writes held back from a store, in the order they were made.
pub struct WriteCache {
    writes: Vec<(Vec<u8>, Option<Vec<u8>>)>,
}

impl WriteCache {
    /// The held-back writes, in order.
    pub closed spec fn writes(&self) -> Seq<(Seq<u8>, Option<Seq<u8>>)> {
        self.writes@.map_values(|w: (Vec<u8>, Option<Vec<u8>>)| write_view(w))
    }

    /// Every value set is not empty, as the store accepts no empty value.
    pub open spec fn wf(&self) -> bool {
        forall|i: int|
            0 <= i < self.writes().len() ==> (#[trigger] self.writes()[i].1 matches Some(v)
                ==> v.len() > 0)
    }

    pub fn new() -> (r: Self)
        ensures
            r.wf(),
            r.writes() == Seq::<(Seq<u8>, Option<Seq<u8>>)>::empty(),
    {
        let r = WriteCache { writes: Vec::new() };
        assert(r.writes() =~= Seq::<(Seq<u8>, Option<Seq<u8>>)>::empty());
        r
    }

    /// Holds back setting the key to the value.
    pub fn set(&mut self, key: &[u8], value: &[u8])
        requires
            old(self).wf(),
            value@.len() > 0,
        ensures
            final(self).wf(),
            final(self).writes() == old(self).writes().push((key@, Some(value@))),
    {
        let mut k: Vec<u8> = Vec::new();
        k.extend_from_slice(key);
        let mut v: Vec<u8> = Vec::new();
        v.extend_from_slice(value);
        assert(k@ =~= key@);
        assert(v@ =~= value@);
        let ghost before = self.writes@;
        self.writes.push((k, Some(v)));
        assert(self.writes@ == before.push((k, Some(v))));
        assert(write_view(self.writes@.last()) == (key@, Some(value@)));
        assert(self.writes() =~= old(self).writes().push((key@, Some(value@))));
    }

    /// Holds back removing the key.
    pub fn remove(&mut self, key: &[u8])
        requires
            old(self).wf(),
        ensures
            final(self).wf(),
            final(self).writes() == old(self).writes().push((key@, None)),
    {
        let mut k: Vec<u8> = Vec::new();
        k.extend_from_slice(key);
        assert(k@ =~= key@);
        let ghost before = self.writes@;
        self.writes.push((k, None));
        assert(self.writes@ == before.push((k, None)));
        assert(write_view(self.writes@.last()) == (key@, None::<Seq<u8>>));
        assert(self.writes() =~= old(self).writes().push((key@, None)));
    }

    /// Reads a key through the cache: its last held-back write, else the store.
    pub fn get(&self, store: &MemoryStorage, key: &[u8]) -> (r: Option<Vec<u8>>)
        ensures
            crate::snapshot::opt_bytes(r) == read_through(
                storage_contents(*store),
                self.writes(),
                key@,
            ),
    {
        let ghost ws = self.writes();
        let mut j: usize = self.writes.len();
        assert(ws.take(j as int) =~= ws);
        while j > 0
            invariant
                j <= self.writes@.len(),
                ws == self.writes(),
                read_through(storage_contents(*store), ws, key@) == read_through(
                    storage_contents(*store),
                    ws.take(j as int),
                    key@,
                ),
            decreases j,
        {
            let (k, v) = &self.writes[j - 1];
            assert(ws.take(j as int).last() == write_view(self.writes@[j - 1]));
            assert(ws.take(j as int).drop_last() =~= ws.take(j - 1));
            if same_bytes(k.as_slice(), key) {
                return match v {
                    Some(v) => {
                        let mut c: Vec<u8> = Vec::new();
                        c.extend_from_slice(v.as_slice());
                        Some(c)
                    },
                    None => None,
                };
            }
            j = j - 1;
        }
        assert(ws.take(0) =~= Seq::<(Seq<u8>, Option<Seq<u8>>)>::empty());
        storage_get(store, key)
    }

    /// Makes the held-back writes, in order, on the store.
    pub fn commit(&self, store: &mut MemoryStorage)
        requires
            self.wf(),
        ensures
            storage_contents(*final(store)) == apply_writes(
                storage_contents(*old(store)),
                self.writes(),
            ),
    {
        let ghost c0 = storage_contents(*store);
        let ghost ws = self.writes();
        let mut i: usize = 0;
        while i < self.writes.len()
            invariant
                i <= self.writes@.len(),
                ws == self.writes(),
                self.wf(),
                storage_contents(*store) == apply_writes(c0, ws.take(i as int)),
            decreases self.writes@.len() - i,
        {
            let (k, v) = &self.writes[i];
            assert(ws[i as int] == write_view(self.writes@[i as int]));
            assert(ws.take(i + 1).drop_last() =~= ws.take(i as int));
            assert(ws.take(i + 1).last() == ws[i as int]);
            match v {
                Some(v) => {
                    assert(ws[i as int].1 matches Some(x) ==> x.len() > 0);
                    storage_set(store, k.as_slice(), v.as_slice());
                },
                None => storage_remove(store, k.as_slice()),
            }
            i = i + 1;
        }
        assert(ws.take(self.writes@.len() as int) =~= ws);
    }
}

/// The bytes are equal.
fn same_bytes(a: &[u8], b: &[u8]) -> (r: bool)
    ensures
        r == (a@ == b@),
{
    if a.len() != b.len() {
        return false;
    }
    let mut i: usize = 0;
    while i < a.len()
        invariant
            a@.len() == b@.len(),
            i <= a@.len(),
            forall|j: int| 0 <= j < i ==> a@[j] == b@[j],
        decreases a@.len() - i,
    {
        if a[i] != b[i] {
            return false;
        }
        i = i + 1;
    }
    assert(a@ =~= b@);
    true
}

/// Settles a sub-message that ran on a write cache: its writes reach the store when it
/// succeeded and are dropped when it failed; the reply that its sender asked for (if any)
/// is what is dispatched next.
pub fn settle_submsg(
    store: &mut MemoryStorage,
    cache: &WriteCache,
    id: u64,
    reply_on: ReplyOn,
    result: &Result<AppResponse, String>,
) -> (r: Option<Reply>)
    requires
        cache.wf(),
    ensures
        result is Ok ==> storage_contents(*final(store)) == apply_writes(
            storage_contents(*old(store)),
            cache.writes(),
        ),
        result is Err ==> storage_contents(*final(store)) == storage_contents(*old(store)),
        r is Some <==> match reply_on {
            ReplyOn::Always => true,
            ReplyOn::Success => result is Ok,
            ReplyOn::Error => result is Err,
            ReplyOn::Never => false,
        },
        r matches Some(rep) ==> rep.id == id && (rep.result is Ok <==> result is Ok) && (
        rep.result matches Ok(a) ==> result matches Ok(b) && events_view(a.events@)
            == events_view(b.events@) && data_view(a.data) == data_view(b.data)) && (
        rep.result matches Err(e) ==> result matches Err(f) && e@ == f@),
{
    if result.is_ok() {
        cache.commit(store);
    }
    reply_for(id, reply_on, result)
}

/// The error of the first failed step among `steps`, if one failed.
pub open spec fn first_failure(steps: Seq<Result<AppResponse, String>>) -> Option<String>
    decreases steps.len(),
{
    if steps.len() == 0 {
        None
    } else if steps[0] is Err {
        Some(steps[0]->Err_0)
    } else {
        first_failure(steps.drop_first())
    }
}

/// Settles a batch of messages that ran in order on one write cache, all or nothing: when
/// every message succeeded, the writes reach the store and the answers come back in
/// order; when one failed, the writes are dropped and the first failure is the answer.
pub fn settle_batch(
    store: &mut MemoryStorage,
    cache: &WriteCache,
    results: Vec<Result<AppResponse, String>>,
) -> (r: Result<Vec<AppResponse>, String>)
    requires
        cache.wf(),
    ensures
        r is Ok <==> first_failure(results@) is None,
        r matches Err(e) ==> first_failure(results@) == Some(e),
        r matches Ok(v) ==> v@.len() == results@.len() && forall|j: int|
            0 <= j < v@.len() ==> results@[j] == Ok::<AppResponse, String>(#[trigger] v@[j]),
        r is Ok ==> storage_contents(*final(store)) == apply_writes(
            storage_contents(*old(store)),
            cache.writes(),
        ),
        r is Err ==> storage_contents(*final(store)) == storage_contents(*old(store)),
{
    let ghost steps = results@;
    assert(steps.len() == results.len());
    assert(steps.subrange(0, steps.len() as int) =~= steps);
    let mut rest = results;
    let mut out: Vec<AppResponse> = Vec::new();
    let mut i: usize = 0;
    while rest.len() > 0
        invariant
            i <= steps.len(),
            steps.len() <= usize::MAX,
            steps == results@,
            rest@ == steps.subrange(i as int, steps.len() as int),
            out@.len() == i,
            forall|j: int| 0 <= j < i ==> steps[j] == Ok::<AppResponse, String>(#[trigger] out@[j]),
            first_failure(steps) == first_failure(steps.subrange(i as int, steps.len() as int)),
            storage_contents(*store) == storage_contents(*old(store)),
        decreases rest.len(),
    {
        let ghost tail = steps.subrange(i as int, steps.len() as int);
        assert(tail[0] == steps[i as int]);
        assert(tail.drop_first() =~= steps.subrange(i + 1, steps.len() as int));
        let step = rest.remove(0);
        assert(rest@ =~= steps.subrange(i + 1, steps.len() as int));
        match step {
            Ok(a) => {
                out.push(a);
                i = i + 1;
            },
            Err(e) => {
                assert(tail[0] is Err);
                assert(first_failure(tail) == Some(e));
                return Err(e);
            },
        }
    }
    assert(steps.subrange(i as int, steps.len() as int).len() == 0);
    cache.commit(store);
    Ok(out)
}

} // verus!
