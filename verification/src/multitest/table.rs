//! A small keyed table: a list of entries with distinct keys, viewed as a map.
use vstd::prelude::*;

verus! {

/// Keys of a table: compared by their views.
pub trait TableKey: Sized {
    type KeyView;

    spec fn key_view(&self) -> Self::KeyView;

    fn same_key(&self, other: &Self) -> (r: bool)
        ensures
            r == (self.key_view() == other.key_view()),
    ;

    fn copy_key(&self) -> (r: Self)
        ensures
            r.key_view() == self.key_view(),
    ;
}

impl TableKey for String {
    type KeyView = Seq<char>;

    open spec fn key_view(&self) -> Seq<char> {
        self@
    }

    fn same_key(&self, other: &Self) -> (r: bool) {
        *self == *other
    }

    fn copy_key(&self) -> (r: Self) {
        self.clone()
    }
}

impl TableKey for (String, String) {
    type KeyView = (Seq<char>, Seq<char>);

    open spec fn key_view(&self) -> (Seq<char>, Seq<char>) {
        (self.0@, self.1@)
    }

    fn same_key(&self, other: &Self) -> (r: bool) {
        self.0 == other.0 && self.1 == other.1
    }

    fn copy_key(&self) -> (r: Self) {
        (self.0.clone(), self.1.clone())
    }
}

/// Entries with pairwise distinct keys.
pub struct Table<K, V> {
    entries: Vec<(K, V)>,
}

impl<K: TableKey, V> Table<K, V> {
    /// The entries, in the order they are kept.
    pub closed spec fn entries(&self) -> Seq<(K, V)> {
        self.entries@
    }

    /// No two entries share a key.
    pub closed spec fn wf(&self) -> bool {
        forall|i: int, j: int|
            0 <= i < j < self.entries@.len() ==> #[trigger] self.entries@[i].0.key_view()
                != #[trigger] self.entries@[j].0.key_view()
    }

    /// The table as a map from key views to values.
    pub closed spec fn view(&self) -> Map<K::KeyView, V> {
        Map::new(
            |k: K::KeyView| exists|i: int| 0 <= i < self.entries@.len() && self.entries@[i].0.key_view() == k,
            |k: K::KeyView|
                self.entries@[choose|i: int|
                    0 <= i < self.entries@.len() && self.entries@[i].0.key_view() == k].1,
        )
    }

    pub fn new() -> (r: Self)
        ensures
            r.wf(),
            r.view() == Map::<K::KeyView, V>::empty(),
    {
        let r = Table { entries: Vec::new() };
        assert(r.view() =~= Map::<K::KeyView, V>::empty());
        r
    }

    /// A table with no entries has no entries at all.
    pub proof fn lemma_entries_of_empty(&self)
        requires
            self.view() == Map::<K::KeyView, V>::empty(),
        ensures
            self.entries().len() == 0,
    {
        if self.entries@.len() > 0 {
            assert(self.view().contains_key(self.entries@[0].0.key_view()));
        }
    }

    pub fn len(&self) -> (r: usize)
        requires
            self.wf(),
        ensures
            r == self.view().len(),
            r == self.entries().len(),
    {
        proof {
            self.lemma_len();
        }
        self.entries.len()
    }

    proof fn lemma_len(&self)
        requires
            self.wf(),
        ensures
            self.view().dom().finite(),
            self.view().len() == self.entries@.len(),
        decreases self.entries@.len(),
    {
        let n = self.entries@.len();
        let keys = Seq::new(n, |i: int| self.entries@[i].0.key_view());
        assert forall|k: K::KeyView| #[trigger] self.view().dom().contains(k) == keys.to_set().contains(k) by {
            if keys.contains(k) {
                let i = choose|i: int| 0 <= i < keys.len() && keys[i] == k;
                assert(self.entries@[i].0.key_view() == k);
            }
            if self.view().dom().contains(k) {
                let i = choose|i: int| 0 <= i < n && self.entries@[i].0.key_view() == k;
                assert(keys[i] == k);
            }
        }
        assert(self.view().dom() =~= keys.to_set());
        assert(keys.no_duplicates());
        keys.unique_seq_to_set();
    }

    /// The entry at `i` holds the value of its key.
    pub proof fn lemma_entry(&self, i: int)
        requires
            self.wf(),
            0 <= i < self.entries().len(),
        ensures
            self.view().contains_key(self.entries()[i].0.key_view()),
            self.view()[self.entries()[i].0.key_view()] == self.entries()[i].1,
    {
        let k = self.entries@[i].0.key_view();
        let j = choose|j: int| 0 <= j < self.entries@.len() && self.entries@[j].0.key_view() == k;
        assert(j == i);
    }

    /// A key of the table has an entry, and the table holds that entry's value.
    pub proof fn lemma_key_entry(&self, k: K::KeyView) -> (i: int)
        requires
            self.wf(),
            self.view().contains_key(k),
        ensures
            0 <= i < self.entries().len(),
            self.entries()[i].0.key_view() == k,
            self.view()[k] == self.entries()[i].1,
    {
        let i = choose|i: int| 0 <= i < self.entries@.len() && self.entries@[i].0.key_view() == k;
        self.lemma_entry(i);
        i
    }

    /// The position of the entry for `k`, if there is one.
    pub fn find(&self, k: &K) -> (r: Option<usize>)
        requires
            self.wf(),
        ensures
            r is None <==> !self.view().contains_key(k.key_view()),
            r matches Some(i) ==> i < self.entries().len() && self.entries()[i as int].0.key_view()
                == k.key_view() && self.view()[k.key_view()] == self.entries()[i as int].1,
    {
        let mut i: usize = 0;
        while i < self.entries.len()
            invariant
                self.wf(),
                i <= self.entries@.len(),
                forall|j: int| 0 <= j < i ==> self.entries@[j].0.key_view() != k.key_view(),
            decreases self.entries@.len() - i,
        {
            if self.entries[i].0.same_key(k) {
                proof {
                    self.lemma_entry(i as int);
                }
                return Some(i);
            }
            i = i + 1;
        }
        None
    }

    pub fn get(&self, k: &K) -> (r: Option<&V>)
        requires
            self.wf(),
        ensures
            r is None <==> !self.view().contains_key(k.key_view()),
            r matches Some(v) ==> *v == self.view()[k.key_view()],
    {
        match self.find(k) {
            Some(i) => Some(&self.entries[i].1),
            None => None,
        }
    }

    /// The entry at position `i`.
    pub fn entry(&self, i: usize) -> (r: &(K, V))
        requires
            i < self.entries().len(),
        ensures
            *r == self.entries()[i as int],
    {
        &self.entries[i]
    }

    /// Sets the value of `k`, adding an entry if there is none.
    pub fn set(&mut self, k: K, v: V)
        requires
            old(self).wf(),
        ensures
            final(self).wf(),
            final(self).view() == old(self).view().insert(k.key_view(), v),
            !old(self).view().contains_key(k.key_view()) ==> final(self).entries() == old(self).entries().push((k, v)),
    {
        let ghost kv = k.key_view();
        let ghost old_view = self.view();
        match self.find(&k) {
            Some(i) => {
                let ghost before = self.entries@;
                self.entries.set(i, (k, v));
                proof {
                    assert(self.entries@ == before.update(i as int, (k, v)));
                    assert forall|a: int, b: int|
                        0 <= a < b < self.entries@.len() implies #[trigger] self.entries@[a].0.key_view()
                        != #[trigger] self.entries@[b].0.key_view() by {
                        assert(before[a].0.key_view() != before[b].0.key_view());
                    }
                    assert forall|key: K::KeyView| #[trigger]
                        self.view().contains_key(key) == old_view.insert(kv, v).contains_key(key) by {
                        if exists|a: int| 0 <= a < before.len() && before[a].0.key_view() == key {
                            let a = choose|a: int| 0 <= a < before.len() && before[a].0.key_view() == key;
                            if a == i {
                                assert(self.entries@[a].0.key_view() == key);
                            } else {
                                assert(self.entries@[a].0.key_view() == key);
                            }
                        }
                        if exists|a: int| 0 <= a < self.entries@.len() && self.entries@[a].0.key_view() == key {
                            let a = choose|a: int| 0 <= a < self.entries@.len() && self.entries@[a].0.key_view() == key;
                            if a != i {
                                assert(before[a].0.key_view() == key);
                            }
                        }
                    }
                    assert forall|key: K::KeyView| #[trigger] self.view().contains_key(key) implies self.view()[key]
                        == old_view.insert(kv, v)[key] by {
                        let a = choose|a: int| 0 <= a < self.entries@.len() && self.entries@[a].0.key_view() == key;
                        self.lemma_entry(a);
                        if a != i {
                            assert(before[a] == self.entries@[a]);
                            assert(before[a].0.key_view() == key);
                            let b = choose|b: int| 0 <= b < before.len() && before[b].0.key_view() == key;
                            assert(b == a);
                        }
                    }
                    assert(self.view() =~= old_view.insert(kv, v));
                }
            },
            None => {
                let ghost before = self.entries@;
                self.entries.push((k, v));
                proof {
                    assert(self.entries@ == before.push((k, v)));
                    let n = before.len() as int;
                    assert forall|a: int, b: int|
                        0 <= a < b < self.entries@.len() implies #[trigger] self.entries@[a].0.key_view()
                        != #[trigger] self.entries@[b].0.key_view() by {
                        if b == n {
                            assert(!old_view.contains_key(kv));
                            assert(self.entries@[a] == before[a]);
                        } else {
                            assert(before[a].0.key_view() != before[b].0.key_view());
                        }
                    }
                    assert forall|key: K::KeyView| #[trigger]
                        self.view().contains_key(key) == old_view.insert(kv, v).contains_key(key) by {
                        if exists|a: int| 0 <= a < before.len() && before[a].0.key_view() == key {
                            let a = choose|a: int| 0 <= a < before.len() && before[a].0.key_view() == key;
                            assert(self.entries@[a].0.key_view() == key);
                        }
                        if key == kv {
                            assert(self.entries@[n].0.key_view() == key);
                        }
                        if exists|a: int| 0 <= a < self.entries@.len() && self.entries@[a].0.key_view() == key {
                            let a = choose|a: int| 0 <= a < self.entries@.len() && self.entries@[a].0.key_view() == key;
                            if a < n {
                                assert(before[a].0.key_view() == key);
                            }
                        }
                    }
                    assert forall|key: K::KeyView| #[trigger] self.view().contains_key(key) implies self.view()[key]
                        == old_view.insert(kv, v)[key] by {
                        let a = choose|a: int| 0 <= a < self.entries@.len() && self.entries@[a].0.key_view() == key;
                        self.lemma_entry(a);
                        if a < n {
                            assert(before[a] == self.entries@[a]);
                            let b = choose|b: int| 0 <= b < before.len() && before[b].0.key_view() == key;
                            assert(b == a);
                        }
                    }
                    assert(self.view() =~= old_view.insert(kv, v));
                }
            },
        }
    }

    /// Removes the entry of `k`, if there is one.
    pub fn remove(&mut self, k: &K)
        requires
            old(self).wf(),
        ensures
            final(self).wf(),
            final(self).view() == old(self).view().remove(k.key_view()),
    {
        let ghost kv = k.key_view();
        let ghost old_view = self.view();
        match self.find(k) {
            Some(i) => {
                let ghost before = self.entries@;
                self.entries.remove(i);
                proof {
                    assert(self.entries@ == before.remove(i as int));
                    assert forall|a: int, b: int|
                        0 <= a < b < self.entries@.len() implies #[trigger] self.entries@[a].0.key_view()
                        != #[trigger] self.entries@[b].0.key_view() by {
                        let a0 = if a < i { a } else { a + 1 };
                        let b0 = if b < i { b } else { b + 1 };
                        assert(self.entries@[a] == before[a0]);
                        assert(self.entries@[b] == before[b0]);
                        assert(before[a0].0.key_view() != before[b0].0.key_view());
                    }
                    assert forall|key: K::KeyView| #[trigger]
                        self.view().contains_key(key) == old_view.remove(kv).contains_key(key) by {
                        if exists|a: int| 0 <= a < before.len() && before[a].0.key_view() == key {
                            let a = choose|a: int| 0 <= a < before.len() && before[a].0.key_view() == key;
                            if a < i {
                                assert(self.entries@[a].0.key_view() == key);
                            } else if a > i {
                                assert(self.entries@[a - 1].0.key_view() == key);
                            }
                        }
                        if exists|a: int| 0 <= a < self.entries@.len() && self.entries@[a].0.key_view() == key {
                            let a = choose|a: int| 0 <= a < self.entries@.len() && self.entries@[a].0.key_view() == key;
                            let a0 = if a < i { a } else { a + 1 };
                            assert(before[a0].0.key_view() == key);
                            assert(a0 != i);
                        }
                    }
                    assert forall|key: K::KeyView| #[trigger] self.view().contains_key(key) implies self.view()[key]
                        == old_view.remove(kv)[key] by {
                        let a = choose|a: int| 0 <= a < self.entries@.len() && self.entries@[a].0.key_view() == key;
                        self.lemma_entry(a);
                        let a0 = if a < i { a } else { a + 1 };
                        assert(before[a0] == self.entries@[a]);
                        let b = choose|b: int| 0 <= b < before.len() && before[b].0.key_view() == key;
                        assert(b == a0);
                    }
                    assert(self.view() =~= old_view.remove(kv));
                }
            },
            None => {
                assert(self.view() =~= old_view.remove(kv));
            },
        }
    }
}

} // verus!
