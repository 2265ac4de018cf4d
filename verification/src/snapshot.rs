//! Containers that remember the values they held at checkpointed heights.
use crate::helpers::{all_encodable, namespaced_key};
use crate::int_key::{cw_bytes_of, CwIntKey};
use crate::item::Item;
use crate::keys::{Prefixer, PrimaryKey, UniformKey};
use crate::map::StorageMap;
use crate::path::{path_encodable, path_key, Path};
use crate::bound::{byte_bound, opt_raw_ok, opt_raw_spec, Bound as TypedBound};
use crate::de::{KeyDeserialize, KeyError};
use crate::helpers::is_prefix_of;
use crate::prefix::{
    decodable_keys, decoded_entries, is_prefix_range, is_range_between, keys_view, opt_prefix_bound, outputs_view,
    prefix_end_as_bound, prefix_start_as_bound, range_ok_between, Bound, Prefix, PrefixBound,
};
use crate::storage::entries_view;
use crate::storage::{storage_contents, Order, StorageError};
use cosmwasm_std::MemoryStorage;
use vstd::prelude::*;
use vstd::utf8::encode_utf8;

verus! {

/// The decimal digits of a number, as ASCII bytes: the form in which checkpoint counts
/// are stored.
pub open spec fn digits_of(n: nat) -> Seq<u8>
    decreases n,
{
    if n < 10 {
        seq![(48 + n) as u8]
    } else {
        digits_of(n / 10).push((48 + n % 10) as u8)
    }
}

/// The byte is an ASCII digit.
pub open spec fn is_digit(b: u8) -> bool {
    48 <= b <= 57
}

/// The number that ASCII digits denote.
pub open spec fn digits_value(b: Seq<u8>) -> nat
    decreases b.len(),
{
    if b.len() == 0 {
        0
    } else {
        digits_value(b.drop_last()) * 10 + (b.last() - 48) as nat
    }
}

/// The bytes are a number in plain decimal: digits only, at least one, and no leading zero.
pub open spec fn is_number_text(b: Seq<u8>) -> bool {
    &&& b.len() > 0
    &&& forall|i: int| 0 <= i < b.len() ==> is_digit(#[trigger] b[i])
    &&& (b.len() == 1 || b[0] != 48)
}

/// The count that stored bytes hold, if they hold one that fits in a `u32`.
pub open spec fn count_of(b: Seq<u8>) -> Option<u32> {
    if is_number_text(b) && digits_value(b) <= u32::MAX {
        Some(digits_value(b) as u32)
    } else {
        None
    }
}

/// The stored form of a change: the value before it, or `null` where there was none,
/// inside `{"old":` and `}`.
pub open spec fn changeset_bytes(old: Option<Seq<u8>>) -> Seq<u8> {
    seq![123u8, 34u8, 111u8, 108u8, 100u8, 34u8, 58u8] + match old {
        Some(v) => v,
        None => seq![110u8, 117u8, 108u8, 108u8],
    } + seq![125u8]
}

/// The value before a change that stored bytes record, if they have the stored form of a
/// change (`Some(None)`: there was no value).
pub open spec fn changeset_of(b: Seq<u8>) -> Option<Option<Seq<u8>>> {
    if b.len() >= 9 && b.subrange(0, 7) == seq![123u8, 34u8, 111u8, 108u8, 100u8, 34u8, 58u8]
        && b.last() == 125 {
        let inner = b.subrange(7, b.len() - 1);
        if inner == seq![110u8, 117u8, 108u8, 108u8] {
            Some(None)
        } else {
            Some(Some(inner))
        }
    } else {
        None
    }
}

proof fn lemma_digits_of(n: nat)
    ensures
        is_number_text(digits_of(n)),
        digits_value(digits_of(n)) == n,
        digits_of(n).len() <= n + 1,
    decreases n,
{
    let d = digits_of(n);
    if n < 10 {
        assert(d == seq![(48 + n) as u8]);
        assert(d.drop_last() =~= Seq::<u8>::empty());
        assert(digits_value(d.drop_last()) == 0);
        assert(((48 + n) as u8) as int == 48 + n);
        assert(d.last() == (48 + n) as u8);
        assert(is_digit(d[0]));
        assert(digits_value(d) == n);
    } else {
        lemma_digits_of(n / 10);
        let p = digits_of(n / 10);
        let c = (48 + n % 10) as u8;
        assert(c as int == 48 + n % 10);
        assert(d == p.push(c));
        assert(d.drop_last() =~= p);
        assert(d.last() == c);
        assert(d[0] == p[0]);
        assert forall|i: int| 0 <= i < d.len() implies is_digit(#[trigger] d[i]) by {
            if i < p.len() {
                assert(d[i] == p[i]);
            }
        }
        assert(n == (n / 10) * 10 + n % 10);
        assert(digits_value(d) == digits_value(p) * 10 + (c - 48) as nat);
        assert(p.len() == 1 ==> p[0] != 48) by {
            if p.len() == 1 && p[0] == 48 {
                assert(digits_value(p) == digits_value(p.drop_last()) * 10 + (p.last() - 48) as nat);
                assert(p.drop_last() =~= Seq::<u8>::empty());
            }
        }
    }
}

/// Reading back the stored form of a count gives the count.
pub proof fn lemma_count_roundtrip(n: u32)
    ensures
        count_of(digits_of(n as nat)) == Some(n),
{
    lemma_digits_of(n as nat);
}

/// Reading back the stored form of a change gives the value before it, for every value
/// that is not the text `null` itself.
pub proof fn lemma_changeset_roundtrip(old: Option<Seq<u8>>)
    requires
        old matches Some(v) ==> v.len() > 0 && v != seq![110u8, 117u8, 108u8, 108u8],
    ensures
        changeset_of(changeset_bytes(old)) == Some(old),
{
    let b = changeset_bytes(old);
    let open = seq![123u8, 34u8, 111u8, 108u8, 100u8, 34u8, 58u8];
    let inner = match old {
        Some(v) => v,
        None => seq![110u8, 117u8, 108u8, 108u8],
    };
    assert(b.subrange(0, 7) =~= open);
    assert(b.subrange(7, b.len() - 1) =~= inner);
}

proof fn lemma_digits_value_prefix(b: Seq<u8>, i: int)
    requires
        0 <= i <= b.len(),
        forall|j: int| 0 <= j < b.len() ==> is_digit(#[trigger] b[j]),
    ensures
        digits_value(b.subrange(0, i)) <= digits_value(b),
    decreases b.len(),
{
    if i < b.len() {
        let c = b.drop_last();
        assert forall|j: int| 0 <= j < c.len() implies is_digit(#[trigger] c[j]) by {
            assert(c[j] == b[j]);
        }
        lemma_digits_value_prefix(c, i);
        assert(c.subrange(0, i) =~= b.subrange(0, i));
    } else {
        assert(b.subrange(0, i) =~= b);
    }
}

/// The stored form of a count.
pub fn count_text(n: u32) -> (r: Vec<u8>)
    ensures
        r@ == digits_of(n as nat),
    decreases n,
{
    if n < 10 {
        let mut v: Vec<u8> = Vec::new();
        v.push((48 + n) as u8);
        assert(v@ =~= digits_of(n as nat));
        v
    } else {
        let mut v = count_text(n / 10);
        v.push((48 + n % 10) as u8);
        v
    }
}

/// Reads a stored count.
pub fn parse_count(b: &[u8]) -> (r: Option<u32>)
    ensures
        r == count_of(b@),
{
    if b.len() == 0 {
        return None;
    }
    let mut i: usize = 0;
    while i < b.len()
        invariant
            i <= b@.len(),
            forall|j: int| 0 <= j < i ==> is_digit(#[trigger] b@[j]),
        decreases b@.len() - i,
    {
        if b[i] < 48 || b[i] > 57 {
            assert(!is_digit(b@[i as int]));
            return None;
        }
        i = i + 1;
    }
    if b.len() > 1 && b[0] == 48 {
        return None;
    }
    let mut acc: u64 = 0;
    i = 0;
    while i < b.len()
        invariant
            i <= b@.len(),
            forall|j: int| 0 <= j < b@.len() ==> is_digit(#[trigger] b@[j]),
            acc == digits_value(b@.subrange(0, i as int)),
            acc <= u32::MAX,
        decreases b@.len() - i,
    {
        assert(b@.subrange(0, i + 1).drop_last() =~= b@.subrange(0, i as int));
        assert(is_digit(b@[i as int]));
        acc = acc * 10 + (b[i] - 48) as u64;
        i = i + 1;
        if acc > 0xFFFF_FFFF {
            proof {
                lemma_digits_value_prefix(b@, i as int);
            }
            return None;
        }
    }
    assert(b@.subrange(0, b@.len() as int) =~= b@);
    Some(acc as u32)
}

/// The number that stored bytes hold, if they hold one that fits in a `u64`.
pub open spec fn u64_of(b: Seq<u8>) -> Option<u64> {
    if is_number_text(b) && digits_value(b) <= u64::MAX {
        Some(digits_value(b) as u64)
    } else {
        None
    }
}

/// Reads a stored number.
pub fn parse_u64(b: &[u8]) -> (r: Option<u64>)
    ensures
        r == u64_of(b@),
{
    if b.len() == 0 {
        return None;
    }
    let mut i: usize = 0;
    while i < b.len()
        invariant
            i <= b@.len(),
            forall|j: int| 0 <= j < i ==> is_digit(#[trigger] b@[j]),
        decreases b@.len() - i,
    {
        if b[i] < 48 || b[i] > 57 {
            assert(!is_digit(b@[i as int]));
            return None;
        }
        i = i + 1;
    }
    if b.len() > 1 && b[0] == 48 {
        return None;
    }
    let mut acc: u128 = 0;
    i = 0;
    while i < b.len()
        invariant
            i <= b@.len(),
            forall|j: int| 0 <= j < b@.len() ==> is_digit(#[trigger] b@[j]),
            acc == digits_value(b@.subrange(0, i as int)),
            acc <= u64::MAX,
        decreases b@.len() - i,
    {
        assert(b@.subrange(0, i + 1).drop_last() =~= b@.subrange(0, i as int));
        assert(is_digit(b@[i as int]));
        acc = acc * 10 + (b[i] - 48) as u128;
        i = i + 1;
        if acc > 0xFFFF_FFFF_FFFF_FFFF {
            proof {
                lemma_digits_value_prefix(b@, i as int);
            }
            return None;
        }
    }
    assert(b@.subrange(0, b@.len() as int) =~= b@);
    Some(acc as u64)
}

/// The stored form of a change.
pub fn changeset_encode(old: Option<&[u8]>) -> (r: Vec<u8>)
    ensures
        r@ == changeset_bytes(
            match old {
                Some(v) => Some(v@),
                None => None,
            },
        ),
{
    let mut out: Vec<u8> = vec![123u8, 34u8, 111u8, 108u8, 100u8, 34u8, 58u8];
    match old {
        Some(v) => out.extend_from_slice(v),
        None => {
            out.push(110u8);
            out.push(117u8);
            out.push(108u8);
            out.push(108u8);
        },
    }
    out.push(125u8);
    assert(out@ =~= changeset_bytes(
        match old {
            Some(v) => Some(v@),
            None => None,
        },
    ));
    out
}

/// The view of an optional value.
pub open spec fn opt_bytes(o: Option<Vec<u8>>) -> Option<Seq<u8>> {
    match o {
        Some(v) => Some(v@),
        None => None,
    }
}

/// Reads a stored change: the value before it.
pub fn changeset_decode(b: &[u8]) -> (r: Option<Option<Vec<u8>>>)
    ensures
        r is Some <==> changeset_of(b@) is Some,
        r matches Some(o) ==> Some(opt_bytes(o)) == changeset_of(b@),
{
    let open: [u8; 7] = [123u8, 34u8, 111u8, 108u8, 100u8, 34u8, 58u8];
    let ghost o = seq![123u8, 34u8, 111u8, 108u8, 100u8, 34u8, 58u8];
    assert(open@ =~= o);
    let n = b.len();
    if n < 9 || b[n - 1] != 125 {
        return None;
    }
    let mut i: usize = 0;
    while i < 7
        invariant
            i <= 7,
            n == b@.len(),
            n >= 9,
            open@ == o,
            o == seq![123u8, 34u8, 111u8, 108u8, 100u8, 34u8, 58u8],
            forall|j: int| 0 <= j < i ==> b@[j] == o[j],
        decreases 7 - i,
    {
        if b[i] != open[i] {
            assert(b@.subrange(0, 7)[i as int] != o[i as int]);
            return None;
        }
        i = i + 1;
    }
    assert(b@.subrange(0, 7) =~= seq![123u8, 34u8, 111u8, 108u8, 100u8, 34u8, 58u8]);
    let mut inner: Vec<u8> = Vec::new();
    let mut j: usize = 7;
    while j < n - 1
        invariant
            7 <= j <= n - 1,
            n == b@.len(),
            inner@ == b@.subrange(7, j as int),
        decreases n - 1 - j,
    {
        inner.push(b[j]);
        assert(inner@ =~= b@.subrange(7, j + 1));
        j = j + 1;
    }
    if inner.len() == 4 && inner[0] == 110 && inner[1] == 117 && inner[2] == 108 && inner[3] == 108 {
        assert(inner@ =~= seq![110u8, 117u8, 108u8, 108u8]);
        Some(None)
    } else {
        assert(inner@ != seq![110u8, 117u8, 108u8, 108u8]);
        Some(Some(inner))
    }
}

/// How aggressive we are about checkpointing all data.
#[derive(Clone, Copy, PartialEq, Eq, Debug, Structural)]
pub enum Strategy {
    EveryBlock,
    Never,
    /// Only writes for linked blocks - does a few more reads to save some writes.
    /// Probably uses more gas, but less total disk usage.
    ///
    /// Note that you need a trusted source (eg. own contract) to set/remove checkpoints.
    /// Useful when the checkpoint setting happens in the same contract as the snapshotting.
    Selected,
}

/// The count of checkpoints stored at a key: zero when nothing is stored, `None` when the
/// stored bytes are not a count.
pub open spec fn stored_count(contents: Map<Seq<u8>, Seq<u8>>, key: Seq<u8>) -> Option<u32> {
    if contents.contains_key(key) {
        count_of(contents[key])
    } else {
        Some(0)
    }
}

/// What `may_load_at_height` finds in the changelog of a key from a height on: the first
/// change at or after the height tells the value before it; no change means the current
/// value still holds.
pub open spec fn first_change_outcome(
    changes: Seq<(Seq<u8>, Seq<u8>)>,
    r: Result<Option<Option<Vec<u8>>>, StorageError>,
) -> bool {
    &&& changes.len() == 0 ==> r == Ok::<Option<Option<Vec<u8>>>, StorageError>(None)
    &&& changes.len() > 0 && changeset_of(changes[0].1) is None ==> r == Err::<
        Option<Option<Vec<u8>>>,
        StorageError,
    >(StorageError::ParseErr)
    &&& changes.len() > 0 && changeset_of(changes[0].1) is Some ==> (r matches Ok(Some(o))
        && Some(opt_bytes(o)) == changeset_of(changes[0].1))
}

/// The checkpoints and the changelog of a snapshotted container.
pub struct Snapshot<'a, K> {
    checkpoints: StorageMap<'a, u64>,
    // this stores all changes (key, height). Must differentiate between no data written,
    // and explicit None (just inserted)
    pub changelog: StorageMap<'a, (K, u64)>,
    // How aggressive we are about checkpointing all data
    strategy: Strategy,
}

impl<'a, K: PrimaryKey + Prefixer> Snapshot<'a, K> {
    /// The namespace of the checkpoint counts.
    pub closed spec fn checkpoints_namespace(&self) -> Seq<u8> {
        self.checkpoints.namespace()
    }

    /// The namespace of the changelog.
    pub closed spec fn changelog_namespace(&self) -> Seq<u8> {
        self.changelog.namespace()
    }

    /// The checkpointing strategy.
    pub closed spec fn strategy(&self) -> Strategy {
        self.strategy
    }

    /// The namespaces fit and the key's parts can be written.
    pub open spec fn ok_for(&self, k: K) -> bool {
        &&& self.checkpoints_namespace().len() <= 0xFFFF
        &&& self.changelog_namespace().len() <= 0xFFFF
        &&& all_encodable(k.key_spec())
        &&& all_encodable(k.prefix_spec())
    }

    /// The first part of `k` is shorter than 65535 bytes, so the changes of `k` are read
    /// under a prefix that does not run to the end of the byte order.
    pub open spec fn first_part_short(&self, k: K) -> bool {
        &&& k.key_spec().len() > 0
        &&& k.key_spec()[0].len() < 0xFFFF
    }

    /// Where the count of checkpoints at a height is stored.
    pub open spec fn checkpoint_key(&self, height: u64) -> Seq<u8> {
        path_key(self.checkpoints_namespace(), seq![cw_bytes_of(height)])
    }

    /// The bytes every checkpoint key starts with.
    pub open spec fn checkpoints_root(&self) -> Seq<u8> {
        namespaced_key(seq![self.checkpoints_namespace()], Seq::empty())
    }

    /// Where the change of a key at a height is stored.
    pub open spec fn change_key(&self, k: K, height: u64) -> Seq<u8> {
        path_key(self.changelog_namespace(), k.key_spec() + seq![cw_bytes_of(height)])
    }

    /// The bytes every change key of a key starts with.
    pub open spec fn change_prefix(&self, k: K) -> Seq<u8> {
        namespaced_key(seq![self.changelog_namespace()] + k.prefix_spec(), Seq::empty())
    }

    /// Every range of the changes of `k` from some height on can be collected.
    pub open spec fn changes_ok(&self, contents: Map<Seq<u8>, Seq<u8>>, k: K) -> bool {
        forall|h: Seq<u8>|
            #[trigger] range_ok_between(contents, self.change_prefix(k), Some((h, true)), None)
    }

    /// What `assert_checkpointed` answers: the strategy decides, and `Selected` asks for a
    /// checkpoint stored at the height.
    pub open spec fn checkpointed(&self, contents: Map<Seq<u8>, Seq<u8>>, height: u64) -> Result<
        (),
        StorageError,
    > {
        match self.strategy() {
            Strategy::EveryBlock => Ok(()),
            Strategy::Never => Err(StorageError::NotFound),
            Strategy::Selected => if !contents.contains_key(self.checkpoint_key(height)) {
                Err(StorageError::NotFound)
            } else if count_of(contents[self.checkpoint_key(height)]) is None {
                Err(StorageError::ParseErr)
            } else {
                Ok(())
            },
        }
    }

    /// What `should_checkpoint` decides for `Selected`: yes when there is a checkpoint
    /// and no change of the key logged at or after the latest one.
    pub open spec fn selected_decision(
        &self,
        contents: Map<Seq<u8>, Seq<u8>>,
        k: K,
        r: Result<bool, StorageError>,
    ) -> bool {
        exists|cps: Seq<(Seq<u8>, Seq<u8>)>|
            {
                &&& is_range_between(
                    contents,
                    self.checkpoints_root(),
                    None,
                    None,
                    Order::Descending,
                    cps,
                )
                &&& cps.len() == 0 ==> r == Ok::<bool, StorageError>(false)
                &&& cps.len() > 0 && count_of(cps[0].1) is None ==> r == Err::<
                    bool,
                    StorageError,
                >(StorageError::ParseErr)
                &&& cps.len() > 0 && count_of(cps[0].1) is Some ==> exists|
                    chs: Seq<(Seq<u8>, Seq<u8>)>,
                |
                    {
                        &&& is_range_between(
                            contents,
                            self.change_prefix(k),
                            Some((cps[0].0, true)),
                            None,
                            Order::Ascending,
                            chs,
                        )
                        &&& chs.len() == 0 ==> r == Ok::<bool, StorageError>(true)
                        &&& chs.len() > 0 && changeset_of(chs[0].1) is None ==> r == Err::<
                            bool,
                            StorageError,
                        >(StorageError::ParseErr)
                        &&& chs.len() > 0 && changeset_of(chs[0].1) is Some ==> r == Ok::<
                            bool,
                            StorageError,
                        >(false)
                    }
            }
    }

    /// What `should_checkpoint` decides under the strategy.
    pub open spec fn decision(
        &self,
        contents: Map<Seq<u8>, Seq<u8>>,
        k: K,
        r: Result<bool, StorageError>,
    ) -> bool {
        match self.strategy() {
            Strategy::EveryBlock => r == Ok::<bool, StorageError>(true),
            Strategy::Never => r == Ok::<bool, StorageError>(false),
            Strategy::Selected => self.selected_decision(contents, k, r),
        }
    }

    /// The contents after the change of `k` at the height is logged, given where the
    /// current value is stored: a change already logged at the height stays (unless it
    /// cannot be read), else the current value (or its absence) is logged.
    pub open spec fn logged(
        &self,
        contents: Map<Seq<u8>, Seq<u8>>,
        k: K,
        height: u64,
        current: Seq<u8>,
    ) -> Result<Map<Seq<u8>, Seq<u8>>, StorageError> {
        let ck = self.change_key(k, height);
        if contents.contains_key(ck) {
            if changeset_of(contents[ck]) is Some {
                Ok(contents)
            } else {
                Err(StorageError::ParseErr)
            }
        } else {
            Ok(
                contents.insert(
                    ck,
                    changeset_bytes(
                        if contents.contains_key(current) {
                            Some(contents[current])
                        } else {
                            None
                        },
                    ),
                ),
            )
        }
    }

    /// The contents after a write of `k` at the height has logged what it must, given the
    /// decision whether to checkpoint.
    pub open spec fn written(
        &self,
        contents: Map<Seq<u8>, Seq<u8>>,
        k: K,
        height: u64,
        current: Seq<u8>,
        d: Result<bool, StorageError>,
    ) -> Result<Map<Seq<u8>, Seq<u8>>, StorageError> {
        match d {
            Err(e) => Err(e),
            Ok(false) => Ok(contents),
            Ok(true) => self.logged(contents, k, height, current),
        }
    }

    pub fn new(checkpoints: &'a str, changelog: &'a str, strategy: Strategy) -> (r: Self)
        ensures
            r.checkpoints_namespace() == encode_utf8(checkpoints@),
            r.changelog_namespace() == encode_utf8(changelog@),
            r.strategy() == strategy,
    {
        Snapshot {
            checkpoints: StorageMap::new(checkpoints),
            changelog: StorageMap::new(changelog),
            strategy,
        }
    }

    /// Counts one more checkpoint at the height.
    pub fn add_checkpoint(&self, store: &mut MemoryStorage, height: u64) -> (r: Result<
        (),
        StorageError,
    >)
        requires
            self.checkpoints_namespace().len() <= 0xFFFF,
            stored_count(storage_contents(*old(store)), self.checkpoint_key(height)) matches Some(
                n,
            ) ==> n < u32::MAX,
        ensures
            match stored_count(storage_contents(*old(store)), self.checkpoint_key(height)) {
                None => r == Err::<(), StorageError>(StorageError::ParseErr) && storage_contents(
                    *final(store),
                ) == storage_contents(*old(store)),
                Some(n) => r == Ok::<(), StorageError>(()) && storage_contents(*final(store))
                    == storage_contents(*old(store)).insert(
                    self.checkpoint_key(height),
                    digits_of((n + 1) as nat),
                ),
            },
    {
        let count: u32 = match self.checkpoints.may_load(store, height) {
            None => 0,
            Some(b) => match parse_count(b.as_slice()) {
                None => {
                    return Err(StorageError::ParseErr);
                },
                Some(n) => n,
            },
        };
        let t = count_text(count + 1);
        proof {
            lemma_digits_of((count + 1) as nat);
        }
        self.checkpoints.save(store, height, t.as_slice());
        Ok(())
    }

    /// Counts one checkpoint less at the height; the last one leaves no count behind.
    pub fn remove_checkpoint(&self, store: &mut MemoryStorage, height: u64) -> (r: Result<
        (),
        StorageError,
    >)
        requires
            self.checkpoints_namespace().len() <= 0xFFFF,
        ensures
            match stored_count(storage_contents(*old(store)), self.checkpoint_key(height)) {
                None => r == Err::<(), StorageError>(StorageError::ParseErr) && storage_contents(
                    *final(store),
                ) == storage_contents(*old(store)),
                Some(n) => r == Ok::<(), StorageError>(()) && (if n <= 1 {
                    storage_contents(*final(store)) == storage_contents(*old(store)).remove(
                        self.checkpoint_key(height),
                    )
                } else {
                    storage_contents(*final(store)) == storage_contents(*old(store)).insert(
                        self.checkpoint_key(height),
                        digits_of((n - 1) as nat),
                    )
                }),
            },
    {
        let count: u32 = match self.checkpoints.may_load(store, height) {
            None => 0,
            Some(b) => match parse_count(b.as_slice()) {
                None => {
                    return Err(StorageError::ParseErr);
                },
                Some(n) => n,
            },
        };
        if count <= 1 {
            self.checkpoints.remove(store, height);
            Ok(())
        } else {
            let t = count_text(count - 1);
            proof {
                lemma_digits_of((count - 1) as nat);
            }
            self.checkpoints.save(store, height, t.as_slice());
            Ok(())
        }
    }

    /// Whether the data at the height can be told: `NotFound` when the strategy keeps no
    /// checkpoint there.
    pub fn assert_checkpointed(&self, store: &MemoryStorage, height: u64) -> (r: Result<
        (),
        StorageError,
    >)
        requires
            self.checkpoints_namespace().len() <= 0xFFFF,
        ensures
            r == self.checkpointed(storage_contents(*store), height),
    {
        match self.strategy {
            Strategy::EveryBlock => Ok(()),
            Strategy::Never => Err(StorageError::NotFound),
            Strategy::Selected => match self.checkpoints.may_load(store, height) {
                None => Err(StorageError::NotFound),
                Some(b) => match parse_count(b.as_slice()) {
                    None => Err(StorageError::ParseErr),
                    Some(_) => Ok(()),
                },
            },
        }
    }

    /// Whether a change of the key is logged at the height.
    pub fn has_changelog(&self, store: &MemoryStorage, key: K, height: u64) -> (r: Result<
        bool,
        StorageError,
    >)
        requires
            self.ok_for(key),
        ensures
            !storage_contents(*store).contains_key(self.change_key(key, height)) ==> r == Ok::<
                bool,
                StorageError,
            >(false),
            storage_contents(*store).contains_key(self.change_key(key, height)) ==> r == (if changeset_of(
                storage_contents(*store)[self.change_key(key, height)],
            ) is Some {
                Ok::<bool, StorageError>(true)
            } else {
                Err::<bool, StorageError>(StorageError::ParseErr)
            }),
    {
        match self.changelog.may_load(store, (key, height)) {
            None => Ok(false),
            Some(b) => match changeset_decode(b.as_slice()) {
                None => Err(StorageError::ParseErr),
                Some(_) => Ok(true),
            },
        }
    }

    /// Logs the value the key had before its change at the height.
    pub fn write_changelog(&self, store: &mut MemoryStorage, key: K, height: u64, before: Option<&[u8]>)
        requires
            self.ok_for(key),
        ensures
            storage_contents(*final(store)) == storage_contents(*old(store)).insert(
                self.change_key(key, height),
                changeset_bytes(
                    match before {
                        Some(v) => Some(v@),
                        None => None,
                    },
                ),
            ),
    {
        let b = changeset_encode(before);
        self.changelog.save(store, (key, height), b.as_slice());
    }

    /// should_checkpoint looks at the strategy and determines if we want to checkpoint
    pub fn should_checkpoint(&self, store: &MemoryStorage, k: K) -> (r: Result<bool, StorageError>)
        requires
            self.ok_for(k),
            self.strategy() == Strategy::Selected ==> self.changes_ok(storage_contents(*store), k),
        ensures
            self.decision(storage_contents(*store), k, r),
    {
        match self.strategy {
            Strategy::EveryBlock => Ok(true),
            Strategy::Never => Ok(false),
            Strategy::Selected => self.should_checkpoint_selected(store, k),
        }
    }

    /// this is just pulled out from above for the selected block
    fn should_checkpoint_selected(&self, store: &MemoryStorage, k: K) -> (r: Result<
        bool,
        StorageError,
    >)
        requires
            self.ok_for(k),
            self.changes_ok(storage_contents(*store), k),
        ensures
            self.selected_decision(storage_contents(*store), k, r),
    {
        let ghost c = storage_contents(*store);
        // most recent checkpoint
        let cps = self.checkpoints.range(store, None, None, Order::Descending);
        let ghost cpv = crate::storage::entries_view(cps@);
        assert(self.checkpoints.root_prefix() == self.checkpoints_root());
        assert(is_range_between(c, self.checkpoints_root(), None, None, Order::Descending, cpv));
        assert(cpv.len() == cps@.len());
        if cps.len() == 0 {
            return Ok(false);
        }
        let (height, count) = &cps[0];
        assert(cpv[0] == (height@, count@));
        if parse_count(count.as_slice()).is_none() {
            return Err(StorageError::ParseErr);
        }
        // any changelog for the given key since then?
        let start = Bound::Inclusive(crate::prefix::copy_bytes(height.as_slice()));
        let prefix = self.changelog.prefix(k);
        assert(prefix.prefix_bytes() == self.change_prefix(k));
        assert(range_ok_between(c, self.change_prefix(k), Some((height@, true)), None));
        let changes = prefix.range(store, Some(start), None, Order::Ascending);
        let ghost chv = crate::storage::entries_view(changes@);
        assert(is_range_between(
            c,
            self.change_prefix(k),
            Some((cpv[0].0, true)),
            None,
            Order::Ascending,
            chv,
        ));
        assert(chv.len() == changes@.len());
        if changes.len() == 0 {
            // there must be at least one open checkpoint and no changelog for the given
            // address since then
            return Ok(true);
        }
        let (_, first) = &changes[0];
        assert(chv[0].1 == first@);
        match changeset_decode(first.as_slice()) {
            None => Err(StorageError::ParseErr),
            // otherwise, we don't save this
            Some(_) => Ok(false),
        }
    }

    /// may_load_at_height reads historical data from given checkpoints.
    /// Only returns `Ok` if we have the data to be able to give the correct answer
    /// (Strategy::EveryBlock or Strategy::Selected and h is registered as checkpoint)
    ///
    /// If there is no checkpoint for that height, then we return NotFound.
    pub fn may_load_at_height(&self, store: &MemoryStorage, key: K, height: u64) -> (r: Result<
        Option<Option<Vec<u8>>>,
        StorageError,
    >)
        requires
            self.ok_for(key),
            self.changes_ok(storage_contents(*store), key),
        ensures
            self.checkpointed(storage_contents(*store), height) matches Err(e) ==> r == Err::<
                Option<Option<Vec<u8>>>,
                StorageError,
            >(e),
            self.checkpointed(storage_contents(*store), height) is Ok ==> exists|
                chs: Seq<(Seq<u8>, Seq<u8>)>,
            |
                {
                    &&& is_range_between(
                        storage_contents(*store),
                        self.change_prefix(key),
                        Some((cw_bytes_of(height), true)),
                        None,
                        Order::Ascending,
                        chs,
                    )
                    &&& first_change_outcome(chs, r)
                },
    {
        match self.assert_checkpointed(store, height) {
            Err(e) => {
                return Err(e);
            },
            Ok(_) => {},
        }
        // this will look for the first snapshot of the given address >= given height
        // If None, there is no snapshot since that time.
        let hb = height.to_cw_bytes();
        let mut hv: Vec<u8> = Vec::new();
        hv.extend_from_slice(hb.as_slice());
        assert(hv@ == cw_bytes_of(height));
        let prefix = self.changelog.prefix(key);
        assert(prefix.prefix_bytes() == self.change_prefix(key));
        assert(range_ok_between(
            storage_contents(*store),
            self.change_prefix(key),
            Some((hv@, true)),
            None,
        ));
        let changes = prefix.range(store, Some(Bound::Inclusive(hv)), None, Order::Ascending);
        let ghost chv = crate::storage::entries_view(changes@);
        assert(is_range_between(
            storage_contents(*store),
            self.change_prefix(key),
            Some((cw_bytes_of(height), true)),
            None,
            Order::Ascending,
            chv,
        ));
        assert(chv.len() == changes@.len());
        if changes.len() == 0 {
            assert(first_change_outcome(chv, Ok(None)));
            return Ok(None);
        }
        let (_, first) = &changes[0];
        assert(chv[0].1 == first@);
        let result = match changeset_decode(first.as_slice()) {
            None => Err(StorageError::ParseErr),
            // if we found a match, return this last one
            Some(old) => Ok(Some(old)),
        };
        assert(first_change_outcome(chv, result));
        result
    }
}

/// Why an update of a snapshotted value failed: the storage could not log the change, or
/// the action refused.
#[derive(Clone, Debug, PartialEq, Eq)]
pub enum UpdateError<E> {
    Storage(StorageError),
    Action(E),
}

/// What an update does once the action answered: a refusal changes nothing, a new value
/// is saved as `save` saves it.
pub open spec fn update_outcome<E>(
    before: Map<Seq<u8>, Seq<u8>>,
    after: Map<Seq<u8>, Seq<u8>>,
    out: Result<Vec<u8>, E>,
    logged: Result<Map<Seq<u8>, Seq<u8>>, StorageError>,
    key: Seq<u8>,
    r: Result<Vec<u8>, UpdateError<E>>,
) -> bool {
    match out {
        Err(e) => r == Err::<Vec<u8>, UpdateError<E>>(UpdateError::Action(e)) && after == before,
        Ok(v) => match logged {
            Err(e) => r == Err::<Vec<u8>, UpdateError<E>>(UpdateError::Storage(e)) && after
                == before,
            Ok(m) => (r matches Ok(o) && o@ == v@) && after == m.insert(key, v@),
        },
    }
}

/// What a write of a snapshotted value does: for some decision of the strategy, the change
/// is logged as it must be, then `apply` is done to the logged contents; a failure leaves
/// the contents as they were.
pub open spec fn write_outcome(
    before: Map<Seq<u8>, Seq<u8>>,
    after: Map<Seq<u8>, Seq<u8>>,
    logged: Result<Map<Seq<u8>, Seq<u8>>, StorageError>,
    apply: spec_fn(Map<Seq<u8>, Seq<u8>>) -> Map<Seq<u8>, Seq<u8>>,
    r: Result<(), StorageError>,
) -> bool {
    match logged {
        Err(e) => r == Err::<(), StorageError>(e) && after == before,
        Ok(m) => r == Ok::<(), StorageError>(()) && after == apply(m),
    }
}

/// What a read at a height finds: the value logged by the first change at or after the
/// height, else the current value.
pub open spec fn at_height_outcome(
    changes: Seq<(Seq<u8>, Seq<u8>)>,
    current: Option<Seq<u8>>,
    r: Result<Option<Vec<u8>>, StorageError>,
) -> bool {
    &&& changes.len() == 0 ==> (r matches Ok(v) && opt_bytes(v) == current)
    &&& changes.len() > 0 && changeset_of(changes[0].1) is None ==> r == Err::<
        Option<Vec<u8>>,
        StorageError,
    >(StorageError::ParseErr)
    &&& changes.len() > 0 && changeset_of(changes[0].1) is Some ==> (r matches Ok(v) && Some(
        opt_bytes(v),
    ) == changeset_of(changes[0].1))
}

/// The value stored at a key, if any.
pub open spec fn current_at(contents: Map<Seq<u8>, Seq<u8>>, key: Seq<u8>) -> Option<Seq<u8>> {
    if contents.contains_key(key) {
        Some(contents[key])
    } else {
        None
    }
}

/// Item that maintains a snapshot of one or more checkpoints.
/// We can query historical data as well as current state.
/// What data is snapshotted depends on the Strategy.
pub struct SnapshotItem<'a> {
    primary: Item<'a>,
    changelog_namespace: &'a str,
    snapshots: Snapshot<'a, ()>,
}

impl<'a> SnapshotItem<'a> {
    /// The changelog namespace is text, so it never ends in a 255 byte.
    #[verifier::type_invariant]
    spec fn changelog_is_text(self) -> bool {
        self.snapshots.changelog_namespace().len() == 0
            || self.snapshots.changelog_namespace().last() != 255
    }

    /// The key of the current value.
    pub closed spec fn primary_key(&self) -> Seq<u8> {
        self.primary.key()
    }

    /// The namespace of the changelog.
    pub closed spec fn changelog_namespace(&self) -> Seq<u8> {
        encode_utf8(self.changelog_namespace@)
    }

    /// The checkpoints and changelog.
    pub closed spec fn snapshots(&self) -> &Snapshot<'a, ()> {
        &self.snapshots
    }

    pub fn new(storage_key: &'a str, checkpoints: &'a str, changelog: &'a str, strategy: Strategy) -> (r:
        Self)
        ensures
            r.primary_key() == encode_utf8(storage_key@),
            r.changelog_namespace() == encode_utf8(changelog@),
            r.snapshots().checkpoints_namespace() == encode_utf8(checkpoints@),
            r.snapshots().changelog_namespace() == encode_utf8(changelog@),
            r.snapshots().strategy() == strategy,
    {
        proof {
            crate::map::lemma_utf8_bytes_below_max(changelog@);
        }
        SnapshotItem {
            primary: Item::new(storage_key.as_bytes()),
            changelog_namespace: changelog,
            snapshots: Snapshot::new(checkpoints, changelog, strategy),
        }
    }

    /// A map of the changelog keyed by height.
    pub fn changelog(&self) -> (r: StorageMap<'a, u64>)
        ensures
            r.namespace() == self.changelog_namespace(),
    {
        StorageMap::new(self.changelog_namespace)
    }
}

/// Map that maintains a snapshots of one or more checkpoints.
/// We can query historical data as well as current state.
/// What data is snapshotted depends on the Strategy.
pub struct SnapshotMap<'a, K> {
    primary: StorageMap<'a, K>,
    snapshots: Snapshot<'a, K>,
}

impl<'a, K: PrimaryKey + crate::keys::Prefixer> SnapshotMap<'a, K> {
    /// The namespace of the current values.
    pub closed spec fn primary_namespace(&self) -> Seq<u8> {
        self.primary.namespace()
    }

    /// The checkpoints and changelog.
    pub closed spec fn snapshots(&self) -> &Snapshot<'a, K> {
        &self.snapshots
    }

    pub fn new(pk: &'a str, checkpoints: &'a str, changelog: &'a str, strategy: Strategy) -> (r: Self)
        ensures
            r.primary_namespace() == encode_utf8(pk@),
            r.snapshots().checkpoints_namespace() == encode_utf8(checkpoints@),
            r.snapshots().changelog_namespace() == encode_utf8(changelog@),
            r.snapshots().strategy() == strategy,
    {
        SnapshotMap {
            primary: StorageMap::new(pk),
            snapshots: Snapshot::new(checkpoints, changelog, strategy),
        }
    }

    /// The changelog, keyed by (key, height).
    pub fn changelog(&self) -> (r: &StorageMap<'a, (K, u64)>)
        ensures
            r.namespace() == self.snapshots().changelog_namespace(),
    {
        &self.snapshots.changelog
    }
}

impl<'a, K: PrimaryKey + Prefixer + Copy> SnapshotMap<'a, K> {
    /// Where the current value of `k` is stored.
    pub open spec fn entry_key(&self, k: K) -> Seq<u8> {
        path_key(self.primary_namespace(), k.key_spec())
    }

    /// `k` can be written and its changes logged.
    pub open spec fn ok_for(&self, k: K) -> bool {
        &&& self.primary_namespace().len() <= 0xFFFF
        &&& k.key_spec().len() > 0
        &&& self.snapshots().ok_for(k)
    }

    /// Writes of `k` can decide whether to checkpoint.
    pub open spec fn can_decide(&self, contents: Map<Seq<u8>, Seq<u8>>, k: K) -> bool {
        self.snapshots().strategy() == Strategy::Selected ==> self.snapshots().changes_ok(contents, k)
    }

    pub fn add_checkpoint(&self, store: &mut MemoryStorage, height: u64) -> (r: Result<
        (),
        StorageError,
    >)
        requires
            self.snapshots().checkpoints_namespace().len() <= 0xFFFF,
            stored_count(
                storage_contents(*old(store)),
                self.snapshots().checkpoint_key(height),
            ) matches Some(n) ==> n < u32::MAX,
        ensures
            match stored_count(
                storage_contents(*old(store)),
                self.snapshots().checkpoint_key(height),
            ) {
                None => r == Err::<(), StorageError>(StorageError::ParseErr) && storage_contents(
                    *final(store),
                ) == storage_contents(*old(store)),
                Some(n) => r == Ok::<(), StorageError>(()) && storage_contents(*final(store))
                    == storage_contents(*old(store)).insert(
                    self.snapshots().checkpoint_key(height),
                    digits_of((n + 1) as nat),
                ),
            },
    {
        self.snapshots.add_checkpoint(store, height)
    }

    pub fn remove_checkpoint(&self, store: &mut MemoryStorage, height: u64) -> (r: Result<
        (),
        StorageError,
    >)
        requires
            self.snapshots().checkpoints_namespace().len() <= 0xFFFF,
        ensures
            match stored_count(
                storage_contents(*old(store)),
                self.snapshots().checkpoint_key(height),
            ) {
                None => r == Err::<(), StorageError>(StorageError::ParseErr) && storage_contents(
                    *final(store),
                ) == storage_contents(*old(store)),
                Some(n) => r == Ok::<(), StorageError>(()) && (if n <= 1 {
                    storage_contents(*final(store)) == storage_contents(*old(store)).remove(
                        self.snapshots().checkpoint_key(height),
                    )
                } else {
                    storage_contents(*final(store)) == storage_contents(*old(store)).insert(
                        self.snapshots().checkpoint_key(height),
                        digits_of((n - 1) as nat),
                    )
                }),
            },
    {
        self.snapshots.remove_checkpoint(store, height)
    }

    /// load old value and store changelog
    fn write_change(&self, store: &mut MemoryStorage, k: K, height: u64) -> (r: Result<
        (),
        StorageError,
    >)
        requires
            self.ok_for(k),
        ensures
            write_outcome(
                storage_contents(*old(store)),
                storage_contents(*final(store)),
                self.snapshots().logged(storage_contents(*old(store)), k, height, self.entry_key(k)),
                |m: Map<Seq<u8>, Seq<u8>>| m,
                r,
            ),
    {
        // if there is already data in the changelog for this key and block, do not write more
        match self.snapshots.has_changelog(store, k, height) {
            Err(e) => {
                return Err(e);
            },
            Ok(true) => {
                return Ok(());
            },
            Ok(false) => {},
        }
        // otherwise, store the previous value
        let old = self.primary.may_load(store, k);
        match old {
            Some(v) => self.snapshots.write_changelog(store, k, height, Some(v.as_slice())),
            None => self.snapshots.write_changelog(store, k, height, None),
        }
        Ok(())
    }

    /// Saves the value of `k`, logging the value it had at this height first when the
    /// strategy asks for a checkpoint.
    pub fn save(&self, store: &mut MemoryStorage, k: K, data: &[u8], height: u64) -> (r: Result<
        (),
        StorageError,
    >)
        requires
            self.ok_for(k),
            self.can_decide(storage_contents(*old(store)), k),
            data@.len() > 0,
        ensures
            exists|d: Result<bool, StorageError>|
                {
                    &&& self.snapshots().decision(storage_contents(*old(store)), k, d)
                    &&& write_outcome(
                        storage_contents(*old(store)),
                        storage_contents(*final(store)),
                        self.snapshots().written(
                            storage_contents(*old(store)),
                            k,
                            height,
                            self.entry_key(k),
                            d,
                        ),
                        |m: Map<Seq<u8>, Seq<u8>>| m.insert(self.entry_key(k), data@),
                        r,
                    )
                },
    {
        let ghost c = storage_contents(*store);
        let d = self.snapshots.should_checkpoint(store, k);
        assert(self.snapshots().decision(c, k, d));
        match d {
            Err(e) => {
                return Err(e);
            },
            Ok(true) => {
                match self.write_change(store, k, height) {
                    Err(e) => {
                        return Err(e);
                    },
                    Ok(_) => {},
                }
            },
            Ok(false) => {},
        }
        self.primary.save(store, k, data);
        Ok(())
    }

    /// Removes the value of `k`, logging the value it had at this height first when the
    /// strategy asks for a checkpoint.
    pub fn remove(&self, store: &mut MemoryStorage, k: K, height: u64) -> (r: Result<
        (),
        StorageError,
    >)
        requires
            self.ok_for(k),
            self.can_decide(storage_contents(*old(store)), k),
        ensures
            exists|d: Result<bool, StorageError>|
                {
                    &&& self.snapshots().decision(storage_contents(*old(store)), k, d)
                    &&& write_outcome(
                        storage_contents(*old(store)),
                        storage_contents(*final(store)),
                        self.snapshots().written(
                            storage_contents(*old(store)),
                            k,
                            height,
                            self.entry_key(k),
                            d,
                        ),
                        |m: Map<Seq<u8>, Seq<u8>>| m.remove(self.entry_key(k)),
                        r,
                    )
                },
    {
        let ghost c = storage_contents(*store);
        let d = self.snapshots.should_checkpoint(store, k);
        assert(self.snapshots().decision(c, k, d));
        match d {
            Err(e) => {
                return Err(e);
            },
            Ok(true) => {
                match self.write_change(store, k, height) {
                    Err(e) => {
                        return Err(e);
                    },
                    Ok(_) => {},
                }
            },
            Ok(false) => {},
        }
        self.primary.remove(store, k);
        Ok(())
    }

    /// Loads the value of `k`, lets `action` answer a new one, and saves it at the height
    /// as `save` does.
    pub fn update<A, E>(&self, store: &mut MemoryStorage, k: K, height: u64, action: A) -> (r:
        Result<Vec<u8>, UpdateError<E>>)
        where
            A: FnOnce(Option<Vec<u8>>) -> Result<Vec<u8>, E>,
        requires
            self.ok_for(k),
            self.can_decide(storage_contents(*old(store)), k),
            forall|input: Option<Vec<u8>>| #[trigger] call_requires(action, (input,)),
            forall|input: Option<Vec<u8>>, out: Result<Vec<u8>, E>|
                call_ensures(action, (input,), out) ==> (out matches Ok(v) ==> v@.len() > 0),
        ensures
            exists|input: Option<Vec<u8>>, out: Result<Vec<u8>, E>, d: Result<bool, StorageError>|
                #![trigger call_ensures(action, (input,), out), self.snapshots().decision(storage_contents(*old(store)), k, d)]
                {
                    &&& opt_bytes(input) == current_at(storage_contents(*old(store)), self.entry_key(k))
                    &&& call_ensures(action, (input,), out)
                    &&& self.snapshots().decision(storage_contents(*old(store)), k, d)
                    &&& update_outcome(
                        storage_contents(*old(store)),
                        storage_contents(*final(store)),
                        out,
                        self.snapshots().written(
                            storage_contents(*old(store)),
                            k,
                            height,
                            self.entry_key(k),
                            d,
                        ),
                        self.entry_key(k),
                        r,
                    )
                },
    {
        let ghost c = storage_contents(*store);
        let input = self.primary.may_load(store, k);
        let ghost iv = input;
        let d = self.snapshots.should_checkpoint(store, k);
        let output = action(input);
        let ghost ov = output;
        let result: Result<Vec<u8>, UpdateError<E>> = match output {
            Err(e) => Err(UpdateError::Action(e)),
            Ok(v) => match d {
                Err(e) => Err(UpdateError::Storage(e)),
                Ok(b) => {
                    let w = if b {
                        self.write_change(store, k, height)
                    } else {
                        Ok(())
                    };
                    match w {
                        Err(e) => Err(UpdateError::Storage(e)),
                        Ok(_) => {
                            self.primary.save(store, k, v.as_slice());
                            Ok(v)
                        },
                    }
                },
            },
        };
        assert(update_outcome(
            c,
            storage_contents(*store),
            ov,
            self.snapshots().written(c, k, height, self.entry_key(k), d),
            self.entry_key(k),
            result,
        ));
        assert(opt_bytes(iv) == current_at(c, self.entry_key(k)));
        assert(call_ensures(action, (iv,), ov));
        result
    }

    /// load will return an error if no data is set at the given key
    pub fn load(&self, store: &MemoryStorage, k: K) -> (r: Result<Vec<u8>, StorageError>)
        requires
            self.ok_for(k),
        ensures
            r is Ok <==> storage_contents(*store).contains_key(self.entry_key(k)),
            r matches Ok(v) ==> v@ == storage_contents(*store)[self.entry_key(k)],
            r matches Err(e) ==> e == StorageError::NotFound,
    {
        self.primary.load(store, k)
    }

    /// may_load returns `None` if no data is set at the key.
    pub fn may_load(&self, store: &MemoryStorage, k: K) -> (r: Option<Vec<u8>>)
        requires
            self.ok_for(k),
        ensures
            opt_bytes(r) == current_at(storage_contents(*store), self.entry_key(k)),
    {
        self.primary.may_load(store, k)
    }

    /// The value `k` had at the height: the value logged by its first change at or after
    /// the height, else its current value. Fails when no checkpoint covers the height.
    pub fn may_load_at_height(&self, store: &MemoryStorage, k: K, height: u64) -> (r: Result<
        Option<Vec<u8>>,
        StorageError,
    >)
        requires
            self.ok_for(k),
            self.snapshots().changes_ok(storage_contents(*store), k),
        ensures
            self.snapshots().checkpointed(storage_contents(*store), height) matches Err(e) ==> r
                == Err::<Option<Vec<u8>>, StorageError>(e),
            self.snapshots().checkpointed(storage_contents(*store), height) is Ok ==> exists|
                chs: Seq<(Seq<u8>, Seq<u8>)>,
            |
                {
                    &&& is_range_between(
                        storage_contents(*store),
                        self.snapshots().change_prefix(k),
                        Some((cw_bytes_of(height), true)),
                        None,
                        Order::Ascending,
                        chs,
                    )
                    &&& at_height_outcome(
                        chs,
                        current_at(storage_contents(*store), self.entry_key(k)),
                        r,
                    )
                },
    {
        let ghost c = storage_contents(*store);
        let snapshot = self.snapshots.may_load_at_height(store, k, height);
        match snapshot {
            Err(e) => {
                proof {
                    if self.snapshots().checkpointed(c, height) is Ok {
                        let chs = choose|chs: Seq<(Seq<u8>, Seq<u8>)>|
                            {
                                &&& is_range_between(
                                    c,
                                    self.snapshots().change_prefix(k),
                                    Some((cw_bytes_of(height), true)),
                                    None,
                                    Order::Ascending,
                                    chs,
                                )
                                &&& first_change_outcome(chs, snapshot)
                            };
                        assert(at_height_outcome(chs, current_at(c, self.entry_key(k)), Err(e)));
                    }
                }
                Err(e)
            },
            Ok(Some(r)) => {
                proof {
                    let chs = choose|chs: Seq<(Seq<u8>, Seq<u8>)>|
                        {
                            &&& is_range_between(
                                c,
                                self.snapshots().change_prefix(k),
                                Some((cw_bytes_of(height), true)),
                                None,
                                Order::Ascending,
                                chs,
                            )
                            &&& first_change_outcome(chs, snapshot)
                        };
                    assert(at_height_outcome(chs, current_at(c, self.entry_key(k)), Ok(r)));
                }
                Ok(r)
            },
            Ok(None) => {
                // otherwise, return current value
                let cur = self.primary.may_load(store, k);
                proof {
                    let chs = choose|chs: Seq<(Seq<u8>, Seq<u8>)>|
                        {
                            &&& is_range_between(
                                c,
                                self.snapshots().change_prefix(k),
                                Some((cw_bytes_of(height), true)),
                                None,
                                Order::Ascending,
                                chs,
                            )
                            &&& first_change_outcome(chs, snapshot)
                        };
                    assert(at_height_outcome(chs, current_at(c, self.entry_key(k)), Ok(cur)));
                }
                Ok(cur)
            },
        }
    }

    /// If there is no checkpoint for that height, then we return NotFound
    pub fn assert_checkpointed(&self, store: &MemoryStorage, height: u64) -> (r: Result<
        (),
        StorageError,
    >)
        requires
            self.snapshots().checkpoints_namespace().len() <= 0xFFFF,
        ensures
            r == self.snapshots().checkpointed(storage_contents(*store), height),
    {
        self.snapshots.assert_checkpointed(store, height)
    }
}

impl<'a, K: PrimaryKey + Prefixer> SnapshotMap<'a, K> {
    /// The bytes every key of the current values starts with.
    pub open spec fn root_prefix(&self) -> Seq<u8> {
        namespaced_key(seq![self.primary_namespace()], Seq::empty())
    }

    /// The path of the current value of `k`.
    pub fn key(&self, k: K) -> (r: Path)
        requires
            path_encodable(self.primary_namespace(), k.key_spec()),
        ensures
            r.key() == path_key(self.primary_namespace(), k.key_spec()),
    {
        self.primary.key(k)
    }

    /// The current entries whose keys start with the given first key parts.
    pub fn prefix<P: Prefixer>(&self, p: P) -> (r: Prefix)
        requires
            self.primary_namespace().len() <= 0xFFFF,
            all_encodable(p.prefix_spec()),
        ensures
            r.prefix_bytes() == namespaced_key(
                seq![self.primary_namespace()] + p.prefix_spec(),
                Seq::empty(),
            ),
    {
        self.primary.prefix(p)
    }

    /// The current entries whose keys start with the given first key parts (all but the
    /// last part of a key are fixed).
    pub fn sub_prefix<P: Prefixer>(&self, p: P) -> (r: Prefix)
        requires
            self.primary_namespace().len() <= 0xFFFF,
            all_encodable(p.prefix_spec()),
        ensures
            r.prefix_bytes() == namespaced_key(
                seq![self.primary_namespace()] + p.prefix_spec(),
                Seq::empty(),
            ),
    {
        self.primary.sub_prefix(p)
    }

    /// The current entries with keys between the bounds, in the given order, each with its
    /// raw key.
    pub fn range_raw(
        &self,
        store: &MemoryStorage,
        min: Option<TypedBound<K>>,
        max: Option<TypedBound<K>>,
        order: Order,
    ) -> (r: Vec<(Vec<u8>, Vec<u8>)>)
        requires
            self.primary_namespace().len() <= 0xFFFF,
            opt_raw_ok(min),
            opt_raw_ok(max),
        ensures
            is_range_between(
                storage_contents(*store),
                self.root_prefix(),
                opt_raw_spec(min),
                opt_raw_spec(max),
                order,
                entries_view(r@),
            ),
    {
        let lo = byte_bound(min);
        let hi = byte_bound(max);
        self.primary.range(store, lo, hi, order)
    }

    /// The raw keys of the current entries between the bounds, in the given order.
    pub fn keys_raw(
        &self,
        store: &MemoryStorage,
        min: Option<TypedBound<K>>,
        max: Option<TypedBound<K>>,
        order: Order,
    ) -> (r: Vec<Vec<u8>>)
        requires
            self.primary_namespace().len() <= 0xFFFF,
            opt_raw_ok(min),
            opt_raw_ok(max),
        ensures
            exists|entries: Seq<(Seq<u8>, Seq<u8>)>|
                {
                    &&& is_range_between(
                        storage_contents(*store),
                        self.root_prefix(),
                        opt_raw_spec(min),
                        opt_raw_spec(max),
                        order,
                        entries,
                    )
                    &&& keys_view(r@) == entries.map_values(|p: (Seq<u8>, Seq<u8>)| p.0)
                },
    {
        let lo = byte_bound(min);
        let hi = byte_bound(max);
        let r = self.primary.keys(store, lo, hi, order);
        proof {
            let entries = choose|entries: Seq<(Seq<u8>, Seq<u8>)>|
                {
                    &&& is_prefix_range(
                        storage_contents(*store),
                        self.primary.root_prefix(),
                        lo,
                        hi,
                        order,
                        entries,
                    )
                    &&& keys_view(r@) == entries.map_values(|p: (Seq<u8>, Seq<u8>)| p.0)
                };
            assert(is_range_between(
                storage_contents(*store),
                self.root_prefix(),
                opt_raw_spec(min),
                opt_raw_spec(max),
                order,
                entries,
            ));
        }
        r
    }
}

impl<'a, K: PrimaryKey + Prefixer + KeyDeserialize> SnapshotMap<'a, K> {
    /// Every current key can be read back as a `K` without panicking.
    pub open spec fn keys_readable(&self, contents: Map<Seq<u8>, Seq<u8>>) -> bool {
        forall|k: Seq<u8>|
            #[trigger] contents.contains_key(k) && is_prefix_of(self.root_prefix(), k) ==> K::safe(
                k.subrange(self.root_prefix().len() as int, k.len() as int),
            )
    }

    /// The current entries between the bounds, in the given order, with their keys read
    /// back as `K` (each reading may fail on its own).
    pub fn range(
        &self,
        store: &MemoryStorage,
        min: Option<TypedBound<K>>,
        max: Option<TypedBound<K>>,
        order: Order,
    ) -> (r: Vec<Result<(K::Output, Vec<u8>), KeyError>>)
        requires
            self.primary_namespace().len() <= 0xFFFF,
            opt_raw_ok(min),
            opt_raw_ok(max),
            self.keys_readable(storage_contents(*store)),
        ensures
            exists|entries: Seq<(Seq<u8>, Seq<u8>)>|
                {
                    &&& is_range_between(
                        storage_contents(*store),
                        self.root_prefix(),
                        opt_raw_spec(min),
                        opt_raw_spec(max),
                        order,
                        entries,
                    )
                    &&& decoded_entries::<K>(r@, entries)
                },
    {
        let lo = byte_bound(min);
        let hi = byte_bound(max);
        assert(self.primary.keys_readable(storage_contents(*store)));
        let r = self.primary.range_de(store, lo, hi, order);
        proof {
            let entries = choose|entries: Seq<(Seq<u8>, Seq<u8>)>|
                {
                    &&& is_prefix_range(
                        storage_contents(*store),
                        self.primary.root_prefix(),
                        lo,
                        hi,
                        order,
                        entries,
                    )
                    &&& r@.len() == entries.len()
                    &&& forall|i: int|
                        0 <= i < entries.len() ==> {
                            &&& (#[trigger] r@[i] is Ok <==> K::decodable(entries[i].0))
                            &&& r@[i] matches Ok(p) ==> p.0@ == K::decoded(entries[i].0) && p.1@
                                == entries[i].1
                        }
                };
            assert(decoded_entries::<K>(r@, entries));
        }
        r
    }

    /// The current keys between the bounds, in the given order, read back as `K`; keys
    /// that cannot be read are left out.
    pub fn keys(
        &self,
        store: &MemoryStorage,
        min: Option<TypedBound<K>>,
        max: Option<TypedBound<K>>,
        order: Order,
    ) -> (r: Vec<K::Output>)
        requires
            self.primary_namespace().len() <= 0xFFFF,
            opt_raw_ok(min),
            opt_raw_ok(max),
            self.keys_readable(storage_contents(*store)),
        ensures
            exists|entries: Seq<(Seq<u8>, Seq<u8>)>|
                {
                    &&& is_range_between(
                        storage_contents(*store),
                        self.root_prefix(),
                        opt_raw_spec(min),
                        opt_raw_spec(max),
                        order,
                        entries,
                    )
                    &&& outputs_view(r@) == decodable_keys::<K>(entries)
                },
    {
        let lo = byte_bound(min);
        let hi = byte_bound(max);
        assert(self.primary.keys_readable(storage_contents(*store)));
        self.primary.keys_de(store, lo, hi, order)
    }

    /// The current entries whose keys start with a prefix between the prefix bounds, in
    /// the given order, with their keys read back as `K`.
    pub fn prefix_range<P: Prefixer>(
        &self,
        store: &MemoryStorage,
        min: Option<PrefixBound<P>>,
        max: Option<PrefixBound<P>>,
        order: Order,
    ) -> (r: Vec<Result<(K::Output, Vec<u8>), KeyError>>)
        requires
            self.primary_namespace().len() <= 0xFFFF,
            min matches Some(b) ==> all_encodable(b.prefix_key().prefix_spec()),
            max matches Some(b) ==> all_encodable(b.prefix_key().prefix_spec()),
            self.keys_readable(storage_contents(*store)),
        ensures
            exists|entries: Seq<(Seq<u8>, Seq<u8>)>|
                {
                    &&& is_range_between(
                        storage_contents(*store),
                        self.root_prefix(),
                        prefix_start_as_bound(opt_prefix_bound(min)),
                        prefix_end_as_bound(opt_prefix_bound(max)),
                        order,
                        entries,
                    )
                    &&& decoded_entries::<K>(r@, entries)
                },
    {
        assert(self.primary.keys_readable(storage_contents(*store)));
        self.primary.prefix_range_de(store, min, max, order)
    }
}

impl<'a> SnapshotItem<'a> {
    /// The namespaces of the checkpoints and the changelog fit.
    pub open spec fn namespaces_ok(&self) -> bool {
        &&& self.snapshots().checkpoints_namespace().len() <= 0xFFFF
        &&& self.snapshots().changelog_namespace().len() <= 0xFFFF
    }

    /// Every range of the changelog from some height on can be collected.
    proof fn lemma_changes_ok(&self, contents: Map<Seq<u8>, Seq<u8>>)
        requires
            self.snapshots().changelog_namespace().len() == 0
                || self.snapshots().changelog_namespace().last() != 255,
        ensures
            self.snapshots().changes_ok(contents, ()),
    {
        let ns = self.snapshots().changelog_namespace();
        let p = self.snapshots().change_prefix(());
        reveal_with_fuel(crate::helpers::nested_prefix, 2);
        assert(seq![ns] + ().prefix_spec() =~= seq![ns]);
        assert(seq![ns].drop_first() =~= Seq::<Seq<u8>>::empty());
        assert(p =~= crate::helpers::length_bytes(ns.len()) + ns);
        assert forall|h: Seq<u8>|
            #[trigger] range_ok_between(contents, p, Some((h, true)), None) by {
            crate::prefix::lemma_range_trimmable(contents, p, Some((h, true)), None);
        }
    }

    pub fn add_checkpoint(&self, store: &mut MemoryStorage, height: u64) -> (r: Result<
        (),
        StorageError,
    >)
        requires
            self.snapshots().checkpoints_namespace().len() <= 0xFFFF,
            stored_count(
                storage_contents(*old(store)),
                self.snapshots().checkpoint_key(height),
            ) matches Some(n) ==> n < u32::MAX,
        ensures
            match stored_count(
                storage_contents(*old(store)),
                self.snapshots().checkpoint_key(height),
            ) {
                None => r == Err::<(), StorageError>(StorageError::ParseErr) && storage_contents(
                    *final(store),
                ) == storage_contents(*old(store)),
                Some(n) => r == Ok::<(), StorageError>(()) && storage_contents(*final(store))
                    == storage_contents(*old(store)).insert(
                    self.snapshots().checkpoint_key(height),
                    digits_of((n + 1) as nat),
                ),
            },
    {
        self.snapshots.add_checkpoint(store, height)
    }

    pub fn remove_checkpoint(&self, store: &mut MemoryStorage, height: u64) -> (r: Result<
        (),
        StorageError,
    >)
        requires
            self.snapshots().checkpoints_namespace().len() <= 0xFFFF,
        ensures
            match stored_count(
                storage_contents(*old(store)),
                self.snapshots().checkpoint_key(height),
            ) {
                None => r == Err::<(), StorageError>(StorageError::ParseErr) && storage_contents(
                    *final(store),
                ) == storage_contents(*old(store)),
                Some(n) => r == Ok::<(), StorageError>(()) && (if n <= 1 {
                    storage_contents(*final(store)) == storage_contents(*old(store)).remove(
                        self.snapshots().checkpoint_key(height),
                    )
                } else {
                    storage_contents(*final(store)) == storage_contents(*old(store)).insert(
                        self.snapshots().checkpoint_key(height),
                        digits_of((n - 1) as nat),
                    )
                }),
            },
    {
        self.snapshots.remove_checkpoint(store, height)
    }

    /// load old value and store changelog
    fn write_change(&self, store: &mut MemoryStorage, height: u64) -> (r: Result<(), StorageError>)
        requires
            self.namespaces_ok(),
        ensures
            write_outcome(
                storage_contents(*old(store)),
                storage_contents(*final(store)),
                self.snapshots().logged(storage_contents(*old(store)), (), height, self.primary_key()),
                |m: Map<Seq<u8>, Seq<u8>>| m,
                r,
            ),
    {
        // if there is already data in the changelog for this block, do not write more
        match self.snapshots.has_changelog(store, (), height) {
            Err(e) => {
                return Err(e);
            },
            Ok(true) => {
                return Ok(());
            },
            Ok(false) => {},
        }
        // otherwise, store the previous value
        let old = self.primary.may_load(store);
        match old {
            Some(v) => self.snapshots.write_changelog(store, (), height, Some(v.as_slice())),
            None => self.snapshots.write_changelog(store, (), height, None),
        }
        Ok(())
    }

    /// Saves the value, logging the value it had at this height first when the strategy
    /// asks for a checkpoint.
    pub fn save(&self, store: &mut MemoryStorage, data: &[u8], height: u64) -> (r: Result<
        (),
        StorageError,
    >)
        requires
            self.namespaces_ok(),
            data@.len() > 0,
        ensures
            exists|d: Result<bool, StorageError>|
                {
                    &&& self.snapshots().decision(storage_contents(*old(store)), (), d)
                    &&& write_outcome(
                        storage_contents(*old(store)),
                        storage_contents(*final(store)),
                        self.snapshots().written(
                            storage_contents(*old(store)),
                            (),
                            height,
                            self.primary_key(),
                            d,
                        ),
                        |m: Map<Seq<u8>, Seq<u8>>| m.insert(self.primary_key(), data@),
                        r,
                    )
                },
    {
        let ghost c = storage_contents(*store);
        proof {
            use_type_invariant(self);
            self.lemma_changes_ok(c);
        }
        let d = self.snapshots.should_checkpoint(store, ());
        assert(self.snapshots().decision(c, (), d));
        match d {
            Err(e) => {
                return Err(e);
            },
            Ok(true) => {
                match self.write_change(store, height) {
                    Err(e) => {
                        return Err(e);
                    },
                    Ok(_) => {},
                }
            },
            Ok(false) => {},
        }
        self.primary.save(store, data);
        Ok(())
    }

    /// Removes the value, logging the value it had at this height first when the strategy
    /// asks for a checkpoint.
    pub fn remove(&self, store: &mut MemoryStorage, height: u64) -> (r: Result<(), StorageError>)
        requires
            self.namespaces_ok(),
        ensures
            exists|d: Result<bool, StorageError>|
                {
                    &&& self.snapshots().decision(storage_contents(*old(store)), (), d)
                    &&& write_outcome(
                        storage_contents(*old(store)),
                        storage_contents(*final(store)),
                        self.snapshots().written(
                            storage_contents(*old(store)),
                            (),
                            height,
                            self.primary_key(),
                            d,
                        ),
                        |m: Map<Seq<u8>, Seq<u8>>| m.remove(self.primary_key()),
                        r,
                    )
                },
    {
        let ghost c = storage_contents(*store);
        proof {
            use_type_invariant(self);
            self.lemma_changes_ok(c);
        }
        let d = self.snapshots.should_checkpoint(store, ());
        assert(self.snapshots().decision(c, (), d));
        match d {
            Err(e) => {
                return Err(e);
            },
            Ok(true) => {
                match self.write_change(store, height) {
                    Err(e) => {
                        return Err(e);
                    },
                    Ok(_) => {},
                }
            },
            Ok(false) => {},
        }
        self.primary.remove(store);
        Ok(())
    }

    /// Loads the value, lets `action` answer a new one, and saves it at the height as
    /// `save` does.
    pub fn update<A, E>(&self, store: &mut MemoryStorage, height: u64, action: A) -> (r: Result<
        Vec<u8>,
        UpdateError<E>,
    >)
        where
            A: FnOnce(Option<Vec<u8>>) -> Result<Vec<u8>, E>,
        requires
            self.namespaces_ok(),
            forall|input: Option<Vec<u8>>| #[trigger] call_requires(action, (input,)),
            forall|input: Option<Vec<u8>>, out: Result<Vec<u8>, E>|
                call_ensures(action, (input,), out) ==> (out matches Ok(v) ==> v@.len() > 0),
        ensures
            exists|input: Option<Vec<u8>>, out: Result<Vec<u8>, E>, d: Result<bool, StorageError>|
                #![trigger call_ensures(action, (input,), out), self.snapshots().decision(storage_contents(*old(store)), (), d)]
                {
                    &&& opt_bytes(input) == current_at(storage_contents(*old(store)), self.primary_key())
                    &&& call_ensures(action, (input,), out)
                    &&& self.snapshots().decision(storage_contents(*old(store)), (), d)
                    &&& update_outcome(
                        storage_contents(*old(store)),
                        storage_contents(*final(store)),
                        out,
                        self.snapshots().written(
                            storage_contents(*old(store)),
                            (),
                            height,
                            self.primary_key(),
                            d,
                        ),
                        self.primary_key(),
                        r,
                    )
                },
    {
        let ghost c = storage_contents(*store);
        proof {
            use_type_invariant(self);
            self.lemma_changes_ok(c);
        }
        let input = self.primary.may_load(store);
        let ghost iv = input;
        let d = self.snapshots.should_checkpoint(store, ());
        let output = action(input);
        let ghost ov = output;
        let result: Result<Vec<u8>, UpdateError<E>> = match output {
            Err(e) => Err(UpdateError::Action(e)),
            Ok(v) => match d {
                Err(e) => Err(UpdateError::Storage(e)),
                Ok(b) => {
                    let w = if b {
                        self.write_change(store, height)
                    } else {
                        Ok(())
                    };
                    match w {
                        Err(e) => Err(UpdateError::Storage(e)),
                        Ok(_) => {
                            self.primary.save(store, v.as_slice());
                            Ok(v)
                        },
                    }
                },
            },
        };
        assert(update_outcome(
            c,
            storage_contents(*store),
            ov,
            self.snapshots().written(c, (), height, self.primary_key(), d),
            self.primary_key(),
            result,
        ));
        assert(opt_bytes(iv) == current_at(c, self.primary_key()));
        assert(call_ensures(action, (iv,), ov));
        result
    }

    /// load will return an error if no data is set
    pub fn load(&self, store: &MemoryStorage) -> (r: Result<Vec<u8>, StorageError>)
        ensures
            r is Ok <==> storage_contents(*store).contains_key(self.primary_key()),
            r matches Ok(v) ==> v@ == storage_contents(*store)[self.primary_key()],
            r matches Err(e) ==> e == StorageError::NotFound,
    {
        self.primary.load(store)
    }

    /// may_load returns `None` if no data is set.
    pub fn may_load(&self, store: &MemoryStorage) -> (r: Option<Vec<u8>>)
        ensures
            opt_bytes(r) == current_at(storage_contents(*store), self.primary_key()),
    {
        self.primary.may_load(store)
    }

    /// The value at the height: the value logged by the first change at or after the
    /// height, else the current value. Fails when no checkpoint covers the height.
    pub fn may_load_at_height(&self, store: &MemoryStorage, height: u64) -> (r: Result<
        Option<Vec<u8>>,
        StorageError,
    >)
        requires
            self.namespaces_ok(),
        ensures
            self.snapshots().checkpointed(storage_contents(*store), height) matches Err(e) ==> r
                == Err::<Option<Vec<u8>>, StorageError>(e),
            self.snapshots().checkpointed(storage_contents(*store), height) is Ok ==> exists|
                chs: Seq<(Seq<u8>, Seq<u8>)>,
            |
                {
                    &&& is_range_between(
                        storage_contents(*store),
                        self.snapshots().change_prefix(()),
                        Some((cw_bytes_of(height), true)),
                        None,
                        Order::Ascending,
                        chs,
                    )
                    &&& at_height_outcome(
                        chs,
                        current_at(storage_contents(*store), self.primary_key()),
                        r,
                    )
                },
    {
        let ghost c = storage_contents(*store);
        proof {
            use_type_invariant(self);
            self.lemma_changes_ok(c);
        }
        let snapshot = self.snapshots.may_load_at_height(store, (), height);
        let result = match snapshot {
            Err(e) => Err(e),
            Ok(Some(r)) => Ok(r),
            Ok(None) => {
                // otherwise, return current value
                Ok(self.primary.may_load(store))
            },
        };
        proof {
            if self.snapshots().checkpointed(c, height) is Ok {
                let chs = choose|chs: Seq<(Seq<u8>, Seq<u8>)>|
                    {
                        &&& is_range_between(
                            c,
                            self.snapshots().change_prefix(()),
                            Some((cw_bytes_of(height), true)),
                            None,
                            Order::Ascending,
                            chs,
                        )
                        &&& first_change_outcome(chs, snapshot)
                    };
                assert(at_height_outcome(chs, current_at(c, self.primary_key()), result));
            }
        }
        result
    }

    /// If there is no checkpoint for that height, then we return NotFound
    pub fn assert_checkpointed(&self, store: &MemoryStorage, height: u64) -> (r: Result<
        (),
        StorageError,
    >)
        requires
            self.snapshots().checkpoints_namespace().len() <= 0xFFFF,
        ensures
            r == self.snapshots().checkpointed(storage_contents(*store), height),
    {
        self.snapshots.assert_checkpointed(store, height)
    }
}

/// The bytes of nested namespaces start with the first namespace, length-prefixed.
proof fn lemma_nested_first(a: Seq<u8>, rest: Seq<Seq<u8>>)
    ensures
        crate::helpers::nested_prefix(seq![a] + rest) == crate::helpers::length_prefixed(a)
            + crate::helpers::nested_prefix(rest),
{
    assert((seq![a] + rest)[0] == a);
    assert((seq![a] + rest).drop_first() =~= rest);
}

/// Keys under different namespaces differ.
proof fn lemma_namespaces_apart(a: Seq<u8>, x: Seq<u8>, b: Seq<u8>, y: Seq<u8>)
    requires
        a.len() <= 0xFFFF,
        b.len() <= 0xFFFF,
        a != b,
    ensures
        crate::helpers::length_prefixed(a) + x != crate::helpers::length_prefixed(b) + y,
{
    let ka = crate::helpers::length_prefixed(a) + x;
    let kb = crate::helpers::length_prefixed(b) + y;
    if ka == kb {
        assert(ka.subrange(0, 2) =~= crate::helpers::length_bytes(a.len()));
        assert(kb.subrange(0, 2) =~= crate::helpers::length_bytes(b.len()));
        crate::helpers::lemma_length_bytes_injective(a.len(), b.len());
        assert(ka.subrange(2, 2 + a.len() as int) =~= a);
        assert(kb.subrange(2, 2 + b.len() as int) =~= b);
    }
}

impl<'a, K: UniformKey> Snapshot<'a, K> {
    /// A change logged for a key at a height is what a read of the key at that height
    /// finds first (for keys whose first part is shorter than 65535 bytes).
    pub proof fn lemma_logged_change_read_first(
        &self,
        contents: Map<Seq<u8>, Seq<u8>>,
        k: K,
        height: u64,
        changes: Seq<(Seq<u8>, Seq<u8>)>,
    )
        requires
            self.first_part_short(k),
            is_range_between(
                contents,
                self.change_prefix(k),
                Some((cw_bytes_of(height), true)),
                None,
                Order::Ascending,
                changes,
            ),
            contents.contains_key(self.change_key(k, height)),
        ensures
            changes.len() > 0,
            changes[0].1 == contents[self.change_key(k, height)],
    {
        let cw = cw_bytes_of(height);
        let p = self.change_prefix(k);
        self.lemma_change_key_split(k, height);
        crate::prefix::lemma_range_starts_at_bound(contents, p, cw, changes);
    }
}

/// The value a key had before height `h`, after the writes `ws` (each a height and the
/// value written, `None` for a removal) in order: that of the last write below `h`, or none.
pub open spec fn value_before(ws: Seq<(u64, Option<Seq<u8>>)>, h: u64) -> Option<Seq<u8>>
    decreases ws.len(),
{
    if ws.len() == 0 {
        None
    } else if ws.last().0 < h {
        ws.last().1
    } else {
        value_before(ws.drop_last(), h)
    }
}

/// The value a key has after the writes `ws`.
pub open spec fn value_after(ws: Seq<(u64, Option<Seq<u8>>)>) -> Option<Seq<u8>> {
    if ws.len() == 0 {
        None
    } else {
        ws.last().1
    }
}

/// One of the writes `ws` was made at height `g`.
pub open spec fn written_at(ws: Seq<(u64, Option<Seq<u8>>)>, g: u64) -> bool {
    exists|i: int| 0 <= i < ws.len() && (#[trigger] ws[i]).0 == g
}

/// With no write at a height from `h` up to `g`, the value before `g` is the value
/// before `h`.
proof fn lemma_value_before_gap(ws: Seq<(u64, Option<Seq<u8>>)>, h: u64, g: u64)
    requires
        h <= g,
        forall|i: int| 0 <= i < ws.len() ==> !(h <= (#[trigger] ws[i]).0 < g),
    ensures
        value_before(ws, g) == value_before(ws, h),
    decreases ws.len(),
{
    if ws.len() > 0 {
        let rest = ws.drop_last();
        assert(ws[ws.len() - 1] == ws.last());
        assert forall|i: int| 0 <= i < rest.len() implies !(h <= (#[trigger] rest[i]).0 < g) by {
            assert(rest[i] == ws[i]);
        }
        lemma_value_before_gap(rest, h, g);
    }
}

/// With every write below `h`, the value before `h` is the value after all of them.
proof fn lemma_value_before_past(ws: Seq<(u64, Option<Seq<u8>>)>, h: u64)
    requires
        forall|i: int| 0 <= i < ws.len() ==> (#[trigger] ws[i]).0 < h,
    ensures
        value_before(ws, h) == value_after(ws),
{
    if ws.len() > 0 {
        assert(ws[ws.len() - 1] == ws.last());
    }
}

/// Behind a common start, byte strings of one length are ordered as their ends are.
proof fn lemma_lex_lt_after_common(p: Seq<u8>, a: Seq<u8>, b: Seq<u8>)
    requires
        a.len() == b.len(),
    ensures
        crate::helpers::lex_lt(p + a, p + b) <==> crate::helpers::lex_lt(a, b),
    decreases p.len(),
{
    if p.len() == 0 {
        assert(p + a =~= a);
        assert(p + b =~= b);
    } else {
        lemma_lex_lt_after_common(p.drop_first(), a, b);
        assert((p + a).drop_first() =~= p.drop_first() + a);
        assert((p + b).drop_first() =~= p.drop_first() + b);
        crate::int_key::lemma_lex_lt_tail(p + a, p + b);
    }
}

/// What comes before `p` comes before everything that starts with `p`.
proof fn lemma_lex_lt_extend(x: Seq<u8>, p: Seq<u8>, s: Seq<u8>)
    requires
        crate::helpers::lex_lt(x, p),
    ensures
        crate::helpers::lex_lt(x, p + s),
{
    let q = p + s;
    if is_prefix_of(x, p) && x.len() < p.len() {
        assert(q.subrange(0, x.len() as int) =~= p.subrange(0, x.len() as int));
    } else {
        let i = choose|i: int|
            0 <= i < x.len() && i < p.len() && x[i] < p[i] && x.subrange(0, i) == p.subrange(0, i);
        assert(q.subrange(0, i) =~= p.subrange(0, i));
        assert(q[i] == p[i]);
    }
}

impl<'a, K: UniformKey> Snapshot<'a, K> {
    /// The changelog of `k` in the contents records the writes `ws`: a change is logged at
    /// exactly the heights written, each holding the value the key had before that height,
    /// and no other stored key lies where the changes of `k` are read.
    pub open spec fn log_records(
        &self,
        contents: Map<Seq<u8>, Seq<u8>>,
        k: K,
        ws: Seq<(u64, Option<Seq<u8>>)>,
    ) -> bool {
        &&& forall|g: u64|
            #![trigger self.change_key(k, g)]
            contents.contains_key(self.change_key(k, g)) <==> written_at(ws, g)
        &&& forall|g: u64|
            #![trigger self.change_key(k, g)]
            written_at(ws, g) ==> changeset_of(contents[self.change_key(k, g)]) == Some(
                value_before(ws, g),
            )
        &&& forall|key: Seq<u8>, s: Seq<u8>|
            #![trigger contents.contains_key(key), self.change_prefix(k) + s]
            contents.contains_key(key) && crate::storage::in_range(
                key,
                Some(self.change_prefix(k) + s),
                Some(crate::helpers::upper_bound_of(self.change_prefix(k))),
            ) ==> exists|g: u64| key == #[trigger] self.change_key(k, g)
    }

    /// A change key is the changes prefix of the key followed by the encoded height, and
    /// the prefix holds a byte below 255 after the length-prefixed changelog namespace (the
    /// length of the key's first part, which is shorter than 65535 bytes).
    proof fn lemma_change_key_split(&self, k: K, g: u64)
        requires
            self.first_part_short(k),
        ensures
            self.change_key(k, g) == self.change_prefix(k) + cw_bytes_of(g),
            self.change_prefix(k) == crate::helpers::length_prefixed(self.changelog_namespace())
                + crate::helpers::nested_prefix(k.key_spec()),
            exists|t: int|
                2 + self.changelog_namespace().len() <= t < self.change_prefix(k).len()
                    && self.change_prefix(k)[t] != 255,
            exists|i: int| 0 <= i < self.change_prefix(k).len() && self.change_prefix(k)[i] != 255,
    {
        k.lemma_prefix_is_key();
        let ns = self.changelog_namespace();
        let ks = k.key_spec();
        let cw = cw_bytes_of(g);
        let p = self.change_prefix(k);
        assert((ks + seq![cw]).drop_last() =~= ks);
        assert(seq![ns] + (ks + seq![cw]).drop_last() =~= seq![ns] + ks);
        assert(crate::helpers::nested_prefix(seq![ns] + ks) + Seq::<u8>::empty() =~= crate::helpers::nested_prefix(seq![ns] + ks));
        lemma_nested_first(ns, ks);
        let lp = crate::helpers::length_prefixed(ns);
        let first = crate::helpers::length_prefixed(ks[0]);
        assert(crate::helpers::nested_prefix(ks) == first + crate::helpers::nested_prefix(ks.drop_first()));
        let t0: int = 2 + ns.len() as int;
        assert(p == lp + (first + crate::helpers::nested_prefix(ks.drop_first())));
        assert(p[t0] == first[0]);
        assert(p[t0 + 1] == first[1]);
        let n = ks[0].len();
        assert(first[0] == (n / 256) as u8 && first[1] == (n % 256) as u8);
        if p[t0] == 255 {
            assert(p[t0 + 1] != 255);
        }
    }

    /// History is read back: when the changelog of `k` records the writes `ws`, the first
    /// change a read at height `h` finds holds the value `k` had before `h`; and when it
    /// finds none, every write was made below `h`, so the value before `h` is the value
    /// after all writes (for every key type, composite keys included, whose first part is
    /// shorter than 65535 bytes).
    pub proof fn lemma_read_follows_history(
        &self,
        contents: Map<Seq<u8>, Seq<u8>>,
        k: K,
        ws: Seq<(u64, Option<Seq<u8>>)>,
        h: u64,
        changes: Seq<(Seq<u8>, Seq<u8>)>,
    )
        requires
            self.first_part_short(k),
            self.log_records(contents, k, ws),
            is_range_between(
                contents,
                self.change_prefix(k),
                Some((cw_bytes_of(h), true)),
                None,
                Order::Ascending,
                changes,
            ),
        ensures
            changes.len() == 0 ==> value_before(ws, h) == value_after(ws),
            changes.len() > 0 ==> changeset_of(changes[0].1) == Some(value_before(ws, h)),
    {
        let p = self.change_prefix(k);
        let ch = cw_bytes_of(h);
        let start = crate::prefix::start_key(p, Some((ch, true)));
        let end = crate::prefix::end_key(p, None);
        self.lemma_change_key_split(k, h);
        assert(start == p + ch);
        let raw = choose|raw: Seq<(Seq<u8>, Seq<u8>)>|
            {
                &&& crate::storage::is_range_of(contents, Some(start), Some(end), Order::Ascending, raw)
                &&& changes == crate::prefix::trim_keys(raw, p.len())
            };
        assert(raw.len() == changes.len());
        // every change of `k` logged at `h` or later is in the range read
        assert forall|g: u64| h <= g && written_at(ws, g) implies exists|j: int|
            0 <= j < raw.len() && #[trigger] raw[j].0 == p + cw_bytes_of(g) by {
            self.lemma_change_key_split(k, g);
            let key = p + cw_bytes_of(g);
            assert(contents.contains_key(self.change_key(k, g)));
            crate::int_key::lemma_cw_key_order::<u64>(g, h);
            crate::int_key::lemma_pow256_values();
            crate::int_key::lemma_be_bytes_value(g as nat, 8);
            crate::int_key::lemma_be_bytes_value(h as nat, 8);
            lemma_lex_lt_after_common(p, cw_bytes_of(g), ch);
            assert(key.subrange(0, p.len() as int) =~= p);
            crate::prefix::lemma_prefixed_keys_in_range(p, key);
            assert(crate::storage::in_range(key, Some(start), Some(end)));
        }
        if changes.len() == 0 {
            assert forall|i: int| 0 <= i < ws.len() implies (#[trigger] ws[i]).0 < h by {
                let g = ws[i].0;
                assert(written_at(ws, g));
                if h <= g {
                    let j = choose|j: int| 0 <= j < raw.len() && #[trigger] raw[j].0 == p + cw_bytes_of(g);
                }
            }
            lemma_value_before_past(ws, h);
        } else {
            let key0 = raw[0].0;
            assert(contents.contains_key(key0) && contents[key0] == raw[0].1);
            assert(crate::storage::in_range(key0, Some(start), Some(end)));
            if crate::helpers::lex_lt(key0, p) {
                lemma_lex_lt_extend(key0, p, ch);
            }
            assert(crate::storage::in_range(key0, Some(p + ch), Some(crate::helpers::upper_bound_of(p))));
            let g0 = choose|g0: u64| key0 == #[trigger] self.change_key(k, g0);
            self.lemma_change_key_split(k, g0);
            assert(written_at(ws, g0));
            crate::int_key::lemma_cw_key_order::<u64>(g0, h);
            crate::int_key::lemma_pow256_values();
            crate::int_key::lemma_be_bytes_value(g0 as nat, 8);
            crate::int_key::lemma_be_bytes_value(h as nat, 8);
            lemma_lex_lt_after_common(p, cw_bytes_of(g0), ch);
            assert(h <= g0);
            assert forall|i: int| 0 <= i < ws.len() implies !(h <= (#[trigger] ws[i]).0 < g0) by {
                let g = ws[i].0;
                if h <= g && g < g0 {
                    assert(written_at(ws, g));
                    let j = choose|j: int| 0 <= j < raw.len() && #[trigger] raw[j].0 == p + cw_bytes_of(g);
                    crate::int_key::lemma_cw_key_order::<u64>(g0, g);
                    crate::int_key::lemma_be_bytes_value(g as nat, 8);
                    lemma_lex_lt_after_common(p, cw_bytes_of(g0), cw_bytes_of(g));
                    if j == 0 {
                        assert((p + cw_bytes_of(g)).subrange(p.len() as int, p.len() + 8int) =~= cw_bytes_of(g));
                        assert((p + cw_bytes_of(g0)).subrange(p.len() as int, p.len() + 8int) =~= cw_bytes_of(g0));
                    } else {
                        assert(crate::helpers::lex_lt(raw[0].0, raw[j].0));
                    }
                }
            }
            lemma_value_before_gap(ws, h, g0);
            assert(changes[0].1 == raw[0].1);
        }
    }

    /// Change keys of one key at different heights differ.
    proof fn lemma_change_keys_apart(&self, k: K, g: u64, h: u64)
        requires
            self.first_part_short(k),
        ensures
            self.change_key(k, g) == self.change_key(k, h) ==> g == h,
    {
        self.lemma_change_key_split(k, g);
        self.lemma_change_key_split(k, h);
        let p = self.change_prefix(k);
        crate::int_key::lemma_cw_key_order::<u64>(g, h);
        crate::int_key::lemma_pow256_values();
        crate::int_key::lemma_be_bytes_value(g as nat, 8);
        crate::int_key::lemma_be_bytes_value(h as nat, 8);
        if self.change_key(k, g) == self.change_key(k, h) {
            assert((p + cw_bytes_of(g)).subrange(p.len() as int, p.len() + 8int) =~= cw_bytes_of(g));
            assert((p + cw_bytes_of(h)).subrange(p.len() as int, p.len() + 8int) =~= cw_bytes_of(h));
        }
    }

    /// Nothing stored where the changes of `k` are read: the changelog records no writes.
    pub proof fn lemma_no_history(&self, contents: Map<Seq<u8>, Seq<u8>>, k: K)
        requires
            self.first_part_short(k),
            forall|key: Seq<u8>, s: Seq<u8>|
                #![trigger contents.contains_key(key), self.change_prefix(k) + s]
                !(contents.contains_key(key) && crate::storage::in_range(
                    key,
                    Some(self.change_prefix(k) + s),
                    Some(crate::helpers::upper_bound_of(self.change_prefix(k))),
                )),
        ensures
            self.log_records(contents, k, Seq::empty()),
    {
        let p = self.change_prefix(k);
        assert forall|g: u64| !contents.contains_key(#[trigger] self.change_key(k, g)) by {
            self.lemma_change_key_split(k, g);
            let key = p + cw_bytes_of(g);
            assert(key.subrange(0, p.len() as int) =~= p);
            crate::prefix::lemma_prefixed_keys_in_range(p, key);
            if crate::helpers::lex_lt(key, key) {
                crate::prefix::lemma_lex_lt_asymmetric(key, key);
            }
            assert(!(contents.contains_key(key) && crate::storage::in_range(
                key,
                Some(p + cw_bytes_of(g)),
                Some(crate::helpers::upper_bound_of(p)),
            )));
        }
    }

    /// Logging the change of `k` at a height no lower than any write keeps the changelog
    /// recording the writes, with one more at that height, whatever that one writes.
    proof fn lemma_logged_extends(
        &self,
        before: Map<Seq<u8>, Seq<u8>>,
        k: K,
        ws: Seq<(u64, Option<Seq<u8>>)>,
        height: u64,
        current: Seq<u8>,
        v: Option<Seq<u8>>,
    )
        requires
            self.first_part_short(k),
            self.log_records(before, k, ws),
            forall|i: int| 0 <= i < ws.len() ==> (#[trigger] ws[i]).0 <= height,
            current_at(before, current) == value_after(ws),
            value_after(ws) matches Some(x) ==> x.len() > 0 && x != seq![110u8, 117u8, 108u8, 108u8],
        ensures
            self.logged(before, k, height, current) matches Ok(m) && self.log_records(
                m,
                k,
                ws.push((height, v)),
            ),
    {
        let ws2 = ws.push((height, v));
        let ck = self.change_key(k, height);
        assert(ws2[ws.len() as int] == (height, v));
        assert(ws2.drop_last() =~= ws);
        assert(ws2.last() == (height, v));
        assert forall|i: int| 0 <= i < ws.len() implies #[trigger] ws2[i] == ws[i] by {}
        assert forall|g: u64| written_at(ws2, g) <==> (written_at(ws, g) || g == height) by {
            if written_at(ws, g) {
                let i = choose|i: int| 0 <= i < ws.len() && (#[trigger] ws[i]).0 == g;
                assert(ws2[i] == ws[i]);
            }
            if written_at(ws2, g) {
                let i = choose|i: int| 0 <= i < ws2.len() && (#[trigger] ws2[i]).0 == g;
                if i < ws.len() {
                    assert(ws2[i] == ws[i]);
                    assert(written_at(ws, g));
                }
            }
            if g == height {
                assert(ws2[ws.len() as int].0 == g);
            }
        }
        assert forall|g: u64| written_at(ws, g) implies value_before(ws2, g) == value_before(ws, g) by {
            let i = choose|i: int| 0 <= i < ws.len() && (#[trigger] ws[i]).0 == g;
            assert(g <= height);
        }
        if before.contains_key(ck) {
            assert(written_at(ws, height));
            assert(self.logged(before, k, height, current) == Ok::<Map<Seq<u8>, Seq<u8>>, StorageError>(before));
            assert forall|g: u64|
                #![trigger self.change_key(k, g)]
                written_at(ws2, g) implies changeset_of(before[self.change_key(k, g)]) == Some(
                    value_before(ws2, g),
                ) by {
                assert(written_at(ws, g));
            }
        } else {
            assert(!written_at(ws, height));
            assert forall|i: int| 0 <= i < ws.len() implies (#[trigger] ws[i]).0 < height by {
                let g = ws[i].0;
                assert(written_at(ws, g));
            }
            lemma_value_before_past(ws, height);
            assert(value_before(ws2, height) == value_before(ws, height));
            lemma_changeset_roundtrip(value_after(ws));
            let m = before.insert(ck, changeset_bytes(value_after(ws)));
            assert(self.logged(before, k, height, current) == Ok::<Map<Seq<u8>, Seq<u8>>, StorageError>(m));
            assert forall|g: u64|
                #![trigger self.change_key(k, g)]
                m.contains_key(self.change_key(k, g)) <==> written_at(ws2, g) by {
                self.lemma_change_keys_apart(k, g, height);
            }
            assert forall|g: u64|
                #![trigger self.change_key(k, g)]
                written_at(ws2, g) implies changeset_of(m[self.change_key(k, g)]) == Some(
                    value_before(ws2, g),
                ) by {
                self.lemma_change_keys_apart(k, g, height);
            }
            assert forall|key: Seq<u8>, s: Seq<u8>|
                #![trigger m.contains_key(key), self.change_prefix(k) + s]
                m.contains_key(key) && crate::storage::in_range(
                    key,
                    Some(self.change_prefix(k) + s),
                    Some(crate::helpers::upper_bound_of(self.change_prefix(k))),
                ) implies exists|g: u64| key == #[trigger] self.change_key(k, g) by {
                if key == ck {
                    assert(key == self.change_key(k, height));
                } else {
                    assert(before.contains_key(key));
                }
            }
        }
    }
}

impl<'a, K: UniformKey + Copy> SnapshotMap<'a, K> {
    /// The entry key of `k` lies outside where the changes of `k` are read, and is no change
    /// key.
    proof fn lemma_entry_apart_from_changes(&self, k: K)
        requires
            self.ok_for(k),
            self.snapshots().first_part_short(k),
            self.primary_namespace() != self.snapshots().changelog_namespace(),
        ensures
            forall|s: Seq<u8>|
                !crate::storage::in_range(
                    self.entry_key(k),
                    Some(#[trigger] (self.snapshots().change_prefix(k) + s)),
                    Some(crate::helpers::upper_bound_of(self.snapshots().change_prefix(k))),
                ),
            forall|g: u64| self.entry_key(k) != #[trigger] self.snapshots().change_key(k, g),
    {
        k.lemma_prefix_is_key();
        let p = self.snapshots().change_prefix(k);
        let ek = self.entry_key(k);
        let cns = self.snapshots().changelog_namespace();
        let pns = self.primary_namespace();
        let ks = k.key_spec();
        let np = crate::helpers::nested_prefix(ks);
        let nq = crate::helpers::nested_prefix(ks.drop_last());
        let lc = crate::helpers::length_prefixed(cns);
        let lq = crate::helpers::length_prefixed(pns);
        self.snapshots().lemma_change_key_split(k, 0);
        lemma_nested_first(pns, ks.drop_last());
        assert(p == lc + np);
        assert(ek == lq + nq + ks.last());
        if is_prefix_of(p, ek) {
            let rest = ek.subrange(p.len() as int, ek.len() as int);
            assert(ek =~= p + rest);
            assert(lc + np + rest =~= lc + (np + rest));
            assert(lq + nq + ks.last() =~= lq + (nq + ks.last()));
            lemma_namespaces_apart(cns, np + rest, pns, nq + ks.last());
        }
        let c: int = 2 + cns.len() as int;
        assert forall|s: Seq<u8>|
            !crate::storage::in_range(
                ek,
                Some(#[trigger] (p + s)),
                Some(crate::helpers::upper_bound_of(p)),
            ) by {
            crate::prefix::lemma_prefix_split(p, ek);
            if ek.len() < p.len() && is_prefix_of(ek, p) {
                assert((p + s).subrange(0, ek.len() as int) =~= p.subrange(0, ek.len() as int));
                assert(crate::helpers::lex_lt(ek, p + s));
            } else {
                let i = choose|i: int|
                    0 <= i < ek.len() && i < p.len() && ek[i] != p[i] && ek.subrange(0, i)
                        == p.subrange(0, i);
                if i >= c {
                    assert(ek.subrange(0, 2) =~= ek.subrange(0, i).subrange(0, 2));
                    assert(p.subrange(0, 2) =~= p.subrange(0, i).subrange(0, 2));
                    assert(ek.subrange(0, 2) =~= crate::helpers::length_bytes(pns.len()));
                    assert(p.subrange(0, 2) =~= crate::helpers::length_bytes(cns.len()));
                    crate::helpers::lemma_length_bytes_injective(pns.len(), cns.len());
                    assert(ek.subrange(2, c) =~= ek.subrange(0, i).subrange(2, c));
                    assert(p.subrange(2, c) =~= p.subrange(0, i).subrange(2, c));
                    assert(ek.subrange(2, c) =~= pns);
                    assert(p.subrange(2, c) =~= cns);
                }
                crate::prefix::lemma_outside_prefix_range(ek, p, s, i);
            }
        }
        assert forall|g: u64| ek != #[trigger] self.snapshots().change_key(k, g) by {
            self.snapshots().lemma_change_key_split(k, g);
            if ek == self.snapshots().change_key(k, g) {
                assert((p + cw_bytes_of(g)).subrange(0, p.len() as int) =~= p);
            }
        }
    }

    /// A changelog record survives any change of the entry key of `k`.
    proof fn lemma_records_off_entry(
        &self,
        m: Map<Seq<u8>, Seq<u8>>,
        after: Map<Seq<u8>, Seq<u8>>,
        k: K,
        ws: Seq<(u64, Option<Seq<u8>>)>,
    )
        requires
            self.snapshots().log_records(m, k, ws),
            after.remove(self.entry_key(k)) == m.remove(self.entry_key(k)),
            forall|s: Seq<u8>|
                !crate::storage::in_range(
                    self.entry_key(k),
                    Some(#[trigger] (self.snapshots().change_prefix(k) + s)),
                    Some(crate::helpers::upper_bound_of(self.snapshots().change_prefix(k))),
                ),
            forall|g: u64| self.entry_key(k) != #[trigger] self.snapshots().change_key(k, g),
        ensures
            self.snapshots().log_records(after, k, ws),
    {
        let ek = self.entry_key(k);
        assert forall|key: Seq<u8>| key != ek implies (after.contains_key(key) <==> m.contains_key(key))
            && (m.contains_key(key) ==> after[key] == m[key]) by {
            assert(after.remove(ek).contains_key(key) == after.contains_key(key));
            assert(m.remove(ek).contains_key(key) == m.contains_key(key));
            if m.contains_key(key) {
                assert(after.remove(ek)[key] == after[key]);
                assert(m.remove(ek)[key] == m[key]);
            }
        }
        let snap = self.snapshots();
        assert forall|g: u64|
            #![trigger snap.change_key(k, g)]
            after.contains_key(snap.change_key(k, g)) <==> written_at(ws, g) by {
            assert(ek != snap.change_key(k, g));
        }
        assert forall|g: u64|
            #![trigger snap.change_key(k, g)]
            written_at(ws, g) implies changeset_of(after[snap.change_key(k, g)]) == Some(
                value_before(ws, g),
            ) by {
            assert(ek != snap.change_key(k, g));
        }
        assert forall|key: Seq<u8>, s: Seq<u8>|
            #![trigger after.contains_key(key), snap.change_prefix(k) + s]
            after.contains_key(key) && crate::storage::in_range(
                key,
                Some(snap.change_prefix(k) + s),
                Some(crate::helpers::upper_bound_of(snap.change_prefix(k))),
            ) implies exists|g: u64| key == #[trigger] snap.change_key(k, g) by {
            if key != ek {
                assert(after.remove(ek).contains_key(key));
                assert(m.remove(ek).contains_key(key));
                assert(m.contains_key(key));
            }
        }
    }

    /// History is logged: with every block checkpointed, a save of `k` at a height no lower
    /// than any earlier write keeps the changelog recording the writes, now with this one,
    /// and leaves `k` holding the saved value (for every key type, composite keys included,
    /// whose first part is shorter than 65535 bytes, and values that are not the text
    /// `null`).
    pub proof fn lemma_save_extends_history(
        &self,
        before: Map<Seq<u8>, Seq<u8>>,
        after: Map<Seq<u8>, Seq<u8>>,
        k: K,
        ws: Seq<(u64, Option<Seq<u8>>)>,
        data: Seq<u8>,
        height: u64,
        r: Result<(), StorageError>,
    )
        requires
            self.snapshots().strategy() == Strategy::EveryBlock,
            self.ok_for(k),
            self.snapshots().first_part_short(k),
            self.primary_namespace() != self.snapshots().changelog_namespace(),
            self.snapshots().log_records(before, k, ws),
            current_at(before, self.entry_key(k)) == value_after(ws),
            value_after(ws) matches Some(x) ==> x.len() > 0 && x != seq![110u8, 117u8, 108u8, 108u8],
            forall|i: int| 0 <= i < ws.len() ==> (#[trigger] ws[i]).0 <= height,
            exists|d: Result<bool, StorageError>|
                {
                    &&& self.snapshots().decision(before, k, d)
                    &&& write_outcome(
                        before,
                        after,
                        self.snapshots().written(before, k, height, self.entry_key(k), d),
                        |m: Map<Seq<u8>, Seq<u8>>| m.insert(self.entry_key(k), data),
                        r,
                    )
                },
        ensures
            r is Ok,
            self.snapshots().log_records(after, k, ws.push((height, Some(data)))),
            current_at(after, self.entry_key(k)) == value_after(ws.push((height, Some(data)))),
    {
        let ek = self.entry_key(k);
        let ws2 = ws.push((height, Some(data)));
        self.snapshots().lemma_logged_extends(before, k, ws, height, ek, Some(data));
        let m = self.snapshots().logged(before, k, height, ek)->Ok_0;
        assert(after == m.insert(ek, data));
        self.lemma_entry_apart_from_changes(k);
        assert(after.remove(ek) =~= m.remove(ek));
        self.lemma_records_off_entry(m, after, k, ws2);
        assert(ws2.last() == (height, Some(data)));
    }

    /// History is logged: with every block checkpointed, a removal of `k` at a height no
    /// lower than any earlier write keeps the changelog recording the writes, now with this
    /// one, and leaves `k` without a value (under the conditions of the save law).
    pub proof fn lemma_remove_extends_history(
        &self,
        before: Map<Seq<u8>, Seq<u8>>,
        after: Map<Seq<u8>, Seq<u8>>,
        k: K,
        ws: Seq<(u64, Option<Seq<u8>>)>,
        height: u64,
        r: Result<(), StorageError>,
    )
        requires
            self.snapshots().strategy() == Strategy::EveryBlock,
            self.ok_for(k),
            self.snapshots().first_part_short(k),
            self.primary_namespace() != self.snapshots().changelog_namespace(),
            self.snapshots().log_records(before, k, ws),
            current_at(before, self.entry_key(k)) == value_after(ws),
            value_after(ws) matches Some(x) ==> x.len() > 0 && x != seq![110u8, 117u8, 108u8, 108u8],
            forall|i: int| 0 <= i < ws.len() ==> (#[trigger] ws[i]).0 <= height,
            exists|d: Result<bool, StorageError>|
                {
                    &&& self.snapshots().decision(before, k, d)
                    &&& write_outcome(
                        before,
                        after,
                        self.snapshots().written(before, k, height, self.entry_key(k), d),
                        |m: Map<Seq<u8>, Seq<u8>>| m.remove(self.entry_key(k)),
                        r,
                    )
                },
        ensures
            r is Ok,
            self.snapshots().log_records(after, k, ws.push((height, None))),
            current_at(after, self.entry_key(k)) == value_after(ws.push((height, None))),
    {
        let ek = self.entry_key(k);
        let ws2 = ws.push((height, None));
        self.snapshots().lemma_logged_extends(before, k, ws, height, ek, None);
        let m = self.snapshots().logged(before, k, height, ek)->Ok_0;
        assert(after == m.remove(ek));
        self.lemma_entry_apart_from_changes(k);
        assert(after.remove(ek) =~= m.remove(ek));
        self.lemma_records_off_entry(m, after, k, ws2);
        assert(ws2.last() == (height, None::<Seq<u8>>));
    }

    /// History is kept: with every block checkpointed, when the changelog of `k` records the
    /// writes `ws` and `k` holds the value they left, a read of `k` at any height (as
    /// `may_load_at_height` answers it) gives the value `k` had before that height: that of
    /// the last write below it, or none (for every key type, composite keys included, whose
    /// first part is shorter than 65535 bytes).
    pub proof fn lemma_history_at_height(
        &self,
        contents: Map<Seq<u8>, Seq<u8>>,
        k: K,
        ws: Seq<(u64, Option<Seq<u8>>)>,
        height: u64,
        r: Result<Option<Vec<u8>>, StorageError>,
    )
        requires
            self.snapshots().strategy() == Strategy::EveryBlock,
            self.snapshots().first_part_short(k),
            self.snapshots().log_records(contents, k, ws),
            current_at(contents, self.entry_key(k)) == value_after(ws),
            self.snapshots().checkpointed(contents, height) is Ok ==> exists|
                chs: Seq<(Seq<u8>, Seq<u8>)>,
            |
                {
                    &&& is_range_between(
                        contents,
                        self.snapshots().change_prefix(k),
                        Some((cw_bytes_of(height), true)),
                        None,
                        Order::Ascending,
                        chs,
                    )
                    &&& at_height_outcome(chs, current_at(contents, self.entry_key(k)), r)
                },
        ensures
            r matches Ok(v) && opt_bytes(v) == value_before(ws, height),
    {
        assert(self.snapshots().checkpointed(contents, height) is Ok);
        let chs = choose|chs: Seq<(Seq<u8>, Seq<u8>)>|
            {
                &&& is_range_between(
                    contents,
                    self.snapshots().change_prefix(k),
                    Some((cw_bytes_of(height), true)),
                    None,
                    Order::Ascending,
                    chs,
                )
                &&& at_height_outcome(chs, current_at(contents, self.entry_key(k)), r)
            };
        self.snapshots().lemma_read_follows_history(contents, k, ws, height, chs);
    }

    /// History is kept: when every block is checkpointed, reading a key at a height right
    /// after saving it at that height (with nothing logged for it at that height before)
    /// finds first the logged value the key had before the save, or that it had none; so
    /// `may_load_at_height` answers that value.
    pub proof fn lemma_save_then_read_at_height(
        &self,
        before: Map<Seq<u8>, Seq<u8>>,
        after: Map<Seq<u8>, Seq<u8>>,
        k: K,
        data: Seq<u8>,
        height: u64,
        r: Result<(), StorageError>,
        changes: Seq<(Seq<u8>, Seq<u8>)>,
    )
        requires
            self.snapshots().strategy() == Strategy::EveryBlock,
            self.ok_for(k),
            self.snapshots().first_part_short(k),
            self.primary_namespace() != self.snapshots().changelog_namespace(),
            current_at(before, self.entry_key(k)) matches Some(v) ==> v.len() > 0 && v != seq![
                110u8,
                117u8,
                108u8,
                108u8,
            ],
            !before.contains_key(self.snapshots().change_key(k, height)),
            exists|d: Result<bool, StorageError>|
                {
                    &&& self.snapshots().decision(before, k, d)
                    &&& write_outcome(
                        before,
                        after,
                        self.snapshots().written(before, k, height, self.entry_key(k), d),
                        |m: Map<Seq<u8>, Seq<u8>>| m.insert(self.entry_key(k), data),
                        r,
                    )
                },
            is_range_between(
                after,
                self.snapshots().change_prefix(k),
                Some((cw_bytes_of(height), true)),
                None,
                Order::Ascending,
                changes,
            ),
        ensures
            r is Ok,
            changes.len() > 0,
            changeset_of(changes[0].1) == Some(current_at(before, self.entry_key(k))),
    {
        let ck = self.snapshots().change_key(k, height);
        let ek = self.entry_key(k);
        let ks = k.key_spec();
        let pns = self.primary_namespace();
        let cns = self.snapshots().changelog_namespace();
        let logged = changeset_bytes(current_at(before, ek));
        assert(after == before.insert(ck, logged).insert(ek, data));
        lemma_nested_first(cns, ks);
        lemma_nested_first(pns, ks.drop_last());
        assert((ks + seq![cw_bytes_of(height)]).drop_last() =~= ks);
        assert((ks + seq![cw_bytes_of(height)]).last() == cw_bytes_of(height));
        assert(ck =~= crate::helpers::length_prefixed(cns) + (crate::helpers::nested_prefix(ks)
            + cw_bytes_of(height)));
        assert(ek =~= crate::helpers::length_prefixed(pns) + (crate::helpers::nested_prefix(
            ks.drop_last(),
        ) + ks.last()));
        lemma_namespaces_apart(
            cns,
            crate::helpers::nested_prefix(ks) + cw_bytes_of(height),
            pns,
            crate::helpers::nested_prefix(ks.drop_last()) + ks.last(),
        );
        assert(ck != ek);
        assert(after.contains_key(ck) && after[ck] == logged);
        self.snapshots().lemma_logged_change_read_first(after, k, height, changes);
        lemma_changeset_roundtrip(current_at(before, ek));
    }
}

} // verus!
