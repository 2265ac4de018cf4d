//! Typed bounds of a key range, and their raw byte form.
use crate::helpers::{all_encodable, nested_prefix};
use crate::keys::{joinable, joined_key_of, Prefixer, PrimaryKey};
use crate::prefix::{opt_bound, Bound as ByteBound};
use vstd::prelude::*;

verus! {

/// `RawBound` is used to define the two ends of a range, more explicit than `Option<u8>`.
/// `Inclusive` means we use the given bytes as a limit and *include* anything at that exact key.
/// `Exclusive` means we use the given bytes as a limit and *exclude* anything at that exact key.
/// See `Bound` for a type safe way to build these bounds.
#[derive(Clone, Debug)]
pub enum RawBound {
    Inclusive(Vec<u8>),
    Exclusive(Vec<u8>),
}

impl RawBound {
    /// The limit bytes and whether the limit itself is included.
    pub open spec fn view_bound(self) -> (Seq<u8>, bool) {
        match self {
            RawBound::Inclusive(v) => (v@, true),
            RawBound::Exclusive(v) => (v@, false),
        }
    }
}

/// `Bound` is used to define the two ends of a range.
/// `Inclusive` means we use the given value as a limit and *include* anything at that exact key.
/// `Exclusive` means we use the given value as a limit and *exclude* anything at that exact key.
/// The raw variants carry an already joined key.
pub enum Bound<K> {
    Inclusive(K),
    Exclusive(K),
    InclusiveRaw(Vec<u8>),
    ExclusiveRaw(Vec<u8>),
}

impl<K: PrimaryKey> Bound<K> {
    pub fn inclusive(k: K) -> (r: Self)
        ensures
            r == Bound::Inclusive(k),
    {
        Bound::Inclusive(k)
    }

    pub fn exclusive(k: K) -> (r: Self)
        ensures
            r == Bound::Exclusive(k),
    {
        Bound::Exclusive(k)
    }

    /// The bound can be written as bytes: a typed key must be joinable.
    pub open spec fn raw_ok(&self) -> bool {
        match self {
            Bound::Inclusive(k) => joinable(k.key_spec()),
            Bound::Exclusive(k) => joinable(k.key_spec()),
            _ => true,
        }
    }

    /// The limit bytes of the bound and whether the limit is included.
    pub open spec fn raw_spec(&self) -> (Seq<u8>, bool) {
        match self {
            Bound::Inclusive(k) => (joined_key_of(k.key_spec()), true),
            Bound::Exclusive(k) => (joined_key_of(k.key_spec()), false),
            Bound::InclusiveRaw(v) => (v@, true),
            Bound::ExclusiveRaw(v) => (v@, false),
        }
    }

    pub fn to_raw_bound(&self) -> (r: RawBound)
        requires
            self.raw_ok(),
        ensures
            r.view_bound() == self.raw_spec(),
    {
        match self {
            Bound::Inclusive(k) => RawBound::Inclusive(k.joined_key()),
            Bound::Exclusive(k) => RawBound::Exclusive(k.joined_key()),
            Bound::ExclusiveRaw(raw_k) => {
                let v = raw_k.clone();
                RawBound::Exclusive(v)
            },
            Bound::InclusiveRaw(raw_k) => {
                let v = raw_k.clone();
                RawBound::Inclusive(v)
            },
        }
    }
}

/// The limit bytes of an optional bound and whether the limit is included.
pub open spec fn opt_raw_spec<K: PrimaryKey>(bound: Option<Bound<K>>) -> Option<(Seq<u8>, bool)> {
    match bound {
        None => None,
        Some(b) => Some(b.raw_spec()),
    }
}

/// An optional bound can be written as bytes.
pub open spec fn opt_raw_ok<K: PrimaryKey>(bound: Option<Bound<K>>) -> bool {
    bound matches Some(b) ==> b.raw_ok()
}

/// An optional typed bound, written as a bound on bytes.
pub fn byte_bound<K: PrimaryKey>(bound: Option<Bound<K>>) -> (r: Option<ByteBound>)
    requires
        opt_raw_ok(bound),
    ensures
        opt_bound(r) == opt_raw_spec(bound),
{
    match bound {
        None => None,
        Some(b) => match b.to_raw_bound() {
            RawBound::Inclusive(v) => Some(ByteBound::Inclusive(v)),
            RawBound::Exclusive(v) => Some(ByteBound::Exclusive(v)),
        },
    }
}

/// A bound on the prefix of a composite key.
pub enum PrefixBound<K> {
    Inclusive(K),
    Exclusive(K),
}

impl<K: Prefixer> PrefixBound<K> {
    pub fn inclusive(k: K) -> (r: Self)
        ensures
            r == PrefixBound::Inclusive(k),
    {
        PrefixBound::Inclusive(k)
    }

    pub fn exclusive(k: K) -> (r: Self)
        ensures
            r == PrefixBound::Exclusive(k),
    {
        PrefixBound::Exclusive(k)
    }

    /// The prefix of the bound.
    pub open spec fn prefix_key(&self) -> K {
        match self {
            PrefixBound::Inclusive(k) => *k,
            PrefixBound::Exclusive(k) => *k,
        }
    }

    /// The limit bytes of the bound and whether the limit is included.
    pub open spec fn raw_spec(&self) -> (Seq<u8>, bool) {
        (nested_prefix(self.prefix_key().prefix_spec()), self is Inclusive)
    }

    pub fn to_raw_bound(&self) -> (r: RawBound)
        requires
            all_encodable(self.prefix_key().prefix_spec()),
        ensures
            r.view_bound() == self.raw_spec(),
    {
        match self {
            PrefixBound::Exclusive(k) => RawBound::Exclusive(k.joined_prefix()),
            PrefixBound::Inclusive(k) => RawBound::Inclusive(k.joined_prefix()),
        }
    }
}


/// Keys that can bound a range of themselves.
pub trait Bounder: PrimaryKey + Sized {
    /// The bound that takes in the key itself; `None` leaves the range open.
    fn inclusive_bound(self) -> (r: Option<Bound<Self>>)
        ensures
            r matches Some(b) ==> b == Bound::Inclusive(self),
    ;

    /// The bound that stops just short of the key; `None` leaves the range open.
    fn exclusive_bound(self) -> (r: Option<Bound<Self>>)
        ensures
            r matches Some(b) ==> b == Bound::Exclusive(self),
    ;
}

/// The empty key bounds nothing.
impl Bounder for () {
    fn inclusive_bound(self) -> (r: Option<Bound<Self>>)
        ensures
            r is None,
    {
        None
    }

    fn exclusive_bound(self) -> (r: Option<Bound<Self>>)
        ensures
            r is None,
    {
        None
    }
}

impl<'a> Bounder for &'a [u8] {
    fn inclusive_bound(self) -> (r: Option<Bound<Self>>)
        ensures
            r == Some(Bound::Inclusive(self)),
    {
        Some(Bound::inclusive(self))
    }

    fn exclusive_bound(self) -> (r: Option<Bound<Self>>)
        ensures
            r == Some(Bound::Exclusive(self)),
    {
        Some(Bound::exclusive(self))
    }
}

impl<'a> Bounder for &'a str {
    fn inclusive_bound(self) -> (r: Option<Bound<Self>>)
        ensures
            r == Some(Bound::Inclusive(self)),
    {
        Some(Bound::inclusive(self))
    }

    fn exclusive_bound(self) -> (r: Option<Bound<Self>>)
        ensures
            r == Some(Bound::Exclusive(self)),
    {
        Some(Bound::exclusive(self))
    }
}

impl Bounder for String {
    fn inclusive_bound(self) -> (r: Option<Bound<Self>>)
        ensures
            r == Some(Bound::Inclusive(self)),
    {
        Some(Bound::inclusive(self))
    }

    fn exclusive_bound(self) -> (r: Option<Bound<Self>>)
        ensures
            r == Some(Bound::Exclusive(self)),
    {
        Some(Bound::exclusive(self))
    }
}

impl Bounder for Vec<u8> {
    fn inclusive_bound(self) -> (r: Option<Bound<Self>>)
        ensures
            r == Some(Bound::Inclusive(self)),
    {
        Some(Bound::inclusive(self))
    }

    fn exclusive_bound(self) -> (r: Option<Bound<Self>>)
        ensures
            r == Some(Bound::Exclusive(self)),
    {
        Some(Bound::exclusive(self))
    }
}

impl<T: PrimaryKey + Prefixer, U: PrimaryKey> Bounder for (T, U) {
    fn inclusive_bound(self) -> (r: Option<Bound<Self>>)
        ensures
            r == Some(Bound::Inclusive(self)),
    {
        Some(Bound::inclusive(self))
    }

    fn exclusive_bound(self) -> (r: Option<Bound<Self>>)
        ensures
            r == Some(Bound::Exclusive(self)),
    {
        Some(Bound::exclusive(self))
    }
}

impl<T: PrimaryKey + Prefixer, U: PrimaryKey + Prefixer, V: PrimaryKey> Bounder for (T, U, V) {
    fn inclusive_bound(self) -> (r: Option<Bound<Self>>)
        ensures
            r == Some(Bound::Inclusive(self)),
    {
        Some(Bound::inclusive(self))
    }

    fn exclusive_bound(self) -> (r: Option<Bound<Self>>)
        ensures
            r == Some(Bound::Exclusive(self)),
    {
        Some(Bound::exclusive(self))
    }
}

impl Bounder for i8 {
    fn inclusive_bound(self) -> (r: Option<Bound<Self>>)
        ensures
            r == Some(Bound::Inclusive(self)),
    {
        Some(Bound::inclusive(self))
    }

    fn exclusive_bound(self) -> (r: Option<Bound<Self>>)
        ensures
            r == Some(Bound::Exclusive(self)),
    {
        Some(Bound::exclusive(self))
    }
}

impl Bounder for u8 {
    fn inclusive_bound(self) -> (r: Option<Bound<Self>>)
        ensures
            r == Some(Bound::Inclusive(self)),
    {
        Some(Bound::inclusive(self))
    }

    fn exclusive_bound(self) -> (r: Option<Bound<Self>>)
        ensures
            r == Some(Bound::Exclusive(self)),
    {
        Some(Bound::exclusive(self))
    }
}

impl Bounder for i16 {
    fn inclusive_bound(self) -> (r: Option<Bound<Self>>)
        ensures
            r == Some(Bound::Inclusive(self)),
    {
        Some(Bound::inclusive(self))
    }

    fn exclusive_bound(self) -> (r: Option<Bound<Self>>)
        ensures
            r == Some(Bound::Exclusive(self)),
    {
        Some(Bound::exclusive(self))
    }
}

impl Bounder for u16 {
    fn inclusive_bound(self) -> (r: Option<Bound<Self>>)
        ensures
            r == Some(Bound::Inclusive(self)),
    {
        Some(Bound::inclusive(self))
    }

    fn exclusive_bound(self) -> (r: Option<Bound<Self>>)
        ensures
            r == Some(Bound::Exclusive(self)),
    {
        Some(Bound::exclusive(self))
    }
}

impl Bounder for i32 {
    fn inclusive_bound(self) -> (r: Option<Bound<Self>>)
        ensures
            r == Some(Bound::Inclusive(self)),
    {
        Some(Bound::inclusive(self))
    }

    fn exclusive_bound(self) -> (r: Option<Bound<Self>>)
        ensures
            r == Some(Bound::Exclusive(self)),
    {
        Some(Bound::exclusive(self))
    }
}

impl Bounder for u32 {
    fn inclusive_bound(self) -> (r: Option<Bound<Self>>)
        ensures
            r == Some(Bound::Inclusive(self)),
    {
        Some(Bound::inclusive(self))
    }

    fn exclusive_bound(self) -> (r: Option<Bound<Self>>)
        ensures
            r == Some(Bound::Exclusive(self)),
    {
        Some(Bound::exclusive(self))
    }
}

impl Bounder for i64 {
    fn inclusive_bound(self) -> (r: Option<Bound<Self>>)
        ensures
            r == Some(Bound::Inclusive(self)),
    {
        Some(Bound::inclusive(self))
    }

    fn exclusive_bound(self) -> (r: Option<Bound<Self>>)
        ensures
            r == Some(Bound::Exclusive(self)),
    {
        Some(Bound::exclusive(self))
    }
}

impl Bounder for u64 {
    fn inclusive_bound(self) -> (r: Option<Bound<Self>>)
        ensures
            r == Some(Bound::Inclusive(self)),
    {
        Some(Bound::inclusive(self))
    }

    fn exclusive_bound(self) -> (r: Option<Bound<Self>>)
        ensures
            r == Some(Bound::Exclusive(self)),
    {
        Some(Bound::exclusive(self))
    }
}

} // verus!
