//! Integer keys in their plain big-endian (two's complement) form.
use crate::de::{KeyDeserialize, KeyError};
use crate::int_key::{
    be_bytes, be_decode, be_encode, be_value, lemma_be_bytes_value, lemma_be_value_bound,
    lemma_pow256_values, pow256,
};
use crate::keys::{key_parts, Key, Prefixer, PrimaryKey};
use core::marker::PhantomData;
use vstd::prelude::*;

verus! {

/// Integers with a big-endian byte form.
pub trait Endian: Sized + Copy + View {
    /// The number of bytes of the integer.
    spec fn byte_len() -> nat;

    /// The integer read as an unsigned number of `byte_len` bytes (two's complement).
    spec fn raw_value(self) -> nat;

    /// The integer whose two's complement form is the unsigned number `v`.
    spec fn from_raw(v: nat) -> Self;

    fn byte_size() -> (r: usize)
        ensures
            r == Self::byte_len(),
    ;

    fn to_be_bytes_vec(&self) -> (r: Vec<u8>)
        ensures
            r@ == be_bytes(self.raw_value(), Self::byte_len()),
    ;

    /// `from_be_bytes`: the integer whose big-endian form is `b`.
    fn from_be_slice(b: &[u8]) -> (r: Self)
        requires
            b@.len() == Self::byte_len(),
        ensures
            r == Self::from_raw(be_value(b@)),
    ;

    /// Reading back the two's complement form gives the integer.
    proof fn lemma_raw_roundtrip(x: Self)
        ensures
            Self::byte_len() <= 16,
            x.raw_value() < pow256(Self::byte_len()),
            Self::from_raw(x.raw_value()) == x,
    ;
}

impl Endian for u8 {
    open spec fn byte_len() -> nat {
        1
    }

    open spec fn raw_value(self) -> nat {
        self as nat
    }

    open spec fn from_raw(v: nat) -> u8 {
        v as u8
    }

    fn byte_size() -> (r: usize) {
        1
    }

    fn to_be_bytes_vec(&self) -> (r: Vec<u8>) {
        proof {
            lemma_pow256_values();
        }
        be_encode(*self as u128, 1)
    }

    fn from_be_slice(b: &[u8]) -> (r: u8) {
        proof {
            lemma_be_value_bound(b@);
            lemma_pow256_values();
        }
        let v = be_decode(b);
        v as u8
    }

    proof fn lemma_raw_roundtrip(x: u8) {
        lemma_pow256_values();
    }
}

impl Endian for u16 {
    open spec fn byte_len() -> nat {
        2
    }

    open spec fn raw_value(self) -> nat {
        self as nat
    }

    open spec fn from_raw(v: nat) -> u16 {
        v as u16
    }

    fn byte_size() -> (r: usize) {
        2
    }

    fn to_be_bytes_vec(&self) -> (r: Vec<u8>) {
        proof {
            lemma_pow256_values();
        }
        be_encode(*self as u128, 2)
    }

    fn from_be_slice(b: &[u8]) -> (r: u16) {
        proof {
            lemma_be_value_bound(b@);
            lemma_pow256_values();
        }
        let v = be_decode(b);
        v as u16
    }

    proof fn lemma_raw_roundtrip(x: u16) {
        lemma_pow256_values();
    }
}

impl Endian for u32 {
    open spec fn byte_len() -> nat {
        4
    }

    open spec fn raw_value(self) -> nat {
        self as nat
    }

    open spec fn from_raw(v: nat) -> u32 {
        v as u32
    }

    fn byte_size() -> (r: usize) {
        4
    }

    fn to_be_bytes_vec(&self) -> (r: Vec<u8>) {
        proof {
            lemma_pow256_values();
        }
        be_encode(*self as u128, 4)
    }

    fn from_be_slice(b: &[u8]) -> (r: u32) {
        proof {
            lemma_be_value_bound(b@);
            lemma_pow256_values();
        }
        let v = be_decode(b);
        v as u32
    }

    proof fn lemma_raw_roundtrip(x: u32) {
        lemma_pow256_values();
    }
}

impl Endian for u64 {
    open spec fn byte_len() -> nat {
        8
    }

    open spec fn raw_value(self) -> nat {
        self as nat
    }

    open spec fn from_raw(v: nat) -> u64 {
        v as u64
    }

    fn byte_size() -> (r: usize) {
        8
    }

    fn to_be_bytes_vec(&self) -> (r: Vec<u8>) {
        proof {
            lemma_pow256_values();
        }
        be_encode(*self as u128, 8)
    }

    fn from_be_slice(b: &[u8]) -> (r: u64) {
        proof {
            lemma_be_value_bound(b@);
            lemma_pow256_values();
        }
        let v = be_decode(b);
        v as u64
    }

    proof fn lemma_raw_roundtrip(x: u64) {
        lemma_pow256_values();
    }
}

impl Endian for u128 {
    open spec fn byte_len() -> nat {
        16
    }

    open spec fn raw_value(self) -> nat {
        self as nat
    }

    open spec fn from_raw(v: nat) -> u128 {
        v as u128
    }

    fn byte_size() -> (r: usize) {
        16
    }

    fn to_be_bytes_vec(&self) -> (r: Vec<u8>) {
        proof {
            lemma_pow256_values();
        }
        be_encode(*self as u128, 16)
    }

    fn from_be_slice(b: &[u8]) -> (r: u128) {
        proof {
            lemma_be_value_bound(b@);
            lemma_pow256_values();
        }
        let v = be_decode(b);
        v as u128
    }

    proof fn lemma_raw_roundtrip(x: u128) {
        lemma_pow256_values();
    }
}

impl Endian for i8 {
    open spec fn byte_len() -> nat {
        1
    }

    open spec fn raw_value(self) -> nat {
        if self >= 0 {
            self as nat
        } else {
            (self + 0x100) as nat
        }
    }

    open spec fn from_raw(v: nat) -> i8 {
        if v < 0x80 {
            v as i8
        } else {
            (v - 0x100) as i8
        }
    }

    fn byte_size() -> (r: usize) {
        1
    }

    fn to_be_bytes_vec(&self) -> (r: Vec<u8>) {
        proof {
            lemma_pow256_values();
        }
        let v: u128 = if *self >= 0 {
            *self as u128
        } else {
            (*self as i16 + 0x100) as u128
        };
        be_encode(v, 1)
    }

    fn from_be_slice(b: &[u8]) -> (r: i8) {
        proof {
            lemma_be_value_bound(b@);
            lemma_pow256_values();
        }
        let v = be_decode(b);
        if v < 0x80 {
            v as i8
        } else {
            (v as i16 - 0x100) as i8
        }
    }

    proof fn lemma_raw_roundtrip(x: i8) {
        lemma_pow256_values();
    }
}

impl Endian for i16 {
    open spec fn byte_len() -> nat {
        2
    }

    open spec fn raw_value(self) -> nat {
        if self >= 0 {
            self as nat
        } else {
            (self + 0x1_0000) as nat
        }
    }

    open spec fn from_raw(v: nat) -> i16 {
        if v < 0x8000 {
            v as i16
        } else {
            (v - 0x1_0000) as i16
        }
    }

    fn byte_size() -> (r: usize) {
        2
    }

    fn to_be_bytes_vec(&self) -> (r: Vec<u8>) {
        proof {
            lemma_pow256_values();
        }
        let v: u128 = if *self >= 0 {
            *self as u128
        } else {
            (*self as i32 + 0x1_0000) as u128
        };
        be_encode(v, 2)
    }

    fn from_be_slice(b: &[u8]) -> (r: i16) {
        proof {
            lemma_be_value_bound(b@);
            lemma_pow256_values();
        }
        let v = be_decode(b);
        if v < 0x8000 {
            v as i16
        } else {
            (v as i32 - 0x1_0000) as i16
        }
    }

    proof fn lemma_raw_roundtrip(x: i16) {
        lemma_pow256_values();
    }
}

impl Endian for i32 {
    open spec fn byte_len() -> nat {
        4
    }

    open spec fn raw_value(self) -> nat {
        if self >= 0 {
            self as nat
        } else {
            (self + 0x1_0000_0000) as nat
        }
    }

    open spec fn from_raw(v: nat) -> i32 {
        if v < 0x8000_0000 {
            v as i32
        } else {
            (v - 0x1_0000_0000) as i32
        }
    }

    fn byte_size() -> (r: usize) {
        4
    }

    fn to_be_bytes_vec(&self) -> (r: Vec<u8>) {
        proof {
            lemma_pow256_values();
        }
        let v: u128 = if *self >= 0 {
            *self as u128
        } else {
            (*self as i64 + 0x1_0000_0000) as u128
        };
        be_encode(v, 4)
    }

    fn from_be_slice(b: &[u8]) -> (r: i32) {
        proof {
            lemma_be_value_bound(b@);
            lemma_pow256_values();
        }
        let v = be_decode(b);
        if v < 0x8000_0000 {
            v as i32
        } else {
            (v as i64 - 0x1_0000_0000) as i32
        }
    }

    proof fn lemma_raw_roundtrip(x: i32) {
        lemma_pow256_values();
    }
}

impl Endian for i64 {
    open spec fn byte_len() -> nat {
        8
    }

    open spec fn raw_value(self) -> nat {
        if self >= 0 {
            self as nat
        } else {
            (self + 0x1_0000_0000_0000_0000) as nat
        }
    }

    open spec fn from_raw(v: nat) -> i64 {
        if v < 0x8000_0000_0000_0000 {
            v as i64
        } else {
            (v - 0x1_0000_0000_0000_0000) as i64
        }
    }

    fn byte_size() -> (r: usize) {
        8
    }

    fn to_be_bytes_vec(&self) -> (r: Vec<u8>) {
        proof {
            lemma_pow256_values();
        }
        let v: u128 = if *self >= 0 {
            *self as u128
        } else {
            (*self as i128 + 0x1_0000_0000_0000_0000) as u128
        };
        be_encode(v, 8)
    }

    fn from_be_slice(b: &[u8]) -> (r: i64) {
        proof {
            lemma_be_value_bound(b@);
            lemma_pow256_values();
        }
        let v = be_decode(b);
        if v < 0x8000_0000_0000_0000 {
            v as i64
        } else {
            (v as i128 - 0x1_0000_0000_0000_0000) as i64
        }
    }

    proof fn lemma_raw_roundtrip(x: i64) {
        lemma_pow256_values();
    }
}

impl Endian for i128 {
    open spec fn byte_len() -> nat {
        16
    }

    open spec fn raw_value(self) -> nat {
        if self >= 0 {
            self as nat
        } else {
            (self + 0x1_0000_0000_0000_0000_0000_0000_0000_0000) as nat
        }
    }

    open spec fn from_raw(v: nat) -> i128 {
        if v < 0x8000_0000_0000_0000_0000_0000_0000_0000 {
            v as i128
        } else {
            (v - 0x1_0000_0000_0000_0000_0000_0000_0000_0000) as i128
        }
    }

    fn byte_size() -> (r: usize) {
        16
    }

    fn to_be_bytes_vec(&self) -> (r: Vec<u8>) {
        proof {
            lemma_pow256_values();
        }
        let v: u128 = if *self >= 0 {
            *self as u128
        } else {
            ((*self + 1 + i128::MAX) as u128) + 0x8000_0000_0000_0000_0000_0000_0000_0000
        };
        be_encode(v, 16)
    }

    fn from_be_slice(b: &[u8]) -> (r: i128) {
        proof {
            lemma_be_value_bound(b@);
            lemma_pow256_values();
        }
        let v = be_decode(b);
        if v < 0x8000_0000_0000_0000_0000_0000_0000_0000 {
            v as i128
        } else {
            ((v - 0x8000_0000_0000_0000_0000_0000_0000_0000) as i128) - i128::MAX - 1
        }
    }

    proof fn lemma_raw_roundtrip(x: i128) {
        lemma_pow256_values();
    }
}

/// An integer key stored as the plain big-endian bytes of the integer.
#[derive(Debug)]
pub struct IntKeyOld<T> {
    pub wrapped: Vec<u8>,
    pub data: PhantomData<T>,
}

impl<T: Endian> IntKeyOld<T> {
    pub fn new(val: T) -> (r: Self)
        ensures
            r.wrapped@ == be_bytes(val.raw_value(), T::byte_len()),
    {
        IntKeyOld { wrapped: val.to_be_bytes_vec(), data: PhantomData }
    }

    /// Wraps bytes that already hold an encoded integer.
    pub fn from_vec(wrap: Vec<u8>) -> (r: Self)
        ensures
            r.wrapped@ == wrap@,
    {
        IntKeyOld { wrapped: wrap, data: PhantomData }
    }
}

impl<T: Endian> PrimaryKey for IntKeyOld<T> {
    open spec fn key_spec(&self) -> Seq<Seq<u8>> {
        seq![self.wrapped@]
    }

    fn key(&self) -> (r: Vec<Key<'_>>) {
        let mut r: Vec<Key> = Vec::new();
        r.push(Key::Ref(self.wrapped.as_slice()));
        assert(key_parts(r@) =~= seq![self.wrapped@]);
        r
    }
}

impl<T: Endian> Prefixer for IntKeyOld<T> {
    open spec fn prefix_spec(&self) -> Seq<Seq<u8>> {
        seq![self.wrapped@]
    }

    fn prefix(&self) -> (r: Vec<Key<'_>>) {
        let mut r: Vec<Key> = Vec::new();
        r.push(Key::Ref(self.wrapped.as_slice()));
        assert(key_parts(r@) =~= seq![self.wrapped@]);
        r
    }
}

impl<T: Endian> crate::keys::UniformKey for IntKeyOld<T> {
    proof fn lemma_prefix_is_key(&self) {
    }
}

/// Old integer keys deserialize into the integer whose big-endian form the bytes are.
impl<T: Endian> KeyDeserialize for IntKeyOld<T> {
    type Output = T;

    open spec fn safe(bytes: Seq<u8>) -> bool {
        true
    }

    open spec fn decodable(bytes: Seq<u8>) -> bool {
        bytes.len() == T::byte_len()
    }

    open spec fn decoded(bytes: Seq<u8>) -> <T as View>::V {
        T::from_raw(be_value(bytes))@
    }

    fn from_vec(value: Vec<u8>) -> (r: Result<T, KeyError>) {
        if value.len() != T::byte_size() {
            return Err(KeyError::InvalidLength);
        }
        Ok(T::from_be_slice(value.as_slice()))
    }
}

/// Deserializing the bytes of an old integer key gives back the integer.
pub proof fn lemma_int_key_old_roundtrip<T: Endian>(x: T)
    ensures
        IntKeyOld::<T>::decodable(be_bytes(x.raw_value(), T::byte_len())),
        T::from_raw(be_value(be_bytes(x.raw_value(), T::byte_len()))) == x,
{
    T::lemma_raw_roundtrip(x);
    lemma_be_bytes_value(x.raw_value(), T::byte_len());
}

pub type U8Key = IntKeyOld<u8>;

pub type U16Key = IntKeyOld<u16>;

pub type U32Key = IntKeyOld<u32>;

pub type U64Key = IntKeyOld<u64>;

pub type U128Key = IntKeyOld<u128>;

pub type I8Key = IntKeyOld<i8>;

pub type I16Key = IntKeyOld<i16>;

pub type I32Key = IntKeyOld<i32>;

pub type I64Key = IntKeyOld<i64>;

pub type I128Key = IntKeyOld<i128>;

} // verus!
