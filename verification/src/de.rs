//! Deserialization of storage keys back into typed values.
use crate::helpers::{length_bytes, length_prefixed};
use crate::int_key::{
    be_value, lemma_be_value_bound, lemma_pow256_values, to_arr1, to_arr16, to_arr2, to_arr4, to_arr8,
    CwIntKey,
};
use vstd::prelude::*;
use vstd::utf8::{decode_utf8, valid_utf8};

verus! {

/// Why a key could not be deserialized.
#[derive(Debug, Clone, Copy, PartialEq, Eq)]
pub enum KeyError {
    /// The bytes are not valid UTF-8.
    InvalidUtf8,
    /// The bytes do not have the length the type needs.
    InvalidLength,
}

/// `String::from_utf8`: succeeds exactly on valid UTF-8, with the decoded characters.
#[verifier::external_body]
pub(crate) fn string_from_utf8(value: Vec<u8>) -> (r: Result<String, ()>)
    ensures
        r is Ok <==> valid_utf8(value@),
        r matches Ok(s) ==> s@ == decode_utf8(value@),
{
    String::from_utf8(value).map_err(|_| ())
}

/// Types that keys can be deserialized into.
pub trait KeyDeserialize {
    type Output: View;

    /// Deserializing these bytes does not panic.
    spec fn safe(bytes: Seq<u8>) -> bool;

    /// Deserializing these bytes succeeds.
    spec fn decodable(bytes: Seq<u8>) -> bool;

    /// The value these bytes deserialize into.
    spec fn decoded(bytes: Seq<u8>) -> <Self::Output as View>::V;

    fn from_vec(value: Vec<u8>) -> (r: Result<Self::Output, KeyError>)
        requires
            Self::safe(value@),
        ensures
            r is Ok <==> Self::decodable(value@),
            r matches Ok(o) ==> o@ == Self::decoded(value@),
    ;

    fn from_slice(value: &[u8]) -> (r: Result<Self::Output, KeyError>)
        requires
            Self::safe(value@),
        ensures
            r is Ok <==> Self::decodable(value@),
            r matches Ok(o) ==> o@ == Self::decoded(value@),
    {
        let mut v: Vec<u8> = Vec::new();
        v.extend_from_slice(value);
        assert(v@ =~= value@);
        Self::from_vec(v)
    }
}

impl KeyDeserialize for () {
    type Output = ();

    open spec fn safe(bytes: Seq<u8>) -> bool {
        true
    }

    open spec fn decodable(bytes: Seq<u8>) -> bool {
        true
    }

    open spec fn decoded(bytes: Seq<u8>) -> () {
        ()
    }

    fn from_vec(_value: Vec<u8>) -> (r: Result<(), KeyError>) {
        Ok(())
    }
}

impl KeyDeserialize for Vec<u8> {
    type Output = Vec<u8>;

    open spec fn safe(bytes: Seq<u8>) -> bool {
        true
    }

    open spec fn decodable(bytes: Seq<u8>) -> bool {
        true
    }

    open spec fn decoded(bytes: Seq<u8>) -> Seq<u8> {
        bytes
    }

    fn from_vec(value: Vec<u8>) -> (r: Result<Vec<u8>, KeyError>) {
        Ok(value)
    }
}

impl<'a> KeyDeserialize for &'a [u8] {
    type Output = Vec<u8>;

    open spec fn safe(bytes: Seq<u8>) -> bool {
        true
    }

    open spec fn decodable(bytes: Seq<u8>) -> bool {
        true
    }

    open spec fn decoded(bytes: Seq<u8>) -> Seq<u8> {
        bytes
    }

    fn from_vec(value: Vec<u8>) -> (r: Result<Vec<u8>, KeyError>) {
        Ok(value)
    }
}

impl KeyDeserialize for String {
    type Output = String;

    open spec fn safe(bytes: Seq<u8>) -> bool {
        true
    }

    open spec fn decodable(bytes: Seq<u8>) -> bool {
        valid_utf8(bytes)
    }

    open spec fn decoded(bytes: Seq<u8>) -> Seq<char> {
        decode_utf8(bytes)
    }

    fn from_vec(value: Vec<u8>) -> (r: Result<String, KeyError>) {
        match string_from_utf8(value) {
            Ok(s) => Ok(s),
            Err(_) => Err(KeyError::InvalidUtf8),
        }
    }
}

impl<'a> KeyDeserialize for &'a str {
    type Output = String;

    open spec fn safe(bytes: Seq<u8>) -> bool {
        true
    }

    open spec fn decodable(bytes: Seq<u8>) -> bool {
        valid_utf8(bytes)
    }

    open spec fn decoded(bytes: Seq<u8>) -> Seq<char> {
        decode_utf8(bytes)
    }

    fn from_vec(value: Vec<u8>) -> (r: Result<String, KeyError>) {
        String::from_vec(value)
    }
}

impl KeyDeserialize for u8 {
    type Output = u8;

    open spec fn safe(bytes: Seq<u8>) -> bool {
        true
    }

    open spec fn decodable(bytes: Seq<u8>) -> bool {
        bytes.len() == 1
    }

    open spec fn decoded(bytes: Seq<u8>) -> u8 {
        be_value(bytes) as u8
    }

    fn from_vec(value: Vec<u8>) -> (r: Result<u8, KeyError>) {
        if value.len() != 1 {
            return Err(KeyError::InvalidLength);
        }
        proof {
            lemma_be_value_bound(value@);
            lemma_pow256_values();
        }
        let arr = to_arr1(value);
        let o = u8::from_cw_bytes(arr);
        assert(o == Self::decoded(value@));
        assert(o@ == o);
        Ok(o)
    }
}

impl KeyDeserialize for i8 {
    type Output = i8;

    open spec fn safe(bytes: Seq<u8>) -> bool {
        true
    }

    open spec fn decodable(bytes: Seq<u8>) -> bool {
        bytes.len() == 1
    }

    open spec fn decoded(bytes: Seq<u8>) -> i8 {
        (be_value(bytes) - 0x80) as i8
    }

    fn from_vec(value: Vec<u8>) -> (r: Result<i8, KeyError>) {
        if value.len() != 1 {
            return Err(KeyError::InvalidLength);
        }
        proof {
            lemma_be_value_bound(value@);
            lemma_pow256_values();
        }
        let arr = to_arr1(value);
        let o = i8::from_cw_bytes(arr);
        assert(o == Self::decoded(value@));
        assert(o@ == o);
        Ok(o)
    }
}

impl KeyDeserialize for u16 {
    type Output = u16;

    open spec fn safe(bytes: Seq<u8>) -> bool {
        true
    }

    open spec fn decodable(bytes: Seq<u8>) -> bool {
        bytes.len() == 2
    }

    open spec fn decoded(bytes: Seq<u8>) -> u16 {
        be_value(bytes) as u16
    }

    fn from_vec(value: Vec<u8>) -> (r: Result<u16, KeyError>) {
        if value.len() != 2 {
            return Err(KeyError::InvalidLength);
        }
        proof {
            lemma_be_value_bound(value@);
            lemma_pow256_values();
        }
        let arr = to_arr2(value);
        let o = u16::from_cw_bytes(arr);
        assert(o == Self::decoded(value@));
        assert(o@ == o);
        Ok(o)
    }
}

impl KeyDeserialize for i16 {
    type Output = i16;

    open spec fn safe(bytes: Seq<u8>) -> bool {
        true
    }

    open spec fn decodable(bytes: Seq<u8>) -> bool {
        bytes.len() == 2
    }

    open spec fn decoded(bytes: Seq<u8>) -> i16 {
        (be_value(bytes) - 0x8000) as i16
    }

    fn from_vec(value: Vec<u8>) -> (r: Result<i16, KeyError>) {
        if value.len() != 2 {
            return Err(KeyError::InvalidLength);
        }
        proof {
            lemma_be_value_bound(value@);
            lemma_pow256_values();
        }
        let arr = to_arr2(value);
        let o = i16::from_cw_bytes(arr);
        assert(o == Self::decoded(value@));
        assert(o@ == o);
        Ok(o)
    }
}

impl KeyDeserialize for u32 {
    type Output = u32;

    open spec fn safe(bytes: Seq<u8>) -> bool {
        true
    }

    open spec fn decodable(bytes: Seq<u8>) -> bool {
        bytes.len() == 4
    }

    open spec fn decoded(bytes: Seq<u8>) -> u32 {
        be_value(bytes) as u32
    }

    fn from_vec(value: Vec<u8>) -> (r: Result<u32, KeyError>) {
        if value.len() != 4 {
            return Err(KeyError::InvalidLength);
        }
        proof {
            lemma_be_value_bound(value@);
            lemma_pow256_values();
        }
        let arr = to_arr4(value);
        let o = u32::from_cw_bytes(arr);
        assert(o == Self::decoded(value@));
        assert(o@ == o);
        Ok(o)
    }
}

impl KeyDeserialize for i32 {
    type Output = i32;

    open spec fn safe(bytes: Seq<u8>) -> bool {
        true
    }

    open spec fn decodable(bytes: Seq<u8>) -> bool {
        bytes.len() == 4
    }

    open spec fn decoded(bytes: Seq<u8>) -> i32 {
        (be_value(bytes) - 0x8000_0000) as i32
    }

    fn from_vec(value: Vec<u8>) -> (r: Result<i32, KeyError>) {
        if value.len() != 4 {
            return Err(KeyError::InvalidLength);
        }
        proof {
            lemma_be_value_bound(value@);
            lemma_pow256_values();
        }
        let arr = to_arr4(value);
        let o = i32::from_cw_bytes(arr);
        assert(o == Self::decoded(value@));
        assert(o@ == o);
        Ok(o)
    }
}

impl KeyDeserialize for u64 {
    type Output = u64;

    open spec fn safe(bytes: Seq<u8>) -> bool {
        true
    }

    open spec fn decodable(bytes: Seq<u8>) -> bool {
        bytes.len() == 8
    }

    open spec fn decoded(bytes: Seq<u8>) -> u64 {
        be_value(bytes) as u64
    }

    fn from_vec(value: Vec<u8>) -> (r: Result<u64, KeyError>) {
        if value.len() != 8 {
            return Err(KeyError::InvalidLength);
        }
        proof {
            lemma_be_value_bound(value@);
            lemma_pow256_values();
        }
        let arr = to_arr8(value);
        let o = u64::from_cw_bytes(arr);
        assert(o == Self::decoded(value@));
        assert(o@ == o);
        Ok(o)
    }
}

impl KeyDeserialize for i64 {
    type Output = i64;

    open spec fn safe(bytes: Seq<u8>) -> bool {
        true
    }

    open spec fn decodable(bytes: Seq<u8>) -> bool {
        bytes.len() == 8
    }

    open spec fn decoded(bytes: Seq<u8>) -> i64 {
        (be_value(bytes) - 0x8000_0000_0000_0000) as i64
    }

    fn from_vec(value: Vec<u8>) -> (r: Result<i64, KeyError>) {
        if value.len() != 8 {
            return Err(KeyError::InvalidLength);
        }
        proof {
            lemma_be_value_bound(value@);
            lemma_pow256_values();
        }
        let arr = to_arr8(value);
        let o = i64::from_cw_bytes(arr);
        assert(o == Self::decoded(value@));
        assert(o@ == o);
        Ok(o)
    }
}

impl KeyDeserialize for u128 {
    type Output = u128;

    open spec fn safe(bytes: Seq<u8>) -> bool {
        true
    }

    open spec fn decodable(bytes: Seq<u8>) -> bool {
        bytes.len() == 16
    }

    open spec fn decoded(bytes: Seq<u8>) -> u128 {
        be_value(bytes) as u128
    }

    fn from_vec(value: Vec<u8>) -> (r: Result<u128, KeyError>) {
        if value.len() != 16 {
            return Err(KeyError::InvalidLength);
        }
        proof {
            lemma_be_value_bound(value@);
            lemma_pow256_values();
        }
        let arr = to_arr16(value);
        let o = u128::from_cw_bytes(arr);
        assert(o == Self::decoded(value@));
        assert(o@ == o);
        Ok(o)
    }
}

impl KeyDeserialize for i128 {
    type Output = i128;

    open spec fn safe(bytes: Seq<u8>) -> bool {
        true
    }

    open spec fn decodable(bytes: Seq<u8>) -> bool {
        bytes.len() == 16
    }

    open spec fn decoded(bytes: Seq<u8>) -> i128 {
        (be_value(bytes) - 0x8000_0000_0000_0000_0000_0000_0000_0000) as i128
    }

    fn from_vec(value: Vec<u8>) -> (r: Result<i128, KeyError>) {
        if value.len() != 16 {
            return Err(KeyError::InvalidLength);
        }
        proof {
            lemma_be_value_bound(value@);
            lemma_pow256_values();
        }
        let arr = to_arr16(value);
        let o = i128::from_cw_bytes(arr);
        assert(o == Self::decoded(value@));
        assert(o@ == o);
        Ok(o)
    }
}

/// The length stored in the first two bytes of a composite key.
pub open spec fn leading_length(bytes: Seq<u8>) -> nat {
    be_value(bytes.subrange(0, 2))
}

/// The first component of a composite key: the bytes after the length, as many as it says.
pub open spec fn first_part(bytes: Seq<u8>) -> Seq<u8> {
    bytes.subrange(2, 2 + leading_length(bytes) as int)
}

/// Everything after the first component.
pub open spec fn rest_part(bytes: Seq<u8>) -> Seq<u8> {
    bytes.subrange(2 + leading_length(bytes) as int, bytes.len() as int)
}

/// The bytes hold a length and at least that many bytes after it.
pub open spec fn splittable(bytes: Seq<u8>) -> bool {
    bytes.len() >= 2 && 2 + leading_length(bytes) <= bytes.len()
}

/// Reads the 2 byte big endian length that precedes a key component.
pub fn parse_length(value: &[u8]) -> (r: Result<usize, KeyError>)
    ensures
        r is Ok <==> value@.len() == 2,
        r matches Ok(n) ==> n == be_value(value@),
{
    if value.len() != 2 {
        return Err(KeyError::InvalidLength);
    }
    proof {
        assert(value@.drop_last().drop_last() =~= Seq::<u8>::empty());
        assert(value@.drop_last().last() == value@[0]);
        assert(be_value(value@.drop_last().drop_last()) == 0);
        assert(be_value(value@.drop_last()) == value@[0]);
        assert(be_value(value@) == value@[0] * 256 + value@[1]);
    }
    Ok(value[0] as usize * 256 + value[1] as usize)
}

/// Splits a composite key into its first (length-prefixed) component and the rest.
fn split_first(mut value: Vec<u8>) -> (r: (Vec<u8>, Vec<u8>))
    requires
        splittable(value@),
    ensures
        r.0@ == first_part(value@),
        r.1@ == rest_part(value@),
{
    let ghost bytes = value@;
    let mut tu = value.split_off(2);
    let t_len = match parse_length(value.as_slice()) {
        Ok(n) => n,
        Err(_) => {
            assert(false);
            0
        },
    };
    assert(value@ =~= bytes.subrange(0, 2));
    let u = tu.split_off(t_len);
    assert(tu@ =~= first_part(bytes));
    assert(u@ =~= rest_part(bytes));
    (tu, u)
}

impl<T: KeyDeserialize, U: KeyDeserialize> KeyDeserialize for (T, U) {
    type Output = (T::Output, U::Output);

    open spec fn safe(bytes: Seq<u8>) -> bool {
        &&& splittable(bytes)
        &&& T::safe(first_part(bytes))
        &&& T::decodable(first_part(bytes)) ==> U::safe(rest_part(bytes))
    }

    open spec fn decodable(bytes: Seq<u8>) -> bool {
        T::decodable(first_part(bytes)) && U::decodable(rest_part(bytes))
    }

    open spec fn decoded(bytes: Seq<u8>) -> (
        <T::Output as View>::V,
        <U::Output as View>::V,
    ) {
        (T::decoded(first_part(bytes)), U::decoded(rest_part(bytes)))
    }

    fn from_vec(value: Vec<u8>) -> (r: Result<(T::Output, U::Output), KeyError>) {
        let (t, u) = split_first(value);
        let t_out = match T::from_vec(t) {
            Ok(o) => o,
            Err(e) => {
                return Err(e);
            },
        };
        let u_out = match U::from_vec(u) {
            Ok(o) => o,
            Err(e) => {
                return Err(e);
            },
        };
        let r = (t_out, u_out);
        assert(r@ == (r.0@, r.1@));
        Ok(r)
    }
}

impl<T: KeyDeserialize, U: KeyDeserialize, V: KeyDeserialize> KeyDeserialize for (T, U, V) {
    type Output = (T::Output, U::Output, V::Output);

    open spec fn safe(bytes: Seq<u8>) -> bool {
        &&& splittable(bytes)
        &&& splittable(rest_part(bytes))
        &&& T::safe(first_part(bytes))
        &&& T::decodable(first_part(bytes)) ==> U::safe(first_part(rest_part(bytes)))
        &&& T::decodable(first_part(bytes)) && U::decodable(first_part(rest_part(bytes)))
            ==> V::safe(rest_part(rest_part(bytes)))
    }

    open spec fn decodable(bytes: Seq<u8>) -> bool {
        &&& T::decodable(first_part(bytes))
        &&& U::decodable(first_part(rest_part(bytes)))
        &&& V::decodable(rest_part(rest_part(bytes)))
    }

    open spec fn decoded(bytes: Seq<u8>) -> (
        <T::Output as View>::V,
        <U::Output as View>::V,
        <V::Output as View>::V,
    ) {
        (
            T::decoded(first_part(bytes)),
            U::decoded(first_part(rest_part(bytes))),
            V::decoded(rest_part(rest_part(bytes))),
        )
    }

    fn from_vec(value: Vec<u8>) -> (r: Result<(T::Output, U::Output, V::Output), KeyError>) {
        let (t, uv) = split_first(value);
        let (u, v) = split_first(uv);
        let t_out = match T::from_vec(t) {
            Ok(o) => o,
            Err(e) => {
                return Err(e);
            },
        };
        let u_out = match U::from_vec(u) {
            Ok(o) => o,
            Err(e) => {
                return Err(e);
            },
        };
        let v_out = match V::from_vec(v) {
            Ok(o) => o,
            Err(e) => {
                return Err(e);
            },
        };
        let r = (t_out, u_out, v_out);
        assert(r@ == (r.0@, r.1@, r.2@));
        Ok(r)
    }
}

/// A length-prefixed first component followed by the rest is split back into exactly
/// those two parts, so a pair key deserializes into what each part deserializes into.
pub proof fn lemma_pair_key_roundtrip<T: KeyDeserialize, U: KeyDeserialize>(
    t: Seq<u8>,
    u: Seq<u8>,
)
    requires
        t.len() <= 0xFFFF,
    ensures
        splittable(length_prefixed(t) + u),
        first_part(length_prefixed(t) + u) == t,
        rest_part(length_prefixed(t) + u) == u,
        <(T, U)>::decodable(length_prefixed(t) + u) <==> T::decodable(t) && U::decodable(u),
        <(T, U)>::decoded(length_prefixed(t) + u) == (T::decoded(t), U::decoded(u)),
{
    lemma_split_length_prefixed(t, u);
}

/// A triple key made of two length-prefixed components and a last raw one deserializes
/// into what each part deserializes into.
pub proof fn lemma_triple_key_roundtrip<T: KeyDeserialize, U: KeyDeserialize, V: KeyDeserialize>(
    t: Seq<u8>,
    u: Seq<u8>,
    v: Seq<u8>,
)
    requires
        t.len() <= 0xFFFF,
        u.len() <= 0xFFFF,
    ensures
        <(T, U, V)>::decodable(length_prefixed(t) + (length_prefixed(u) + v)) <==> T::decodable(t)
            && U::decodable(u) && V::decodable(v),
        <(T, U, V)>::decoded(length_prefixed(t) + (length_prefixed(u) + v)) == (
            T::decoded(t),
            U::decoded(u),
            V::decoded(v),
        ),
{
    lemma_split_length_prefixed(t, length_prefixed(u) + v);
    lemma_split_length_prefixed(u, v);
}

proof fn lemma_split_length_prefixed(t: Seq<u8>, u: Seq<u8>)
    requires
        t.len() <= 0xFFFF,
    ensures
        splittable(length_prefixed(t) + u),
        first_part(length_prefixed(t) + u) == t,
        rest_part(length_prefixed(t) + u) == u,
{
    let bytes = length_prefixed(t) + u;
    let n = t.len();
    assert(bytes.subrange(0, 2) =~= length_bytes(n));
    let lb = length_bytes(n);
    assert(lb.drop_last().drop_last() =~= Seq::<u8>::empty());
    assert(lb.drop_last().last() == lb[0]);
    assert(be_value(lb.drop_last().drop_last()) == 0);
    assert(be_value(lb.drop_last()) == lb[0]);
    assert(be_value(lb) == lb[0] * 256 + lb[1]);
    assert(lb[0] == n / 256);
    assert(lb[1] == n % 256);
    assert(be_value(lb) == n);
    assert(bytes.subrange(2, 2 + n as int) =~= t);
    assert(bytes.subrange(2 + n as int, bytes.len() as int) =~= u);
}

} // verus!
