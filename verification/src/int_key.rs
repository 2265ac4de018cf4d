//! Integer keys.
//!
//! Our int keys are simply the big-endian representation bytes for unsigned ints,
//! but "sign-flipped" (xored msb) big-endian bytes for signed ints, so that the
//! representation of signed integers is in the right lexicographical order.
use crate::helpers::{is_prefix_of, lex_lt};
use vstd::prelude::*;

verus! {

/// `256` to the power `n`.
pub open spec fn pow256(n: nat) -> nat
    decreases n,
{
    if n == 0 {
        1
    } else {
        256 * pow256((n - 1) as nat)
    }
}

/// The number that a byte string denotes when read big endian.
pub open spec fn be_value(s: Seq<u8>) -> nat
    decreases s.len(),
{
    if s.len() == 0 {
        0
    } else {
        be_value(s.drop_last()) * 256 + (s.last() as nat)
    }
}

/// The `n`-byte big-endian encoding of `v` (taken modulo `256^n`).
pub open spec fn be_bytes(v: nat, n: nat) -> Seq<u8>
    decreases n,
{
    if n == 0 {
        Seq::empty()
    } else {
        be_bytes(v / 256, (n - 1) as nat).push((v % 256) as u8)
    }
}

pub proof fn lemma_pow256_positive(n: nat)
    ensures
        pow256(n) >= 1,
    decreases n,
{
    if n > 0 {
        lemma_pow256_positive((n - 1) as nat);
    }
}

pub proof fn lemma_be_value_bound(s: Seq<u8>)
    ensures
        be_value(s) < pow256(s.len()),
    decreases s.len(),
{
    if s.len() > 0 {
        lemma_be_value_bound(s.drop_last());
        let p = pow256((s.len() - 1) as nat);
        let v = be_value(s.drop_last());
        assert(v * 256 + s.last() < p * 256) by (nonlinear_arith)
            requires
                v < p,
                s.last() < 256,
        ;
    }
}

/// Encoding then reading back gives the number, for numbers that fit.
pub proof fn lemma_be_bytes_value(v: nat, n: nat)
    requires
        v < pow256(n),
    ensures
        be_bytes(v, n).len() == n,
        be_value(be_bytes(v, n)) == v,
    decreases n,
{
    if n > 0 {
        let p = pow256((n - 1) as nat);
        assert(v / 256 < p) by (nonlinear_arith)
            requires
                v < 256 * p,
        ;
        lemma_be_bytes_value(v / 256, (n - 1) as nat);
        let s = be_bytes(v, n);
        assert(s.drop_last() =~= be_bytes(v / 256, (n - 1) as nat));
        assert(v == (v / 256) * 256 + v % 256);
    }
}

/// Reading then encoding gives the bytes back.
pub proof fn lemma_be_value_bytes(s: Seq<u8>)
    ensures
        be_bytes(be_value(s), s.len()) == s,
    decreases s.len(),
{
    if s.len() > 0 {
        let v = be_value(s);
        let w = be_value(s.drop_last());
        assert(v / 256 == w && v % 256 == s.last()) by (nonlinear_arith)
            requires
                v == w * 256 + s.last(),
                s.last() < 256,
        ;
        lemma_be_value_bytes(s.drop_last());
        assert(be_bytes(v, s.len()) =~= s.drop_last().push(s.last()));
        assert(s.drop_last().push(s.last()) =~= s);
    }
}

/// The value of a byte string split after its first byte.
proof fn lemma_be_value_front(s: Seq<u8>)
    requires
        s.len() > 0,
    ensures
        be_value(s) == s[0] * pow256((s.len() - 1) as nat) + be_value(s.drop_first()),
    decreases s.len(),
{
    if s.len() == 1 {
        assert(s.drop_last() =~= Seq::<u8>::empty());
        assert(s.drop_first() =~= Seq::<u8>::empty());
        assert(be_value(s.drop_last()) == 0);
        assert(be_value(s.drop_first()) == 0);
        assert(pow256(0) == 1);
        assert(s.last() == s[0]);
        assert(be_value(s) == be_value(s.drop_last()) * 256 + s.last());
        let a = s[0] as int;
        assert(a * pow256(0) == a) by (nonlinear_arith)
            requires
                pow256(0) == 1,
        ;
        assert(be_value(s) == s[0] * pow256((s.len() - 1) as nat) + be_value(s.drop_first()));
    } else {
        lemma_be_value_front(s.drop_last());
        assert(s.drop_last().drop_first() =~= s.drop_first().drop_last());
        assert(s.drop_first().last() == s.last());
        assert(s.drop_last()[0] == s[0]);
        let p = pow256((s.len() - 2) as nat);
        assert(pow256((s.len() - 1) as nat) == 256 * p);
        let a = s[0] as int;
        let t = be_value(s.drop_first().drop_last()) as int;
        let l = s.last() as int;
        assert(be_value(s.drop_last()) == a * p + t);
        assert(be_value(s.drop_first()) == t * 256 + l);
        assert(be_value(s) == be_value(s.drop_last()) * 256 + l);
        assert((a * p + t) * 256 + l == a * (256 * p) + (t * 256 + l)) by (nonlinear_arith);
        assert(be_value(s) == a * (256 * p) + (t * 256 + l));
        assert(be_value(s) == s[0] * pow256((s.len() - 1) as nat) + be_value(s.drop_first()));
    }
}

/// For byte strings of one length, the lexicographic order is the numeric order of
/// their big-endian values.
pub proof fn lemma_be_order(s: Seq<u8>, t: Seq<u8>)
    requires
        s.len() == t.len(),
    ensures
        lex_lt(s, t) <==> be_value(s) < be_value(t),
        s == t <==> be_value(s) == be_value(t),
    decreases s.len(),
{
    if s.len() == 0 {
        assert(s =~= t);
        assert(!lex_lt(s, t));
    } else {
        let n = (s.len() - 1) as nat;
        let p = pow256(n);
        lemma_be_value_front(s);
        lemma_be_value_front(t);
        lemma_be_value_bound(s.drop_first());
        lemma_be_value_bound(t.drop_first());
        lemma_be_order(s.drop_first(), t.drop_first());
        let a = s[0] as int;
        let b = t[0] as int;
        let x = be_value(s.drop_first()) as int;
        let y = be_value(t.drop_first()) as int;
        assert(a < b ==> a * p + x < b * p + y) by (nonlinear_arith)
            requires
                x < p,
                0 <= y,
        ;
        assert(b < a ==> b * p + y < a * p + x) by (nonlinear_arith)
            requires
                y < p,
                0 <= x,
        ;
        if a < b {
            assert(s.subrange(0, 0) =~= t.subrange(0, 0));
            assert(lex_lt(s, t));
        } else if b < a {
            if lex_lt(s, t) {
                if is_prefix_of(s, t) && s.len() < t.len() {
                } else {
                    let i = choose|i: int|
                        0 <= i < s.len() && i < t.len() && s[i] < t[i] && s.subrange(0, i)
                            == t.subrange(0, i);
                    if i > 0 {
                        assert(s.subrange(0, i)[0] == t.subrange(0, i)[0]);
                    }
                }
            }
        } else {
            // equal first bytes: the order is decided by the rest
            lemma_lex_lt_tail(s, t);
            if s.drop_first() == t.drop_first() {
                assert(s =~= seq![s[0]] + s.drop_first());
                assert(t =~= seq![t[0]] + t.drop_first());
            }
            if s == t {
                assert(s.drop_first() == t.drop_first());
            }
        }
    }
}

/// With equal first bytes, the lexicographic order is that of the tails.
pub(crate) proof fn lemma_lex_lt_tail(s: Seq<u8>, t: Seq<u8>)
    requires
        s.len() == t.len(),
        s.len() > 0,
        s[0] == t[0],
    ensures
        lex_lt(s, t) <==> lex_lt(s.drop_first(), t.drop_first()),
{
    let s1 = s.drop_first();
    let t1 = t.drop_first();
    if lex_lt(s, t) {
        if is_prefix_of(s, t) && s.len() < t.len() {
        } else {
            let i = choose|i: int|
                0 <= i < s.len() && i < t.len() && s[i] < t[i] && s.subrange(0, i) == t.subrange(
                    0,
                    i,
                );
            assert(i > 0);
            assert forall|j: int| 0 <= j < i - 1 implies #[trigger] s1.subrange(0, i - 1)[j]
                == t1.subrange(0, i - 1)[j] by {
                assert(s.subrange(0, i)[j + 1] == t.subrange(0, i)[j + 1]);
            }
            assert(s1.subrange(0, i - 1) =~= t1.subrange(0, i - 1));
            assert(s1[i - 1] < t1[i - 1]);
        }
    }
    if lex_lt(s1, t1) {
        if is_prefix_of(s1, t1) && s1.len() < t1.len() {
        } else {
            let i = choose|i: int|
                0 <= i < s1.len() && i < t1.len() && s1[i] < t1[i] && s1.subrange(0, i)
                    == t1.subrange(0, i);
            assert forall|j: int| 0 <= j < i + 1 implies #[trigger] s.subrange(0, i + 1)[j]
                == t.subrange(0, i + 1)[j] by {
                if j > 0 {
                    assert(s1.subrange(0, i)[j - 1] == t1.subrange(0, i)[j - 1]);
                }
            }
            assert(s.subrange(0, i + 1) =~= t.subrange(0, i + 1));
            assert(s[i + 1] < t[i + 1]);
        }
    }
}

/// Big-endian encoding of the `n` low bytes of `x`.
pub fn be_encode(x: u128, n: usize) -> (r: Vec<u8>)
    requires
        n <= 16,
        x < pow256(n as nat),
    ensures
        r@ == be_bytes(x as nat, n as nat),
        r@.len() == n,
        be_value(r@) == x,
    decreases n,
{
    proof {
        lemma_be_bytes_value(x as nat, n as nat);
    }
    if n == 0 {
        Vec::new()
    } else {
        proof {
            let p = pow256((n - 1) as nat);
            assert(x / 256 < p) by (nonlinear_arith)
                requires
                    x < 256 * p,
            ;
        }
        let mut r = be_encode(x / 256, n - 1);
        r.push((x % 256) as u8);
        r
    }
}

/// The number that the bytes denote when read big endian.
pub fn be_decode(b: &[u8]) -> (r: u128)
    requires
        b@.len() <= 16,
    ensures
        r == be_value(b@),
{
    let mut acc: u128 = 0;
    let mut i: usize = 0;
    while i < b.len()
        invariant
            i <= b@.len(),
            b@.len() <= 16,
            acc == be_value(b@.subrange(0, i as int)),
        decreases b@.len() - i,
    {
        proof {
            lemma_be_value_bound(b@.subrange(0, i as int));
            lemma_pow256_monotone((i + 1) as nat, 16);
            lemma_pow256_values();
            let v = acc as int;
            let p = pow256(i as nat) as int;
            assert(v * 256 + b@[i as int] < p * 256) by (nonlinear_arith)
                requires
                    v < p,
                    b@[i as int] < 256,
            ;
            assert(b@.subrange(0, i + 1).drop_last() =~= b@.subrange(0, i as int));
        }
        acc = acc * 256 + b[i] as u128;
        i = i + 1;
    }
    assert(b@.subrange(0, b@.len() as int) =~= b@);
    acc
}

proof fn lemma_pow256_monotone(a: nat, b: nat)
    requires
        a <= b,
    ensures
        pow256(a) <= pow256(b),
    decreases b,
{
    if a < b {
        lemma_pow256_monotone(a, (b - 1) as nat);
        lemma_pow256_positive((b - 1) as nat);
    }
}

/// Integers that can serve as storage keys, encoded so that byte order is number order.
pub trait CwIntKey: Sized + Copy {
    type Buf: View<V = Seq<u8>>;

    /// The number of bytes of the encoding.
    spec fn key_len() -> nat;

    /// The integer the key denotes.
    spec fn int_value(self) -> int;

    /// What is added to the integer before it is encoded: 0 for unsigned integers,
    /// `2^(bits-1)` for signed ones.
    spec fn key_offset() -> int;

    /// The encoded integer fits in `key_len` bytes.
    proof fn lemma_key_range(self)
        ensures
            0 <= self.int_value() + Self::key_offset() < pow256(Self::key_len()),
            Self::key_len() <= 16,
    ;

    /// Distinct keys denote distinct integers.
    proof fn lemma_int_value_injective(self, other: Self)
        ensures
            self.int_value() == other.int_value() ==> self == other,
    ;

    fn to_cw_bytes(&self) -> (r: Self::Buf)
        ensures
            r@ == be_bytes((self.int_value() + Self::key_offset()) as nat, Self::key_len()),
    ;

    fn from_cw_bytes(bytes: Self::Buf) -> (r: Self)
        requires
            bytes@.len() == Self::key_len(),
        ensures
            r.int_value() + Self::key_offset() == be_value(bytes@),
    ;
}

/// The encoded form of a key.
pub open spec fn cw_bytes_of<K: CwIntKey>(k: K) -> Seq<u8> {
    be_bytes((k.int_value() + K::key_offset()) as nat, K::key_len())
}

/// Keys are ordered by their encodings exactly as by their integers.
pub proof fn lemma_cw_key_order<K: CwIntKey>(a: K, b: K)
    ensures
        a.int_value() < b.int_value() <==> lex_lt(cw_bytes_of(a), cw_bytes_of(b)),
        a == b <==> cw_bytes_of(a) == cw_bytes_of(b),
{
    a.lemma_key_range();
    b.lemma_key_range();
    a.lemma_int_value_injective(b);
    let va = (a.int_value() + K::key_offset()) as nat;
    let vb = (b.int_value() + K::key_offset()) as nat;
    lemma_be_bytes_value(va, K::key_len());
    lemma_be_bytes_value(vb, K::key_len());
    lemma_be_order(cw_bytes_of(a), cw_bytes_of(b));
}

/// Decoding an encoded key gives the key back.
pub proof fn lemma_cw_key_roundtrip<K: CwIntKey>(k: K, decoded: K)
    requires
        decoded.int_value() + K::key_offset() == be_value(cw_bytes_of(k)),
    ensures
        decoded == k,
{
    k.lemma_key_range();
    lemma_be_bytes_value((k.int_value() + K::key_offset()) as nat, K::key_len());
    k.lemma_int_value_injective(decoded);
}

pub(crate) fn to_arr1(v: Vec<u8>) -> (r: [u8; 1])
    requires
        v@.len() == 1,
    ensures
        r@ == v@,
{
    let r = [v[0]];
    assert(r@ =~= v@);
    r
}

pub(crate) fn to_arr2(v: Vec<u8>) -> (r: [u8; 2])
    requires
        v@.len() == 2,
    ensures
        r@ == v@,
{
    let r = [v[0], v[1]];
    assert(r@ =~= v@);
    r
}

pub(crate) fn to_arr4(v: Vec<u8>) -> (r: [u8; 4])
    requires
        v@.len() == 4,
    ensures
        r@ == v@,
{
    let r = [v[0], v[1], v[2], v[3]];
    assert(r@ =~= v@);
    r
}

pub(crate) fn to_arr8(v: Vec<u8>) -> (r: [u8; 8])
    requires
        v@.len() == 8,
    ensures
        r@ == v@,
{
    let r = [v[0], v[1], v[2], v[3], v[4], v[5], v[6], v[7]];
    assert(r@ =~= v@);
    r
}

pub(crate) fn to_arr16(v: Vec<u8>) -> (r: [u8; 16])
    requires
        v@.len() == 16,
    ensures
        r@ == v@,
{
    let r = [
        v[0],
        v[1],
        v[2],
        v[3],
        v[4],
        v[5],
        v[6],
        v[7],
        v[8],
        v[9],
        v[10],
        v[11],
        v[12],
        v[13],
        v[14],
        v[15],
    ];
    assert(r@ =~= v@);
    r
}

pub proof fn lemma_pow256_values()
    ensures
        pow256(1) == 0x100,
        pow256(2) == 0x1_0000,
        pow256(4) == 0x1_0000_0000,
        pow256(8) == 0x1_0000_0000_0000_0000,
        pow256(16) == 0x1_0000_0000_0000_0000_0000_0000_0000_0000,
{
    reveal_with_fuel(pow256, 17);
}

impl CwIntKey for u8 {
    type Buf = [u8; 1];

    open spec fn key_len() -> nat {
        1
    }

    open spec fn int_value(self) -> int {
        self as int
    }

    open spec fn key_offset() -> int {
        0
    }

    proof fn lemma_key_range(self) {
        lemma_pow256_values();
    }

    proof fn lemma_int_value_injective(self, other: Self) {
    }

    fn to_cw_bytes(&self) -> (r: [u8; 1]) {
        proof {
            lemma_pow256_values();
        }
        to_arr1(be_encode(*self as u128, 1))
    }

    fn from_cw_bytes(bytes: [u8; 1]) -> (r: u8) {
        proof {
            lemma_be_value_bound(bytes@);
            lemma_pow256_values();
        }
        be_decode(bytes.as_slice()) as u8
    }
}

impl CwIntKey for u16 {
    type Buf = [u8; 2];

    open spec fn key_len() -> nat {
        2
    }

    open spec fn int_value(self) -> int {
        self as int
    }

    open spec fn key_offset() -> int {
        0
    }

    proof fn lemma_key_range(self) {
        lemma_pow256_values();
    }

    proof fn lemma_int_value_injective(self, other: Self) {
    }

    fn to_cw_bytes(&self) -> (r: [u8; 2]) {
        proof {
            lemma_pow256_values();
        }
        to_arr2(be_encode(*self as u128, 2))
    }

    fn from_cw_bytes(bytes: [u8; 2]) -> (r: u16) {
        proof {
            lemma_be_value_bound(bytes@);
            lemma_pow256_values();
        }
        be_decode(bytes.as_slice()) as u16
    }
}

impl CwIntKey for u32 {
    type Buf = [u8; 4];

    open spec fn key_len() -> nat {
        4
    }

    open spec fn int_value(self) -> int {
        self as int
    }

    open spec fn key_offset() -> int {
        0
    }

    proof fn lemma_key_range(self) {
        lemma_pow256_values();
    }

    proof fn lemma_int_value_injective(self, other: Self) {
    }

    fn to_cw_bytes(&self) -> (r: [u8; 4]) {
        proof {
            lemma_pow256_values();
        }
        to_arr4(be_encode(*self as u128, 4))
    }

    fn from_cw_bytes(bytes: [u8; 4]) -> (r: u32) {
        proof {
            lemma_be_value_bound(bytes@);
            lemma_pow256_values();
        }
        be_decode(bytes.as_slice()) as u32
    }
}

impl CwIntKey for u64 {
    type Buf = [u8; 8];

    open spec fn key_len() -> nat {
        8
    }

    open spec fn int_value(self) -> int {
        self as int
    }

    open spec fn key_offset() -> int {
        0
    }

    proof fn lemma_key_range(self) {
        lemma_pow256_values();
    }

    proof fn lemma_int_value_injective(self, other: Self) {
    }

    fn to_cw_bytes(&self) -> (r: [u8; 8]) {
        proof {
            lemma_pow256_values();
        }
        to_arr8(be_encode(*self as u128, 8))
    }

    fn from_cw_bytes(bytes: [u8; 8]) -> (r: u64) {
        proof {
            lemma_be_value_bound(bytes@);
            lemma_pow256_values();
        }
        be_decode(bytes.as_slice()) as u64
    }
}

impl CwIntKey for u128 {
    type Buf = [u8; 16];

    open spec fn key_len() -> nat {
        16
    }

    open spec fn int_value(self) -> int {
        self as int
    }

    open spec fn key_offset() -> int {
        0
    }

    proof fn lemma_key_range(self) {
        lemma_pow256_values();
    }

    proof fn lemma_int_value_injective(self, other: Self) {
    }

    fn to_cw_bytes(&self) -> (r: [u8; 16]) {
        proof {
            lemma_pow256_values();
        }
        to_arr16(be_encode(*self, 16))
    }

    fn from_cw_bytes(bytes: [u8; 16]) -> (r: u128) {
        proof {
            lemma_be_value_bound(bytes@);
            lemma_pow256_values();
        }
        let r = be_decode(bytes.as_slice());
        assert(r == be_value(bytes@));
        assert(r.int_value() == r as int);
        assert(<u128 as CwIntKey>::key_offset() == 0);
        r
    }
}

impl CwIntKey for i8 {
    type Buf = [u8; 1];

    open spec fn key_len() -> nat {
        1
    }

    open spec fn int_value(self) -> int {
        self as int
    }

    open spec fn key_offset() -> int {
        0x80
    }

    proof fn lemma_key_range(self) {
        lemma_pow256_values();
    }

    proof fn lemma_int_value_injective(self, other: Self) {
    }

    fn to_cw_bytes(&self) -> (r: [u8; 1]) {
        proof {
            lemma_pow256_values();
        }
        // flipping the sign bit adds 2^7 to the two's complement value
        let shifted: u128 = if *self >= 0 {
            *self as u128 + 0x80
        } else {
            (*self as i16 + 0x80) as u128
        };
        to_arr1(be_encode(shifted, 1))
    }

    fn from_cw_bytes(bytes: [u8; 1]) -> (r: i8) {
        proof {
            lemma_be_value_bound(bytes@);
            lemma_pow256_values();
        }
        let u = be_decode(bytes.as_slice());
        if u >= 0x80 {
            (u - 0x80) as i8
        } else {
            (u as i16 - 0x80) as i8
        }
    }
}

impl CwIntKey for i16 {
    type Buf = [u8; 2];

    open spec fn key_len() -> nat {
        2
    }

    open spec fn int_value(self) -> int {
        self as int
    }

    open spec fn key_offset() -> int {
        0x8000
    }

    proof fn lemma_key_range(self) {
        lemma_pow256_values();
    }

    proof fn lemma_int_value_injective(self, other: Self) {
    }

    fn to_cw_bytes(&self) -> (r: [u8; 2]) {
        proof {
            lemma_pow256_values();
        }
        let shifted: u128 = if *self >= 0 {
            *self as u128 + 0x8000
        } else {
            (*self as i32 + 0x8000) as u128
        };
        to_arr2(be_encode(shifted, 2))
    }

    fn from_cw_bytes(bytes: [u8; 2]) -> (r: i16) {
        proof {
            lemma_be_value_bound(bytes@);
            lemma_pow256_values();
        }
        let u = be_decode(bytes.as_slice());
        if u >= 0x8000 {
            (u - 0x8000) as i16
        } else {
            (u as i32 - 0x8000) as i16
        }
    }
}

impl CwIntKey for i32 {
    type Buf = [u8; 4];

    open spec fn key_len() -> nat {
        4
    }

    open spec fn int_value(self) -> int {
        self as int
    }

    open spec fn key_offset() -> int {
        0x8000_0000
    }

    proof fn lemma_key_range(self) {
        lemma_pow256_values();
    }

    proof fn lemma_int_value_injective(self, other: Self) {
    }

    fn to_cw_bytes(&self) -> (r: [u8; 4]) {
        proof {
            lemma_pow256_values();
        }
        let shifted: u128 = if *self >= 0 {
            *self as u128 + 0x8000_0000
        } else {
            (*self as i64 + 0x8000_0000) as u128
        };
        to_arr4(be_encode(shifted, 4))
    }

    fn from_cw_bytes(bytes: [u8; 4]) -> (r: i32) {
        proof {
            lemma_be_value_bound(bytes@);
            lemma_pow256_values();
        }
        let u = be_decode(bytes.as_slice());
        if u >= 0x8000_0000 {
            (u - 0x8000_0000) as i32
        } else {
            (u as i64 - 0x8000_0000) as i32
        }
    }
}

impl CwIntKey for i64 {
    type Buf = [u8; 8];

    open spec fn key_len() -> nat {
        8
    }

    open spec fn int_value(self) -> int {
        self as int
    }

    open spec fn key_offset() -> int {
        0x8000_0000_0000_0000
    }

    proof fn lemma_key_range(self) {
        lemma_pow256_values();
    }

    proof fn lemma_int_value_injective(self, other: Self) {
    }

    fn to_cw_bytes(&self) -> (r: [u8; 8]) {
        proof {
            lemma_pow256_values();
        }
        let shifted: u128 = if *self >= 0 {
            *self as u128 + 0x8000_0000_0000_0000
        } else {
            (*self as i128 + 0x8000_0000_0000_0000) as u128
        };
        to_arr8(be_encode(shifted, 8))
    }

    fn from_cw_bytes(bytes: [u8; 8]) -> (r: i64) {
        proof {
            lemma_be_value_bound(bytes@);
            lemma_pow256_values();
        }
        let u = be_decode(bytes.as_slice());
        if u >= 0x8000_0000_0000_0000 {
            (u - 0x8000_0000_0000_0000) as i64
        } else {
            (u as i128 - 0x8000_0000_0000_0000) as i64
        }
    }
}

impl CwIntKey for i128 {
    type Buf = [u8; 16];

    open spec fn key_len() -> nat {
        16
    }

    open spec fn int_value(self) -> int {
        self as int
    }

    open spec fn key_offset() -> int {
        0x8000_0000_0000_0000_0000_0000_0000_0000
    }

    proof fn lemma_key_range(self) {
        lemma_pow256_values();
    }

    proof fn lemma_int_value_injective(self, other: Self) {
    }

    fn to_cw_bytes(&self) -> (r: [u8; 16]) {
        proof {
            lemma_pow256_values();
        }
        let shifted: u128 = if *self >= 0 {
            *self as u128 + 0x8000_0000_0000_0000_0000_0000_0000_0000
        } else {
            // self + 2^127 lies in [0, 2^127)
            (*self + 0x7fff_ffff_ffff_ffff_ffff_ffff_ffff_ffff + 1) as u128
        };
        to_arr16(be_encode(shifted, 16))
    }

    fn from_cw_bytes(bytes: [u8; 16]) -> (r: i128) {
        proof {
            lemma_be_value_bound(bytes@);
            lemma_pow256_values();
        }
        let u = be_decode(bytes.as_slice());
        assert(u == be_value(bytes@));
        let r: i128 = if u >= 0x8000_0000_0000_0000_0000_0000_0000_0000 {
            (u - 0x8000_0000_0000_0000_0000_0000_0000_0000) as i128
        } else {
            (u as i128) - 0x7fff_ffff_ffff_ffff_ffff_ffff_ffff_ffff - 1
        };
        assert(r as int + 0x8000_0000_0000_0000_0000_0000_0000_0000 == u as int);
        assert(r.int_value() == r as int);
        assert(<i128 as CwIntKey>::key_offset() == 0x8000_0000_0000_0000_0000_0000_0000_0000);
        r
    }
}

} // verus!
