//! The record an instantiation answers with: the new contract's address and the data of
//! its instantiate call, in the protobuf wire format (field 1: the address as a string,
//! field 2: the data as bytes).
use crate::de::string_from_utf8;
use vstd::prelude::*;
use vstd::utf8::{decode_utf8, encode_utf8, valid_utf8};

verus! {

/// The base-128 varint encoding of `n`: seven bits per byte, low bits first, the high bit
/// set on every byte but the last.
pub open spec fn varint(n: nat) -> Seq<u8>
    decreases n,
{
    if n < 128 {
        seq![n as u8]
    } else {
        seq![(n % 128 + 128) as u8] + varint(n / 128)
    }
}

/// A length-delimited field: its key byte, the length and the bytes; nothing when the bytes
/// are empty, as protobuf leaves out empty fields.
pub open spec fn field_bytes(key: u8, v: Seq<u8>) -> Seq<u8> {
    if v.len() == 0 {
        Seq::empty()
    } else {
        seq![key] + varint(v.len()) + v
    }
}

/// The encoding of an instantiation record.
pub open spec fn encode_record(address: Seq<u8>, data: Seq<u8>) -> Seq<u8> {
    field_bytes(0x0a, address) + field_bytes(0x12, data)
}

/// The value of a varint at the front of `b` and the bytes it takes, reading at most `max`
/// bytes; `None` when it does not end in time.
pub open spec fn read_varint(b: Seq<u8>, max: nat) -> Option<(nat, nat)>
    decreases max,
{
    if max == 0 || b.len() == 0 {
        None
    } else if b[0] < 128 {
        Some((b[0] as nat, 1))
    } else {
        match read_varint(b.drop_first(), (max - 1) as nat) {
            Some((v, k)) => Some((((b[0] - 128) + 128 * v) as nat, k + 1)),
            None => None,
        }
    }
}

/// A varint as protobuf reads it: at most ten bytes, and a value that fits in 64 bits.
pub open spec fn parse_varint(b: Seq<u8>) -> Option<(nat, nat)> {
    match read_varint(b, 10) {
        Some((v, k)) => if v < 0x1_0000_0000_0000_0000 {
            Some((v, k))
        } else {
            None
        },
        None => None,
    }
}

/// Reads the fields of a record from `b`, with the address and data read so far. A later
/// occurrence of a field replaces an earlier one, other fields are skipped by their wire
/// type, and the address must be UTF-8. `None` when the bytes are not a record.
pub open spec fn decode_fields(b: Seq<u8>, address: Seq<u8>, data: Seq<u8>) -> Option<
    (Seq<u8>, Seq<u8>),
>
    decreases b.len(),
{
    if b.len() == 0 {
        Some((address, data))
    } else {
        match parse_varint(b) {
            None => None,
            Some((key, k)) => {
                let tag = key / 8;
                let wire = key % 8;
                if k == 0 || k > b.len() || key >= 0x1_0000_0000 || tag == 0 {
                    None
                } else if wire == 2 {
                    match parse_varint(b.skip(k as int)) {
                        None => None,
                        Some((len, l)) => {
                            if l == 0 || k + l + len > b.len() {
                                None
                            } else {
                                let v = b.subrange((k + l) as int, (k + l + len) as int);
                                let rest = b.skip((k + l + len) as int);
                                if tag == 1 {
                                    if valid_utf8(v) {
                                        decode_fields(rest, v, data)
                                    } else {
                                        None
                                    }
                                } else if tag == 2 {
                                    decode_fields(rest, address, v)
                                } else {
                                    decode_fields(rest, address, data)
                                }
                            }
                        },
                    }
                } else if tag == 1 || tag == 2 {
                    None
                } else if wire == 0 {
                    match parse_varint(b.skip(k as int)) {
                        None => None,
                        Some((_, l)) => if l == 0 || k + l > b.len() {
                            None
                        } else {
                            decode_fields(b.skip((k + l) as int), address, data)
                        },
                    }
                } else if wire == 1 {
                    if k + 8 > b.len() {
                        None
                    } else {
                        decode_fields(b.skip((k + 8) as int), address, data)
                    }
                } else if wire == 5 {
                    if k + 4 > b.len() {
                        None
                    } else {
                        decode_fields(b.skip((k + 4) as int), address, data)
                    }
                } else {
                    None
                }
            },
        }
    }
}

/// The record that `b` holds, if it is one: its address and data, empty when absent.
pub open spec fn decode_record(b: Seq<u8>) -> Option<(Seq<u8>, Seq<u8>)> {
    decode_fields(b, Seq::empty(), Seq::empty())
}

/// Appends the varint encoding of `n`.
fn push_varint(out: &mut Vec<u8>, n: u64)
    ensures
        final(out)@ == old(out)@ + varint(n as nat),
    decreases n,
{
    if n < 128 {
        out.push(n as u8);
    } else {
        out.push((n % 128 + 128) as u8);
        push_varint(out, n / 128);
        proof {
            assert(final(out)@ =~= old(out)@ + varint(n as nat)) by {
                assert(varint(n as nat) == seq![(n % 128 + 128) as u8] + varint((n / 128) as nat));
            }
        }
    }
}

/// Appends a length-delimited field, unless the bytes are empty.
fn push_field(out: &mut Vec<u8>, key: u8, v: &[u8])
    ensures
        final(out)@ == old(out)@ + field_bytes(key, v@),
{
    if v.len() == 0 {
        assert(old(out)@ + field_bytes(key, v@) =~= old(out)@);
        return;
    }
    out.push(key);
    push_varint(out, v.len() as u64);
    out.extend_from_slice(v);
    assert(final(out)@ =~= old(out)@ + field_bytes(key, v@));
}

/// Encodes an instantiation record.
pub fn encode_instantiate_data(address: &str, data: &[u8]) -> (r: Vec<u8>)
    ensures
        r@ == encode_record(encode_utf8(address@), data@),
{
    let a = address.as_bytes();
    assert(a@ == encode_utf8(address@));
    let mut out: Vec<u8> = Vec::new();
    push_field(&mut out, 0x0a, a);
    push_field(&mut out, 0x12, data);
    assert(out@ =~= encode_record(encode_utf8(address@), data@));
    out
}

} // verus!

verus! {

/// `acc` and `mult` combined with the rest of a varint read after `i` bytes.
pub open spec fn varint_rest(acc: nat, mult: nat, i: nat, rest: Option<(nat, nat)>) -> Option<
    (nat, nat),
> {
    match rest {
        Some((v, k)) => Some((acc + mult * v, k + i)),
        None => None,
    }
}

/// Reads a varint at position `pos` of `b`, as protobuf does.
fn read_varint_at(b: &[u8], pos: usize) -> (r: Option<(u64, usize)>)
    requires
        pos <= b@.len(),
    ensures
        match parse_varint(b@.skip(pos as int)) {
            Some((v, k)) => r == Some((v as u64, k as usize)) && 1 <= k <= 10 && k <= b@.len() - pos,
            None => r is None,
        },
{
    let ghost s = b@.skip(pos as int);
    let mut acc: u128 = 0;
    let mut mult: u128 = 1;
    let mut i: usize = 0;
    assert(s.skip(0) =~= s);
    assert(vstd::arithmetic::power::pow(128, 0) == 1) by {
        reveal_with_fuel(vstd::arithmetic::power::pow, 1);
    }
    while i < 10
        invariant
            i <= 10,
            pos <= b@.len(),
            i <= b@.len() - pos,
            s == b@.skip(pos as int),
            acc < mult,
            mult == vstd::arithmetic::power::pow(128, i as nat),
            read_varint(s, 10) == varint_rest(
                acc as nat,
                mult as nat,
                i as nat,
                read_varint(s.skip(i as int), (10 - i) as nat),
            ),
        decreases 10 - i,
    {
        proof {
            vstd::arithmetic::power::lemma_pow_positive(128, i as nat);
            vstd::arithmetic::power::lemma_pow_increases(128, i as nat, 9);
            assert(vstd::arithmetic::power::pow(128, 9) == 0x8000_0000_0000_0000) by {
                reveal_with_fuel(vstd::arithmetic::power::pow, 10);
            }
        }
        if i >= b.len() - pos {
            assert(s.skip(i as int).len() == 0);
            return None;
        }
        let byte = b[pos + i];
        assert(s.skip(i as int)[0] == byte);
        if byte < 128 {
            assert(acc + mult * byte < mult * 128) by (nonlinear_arith)
                requires
                    acc < mult,
                    byte < 128,
            ;
            let v = acc + mult * (byte as u128);
            if v >= 0x1_0000_0000_0000_0000 {
                return None;
            }
            return Some((v as u64, i + 1));
        }
        proof {
            assert(s.skip(i as int).drop_first() =~= s.skip(i + 1));
            assert(acc + mult * (byte - 128) < mult * 128) by (nonlinear_arith)
                requires
                    acc < mult,
                    byte < 256,
            ;
            let r1 = read_varint(s.skip(i + 1), (9 - i) as nat);
            if r1 is Some {
                let v = (r1->0).0;
                assert(acc + mult * ((byte - 128) + 128 * v) == (acc + mult * (byte - 128)) + (mult
                    * 128) * v) by (nonlinear_arith);
            }
            vstd::arithmetic::power::lemma_pow_adds(128, i as nat, 1);
            assert(vstd::arithmetic::power::pow(128, 1) == 128) by {
                reveal_with_fuel(vstd::arithmetic::power::pow, 2);
            }
        }
        acc = acc + mult * ((byte - 128) as u128);
        mult = mult * 128;
        i = i + 1;
    }
    None
}

/// Decodes an instantiation record: its address and data, empty when absent; `None` when
/// the bytes are not a record.
pub fn decode_instantiate_data(b: &[u8]) -> (r: Option<(String, Vec<u8>)>)
    ensures
        r is Some <==> decode_record(b@) is Some,
        r matches Some((a, d)) ==> decode_record(b@) == Some((encode_utf8(a@), d@)),
{
    let mut pos: usize = 0;
    let mut address: Vec<u8> = Vec::new();
    let mut data: Vec<u8> = Vec::new();
    assert(b@.skip(0) =~= b@);
    proof {
        vstd::utf8::encode_utf8_valid_utf8(Seq::<char>::empty());
        assert(encode_utf8(Seq::<char>::empty()) =~= Seq::<u8>::empty()) by {
            reveal_with_fuel(encode_utf8, 1);
        }
    }
    while pos < b.len()
        invariant
            pos <= b@.len(),
            valid_utf8(address@),
            decode_record(b@) == decode_fields(b@.skip(pos as int), address@, data@),
        decreases b@.len() - pos,
    {
        let ghost s = b@.skip(pos as int);
        let (key, k) = match read_varint_at(b, pos) {
            Some(x) => x,
            None => {
                return None;
            },
        };
        if key >= 0x1_0000_0000 || key / 8 == 0 {
            return None;
        }
        let tag = key / 8;
        let wire = key % 8;
        if wire == 2 {
            let (len, l) = match read_varint_at(b, pos + k) {
                Some(x) => x,
                None => {
                    assert(s.skip(k as int) =~= b@.skip(pos + k));
                    return None;
                },
            };
            assert(s.skip(k as int) =~= b@.skip(pos + k));
            if len as u128 > (b.len() - pos - k - l) as u128 {
                return None;
            }
            let start = pos + k + l;
            let end = start + len as usize;
            let ghost v = s.subrange((k + l) as int, (k + l + len) as int);
            assert(b@.subrange(start as int, end as int) =~= v);
            assert(s.skip((k + l + len) as int) =~= b@.skip(end as int));
            if tag == 1 {
                let mut field: Vec<u8> = Vec::new();
                field.extend_from_slice(slice_range(b, start, end));
                assert(field@ =~= v);
                let copy = clone_bytes(&field);
                match string_from_utf8(copy) {
                    Ok(_) => {},
                    Err(()) => {
                        return None;
                    },
                }
                address = field;
            } else if tag == 2 {
                let mut field: Vec<u8> = Vec::new();
                field.extend_from_slice(slice_range(b, start, end));
                assert(field@ =~= v);
                data = field;
            }
            pos = end;
        } else if tag == 1 || tag == 2 {
            return None;
        } else if wire == 0 {
            match read_varint_at(b, pos + k) {
                Some((_, l)) => {
                    assert(s.skip(k as int) =~= b@.skip(pos + k));
                    assert(s.skip((k + l) as int) =~= b@.skip(pos + k + l));
                    pos = pos + k + l;
                },
                None => {
                    assert(s.skip(k as int) =~= b@.skip(pos + k));
                    return None;
                },
            }
        } else if wire == 1 {
            if b.len() - pos - k < 8 {
                return None;
            }
            assert(s.skip((k + 8) as int) =~= b@.skip(pos + k + 8));
            pos = pos + k + 8;
        } else if wire == 5 {
            if b.len() - pos - k < 4 {
                return None;
            }
            assert(s.skip((k + 4) as int) =~= b@.skip(pos + k + 4));
            pos = pos + k + 4;
        } else {
            return None;
        }
    }
    assert(b@.skip(pos as int) =~= Seq::<u8>::empty());
    match string_from_utf8(address) {
        Ok(a) => {
            proof {
                vstd::utf8::decode_utf8_encode_utf8(address@);
            }
            Some((a, data))
        },
        Err(()) => None,
    }
}

/// The bytes from `start` to `end`.
fn slice_range(b: &[u8], start: usize, end: usize) -> (r: &[u8])
    requires
        start <= end <= b@.len(),
    ensures
        r@ == b@.subrange(start as int, end as int),
{
    vstd::slice::slice_subrange(b, start, end)
}

/// A copy of bytes.
fn clone_bytes(v: &Vec<u8>) -> (r: Vec<u8>)
    ensures
        r@ == v@,
{
    let mut c: Vec<u8> = Vec::new();
    c.extend_from_slice(v.as_slice());
    c
}

} // verus!

verus! {

/// A varint reads back as the number it encodes, whatever follows it.
proof fn lemma_read_varint(n: nat, rest: Seq<u8>, max: nat)
    requires
        varint(n).len() <= max,
    ensures
        read_varint(varint(n) + rest, max) == Some((n, varint(n).len())),
        varint(n).len() >= 1,
    decreases n,
{
    let b = varint(n) + rest;
    if n < 128 {
        assert(b[0] == n as u8);
    } else {
        let m = n / 128;
        assert(varint(n) == seq![(n % 128 + 128) as u8] + varint(m));
        lemma_read_varint(m, rest, (max - 1) as nat);
        assert(b.drop_first() =~= varint(m) + rest);
        assert(b[0] == (n % 128 + 128) as u8);
    }
}

/// A number below `128^k` takes at most `k` bytes (and every number takes one).
proof fn lemma_varint_len(n: nat, k: nat)
    requires
        k >= 1,
        n < vstd::arithmetic::power::pow(128, k),
    ensures
        varint(n).len() <= k,
    decreases n,
{
    if n >= 128 {
        assert(vstd::arithmetic::power::pow(128, k) == 128 * vstd::arithmetic::power::pow(
            128,
            (k - 1) as nat,
        )) by {
            reveal_with_fuel(vstd::arithmetic::power::pow, 2);
        }
        if k == 1 {
            assert(vstd::arithmetic::power::pow(128, 0) == 1) by {
                reveal_with_fuel(vstd::arithmetic::power::pow, 1);
            }
        }
        lemma_varint_len(n / 128, (k - 1) as nat);
        assert(varint(n) == seq![(n % 128 + 128) as u8] + varint(n / 128));
    } else {
        assert(varint(n).len() == 1);
    }
}

/// A number below 2^64 reads back from its varint.
proof fn lemma_parse_varint(n: nat, rest: Seq<u8>)
    requires
        n < 0x1_0000_0000_0000_0000,
    ensures
        parse_varint(varint(n) + rest) == Some((n, varint(n).len())),
        1 <= varint(n).len() <= 10,
{
    assert(vstd::arithmetic::power::pow(128, 10) == 0x40_0000_0000_0000_0000) by {
        reveal_with_fuel(vstd::arithmetic::power::pow, 11);
    }
    lemma_varint_len(n, 10);
    lemma_read_varint(n, rest, 10);
}

/// A length-delimited field with tag 1 or 2 is read as the address or the data.
proof fn lemma_decode_field(
    key: u8,
    v: Seq<u8>,
    rest: Seq<u8>,
    address: Seq<u8>,
    data: Seq<u8>,
)
    requires
        key == 0x0a || key == 0x12,
        v.len() > 0,
        v.len() < 0x1_0000_0000_0000_0000,
        key == 0x0a ==> valid_utf8(v),
    ensures
        decode_fields(field_bytes(key, v) + rest, address, data) == if key == 0x0a {
            decode_fields(rest, v, data)
        } else {
            decode_fields(rest, address, v)
        },
{
    let b = field_bytes(key, v) + rest;
    assert(b =~= varint(key as nat) + (varint(v.len()) + v + rest)) by {
        assert(varint(key as nat) == seq![key]);
    }
    lemma_parse_varint(key as nat, varint(v.len()) + v + rest);
    assert(b.skip(1) =~= varint(v.len()) + (v + rest));
    lemma_parse_varint(v.len(), v + rest);
    let l = varint(v.len()).len();
    assert(b.subrange((1 + l) as int, (1 + l + v.len()) as int) =~= v);
    assert(b.skip((1 + l + v.len()) as int) =~= rest);
}

/// Decoding an encoded record gives back its address and data.
pub proof fn lemma_record_roundtrip(address: Seq<u8>, data: Seq<u8>)
    requires
        valid_utf8(address),
        address.len() < 0x1_0000_0000_0000_0000,
        data.len() < 0x1_0000_0000_0000_0000,
    ensures
        decode_record(encode_record(address, data)) == Some((address, data)),
{
    let e = Seq::<u8>::empty();
    let f2 = field_bytes(0x12, data);
    if data.len() > 0 {
        assert(f2 =~= f2 + e);
        lemma_decode_field(0x12, data, e, address, e);
    }
    if address.len() > 0 {
        lemma_decode_field(0x0a, address, f2, e, e);
    } else {
        assert(address =~= e);
    }
    if data.len() == 0 {
        assert(data =~= e);
    }
    assert(encode_record(address, data) == field_bytes(0x0a, address) + f2);
    if address.len() == 0 {
        assert(encode_record(address, data) =~= f2);
    }
}


/// The record an instantiation answers with: the new contract's address and the data its
/// instantiate call returned.
#[derive(Clone, Debug, PartialEq, Eq)]
pub struct InstantiateData {
    pub address: String,
    pub data: Vec<u8>,
}

impl InstantiateData {
    /// The record in the wire format.
    pub fn encode_to_vec(&self) -> (r: Vec<u8>)
        ensures
            r@ == encode_record(encode_utf8(self.address@), self.data@),
    {
        encode_instantiate_data(self.address.as_str(), self.data.as_slice())
    }

    /// Reads a record from the wire format; `None` when the bytes are not a record.
    pub fn decode(b: &[u8]) -> (r: Option<InstantiateData>)
        ensures
            r is Some <==> decode_record(b@) is Some,
            r matches Some(d) ==> decode_record(b@) == Some((encode_utf8(d.address@), d.data@)),
    {
        match decode_instantiate_data(b) {
            Some((address, data)) => Some(InstantiateData { address, data }),
            None => None,
        }
    }
}

} // verus!
