use cw_plus::de::{parse_length, KeyDeserialize, KeyError};
use cw_plus::keys::{PrimaryKey, Prefixer};

const BYTES: &[u8] = b"Hello";
const STRING: &str = "Hello";

#[test]
#[allow(clippy::unit_cmp)]
fn deserialize_empty_works() {
    assert_eq!(<()>::from_slice(BYTES).unwrap(), ());
}

#[test]
fn deserialize_bytes_works() {
    assert_eq!(<Vec<u8>>::from_slice(BYTES).unwrap(), BYTES);
    assert_eq!(<&[u8]>::from_slice(BYTES).unwrap(), BYTES);
}

#[test]
fn deserialize_string_works() {
    assert_eq!(<String>::from_slice(BYTES).unwrap(), STRING);
    assert_eq!(<&str>::from_slice(BYTES).unwrap(), STRING);
}

#[test]
fn deserialize_broken_string_errs() {
    assert_eq!(<String>::from_slice(b"\xc3").err(), Some(KeyError::InvalidUtf8));
}

#[test]
fn deserialize_naked_integer_works() {
    assert_eq!(u8::from_slice(&[1]).unwrap(), 1u8);
    assert_eq!(i8::from_slice(&[127]).unwrap(), -1i8);
    assert_eq!(i8::from_slice(&[128]).unwrap(), 0i8);

    assert_eq!(u16::from_slice(&[1, 0]).unwrap(), 256u16);
    assert_eq!(i16::from_slice(&[128, 0]).unwrap(), 0i16);
    assert_eq!(i16::from_slice(&[127, 255]).unwrap(), -1i16);

    assert_eq!(u32::from_slice(&[1, 0, 0, 0]).unwrap(), 16777216u32);
    assert_eq!(i32::from_slice(&[128, 0, 0, 0]).unwrap(), 0i32);
    assert_eq!(i32::from_slice(&[127, 255, 255, 255]).unwrap(), -1i32);

    assert_eq!(
        u64::from_slice(&[1, 0, 0, 0, 0, 0, 0, 0]).unwrap(),
        72057594037927936u64
    );
    assert_eq!(i64::from_slice(&[128, 0, 0, 0, 0, 0, 0, 0]).unwrap(), 0i64);
    assert_eq!(
        i64::from_slice(&[127, 255, 255, 255, 255, 255, 255, 255]).unwrap(),
        -1i64
    );

    assert_eq!(
        u128::from_slice(&[1, 0, 0, 0, 0, 0, 0, 0, 0, 0, 0, 0, 0, 0, 0, 0]).unwrap(),
        1329227995784915872903807060280344576u128
    );
    assert_eq!(
        i128::from_slice(&[128, 0, 0, 0, 0, 0, 0, 0, 0, 0, 0, 0, 0, 0, 0, 0]).unwrap(),
        0i128
    );
    assert_eq!(
        i128::from_slice(&[
            127, 255, 255, 255, 255, 255, 255, 255, 255, 255, 255, 255, 255, 255, 255, 255
        ])
        .unwrap(),
        -1i128
    );
    assert_eq!(
        i128::from_slice(&[
            255, 255, 255, 255, 255, 255, 255, 255, 255, 255, 255, 255, 255, 255, 255, 255
        ])
        .unwrap(),
        170141183460469231731687303715884105727i128,
    );
}

#[test]
fn deserialize_broken_integer_errs() {
    // One byte less fails
    assert_eq!(u16::from_slice(&[1]).err(), Some(KeyError::InvalidLength));
    // More bytes fails too
    assert_eq!(u8::from_slice(&[1, 2]).err(), Some(KeyError::InvalidLength));
}

#[test]
fn deserialize_tuple_works() {
    assert_eq!(
        <(&[u8], &str)>::from_slice((BYTES, STRING).joined_key().as_slice()).unwrap(),
        (BYTES.to_vec(), STRING.to_string())
    );
}

#[test]
fn deserialize_triple_works() {
    assert_eq!(
        <(&[u8], u32, &str)>::from_slice((BYTES, 1234u32, STRING).joined_key().as_slice())
            .unwrap(),
        (BYTES.to_vec(), 1234, STRING.to_string())
    );
}

#[test]
fn parse_length_reads_two_bytes() {
    assert_eq!(parse_length(&[0x01, 0x02]), Ok(258));
    assert_eq!(parse_length(&[0x01]), Err(KeyError::InvalidLength));
}

#[test]
fn naked_8key_works() {
    let k: u8 = 42u8;
    let path = k.key();
    assert_eq!(1, path.len());
    assert_eq!(42u8.to_be_bytes(), path[0].as_ref());

    let k: i8 = 42i8;
    let path = k.key();
    assert_eq!(1, path.len());
    assert_eq!([42u8 ^ 0x80], path[0].as_ref());
}

#[test]
fn composite_byte_key() {
    let k: (&[u8], &[u8]) = (b"foo", b"bar");
    let path = k.key();
    assert_eq!(2, path.len());
    assert_eq!(path[0].as_ref(), b"foo");
    assert_eq!(path[1].as_ref(), b"bar");
    assert_eq!(k.joined_key(), b"\x00\x03foobar".to_vec());
}

#[test]
fn composite_int_key_and_prefix() {
    let k: (u32, u64) = (123, 87654);
    assert_eq!(
        k.joined_key(),
        [0u8, 4, 0, 0, 0, 123, 0, 0, 0, 0, 0, 1, 86, 102].to_vec()
    );
    assert_eq!((123u32,).0.joined_prefix(), vec![0u8, 4, 0, 0, 0, 123]);
    assert_eq!(k.joined_extra_key(b"x"), [0u8, 4, 0, 0, 0, 123, 0, 8, 0, 0, 0, 0, 0, 1, 86, 102, b'x'].to_vec());
}

#[test]
fn string_keys() {
    let k: String = "hi".to_string();
    assert_eq!(k.joined_key(), b"hi".to_vec());
    assert_eq!(("a", "b").joined_key(), b"\x00\x01ab".to_vec());
    assert_eq!(("a", "b").joined_prefix(), b"\x00\x01a\x00\x01b".to_vec());
}
