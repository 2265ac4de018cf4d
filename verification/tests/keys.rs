use cw_plus::int_key::CwIntKey;
use cw_plus::keys::{Key, Prefixer, PrimaryKey};

fn parts(path: &[Key]) -> Vec<Vec<u8>> {
    path.iter().map(|k| k.as_ref().to_vec()).collect()
}

#[test]
fn naked_16key_works() {
    let k: u16 = 4242u16;
    let path = k.key();
    assert_eq!(1, path.len());
    assert_eq!(4242u16.to_cw_bytes(), path[0].as_ref());

    let k: i16 = 4242i16;
    let path = k.key();
    assert_eq!(1, path.len());
    assert_eq!(4242i16.to_cw_bytes(), path[0].as_ref());
}

#[test]
fn naked_32key_works() {
    let k: u32 = 4242u32;
    let path = k.key();
    assert_eq!(1, path.len());
    assert_eq!(4242u32.to_cw_bytes(), path[0].as_ref());

    let k: i32 = 4242i32;
    let path = k.key();
    assert_eq!(1, path.len());
    assert_eq!(4242i32.to_cw_bytes(), path[0].as_ref());
}

#[test]
fn naked_64key_works() {
    let k: u64 = 4242u64;
    let path = k.key();
    assert_eq!(1, path.len());
    assert_eq!(4242u64.to_cw_bytes(), path[0].as_ref());

    let k: i64 = 4242i64;
    let path = k.key();
    assert_eq!(1, path.len());
    assert_eq!(4242i64.to_cw_bytes(), path[0].as_ref());
}

#[test]
fn str_key_works() {
    let k: &str = "hello";
    let path = k.key();
    assert_eq!(1, path.len());
    assert_eq!(b"hello", path[0].as_ref());

    let joined = k.joined_key();
    assert_eq!(joined, b"hello")
}

#[test]
fn string_key_works() {
    let k: String = "hello".to_string();
    let path = k.key();
    assert_eq!(1, path.len());
    assert_eq!(b"hello", path[0].as_ref());

    let joined = k.joined_key();
    assert_eq!(joined, b"hello")
}

#[test]
fn nested_str_key_works() {
    let k: (&str, &[u8]) = ("hello", b"world");
    let path = k.key();
    assert_eq!(2, path.len());
    assert_eq!(b"hello", path[0].as_ref());
    assert_eq!(b"world", path[1].as_ref());
}

#[test]
fn naked_composite_int_key() {
    let k: (u32, u64) = (123, 87654);
    let path = k.key();
    assert_eq!(2, path.len());
    assert_eq!(4, path[0].as_ref().len());
    assert_eq!(8, path[1].as_ref().len());
    assert_eq!(path[0].as_ref(), 123u32.to_cw_bytes());
    assert_eq!(path[1].as_ref(), 87654u64.to_cw_bytes());
}

#[test]
fn nested_composite_keys() {
    let first: &[u8] = b"foo";
    let k: ((&[u8], &[u8]), &[u8]) = ((first, b"bar"), b"zoom");
    let path = k.key();
    assert_eq!(3, path.len());
    assert_eq!(parts(&path), vec![first.to_vec(), b"bar".to_vec(), b"zoom".to_vec()]);

    // ensure prefix also works
    let dir = k.0.prefix();
    assert_eq!(2, dir.len());
    assert_eq!(parts(&dir), vec![first.to_vec(), b"bar".to_vec()]);
}

#[test]
fn naked_8bit_prefixes() {
    let pair: (u8, &[u8]) = (123, b"random");
    let one: Vec<u8> = vec![123];
    let two: Vec<u8> = b"random".to_vec();
    assert_eq!(parts(&pair.prefix()), vec![one, two]);

    let pair: (i8, &[u8]) = (123, b"random");
    // Signed int keys are "sign-flipped"
    let one: Vec<u8> = vec![123 ^ 0x80];
    let two: Vec<u8> = b"random".to_vec();
    assert_eq!(parts(&pair.prefix()), vec![one, two]);
}

#[test]
fn naked_16bit_prefixes() {
    let pair: (u16, &[u8]) = (12345, b"random");
    let one: Vec<u8> = vec![48, 57];
    let two: Vec<u8> = b"random".to_vec();
    assert_eq!(parts(&pair.prefix()), vec![one, two]);

    let pair: (i16, &[u8]) = (12345, b"random");
    // Signed int keys are "sign-flipped"
    let one: Vec<u8> = vec![48 ^ 0x80, 57];
    let two: Vec<u8> = b"random".to_vec();
    assert_eq!(parts(&pair.prefix()), vec![one, two]);
}

#[test]
fn naked_64bit_prefixes() {
    let pair: (u64, &[u8]) = (12345, b"random");
    let one: Vec<u8> = vec![0, 0, 0, 0, 0, 0, 48, 57];
    let two: Vec<u8> = b"random".to_vec();
    assert_eq!(parts(&pair.prefix()), vec![one, two]);

    let pair: (i64, &[u8]) = (12345, b"random");
    // Signed int keys are "sign-flipped"
    let one: Vec<u8> = vec![0x80, 0, 0, 0, 0, 0, 48, 57];
    let two: Vec<u8> = b"random".to_vec();
    assert_eq!(parts(&pair.prefix()), vec![one, two]);
}

#[test]
fn naked_proper_prefixes() {
    let pair: (u32, &[u8]) = (12345, b"random");
    let one: Vec<u8> = vec![0, 0, 48, 57];
    let two: Vec<u8> = b"random".to_vec();
    assert_eq!(parts(&pair.prefix()), vec![one, two]);

    let triple: (&str, u32, &[u8]) = ("begin", 12345, b"end");
    let one: Vec<u8> = b"begin".to_vec();
    let two: Vec<u8> = vec![0, 0, 48, 57];
    let three: Vec<u8> = b"end".to_vec();
    assert_eq!(
        parts(&triple.prefix()),
        vec![one.clone(), two.clone(), three.clone()]
    );

    // same works with owned variants (&str -> String, &[u8] -> Vec<u8>)
    let owned_triple: (String, u32, Vec<u8>) = ("begin".to_string(), 12345, b"end".to_vec());
    assert_eq!(parts(&owned_triple.prefix()), vec![one, two, three]);
}
