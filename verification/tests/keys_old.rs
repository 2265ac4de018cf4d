use cw_plus::de::{KeyDeserialize, KeyError};
use cw_plus::keys::PrimaryKey;
use cw_plus::keys_old::IntKeyOld;

#[test]
fn u64key_old_works() {
    let k: IntKeyOld<u64> = IntKeyOld::new(134u64);
    let path = k.key();
    assert_eq!(1, path.len());
    assert_eq!(134u64.to_be_bytes(), path[0].as_ref());
}

#[test]
fn i32key_old_works() {
    let k: IntKeyOld<i32> = IntKeyOld::new(4242i32);
    let path = k.key();
    assert_eq!(1, path.len());
    assert_eq!(4242i32.to_be_bytes(), path[0].as_ref());

    let k: IntKeyOld<i32> = IntKeyOld::<i32>::new(-4242i32);
    let path = k.key();
    assert_eq!(1, path.len());
    assert_eq!((-4242i32).to_be_bytes(), path[0].as_ref());
}

#[test]
fn deserialize_integer_old_works() {
    assert_eq!(<IntKeyOld<u8>>::from_slice(&[1]).unwrap(), 1u8);
    assert_eq!(<IntKeyOld<i8>>::from_slice(&[127]).unwrap(), 127i8);
    assert_eq!(<IntKeyOld<i8>>::from_slice(&[128]).unwrap(), -128i8);

    assert_eq!(<IntKeyOld<u16>>::from_slice(&[1, 0]).unwrap(), 256u16);
    assert_eq!(<IntKeyOld<i16>>::from_slice(&[128, 0]).unwrap(), -32768i16);
    assert_eq!(<IntKeyOld<i16>>::from_slice(&[127, 255]).unwrap(), 32767i16);

    assert_eq!(
        <IntKeyOld<u32>>::from_slice(&[1, 0, 0, 0]).unwrap(),
        16777216u32
    );
    assert_eq!(
        <IntKeyOld<i32>>::from_slice(&[128, 0, 0, 0]).unwrap(),
        -2147483648i32
    );
    assert_eq!(
        <IntKeyOld<i32>>::from_slice(&[127, 255, 255, 255]).unwrap(),
        2147483647i32
    );

    assert_eq!(
        <IntKeyOld<u64>>::from_slice(&[1, 0, 0, 0, 0, 0, 0, 0]).unwrap(),
        72057594037927936u64
    );
    assert_eq!(
        <IntKeyOld<i64>>::from_slice(&[128, 0, 0, 0, 0, 0, 0, 0]).unwrap(),
        -9223372036854775808i64
    );
    assert_eq!(
        <IntKeyOld<i64>>::from_slice(&[127, 255, 255, 255, 255, 255, 255, 255]).unwrap(),
        9223372036854775807i64
    );

    assert_eq!(
        <IntKeyOld<u128>>::from_slice(&[1, 0, 0, 0, 0, 0, 0, 0, 0, 0, 0, 0, 0, 0, 0, 0])
            .unwrap(),
        1329227995784915872903807060280344576u128
    );
    assert_eq!(
        <IntKeyOld<i128>>::from_slice(&[128, 0, 0, 0, 0, 0, 0, 0, 0, 0, 0, 0, 0, 0, 0, 0])
            .unwrap(),
        -170141183460469231731687303715884105728i128
    );
    assert_eq!(
        <IntKeyOld<i128>>::from_slice(&[
            127, 255, 255, 255, 255, 255, 255, 255, 255, 255, 255, 255, 255, 255, 255, 255
        ])
        .unwrap(),
        170141183460469231731687303715884105727i128
    );
    assert_eq!(
        <IntKeyOld<i128>>::from_slice(&[
            255, 255, 255, 255, 255, 255, 255, 255, 255, 255, 255, 255, 255, 255, 255, 255
        ])
        .unwrap(),
        -1i128,
    );
}

#[test]
fn deserialize_broken_integer_old_errs() {
    // One byte less fails
    assert_eq!(
        <IntKeyOld<u16>>::from_slice(&[1]).err(),
        Some(KeyError::InvalidLength)
    );
    // More bytes fails too
    assert_eq!(
        <IntKeyOld<u8>>::from_slice(&[1, 2]).err(),
        Some(KeyError::InvalidLength)
    );
}

#[test]
fn old_int_key_bytes_read_back() {
    for x in [i64::MIN, -4242, -1, 0, 1, 4242, i64::MAX] {
        let k = IntKeyOld::new(x);
        assert_eq!(<IntKeyOld<i64>>::from_slice(&k.wrapped).unwrap(), x);
    }
    let k = IntKeyOld::new(i128::MIN);
    assert_eq!(<IntKeyOld<i128>>::from_slice(&k.wrapped).unwrap(), i128::MIN);
}
