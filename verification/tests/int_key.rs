use cw_plus::int_key::CwIntKey;

#[test]
fn x8_int_key_works() {
    assert_eq!(0x42u8.to_cw_bytes(), [0x42]);
    assert_eq!(0x42i8.to_cw_bytes(), [0xc2]);
    assert_eq!((-0x3ei8).to_cw_bytes(), [0x42]);
}

#[test]
fn x16_int_key_works() {
    assert_eq!(0x4243u16.to_cw_bytes(), [0x42, 0x43]);
    assert_eq!(0x4243i16.to_cw_bytes(), [0xc2, 0x43]);
    assert_eq!((-0x3dbdi16).to_cw_bytes(), [0x42, 0x43]);
}

#[test]
fn x32_int_key_works() {
    assert_eq!(0x424344u32.to_cw_bytes(), [0x00, 0x42, 0x43, 0x44]);
    assert_eq!(0x424344i32.to_cw_bytes(), [0x80, 0x42, 0x43, 0x44]);
    assert_eq!((-0x7fbdbcbci32).to_cw_bytes(), [0x00, 0x42, 0x43, 0x44]);
}

#[test]
fn x64_int_key_works() {
    assert_eq!(
        0x42434445u64.to_cw_bytes(),
        [0x00, 0x00, 0x00, 0x00, 0x42, 0x43, 0x44, 0x45]
    );
    assert_eq!(
        0x42434445i64.to_cw_bytes(),
        [0x80, 0x00, 0x00, 0x00, 0x42, 0x43, 0x44, 0x45]
    );
    assert_eq!(
        (-0x7fffffffbdbcbbbbi64).to_cw_bytes(),
        [0x00, 0x00, 0x00, 0x00, 0x42, 0x43, 0x44, 0x45]
    );
}

#[test]
fn x128_int_key_works() {
    assert_eq!(
        0x4243444546u128.to_cw_bytes(),
        [
            0x00, 0x00, 0x00, 0x00, 0x00, 0x00, 0x00, 0x00, 0x00, 0x00, 0x00, 0x42, 0x43, 0x44,
            0x45, 0x46
        ]
    );
    assert_eq!(
        0x4243444546i128.to_cw_bytes(),
        [
            0x80, 0x00, 0x00, 0x00, 0x00, 0x00, 0x00, 0x00, 0x00, 0x00, 0x00, 0x42, 0x43, 0x44,
            0x45, 0x46
        ]
    );
    assert_eq!(
        (-0x7fffffffffffffffffffffbdbcbbbabai128).to_cw_bytes(),
        [
            0x00, 0x00, 0x00, 0x00, 0x00, 0x00, 0x00, 0x00, 0x00, 0x00, 0x00, 0x42, 0x43, 0x44,
            0x45, 0x46
        ]
    );
}

#[test]
fn unsigned_int_key_order() {
    assert!(0u32.to_cw_bytes() < 652u32.to_cw_bytes());
}

#[test]
fn signed_int_key_order() {
    assert!((-321i32).to_cw_bytes() < 0i32.to_cw_bytes());
    assert!(0i32.to_cw_bytes() < 652i32.to_cw_bytes());
}

#[test]
fn int_keys_roundtrip_at_extremes() {
    assert_eq!(i8::from_cw_bytes(i8::MIN.to_cw_bytes()), i8::MIN);
    assert_eq!(i8::from_cw_bytes(i8::MAX.to_cw_bytes()), i8::MAX);
    assert_eq!(i128::from_cw_bytes(i128::MIN.to_cw_bytes()), i128::MIN);
    assert_eq!(i128::from_cw_bytes((-1i128).to_cw_bytes()), -1);
    assert_eq!(u64::from_cw_bytes(u64::MAX.to_cw_bytes()), u64::MAX);
    assert_eq!(i16::from_cw_bytes([0x80, 0x00]), 0);
    assert_eq!(i16::from_cw_bytes([0x7f, 0xff]), -1);
    assert_eq!(u16::from_cw_bytes([1, 0]), 256);
}

#[test]
fn signed_int_key_order_across_zero() {
    assert!(i64::MIN.to_cw_bytes() < (-1i64).to_cw_bytes());
    assert!((-1i64).to_cw_bytes() < 0i64.to_cw_bytes());
    assert!(0i128.to_cw_bytes() < i128::MAX.to_cw_bytes());
}
