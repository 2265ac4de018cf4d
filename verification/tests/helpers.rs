use cw_plus::helpers::{
    encode_length, length_prefixed_with_key, namespace_upper_bound, namespaces_with_key,
    nested_namespaces_with_key, to_length_prefixed, to_length_prefixed_nested, trim,
};

#[test]
fn helpers_to_length_prefixed_nested_works() {
    assert_eq!(to_length_prefixed_nested(&[]), b"");
    assert_eq!(to_length_prefixed_nested(&[b""]), b"\x00\x00");
    assert_eq!(to_length_prefixed_nested(&[b"", b""]), b"\x00\x00\x00\x00");

    assert_eq!(to_length_prefixed_nested(&[b"a"]), b"\x00\x01a");
    assert_eq!(
        to_length_prefixed_nested(&[b"a", b"ab"]),
        b"\x00\x01a\x00\x02ab"
    );
    assert_eq!(
        to_length_prefixed_nested(&[b"a", b"ab", b"abc"]),
        b"\x00\x01a\x00\x02ab\x00\x03abc"
    );
}

#[test]
fn legacy_helpers_to_length_prefixed_nested_works() {
    assert_eq!(to_length_prefixed_nested(&[]), b"");
    assert_eq!(to_length_prefixed_nested(&[b""]), b"\x00\x00");
    assert_eq!(to_length_prefixed_nested(&[b"", b""]), b"\x00\x00\x00\x00");

    assert_eq!(to_length_prefixed_nested(&[b"a"]), b"\x00\x01a");
    assert_eq!(
        to_length_prefixed_nested(&[b"a", b"ab"]),
        b"\x00\x01a\x00\x02ab"
    );
    assert_eq!(
        to_length_prefixed_nested(&[b"a", b"ab", b"abc"]),
        b"\x00\x01a\x00\x02ab\x00\x03abc"
    );
}

#[test]
fn to_length_prefixed_nested_allows_many_long_namespaces() {
    let long_namespace1 = vec![0xaa; 0xFFFD];
    let long_namespace2 = vec![0xbb; 0xFFFE];
    let long_namespace3 = vec![0xcc; 0xFFFF];

    let prefix = to_length_prefixed_nested(&[&long_namespace1, &long_namespace2, &long_namespace3]);
    assert_eq!(&prefix[0..2], b"\xFF\xFD");
    assert_eq!(&prefix[2..(2 + 0xFFFD)], long_namespace1.as_slice());
    assert_eq!(&prefix[(2 + 0xFFFD)..(2 + 0xFFFD + 2)], b"\xFF\xFe");
    assert_eq!(
        &prefix[(2 + 0xFFFD + 2)..(2 + 0xFFFD + 2 + 0xFFFE)],
        long_namespace2.as_slice()
    );
    assert_eq!(
        &prefix[(2 + 0xFFFD + 2 + 0xFFFE)..(2 + 0xFFFD + 2 + 0xFFFE + 2)],
        b"\xFF\xFf"
    );
    assert_eq!(
        &prefix[(2 + 0xFFFD + 2 + 0xFFFE + 2)..(2 + 0xFFFD + 2 + 0xFFFE + 2 + 0xFFFF)],
        long_namespace3.as_slice()
    );
}

#[test]
fn encode_length_works() {
    assert_eq!(encode_length(b""), *b"\x00\x00");
    assert_eq!(encode_length(b"a"), *b"\x00\x01");
    assert_eq!(encode_length(b"aa"), *b"\x00\x02");
    assert_eq!(encode_length(b"aaa"), *b"\x00\x03");
    assert_eq!(encode_length(&vec![1; 255]), *b"\x00\xff");
    assert_eq!(encode_length(&vec![1; 256]), *b"\x01\x00");
    assert_eq!(encode_length(&vec![1; 12345]), *b"\x30\x39");
    assert_eq!(encode_length(&vec![1; 65535]), *b"\xff\xff");
}

#[test]
fn to_length_prefixed_works() {
    assert_eq!(to_length_prefixed(b""), b"\x00\x00");
    assert_eq!(to_length_prefixed(b"a"), b"\x00\x01a");
    assert_eq!(to_length_prefixed(b"ab"), b"\x00\x02ab");
    assert_eq!(to_length_prefixed(b"abc"), b"\x00\x03abc");
}

#[test]
fn to_length_prefixed_works_for_long_prefix() {
    let long_namespace1 = vec![0; 256];
    let prefix1 = to_length_prefixed(&long_namespace1);
    assert_eq!(prefix1.len(), 256 + 2);
    assert_eq!(&prefix1[0..2], b"\x01\x00");

    let long_namespace2 = vec![0; 30000];
    let prefix2 = to_length_prefixed(&long_namespace2);
    assert_eq!(prefix2.len(), 30000 + 2);
    assert_eq!(&prefix2[0..2], b"\x75\x30");

    let long_namespace3 = vec![0; 0xFFFF];
    let prefix3 = to_length_prefixed(&long_namespace3);
    assert_eq!(prefix3.len(), 0xFFFF + 2);
    assert_eq!(&prefix3[0..2], b"\xFF\xFF");
}

#[test]
fn iter_helpers_test_namespace_upper_bound() {
    assert_eq!(namespace_upper_bound(b"bob"), b"boc".to_vec());
    assert_eq!(namespace_upper_bound(b"fo\xfe"), b"fo\xff".to_vec());
    assert_eq!(namespace_upper_bound(b"fo\xff"), b"fp\x00".to_vec());
    // multiple \xff roll over
    assert_eq!(
        namespace_upper_bound(b"fo\xff\xff\xff"),
        b"fp\x00\x00\x00".to_vec()
    );
    // \xff not at the end are ignored
    assert_eq!(namespace_upper_bound(b"\xffabc"), b"\xffabd".to_vec());
}

#[test]
fn namespace_upper_bound_of_all_max_is_zeros() {
    assert_eq!(namespace_upper_bound(b"\xff\xff"), vec![0u8, 0u8]);
    assert_eq!(namespace_upper_bound(b""), Vec::<u8>::new());
}

#[test]
fn namespaces_with_key_joins_prefix_and_key() {
    assert_eq!(
        namespaces_with_key(&[b"a", b"bc"], b"key"),
        b"\x00\x01a\x00\x02bckey".to_vec()
    );
    assert_eq!(namespaces_with_key(&[], b"key"), b"key".to_vec());
    assert_eq!(
        nested_namespaces_with_key(&[b"top"], &[b"s"], b"k"),
        b"\x00\x03top\x00\x01sk".to_vec()
    );
    assert_eq!(
        length_prefixed_with_key(b"foo", b"bar"),
        b"\x00\x03foobar".to_vec()
    );
}

#[test]
fn prefixed_keys_do_not_collide() {
    // "foo" + "bar" and "fo" + "obar" give different full keys
    let a = length_prefixed_with_key(b"foo", b"bar");
    let b = length_prefixed_with_key(b"fo", b"obar");
    assert_ne!(a, b);
}

#[test]
fn concat_and_trim_are_inverse() {
    let k = cw_plus::helpers::concat(b"space", b"key");
    assert_eq!(k, b"spacekey".to_vec());
    assert_eq!(trim(b"space", &k), b"key".to_vec());
}
