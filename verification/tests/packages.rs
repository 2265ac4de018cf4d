use cw_plus::cw4::{member_key, member_weight, MemberDiff, WeightError, MEMBERS_KEY};
use cw_plus::snapshot::{changeset_decode, changeset_encode, count_text, parse_count};
use cw_plus::helpers::{to_length_prefixed, to_length_prefixed_nested};

#[test]
fn lib_it_works() {
    assert_eq!(2 + 2, 4);
}

#[test]
fn member_key_is_prefixed_members_namespace() {
    let key = member_key(b"alice");
    assert_eq!(key, b"\x00\x07membersalice".to_vec());
    assert_eq!(MEMBERS_KEY, "members");
}

#[test]
fn member_diff_holds_both_weights() {
    let d = MemberDiff::new("bob".to_string(), None, Some(5));
    assert_eq!(d.addr, "bob");
    assert_eq!(d.old_weight, None);
    assert_eq!(d.new_weight, Some(5));
}

#[test]
fn helpers_to_length_prefixed_nested_allows_many_long_namespaces() {
    // The 0xFFFF limit is for each namespace, not for the combination of them
    let long_namespace1 = vec![0xaa; 0xFFFD];
    let long_namespace2 = vec![0xbb; 0xFFFE];
    let long_namespace3 = vec![0xcc; 0xFFFF];

    let prefix = to_length_prefixed_nested(&[&long_namespace1, &long_namespace2, &long_namespace3]);
    assert_eq!(&prefix[0..2], b"\xFF\xFD");
    assert_eq!(&prefix[2..(2 + 0xFFFD)], long_namespace1.as_slice());
    assert_eq!(&prefix[(2 + 0xFFFD)..(2 + 0xFFFD + 2)], b"\xFF\xFe");
    assert_eq!(
        &prefix[(2 + 0xFFFD + 2)..(2 + 0xFFFD + 2 + 0xFFFE)],
        long_namespace2.as_slice()
    );
    assert_eq!(
        &prefix[(2 + 0xFFFD + 2 + 0xFFFE)..(2 + 0xFFFD + 2 + 0xFFFE + 2)],
        b"\xFF\xFf"
    );
    assert_eq!(
        &prefix[(2 + 0xFFFD + 2 + 0xFFFE + 2)..(2 + 0xFFFD + 2 + 0xFFFE + 2 + 0xFFFF)],
        long_namespace3.as_slice()
    );
}

#[test]
fn legacy_helpers_to_length_prefixed_nested_allows_many_long_namespaces() {
    // The 0xFFFF limit is for each namespace, not for the combination of them
    let long_namespace1 = vec![0xaa; 0xFFFD];
    let long_namespace2 = vec![0xbb; 0xFFFE];
    let long_namespace3 = vec![0xcc; 0xFFFF];

    let prefix = to_length_prefixed_nested(&[&long_namespace1, &long_namespace2, &long_namespace3]);
    assert_eq!(&prefix[0..2], b"\xFF\xFD");
    assert_eq!(&prefix[2..(2 + 0xFFFD)], long_namespace1.as_slice());
    assert_eq!(&prefix[(2 + 0xFFFD)..(2 + 0xFFFD + 2)], b"\xFF\xFe");
    assert_eq!(
        &prefix[(2 + 0xFFFD + 2)..(2 + 0xFFFD + 2 + 0xFFFE)],
        long_namespace2.as_slice()
    );
    assert_eq!(
        &prefix[(2 + 0xFFFD + 2 + 0xFFFE)..(2 + 0xFFFD + 2 + 0xFFFE + 2)],
        b"\xFF\xFf"
    );
    assert_eq!(
        &prefix[(2 + 0xFFFD + 2 + 0xFFFE + 2)..(2 + 0xFFFD + 2 + 0xFFFE + 2 + 0xFFFF)],
        long_namespace3.as_slice()
    );
}

#[test]
fn helpers_to_length_prefixed_nested_calculates_capacity_correctly() {
    let key = to_length_prefixed_nested(&[]);
    assert_eq!(key.capacity(), key.len());

    let key = to_length_prefixed_nested(&[b""]);
    assert_eq!(key.capacity(), key.len());

    let key = to_length_prefixed_nested(&[b"a"]);
    assert_eq!(key.capacity(), key.len());

    let key = to_length_prefixed_nested(&[b"a", b"bc"]);
    assert_eq!(key.capacity(), key.len());

    let key = to_length_prefixed_nested(&[b"a", b"bc", b"def"]);
    assert_eq!(key.capacity(), key.len());
}

#[test]
fn legacy_helpers_to_length_prefixed_nested_calculates_capacity_correctly() {
    let key = to_length_prefixed_nested(&[]);
    assert_eq!(key.capacity(), key.len());

    let key = to_length_prefixed_nested(&[b""]);
    assert_eq!(key.capacity(), key.len());

    let key = to_length_prefixed_nested(&[b"a"]);
    assert_eq!(key.capacity(), key.len());

    let key = to_length_prefixed_nested(&[b"a", b"bc"]);
    assert_eq!(key.capacity(), key.len());

    let key = to_length_prefixed_nested(&[b"a", b"bc", b"def"]);
    assert_eq!(key.capacity(), key.len());
}

#[test]
fn to_length_prefixed_calculates_capacity_correctly() {
    let key = to_length_prefixed(b"");
    assert_eq!(key.capacity(), key.len());

    let key = to_length_prefixed(b"h");
    assert_eq!(key.capacity(), key.len());

    let key = to_length_prefixed(b"hij");
    assert_eq!(key.capacity(), key.len());
}

#[test]
fn member_weight_reads_raw_values() {
    assert_eq!(member_weight(b""), Ok(None));
    assert_eq!(member_weight(b"17"), Ok(Some(17)));
    assert_eq!(member_weight(b"18446744073709551615"), Ok(Some(u64::MAX)));
    assert_eq!(member_weight(b"18446744073709551616"), Err(WeightError::ParseErr));
    assert_eq!(member_weight(b"017"), Err(WeightError::ParseErr));
    assert_eq!(member_weight(b"x"), Err(WeightError::ParseErr));
}

#[test]
fn stored_counts_read_back() {
    for n in [0u32, 7, 10, 4242, u32::MAX] {
        assert_eq!(parse_count(&count_text(n)), Some(n));
    }
    assert_eq!(parse_count(b"4294967296"), None);
    assert_eq!(changeset_decode(&changeset_encode(Some(b"12"))), Some(Some(b"12".to_vec())));
    assert_eq!(changeset_decode(&changeset_encode(None)), Some(None));
    assert_eq!(changeset_decode(b"{\"old\":}"), None);
}
