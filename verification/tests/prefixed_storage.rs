use cosmwasm_std::testing::MockStorage;
use cosmwasm_std::Storage;
use cw_plus::helpers::{namespace_upper_bound, to_length_prefixed};
use cw_plus::prefix::{range_with_prefix, Bound};
use cw_plus::storage::Order;

type KV = (Vec<u8>, Vec<u8>);

fn set_with_prefix(storage: &mut MockStorage, namespace: &[u8], key: &[u8], value: &[u8]) {
    storage.set(&cw_plus::helpers::concat(namespace, key), value);
}

// A start given as raw bytes is included, an end is excluded.
fn from(start: &[u8]) -> Option<Bound> {
    Some(Bound::Inclusive(start.to_vec()))
}

fn until(end: &[u8]) -> Option<Bound> {
    Some(Bound::Exclusive(end.to_vec()))
}

fn check_range() {
    let mut storage = MockStorage::new();
    let prefix = to_length_prefixed(b"foo");
    let other_prefix = to_length_prefixed(b"food");

    // set some values in this range
    set_with_prefix(&mut storage, &prefix, b"bar", b"none");
    set_with_prefix(&mut storage, &prefix, b"snowy", b"day");

    // set some values outside this range
    set_with_prefix(&mut storage, &other_prefix, b"moon", b"buggy");

    // ensure we get proper result from prefixed_range iterator
    let mut iter = range_with_prefix(&storage, &prefix, None, None, Order::Descending).into_iter();
    let first = iter.next().unwrap();
    assert_eq!(first, (b"snowy".to_vec(), b"day".to_vec()));
    let second = iter.next().unwrap();
    assert_eq!(second, (b"bar".to_vec(), b"none".to_vec()));
    assert!(iter.next().is_none());

    // ensure we get raw result from base range
    let iter = storage.range(None, None, cosmwasm_std::Order::Ascending);
    assert_eq!(3, iter.count());

    // foo comes first
    let mut iter = storage.range(None, None, cosmwasm_std::Order::Ascending);
    let first = iter.next().unwrap();
    let expected_key = cw_plus::helpers::concat(&prefix, b"bar");
    assert_eq!(first, (expected_key, b"none".to_vec()));
}

fn check_range_with_prefix_wrapover() {
    let mut storage = MockStorage::new();
    // if we don't properly wrap over there will be issues here (note 255+1 is used to calculate end)
    let prefix = to_length_prefixed(b"f\xff\xff");
    let other_prefix = to_length_prefixed(b"f\xff\x44");

    // set some values in this range
    set_with_prefix(&mut storage, &prefix, b"bar", b"none");
    set_with_prefix(&mut storage, &prefix, b"snowy", b"day");

    // set some values outside this range
    set_with_prefix(&mut storage, &other_prefix, b"moon", b"buggy");

    // ensure we get proper result from prefixed_range iterator
    let elements: Vec<KV> = range_with_prefix(&storage, &prefix, None, None, Order::Descending);
    assert_eq!(
        elements,
        vec![
            (b"snowy".to_vec(), b"day".to_vec()),
            (b"bar".to_vec(), b"none".to_vec()),
        ]
    );
}

fn check_range_with_start_end_set() {
    let mut storage = MockStorage::new();
    // if we don't properly wrap over there will be issues here (note 255+1 is used to calculate end)
    let prefix = to_length_prefixed(b"f\xff\xff");
    let other_prefix = to_length_prefixed(b"f\xff\x44");

    // set some values in this range
    set_with_prefix(&mut storage, &prefix, b"bar", b"none");
    set_with_prefix(&mut storage, &prefix, b"snowy", b"day");

    // set some values outside this range
    set_with_prefix(&mut storage, &other_prefix, b"moon", b"buggy");

    // make sure start and end are applied properly
    let res: Vec<KV> = range_with_prefix(&storage, &prefix, from(b"b"), until(b"c"), Order::Ascending);
    assert_eq!(res.len(), 1);
    assert_eq!(res[0], (b"bar".to_vec(), b"none".to_vec()));

    // make sure start and end are applied properly
    let res: Vec<KV> =
        range_with_prefix(&storage, &prefix, from(b"bas"), until(b"sno"), Order::Ascending);
    assert_eq!(res.len(), 0);

    let res: Vec<KV> = range_with_prefix(&storage, &prefix, from(b"ant"), None, Order::Ascending);
    assert_eq!(res.len(), 2);
    assert_eq!(res[0], (b"bar".to_vec(), b"none".to_vec()));
    assert_eq!(res[1], (b"snowy".to_vec(), b"day".to_vec()));
}

#[test]
fn helpers_test_range() {
    check_range();
}

#[test]
fn iter_helpers_test_range() {
    check_range();
}

#[test]
fn helpers_test_range_with_prefix_wrapover() {
    check_range_with_prefix_wrapover();
}

#[test]
fn iter_helpers_test_range_with_prefix_wrapover() {
    check_range_with_prefix_wrapover();
}

#[test]
fn helpers_test_range_with_start_end_set() {
    check_range_with_start_end_set();
}

#[test]
fn iter_helpers_test_range_with_start_end_set() {
    check_range_with_start_end_set();
}

#[test]
fn helpers_test_namespace_upper_bound() {
    assert_eq!(namespace_upper_bound(b"bob"), b"boc".to_vec());
    assert_eq!(namespace_upper_bound(b"fo\xfe"), b"fo\xff".to_vec());
    assert_eq!(namespace_upper_bound(b"fo\xff"), b"fp\x00".to_vec());
    // multiple \xff roll over
    assert_eq!(
        namespace_upper_bound(b"fo\xff\xff\xff"),
        b"fp\x00\x00\x00".to_vec()
    );
    // \xff not at the end are ignored
    assert_eq!(namespace_upper_bound(b"\xffabc"), b"\xffabd".to_vec());
}

#[test]
fn prefix_get_set() {
    let mut storage = MockStorage::new();
    let prefix = to_length_prefixed(b"foo");

    cw_plus::helpers::set_with_prefix(&mut storage, &prefix, b"bar", b"gotcha");
    let rfoo = cw_plus::helpers::get_with_prefix(&storage, &prefix, b"bar");
    assert_eq!(rfoo, Some(b"gotcha".to_vec()));

    // no collisions with other prefixes
    let other_prefix = to_length_prefixed(b"fo");
    let collision = cw_plus::helpers::get_with_prefix(&storage, &other_prefix, b"obar");
    assert_eq!(collision, None);

    cw_plus::helpers::remove_with_prefix(&mut storage, &prefix, b"bar");
    assert_eq!(cw_plus::helpers::get_with_prefix(&storage, &prefix, b"bar"), None);
}
