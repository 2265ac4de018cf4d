use cosmwasm_std::testing::MockStorage;
use cosmwasm_std::Storage;
use cw_plus::keys_old::{IntKeyOld, U8Key};
use cw_plus::map::StorageMap;
use cw_plus::prefix::{range_with_prefix, Bound};
use cw_plus::storage::Order;

fn kv(k: &[u8], v: &[u8]) -> (Vec<u8>, Vec<u8>) {
    (k.to_vec(), v.to_vec())
}

#[test]
fn ensure_proper_range_bounds() {
    let mut store = MockStorage::new();
    let prefix: &[u8] = b"foo";

    // set some data, we care about "foo" prefix
    store.set(b"foobar", b"1");
    store.set(b"foora", b"2");
    store.set(b"foozi", b"3");
    // these shouldn't match
    store.set(b"foply", b"100");
    store.set(b"font", b"200");

    let expected = vec![kv(b"bar", b"1"), kv(b"ra", b"2"), kv(b"zi", b"3")];
    let expected_reversed: Vec<(Vec<u8>, Vec<u8>)> = expected.iter().rev().cloned().collect();

    // let's do the basic sanity check
    let res = range_with_prefix(&store, prefix, None, None, Order::Ascending);
    assert_eq!(&expected, &res);
    let res = range_with_prefix(&store, prefix, None, None, Order::Descending);
    assert_eq!(&expected_reversed, &res);

    // now let's check some ascending ranges
    let res = range_with_prefix(
        &store,
        prefix,
        Some(Bound::Inclusive(b"ra".to_vec())),
        None,
        Order::Ascending,
    );
    assert_eq!(&expected[1..], res.as_slice());
    // skip excluded
    let res = range_with_prefix(
        &store,
        prefix,
        Some(Bound::Exclusive(b"ra".to_vec())),
        None,
        Order::Ascending,
    );
    assert_eq!(&expected[2..], res.as_slice());
    // if we exclude something a little lower, we get matched
    let res = range_with_prefix(
        &store,
        prefix,
        Some(Bound::Exclusive(b"r".to_vec())),
        None,
        Order::Ascending,
    );
    assert_eq!(&expected[1..], res.as_slice());

    // now let's check some descending ranges
    let res = range_with_prefix(
        &store,
        prefix,
        None,
        Some(Bound::Inclusive(b"ra".to_vec())),
        Order::Descending,
    );
    assert_eq!(&expected_reversed[1..], res.as_slice());
    // skip excluded
    let res = range_with_prefix(
        &store,
        prefix,
        None,
        Some(Bound::Exclusive(b"ra".to_vec())),
        Order::Descending,
    );
    assert_eq!(&expected_reversed[2..], res.as_slice());
    // if we exclude something a little higher, we get matched
    let res = range_with_prefix(
        &store,
        prefix,
        None,
        Some(Bound::Exclusive(b"rb".to_vec())),
        Order::Descending,
    );
    assert_eq!(&expected_reversed[1..], res.as_slice());

    // now test when both sides are set
    let res = range_with_prefix(
        &store,
        prefix,
        Some(Bound::Inclusive(b"ra".to_vec())),
        Some(Bound::Exclusive(b"zi".to_vec())),
        Order::Ascending,
    );
    assert_eq!(&expected[1..2], res.as_slice());
    // and descending
    let res = range_with_prefix(
        &store,
        prefix,
        Some(Bound::Inclusive(b"ra".to_vec())),
        Some(Bound::Exclusive(b"zi".to_vec())),
        Order::Descending,
    );
    assert_eq!(&expected[1..2], res.as_slice());
    // Include both sides
    let res = range_with_prefix(
        &store,
        prefix,
        Some(Bound::Inclusive(b"ra".to_vec())),
        Some(Bound::Inclusive(b"zi".to_vec())),
        Order::Descending,
    );
    assert_eq!(&expected_reversed[..2], res.as_slice());
    // Exclude both sides
    let res = range_with_prefix(
        &store,
        prefix,
        Some(Bound::Exclusive(b"ra".to_vec())),
        Some(Bound::Exclusive(b"zi".to_vec())),
        Order::Ascending,
    );
    assert!(res.is_empty());
}

#[test]
fn range_simple_key() {
    let mut store = MockStorage::new();
    let people: StorageMap<&[u8]> = StorageMap::new("people");
    let john: &[u8] = b"{\"name\":\"John\",\"age\":32}";
    let jim: &[u8] = b"{\"name\":\"Jim\",\"age\":44}";

    // save and load on two keys
    people.save(&mut store, b"john", john);
    people.save(&mut store, b"jim", jim);

    // let's try to iterate!
    let all = people.range(&store, None, None, Order::Ascending);
    assert_eq!(2, all.len());
    assert_eq!(all, vec![kv(b"jim", jim), kv(b"john", john)]);

    // let's try to iterate over a range
    let all = people.range(
        &store,
        Some(Bound::Inclusive(b"j".to_vec())),
        None,
        Order::Ascending,
    );
    assert_eq!(2, all.len());
    assert_eq!(all, vec![kv(b"jim", jim), kv(b"john", john)]);

    // let's try to iterate over a more restrictive range
    let all = people.range(
        &store,
        Some(Bound::Inclusive(b"jo".to_vec())),
        None,
        Order::Ascending,
    );
    assert_eq!(1, all.len());
    assert_eq!(all, vec![kv(b"john", john)]);

    let keys = people.keys(&store, None, None, Order::Descending);
    assert_eq!(keys, vec![b"john".to_vec(), b"jim".to_vec()]);
}

#[test]
fn prefix_range_over_composite_key() {
    let mut store = MockStorage::new();
    let allow: StorageMap<(&[u8], &[u8])> = StorageMap::new("allow");

    allow.save(&mut store, (b"owner", b"spender"), b"1000");
    allow.save(&mut store, (b"owner", b"spender2"), b"3000");
    allow.save(&mut store, (b"owner2", b"spender"), b"5000");

    // let's try to iterate over a prefix
    let all = allow.prefix(b"owner".as_slice()).range(&store, None, None, Order::Ascending);
    assert_eq!(
        all,
        vec![kv(b"spender", b"1000"), kv(b"spender2", b"3000")]
    );

    // the full map holds the length-prefixed first part in each raw key
    let all = allow.range(&store, None, None, Order::Ascending);
    assert_eq!(3, all.len());
    assert_eq!(all[0].0, b"\x00\x05ownerspender".to_vec());
}

#[test]
fn prefix_range_skips_other_namespaces() {
    let mut store = MockStorage::new();
    let a: StorageMap<&[u8]> = StorageMap::new("a");
    let ab: StorageMap<&[u8]> = StorageMap::new("ab");
    a.save(&mut store, b"x", b"1");
    ab.save(&mut store, b"y", b"2");
    assert_eq!(a.range(&store, None, None, Order::Ascending), vec![kv(b"x", b"1")]);
    assert_eq!(ab.range(&store, None, None, Order::Ascending), vec![kv(b"y", b"2")]);
}

#[test]
fn range_de_simple_string_key() {
    let mut store = MockStorage::new();
    let people: StorageMap<&[u8]> = StorageMap::new("people");
    let john: &[u8] = b"{\"name\":\"John\",\"age\":32}";
    let jim: &[u8] = b"{\"name\":\"Jim\",\"age\":44}";
    people.save(&mut store, b"john", john);
    people.save(&mut store, b"jim", jim);

    // let's try to iterate!
    let all: Result<Vec<_>, _> = people.range_de(&store, None, None, Order::Ascending).into_iter().collect();
    let all = all.unwrap();
    assert_eq!(2, all.len());
    assert_eq!(all, vec![kv(b"jim", jim), kv(b"john", john)]);

    // let's try to iterate over a range
    let all: Result<Vec<_>, _> = people
        .range_de(&store, Some(Bound::Inclusive(b"j".to_vec())), None, Order::Ascending)
        .into_iter()
        .collect();
    let all = all.unwrap();
    assert_eq!(2, all.len());
    assert_eq!(all, vec![kv(b"jim", jim), kv(b"john", john)]);

    // let's try to iterate over a more restrictive range
    let all: Result<Vec<_>, _> = people
        .range_de(&store, Some(Bound::Inclusive(b"jo".to_vec())), None, Order::Ascending)
        .into_iter()
        .collect();
    let all = all.unwrap();
    assert_eq!(1, all.len());
    assert_eq!(all, vec![kv(b"john", john)]);
}

#[test]
fn range_de_simple_integer_key() {
    let mut store = MockStorage::new();
    let people_id: StorageMap<u32> = StorageMap::new("people_id");
    let john: &[u8] = b"{\"name\":\"John\",\"age\":32}";
    let jim: &[u8] = b"{\"name\":\"Jim\",\"age\":44}";
    people_id.save(&mut store, 1234, john);
    people_id.save(&mut store, 56, jim);

    // let's try to iterate!
    let all: Result<Vec<_>, _> = people_id.range_de(&store, None, None, Order::Ascending).into_iter().collect();
    let all = all.unwrap();
    assert_eq!(2, all.len());
    assert_eq!(all, vec![(56, jim.to_vec()), (1234, john.to_vec())]);

    // let's try to iterate over a range
    let all: Result<Vec<_>, _> = people_id
        .range_de(&store, Some(Bound::Inclusive(56u32.to_be_bytes().to_vec())), None, Order::Ascending)
        .into_iter()
        .collect();
    let all = all.unwrap();
    assert_eq!(2, all.len());
    assert_eq!(all, vec![(56, jim.to_vec()), (1234, john.to_vec())]);

    // let's try to iterate over a more restrictive range
    let all: Result<Vec<_>, _> = people_id
        .range_de(&store, Some(Bound::Inclusive(57u32.to_be_bytes().to_vec())), None, Order::Ascending)
        .into_iter()
        .collect();
    let all = all.unwrap();
    assert_eq!(1, all.len());
    assert_eq!(all, vec![(1234, john.to_vec())]);
}

#[test]
fn range_de_composite_key() {
    let mut store = MockStorage::new();
    let allow: StorageMap<(&[u8], &[u8])> = StorageMap::new("allow");

    // save and load on three keys, one under different owner
    allow.save(&mut store, (b"owner", b"spender"), b"1000");
    allow.save(&mut store, (b"owner", b"spender2"), b"3000");
    allow.save(&mut store, (b"owner2", b"spender"), b"5000");

    // let's try to iterate!
    let all: Result<Vec<_>, _> = allow.range_de(&store, None, None, Order::Ascending).into_iter().collect();
    let all = all.unwrap();
    assert_eq!(3, all.len());
    assert_eq!(
        all,
        vec![
            ((b"owner".to_vec(), b"spender".to_vec()), b"1000".to_vec()),
            ((b"owner".to_vec(), b"spender2".to_vec()), b"3000".to_vec()),
            ((b"owner2".to_vec(), b"spender".to_vec()), b"5000".to_vec())
        ]
    );
}

#[test]
fn range_de_triple_key() {
    let mut store = MockStorage::new();
    let triple: StorageMap<(&[u8], U8Key, &str)> = StorageMap::new("triple");

    // save and load on three keys, one under different owner
    triple.save(&mut store, (b"owner", IntKeyOld::new(9u8), "recipient"), b"1000");
    triple.save(&mut store, (b"owner", IntKeyOld::new(9u8), "recipient2"), b"3000");
    triple.save(&mut store, (b"owner", IntKeyOld::new(10u8), "recipient3"), b"3000");
    triple.save(&mut store, (b"owner2", IntKeyOld::new(9u8), "recipient"), b"5000");

    // let's try to iterate!
    let all: Result<Vec<_>, _> = triple.range_de(&store, None, None, Order::Ascending).into_iter().collect();
    let all = all.unwrap();
    assert_eq!(4, all.len());
    assert_eq!(
        all,
        vec![
            ((b"owner".to_vec(), 9, "recipient".to_string()), b"1000".to_vec()),
            ((b"owner".to_vec(), 9, "recipient2".to_string()), b"3000".to_vec()),
            ((b"owner".to_vec(), 10, "recipient3".to_string()), b"3000".to_vec()),
            ((b"owner2".to_vec(), 9, "recipient".to_string()), b"5000".to_vec())
        ]
    );
}
