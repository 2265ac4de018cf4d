use cosmwasm_std::testing::MockStorage;
use cw_plus::keys::PrimaryKey;
use cw_plus::keys_old::{IntKeyOld, U32Key, U8Key};
use cw_plus::map::StorageMap;
use cw_plus::prefix::{Bound, PrefixBound};
use cw_plus::storage::Order;

// Values are stored as their JSON text, as the contracts store them.
fn num(n: u64) -> Vec<u8> {
    n.to_string().into_bytes()
}

fn data(name: &str, age: i32) -> Vec<u8> {
    format!("{{\"name\":\"{}\",\"age\":{}}}", name, age).into_bytes()
}

// Reads `(name, age)` back from the JSON text written by `data`.
fn parse_data(bytes: &[u8]) -> (String, i32) {
    let text = String::from_utf8(bytes.to_vec()).unwrap();
    let name_start = text.find("\"name\":\"").unwrap() + 8;
    let name_end = name_start + text[name_start..].find('"').unwrap();
    let age_start = text.find("\"age\":").unwrap() + 6;
    let age_end = text.len() - 1;
    (
        text[name_start..name_end].to_string(),
        text[age_start..age_end].parse().unwrap(),
    )
}

fn parse_num(bytes: &[u8]) -> u64 {
    String::from_utf8(bytes.to_vec()).unwrap().parse().unwrap()
}

fn people() -> StorageMap<'static, &'static [u8]> {
    StorageMap::new("people")
}

fn allowance() -> StorageMap<'static, (&'static [u8], &'static [u8])> {
    StorageMap::new("allow")
}

fn triple() -> StorageMap<'static, (&'static [u8], U8Key, &'static str)> {
    StorageMap::new("triple")
}

#[test]
fn map_range_composite_key() {
    let mut store = MockStorage::new();

    // save and load on three keys, one under different owner
    allowance().save(&mut store, (b"owner", b"spender"), &num(1000));
    allowance().save(&mut store, (b"owner", b"spender2"), &num(3000));
    allowance().save(&mut store, (b"owner2", b"spender"), &num(5000));

    // let's try to iterate!
    let all = allowance().range(&store, None, None, Order::Ascending);
    assert_eq!(3, all.len());
    assert_eq!(
        all,
        vec![
            ((b"owner".to_vec(), b"spender".to_vec()).joined_key(), num(1000)),
            ((b"owner".to_vec(), b"spender2".to_vec()).joined_key(), num(3000)),
            ((b"owner2".to_vec(), b"spender".to_vec()).joined_key(), num(5000)),
        ]
    );

    // let's try to iterate over a prefix
    let all = allowance()
        .prefix(b"owner".as_slice())
        .range(&store, None, None, Order::Ascending);
    assert_eq!(2, all.len());
    assert_eq!(
        all,
        vec![(b"spender".to_vec(), num(1000)), (b"spender2".to_vec(), num(3000))]
    );
}

#[test]
fn range_triple_key() {
    let mut store = MockStorage::new();

    // save and load on three keys, one under different owner
    triple().save(&mut store, (b"owner", IntKeyOld::new(9u8), "recipient"), &num(1000));
    triple().save(&mut store, (b"owner", IntKeyOld::new(9u8), "recipient2"), &num(3000));
    triple().save(&mut store, (b"owner", IntKeyOld::new(10u8), "recipient3"), &num(3000));
    triple().save(&mut store, (b"owner2", IntKeyOld::new(9u8), "recipient"), &num(5000));

    // let's try to iterate!
    let all = triple().range(&store, None, None, Order::Ascending);
    assert_eq!(4, all.len());
    assert_eq!(
        all,
        vec![
            (
                (b"owner".to_vec(), U8Key::new(9), b"recipient".to_vec()).joined_key(),
                num(1000)
            ),
            (
                (b"owner".to_vec(), U8Key::new(9), b"recipient2".to_vec()).joined_key(),
                num(3000)
            ),
            (
                (b"owner".to_vec(), U8Key::new(10), b"recipient3".to_vec()).joined_key(),
                num(3000)
            ),
            (
                (b"owner2".to_vec(), U8Key::new(9), b"recipient".to_vec()).joined_key(),
                num(5000)
            ),
        ]
    );

    // let's iterate over a prefix
    let all = triple()
        .prefix((b"owner".as_slice(), U8Key::new(9)))
        .range(&store, None, None, Order::Ascending);
    assert_eq!(2, all.len());
    assert_eq!(
        all,
        vec![
            (b"recipient".to_vec(), num(1000)),
            (b"recipient2".to_vec(), num(3000)),
        ]
    );

    // let's iterate over a sub prefix
    let all = triple()
        .sub_prefix(b"owner".as_slice())
        .range(&store, None, None, Order::Ascending);
    assert_eq!(3, all.len());
    // Use range_de() if you want key deserialization
    assert_eq!(
        all,
        vec![
            ((U8Key::new(9), b"recipient".to_vec()).joined_key(), num(1000)),
            ((U8Key::new(9), b"recipient2".to_vec()).joined_key(), num(3000)),
            ((U8Key::new(10), b"recipient3".to_vec()).joined_key(), num(3000)),
        ]
    );
}

#[test]
fn map_readme_works() {
    let mut store = MockStorage::new();
    let john = data("John", 32);

    // load and save with extra key argument
    let empty = people().may_load(&store, b"john");
    assert_eq!(None, empty);
    people().save(&mut store, b"john", &john);
    let loaded = people().load(&store, b"john").unwrap();
    assert_eq!(john, loaded);

    // nothing on another key
    let missing = people().may_load(&store, b"jack");
    assert_eq!(None, missing);

    // update function for new or existing keys
    let birthday = |d: Option<Vec<u8>>| -> Result<Vec<u8>, String> {
        match d {
            Some(one) => {
                let (name, age) = parse_data(&one);
                Ok(data(&name, age + 1))
            }
            None => Ok(data("Newborn", 0)),
        }
    };

    let old_john = people().update(&mut store, b"john", birthday).unwrap();
    assert_eq!(33, parse_data(&old_john).1);
    assert_eq!("John", parse_data(&old_john).0.as_str());

    let new_jack = people().update(&mut store, b"jack", birthday).unwrap();
    assert_eq!(0, parse_data(&new_jack).1);
    assert_eq!("Newborn", parse_data(&new_jack).0.as_str());

    // update also changes the store
    assert_eq!(old_john, people().load(&store, b"john").unwrap());
    assert_eq!(new_jack, people().load(&store, b"jack").unwrap());

    // removing leaves us empty
    people().remove(&mut store, b"john");
    let empty = people().may_load(&store, b"john");
    assert_eq!(None, empty);
}

#[test]
fn readme_works_composite_keys() {
    let mut store = MockStorage::new();

    // save and load on a composite key
    let empty = allowance().may_load(&store, (b"owner", b"spender"));
    assert_eq!(None, empty);
    allowance().save(&mut store, (b"owner", b"spender"), &num(777));
    let loaded = allowance().load(&store, (b"owner", b"spender")).unwrap();
    assert_eq!(num(777), loaded);

    // doesn't appear under other key (even if a concat would be the same)
    let different = allowance().may_load(&store, (b"owners", b"pender"));
    assert_eq!(None, different);

    // simple update
    allowance()
        .update(&mut store, (b"owner", b"spender"), |v| -> Result<Vec<u8>, String> {
            Ok(num(v.map(|b| parse_num(&b)).unwrap_or_default() + 222))
        })
        .unwrap();
    let loaded = allowance().load(&store, (b"owner", b"spender")).unwrap();
    assert_eq!(num(999), loaded);
}

#[test]
fn readme_works_with_path() {
    let mut store = MockStorage::new();
    let data = data("John", 32);

    // create a Path one time to use below
    let john = people().key(b"john");

    // Use this just like an Item above
    let empty = john.may_load(&store);
    assert_eq!(None, empty);
    john.save(&mut store, &data);
    let loaded = john.load(&store).unwrap();
    assert_eq!(data, loaded);
    john.remove(&mut store);
    let empty = john.may_load(&store);
    assert_eq!(None, empty);

    // same for composite keys, just use both parts in key()
    let allow = allowance().key((b"owner", b"spender"));
    allow.save(&mut store, &num(1234));
    let loaded = allow.load(&store).unwrap();
    assert_eq!(num(1234), loaded);
    allow
        .update(&mut store, |x| -> Result<Vec<u8>, String> {
            Ok(num(x.map(|b| parse_num(&b)).unwrap_or_default() * 2))
        })
        .unwrap();
    let loaded = allow.load(&store).unwrap();
    assert_eq!(num(2468), loaded);
}

#[test]
fn readme_with_range() {
    let mut store = MockStorage::new();

    // save and load on two keys
    let john = data("John", 32);
    people().save(&mut store, b"john", &john);
    let jim = data("Jim", 44);
    people().save(&mut store, b"jim", &jim);

    // iterate over them all
    let all = people().range(&store, None, None, Order::Ascending);
    assert_eq!(
        all,
        vec![(b"jim".to_vec(), jim), (b"john".to_vec(), john.clone())]
    );

    // or just show what is after jim
    let all = people().range(
        &store,
        Some(Bound::Exclusive(b"jim".to_vec())),
        None,
        Order::Ascending,
    );
    assert_eq!(all, vec![(b"john".to_vec(), john)]);

    // save and load on three keys, one under different owner
    allowance().save(&mut store, (b"owner", b"spender"), &num(1000));
    allowance().save(&mut store, (b"owner", b"spender2"), &num(3000));
    allowance().save(&mut store, (b"owner2", b"spender"), &num(5000));

    // get all under one key
    let all = allowance()
        .prefix(b"owner".as_slice())
        .range(&store, None, None, Order::Ascending);
    assert_eq!(
        all,
        vec![(b"spender".to_vec(), num(1000)), (b"spender2".to_vec(), num(3000))]
    );

    // Or ranges between two items (even reverse)
    let all = allowance().prefix(b"owner".as_slice()).range(
        &store,
        Some(Bound::Exclusive(b"spender1".to_vec())),
        Some(Bound::Inclusive(b"spender2".to_vec())),
        Order::Descending,
    );
    assert_eq!(all, vec![(b"spender2".to_vec(), num(3000))]);
}

fn values(all: Vec<(Vec<u8>, Vec<u8>)>) -> Vec<u64> {
    all.into_iter().map(|(_, v)| parse_num(&v)).collect()
}

#[test]
fn prefixed_range_works() {
    // this is designed to look as much like a secondary index as possible
    // we want to query over a range of u32 for the first key and all subkeys
    let ages: StorageMap<(U32Key, Vec<u8>)> = StorageMap::new("ages");

    let mut store = MockStorage::new();
    ages.save(&mut store, (U32Key::new(2), vec![1, 2, 3]), &num(123));
    ages.save(&mut store, (U32Key::new(3), vec![4, 5, 6]), &num(456));
    ages.save(&mut store, (U32Key::new(5), vec![7, 8, 9]), &num(789));
    ages.save(&mut store, (U32Key::new(5), vec![9, 8, 7]), &num(987));
    ages.save(&mut store, (U32Key::new(7), vec![20, 21, 22]), &num(2002));
    ages.save(&mut store, (U32Key::new(8), vec![23, 24, 25]), &num(2332));

    // typical range under one prefix as a control
    let fives = ages
        .prefix(U32Key::new(5))
        .range(&store, None, None, Order::Ascending);
    assert_eq!(fives.len(), 2);
    assert_eq!(
        fives,
        vec![(vec![7, 8, 9], num(789)), (vec![9, 8, 7], num(987))]
    );

    let keys = ages.keys(&store, None, None, Order::Ascending);
    println!("keys: {:?}", keys);

    // using inclusive bounds both sides
    let included = values(ages.prefix_range(
        &store,
        Some(PrefixBound::inclusive(U32Key::new(3))),
        Some(PrefixBound::inclusive(U32Key::new(7))),
        Order::Ascending,
    ));
    assert_eq!(included.len(), 4);
    assert_eq!(included, vec![456, 789, 987, 2002]);

    // using exclusive bounds both sides
    let exclude = values(ages.prefix_range(
        &store,
        Some(PrefixBound::exclusive(U32Key::new(3))),
        Some(PrefixBound::exclusive(U32Key::new(7))),
        Order::Ascending,
    ));
    assert_eq!(exclude.len(), 2);
    assert_eq!(exclude, vec![789, 987]);

    // using inclusive in descending
    let included = values(ages.prefix_range(
        &store,
        Some(PrefixBound::inclusive(U32Key::new(3))),
        Some(PrefixBound::inclusive(U32Key::new(5))),
        Order::Descending,
    ));
    assert_eq!(included.len(), 3);
    assert_eq!(included, vec![987, 789, 456]);

    // using exclusive in descending
    let included = values(ages.prefix_range(
        &store,
        Some(PrefixBound::exclusive(U32Key::new(2))),
        Some(PrefixBound::exclusive(U32Key::new(5))),
        Order::Descending,
    ));
    assert_eq!(included.len(), 1);
    assert_eq!(included, vec![456]);
}

fn de_values<K>(all: Vec<Result<(K, Vec<u8>), cw_plus::de::KeyError>>) -> Vec<u64> {
    all.into_iter().map(|r| parse_num(&r.unwrap().1)).collect()
}

#[test]
fn prefixed_range_de_works() {
    // this is designed to look as much like a secondary index as possible
    // we want to query over a range of u32 for the first key and all subkeys
    let ages: StorageMap<(U32Key, &str)> = StorageMap::new("ages");

    let mut store = MockStorage::new();
    ages.save(&mut store, (U32Key::new(2), "123"), &num(123));
    ages.save(&mut store, (U32Key::new(3), "456"), &num(456));
    ages.save(&mut store, (U32Key::new(5), "789"), &num(789));
    ages.save(&mut store, (U32Key::new(5), "987"), &num(987));
    ages.save(&mut store, (U32Key::new(7), "202122"), &num(2002));
    ages.save(&mut store, (U32Key::new(8), "232425"), &num(2332));

    // typical range under one prefix as a control
    let fives: Vec<(String, Vec<u8>)> = ages
        .prefix_de(U32Key::new(5))
        .range_de::<&str>(&store, None, None, Order::Ascending)
        .into_iter()
        .map(|r| r.unwrap())
        .collect();
    assert_eq!(fives.len(), 2);
    assert_eq!(
        fives,
        vec![("789".to_string(), num(789)), ("987".to_string(), num(987))]
    );

    let keys = ages.keys_de(&store, None, None, Order::Ascending);
    println!("keys: {:?}", keys);

    // using inclusive bounds both sides
    let included = de_values(ages.prefix_range_de(
        &store,
        Some(PrefixBound::inclusive(U32Key::new(3))),
        Some(PrefixBound::inclusive(U32Key::new(7))),
        Order::Ascending,
    ));
    assert_eq!(included.len(), 4);
    assert_eq!(included, vec![456, 789, 987, 2002]);

    // using exclusive bounds both sides
    let exclude = de_values(ages.prefix_range_de(
        &store,
        Some(PrefixBound::exclusive(U32Key::new(3))),
        Some(PrefixBound::exclusive(U32Key::new(7))),
        Order::Ascending,
    ));
    assert_eq!(exclude.len(), 2);
    assert_eq!(exclude, vec![789, 987]);

    // using inclusive in descending
    let included = de_values(ages.prefix_range_de(
        &store,
        Some(PrefixBound::inclusive(U32Key::new(3))),
        Some(PrefixBound::inclusive(U32Key::new(5))),
        Order::Descending,
    ));
    assert_eq!(included.len(), 3);
    assert_eq!(included, vec![987, 789, 456]);

    // using exclusive in descending
    let included = de_values(ages.prefix_range_de(
        &store,
        Some(PrefixBound::exclusive(U32Key::new(2))),
        Some(PrefixBound::exclusive(U32Key::new(5))),
        Order::Descending,
    ));
    assert_eq!(included.len(), 1);
    assert_eq!(included, vec![456]);
}

#[test]
fn keys_de_skips_unreadable_keys() {
    let mut store = MockStorage::new();
    let ids: StorageMap<U32Key> = StorageMap::new("ids");
    ids.save(&mut store, U32Key::new(7), &num(7));
    ids.save(&mut store, U32Key::new(3), &num(3));
    // a key of the wrong length under the same namespace cannot be read as a u32
    let odd: StorageMap<&[u8]> = StorageMap::new("ids");
    odd.save(&mut store, b"xy", &num(0));
    assert_eq!(ids.keys_de(&store, None, None, Order::Ascending), vec![3, 7]);
    assert_eq!(
        ids.keys_de(&store, Some(Bound::inclusive_int(4u32)), None, Order::Ascending),
        vec![7]
    );
}
