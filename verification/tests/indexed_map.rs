use cosmwasm_std::testing::MockStorage;
use cosmwasm_std::Storage;
use cw_plus::indexed_map::IndexedMap;
use cw_plus::indexes::{deserialize_multi_v, IndexError, MultiIndex, UniqueIndex};
use cw_plus::storage::StorageError;

// values are stored as "name|age"
fn name_of(d: &Vec<u8>) -> Vec<u8> {
    let s = String::from_utf8(d.clone()).unwrap();
    s.split('|').next().unwrap().as_bytes().to_vec()
}

fn age_of(d: &Vec<u8>) -> u32 {
    let s = String::from_utf8(d.clone()).unwrap();
    s.split('|').nth(1).unwrap().parse().unwrap()
}

fn prefixed(ns: &[u8]) -> Vec<u8> {
    let mut v = vec![(ns.len() / 256) as u8, (ns.len() % 256) as u8];
    v.extend_from_slice(ns);
    v
}

#[test]
fn indexes_follow_saves_and_removes() {
    let mut store = MockStorage::new();
    let name = MultiIndex::new(name_of as fn(&Vec<u8>) -> Vec<u8>, "data", "data__name");
    let age = UniqueIndex::new(age_of as fn(&Vec<u8>) -> u32, "data__age");
    let map: IndexedMap<&[u8], _> = IndexedMap::new("data", (name, age));

    map.save(&mut store, b"1", &b"Maria|42".to_vec()).unwrap();
    map.save(&mut store, b"2", &b"Maria|23".to_vec()).unwrap();
    assert_eq!(map.load(&store, b"1").unwrap(), b"Maria|42".to_vec());

    // the multi index holds an entry per primary key, valued with the key's length
    let mut multi_key = prefixed(b"data__name");
    multi_key.extend_from_slice(&prefixed(b"Maria"));
    multi_key.extend_from_slice(b"1");
    assert_eq!(store.get(&multi_key), Some(b"1".to_vec()));

    // the unique index holds the primary key and a copy of the value
    let mut unique_key = prefixed(b"data__age");
    unique_key.extend_from_slice(&42u32.to_be_bytes());
    assert_eq!(
        store.get(&unique_key),
        Some(b"{\"pk\":\"MQ==\",\"value\":Maria|42}".to_vec())
    );

    // same age again is refused
    let e = map.save(&mut store, b"3", &b"John|42".to_vec()).unwrap_err();
    assert_eq!(e, IndexError::UniqueViolation);
    assert_eq!(map.may_load(&store, b"3"), None);

    // once the holder is gone, the age is free
    map.remove(&mut store, b"1").unwrap();
    assert_eq!(store.get(&multi_key), None);
    assert_eq!(store.get(&unique_key), None);
    map.save(&mut store, b"3", &b"John|42".to_vec()).unwrap();
    assert_eq!(map.load(&store, b"3").unwrap(), b"John|42".to_vec());
}

#[test]
fn multi_index_entry_leads_back_to_the_value() {
    let mut store = MockStorage::new();
    let name = MultiIndex::new(name_of as fn(&Vec<u8>) -> Vec<u8>, "data", "data__name");
    let map: IndexedMap<&[u8], _> = IndexedMap::new("data", name);
    map.save(&mut store, b"pk7", &b"Ann|7".to_vec()).unwrap();

    let mut key = prefixed(b"Ann");
    key.extend_from_slice(b"pk7");
    let (pk, v) = deserialize_multi_v(&store, b"data", key.clone(), b"3".to_vec()).unwrap();
    assert_eq!(pk, b"pk7".to_vec());
    assert_eq!(v, b"Ann|7".to_vec());

    assert_eq!(
        deserialize_multi_v(&store, b"data", key.clone(), b"x".to_vec()),
        Err(StorageError::ParseErr)
    );
    assert_eq!(
        deserialize_multi_v(&store, b"other", key, b"3".to_vec()),
        Err(StorageError::NotFound)
    );
}

use cw_plus::indexes::{deserialize_unique_v, index_string_tuple, index_tuple};
use cw_plus::keys_old::{U32Key, U64Key};
use cw_plus::prefix::{Bound, PrefixBound};
use cw_plus::storage::Order;

// A person is stored as the JSON text `{"name":..,"last_name":..,"age":..}`.
fn person(name: &str, last_name: &str, age: u32) -> Vec<u8> {
    format!(
        "{{\"name\":\"{}\",\"last_name\":\"{}\",\"age\":{}}}",
        name, last_name, age
    )
    .into_bytes()
}

fn text_field(d: &[u8], field: &str) -> String {
    let text = String::from_utf8(d.to_vec()).unwrap();
    let tag = format!("\"{}\":\"", field);
    let start = text.find(&tag).unwrap() + tag.len();
    let end = start + text[start..].find('"').unwrap();
    text[start..end].to_string()
}

fn person_name(d: &Vec<u8>) -> String {
    text_field(d, "name")
}

fn person_last_name(d: &Vec<u8>) -> String {
    text_field(d, "last_name")
}

fn person_age(d: &Vec<u8>) -> u32 {
    let text = String::from_utf8(d.to_vec()).unwrap();
    let start = text.find("\"age\":").unwrap() + 6;
    text[start..text.len() - 1].parse().unwrap()
}

fn name_index(d: &Vec<u8>) -> Vec<u8> {
    person_name(d).into_bytes()
}

fn age_index(d: &Vec<u8>) -> U32Key {
    U32Key::new(person_age(d))
}

fn name_lastname_index(d: &Vec<u8>) -> (Vec<u8>, Vec<u8>) {
    index_string_tuple(&person_name(d), &person_last_name(d))
}

type NameIdx = MultiIndex<'static, Vec<u8>, Vec<u8>, fn(&Vec<u8>) -> Vec<u8>>;
type AgeIdx = UniqueIndex<'static, U32Key, Vec<u8>, fn(&Vec<u8>) -> U32Key>;
type NameLastnameIdx =
    UniqueIndex<'static, (Vec<u8>, Vec<u8>), Vec<u8>, fn(&Vec<u8>) -> (Vec<u8>, Vec<u8>)>;
// ((name, age), name_lastname)
type DataIndexes = ((NameIdx, AgeIdx), NameLastnameIdx);

fn build_map() -> IndexedMap<'static, &'static [u8], DataIndexes> {
    let indexes = (
        (
            MultiIndex::new(name_index as fn(&Vec<u8>) -> Vec<u8>, "data", "data__name"),
            UniqueIndex::new(age_index as fn(&Vec<u8>) -> U32Key, "data__age"),
        ),
        UniqueIndex::new(
            name_lastname_index as fn(&Vec<u8>) -> (Vec<u8>, Vec<u8>),
            "data__name_lastname",
        ),
    );
    IndexedMap::new("data", indexes)
}

fn save_data(
    store: &mut MockStorage,
    map: &IndexedMap<'static, &'static [u8], DataIndexes>,
) -> (Vec<&'static [u8]>, Vec<Vec<u8>>) {
    let mut pks = vec![];
    let mut datas = vec![];
    let data = person("Maria", "Doe", 42);
    let pk: &[u8] = b"1";
    map.save(store, pk, &data).unwrap();
    pks.push(pk);
    datas.push(data);

    // same name (multi-index), different last name, different age => ok
    let data = person("Maria", "Williams", 23);
    let pk: &[u8] = b"2";
    map.save(store, pk, &data).unwrap();
    pks.push(pk);
    datas.push(data);

    // different name, different last name, different age => ok
    let data = person("John", "Wayne", 32);
    let pk: &[u8] = b"3";
    map.save(store, pk, &data).unwrap();
    pks.push(pk);
    datas.push(data);

    let data = person("Maria Luisa", "Rodriguez", 12);
    let pk: &[u8] = b"4";
    map.save(store, pk, &data).unwrap();
    pks.push(pk);
    datas.push(data);

    let data = person("Marta", "After", 90);
    let pk: &[u8] = b"5";
    map.save(store, pk, &data).unwrap();
    pks.push(pk);
    datas.push(data);

    (pks, datas)
}

fn records(all: Vec<Result<(Vec<u8>, Vec<u8>), StorageError>>) -> Vec<(Vec<u8>, Vec<u8>)> {
    all.into_iter().map(|r| r.unwrap()).collect()
}

#[test]
fn store_and_load_by_index() {
    let mut store = MockStorage::new();
    let map = build_map();

    // save data
    let (pks, datas) = save_data(&mut store, &map);
    let pk = pks[0];
    let data = &datas[0];

    // load it properly
    let loaded = map.load(&store, pk).unwrap();
    assert_eq!(*data, loaded);

    let name = &map.idx.0 .0;
    let count = name
        .prefix(b"Maria".to_vec())
        .range(&store, None, None, Order::Ascending)
        .len();
    assert_eq!(2, count);

    // load it by secondary index (we must know how to compute this)
    let marias = records(
        name.prefix(b"Maria".to_vec())
            .range(&store, None, None, Order::Ascending),
    );
    assert_eq!(2, marias.len());
    let (k, v) = &marias[0];
    assert_eq!(pk, k.as_slice());
    assert_eq!(data, v);

    // other index doesn't match (1 byte after)
    let count = name
        .prefix(b"Marib".to_vec())
        .range(&store, None, None, Order::Ascending)
        .len();
    assert_eq!(0, count);

    // other index doesn't match (1 byte before)
    let count = name
        .prefix(b"Mari`".to_vec())
        .range(&store, None, None, Order::Ascending)
        .len();
    assert_eq!(0, count);

    // other index doesn't match (longer)
    let count = name
        .prefix(b"Maria5".to_vec())
        .range(&store, None, None, Order::Ascending)
        .len();
    assert_eq!(0, count);

    // index_key() over MultiIndex works (empty pk)
    // In a MultiIndex, an index key is composed by the index and the primary key.
    // Primary key may be empty (so that to iterate over all elements that match just the index)
    let key = name.index_key(b"Maria".to_vec());
    // Iterate using a bound over the raw key
    let count = name
        .range(&store, Some(Bound::inclusive(key)), None, Order::Ascending)
        .len();
    // gets from the first "Maria" until the end
    assert_eq!(4, count);

    // index_key() over MultiIndex works (non-empty pk)
    // Build key including a non-empty pk
    let mut key = name.index_key(b"Maria".to_vec());
    key.extend_from_slice(b"1");
    // Iterate using a (exclusive) bound over the raw key.
    // (Useful for pagination / continuation contexts).
    let count = name
        .range(&store, Some(Bound::exclusive(key)), None, Order::Ascending)
        .len();
    // gets from the 2nd "Maria" until the end
    assert_eq!(3, count);

    // index_key() over UniqueIndex works.
    let age = &map.idx.0 .1;
    let age_key = age.index_key(U32Key::new(23));
    // Iterate using a (inclusive) bound over the raw key.
    let count = age
        .range(&store, Some(Bound::inclusive(age_key)), None, Order::Ascending)
        .len();
    // gets all the greater than or equal to 23 years old people
    assert_eq!(4, count);

    // match on proper age
    let proper = U32Key::new(42);
    let aged = age.item(&store, proper).unwrap().unwrap();
    assert_eq!(pk.to_vec(), aged.0);
    assert_eq!(*data, aged.1);

    // no match on wrong age
    let too_old = U32Key::new(43);
    let aged = age.item(&store, too_old).unwrap();
    assert_eq!(None, aged);
}

#[test]
fn range_simple_key_by_multi_index() {
    let mut store = MockStorage::new();
    let map = build_map();

    // save data
    let data1 = person("Maria", "", 42);
    map.save(&mut store, b"5627", &data1).unwrap();

    let data2 = person("Juan", "Perez", 13);
    map.save(&mut store, b"5628", &data2).unwrap();

    let data3 = person("Maria", "Williams", 24);
    map.save(&mut store, b"5629", &data3).unwrap();

    let data4 = person("Maria Luisa", "Bemberg", 12);
    map.save(&mut store, b"5630", &data4).unwrap();

    let marias = records(
        map.idx
            .0
             .0
            .prefix(b"Maria".to_vec())
            .range(&store, None, None, Order::Descending),
    );
    let count = marias.len();
    assert_eq!(2, count);

    // Sorted by (descending) pk
    assert_eq!(marias[0].0, b"5629");
    assert_eq!(marias[1].0, b"5627");
    // Data is correct
    assert_eq!(marias[0].1, data3);
    assert_eq!(marias[1].1, data1);
}

fn name_age_index(d: &Vec<u8>) -> (Vec<u8>, u32) {
    index_tuple(&person_name(d), person_age(d))
}

#[test]
fn range_composite_key_by_multi_index() {
    let mut store = MockStorage::new();

    let name_age = MultiIndex::new(
        name_age_index as fn(&Vec<u8>) -> (Vec<u8>, u32),
        "data",
        "data__name_age",
    );
    let map: IndexedMap<&[u8], _> = IndexedMap::new("data", name_age);

    // save data
    let data1 = person("Maria", "", 42);
    let pk1: &[u8] = b"5627";
    map.save(&mut store, pk1, &data1).unwrap();

    let data2 = person("Juan", "Perez", 13);
    let pk2: &[u8] = b"5628";
    map.save(&mut store, pk2, &data2).unwrap();

    let data3 = person("Maria", "Young", 24);
    let pk3: &[u8] = b"5629";
    map.save(&mut store, pk3, &data3).unwrap();

    let data4 = person("Maria Luisa", "Bemberg", 43);
    let pk4: &[u8] = b"5630";
    map.save(&mut store, pk4, &data4).unwrap();

    let marias = records(
        map.idx
            .sub_prefix(b"Maria".to_vec())
            .range(&store, None, None, Order::Descending),
    );
    let count = marias.len();
    assert_eq!(2, count);

    // Pks (sorted by age descending)
    assert_eq!(pk1, marias[0].0);
    assert_eq!(pk3, marias[1].0);

    // Data
    assert_eq!(data1, marias[0].1);
    assert_eq!(data3, marias[1].1);
}

#[test]
fn unique_index_enforced() {
    let mut store = MockStorage::new();
    let map = build_map();

    // save data
    let (pks, datas) = save_data(&mut store, &map);

    // different name, different last name, same age => error
    let data5 = person("Marcel", "Laurens", 42);
    let pk5: &[u8] = b"4";

    // enforce this returns some error
    map.save(&mut store, pk5, &data5).unwrap_err();

    // query by unique key
    // match on proper age
    let age = &map.idx.0 .1;
    let age42 = U32Key::new(42);
    let (k, v) = age.item(&store, age42).unwrap().unwrap();
    assert_eq!(k.as_slice(), pks[0]);
    assert_eq!(person_name(&v), person_name(&datas[0]));
    assert_eq!(person_age(&v), person_age(&datas[0]));

    // match on other age
    let age23 = U32Key::new(23);
    let (k, v) = age.item(&store, age23).unwrap().unwrap();
    assert_eq!(k.as_slice(), pks[1]);
    assert_eq!(person_name(&v), person_name(&datas[1]));
    assert_eq!(person_age(&v), person_age(&datas[1]));

    // if we delete the first one, we can add the blocked one
    map.remove(&mut store, pks[0]).unwrap();
    map.save(&mut store, pk5, &data5).unwrap();
    // now 42 is the new owner
    let (k, v) = age.item(&store, U32Key::new(42)).unwrap().unwrap();
    assert_eq!(k.as_slice(), pk5);
    assert_eq!(person_name(&v), person_name(&data5));
    assert_eq!(person_age(&v), person_age(&data5));
}

#[test]
fn unique_index_enforced_composite_key() {
    let mut store = MockStorage::new();
    let map = build_map();

    // save data
    save_data(&mut store, &map);

    // same name, same lastname => error
    let data5 = person("Maria", "Doe", 24);
    let pk5: &[u8] = b"5";
    // enforce this returns some error
    map.save(&mut store, pk5, &data5).unwrap_err();
}

#[test]
fn remove_and_update_reflected_on_indexes() {
    let mut store = MockStorage::new();
    let map = build_map();

    let name_count = |map: &IndexedMap<&[u8], DataIndexes>, store: &MockStorage, name: &str| -> usize {
        map.idx
            .0
             .0
            .prefix(name.as_bytes().to_vec())
            .keys(store, None, None, Order::Ascending)
            .len()
    };

    // save data
    let (pks, _) = save_data(&mut store, &map);

    // find 2 Marias, 1 John, and no Mary
    assert_eq!(name_count(&map, &store, "Maria"), 2);
    assert_eq!(name_count(&map, &store, "John"), 1);
    assert_eq!(name_count(&map, &store, "Maria Luisa"), 1);
    assert_eq!(name_count(&map, &store, "Mary"), 0);

    // remove maria 2
    map.remove(&mut store, pks[1]).unwrap();

    // change john to mary
    map.update(&mut store, pks[2], |d| -> Result<Vec<u8>, String> {
        let x = d.unwrap();
        assert_eq!(&person_name(&x), "John");
        Ok(person("Mary", &person_last_name(&x), person_age(&x)))
    })
    .unwrap();

    // find 1 maria, 1 maria luisa, no john, and 1 mary
    assert_eq!(name_count(&map, &store, "Maria"), 1);
    assert_eq!(name_count(&map, &store, "Maria Luisa"), 1);
    assert_eq!(name_count(&map, &store, "John"), 0);
    assert_eq!(name_count(&map, &store, "Mary"), 1);
}

#[test]
fn unique_index_simple_key_range() {
    let mut store = MockStorage::new();
    let map = build_map();

    // save data
    let (pks, datas) = save_data(&mut store, &map);

    let ages = records(map.idx.0 .1.range(&store, None, None, Order::Ascending));

    let count = ages.len();
    assert_eq!(5, count);

    // The pks, sorted by age ascending
    assert_eq!(pks[4].to_vec(), ages[4].0);
    assert_eq!(pks[3].to_vec(), ages[0].0);
    assert_eq!(pks[1].to_vec(), ages[1].0);
    assert_eq!(pks[2].to_vec(), ages[2].0);
    assert_eq!(pks[0].to_vec(), ages[3].0);

    // The associated data
    assert_eq!(datas[4], ages[4].1);
    assert_eq!(datas[3], ages[0].1);
    assert_eq!(datas[1], ages[1].1);
    assert_eq!(datas[2], ages[2].1);
    assert_eq!(datas[0], ages[3].1);
}

#[test]
fn unique_index_composite_key_range() {
    let mut store = MockStorage::new();
    let map = build_map();

    // save data
    let (pks, datas) = save_data(&mut store, &map);

    let marias = records(
        map.idx
            .1
            .prefix(b"Maria".to_vec())
            .range(&store, None, None, Order::Ascending),
    );

    // Only two people are called "Maria"
    let count = marias.len();
    assert_eq!(2, count);

    // The pks
    assert_eq!(pks[0].to_vec(), marias[0].0);
    assert_eq!(pks[1].to_vec(), marias[1].0);

    // The associated data
    assert_eq!(datas[0], marias[0].1);
    assert_eq!(datas[1], marias[1].1);
}

fn secondary_index(v: &Vec<u8>) -> U64Key {
    U64Key::new(String::from_utf8(v.clone()).unwrap().parse().unwrap())
}

#[test]
fn composite_key_query() {
    let secondary = MultiIndex::new(
        secondary_index as fn(&Vec<u8>) -> U64Key,
        "test_map",
        "test_map__secondary",
    );
    let map: IndexedMap<&str, _> = IndexedMap::new("test_map", secondary);
    let mut store = MockStorage::new();

    map.save(&mut store, "one", &b"1".to_vec()).unwrap();
    map.save(&mut store, "two", &b"2".to_vec()).unwrap();

    let items = records(map.idx.prefix_range(
        &store,
        None,
        Some(PrefixBound::inclusive(U64Key::new(1))),
        Order::Ascending,
    ));

    // Strip the index from values (for simpler comparison)
    let items: Vec<_> = items.into_iter().map(|(_, v)| v).collect();

    assert_eq!(items, vec![b"1".to_vec()]);
}

#[test]
fn multi_index_items_and_pks() {
    let mut store = MockStorage::new();
    let map = build_map();
    save_data(&mut store, &map);
    let name = &map.idx.0 .0;
    assert_eq!(
        name.all_pks(&store, b"Maria".to_vec()),
        vec![b"1".to_vec(), b"2".to_vec()]
    );
    let items = name.all_items(&store, b"Maria".to_vec()).unwrap();
    assert_eq!(
        items,
        vec![
            (b"1".to_vec(), person("Maria", "Doe", 42)),
            (b"2".to_vec(), person("Maria", "Williams", 23)),
        ]
    );
    // a primary key that is gone makes the whole read fail
    let data: cw_plus::map::StorageMap<&[u8]> = cw_plus::map::StorageMap::new("data");
    data.remove(&mut store, b"2");
    assert_eq!(
        name.all_items(&store, b"Maria".to_vec()),
        Err(StorageError::NotFound)
    );
}

#[test]
fn unique_entry_reads_back() {
    assert_eq!(
        deserialize_unique_v(b"{\"pk\":\"MQ==\",\"value\":{\"a\":1}}"),
        Ok((b"1".to_vec(), b"{\"a\":1}".to_vec()))
    );
    // the primary key must be base64
    assert_eq!(
        deserialize_unique_v(b"{\"pk\":\"M!==\",\"value\":1}"),
        Err(StorageError::ParseErr)
    );
    // the entry must close
    assert_eq!(
        deserialize_unique_v(b"{\"pk\":\"MQ==\",\"value\":1"),
        Err(StorageError::ParseErr)
    );
}

#[test]
fn unique_index_reads_primary_keys_back() {
    let mut store = MockStorage::new();
    let map = build_map();
    let (_, datas) = save_data(&mut store, &map);
    let age = &map.idx.0 .1;

    // by age ascending, the primary keys read back as text
    let all: Vec<(String, Vec<u8>)> = age
        .range_de::<String>(&store, None, None, Order::Ascending)
        .into_iter()
        .map(|r| r.unwrap())
        .collect();
    assert_eq!(
        all.iter().map(|(k, _)| k.as_str()).collect::<Vec<_>>(),
        vec!["4", "2", "3", "1", "5"]
    );
    assert_eq!(all[0].1, datas[3]);
    assert_eq!(
        age.keys_de::<String>(&store, None, None, Order::Descending),
        vec!["5", "1", "3", "2", "4"]
    );

    // a primary key that is not a number is left out of the numeric keys
    assert_eq!(
        age.keys_de::<U32Key>(&store, None, None, Order::Ascending),
        Vec::<u32>::new()
    );

    // only the people whose full name starts with "Maria"
    let marias: Vec<String> = map
        .idx
        .1
        .prefix_de(b"Maria".to_vec())
        .range_de::<String>(&store, None, None, Order::Ascending)
        .into_iter()
        .map(|r| r.unwrap().0)
        .collect();
    assert_eq!(marias, vec!["1".to_string(), "2".to_string()]);

    // full names whose first name lies from "Maria" up to "Maria Luisa" included; first
    // names are length-prefixed, so the shorter "Marta" comes before "Maria Luisa"
    let mid: Vec<String> = map
        .idx
        .1
        .prefix_range_de::<Vec<u8>, String>(
            &store,
            Some(PrefixBound::inclusive(b"Maria".to_vec())),
            Some(PrefixBound::inclusive(b"Maria Luisa".to_vec())),
            Order::Ascending,
        )
        .into_iter()
        .map(|r| r.unwrap().0)
        .collect();
    assert_eq!(mid, vec!["1".to_string(), "2".to_string(), "5".to_string(), "4".to_string()]);
}
