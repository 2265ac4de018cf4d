use cosmwasm_std::testing::MockStorage;
use cw_plus::bound::{Bound as KeyBound, Bounder};
use cw_plus::prefix::{Bound, PrefixBound};
use cw_plus::snapshot::{SnapshotItem, SnapshotMap, Strategy};
use cw_plus::storage::Order;

type TestMap = SnapshotMap<'static, &'static str>;

fn never() -> TestMap {
    SnapshotMap::new("never", "never__check", "never__change", Strategy::Never)
}
fn every() -> TestMap {
    SnapshotMap::new("every", "every__check", "every__change", Strategy::EveryBlock)
}
fn select() -> TestMap {
    SnapshotMap::new("select", "select__check", "select__change", Strategy::Selected)
}

fn num(n: u64) -> Vec<u8> {
    n.to_string().into_bytes()
}

fn opt(v: Option<u64>) -> Option<Vec<u8>> {
    v.map(num)
}

fn set(n: u64) -> impl FnOnce(Option<Vec<u8>>) -> Result<Vec<u8>, String> {
    move |_| Ok(num(n))
}

// Fills a map &str -> u64 with the following writes:
// 1: A = 5
// 2: B = 7
// 3: C = 1, A = 8
// 4: B = None, C = 13
// 5: A = None, D = 22
// Final values -> C = 13, D = 22
// Values at beginning of 3 -> A = 5, B = 7
// Values at beginning of 5 -> A = 8, C = 13
fn init_data(map: &TestMap, storage: &mut MockStorage) {
    map.save(storage, "A", &num(5), 1).unwrap();
    map.save(storage, "B", &num(7), 2).unwrap();

    // checkpoint 3
    map.add_checkpoint(storage, 3).unwrap();

    // also use update to set - to ensure this works
    map.save(storage, "C", &num(1), 3).unwrap();
    map.update(storage, "A", 3, set(8)).unwrap();

    map.remove(storage, "B", 4).unwrap();
    map.save(storage, "C", &num(13), 4).unwrap();

    // checkpoint 5
    map.add_checkpoint(storage, 5).unwrap();
    map.remove(storage, "A", 5).unwrap();
    map.update(storage, "D", 5, set(22)).unwrap();
    // and delete it later (unknown if all data present)
    map.remove_checkpoint(storage, 5).unwrap();
}

const FINAL_VALUES: &[(&str, Option<u64>)] =
    &[("A", None), ("B", None), ("C", Some(13)), ("D", Some(22))];

const VALUES_START_3: &[(&str, Option<u64>)] =
    &[("A", Some(5)), ("B", Some(7)), ("C", None), ("D", None)];

const VALUES_START_5: &[(&str, Option<u64>)] =
    &[("A", Some(8)), ("B", None), ("C", Some(13)), ("D", None)];

fn assert_final_values(map: &TestMap, storage: &MockStorage) {
    for (k, v) in FINAL_VALUES.iter().cloned() {
        assert_eq!(opt(v), map.may_load(storage, k));
    }
}

fn assert_values_at_height(
    map: &TestMap,
    storage: &MockStorage,
    height: u64,
    values: &[(&str, Option<u64>)],
) {
    for (k, v) in values.iter().cloned() {
        assert_eq!(opt(v), map.may_load_at_height(storage, k, height).unwrap());
    }
}

fn assert_missing_checkpoint(map: &TestMap, storage: &MockStorage, height: u64) {
    for k in &["A", "B", "C", "D"] {
        assert!(map.may_load_at_height(storage, *k, height).is_err());
    }
}

#[test]
fn snapshot_map_never_works_like_normal_map() {
    let mut storage = MockStorage::new();
    init_data(&never(), &mut storage);
    assert_final_values(&never(), &storage);

    // historical queries return error
    assert_missing_checkpoint(&never(), &storage, 3);
    assert_missing_checkpoint(&never(), &storage, 5);
}

#[test]
fn snapshot_map_every_blocks_stores_present_and_past() {
    let mut storage = MockStorage::new();
    init_data(&every(), &mut storage);
    assert_final_values(&every(), &storage);

    // historical queries return historical values
    assert_values_at_height(&every(), &storage, 3, VALUES_START_3);
    assert_values_at_height(&every(), &storage, 5, VALUES_START_5);
}

#[test]
fn snapshot_map_selected_shows_3_not_5() {
    let mut storage = MockStorage::new();
    init_data(&select(), &mut storage);
    assert_final_values(&select(), &storage);

    // historical queries return historical values
    assert_values_at_height(&select(), &storage, 3, VALUES_START_3);
    // never checkpointed
    assert_missing_checkpoint(&never(), &storage, 1);
    // deleted checkpoint
    assert_missing_checkpoint(&never(), &storage, 5);
}

#[test]
fn snapshot_map_handle_multiple_writes_in_one_block() {
    let mut storage = MockStorage::new();
    let every = every();

    every.save(&mut storage, "A", &num(5), 1).unwrap();
    every.save(&mut storage, "B", &num(7), 2).unwrap();
    every.save(&mut storage, "C", &num(2), 2).unwrap();

    // update and save - A query at 3 => 5, at 4 => 12
    every.update(&mut storage, "A", 3, set(9)).unwrap();
    every.save(&mut storage, "A", &num(12), 3).unwrap();
    assert_eq!(opt(Some(5)), every.may_load_at_height(&storage, "A", 2).unwrap());
    assert_eq!(opt(Some(5)), every.may_load_at_height(&storage, "A", 3).unwrap());
    assert_eq!(opt(Some(12)), every.may_load_at_height(&storage, "A", 4).unwrap());

    // save and remove - B query at 4 => 7, at 5 => None
    every.save(&mut storage, "B", &num(17), 4).unwrap();
    every.remove(&mut storage, "B", 4).unwrap();
    assert_eq!(opt(Some(7)), every.may_load_at_height(&storage, "B", 3).unwrap());
    assert_eq!(opt(Some(7)), every.may_load_at_height(&storage, "B", 4).unwrap());
    assert_eq!(None, every.may_load_at_height(&storage, "B", 5).unwrap());

    // remove and update - C query at 5 => 2, at 6 => 16
    every.remove(&mut storage, "C", 5).unwrap();
    every.update(&mut storage, "C", 5, set(16)).unwrap();
    assert_eq!(opt(Some(2)), every.may_load_at_height(&storage, "C", 4).unwrap());
    assert_eq!(opt(Some(2)), every.may_load_at_height(&storage, "C", 5).unwrap());
    assert_eq!(opt(Some(16)), every.may_load_at_height(&storage, "C", 6).unwrap());
}

#[test]
fn map_changelog_range_works() {
    let mut store = MockStorage::new();
    let every = every();

    // simple data for testing
    every.save(&mut store, "A", &num(5), 1).unwrap();
    every.save(&mut store, "B", &num(7), 2).unwrap();
    every.update(&mut store, "A", 3, set(8)).unwrap();
    every.remove(&mut store, "B", 4).unwrap();

    // let's try to iterate over the changelog
    let all: Vec<((String, u64), Vec<u8>)> = every
        .changelog()
        .range_de(&store, None, None, Order::Ascending)
        .into_iter()
        .map(|r| r.unwrap())
        .collect();
    assert_eq!(4, all.len());
    assert_eq!(
        all,
        vec![
            (("A".into(), 1), b"{\"old\":null}".to_vec()),
            (("A".into(), 3), b"{\"old\":5}".to_vec()),
            (("B".into(), 2), b"{\"old\":null}".to_vec()),
            (("B".into(), 4), b"{\"old\":7}".to_vec()),
        ]
    );

    // let's try to iterate over a changelog key/prefix
    let all = every
        .changelog()
        .prefix("B")
        .range(&store, None, None, Order::Ascending);
    assert_eq!(2, all.len());
    assert_eq!(
        all,
        vec![
            (2u64.to_be_bytes().to_vec(), b"{\"old\":null}".to_vec()),
            (4u64.to_be_bytes().to_vec(), b"{\"old\":7}".to_vec()),
        ]
    );

    // let's try to iterate over a changelog prefixed range
    let all = every.changelog().prefix("A").range(
        &store,
        Some(Bound::Inclusive(3u64.to_be_bytes().to_vec())),
        None,
        Order::Ascending,
    );
    assert_eq!(1, all.len());
    assert_eq!(all, vec![(3u64.to_be_bytes().to_vec(), b"{\"old\":5}".to_vec())]);
}

type TestItem = SnapshotItem<'static>;

fn never_item() -> TestItem {
    SnapshotItem::new("never", "never__check", "never__change", Strategy::Never)
}
fn every_item() -> TestItem {
    SnapshotItem::new("every", "every__check", "every__change", Strategy::EveryBlock)
}
fn select_item() -> TestItem {
    SnapshotItem::new("select", "select__check", "select__change", Strategy::Selected)
}

// Fills an item (u64) with the following writes:
// 1: 5
// 2: 7
// 3: 8
// 4: 1
// 5: None
// 6: 13
// 7: None
// 8: 22
// Final value: 22
// Value at beginning of 3 -> 7
// Value at beginning of 5 -> 1
fn init_item(item: &TestItem, storage: &mut MockStorage) {
    item.save(storage, &num(5), 1).unwrap();
    item.save(storage, &num(7), 2).unwrap();

    // checkpoint 3
    item.add_checkpoint(storage, 3).unwrap();

    // also use update to set - to ensure this works
    item.save(storage, &num(1), 3).unwrap();
    item.update(storage, 3, set(8)).unwrap();

    item.remove(storage, 4).unwrap();
    item.save(storage, &num(13), 4).unwrap();

    // checkpoint 5
    item.add_checkpoint(storage, 5).unwrap();
    item.remove(storage, 5).unwrap();
    item.update(storage, 5, set(22)).unwrap();
    // and delete it later (unknown if all data present)
    item.remove_checkpoint(storage, 5).unwrap();
}

#[test]
fn snapshot_item_never_works_like_normal_item() {
    let mut storage = MockStorage::new();
    init_item(&never_item(), &mut storage);
    assert_eq!(opt(Some(22)), never_item().may_load(&storage));

    // historical queries return error
    assert!(never_item().may_load_at_height(&storage, 3).is_err());
    assert!(never_item().may_load_at_height(&storage, 5).is_err());
}

#[test]
fn snapshot_item_every_blocks_stores_present_and_past() {
    let mut storage = MockStorage::new();
    init_item(&every_item(), &mut storage);
    assert_eq!(opt(Some(22)), every_item().may_load(&storage));

    // historical queries return historical values
    assert_eq!(opt(Some(7)), every_item().may_load_at_height(&storage, 3).unwrap());
    assert_eq!(opt(Some(13)), every_item().may_load_at_height(&storage, 5).unwrap());
}

#[test]
fn snapshot_item_selected_shows_3_not_5() {
    let mut storage = MockStorage::new();
    init_item(&select_item(), &mut storage);
    assert_eq!(opt(Some(22)), select_item().may_load(&storage));

    // historical queries return historical values
    assert_eq!(opt(Some(7)), select_item().may_load_at_height(&storage, 3).unwrap());
    // never checkpointed
    assert!(never_item().may_load_at_height(&storage, 1).is_err());
    // deleted checkpoint
    assert!(never_item().may_load_at_height(&storage, 5).is_err());
}

#[test]
fn snapshot_item_handle_multiple_writes_in_one_block() {
    let mut storage = MockStorage::new();
    let every = every_item();

    every.save(&mut storage, &num(5), 1).unwrap();
    every.save(&mut storage, &num(7), 2).unwrap();
    every.save(&mut storage, &num(2), 2).unwrap();

    // update and save - query at 3 => 2, at 4 => 12
    every.update(&mut storage, 3, set(9)).unwrap();
    every.save(&mut storage, &num(12), 3).unwrap();
    assert_eq!(opt(Some(5)), every.may_load_at_height(&storage, 2).unwrap());
    assert_eq!(opt(Some(2)), every.may_load_at_height(&storage, 3).unwrap());
    assert_eq!(opt(Some(12)), every.may_load_at_height(&storage, 4).unwrap());

    // save and remove - query at 4 => 1, at 5 => None
    every.save(&mut storage, &num(17), 4).unwrap();
    every.remove(&mut storage, 4).unwrap();
    assert_eq!(opt(Some(12)), every.may_load_at_height(&storage, 4).unwrap());
    assert_eq!(None, every.may_load_at_height(&storage, 5).unwrap());

    // remove and update - query at 5 => 2, at 6 => 13
    every.remove(&mut storage, 5).unwrap();
    every.update(&mut storage, 5, set(2)).unwrap();
    assert_eq!(None, every.may_load_at_height(&storage, 5).unwrap());
    assert_eq!(opt(Some(2)), every.may_load_at_height(&storage, 6).unwrap());
}

#[test]
fn item_changelog_range_works() {
    let mut store = MockStorage::new();
    let every = every_item();

    // simple data for testing
    every.save(&mut store, &num(5), 1u64).unwrap();
    every.save(&mut store, &num(7), 2u64).unwrap();
    every.update(&mut store, 3u64, set(8)).unwrap();
    every.remove(&mut store, 4u64).unwrap();

    // let's try to iterate over the changelog
    let all = every.changelog().range(&store, None, None, Order::Ascending);
    assert_eq!(4, all.len());
    assert_eq!(
        all,
        vec![
            (1u64.to_be_bytes().to_vec(), b"{\"old\":null}".to_vec()),
            (2u64.to_be_bytes().to_vec(), b"{\"old\":5}".to_vec()),
            (3u64.to_be_bytes().to_vec(), b"{\"old\":7}".to_vec()),
            (4u64.to_be_bytes().to_vec(), b"{\"old\":8}".to_vec()),
        ]
    );

    // let's try to iterate over a changelog range
    let all = every.changelog().range(
        &store,
        Some(Bound::Exclusive(3u64.to_be_bytes().to_vec())),
        None,
        Order::Ascending,
    );
    assert_eq!(1, all.len());
    assert_eq!(all, vec![(4u64.to_be_bytes().to_vec(), b"{\"old\":8}".to_vec())]);
}

#[test]
fn checkpoints_are_counted() {
    let mut storage = MockStorage::new();
    let select = select();
    select.add_checkpoint(&mut storage, 7).unwrap();
    select.add_checkpoint(&mut storage, 7).unwrap();
    assert!(select.assert_checkpointed(&storage, 7).is_ok());
    select.remove_checkpoint(&mut storage, 7).unwrap();
    assert!(select.assert_checkpointed(&storage, 7).is_ok());
    select.remove_checkpoint(&mut storage, 7).unwrap();
    assert!(select.assert_checkpointed(&storage, 7).is_err());
}

#[test]
fn map_never_works_like_normal_map() {
    let mut storage = MockStorage::new();
    init_data(&never(), &mut storage);
    assert_final_values(&never(), &storage);

    // historical queries return error
    assert_missing_checkpoint(&never(), &storage, 3);
    assert_missing_checkpoint(&never(), &storage, 5);
}

#[test]
fn map_every_blocks_stores_present_and_past() {
    let mut storage = MockStorage::new();
    init_data(&every(), &mut storage);
    assert_final_values(&every(), &storage);

    // historical queries return historical values
    assert_values_at_height(&every(), &storage, 3, VALUES_START_3);
    assert_values_at_height(&every(), &storage, 5, VALUES_START_5);
}

#[test]
fn map_selected_shows_3_not_5() {
    let mut storage = MockStorage::new();
    init_data(&select(), &mut storage);
    assert_final_values(&select(), &storage);

    // historical queries return historical values
    assert_values_at_height(&select(), &storage, 3, VALUES_START_3);
    // never checkpointed
    assert_missing_checkpoint(&never(), &storage, 1);
    // deleted checkpoint
    assert_missing_checkpoint(&never(), &storage, 5);
}

#[test]
fn map_handle_multiple_writes_in_one_block() {
    let mut storage = MockStorage::new();
    let every = every();

    every.save(&mut storage, "A", &num(5), 1).unwrap();
    every.save(&mut storage, "B", &num(7), 2).unwrap();
    every.save(&mut storage, "C", &num(2), 2).unwrap();

    // update and save - A query at 3 => 5, at 4 => 12
    every.update(&mut storage, "A", 3, set(9)).unwrap();
    every.save(&mut storage, "A", &num(12), 3).unwrap();
    assert_eq!(opt(Some(5)), every.may_load_at_height(&storage, "A", 2).unwrap());
    assert_eq!(opt(Some(5)), every.may_load_at_height(&storage, "A", 3).unwrap());
    assert_eq!(opt(Some(12)), every.may_load_at_height(&storage, "A", 4).unwrap());

    // save and remove - B query at 4 => 7, at 5 => None
    every.save(&mut storage, "B", &num(17), 4).unwrap();
    every.remove(&mut storage, "B", 4).unwrap();
    assert_eq!(opt(Some(7)), every.may_load_at_height(&storage, "B", 3).unwrap());
    assert_eq!(opt(Some(7)), every.may_load_at_height(&storage, "B", 4).unwrap());
    assert_eq!(None, every.may_load_at_height(&storage, "B", 5).unwrap());

    // remove and update - C query at 5 => 2, at 6 => 16
    every.remove(&mut storage, "C", 5).unwrap();
    every.update(&mut storage, "C", 5, set(16)).unwrap();
    assert_eq!(opt(Some(2)), every.may_load_at_height(&storage, "C", 4).unwrap());
    assert_eq!(opt(Some(2)), every.may_load_at_height(&storage, "C", 5).unwrap());
    assert_eq!(opt(Some(16)), every.may_load_at_height(&storage, "C", 6).unwrap());
}

#[test]
fn item_never_works_like_normal_item() {
    let mut storage = MockStorage::new();
    init_item(&never_item(), &mut storage);
    assert_eq!(opt(Some(22)), never_item().may_load(&storage));

    // historical queries return error
    assert!(never_item().may_load_at_height(&storage, 3).is_err());
    assert!(never_item().may_load_at_height(&storage, 5).is_err());
}

#[test]
fn item_every_blocks_stores_present_and_past() {
    let mut storage = MockStorage::new();
    init_item(&every_item(), &mut storage);
    assert_eq!(opt(Some(22)), every_item().may_load(&storage));

    // historical queries return historical values
    assert_eq!(opt(Some(7)), every_item().may_load_at_height(&storage, 3).unwrap());
    assert_eq!(opt(Some(13)), every_item().may_load_at_height(&storage, 5).unwrap());
}

#[test]
fn item_selected_shows_3_not_5() {
    let mut storage = MockStorage::new();
    init_item(&select_item(), &mut storage);
    assert_eq!(opt(Some(22)), select_item().may_load(&storage));

    // historical queries return historical values
    assert_eq!(opt(Some(7)), select_item().may_load_at_height(&storage, 3).unwrap());
    // never checkpointed
    assert!(never_item().may_load_at_height(&storage, 1).is_err());
    // deleted checkpoint
    assert!(never_item().may_load_at_height(&storage, 5).is_err());
}

#[test]
fn item_handle_multiple_writes_in_one_block() {
    let mut storage = MockStorage::new();
    let every = every_item();

    every.save(&mut storage, &num(5), 1).unwrap();
    every.save(&mut storage, &num(7), 2).unwrap();
    every.save(&mut storage, &num(2), 2).unwrap();

    // update and save - query at 3 => 2, at 4 => 12
    every.update(&mut storage, 3, set(9)).unwrap();
    every.save(&mut storage, &num(12), 3).unwrap();
    assert_eq!(opt(Some(5)), every.may_load_at_height(&storage, 2).unwrap());
    assert_eq!(opt(Some(2)), every.may_load_at_height(&storage, 3).unwrap());
    assert_eq!(opt(Some(12)), every.may_load_at_height(&storage, 4).unwrap());

    // save and remove - query at 4 => 1, at 5 => None
    every.save(&mut storage, &num(17), 4).unwrap();
    every.remove(&mut storage, 4).unwrap();
    assert_eq!(opt(Some(12)), every.may_load_at_height(&storage, 4).unwrap());
    assert_eq!(None, every.may_load_at_height(&storage, 5).unwrap());

    // remove and update - query at 5 => 2, at 6 => 13
    every.remove(&mut storage, 5).unwrap();
    every.update(&mut storage, 5, set(2)).unwrap();
    assert_eq!(None, every.may_load_at_height(&storage, 5).unwrap());
    assert_eq!(opt(Some(2)), every.may_load_at_height(&storage, 6).unwrap());
}

type CompositeMap = SnapshotMap<'static, (&'static str, &'static str)>;

fn every_composite() -> CompositeMap {
    SnapshotMap::new("every", "every__check", "every__change", Strategy::EveryBlock)
}

// Same as `init_data`, but with a composite key, for testing ranges.
fn init_data_composite_key(map: &CompositeMap, storage: &mut MockStorage) {
    map.save(storage, ("A", "B"), &num(5), 1).unwrap();
    map.save(storage, ("B", "A"), &num(7), 2).unwrap();

    // checkpoint 3
    map.add_checkpoint(storage, 3).unwrap();

    // also use update to set - to ensure this works
    map.save(storage, ("B", "B"), &num(1), 3).unwrap();
    map.update(storage, ("A", "B"), 3, set(8)).unwrap();

    map.remove(storage, ("B", "A"), 4).unwrap();
    map.save(storage, ("B", "B"), &num(13), 4).unwrap();

    // checkpoint 5
    map.add_checkpoint(storage, 5).unwrap();
    map.remove(storage, ("A", "B"), 5).unwrap();
    map.update(storage, ("C", "A"), 5, set(22)).unwrap();
    // and delete it later (unknown if all data present)
    map.remove_checkpoint(storage, 5).unwrap();
}

fn unwrap_all<K>(all: Vec<Result<(K, Vec<u8>), cw_plus::de::KeyError>>) -> Vec<(K, Vec<u8>)> {
    all.into_iter().map(|r| r.unwrap()).collect()
}

#[test]
fn range_simple_string_key() {
    let mut store = MockStorage::new();
    init_data(&every(), &mut store);

    // let's try to iterate!
    let all = unwrap_all(every().range(&store, None, None, Order::Ascending));
    assert_eq!(2, all.len());
    assert_eq!(all, vec![("C".into(), num(13)), ("D".into(), num(22))]);

    // let's try to iterate over a range
    let all = unwrap_all(every().range(
        &store,
        Some(KeyBound::inclusive("C")),
        None,
        Order::Ascending,
    ));
    assert_eq!(2, all.len());
    assert_eq!(all, vec![("C".into(), num(13)), ("D".into(), num(22))]);

    // let's try to iterate over a more restrictive range
    let all = unwrap_all(every().range(
        &store,
        Some(KeyBound::inclusive("D")),
        None,
        Order::Ascending,
    ));
    assert_eq!(1, all.len());
    assert_eq!(all, vec![("D".into(), num(22))]);
}

#[test]
fn snapshot_range_composite_key() {
    let mut store = MockStorage::new();
    init_data_composite_key(&every_composite(), &mut store);

    // let's try to iterate!
    let all = unwrap_all(every_composite().range(&store, None, None, Order::Ascending));
    assert_eq!(2, all.len());
    assert_eq!(
        all,
        vec![
            (("B".into(), "B".into()), num(13)),
            (("C".into(), "A".into()), num(22)),
        ]
    );
}

#[test]
fn prefix_range_composite_key() {
    let mut store = MockStorage::new();
    init_data_composite_key(&every_composite(), &mut store);

    // let's prefix-range and iterate
    let all = unwrap_all(every_composite().prefix_range(
        &store,
        None,
        Some(PrefixBound::exclusive("C")),
        Order::Descending,
    ));
    assert_eq!(1, all.len());
    assert_eq!(all, vec![(("B".into(), "B".into()), num(13))]);
}

#[test]
fn prefix_composite_key() {
    let mut store = MockStorage::new();
    init_data_composite_key(&every_composite(), &mut store);

    // let's prefix and iterate
    let all = unwrap_all(
        every_composite()
            .prefix("C")
            .range_de::<&str>(&store, None, None, Order::Ascending),
    );
    assert_eq!(1, all.len());
    assert_eq!(all, vec![("A".into(), num(22))]);
}

#[test]
fn sub_prefix_composite_key() {
    let mut store = MockStorage::new();
    init_data_composite_key(&every_composite(), &mut store);

    // Let's sub-prefix and iterate.
    // This is similar to calling range() directly, but added here for completeness /
    // sub_prefix type checks
    let all = unwrap_all(
        every_composite()
            .sub_prefix(())
            .range_de::<(&str, &str)>(&store, None, None, Order::Ascending),
    );
    assert_eq!(2, all.len());
    assert_eq!(
        all,
        vec![
            (("B".into(), "B".into()), num(13)),
            (("C".into(), "A".into()), num(22)),
        ]
    );
}

#[test]
fn raw_ranges_keep_the_joined_keys() {
    let mut store = MockStorage::new();
    init_data(&every(), &mut store);
    let all = every().range_raw(&store, None, None, Order::Descending);
    assert_eq!(all, vec![(b"D".to_vec(), num(22)), (b"C".to_vec(), num(13))]);
    let keys = every().keys_raw(&store, Some(KeyBound::exclusive("C")), None, Order::Ascending);
    assert_eq!(keys, vec![b"D".to_vec()]);
    let keys = every().keys(&store, None, None, Order::Ascending);
    assert_eq!(keys, vec!["C".to_string(), "D".to_string()]);

    // a key can bound a range of itself
    let all = every().range_raw(&store, "D".inclusive_bound(), None, Order::Ascending);
    assert_eq!(all, vec![(b"D".to_vec(), num(22))]);
    let all = every().range_raw(&store, None, "D".exclusive_bound(), Order::Ascending);
    assert_eq!(all, vec![(b"C".to_vec(), num(13))]);
    assert!(().inclusive_bound().is_none());

    // the path of a key is where its current value lives
    assert_eq!(every().key("C").load(&store).unwrap(), num(13));
}

#[test]
fn history_reads_back_every_write() {
    let mut storage = MockStorage::new();
    let every = every();
    // writes of "K": (height, value), None for a removal
    let writes: Vec<(u64, Option<u64>)> =
        vec![(2, Some(1)), (2, Some(4)), (5, None), (7, Some(9)), (7, None), (7, Some(3)), (10, Some(6))];
    for (h, v) in &writes {
        match v {
            Some(n) => every.save(&mut storage, "K", &num(*n), *h).unwrap(),
            None => every.remove(&mut storage, "K", *h).unwrap(),
        }
    }
    for h in 0..13u64 {
        // the value of the last write below the height
        let mut expected = None;
        for (g, v) in &writes {
            if *g < h {
                expected = *v;
            }
        }
        assert_eq!(opt(expected), every.may_load_at_height(&storage, "K", h).unwrap());
    }
    assert_eq!(opt(Some(6)), every.may_load(&storage, "K"));
}

#[test]
fn history_of_composite_keys() {
    let mut storage = MockStorage::new();
    let map: SnapshotMap<'static, (&'static str, u64)> =
        SnapshotMap::new("pairs", "pairs__check", "pairs__change", Strategy::EveryBlock);
    let writes: Vec<(u64, Option<u64>)> = vec![(1, Some(5)), (3, Some(9)), (3, Some(12)), (6, None), (8, Some(2))];
    for (h, v) in &writes {
        match v {
            Some(n) => map.save(&mut storage, ("owner", 255), &num(*n), *h).unwrap(),
            None => map.remove(&mut storage, ("owner", 255), *h).unwrap(),
        }
    }
    // another key with the same first part keeps its own history
    map.save(&mut storage, ("owner", 256), &num(77), 2).unwrap();
    for h in 0..10u64 {
        let mut expected = None;
        for (g, v) in &writes {
            if *g < h {
                expected = *v;
            }
        }
        assert_eq!(opt(expected), map.may_load_at_height(&storage, ("owner", 255), h).unwrap());
    }
    assert_eq!(opt(Some(77)), map.may_load_at_height(&storage, ("owner", 256), 3).unwrap());
    assert_eq!(None, map.may_load_at_height(&storage, ("owner", 256), 2).unwrap());
}
