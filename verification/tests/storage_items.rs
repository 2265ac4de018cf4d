use cosmwasm_std::testing::MockStorage;
use cw_plus::item::Item;
use cw_plus::map::StorageMap;
use cw_plus::path::Path;
use cw_plus::storage::StorageError;

#[test]
fn item_save_load_remove() {
    let config = Item::new(b"config");
    let mut store = MockStorage::new();
    assert_eq!(config.load(&store), Err(StorageError::NotFound));
    assert_eq!(config.may_load(&store), None);
    config.save(&mut store, b"{\"a\":1}");
    assert_eq!(config.load(&store), Ok(b"{\"a\":1}".to_vec()));
    config.remove(&mut store);
    assert_eq!(config.may_load(&store), None);
}

#[test]
fn item_update_applies_action() {
    let counter = Item::new(b"counter");
    let mut store = MockStorage::new();
    let r: Result<Vec<u8>, String> = counter.update(&mut store, |old| {
        assert_eq!(old, None);
        Ok(b"1".to_vec())
    });
    assert_eq!(r, Ok(b"1".to_vec()));
    let r: Result<Vec<u8>, String> = counter.update(&mut store, |_| Err("nope".to_string()));
    assert_eq!(r, Err("nope".to_string()));
    assert_eq!(counter.load(&store), Ok(b"1".to_vec()));
}

#[test]
fn map_keys_are_isolated() {
    let people: StorageMap<&[u8]> = StorageMap::new("people");
    let mut store = MockStorage::new();
    people.save(&mut store, b"john", b"32");
    people.save(&mut store, b"jim", b"44");
    assert_eq!(people.load(&store, b"john"), Ok(b"32".to_vec()));
    assert_eq!(people.may_load(&store, b"jim"), Some(b"44".to_vec()));
    assert!(!people.has(&store, b"jo"));
    people.remove(&mut store, b"john");
    assert_eq!(people.may_load(&store, b"john"), None);
    assert_eq!(people.may_load(&store, b"jim"), Some(b"44".to_vec()));
}

#[test]
fn map_key_is_length_prefixed_path() {
    let allow: StorageMap<(&[u8], &[u8])> = StorageMap::new("allow");
    let mut store = MockStorage::new();
    allow.save(&mut store, (b"owner".as_ref(), b"spender".as_ref()), b"1000");
    let path = Path::new(b"allow", &[b"owner", b"spender"]);
    assert_eq!(path.load(&store), Ok(b"1000".to_vec()));
    assert!(path.has(&store));
}

#[test]
fn map_with_int_keys() {
    let scores: StorageMap<u32> = StorageMap::new("scores");
    let mut store = MockStorage::new();
    scores.save(&mut store, 7u32, b"seven");
    assert_eq!(scores.load(&store, 7u32), Ok(b"seven".to_vec()));
    assert_eq!(scores.load(&store, 8u32), Err(StorageError::NotFound));
}
