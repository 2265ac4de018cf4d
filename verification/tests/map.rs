use cosmwasm_std::testing::MockStorage;
use cosmwasm_std::Storage;
use cw_plus::keys_old::{IntKeyOld, U8Key};
use cw_plus::map::StorageMap;

const JOHN: &[u8] = b"{\"name\":\"John\",\"age\":32}";

fn people() -> StorageMap<'static, &'static [u8]> {
    StorageMap::new("people")
}

fn allowance() -> StorageMap<'static, (&'static [u8], &'static [u8])> {
    StorageMap::new("allow")
}

fn triple() -> StorageMap<'static, (&'static [u8], U8Key, &'static str)> {
    StorageMap::new("triple")
}

#[test]
fn create_path() {
    let path = people().key(b"john");
    let key = path.deref();
    // this should be prefixed(people) || john
    assert_eq!("people".len() + "john".len() + 2, key.len());
    assert_eq!(b"people".to_vec().as_slice(), &key[2..8]);
    assert_eq!(b"john".to_vec().as_slice(), &key[8..]);

    let path = allowance().key((b"john", b"maria"));
    let key = path.deref();
    // this should be prefixed(allow) || prefixed(john) || maria
    assert_eq!(
        "allow".len() + "john".len() + "maria".len() + 2 * 2,
        key.len()
    );
    assert_eq!(b"allow".to_vec().as_slice(), &key[2..7]);
    assert_eq!(b"john".to_vec().as_slice(), &key[9..13]);
    assert_eq!(b"maria".to_vec().as_slice(), &key[13..]);

    let path = triple().key((b"john", IntKeyOld::new(8u8), "pedro"));
    let key = path.deref();
    // this should be prefixed(triple) || prefixed(john) || prefixed(8u8) || pedro
    assert_eq!(
        "triple".len() + "john".len() + 1 + "pedro".len() + 2 * 3,
        key.len()
    );
    assert_eq!(b"triple".to_vec().as_slice(), &key[2..8]);
    assert_eq!(b"john".to_vec().as_slice(), &key[10..14]);
    assert_eq!(8u8.to_be_bytes(), &key[16..17]);
    assert_eq!(b"pedro".to_vec().as_slice(), &key[17..]);
}

#[test]
fn save_and_load() {
    let mut store = MockStorage::new();

    // save and load on one key
    let john = people().key(b"john");
    assert_eq!(None, john.may_load(&store));
    john.save(&mut store, JOHN);
    assert_eq!(JOHN.to_vec(), john.load(&store).unwrap());

    // nothing on another key
    assert_eq!(None, people().may_load(&store, b"jack"));

    // same named path gets the data
    assert_eq!(JOHN.to_vec(), people().load(&store, b"john").unwrap());

    // removing leaves us empty
    john.remove(&mut store);
    assert_eq!(None, john.may_load(&store));
}

#[test]
fn existence() {
    let mut store = MockStorage::new();

    people().save(&mut store, b"john", JOHN);

    // set and remove it
    people().save(&mut store, b"removed", JOHN);
    people().remove(&mut store, b"removed");

    // invalid, but non-empty data
    store.set(people().key(b"random").deref(), b"random-data");

    // any data, including invalid or empty is returned as "has"
    assert!(people().has(&store, b"john"));
    assert!(people().has(&store, b"random"));

    // if nothing was written, it is false
    assert!(!people().has(&store, b"never-writen"));
    assert!(!people().has(&store, b"removed"));
}

#[test]
fn composite_keys() {
    let mut store = MockStorage::new();

    // save and load on a composite key
    let allow = allowance().key((b"owner", b"spender"));
    assert_eq!(None, allow.may_load(&store));
    allow.save(&mut store, b"1234");
    assert_eq!(b"1234".to_vec(), allow.load(&store).unwrap());

    // not under other key
    let different = allowance().may_load(&store, (b"owners", b"pender"));
    assert_eq!(None, different);

    // matches under a proper copy
    let same = allowance().load(&store, (b"owner", b"spender")).unwrap();
    assert_eq!(b"1234".to_vec(), same);
}

#[test]
fn triple_keys() {
    let mut store = MockStorage::new();

    // save and load on a triple composite key
    let t = triple().key((b"owner", IntKeyOld::new(10u8), "recipient"));
    assert_eq!(None, t.may_load(&store));
    t.save(&mut store, b"1234");
    assert_eq!(b"1234".to_vec(), t.load(&store).unwrap());

    // not under other key
    let different = triple().may_load(&store, (b"owners", IntKeyOld::new(10u8), "ecipient"));
    assert_eq!(None, different);

    // matches under a proper copy
    let same = triple()
        .load(&store, (b"owner", IntKeyOld::new(10u8), "recipient"))
        .unwrap();
    assert_eq!(b"1234".to_vec(), same);
}

#[test]
fn basic_update() {
    let mut store = MockStorage::new();

    let add_ten = |a: Option<Vec<u8>>| -> Result<Vec<u8>, String> {
        let old: u64 = match a {
            Some(v) => String::from_utf8(v).unwrap().parse().unwrap(),
            None => 0,
        };
        Ok((old + 10).to_string().into_bytes())
    };

    let key: (&[u8], &[u8]) = (b"owner", b"spender");
    allowance().update(&mut store, key, add_ten).unwrap();
    let twenty = allowance().update(&mut store, key, add_ten).unwrap();
    assert_eq!(b"20".to_vec(), twenty);
    let loaded = allowance().load(&store, key).unwrap();
    assert_eq!(b"20".to_vec(), loaded);
}

#[test]
fn maps_with_other_namespaces_do_not_meet() {
    let mut store = MockStorage::new();
    let a: StorageMap<&[u8]> = StorageMap::new("peo");
    let b: StorageMap<&[u8]> = StorageMap::new("people");
    // "peo" + "ple" + key would collide without the length prefix
    a.save(&mut store, b"plejohn", JOHN);
    assert_eq!(b.may_load(&store, b"john"), None);
    b.save(&mut store, b"john", b"2");
    assert_eq!(a.load(&store, b"plejohn").unwrap(), JOHN.to_vec());
}
