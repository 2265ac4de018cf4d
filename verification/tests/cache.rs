use cosmwasm_std::testing::MockStorage;
use cosmwasm_std::Storage;
use cw_plus::multitest::cache::{settle_batch, settle_submsg, WriteCache};
use cw_plus::multitest::wasm::{AppResponse, ReplyOn};

fn cached_writes() -> WriteCache {
    let mut cache = WriteCache::new();
    cache.set(b"a", b"1");
    cache.set(b"b", b"2");
    cache.remove(b"old");
    cache.set(b"a", b"3");
    cache
}

#[test]
fn reads_go_through_the_cache() {
    let mut store = MockStorage::new();
    store.set(b"old", b"x");
    store.set(b"kept", b"y");
    let cache = cached_writes();
    assert_eq!(cache.get(&store, b"a"), Some(b"3".to_vec()));
    assert_eq!(cache.get(&store, b"old"), None);
    assert_eq!(cache.get(&store, b"kept"), Some(b"y".to_vec()));
    // nothing reached the store yet
    assert_eq!(store.get(b"a"), None);
    assert_eq!(store.get(b"old"), Some(b"x".to_vec()));

    cache.commit(&mut store);
    assert_eq!(store.get(b"a"), Some(b"3".to_vec()));
    assert_eq!(store.get(b"b"), Some(b"2".to_vec()));
    assert_eq!(store.get(b"old"), None);
    assert_eq!(store.get(b"kept"), Some(b"y".to_vec()));
}

#[test]
fn successful_submsg_keeps_its_writes() {
    let mut store = MockStorage::new();
    let cache = cached_writes();
    let ok: Result<AppResponse, String> = Ok(AppResponse { events: vec![], data: Some(b"d".to_vec()) });
    let reply = settle_submsg(&mut store, &cache, 7, ReplyOn::Success, &ok).unwrap();
    assert_eq!(reply.id, 7);
    assert_eq!(reply.result.unwrap().data, Some(b"d".to_vec()));
    assert_eq!(store.get(b"a"), Some(b"3".to_vec()));

    // no reply when only errors are asked for
    let mut store = MockStorage::new();
    assert!(settle_submsg(&mut store, &cache, 7, ReplyOn::Error, &ok).is_none());
    assert_eq!(store.get(b"b"), Some(b"2".to_vec()));
}

#[test]
fn failed_submsg_drops_its_writes() {
    let mut store = MockStorage::new();
    store.set(b"old", b"x");
    let cache = cached_writes();
    let err: Result<AppResponse, String> = Err("boom".to_string());
    let reply = settle_submsg(&mut store, &cache, 3, ReplyOn::Always, &err).unwrap();
    assert_eq!(reply.id, 3);
    assert_eq!(reply.result.unwrap_err(), "boom".to_string());
    assert_eq!(store.get(b"a"), None);
    assert_eq!(store.get(b"old"), Some(b"x".to_vec()));
    assert!(settle_submsg(&mut store, &cache, 3, ReplyOn::Success, &err).is_none());
}

#[test]
fn batch_is_all_or_nothing() {
    let answer = |d: &[u8]| -> Result<AppResponse, String> {
        Ok(AppResponse { events: vec![], data: Some(d.to_vec()) })
    };
    // every message succeeded: the writes land and the answers come back in order
    let mut store = MockStorage::new();
    store.set(b"old", b"x");
    let cache = cached_writes();
    let answers = settle_batch(&mut store, &cache, vec![answer(b"1"), answer(b"2")]).unwrap();
    assert_eq!(answers.len(), 2);
    assert_eq!(answers[0].data, Some(b"1".to_vec()));
    assert_eq!(answers[1].data, Some(b"2".to_vec()));
    assert_eq!(store.get(b"a"), Some(b"3".to_vec()));
    assert_eq!(store.get(b"old"), None);

    // one failed: nothing lands and the first failure is the answer
    let mut store = MockStorage::new();
    store.set(b"old", b"x");
    let batch = vec![answer(b"1"), Err("first".to_string()), Err("second".to_string())];
    assert_eq!(settle_batch(&mut store, &cache, batch).unwrap_err(), "first".to_string());
    assert_eq!(store.get(b"a"), None);
    assert_eq!(store.get(b"old"), Some(b"x".to_vec()));

    // an empty batch commits the writes made around it
    let mut store = MockStorage::new();
    assert!(settle_batch(&mut store, &cache, vec![]).unwrap().is_empty());
    assert_eq!(store.get(b"b"), Some(b"2".to_vec()));
}
