use cosmwasm_std::testing::MockStorage;
use cosmwasm_std::Storage;
use cw_plus::deque::Deque;
use cw_plus::queue::Queue;

fn num(n: u32) -> Vec<u8> {
    n.to_string().into_bytes()
}

#[test]
fn deque_push_and_pop() {
    let people = Deque::new("people");
    let mut store = MockStorage::new();

    // push some entries
    people.push_back(&mut store, b"jack").unwrap();
    people.push_back(&mut store, b"john").unwrap();
    people.push_back(&mut store, b"joanne").unwrap();

    // pop them, should be in correct order
    assert_eq!(b"jack".to_vec(), people.pop_front(&mut store).unwrap().unwrap());
    assert_eq!(b"john".to_vec(), people.pop_front(&mut store).unwrap().unwrap());

    // push again in-between
    people.push_back(&mut store, b"jason").unwrap();

    // pop last person from first batch
    assert_eq!(b"joanne".to_vec(), people.pop_front(&mut store).unwrap().unwrap());

    // pop the entry pushed in-between
    assert_eq!(b"jason".to_vec(), people.pop_front(&mut store).unwrap().unwrap());

    // nothing after that
    assert_eq!(None, people.pop_front(&mut store).unwrap());

    // now push to the front
    people.push_front(&mut store, b"pascal").unwrap();
    people.push_front(&mut store, b"peter").unwrap();
    people.push_front(&mut store, b"paul").unwrap();

    assert_eq!(b"pascal".to_vec(), people.pop_back(&mut store).unwrap().unwrap());
    assert_eq!(b"paul".to_vec(), people.pop_front(&mut store).unwrap().unwrap());
    assert_eq!(b"peter".to_vec(), people.pop_back(&mut store).unwrap().unwrap());
}

#[test]
fn deque_length() {
    let deque = Deque::new("test");
    let mut store = MockStorage::new();

    assert_eq!(deque.len(&store).unwrap(), 0);
    assert!(deque.is_empty(&store).unwrap());

    // push some entries
    deque.push_front(&mut store, &num(1234)).unwrap();
    deque.push_back(&mut store, &num(2345)).unwrap();
    deque.push_front(&mut store, &num(3456)).unwrap();
    deque.push_back(&mut store, &num(4567)).unwrap();
    assert_eq!(deque.len(&store).unwrap(), 4);
    assert!(!deque.is_empty(&store).unwrap());

    // pop some
    deque.pop_front(&mut store).unwrap();
    deque.pop_back(&mut store).unwrap();
    deque.pop_front(&mut store).unwrap();
    assert_eq!(deque.len(&store).unwrap(), 1);
    assert!(!deque.is_empty(&store).unwrap());

    // pop the last one
    deque.pop_front(&mut store).unwrap();
    assert_eq!(deque.len(&store).unwrap(), 0);
    assert!(deque.is_empty(&store).unwrap());

    // should stay 0 after that
    assert_eq!(deque.pop_back(&mut store).unwrap(), None);
    assert_eq!(
        deque.len(&store).unwrap(),
        0,
        "popping from empty deque should keep length 0"
    );
    assert!(deque.is_empty(&store).unwrap());
}

#[test]
fn deque_iterator() {
    let deque = Deque::new("test");
    let mut store = MockStorage::new();

    for i in 1..=4 {
        deque.push_back(&mut store, &num(i)).unwrap();
    }

    let mut items = vec![];
    let mut iter = deque.iter(&store).unwrap();
    while let Some(item) = iter.next() {
        items.push(item.unwrap());
    }
    assert_eq!(items, [num(1), num(2), num(3), num(4)]);

    // nth should work correctly
    let mut iter = deque.iter(&store).unwrap();
    assert_eq!(iter.nth(6), None);
    assert_eq!(iter.size_hint().0, 0, "iter should detect skipping too far");
    assert_eq!(iter.next(), None);

    let mut iter = deque.iter(&store).unwrap();
    assert_eq!(iter.nth(1).unwrap().unwrap(), num(2));
    assert_eq!(iter.next().unwrap().unwrap(), num(3));
}

#[test]
fn reverse_iterator() {
    let deque = Deque::new("test");
    let mut store = MockStorage::new();

    for i in 1..=4 {
        deque.push_back(&mut store, &num(i)).unwrap();
    }

    let mut items = vec![];
    let mut iter = deque.iter(&store).unwrap();
    while let Some(item) = iter.next_back() {
        items.push(item.unwrap());
    }
    assert_eq!(items, [num(4), num(3), num(2), num(1)]);

    // nth should work correctly
    let mut iter = deque.iter(&store).unwrap();
    assert_eq!(iter.nth_back(6), None);
    assert_eq!(iter.size_hint().0, 0, "iter should detect skipping too far");
    assert_eq!(iter.next_back(), None);

    let mut iter = deque.iter(&store).unwrap();
    assert_eq!(iter.nth_back(1).unwrap().unwrap(), num(3));
    assert_eq!(iter.next_back().unwrap().unwrap(), num(2));

    // mixed
    let mut iter = deque.iter(&store).unwrap();
    assert_eq!(iter.next().unwrap().unwrap(), num(1));
    assert_eq!(iter.next_back().unwrap().unwrap(), num(4));
    assert_eq!(iter.next_back().unwrap().unwrap(), num(3));
    assert_eq!(iter.next().unwrap().unwrap(), num(2));
    assert_eq!(iter.next(), None);
    assert_eq!(iter.next_back(), None);
}

/// Writes a head or tail position the way the deque stores it.
fn set_position(store: &mut MockStorage, which: &[u8], value: u32) {
    let mut key = b"\x00\x04test".to_vec();
    key.extend_from_slice(which);
    store.set(&key, &value.to_be_bytes());
}

#[test]
fn deque_wrapping() {
    let deque = Deque::new("test");
    let mut store = MockStorage::new();

    // simulate deque that was pushed and popped `u32::MAX` times
    set_position(&mut store, b"h", u32::MAX);
    set_position(&mut store, b"t", u32::MAX);

    // should be empty
    assert_eq!(deque.pop_front(&mut store).unwrap(), None);
    assert_eq!(deque.len(&store).unwrap(), 0);

    // pushing should still work
    deque.push_back(&mut store, &num(1)).unwrap();
    assert_eq!(
        deque.len(&store).unwrap(),
        1,
        "length should calculate correctly, even when wrapping"
    );
    assert_eq!(
        deque.pop_front(&mut store).unwrap(),
        Some(num(1)),
        "popping should work, even when wrapping"
    );
}

#[test]
fn wrapping_iterator() {
    let deque = Deque::new("test");
    let mut store = MockStorage::new();

    set_position(&mut store, b"h", u32::MAX);
    set_position(&mut store, b"t", u32::MAX);

    for i in 1..=5 {
        deque.push_back(&mut store, &num(i)).unwrap();
    }

    let mut iter = deque.iter(&store).unwrap();
    assert_eq!(iter.next().unwrap().unwrap(), num(1));
    assert_eq!(iter.next().unwrap().unwrap(), num(2));
    assert_eq!(iter.next_back().unwrap().unwrap(), num(5));
    assert_eq!(iter.nth(1).unwrap().unwrap(), num(4));
    assert_eq!(iter.nth(1), None);
    assert_eq!(iter.size_hint().0, 0);
}

#[test]
fn front_back() {
    let deque = Deque::new("test");
    let mut store = MockStorage::new();

    assert_eq!(deque.back(&store).unwrap(), None);
    deque.push_back(&mut store, &num(1)).unwrap();
    assert_eq!(deque.back(&store).unwrap(), Some(num(1)));
    assert_eq!(deque.front(&store).unwrap(), Some(num(1)));
    deque.push_back(&mut store, &num(2)).unwrap();
    assert_eq!(deque.back(&store).unwrap(), Some(num(2)));
    assert_eq!(deque.front(&store).unwrap(), Some(num(1)));
    deque.push_front(&mut store, &num(3)).unwrap();
    assert_eq!(deque.back(&store).unwrap(), Some(num(2)));
    assert_eq!(deque.front(&store).unwrap(), Some(num(3)));
}

#[test]
fn iterator_errors_when_item_missing() {
    let deque = Deque::new("error_test");
    let mut store = MockStorage::new();

    deque.push_back(&mut store, &num(1)).unwrap();
    // manually remove it
    let mut key = b"\x00\x0aerror_test".to_vec();
    key.extend_from_slice(&0u32.to_be_bytes());
    store.remove(&key);

    let mut iter = deque.iter(&store).unwrap();
    assert!(matches!(iter.next(), Some(Err(_))));
}

#[test]
fn malformed_position_is_a_parse_error() {
    let deque = Deque::new("test");
    let mut store = MockStorage::new();
    let key = b"\x00\x04testt".to_vec();
    store.set(&key, b"xx");
    assert!(deque.len(&store).is_err());
    assert!(deque.push_back(&mut store, b"a").is_err());
    // a failed push leaves the storage as it was
    assert_eq!(store.get(&key), Some(b"xx".to_vec()));
}

#[test]
fn queue_is_first_in_first_out() {
    let queue = Queue::new("queue");
    let mut store = MockStorage::new();
    assert!(queue.is_empty(&store).unwrap());
    queue.push(&mut store, b"one").unwrap();
    queue.push(&mut store, b"two").unwrap();
    assert_eq!(queue.len(&store).unwrap(), 2);
    assert_eq!(queue.pop(&mut store).unwrap(), Some(b"one".to_vec()));
    assert_eq!(queue.pop(&mut store).unwrap(), Some(b"two".to_vec()));
    assert_eq!(queue.pop(&mut store).unwrap(), None);
    assert!(queue.is_empty(&store).unwrap());
}

#[test]
fn deque_readme_works() {
    let data = Deque::new("data");
    let mut store = MockStorage::new();

    // read methods return a wrapped Option<T>, so None if the deque is empty
    let empty = data.front(&store).unwrap();
    assert_eq!(None, empty);

    // some example entries
    let p1 = b"{\"name\":\"admin\",\"age\":1234}".to_vec();
    let p2 = b"{\"name\":\"user\",\"age\":123}".to_vec();

    // use it like a queue by pushing and popping at opposite ends
    data.push_back(&mut store, &p1).unwrap();
    data.push_back(&mut store, &p2).unwrap();

    let admin = data.pop_front(&mut store).unwrap();
    assert_eq!(admin.as_ref(), Some(&p1));
    let user = data.pop_front(&mut store).unwrap();
    assert_eq!(user.as_ref(), Some(&p2));

    // or push and pop at the same end to use it as a stack
    data.push_back(&mut store, &p1).unwrap();
    data.push_back(&mut store, &p2).unwrap();

    let user = data.pop_back(&mut store).unwrap();
    assert_eq!(user.as_ref(), Some(&p2));
    let admin = data.pop_back(&mut store).unwrap();
    assert_eq!(admin.as_ref(), Some(&p1));

    // you can also iterate over it
    data.push_front(&mut store, &p1).unwrap();
    data.push_front(&mut store, &p2).unwrap();

    let mut all = vec![];
    let mut iter = data.iter(&store).unwrap();
    while let Some(item) = iter.next() {
        all.push(item.unwrap());
    }
    assert_eq!(all, [p2, p1]);
}

#[test]
fn queue_push_and_pop() {
    let people = Queue::new("people");
    let mut store = MockStorage::new();

    // push some entries
    people.push(&mut store, b"jack").unwrap();
    people.push(&mut store, b"john").unwrap();
    people.push(&mut store, b"joanne").unwrap();

    // pop them, should be in correct order
    assert_eq!(b"jack".to_vec(), people.pop(&mut store).unwrap().unwrap());
    assert_eq!(b"john".to_vec(), people.pop(&mut store).unwrap().unwrap());

    // push again in-between
    people.push(&mut store, b"jason").unwrap();

    // pop last person from first batch
    assert_eq!(b"joanne".to_vec(), people.pop(&mut store).unwrap().unwrap());

    // pop the entry pushed in-between
    assert_eq!(b"jason".to_vec(), people.pop(&mut store).unwrap().unwrap());

    // nothing after that
    assert_eq!(None, people.pop(&mut store).unwrap());
}

#[test]
fn queue_length() {
    let queue = Queue::new("test");
    let mut store = MockStorage::new();

    assert_eq!(queue.len(&store).unwrap(), 0);

    // push some entries
    queue.push(&mut store, &num(1234)).unwrap();
    queue.push(&mut store, &num(2345)).unwrap();
    queue.push(&mut store, &num(3456)).unwrap();
    queue.push(&mut store, &num(4567)).unwrap();
    assert_eq!(queue.len(&store).unwrap(), 4);

    // pop some
    queue.pop(&mut store).unwrap();
    queue.pop(&mut store).unwrap();
    queue.pop(&mut store).unwrap();
    assert_eq!(queue.len(&store).unwrap(), 1);

    // pop the last one
    queue.pop(&mut store).unwrap();
    assert_eq!(queue.len(&store).unwrap(), 0);

    // should stay 0 after that
    queue.pop(&mut store).unwrap();
    assert_eq!(
        queue.len(&store).unwrap(),
        0,
        "popping from empty queue should keep length 0"
    );
}

#[test]
fn queue_wrapping() {
    let queue = Queue::new("test");
    let mut store = MockStorage::new();

    // simulate queue that was pushed and popped `u32::MAX` times
    set_position(&mut store, b"h", u32::MAX);
    set_position(&mut store, b"t", u32::MAX);

    // should be empty
    assert_eq!(queue.pop(&mut store).unwrap(), None);
    assert_eq!(queue.len(&store).unwrap(), 0);

    // pushing should still work
    queue.push(&mut store, &num(1)).unwrap();
    assert_eq!(
        queue.len(&store).unwrap(),
        1,
        "length should calculate correctly, even when wrapping"
    );
    assert_eq!(
        queue.pop(&mut store).unwrap(),
        Some(num(1)),
        "popping should work, even when wrapping"
    );
}

#[test]
fn queue_iterator() {
    let queue = Queue::new("test");
    let mut store = MockStorage::new();

    // push some items
    queue.push(&mut store, &num(1)).unwrap();
    queue.push(&mut store, &num(2)).unwrap();
    queue.push(&mut store, &num(3)).unwrap();
    queue.push(&mut store, &num(4)).unwrap();

    let mut items = vec![];
    let mut iter = queue.iter(&store).unwrap();
    while let Some(item) = iter.next() {
        items.push(item.unwrap());
    }
    assert_eq!(items, [num(1), num(2), num(3), num(4)]);

    let mut iter = queue.iter(&store).unwrap();
    assert_eq!(iter.nth(6), None);
    assert_eq!(iter.size_hint().0, 0, "iter should detect skipping too far");
    assert_eq!(iter.next(), None);
}
