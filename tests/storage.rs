use kv::storage::{MemTable, Storage};
use kv::value::{Kvpair, Value};

fn test_basic_interface(store: &mut impl Storage) {
    let v = store.set("t1", "hello", "world".into());
    assert!(v.unwrap().is_none());
    let v1 = store.set("t1", "hello", "world1".into());
    assert_eq!(v1, Ok(Some("world".into())));
    let v = store.get("t1", "hello");
    assert_eq!(v, Ok(Some("world1".into())));

    assert_eq!(Ok(None), store.get("t1", "hello1"));
    assert!(store.get("t2", "hello1").unwrap().is_none());

    assert_eq!(store.contains("t1", "hello"), Ok(true));
    assert_eq!(store.contains("t1", "hello1"), Ok(false));
    assert_eq!(store.contains("t2", "hello"), Ok(false));

    let v = store.del("t1", "hello");
    assert_eq!(v, Ok(Some("world1".into())));

    assert_eq!(Ok(None), store.get("t1", "hello"));
    assert_eq!(Ok(None), store.get("t2", "hello"));
}

fn test_get_all(store: &mut impl Storage) {
    store.set("t2", "k1", "v1".into()).unwrap();
    store.set("t2", "k2", "v2".into()).unwrap();
    let mut data = store.get_all("t2").unwrap();
    data.sort_by(|a, b| a.partial_cmp(b).unwrap());
    assert_eq!(
        data,
        vec![
            Kvpair::new("k1", "v1".into()),
            Kvpair::new("k2", "v2".into()),
        ]
    )
}

fn test_get_iter(store: &mut impl Storage) {
    store.set("t3", "k1", "v1".into()).unwrap();
    store.set("t3", "k2", "v2".into()).unwrap();
    let mut data: Vec<_> = store.get_iter("t3").unwrap().collect();
    data.sort_by(|a, b| a.partial_cmp(b).unwrap());
    assert_eq!(
        data,
        vec![
            Kvpair::new("k1", "v1".into()),
            Kvpair::new("k2", "v2".into()),
        ]
    )
}

#[test]
fn memtable_basic_interface_should_work() {
    let mut store = MemTable::new();
    test_basic_interface(&mut store);
}

#[test]
fn memtable_get_all_should_work() {
    let mut store = MemTable::new();
    test_get_all(&mut store);
}

#[test]
fn memtable_get_iter_should_work() {
    let mut store = MemTable::new();
    test_get_iter(&mut store);
}

#[test]
fn set_then_get_and_contains() {
    let mut store = MemTable::default();
    store.set("t", "k", Value::Integer(7)).unwrap();
    assert_eq!(store.get("t", "k"), Ok(Some(Value::Integer(7))));
    assert_eq!(store.contains("t", "k"), Ok(true));
}

#[test]
fn second_set_returns_first_value() {
    let mut store = MemTable::default();
    assert_eq!(store.set("t", "k", Value::Bool(true)), Ok(None));
    assert_eq!(store.set("t", "k", Value::Bool(false)), Ok(Some(Value::Bool(true))));
    assert_eq!(store.get("t", "k"), Ok(Some(Value::Bool(false))));
}

#[test]
fn iteration_yields_every_pair_once() {
    let mut store = MemTable::default();
    for i in 0..20i64 {
        store.set("nums", &format!("k{}", i), Value::Integer(i)).unwrap();
    }
    store.set("other", "k0", Value::Integer(100)).unwrap();
    let mut it = store.get_iter("nums").unwrap();
    let mut seen = Vec::new();
    while let Some(p) = it.next() {
        seen.push(p);
    }
    assert!(it.next().is_none());
    assert_eq!(seen.len(), 20);
    seen.sort_by(|a, b| a.partial_cmp(b).unwrap());
    let mut expected: Vec<Kvpair> = (0..20i64)
        .map(|i| Kvpair::new(&format!("k{}", i), Value::Integer(i)))
        .collect();
    expected.sort_by(|a, b| a.partial_cmp(b).unwrap());
    assert_eq!(seen, expected);
}

#[test]
fn empty_table_iterates_nothing() {
    let store = MemTable::default();
    assert!(store.get_all("none").unwrap().is_empty());
    assert!(store.get_iter("none").unwrap().collect().is_empty());
}

#[test]
fn tables_keep_keys_apart() {
    let mut store = MemTable::default();
    store.set("a", "k", "x".into()).unwrap();
    store.set("b", "k", "y".into()).unwrap();
    assert_eq!(store.get("a", "k"), Ok(Some("x".into())));
    assert_eq!(store.get("b", "k"), Ok(Some("y".into())));
    assert_eq!(store.del("a", "k"), Ok(Some("x".into())));
    assert_eq!(store.del("a", "k"), Ok(None));
    assert_eq!(store.get("b", "k"), Ok(Some("y".into())));
}
