use kv::command::CommandRequest;
use kv::service::dispatch;
use kv::error::KvError;
use kv::sled_db::{read_stored, SledDb};
use kv::storage::Storage;
use kv::value::{Kvpair, Value};

fn open(dir: &tempfile::TempDir) -> SledDb {
    SledDb::new(dir.path().to_str().unwrap()).unwrap()
}

#[test]
fn sleddb_basic_interface_should_work() {
    let dir = tempfile::tempdir().unwrap();
    let mut store = open(&dir);
    let v = store.set("t1", "hello", "world".into());
    assert!(v.unwrap().is_none());
    let v1 = store.set("t1", "hello", "world1".into());
    assert_eq!(v1, Ok(Some("world".into())));
    let v = store.get("t1", "hello");
    assert_eq!(v, Ok(Some("world1".into())));

    assert_eq!(Ok(None), store.get("t1", "hello1"));
    assert!(store.get("t2", "hello1").unwrap().is_none());

    assert_eq!(store.contains("t1", "hello"), Ok(true));
    assert_eq!(store.contains("t1", "hello1"), Ok(false));
    assert_eq!(store.contains("t2", "hello"), Ok(false));

    let v = store.del("t1", "hello");
    assert_eq!(v, Ok(Some("world1".into())));

    assert_eq!(Ok(None), store.get("t1", "hello"));
    assert_eq!(Ok(None), store.get("t2", "hello"));
}

#[test]
fn sleddb_get_all_should_work() {
    let dir = tempfile::tempdir().unwrap();
    let mut store = open(&dir);
    store.set("t2", "k1", "v1".into()).unwrap();
    store.set("t2", "k2", "v2".into()).unwrap();
    let mut data = store.get_all("t2").unwrap();
    data.sort_by(|a, b| a.partial_cmp(b).unwrap());
    assert_eq!(
        data,
        vec![
            Kvpair::new("k1", "v1".into()),
            Kvpair::new("k2", "v2".into()),
        ]
    )
}

#[test]
fn sleddb_iter_should_work() {
    let dir = tempfile::tempdir().unwrap();
    let mut store = open(&dir);
    store.set("t3", "k1", "v1".into()).unwrap();
    store.set("t3", "k2", "v2".into()).unwrap();
    let mut data: Vec<_> = store.get_iter("t3").unwrap().collect();
    data.sort_by(|a, b| a.partial_cmp(b).unwrap());
    assert_eq!(
        data,
        vec![
            Kvpair::new("k1", "v1".into()),
            Kvpair::new("k2", "v2".into()),
        ]
    )
}

#[test]
fn sleddb_keeps_tables_apart_and_refuses_colons() {
    let dir = tempfile::tempdir().unwrap();
    let mut store = open(&dir);
    store.set("t", "a:b", Value::Integer(1)).unwrap();
    store.set("tt", "a", Value::Integer(2)).unwrap();
    assert_eq!(store.get_all("t").unwrap(), vec![Kvpair::new("a:b", Value::Integer(1))]);
    assert_eq!(store.get("t", "a:b"), Ok(Some(Value::Integer(1))));
    assert!(matches!(store.set("t:a", "b", Value::Null), Err(KvError::InvalidCommand(_))));
    assert!(matches!(store.get("t:a", "b"), Err(KvError::InvalidCommand(_))));
    let res = dispatch(CommandRequest::new_hget("t:a", "b"), &mut store);
    assert_eq!(res.status, 400);
    assert_eq!(store.get("unknown", "k"), Ok(None));
    assert_eq!(store.contains("unknown", "k"), Ok(false));
}

#[test]
fn sleddb_serves_the_dispatcher() {
    let dir = tempfile::tempdir().unwrap();
    let mut store = open(&dir);
    let res = dispatch(CommandRequest::new_hset("t1", "k1", Value::text("v1")), &mut store);
    assert_eq!(res.status, 200);
    assert_eq!(res.values, vec![Value::Null]);
    let res = dispatch(CommandRequest::new_hget("t1", "k1"), &mut store);
    assert_eq!(res.values, vec![Value::text("v1")]);
}

#[test]
fn stored_bytes_are_read_back_exactly() {
    assert_eq!(read_stored(None), Ok(None));
    assert_eq!(read_stored(Some(Value::Integer(5).to_bytes())), Ok(Some(Value::Integer(5))));
    assert!(matches!(read_stored(Some(vec![9, 9])), Err(KvError::DecodeError(_))));
}
