use kv::checks::{assert_res_error, assert_res_ok};
use kv::command::CommandResponse;
use kv::error::KvError;
use kv::layout::{flip, get_full_key, get_table_prefix, ivec_to_key};
use kv::value::{Kvpair, Value};

#[test]
fn entry_keys_join_table_and_key() {
    assert_eq!(get_full_key("t1", "k1"), "t1:k1");
    assert_eq!(get_table_prefix("t1"), "t1:");
    assert_eq!(ivec_to_key(b"t1:k1"), Some("k1".to_string()));
    assert_eq!(ivec_to_key(b"t1:"), Some(String::new()));
    assert_eq!(ivec_to_key(b"t1k1"), None);
    assert_eq!(ivec_to_key(&[b't', b':', 0xff]), None);
}

#[test]
fn flip_turns_option_result_inside_out() {
    let none: Option<Result<i32, KvError>> = None;
    assert_eq!(flip(none), Ok(None));
    assert_eq!(flip(Some(Ok::<i32, KvError>(3))), Ok(Some(3)));
    assert_eq!(flip(Some(Err::<i32, KvError>(KvError::FrameError))), Err(KvError::FrameError));
}

#[test]
fn values_round_trip_through_bytes() {
    for v in [
        Value::Null,
        Value::text("héllo"),
        Value::Binary(vec![0, 255, 7]),
        Value::Integer(-1),
        Value::Integer(i64::MAX),
        Value::Bool(true),
    ] {
        let b = v.to_bytes();
        assert_eq!(Value::from_bytes(&b), Ok(v));
    }
    assert_eq!(Value::Integer(-1).to_bytes().len(), 11);
    assert_eq!(Value::Bool(true).to_bytes(), vec![4, 1]);
    assert!(matches!(Value::from_bytes(&[4, 2]), Err(KvError::DecodeError(_))));
    assert!(matches!(Value::from_bytes(&[0, 0]), Err(KvError::DecodeError(_))));
    assert!(matches!(Value::from_bytes(&[]), Err(KvError::DecodeError(_))));
}

#[test]
fn response_checks() {
    let r = CommandResponse {
        status: 200,
        message: String::new(),
        values: vec![Value::text("v1")],
        pairs: vec![Kvpair::new("b", Value::Integer(2)), Kvpair::new("a", Value::Integer(1))],
    };
    assert!(assert_res_ok(
        &r,
        &[Value::text("v1")],
        &[Kvpair::new("a", Value::Integer(1)), Kvpair::new("b", Value::Integer(2))]
    ));
    assert!(!assert_res_ok(&r, &[Value::text("v2")], &r.pairs.clone()));
    assert!(!assert_res_ok(&r, &[Value::text("v1")], &[Kvpair::new("a", Value::Integer(1))]));
    let a = Kvpair::new("a", Value::Integer(1));
    let b = Kvpair::new("b", Value::Integer(2));
    let twice_a = CommandResponse {
        status: 200,
        message: String::new(),
        values: vec![],
        pairs: vec![a.clone(), a.clone(), b.clone()],
    };
    assert!(!assert_res_ok(&twice_a, &[], &[a.clone(), b.clone(), b.clone()]));
    assert!(assert_res_ok(&twice_a, &[], &[b.clone(), a.clone(), a.clone()]));
    let e = CommandResponse::from_error(&KvError::NotFound("table t1, key absent".to_string()));
    assert!(assert_res_error(&e, 404, "Not found"));
    assert!(assert_res_error(&e, 404, ""));
    assert!(!assert_res_error(&e, 404, "Found it"));
    assert!(!assert_res_error(&e, 400, "Not found"));
}
