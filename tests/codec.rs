use kv::command::{CommandRequest, CommandResponse};
use kv::error::KvError;
use kv::frame::{decode_frame, encode_frame, read_header};
use kv::value::{Kvpair, Value};

fn sample_requests() -> Vec<CommandRequest> {
    vec![
        CommandRequest { request_data: None },
        CommandRequest::new_hget("t1", "k1"),
        CommandRequest::new_hgetall("t1"),
        CommandRequest::new_hmget("t1", vec!["a".to_string(), "b".to_string()]),
        CommandRequest::new_hset("t1", "k1", Value::text("v1")),
        CommandRequest::new_hmset("t1", vec![Kvpair::new("a", Value::Integer(-5)), Kvpair::new("b", Value::Bool(true))]),
        CommandRequest::new_hdel("t1", "k1"),
        CommandRequest::new_hmdel("t1", vec!["x".to_string()]),
        CommandRequest::new_hexist("t1", "k1"),
        CommandRequest::new_hmexist("t1", vec![]),
        CommandRequest::new_subscribe("lobby"),
        CommandRequest::new_unsubscribe("lobby", 4_000_000_000),
        CommandRequest::new_publish("lobby", vec![Value::text("hello"), Value::Binary(vec![1, 2, 3]), Value::Null]),
    ]
}

#[test]
fn requests_round_trip() {
    for r in sample_requests() {
        let bytes = r.encode();
        assert_eq!(CommandRequest::decode(&bytes), Ok(r.clone()));
        let frame = r.encode_frame().unwrap();
        assert_eq!(CommandRequest::decode_frame(&frame), Ok(r));
    }
}

#[test]
fn responses_round_trip() {
    let r = CommandResponse {
        status: 404,
        message: "Not found: ünïcode ✓".to_string(),
        values: vec![Value::Integer(i64::MIN), Value::Integer(i64::MAX), Value::Bool(false)],
        pairs: vec![Kvpair::new("k", Value::text("v"))],
    };
    let bytes = r.encode();
    assert_eq!(CommandResponse::decode(&bytes), Ok(r.clone()));
    let frame = r.encode_frame().unwrap();
    assert_eq!(CommandResponse::decode_frame(&frame), Ok(r));
}

#[test]
fn small_request_encoding_is_exact() {
    let r = CommandRequest::new_hget("t", "k");
    assert_eq!(r.encode(), vec![1, 1, b't', 1, b'k']);
    let f = r.encode_frame().unwrap();
    assert_eq!(f, vec![0, 0, 0, 5, 1, 1, b't', 1, b'k']);
    let v = CommandResponse::from(Value::Integer(300));
    assert_eq!(v.encode(), vec![0xc8, 0x01, 0, 1, 3, 0xac, 0x02, 0]);
}

#[test]
fn large_payload_is_compressed() {
    let v = Value::Binary(vec![0u8; 16384]);
    let r = CommandRequest::new_hset("t2", "k2", v.clone());
    let f = r.encode_frame().unwrap();
    let (compressed, len) = read_header(&f).unwrap();
    assert!(compressed);
    assert_eq!(len as usize, f.len() - 4);
    assert!(f.len() < 16384);
    assert_eq!(CommandRequest::decode_frame(&f), Ok(r));

    let resp = CommandResponse::from(v.clone());
    let f = resp.encode_frame().unwrap();
    assert!(read_header(&f).unwrap().0);
    assert_eq!(CommandResponse::decode_frame(&f), Ok(resp));
}

#[test]
fn compression_boundary() {
    let at = vec![7u8; 1436];
    let f = encode_frame(&at).unwrap();
    assert_eq!(read_header(&f), Some((false, 1436)));
    assert_eq!(decode_frame(&f), Ok(at));
    let over = vec![7u8; 1437];
    let f = encode_frame(&over).unwrap();
    assert!(read_header(&f).unwrap().0);
    assert_ne!(&f[4..], &over[..]);
    assert_eq!(decode_frame(&f), Ok(over));
}

#[test]
fn bad_frames_are_rejected() {
    assert_eq!(decode_frame(&[0, 0, 0]), Err(KvError::FrameError));
    assert_eq!(decode_frame(&[0, 0, 0, 2, 1]), Err(KvError::FrameError));
    assert!(matches!(decode_frame(&[0x80, 0, 0, 2, 1, 2]), Err(KvError::DecodeError(_))));
    assert!(matches!(CommandRequest::decode_frame(&[0, 0, 0, 1, 99]), Err(KvError::DecodeError(_))));
    assert!(matches!(CommandRequest::decode(&[1, 1, b't', 1, b'k', 0]), Err(KvError::DecodeError(_))));
    assert!(matches!(CommandRequest::decode(&[1, 1, 0xff, 1, b'k']), Err(KvError::DecodeError(_))));
    assert!(matches!(CommandResponse::decode(&[0x80, 0x80]), Err(KvError::DecodeError(_))));
    assert!(matches!(CommandResponse::decode(&[0x80, 0x00, 0, 0, 0]), Err(KvError::DecodeError(_))));
}

#[test]
fn prost_stream_should_work() {
    let cmd = CommandRequest::new_hset("t1", "kv", "v1".into());
    let mut wire = cmd.encode_frame().unwrap();
    wire.extend(cmd.encode_frame().unwrap());
    let (_, len) = read_header(&wire).unwrap();
    let first = &wire[..4 + len as usize];
    assert_eq!(CommandRequest::decode_frame(first), Ok(cmd.clone()));
    let second = &wire[4 + len as usize..];
    assert_eq!(CommandRequest::decode_frame(second), Ok(cmd));
}
