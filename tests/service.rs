use kv::checks::{assert_res_error, assert_res_ok};
use kv::command::{CommandRequest, CommandResponse};
use kv::error::KvError;
use kv::service::{dispatch, Execution, Notify, ServiceInner, SetStatus};
use kv::storage::MemTable;
use kv::value::{Kvpair, Value};

fn unary(e: Execution) -> CommandResponse {
    match e {
        Execution::Unary(r) => r,
        Execution::Topic(_) => panic!("expected a unary response"),
    }
}

fn check_ok(res: &CommandResponse, values: &[Value], pairs: &[Kvpair]) {
    let mut sorted = res.pairs.clone();
    sorted.sort_by(|a, b| a.partial_cmp(b).unwrap());
    assert_eq!(res.status, 200);
    assert_eq!(res.message, "");
    assert_eq!(res.values, values);
    assert_eq!(sorted, pairs);
    assert!(assert_res_ok(res, values, pairs));
}

fn check_error(res: &CommandResponse, code: u32, msg: &str) {
    assert_eq!(res.status, code);
    assert!(res.message.contains(msg));
    assert_eq!(res.values, &[]);
    assert_eq!(res.pairs, &[]);
    assert!(assert_res_error(res, code, msg));
}

#[test]
fn service_should_works() {
    let mut service: ServiceInner<MemTable> = ServiceInner::new(MemTable::default());
    let res = unary(service.execute(CommandRequest::new_hset("t1", "k1", "v1".into())));
    check_ok(&res, &[Value::default()], &[]);
    let res = unary(service.execute(CommandRequest::new_hget("t1", "k1")));
    check_ok(&res, &["v1".into()], &[]);
}

#[test]
fn hset_then_hget() {
    let mut store = MemTable::new();
    let res = dispatch(CommandRequest::new_hset("t1", "k1", Value::text("v1")), &mut store);
    check_ok(&res, &[Value::Null], &[]);
    let res = dispatch(CommandRequest::new_hget("t1", "k1"), &mut store);
    check_ok(&res, &[Value::text("v1")], &[]);
}

#[test]
fn hget_absent_key_is_not_found() {
    let mut store = MemTable::new();
    dispatch(CommandRequest::new_hset("t1", "k1", "v1".into()), &mut store);
    let res = dispatch(CommandRequest::new_hget("t1", "absent"), &mut store);
    check_error(&res, 404, "Not found");
}

#[test]
fn hset_large_binary_value() {
    let mut store = MemTable::new();
    let v = Value::Binary(vec![0u8; 16384]);
    let res = dispatch(CommandRequest::new_hset("t2", "k2", v.clone()), &mut store);
    check_ok(&res, &[Value::default()], &[]);
    let res = dispatch(CommandRequest::new_hget("t2", "k2"), &mut store);
    check_ok(&res, &[v], &[]);
}

#[test]
fn hgetall_lists_the_table() {
    let mut store = MemTable::new();
    dispatch(CommandRequest::new_hset("t", "b", Value::Integer(2)), &mut store);
    dispatch(CommandRequest::new_hset("t", "a", Value::Integer(1)), &mut store);
    dispatch(CommandRequest::new_hset("u", "c", Value::Integer(3)), &mut store);
    let res = dispatch(CommandRequest::new_hgetall("t"), &mut store);
    check_ok(
        &res,
        &[],
        &[Kvpair::new("a", Value::Integer(1)), Kvpair::new("b", Value::Integer(2))],
    );
}

#[test]
fn bulk_commands() {
    let mut store = MemTable::new();
    let res = dispatch(
        CommandRequest::new_hmset(
            "t",
            vec![Kvpair::new("a", Value::Integer(1)), Kvpair::new("b", Value::Integer(2)), Kvpair::new("a", Value::Integer(3))],
        ),
        &mut store,
    );
    check_ok(&res, &[Value::Null, Value::Null, Value::Integer(1)], &[]);
    let keys = vec!["a".to_string(), "x".to_string(), "b".to_string()];
    let res = dispatch(CommandRequest::new_hmget("t", keys.clone()), &mut store);
    check_ok(&res, &[Value::Integer(3), Value::Null, Value::Integer(2)], &[]);
    let res = dispatch(CommandRequest::new_hmexist("t", keys.clone()), &mut store);
    check_ok(&res, &[Value::Bool(true), Value::Bool(false), Value::Bool(true)], &[]);
    let res = dispatch(CommandRequest::new_hexist("t", "x"), &mut store);
    check_ok(&res, &[Value::Bool(false)], &[]);
    let res = dispatch(CommandRequest::new_hmdel("t", keys), &mut store);
    check_ok(&res, &[Value::Integer(3), Value::Null, Value::Integer(2)], &[]);
    let res = dispatch(CommandRequest::new_hdel("t", "a"), &mut store);
    check_ok(&res, &[Value::Null], &[]);
    let res = dispatch(CommandRequest::new_hgetall("t"), &mut store);
    check_ok(&res, &[], &[]);
}

#[test]
fn request_without_data_is_invalid() {
    let mut store = MemTable::new();
    let res = dispatch(CommandRequest { request_data: None }, &mut store);
    check_error(&res, 400, "Request has no data");
}

#[test]
fn topic_commands_go_to_the_broadcaster() {
    let mut service: ServiceInner<MemTable> = ServiceInner::new(MemTable::new());
    assert!(matches!(
        service.execute(CommandRequest::new_subscribe("lobby")),
        Execution::Topic(_)
    ));
    let mut store = MemTable::new();
    let res = dispatch(CommandRequest::new_publish("lobby", vec![]), &mut store);
    check_error(&res, 400, "not a storage command");
}

struct Quiet;

impl Notify<CommandRequest> for Quiet {
    fn notify(&self, _cmd: &CommandRequest) {}
}

impl Notify<CommandResponse> for Quiet {
    fn notify(&self, _res: &CommandResponse) {}
}

impl Notify<()> for Quiet {
    fn notify(&self, _arg: &()) {}
}

#[test]
fn event_registration_should_work() {
    let mut service: ServiceInner<MemTable, Quiet, Quiet, SetStatus, Quiet> =
        ServiceInner::new(MemTable::default())
            .fn_received(Quiet)
            .fn_executed(Quiet)
            .fn_before_send(SetStatus(201))
            .fn_after_send(Quiet);
    let res = unary(service.execute(CommandRequest::new_hset("t1", "k1", "v1".into())));
    assert_eq!(res.status, 201);
    assert_eq!(res.message, "");
    assert_eq!(res.values, vec![Value::default()]);
    service.notify_sent();
}

#[test]
fn error_statuses_and_messages() {
    let e = KvError::NotFound("x".to_string());
    assert_eq!(e.status(), 404);
    assert_eq!(e.message(), "Not found: x");
    let r = CommandResponse::from_error(&KvError::InvalidCommand("bad".to_string()));
    assert_eq!(r.status, 400);
    assert_eq!(r.message, "Invalid command: bad");
    assert_eq!(KvError::FrameError.status(), 500);
    assert_eq!(KvError::DecodeError("d".to_string()).status(), 500);
    assert_eq!(KvError::StorageError("s".to_string()).status(), 500);
    assert_eq!(KvError::Internal("i".to_string()).message(), "Internal error: i");
    assert_eq!(
        KvError::CertificateParseError("server".to_string(), "cert".to_string()).message(),
        "Certificate parse error: server cert"
    );
}
