use kv::command::{CommandRequest, CommandResponse, RequestData};
use kv::service::TopicRequest;
use kv::topic::Broadcaster;
use kv::topic_service::{dispatch_stream, TopicOutcome};
use kv::value::Value;

fn topic_request(c: CommandRequest) -> TopicRequest {
    match c.request_data {
        Some(RequestData::Subscribe(x)) => TopicRequest::Subscribe(x),
        Some(RequestData::Unsubscribe(x)) => TopicRequest::Unsubscribe(x),
        Some(RequestData::Publish(x)) => TopicRequest::Publish(x),
        _ => panic!("not a topic command"),
    }
}

fn subscribe(b: &mut Broadcaster, topic: &str) -> (u32, CommandResponse) {
    match dispatch_stream(topic_request(CommandRequest::new_subscribe(topic)), b) {
        TopicOutcome::Subscribed { id, first } => (id, first),
        _ => panic!("expected a subscription"),
    }
}

fn publish(b: &mut Broadcaster, topic: &str, data: Vec<Value>) -> (Vec<u32>, CommandResponse, CommandResponse) {
    match dispatch_stream(topic_request(CommandRequest::new_publish(topic, data)), b) {
        TopicOutcome::Published { targets, payload, reply } => (targets, payload, reply),
        _ => panic!("expected a publication"),
    }
}

fn unsubscribe(b: &mut Broadcaster, topic: &str, id: u32) -> CommandResponse {
    match dispatch_stream(topic_request(CommandRequest::new_unsubscribe(topic, id)), b) {
        TopicOutcome::Reply(r) => r,
        _ => panic!("expected a reply"),
    }
}

#[test]
fn subscribe_first_response_carries_the_id() {
    let mut b = Broadcaster::new();
    let (id, first) = subscribe(&mut b, "lobby");
    assert!(id >= 1);
    assert_eq!(first.status, 200);
    assert_eq!(first.values, vec![Value::Integer(id as i64)]);
}

#[test]
fn pub_sub_should_work() {
    let mut b = Broadcaster::new();
    let (id1, _) = subscribe(&mut b, "lobby");
    let (id2, _) = subscribe(&mut b, "lobby");
    assert!(id1 != id2);

    let (mut targets, payload, reply) = publish(&mut b, "lobby", vec!["hello".into()]);
    targets.sort();
    assert_eq!(targets, vec![id1, id2]);
    assert_eq!(reply.status, 200);
    assert!(reply.values.is_empty());
    assert_eq!(payload.status, 200);
    assert_eq!(payload.message, "");
    assert_eq!(payload.values, vec![Value::text("hello")]);
    assert!(payload.pairs.is_empty());

    let r = unsubscribe(&mut b, "lobby", id1);
    assert_eq!(r.status, 200);
    let (targets, payload, _) = publish(&mut b, "lobby", vec!["world".into()]);
    assert_eq!(targets, vec![id2]);
    assert_eq!(payload.values, vec![Value::text("world")]);
}

#[test]
fn dispatch_unsubscribe_random_id_should_error() {
    let mut b = Broadcaster::new();
    let r = unsubscribe(&mut b, "lobby", 1230);
    assert_eq!(r.status, 404);
    assert!(r.message.contains("Not found"));
    assert!(r.message.contains("1230"));
}

#[test]
fn dispatch_subscribe_abnormal_quit_should_be_removed_on_next_publish() {
    let mut b = Broadcaster::new();
    let (id, _) = subscribe(&mut b, "t1");
    let (keep, _) = subscribe(&mut b, "t1");
    let (targets, _, _) = publish(&mut b, "t1", vec!["hello".into()]);
    assert!(targets.contains(&id));
    // the receiver of `id` is gone: its delivery failed
    b.sweep("t1", &vec![id]);
    assert!(b.unsubscribe("t1", id).is_err());
    let (targets, _, _) = publish(&mut b, "t1", vec!["again".into()]);
    assert_eq!(targets, vec![keep]);
}

#[test]
fn ids_are_never_reused() {
    let mut b = Broadcaster::new();
    let mut ids = Vec::new();
    for i in 0..10 {
        let (id, _) = subscribe(&mut b, if i % 2 == 0 { "a" } else { "b" });
        ids.push(id);
        if i % 3 == 0 {
            b.unsubscribe(if i % 2 == 0 { "a" } else { "b" }, id).unwrap();
        }
    }
    let mut sorted = ids.clone();
    sorted.sort();
    sorted.dedup();
    assert_eq!(sorted.len(), ids.len());
    assert_eq!(ids[0], 1);
}

#[test]
fn publish_to_unknown_topic_reaches_nobody() {
    let mut b = Broadcaster::new();
    subscribe(&mut b, "a");
    let (targets, _, reply) = publish(&mut b, "b", vec![]);
    assert!(targets.is_empty());
    assert_eq!(reply.status, 200);
}

#[test]
fn last_member_leaving_drops_the_topic() {
    let mut b = Broadcaster::new();
    let (id, _) = subscribe(&mut b, "a");
    assert_eq!(b.remove_subscription("a", id), Some(id));
    assert_eq!(b.remove_subscription("a", id), None);
    assert!(b.publish("a").is_empty());
}

#[test]
fn dispatch_publish_should_work() {
    let mut b = Broadcaster::new();
    let (_, _, reply) = publish(&mut b, "t1", vec!["hello".into()]);
    assert_eq!(reply.status, 200);
    assert_eq!(reply.message, "");
    assert!(reply.values.is_empty());
    assert!(reply.pairs.is_empty());
}

#[test]
fn dispatch_subscribe_should_work() {
    let mut b = Broadcaster::new();
    let (_, first) = subscribe(&mut b, "t1");
    match first.values.as_slice() {
        [Value::Integer(id)] => assert!(*id > 0),
        _ => panic!("the first response carries the id"),
    }
}

#[test]
fn dispatch_unsubscribe_should_work() {
    let mut b = Broadcaster::new();
    let (id, _) = subscribe(&mut b, "t1");
    let r = unsubscribe(&mut b, "t1", id);
    assert_eq!(r.status, 200);
    assert_eq!(r.message, "");
    assert!(r.values.is_empty());
    assert!(r.pairs.is_empty());
}

#[test]
fn sweep_keeps_live_members_and_drops_empty_topics() {
    let mut b = Broadcaster::new();
    let (a1, _) = subscribe(&mut b, "a");
    let (a2, _) = subscribe(&mut b, "a");
    let (c1, _) = subscribe(&mut b, "c");
    b.sweep("a", &vec![a1]);
    assert_eq!(b.publish("a"), vec![a2]);
    b.sweep("c", &vec![c1]);
    assert!(b.publish("c").is_empty());
    assert!(b.unsubscribe("c", c1).is_err());
    assert_eq!(b.unsubscribe("a", a2), Ok(a2));
}
