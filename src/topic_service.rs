//! Publish/subscribe commands run against the broadcaster.
use vstd::prelude::*;
use crate::command::{CommandResponse, ResponseModel, ok_model};
use crate::service::TopicRequest;
use crate::topic::{Broadcaster, after_join, after_leave, decimal, members};
use crate::value::{Value, ValueModel, values_view};

verus! {

/// A response that reports a failure with `status` and `message` and
/// carries nothing else.
pub open spec fn failure(status: u32, message: Seq<char>) -> ResponseModel {
    ResponseModel { status, message, values: Seq::empty(), pairs: Seq::empty() }
}

/// What running a publish/subscribe command leaves to deliver.
pub enum TopicOutcome {
    /// A new subscription: its receiver gets `first`, which carries `id`,
    /// then each publication on its topic.
    Subscribed { id: u32, first: CommandResponse },
    /// A publication: `payload` goes to each of `targets`, and `reply`
    /// answers the publisher.
    Published { targets: Vec<u32>, payload: CommandResponse, reply: CommandResponse },
    /// The one response to the request.
    Reply(CommandResponse),
}

/// Runs a publish/subscribe command against `b`.
pub fn dispatch_stream(cmd: TopicRequest, b: &mut Broadcaster) -> (r: TopicOutcome)
    requires
        old(b).wf(),
    ensures
        final(b).wf(),
        match cmd {
            TopicRequest::Subscribe(s) => if old(b).next_id() < u32::MAX {
                r matches TopicOutcome::Subscribed { id, first } && id == old(b).next_id() && id >= 1
                    && !old(b).live().contains(id) && first@ == ok_model(
                    seq![ValueModel::Integer(id as i64)],
                    Seq::empty(),
                ) && final(b).live() == old(b).live().insert(id) && final(b).topics() == after_join(
                    old(b).topics(),
                    s.topic@,
                    id,
                )
            } else {
                r matches TopicOutcome::Reply(x) && x@ == failure(
                    500,
                    "Internal error: "@ + "subscription ids have run out"@,
                ) && *final(b) == *old(b)
            },
            TopicRequest::Unsubscribe(u) => {
                &&& r matches TopicOutcome::Reply(x) && if old(b).live().contains(u.id) {
                    x@ == ok_model(Seq::empty(), Seq::empty())
                } else {
                    x@ == failure(404, "Not found: "@ + ("subscription "@ + decimal(u.id)))
                }
                &&& final(b).live() == old(b).live().remove(u.id)
                &&& final(b).topics() == after_leave(old(b).topics(), u.topic@, u.id)
            },
            TopicRequest::Publish(p) => {
                &&& r matches TopicOutcome::Published { targets, payload, reply } && targets@.no_duplicates()
                    && (forall|x: u32|
                    targets@.contains(x) <==> members(old(b).topics(), p.topic@).contains(x) && old(
                        b,
                    ).live().contains(x)) && payload@ == ok_model(values_view(p.data@), Seq::empty())
                    && reply@ == ok_model(Seq::empty(), Seq::empty())
                &&& *final(b) == *old(b)
            },
        },
{
    match cmd {
        TopicRequest::Subscribe(s) => match b.subscribe(s.topic.as_str()) {
            Ok(id) => {
                let mut vs: Vec<Value> = Vec::new();
                vs.push(Value::Integer(id as i64));
                assert(values_view(vs@) =~= seq![ValueModel::Integer(id as i64)]);
                TopicOutcome::Subscribed { id, first: CommandResponse::with_values(vs) }
            },
            Err(e) => TopicOutcome::Reply(CommandResponse::from_error(&e)),
        },
        TopicRequest::Unsubscribe(u) => match b.unsubscribe(u.topic.as_str(), u.id) {
            Ok(_) => TopicOutcome::Reply(CommandResponse::ok()),
            Err(e) => TopicOutcome::Reply(CommandResponse::from_error(&e)),
        },
        TopicRequest::Publish(p) => {
            let targets = b.publish(p.topic.as_str());
            TopicOutcome::Published {
                targets,
                payload: CommandResponse::with_values(p.data),
                reply: CommandResponse::ok(),
            }
        },
    }
}

} // verus!
