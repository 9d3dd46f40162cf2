//! Dispatch of requests, and the service pipeline with its observer hooks.
use vstd::prelude::*;
use vstd::string::StringExecFns;
use crate::command::{
    CommandRequest, CommandResponse, Publish, RequestData, RequestModel, ResponseModel, Subscribe,
    Unsubscribe,
};
use crate::command_service::{CommandService, command_effect};
use crate::error::KvError;
use crate::storage::{Contents, Storage};

verus! {

/// The answer to a request that carries no command.
pub open spec fn no_data() -> ResponseModel {
    ResponseModel {
        status: 400,
        message: "Invalid command: "@ + "Request has no data"@,
        values: Seq::empty(),
        pairs: Seq::empty(),
    }
}

/// Whether answering `r` and leaving `m2` is what request `cmd` does to a
/// store that held `m`.
pub open spec fn dispatched(cmd: Option<RequestModel>, m: Contents, r: ResponseModel, m2: Contents) -> bool {
    match cmd {
        None => m2 == m && r == no_data(),
        Some(c) => command_effect(c, m, r, m2),
    }
}

/// Whether `c` is a publish/subscribe command.
pub open spec fn is_topic_command(c: RequestModel) -> bool {
    c is Subscribe || c is Unsubscribe || c is Publish
}

/// Whether `cmd` carries a command that the store runs.
pub open spec fn is_storage_request(cmd: Option<RequestModel>) -> bool {
    cmd matches Some(c) && !is_topic_command(c)
}

/// Runs a storage command against `store`.
pub fn dispatch<S: Storage>(cmd: CommandRequest, store: &mut S) -> (r: CommandResponse)
    requires
        old(store).well_formed(),
    ensures
        final(store).well_formed(),
        final(store).never_fails() == old(store).never_fails(),
        old(store).never_fails() ==> dispatched(cmd@, old(store).contents(), r@, final(store).contents()),
        r@.status != 500 && r@.status != 400 ==> dispatched(
            cmd@,
            old(store).contents(),
            r@,
            final(store).contents(),
        ),
        !is_storage_request(cmd@) ==> dispatched(
            cmd@,
            old(store).contents(),
            r@,
            final(store).contents(),
        ) && *final(store) == *old(store),
{
    match cmd.request_data {
        Some(RequestData::Hget(c)) => c.execute(store),
        Some(RequestData::Hgetall(c)) => c.execute(store),
        Some(RequestData::Hmget(c)) => c.execute(store),
        Some(RequestData::Hset(c)) => c.execute(store),
        Some(RequestData::Hmset(c)) => c.execute(store),
        Some(RequestData::Hdel(c)) => c.execute(store),
        Some(RequestData::Hmdel(c)) => c.execute(store),
        Some(RequestData::Hexist(c)) => c.execute(store),
        Some(RequestData::Hmexist(c)) => c.execute(store),
        Some(_) => {
            let e = KvError::InvalidCommand(String::from_str("not a storage command"));
            CommandResponse::from_error(&e)
        },
        None => {
            let e = KvError::InvalidCommand(String::from_str("Request has no data"));
            CommandResponse::from_error(&e)
        },
    }
}

/// An observer that is told of a value.
pub trait Notify<Arg> {
    fn notify(&self, arg: &Arg);
}

/// An observer that may change the value it is told of.
pub trait NotifyMut<Arg> {
    /// What the observer makes of `arg`.
    spec fn rewrite(&self, arg: Arg) -> Arg;

    fn notify(&self, arg: &mut Arg)
        ensures
            *final(arg) == self.rewrite(*old(arg)),
    ;
}

/// `arg` as the observers of `hooks` leave it, first to last.
pub open spec fn rewrite_all<Arg, H: NotifyMut<Arg>>(hooks: Seq<H>, arg: Arg) -> Arg
    decreases hooks.len(),
{
    if hooks.len() == 0 {
        arg
    } else {
        hooks.last().rewrite(rewrite_all(hooks.drop_last(), arg))
    }
}

/// An observer that does nothing.
pub struct Silent;

impl<Arg> Notify<Arg> for Silent {
    fn notify(&self, arg: &Arg) {
    }
}

impl<Arg> NotifyMut<Arg> for Silent {
    open spec fn rewrite(&self, arg: Arg) -> Arg {
        arg
    }

    fn notify(&self, arg: &mut Arg) {
    }
}

/// An observer that gives each response the status it holds.
pub struct SetStatus(pub u32);

impl NotifyMut<CommandResponse> for SetStatus {
    open spec fn rewrite(&self, r: CommandResponse) -> CommandResponse {
        CommandResponse { status: self.0, message: r.message, values: r.values, pairs: r.pairs }
    }

    fn notify(&self, arg: &mut CommandResponse) {
        arg.status = self.0;
    }
}

/// Tells each observer of `hooks`, first to last, of `arg`.
pub fn notify_all<Arg, H: Notify<Arg>>(hooks: &Vec<H>, arg: &Arg) {
    let mut i: usize = 0;
    while i < hooks.len()
        decreases hooks@.len() - i,
    {
        hooks[i].notify(arg);
        i = i + 1;
    }
}

/// Hands `arg` to each observer of `hooks`, first to last; each may change it.
pub fn notify_all_mut<Arg, H: NotifyMut<Arg>>(hooks: &Vec<H>, arg: &mut Arg)
    ensures
        *final(arg) == rewrite_all(hooks@, *old(arg)),
{
    let mut i: usize = 0;
    while i < hooks.len()
        invariant
            i <= hooks@.len(),
            *arg == rewrite_all(hooks@.subrange(0, i as int), *old(arg)),
        decreases hooks@.len() - i,
    {
        proof {
            assert(hooks@.subrange(0, i + 1).drop_last() =~= hooks@.subrange(0, i as int));
        }
        hooks[i].notify(arg);
        i = i + 1;
    }
    assert(hooks@.subrange(0, i as int) =~= hooks@);
}

/// A publish/subscribe command, which the broadcaster runs.
pub enum TopicRequest {
    Subscribe(Subscribe),
    Unsubscribe(Unsubscribe),
    Publish(Publish),
}

/// What the service makes of a request.
pub enum Execution {
    /// The one response to a storage command, or to a refused request.
    Unary(CommandResponse),
    /// A publish/subscribe command for the broadcaster.
    Topic(TopicRequest),
}

/// A store and the observers registered for each point of a request's life.
/// Observers are registered while it is built and fixed from then on.
pub struct ServiceInner<Store, R = Silent, E = Silent, B = Silent, A = Silent> {
    store: Store,
    on_received: Vec<R>,
    on_executed: Vec<E>,
    on_before_send: Vec<B>,
    on_after_send: Vec<A>,
}

impl<Store, R, E, B, A> ServiceInner<Store, R, E, B, A> where
    Store: Storage,
    R: Notify<CommandRequest>,
    E: Notify<CommandResponse>,
    B: NotifyMut<CommandResponse>,
    A: Notify<()>,
 {
    /// The store.
    pub closed spec fn store_view(&self) -> Store {
        self.store
    }

    /// The observers of arriving requests, in the order they were added.
    pub closed spec fn received_hooks(&self) -> Seq<R> {
        self.on_received@
    }

    /// The observers of executed responses, in order.
    pub closed spec fn executed_hooks(&self) -> Seq<E> {
        self.on_executed@
    }

    /// The observers that may change a response before it is sent, in order.
    pub closed spec fn before_send_hooks(&self) -> Seq<B> {
        self.on_before_send@
    }

    /// The observers told after a response is sent, in order.
    pub closed spec fn after_send_hooks(&self) -> Seq<A> {
        self.on_after_send@
    }

    /// A service over `store`, with no observers.
    pub fn new(store: Store) -> (r: Self)
        ensures
            r.store_view() == store,
            r.received_hooks().len() == 0,
            r.executed_hooks().len() == 0,
            r.before_send_hooks().len() == 0,
            r.after_send_hooks().len() == 0,
    {
        ServiceInner {
            store,
            on_received: Vec::new(),
            on_executed: Vec::new(),
            on_before_send: Vec::new(),
            on_after_send: Vec::new(),
        }
    }

    /// Adds an observer of each request as it arrives.
    pub fn fn_received(self, f: R) -> (r: Self)
        ensures
            r.store_view() == self.store_view(),
            r.received_hooks() == self.received_hooks().push(f),
            r.executed_hooks() == self.executed_hooks(),
            r.before_send_hooks() == self.before_send_hooks(),
            r.after_send_hooks() == self.after_send_hooks(),
    {
        let mut s = self;
        s.on_received.push(f);
        s
    }

    /// Adds an observer of each response once its command has run.
    pub fn fn_executed(self, f: E) -> (r: Self)
        ensures
            r.store_view() == self.store_view(),
            r.received_hooks() == self.received_hooks(),
            r.executed_hooks() == self.executed_hooks().push(f),
            r.before_send_hooks() == self.before_send_hooks(),
            r.after_send_hooks() == self.after_send_hooks(),
    {
        let mut s = self;
        s.on_executed.push(f);
        s
    }

    /// Adds an observer that may change each response before it is sent.
    pub fn fn_before_send(self, f: B) -> (r: Self)
        ensures
            r.store_view() == self.store_view(),
            r.received_hooks() == self.received_hooks(),
            r.executed_hooks() == self.executed_hooks(),
            r.before_send_hooks() == self.before_send_hooks().push(f),
            r.after_send_hooks() == self.after_send_hooks(),
    {
        let mut s = self;
        s.on_before_send.push(f);
        s
    }

    /// Adds an observer told after each response is sent.
    pub fn fn_after_send(self, f: A) -> (r: Self)
        ensures
            r.store_view() == self.store_view(),
            r.received_hooks() == self.received_hooks(),
            r.executed_hooks() == self.executed_hooks(),
            r.before_send_hooks() == self.before_send_hooks(),
            r.after_send_hooks() == self.after_send_hooks().push(f),
    {
        let mut s = self;
        s.on_after_send.push(f);
        s
    }

    /// Runs `cmd`: a storage command against the store, whose response the
    /// observers see and may change; a publish/subscribe command is handed
    /// back for the broadcaster.
    pub fn execute(&mut self, cmd: CommandRequest) -> (r: Execution)
        requires
            old(self).store_view().well_formed(),
        ensures
            final(self).store_view().well_formed(),
            final(self).received_hooks() == old(self).received_hooks(),
            final(self).executed_hooks() == old(self).executed_hooks(),
            final(self).before_send_hooks() == old(self).before_send_hooks(),
            final(self).after_send_hooks() == old(self).after_send_hooks(),
            final(self).store_view().never_fails() == old(self).store_view().never_fails(),
            match cmd@ {
                Some(c) => if is_topic_command(c) {
                    r matches Execution::Topic(t) && final(self).store_view().contents() == old(
                        self,
                    ).store_view().contents() && match t {
                        TopicRequest::Subscribe(x) => c == RequestModel::Subscribe { topic: x.topic@ },
                        TopicRequest::Unsubscribe(x) => c == RequestModel::Unsubscribe {
                            topic: x.topic@,
                            id: x.id,
                        },
                        TopicRequest::Publish(x) => c == RequestModel::Publish {
                            topic: x.topic@,
                            data: crate::value::values_view(x.data@),
                        },
                    }
                } else {
                    r is Unary
                },
                None => r is Unary,
            },
            r matches Execution::Unary(x) ==> exists|r0: CommandResponse|
                #[trigger] rewrite_all(old(self).before_send_hooks(), r0) == x && (old(
                    self,
                ).store_view().never_fails() || (r0@.status != 500 && r0@.status != 400)
                    || !is_storage_request(cmd@) ==> dispatched(
                    cmd@,
                    old(self).store_view().contents(),
                    r0@,
                    final(self).store_view().contents(),
                )),
    {
        notify_all(&self.on_received, &cmd);
        let ghost c = cmd@;
        match cmd.request_data {
            Some(RequestData::Subscribe(x)) => Execution::Topic(TopicRequest::Subscribe(x)),
            Some(RequestData::Unsubscribe(x)) => Execution::Topic(TopicRequest::Unsubscribe(x)),
            Some(RequestData::Publish(x)) => Execution::Topic(TopicRequest::Publish(x)),
            data => {
                let mut res = dispatch(CommandRequest { request_data: data }, &mut self.store);
                let ghost r0 = res;
                notify_all(&self.on_executed, &res);
                notify_all_mut(&self.on_before_send, &mut res);
                assert(rewrite_all(self.on_before_send@, r0) == res);
                Execution::Unary(res)
            },
        }
    }

    /// Tells the observers that a response has been sent.
    pub fn notify_sent(&self) {
        notify_all(&self.on_after_send, &());
    }
}

} // verus!
