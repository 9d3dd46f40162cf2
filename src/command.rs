//! Requests and responses exchanged between clients and the service.
use vstd::prelude::*;
use crate::value::{Kvpair, PairModel, Value, ValueModel, pairs_view, values_view};

verus! {

#[derive(Debug, Clone, PartialEq)]
pub struct Hget {
    pub table: String,
    pub key: String,
}

#[derive(Debug, Clone, PartialEq)]
pub struct Hgetall {
    pub table: String,
}

#[derive(Debug, Clone, PartialEq)]
pub struct Hmget {
    pub table: String,
    pub keys: Vec<String>,
}

#[derive(Debug, Clone, PartialEq)]
pub struct Hset {
    pub table: String,
    pub pair: Kvpair,
}

#[derive(Debug, Clone, PartialEq)]
pub struct Hmset {
    pub table: String,
    pub pairs: Vec<Kvpair>,
}

#[derive(Debug, Clone, PartialEq)]
pub struct Hdel {
    pub table: String,
    pub key: String,
}

#[derive(Debug, Clone, PartialEq)]
pub struct Hmdel {
    pub table: String,
    pub keys: Vec<String>,
}

#[derive(Debug, Clone, PartialEq)]
pub struct Hexist {
    pub table: String,
    pub key: String,
}

#[derive(Debug, Clone, PartialEq)]
pub struct Hmexist {
    pub table: String,
    pub keys: Vec<String>,
}

#[derive(Debug, Clone, PartialEq)]
pub struct Subscribe {
    pub topic: String,
}

#[derive(Debug, Clone, PartialEq)]
pub struct Unsubscribe {
    pub topic: String,
    pub id: u32,
}

#[derive(Debug, Clone, PartialEq)]
pub struct Publish {
    pub topic: String,
    pub data: Vec<Value>,
}

/// The command that a request carries.
#[derive(Debug, Clone, PartialEq)]
pub enum RequestData {
    Hget(Hget),
    Hgetall(Hgetall),
    Hmget(Hmget),
    Hset(Hset),
    Hmset(Hmset),
    Hdel(Hdel),
    Hmdel(Hmdel),
    Hexist(Hexist),
    Hmexist(Hmexist),
    Subscribe(Subscribe),
    Unsubscribe(Unsubscribe),
    Publish(Publish),
}

/// A request; one without data is rejected by the service.
#[derive(Debug, Clone, PartialEq)]
pub struct CommandRequest {
    pub request_data: Option<RequestData>,
}

/// A command as mathematical data.
pub enum RequestModel {
    Hget { table: Seq<char>, key: Seq<char> },
    Hgetall { table: Seq<char> },
    Hmget { table: Seq<char>, keys: Seq<Seq<char>> },
    Hset { table: Seq<char>, pair: PairModel },
    Hmset { table: Seq<char>, pairs: Seq<PairModel> },
    Hdel { table: Seq<char>, key: Seq<char> },
    Hmdel { table: Seq<char>, keys: Seq<Seq<char>> },
    Hexist { table: Seq<char>, key: Seq<char> },
    Hmexist { table: Seq<char>, keys: Seq<Seq<char>> },
    Subscribe { topic: Seq<char> },
    Unsubscribe { topic: Seq<char>, id: u32 },
    Publish { topic: Seq<char>, data: Seq<ValueModel> },
}

/// The models of a sequence of strings.
pub open spec fn keys_view(ks: Seq<String>) -> Seq<Seq<char>> {
    ks.map_values(|k: String| k@)
}

impl View for RequestData {
    type V = RequestModel;

    open spec fn view(&self) -> RequestModel {
        match self {
            RequestData::Hget(c) => RequestModel::Hget { table: c.table@, key: c.key@ },
            RequestData::Hgetall(c) => RequestModel::Hgetall { table: c.table@ },
            RequestData::Hmget(c) => RequestModel::Hmget {
                table: c.table@,
                keys: keys_view(c.keys@),
            },
            RequestData::Hset(c) => RequestModel::Hset { table: c.table@, pair: c.pair@ },
            RequestData::Hmset(c) => RequestModel::Hmset {
                table: c.table@,
                pairs: pairs_view(c.pairs@),
            },
            RequestData::Hdel(c) => RequestModel::Hdel { table: c.table@, key: c.key@ },
            RequestData::Hmdel(c) => RequestModel::Hmdel {
                table: c.table@,
                keys: keys_view(c.keys@),
            },
            RequestData::Hexist(c) => RequestModel::Hexist { table: c.table@, key: c.key@ },
            RequestData::Hmexist(c) => RequestModel::Hmexist {
                table: c.table@,
                keys: keys_view(c.keys@),
            },
            RequestData::Subscribe(c) => RequestModel::Subscribe { topic: c.topic@ },
            RequestData::Unsubscribe(c) => RequestModel::Unsubscribe {
                topic: c.topic@,
                id: c.id,
            },
            RequestData::Publish(c) => RequestModel::Publish {
                topic: c.topic@,
                data: values_view(c.data@),
            },
        }
    }
}

impl View for CommandRequest {
    type V = Option<RequestModel>;

    open spec fn view(&self) -> Option<RequestModel> {
        match self.request_data {
            Some(d) => Some(d@),
            None => None,
        }
    }
}

impl CommandRequest {
    pub fn new_hget(table: &str, key: &str) -> (r: CommandRequest)
        ensures
            r@ == Some(RequestModel::Hget { table: table@, key: key@ }),
    {
        let c = Hget { table: table.to_string(), key: key.to_string() };
        CommandRequest { request_data: Some(RequestData::Hget(c)) }
    }

    pub fn new_hgetall(table: &str) -> (r: CommandRequest)
        ensures
            r@ == Some(RequestModel::Hgetall { table: table@ }),
    {
        CommandRequest { request_data: Some(RequestData::Hgetall(Hgetall { table: table.to_string() })) }
    }

    pub fn new_hmget(table: &str, keys: Vec<String>) -> (r: CommandRequest)
        ensures
            r@ == Some(RequestModel::Hmget { table: table@, keys: keys_view(keys@) }),
    {
        let c = Hmget { table: table.to_string(), keys };
        CommandRequest { request_data: Some(RequestData::Hmget(c)) }
    }

    pub fn new_hset(table: &str, key: &str, value: Value) -> (r: CommandRequest)
        ensures
            r@ == Some(
                RequestModel::Hset { table: table@, pair: PairModel { key: key@, value: value@ } },
            ),
    {
        let c = Hset { table: table.to_string(), pair: Kvpair::new(key, value) };
        CommandRequest { request_data: Some(RequestData::Hset(c)) }
    }

    pub fn new_hmset(table: &str, pairs: Vec<Kvpair>) -> (r: CommandRequest)
        ensures
            r@ == Some(RequestModel::Hmset { table: table@, pairs: pairs_view(pairs@) }),
    {
        let c = Hmset { table: table.to_string(), pairs };
        CommandRequest { request_data: Some(RequestData::Hmset(c)) }
    }

    pub fn new_hdel(table: &str, key: &str) -> (r: CommandRequest)
        ensures
            r@ == Some(RequestModel::Hdel { table: table@, key: key@ }),
    {
        let c = Hdel { table: table.to_string(), key: key.to_string() };
        CommandRequest { request_data: Some(RequestData::Hdel(c)) }
    }

    pub fn new_hmdel(table: &str, keys: Vec<String>) -> (r: CommandRequest)
        ensures
            r@ == Some(RequestModel::Hmdel { table: table@, keys: keys_view(keys@) }),
    {
        let c = Hmdel { table: table.to_string(), keys };
        CommandRequest { request_data: Some(RequestData::Hmdel(c)) }
    }

    pub fn new_hexist(table: &str, key: &str) -> (r: CommandRequest)
        ensures
            r@ == Some(RequestModel::Hexist { table: table@, key: key@ }),
    {
        let c = Hexist { table: table.to_string(), key: key.to_string() };
        CommandRequest { request_data: Some(RequestData::Hexist(c)) }
    }

    pub fn new_hmexist(table: &str, keys: Vec<String>) -> (r: CommandRequest)
        ensures
            r@ == Some(RequestModel::Hmexist { table: table@, keys: keys_view(keys@) }),
    {
        let c = Hmexist { table: table.to_string(), keys };
        CommandRequest { request_data: Some(RequestData::Hmexist(c)) }
    }

    pub fn new_subscribe(topic: &str) -> (r: CommandRequest)
        ensures
            r@ == Some(RequestModel::Subscribe { topic: topic@ }),
    {
        let c = Subscribe { topic: topic.to_string() };
        CommandRequest { request_data: Some(RequestData::Subscribe(c)) }
    }

    pub fn new_unsubscribe(topic: &str, id: u32) -> (r: CommandRequest)
        ensures
            r@ == Some(RequestModel::Unsubscribe { topic: topic@, id }),
    {
        let c = Unsubscribe { topic: topic.to_string(), id };
        CommandRequest { request_data: Some(RequestData::Unsubscribe(c)) }
    }

    pub fn new_publish(topic: &str, data: Vec<Value>) -> (r: CommandRequest)
        ensures
            r@ == Some(RequestModel::Publish { topic: topic@, data: values_view(data@) }),
    {
        let c = Publish { topic: topic.to_string(), data };
        CommandRequest { request_data: Some(RequestData::Publish(c)) }
    }
}

/// The answer to a request. `status` follows HTTP's codes; `message` is
/// empty on success.
#[derive(Debug, Clone, PartialEq)]
pub struct CommandResponse {
    pub status: u32,
    pub message: String,
    pub values: Vec<Value>,
    pub pairs: Vec<Kvpair>,
}

/// A response as mathematical data.
pub struct ResponseModel {
    pub status: u32,
    pub message: Seq<char>,
    pub values: Seq<ValueModel>,
    pub pairs: Seq<PairModel>,
}

impl View for CommandResponse {
    type V = ResponseModel;

    open spec fn view(&self) -> ResponseModel {
        ResponseModel {
            status: self.status,
            message: self.message@,
            values: values_view(self.values@),
            pairs: pairs_view(self.pairs@),
        }
    }
}

/// A successful response that carries `values` and `pairs`.
pub open spec fn ok_model(values: Seq<ValueModel>, pairs: Seq<PairModel>) -> ResponseModel {
    ResponseModel { status: 200, message: Seq::empty(), values, pairs }
}

impl CommandResponse {
    /// A successful response with nothing in it.
    pub fn ok() -> (r: CommandResponse)
        ensures
            r@ == ok_model(Seq::empty(), Seq::empty()),
    {
        let r = CommandResponse {
            status: 200,
            message: String::new(),
            values: Vec::new(),
            pairs: Vec::new(),
        };
        assert(r@.values =~= Seq::<ValueModel>::empty());
        assert(r@.pairs =~= Seq::<PairModel>::empty());
        r
    }

    /// A successful response that carries `values`.
    pub fn with_values(values: Vec<Value>) -> (r: CommandResponse)
        ensures
            r@ == ok_model(values_view(values@), Seq::empty()),
    {
        let r = CommandResponse { status: 200, message: String::new(), values, pairs: Vec::new() };
        assert(r@.pairs =~= Seq::<PairModel>::empty());
        r
    }

    /// A successful response that carries `pairs`.
    pub fn with_pairs(pairs: Vec<Kvpair>) -> (r: CommandResponse)
        ensures
            r@ == ok_model(Seq::empty(), pairs_view(pairs@)),
    {
        let r = CommandResponse { status: 200, message: String::new(), values: Vec::new(), pairs };
        assert(r@.values =~= Seq::<ValueModel>::empty());
        r
    }
}

impl From<Value> for CommandResponse {
    fn from(v: Value) -> (r: CommandResponse) {
        let mut values = Vec::new();
        values.push(v);
        CommandResponse::with_values(values)
    }
}

impl vstd::std_specs::convert::FromSpecImpl<Value> for CommandResponse {
    open spec fn obeys_from_spec() -> bool {
        false
    }

    open spec fn from_spec(v: Value) -> CommandResponse {
        arbitrary()
    }
}

} // verus!
