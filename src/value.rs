//! Values and key/value pairs, the data that commands carry.
use vstd::prelude::*;

verus! {

/// A stored or transmitted value.
#[derive(Debug, Clone, PartialEq, PartialOrd)]
pub enum Value {
    /// The default value: it holds nothing.
    Null,
    String(String),
    Binary(Vec<u8>),
    Integer(i64),
    Bool(bool),
}

/// What a `Value` holds, as mathematical data.
pub enum ValueModel {
    Null,
    Text(Seq<char>),
    Binary(Seq<u8>),
    Integer(i64),
    Bool(bool),
}

impl View for Value {
    type V = ValueModel;

    open spec fn view(&self) -> ValueModel {
        match self {
            Value::Null => ValueModel::Null,
            Value::String(s) => ValueModel::Text(s@),
            Value::Binary(b) => ValueModel::Binary(b@),
            Value::Integer(i) => ValueModel::Integer(*i),
            Value::Bool(x) => ValueModel::Bool(*x),
        }
    }
}

impl Value {
    /// A value that holds the text `s`.
    pub fn text(s: &str) -> (r: Value)
        ensures
            r@ == ValueModel::Text(s@),
    {
        Value::String(s.to_string())
    }

    /// A copy of this value.
    pub fn copy(&self) -> (r: Value)
        ensures
            r@ == self@,
    {
        match self {
            Value::Null => Value::Null,
            Value::String(s) => Value::String(s.clone()),
            Value::Binary(b) => Value::Binary(vstd::slice::slice_to_vec(b.as_slice())),
            Value::Integer(i) => Value::Integer(*i),
            Value::Bool(x) => Value::Bool(*x),
        }
    }
}

/// Whether `a` and `b` hold the same bytes.
fn same_bytes(a: &Vec<u8>, b: &Vec<u8>) -> (r: bool)
    ensures
        r == (a@ == b@),
{
    if a.len() != b.len() {
        return false;
    }
    let mut i: usize = 0;
    while i < a.len()
        invariant
            a@.len() == b@.len(),
            i <= a@.len(),
            forall|j: int| 0 <= j < i ==> a@[j] == b@[j],
        decreases a@.len() - i,
    {
        if a[i] != b[i] {
            return false;
        }
        i = i + 1;
    }
    assert(a@ =~= b@);
    true
}

impl Value {
    /// Whether this value and `other` hold the same thing.
    pub fn same(&self, other: &Value) -> (r: bool)
        ensures
            r == (self@ == other@),
    {
        match self {
            Value::Null => match other {
                Value::Null => true,
                _ => false,
            },
            Value::String(a) => match other {
                Value::String(b) => *a == *b,
                _ => false,
            },
            Value::Binary(a) => match other {
                Value::Binary(b) => same_bytes(a, b),
                _ => false,
            },
            Value::Integer(a) => match other {
                Value::Integer(b) => *a == *b,
                _ => false,
            },
            Value::Bool(a) => match other {
                Value::Bool(b) => *a == *b,
                _ => false,
            },
        }
    }
}

impl Kvpair {
    /// Whether this pair and `other` hold the same key and value.
    pub fn same(&self, other: &Kvpair) -> (r: bool)
        ensures
            r == (self@ == other@),
    {
        self.key == other.key && self.value.same(&other.value)
    }
}

impl Default for Value {
    fn default() -> (r: Value)
        ensures
            r@ == ValueModel::Null,
    {
        Value::Null
    }
}

impl From<i64> for Value {
    fn from(v: i64) -> (r: Value) {
        Value::Integer(v)
    }
}

impl vstd::std_specs::convert::FromSpecImpl<i64> for Value {
    open spec fn obeys_from_spec() -> bool {
        true
    }

    open spec fn from_spec(v: i64) -> Value {
        Value::Integer(v)
    }
}

impl From<bool> for Value {
    fn from(v: bool) -> (r: Value) {
        Value::Bool(v)
    }
}

impl vstd::std_specs::convert::FromSpecImpl<bool> for Value {
    open spec fn obeys_from_spec() -> bool {
        true
    }

    open spec fn from_spec(v: bool) -> Value {
        Value::Bool(v)
    }
}

impl From<String> for Value {
    fn from(v: String) -> (r: Value) {
        Value::String(v)
    }
}

impl vstd::std_specs::convert::FromSpecImpl<String> for Value {
    open spec fn obeys_from_spec() -> bool {
        true
    }

    open spec fn from_spec(v: String) -> Value {
        Value::String(v)
    }
}

impl From<Vec<u8>> for Value {
    fn from(v: Vec<u8>) -> (r: Value) {
        Value::Binary(v)
    }
}

impl vstd::std_specs::convert::FromSpecImpl<Vec<u8>> for Value {
    open spec fn obeys_from_spec() -> bool {
        true
    }

    open spec fn from_spec(v: Vec<u8>) -> Value {
        Value::Binary(v)
    }
}

/// Text borrowed as a `&str` becomes a new `String`: no spec function can
/// name that string, so this conversion states nothing; `Value::text`
/// states what it builds.
impl From<&str> for Value {
    fn from(v: &str) -> (r: Value) {
        Value::text(v)
    }
}

impl vstd::std_specs::convert::FromSpecImpl<&str> for Value {
    open spec fn obeys_from_spec() -> bool {
        false
    }

    open spec fn from_spec(v: &str) -> Value {
        Value::Null
    }
}

/// A key with its value.
#[derive(Debug, Clone, PartialEq, PartialOrd)]
pub struct Kvpair {
    pub key: String,
    pub value: Value,
}

/// A key/value pair as mathematical data.
pub struct PairModel {
    pub key: Seq<char>,
    pub value: ValueModel,
}

impl View for Kvpair {
    type V = PairModel;

    open spec fn view(&self) -> PairModel {
        PairModel { key: self.key@, value: self.value@ }
    }
}

impl Kvpair {
    pub fn new(key: &str, value: Value) -> (r: Kvpair)
        ensures
            r.key@ == key@,
            r.value == value,
    {
        Kvpair { key: key.to_string(), value }
    }

    /// A copy of this pair.
    pub fn copy(&self) -> (r: Kvpair)
        ensures
            r@ == self@,
    {
        Kvpair { key: self.key.clone(), value: self.value.copy() }
    }
}

impl Default for Kvpair {
    fn default() -> (r: Kvpair)
        ensures
            r@.key.len() == 0,
            r@.value == ValueModel::Null,
    {
        Kvpair { key: String::new(), value: Value::Null }
    }
}

/// The models of a sequence of values.
pub open spec fn values_view(vs: Seq<Value>) -> Seq<ValueModel> {
    vs.map_values(|v: Value| v@)
}

/// The models of a sequence of pairs.
pub open spec fn pairs_view(ps: Seq<Kvpair>) -> Seq<PairModel> {
    ps.map_values(|p: Kvpair| p@)
}

} // verus!
