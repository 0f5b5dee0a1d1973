//! The parameters of calls: objects whose members are texts, numbers, flags or nothing.
use vstd::prelude::*;

use crate::json::Json;
use crate::text::maybe;

verus! {

/// A parameter.
pub ghost enum Value {
    Text(Seq<char>),
    Number(nat),
    Flag(bool),
    Nothing,
    /// Something that is no plain parameter.
    Other,
}

pub open spec fn plain(v: Json) -> Value {
    match v {
        Json::Text(t) => Value::Text(t@),
        Json::Unsigned(n) => Value::Number(n as nat),
        Json::Bool(b) => Value::Flag(b),
        Json::Null => Value::Nothing,
        _ => Value::Other,
    }
}

/// A text, or nothing.
pub open spec fn optional(t: Option<Seq<char>>) -> Value {
    match t {
        Some(s) => Value::Text(s),
        None => Value::Nothing,
    }
}

pub open spec fn plain_fields(fields: Seq<(String, Json)>) -> Seq<(Seq<char>, Value)> {
    fields.map_values(|f: (String, Json)| (f.0@, plain(f.1)))
}

/// A value is an object of these parameters, in this order.
pub open spec fn is_params(v: Json, p: Seq<(Seq<char>, Value)>) -> bool {
    v is Object && plain_fields(v.fields()) == p
}

/// Parameters that are being put together.
pub struct Params {
    fields: Vec<(String, Json)>,
}

impl Params {
    pub closed spec fn view(&self) -> Seq<(Seq<char>, Value)> {
        plain_fields(self.fields@)
    }

    pub fn new() -> (r: Params)
        ensures
            r@ == Seq::<(Seq<char>, Value)>::empty(),
    {
        let r = Params { fields: Vec::new() };
        assert(r@ =~= Seq::empty());
        r
    }

    fn add(self, name: &str, value: Json) -> (r: Params)
        ensures
            r@ == self@.push((name@, plain(value))),
    {
        let mut r = self;
        let ghost before = r.fields@;
        r.fields.push((String::from_str(name), value));
        assert(plain_fields(r.fields@) =~= plain_fields(before).push((name@, plain(value))));
        r
    }

    pub fn text(self, name: &str, value: &str) -> (r: Params)
        ensures
            r@ == self@.push((name@, Value::Text(value@))),
    {
        self.add(name, Json::Text(String::from_str(value)))
    }

    pub fn number(self, name: &str, value: u64) -> (r: Params)
        ensures
            r@ == self@.push((name@, Value::Number(value as nat))),
    {
        self.add(name, Json::Unsigned(value))
    }

    pub fn flag(self, name: &str, value: bool) -> (r: Params)
        ensures
            r@ == self@.push((name@, Value::Flag(value))),
    {
        self.add(name, Json::Bool(value))
    }

    pub fn maybe(self, name: &str, value: &Option<String>) -> (r: Params)
        ensures
            r@ == self@.push((name@, optional(maybe(*value)))),
    {
        match value {
            Some(t) => self.text(name, t),
            None => self.add(name, Json::Null),
        }
    }

    pub fn done(self) -> (r: Json)
        ensures
            is_params(r, self@),
    {
        Json::Object(self.fields)
    }
}

/// A call: what is asked for, and by what.
pub struct Request {
    pub method: String,
    pub params: Json,
}

/// A call is one of a method with parameters.
pub open spec fn asks(r: Request, method: Seq<char>, params: Seq<(Seq<char>, Value)>) -> bool {
    r.method@ == method && is_params(r.params, params)
}

/// A call of a method.
pub fn asking(method: &str, params: Params) -> (r: Request)
    ensures
        asks(r, method@, params@),
{
    Request { method: String::from_str(method), params: params.done() }
}

} // verus!
