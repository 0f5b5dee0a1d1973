//! What is answered over the wire: values as they are read, whatever holds them.
use vstd::prelude::*;

use crate::json::{lemma_item_below, lemma_member_below, Json};
use crate::text::maybe;

verus! {

/// What a value says.
pub ghost enum Shown {
    Nothing,
    Flag(bool),
    Number(int),
    Text(Seq<char>),
    List(Seq<Shown>),
    Fields(Seq<(Seq<char>, Shown)>),
    /// A number that is no integer.
    Other(Seq<char>),
}

pub open spec fn shown(v: Json) -> Shown
    decreases v,
{
    match v {
        Json::Null => Shown::Nothing,
        Json::Bool(b) => Shown::Flag(b),
        Json::Unsigned(n) => Shown::Number(n as int),
        Json::Negative(n) => Shown::Number(n as int),
        Json::Float(t) => Shown::Other(t@),
        Json::Text(t) => Shown::Text(t@),
        Json::Array(items) => Shown::List(
            Seq::new(
                items@.len(),
                |i: int|
                    if 0 <= i < items@.len() {
                        shown(items@[i])
                    } else {
                        Shown::Nothing
                    },
            ),
        ),
        Json::Object(fields) => Shown::Fields(
            Seq::new(
                fields@.len(),
                |i: int|
                    if 0 <= i < fields@.len() {
                        (fields@[i].0@, shown(fields@[i].1))
                    } else {
                        (Seq::empty(), Shown::Nothing)
                    },
            ),
        ),
    }
}

/// A text, or nothing.
pub open spec fn maybe_text(t: Option<Seq<char>>) -> Shown {
    match t {
        Some(t) => Shown::Text(t),
        None => Shown::Nothing,
    }
}

pub open spec fn shown_texts(v: Seq<String>) -> Shown {
    Shown::List(v.map_values(|t: String| Shown::Text(t@)))
}

pub open spec fn no_fields() -> Seq<(Seq<char>, Shown)> {
    Seq::empty()
}

/// An answer that is being put together.
pub struct Fields {
    fields: Vec<(String, Json)>,
}

impl Fields {
    pub closed spec fn view(&self) -> Seq<(Seq<char>, Shown)> {
        match shown(Json::Object(self.fields)) {
            Shown::Fields(f) => f,
            _ => Seq::empty(),
        }
    }

    pub fn new() -> (r: Fields)
        ensures
            r@ == no_fields(),
    {
        let r = Fields { fields: Vec::new() };
        assert(r@ =~= Seq::empty());
        r
    }

    pub fn add(self, name: &str, value: Json) -> (r: Fields)
        ensures
            r@ == self@.push((name@, shown(value))),
    {
        let mut r = self;
        r.fields.push((String::from_str(name), value));
        assert(r@ =~= self@.push((name@, shown(value))));
        r
    }

    pub fn text(self, name: &str, value: &str) -> (r: Fields)
        ensures
            r@ == self@.push((name@, Shown::Text(value@))),
    {
        self.add(name, Json::Text(String::from_str(value)))
    }

    pub fn maybe(self, name: &str, value: &Option<String>) -> (r: Fields)
        ensures
            r@ == self@.push((name@, maybe_text(maybe(*value)))),
    {
        match value {
            Some(t) => self.text(name, t),
            None => self.add(name, Json::Null),
        }
    }

    pub fn nothing(self, name: &str) -> (r: Fields)
        ensures
            r@ == self@.push((name@, Shown::Nothing)),
    {
        self.add(name, Json::Null)
    }

    pub fn number(self, name: &str, value: u64) -> (r: Fields)
        ensures
            r@ == self@.push((name@, Shown::Number(value as int))),
    {
        self.add(name, Json::Unsigned(value))
    }

    pub fn flag(self, name: &str, value: bool) -> (r: Fields)
        ensures
            r@ == self@.push((name@, Shown::Flag(value))),
    {
        self.add(name, Json::Bool(value))
    }

    pub fn list(self, name: &str, value: &Vec<String>) -> (r: Fields)
        ensures
            r@ == self@.push((name@, shown_texts(value@))),
    {
        self.add(name, texts_value(value))
    }

    pub fn done(self) -> (r: Json)
        ensures
            shown(r) == Shown::Fields(self@),
    {
        Json::Object(self.fields)
    }
}

/// A list of texts.
pub fn texts_value(v: &Vec<String>) -> (r: Json)
    ensures
        shown(r) == shown_texts(v@),
{
    let mut items: Vec<Json> = Vec::new();
    let mut i: usize = 0;
    while i < v.len()
        invariant
            i <= v@.len(),
            items@.len() == i,
            forall|j: int| 0 <= j < i ==> shown(#[trigger] items@[j]) == Shown::Text(v@[j]@),
        decreases v@.len() - i,
    {
        items.push(Json::Text(v[i].clone()));
        i += 1;
    }
    let r = Json::Array(items);
    proof {
        let l = shown(r)->List_0;
        assert(l =~= v@.map_values(|t: String| Shown::Text(t@)));
    }
    r
}

impl Json {
    /// A value that says the same.
    pub fn copy(&self) -> (r: Json)
        ensures
            shown(r) == shown(*self),
        decreases self,
    {
        match self {
            Json::Null => Json::Null,
            Json::Bool(b) => Json::Bool(*b),
            Json::Unsigned(n) => Json::Unsigned(*n),
            Json::Negative(n) => Json::Negative(*n),
            Json::Float(t) => Json::Float(t.clone()),
            Json::Text(t) => Json::Text(t.clone()),
            Json::Array(items) => {
                let mut copies: Vec<Json> = Vec::new();
                let mut i: usize = 0;
                while i < items.len()
                    invariant
                        *self == Json::Array(*items),
                        i <= items@.len(),
                        copies@.len() == i,
                        forall|j: int|
                            0 <= j < i ==> shown(#[trigger] copies@[j]) == shown(items@[j]),
                    decreases items@.len() - i,
                {
                    proof {
                        lemma_item_below(*self, *items, i as int);
                    }
                    copies.push(items[i].copy());
                    i += 1;
                }
                let r = Json::Array(copies);
                assert(shown(r)->List_0 =~= shown(*self)->List_0);
                r
            },
            Json::Object(fields) => {
                let mut copies: Vec<(String, Json)> = Vec::new();
                let mut i: usize = 0;
                while i < fields.len()
                    invariant
                        *self == Json::Object(*fields),
                        i <= fields@.len(),
                        copies@.len() == i,
                        forall|j: int|
                            0 <= j < i ==> (#[trigger] copies@[j]).0@ == fields@[j].0@ && shown(
                                copies@[j].1,
                            ) == shown(fields@[j].1),
                    decreases fields@.len() - i,
                {
                    proof {
                        lemma_member_below(*self, *fields, i as int);
                    }
                    copies.push((fields[i].0.clone(), fields[i].1.copy()));
                    i += 1;
                }
                let r = Json::Object(copies);
                assert(shown(r)->Fields_0 =~= shown(*self)->Fields_0);
                r
            },
        }
    }
}

/// An integer.
pub fn integer(n: i32) -> (r: Json)
    ensures
        shown(r) == Shown::Number(n as int),
{
    if n < 0 {
        Json::Negative(n as i64)
    } else {
        Json::Unsigned(n as u64)
    }
}

} // verus!
