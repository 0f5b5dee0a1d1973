//! JSON values as plain data.
use vstd::prelude::*;

use crate::text::same;

verus! {

/// A JSON value. A number that is not an integer of 64 bits is kept as its text.
pub enum Json {
    Null,
    Bool(bool),
    Unsigned(u64),
    Negative(i64),
    /// A number that is no integer, as it is written: with a point or an exponent.
    Float(String),
    Text(String),
    Array(Vec<Json>),
    Object(Vec<(String, Json)>),
}

/// The value of the first member of that name.
pub open spec fn lookup(fields: Seq<(String, Json)>, key: Seq<char>) -> Option<Json>
    decreases fields.len(),
{
    if fields.len() == 0 {
        None
    } else if fields[0].0@ == key {
        Some(fields[0].1)
    } else {
        lookup(fields.drop_first(), key)
    }
}

/// No two members share a name.
pub open spec fn distinct(fields: Seq<(String, Json)>) -> bool {
    forall|i: int, j: int|
        0 <= i < j < fields.len() ==> #[trigger] fields[i].0@ != #[trigger] fields[j].0@
}

/// Every object in the value, at any depth, has distinct members.
pub open spec fn unambiguous(v: Json) -> bool
    decreases v,
{
    match v {
        Json::Array(items) => forall|i: int|
            0 <= i < items@.len() ==> unambiguous(#[trigger] items@[i]),
        Json::Object(fields) => distinct(fields@) && forall|i: int|
            0 <= i < fields@.len() ==> unambiguous((#[trigger] fields@[i]).1),
        _ => true,
    }
}

/// The text of a zero that is no integer, of either sign.
pub open spec fn is_zero(number: Seq<char>) -> bool {
    number == "0.0"@ || number == "-0.0"@
}

fn zero(number: &str) -> (r: bool)
    ensures
        r == is_zero(number@),
{
    same(number, "0.0") || same(number, "-0.0")
}

/// Equality of JSON values: arrays item by item, objects whatever the order of
/// their members. Numbers that are not integers are alike when their texts are, or when
/// both are zero.
pub open spec fn alike(a: Json, b: Json) -> bool
    decreases a,
{
    match (a, b) {
        (Json::Null, Json::Null) => true,
        (Json::Bool(x), Json::Bool(y)) => x == y,
        (Json::Unsigned(x), Json::Unsigned(y)) => x == y,
        (Json::Negative(x), Json::Negative(y)) => x == y,
        (Json::Float(x), Json::Float(y)) => x@ == y@ || is_zero(x@) && is_zero(y@),
        (Json::Text(x), Json::Text(y)) => x@ == y@,
        (Json::Array(x), Json::Array(y)) => {
            &&& x@.len() == y@.len()
            &&& forall|i: int| 0 <= i < x@.len() ==> alike(#[trigger] x@[i], y@[i])
        },
        (Json::Object(x), Json::Object(y)) => {
            &&& x@.len() == y@.len()
            &&& forall|i: int|
                0 <= i < x@.len() ==> match lookup(y@, (#[trigger] x@[i]).0@) {
                    Some(other) => alike(x@[i].1, other),
                    None => false,
                }
        },
        _ => false,
    }
}

impl Json {
    /// The members of an object; none for any other value.
    pub open spec fn fields(self) -> Seq<(String, Json)> {
        match self {
            Json::Object(f) => f@,
            _ => Seq::empty(),
        }
    }

    /// The member of that name, where the value is an object that has one.
    pub fn get(&self, key: &str) -> (r: Option<&Json>)
        ensures
            match r {
                Some(v) => lookup(self.fields(), key@) == Some(*v),
                None => lookup(self.fields(), key@) is None,
            },
    {
        match self {
            Json::Object(fields) => find(fields, key),
            _ => None,
        }
    }

    /// The text of a string value.
    pub fn as_str(&self) -> (r: Option<&str>)
        ensures
            match r {
                Some(t) => self matches Json::Text(s) && s@ == t@,
                None => !(self is Text),
            },
    {
        match self {
            Json::Text(s) => Some(s.as_str()),
            _ => None,
        }
    }

    /// The value of a non-negative integer.
    pub fn as_u64(&self) -> (r: Option<u64>)
        ensures
            match r {
                Some(n) => *self == Json::Unsigned(n),
                None => !(self is Unsigned),
            },
    {
        match self {
            Json::Unsigned(n) => Some(*n),
            _ => None,
        }
    }

    /// Whether every object in the value has distinct members.
    pub fn is_unambiguous(&self) -> (r: bool)
        ensures
            r == unambiguous(*self),
        decreases self,
    {
        match self {
            Json::Array(items) => {
                let mut i: usize = 0;
                while i < items.len()
                    invariant
                        *self == Json::Array(*items),
                        i <= items@.len(),
                        forall|j: int| 0 <= j < i ==> unambiguous(#[trigger] items@[j]),
                    decreases items@.len() - i,
                {
                    proof {
                        lemma_item_below(*self, *items, i as int);
                    }
                    if !items[i].is_unambiguous() {
                        proof {
                            lemma_item_unambiguous(*self, *items, i as int);
                        }
                        return false;
                    }
                    i += 1;
                }
                true
            },
            Json::Object(fields) => {
                let mut i: usize = 0;
                while i < fields.len()
                    invariant
                        *self == Json::Object(*fields),
                        i <= fields@.len(),
                        distinct(fields@.take(i as int)),
                        forall|j: int| 0 <= j < i ==> unambiguous((#[trigger] fields@[j]).1),
                    decreases fields@.len() - i,
                {
                    proof {
                        lemma_member_below(*self, *fields, i as int);
                    }
                    if named(fields, i, fields[i].0.as_str()) || !fields[i].1.is_unambiguous() {
                        return false;
                    }
                    i += 1;
                }
                assert(fields@.take(i as int) =~= fields@);
                true
            },
            _ => true,
        }
    }

    /// Whether two values are equal.
    pub fn same(&self, other: &Json) -> (r: bool)
        ensures
            r == alike(*self, *other),
        decreases self,
    {
        match (self, other) {
            (Json::Null, Json::Null) => true,
            (Json::Bool(x), Json::Bool(y)) => *x == *y,
            (Json::Unsigned(x), Json::Unsigned(y)) => *x == *y,
            (Json::Negative(x), Json::Negative(y)) => *x == *y,
            (Json::Float(x), Json::Float(y)) => same(x.as_str(), y.as_str()) || zero(x.as_str())
                && zero(y.as_str()),
            (Json::Text(x), Json::Text(y)) => same(x.as_str(), y.as_str()),
            (Json::Array(x), Json::Array(y)) => {
                if x.len() != y.len() {
                    return false;
                }
                let mut i: usize = 0;
                while i < x.len()
                    invariant
                        *self == Json::Array(*x),
                        *other == Json::Array(*y),
                        i <= x@.len() == y@.len(),
                        forall|j: int| 0 <= j < i ==> alike(#[trigger] x@[j], y@[j]),
                    decreases x@.len() - i,
                {
                    proof {
                        lemma_item_below(*self, *x, i as int);
                    }
                    if !x[i].same(&y[i]) {
                        return false;
                    }
                    i += 1;
                }
                true
            },
            (Json::Object(x), Json::Object(y)) => {
                if x.len() != y.len() {
                    return false;
                }
                let mut i: usize = 0;
                while i < x.len()
                    invariant
                        *self == Json::Object(*x),
                        *other == Json::Object(*y),
                        i <= x@.len() == y@.len(),
                        forall|j: int|
                            0 <= j < i ==> match lookup(y@, (#[trigger] x@[j]).0@) {
                                Some(v) => alike(x@[j].1, v),
                                None => false,
                            },
                    decreases x@.len() - i,
                {
                    match find(y, x[i].0.as_str()) {
                        Some(v) => {
                            proof {
                                lemma_member_below(*self, *x, i as int);
                            }
                            if !x[i].1.same(v) {
                                return false;
                            }
                        },
                        None => {
                            return false;
                        },
                    }
                    i += 1;
                }
                true
            },
            _ => false,
        }
    }
}

pub(crate) proof fn lemma_item_below(v: Json, items: Vec<Json>, i: int)
    requires
        v == Json::Array(items),
        0 <= i < items@.len(),
    ensures
        decreases_to!(v => items@[i]),
{
    assert(decreases_to!(v => v->Array_0));
    assert(decreases_to!(v->Array_0 => v->Array_0@[i]));
}

proof fn lemma_item_unambiguous(v: Json, items: Vec<Json>, i: int)
    requires
        v == Json::Array(items),
        0 <= i < items@.len(),
    ensures
        unambiguous(v) ==> unambiguous(items@[i]),
{
    if unambiguous(v) {
        assert(unambiguous(v->Array_0@[i]));
    }
}

pub(crate) proof fn lemma_member_below(v: Json, fields: Vec<(String, Json)>, i: int)
    requires
        v == Json::Object(fields),
        0 <= i < fields@.len(),
    ensures
        decreases_to!(v => fields@[i].1),
{
    assert(decreases_to!(v => v->Object_0));
    assert(decreases_to!(v->Object_0 => v->Object_0@[i]));
    assert(decreases_to!(v->Object_0@[i] => v->Object_0@[i].1));
}

/// Whether one of the first members has that name.
fn named(fields: &Vec<(String, Json)>, n: usize, key: &str) -> (r: bool)
    requires
        n <= fields@.len(),
    ensures
        r == exists|j: int| 0 <= j < n && (#[trigger] fields@[j]).0@ == key@,
{
    let mut i: usize = 0;
    while i < n
        invariant
            i <= n <= fields@.len(),
            forall|j: int| 0 <= j < i ==> (#[trigger] fields@[j]).0@ != key@,
        decreases n - i,
    {
        if same(fields[i].0.as_str(), key) {
            assert(fields@[i as int].0@ == key@);
            return true;
        }
        i += 1;
    }
    false
}

fn find<'a>(fields: &'a Vec<(String, Json)>, key: &str) -> (r: Option<&'a Json>)
    ensures
        match r {
            Some(v) => lookup(fields@, key@) == Some(*v),
            None => lookup(fields@, key@) is None,
        },
{
    let mut i: usize = 0;
    assert(fields@.skip(0) =~= fields@);
    while i < fields.len()
        invariant
            i <= fields@.len(),
            lookup(fields@, key@) == lookup(fields@.skip(i as int), key@),
        decreases fields@.len() - i,
    {
        if same(fields[i].0.as_str(), key) {
            return Some(&fields[i].1);
        }
        i += 1;
        assert(fields@.skip(i as int) =~= fields@.skip(i - 1).drop_first());
    }
    None
}

/// A member of that name is found exactly when some member bears it.
pub proof fn lemma_lookup(fields: Seq<(String, Json)>, key: Seq<char>)
    ensures
        lookup(fields, key) is Some <==> exists|i: int|
            0 <= i < fields.len() && (#[trigger] fields[i]).0@ == key,
    decreases fields.len(),
{
    if fields.len() > 0 {
        let rest = fields.drop_first();
        lemma_lookup(rest, key);
        if lookup(fields, key) is Some && fields[0].0@ != key {
            let i = choose|i: int| 0 <= i < rest.len() && (#[trigger] rest[i]).0@ == key;
            assert(fields[i + 1].0@ == key);
        }
        if exists|i: int| 0 <= i < fields.len() && (#[trigger] fields[i]).0@ == key {
            let i = choose|i: int| 0 <= i < fields.len() && (#[trigger] fields[i]).0@ == key;
            if i > 0 {
                assert(rest[i - 1].0@ == key);
            }
        }
    }
}

/// Adds a member to an object under construction. A name that is already
/// taken is refused, and the object stays as it is.
pub fn insert(fields: &mut Vec<(String, Json)>, key: String, value: Json) -> (fresh: bool)
    ensures
        fresh == (lookup(old(fields)@, key@) is None),
        fresh ==> final(fields)@ == old(fields)@.push((key, value)),
        !fresh ==> final(fields)@ == old(fields)@,
        distinct(old(fields)@) ==> distinct(final(fields)@),
        unambiguous(Json::Object(*old(fields))) && unambiguous(value) ==> unambiguous(
            Json::Object(*final(fields)),
        ),
{
    proof {
        lemma_lookup(fields@, key@);
    }
    if find(fields, key.as_str()).is_some() {
        return false;
    }
    fields.push((key, value));
    true
}

/// The members of `after` are those of `before`, with that text under that name.
pub open spec fn with(
    before: Seq<(String, Json)>,
    after: Seq<(String, Json)>,
    key: Seq<char>,
    text: Seq<char>,
) -> bool {
    &&& lookup(after, key) matches Some(Json::Text(t)) && t@ == text
    &&& forall|other: Seq<char>|
        other != key ==> #[trigger] lookup(after, other) == lookup(before, other)
}

/// Puts a text under a name, in place of what stood there.
pub fn set_text(fields: &mut Vec<(String, Json)>, key: &str, text: &str)
    ensures
        with(old(fields)@, final(fields)@, key@, text@),
{
    let mut i: usize = 0;
    assert(fields@.skip(0) =~= fields@);
    while i < fields.len()
        invariant
            i <= fields@.len(),
            fields@ == old(fields)@,
            forall|j: int| 0 <= j < i ==> (#[trigger] fields@[j]).0@ != key@,
        decreases fields@.len() - i,
    {
        if same(fields[i].0.as_str(), key) {
            let member = (String::from_str(key), Json::Text(String::from_str(text)));
            let ghost before = fields@;
            fields.set(i, member);
            proof {
                lemma_lookup_update(before, i as int, member, key@);
                assert forall|other: Seq<char>| other != key@ implies #[trigger] lookup(
                    fields@,
                    other,
                ) == lookup(before, other) by {
                    lemma_lookup_update(before, i as int, member, other);
                }
            }
            return;
        }
        i += 1;
    }
    let member = (String::from_str(key), Json::Text(String::from_str(text)));
    let ghost before = fields@;
    fields.push(member);
    proof {
        lemma_lookup_push(before, member, key@);
        assert forall|other: Seq<char>| other != key@ implies #[trigger] lookup(fields@, other)
            == lookup(before, other) by {
            lemma_lookup_push(before, member, other);
        }
    }
}

proof fn lemma_lookup_update(
    f: Seq<(String, Json)>,
    i: int,
    member: (String, Json),
    key: Seq<char>,
)
    requires
        0 <= i < f.len(),
        f[i].0@ == member.0@,
        forall|j: int| 0 <= j < i ==> (#[trigger] f[j]).0@ != member.0@,
    ensures
        lookup(f.update(i, member), key) == if key == member.0@ {
            Some(member.1)
        } else {
            lookup(f, key)
        },
    decreases f.len(),
{
    let g = f.update(i, member);
    if i == 0 {
        assert(g.drop_first() =~= f.drop_first());
    } else {
        assert(g.drop_first() =~= f.drop_first().update(i - 1, member));
        lemma_lookup_update(f.drop_first(), i - 1, member, key);
    }
}

proof fn lemma_lookup_push(f: Seq<(String, Json)>, member: (String, Json), key: Seq<char>)
    requires
        forall|j: int| 0 <= j < f.len() ==> (#[trigger] f[j]).0@ != member.0@,
    ensures
        lookup(f.push(member), key) == if key == member.0@ {
            Some(member.1)
        } else {
            lookup(f, key)
        },
    decreases f.len(),
{
    let g = f.push(member);
    if f.len() == 0 {
        assert(g.drop_first() =~= Seq::<(String, Json)>::empty());
        reveal_with_fuel(lookup, 2);
    } else {
        assert(g[0] == f[0]);
        assert(g.drop_first() =~= f.drop_first().push(member));
        lemma_lookup_push(f.drop_first(), member, key);
    }
}

/// A name has the value of the first member that bears it, and none where no member does.
pub proof fn the_first_member_counts(fields: Seq<(String, Json)>, key: Seq<char>, i: int)
    requires
        0 <= i <= fields.len(),
        forall|j: int| 0 <= j < i ==> (#[trigger] fields[j]).0@ != key,
        i < fields.len() ==> fields[i].0@ == key,
    ensures
        lookup(fields, key) == if i < fields.len() {
            Some(fields[i].1)
        } else {
            None
        },
    decreases fields.len(),
{
    if i > 0 {
        let rest = fields.drop_first();
        assert forall|j: int| 0 <= j < i - 1 implies (#[trigger] rest[j]).0@ != key by {
            assert(rest[j] == fields[j + 1]);
        }
        assert(fields[0].0@ != key);
        the_first_member_counts(rest, key, i - 1);
    }
}

/// A value is equal to itself where its members are told apart.
pub proof fn a_value_is_equal_to_itself(v: Json)
    requires
        unambiguous(v),
    ensures
        alike(v, v),
    decreases v,
{
    match v {
        Json::Array(items) => {
            assert forall|i: int| 0 <= i < items@.len() implies alike(
                #[trigger] items@[i],
                items@[i],
            ) by {
                lemma_item_below(v, items, i);
                lemma_item_unambiguous(v, items, i);
                a_value_is_equal_to_itself(items@[i]);
            }
        },
        Json::Object(fields) => {
            assert forall|i: int| 0 <= i < fields@.len() implies (match lookup(
                fields@,
                (#[trigger] fields@[i]).0@,
            ) {
                Some(other) => alike(fields@[i].1, other),
                None => false,
            }) by {
                lemma_member_below(v, fields, i);
                assert(unambiguous(v->Object_0@[i].1));
                a_value_is_equal_to_itself(fields@[i].1);
                assert forall|j: int| 0 <= j < i implies (#[trigger] fields@[j]).0@
                    != fields@[i].0@ by {}
                the_first_member_counts(fields@, fields@[i].0@, i);
            }
        },
        _ => {},
    }
}

} // verus!
