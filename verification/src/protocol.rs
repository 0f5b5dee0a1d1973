//! Names that cross the boundary between a sandbox and its host.
use vstd::prelude::*;

use crate::text::{alnum, alpha, chars, is_alnum, is_alpha};

verus! {

/// The longest answer that comes with a terminal.
pub const MAX_FRAME: usize = 4096;

/// A letter or an underscore: how a scope name, or a part of a package name, begins.
pub open spec fn name_start(c: char) -> bool {
    is_alpha(c) || c == '_'
}

/// A letter, a digit, an underscore or a hyphen.
pub open spec fn name_rest(c: char) -> bool {
    is_alnum(c) || c == '_' || c == '-'
}

/// One to 64 characters, the first of them a letter or an underscore.
pub open spec fn is_scope_name(s: Seq<char>) -> bool {
    &&& 1 <= s.len() <= 64
    &&& name_start(s[0])
    &&& forall|i: int| 0 <= i < s.len() ==> name_rest(#[trigger] s[i])
}

/// One to 200 characters: parts set apart by dots, each of them non-empty
/// and spelt like a scope name.
pub open spec fn is_package_name(s: Seq<char>) -> bool {
    &&& 1 <= s.len() <= 200
    &&& s.last() != '.'
    &&& forall|i: int| 0 <= i < s.len() ==> #[trigger] package_char(s, i)
}

/// A part begins at the start and behind each dot.
pub open spec fn package_char(s: Seq<char>, i: int) -> bool {
    if i == 0 || s[i - 1] == '.' {
        name_start(s[i])
    } else {
        s[i] == '.' || name_rest(s[i])
    }
}

/// One to 64 letters, digits, underscores and hyphens.
pub open spec fn is_identifier(s: Seq<char>) -> bool {
    &&& 1 <= s.len() <= 64
    &&& forall|i: int| 0 <= i < s.len() ==> name_rest(#[trigger] s[i])
}

fn starts_name(c: char) -> (r: bool)
    ensures
        r == name_start(c),
{
    alpha(c) || c == '_'
}

fn continues_name(c: char) -> (r: bool)
    ensures
        r == name_rest(c),
{
    alnum(c) || c == '_' || c == '-'
}

/// Whether a name may name a scope of Docker engines.
pub fn docker_scope_name(name: &str) -> (r: bool)
    ensures
        r == is_scope_name(name@),
{
    identifier(name) && starts_name(chars(name)[0])
}

/// Whether a name may name a package of the catalogue.
pub fn package_name(name: &str) -> (r: bool)
    ensures
        r == is_package_name(name@),
{
    let c = chars(name);
    if c.len() == 0 || c.len() > 200 || c[c.len() - 1] == '.' {
        return false;
    }
    let mut i: usize = 0;
    while i < c.len()
        invariant
            i <= c@.len() <= 200,
            c@ == name@,
            forall|j: int| 0 <= j < i ==> #[trigger] package_char(c@, j),
        decreases c@.len() - i,
    {
        let fits = if i == 0 || c[i - 1] == '.' {
            starts_name(c[i])
        } else {
            c[i] == '.' || continues_name(c[i])
        };
        if !fits {
            assert(!package_char(name@, i as int));
            return false;
        }
        i += 1;
    }
    true
}

/// Whether a text may stand for a session, a message or an operation.
pub fn identifier(value: &str) -> (r: bool)
    ensures
        r == is_identifier(value@),
{
    let c = chars(value);
    if c.len() == 0 || c.len() > 64 {
        return false;
    }
    let mut i: usize = 0;
    while i < c.len()
        invariant
            i <= c@.len() <= 64,
            c@ == value@,
            forall|j: int| 0 <= j < i ==> name_rest(#[trigger] c@[j]),
        decreases c@.len() - i,
    {
        if !continues_name(c[i]) {
            return false;
        }
        i += 1;
    }
    true
}

/// What a sandbox asks its host for.
pub struct Request {
    pub id: String,
    pub kind: String,
    pub package: String,
    pub reason: String,
    pub scope: Option<String>,
    pub anonymous: bool,
}

/// The kind of a request that names none.
pub fn package_kind() -> (r: String)
    ensures
        r@ == "package"@,
{
    String::from_str("package")
}

/// The answer to a request.
pub struct Reply {
    pub id: Option<String>,
    pub status: String,
    pub message: Option<String>,
}

impl Reply {
    pub fn new(id: Option<String>, status: &str, message: Option<String>) -> (r: Self)
        ensures
            r.id == id,
            r.status@ == status@,
            r.message == message,
    {
        Reply { id, status: String::from_str(status), message }
    }
}

} // verus!
