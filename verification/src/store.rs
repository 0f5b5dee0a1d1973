//! Objects of the package store: how they are named and where they stand.
use vstd::prelude::*;

use crate::paths::{
    a_name_is_one_component, a_path_ends_in_its_name, components, components_of, file_name,
    is_absolute, join, joined, lies_under, name_of, under,
    what_stands_behind_a_path_lies_under_it,
};
use crate::text::{chars, is_alnum, alnum, parts_of, span, starts_with, texts};

verus! {

/// The characters of the hash that a store object's name begins with.
pub open spec fn is_hash_char(c: char) -> bool {
    ('0' <= c <= '9') || ('a' <= c <= 'z' && c != 'e' && c != 'o' && c != 't' && c != 'u')
}

/// The characters of the rest of the name.
pub open spec fn is_name_char(c: char) -> bool {
    is_alnum(c) || c == '+' || c == '-' || c == '.' || c == '_' || c == '?' || c == '='
}

/// The name of one store object: a hash of 32 characters, a hyphen, and at least one
/// character more.
pub open spec fn is_store_name(s: Seq<char>) -> bool {
    34 <= s.len() <= 211 && s[32] == '-' && (forall|i: int|
        0 <= i < 32 ==> is_hash_char(#[trigger] s[i])) && forall|i: int|
        32 <= i < s.len() ==> is_name_char(#[trigger] s[i])
}

/// The path of one store object.
pub open spec fn is_store_path(s: Seq<char>) -> bool {
    s.len() >= 11 && s.take(11) == "/nix/store/"@ && is_store_name(s.skip(11))
}

fn hash_char(c: char) -> (r: bool)
    ensures
        r == is_hash_char(c),
{
    ('0' <= c && c <= '9') || ('a' <= c && c <= 'z' && c != 'e' && c != 'o' && c != 't' && c != 'u')
}

fn name_char(c: char) -> (r: bool)
    ensures
        r == is_name_char(c),
{
    alnum(c) || c == '+' || c == '-' || c == '.' || c == '_' || c == '?' || c == '='
}

/// Whether a name is that of one store object.
pub fn valid_name(name: &str) -> (r: bool)
    ensures
        r == is_store_name(name@),
{
    let v = chars(name);
    if v.len() < 34 || v.len() > 211 || v[32] != '-' {
        return false;
    }
    let mut i: usize = 0;
    while i < v.len()
        invariant
            v@ == name@,
            i <= v@.len(),
            34 <= v@.len() <= 211,
            v@[32] == '-',
            forall|k: int| 0 <= k < i && k < 32 ==> is_hash_char(#[trigger] v@[k]),
            forall|k: int| 32 <= k < i ==> is_name_char(#[trigger] v@[k]),
        decreases v@.len() - i,
    {
        if i < 32 {
            if !hash_char(v[i]) {
                return false;
            }
        } else if !name_char(v[i]) {
            return false;
        }
        i += 1;
    }
    true
}

/// The name of a store object is one step of a path and one line: it leads nowhere else,
/// and is no other word of the helper's language.
pub proof fn a_store_name_is_one_object(name: Seq<char>)
    requires
        is_store_name(name),
    ensures
        !name.contains('/'),
        !name.contains('\n'),
        name != "STOP"@,
        name != "."@,
        name != ".."@,
{
    reveal_strlit("STOP");
    reveal_strlit(".");
    reveal_strlit("..");
    assert forall|i: int| 0 <= i < name.len() implies #[trigger] name[i] != '/' && name[i]
        != '\n' by {
        if i < 32 {
            assert(is_hash_char(name[i]));
        } else {
            assert(is_name_char(name[i]));
        }
    }
    assert("STOP"@.len() == 4);
    assert("."@.len() == 1);
    assert(".."@.len() == 2);
}

/// A path as that of one store object, written in the one way that counts.
pub fn store_path(path: &str) -> (r: Result<String, String>)
    ensures
        match name_of(path@) {
            None => r matches Err(e) && e@ == "invalid store path"@,
            Some(_) => if is_store_path(path@) {
                r matches Ok(p) && p@ == path@
            } else {
                r matches Err(e) && e@ == "not a canonical store output"@
            },
        },
{
    if file_name(path).is_none() {
        return Err(String::from_str("invalid store path"));
    }
    let v = chars(path);
    proof {
        reveal_strlit("/nix/store/");
    }
    if v.len() < 11 || !starts_with(path, "/nix/store/") {
        return Err(String::from_str("not a canonical store output"));
    }
    let name = span(&v, 11, v.len());
    assert(name@ =~= path@.skip(11));
    if !valid_name(&name) {
        return Err(String::from_str("not a canonical store output"));
    }
    Ok(String::from_str(path))
}

/// Whether an object of the store can be mounted: a regular file or a directory.
pub fn store_object(file: bool, directory: bool) -> (r: Result<(), String>)
    ensures
        if file || directory {
            r is Ok
        } else {
            r matches Err(e) && e@ == "store output must be a regular file or directory"@
        },
{
    if !file && !directory {
        return Err(String::from_str("store output must be a regular file or directory"));
    }
    Ok(())
}

/// The store object that a path leads into.
pub open spec fn root_of(path: Seq<char>) -> Result<Seq<char>, Seq<char>> {
    if !lies_under(path, "/nix/store"@) {
        Err("prefix not found"@)
    } else if components_of(path).len() == 3 {
        Err("cannot expose the entire Nix store"@)
    } else {
        let object = joined("/nix/store"@, components_of(path)[3]);
        match name_of(object) {
            None => Err("invalid store path"@),
            Some(_) => if is_store_path(object) {
                Ok(object)
            } else {
                Err("not a canonical store output"@)
            },
        }
    }
}

/// What a result is, by its texts.
pub open spec fn told(r: Result<String, String>) -> Result<Seq<char>, Seq<char>> {
    match r {
        Ok(t) => Ok(t@),
        Err(e) => Err(e@),
    }
}

pub proof fn lemma_store_components()
    ensures
        components_of("/nix/store"@) == seq!["/"@, "nix"@, "store"@],
{
    let s = "/nix/store"@;
    reveal_strlit("/nix/store");
    reveal_strlit("nix");
    reveal_strlit("store");
    reveal_strlit(".");
    reveal_with_fuel(crate::text::first_index, 6);
    let a = s.skip(1);
    let b = a.skip(4);
    assert(s.drop_first() =~= a);
    assert(crate::text::first_index(s, '/') == 0);
    assert(crate::text::first_index(a, '/') == 3) by {
        assert(a.drop_first()[0] == 'i');
        assert(a.drop_first().drop_first()[0] == 'x');
        assert(a.drop_first().drop_first().drop_first()[0] == '/');
    }
    crate::text::lemma_first_index(b, '/');
    assert(forall|i: int| 0 <= i < b.len() ==> b[i] != '/');
    assert(!b.contains('/'));
    assert(s.take(0) =~= Seq::empty());
    assert(a.take(3) =~= "nix"@);
    assert(b =~= "store"@);
    let none: Seq<char> = Seq::empty();
    reveal_with_fuel(parts_of, 4);
    let parts = parts_of(s, '/');
    assert(parts =~= seq![none, "nix"@, "store"@]);
    assert("nix"@.len() == 3 && "store"@.len() == 5 && "."@.len() == 1);
    let two = parts.drop_last();
    let one = two.drop_last();
    assert(one.drop_last() =~= Seq::empty());
    reveal_with_fuel(crate::paths::steps, 4);
    assert(crate::paths::steps(one) =~= Seq::empty());
    assert(crate::paths::steps(two) =~= seq!["nix"@]);
    assert(crate::paths::steps(parts) =~= seq!["nix"@, "store"@]);
    assert(components_of(s) =~= seq!["/"@, "nix"@, "store"@]);
}

/// The store object that a path leads into.
pub fn store_root(path: &str) -> (r: Result<String, String>)
    ensures
        told(r) == root_of(path@),
{
    proof {
        lemma_store_components();
    }
    if !under(path, "/nix/store") {
        return Err(String::from_str("prefix not found"));
    }
    let parts = components(path);
    assert(texts(parts@).len() == parts@.len());
    if parts.len() == 3 {
        return Err(String::from_str("cannot expose the entire Nix store"));
    }
    assert(texts(parts@)[3] == parts@[3]@);
    store_path(&join("/nix/store", &parts[3]))
}

/// The package that an executable belongs to: where the directory stands that holds it.
pub open spec fn package_path(path: Seq<char>) -> Option<Seq<char>> {
    match crate::paths::parent_of(path) {
        Some(directory) => crate::paths::parent_of(directory),
        None => None,
    }
}

/// The package that an executable belongs to.
pub fn package(path: &str) -> (r: Result<String, String>)
    ensures
        match package_path(path@) {
            Some(p) => r matches Ok(t) && t@ == p,
            None => r matches Err(e) && e@ == "invalid executable path"@,
        },
{
    match crate::paths::parent(path) {
        Some(directory) => match crate::paths::parent(&directory) {
            Some(p) => Ok(p),
            None => Err(String::from_str("invalid executable path")),
        },
        None => Err(String::from_str("invalid executable path")),
    }
}

/// What lies in an object of the store belongs to that object.
pub proof fn a_store_path_belongs_to_its_object(name: Seq<char>, rest: Seq<char>)
    requires
        is_store_name(name),
    ensures
        root_of("/nix/store/"@ + name) == Ok::<Seq<char>, Seq<char>>("/nix/store/"@ + name),
        root_of("/nix/store/"@ + name + "/"@ + rest) == Ok::<Seq<char>, Seq<char>>(
            "/nix/store/"@ + name,
        ),
{
    reveal_strlit("/nix/store/");
    reveal_strlit("/nix/store");
    reveal_strlit("/");
    lemma_store_components();
    a_store_name_is_one_object(name);
    let base = "/nix/store"@;
    let object = base + "/"@ + name;
    assert("/nix/store/"@ + name =~= object);
    a_name_is_one_component(base, name);
    assert(!is_absolute(name)) by {
        assert(is_hash_char(name[0]));
    }
    assert(joined(base, name) == object);
    a_path_ends_in_its_name(base, name);
    assert(object.take(11) =~= "/nix/store/"@);
    assert(object.skip(11) =~= name);
    assert(is_store_path(object));
    assert(components_of(object) == components_of(base).push(name));
    assert(components_of(object).take(3) =~= components_of(base));
    assert(components_of(object)[3] == name);
    assert(components_of(object).len() == 4);
    assert(root_of(object) == Ok::<Seq<char>, Seq<char>>(object));
    let all = object + "/"@ + rest;
    what_stands_behind_a_path_lies_under_it(object, rest);
    assert(components_of(object).is_prefix_of(components_of(all)));
    assert(components_of(all).take(4) =~= components_of(object));
    assert(components_of(all)[3] == components_of(all).take(4)[3]);
    assert(components_of(all).take(3) =~= components_of(base));
    assert("/nix/store/"@ + name + "/"@ + rest =~= all);
}

/// The store as a whole, and what lies outside it, belongs to no object.
pub proof fn the_whole_store_is_no_object(path: Seq<char>)
    ensures
        root_of("/nix/store"@) is Err,
        !lies_under(path, "/nix/store"@) ==> root_of(path) is Err,
        root_of(path) matches Ok(object) ==> is_store_path(object),
{
    lemma_store_components();
    let c = components_of("/nix/store"@);
    assert(c.take(3) =~= c);
}

} // verus!
