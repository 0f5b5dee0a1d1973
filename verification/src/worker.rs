//! The worker of a session: what it tells of grants, and when it is done.
use vstd::prelude::*;

use crate::paths::{file_name, name_of};
use crate::progress::Granted;
use crate::protocol::Reply;
use crate::text::{chars, span, starts_with, texts};

verus! {

/// The most packages that a session begins with.
pub const INITIAL: usize = 128;

/// How many results are taken at a time.
pub const RESULTS: usize = 16;

/// Whether a session does not begin with too many packages.
pub fn check_initial(count: usize) -> (r: Result<(), String>)
    ensures
        if count > INITIAL {
            r matches Err(e) && e@ == "initial package limit is 128"@
        } else {
            r is Ok
        },
{
    if count > INITIAL {
        return Err(String::from_str("initial package limit is 128"));
    }
    Ok(())
}

/// The name of a package by its path: what stands behind the hash. Nothing where there is
/// no such name, or where a hash would end inside a character.
pub open spec fn short_name(path: Seq<char>) -> Option<Seq<char>> {
    match name_of(path) {
        None => None,
        Some(name) => behind_hash(name, 33),
    }
}

/// What stands behind so many bytes of a text.
pub open spec fn behind_hash(s: Seq<char>, bytes: int) -> Option<Seq<char>>
    decreases s.len(),
{
    if bytes == 0 {
        Some(s)
    } else if bytes < 0 || s.len() == 0 {
        None
    } else {
        behind_hash(s.drop_first(), bytes - width(s[0]))
    }
}

/// How many bytes a character takes.
pub open spec fn width(c: char) -> int {
    if (c as u32) < 0x80 {
        1
    } else if (c as u32) < 0x800 {
        2
    } else if (c as u32) < 0x10000 {
        3
    } else {
        4
    }
}

fn bytes_of(c: char) -> (r: usize)
    ensures
        r == width(c),
{
    let n = c as u32;
    if n < 0x80 {
        1
    } else if n < 0x800 {
        2
    } else if n < 0x10000 {
        3
    } else {
        4
    }
}

fn shorten(name: &str) -> (r: Option<String>)
    ensures
        match behind_hash(name@, 33) {
            Some(t) => r matches Some(s) && s@ == t,
            None => r is None,
        },
{
    let v = chars(name);
    let mut k: usize = 0;
    let mut left: usize = 33;
    assert(v@.skip(0) =~= v@);
    while left > 0
        invariant
            v@ == name@,
            k <= v@.len(),
            left <= 33,
            behind_hash(v@.skip(k as int), left as int) == behind_hash(name@, 33),
        decreases left,
    {
        if k == v.len() {
            return None;
        }
        let n = bytes_of(v[k]);
        assert(v@.skip(k as int).drop_first() =~= v@.skip(k + 1));
        if n > left {
            assert(behind_hash(v@.skip(k + 1), left - n) is None);
            return None;
        }
        left -= n;
        k += 1;
    }
    let r = span(&v, k, v.len());
    assert(r@ =~= v@.skip(k as int));
    Some(r)
}

/// The names of those packages that have one.
pub open spec fn short_names(paths: Seq<Seq<char>>) -> Seq<Seq<char>>
    decreases paths.len(),
{
    if paths.len() == 0 {
        Seq::empty()
    } else {
        let most = short_names(paths.drop_last());
        match short_name(paths.last()) {
            Some(n) => most.push(n),
            None => most,
        }
    }
}

/// The names of the packages that a session begins with.
pub fn initial_names(paths: &Vec<String>) -> (r: Vec<String>)
    ensures
        texts(r@) == short_names(texts(paths@)),
{
    let mut r: Vec<String> = Vec::new();
    let ghost all = texts(paths@);
    let mut k: usize = 0;
    assert(all.take(0) =~= Seq::empty());
    assert(texts(r@) =~= Seq::empty());
    while k < paths.len()
        invariant
            k <= paths@.len(),
            all == texts(paths@),
            texts(r@) == short_names(all.take(k as int)),
        decreases paths@.len() - k,
    {
        assert(all.take(k + 1).drop_last() =~= all.take(k as int));
        assert(all.take(k + 1).last() == paths@[k as int]@);
        match file_name(&paths[k]) {
            Some(name) => {
                match shorten(&name) {
                    Some(n) => {
                        let ghost before = texts(r@);
                        r.push(n);
                        assert(texts(r@) =~= before.push(n@));
                    },
                    None => {},
                }
            },
            None => {},
        }
        k += 1;
    }
    assert(all.take(k as int) =~= all);
    r
}

/// What the asking side is told of a failed grant: no more than which step failed.
pub open spec fn category(detail: Seq<char>, package: Seq<char>) -> Seq<char> {
    if "cannot resolve package"@.is_prefix_of(detail) {
        "cannot resolve package '"@ + package + "' from pinned nixpkgs; see tui terminal"@
    } else if "could not build package"@.is_prefix_of(detail) {
        "could not build package '"@ + package + "'; see tui terminal"@
    } else {
        "grant failed; see tui terminal"@
    }
}

/// The answer to a decided request, by what came of it.
pub fn answer(id: &str, package: &str, approved: bool, result: &Result<(), String>) -> (r: Reply)
    ensures
        r.id matches Some(i) && i@ == id@,
        match result {
            Ok(_) => r.status@ == (if approved {
                "ready"@
            } else {
                "denied"@
            }) && r.message is None,
            Err(e) => r.status@ == "error"@ && (r.message matches Some(m) && m@ == category(
                e@,
                package@,
            )),
        },
{
    match result {
        Ok(_) => {
            let status = if approved {
                "ready"
            } else {
                "denied"
            };
            Reply::new(Some(String::from_str(id)), status, None)
        },
        Err(detail) => {
            let mut m: String;
            if starts_with(detail, "cannot resolve package") {
                m = String::from_str("cannot resolve package '");
                m.push_str(package);
                m.push_str("' from pinned nixpkgs; see tui terminal");
            } else if starts_with(detail, "could not build package") {
                m = String::from_str("could not build package '");
                m.push_str(package);
                m.push_str("'; see tui terminal");
            } else {
                m = String::from_str("grant failed; see tui terminal");
            }
            Reply::new(Some(String::from_str(id)), "error", Some(m))
        },
    }
}

/// What is told of a request that was carried out: the session learns no more than which
/// step failed, the host everything.
pub fn granted(
    id: &str,
    package: &str,
    result: Result<Option<String>, String>,
    docker_scope: Option<String>,
) -> (r: Granted)
    ensures
        r.docker_scope == docker_scope,
        match result {
            Ok(output) => {
                &&& r.ready && r.status@ == "ready"@
                &&& r.message is None && r.detail is None
                &&& r.output == output
            },
            Err(e) => {
                &&& !r.ready && r.status@ == "error"@
                &&& r.message matches Some(m) && m@ == category(e@, package@)
                &&& r.detail == Some(e)
                &&& r.output is None
            },
        },
{
    let (told, detail, output) = match result {
        Ok(output) => (Ok(()), None, output),
        Err(e) => (Err(e.clone()), Some(e), None),
    };
    let reply = answer(id, package, true, &told);
    Granted {
        ready: told.is_ok(),
        status: reply.status,
        message: reply.message,
        detail,
        output,
        docker_scope,
    }
}

/// What a look at the results of a worker shows.
#[derive(Clone, Copy, Debug, PartialEq, Eq, Structural)]
pub enum Look {
    Result,
    /// Nothing yet, and more may come.
    Empty,
    /// Nothing, and nothing more will come.
    Closed,
}

/// What a poll does next.
#[derive(Clone, Copy, Debug, PartialEq, Eq, Structural)]
pub enum Poll {
    /// It takes the result and looks again.
    Take,
    /// It ends; the worker may not be done.
    Pause,
    /// It ends; the worker is done where it does not run any more.
    End,
}

/// What a poll does next, after so many results. Only when nothing can come any more is
/// it looked at whether the worker runs: a last result cannot be lost between the two.
pub fn poll(taken: usize, look: Look) -> (r: Poll)
    ensures
        r == if taken >= RESULTS {
            Poll::Pause
        } else {
            match look {
                Look::Result => Poll::Take,
                Look::Empty => Poll::Pause,
                Look::Closed => Poll::End,
            }
        },
{
    if taken >= RESULTS {
        Poll::Pause
    } else {
        match look {
            Look::Result => Poll::Take,
            Look::Empty => Poll::Pause,
            Look::Closed => Poll::End,
        }
    }
}

/// A package is called by what stands behind the hash of its store object.
pub proof fn a_package_is_called_by_its_name(hash: Seq<char>, name: Seq<char>)
    requires
        hash.len() <= 33,
        forall|i: int| 0 <= i < hash.len() ==> (#[trigger] hash[i] as u32) < 0x80,
    ensures
        behind_hash(hash + name, hash.len() as int) == Some(name),
    decreases hash.len(),
{
    let all = hash + name;
    if hash.len() == 0 {
        assert(all =~= name);
    } else {
        let rest = hash.drop_first();
        assert((hash[0] as u32) < 0x80);
        assert forall|i: int| 0 <= i < rest.len() implies (#[trigger] rest[i] as u32) < 0x80 by {
            assert(rest[i] == hash[i + 1]);
        }
        a_package_is_called_by_its_name(rest, name);
        assert(all.drop_first() =~= rest + name);
    }
}

/// Every package that has a name is listed by it, in order.
pub proof fn every_named_package_is_listed(paths: Seq<Seq<char>>, i: int)
    requires
        0 <= i < paths.len(),
    ensures
        short_name(paths[i]) matches Some(n) ==> short_names(paths).contains(n),
        short_names(paths).len() <= paths.len(),
        (forall|j: int| 0 <= j < paths.len() ==> short_name(#[trigger] paths[j]) is Some)
            ==> short_names(paths).len() == paths.len(),
    decreases paths.len(),
{
    let most = paths.drop_last();
    if most.len() > 0 {
        every_named_package_is_listed(
            most,
            if i < most.len() {
                i
            } else {
                0
            },
        );
    } else {
        assert(short_names(most).len() == 0);
    }
    assert(paths[paths.len() - 1] == paths.last());
    assert(short_names(paths).len() == short_names(most).len() + if short_name(paths.last()) is Some {
        1int
    } else {
        0
    });
    if forall|j: int| 0 <= j < paths.len() ==> short_name(#[trigger] paths[j]) is Some {
        assert forall|j: int| 0 <= j < most.len() implies short_name(#[trigger] most[j]) is Some by {
            assert(most[j] == paths[j]);
        }
    }
    if let Some(n) = short_name(paths[i]) {
        if i < most.len() {
            let k = choose|k: int| 0 <= k < short_names(most).len() && short_names(most)[k] == n;
            assert(short_names(paths)[k] == n);
        } else {
            assert(short_names(paths)[short_names(paths).len() - 1] == n);
        }
    }
}

/// What failed of a grant is told by its kind and the name of the package, and never in the words
/// of the tool that failed.
pub proof fn a_failure_is_told_by_its_kind(rest: Seq<char>, other: Seq<char>, package: Seq<char>)
    ensures
        category("cannot resolve package"@ + rest, package) == "cannot resolve package '"@ + package
            + "' from pinned nixpkgs; see tui terminal"@,
        category("could not build package"@ + rest, package) == "could not build package '"@
            + package + "'; see tui terminal"@,
        category("cannot resolve package"@ + rest, package) == category(
            "cannot resolve package"@ + other,
            package,
        ),
{
    reveal_strlit("cannot resolve package");
    reveal_strlit("could not build package");
    let a = "cannot resolve package"@;
    let b = "could not build package"@;
    assert((a + rest).take(a.len() as int) =~= a);
    assert((a + other).take(a.len() as int) =~= a);
    assert((b + rest).take(b.len() as int) =~= b);
    assert(a.is_prefix_of(a + rest));
    assert(a.is_prefix_of(a + other));
    assert(b.is_prefix_of(b + rest));
    assert(a[1] != b[1]);
    if a.is_prefix_of(b + rest) {
        assert((b + rest).take(a.len() as int)[1] == a[1]);
    }
}

} // verus!
