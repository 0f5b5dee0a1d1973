//! The helper that works inside the namespaces of a session: what it is told, and what it
//! does by it. It is told in arguments and lines of its own controller, never by a
//! payload.
use vstd::prelude::*;
use vstd::utf8::{decode_utf8, valid_utf8};

use crate::docker_forward::{address, is_address};
use crate::numbers::{
    a_signed_number_is_read_back, number_in, parse_signed, parse_up_to, signed_in,
};
use crate::store::{is_store_name, valid_name};
use crate::text::{
    alnum, chars, decimal_of, from_utf8, is_alnum, parts_of, same, span, split, starts_with, texts, trim,
    trimmed, utf8_complaint, words, words_of,
};

verus! {

/// The first descriptor that is not one of the standard ones.
pub const FIRST: i32 = 3;

/// The most bytes of a line that the helper is told.
pub const COMMAND: usize = 256;

/// The descriptors of some arguments: each is a number that is none of the standard ones
/// and stands once.
pub open spec fn read_descriptors(args: Seq<Seq<char>>, complaint: Seq<char>) -> Result<
    Seq<int>,
    Seq<char>,
>
    decreases args.len(),
{
    if args.len() == 0 {
        Ok(Seq::empty())
    } else {
        match read_descriptors(args.drop_last(), complaint) {
            Err(e) => Err(e),
            Ok(before) => match signed_in(args.last()) {
                Err(e) => Err(e),
                Ok(n) => if n < FIRST || before.contains(n) {
                    Err(complaint)
                } else {
                    Ok(before.push(n))
                },
            },
        }
    }
}

pub open spec fn ints(v: Seq<i32>) -> Seq<int> {
    v.map_values(|n: i32| n as int)
}

proof fn lemma_read_stops(args: Seq<Seq<char>>, complaint: Seq<char>, n: int)
    requires
        0 <= n <= args.len(),
        read_descriptors(args.take(n), complaint) is Err,
    ensures
        read_descriptors(args, complaint) == read_descriptors(args.take(n), complaint),
    decreases args.len(),
{
    if n == args.len() {
        assert(args.take(n) =~= args);
    } else {
        assert(args.drop_last().take(n) =~= args.take(n));
        lemma_read_stops(args.drop_last(), complaint, n);
    }
}

fn has_number(v: &Vec<i32>, n: i32) -> (r: bool)
    ensures
        r == ints(v@).contains(n as int),
{
    let mut k: usize = 0;
    while k < v.len()
        invariant
            k <= v@.len(),
            forall|i: int| 0 <= i < k ==> #[trigger] ints(v@)[i] != n,
        decreases v@.len() - k,
    {
        assert(ints(v@)[k as int] == v@[k as int]);
        if v[k] == n {
            return true;
        }
        k += 1;
    }
    false
}

/// The descriptors of the arguments in a range.
fn descriptors(args: &Vec<String>, from: usize, to: usize, complaint: &str) -> (r: Result<
    Vec<i32>,
    String,
>)
    requires
        from <= to <= args@.len(),
    ensures
        match read_descriptors(texts(args@).subrange(from as int, to as int), complaint@) {
            Ok(v) => r matches Ok(w) && ints(w@) == v,
            Err(text) => r matches Err(e) && e@ == text,
        },
{
    let ghost all = texts(args@).subrange(from as int, to as int);
    let mut r: Vec<i32> = Vec::new();
    let mut k: usize = from;
    assert(all.take(0) =~= Seq::empty());
    assert(ints(r@) =~= Seq::empty());
    while k < to
        invariant
            from <= k <= to <= args@.len(),
            all == texts(args@).subrange(from as int, to as int),
            read_descriptors(all.take(k - from), complaint@) == Ok::<Seq<int>, Seq<char>>(
                ints(r@),
            ),
        decreases to - k,
    {
        let ghost more = all.take(k - from + 1);
        assert(more.drop_last() =~= all.take(k - from));
        assert(more.last() == args@[k as int]@);
        match parse_signed(&args[k]) {
            Err(e) => {
                proof {
                    lemma_read_stops(all, complaint@, k - from + 1);
                }
                return Err(e);
            },
            Ok(n) => {
                if n < FIRST || has_number(&r, n) {
                    proof {
                        lemma_read_stops(all, complaint@, k - from + 1);
                    }
                    return Err(String::from_str(complaint));
                }
                let ghost before = ints(r@);
                r.push(n);
                assert(ints(r@) =~= before.push(n as int));
            },
        }
        k += 1;
    }
    assert(all.take(k - from) =~= all);
    Ok(r)
}

/// A place that something is mounted at: from the root down, step by step.
pub open spec fn is_destination(s: Seq<char>) -> bool {
    s.len() > 1 && s[0] == '/' && (forall|i: int|
        0 <= i < parts_of(s.skip(1), '/').len() ==> is_step(#[trigger] parts_of(s.skip(1), '/')[i]))
        && !s.skip(1).contains('\0')
}

pub open spec fn is_step(part: Seq<char>) -> bool {
    part.len() > 0 && part != "."@ && part != ".."@
}

/// What the helper puts into an engine that runs.
pub struct Bind {
    pub descriptors: Vec<i32>,
    /// The steps from the root down.
    pub steps: Vec<String>,
    pub readonly: bool,
}

/// What arguments to put something into an engine come to: the descriptors, the steps of
/// the place, and whether it is only read.
pub open spec fn bind_of(args: Seq<Seq<char>>) -> Result<
    (Seq<int>, Seq<Seq<char>>, bool),
    Seq<char>,
> {
    if args.len() != 8 {
        Err("invalid Docker bind arguments"@)
    } else {
        match read_descriptors(args.subrange(2, 6), "invalid bind descriptor"@) {
            Err(e) => Err(e),
            Ok(d) => if args[6].len() == 0 || args[6][0] != '/' {
                Err("absolute destination required"@)
            } else if !is_destination(args[6]) {
                Err("invalid destination"@)
            } else if args[7] == "ro"@ {
                Ok((d, parts_of(args[6].skip(1), '/'), true))
            } else if args[7] == "rw"@ {
                Ok((d, parts_of(args[6].skip(1), '/'), false))
            } else {
                Err("invalid mode"@)
            },
        }
    }
}

fn steps(rest: &str) -> (r: Option<Vec<String>>)
    ensures
        match r {
            Some(v) => texts(v@) == parts_of(rest@, '/') && !rest@.contains('\0') && forall|i: int|
                0 <= i < parts_of(rest@, '/').len() ==> is_step(#[trigger] parts_of(rest@, '/')[i]),
            None => rest@.contains('\0') || !(forall|i: int|
                0 <= i < parts_of(rest@, '/').len() ==> is_step(
                    #[trigger] parts_of(rest@, '/')[i],
                )),
        },
{
    let v = split(rest, '/');
    let ghost t = parts_of(rest@, '/');
    let mut k: usize = 0;
    while k < v.len()
        invariant
            k <= v@.len(),
            texts(v@) == t,
            t == parts_of(rest@, '/'),
            forall|i: int| 0 <= i < k ==> is_step(#[trigger] t[i]),
        decreases v@.len() - k,
    {
        assert(t[k as int] == v@[k as int]@);
        let empty = chars(&v[k]).len() == 0;
        if empty || same(&v[k], ".") || same(&v[k], "..") {
            assert(!is_step(parts_of(rest@, '/')[k as int]));
            return None;
        }
        k += 1;
    }
    let c = chars(rest);
    let nul = crate::text::find_char(&c, 0, c.len(), '\0');
    assert(c@.subrange(0, c@.len() as int) =~= rest@);
    proof {
        crate::text::lemma_first_index(rest@, '\0');
    }
    if nul < c.len() {
        return None;
    }
    Some(v)
}

/// What the helper is told to put into an engine that runs.
pub fn parse_bind(args: &Vec<String>) -> (r: Result<Bind, String>)
    ensures
        match bind_of(texts(args@)) {
            Ok((d, s, ro)) => r matches Ok(b) && ints(b.descriptors@) == d && texts(b.steps@) == s
                && b.readonly == ro,
            Err(text) => r matches Err(e) && e@ == text,
        },
{
    let ghost t = texts(args@);
    assert(t.len() == args@.len());
    if args.len() != 8 {
        return Err(String::from_str("invalid Docker bind arguments"));
    }
    assert(t[6] == args@[6]@ && t[7] == args@[7]@);
    let descriptors = descriptors(args, 2, 6, "invalid bind descriptor")?;
    let v = chars(&args[6]);
    if v.len() == 0 || v[0] != '/' {
        return Err(String::from_str("absolute destination required"));
    }
    let rest = span(&v, 1, v.len());
    assert(rest@ =~= args@[6]@.skip(1));
    if v.len() == 1 {
        return Err(String::from_str("invalid destination"));
    }
    let steps = match steps(&rest) {
        Some(s) => s,
        None => {
            return Err(String::from_str("invalid destination"));
        },
    };
    if same(&args[7], "ro") {
        Ok(Bind { descriptors, steps, readonly: true })
    } else if same(&args[7], "rw") {
        Ok(Bind { descriptors, steps, readonly: false })
    } else {
        Err(String::from_str("invalid mode"))
    }
}

/// A port that is passed on between two networks.
pub struct Forward {
    pub descriptors: Vec<i32>,
    pub port: u16,
    pub address: String,
}

/// What arguments to pass on a port come to.
pub open spec fn forward_of(args: Seq<Seq<char>>) -> Result<(Seq<int>, nat, Seq<char>), Seq<char>> {
    if args.len() != 8 {
        Err("invalid forwarding arguments"@)
    } else {
        match read_descriptors(args.subrange(2, 6), "invalid relay descriptor"@) {
            Err(e) => Err(e),
            Ok(d) => match number_in(args[6], 65535) {
                Err(e) => Err(e),
                Ok(port) => if !is_address(args[7]) {
                    Err("invalid IPv4 address syntax"@)
                } else if port == 0 {
                    Err("invalid relay port"@)
                } else {
                    Ok((d, port, args[7]))
                },
            },
        }
    }
}

/// Which port the helper is told to pass on.
pub fn parse_forward(args: &Vec<String>) -> (r: Result<Forward, String>)
    ensures
        match forward_of(texts(args@)) {
            Ok((d, p, a)) => r matches Ok(f) && ints(f.descriptors@) == d && f.port == p
                && f.address@ == a,
            Err(text) => r matches Err(e) && e@ == text,
        },
{
    let ghost t = texts(args@);
    assert(t.len() == args@.len());
    if args.len() != 8 {
        return Err(String::from_str("invalid forwarding arguments"));
    }
    assert(t[6] == args@[6]@ && t[7] == args@[7]@);
    let descriptors = descriptors(args, 2, 6, "invalid relay descriptor")?;
    let port = parse_up_to(&args[6], 65535)?;
    if !address(&args[7]) {
        return Err(String::from_str("invalid IPv4 address syntax"));
    }
    if port == 0 {
        return Err(String::from_str("invalid relay port"));
    }
    Ok(Forward { descriptors, port: port as u16, address: args[7].clone() })
}

/// The namespaces that the helper enters for an engine.
pub open spec fn entry_of(args: Seq<Seq<char>>) -> Result<(int, int), Seq<char>> {
    if args.len() < 5 {
        Err("missing scope entry arguments"@)
    } else {
        match (signed_in(args[2]), signed_in(args[3])) {
            (Err(e), _) => Err(e),
            (_, Err(e)) => Err(e),
            (Ok(user), Ok(net)) => if user < FIRST || net < FIRST || user == net {
                Err("invalid scope descriptors"@)
            } else {
                Ok((user, net))
            },
        }
    }
}

/// The namespaces that the helper is told to enter.
pub fn parse_entry(args: &Vec<String>) -> (r: Result<(i32, i32), String>)
    ensures
        match entry_of(texts(args@)) {
            Ok((user, net)) => r matches Ok((a, b)) && a == user && b == net,
            Err(text) => r matches Err(e) && e@ == text,
        },
{
    let ghost t = texts(args@);
    assert(t.len() == args@.len());
    if args.len() < 5 {
        return Err(String::from_str("missing scope entry arguments"));
    }
    assert(t[2] == args@[2]@ && t[3] == args@[3]@);
    let user = parse_signed(&args[2])?;
    let net = parse_signed(&args[3])?;
    if user < FIRST || net < FIRST || user == net {
        return Err(String::from_str("invalid scope descriptors"));
    }
    Ok((user, net))
}

/// The data of an engine: its name, whether it is kept, the lock that is held for it, and
/// the descriptor to answer by.
pub struct Guard {
    pub name: String,
    pub keep: bool,
    pub lock: Option<i32>,
    pub ready: i32,
}

/// The name of an engine's data: of a scope where it is kept, else one made for a session.
pub open spec fn is_storage_name(name: Seq<char>, keep: bool) -> bool {
    (if keep {
        "scope-"@.is_prefix_of(name) && 7 <= name.len() <= 70
    } else {
        "session-"@.is_prefix_of(name) && name.len() == 14
    }) && forall|i: int| 0 <= i < name.len() ==> storage_char(#[trigger] name[i])
}

pub open spec fn storage_char(c: char) -> bool {
    is_alnum(c) || c == '_' || c == '-'
}

fn storage_name(name: &str, keep: bool) -> (r: bool)
    ensures
        r == is_storage_name(name@, keep),
{
    let v = chars(name);
    let fits = if keep {
        starts_with(name, "scope-") && 7 <= v.len() && v.len() <= 70
    } else {
        starts_with(name, "session-") && v.len() == 14
    };
    if !fits {
        return false;
    }
    let mut k: usize = 0;
    while k < v.len()
        invariant
            v@ == name@,
            k <= v@.len(),
            forall|i: int| 0 <= i < k ==> storage_char(#[trigger] v@[i]),
        decreases v@.len() - k,
    {
        if !alnum(v[k]) && v[k] != '_' && v[k] != '-' {
            assert(!storage_char(name@[k as int]));
            return false;
        }
        k += 1;
    }
    true
}

/// What arguments to guard an engine's data come to.
pub open spec fn guard_of(args: Seq<Seq<char>>) -> Result<
    (Seq<char>, bool, Option<int>, int),
    Seq<char>,
> {
    if args.len() <= 2 {
        Err("missing Docker storage name"@)
    } else if args.len() <= 3 || (args[3] != "keep"@ && args[3] != "delete"@) {
        Err("invalid Docker storage policy"@)
    } else if !is_storage_name(args[2], args[3] == "keep"@) {
        Err("invalid Docker storage name"@)
    } else if args.len() <= 4 {
        Err("missing lock descriptor"@)
    } else {
        let keep = args[3] == "keep"@;
        match signed_in(args[4]) {
            Err(e) => Err(e),
            Ok(lock) => if !(keep && lock >= FIRST) && !(!keep && lock == -1) {
                Err("invalid storage lock"@)
            } else if args.len() <= 5 {
                Err("missing readiness descriptor"@)
            } else {
                match signed_in(args[5]) {
                    Err(e) => Err(e),
                    Ok(ready) => if ready < FIRST || ready == lock {
                        Err("invalid readiness descriptor"@)
                    } else {
                        Ok(
                            (
                                args[2],
                                keep,
                                if keep {
                                    Some(lock)
                                } else {
                                    None
                                },
                                ready,
                            ),
                        )
                    },
                }
            },
        }
    }
}

/// Whether a guard is what its arguments say.
pub open spec fn is_guard(g: Guard, v: (Seq<char>, bool, Option<int>, int)) -> bool {
    g.name@ == v.0 && g.keep == v.1 && g.ready == v.3 && match (g.lock, v.2) {
        (Some(a), Some(b)) => a == b,
        (None, None) => true,
        _ => false,
    }
}

/// Which data the helper is told to guard.
pub fn parse_guard(args: &Vec<String>) -> (r: Result<Guard, String>)
    ensures
        match guard_of(texts(args@)) {
            Ok(v) => r matches Ok(g) && is_guard(g, v),
            Err(text) => r matches Err(e) && e@ == text,
        },
{
    let ghost t = texts(args@);
    assert(t.len() == args@.len());
    assert(forall|i: int| 0 <= i < args@.len() ==> t[i] == #[trigger] args@[i]@);
    if args.len() <= 2 {
        return Err(String::from_str("missing Docker storage name"));
    }
    if args.len() <= 3 {
        return Err(String::from_str("invalid Docker storage policy"));
    }
    let keep = same(&args[3], "keep");
    if !keep && !same(&args[3], "delete") {
        return Err(String::from_str("invalid Docker storage policy"));
    }
    if !storage_name(&args[2], keep) {
        return Err(String::from_str("invalid Docker storage name"));
    }
    if args.len() <= 4 {
        return Err(String::from_str("missing lock descriptor"));
    }
    let lock = parse_signed(&args[4])?;
    if !(keep && lock >= FIRST) && !(!keep && lock == -1) {
        return Err(String::from_str("invalid storage lock"));
    }
    if args.len() <= 5 {
        return Err(String::from_str("missing readiness descriptor"));
    }
    let ready = parse_signed(&args[5])?;
    if ready < FIRST || ready == lock {
        return Err(String::from_str("invalid readiness descriptor"));
    }
    Ok(
        Guard {
            name: args[2].clone(),
            keep,
            lock: if keep {
                Some(lock)
            } else {
                None
            },
            ready,
        },
    )
}

/// Whether the helper is mapped as it needs to be to guard an engine.
pub fn check_mapped(user: u32, map: &str) -> (r: Result<(), String>)
    ensures
        if user != 0 || words_of(map@).len() != 6 {
            r matches Err(e) && e@
                == "Docker bootstrap requires the launcher-provided subordinate UID mapping"@
        } else {
            r is Ok
        },
{
    let w = words(map);
    assert(texts(w@).len() == w@.len());
    if user != 0 || w.len() != 6 {
        return Err(
            String::from_str(
                "Docker bootstrap requires the launcher-provided subordinate UID mapping",
            ),
        );
    }
    Ok(())
}

/// Two things that have to be one, by their numbers.
pub fn check_same(a: u64, b: u64, complaint: &str) -> (r: Result<(), String>)
    ensures
        if a == b {
            r is Ok
        } else {
            r matches Err(e) && e@ == complaint@
        },
{
    if a != b {
        return Err(String::from_str(complaint));
    }
    Ok(())
}

/// Whether the data that stands under a name is what the engine was given.
pub fn check_storage(directory: bool, actual: (u64, u64), expected: (u64, u64)) -> (r: Result<
    (),
    String,
>)
    ensures
        if directory && actual == expected {
            r is Ok
        } else {
            r matches Err(e) && e@ == "Docker storage identity mismatch"@
        },
{
    if !directory || actual.0 != expected.0 || actual.1 != expected.1 {
        return Err(String::from_str("Docker storage identity mismatch"));
    }
    Ok(())
}

/// What an ended process counts as: its own code, or 128 and the signal that ended it.
pub fn exit_status(exited: bool, code: i32, signal: i32) -> (r: i32)
    requires
        0 <= signal <= 127,
    ensures
        r == if exited {
            code as int
        } else {
            128 + signal
        },
{
    if exited {
        code
    } else {
        128 + signal
    }
}

/// The descriptors that a session's helper is started with: the payload's input and
/// output, and its filter.
pub open spec fn launch_of(args: Seq<Seq<char>>) -> Result<(int, int, int), Seq<char>> {
    if args.len() < 6 {
        Err("expected host launcher arguments"@)
    } else {
        match (signed_in(args[1]), signed_in(args[2]), signed_in(args[3])) {
            (Err(e), _, _) => Err(e),
            (_, Err(e), _) => Err(e),
            (_, _, Err(e)) => Err(e),
            (Ok(a), Ok(b), Ok(c)) => Ok((a, b, c)),
        }
    }
}

/// The descriptors that a session's helper is started with.
pub fn parse_launch(args: &Vec<String>) -> (r: Result<(i32, i32, i32), String>)
    ensures
        match launch_of(texts(args@)) {
            Ok((a, b, c)) => r matches Ok((x, y, z)) && x == a && y == b && z == c,
            Err(text) => r matches Err(e) && e@ == text,
        },
{
    let ghost t = texts(args@);
    assert(t.len() == args@.len());
    if args.len() < 6 {
        return Err(String::from_str("expected host launcher arguments"));
    }
    assert(t[1] == args@[1]@ && t[2] == args@[2]@ && t[3] == args@[3]@);
    let input = parse_signed(&args[1])?;
    let output = parse_signed(&args[2])?;
    let filter = parse_signed(&args[3])?;
    Ok((input, output, filter))
}

/// The numbers that the parts of a list write, or why the first of them is none. Parts that
/// hold nothing do not count.
pub open spec fn listed(parts: Seq<Seq<char>>) -> Result<Seq<int>, Seq<char>>
    decreases parts.len(),
{
    if parts.len() == 0 {
        Ok(Seq::empty())
    } else {
        match listed(parts.drop_last()) {
            Err(e) => Err(e),
            Ok(most) => if parts.last().len() == 0 {
                Ok(most)
            } else {
                match signed_in(parts.last()) {
                    Ok(n) => Ok(most.push(n)),
                    Err(e) => Err(e),
                }
            },
        }
    }
}

pub open spec fn signed_numbers(v: Seq<i32>) -> Seq<int> {
    v.map_values(|n: i32| n as int)
}

proof fn lemma_listed_fails(parts: Seq<Seq<char>>, n: int)
    requires
        0 <= n <= parts.len(),
        listed(parts.take(n)) is Err,
    ensures
        listed(parts) == listed(parts.take(n)),
    decreases parts.len() - n,
{
    if n < parts.len() {
        assert(parts.take(n + 1).drop_last() =~= parts.take(n));
        lemma_listed_fails(parts, n + 1);
    } else {
        assert(parts.take(n) =~= parts);
    }
}

/// The descriptors of a list that a session's helper is told to pass on.
pub fn parse_sources(list: &str) -> (r: Result<Vec<i32>, String>)
    ensures
        match listed(parts_of(list@, ',')) {
            Ok(v) => r matches Ok(w) && signed_numbers(w@) == v,
            Err(text) => r matches Err(e) && e@ == text,
        },
{
    let parts = split(list, ',');
    let ghost all = texts(parts@);
    let mut r: Vec<i32> = Vec::new();
    let mut k: usize = 0;
    assert(all.take(0) =~= Seq::empty());
    assert(signed_numbers(r@) =~= Seq::empty());
    while k < parts.len()
        invariant
            k <= parts@.len(),
            all == texts(parts@),
            all == parts_of(list@, ','),
            listed(all.take(k as int)) == Ok::<Seq<int>, Seq<char>>(signed_numbers(r@)),
        decreases parts@.len() - k,
    {
        assert(all.take(k + 1).drop_last() =~= all.take(k as int));
        assert(all.take(k + 1).last() == parts@[k as int]@);
        proof {
            reveal_strlit("");
            if parts@[k as int]@.len() == 0 {
                assert(parts@[k as int]@ =~= ""@);
            }
        }
        if !same(parts[k].as_str(), "") {
            match parse_signed(parts[k].as_str()) {
                Ok(n) => {
                    let ghost before = signed_numbers(r@);
                    r.push(n);
                    assert(signed_numbers(r@) =~= before.push(n as int));
                },
                Err(e) => {
                    proof {
                        assert(listed(all.take(k + 1)) == Err::<Seq<int>, Seq<char>>(e@));
                        lemma_listed_fails(all, k + 1);
                    }
                    return Err(e);
                },
            }
        }
        k += 1;
    }
    assert(all.take(k as int) =~= all);
    Ok(r)
}

/// A text without the commas that it ends in.
pub open spec fn without_commas(s: Seq<char>) -> Seq<char>
    decreases s.len(),
{
    if s.len() > 0 && s.last() == ',' {
        without_commas(s.drop_last())
    } else {
        s
    }
}

/// The process that a line of the sandbox's maker names, or nothing where it names none.
/// A line that names something else than a number takes back what was named before.
pub open spec fn named_pid(line: Seq<char>) -> Option<Option<nat>> {
    let t = trimmed(line);
    if "\"child-pid\":"@.is_prefix_of(t) {
        match number_in(without_commas(trimmed(t.skip(12))), u32::MAX as nat) {
            Ok(n) => Some(Some(n)),
            Err(_) => Some(None),
        }
    } else {
        None
    }
}

/// The process that a line of the sandbox's maker names.
pub fn info_pid(line: &str) -> (r: Option<Option<u32>>)
    ensures
        match named_pid(line@) {
            None => r is None,
            Some(None) => r matches Some(None),
            Some(Some(n)) => r matches Some(Some(m)) && m == n,
        },
{
    let v = chars(line);
    let (from, to) = trim(&v, 0, v.len());
    let t = span(&v, from, to);
    assert(v@.subrange(0, v@.len() as int) =~= line@);
    proof {
        reveal_strlit("\"child-pid\":");
        assert("\"child-pid\":"@.len() == 12);
    }
    if !starts_with(&t, "\"child-pid\":") {
        return None;
    }
    let w = chars(&t);
    let (a, b) = trim(&w, 12, w.len());
    let ghost rest = trimmed(t@.skip(12));
    assert(w@.subrange(12, w@.len() as int) =~= t@.skip(12));
    let mut end: usize = b;
    assert(w@.subrange(a as int, b as int) == rest);
    while end > a && w[end - 1] == ','
        invariant
            a <= end <= b <= w@.len(),
            without_commas(w@.subrange(a as int, end as int)) == without_commas(rest),
        decreases end,
    {
        assert(w@.subrange(a as int, end as int).drop_last() =~= w@.subrange(a as int, end - 1));
        end -= 1;
    }
    let n = span(&w, a, end);
    assert(n@ == without_commas(rest)) by {
        assert(n@ =~= w@.subrange(a as int, end as int));
    }
    match parse_up_to(&n, 0xFFFF_FFFF) {
        Ok(m) => Some(Some(m as u32)),
        Err(_) => Some(None),
    }
}

/// What a line tells the helper to do.
pub enum Command {
    /// The controller is gone, or wants it to end.
    Stop,
    /// Show a store object.
    Show(String),
}

/// What bytes up to the end of a line, at most as many as are read, tell the helper.
pub open spec fn command_of(bytes: Seq<u8>) -> Result<Option<Seq<char>>, Seq<char>> {
    if bytes.len() == 0 {
        Ok(None)
    } else if bytes.last() != 10 {
        Err("oversized helper command"@)
    } else {
        let line = bytes.drop_last();
        if !valid_utf8(line) {
            Err(utf8_complaint(line))
        } else if decode_utf8(line) == "STOP"@ {
            Ok(None)
        } else if !is_store_name(decode_utf8(line)) {
            Err("invalid canonical store basename"@)
        } else {
            Ok(Some(decode_utf8(line)))
        }
    }
}

/// What bytes tell the helper to do: it shows objects of the store by their names, and
/// nothing else.
pub fn command(bytes: &Vec<u8>) -> (r: Result<Command, String>)
    ensures
        match command_of(bytes@) {
            Ok(None) => r matches Ok(c) && c is Stop,
            Ok(Some(name)) => r matches Ok(c) && c is Show && c->Show_0@ == name,
            Err(text) => r matches Err(e) && e@ == text,
        },
{
    if bytes.len() == 0 {
        return Ok(Command::Stop);
    }
    if bytes[bytes.len() - 1] != 10 {
        return Err(String::from_str("oversized helper command"));
    }
    let mut line: Vec<u8> = bytes.clone();
    line.pop();
    assert(line@ =~= bytes@.drop_last());
    let name = from_utf8(line.as_slice())?;
    if same(&name, "STOP") {
        return Ok(Command::Stop);
    }
    if !valid_name(&name) {
        return Err(String::from_str("invalid canonical store basename"));
    }
    Ok(Command::Show(name))
}

/// The helper shows nothing but single objects of the store.
pub proof fn only_store_objects_are_shown(bytes: Seq<u8>)
    ensures
        match command_of(bytes) {
            Ok(Some(name)) => is_store_name(name) && !name.contains('/'),
            _ => true,
        },
{
    match command_of(bytes) {
        Ok(Some(name)) => {
            crate::store::a_store_name_is_one_object(name);
        },
        _ => {},
    }
}

/// Descriptors that the helper takes over are never the standard ones, and none is taken
/// over twice.
pub proof fn descriptors_are_taken_once(args: Seq<Seq<char>>, complaint: Seq<char>)
    ensures
        match read_descriptors(args, complaint) {
            Ok(v) => v.len() == args.len() && v.no_duplicates() && forall|i: int|
                0 <= i < v.len() ==> #[trigger] v[i] >= FIRST,
            Err(_) => true,
        },
    decreases args.len(),
{
    if args.len() > 0 {
        descriptors_are_taken_once(args.drop_last(), complaint);
        match read_descriptors(args, complaint) {
            Ok(v) => {
                let before = v.drop_last();
                assert(before =~= read_descriptors(args.drop_last(), complaint)->Ok_0);
                assert forall|i: int, j: int| 0 <= i < j < v.len() implies v[i] != v[j] by {
                    if j == v.len() - 1 {
                        assert(before[i] == v[i]);
                    } else {
                        assert(before[i] == v[i] && before[j] == v[j]);
                    }
                }
            },
            Err(_) => {},
        }
    }
}

/// Descriptors are taken over as they were named, in order.
pub proof fn named_descriptors_are_taken(v: Seq<nat>, complaint: Seq<char>)
    requires
        v.no_duplicates(),
        forall|i: int| 0 <= i < v.len() ==> 3 <= #[trigger] v[i] <= i32::MAX,
    ensures
        read_descriptors(v.map_values(|n: nat| decimal_of(n)), complaint) == Ok::<
            Seq<int>,
            Seq<char>,
        >(v.map_values(|n: nat| n as int)),
    decreases v.len(),
{
    let args = v.map_values(|n: nat| decimal_of(n));
    let all = v.map_values(|n: nat| n as int);
    if v.len() == 0 {
        assert(all =~= Seq::empty());
    } else {
        let most = v.drop_last();
        assert forall|i: int| 0 <= i < most.len() implies 3 <= #[trigger] most[i] <= i32::MAX by {
            assert(most[i] == v[i]);
        }
        assert(most.no_duplicates()) by {
            assert forall|i: int, j: int| 0 <= i < j < most.len() implies most[i] != most[j] by {
                assert(most[i] == v[i] && most[j] == v[j]);
            }
        }
        named_descriptors_are_taken(most, complaint);
        assert(args.drop_last() =~= most.map_values(|n: nat| decimal_of(n)));
        let before = most.map_values(|n: nat| n as int);
        let last = v.last();
        assert(args.last() == decimal_of(last));
        assert(last == v[v.len() - 1]);
        a_signed_number_is_read_back(last);
        assert(!before.contains(last as int)) by {
            if before.contains(last as int) {
                let i = choose|i: int| 0 <= i < before.len() && before[i] == last as int;
                assert(v[i] == last);
            }
        }
        assert(all =~= before.push(last as int));
    }
}

/// A directory is mounted through the four descriptors that were named, at the place that was
/// named, and read-only where that was asked for.
pub proof fn a_bind_is_read(v: Seq<nat>, args: Seq<Seq<char>>)
    requires
        v.len() == 4,
        v.no_duplicates(),
        forall|i: int| 0 <= i < v.len() ==> 3 <= #[trigger] v[i] <= i32::MAX,
        args.len() == 8,
        args.subrange(2, 6) == v.map_values(|n: nat| decimal_of(n)),
        is_destination(args[6]),
        args[7] == "ro"@ || args[7] == "rw"@,
    ensures
        bind_of(args) == Ok::<(Seq<int>, Seq<Seq<char>>, bool), Seq<char>>(
            (
                v.map_values(|n: nat| n as int),
                parts_of(args[6].skip(1), '/'),
                args[7] == "ro"@,
            ),
        ),
{
    reveal_strlit("ro");
    reveal_strlit("rw");
    assert("ro"@[1] != "rw"@[1]);
    named_descriptors_are_taken(v, "invalid bind descriptor"@);
}

/// What is mounted has a place below the root, which leads neither back nor around.
pub proof fn a_destination_leads_down(args: Seq<Seq<char>>, i: int)
    ensures
        bind_of(args) matches Ok((d, steps, ro)) ==> (args[6][0] == '/' && (0 <= i < steps.len()
            ==> steps[i].len() > 0 && steps[i] != "."@ && steps[i] != ".."@)),
{
    if bind_of(args) is Ok && 0 <= i < parts_of(args[6].skip(1), '/').len() {
        assert(is_step(parts_of(args[6].skip(1), '/')[i]));
    }
}

/// A port is passed on through the four descriptors that were named, to the address and port that
/// were named.
pub proof fn a_forward_is_read(v: Seq<nat>, port: nat, args: Seq<Seq<char>>)
    requires
        v.len() == 4,
        v.no_duplicates(),
        forall|i: int| 0 <= i < v.len() ==> 3 <= #[trigger] v[i] <= i32::MAX,
        args.len() == 8,
        args.subrange(2, 6) == v.map_values(|n: nat| decimal_of(n)),
        args[6] == decimal_of(port),
        is_address(args[7]),
    ensures
        1 <= port <= 65535 ==> forward_of(args) == Ok::<(Seq<int>, nat, Seq<char>), Seq<char>>(
            (v.map_values(|n: nat| n as int), port, args[7]),
        ),
        !(1 <= port <= 65535) ==> forward_of(args) is Err,
{
    named_descriptors_are_taken(v, "invalid relay descriptor"@);
    a_signed_number_is_read_back(port);
}

/// A scope is entered through the two descriptors that were named, and no standard one.
pub proof fn an_entry_is_read(user: nat, net: nat, args: Seq<Seq<char>>)
    requires
        args.len() >= 5,
        args[2] == decimal_of(user),
        args[3] == decimal_of(net),
    ensures
        3 <= user <= i32::MAX && 3 <= net <= i32::MAX && user != net ==> entry_of(args) == Ok::<
            (int, int),
            Seq<char>,
        >((user as int, net as int)),
        user < 3 || net < 3 || user == net ==> entry_of(args) is Err,
{
    a_signed_number_is_read_back(user);
    a_signed_number_is_read_back(net);
}

/// Data that is kept is guarded under its lock, and data that goes with its session without one.
pub proof fn a_guard_is_read(lock: nat, ready: nat, args: Seq<Seq<char>>)
    requires
        args.len() >= 6,
        args[5] == decimal_of(ready),
        3 <= ready <= i32::MAX,
        3 <= lock <= i32::MAX,
        lock != ready,
    ensures
        args[3] == "keep"@ && args[4] == decimal_of(lock) && is_storage_name(args[2], true)
            ==> guard_of(args) == Ok::<(Seq<char>, bool, Option<int>, int), Seq<char>>(
            (args[2], true, Some(lock as int), ready as int),
        ),
        args[3] == "delete"@ && args[4] == "-1"@ && is_storage_name(args[2], false) ==> guard_of(
            args,
        ) == Ok::<(Seq<char>, bool, Option<int>, int), Seq<char>>(
            (args[2], false, None, ready as int),
        ),
{
    reveal_strlit("keep");
    reveal_strlit("delete");
    assert("keep"@.len() != "delete"@.len());
    a_signed_number_is_read_back(lock);
    a_signed_number_is_read_back(ready);
    a_signed_number_is_read_back(1);
    reveal_strlit("-1");
    reveal_strlit("-");
    assert(decimal_of(1) =~= seq!['1']);
    assert("-1"@ =~= "-"@ + decimal_of(1));
}

/// A launcher is told three numbers.
pub proof fn a_launch_is_read(a: nat, b: nat, c: nat, args: Seq<Seq<char>>)
    requires
        args.len() >= 6,
        a <= i32::MAX,
        b <= i32::MAX,
        c <= i32::MAX,
        args[1] == decimal_of(a),
        args[2] == decimal_of(b),
        args[3] == decimal_of(c),
    ensures
        launch_of(args) == Ok::<(int, int, int), Seq<char>>((a as int, b as int, c as int)),
{
    a_signed_number_is_read_back(a);
    a_signed_number_is_read_back(b);
    a_signed_number_is_read_back(c);
}

/// A list of numbers is read in order.
pub proof fn a_list_is_read_in_order(v: Seq<nat>)
    requires
        forall|i: int| 0 <= i < v.len() ==> #[trigger] v[i] <= i32::MAX,
    ensures
        listed(v.map_values(|n: nat| decimal_of(n))) == Ok::<Seq<int>, Seq<char>>(
            v.map_values(|n: nat| n as int),
        ),
    decreases v.len(),
{
    let args = v.map_values(|n: nat| decimal_of(n));
    let all = v.map_values(|n: nat| n as int);
    if v.len() == 0 {
        assert(all =~= Seq::empty());
    } else {
        let most = v.drop_last();
        assert forall|i: int| 0 <= i < most.len() implies #[trigger] most[i] <= i32::MAX by {
            assert(most[i] == v[i]);
        }
        a_list_is_read_in_order(most);
        assert(args.drop_last() =~= most.map_values(|n: nat| decimal_of(n)));
        assert(v.last() == v[v.len() - 1]);
        assert(args.last() == decimal_of(v.last()));
        a_signed_number_is_read_back(v.last());
        lemma_has_digits(v.last());
        assert(all =~= most.map_values(|n: nat| n as int).push(v.last() as int));
    }
}

proof fn lemma_has_digits(n: nat)
    ensures
        decimal_of(n).len() > 0,
    decreases n,
{
}

/// The helper shows the object that a line names, and stops where it is told to or where nothing
/// more comes.
pub proof fn a_command_is_what_its_line_says(line: Seq<u8>)
    requires
        valid_utf8(line),
    ensures
        is_store_name(decode_utf8(line)) ==> command_of(line.push(10)) == Ok::<
            Option<Seq<char>>,
            Seq<char>,
        >(Some(decode_utf8(line))),
        decode_utf8(line) == "STOP"@ ==> command_of(line.push(10)) == Ok::<
            Option<Seq<char>>,
            Seq<char>,
        >(None),
        command_of(Seq::empty()) == Ok::<Option<Seq<char>>, Seq<char>>(None),
        line.len() > 0 && line.last() != 10 ==> command_of(line) is Err,
{
    assert(line.push(10).drop_last() =~= line);
    if is_store_name(decode_utf8(line)) {
        crate::store::a_store_name_is_one_object(decode_utf8(line));
    }
}

} // verus!
