//! The namespaces of a container scope. They exist whether or not an engine runs.
use vstd::prelude::*;

use crate::arguments::{put_each, put_three, put_two};
use crate::config::Launch;
use crate::network::Wait;
use crate::numbers::{number_in, parse_up_to};
use crate::session_laws::{lemma_says_at, says};
use crate::text::{chars, decimal, decimal_of, span, texts, trim, trimmed, words, words_of};

verus! {

/// How many processes are looked at for the one that keeps the network.
pub const KEEPERS: usize = 4;

/// A scope is made by an ordinary user.
pub fn check_user(user: u32) -> (r: Result<(), String>)
    ensures
        if user == 0 {
            r matches Err(e) && e@ == "run Docker-enabled Goblins as a non-root host user"@
        } else {
            r is Ok
        },
{
    if user == 0 {
        return Err(String::from_str("run Docker-enabled Goblins as a non-root host user"));
    }
    Ok(())
}

/// The arguments that make a scope: all namespaces are its own, it sees the store and a
/// directory to answer by, and it waits until its users are mapped.
pub open spec fn scope_line(l: Launch, info: nat, gate: nat, state: Seq<char>) -> Seq<Seq<char>> {
    seq![
        "--unshare-all"@,
        "--unshare-user"@,
        "--uid"@,
        "0"@,
        "--gid"@,
        "0"@,
        "--cap-add"@,
        "ALL"@,
        "--die-with-parent"@,
        "--new-session"@,
        "--clearenv"@,
        "--info-fd"@,
        decimal_of(info),
        "--userns-block-fd"@,
        decimal_of(gate),
        "--ro-bind"@,
        "/nix/store"@,
        "/nix/store"@,
        "--proc"@,
        "/proc"@,
        "--dev"@,
        "/dev"@,
        "--bind"@,
        state,
        "/run/goblins-scope"@,
        "--remount-ro"@,
        "/"@,
        "--"@,
        l.helper@,
        "--docker-scope"@,
    ]
}

/// The arguments that make a scope.
pub fn scope_args(l: &Launch, info: u32, gate: u32, state: &str) -> (r: Vec<String>)
    ensures
        texts(r@) == scope_line(*l, info as nat, gate as nat, state@),
{
    let mut r: Vec<String> = Vec::new();
    put_each(
        &mut r,
        [
            "--unshare-all",
            "--unshare-user",
            "--uid",
            "0",
            "--gid",
            "0",
            "--cap-add",
            "ALL",
            "--die-with-parent",
            "--new-session",
            "--clearenv",
        ],
    );
    put_two(&mut r, "--info-fd", &decimal(info as u64));
    put_two(&mut r, "--userns-block-fd", &decimal(gate as u64));
    put_each(&mut r, ["--ro-bind", "/nix/store", "/nix/store", "--proc", "/proc", "--dev", "/dev"]);
    put_three(&mut r, "--bind", state, "/run/goblins-scope");
    put_three(&mut r, "--remount-ro", "/", "--");
    put_two(&mut r, &l.helper, "--docker-scope");
    assert(texts(r@) =~= scope_line(*l, info as nat, gate as nat, state@));
    r
}

/// The number of a process, where it can be one.
pub fn process_number(n: u64) -> (r: Result<u32, String>)
    ensures
        if n <= u32::MAX {
            r matches Ok(m) && m == n
        } else {
            r matches Err(e) && e@ == "out of range integral type conversion attempted"@
        },
{
    if n <= 0xFFFF_FFFF {
        Ok(n as u32)
    } else {
        Err(String::from_str("out of range integral type conversion attempted"))
    }
}

/// What is done while a scope starts, by the file that it writes.
pub fn starting(written: bool, exited: bool, expired: bool) -> (r: Result<Wait, String>)
    ensures
        if written {
            r matches Ok(w) && w == Wait::Ready
        } else if exited || expired {
            r matches Err(e) && e@ == "Docker scope startup failed"@
        } else {
            r matches Ok(w) && w == Wait::Again
        },
{
    if written {
        Ok(Wait::Ready)
    } else if exited || expired {
        Err(String::from_str("Docker scope startup failed"))
    } else {
        Ok(Wait::Again)
    }
}

/// The number that a scope wrote.
pub fn written_number(text: &str) -> (r: Result<u32, String>)
    ensures
        match number_in(trimmed(text@), u32::MAX as nat) {
            Ok(n) => r matches Ok(m) && m == n,
            Err(e) => r matches Err(t) && t@ == e,
        },
{
    let v = chars(text);
    let (from, to) = trim(&v, 0, v.len());
    let t = span(&v, from, to);
    assert(v@.subrange(0, v@.len() as int) =~= text@);
    match parse_up_to(&t, 0xFFFF_FFFF) {
        Ok(n) => Ok(n as u32),
        Err(e) => Err(e),
    }
}

/// What the search for the process that keeps the network comes to.
pub enum Search {
    /// The process that was looked at keeps it.
    Found,
    /// Its one child is looked at next.
    Next(u32),
}

/// What the search for the keeper comes to, with how many processes were looked at,
/// whether the one at hand is in the network of the scope, and its children.
pub open spec fn search_step(looked: nat, keeps: bool, children: Seq<char>) -> Result<
    Option<nat>,
    Seq<char>,
> {
    let w = words_of(children);
    if looked >= KEEPERS {
        Err("scope keeper identity mismatch"@)
    } else if keeps {
        Ok(None)
    } else if w.len() != 1 {
        Err("unexpected scope keeper children"@)
    } else {
        match number_in(w[0], u32::MAX as nat) {
            Ok(n) => Ok(Some(n)),
            Err(e) => Err(e),
        }
    }
}

/// What the search for the keeper comes to.
pub fn search(looked: usize, keeps: bool, children: &str) -> (r: Result<Search, String>)
    ensures
        match search_step(looked as nat, keeps, children@) {
            Ok(None) => r matches Ok(s) && s is Found,
            Ok(Some(n)) => r matches Ok(s) && s is Next && s->Next_0 == n,
            Err(text) => r matches Err(e) && e@ == text,
        },
{
    if looked >= KEEPERS {
        return Err(String::from_str("scope keeper identity mismatch"));
    }
    if keeps {
        return Ok(Search::Found);
    }
    let w = words(children);
    assert(texts(w@).len() == w@.len());
    if w.len() != 1 {
        return Err(String::from_str("unexpected scope keeper children"));
    }
    assert(texts(w@)[0] == w@[0]@);
    match parse_up_to(&w[0], 0xFFFF_FFFF) {
        Ok(n) => Ok(Search::Next(n as u32)),
        Err(e) => Err(e),
    }
}

/// The search for the keeper goes from each process to its only child, and ends at the keeper.
pub proof fn the_keeper_is_looked_for_below(looked: nat, children: Seq<char>, n: nat)
    requires
        looked < KEEPERS,
        words_of(children) == seq![decimal_of(n)],
        n <= u32::MAX,
    ensures
        search_step(looked, true, children) == Ok::<Option<nat>, Seq<char>>(None),
        search_step(looked, false, children) == Ok::<Option<nat>, Seq<char>>(Some(n)),
{
    crate::numbers::a_signed_number_is_read_back(n);
    assert(words_of(children)[0] == decimal_of(n));
}

/// A search that branches, or goes on too long, fails.
pub proof fn a_search_does_not_branch(looked: nat, children: Seq<char>)
    ensures
        words_of(children).len() != 1 ==> search_step(looked, false, children) is Err,
        looked >= KEEPERS ==> search_step(looked, true, children) is Err,
{
}

/// A scope is cut off from all that is outside but its own state and the store, which it can only
/// read.
pub proof fn a_scope_is_cut_off(l: Launch, info: nat, gate: nat, state: Seq<char>)
    ensures
        says(scope_line(l, info, gate, state), seq!["--unshare-all"@]),
        says(scope_line(l, info, gate, state), seq!["--clearenv"@]),
        says(scope_line(l, info, gate, state), seq!["--die-with-parent"@]),
        says(scope_line(l, info, gate, state), seq!["--ro-bind"@, "/nix/store"@, "/nix/store"@]),
        says(scope_line(l, info, gate, state), seq!["--bind"@, state, "/run/goblins-scope"@]),
        says(scope_line(l, info, gate, state), seq!["--remount-ro"@, "/"@]),
        says(scope_line(l, info, gate, state), seq!["--info-fd"@, decimal_of(info)]),
        says(scope_line(l, info, gate, state), seq!["--userns-block-fd"@, decimal_of(gate)]),
        says(scope_line(l, info, gate, state), seq!["--"@, l.helper@, "--docker-scope"@]),
{
    let a = scope_line(l, info, gate, state);
    lemma_says_at(a, 0, seq!["--unshare-all"@]);
    lemma_says_at(a, 10, seq!["--clearenv"@]);
    lemma_says_at(a, 8, seq!["--die-with-parent"@]);
    lemma_says_at(a, 15, seq!["--ro-bind"@, "/nix/store"@, "/nix/store"@]);
    lemma_says_at(a, 22, seq!["--bind"@, state, "/run/goblins-scope"@]);
    lemma_says_at(a, 25, seq!["--remount-ro"@, "/"@]);
    lemma_says_at(a, 11, seq!["--info-fd"@, decimal_of(info)]);
    lemma_says_at(a, 13, seq!["--userns-block-fd"@, decimal_of(gate)]);
    lemma_says_at(a, 27, seq!["--"@, l.helper@, "--docker-scope"@]);
}

} // verus!
