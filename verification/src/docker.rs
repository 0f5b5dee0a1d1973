//! A container engine of the sandbox: where it keeps its data, which users it has, and
//! how it is started. No engine of the host is used.
use vstd::prelude::*;

use crate::arguments::{put, put_all, put_each, put_three, put_two};
use crate::config::{member, Launch};
use crate::json::Json;
use crate::network::Wait;
use crate::numbers::{number_in, parse_up_to};
use crate::paths::{absolute, file_name, is_absolute, join, joined, name_of, parent, parent_of};
use crate::protocol::{docker_scope_name, is_scope_name};
use crate::session_laws::{lemma_says_at, says};
use crate::store::told;
use crate::text::{
    chars, decimal, decimal_of, lines, lines_of, maybe, parts_of, same, span, split, starts_with,
    texts, trim, trimmed,
};

verus! {

/// The kinds of file systems that live in memory.
pub const TMPFS: u64 = 0x0102_1994;

pub const RAMFS: u64 = 0x8584_58f6;

/// How many users and groups a container engine has beside its own.
pub const SUBORDINATES: u32 = 65536;

/// How much of the end of an engine's log is told.
pub const TAIL: usize = 380;

/// Where container engines keep their data, by the variables that say where caches go:
/// one that is relative does not count.
pub open spec fn cache_root(cache: Option<Seq<char>>, home: Option<Seq<char>>) -> Result<
    Seq<char>,
    Seq<char>,
> {
    let base = match cache {
        Some(c) => if is_absolute(c) {
            Some(c)
        } else {
            match home {
                Some(h) => Some(joined(h, ".cache"@)),
                None => None,
            }
        },
        None => match home {
            Some(h) => Some(joined(h, ".cache"@)),
            None => None,
        },
    };
    match base {
        None => Err("Docker storage requires HOME or an absolute XDG_CACHE_HOME"@),
        Some(b) => if is_absolute(b) {
            Ok(joined(b, "goblins/docker"@))
        } else {
            Err("Docker cache directory must be absolute"@)
        },
    }
}

/// Where container engines keep their data.
pub fn storage_root(cache: &Option<String>, home: &Option<String>) -> (r: Result<String, String>)
    ensures
        told(r) == cache_root(maybe(*cache), maybe(*home)),
{
    let mut base: Option<String> = None;
    if let Some(c) = cache {
        if absolute(c) {
            base = Some(c.clone());
        }
    }
    if base.is_none() {
        if let Some(h) = home {
            base = Some(join(h, ".cache"));
        }
    }
    match base {
        None => Err(
            String::from_str("Docker storage requires HOME or an absolute XDG_CACHE_HOME"),
        ),
        Some(b) => if absolute(&b) {
            Ok(join(&b, "goblins/docker"))
        } else {
            Err(String::from_str("Docker cache directory must be absolute"))
        },
    }
}

/// One step up from a path that does not exist: its name, and where it would stand.
pub fn climb(path: &str) -> (r: Result<(String, String), String>)
    ensures
        if name_of(path@) is None || parent_of(path@) is None {
            r matches Err(e) && e@ == "invalid Docker cache path"@
        } else {
            r matches Ok((name, above)) && name@ == name_of(path@)->0 && above@ == parent_of(
                path@,
            )->0
        },
{
    match (file_name(path), parent(path)) {
        (Some(name), Some(above)) => Ok((name, above)),
        _ => Err(String::from_str("invalid Docker cache path")),
    }
}

/// A path with names put below it, of which the last was taken off first.
pub open spec fn descended(path: Seq<char>, names: Seq<Seq<char>>) -> Seq<char>
    decreases names.len(),
{
    if names.len() == 0 {
        path
    } else {
        descended(joined(path, names.last()), names.drop_last())
    }
}

/// Puts names below a path again that were taken off it.
pub fn descend(path: &str, names: &Vec<String>) -> (r: String)
    ensures
        r@ == descended(path@, texts(names@)),
{
    let mut r = String::from_str(path);
    let ghost all = texts(names@);
    let mut k: usize = names.len();
    assert(all.take(k as int) =~= all);
    while k > 0
        invariant
            k <= names@.len(),
            all == texts(names@),
            descended(r@, all.take(k as int)) == descended(path@, all),
        decreases k,
    {
        assert(all.take(k as int).last() == names@[k - 1]@);
        assert(all.take(k as int).drop_last() =~= all.take(k - 1));
        r = join(&r, &names[k - 1]);
        k -= 1;
    }
    assert(all.take(0) =~= Seq::empty());
    r
}

/// Data is kept on a disk.
pub fn check_filesystem(kind: u64) -> (r: Result<(), String>)
    ensures
        if kind == TMPFS || kind == RAMFS {
            r matches Err(e) && e@
                == "Docker storage must be disk-backed; set XDG_CACHE_HOME to a disk filesystem before starting Goblins"@
        } else {
            r is Ok
        },
{
    if kind == TMPFS || kind == RAMFS {
        return Err(
            String::from_str(
                "Docker storage must be disk-backed; set XDG_CACHE_HOME to a disk filesystem before starting Goblins",
            ),
        );
    }
    Ok(())
}

/// Where the engine of a scope keeps its lock and its data.
pub fn scope_paths(root: &str, name: &str) -> (r: Result<(String, String), String>)
    ensures
        if is_scope_name(name@) {
            r matches Ok((lock, data)) && lock@ == joined(joined(root@, "locks"@), name@) && data@
                == joined(root@, "scope-"@ + name@)
        } else {
            r matches Err(e) && e@ == "invalid scope name"@
        },
{
    if !docker_scope_name(name) {
        return Err(String::from_str("invalid scope name"));
    }
    let mut data = String::from_str("scope-");
    data.push_str(name);
    Ok((join(&join(root, "locks"), name), join(root, &data)))
}

/// Whether the lock of a scope was had.
pub fn check_lock(name: &str, locked: bool) -> (r: Result<(), String>)
    ensures
        if locked {
            r is Ok
        } else {
            r matches Err(e) && e@ == "Docker scope '"@ + name@
                + "' is in use by another controller"@
        },
{
    if !locked {
        let mut e = String::from_str("Docker scope '");
        e.push_str(name);
        e.push_str("' is in use by another controller");
        return Err(e);
    }
    Ok(())
}

/// Whether what stands where a scope keeps its data can be used.
pub fn check_data(directory: bool, owner: u32, user: u32) -> (r: Result<(), String>)
    ensures
        if directory && owner == user {
            r is Ok
        } else {
            r matches Err(e) && e@ == "unsafe named Docker data directory"@
        },
{
    if !directory || owner != user {
        return Err(String::from_str("unsafe named Docker data directory"));
    }
    Ok(())
}

/// What a line grants a user: nothing where it is another's or too little, or a range
/// that the user's own number lies in; the start of a range; or an error.
pub open spec fn line_grant(
    line: Seq<char>,
    name: Seq<char>,
    number: Seq<char>,
    id: u32,
) -> Result<Option<nat>, Seq<char>> {
    let f = parts_of(line, ':');
    if f.len() != 3 || (f[0] != name && f[0] != number) {
        Ok(None)
    } else {
        match (number_in(f[1], u32::MAX as nat), number_in(f[2], u32::MAX as nat)) {
            (Err(e), _) => Err(e),
            (_, Err(e)) => Err(e),
            (Ok(start), Ok(count)) => if count >= 65536 && start + 65536 <= u32::MAX && (id < start
                || id >= start + 65536) {
                Ok(Some(start))
            } else {
                Ok(None)
            },
        }
    }
}

/// The first range of the lines of a table that a user is granted.
pub open spec fn granted_range(
    ls: Seq<Seq<char>>,
    name: Seq<char>,
    number: Seq<char>,
    id: u32,
) -> Result<Option<nat>, Seq<char>>
    decreases ls.len(),
{
    if ls.len() == 0 {
        Ok(None)
    } else {
        match line_grant(ls[0], name, number, id) {
            Ok(None) => granted_range(ls.drop_first(), name, number, id),
            other => other,
        }
    }
}

fn read_line(line: &str, name: &str, number: &str, id: u32) -> (r: Result<Option<u32>, String>)
    ensures
        match line_grant(line@, name@, number@, id) {
            Ok(Some(n)) => r matches Ok(Some(m)) && m == n,
            Ok(None) => r matches Ok(None),
            Err(text) => r matches Err(e) && e@ == text,
        },
{
    let f = split(line, ':');
    let ghost t = parts_of(line@, ':');
    assert(texts(f@).len() == f@.len());
    if f.len() != 3 {
        return Ok(None);
    }
    assert(t[0] == f@[0]@ && t[1] == f@[1]@ && t[2] == f@[2]@);
    if !same(&f[0], name) && !same(&f[0], number) {
        return Ok(None);
    }
    let start = parse_up_to(&f[1], 0xFFFF_FFFF)?;
    let count = parse_up_to(&f[2], 0xFFFF_FFFF)?;
    if count >= 65536 && start + 65536 <= 0xFFFF_FFFF && ((id as u64) < start || id as u64 >= start
        + 65536) {
        Ok(Some(start as u32))
    } else {
        Ok(None)
    }
}

/// The users or groups that a user is granted beside its own, by the table of the host:
/// where they begin. Their range does not hold the user's own number.
pub fn subordinate(table: &str, kind: &str, name: &str, user: u32, id: u32) -> (r: Result<
    u32,
    String,
>)
    ensures
        match granted_range(lines_of(table@), name@, decimal_of(user as nat), id) {
            Ok(Some(n)) => r matches Ok(m) && m == n,
            Ok(None) => r matches Err(e) && e@ == "docker.enable requires at least 65536 subordinate "@
                + kind@ + "s for "@ + name@,
            Err(text) => r matches Err(e) && e@ == text,
        },
{
    let number = decimal(user as u64);
    let ls = lines(table);
    let ghost all = lines_of(table@);
    let mut k: usize = 0;
    assert(all.skip(0) =~= all);
    while k < ls.len()
        invariant
            k <= ls@.len(),
            texts(ls@) == all,
            all == lines_of(table@),
            number@ == decimal_of(user as nat),
            granted_range(all.skip(k as int), name@, number@, id) == granted_range(
                all,
                name@,
                number@,
                id,
            ),
        decreases ls@.len() - k,
    {
        assert(all.skip(k as int)[0] == ls@[k as int]@);
        assert(all.skip(k as int).drop_first() =~= all.skip(k + 1));
        match read_line(&ls[k], name, &number, id) {
            Err(e) => {
                return Err(e);
            },
            Ok(Some(start)) => {
                return Ok(start);
            },
            Ok(None) => {},
        }
        k += 1;
    }
    let mut e = String::from_str("docker.enable requires at least 65536 subordinate ");
    e.push_str(kind);
    e.push_str("s for ");
    e.push_str(name);
    Err(e)
}

/// The arguments that map a user, and those it was granted, into a namespace.
pub fn map_args(pid: u32, id: u32, subordinate: u32) -> (r: Vec<String>)
    ensures
        texts(r@) == seq![
            decimal_of(pid as nat),
            "0"@,
            decimal_of(id as nat),
            "1"@,
            "1"@,
            decimal_of(subordinate as nat),
            "65536"@,
        ],
{
    let mut r: Vec<String> = Vec::new();
    put_three(&mut r, &decimal(pid as u64), "0", &decimal(id as u64));
    put_two(&mut r, "1", "1");
    put_two(&mut r, &decimal(subordinate as u64), "65536");
    assert(texts(r@) =~= seq![
        decimal_of(pid as nat),
        "0"@,
        decimal_of(id as nat),
        "1"@,
        "1"@,
        decimal_of(subordinate as nat),
        "65536"@,
    ]);
    r
}

/// The program that maps users or groups, and where it can stand.
pub fn map_programs(kind: &str) -> (r: (String, String))
    ensures
        r.0@ == joined("/run/wrappers/bin"@, "new"@ + kind@ + "map"@),
        r.1@ == joined("/usr/bin"@, "new"@ + kind@ + "map"@),
{
    let mut name = String::from_str("new");
    name.push_str(kind);
    name.push_str("map");
    (join("/run/wrappers/bin", &name), join("/usr/bin", &name))
}

/// Whether an engine answered that it is there.
pub fn ready(response: &str) -> (r: bool)
    ensures
        r == ("HTTP/1.0 200 "@.is_prefix_of(response@) || "HTTP/1.1 200 "@.is_prefix_of(response@)),
{
    starts_with(response, "HTTP/1.0 200 ") || starts_with(response, "HTTP/1.1 200 ")
}

/// The most lines that the sandbox's maker says of itself.
pub const INFO_LINES: usize = 20;

/// Takes in a line of what the sandbox's maker says of itself, and whether it was the
/// last one.
pub fn info_line(text: &mut String, line: &str) -> (last: bool)
    ensures
        final(text)@ == old(text)@ + line@,
        last == (trimmed(line@) == "}"@),
{
    text.push_str(line);
    let v = chars(line);
    let (from, to) = trim(&v, 0, v.len());
    let t = span(&v, from, to);
    assert(v@.subrange(0, v@.len() as int) =~= line@);
    same(&t, "}")
}

/// The process that the sandbox's maker names.
pub fn child_pid(info: &Json, what: &str) -> (r: Result<u64, String>)
    ensures
        match member(*info, "child-pid"@) {
            Json::Unsigned(n) => r matches Ok(m) && m == n,
            _ => r matches Err(e) && e@ == "missing "@ + what@ + " PID"@,
        },
{
    let pid = match info.get("child-pid") {
        Some(p) => p.as_u64(),
        None => None,
    };
    match pid {
        Some(n) => Ok(n),
        None => {
            let mut e = String::from_str("missing ");
            e.push_str(what);
            e.push_str(" PID");
            Err(e)
        },
    }
}

/// What is done while an engine starts. One that answers is ready even as its time runs
/// out.
pub fn starting(exited: bool, answers: bool, expired: bool) -> (r: Result<Wait, String>)
    ensures
        if exited {
            r matches Err(e) && e@ == "Docker engine exited during startup"@
        } else if answers {
            r matches Ok(w) && w == Wait::Ready
        } else if expired {
            r matches Err(e) && e@ == "Docker engine startup timed out"@
        } else {
            r matches Ok(w) && w == Wait::Again
        },
{
    if exited {
        Err(String::from_str("Docker engine exited during startup"))
    } else if answers {
        Ok(Wait::Ready)
    } else if expired {
        Err(String::from_str("Docker engine startup timed out"))
    } else {
        Ok(Wait::Again)
    }
}

/// An error together with the end of a log.
pub open spec fn with_tail(error: Seq<char>, log: Seq<char>) -> Seq<char> {
    error + ": "@ + (if log.len() > TAIL {
        log.skip(log.len() - TAIL)
    } else {
        log
    })
}

/// An error together with the end of a log.
pub fn told_with(error: &str, log: &str) -> (r: String)
    ensures
        r@ == with_tail(error@, log@),
{
    let v = chars(log);
    let from: usize = if v.len() > TAIL {
        v.len() - TAIL
    } else {
        0
    };
    let mut r = String::from_str(error);
    r.push_str(": ");
    let tail = span(&v, from, v.len());
    assert(tail@ =~= if log@.len() > TAIL {
        log@.skip(log@.len() - TAIL)
    } else {
        log@
    });
    r.push_str(&tail);
    r
}

/// The descriptors that an engine is started with.
pub struct Descriptors {
    pub outer: u32,
    pub net: u32,
    pub info: u32,
    pub data: u32,
    pub data_parent: u32,
    pub filter: u32,
    pub lock: Option<u32>,
    pub ready: u32,
}

/// What an engine is told: it keeps to its own data and socket.
pub open spec fn daemon_args() -> Seq<Seq<char>> {
    seq![
        "--config-file=/run/docker/config.json"@,
        "--log-level=error"@,
        "--rootless"@,
        "--host=unix:///run/goblins/docker-socket/docker.sock"@,
        "--group=0"@,
        "--data-root=/run/docker/data"@,
        "--exec-root=/run/docker/exec"@,
        "--pidfile=/run/docker/docker.pid"@,
        "--storage-driver=overlay2"@,
        "--default-cgroupns-mode=host"@,
    ]
}

/// How the sandbox of an engine begins: in the namespaces of its scope, with processes of
/// its own.
pub open spec fn engine_head(l: Launch, d: Descriptors) -> Seq<Seq<char>> {
    seq![
        "--docker-enter"@,
        decimal_of(d.outer as nat),
        decimal_of(d.net as nat),
        l.bwrap@,
        "--unshare-pid"@,
        "--unshare-ipc"@,
        "--unshare-uts"@,
        "--unshare-cgroup"@,
        "--cap-add"@,
        "ALL"@,
        "--new-session"@,
        "--clearenv"@,
        "--info-fd"@,
        decimal_of(d.info as nat),
    ]
}

/// What an engine sees beside what it is shared: its data, and what it needs of the
/// system, to be read.
pub open spec fn engine_mounts(d: Descriptors, directory: Seq<char>) -> Seq<Seq<char>> {
    seq![
        "--tmpfs"@,
        "/run/docker"@,
        "--bind-fd"@,
        decimal_of(d.data as nat),
        "/run/docker/data"@,
        "--bind-fd"@,
        decimal_of(d.data_parent as nat),
        "/run/goblins/docker-storage-parent"@,
        "--tmpfs"@,
        "/run/containerd"@,
        "--ro-bind"@,
        "/sys/fs/cgroup"@,
        "/run/docker/cgroup"@,
        "--ro-bind"@,
        "/sys"@,
        "/sys"@,
        "--ro-bind"@,
        joined(directory, "docker-passwd"@),
        "/etc/passwd"@,
        "--ro-bind"@,
        joined(directory, "docker-group"@),
        "/etc/group"@,
        "--bind"@,
        joined(directory, "docker-socket"@),
        "/run/goblins/docker-socket"@,
        "--ro-bind"@,
        joined(directory, "docker.json"@),
        "/run/docker/config.json"@,
        "--setenv"@,
        "XDG_RUNTIME_DIR"@,
        "/run/docker"@,
        "--setenv"@,
        "GOBLINS_CGROUPNS"@,
        "host"@,
        "--seccomp"@,
        decimal_of(d.filter as nat),
        "--"@,
    ]
}

/// What runs in the sandbox of an engine: a guardian, which keeps the data of a scope and
/// deletes any other, and the engine.
pub open spec fn engine_tail(
    l: Launch,
    d: Descriptors,
    storage: Seq<char>,
    daemon: Seq<char>,
    keep: bool,
) -> Seq<Seq<char>> {
    seq![
        l.helper@,
        "--docker-init"@,
        storage,
        if keep {
            "keep"@
        } else {
            "delete"@
        },
        match d.lock {
            Some(n) => decimal_of(n as nat),
            None => "-1"@,
        },
        decimal_of(d.ready as nat),
        daemon,
    ] + daemon_args()
}

fn put_head(r: &mut Vec<String>, l: &Launch, d: &Descriptors)
    ensures
        texts(final(r)@) == texts(old(r)@) + engine_head(*l, *d),
{
    put_three(r, "--docker-enter", &decimal(d.outer as u64), &decimal(d.net as u64));
    put(r, &l.bwrap);
    put_each(
        r,
        [
            "--unshare-pid",
            "--unshare-ipc",
            "--unshare-uts",
            "--unshare-cgroup",
            "--cap-add",
            "ALL",
            "--new-session",
            "--clearenv",
        ],
    );
    put_two(r, "--info-fd", &decimal(d.info as u64));
    assert(texts(r@) =~= texts(old(r)@) + engine_head(*l, *d));
}

fn put_mounts(r: &mut Vec<String>, d: &Descriptors, directory: &str)
    ensures
        texts(final(r)@) == texts(old(r)@) + engine_mounts(*d, directory@),
{
    put_two(r, "--tmpfs", "/run/docker");
    put_three(r, "--bind-fd", &decimal(d.data as u64), "/run/docker/data");
    put_three(
        r,
        "--bind-fd",
        &decimal(d.data_parent as u64),
        "/run/goblins/docker-storage-parent",
    );
    put_two(r, "--tmpfs", "/run/containerd");
    put_three(r, "--ro-bind", "/sys/fs/cgroup", "/run/docker/cgroup");
    put_three(r, "--ro-bind", "/sys", "/sys");
    put_three(r, "--ro-bind", &join(directory, "docker-passwd"), "/etc/passwd");
    put_three(r, "--ro-bind", &join(directory, "docker-group"), "/etc/group");
    put_three(r, "--bind", &join(directory, "docker-socket"), "/run/goblins/docker-socket");
    put_three(r, "--ro-bind", &join(directory, "docker.json"), "/run/docker/config.json");
    put_three(r, "--setenv", "XDG_RUNTIME_DIR", "/run/docker");
    put_three(r, "--setenv", "GOBLINS_CGROUPNS", "host");
    put_three(r, "--seccomp", &decimal(d.filter as u64), "--");
    assert(texts(r@) =~= texts(old(r)@) + engine_mounts(*d, directory@));
}

fn put_tail(
    r: &mut Vec<String>,
    l: &Launch,
    d: &Descriptors,
    storage: &str,
    daemon: &str,
    keep: bool,
)
    ensures
        texts(final(r)@) == texts(old(r)@) + engine_tail(*l, *d, storage@, daemon@, keep),
{
    put_three(r, &l.helper, "--docker-init", storage);
    if keep {
        put(r, "keep");
    } else {
        put(r, "delete");
    }
    match d.lock {
        Some(n) => put(r, &decimal(n as u64)),
        None => put(r, "-1"),
    }
    put_two(r, &decimal(d.ready as u64), daemon);
    put_each(
        r,
        [
            "--config-file=/run/docker/config.json",
            "--log-level=error",
            "--rootless",
            "--host=unix:///run/goblins/docker-socket/docker.sock",
            "--group=0",
            "--data-root=/run/docker/data",
            "--exec-root=/run/docker/exec",
            "--pidfile=/run/docker/docker.pid",
            "--storage-driver=overlay2",
            "--default-cgroupns-mode=host",
        ],
    );
    assert(texts(r@) =~= texts(old(r)@) + engine_tail(*l, *d, storage@, daemon@, keep));
}

/// The arguments of the helper that starts an engine for a launch, with what it is shared
/// of the file system. The engine of a scope keeps its data.
pub fn engine_args(
    l: &Launch,
    filesystem: &Vec<String>,
    d: &Descriptors,
    directory: &str,
    storage: &str,
    scoped: bool,
) -> (r: Result<Vec<String>, String>)
    ensures
        match l.docker {
            None => r matches Err(e) && e@ == "Docker not enabled"@,
            Some(c) => r matches Ok(v) && texts(v@) == engine_line(
                *l,
                texts(filesystem@),
                *d,
                directory@,
                storage@,
                c.daemon@,
                scoped,
            ),
        },
{
    match &l.docker {
        None => Err(String::from_str("Docker not enabled")),
        Some(c) => {
            let mut r: Vec<String> = Vec::new();
            put_head(&mut r, l, d);
            assert(texts(r@) =~= engine_head(*l, *d));
            put_all(&mut r, filesystem);
            put_mounts(&mut r, d, directory);
            put_tail(&mut r, l, d, storage, &c.daemon, scoped);
            Ok(r)
        },
    }
}

/// The users of an engine are none of the host's own: the range that is mapped does not
/// hold the user that it is started by, and is long enough.
pub proof fn an_engine_has_users_of_its_own(
    line: Seq<char>,
    name: Seq<char>,
    number: Seq<char>,
    id: u32,
)
    ensures
        match line_grant(line, name, number, id) {
            Ok(Some(start)) => !(start <= id < start + SUBORDINATES) && start + SUBORDINATES
                <= u32::MAX,
            _ => true,
        },
{
}

/// The arguments of an engine, where the launch has one.
pub open spec fn engine_line(
    l: Launch,
    filesystem: Seq<Seq<char>>,
    d: Descriptors,
    directory: Seq<char>,
    storage: Seq<char>,
    daemon: Seq<char>,
    scoped: bool,
) -> Seq<Seq<char>> {
    engine_head(l, d) + filesystem + engine_mounts(d, directory) + engine_tail(
        l,
        d,
        storage,
        daemon,
        scoped,
    )
}

/// What the engine of a scope holds is kept when it ends, and what one of a session's own
/// holds is deleted.
pub proof fn named_data_outlives_its_users(
    l: Launch,
    filesystem: Seq<Seq<char>>,
    d: Descriptors,
    directory: Seq<char>,
    storage: Seq<char>,
    daemon: Seq<char>,
    scoped: bool,
)
    ensures
        ({
            let args = engine_line(l, filesystem, d, directory, storage, daemon, scoped);
            let n = args.len() as int;
            &&& n == 14 + filesystem.len() + 37 + 17
            &&& args[n - 17] == l.helper@
            &&& args[n - 16] == "--docker-init"@
            &&& args[n - 15] == storage
            &&& scoped ==> args[n - 14] == "keep"@
            &&& !scoped ==> args[n - 14] == "delete"@
            &&& d.lock matches Some(k) ==> args[n - 13] == decimal_of(k as nat)
            &&& d.lock is None ==> args[n - 13] == "-1"@
            &&& args[n - 12] == decimal_of(d.ready as nat)
            &&& args[n - 11] == daemon
            &&& args[n - 18] == "--"@
        }),
{
}

/// An engine sees what its session sees, keeps its data where that is held open, offers its
/// socket, and runs under its filter.
pub proof fn an_engine_sees_what_its_session_does(
    l: Launch,
    filesystem: Seq<Seq<char>>,
    d: Descriptors,
    directory: Seq<char>,
    storage: Seq<char>,
    daemon: Seq<char>,
    scoped: bool,
)
    ensures
        ({
            let args = engine_line(l, filesystem, d, directory, storage, daemon, scoped);
            &&& args.subrange(14, 14 + filesystem.len() as int) == filesystem
            &&& says(args, seq!["--bind-fd"@, decimal_of(d.data as nat), "/run/docker/data"@])
            &&& says(
                args,
                seq![
                    "--bind"@,
                    joined(directory, "docker-socket"@),
                    "/run/goblins/docker-socket"@,
                ],
            )
            &&& says(
                args,
                seq!["--ro-bind"@, joined(directory, "docker.json"@), "/run/docker/config.json"@],
            )
            &&& says(args, seq!["--seccomp"@, decimal_of(d.filter as nat), "--"@])
            &&& says(
                args,
                seq!["--docker-enter"@, decimal_of(d.outer as nat), decimal_of(d.net as nat)],
            )
            &&& says(args, seq![daemon, "--config-file=/run/docker/config.json"@])
            &&& says(args, seq!["--host=unix:///run/goblins/docker-socket/docker.sock"@])
            &&& says(args, seq!["--data-root=/run/docker/data"@])
        }),
{
    let args = engine_line(l, filesystem, d, directory, storage, daemon, scoped);
    let n = 14 + filesystem.len() as int;
    assert(args.subrange(14, 14 + filesystem.len() as int) =~= filesystem);
    let m = n + 37;
    lemma_says_at(args, n + 2, seq![
        "--bind-fd"@,
        decimal_of(d.data as nat),
        "/run/docker/data"@,
    ]);
    lemma_says_at(args, n + 22, seq![
        "--bind"@,
        joined(directory, "docker-socket"@),
        "/run/goblins/docker-socket"@,
    ]);
    lemma_says_at(args, n + 25, seq![
        "--ro-bind"@,
        joined(directory, "docker.json"@),
        "/run/docker/config.json"@,
    ]);
    lemma_says_at(args, n + 34, seq![
        "--seccomp"@,
        decimal_of(d.filter as nat),
        "--"@,
    ]);
    lemma_says_at(args, 0, seq![
        "--docker-enter"@,
        decimal_of(d.outer as nat),
        decimal_of(d.net as nat),
    ]);
    lemma_says_at(args, m + 6, seq![
        daemon,
        "--config-file=/run/docker/config.json"@,
    ]);
    lemma_says_at(args, m + 10, seq![
        "--host=unix:///run/goblins/docker-socket/docker.sock"@,
    ]);
    lemma_says_at(args, m + 12, seq!["--data-root=/run/docker/data"@]);
}

/// Data is kept under an absolute cache directory where one is given, and else under the home
/// of the user.
pub proof fn data_is_kept_under_the_cache(cache: Option<Seq<char>>, home: Option<Seq<char>>)
    ensures
        cache matches Some(c) ==> (is_absolute(c) ==> cache_root(cache, home) == Ok::<
            Seq<char>,
            Seq<char>,
        >(joined(c, "goblins/docker"@))),
        (!(cache matches Some(c) && is_absolute(c)) && (home matches Some(h) && is_absolute(
            joined(h, ".cache"@),
        ))) ==> cache_root(cache, home) == Ok::<Seq<char>, Seq<char>>(
            joined(joined(home->0, ".cache"@), "goblins/docker"@),
        ),
        (!(cache matches Some(c) && is_absolute(c)) && home is None) ==> cache_root(cache, home)
            is Err,
{
}

/// The first line that grants a user enough numbers, apart from the user's own, is the one that
/// is used; lines of other users count for nothing.
pub proof fn the_first_granting_line_counts(
    ls: Seq<Seq<char>>,
    name: Seq<char>,
    number: Seq<char>,
    id: u32,
    i: int,
    start: nat,
    count: nat,
)
    requires
        0 <= i < ls.len(),
        forall|j: int|
            0 <= j < i ==> ({
                let f = parts_of(#[trigger] ls[j], ':');
                f.len() != 3 || (f[0] != name && f[0] != number)
            }),
        parts_of(ls[i], ':').len() == 3,
        parts_of(ls[i], ':')[0] == name || parts_of(ls[i], ':')[0] == number,
        number_in(parts_of(ls[i], ':')[1], u32::MAX as nat) == Ok::<nat, Seq<char>>(start),
        number_in(parts_of(ls[i], ':')[2], u32::MAX as nat) == Ok::<nat, Seq<char>>(count),
        count >= 65536,
        start + 65536 <= u32::MAX,
        id < start || id >= start + 65536,
    ensures
        granted_range(ls, name, number, id) == Ok::<Option<nat>, Seq<char>>(Some(start)),
    decreases ls.len(),
{
    if i > 0 {
        let rest = ls.drop_first();
        assert(rest[i - 1] == ls[i]);
        assert forall|j: int| 0 <= j < i - 1 implies ({
            let f = parts_of(#[trigger] rest[j], ':');
            f.len() != 3 || (f[0] != name && f[0] != number)
        }) by {
            assert(rest[j] == ls[j + 1]);
        }
        assert(({
            let f = parts_of(ls[0], ':');
            f.len() != 3 || (f[0] != name && f[0] != number)
        }));
        the_first_granting_line_counts(rest, name, number, id, i - 1, start, count);
    }
}

} // verus!
