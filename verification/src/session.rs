//! One session: what it is started with, what it was granted, and which container engine
//! it uses. The namespaces themselves are made by a helper.
use vstd::prelude::*;

use crate::arguments::{
    each, list, put, put_all, put_each, put_three, put_two, with_between,
};
use crate::binds::{link_args, mount_args, value, value_in, Mount, Plan};
use crate::config::{ordered, put_var, Launch};
use crate::controller::Inheritance;
use crate::numbers::{number_in, parse_up_to};
use crate::paths::{
    add_path, equal, file_name, has_path, in_order, insert, join, joined, listed, name_of, overlap, overlaps, parent,
    parent_of, place, same_path, same_paths,
};
use crate::protocol::{is_package_name, package_name};
use crate::records::Identity;
use crate::sandbox_etc::pairs;
use crate::store::{is_store_path, package, package_path, store_path, told};
use crate::text::{
    decimal, decimal_of, holds, lines, lines_of, maybe, same, texts, words, words_of,
};

verus! {

/// Which container engine a session uses: that of a named scope or one of its own, and
/// whether it is in use.
pub struct Selection {
    pub name: Option<String>,
    pub enabled: bool,
}

pub struct Session {
    pub directory: String,
    pub launch: Launch,
    /// The store objects that the session sees.
    pub mounted: Vec<String>,
    /// The packages that it was granted, by name.
    pub packages: Vec<(String, String)>,
    pub identity: Option<Identity>,
    /// Its helper runs.
    pub running: bool,
    /// It uses a container engine.
    pub docker: bool,
    /// It stands in the network of a container scope.
    pub docker_home: bool,
    pub selection: Selection,
    /// Whether the session that it descends from used a container engine.
    pub docker_inherit_enabled: Option<bool>,
    /// What the session sees, as a container engine can be given it.
    pub docker_filesystem: Vec<String>,
    /// Why no container scope could be prepared.
    pub docker_error: Option<String>,
    pub exit_code: Option<i32>,
}

/// A snapshot of a workspace is taken where it does not touch the storage of container
/// engines.
pub fn check_workspace(resolved: &str, storage: &str) -> (r: Result<(), String>)
    ensures
        if overlap(resolved@, storage@) {
            r matches Err(e) && e@ == "workspace snapshot overlaps protected Docker storage"@
        } else {
            r is Ok
        },
{
    if overlaps(resolved, storage) {
        return Err(String::from_str("workspace snapshot overlaps protected Docker storage"));
    }
    Ok(())
}

/// Adds a variable to the arguments.
pub open spec fn setenv(name: Seq<char>, value: Seq<char>) -> Seq<Seq<char>> {
    seq!["--setenv"@, name, value]
}

/// The arguments that set some variables.
pub open spec fn setenvs(vars: Seq<(String, String)>) -> Seq<Seq<char>>
    decreases vars.len(),
{
    if vars.len() == 0 {
        Seq::empty()
    } else {
        setenvs(vars.drop_last()) + setenv(vars.last().0@, vars.last().1@)
    }
}

/// The arguments that show some paths as they are, to be read.
pub open spec fn shown_in_place(paths: Seq<Seq<char>>) -> Seq<Seq<char>>
    decreases paths.len(),
{
    if paths.len() == 0 {
        Seq::empty()
    } else {
        shown_in_place(paths.drop_last()) + seq!["--ro-bind"@, paths.last(), paths.last()]
    }
}

/// The arguments that show some paths at other places, to be read.
pub open spec fn shown_at(v: Seq<(Seq<char>, Seq<char>)>) -> Seq<Seq<char>>
    decreases v.len(),
{
    if v.len() == 0 {
        Seq::empty()
    } else {
        shown_at(v.drop_last()) + seq!["--ro-bind"@, v.last().0, v.last().1]
    }
}

fn put_vars(args: &mut Vec<String>, vars: &Vec<(String, String)>)
    ensures
        texts(final(args)@) == texts(old(args)@) + setenvs(vars@),
{
    let mut k: usize = 0;
    assert(vars@.take(0) =~= Seq::empty());
    assert(texts(args@) =~= texts(args@) + setenvs(vars@.take(0)));
    while k < vars.len()
        invariant
            k <= vars@.len(),
            texts(args@) == texts(old(args)@) + setenvs(vars@.take(k as int)),
        decreases vars@.len() - k,
    {
        put_three(args, "--setenv", &vars[k].0, &vars[k].1);
        assert(vars@.take(k + 1).drop_last() =~= vars@.take(k as int));
        assert(texts(args@) =~= texts(old(args)@) + setenvs(vars@.take(k + 1)));
        k += 1;
    }
    assert(vars@.take(k as int) =~= vars@);
}

fn put_shown(args: &mut Vec<String>, paths: &Vec<String>)
    ensures
        texts(final(args)@) == texts(old(args)@) + shown_in_place(texts(paths@)),
{
    let ghost t = texts(paths@);
    let mut k: usize = 0;
    assert(t.take(0) =~= Seq::empty());
    assert(texts(args@) =~= texts(args@) + shown_in_place(t.take(0)));
    while k < paths.len()
        invariant
            k <= paths@.len(),
            t == texts(paths@),
            texts(args@) == texts(old(args)@) + shown_in_place(t.take(k as int)),
        decreases paths@.len() - k,
    {
        put_three(args, "--ro-bind", &paths[k], &paths[k]);
        assert(t.take(k + 1).drop_last() =~= t.take(k as int));
        assert(t.take(k + 1).last() == paths@[k as int]@);
        assert(texts(args@) =~= texts(old(args)@) + shown_in_place(t.take(k + 1)));
        k += 1;
    }
    assert(t.take(k as int) =~= t);
}

fn put_shown_at(args: &mut Vec<String>, v: &Vec<(String, String)>)
    ensures
        texts(final(args)@) == texts(old(args)@) + shown_at(pairs(v@)),
{
    let ghost t = pairs(v@);
    let mut k: usize = 0;
    assert(t.take(0) =~= Seq::empty());
    assert(texts(args@) =~= texts(args@) + shown_at(t.take(0)));
    while k < v.len()
        invariant
            k <= v@.len(),
            t == pairs(v@),
            texts(args@) == texts(old(args)@) + shown_at(t.take(k as int)),
        decreases v@.len() - k,
    {
        put_three(args, "--ro-bind", &v[k].0, &v[k].1);
        assert(t.take(k + 1).drop_last() =~= t.take(k as int));
        assert(t.take(k + 1).last() == (v@[k as int].0@, v@[k as int].1@));
        assert(texts(args@) =~= texts(old(args)@) + shown_at(t.take(k + 1)));
        k += 1;
    }
    assert(t.take(k as int) =~= t);
}

/// The namespaces of a payload: all of them are its own, but for the network where it is
/// given one. The payload is an ordinary user without capabilities, and ends with what
/// started it.
pub open spec fn namespaces(home: bool, online: bool) -> Seq<Seq<char>> {
    let base = seq![
        "--unshare-all"@,
        "--uid"@,
        "1000"@,
        "--gid"@,
        "1000"@,
        "--hostname"@,
        "sandbox"@,
        "--cap-drop"@,
        "ALL"@,
        "--die-with-parent"@,
        "--clearenv"@,
    ];
    if home || online {
        base.push("--share-net"@)
    } else {
        base
    }
}

fn namespace_args(home: bool, online: bool) -> (r: Vec<String>)
    ensures
        texts(r@) == namespaces(home, online),
{
    let mut r: Vec<String> = Vec::new();
    put_each(
        &mut r,
        [
            "--unshare-all",
            "--uid",
            "1000",
            "--gid",
            "1000",
            "--hostname",
            "sandbox",
            "--cap-drop",
            "ALL",
            "--die-with-parent",
            "--clearenv",
        ],
    );
    if home || online {
        put(&mut r, "--share-net");
    }
    assert(texts(r@) =~= namespaces(home, online));
    r
}

/// The directories that are searched for programs.
pub open spec fn search_list(l: Launch) -> Seq<Seq<char>> {
    seq![
        "/run/goblins/packages/current/bin"@,
        "/run/goblins/bin"@,
        parent_of(l.shell@)->0,
    ] + texts(l.initial_packages@).map_values(|p: Seq<char>| joined(p, "bin"@))
}

/// The directories that are searched for programs, with colons between them.
pub fn search_path(l: &Launch) -> (r: Result<String, String>)
    ensures
        if parent_of(l.shell@) is None {
            r matches Err(e) && e@ == "invalid executable path"@
        } else {
            r matches Ok(p) && p@ == with_between(search_list(*l), ":"@)
        },
{
    let shell = match parent(&l.shell) {
        Some(p) => p,
        None => {
            return Err(String::from_str("invalid executable path"));
        },
    };
    let mut v: Vec<String> = Vec::new();
    put(&mut v, "/run/goblins/packages/current/bin");
    put(&mut v, "/run/goblins/bin");
    put(&mut v, &shell);
    let ghost all = search_list(*l);
    assert(texts(v@) =~= all.take(3));
    let mut k: usize = 0;
    while k < l.initial_packages.len()
        invariant
            k <= l.initial_packages@.len(),
            all == search_list(*l),
            texts(v@) == all.take(3 + k),
        decreases l.initial_packages@.len() - k,
    {
        assert(all[3 + k] == joined(l.initial_packages@[k as int]@, "bin"@));
        put(&mut v, &join(&l.initial_packages[k], "bin"));
        assert(texts(v@) =~= all.take(4 + k));
        k += 1;
    }
    assert(all.take(3 + k) =~= all);
    Ok(list(&v, ":"))
}

/// The variables that every session has.
pub open spec fn common_variables(home: Seq<char>, path: Seq<char>, shell: Seq<char>) -> Seq<
    Seq<char>,
> {
    setenv("HOME"@, home) + setenv("LC_ALL"@, "C"@) + setenv("USER"@, "agent"@) + setenv(
        "LOGNAME"@,
        "agent"@,
    ) + setenv("PATH"@, path) + setenv("SHELL"@, shell) + setenv("PYTHONNOUSERSITE"@, "1"@)
        + setenv("TERM"@, "xterm-256color"@)
}

fn put_common(args: &mut Vec<String>, home: &str, path: &str, shell: &str)
    ensures
        texts(final(args)@) == texts(old(args)@) + common_variables(home@, path@, shell@),
{
    put_three(args, "--setenv", "HOME", home);
    put_three(args, "--setenv", "LC_ALL", "C");
    put_three(args, "--setenv", "USER", "agent");
    put_three(args, "--setenv", "LOGNAME", "agent");
    put_three(args, "--setenv", "PATH", path);
    put_three(args, "--setenv", "SHELL", shell);
    put_three(args, "--setenv", "PYTHONNOUSERSITE", "1");
    put_three(args, "--setenv", "TERM", "xterm-256color");
    assert(texts(args@) =~= texts(old(args)@) + common_variables(home@, path@, shell@));
}

/// What every session sees: its own processes and devices, empty directories, its
/// workspace to write to, and to be read the store, its packages, the client and the
/// socket that it asks by.
pub open spec fn common_mounts(
    home: Seq<char>,
    workspace: nat,
    directory: Seq<char>,
    client: Seq<char>,
) -> Seq<Seq<char>> {
    seq![
        "--proc"@,
        "/proc"@,
        "--dev"@,
        "/dev"@,
        "--tmpfs"@,
        "/tmp"@,
        "--tmpfs"@,
        home,
        "--bind-fd"@,
        decimal_of(workspace),
        "/workspace"@,
        "--ro-bind"@,
        joined(directory, "store"@),
        "/nix/store"@,
        "--ro-bind"@,
        joined(directory, "packages"@),
        "/run/goblins/packages"@,
        "--ro-bind"@,
        joined(client, "bin"@),
        "/run/goblins/bin"@,
        "--ro-bind"@,
        joined(directory, "request.sock"@),
        "/run/goblins/request.sock"@,
    ]
}

fn put_common_mounts(
    args: &mut Vec<String>,
    home: &str,
    workspace: u32,
    directory: &str,
    client: &str,
)
    ensures
        texts(final(args)@) == texts(old(args)@) + common_mounts(
            home@,
            workspace as nat,
            directory@,
            client@,
        ),
{
    put_each(args, ["--proc", "/proc", "--dev", "/dev", "--tmpfs", "/tmp"]);
    put_two(args, "--tmpfs", home);
    put_three(args, "--bind-fd", &decimal(workspace as u64), "/workspace");
    put_three(args, "--ro-bind", &join(directory, "store"), "/nix/store");
    put_three(args, "--ro-bind", &join(directory, "packages"), "/run/goblins/packages");
    put_three(args, "--ro-bind", &join(client, "bin"), "/run/goblins/bin");
    put_three(args, "--ro-bind", &join(directory, "request.sock"), "/run/goblins/request.sock");
    assert(texts(args@) =~= texts(old(args)@) + common_mounts(
        home@,
        workspace as nat,
        directory@,
        client@,
    ));
}

/// Where a session works: in a directory of the host or in its workspace.
pub open spec fn start_directory(l: Launch) -> Seq<char> {
    match l.cwd {
        Some(d) => d@,
        None => "/workspace"@,
    }
}

/// Everything that a session sees, in the order in which it is put there: what comes
/// later can cover what came before.
pub open spec fn filesystem(
    l: Launch,
    directory: Seq<char>,
    plan: Plan,
    initial: Seq<Seq<char>>,
    etc: Seq<(Seq<char>, Seq<char>)>,
    workspace: nat,
) -> Seq<Seq<char>> {
    let resolver = if l.pasta is Some {
        seq!["--ro-bind"@, joined(directory, "resolv.conf"@), "/etc/resolv.conf"@]
    } else {
        Seq::empty()
    };
    resolver + common_variables(plan.home@, with_between(search_list(l), ":"@), l.posix_shell@)
        + common_mounts(plan.home@, workspace, directory, l.client_package@) + seq![
        "--symlink"@,
        l.posix_shell@,
        "/bin/sh"@,
        "--chdir"@,
        start_directory(l),
    ] + setenvs(l.env@) + shown_in_place(initial) + link_args(plan, initial, plan.landings@.len())
        + mount_args(plan.mounts@) + shown_at(etc)
}

fn filesystem_args(
    l: &Launch,
    directory: &str,
    plan: &Plan,
    initial: &Vec<String>,
    etc: &Vec<(String, String)>,
    workspace: u32,
    path: &str,
) -> (r: Vec<String>)
    requires
        plan.wf(),
        path@ == with_between(search_list(*l), ":"@),
    ensures
        texts(r@) == filesystem(
            *l,
            directory@,
            *plan,
            texts(initial@),
            pairs(etc@),
            workspace as nat,
        ),
{
    let mut args: Vec<String> = Vec::new();
    if l.pasta.is_some() {
        put_three(&mut args, "--ro-bind", &join(directory, "resolv.conf"), "/etc/resolv.conf");
    }
    let ghost resolver = texts(args@);
    put_common(&mut args, &plan.home, path, &l.posix_shell);
    put_common_mounts(&mut args, &plan.home, workspace, directory, &l.client_package);
    put_three(&mut args, "--symlink", &l.posix_shell, "/bin/sh");
    let start: &str = match &l.cwd {
        Some(d) => d.as_str(),
        None => "/workspace",
    };
    put_two(&mut args, "--chdir", start);
    put_vars(&mut args, &l.env);
    put_shown(&mut args, initial);
    plan.append_args(&mut args, initial);
    put_shown_at(&mut args, etc);
    assert(resolver =~= if l.pasta is Some {
        seq!["--ro-bind"@, joined(directory@, "resolv.conf"@), "/etc/resolv.conf"@]
    } else {
        Seq::empty()
    });
    assert(texts(args@) =~= filesystem(
        *l,
        directory@,
        *plan,
        texts(initial@),
        pairs(etc@),
        workspace as nat,
    ));
    args
}

/// What a session adds that can use a container engine: the directory of its socket.
pub open spec fn engine_access(directory: Seq<char>) -> Seq<Seq<char>> {
    seq![
        "--ro-bind"@,
        joined(directory, "docker-socket"@),
        "/run/goblins/docker-socket"@,
        "--setenv"@,
        "DOCKER_HOST"@,
        "unix:///run/goblins/docker-socket/docker.sock"@,
    ]
}

/// The descriptors that a helper is handed, and the payload's input, output and filter.
pub struct Descriptors {
    pub input: u32,
    pub output: u32,
    pub filter: u32,
    pub sources: Vec<u32>,
    /// The user and network namespaces that are joined.
    pub namespaces: Option<(u32, u32)>,
}

pub open spec fn decimals(v: Seq<u32>) -> Seq<Seq<char>> {
    v.map_values(|n: u32| decimal_of(n as nat))
}

/// The arguments of a helper: the descriptors, the program that makes the sandbox and
/// what it is told, and the payload.
pub open spec fn helper_line(
    l: Launch,
    d: Descriptors,
    sandbox: Seq<Seq<char>>,
    docker: bool,
    directory: Seq<char>,
    terminal: bool,
) -> Seq<Seq<char>> {
    let joins = match d.namespaces {
        Some((user, net)) => seq![
            "--network-namespaces"@,
            decimal_of(user as nat),
            decimal_of(net as nat),
        ],
        None => Seq::empty(),
    };
    joins + seq![
        decimal_of(d.input as nat),
        decimal_of(d.output as nat),
        decimal_of(d.filter as nat),
        with_between(decimals(d.sources@), ","@),
        l.bwrap@,
    ] + sandbox + (if docker {
        engine_access(directory)
    } else {
        Seq::empty()
    }) + seq!["--remount-ro"@, "/"@] + (if terminal {
        Seq::empty()
    } else {
        seq!["--new-session"@]
    }) + seq!["--seccomp"@, decimal_of(d.filter as nat), "--"@, l.shell@] + texts(l.shell_args@)
}

fn decimal_list(v: &Vec<u32>) -> (r: Vec<String>)
    ensures
        texts(r@) == decimals(v@),
{
    let mut r: Vec<String> = Vec::new();
    let mut k: usize = 0;
    assert(texts(r@) =~= decimals(v@).take(0));
    while k < v.len()
        invariant
            k <= v@.len(),
            texts(r@) == decimals(v@).take(k as int),
        decreases v@.len() - k,
    {
        put(&mut r, &decimal(v[k] as u64));
        assert(texts(r@) =~= decimals(v@).take(k + 1));
        k += 1;
    }
    assert(decimals(v@).take(k as int) =~= decimals(v@));
    r
}

fn helper_args(
    l: &Launch,
    d: &Descriptors,
    sandbox: &Vec<String>,
    docker: bool,
    directory: &str,
    terminal: bool,
) -> (r: Vec<String>)
    ensures
        texts(r@) == helper_line(*l, *d, texts(sandbox@), docker, directory@, terminal),
{
    let mut r: Vec<String> = Vec::new();
    match d.namespaces {
        Some((user, net)) => {
            put_three(
                &mut r,
                "--network-namespaces",
                &decimal(user as u64),
                &decimal(net as u64),
            );
        },
        None => {},
    }
    let ghost a = texts(r@);
    put_three(
        &mut r,
        &decimal(d.input as u64),
        &decimal(d.output as u64),
        &decimal(d.filter as u64),
    );
    put_two(&mut r, &list(&decimal_list(&d.sources), ","), &l.bwrap);
    put_all(&mut r, sandbox);
    let ghost b = texts(r@);
    if docker {
        put_three(
            &mut r,
            "--ro-bind",
            &join(directory, "docker-socket"),
            "/run/goblins/docker-socket",
        );
        put_three(
            &mut r,
            "--setenv",
            "DOCKER_HOST",
            "unix:///run/goblins/docker-socket/docker.sock",
        );
    }
    assert(texts(r@) =~= b + (if docker {
        engine_access(directory@)
    } else {
        Seq::empty()
    }));
    put_two(&mut r, "--remount-ro", "/");
    let ghost c = texts(r@);
    if !terminal {
        put(&mut r, "--new-session");
    }
    assert(texts(r@) =~= c + (if terminal {
        Seq::empty()
    } else {
        seq!["--new-session"@]
    }));
    put_three(&mut r, "--seccomp", &decimal(d.filter as u64), "--");
    put(&mut r, &l.shell);
    put_all(&mut r, &l.shell_args);
    assert(texts(r@) =~= helper_line(*l, *d, texts(sandbox@), docker, directory@, terminal));
    r
}

/// A number of a helper's answer.
fn field(text: &str, bound: u64) -> (r: Result<u64, String>)
    ensures
        crate::numbers::read_as(r) == number_in(text@, bound as nat),
        r matches Ok(n) ==> n <= bound,
{
    parse_up_to(text, bound)
}

/// What a helper says of the session that it made.
pub open spec fn readiness(line: Seq<char>) -> Result<(nat, nat, nat, nat, nat), Seq<char>> {
    let w = words_of(line);
    if w.len() != 6 || w[0] != "READY2"@ {
        Err("invalid helper startup reply: "@ + line)
    } else {
        match (
            number_in(w[1], u32::MAX as nat),
            number_in(w[2], u64::MAX as nat),
            number_in(w[3], u64::MAX as nat),
            number_in(w[4], u64::MAX as nat),
            number_in(w[5], u64::MAX as nat),
        ) {
            (Ok(a), Ok(b), Ok(c), Ok(d), Ok(e)) => Ok((a, b, c, d, e)),
            (Err(x), _, _, _, _) => Err(x),
            (_, Err(x), _, _, _) => Err(x),
            (_, _, Err(x), _, _) => Err(x),
            (_, _, _, Err(x), _) => Err(x),
            (_, _, _, _, Err(x)) => Err(x),
        }
    }
}

/// What a helper says of the session that it made.
pub fn ready(line: &str) -> (r: Result<Identity, String>)
    ensures
        match readiness(line@) {
            Ok((a, b, c, d, e)) => r matches Ok(i) && i.pid == a && i.helper_userns == b
                && i.mount_owner == c && i.source_mountns == d && i.mountns == e,
            Err(text) => r matches Err(e) && e@ == text,
        },
{
    let w = words(line);
    assert(texts(w@).len() == w@.len());
    assert(forall|i: int| 0 <= i < w@.len() ==> texts(w@)[i] == #[trigger] w@[i]@);
    if w.len() != 6 || !same(&w[0], "READY2") {
        let mut e = String::from_str("invalid helper startup reply: ");
        e.push_str(line);
        return Err(e);
    }
    let pid = field(&w[1], 0xFFFF_FFFF)?;
    let helper_userns = field(&w[2], 0xFFFF_FFFF_FFFF_FFFF)?;
    let mount_owner = field(&w[3], 0xFFFF_FFFF_FFFF_FFFF)?;
    let source_mountns = field(&w[4], 0xFFFF_FFFF_FFFF_FFFF)?;
    let mountns = field(&w[5], 0xFFFF_FFFF_FFFF_FFFF)?;
    Ok(Identity { pid: pid as u32, helper_userns, mount_owner, source_mountns, mountns })
}

/// The link that keeps a store object from being collected.
pub open spec fn link_of(directory: Seq<char>, path: Seq<char>) -> Seq<char> {
    joined(joined(directory, "roots"@), name_of(path)->0)
}

/// The arguments that realise a store object and keep it.
pub open spec fn keeping(path: Seq<char>, link: Seq<char>) -> Seq<Seq<char>> {
    seq!["--realise"@, path, "--add-root"@, link, "--indirect"@]
}

/// The paths that a query gave, as store objects: in order, or the first that is none.
pub open spec fn closure_error(ls: Seq<Seq<char>>) -> Option<Seq<char>>
    decreases ls.len(),
{
    if ls.len() == 0 {
        None
    } else {
        match closure_error(ls.drop_last()) {
            Some(e) => Some(e),
            None => if name_of(ls.last()) is None {
                Some("invalid store path"@)
            } else if !is_store_path(ls.last()) {
                Some("not a canonical store output"@)
            } else {
                None
            },
        }
    }
}

proof fn lemma_closure_error(ls: Seq<Seq<char>>, n: int)
    requires
        0 <= n <= ls.len(),
        closure_error(ls.take(n)) is Some,
    ensures
        closure_error(ls) == closure_error(ls.take(n)),
    decreases ls.len(),
{
    if n == ls.len() {
        assert(ls.take(n) =~= ls);
    } else {
        assert(ls.drop_last().take(n) =~= ls.take(n));
        lemma_closure_error(ls.drop_last(), n);
    }
}

/// The arguments that ask for everything that some store objects need.
pub fn closure_args(roots: &Vec<String>) -> (r: Vec<String>)
    ensures
        texts(r@) == seq!["--query"@, "--requisites"@] + texts(roots@),
{
    let mut r: Vec<String> = Vec::new();
    put_two(&mut r, "--query", "--requisites");
    put_all(&mut r, roots);
    assert(texts(r@) =~= seq!["--query"@, "--requisites"@] + texts(roots@));
    r
}

/// The store objects that a query listed.
pub fn closure(output: &str) -> (r: Result<Vec<String>, String>)
    ensures
        match closure_error(lines_of(output@)) {
            Some(text) => r matches Err(e) && e@ == text,
            None => r matches Ok(v) && same_paths(texts(v@), lines_of(output@)),
        },
{
    let ls = lines(output);
    let ghost all = lines_of(output@);
    let mut v: Vec<String> = Vec::new();
    let mut k: usize = 0;
    assert(all.take(0) =~= Seq::empty());
    while k < ls.len()
        invariant
            k <= ls@.len(),
            texts(ls@) == all,
            all == lines_of(output@),
            closure_error(all.take(k as int)) is None,
            same_paths(texts(v@), all.take(k as int)),
        decreases ls@.len() - k,
    {
        let ghost more = all.take(k + 1);
        assert(more.drop_last() =~= all.take(k as int));
        assert(more.last() == ls@[k as int]@);
        match store_path(&ls[k]) {
            Err(e) => {
                proof {
                    lemma_closure_error(all, k + 1);
                }
                return Err(e);
            },
            Ok(_) => {},
        }
        add_path(&mut v, &ls[k], Ghost(all.take(k as int)));
        assert(more =~= all.take(k as int).push(ls@[k as int]@));
        k += 1;
    }
    assert(all.take(k as int) =~= all);
    Ok(v)
}

/// The arguments that build an output of a package.
pub open spec fn building(flake: Seq<char>, name: Seq<char>, output: Seq<char>, link: Seq<char>) -> Seq<
    Seq<char>,
> {
    seq![
        "build"@,
        "--no-write-lock-file"@,
        "--out-link"@,
        link,
        "--print-out-paths"@,
        flake + "#legacyPackages.x86_64-linux."@ + name + "^"@ + output,
    ]
}

/// The arguments that build an output of a package.
pub fn build_args(flake: &str, name: &str, output: &str, directory: &str) -> (r: Vec<String>)
    ensures
        texts(r@) == building(
            flake@,
            name@,
            output@,
            joined(joined(directory@, "roots"@), "catalog-"@ + name@),
        ),
{
    let mut link = String::from_str("catalog-");
    link.push_str(name);
    let mut attr = crate::catalog::attribute(flake, name);
    attr.push_str("^");
    attr.push_str(output);
    let mut r: Vec<String> = Vec::new();
    put_each(&mut r, ["build", "--no-write-lock-file", "--out-link"]);
    put_three(&mut r, &join(&join(directory, "roots"), &link), "--print-out-paths", &attr);
    assert(texts(r@) =~= building(
        flake@,
        name@,
        output@,
        joined(joined(directory@, "roots"@), "catalog-"@ + name@),
    ));
    r
}

/// The one path that a build gave.
pub fn built(output: &str) -> (r: Result<String, String>)
    ensures
        told(r) == {
            let ls = lines_of(output@);
            if ls.len() != 1 {
                Err("catalog must resolve to exactly one output"@)
            } else if name_of(ls[0]) is None {
                Err("invalid store path"@)
            } else if !is_store_path(ls[0]) {
                Err("not a canonical store output"@)
            } else {
                Ok(ls[0])
            }
        },
{
    let ls = lines(output);
    assert(texts(ls@).len() == ls@.len());
    if ls.len() != 1 {
        return Err(String::from_str("catalog must resolve to exactly one output"));
    }
    assert(texts(ls@)[0] == ls@[0]@);
    store_path(&ls[0])
}

/// What comes of a package's name where packages were granted: an error, or whether
/// there is anything to do.
pub open spec fn grant_of(packages: Seq<(String, String)>, name: Seq<char>) -> Result<
    bool,
    Seq<char>,
> {
    if !is_package_name(name) {
        Err("invalid package attribute"@)
    } else {
        Ok(value_in(packages, name) is None)
    }
}

/// How things stand with a helper.
pub enum HelperState {
    Running,
    Exited(Option<i32>),
    Unknown,
}

/// What follows when a container scope was prepared, or was not.
#[derive(Clone, Copy, Debug, PartialEq, Eq, Structural)]
pub enum Prepared {
    /// The session stands in its network.
    Joined,
    /// One of its own is tried.
    Alone,
    /// It goes on without.
    Without,
}

/// Which container engine comes to be used.
pub enum Engine {
    /// The one in use.
    Same,
    /// That of a scope, or one of its own.
    Of(Option<String>),
    /// The one that was selected before, or where it stands.
    Selected,
}

/// Whether a configuration lets a scope be used.
pub open spec fn allows(l: Launch, name: Seq<char>) -> bool {
    match l.docker {
        None => false,
        Some(d) => maybe(d.default_scope) == Some(name) || texts(d.allowed_scopes@).contains(name),
    }
}

/// The engine that a request to use one means, or why there is none.
pub open spec fn engine_for(s: Session, requested: Option<Seq<char>>, anonymous: bool) -> Result<
    Option<Option<Seq<char>>>,
    Seq<char>,
> {
    if requested is Some && !allows(s.launch, requested->0) {
        Err("Docker scope is not allowed by this configuration"@)
    } else if s.docker && !anonymous && (requested is None || maybe(s.selection.name)
        == requested) {
        Ok(None)
    } else if !s.docker_home {
        Err(
            "Docker unavailable in this session: "@ + (match s.docker_error {
                Some(e) => e@,
                None => "configuration lacks Docker runtime support"@,
            }) + "; fix prerequisites and start a new sandbox"@,
        )
    } else if s.launch.docker is None {
        Err("Docker runtime unavailable"@)
    } else if anonymous {
        Ok(Some(None))
    } else if requested is Some {
        Ok(Some(requested))
    } else {
        Ok(Some(maybe(s.selection.name)))
    }
}

impl Session {
    /// Objects and packages are kept in order, each once.
    pub open spec fn wf(&self) -> bool {
        in_order(texts(self.mounted@)) && ordered(self.packages@)
    }

    /// A session that was not started yet. A workspace takes the place of a directory of
    /// the host.
    pub fn new_in(launch: Launch, workspace: bool, cwd: Option<String>, directory: String) -> (r:
        Session)
        ensures
            r.wf(),
            r.directory == directory,
            r.launch == (Launch {
                cwd: if workspace {
                    None
                } else {
                    cwd
                },
                ..launch
            }),
            r.mounted@.len() == 0,
            r.packages@.len() == 0,
            r.identity is None,
            !r.running,
            !r.docker,
            !r.docker_home,
            maybe(r.selection.name) == match launch.docker {
                Some(d) => maybe(d.default_scope),
                None => None,
            },
            !r.selection.enabled,
            r.docker_inherit_enabled is None,
            r.docker_filesystem@.len() == 0,
            r.docker_error is None,
            r.exit_code is None,
    {
        let mut launch = launch;
        launch.cwd = if workspace {
            None
        } else {
            cwd
        };
        let name = match &launch.docker {
            Some(d) => d.default_scope.clone(),
            None => None,
        };
        Session {
            directory,
            launch,
            mounted: Vec::new(),
            packages: Vec::new(),
            identity: None,
            running: false,
            docker: false,
            docker_home: false,
            selection: Selection { name, enabled: false },
            docker_inherit_enabled: None,
            docker_filesystem: Vec::new(),
            docker_error: None,
            exit_code: None,
        }
    }

    /// A session that descends from another: with what that one was launched with, where
    /// it stood, and with the engine that it used.
    pub fn child(launch: Launch, selection: Selection, home: bool, directory: String) -> (r: Session)
        ensures
            r.wf(),
            r.directory == directory,
            r.mounted@.len() == 0,
            r.packages@.len() == 0,
            r.identity is None,
            !r.running,
            !r.docker,
            r.docker_home == home,
            r.selection == selection,
            r.docker_inherit_enabled == Some(selection.enabled),
            r.docker_filesystem@.len() == 0,
            r.docker_error is None,
            r.exit_code is None,
            r.launch == (Launch { initial_packages: r.launch.initial_packages, ..launch }),
            texts(r.launch.initial_packages@) == match launch.docker {
                Some(d) => match d.client {
                    Some(c) => if selection.enabled && !has_path(
                        texts(launch.initial_packages@),
                        c@,
                    ) {
                        texts(launch.initial_packages@).push(c@)
                    } else {
                        texts(launch.initial_packages@)
                    },
                    None => texts(launch.initial_packages@),
                },
                None => texts(launch.initial_packages@),
            },
    {
        let mut launch = launch;
        let client = match &launch.docker {
            Some(d) => d.client.clone(),
            None => None,
        };
        if selection.enabled {
            match client {
                Some(c) => {
                    if !listed(&launch.initial_packages, &c) {
                        put(&mut launch.initial_packages, &c);
                    }
                },
                None => {},
            }
        }
        let enabled = selection.enabled;
        Session {
            directory,
            launch,
            mounted: Vec::new(),
            packages: Vec::new(),
            identity: None,
            running: false,
            docker: false,
            docker_home: home,
            selection,
            docker_inherit_enabled: Some(enabled),
            docker_filesystem: Vec::new(),
            docker_error: None,
            exit_code: None,
        }
    }

    /// What the session passes on to those that descend from it.
    pub fn inheritance(&self) -> (r: Inheritance)
        ensures
            r.description@ == self.launch.description@,
            maybe(r.integration) == maybe(self.launch.integration),
            forall|name: Seq<char>|
                #[trigger] crate::permissions::scope_allowed(r, name) == allows(self.launch, name),
            match self.launch.docker {
                Some(d) => maybe(r.default_scope) == maybe(d.default_scope) && texts(
                    r.allowed_scopes@,
                ) == texts(d.allowed_scopes@),
                None => r.default_scope is None && r.allowed_scopes@.len() == 0,
            },
            texts(r.initial_packages@) == texts(self.launch.initial_packages@),
    {
        let (default_scope, allowed_scopes) = match &self.launch.docker {
            Some(d) => (d.default_scope.clone(), d.allowed_scopes.clone()),
            None => (None, Vec::new()),
        };
        Inheritance {
            description: self.launch.description.clone(),
            integration: self.launch.integration.clone(),
            default_scope,
            allowed_scopes,
            initial_packages: self.launch.initial_packages.clone(),
        }
    }

    /// The link that keeps a store object from being collected, and the arguments that
    /// make it.
    pub fn root(&self, path: &str) -> (r: Result<(String, Vec<String>), String>)
        ensures
            if name_of(path@) is None {
                r matches Err(e) && e@ == "invalid store path"@
            } else if !is_store_path(path@) {
                r matches Err(e) && e@ == "not a canonical store output"@
            } else {
                r matches Ok((link, args)) && link@ == link_of(self.directory@, path@) && texts(
                    args@,
                ) == keeping(path@, link@)
            },
    {
        match store_path(path) {
            Err(e) => Err(e),
            Ok(p) => match file_name(&p) {
                None => Err(String::from_str("invalid store path")),
                Some(name) => {
                    let link = join(&join(&self.directory, "roots"), &name);
                    let mut args: Vec<String> = Vec::new();
                    put_three(&mut args, "--realise", path, "--add-root");
                    put_two(&mut args, &link, "--indirect");
                    assert(texts(args@) =~= keeping(path@, link@));
                    Ok((link, args))
                },
            },
        }
    }

    /// What stays out of reach of what the session is given: paths of the host, the
    /// storage of container engines, the session's own directory and the supplied files.
    pub fn private_paths(&self, storage: &str, etc: &Vec<(String, String)>) -> (r: Vec<String>)
        ensures
            texts(r@) == texts(self.launch.protected_paths@) + seq![storage@, self.directory@]
                + places_of(pairs(etc@)),
    {
        let mut r: Vec<String> = Vec::new();
        put_all(&mut r, &self.launch.protected_paths);
        put_two(&mut r, storage, &self.directory);
        let ghost start = texts(r@);
        assert(start =~= texts(self.launch.protected_paths@) + seq![storage@, self.directory@]);
        let ghost all = places_of(pairs(etc@));
        let mut k: usize = 0;
        assert(start =~= start + all.take(0));
        while k < etc.len()
            invariant
                k <= etc@.len(),
                all == places_of(pairs(etc@)),
                texts(r@) == start + all.take(k as int),
            decreases etc@.len() - k,
        {
            assert(all[k as int] == etc@[k as int].1@);
            put(&mut r, &etc[k].1);
            assert(texts(r@) =~= start + all.take(k + 1));
            k += 1;
        }
        assert(all.take(k as int) =~= all);
        r
    }

    /// The packages whose closures the session sees from the start.
    pub fn closure_roots(&self, etc: &Vec<(String, String)>) -> (r: Result<Vec<String>, String>)
        ensures
            if package_path(self.launch.shell@) is None || package_path(
                self.launch.posix_shell@,
            ) is None {
                r matches Err(e) && e@ == "invalid executable path"@
            } else {
                r matches Ok(v) && texts(v@) == seq![
                    package_path(self.launch.shell@)->0,
                    package_path(self.launch.posix_shell@)->0,
                    self.launch.client_package@,
                ] + texts(self.launch.initial_packages@) + texts(self.launch.initial_closure@)
                    + sources_of(pairs(etc@))
            },
    {
        let shell = package(&self.launch.shell)?;
        let posix = package(&self.launch.posix_shell)?;
        let mut r: Vec<String> = Vec::new();
        put_three(&mut r, &shell, &posix, &self.launch.client_package);
        put_all(&mut r, &self.launch.initial_packages);
        put_all(&mut r, &self.launch.initial_closure);
        let ghost start = texts(r@);
        let ghost all = sources_of(pairs(etc@));
        let mut k: usize = 0;
        assert(start =~= start + all.take(0));
        while k < etc.len()
            invariant
                k <= etc@.len(),
                all == sources_of(pairs(etc@)),
                texts(r@) == start + all.take(k as int),
            decreases etc@.len() - k,
        {
            assert(all[k as int] == etc@[k as int].0@);
            put(&mut r, &etc[k].0);
            assert(texts(r@) =~= start + all.take(k + 1));
            k += 1;
        }
        assert(all.take(k as int) =~= all);
        proof {
            assert(start =~= seq![shell@, posix@, self.launch.client_package@] + texts(
                self.launch.initial_packages@,
            ) + texts(self.launch.initial_closure@));
        }
        Ok(r)
    }

    /// The packages that are kept for the session without being shown to it: its helper,
    /// its container engine and client, and what makes its network.
    pub fn kept_roots(&self) -> (r: Result<Vec<String>, String>)
        ensures
            match r {
                Ok(v) => package_path(self.launch.helper@) is Some && (self.launch.docker matches Some(
                    d,
                ) ==> package_path(d.daemon@) is Some) && (self.launch.pasta matches Some(p)
                    ==> package_path(p@) is Some) && texts(v@) == kept(self.launch),
                Err(e) => e@ == "invalid executable path"@ && (package_path(
                    self.launch.helper@,
                ) is None || (self.launch.docker matches Some(d) && package_path(d.daemon@) is None)
                    || (self.launch.pasta matches Some(p) && package_path(p@) is None)),
            },
    {
        let mut r: Vec<String> = Vec::new();
        put(&mut r, &package(&self.launch.helper)?);
        match &self.launch.docker {
            Some(d) => {
                put(&mut r, &package(&d.daemon)?);
                match &d.client {
                    Some(c) => put(&mut r, c),
                    None => {},
                }
            },
            None => {},
        }
        match &self.launch.pasta {
            Some(p) => put(&mut r, &package(p)?),
            None => {},
        }
        assert(texts(r@) =~= kept(self.launch));
        Ok(r)
    }

    /// Takes in what came of preparing a container scope. Where a session must have an
    /// engine, the error ends its start; else a scope that cannot be joined does not
    /// keep it from choosing an engine of its own later.
    pub fn prepared(&mut self, result: Result<(), String>) -> (r: Result<Prepared, String>)
        ensures
            match result {
                Ok(_) => r == Ok::<Prepared, String>(Prepared::Joined) && *final(self) == (Session {
                    docker_home: true,
                    ..*old(self)
                }),
                Err(e) => if old(self).launch.docker matches Some(d) && d.enabled {
                    r == Err::<Prepared, String>(e) && *final(self) == *old(self)
                } else {
                    r == Ok::<Prepared, String>(
                        if old(self).selection.name is Some {
                            Prepared::Alone
                        } else {
                            Prepared::Without
                        },
                    ) && *final(self) == (Session { docker_error: Some(e), ..*old(self) })
                },
            },
    {
        match result {
            Ok(_) => {
                self.docker_home = true;
                Ok(Prepared::Joined)
            },
            Err(e) => {
                let needed = match &self.launch.docker {
                    Some(d) => d.enabled,
                    None => false,
                };
                if needed {
                    return Err(e);
                }
                self.docker_error = Some(e);
                if self.selection.name.is_some() {
                    Ok(Prepared::Alone)
                } else {
                    Ok(Prepared::Without)
                }
            },
        }
    }

    /// Whether a network of the session's own is made: where it is given one, and stands
    /// in none.
    pub fn needs_network(&self) -> (r: bool)
        ensures
            r == (self.launch.pasta is Some && !self.docker_home),
    {
        self.launch.pasta.is_some() && !self.docker_home
    }

    /// Sets down what the session will see.
    pub fn start(
        &mut self,
        plan: &Plan,
        initial: Vec<String>,
        etc: &Vec<(String, String)>,
        workspace: u32,
    ) -> (r: Result<(), String>)
        requires
            plan.wf(),
            in_order(texts(initial@)),
            old(self).wf(),
        ensures
            final(self).wf(),
            if parent_of(old(self).launch.shell@) is None {
                r matches Err(e) && e@ == "invalid executable path"@ && *final(self) == *old(self)
            } else {
                r is Ok && *final(self) == (Session {
                    mounted: initial,
                    docker_filesystem: final(self).docker_filesystem,
                    ..*old(self)
                }) && texts(final(self).docker_filesystem@) == filesystem(
                    old(self).launch,
                    old(self).directory@,
                    *plan,
                    texts(initial@),
                    pairs(etc@),
                    workspace as nat,
                )
            },
    {
        let path = search_path(&self.launch)?;
        self.docker_filesystem =
        filesystem_args(
            &self.launch,
            &self.directory,
            plan,
            &initial,
            etc,
            workspace,
            &path,
        );
        self.mounted = initial;
        Ok(())
    }

    /// Whether a container engine is started with the session.
    pub fn eager(&self) -> (r: bool)
        ensures
            r == match self.docker_inherit_enabled {
                Some(b) => b,
                None => self.launch.docker matches Some(d) && d.enabled,
            },
    {
        match self.docker_inherit_enabled {
            Some(b) => b,
            None => match &self.launch.docker {
                Some(d) => d.enabled,
                None => false,
            },
        }
    }

    /// The arguments of the helper that makes the session.
    pub fn arguments(&self, d: &Descriptors, terminal: bool) -> (r: Vec<String>)
        ensures
            texts(r@) == helper_line(
                self.launch,
                *d,
                namespaces(self.docker_home, self.launch.pasta is Some) + texts(
                    self.docker_filesystem@,
                ),
                self.launch.docker is Some,
                self.directory@,
                terminal,
            ),
    {
        let mut sandbox = namespace_args(self.docker_home, self.launch.pasta.is_some());
        put_all(&mut sandbox, &self.docker_filesystem);
        helper_args(
            &self.launch,
            d,
            &sandbox,
            self.launch.docker.is_some(),
            &self.directory,
            terminal,
        )
    }

    /// Its helper runs from now on.
    pub fn launched(&mut self)
        ensures
            *final(self) == (Session { running: true, ..*old(self) }),
    {
        self.running = true;
    }

    /// Takes in what the helper said when it was ready.
    pub fn started(&mut self, line: &str) -> (r: Result<(), String>)
        ensures
            match readiness(line@) {
                Ok((a, b, c, d, e)) => r is Ok && *final(self) == (Session {
                    identity: final(self).identity,
                    ..*old(self)
                }) && (final(self).identity matches Some(i) && i.pid == a && i.helper_userns == b
                    && i.mount_owner == c && i.source_mountns == d && i.mountns == e),
                Err(text) => r matches Err(e) && e@ == text && *final(self) == *old(self),
            },
    {
        match ready(line) {
            Ok(i) => {
                self.identity = Some(i);
                Ok(())
            },
            Err(e) => Err(e),
        }
    }
}

pub open spec fn places_of(v: Seq<(Seq<char>, Seq<char>)>) -> Seq<Seq<char>> {
    v.map_values(|p: (Seq<char>, Seq<char>)| p.1)
}

pub open spec fn sources_of(v: Seq<(Seq<char>, Seq<char>)>) -> Seq<Seq<char>> {
    v.map_values(|p: (Seq<char>, Seq<char>)| p.0)
}

/// The packages that are kept for a session without being shown to it.
pub open spec fn kept(l: Launch) -> Seq<Seq<char>> {
    seq![package_path(l.helper@)->0] + (match l.docker {
        Some(d) => seq![package_path(d.daemon@)->0] + (match d.client {
            Some(c) => seq![c@],
            None => Seq::empty(),
        }),
        None => Seq::empty(),
    }) + (match l.pasta {
        Some(p) => seq![package_path(p@)->0],
        None => Seq::empty(),
    })
}

/// Where the granted packages stand.
pub open spec fn granted_paths(packages: Seq<(String, String)>) -> Seq<Seq<char>> {
    packages.map_values(|p: (String, String)| p.1@)
}

/// Programs by name, and where they stand. Two packages may hold one program, not two of
/// one name.
pub fn collect(entries: &mut Vec<(String, String)>, name: &str, path: &str) -> (r: Result<
    (),
    String,
>)
    requires
        ordered(old(entries)@),
    ensures
        ordered(final(entries)@),
        match value_in(old(entries)@, name@) {
            Some(other) => if same_path(other, path@) {
                r is Ok
            } else {
                r matches Err(e) && e@ == "package executable collision: "@ + name@
            },
            None => r is Ok,
        },
        forall|n: Seq<char>|
            #[trigger] value_in(final(entries)@, n) == if n == name@ {
                Some(path@)
            } else {
                value_in(old(entries)@, n)
            },
{
    let mut clash: bool = false;
    match value(entries, name) {
        Some(other) => {
            clash = !equal(other, path);
        },
        None => {},
    }
    put_var(entries, name, path);
    if clash {
        let mut e = String::from_str("package executable collision: ");
        e.push_str(name);
        return Err(e);
    }
    Ok(())
}

/// What paths of one list another lacks.
pub open spec fn lacking(closure: Seq<Seq<char>>, mounted: Seq<Seq<char>>) -> Seq<Seq<char>>
    decreases closure.len(),
{
    if closure.len() == 0 {
        Seq::empty()
    } else {
        let most = lacking(closure.drop_last(), mounted);
        if has_path(mounted, closure.last()) {
            most
        } else {
            most.push(closure.last())
        }
    }
}

/// What a container engine is given of the session: where, and whether only to be read.
pub open spec fn given(v: Seq<Mount>) -> Seq<(Seq<char>, bool)> {
    v.map_values(|m: Mount| (m.destination@, m.readonly))
}

pub open spec fn read_only(v: Seq<Seq<char>>) -> Seq<(Seq<char>, bool)> {
    v.map_values(|p: Seq<char>| (p, true))
}

pub open spec fn grants_view(v: Seq<(String, bool)>) -> Seq<(Seq<char>, bool)> {
    v.map_values(|g: (String, bool)| (g.0@, g.1))
}

fn push_grant(v: &mut Vec<(String, bool)>, path: &str, readonly: bool)
    ensures
        grants_view(final(v)@) == grants_view(old(v)@).push((path@, readonly)),
{
    v.push((String::from_str(path), readonly));
    assert(grants_view(v@) =~= grants_view(old(v)@).push((path@, readonly)));
}

impl Session {
    /// Whether a package is still to be granted.
    pub fn check_grant(&self, name: &str) -> (r: Result<bool, String>)
        ensures
            match grant_of(self.packages@, name@) {
                Ok(b) => r matches Ok(c) && c == b,
                Err(text) => r matches Err(e) && e@ == text,
            },
    {
        if !package_name(name) {
            return Err(String::from_str("invalid package attribute"));
        }
        Ok(value(&self.packages, name).is_none())
    }

    /// The packages whose programs make up the next set: those that it begins with, those
    /// that it was granted, and one more.
    pub fn profile_packages(&self, added: &str) -> (r: Vec<String>)
        ensures
            texts(r@) == texts(self.launch.initial_packages@) + granted_paths(self.packages@).push(
                added@,
            ),
    {
        let mut r = self.launch.initial_packages.clone();
        let ghost initial = texts(r@);
        let ghost paths = granted_paths(self.packages@);
        assert(initial + paths.take(0) =~= initial);
        let mut i: usize = 0;
        while i < self.packages.len()
            invariant
                i <= self.packages@.len(),
                paths == granted_paths(self.packages@),
                texts(r@) == initial + paths.take(i as int),
            decreases self.packages@.len() - i,
        {
            let ghost done = texts(r@);
            r.push(self.packages[i].1.clone());
            assert(texts(r@) =~= done.push(paths[i as int]));
            i += 1;
            assert(texts(r@) =~= initial + paths.take(i as int));
        }
        assert(paths.take(i as int) =~= paths);
        let ghost done = texts(r@);
        r.push(String::from_str(added));
        assert(texts(r@) =~= done.push(added@));
        assert(texts(r@) =~= initial + paths.push(added@));
        r
    }

    /// The name of the next set of programs.
    pub fn generation(&self) -> (r: String)
        requires
            self.packages@.len() < usize::MAX,
        ensures
            r@ == "generation-"@ + decimal_of((self.packages@.len() + 1) as nat),
    {
        let mut r = String::from_str("generation-");
        r.push_str(&decimal(self.packages.len() as u64 + 1));
        r
    }

    /// The objects of a closure that the session does not see yet.
    pub fn missing(&self, closure: &Vec<String>) -> (r: Vec<String>)
        requires
            self.wf(),
        ensures
            texts(r@) == lacking(texts(closure@), texts(self.mounted@)),
    {
        let mut r: Vec<String> = Vec::new();
        let ghost all = texts(closure@);
        let mut k: usize = 0;
        assert(all.take(0) =~= Seq::empty());
        assert(texts(r@) =~= Seq::empty());
        while k < closure.len()
            invariant
                k <= closure@.len(),
                self.wf(),
                all == texts(closure@),
                texts(r@) == lacking(all.take(k as int), texts(self.mounted@)),
            decreases closure@.len() - k,
        {
            assert(all.take(k + 1).drop_last() =~= all.take(k as int));
            assert(all.take(k + 1).last() == closure@[k as int]@);
            if !place(&self.mounted, &closure[k]).1 {
                put(&mut r, &closure[k]);
            }
            k += 1;
        }
        assert(all.take(k as int) =~= all);
        r
    }

    /// Takes in what the helper said to a mount.
    pub fn acknowledged(&mut self, item: &str, reply: &str) -> (r: Result<(), String>)
        requires
            old(self).wf(),
        ensures
            final(self).wf(),
            *final(self) == (Session { mounted: final(self).mounted, ..*old(self) }),
            if reply@ == "OK"@ {
                r is Ok && forall|p: Seq<char>| #[trigger]
                    has_path(texts(final(self).mounted@), p) <==> has_path(
                        texts(old(self).mounted@),
                        p,
                    ) || same_path(item@, p)
            } else {
                r matches Err(e) && e@ == "mount not acknowledged"@ && final(self).mounted
                    == old(self).mounted
            },
    {
        if !same(reply, "OK") {
            return Err(String::from_str("mount not acknowledged"));
        }
        let ghost before = texts(self.mounted@);
        let fresh = insert(&mut self.mounted, item);
        let ghost after = texts(self.mounted@);
        proof {
            lemma_inserted(before, after, item@, fresh);
        }
        Ok(())
    }

    /// Sets down that a package was granted.
    pub fn granted(&mut self, name: &str, path: &str)
        requires
            old(self).wf(),
        ensures
            final(self).wf(),
            *final(self) == (Session { packages: final(self).packages, ..*old(self) }),
            forall|n: Seq<char>|
                #[trigger] value_in(final(self).packages@, n) == if n == name@ {
                    Some(path@)
                } else {
                    value_in(old(self).packages@, n)
                },
    {
        put_var(&mut self.packages, name, path);
    }

    pub fn docker_enabled(&self) -> (r: bool)
        ensures
            r == self.docker,
    {
        self.docker
    }

    pub fn docker_scope(&self) -> (r: Option<String>)
        ensures
            maybe(r) == maybe(self.selection.name),
    {
        self.selection.name.clone()
    }

    /// The container engine that a request to use one means.
    pub fn enable_docker(&self, requested: &Option<String>, anonymous: bool) -> (r: Result<
        Engine,
        String,
    >)
        ensures
            match engine_for(*self, maybe(*requested), anonymous) {
                Err(text) => r matches Err(e) && e@ == text,
                Ok(None) => r matches Ok(e) && e is Same,
                Ok(Some(Some(name))) => r matches Ok(e) && e is Of && maybe(e->Of_0) == Some(name),
                Ok(Some(None)) => r matches Ok(e) && if anonymous {
                    e is Of && e->Of_0 is None
                } else {
                    e is Selected
                },
            },
    {
        if let Some(name) = requested {
            let allowed = match &self.launch.docker {
                None => false,
                Some(d) => {
                    let default = match &d.default_scope {
                        Some(s) => same(s, name),
                        None => false,
                    };
                    default || holds(&d.allowed_scopes, name)
                },
            };
            if !allowed {
                return Err(String::from_str("Docker scope is not allowed by this configuration"));
            }
        }
        let fits = match requested {
            Some(name) => match &self.selection.name {
                Some(n) => same(n, name),
                None => false,
            },
            None => true,
        };
        if self.docker && !anonymous && fits {
            return Ok(Engine::Same);
        }
        if !self.docker_home {
            let mut e = String::from_str("Docker unavailable in this session: ");
            match &self.docker_error {
                Some(t) => e.push_str(t),
                None => e.push_str("configuration lacks Docker runtime support"),
            }
            e.push_str("; fix prerequisites and start a new sandbox");
            return Err(e);
        }
        if self.launch.docker.is_none() {
            return Err(String::from_str("Docker runtime unavailable"));
        }
        if anonymous {
            return Ok(Engine::Of(None));
        }
        match requested {
            Some(name) => Ok(Engine::Of(Some(name.clone()))),
            None => match &self.selection.name {
                Some(n) => Ok(Engine::Of(Some(n.clone()))),
                None => Ok(Engine::Selected),
            },
        }
    }

    /// The client that is granted with the use of an engine, where the session does not
    /// have it from the start.
    pub fn client_needed(&self) -> (r: Option<String>)
        ensures
            maybe(r) == match self.launch.docker {
                Some(d) => match d.client {
                    Some(c) => if has_path(texts(self.launch.initial_packages@), c@) {
                        None
                    } else {
                        Some(c@)
                    },
                    None => None,
                },
                None => None,
            },
    {
        match &self.launch.docker {
            Some(d) => match &d.client {
                Some(c) => if listed(&self.launch.initial_packages, c) {
                    None
                } else {
                    Some(c.clone())
                },
                None => None,
            },
            None => None,
        }
    }

    /// The objects that the session sees or the engine needs.
    pub fn engine_objects(&self, closure: &Vec<String>) -> (r: Vec<String>)
        requires
            self.wf(),
        ensures
            same_paths(texts(r@), texts(self.mounted@) + texts(closure@)),
    {
        let mut r: Vec<String> = Vec::new();
        let ghost all = texts(self.mounted@) + texts(closure@);
        let mut k: usize = 0;
        assert(all.take(0) =~= Seq::empty());
        while k < self.mounted.len()
            invariant
                k <= self.mounted@.len(),
                all == texts(self.mounted@) + texts(closure@),
                same_paths(texts(r@), all.take(k as int)),
            decreases self.mounted@.len() - k,
        {
            add_path(&mut r, &self.mounted[k], Ghost(all.take(k as int)));
            assert(all.take(k + 1) =~= all.take(k as int).push(self.mounted@[k as int]@));
            k += 1;
        }
        let mut m: usize = 0;
        while m < closure.len()
            invariant
                m <= closure@.len(),
                all == texts(self.mounted@) + texts(closure@),
                same_paths(texts(r@), all.take(self.mounted@.len() + m)),
            decreases closure@.len() - m,
        {
            let ghost n = self.mounted@.len() + m;
            assert(all[n] == closure@[m as int]@);
            add_path(&mut r, &closure[m], Ghost(all.take(n)));
            assert(all.take(n + 1) =~= all.take(n).push(closure@[m as int]@));
            m += 1;
        }
        assert(all.take(self.mounted@.len() + m) =~= all);
        r
    }

    /// What an engine sees: what the session sees, and some objects.
    pub fn engine_filesystem(&self, objects: &Vec<String>) -> (r: Vec<String>)
        ensures
            texts(r@) == texts(self.docker_filesystem@) + shown_in_place(texts(objects@)),
    {
        let mut r: Vec<String> = Vec::new();
        put_all(&mut r, &self.docker_filesystem);
        assert(texts(r@) =~= texts(self.docker_filesystem@));
        put_shown(&mut r, objects);
        r
    }

    /// What the session shares with those that use its engine, in the order in which it
    /// is opened: what it was given, its workspace where it works there, the supplied
    /// files and some objects.
    pub fn engine_grants(
        &self,
        plan: &Plan,
        etc: &Vec<(String, String)>,
        objects: &Vec<String>,
    ) -> (r: Vec<(String, bool)>)
        ensures
            grants_view(r@) == given(plan.mounts@) + (if self.launch.cwd is None {
                seq![("/workspace"@, false)]
            } else {
                Seq::empty()
            }) + read_only(places_of(pairs(etc@))) + read_only(texts(objects@)),
    {
        let mut r: Vec<(String, bool)> = Vec::new();
        let mut k: usize = 0;
        assert(grants_view(r@) =~= given(plan.mounts@).take(0));
        while k < plan.mounts.len()
            invariant
                k <= plan.mounts@.len(),
                grants_view(r@) == given(plan.mounts@).take(k as int),
            decreases plan.mounts@.len() - k,
        {
            push_grant(&mut r, &plan.mounts[k].destination, plan.mounts[k].readonly);
            assert(given(plan.mounts@).take(k + 1) =~= given(plan.mounts@).take(k as int).push(
                given(plan.mounts@)[k as int],
            ));
            k += 1;
        }
        assert(given(plan.mounts@).take(k as int) =~= given(plan.mounts@));
        if self.launch.cwd.is_none() {
            push_grant(&mut r, "/workspace", false);
        }
        let ghost a = grants_view(r@);
        let ghost b = read_only(places_of(pairs(etc@)));
        let mut m: usize = 0;
        assert(a =~= a + b.take(0));
        while m < etc.len()
            invariant
                m <= etc@.len(),
                b == read_only(places_of(pairs(etc@))),
                grants_view(r@) == a + b.take(m as int),
            decreases etc@.len() - m,
        {
            assert(b[m as int] == (etc@[m as int].1@, true));
            push_grant(&mut r, &etc[m].1, true);
            assert(grants_view(r@) =~= a + b.take(m + 1));
            m += 1;
        }
        assert(b.take(m as int) =~= b);
        let ghost c = grants_view(r@);
        let ghost d = read_only(texts(objects@));
        let mut n: usize = 0;
        assert(c =~= c + d.take(0));
        while n < objects.len()
            invariant
                n <= objects@.len(),
                d == read_only(texts(objects@)),
                grants_view(r@) == c + d.take(n as int),
            decreases objects@.len() - n,
        {
            assert(d[n as int] == (objects@[n as int]@, true));
            push_grant(&mut r, &objects[n], true);
            assert(grants_view(r@) =~= c + d.take(n + 1));
            n += 1;
        }
        assert(d.take(n as int) =~= d);
        assert(grants_view(r@) =~= given(plan.mounts@) + (if self.launch.cwd is None {
            seq![("/workspace"@, false)]
        } else {
            Seq::empty()
        }) + b + d);
        r
    }

    /// Sets down which engine the session uses.
    pub fn engine_selected(&mut self, name: Option<String>)
        ensures
            *final(self) == (Session {
                docker: true,
                selection: Selection { name, enabled: true },
                ..*old(self)
            }),
    {
        self.docker = true;
        self.selection = Selection { name, enabled: true };
    }

    /// Whether the session goes on: where it stands, the engine that it uses and its
    /// helper have to.
    pub fn alive(&mut self, home: bool, engine: bool, helper: HelperState) -> (r: bool)
        ensures
            r == (!(old(self).docker_home && !home) && !(old(self).docker && !engine)
                && old(self).running && helper is Running),
            *final(self) == (Session { exit_code: final(self).exit_code, ..*old(self) }),
            final(self).exit_code == if (old(self).docker_home && !home) || (old(self).docker
                && !engine) {
                Some(1i32)
            } else if old(self).running && helper is Exited {
                helper->Exited_0
            } else {
                old(self).exit_code
            },
    {
        if (self.docker_home && !home) || (self.docker && !engine) {
            self.exit_code = Some(1);
            return false;
        }
        if !self.running {
            return false;
        }
        match helper {
            HelperState::Running => true,
            HelperState::Exited(code) => {
                self.exit_code = code;
                false
            },
            HelperState::Unknown => false,
        }
    }

    /// Ends the session. Where its helper had ended by itself, its code is kept.
    pub fn stop(&mut self, helper: HelperState)
        ensures
            *final(self) == (Session {
                running: false,
                docker: false,
                docker_home: false,
                selection: Selection { name: old(self).selection.name, enabled: false },
                exit_code: if old(self).running && helper is Exited {
                    helper->Exited_0
                } else {
                    old(self).exit_code
                },
                ..*old(self)
            }),
    {
        if self.running {
            match helper {
                HelperState::Exited(code) => {
                    self.exit_code = code;
                },
                _ => {},
            }
        }
        self.running = false;
        self.docker = false;
        self.docker_home = false;
        self.selection.enabled = false;
    }
}

proof fn lemma_inserted(before: Seq<Seq<char>>, after: Seq<Seq<char>>, item: Seq<char>, fresh: bool)
    requires
        fresh == !has_path(before, item),
        if fresh {
            exists|k: int| 0 <= k <= before.len() && after == #[trigger] before.insert(k, item)
        } else {
            after == before
        },
    ensures
        forall|p: Seq<char>| #[trigger]
            has_path(after, p) <==> has_path(before, p) || same_path(item, p),
{
    assert forall|p: Seq<char>| #[trigger]
        has_path(after, p) <==> has_path(before, p) || same_path(item, p) by {
        if fresh {
            let k = choose|k: int|
                0 <= k <= before.len() && after == #[trigger] before.insert(k, item);
            if has_path(after, p) {
                let m = choose|m: int| 0 <= m < after.len() && same_path(#[trigger] after[m], p);
                if m != k {
                    let j = if m < k { m } else { m - 1 };
                    assert(before[j] == after[m]);
                }
            }
            if has_path(before, p) {
                let j = choose|j: int| 0 <= j < before.len() && same_path(#[trigger] before[j], p);
                let m = if j < k { j } else { j + 1 };
                assert(after[m] == before[j]);
            }
            if same_path(item, p) {
                assert(after[k] == item);
            }
        } else if same_path(item, p) {
            let j = choose|j: int| 0 <= j < before.len() && same_path(#[trigger] before[j], item);
            assert(same_path(before[j], p));
        }
    }
}

/// A payload shares the network of another only where it was given one.
pub proof fn the_network_is_shared_where_given(home: bool, online: bool)
    ensures
        namespaces(home, online).contains("--share-net"@) <==> home || online,
        namespaces(home, online)[0] == "--unshare-all"@,
{
    let all = namespaces(home, online);
    reveal_strlit("--share-net");
    reveal_strlit("--unshare-all");
    reveal_strlit("--uid");
    reveal_strlit("1000");
    reveal_strlit("--gid");
    reveal_strlit("--hostname");
    reveal_strlit("sandbox");
    reveal_strlit("--cap-drop");
    reveal_strlit("ALL");
    reveal_strlit("--die-with-parent");
    reveal_strlit("--clearenv");
    assert("--share-net"@.len() == 11);
    assert("--unshare-all"@.len() == 13);
    assert("--uid"@.len() == 5);
    assert("1000"@.len() == 4);
    assert("--gid"@.len() == 5);
    assert("--hostname"@.len() == 10);
    assert("sandbox"@.len() == 7);
    assert("--cap-drop"@.len() == 10);
    assert("ALL"@.len() == 3);
    assert("--die-with-parent"@.len() == 17);
    assert("--clearenv"@.len() == 10);
    if home || online {
        assert(all[11] == "--share-net"@);
    }
}

/// A request for an engine of its own is never met by the one in use, nor by that of a
/// scope.
pub proof fn an_engine_of_its_own_is_fresh(s: Session, requested: Option<Seq<char>>)
    ensures
        match engine_for(s, requested, true) {
            Ok(e) => e == Some(None::<Seq<char>>),
            Err(_) => true,
        },
{
}

/// An engine is used under no name but one that the configuration allows or that was
/// selected before.
pub proof fn an_engine_is_allowed(s: Session, requested: Option<Seq<char>>, anonymous: bool)
    ensures
        match engine_for(s, requested, anonymous) {
            Ok(Some(Some(name))) => allows(s.launch, name) || maybe(s.selection.name) == Some(name),
            _ => true,
        },
{
}

} // verus!
