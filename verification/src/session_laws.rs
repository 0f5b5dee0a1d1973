//! What the arguments of a session say.
use vstd::prelude::*;

use crate::arguments::with_between;
use crate::binds::{
    lies_in, link_args, mount_args, the_first_value_counts, value_in, Mount, Plan,
};
use crate::config::Launch;
use crate::paths::{has_path, joined, name_of, parent_of, same_path};
use crate::protocol::is_package_name;
use crate::session::{
    closure_error, common_mounts, common_variables, engine_access, engine_for, filesystem,
    grant_of, helper_line, lacking, namespaces, search_list, setenvs, shown_at, shown_in_place,
    Descriptors, Session,
};
use crate::store::is_store_path;
use crate::text::{decimal_of, maybe, texts};

verus! {

/// Some arguments stand one behind the other among others.
pub open spec fn says(args: Seq<Seq<char>>, run: Seq<Seq<char>>) -> bool {
    exists|k: int|
        0 <= k && k + run.len() <= args.len() && #[trigger] args.subrange(k, k + run.len()) == run
}

proof fn lemma_says(before: Seq<Seq<char>>, args: Seq<Seq<char>>, behind: Seq<Seq<char>>, run: Seq<
    Seq<char>,
>)
    requires
        says(args, run),
    ensures
        says(before + args + behind, run),
{
    let k = choose|k: int|
        0 <= k && k + run.len() <= args.len() && #[trigger] args.subrange(k, k + run.len()) == run;
    let all = before + args + behind;
    let n = before.len() as int;
    assert(all.subrange(n + k, n + k + run.len()) =~= args.subrange(k, k + run.len()));
}

pub(crate) proof fn lemma_says_at(args: Seq<Seq<char>>, k: int, run: Seq<Seq<char>>)
    requires
        0 <= k,
        k + run.len() <= args.len(),
        forall|j: int| 0 <= j < run.len() ==> args[k + j] == #[trigger] run[j],
    ensures
        says(args, run),
{
    assert(args.subrange(k, k + run.len()) =~= run);
}

proof fn lemma_setenvs(vars: Seq<(String, String)>, i: int)
    ensures
        setenvs(vars).len() == 3 * vars.len(),
        0 <= i < vars.len() ==> {
            &&& setenvs(vars)[3 * i] == "--setenv"@
            &&& setenvs(vars)[3 * i + 1] == vars[i].0@
            &&& setenvs(vars)[3 * i + 2] == vars[i].1@
        },
    decreases vars.len(),
{
    if vars.len() > 0 {
        lemma_setenvs(vars.drop_last(), i);
    }
}

proof fn lemma_shown_in_place(paths: Seq<Seq<char>>, i: int)
    ensures
        shown_in_place(paths).len() == 3 * paths.len(),
        0 <= i < paths.len() ==> {
            &&& shown_in_place(paths)[3 * i] == "--ro-bind"@
            &&& shown_in_place(paths)[3 * i + 1] == paths[i]
            &&& shown_in_place(paths)[3 * i + 2] == paths[i]
        },
    decreases paths.len(),
{
    if paths.len() > 0 {
        lemma_shown_in_place(paths.drop_last(), i);
    }
}

proof fn lemma_shown_at(v: Seq<(Seq<char>, Seq<char>)>, i: int)
    ensures
        shown_at(v).len() == 3 * v.len(),
        0 <= i < v.len() ==> {
            &&& shown_at(v)[3 * i] == "--ro-bind"@
            &&& shown_at(v)[3 * i + 1] == v[i].0
            &&& shown_at(v)[3 * i + 2] == v[i].1
        },
    decreases v.len(),
{
    if v.len() > 0 {
        lemma_shown_at(v.drop_last(), i);
    }
}

proof fn lemma_mount_args(v: Seq<Mount>, i: int)
    ensures
        mount_args(v).len() == 3 * v.len(),
        0 <= i < v.len() ==> {
            &&& mount_args(v)[3 * i] == if v[i].readonly {
                "--ro-bind-fd"@
            } else {
                "--bind-fd"@
            }
            &&& mount_args(v)[3 * i + 1] == decimal_of(v[i].descriptor as nat)
            &&& mount_args(v)[3 * i + 2] == v[i].destination@
        },
    decreases v.len(),
{
    if v.len() > 0 {
        lemma_mount_args(v.drop_last(), i);
    }
}

proof fn lemma_link_args(p: Plan, initial: Seq<Seq<char>>, k: nat, i: int)
    requires
        k <= p.landings@.len(),
        0 <= i < k,
    ensures
        !lies_in(p.landings@[i]@, initial) ==> says(
            link_args(p, initial, k),
            seq!["--ro-bind"@, p.targets@[i]@, p.landings@[i]@],
        ),
        link_args(p, initial, k).len() <= 3 * k,
    decreases k,
{
    let most = link_args(p, initial, (k - 1) as nat);
    let all = link_args(p, initial, k);
    let run = seq!["--ro-bind"@, p.targets@[i]@, p.landings@[i]@];
    if i < k - 1 {
        lemma_link_args(p, initial, (k - 1) as nat, i);
        if !lies_in(p.landings@[i]@, initial) {
            let more = all.skip(most.len() as int);
            lemma_says(Seq::empty(), most, more, run);
            assert(Seq::empty() + most + more =~= all);
        }
    } else {
        if k > 1 {
            lemma_link_args(p, initial, (k - 1) as nat, 0);
        }
        if !lies_in(p.landings@[i]@, initial) {
            lemma_says_at(all, most.len() as int, run);
        }
    }
}

/// A session works in the directory that its launch names, and in its workspace where that
/// names none. No argument says otherwise: there is one group for each thing that it is given
/// and none besides.
pub proof fn a_session_works_where_it_was_launched(
    l: Launch,
    directory: Seq<char>,
    plan: Plan,
    initial: Seq<Seq<char>>,
    etc: Seq<(Seq<char>, Seq<char>)>,
    workspace: nat,
)
    ensures
        ({
            let args = filesystem(l, directory, plan, initial, etc, workspace);
            let k = if l.pasta is Some {
                53int
            } else {
                50int
            };
            &&& args[k] == "--chdir"@
            &&& l.cwd matches Some(d) ==> args[k + 1] == d@
            &&& l.cwd is None ==> args[k + 1] == "/workspace"@
            &&& says(args, seq!["--chdir"@, args[k + 1]])
            &&& args.len() == k + 2 + 3 * l.env@.len() + 3 * initial.len() + link_args(
                plan,
                initial,
                plan.landings@.len(),
            ).len() + 3 * plan.mounts@.len() + 3 * etc.len()
        }),
{
    let args = filesystem(l, directory, plan, initial, etc, workspace);
    let k = if l.pasta is Some {
        53int
    } else {
        50int
    };
    lemma_setenvs(l.env@, 0);
    lemma_shown_in_place(initial, 0);
    lemma_mount_args(plan.mounts@, 0);
    lemma_shown_at(etc, 0);
    assert(common_variables(plan.home@, with_between(search_list(l), ":"@), l.posix_shell@).len()
        == 24);
    assert(common_mounts(plan.home@, workspace, directory, l.client_package@).len() == 23);
    lemma_says_at(args, k, seq!["--chdir"@, args[k + 1]]);
}

/// The variables of a session: those that every one has, and those that its launch names.
pub proof fn a_session_has_its_variables(
    l: Launch,
    directory: Seq<char>,
    plan: Plan,
    initial: Seq<Seq<char>>,
    etc: Seq<(Seq<char>, Seq<char>)>,
    workspace: nat,
    i: int,
)
    ensures
        ({
            let args = filesystem(l, directory, plan, initial, etc, workspace);
            &&& says(args, seq!["--setenv"@, "HOME"@, plan.home@])
            &&& says(args, seq!["--setenv"@, "LC_ALL"@, "C"@])
            &&& says(args, seq!["--setenv"@, "USER"@, "agent"@])
            &&& says(args, seq!["--setenv"@, "LOGNAME"@, "agent"@])
            &&& says(
                args,
                seq!["--setenv"@, "PATH"@, with_between(search_list(l), ":"@)],
            )
            &&& says(args, seq!["--setenv"@, "SHELL"@, l.posix_shell@])
            &&& says(args, seq!["--setenv"@, "PYTHONNOUSERSITE"@, "1"@])
            &&& says(args, seq!["--setenv"@, "TERM"@, "xterm-256color"@])
            &&& says(args, seq!["--symlink"@, l.posix_shell@, "/bin/sh"@])
            &&& 0 <= i < l.env@.len() ==> says(
                args,
                seq!["--setenv"@, l.env@[i].0@, l.env@[i].1@],
            )
        }),
{
    let args = filesystem(l, directory, plan, initial, etc, workspace);
    let o = if l.pasta is Some {
        3int
    } else {
        0int
    };
    let path = with_between(search_list(l), ":"@);
    let vars = common_variables(plan.home@, path, l.posix_shell@);
    assert(vars.len() == 24);
    assert(common_mounts(plan.home@, workspace, directory, l.client_package@).len() == 23);
    assert forall|j: int| 0 <= j < 24 implies args[o + j] == #[trigger] vars[j] by {}
    lemma_three(args, o, vars, 0, seq!["--setenv"@, "HOME"@, plan.home@]);
    lemma_three(args, o, vars, 3, seq!["--setenv"@, "LC_ALL"@, "C"@]);
    lemma_three(args, o, vars, 6, seq!["--setenv"@, "USER"@, "agent"@]);
    lemma_three(args, o, vars, 9, seq!["--setenv"@, "LOGNAME"@, "agent"@]);
    lemma_three(args, o, vars, 12, seq!["--setenv"@, "PATH"@, path]);
    lemma_three(args, o, vars, 15, seq!["--setenv"@, "SHELL"@, l.posix_shell@]);
    lemma_three(args, o, vars, 18, seq!["--setenv"@, "PYTHONNOUSERSITE"@, "1"@]);
    lemma_three(args, o, vars, 21, seq!["--setenv"@, "TERM"@, "xterm-256color"@]);
    let link = seq!["--symlink"@, l.posix_shell@, "/bin/sh"@];
    lemma_says_at(args, o + 47, link);
    if 0 <= i < l.env@.len() {
        lemma_setenvs(l.env@, i);
        let run = seq!["--setenv"@, l.env@[i].0@, l.env@[i].1@];
        lemma_says_at(args, o + 52 + 3 * i, run);
    }
}

proof fn lemma_three(
    args: Seq<Seq<char>>,
    o: int,
    part: Seq<Seq<char>>,
    k: int,
    run: Seq<Seq<char>>,
)
    requires
        0 <= o,
        0 <= k,
        run.len() == 3,
        k + 3 <= part.len(),
        o + part.len() <= args.len(),
        forall|j: int| 0 <= j < part.len() ==> args[o + j] == #[trigger] part[j],
        part[k] == run[0],
        part[k + 1] == run[1],
        part[k + 2] == run[2],
    ensures
        says(args, run),
{
    assert forall|j: int| 0 <= j < run.len() implies args[o + k + j] == #[trigger] run[j] by {
        assert(args[o + (k + j)] == part[k + j]);
    }
    lemma_says_at(args, o + k, run);
}

/// What is put before a part of the arguments, in the order in which they stand.
spec fn before_mounts(l: Launch, directory: Seq<char>, plan: Plan) -> Seq<Seq<char>> {
    (if l.pasta is Some {
        seq!["--ro-bind"@, joined(directory, "resolv.conf"@), "/etc/resolv.conf"@]
    } else {
        Seq::empty()
    }) + common_variables(plan.home@, with_between(search_list(l), ":"@), l.posix_shell@)
}

spec fn before_objects(
    l: Launch,
    directory: Seq<char>,
    plan: Plan,
    workspace: nat,
) -> Seq<Seq<char>> {
    let args = filesystem(l, directory, plan, Seq::empty(), Seq::empty(), workspace);
    args.take(
        (if l.pasta is Some {
            55int
        } else {
            52int
        }) + 3 * l.env@.len(),
    )
}

proof fn lemma_parts(
    l: Launch,
    directory: Seq<char>,
    plan: Plan,
    initial: Seq<Seq<char>>,
    etc: Seq<(Seq<char>, Seq<char>)>,
    workspace: nat,
)
    ensures
        ({
            let args = filesystem(l, directory, plan, initial, etc, workspace);
            let head = before_mounts(l, directory, plan);
            let front = before_objects(l, directory, plan, workspace);
            let links = link_args(plan, initial, plan.landings@.len());
            let mounts = common_mounts(plan.home@, workspace, directory, l.client_package@);
            &&& args == head + mounts + args.skip((head.len() + mounts.len()) as int)
            &&& args == front + shown_in_place(initial) + links + mount_args(plan.mounts@)
                + shown_at(etc)
        }),
{
    let args = filesystem(l, directory, plan, initial, etc, workspace);
    let head = before_mounts(l, directory, plan);
    let mounts = common_mounts(plan.home@, workspace, directory, l.client_package@);
    assert(args =~= head + mounts + args.skip((head.len() + mounts.len()) as int));
    let front = before_objects(l, directory, plan, workspace);
    lemma_setenvs(l.env@, 0);
    let first = head + mounts + seq![
        "--symlink"@,
        l.posix_shell@,
        "/bin/sh"@,
        "--chdir"@,
        crate::session::start_directory(l),
    ] + setenvs(l.env@);
    assert(common_variables(plan.home@, with_between(search_list(l), ":"@), l.posix_shell@).len()
        == 24);
    let none = filesystem(l, directory, plan, Seq::empty(), Seq::empty(), workspace);
    assert(none.take(first.len() as int) =~= first);
    assert(args =~= first + shown_in_place(initial) + link_args(
        plan,
        initial,
        plan.landings@.len(),
    ) + mount_args(plan.mounts@) + shown_at(etc));
}

/// What every session sees: its own processes and devices, its workspace, the store, its
/// packages, the client and its socket, and a resolver where it has a network.
pub proof fn a_session_sees_its_own(
    l: Launch,
    directory: Seq<char>,
    plan: Plan,
    initial: Seq<Seq<char>>,
    etc: Seq<(Seq<char>, Seq<char>)>,
    workspace: nat,
)
    ensures
        ({
            let args = filesystem(l, directory, plan, initial, etc, workspace);
            &&& says(args, seq!["--proc"@, "/proc"@])
            &&& says(args, seq!["--dev"@, "/dev"@])
            &&& says(args, seq!["--tmpfs"@, "/tmp"@])
            &&& says(args, seq!["--tmpfs"@, plan.home@])
            &&& says(args, seq!["--bind-fd"@, decimal_of(workspace), "/workspace"@])
            &&& says(args, seq!["--ro-bind"@, joined(directory, "store"@), "/nix/store"@])
            &&& says(
                args,
                seq!["--ro-bind"@, joined(directory, "packages"@), "/run/goblins/packages"@],
            )
            &&& says(
                args,
                seq!["--ro-bind"@, joined(l.client_package@, "bin"@), "/run/goblins/bin"@],
            )
            &&& says(
                args,
                seq![
                    "--ro-bind"@,
                    joined(directory, "request.sock"@),
                    "/run/goblins/request.sock"@,
                ],
            )
            &&& l.pasta is Some ==> says(
                args,
                seq!["--ro-bind"@, joined(directory, "resolv.conf"@), "/etc/resolv.conf"@],
            )
        }),
{
    let args = filesystem(l, directory, plan, initial, etc, workspace);
    let head = before_mounts(l, directory, plan);
    let m = common_mounts(plan.home@, workspace, directory, l.client_package@);
    let behind = args.skip((head.len() + m.len()) as int);
    lemma_parts(l, directory, plan, initial, etc, workspace);
    let runs = seq![
        seq!["--proc"@, "/proc"@],
        seq!["--dev"@, "/dev"@],
        seq!["--tmpfs"@, "/tmp"@],
        seq!["--tmpfs"@, plan.home@],
        seq!["--bind-fd"@, decimal_of(workspace), "/workspace"@],
        seq!["--ro-bind"@, joined(directory, "store"@), "/nix/store"@],
        seq!["--ro-bind"@, joined(directory, "packages"@), "/run/goblins/packages"@],
        seq!["--ro-bind"@, joined(l.client_package@, "bin"@), "/run/goblins/bin"@],
        seq!["--ro-bind"@, joined(directory, "request.sock"@), "/run/goblins/request.sock"@],
    ];
    lemma_says_at(m, 0, runs[0]);
    lemma_says_at(m, 2, runs[1]);
    lemma_says_at(m, 4, runs[2]);
    lemma_says_at(m, 6, runs[3]);
    lemma_says_at(m, 8, runs[4]);
    lemma_says_at(m, 11, runs[5]);
    lemma_says_at(m, 14, runs[6]);
    lemma_says_at(m, 17, runs[7]);
    lemma_says_at(m, 20, runs[8]);
    assert forall|k: int| 0 <= k < 9 implies says(args, #[trigger] runs[k]) by {
        lemma_says(head, m, behind, runs[k]);
    }
    assert(says(args, runs[0]) && says(args, runs[1]) && says(args, runs[2]));
    assert(says(args, runs[3]) && says(args, runs[4]) && says(args, runs[5]));
    assert(says(args, runs[6]) && says(args, runs[7]) && says(args, runs[8]));
    if l.pasta is Some {
        let run = seq!["--ro-bind"@, joined(directory, "resolv.conf"@), "/etc/resolv.conf"@];
        assert(args.subrange(0, 3) =~= run);
        lemma_says_at(args, 0, run);
    }
}

/// What a session was given is there: the objects that it starts with, the targets of links
/// that lead out of those, what descriptors hold open, to be written or only to be read as
/// declared, and the files of `/etc`.
pub proof fn a_session_sees_what_it_was_given(
    l: Launch,
    directory: Seq<char>,
    plan: Plan,
    initial: Seq<Seq<char>>,
    etc: Seq<(Seq<char>, Seq<char>)>,
    workspace: nat,
    i: int,
)
    ensures
        ({
            let args = filesystem(l, directory, plan, initial, etc, workspace);
            &&& 0 <= i < initial.len() ==> says(
                args,
                seq!["--ro-bind"@, initial[i], initial[i]],
            )
            &&& (0 <= i < plan.landings@.len() && !lies_in(plan.landings@[i]@, initial)) ==> says(
                args,
                seq!["--ro-bind"@, plan.targets@[i]@, plan.landings@[i]@],
            )
            &&& 0 <= i < plan.mounts@.len() ==> says(
                args,
                seq![
                    if plan.mounts@[i].readonly {
                        "--ro-bind-fd"@
                    } else {
                        "--bind-fd"@
                    },
                    decimal_of(plan.mounts@[i].descriptor as nat),
                    plan.mounts@[i].destination@,
                ],
            )
            &&& 0 <= i < etc.len() ==> says(args, seq!["--ro-bind"@, etc[i].0, etc[i].1])
        }),
{
    let args = filesystem(l, directory, plan, initial, etc, workspace);
    let front = before_objects(l, directory, plan, workspace);
    let objects = shown_in_place(initial);
    let links = link_args(plan, initial, plan.landings@.len());
    let mounts = mount_args(plan.mounts@);
    let files = shown_at(etc);
    lemma_parts(l, directory, plan, initial, etc, workspace);
    if 0 <= i < initial.len() {
        let run = seq!["--ro-bind"@, initial[i], initial[i]];
        assert(says(objects, run)) by {
            lemma_shown_in_place(initial, i);
            lemma_says_at(objects, 3 * i, run);
        }
        lemma_somewhere(front, objects, links, mounts, files, run);
    }
    if 0 <= i < plan.landings@.len() && !lies_in(plan.landings@[i]@, initial) {
        let run = seq!["--ro-bind"@, plan.targets@[i]@, plan.landings@[i]@];
        assert(says(links, run)) by {
            lemma_link_args(plan, initial, plan.landings@.len(), i);
        }
        lemma_somewhere(front, objects, links, mounts, files, run);
    }
    if 0 <= i < plan.mounts@.len() {
        let m = plan.mounts@[i];
        let run = seq![
            if m.readonly {
                "--ro-bind-fd"@
            } else {
                "--bind-fd"@
            },
            decimal_of(m.descriptor as nat),
            m.destination@,
        ];
        assert(says(mounts, run)) by {
            lemma_mount_args(plan.mounts@, i);
            lemma_says_at(mounts, 3 * i, run);
        }
        lemma_somewhere(front, objects, links, mounts, files, run);
    }
    if 0 <= i < etc.len() {
        let run = seq!["--ro-bind"@, etc[i].0, etc[i].1];
        assert(says(files, run)) by {
            lemma_shown_at(etc, i);
            lemma_says_at(files, 3 * i, run);
        }
        lemma_somewhere(front, objects, links, mounts, files, run);
    }
}

proof fn lemma_somewhere(
    a: Seq<Seq<char>>,
    b: Seq<Seq<char>>,
    c: Seq<Seq<char>>,
    d: Seq<Seq<char>>,
    e: Seq<Seq<char>>,
    run: Seq<Seq<char>>,
)
    requires
        says(b, run) || says(c, run) || says(d, run) || says(e, run),
    ensures
        says(a + b + c + d + e, run),
{
    let all = a + b + c + d + e;
    if says(b, run) {
        lemma_says(a, b, c + d + e, run);
        assert(a + b + (c + d + e) =~= all);
    } else if says(c, run) {
        lemma_says(a + b, c, d + e, run);
        assert(a + b + c + (d + e) =~= all);
    } else if says(d, run) {
        lemma_says(a + b + c, d, e, run);
    } else {
        lemma_says(a + b + c + d, e, Seq::empty(), run);
        assert(all + Seq::<Seq<char>>::empty() =~= all);
    }
}

/// The helper is told all that the session is given, makes what the payload sees unwritable
/// but for that, puts its filter in place, and runs the program of the launch with its
/// arguments. The socket of a container engine is there where the launch has one, and a
/// session without a terminal is one of its own.
pub proof fn a_helper_is_told_all(
    l: Launch,
    d: Descriptors,
    sandbox: Seq<Seq<char>>,
    docker: bool,
    directory: Seq<char>,
    terminal: bool,
)
    ensures
        ({
            let args = helper_line(l, d, sandbox, docker, directory, terminal);
            let n = (args.len() - l.shell_args@.len()) as int;
            &&& says(args, seq![l.bwrap@] + sandbox)
            &&& args.skip(n) == texts(l.shell_args@)
            &&& args[n - 1] == l.shell@
            &&& args[n - 2] == "--"@
            &&& args[n - 3] == decimal_of(d.filter as nat)
            &&& args[n - 4] == "--seccomp"@
            &&& (args[n - 5] == "--new-session"@ && !terminal) || (args[n - 5] == "/"@ && terminal)
            &&& says(args, seq!["--remount-ro"@, "/"@])
            &&& docker ==> says(
                args,
                seq![
                    "--ro-bind"@,
                    joined(directory, "docker-socket"@),
                    "/run/goblins/docker-socket"@,
                    "--setenv"@,
                    "DOCKER_HOST"@,
                    "unix:///run/goblins/docker-socket/docker.sock"@,
                ],
            )
            &&& d.namespaces matches Some((user, net)) ==> args.take(3) == seq![
                "--network-namespaces"@,
                decimal_of(user as nat),
                decimal_of(net as nat),
            ]
            &&& ({
                let j = if d.namespaces is Some {
                    3int
                } else {
                    0int
                };
                &&& args[j] == decimal_of(d.input as nat)
                &&& args[j + 1] == decimal_of(d.output as nat)
                &&& args[j + 2] == decimal_of(d.filter as nat)
            })
            &&& args.len() == (if d.namespaces is Some {
                3int
            } else {
                0int
            }) + 5 + sandbox.len() + (if docker {
                6int
            } else {
                0int
            }) + 2 + (if terminal {
                0int
            } else {
                1int
            }) + 4 + l.shell_args@.len()
        }),
{
    let args = helper_line(l, d, sandbox, docker, directory, terminal);
    let n = (args.len() - l.shell_args@.len()) as int;
    let j = if d.namespaces is Some {
        3int
    } else {
        0int
    };
    assert(texts(l.shell_args@).len() == l.shell_args@.len());
    let run = seq![l.bwrap@] + sandbox;
    lemma_says_at(args, j + 4, run);
    assert(args.skip(n) =~= texts(l.shell_args@));
    let k = j + 5 + sandbox.len();
    if docker {
        lemma_says_at(args, k, engine_access(directory));
        assert(engine_access(directory) =~= seq![
            "--ro-bind"@,
            joined(directory, "docker-socket"@),
            "/run/goblins/docker-socket"@,
            "--setenv"@,
            "DOCKER_HOST"@,
            "unix:///run/goblins/docker-socket/docker.sock"@,
        ]);
    }
    let m = if docker {
        k + 6
    } else {
        k
    };
    lemma_says_at(args, m, seq!["--remount-ro"@, "/"@]);
    if let Some((user, net)) = d.namespaces {
        assert(args.take(3) =~= seq![
            "--network-namespaces"@,
            decimal_of(user as nat),
            decimal_of(net as nat),
        ]);
    }
}

/// The payload shares no namespace with the host but a network that it was given, has no
/// capability and no variable of the host, and ends with what started it.
pub proof fn a_payload_stands_alone(home: bool, online: bool)
    ensures
        ({
            let args = namespaces(home, online);
            &&& args.contains("--unshare-all"@)
            &&& says(args, seq!["--uid"@, "1000"@, "--gid"@, "1000"@])
            &&& says(args, seq!["--hostname"@, "sandbox"@])
            &&& says(args, seq!["--cap-drop"@, "ALL"@])
            &&& args.contains("--die-with-parent"@)
            &&& args.contains("--clearenv"@)
            &&& args.len() == if home || online {
                12int
            } else {
                11int
            }
        }),
{
    let args = namespaces(home, online);
    assert(args[0] == "--unshare-all"@);
    assert(args[9] == "--die-with-parent"@);
    assert(args[10] == "--clearenv"@);
    lemma_says_at(args, 1, seq!["--uid"@, "1000"@, "--gid"@, "1000"@]);
    lemma_says_at(args, 5, seq!["--hostname"@, "sandbox"@]);
    lemma_says_at(args, 7, seq!["--cap-drop"@, "ALL"@]);
}

/// Programs are looked for first in what was granted, then in the client, beside the shell,
/// and in every package that the session starts with.
pub proof fn programs_are_looked_for_in_order(l: Launch, i: int)
    ensures
        search_list(l).len() == 3 + l.initial_packages@.len(),
        search_list(l)[0] == "/run/goblins/packages/current/bin"@,
        search_list(l)[1] == "/run/goblins/bin"@,
        parent_of(l.shell@) matches Some(p) ==> search_list(l)[2] == p,
        0 <= i < l.initial_packages@.len() ==> search_list(l)[3 + i] == joined(
            l.initial_packages@[i]@,
            "bin"@,
        ),
{
}

/// What a session still lacks of some objects is exactly what it does not see yet.
pub proof fn what_is_lacking_is_not_seen(
    closure: Seq<Seq<char>>,
    mounted: Seq<Seq<char>>,
    x: Seq<char>,
)
    ensures
        lacking(closure, mounted).contains(x) <==> closure.contains(x) && !exists|i: int|
            0 <= i < mounted.len() && same_path(#[trigger] mounted[i], x),
    decreases closure.len(),
{
    if closure.len() > 0 {
        let most = closure.drop_last();
        let some = lacking(most, mounted);
        let all = lacking(closure, mounted);
        what_is_lacking_is_not_seen(most, mounted, x);
        if some.contains(x) {
            let k = choose|k: int| 0 <= k < some.len() && some[k] == x;
            assert(all[k] == x);
        }
        if most.contains(x) {
            let k = choose|k: int| 0 <= k < most.len() && most[k] == x;
            assert(closure[k] == x);
        }
        if closure.last() == x {
            assert(closure[closure.len() - 1] == x);
            if !has_path(mounted, x) {
                assert(all[all.len() - 1] == x);
            }
        }
        if closure.contains(x) && closure.last() != x {
            let k = choose|k: int| 0 <= k < closure.len() && closure[k] == x;
            assert(most[k] == x);
        }
        if all.contains(x) && !some.contains(x) {
            let k = choose|k: int| 0 <= k < all.len() && all[k] == x;
            if k < some.len() {
                assert(some[k] == x);
            }
        }
    }
}

/// A package is granted where its name is one and it was not granted before.
pub proof fn a_package_is_granted_once(packages: Seq<(String, String)>, name: Seq<char>)
    ensures
        grant_of(packages, name) is Ok <==> is_package_name(name),
        is_package_name(name) ==> (grant_of(packages, name) == Ok::<bool, Seq<char>>(true)
            <==> forall|i: int| 0 <= i < packages.len() ==> (#[trigger] packages[i]).0@ != name),
{
    if forall|i: int| 0 <= i < packages.len() ==> (#[trigger] packages[i]).0@ != name {
        the_first_value_counts(packages, name, packages.len() as int);
    } else {
        lemma_has_value(packages, name);
    }
}

proof fn lemma_has_value(packages: Seq<(String, String)>, name: Seq<char>)
    requires
        exists|i: int| 0 <= i < packages.len() && (#[trigger] packages[i]).0@ == name,
    ensures
        value_in(packages, name) is Some,
    decreases packages.len(),
{
    let i = choose|i: int| 0 <= i < packages.len() && (#[trigger] packages[i]).0@ == name;
    if packages[0].0@ != name {
        let rest = packages.drop_first();
        assert(rest[i - 1] == packages[i]);
        lemma_has_value(rest, name);
    }
}

/// A scope that the configuration allows is used where the session can use an engine; one that
/// it does not allow never is; the engine in use is kept where nothing else is asked for.
pub proof fn an_allowed_scope_is_used(s: Session, name: Seq<char>)
    ensures
        ({
            let allowed = s.launch.docker matches Some(d) && (maybe(d.default_scope) == Some(name)
                || texts(d.allowed_scopes@).contains(name));
            let used = s.docker && maybe(s.selection.name) == Some(name);
            &&& !allowed ==> engine_for(s, Some(name), false) is Err
            &&& (allowed && used) ==> engine_for(s, Some(name), false) == Ok::<
                Option<Option<Seq<char>>>,
                Seq<char>,
            >(None)
            &&& (allowed && !used && s.docker_home) ==> engine_for(s, Some(name), false) == Ok::<
                Option<Option<Seq<char>>>,
                Seq<char>,
            >(Some(Some(name)))
            &&& (allowed && !used && !s.docker_home) ==> engine_for(s, Some(name), false) is Err
        }),
        s.docker ==> engine_for(s, None, false) == Ok::<Option<Option<Seq<char>>>, Seq<char>>(None),
        (!s.docker && s.docker_home && s.launch.docker is Some) ==> engine_for(s, None, false)
            == Ok::<Option<Option<Seq<char>>>, Seq<char>>(Some(maybe(s.selection.name))),
        (s.docker_home && s.launch.docker is Some) ==> engine_for(s, None, true) == Ok::<
            Option<Option<Seq<char>>>,
            Seq<char>,
        >(Some(None)),
{
}

/// A query is taken where every line of it is a store object, and where one is not it fails.
pub proof fn only_store_objects_are_listed(ls: Seq<Seq<char>>)
    ensures
        closure_error(ls) is None <==> forall|i: int|
            0 <= i < ls.len() ==> name_of(#[trigger] ls[i]) is Some && is_store_path(ls[i]),
    decreases ls.len(),
{
    if ls.len() > 0 {
        let most = ls.drop_last();
        only_store_objects_are_listed(most);
        assert(ls[ls.len() - 1] == ls.last());
        if forall|i: int|
            0 <= i < ls.len() ==> name_of(#[trigger] ls[i]) is Some && is_store_path(ls[i]) {
            assert forall|i: int| 0 <= i < most.len() implies name_of(#[trigger] most[i]) is Some
                && is_store_path(most[i]) by {
                assert(most[i] == ls[i]);
            }
        }
        if closure_error(ls) is None {
            assert forall|i: int| 0 <= i < ls.len() implies name_of(#[trigger] ls[i]) is Some
                && is_store_path(ls[i]) by {
                if i < most.len() {
                    assert(most[i] == ls[i]);
                }
            }
        }
    }
}

} // verus!
