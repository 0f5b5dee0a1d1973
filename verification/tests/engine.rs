//! Sessions as they are started, container engines, networks and the helper.
use goblins::binds::{Declarations, Plan};
use goblins::config::{Docker, Launch};
use goblins::docker::{
    check_data, check_filesystem, check_lock, child_pid, climb, descend, engine_args, info_line,
    map_args, map_programs, ready as answers, scope_paths, starting, storage_root, subordinate,
    told_with, Descriptors as EngineDescriptors, TMPFS,
};
use goblins::docker_forward::{address, body, ports, receive, settle, Forwarder, ANSWER};
use goblins::docker_scope::{check_user, process_number, scope_args, search, written_number, Search};
use goblins::docker_shared::{engine_view, realm, store_target, Grant, Shared};
use goblins::helper::{
    check_mapped, check_same, check_storage, command, exit_status, info_pid, parse_bind,
    parse_entry, parse_forward, parse_guard, parse_launch, parse_sources, Command,
};
use goblins::json::Json;
use goblins::network::{attach_args, attached, keeper, start_args, Wait};
use goblins::numbers::{parse_signed, parse_up_to};
use goblins::session::{
    build_args, built, check_workspace, closure, closure_args, collect, ready, search_path,
    Descriptors, Engine, HelperState, Prepared, Selection, Session,
};
use goblins::worker::{answer, check_initial, granted, initial_names, poll, Look, Poll};

const HASH: &str = "00000000000000000000000000000000";

fn s(t: &str) -> String {
    t.to_string()
}

fn strings(v: &[&str]) -> Vec<String> {
    v.iter().map(|t| t.to_string()).collect()
}

fn text(t: &str) -> Json {
    Json::Text(t.to_string())
}

fn object(fields: Vec<(&str, Json)>) -> Json {
    Json::Object(fields.into_iter().map(|(k, v)| (k.to_string(), v)).collect())
}

fn docker(enabled: bool) -> Docker {
    Docker {
        daemon: s("/nix/store/d/bin/dockerd"),
        client: Some(s("/nix/store/client")),
        enabled,
        default_scope: Some(s("team")),
        allowed_scopes: strings(&["other"]),
    }
}

fn launch(docker: Option<Docker>, pasta: Option<&str>) -> Launch {
    Launch {
        description: s("a shell"),
        pasta: pasta.map(s),
        cwd: None,
        shell: s("/nix/store/fish/bin/fish"),
        shell_args: strings(&["-l"]),
        posix_shell: s("/nix/store/bash/bin/sh"),
        helper: s("/nix/store/helper/bin/helper"),
        bwrap: s("/nix/store/bwrap/bin/bwrap"),
        flake: s("nixpkgs"),
        client_package: s("/nix/store/goblins"),
        initial_packages: strings(&["/nix/store/jq"]),
        initial_closure: strings(&["/nix/store/libc"]),
        env: vec![(s("EDITOR"), s("vi"))],
        binds: Declarations::default(),
        protected_paths: strings(&["/state"]),
        sandbox_etc: Vec::new(),
        integration: None,
        docker,
    }
}

fn plan() -> Plan {
    Plan::new(&vec![(s("HOME"), s("/home/test"))]).unwrap()
}

#[test]
fn a_session_is_started_in_namespaces_of_its_own() {
    let mut session = Session::new_in(launch(None, None), false, None, s("/d"));
    let etc = vec![(s("/nix/store/conf"), s("/etc/conf"))];
    assert_eq!(
        session.private_paths("/storage", &etc),
        strings(&["/state", "/storage", "/d", "/etc/conf"])
    );
    assert_eq!(
        session.closure_roots(&etc).unwrap(),
        strings(&[
            "/nix/store/fish",
            "/nix/store/bash",
            "/nix/store/goblins",
            "/nix/store/jq",
            "/nix/store/libc",
            "/nix/store/conf",
        ])
    );
    assert_eq!(session.kept_roots().unwrap(), strings(&["/nix/store/helper"]));
    assert!(!session.needs_network() && !session.eager());
    assert!(session.start(&plan(), strings(&["/nix/store/x"]), &etc, 9).is_ok());
    let d = Descriptors { input: 3, output: 4, filter: 5, sources: vec![9], namespaces: None };
    let args = session.arguments(&d, true);
    let expected = [
        "3",
        "4",
        "5",
        "9",
        "/nix/store/bwrap/bin/bwrap",
        "--unshare-all",
        "--uid",
        "1000",
        "--gid",
        "1000",
        "--hostname",
        "sandbox",
        "--cap-drop",
        "ALL",
        "--die-with-parent",
        "--clearenv",
        "--setenv",
        "HOME",
        "/home/test",
        "--setenv",
        "LC_ALL",
        "C",
        "--setenv",
        "USER",
        "agent",
        "--setenv",
        "LOGNAME",
        "agent",
        "--setenv",
        "PATH",
        "/run/goblins/packages/current/bin:/run/goblins/bin:/nix/store/fish/bin:/nix/store/jq/bin",
        "--setenv",
        "SHELL",
        "/nix/store/bash/bin/sh",
        "--setenv",
        "PYTHONNOUSERSITE",
        "1",
        "--setenv",
        "TERM",
        "xterm-256color",
        "--proc",
        "/proc",
        "--dev",
        "/dev",
        "--tmpfs",
        "/tmp",
        "--tmpfs",
        "/home/test",
        "--bind-fd",
        "9",
        "/workspace",
        "--ro-bind",
        "/d/store",
        "/nix/store",
        "--ro-bind",
        "/d/packages",
        "/run/goblins/packages",
        "--ro-bind",
        "/nix/store/goblins/bin",
        "/run/goblins/bin",
        "--ro-bind",
        "/d/request.sock",
        "/run/goblins/request.sock",
        "--symlink",
        "/nix/store/bash/bin/sh",
        "/bin/sh",
        "--chdir",
        "/workspace",
        "--setenv",
        "EDITOR",
        "vi",
        "--ro-bind",
        "/nix/store/x",
        "/nix/store/x",
        "--ro-bind",
        "/nix/store/conf",
        "/etc/conf",
        "--remount-ro",
        "/",
        "--seccomp",
        "5",
        "--",
        "/nix/store/fish/bin/fish",
        "-l",
    ];
    assert_eq!(args, strings(&expected));
    let piped = session.arguments(&d, false);
    assert!(piped.contains(&s("--new-session")) && !args.contains(&s("--new-session")));
    // What an engine sees of it holds nothing that is the session's alone.
    let seen = engine_view(&session.docker_filesystem).unwrap();
    for place in ["/run/goblins/request.sock", "/run/goblins/packages", "/run/goblins/bin"] {
        assert!(session.docker_filesystem.contains(&s(place)) && !seen.contains(&s(place)));
    }
    assert_eq!(engine_view(&seen).unwrap(), seen);
    assert!(engine_view(&strings(&["--ro-bind", "a"])).is_err());
}

#[test]
fn a_network_is_shared_where_there_is_one() {
    let mut session =
        Session::new_in(launch(Some(docker(false)), Some("/nix/store/pasta/bin/pasta")), false, None, s("/d"));
    assert!(session.needs_network());
    assert!(session.start(&plan(), Vec::new(), &Vec::new(), 9).is_ok());
    let d = Descriptors {
        input: 3,
        output: 4,
        filter: 5,
        sources: vec![8, 9],
        namespaces: Some((6, 7)),
    };
    let args = session.arguments(&d, true);
    assert_eq!(args[..3], strings(&["--network-namespaces", "6", "7"])[..]);
    assert_eq!(args[6], "8,9");
    assert!(args.contains(&s("--share-net")));
    assert!(args.contains(&s("/etc/resolv.conf")));
    assert!(args.contains(&s("unix:///run/goblins/docker-socket/docker.sock")));
    assert_eq!(
        session.kept_roots().unwrap(),
        strings(&["/nix/store/helper", "/nix/store/d", "/nix/store/client", "/nix/store/pasta"])
    );
    assert!(search_path(&session.launch).is_ok());
}

#[test]
fn a_helper_says_what_it_made() {
    let i = ready("READY2 7 1 2 3 4").ok().unwrap();
    assert_eq!((i.pid, i.helper_userns, i.mountns), (7, 1, 4));
    assert_eq!(ready("READY 7 1 2 3").err().unwrap(), "invalid helper startup reply: READY 7 1 2 3");
    assert_eq!(ready("READY2 x 1 2 3 4").err().unwrap(), "invalid digit found in string");
    assert_eq!(
        ready("READY2 4294967296 1 2 3 4").err().unwrap(),
        "number too large to fit in target type"
    );
    let mut session = Session::new_in(launch(None, None), false, None, s("/d"));
    assert!(session.started("READY2 7 1 2 3 4").is_ok());
    assert_eq!(session.identity.as_ref().unwrap().pid, 7);
    assert_eq!(parse_up_to("+12", 100), Ok(12));
    assert_eq!(parse_up_to("", 100).err().unwrap(), "cannot parse integer from empty string");
    assert_eq!(parse_signed("-5"), Ok(-5));
    assert_eq!(parse_signed("-2147483648"), Ok(i32::MIN));
    assert_eq!(
        parse_signed("-2147483649").err().unwrap(),
        "number too small to fit in target type"
    );
    for t in ["", "+", "-", "12", "+12", "-12", "0x1", "99999999999", "9999999999x"] {
        match (t.parse::<i32>(), parse_signed(t)) {
            (Ok(a), Ok(b)) => assert_eq!(a, b),
            (Err(a), Err(b)) => assert_eq!(a.to_string(), b),
            _ => panic!("{t}"),
        }
        match (t.parse::<u64>(), parse_up_to(t, u64::MAX)) {
            (Ok(a), Ok(b)) => assert_eq!(a, b),
            (Err(a), Err(b)) => assert_eq!(a.to_string(), b),
            _ => panic!("{t}"),
        }
    }
}

#[test]
fn packages_are_granted_once() {
    let mut session = Session::new_in(launch(None, None), false, None, s("/d"));
    assert_eq!(session.check_grant("../x").err().unwrap(), "invalid package attribute");
    assert_eq!(session.check_grant("jq"), Ok(true));
    assert_eq!(session.generation(), "generation-1");
    let a = format!("/nix/store/{HASH}-a");
    let b = format!("/nix/store/{HASH}-b");
    let listed = closure(&format!("{b}\n{a}\n{b}\n")).unwrap();
    assert_eq!(listed, vec![a.clone(), b.clone()]);
    assert_eq!(closure("/etc/passwd\n").err().unwrap(), "not a canonical store output");
    assert_eq!(session.missing(&listed), listed);
    assert!(session.acknowledged(&a, "OK").is_ok());
    assert_eq!(session.acknowledged(&b, "no").err().unwrap(), "mount not acknowledged");
    assert_eq!(session.missing(&listed), vec![b.clone()]);
    session.granted("jq", &a);
    assert_eq!(session.check_grant("jq"), Ok(false));
    assert_eq!(session.generation(), "generation-2");
    let (link, args) = session.root(&a).unwrap();
    assert_eq!(link, format!("/d/roots/{HASH}-a"));
    assert_eq!(args, vec![s("--realise"), a.clone(), s("--add-root"), link, s("--indirect")]);
    assert!(session.root("/etc").is_err());
    assert_eq!(closure_args(&vec![a.clone()]), vec![s("--query"), s("--requisites"), a.clone()]);
    assert_eq!(
        build_args("f", "jq", "bin", "/d"),
        strings(&[
            "build",
            "--no-write-lock-file",
            "--out-link",
            "/d/roots/catalog-jq",
            "--print-out-paths",
            "f#legacyPackages.x86_64-linux.jq^bin",
        ])
    );
    assert_eq!(built(&format!("{a}\n")).unwrap(), a);
    assert_eq!(
        built(&format!("{a}\n{b}\n")).err().unwrap(),
        "catalog must resolve to exactly one output"
    );
    let mut programs = Vec::new();
    assert!(collect(&mut programs, "jq", "/a/bin/jq").is_ok());
    assert!(collect(&mut programs, "jq", "/a/bin/jq").is_ok());
    assert_eq!(
        collect(&mut programs, "jq", "/b/bin/jq").err().unwrap(),
        "package executable collision: jq"
    );
    assert!(check_workspace("/work", "/storage").is_ok());
    assert_eq!(
        check_workspace("/storage/x", "/storage").err().unwrap(),
        "workspace snapshot overlaps protected Docker storage"
    );
}

#[test]
fn engines_are_chosen_by_scope() {
    let mut session = Session::new_in(launch(Some(docker(false)), None), false, None, s("/d"));
    assert_eq!(session.docker_scope(), Some(s("team")));
    assert_eq!(
        session.enable_docker(&Some(s("foreign")), false).err().unwrap(),
        "Docker scope is not allowed by this configuration"
    );
    assert!(session
        .enable_docker(&None, false)
        .err()
        .unwrap()
        .starts_with("Docker unavailable in this session: configuration lacks"));
    assert_eq!(session.prepared(Err(s("no range"))), Ok(Prepared::Alone));
    assert!(session.enable_docker(&None, false).err().unwrap().contains("no range"));
    assert_eq!(session.prepared(Ok(())), Ok(Prepared::Joined));
    assert!(matches!(
        session.enable_docker(&None, false),
        Ok(Engine::Of(Some(name))) if name == "team"
    ));
    assert!(matches!(
        session.enable_docker(&Some(s("other")), false),
        Ok(Engine::Of(Some(name))) if name == "other"
    ));
    assert!(matches!(session.enable_docker(&None, true), Ok(Engine::Of(None))));
    session.engine_selected(Some(s("team")));
    assert!(session.docker_enabled());
    assert!(matches!(session.enable_docker(&Some(s("team")), false), Ok(Engine::Same)));
    // One of its own is never the one in use.
    assert!(matches!(session.enable_docker(&None, true), Ok(Engine::Of(None))));
    assert_eq!(session.client_needed(), Some(s("/nix/store/client")));
    assert!(session.inheritance().docker_allowed("other"));
    assert!(!session.alive(true, false, HelperState::Running));
    assert_eq!(session.exit_code, Some(1));
    session.running = true;
    assert!(session.alive(true, true, HelperState::Running));
    session.stop(HelperState::Exited(Some(3)));
    assert_eq!(session.exit_code, Some(3));
    assert!(!session.docker_enabled() && !session.selection.enabled);
    let mut needed = Session::new_in(launch(Some(docker(true)), None), false, None, s("/d"));
    assert!(needed.eager());
    assert_eq!(needed.prepared(Err(s("no"))).err().unwrap(), "no");
    let child = Session::child(
        launch(Some(docker(false)), None),
        Selection { name: None, enabled: true },
        true,
        s("/e"),
    );
    assert!(child.eager());
    assert!(child.launch.initial_packages.contains(&s("/nix/store/client")));
    let grants = child.engine_grants(&plan(), &Vec::new(), &strings(&["/nix/store/x"]));
    assert_eq!(grants, vec![(s("/workspace"), false), (s("/nix/store/x"), true)]);
    assert_eq!(child.engine_objects(&strings(&["/b", "/a"])), strings(&["/a", "/b"]));
    assert_eq!(
        child.engine_filesystem(&strings(&["/a"])),
        strings(&["--ro-bind", "/a", "/a"])
    );
}

fn grant(inode: u64, destination: &str, readonly: bool) -> Grant {
    Grant { device: 1, inode, destination: s(destination), readonly }
}

#[test]
fn members_of_a_scope_share_one_view() {
    let mut scope = Shared::new(Some(s("team")), s("/d"), true);
    assert!(scope.compatible(true).is_ok());
    assert_eq!(
        scope.compatible(false).err().unwrap(),
        "Docker scope has a different network policy (online/offline)"
    );
    assert!(scope.check(true, &vec![grant(1, "/a", false)]).is_ok());
    scope.acquire(vec![grant(1, "/a", false), grant(2, "/b", true)], s("/store"));
    assert!(scope.engine && scope.users == 1);
    assert_eq!(scope.store, Some(s("/store")));
    assert!(scope.check(true, &vec![grant(1, "/a/", false)]).is_ok());
    assert!(scope
        .check(true, &vec![grant(1, "/a", true)])
        .err()
        .unwrap()
        .starts_with("Docker scope mount conflict at /a:"));
    assert_eq!(
        scope.check(true, &vec![grant(3, "/a/x", false)]).err().unwrap(),
        "Docker scope has overlapping grants at /a/x and /a"
    );
    assert!(scope.adds(&grant(4, "/c", false)) && !scope.adds(&grant(1, "/a", false)));
    scope.added(grant(4, "/c", false));
    scope.acquire(vec![grant(1, "/a", false)], s("/other"));
    assert_eq!(scope.grants.len(), 3);
    assert_eq!(scope.store, Some(s("/store")));
    assert!(scope.alive(true, true) && !scope.alive(true, false));
    assert!(!scope.release());
    assert!(scope.release());
    assert!(!scope.engine && scope.grants.is_empty() && scope.store.is_none());
    assert!(scope.alive(true, false));
    assert_eq!(scope.socket(), "/d/docker-socket/docker.sock");
    assert_eq!(realm(&strings(&["/a", "/b"]), "/d"), "/b");
    assert_eq!(realm(&Vec::new(), "/d"), "/d");
    assert_eq!(store_target("/s", "/nix/store/x"), Some(Ok(s("/s/x"))));
    assert_eq!(store_target("/s", "/etc"), None);
}

#[test]
fn engines_keep_their_data_on_disks() {
    assert_eq!(
        storage_root(&Some(s("/cache")), &None).unwrap(),
        "/cache/goblins/docker"
    );
    assert_eq!(
        storage_root(&Some(s("relative")), &Some(s("/home/x"))).unwrap(),
        "/home/x/.cache/goblins/docker"
    );
    assert!(storage_root(&None, &None).is_err());
    assert_eq!(
        storage_root(&None, &Some(s("x"))).err().unwrap(),
        "Docker cache directory must be absolute"
    );
    assert_eq!(climb("/a/b").unwrap(), (s("b"), s("/a")));
    assert_eq!(climb("/").err().unwrap(), "invalid Docker cache path");
    assert_eq!(descend("/r", &strings(&["c", "b"])), "/r/b/c");
    assert!(check_filesystem(TMPFS).is_err() && check_filesystem(0xEF53).is_ok());
    assert_eq!(
        scope_paths("/r", "team").unwrap(),
        (s("/r/locks/team"), s("/r/scope-team"))
    );
    assert_eq!(scope_paths("/r", "../x").err().unwrap(), "invalid scope name");
    assert_eq!(
        check_lock("team", false).err().unwrap(),
        "Docker scope 'team' is in use by another controller"
    );
    assert!(check_data(true, 1, 1).is_ok() && check_data(true, 1, 2).is_err());
}

#[test]
fn engines_have_users_of_their_own() {
    let table = "other:100000:65536\nme:100000:65535\n1000:200000:65536\n";
    assert_eq!(subordinate(table, "uid", "me", 1000, 1000), Ok(200000));
    assert_eq!(
        subordinate(table, "gid", "you", 7, 7).err().unwrap(),
        "docker.enable requires at least 65536 subordinate gids for you"
    );
    // A range that holds the user's own number is passed over.
    assert!(subordinate("me:1000:65536\n", "uid", "me", 1, 1000).is_err());
    assert_eq!(
        subordinate("me:x:65536\n", "uid", "me", 1, 1).err().unwrap(),
        "invalid digit found in string"
    );
    assert_eq!(map_args(7, 1000, 200000), strings(&["7", "0", "1000", "1", "1", "200000", "65536"]));
    assert_eq!(map_programs("uid"), (s("/run/wrappers/bin/newuidmap"), s("/usr/bin/newuidmap")));
    assert!(check_user(0).is_err() && check_user(1).is_ok());
}

#[test]
fn engines_are_started_and_awaited() {
    let d = EngineDescriptors {
        outer: 3,
        net: 4,
        info: 5,
        data: 6,
        data_parent: 7,
        filter: 8,
        lock: None,
        ready: 9,
    };
    let l = launch(Some(docker(true)), None);
    let args = engine_args(&l, &strings(&["--proc", "/proc"]), &d, "/d", "session-abcdef", false)
        .unwrap();
    assert_eq!(args[..3], strings(&["--docker-enter", "3", "4"])[..]);
    assert!(args.contains(&s("delete")) && args.contains(&s("-1")));
    assert_eq!(args.last().unwrap(), "--default-cgroupns-mode=host");
    let named = EngineDescriptors { lock: Some(10), ..d };
    let args = engine_args(&l, &Vec::new(), &named, "/d", "scope-team", true).unwrap();
    assert!(args.contains(&s("keep")) && args.contains(&s("10")));
    assert_eq!(
        engine_args(&launch(None, None), &Vec::new(), &named, "/d", "x", true).err().unwrap(),
        "Docker not enabled"
    );
    assert!(answers("HTTP/1.1 200 OK\r\n") && !answers("HTTP/1.1 500 no"));
    let mut info = String::new();
    assert!(!info_line(&mut info, "{\"child-pid\": 7"));
    assert!(info_line(&mut info, " } "));
    assert_eq!(child_pid(&object(vec![("child-pid", Json::Unsigned(7))]), "engine"), Ok(7));
    assert_eq!(child_pid(&Json::Null, "scope").err().unwrap(), "missing scope PID");
    assert_eq!(starting(false, true, true), Ok(Wait::Ready));
    assert_eq!(starting(false, false, false), Ok(Wait::Again));
    assert!(starting(true, true, false).is_err());
    let log = "x".repeat(400);
    assert_eq!(told_with("e", &log), format!("e: {}", "x".repeat(380)));
    assert_eq!(told_with("e", "short"), "e: short");
    assert_eq!(scope_args(&l, 5, 6, "/state")[12], "5");
    assert_eq!(goblins::docker_scope::starting(true, true, true), Ok(Wait::Ready));
    assert!(goblins::docker_scope::starting(false, true, false).is_err());
    assert_eq!(process_number(7), Ok(7));
    assert!(process_number(1 << 32).is_err());
    assert_eq!(written_number(" 12\n"), Ok(12));
    assert!(matches!(search(0, true, ""), Ok(Search::Found)));
    assert!(matches!(search(1, false, "12 \n"), Ok(Search::Next(12))));
    assert!(search(1, false, "1 2").is_err());
    assert_eq!(search(4, true, "").err().unwrap(), "scope keeper identity mismatch");
}

#[test]
fn networks_are_private() {
    let args = start_args("/bin/sh");
    assert_eq!(args[21..24], strings(&["--", "/bin/sh", "-c"])[..]);
    let args = attach_args(7, 5, "/proc/9/ns/net", "/d");
    assert_eq!(
        args[21..],
        strings(&["--userns", "/proc/7/fd/5", "--netns", "/proc/9/ns/net", "--pid", "/d/network.pid"])[..]
    );
    assert_eq!(attached(false, false, true), Wait::Ready);
    assert_eq!(attached(true, false, true), Wait::Failed);
    assert_eq!(attached(false, false, false), Wait::Again);
    assert_eq!(keeper("READY", "12 ", false), Ok(12));
    assert_eq!(keeper("NO", "12", false).err().unwrap(), "invalid pasta namespace readiness");
    assert_eq!(keeper("READY", "12", true).err().unwrap(), "pasta namespace keeper exited");
}

fn port(kind: &str, public: u64, ip: Option<&str>) -> Json {
    let mut fields = vec![("Type", text(kind)), ("PublicPort", Json::Unsigned(public))];
    if let Some(ip) = ip {
        fields.push(("IP", text(ip)));
    }
    object(fields)
}

#[test]
fn published_ports_are_passed_on() {
    let containers = Json::Array(vec![
        object(vec![(
            "Ports",
            Json::Array(vec![
                port("tcp", 8080, Some("0.0.0.0")),
                port("tcp", 8080, Some("10.0.0.1")),
                port("udp", 53, None),
                port("tcp", 80, None),
                port("tcp", 70000, None),
                port("tcp", 81, Some("::")),
                port("tcp", 82, Some("10.0.0.7")),
            ]),
        )]),
        object(vec![]),
    ]);
    let table = ports(&containers).unwrap();
    assert_eq!(
        table,
        vec![(80, s("127.0.0.1")), (82, s("10.0.0.7")), (8080, s("127.0.0.1"))]
    );
    assert_eq!(ports(&Json::Null).err().unwrap(), "invalid container list");
    let many = Json::Array(vec![object(vec![(
        "Ports",
        Json::Array((1..=200).map(|p| port("tcp", p, None)).collect()),
    )])]);
    assert_eq!(ports(&many).unwrap().len(), 128);
    for t in ["1.2.3.4", "0.0.0.0", "255.255.255.255"] {
        assert!(address(t), "{t}");
    }
    for t in ["256.1.1.1", "1.2.3", "1.2.3.4.5", "01.2.3.4", "1.2.3.4 ", "1..2.3", ""] {
        assert!(!address(t), "{t}");
    }
    let f = |port: u16, address: &str, running: bool| Forwarder { port, address: s(address), running };
    let (keep, fresh) = settle(
        &vec![f(80, "127.0.0.1", true), f(82, "10.0.0.8", true), f(8080, "127.0.0.1", false)],
        &table,
    );
    assert_eq!(keep, vec![true, false, false]);
    assert_eq!(fresh, vec![false, true, true]);
    assert_eq!(body(&b"HTTP/1.0 200 OK\r\n\r\n[]".to_vec()).unwrap(), "[]");
    assert_eq!(body(&b"nothing".to_vec()).err().unwrap(), "invalid Docker response");
    assert!(body(&vec![0xff]).is_err());
    let mut response = Vec::new();
    assert!(receive(&mut response, b"abc").is_ok());
    assert!(receive(&mut response, &vec![0; ANSWER]).is_err());
    assert_eq!(response, b"abc".to_vec());
}

#[test]
fn the_helper_is_told_in_few_words() {
    let bind = |fd: &str, to: &str, mode: &str| {
        parse_bind(&strings(&["helper", "--docker-bind", "3", "4", "5", fd, to, mode]))
    };
    let b = bind("6", "/a/b", "ro").ok().unwrap();
    assert_eq!(b.descriptors, vec![3, 4, 5, 6]);
    assert_eq!(b.steps, strings(&["a", "b"]));
    assert!(b.readonly);
    assert_eq!(bind("5", "/a", "rw").err().unwrap(), "invalid bind descriptor");
    assert_eq!(bind("2", "/a", "rw").err().unwrap(), "invalid bind descriptor");
    assert_eq!(bind("x", "/a", "rw").err().unwrap(), "invalid digit found in string");
    assert_eq!(bind("6", "a", "rw").err().unwrap(), "absolute destination required");
    for to in ["/", "/a//b", "/a/../b", "/./a", "/a\0"] {
        assert_eq!(bind("6", to, "rw").err().unwrap(), "invalid destination");
    }
    assert_eq!(bind("6", "/a", "rx").err().unwrap(), "invalid mode");
    assert_eq!(parse_bind(&Vec::new()).err().unwrap(), "invalid Docker bind arguments");
    let forward = |port: &str, ip: &str| {
        parse_forward(&strings(&["helper", "--docker-forward", "3", "4", "5", "6", port, ip]))
    };
    assert_eq!(forward("80", "127.0.0.1").ok().unwrap().port, 80);
    assert_eq!(forward("0", "127.0.0.1").err().unwrap(), "invalid relay port");
    assert_eq!(forward("80", "host").err().unwrap(), "invalid IPv4 address syntax");
    assert!(forward("65536", "127.0.0.1").is_err());
    assert_eq!(parse_entry(&strings(&["h", "x", "3", "4", "p"])), Ok((3, 4)));
    assert_eq!(
        parse_entry(&strings(&["h", "x", "3", "3", "p"])).err().unwrap(),
        "invalid scope descriptors"
    );
    assert_eq!(parse_launch(&strings(&["h", "3", "4", "5", "b", "a"])), Ok((3, 4, 5)));
    assert!(parse_launch(&strings(&["h", "3"])).is_err());
    assert_eq!(parse_sources("7,,9,"), Ok(vec![7, 9]));
    assert_eq!(parse_sources(""), Ok(Vec::new()));
    assert_eq!(parse_sources("7,x"), Err(s("invalid digit found in string")));
    let guard = |name: &str, policy: &str, lock: &str, ready: &str| {
        parse_guard(&strings(&["h", "--docker-init", name, policy, lock, ready]))
    };
    let g = guard("scope-team", "keep", "5", "6").ok().unwrap();
    assert!(g.keep && g.lock == Some(5) && g.ready == 6);
    let g = guard("session-abcdef", "delete", "-1", "6").ok().unwrap();
    assert!(!g.keep && g.lock.is_none());
    assert_eq!(guard("session-abcdef", "keep", "5", "6").err().unwrap(), "invalid Docker storage name");
    assert_eq!(guard("../x", "drop", "5", "6").err().unwrap(), "invalid Docker storage policy");
    assert_eq!(guard("scope-team", "keep", "-1", "6").err().unwrap(), "invalid storage lock");
    assert_eq!(guard("scope-team", "keep", "5", "5").err().unwrap(), "invalid readiness descriptor");
    assert!(check_mapped(0, "0 1000 1\n1 100000 65536\n").is_ok());
    assert!(check_mapped(0, "0 1000 1\n").is_err());
    assert!(check_same(1, 1, "no").is_ok());
    assert_eq!(check_same(1, 2, "no").err().unwrap(), "no");
    assert!(check_storage(true, (1, 2), (1, 2)).is_ok());
    assert!(check_storage(true, (1, 2), (1, 3)).is_err());
    assert_eq!(exit_status(true, 3, 0), 3);
    assert_eq!(exit_status(false, 0, 9), 137);
    assert_eq!(info_pid("  \"child-pid\": 42,\n"), Some(Some(42)));
    assert_eq!(info_pid("\"child-pid\": x"), Some(None));
    assert_eq!(info_pid("{"), None);
    let name = format!("{HASH}-jq-1.8");
    assert!(matches!(command(&format!("{name}\n").into_bytes()), Ok(Command::Show(n)) if n == name));
    assert!(matches!(command(&Vec::new()), Ok(Command::Stop)));
    assert!(matches!(command(&b"STOP\n".to_vec()), Ok(Command::Stop)));
    assert_eq!(command(&b"x".to_vec()).err().unwrap(), "oversized helper command");
    assert_eq!(command(&b"../x\n".to_vec()).err().unwrap(), "invalid canonical store basename");
}

#[test]
fn workers_tell_no_more_than_the_step() {
    assert!(check_initial(128).is_ok() && check_initial(129).is_err());
    let path = format!("/nix/store/{HASH}-jq-1.8");
    assert_eq!(initial_names(&vec![path, s("/nix/store/short"), s("/")]), strings(&["jq-1.8"]));
    let told = |detail: &str| {
        answer("r1", "jq", true, &Err(s(detail))).message.unwrap()
    };
    assert_eq!(
        told("cannot resolve package 'jq': secret"),
        "cannot resolve package 'jq' from pinned nixpkgs; see tui terminal"
    );
    assert_eq!(
        told("could not build package 'jq': secret"),
        "could not build package 'jq'; see tui terminal"
    );
    assert_eq!(told("secret"), "grant failed; see tui terminal");
    assert_eq!(answer("r1", "jq", true, &Ok(())).status, "ready");
    assert_eq!(answer("r1", "jq", false, &Ok(())).status, "denied");
}

#[test]
fn final_result_after_empty_poll_is_not_discarded() {
    // Nothing that is still open is final, whatever is known of who would write to it.
    let (sender, receiver) = std::sync::mpsc::sync_channel::<u8>(16);
    let look = |r: &std::sync::mpsc::Receiver<u8>, taken: &mut Vec<u8>| match r.try_recv() {
        Ok(x) => {
            taken.push(x);
            Look::Result
        }
        Err(std::sync::mpsc::TryRecvError::Empty) => Look::Empty,
        Err(std::sync::mpsc::TryRecvError::Disconnected) => Look::Closed,
    };
    let mut taken = Vec::new();
    let seen = look(&receiver, &mut taken);
    assert_eq!(poll(taken.len(), seen), Poll::Pause);
    assert!(taken.is_empty());
    sender.try_send(7).unwrap();
    drop(sender);
    let seen = look(&receiver, &mut taken);
    assert_eq!(poll(0, seen), Poll::Take);
    let seen = look(&receiver, &mut taken);
    assert_eq!(poll(taken.len(), seen), Poll::End);
    assert_eq!(taken, vec![7]);
    assert_eq!(poll(16, Look::Result), Poll::Pause);
}

#[test]
fn a_session_learns_only_which_step_failed() {
    let done = granted("r1", "jq", Ok(Some(s("/nix/store/jq"))), None);
    assert!(done.ready);
    assert_eq!(done.status, "ready");
    assert_eq!(done.output, Some(s("/nix/store/jq")));
    assert_eq!((done.message, done.detail), (None, None));
    let failed = granted("r1", "jq", Err(s("secret place")), Some(s("team")));
    assert!(!failed.ready);
    assert_eq!(failed.status, "error");
    assert_eq!(failed.message, Some(s("grant failed; see tui terminal")));
    assert_eq!(failed.detail, Some(s("secret place")));
    assert_eq!(failed.docker_scope, Some(s("team")));
}

#[test]
fn the_next_programs_come_from_all_packages() {
    let mut session = Session::new_in(launch(None, None), false, None, s("/d"));
    session.packages = vec![(s("jq"), s("/nix/store/jq"))];
    session.launch.initial_packages = vec![s("/nix/store/git")];
    assert_eq!(
        session.profile_packages("/nix/store/new"),
        vec![s("/nix/store/git"), s("/nix/store/jq"), s("/nix/store/new")]
    );
}
