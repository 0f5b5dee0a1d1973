//! Command lines of the host and of a sandbox, and what they come to.
use goblins::cli::{completion_state, Command, ServerCommand, Shell};
use goblins::client::Command as Said;
use goblins::client::{
    check_mail, understood,
    asks_parent, check_daemon, check_support, docker_call, failed, failure_code, hook_epoch,
    integration_request, offered_configuration, offered_sessions, package_call, parse_args,
    prompts, refusal, reply_request, send_request, settle, slot, start_request, status_text,
    supports, tick_request, Failing, InboxCommand, IntegrationCommand,
};
use goblins::commands::{
    attachment, check_configuration, check_hello, check_instance, check_keys, check_log,
    event_line, hook_script, live_names, runtime_root, server_starting, server_status,
    simple_request, state_path, Follow, Start,
};
use goblins::host::{decide_request, decision, Subscription};
use goblins::json::Json;
use goblins::names::{goblin_names, random_name, valid_agent_name};
use goblins::params::Request;
use goblins::records::{PermissionRecord, PermissionState, Snapshot};
use goblins::rpc::PermissionResult;

fn s(t: &str) -> String {
    t.to_string()
}

fn strings(v: &[&str]) -> Vec<String> {
    v.iter().map(|t| t.to_string()).collect()
}

fn text(t: &str) -> Json {
    Json::Text(t.to_string())
}

fn object(fields: Vec<(&str, Json)>) -> Json {
    Json::Object(fields.into_iter().map(|(k, v)| (k.to_string(), v)).collect())
}

fn asked(r: &Request) -> (String, Vec<(String, String)>) {
    let mut v = Vec::new();
    if let Json::Object(fields) = &r.params {
        for (k, x) in fields {
            let t = match x {
                Json::Text(t) => t.clone(),
                Json::Unsigned(n) => n.to_string(),
                Json::Bool(b) => b.to_string(),
                Json::Null => s("null"),
                _ => panic!("not a parameter"),
            };
            v.push((k.clone(), t));
        }
    }
    (r.method.clone(), v)
}

fn call(method: &str, params: &[(&str, &str)]) -> (String, Vec<(String, String)>) {
    (s(method), params.iter().map(|(a, b)| (s(a), s(b))).collect())
}

#[test]
fn request_options_can_precede_or_follow_the_package() {
    for args in [
        ["request-package", "hello", "--reason", "test"],
        ["request-package", "--reason", "test", "hello"],
    ] {
        assert_eq!(parse_args(false, &strings(&args)).unwrap(), (s("hello"), s("test")));
    }
    assert!(parse_args(false, &strings(&["tui"])).is_err());
    assert!(parse_args(true, &strings(&["package", "hello"])).is_ok());
}

#[test]
fn a_package_request_says_what_is_wrong() {
    let error = |a: &[&str]| parse_args(false, &strings(a)).err().unwrap();
    assert_eq!(error(&[]), "usage: goblins request-package PACKAGE [--reason TEXT]");
    assert_eq!(error(&["request-package"]), "missing package attribute");
    assert_eq!(error(&["request-package", "--reason"]), "--reason requires text");
    assert_eq!(error(&["request-package", "-x"]), "unknown option: -x");
    assert_eq!(error(&["request-package", "a", "b"]), "expected exactly one package attribute");
    assert_eq!(
        parse_args(false, &strings(&["request-package", "--", "-x"])).unwrap(),
        (s("-x"), s("Requested from the sandbox shell"))
    );
}

#[test]
fn completion_uses_cli_argument_positions_and_state_directory() {
    let default = "/tmp/default";
    for words in [
        vec!["goblins", "attach"],
        vec!["goblins", "detatch"],
        vec!["goblins", "detach"],
        vec!["goblins", "kill"],
    ] {
        assert_eq!(completion_state(default, &strings(&words)), Some(s(default)));
    }
    for words in [
        vec!["goblins", "--state-dir", "/tmp/custom state", "attach"],
        vec!["goblins", "detach", "--state-dir=/tmp/custom state"],
        vec!["goblins", "--state-dir", "=", "/tmp/custom state", "detatch"],
    ] {
        assert_eq!(completion_state(default, &strings(&words)), Some(s("/tmp/custom state")));
    }
    for words in [
        vec!["goblins"],
        vec!["goblins", "run"],
        vec!["goblins", "help", "attach"],
        vec!["goblins", "attach", "snikk"],
        vec!["goblins", "attach", "--state-dir"],
        vec!["goblins", "attach", "--runtime"],
        vec!["goblins", "attach", "--instance"],
        vec!["goblins", "attach", "--instance", "exact-daemon"],
    ] {
        assert_eq!(completion_state(default, &strings(&words)), None);
    }
}

fn host(args: &[&str]) -> Option<goblins::cli::Cli> {
    goblins::cli::parse(&strings(args))
}

fn sandbox(args: &[&str]) -> Option<goblins::client::Command> {
    goblins::client::parse(&strings(args))
}

#[test]
fn terminal_lifecycle_host_commands() {
    assert!(matches!(host(&["goblins", "attach", "snikk"]).unwrap().command,
        Some(Command::Attach { session, instance: None }) if session == "snikk"));
    assert!(matches!(host(&["goblins", "kill", "snikk"]).unwrap().command,
        Some(Command::Kill { id_or_name, .. }) if id_or_name == "snikk"));
    for command in ["detatch", "detach"] {
        assert!(matches!(host(&["goblins", command, "snikk"]).unwrap().command,
            Some(Command::Detatch { id_or_name }) if id_or_name == "snikk"));
    }
    for args in [
        vec!["goblins", "attach"],
        vec!["goblins", "kill"],
        vec!["goblins", "detatch"],
        vec!["goblins", "detach"],
    ] {
        assert!(host(&args).is_none());
    }
}

#[test]
fn command_tree_rejects_removed_aliases_and_misplaced_options() {
    for args in [
        vec!["goblins", "shell"],
        vec!["goblins", "daemon"],
        vec!["goblins", "serve"],
        vec!["goblins", "list", "--name", "snikk"],
        vec!["goblins", "server", "status", "--workspace", "/tmp"],
        vec!["goblins", "run", "shell", "--name", "a", "--name", "b"],
    ] {
        assert!(host(&args).is_none());
    }
    let cli =
        host(&["goblins", "run", "shell", "--name", "snikk", "--state-dir", "/tmp/test"]).unwrap();
    assert_eq!(cli.state_dir, Some(s("/tmp/test")));
    assert!(matches!(cli.command, Some(Command::Run { config, name: Some(name), .. })
        if config == "shell" && name == "snikk"));
}

#[test]
fn the_host_can_say_everything_it_does() {
    assert!(host(&["goblins"]).unwrap().command.is_none());
    assert!(matches!(
        host(&["goblins", "server", "start", "--workspace", "/w", "--foreground"])
            .unwrap()
            .command,
        Some(Command::Server {
            command: ServerCommand::Start { workspace: Some(w), foreground: true }
        }) if w == "/w"
    ));
    assert!(host(&["goblins", "server", "start", "--workspace", ""]).is_none());
    assert!(host(&["goblins", "server"]).is_none());
    assert!(matches!(
        host(&["goblins", "server", "--state-dir", "/s", "logs"]).unwrap().command,
        Some(Command::Server { command: ServerCommand::Logs })
    ));
    assert!(matches!(
        host(&["goblins", "tui", "--plain"]).unwrap().command,
        Some(Command::Tui { plain: true })
    ));
    assert!(matches!(
        host(&["goblins", "completions", "zsh"]).unwrap().command,
        Some(Command::Completions { shell: Shell::Zsh })
    ));
    assert!(host(&["goblins", "completions", "ksh"]).is_none());
    assert!(matches!(
        host(&["goblins", "rpc", "sessions.list", "{}"]).unwrap().command,
        Some(Command::Rpc { .. })
    ));
    assert!(matches!(
        host(&["goblins", "__complete-names", "--", "goblins", "--x"]).unwrap().command,
        Some(Command::CompleteNames { words }) if words.len() == 2
    ));
    assert!(host(&["goblins", "send", "scout"]).is_none());
    assert!(host(&["goblins", "send", "scout", "--message", "a", "--file", "b"]).is_none());
    assert!(matches!(
        host(&["goblins", "send", "scout", "--file", "/tmp/t", "--key", "setup-1"])
            .unwrap()
            .command,
        Some(Command::Send { recipient, key: Some(k), .. }) if recipient == "scout" && k == "setup-1"
    ));
    let simple = |a: &[&str]| asked(&simple_request(&host(a).unwrap().command.unwrap()).unwrap());
    assert_eq!(simple(&["goblins", "list"]), call("sessions.list", &[]));
    assert_eq!(
        simple(&["goblins", "stop", "a", "--kill-children"]),
        call("sessions.stop", &[("session", "a"), ("kill_children", "true")])
    );
    assert_eq!(
        simple(&["goblins", "detach", "a"]),
        call("sessions.detach", &[("session", "a")])
    );
    assert_eq!(
        simple(&["goblins", "integration", "pause", "a"]),
        call("integration.pause", &[("session", "a")])
    );
    assert!(simple_request(&host(&["goblins", "tui"]).unwrap().command.unwrap()).is_none());
}

#[test]
fn restricted_commands_and_completion_positions() {
    for args in [
        vec!["goblins", "rpc", "server.stop", "{}"],
        vec!["goblins", "run", "shell", "--runtime", "/tmp/manifest"],
    ] {
        assert!(sandbox(&args).is_none());
    }
    assert_eq!(slot(&strings(&["goblins", "run"])), Some(false));
    assert_eq!(slot(&strings(&["goblins", "run", "shell", "--parent"])), Some(true));
    assert_eq!(slot(&strings(&["goblins", "run", "shell", "--name"])), None);
    assert!(sandbox(&["goblins", "run", "shell", "--detatched"]).is_some());
    assert!(sandbox(&["goblins", "attach", "child"]).is_some());
    assert!(sandbox(&["goblins", "status"]).is_some());
    assert!(sandbox(&["goblins", "detach"]).is_some());
    assert!(sandbox(&["goblins", "detatch"]).is_none());
    assert_eq!(slot(&strings(&["goblins", "attach"])), Some(true));
    assert_eq!(slot(&strings(&["goblins", "run", "shell", "--parent="])), Some(true));
    assert!(asks_parent(&strings(&["goblins", "run", "shell", "--parent", "="])));
    assert!(!asks_parent(&strings(&["--parent", "a", "b"])));
}

#[test]
fn a_sandbox_asks_by_name_alone() {
    assert!(matches!(
        sandbox(&["goblins", "enable-docker", "--scope", "team"]).unwrap(),
        Said::EnableDocker { reason: None, scope: Some(t), anonymous: false } if t == "team"
    ));
    assert!(matches!(
        sandbox(&["goblins", "reply", "m1", "--claim-generation", "3", "--message", "x"]).unwrap(),
        Said::Reply { claim_generation: 3, .. }
    ));
    assert!(sandbox(&["goblins", "reply", "m1", "--message", "x"]).is_none());
    assert!(matches!(
        sandbox(&["goblins", "integration", "watch", "--epoch", "7"]).unwrap(),
        Said::Integration { command: IntegrationCommand::Watch { epoch: 7, delivery } }
            if delivery == "terminal"
    ));
    assert!(sandbox(&["goblins", "integration", "watch", "--epoch", "7", "--delivery", "x"])
        .is_none());
    assert_eq!(
        asked(&start_request("k", "shell", &None, &Some(s(".")), true)),
        call(
            "sessions.start",
            &[
                ("key", "k"),
                ("name", "shell"),
                ("agent_name", "null"),
                ("parent", "."),
                ("detached", "true"),
            ]
        )
    );
    let kill = sandbox(&["goblins", "kill", "a"]).unwrap();
    assert_eq!(
        asked(&goblins::client::simple_request(&kill).unwrap()),
        call("sessions.stop", &[("session", "a"), ("kill_children", "false")])
    );
}

#[test]
fn messages_become_calls() {
    let random = [0x0f; 16];
    let key = "0f".repeat(16);
    assert_eq!(
        asked(&send_request("k", "scout", "hi")),
        call("messages.send", &[("key", "k"), ("to", "scout"), ("body", "hi")])
    );
    assert_eq!(
        asked(&reply_request("k", "m1", 2, "hi")),
        call(
            "messages.reply",
            &[("key", "k"), ("message", "m1"), ("claim_generation", "2"), ("body", "hi")]
        )
    );
    assert_eq!(
        asked(&InboxCommand::Status.request(&random).ok().unwrap()),
        call("inbox.status", &[])
    );
    assert_eq!(
        asked(&InboxCommand::Next { key: None }.request(&random).ok().unwrap()),
        call("inbox.next", &[("key", &key)])
    );
    assert_eq!(
        InboxCommand::Next { key: Some(s("a b")) }.request(&random).err().unwrap(),
        "invalid operation key"
    );
    let requeue = InboxCommand::Requeue {
        message: s("m1"),
        claim_generation: 2,
        reason: s("later"),
        key: Some(s("k")),
    };
    assert_eq!(
        asked(&requeue.request(&random).ok().unwrap()),
        call(
            "inbox.requeue",
            &[("message", "m1"), ("claim_generation", "2"), ("key", "k"), ("reason", "later")]
        )
    );
}

#[test]
fn permissions_are_asked_for_and_settled() {
    assert_eq!(
        asked(&package_call("jq", "to read")),
        call(
            "permissions.request",
            &[("kind", "package"), ("package", "jq"), ("reason", "to read")]
        )
    );
    assert_eq!(
        asked(&docker_call(&None, &Some(s("team")), true)),
        call(
            "permissions.request",
            &[
                ("kind", "docker"),
                ("reason", "Enable Docker in this sandbox"),
                ("scope", "team"),
                ("anonymous", "true"),
            ]
        )
    );
    let init = object(vec![
        ("api", Json::Unsigned(1)),
        ("role", text("sandbox")),
        ("features", Json::Array(vec![text("docker-enable")])),
        ("configuration", text("shell")),
    ]);
    assert!(check_daemon(&init, "sandbox").is_ok());
    assert_eq!(check_daemon(&init, "host").err().unwrap(), "incompatible daemon");
    assert!(supports(&init, "docker-enable") && !supports(&init, "docker-scopes"));
    assert!(check_support(&init, true, false).is_ok());
    assert!(check_support(&init, true, true).err().unwrap().contains("Docker scopes"));
    assert!(check_support(&Json::Null, true, true).err().unwrap().contains("on-demand Docker"));
    assert_eq!(offered_configuration(&init), Some(s("shell")));
    let done = |status: &str, request: &str| {
        settle(&PermissionResult { request: s(request), status: s(status), message: None })
    };
    assert_eq!(done("ready", "r1"), Ok(0));
    assert_eq!(done("denied", "r1"), Ok(1));
    assert_eq!(done("error", "r1"), Ok(1));
    assert_eq!(done("maybe", "r1").err().unwrap(), "invalid terminal result");
    assert!(done("ready", "r 1").is_err());
    assert_eq!(refusal(text("x")).get("status").unwrap().as_str(), Some("error"));
    let record = object(vec![("agent_name", text("snikk")), ("docker_enabled", Json::Bool(true))]);
    assert_eq!(
        status_text(&record),
        "Sandbox: snikk\nConfiguration: unknown\nDescription: unknown\nState: unknown\nDocker: enabled\nDocker scope: anonymous\nID: unknown"
    );
    assert_eq!(failure_code(&strings(&["goblins", "inbox"])), 1);
    assert_eq!(failure_code(&strings(&["goblins", "run"])), 2);
}

#[test]
fn a_notifier_gives_up_after_failing_often() {
    let mut failures = 0;
    assert_eq!(failed(&mut failures), Failing::Warn);
    for _ in 0..18 {
        assert_eq!(failed(&mut failures), Failing::Retry);
    }
    assert_eq!(failed(&mut failures), Failing::Stop);
    assert_eq!(
        asked(&tick_request(4, "terminal")),
        call("integration.tick", &[("epoch", "4"), ("delivery", "terminal")])
    );
    assert!(prompts(&object(vec![
        ("notify", Json::Bool(true)),
        ("delivery", text("notification"))
    ])));
    assert!(!prompts(&object(vec![("notify", Json::Bool(true))])));
    assert_eq!(hook_epoch(&None).err().unwrap(), "missing integration epoch");
    assert_eq!(hook_epoch(&Some(s("x"))).err().unwrap(), "invalid integration epoch");
    assert_eq!(hook_epoch(&Some(s("12"))), Ok(12));
    let hook = IntegrationCommand::Hook { event: s("Stop"), active: true };
    assert_eq!(
        asked(&integration_request(&hook, "k", 3).unwrap()),
        call(
            "integration.check",
            &[("epoch", "3"), ("event", "Stop"), ("active", "true"), ("key", "k")]
        )
    );
}

#[test]
fn live_sessions_are_offered() {
    let record = |state: &str, name: &str, path: &str| {
        object(vec![
            ("state", text(state)),
            ("agent_name", text(name)),
            ("path", text(path)),
        ])
    };
    let records = Json::Array(vec![
        record("running", "snikk", "snikk"),
        record("starting", "grib", "snikk/grib"),
        record("stopped", "old", "old"),
        record("running", "Bad Name", "bad name"),
    ]);
    assert_eq!(live_names(&records), strings(&["snikk", "grib"]));
    assert_eq!(offered_sessions(&records, false), strings(&["snikk", "snikk/grib"]));
    assert_eq!(offered_sessions(&records, true), strings(&[".", "snikk"]));
    assert!(live_names(&Json::Null).is_empty());
}

#[test]
fn host_state_is_found() {
    assert_eq!(runtime_root(&None, 1000), "/run/user/1000");
    assert_eq!(runtime_root(&Some(s("/x")), 1000), "/x");
    assert_eq!(state_path(&None, "/x", true, 1000), "/x/goblins");
    assert_eq!(state_path(&None, "/x", false, 1000), "/tmp/goblins-control-1000");
    assert_eq!(state_path(&Some(s("/y")), "/x", true, 1000), "/y");
    assert!(check_configuration(&strings(&["a"]), "a").is_ok());
    assert_eq!(
        check_configuration(&strings(&["a", "b"]), "c").err().unwrap(),
        "unknown configuration 'c'; available: a, b"
    );
    assert_eq!(
        server_status(&Some((Some(s("running")), s("i1"), s("3"))), false),
        (s("Server running (i1) \u{b7} 3 live agents"), 0)
    );
    assert_eq!(server_status(&None, false), (s("Server stopped"), 1));
    assert_eq!(server_status(&None, true).1, 1);
    assert_eq!(server_starting(false, true, true, ""), Ok(true));
    assert_eq!(server_starting(false, false, false, ""), Ok(false));
    assert!(server_starting(true, true, false, "exit status: 1").err().unwrap().contains("exit status: 1"));
    assert!(server_starting(false, false, true, "").is_err());
    assert!(check_log(true, 1, 1, 0o600).is_ok());
    assert!(check_log(true, 1, 1, 0o640).is_err());
    assert!(check_log(true, 1, 2, 0o600).is_err());
}

#[test]
fn sessions_are_started_and_attached_to_from_the_host() {
    let start = Start {
        key: s("k"),
        configuration: s("/m"),
        name: s("shell"),
        agent_name: None,
        parent: None,
        detached: false,
        cwd: s("/work"),
        rows: 0,
        cols: 80,
    };
    let (method, params) = asked(&goblins::commands::start_request(&start));
    assert_eq!(method, "sessions.start");
    assert_eq!(params[1], (s("configuration"), s("/m")));
    assert_eq!(params[7], (s("rows"), s("1")));
    assert_eq!(params[8], (s("cols"), s("80")));
    assert!(check_instance(&None, "a").is_ok());
    assert!(check_instance(&Some(s("b")), "a").is_err());
    let record = object(vec![("id", text("s1")), ("terminal", text("/t"))]);
    assert_eq!(attachment(true, "s1", &record).unwrap(), (s("s1"), s("/t")));
    assert_eq!(attachment(true, "snikk", &record).err().unwrap(), "session identity mismatch");
    assert_eq!(attachment(false, "snikk", &record).unwrap(), (s("s1"), s("/t")));
    assert_eq!(attachment(false, "x", &Json::Null).err().unwrap(), "missing session ID");
    let hello = object(vec![("result", object(vec![("attached", Json::Bool(true))]))]);
    assert!(check_hello(&hello).is_ok());
    let no = object(vec![("error", object(vec![("message", text("busy"))]))]);
    assert_eq!(check_hello(&no).err().unwrap(), "busy");
    assert_eq!(check_hello(&Json::Null).err().unwrap(), "invalid terminal handshake");
}

#[test]
fn the_log_of_messages_is_followed() {
    let mut f = Follow::new(None);
    assert!(f.connected("i1").is_ok());
    assert!(f.connected("i2").is_err());
    assert_eq!(asked(&f.request()), call("communications.list", &[("session", "null"), ("after", "0")]));
    let page = |cursor: u64, latest: u64| {
        object(vec![
            ("events", Json::Array(Vec::new())),
            ("cursor", Json::Unsigned(cursor)),
            ("latest", Json::Unsigned(latest)),
            ("session", text("s1")),
        ])
    };
    assert_eq!(f.advance(&page(3, 5)), Ok(false));
    assert_eq!(f.advance(&page(5, 5)), Ok(true));
    assert_eq!(
        asked(&f.request()),
        call("communications.list", &[("session", "s1"), ("after", "5")])
    );
    assert_eq!(f.advance(&Json::Null).err().unwrap(), "invalid communications page");
    assert_eq!(
        event_line("7", &None, "\"h\u{e9}\"", "{}"),
        "7 unknown \"h\\u00e9\" {}"
    );
}

#[test]
fn completion_scripts_offer_names_first() {
    assert!(check_keys(&strings(&["shell", "my_shell-2"])).is_ok());
    assert!(check_keys(&strings(&[""])).is_err());
    assert!(check_keys(&strings(&["$(id)"])).is_err());
    assert_eq!(
        hook_script("a\n_goblins() {\n b\n}\n", "HOOK").unwrap(),
        "a\n_goblins() {HOOK\n b\n}\n"
    );
    assert_eq!(
        hook_script("nothing", "HOOK").err().unwrap(),
        "unexpected shell completion function"
    );
}

fn permission(approval: &str, state: PermissionState) -> PermissionRecord {
    PermissionRecord {
        kind: s("package"),
        scope: None,
        anonymous: false,
        id: s("r1"),
        session: s("s1"),
        agent_name: s("snikk"),
        approval: s(approval),
        package: s("jq"),
        reason: s("to read"),
        state,
        approved: None,
        preview: None,
        message: None,
    }
}

#[test]
fn lines_decide_what_they_name() {
    let snapshot = Snapshot {
        instance: s("i1"),
        sessions: Vec::new(),
        permissions: vec![
            permission("a1", PermissionState::Denied),
            permission("a2", PermissionState::Pending),
        ],
    };
    assert_eq!(decision("approve a2", &snapshot), Some((1, true)));
    assert_eq!(decision("  deny  a2 \n", &snapshot), Some((1, false)));
    for line in ["approve a1", "approve", "approve a2 now", "allow a2", "approve a3", ""] {
        assert_eq!(decision(line, &snapshot), None);
    }
    assert_eq!(
        asked(&decide_request(&snapshot.permissions[1], true)),
        call(
            "permissions.decide",
            &[("session", "s1"), ("request", "r1"), ("approval", "a2"), ("approved", "true")]
        )
    );
}

#[test]
fn a_subscription_takes_no_gap() {
    let shot = |instance: &str| Snapshot {
        instance: s(instance),
        sessions: Vec::new(),
        permissions: Vec::new(),
    };
    let change = |id: &str, sequence: u64| {
        object(vec![
            ("jsonrpc", text("2.0")),
            ("method", text("state.changed")),
            (
                "params",
                object(vec![("subscription", text(id)), ("sequence", Json::Unsigned(sequence))]),
            ),
        ])
    };
    let mut sub = Subscription { id: s("sub"), sequence: 4, snapshot: shot("i1") };
    assert!(sub.check(&change("sub", 5)).is_ok());
    for value in [change("sub", 4), change("sub", 6), change("other", 5), Json::Null] {
        assert!(sub.check(&value).is_err());
    }
    assert!(sub.accept(shot("i2")).is_err());
    assert_eq!(sub.sequence, 4);
    assert!(sub.accept(shot("i1")).is_ok());
    assert_eq!(sub.sequence, 5);
}

#[test]
fn agent_name_grammar_and_pool_cover_session_limit() {
    let pool = goblin_names();
    let names: std::collections::BTreeSet<_> = pool.iter().collect();
    assert_eq!(names.len(), pool.len());
    assert!(names.len() >= goblins::controller::SESSIONS);
    assert!(names.iter().all(|n| valid_agent_name(n)));
    for name in ["a", "snikk-2", &"x".repeat(32)] {
        assert!(valid_agent_name(name));
    }
    for name in [
        "",
        "Snikk",
        "1snikk",
        "-snikk",
        "two words",
        "../snikk",
        "g\u{f8}b",
        "x\n",
        &"x".repeat(33),
    ] {
        assert!(!valid_agent_name(name), "{name:?}");
    }
}

#[test]
fn random_selection_covers_candidates_and_bounds_exhaustion_and_entropy_failures() {
    let candidates = ["snikk", "grib", "zoggit"];
    for (index, name) in candidates.iter().enumerate() {
        let bytes = (index as u64).to_le_bytes();
        assert_eq!(random_name(&candidates, &bytes).unwrap(), *name);
    }
    // The top bucket, which is not full, is passed over.
    let bytes = [u64::MAX.to_le_bytes(), 2_u64.to_le_bytes()].concat();
    assert_eq!(random_name(&candidates, &bytes).unwrap(), "zoggit");
    assert_eq!(
        random_name(&[], &[]).unwrap_err(),
        (-32010, s("automatic agent name pool exhausted"))
    );
    assert!(random_name(&candidates, &[]).unwrap_err().1.contains("cannot read randomness"));
    let rejected = [255; 64];
    assert!(random_name(&candidates, &rejected).unwrap_err().1.contains("after 8 attempts"));
    assert_eq!(random_name(&["grib"], &0_u64.to_le_bytes()).unwrap(), "grib");
}

#[test]
fn mail_is_read_before_it_is_sent() {
    let object = |fields: Vec<(&str, Json)>| {
        Json::Object(fields.into_iter().map(|(k, v)| (k.to_string(), v)).collect())
    };
    let text = |t: &str| Json::Text(t.to_string());
    let able = object(vec![("features", Json::Array(vec![text("agent-inbox-v1")]))]);
    let request = |method: &str, params: Json| Request { method: method.to_string(), params };
    let next = request("inbox.next", object(vec![("key", text(&"a".repeat(32)))]));
    assert_eq!(check_mail(&next, &able, ""), Ok(Some("a".repeat(32))));
    assert_eq!(
        check_mail(&next, &object(vec![]), ""),
        Err("daemon does not support agent inboxes".to_string())
    );
    let bad = request("inbox.next", object(vec![]));
    assert_eq!(check_mail(&bad, &able, "missing key"), Err("missing key".to_string()));
    assert_eq!(understood(&bad, "missing key"), Err("missing key".to_string()));
    assert_eq!(understood(&next, ""), Ok(()));
    let status = request("inbox.status", object(vec![]));
    assert_eq!(check_mail(&status, &able, ""), Ok(None));
}
