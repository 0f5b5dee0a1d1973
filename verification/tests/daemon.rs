//! The daemon: sessions, permissions, connections and what is shown of them.
use goblins::answers::integer;
use goblins::board::{
    heights, package_title, request_label, request_text, session_label, Board, Focus, Input,
    Step as Move,
};
use goblins::connection::{Connection, Role, QUEUE};
use goblins::controller::{
    bounded, dimensions, Active, Controller, Inheritance, Pending, Start, Started, SESSIONS,
};
use goblins::courier::{delivered, mail_answer, notice, Room};
use goblins::directory::Fault;
use goblins::dispatch::{ControlCall, HostCall, Step};
use goblins::endpoint::{features, sandbox_control, HostMethod, Route};
use goblins::integration::{Driver, Names};
use goblins::json::Json;
use goblins::launch::StartPlan;
use goblins::names::goblin_names;
use goblins::permissions::{Decision, PermissionRequest, Work};
use goblins::picture::Popup;
use goblins::plain::{escaped_text, request_lines, safe, said, typed, Said, LINE};
use goblins::process::{diagnostic_start, gather, go_on, helper_byte, Cancellation, Line};
use goblins::progress::{Begun, Granted};
use goblins::protocol::MAX_FRAME;
use goblins::records::{
    Identity, PermissionRecord, PermissionState, SessionRecord, SessionState, Snapshot,
};
use goblins::relay::{outcome, Relay};
use goblins::replies::{changed, child_started};
use goblins::rpc::{encode, error, Call, RpcId};
use goblins::terminal::{PeerRead, Terminal, Wrote};
use goblins::tree::session_tree;
use goblins::unix::{attached, check_private, cvt};

const SECOND: u64 = 1_000_000_000;

const INSTANCE: &str = "0123456789abcdef0123456789abcdef";

fn s(t: &str) -> String {
    t.to_string()
}

fn daemon() -> Controller {
    Controller::new(s(INSTANCE))
}

fn record(id: &str, name: &str, parent: Option<&str>, path: &str) -> SessionRecord {
    SessionRecord {
        docker_enabled: false,
        docker_scope: None,
        id: s(id),
        agent_name: s(name),
        parent: parent.map(s),
        path: s(path),
        name: s("shell"),
        description: s("Test shell running in a Goblins sandbox"),
        configuration: s("test"),
        state: SessionState::Running,
        identity: None,
        initial_packages: Vec::new(),
        packages: Vec::new(),
        terminal: String::new(),
        pty_eof: false,
        terminal_complete: false,
        terminal_interrupted: false,
        terminal_attached: false,
        terminal_detached: false,
        exit_code: None,
        stop_reason: None,
        detail: None,
    }
}

fn inheritance() -> Inheritance {
    Inheritance {
        description: s("a shell"),
        integration: Some(format!("{:?}", Driver::Codex).to_lowercase()),
        default_scope: Some(s("team")),
        allowed_scopes: vec![s("other")],
        initial_packages: vec![s("/nix/store/jq")],
    }
}

fn active(record: SessionRecord) -> Active {
    Active {
        created: 0,
        record,
        worker: true,
        cancelled: false,
        listening: false,
        pending: None,
        terminal: Terminal::new(SECOND),
        inheritance: None,
        exit_watch: false,
        granted_outputs: Vec::new(),
    }
}

/// A session with a request under way.
fn add_session(d: &mut Controller, id: &str) -> usize {
    let mut a = active(record(id, "snikk", None, "snikk"));
    a.pending = Some(Pending {
        initial_output: None,
        id: s("r"),
        serial: 1,
        connection: 99,
        cancelled: false,
    });
    d.sessions.push(a);
    d.permissions.push(PermissionRecord {
        kind: s("package"),
        scope: None,
        anonymous: false,
        id: s("r"),
        session: s(id),
        agent_name: s("snikk"),
        approval: s("a"),
        package: s("hello"),
        reason: s("test"),
        state: PermissionState::Realizing,
        approved: Some(true),
        preview: None,
        message: None,
    });
    d.sessions.len() - 1
}

fn start(key: &str, agent_name: Option<&str>) -> Start {
    Start {
        key: s(key),
        configuration: s("/missing-goblins-test-manifest"),
        name: s("shell"),
        agent_name: agent_name.map(s),
        parent: None,
        cwd: None,
        rows: 24,
        cols: 100,
        detached: false,
    }
}

/// Starts a session, as far as the daemon decides about it: its identifier and name.
fn launch(
    d: &mut Controller,
    key: &str,
    agent_name: Option<&str>,
) -> Result<(String, String), (i32, String)> {
    let random = [7u8; 64];
    match d.plan_start(start(key, agent_name), None, Some(&random))? {
        StartPlan::Known(k) => {
            let r = &d.launches[k].result;
            Ok((r.session.clone(), r.agent_name.clone()))
        }
        StartPlan::New(l) => {
            let r = (l.id.clone(), l.agent_name.clone());
            d.finish_start(l, s("/terminal"), SECOND);
            Ok(r)
        }
    }
}

#[test]
fn a_start_that_comes_again_names_the_same_path() {
    let random = [7u8; 64];
    let within = |cwd: Option<&str>| Start { cwd: cwd.map(s), ..start("again", None) };
    let mut d = daemon();
    match d.plan_start(within(Some("/work/a/")), None, Some(&random)).ok().unwrap() {
        StartPlan::New(l) => {
            d.finish_start(l, s("/terminal"), SECOND);
        }
        StartPlan::Known(_) => panic!("nothing was started"),
    }
    for cwd in ["/work/a/", "/work/a", "/work//a", "/work/./a/."] {
        match d.plan_start(within(Some(cwd)), None, None).ok().unwrap() {
            StartPlan::Known(k) => assert_eq!(k, 0),
            StartPlan::New(_) => panic!("{} is another path", cwd),
        }
    }
    for cwd in [Some("/work/b"), Some("/work/a/.."), None] {
        assert!(d.plan_start(within(cwd), None, Some(&random)).is_err());
    }
    assert_eq!(d.launches.len(), 1);
}

#[test]
fn parent_name_stays_reserved_until_descendant_cleanup_finishes() {
    let mut d = daemon();
    d.sessions.push(active(record("root", "snikk", None, "snikk")));
    let mut child = active(record("child", "kid", Some("root"), "snikk/kid"));
    child.record.state = SessionState::Stopping;
    d.sessions.push(child);
    d.sessions[0].worker = false;
    assert_eq!(d.allocate_name(Some("snikk"), None, None).err().unwrap().0, -32009);
    // The same name below another parent stays free.
    assert_eq!(d.allocate_name(Some("snikk"), Some("root"), None).ok().unwrap(), "snikk");
    d.sessions[1].worker = false;
    assert_eq!(d.allocate_name(Some("snikk"), None, None).ok().unwrap(), "snikk");
}

#[test]
fn allocation_is_bounded_and_retries_precede_capacity_and_collisions() {
    let mut d = daemon();
    let mut results = Vec::new();
    let mut allocated = std::collections::BTreeSet::new();
    for i in 0..SESSIONS {
        let (id, name) = launch(&mut d, &format!("key{i}"), None).ok().unwrap();
        assert!(goblin_names().iter().any(|candidate| *candidate == name));
        assert!(allocated.insert(name.clone()));
        let k = d.find(&id).unwrap();
        assert_eq!(d.sessions[k].record.agent_name, name);
        assert_eq!(d.sessions[k].record.name, "shell");
        assert_eq!(d.sessions[k].record.configuration, "/missing-goblins-test-manifest");
        results.push((id, name));
    }
    assert_eq!(
        launch(&mut d, "overflow", None).err().unwrap(),
        (-32010, s("resource limit reached"))
    );
    let taken = results[0].1.clone();
    assert_eq!(launch(&mut d, "collision", Some(&taken)).err().unwrap().0, -32009);
    assert_eq!(launch(&mut d, "capacity", Some("custom")).err().unwrap().0, -32010);
    assert_eq!(launch(&mut d, "key0", None).ok().unwrap(), results[0]);
    assert_eq!(launch(&mut d, "key0", Some("custom")).err().unwrap().0, -32009);
    assert_eq!(d.launches.len(), SESSIONS);
}

#[test]
fn explicit_names_reserve_through_cleanup_and_history_keeps_identity() {
    let mut d = daemon();
    for name in ["", "Snikk", "../snikk", &"a".repeat(33)] {
        assert_eq!(launch(&mut d, "bad", Some(name)).err().unwrap().0, -32602);
    }
    assert!(d.sessions.is_empty());
    let first = launch(&mut d, "first", Some("shell")).ok().unwrap();
    let id = first.0.clone();
    let k = d.resolve_session("shell").ok().unwrap();
    assert_eq!(d.sessions[k].record.id, id);
    assert_eq!(d.resolve_session(&id).ok().unwrap(), k);
    assert!(d.stop_tree(k, false, Some(s("stopped by host"))).is_ok());
    for state in [
        SessionState::Starting,
        SessionState::Running,
        SessionState::Stopping,
        SessionState::Stopped,
        SessionState::Failed,
    ] {
        d.sessions[k].record.state = state;
        assert_eq!(d.allocate_name(Some("shell"), None, None).err().unwrap().0, -32009);
    }
    d.sessions[k].worker = false;
    assert!(d.resolve_session("shell").is_err());
    let second = launch(&mut d, "second", Some("shell")).ok().unwrap();
    assert_ne!(first.0, second.0);
    let k2 = d.resolve_session("shell").ok().unwrap();
    assert_eq!(d.sessions[k2].record.id, second.0);
    let k1 = d.find(&id).unwrap();
    assert_eq!(d.sessions[k1].record.agent_name, "shell");
    // What was asked before is not answered with a successor.
    d.sessions.remove(k1);
    assert_eq!(launch(&mut d, "first", Some("shell")).ok().unwrap(), first);
}

fn granted(ready: bool, detail: Option<&str>) -> Granted {
    Granted {
        ready,
        status: s(if ready { "ready" } else { "error" }),
        message: if ready { None } else { Some(s("grant failed; see tui terminal")) },
        detail: detail.map(s),
        output: None,
        docker_scope: None,
    }
}

#[test]
fn failed_grant_retains_diagnostic_on_permission_record() {
    let mut d = daemon();
    let detail = "could not build package 'hello': actual Nix diagnostic";
    let i = add_session(&mut d, "test-session");
    d.granted(i, granted(false, Some(detail)));
    assert_eq!(d.permissions[0].state, PermissionState::Failed);
    assert_eq!(d.permissions[0].message.as_deref(), Some(detail));
    // What is said of the session later does not take it away.
    d.sessions[i].record.detail = None;
    assert_eq!(d.permissions[0].message.as_deref(), Some(detail));
}

#[test]
fn queued_progress_cannot_restore_cancelled_permission() {
    let mut d = daemon();
    let i = add_session(&mut d, "test-session");
    assert!(d.stop("test-session", Some(s("stopped by host"))).is_ok());
    assert!(d.stop("test-session", Some(s("stopped by another caller"))).is_ok());
    d.progressed(i, "r", PermissionState::Mounting);
    d.progressed(i, "r", PermissionState::Publishing);
    d.granted(i, granted(true, None));
    d.payload_stopped(i, None);
    d.worker_finished(i);
    assert_eq!(d.sessions[i].record.stop_reason.as_deref(), Some("stopped by host"));
    assert_eq!(d.permissions[0].state, PermissionState::Cancelled);
    assert_eq!(d.sessions[i].record.state, SessionState::Stopped);
    assert!(!d.sessions[i].worker);
    assert!(d.sessions[i].record.packages.is_empty());
}

#[test]
fn full_result_queue_without_stopped_cannot_leave_session_running() {
    let mut d = daemon();
    let i = add_session(&mut d, "test-session");
    for _ in 0..16 {
        d.progressed(i, "r", PermissionState::Mounting);
    }
    assert!(d.sessions[i].worker);
    d.worker_finished(i);
    assert!(!d.sessions[i].worker);
    assert_eq!(d.sessions[i].record.state, SessionState::Failed);
    assert!(d.sessions[i].record.detail.as_ref().unwrap().contains("without a final"));
    assert!(d.sessions[i].pending.is_none());
    assert_eq!(d.permissions[0].state, PermissionState::Cancelled);
}

#[test]
fn endpoint_authority_initialization_and_notifications() {
    let mut d = daemon();
    add_session(&mut d, "test-session");
    let mut c = Connection::new(1, Role::Sandbox(s("test-session")), SECOND);
    assert_eq!(d.route(&c, true, "sessions.list").err().unwrap().0, -32001);
    assert!(matches!(d.route(&c, true, "initialize"), Ok(Route::Initialize)));
    assert_eq!(c.initialize(2, SECOND).err().unwrap().0, -32002);
    assert!(c.initialize(1, SECOND).is_ok());
    assert_eq!(text_of(&d.hello(&c.role), "role"), Some("sandbox"));
    let mut host = Connection::new(2, Role::Host, SECOND);
    assert!(host.initialize(1, SECOND).is_ok());
    assert!(!host.decoder.expired(5 * SECOND));
    for method in ["server.status", "server.stop", "permissions.decide", "state.subscribe"] {
        assert!(matches!(d.route(&c, true, method), Ok(Route::Control)));
        assert_eq!(sandbox_control(method).err().unwrap().0, -32601);
    }
    // What wants no answer is not done.
    assert!(matches!(d.route(&c, false, "sessions.start"), Ok(Route::Ignore)));
    assert!(matches!(d.route(&host, true, "sessions.start"), Ok(Route::Host)));
    assert!(!features(&Role::Host).is_empty());
}

#[test]
fn server_shutdown_flushes_acceptance_and_rejects_later_work() {
    let mut d = daemon();
    let mut c = Connection::new(1, Role::Host, SECOND);
    c.initialized = true;
    assert_eq!(d.host("server.status").ok().unwrap(), HostMethod::ServerStatus);
    let v = answered(host_asks(&mut d, &mut c, HostCall::ServerStatus));
    assert_eq!(text_of(&v, "state"), Some("running"));
    answered(host_asks(&mut d, &mut c, HostCall::ServerStop));
    c.enqueue(encode(b"{\"result\":true}"));
    assert!(c.queued > 0);
    d.connections.push(c);
    assert!(!d.shutdown_ready(SECOND));
    assert_eq!(d.host("sessions.start").err().unwrap().0, -32009);
    assert!(d.sessions.is_empty());
    assert!(d.host("server.status").is_ok());
    let mut other = Connection::new(2, Role::Host, SECOND);
    let v = answered(host_asks(&mut d, &mut other, HostCall::ServerStatus));
    assert_eq!(text_of(&v, "state"), Some("stopping"));
    let n = d.connections[0].unsent().unwrap().len();
    d.connections[0].flushed(Some(Wrote::Bytes(n)));
    assert!(d.shutdown_ready(SECOND));
    assert!(d.connections[0].dead);
}

#[test]
fn trailing_input_is_consumed_and_queue_overflow_disconnects() {
    let mut c = Connection::new(1, Role::Sandbox(s("s")), SECOND);
    c.waiting = Some((s("r"), RpcId::Number(1)));
    assert!(!c.received(PeerRead::Bytes(b"x".to_vec())));
    assert!(c.dead);
    let mut c = Connection::new(1, Role::Host, SECOND);
    for _ in 0..4 {
        c.enqueue(encode(&vec![b'x'; 700_000]));
    }
    assert!(c.dead);
    assert!(c.queued <= QUEUE);
}

#[test]
fn snapshot_and_event_share_one_order() {
    let mut d = daemon();
    let mut c = Connection::new(1, Role::Host, SECOND);
    c.initialized = true;
    d.dirty = true;
    assert!(d.published());
    assert_eq!(d.sequence, 1);
    let id = d.subscribe(&mut c).ok().unwrap();
    assert_eq!(c.subscription, Some(id.clone()));
    assert!(d.subscribe(&mut c).is_err());
    assert!(!d.published());
    d.dirty = true;
    assert!(d.published());
    assert_eq!(d.sequence, 2);
    let event = changed(c.subscription.as_ref().unwrap(), d.sequence, Json::Null);
    let params = event.get("params").unwrap();
    assert_eq!(params.get("sequence").and_then(|v| v.as_u64()), Some(2));
    assert_eq!(text_of(params, "subscription"), Some(id.as_str()));
    assert!(c.unsubscribe("other").is_err());
    assert!(c.unsubscribe(&id).is_ok());
}

#[test]
fn frames_of_calls_come_out_of_a_connection() {
    let mut c = Connection::new(1, Role::Host, SECOND);
    let frame = encode(b"{}").ok().unwrap();
    assert!(c.received(PeerRead::Bytes(frame)));
    assert_eq!(c.next_body(SECOND), Some(b"{}".to_vec()));
    assert!(c.received(PeerRead::Bytes(b"X: 1\r\n\r\n".to_vec())));
    assert_eq!(c.next_body(SECOND), None);
    assert!(c.close);
    c.queue(error(Json::Null, -1, "x"));
    assert_eq!(c.outbox.len(), 2);
}

fn ask(kind: &str, package: &str, scope: Option<&str>) -> PermissionRequest {
    PermissionRequest {
        kind: s(kind),
        package: s(package),
        reason: s("test"),
        scope: scope.map(s),
        anonymous: false,
    }
}

fn running(d: &mut Controller, id: &str, name: &str, parent: Option<&str>, path: &str) -> usize {
    let mut a = active(record(id, name, parent, path));
    a.inheritance = Some(inheritance());
    d.sessions.push(a);
    d.sessions.len() - 1
}

#[test]
fn requests_are_decided_by_what_was_shown() {
    let mut d = daemon();
    let i = running(&mut d, "s1", "snikk", None, "snikk");
    let mut peer = Connection::new(5, Role::Sandbox(s("s1")), SECOND);
    peer.initialized = true;
    peer.waiting = Some((s("x"), RpcId::Number(1)));
    d.connections.push(peer);
    assert_eq!(d.plan_request(i, ask("package", "../x", None), 5).err().unwrap().0, -32602);
    assert_eq!(
        d.plan_request(i, ask("docker", "", Some("foreign")), 5).err().unwrap().1,
        "Docker scope is not allowed by this configuration"
    );
    let plan = d.plan_request(i, ask("package", "jq", None), 5).ok().unwrap();
    assert!(matches!(&plan.work, Some(Work::Preview { package, .. }) if package == "jq"));
    let request = d.finish_request(plan, true).ok().unwrap();
    let k = d.find_request(&request).unwrap();
    assert_eq!(d.permissions[k].state, PermissionState::Pending);
    let approval = d.permissions[k].approval.clone();
    let stale = Decision {
        session: s("s1"),
        request: request.clone(),
        approval: s("another"),
        approved: true,
    };
    assert!(d.check_decision(&stale).is_err());
    assert_eq!(d.permissions_matching(None, Some("pending")), vec![k]);
    assert_eq!(d.permissions_matching(Some("s2"), None), Vec::<usize>::new());
    let yes = Decision { session: s("s1"), request: request.clone(), approval, approved: true };
    assert!(d.check_decision(&yes).is_ok());
    let work = d.plan_decision(&yes).ok().unwrap();
    assert!(matches!(work, Some(Work::Decide { package, .. }) if package == "jq"));
    assert!(d.finish_decision(&yes, true).is_ok());
    assert_eq!(d.permissions[k].state, PermissionState::Realizing);
    d.progressed(i, &request, PermissionState::Mounting);
    assert_eq!(d.permissions[k].state, PermissionState::Mounting);
    d.granted(i, granted(true, None));
    assert_eq!(d.permissions[k].state, PermissionState::Ready);
    assert_eq!(d.sessions[i].record.packages, vec![s("jq")]);
    assert!(d.check_decision(&yes).is_err());
}

#[test]
fn a_tree_of_sessions_is_stopped_as_a_whole() {
    let mut d = daemon();
    let root = running(&mut d, "s1", "snikk", None, "snikk");
    let kid = running(&mut d, "s2", "kid", Some("s1"), "snikk/kid");
    let other = running(&mut d, "s3", "other", None, "other");
    assert!(d.descendant("s2", "s1") && !d.descendant("s1", "s2"));
    assert_eq!(d.list_below("s1"), vec![kid]);
    assert!(d.resolve_scoped("kid", Some("s1")).is_ok());
    assert!(d.resolve_scoped("other", Some("s1")).is_err());
    assert_eq!(d.sandbox_record(kid, "s1").path, "kid");
    assert!(d.stop_tree(root, false, None).is_err());
    assert!(d.stop_tree(root, true, Some(s("enough"))).is_ok());
    assert_eq!(d.sessions[root].record.state, SessionState::Stopping);
    assert_eq!(d.sessions[kid].record.state, SessionState::Stopping);
    assert_eq!(d.sessions[other].record.state, SessionState::Running);
    assert_eq!(d.message_directory().sessions.len(), 3);
    let names = Names {
        codex: format!("{:?}", Driver::Codex).to_lowercase(),
        claude: format!("{:?}", Driver::Claude).to_lowercase(),
    };
    let target = |d: &Controller, id: &str, driver: &str| {
        d.integration_target(
            &names,
            &Role::Sandbox(s(id)),
            None,
            "integration.register",
            Some(driver),
        )
    };
    assert_eq!(target(&d, "s3", &names.codex).ok().unwrap(), other);
    assert!(target(&d, "s3", &names.claude).is_err());
    assert!(target(&d, "s1", &names.codex).is_err());
    assert!(dimensions(24, 80) && !dimensions(0, 80));
    assert_eq!(bounded(&"x".repeat(600)).len(), 512);
}

#[test]
fn a_started_payload_takes_its_place() {
    let mut d = daemon();
    let (id, _) = launch(&mut d, "k", Some("snikk")).ok().unwrap();
    let i = d.find(&id).unwrap();
    assert_eq!(d.sessions[i].record.state, SessionState::Starting);
    let size = d.payload_started(
        i,
        Begun {
            docker_enabled: false,
            docker_scope: None,
            initial_packages: vec![s("jq-1.8")],
            identity: Identity {
                pid: 7,
                helper_userns: 1,
                mount_owner: 2,
                source_mountns: 3,
                mountns: 4,
            },
            inheritance: inheritance(),
        },
    );
    // The payload began with its size: none was asked for since.
    assert_eq!(size, None);
    assert_eq!(d.sessions[i].record.state, SessionState::Running);
    assert_eq!(d.sessions[i].record.initial_packages, vec![s("jq-1.8")]);
    assert!(d.resize(i, 30, 90).is_ok());
    assert!(d.resize(i, 0, 90).is_err());
    assert!(d.sessions[i].inheritance.as_ref().unwrap().docker_allowed("team"));
    assert!(!d.sessions[i].inheritance.as_ref().unwrap().docker_allowed("foreign"));
    d.start_failed(i, "broken");
    assert_eq!(d.sessions[i].record.detail.as_deref(), Some("broken"));
}

fn shown(sessions: Vec<SessionRecord>) -> Snapshot {
    Snapshot { instance: s("test"), permissions: Vec::new(), sessions }
}

fn named(id: &str, parent: Option<&str>) -> SessionRecord {
    record(id, id, parent, "")
}

#[test]
fn ownership_tree_preserves_identity_through_insertions_and_folding() {
    let mut snapshot = shown(vec![
        named("leaf", Some("kid")),
        named("parent", None),
        named("other", None),
        named("kid", Some("parent")),
        named("other-kid", Some("other")),
    ]);
    let mut view = Board::new();
    view.sync(&snapshot);
    let tree = session_tree(&snapshot.sessions, &view.collapsed);
    assert_eq!(
        tree.iter()
            .map(|r| (snapshot.sessions[r.place].id.as_str(), r.prefix.as_str()))
            .collect::<Vec<_>>(),
        vec![
            ("parent", "\u{251c}\u{2500} "),
            ("kid", "\u{2502}  \u{2514}\u{2500} "),
            ("leaf", "\u{2502}     \u{2514}\u{2500} "),
            ("other", "\u{2514}\u{2500} "),
            ("other-kid", "   \u{2514}\u{2500} ")
        ]
    );
    view.move_selection(1, &snapshot);
    assert_eq!(view.selected_session.as_deref(), Some("kid"));
    view.fold(false, &snapshot);
    assert_eq!(session_tree(&snapshot.sessions, &view.collapsed).len(), 4);
    view.fold(true, &snapshot);
    assert_eq!(session_tree(&snapshot.sessions, &view.collapsed).len(), 5);
    view.move_selection(2, &snapshot);
    assert_eq!(view.selected_session.as_deref(), Some("other"));
    snapshot.sessions.insert(0, named("new", Some("parent")));
    view.sync(&snapshot);
    assert_eq!(view.selected_session.as_deref(), Some("other"));
    assert_eq!(view.sessions, Some(4));
    snapshot.sessions.retain(|r| r.id != "other");
    view.sync(&snapshot);
    assert_eq!(view.sessions, None);
}

#[test]
fn incomplete_and_cyclic_trees_do_not_hide_sessions_or_loop() {
    let sessions =
        vec![named("orphan", Some("missing")), named("a", Some("b")), named("b", Some("a"))];
    let tree = session_tree(&sessions, &Vec::new());
    assert_eq!(tree.len(), 3);
    assert_eq!(
        tree.iter()
            .map(|r| &sessions[r.place].id)
            .collect::<std::collections::BTreeSet<_>>()
            .len(),
        3
    );
}

#[test]
fn the_board_decides_only_what_it_shows() {
    let mut d = daemon();
    add_session(&mut d, "test-session");
    d.permissions[0].state = PermissionState::Pending;
    let snapshot = Snapshot {
        instance: s("test"),
        sessions: vec![record("test-session", "snikk", None, "snikk")],
        permissions: d.permissions,
    };
    let mut board = Board::new();
    board.sync(&snapshot);
    assert!(board.decision().is_none());
    assert!(matches!(board.input(Input::Quit, &snapshot), Move::Quit));
    board.input(Input::Tab, &snapshot);
    assert_eq!(board.focus, Focus::Requests);
    board.present(&snapshot);
    let shown = board.decision();
    assert!(shown.is_some());
    assert_eq!(shown.unwrap().approval, "a");
    board.decided(true, Ok(()));
    assert!(session_label(&snapshot.sessions[0]).contains("snikk"));
    assert!(request_label(&snapshot, &snapshot.permissions[0]).contains("snikk"));
    assert!(request_text(&snapshot, &snapshot.permissions[0]).contains("hello"));
    assert_eq!(package_title(Focus::Sandboxes, None), " Packages [focused] \u{b7}  ");
    assert_eq!(heights(true, true, 3), (5, 11));
    assert_eq!(heights(true, false, 9), (6, 0));
    assert_eq!(heights(false, true, 0), (0, 0));
}

#[test]
fn terminal_text_is_ascii_json_data() {
    let text = "\x1b[2J\n approve\u{009b}\u{202e}\u{1F41F}";
    let shown = escaped_text(text);
    assert!(shown.is_ascii());
    assert!(!shown.contains('\x1b'));
    assert_eq!(serde_json::from_str::<String>(&shown).unwrap(), text);
    assert_eq!(format!("\"{}\"", safe(text)), shown);
}

#[test]
fn a_console_takes_lines() {
    let mut line = Vec::new();
    for b in b"quit" {
        assert!(!typed(&mut line, *b));
    }
    assert!(typed(&mut line, b'\n'));
    assert_eq!(line, b"quit".to_vec());
    for _ in 0..2 * LINE {
        typed(&mut line, b'x');
    }
    assert_eq!(line.len(), LINE);
    let empty = shown(Vec::new());
    assert!(matches!(said(" :quit ", &empty), Said::Quit));
    assert!(matches!(said("status", &empty), Said::Status));
    assert!(matches!(said("approve a", &empty), Said::Nothing));
    let mut d = daemon();
    add_session(&mut d, "x");
    d.permissions[0].state = PermissionState::Pending;
    let snapshot = Snapshot { instance: s("i"), sessions: Vec::new(), permissions: d.permissions };
    assert!(matches!(said("deny a\r", &snapshot), Said::Decide(0, false)));
    assert_eq!(
        request_lines("\"\u{e9}\"", "a1"),
        "REQUEST \"\\u00e9\"\nType approve a1 or deny a1"
    );
}

#[test]
fn a_relay_passes_bytes_both_ways() {
    let mut r = Relay::new();
    assert!(r.key_room() > 0 && r.stream_room() > 0);
    assert!(r.typed(b"ls\n".to_vec()).is_ok());
    assert_eq!(r.keys(), b"ls\n");
    r.sent(2);
    assert_eq!(r.keys(), b"\n");
    r.received(PeerRead::Bytes(b"out".to_vec()));
    assert_eq!(r.output(), b"out");
    assert!(r.interest().screen);
    r.received(PeerRead::Closed);
    assert!(r.eof() && !r.done());
    assert!(r.shown(3).is_ok());
    assert!(r.done());
    let record = |fields: Vec<(&str, Json)>| {
        outcome(&Json::Object(fields.into_iter().map(|(k, v)| (s(k), v)).collect()))
    };
    assert!(record(vec![("state", Json::Text(s("running")))]).is_none());
}

#[test]
fn host_commands_can_be_cancelled() {
    let all = Cancellation::new();
    let one = all.child();
    assert!(one.check().is_ok());
    one.cancel();
    assert_eq!(one.check().err().unwrap(), "session cancelled");
    assert!(all.check().is_ok());
    let other = all.child();
    all.cancel();
    assert!(other.check().is_err());
    assert!(go_on(false, false).is_ok() && go_on(true, false).is_err());
    let mut kept = Vec::new();
    assert!(gather(&mut kept, b"abcd", 3, false).is_err());
    let mut tail = Vec::new();
    assert!(gather(&mut tail, b"abcd", 3, true).is_ok());
    assert_eq!(tail, b"bcd".to_vec());
    assert_eq!(diagnostic_start(20000), 8000);
    assert_eq!(diagnostic_start(5), 0);
    let mut data = Vec::new();
    assert!(matches!(helper_byte(&mut data, b'O'), Line::More));
    assert!(matches!(helper_byte(&mut data, b'K'), Line::More));
    assert!(matches!(helper_byte(&mut data, b'\n'), Line::Done(t) if t == "OK"));
    let mut long = vec![b'x'; 256];
    assert!(matches!(helper_byte(&mut long, b'x'), Line::Failed(_)));
    assert_eq!(cvt(3).ok(), Some(3));
    assert!(cvt(-1).is_err());
}

#[test]
fn sessions_are_shown_by_their_ids() {
    let mut d = daemon();
    running(&mut d, "s2", "snikk", None, "snikk");
    running(&mut d, "s10", "grub", Some("s2"), "snikk/grub");
    running(&mut d, "s1", "other", Some("s2"), "snikk/other");
    let n = d.snapshot();
    assert_eq!(n.instance, INSTANCE);
    let ids: Vec<&str> = n.sessions.iter().map(|r| r.id.as_str()).collect();
    assert_eq!(ids, vec!["s1", "s10", "s2"]);
    assert_eq!(n.sessions[1].agent_name, "grub");
    assert!(n.permissions.is_empty());
    assert_eq!(d.list_below("s2"), vec![2, 1]);
    assert!(d.list_below("s1").is_empty());
}

/// The text of a member of an object.
fn text_of<'a>(v: &'a Json, key: &str) -> Option<&'a str> {
    v.get(key).and_then(|m| m.as_str())
}

#[test]
fn control_directories_are_private() {
    assert!(check_private(true, 1000, 1000, 0o40700).is_ok());
    for (directory, owner, mode) in [
        (false, 1000, 0o40700),
        (true, 0, 0o40700),
        (true, 1000, 0o40750),
        (true, 1000, 0o41700),
    ] {
        assert_eq!(
            check_private(directory, owner, 1000, mode).unwrap_err(),
            "control directory must be a non-symlink directory owned by you with mode 0700"
        );
    }
}

#[test]
fn a_terminal_comes_with_one_descriptor() {
    let reply = |v: u64, status: &str, message: Option<&str>| -> Result<Json, String> {
        let mut fields = vec![
            (s("v"), Json::Unsigned(v)),
            (s("status"), Json::Text(s(status))),
        ];
        if let Some(m) = message {
            fields.push((s("message"), Json::Text(s(m))));
        }
        Ok(Json::Object(fields))
    };
    let good = reply(1, "attached", None);
    assert!(attached(false, 30, &good, 1).is_ok());
    for (cut, length, answer, descriptors, complaint) in [
        (true, 30, &good, 1, "truncated attachment response"),
        (false, MAX_FRAME + 1, &good, 1, "truncated attachment response"),
        (false, 30, &Err(s("unreadable")), 1, "unreadable"),
        (false, 30, &reply(2, "attached", None), 1, "attachment failed"),
        (false, 30, &reply(1, "refused", Some("busy")), 1, "busy"),
        (
            false,
            30,
            &good,
            2,
            "attachment did not provide exactly one terminal",
        ),
    ] {
        assert_eq!(
            attached(cut, length, answer, descriptors).unwrap_err(),
            complaint
        );
    }
}

#[test]
fn a_daemon_says_what_it_is() {
    let mut d = daemon();
    running(&mut d, "s1", "snikk", None, "snikk");
    running(&mut d, "s2", "kid", Some("s1"), "snikk/kid");
    let hello = d.hello(&Role::Host);
    assert_eq!(hello.get("api").and_then(|v| v.as_u64()), Some(1));
    assert_eq!(text_of(&hello, "instance"), Some(INSTANCE));
    assert_eq!(text_of(&hello, "role"), Some("host"));
    assert_eq!(text_of(&hello, "configuration"), None);
    let limits = hello.get("limits").unwrap();
    assert_eq!(limits.get("calls").and_then(|v| v.as_u64()), Some(4096));
    assert_eq!(limits.get("snapshot").and_then(|v| v.as_u64()), Some(900 * 1024));
    match hello.get("features") {
        Some(Json::Array(names)) => {
            assert_eq!(names.len(), 12);
            assert_eq!(names[0].as_str(), Some("docker-scopes"));
        }
        _ => panic!("no features"),
    }
    let hello = d.hello(&Role::Sandbox(s("s1")));
    assert_eq!(text_of(&hello, "role"), Some("sandbox"));
    assert_eq!(text_of(&hello, "configuration"), Some("shell"));
    let standing = d.standing();
    assert_eq!(text_of(&standing, "state"), Some("running"));
    assert_eq!(standing.get("sessions").and_then(|v| v.as_u64()), Some(2));
    match d.listing("s1") {
        Json::Array(items) => {
            assert_eq!(items.len(), 1);
            assert_eq!(text_of(&items[0], "path"), Some("kid"));
            assert!(items[0].get("terminal").is_none());
        }
        _ => panic!("no list"),
    }
    let record = d.sessions[1].record.value();
    assert_eq!(text_of(&record, "parent"), Some("s1"));
    assert_eq!(text_of(&record, "state"), Some("running"));
    assert!(matches!(record.get("exit_code"), Some(Json::Null)));
    assert_eq!(text_of(&d.sessions[1].record.own(), "agent_name"), Some("kid"));
    let shown = d.snapshot().value();
    let copied = shown.copy();
    assert!(shown.same(&copied));
    let event = changed("sub1", 7, shown);
    assert_eq!(text_of(&event, "method"), Some("state.changed"));
    let params = event.get("params").unwrap();
    assert_eq!(params.get("sequence").and_then(|v| v.as_u64()), Some(7));
    assert_eq!(text_of(params.get("snapshot").unwrap(), "instance"), Some(INSTANCE));
    assert!(matches!(integer(-3), Json::Negative(-3)));
}

fn host_asks(d: &mut Controller, k: &mut Connection, call: HostCall) -> Result<Step, Fault> {
    d.host_call(k, call, SECOND)
}

fn answered(r: Result<Step, Fault>) -> Json {
    match r {
        Ok(Step::Answer(v)) => v,
        _ => panic!("not answered"),
    }
}

fn refused(r: Result<Step, Fault>) -> Fault {
    match r {
        Err(f) => f,
        Ok(_) => panic!("not refused"),
    }
}

#[test]
fn the_host_is_served() {
    let mut d = daemon();
    running(&mut d, "s1", "snikk", None, "snikk");
    running(&mut d, "s2", "kid", Some("s1"), "snikk/kid");
    let mut k = Connection::new(7, Role::Host, SECOND);
    let v = answered(host_asks(&mut d, &mut k, HostCall::ServerStatus));
    assert_eq!(text_of(&v, "state"), Some("running"));
    match answered(host_asks(&mut d, &mut k, HostCall::SessionsList)) {
        Json::Array(items) => assert_eq!(text_of(&items[1], "id"), Some("s2")),
        _ => panic!("no list"),
    }
    let v = answered(host_asks(&mut d, &mut k, HostCall::SessionsGet(s("snikk/kid"))));
    assert_eq!(text_of(&v, "id"), Some("s2"));
    let absent = (-32004, s("record absent or no longer retained"));
    assert_eq!(
        refused(host_asks(&mut d, &mut k, HostCall::SessionsGet(s("nobody")))),
        absent
    );
    assert_eq!(
        refused(host_asks(&mut d, &mut k, HostCall::PermissionsGet(s("r1")))),
        absent
    );
    let all = HostCall::PermissionsList {
        session: None,
        state: None,
    };
    assert!(matches!(
        answered(host_asks(&mut d, &mut k, all)),
        Json::Array(v) if v.is_empty()
    ));
    let resize = |session: &str, rows: u16| HostCall::SessionsResize {
        session: s(session),
        rows,
        cols: 80,
    };
    assert_eq!(
        refused(host_asks(&mut d, &mut k, resize("nobody", 0))),
        (-32602, s("invalid dimensions"))
    );
    assert_eq!(
        refused(host_asks(&mut d, &mut k, resize("snikk", 24))),
        absent
    );
    assert!(matches!(
        host_asks(&mut d, &mut k, resize("s1", 24)),
        Ok(Step::Resized(0, None))
    ));
    assert_eq!(
        refused(host_asks(&mut d, &mut k, HostCall::SessionsDetach(s("s1")))),
        (-32009, s("terminal is not attached"))
    );
    let v = answered(host_asks(&mut d, &mut k, HostCall::Subscribe));
    let id = text_of(&v, "subscription").unwrap().to_string();
    assert_eq!(id, format!("{INSTANCE}-sub1"));
    assert!(host_asks(&mut d, &mut k, HostCall::Subscribe).is_err());
    assert!(host_asks(&mut d, &mut k, HostCall::Unsubscribe(s("other"))).is_err());
    answered(host_asks(&mut d, &mut k, HostCall::Unsubscribe(id)));
    let stop = |kill_children: bool| HostCall::SessionsStop {
        session: s("s1"),
        kill_children,
    };
    assert_eq!(refused(host_asks(&mut d, &mut k, stop(false))).0, -32009);
    answered(host_asks(&mut d, &mut k, stop(true)));
    assert_eq!(
        d.sessions[1].record.stop_reason,
        Some(s("stopped by host"))
    );
    answered(host_asks(&mut d, &mut k, HostCall::ServerStop));
    assert!(k.close && d.shutdown == Some((7, 2 * SECOND)));
}

#[test]
fn a_sandbox_sees_only_what_it_owns() {
    let mut d = daemon();
    let own = running(&mut d, "s1", "snikk", None, "snikk");
    let kid = running(&mut d, "s2", "kid", Some("s1"), "snikk/kid");
    running(&mut d, "s3", "other", None, "other");
    let v = answered(d.control_call(own, ControlCall::Status));
    assert_eq!(text_of(&v, "agent_name"), Some("snikk"));
    match answered(d.control_call(own, ControlCall::List)) {
        Json::Array(items) => {
            assert_eq!(items.len(), 1);
            assert_eq!(text_of(&items[0], "path"), Some("kid"));
        }
        _ => panic!("no list"),
    }
    let v = answered(d.control_call(own, ControlCall::Get(s("kid"))));
    assert_eq!(text_of(&v, "id"), Some("s2"));
    assert!(d.control_call(own, ControlCall::Get(s("other"))).is_err());
    let start = ControlCall::Start {
        key: s("k"),
        name: s("shell"),
        agent_name: None,
        parent: None,
        detached: true,
    };
    match d.control_call(own, start) {
        Ok(Step::Start(p)) => {
            assert!(p.configuration.is_empty() && p.cwd.is_none() && p.detached);
            assert_eq!((p.rows, p.cols), (24, 80));
        }
        _ => panic!("not started"),
    }
    let stop = |session: &str| ControlCall::Stop {
        session: s(session),
        kill_children: false,
    };
    assert!(d.control_call(own, stop("other")).is_err());
    answered(d.control_call(own, stop("kid")));
    assert_eq!(
        d.sessions[kid].record.stop_reason,
        Some(s("stopped by goblin snikk (s1)"))
    );
}

#[test]
fn a_session_that_ended_takes_its_children_along() {
    let mut d = daemon();
    let own = running(&mut d, "s1", "snikk", None, "snikk");
    let kid = running(&mut d, "s2", "kid", Some("s1"), "snikk/kid");
    d.look_after(own, false);
    assert_eq!(d.sessions[kid].record.state, SessionState::Running);
    d.look_after(own, true);
    assert_eq!(d.sessions[own].record.state, SessionState::Stopping);
    assert_eq!(
        d.sessions[kid].record.stop_reason,
        Some(s("stopped because owner goblin snikk (s1) exited"))
    );
    let late = running(&mut d, "s3", "late", Some("s1"), "snikk/late");
    d.sessions[own].record.state = SessionState::Stopped;
    d.look_after(own, false);
    assert_eq!(d.sessions[late].record.state, SessionState::Stopping);
}

#[test]
fn a_refused_sandbox_is_not_heard_again() {
    let id = RpcId::Number(3);
    let mut host = Connection::new(1, Role::Host, SECOND);
    let mut sandbox = Connection::new(2, Role::Sandbox(s("s1")), SECOND);
    for k in [&mut host, &mut sandbox] {
        k.answer(&id, Ok(None));
        assert!(k.outbox.is_empty());
        k.answer(&id, Ok(Some(Json::Bool(true))));
        assert!(matches!(k.outbox[0].get("result"), Some(Json::Bool(true))));
        assert!(!k.close);
        k.answer(&id, Err((-32004, s("no"))));
        let e = k.outbox[1].get("error").unwrap();
        assert_eq!(text_of(e, "message"), Some("no"));
        assert_eq!(k.outbox[1].get("id").and_then(|v| v.as_u64()), Some(3));
    }
    assert!(!host.close && sandbox.close);
}

#[test]
fn a_child_is_told_of_below_its_owner() {
    let started = Started {
        session: s("s2"),
        agent_name: s("kid"),
        path: s("snikk/kid"),
        parent: Some(s("s1")),
        terminal: s("/terminal"),
    };
    let told = child_started(&started, "snikk").ok().unwrap();
    assert_eq!(text_of(&told, "session"), Some("s2"));
    assert_eq!(text_of(&told, "agent_name"), Some("kid"));
    assert_eq!(text_of(&told, "path"), Some("kid"));
    assert_eq!(text_of(&told, "state"), Some("starting"));
    assert!(told.get("terminal").is_none());
    for above in ["snik", "snikk/kid", "other"] {
        assert_eq!(child_started(&started, above).err().unwrap().0, -32004);
    }
}

#[test]
fn what_is_drawn_is_what_is_decided() {
    let mut d = daemon();
    add_session(&mut d, "s1");
    d.permissions[0].state = PermissionState::Pending;
    d.permissions[0].approved = None;
    let mut first = record("s1", "snikk", None, "snikk");
    first.packages = vec![s("jq")];
    first.initial_packages = vec![s("git"), s("vim")];
    let mut n = Snapshot {
        instance: s("test"),
        sessions: vec![first, record("s2", "kid", Some("s1"), "snikk/kid")],
        permissions: d.permissions,
    };
    let mut board = Board::new();
    let p = board.draw(&n);
    assert_eq!(p.main.title, " Sandboxes [focused] ");
    assert_eq!(p.main.rows.len(), 2);
    assert_eq!(
        p.main.rows[0],
        vec![s("\u{2514}\u{2500} [-] snikk (shell)"), s(""), s("running"), s("2 startup / 1 granted")]
    );
    assert_eq!(p.main.selected, Some(0));
    assert_eq!(p.requests.title, " Requests ");
    assert_eq!(p.requests.rows[0][1..], [s("hello"), s("pending")]);
    assert_eq!(p.heights, (3, 11));
    assert!(matches!(&p.popup, Popup::Open(text, None) if text.contains("Package: hello")));
    assert!(board.decision().is_none());
    board.input(Input::Tab, &n);
    board.input(Input::Right, &n);
    let p = board.draw(&n);
    assert!(matches!(p.popup, Popup::Open(_, Some(true))));
    assert_eq!(board.decision().map(|p| p.approval.clone()), Some(s("a")));
    board.input(Input::Tab, &n);
    board.input(Input::Enter, &n);
    let p = board.draw(&n);
    assert_eq!(p.main.rows[1], vec![s("vim"), s("Startup")]);
    assert_eq!(p.main.rows[2], vec![s("jq"), s("Granted")]);
    // The place among packages that are gone is that of the last one.
    for _ in 0..4 {
        board.input(Input::Down, &n);
    }
    assert_eq!(board.draw(&n).main.selected, Some(2));
    n.sessions[0].initial_packages.truncate(1);
    assert_eq!(board.draw(&n).main.selected, Some(1));
    board.input(Input::Up, &n);
    assert_eq!(board.draw(&n).main.selected, Some(0));
    n.sessions[0].initial_packages.clear();
    n.sessions[0].packages.clear();
    assert_eq!(board.draw(&n).main.selected, None);
    n.permissions[0].state = PermissionState::Cancelled;
    assert!(matches!(board.draw(&n).popup, Popup::Finished(_)));
    assert!(board.decision().is_none());
    n.permissions.clear();
    assert!(matches!(board.draw(&n).popup, Popup::Gone));
    assert!(matches!(Board::new().draw(&n).popup, Popup::Closed));
}

fn mail(method: &str, fields: Vec<(&str, Json)>) -> Call {
    Call {
        jsonrpc: s("2.0"),
        id: None,
        method: s(method),
        params: Json::Object(fields.into_iter().map(|(k, v)| (s(k), v)).collect()),
    }
}

#[test]
fn calls_for_the_mailbox_are_directed() {
    let names = Names {
        codex: format!("{:?}", Driver::Codex).to_lowercase(),
        claude: format!("{:?}", Driver::Claude).to_lowercase(),
    };
    let mut d = daemon();
    let i = running(&mut d, "s1", "snikk", None, "snikk");
    let own = Role::Sandbox(s("s1"));
    let m = d.mail_call(&own, &names, mail("inbox.next", vec![]), SECOND).ok().unwrap();
    assert_eq!((m.actor.as_str(), m.method.as_str()), ("s1", "inbox.next"));
    assert!(!m.view.ready);
    assert_eq!(m.directory.sessions.len(), 1);
    assert!(m.directory.same(&d.message_directory()));
    let tick = |target: &str| mail("integration.status", vec![("session", Json::Text(s(target)))]);
    d.sessions[i].inheritance = Some(inheritance());
    let m = d.mail_call(&Role::Host, &names, tick("snikk"), SECOND).ok().unwrap();
    assert_eq!(m.actor, "host");
    assert_eq!(text_of(&m.params, "session"), Some("s1"));
    let gone = d.mail_call(&Role::Host, &names, tick("nobody"), SECOND);
    assert_eq!(gone.err().unwrap().0, -32004);
    d.sessions[i].inheritance = None;
    let bare = d.mail_call(&Role::Host, &names, tick("snikk"), SECOND);
    assert_eq!(bare.err().unwrap(), (-32009, s("session has no supported integration")));
    let mut k = Connection::new(9, own, SECOND);
    assert_eq!(k.handed(&RpcId::Number(4), false).err().unwrap().0, -32010);
    assert!(k.waiting.is_none());
    assert!(k.handed(&RpcId::Number(4), true).is_ok());
    assert!(matches!(&k.waiting, Some((what, RpcId::Number(4))) if what == "mailbox"));
    d.sessions[i].record.state = SessionState::Stopped;
    assert!(!m.directory.same(&d.message_directory()));
}

#[test]
fn notices_are_typed_or_deferred() {
    let result = |delivery: &str| {
        mail(
            "",
            vec![
                ("notify", Json::Bool(true)),
                ("delivery", Json::Text(s(delivery))),
                ("revision", Json::Unsigned(7)),
            ],
        )
        .params
    };
    assert_eq!(notice(&result("terminal")), Some(7));
    assert_eq!(notice(&result("notification")), None);
    assert_eq!(notice(&Json::Null), None);
    let mut v = result("terminal");
    delivered(&mut v, false);
    assert_eq!(text_of(&v, "delivery"), Some("deferred"));
    delivered(&mut v, true);
    assert_eq!(text_of(&v, "delivery"), Some("submitted"));
    assert_eq!(v.get("revision").and_then(|r| r.as_u64()), Some(7));
    let mut d = daemon();
    let i = running(&mut d, "s1", "snikk", None, "snikk");
    assert_eq!(d.notice_target("s1"), Some(i));
    assert_eq!(d.notice_target("s2"), None);
    d.sessions[i].record.state = SessionState::Stopping;
    assert_eq!(d.notice_target("s1"), None);
    let answer = mail_answer(&RpcId::Number(2), Ok(Json::Bool(true)));
    assert!(matches!(answer.get("result"), Some(Json::Bool(true))));
    let answer = mail_answer(&RpcId::Number(2), Err((-32004, s("no"))));
    assert_eq!(text_of(answer.get("error").unwrap(), "message"), Some("no"));
}

#[test]
fn requests_go_before_sessions_and_sandboxes_before_the_host() {
    let mut d = daemon();
    let i = add_session(&mut d, "s1");
    d.permissions[0].state = PermissionState::Ready;
    assert!(matches!(d.make_room(), Room::Request));
    assert!(d.permissions.is_empty());
    assert!(matches!(d.make_room(), Room::Nothing));
    let a = &mut d.sessions[i];
    a.pending = None;
    a.worker = false;
    a.record.state = SessionState::Stopped;
    a.terminal.failed_start();
    assert!(matches!(d.make_room(), Room::Session(a) if a.record.id == "s1"));
    assert!(d.sessions.is_empty());
    for (id, role) in [(1, Role::Host), (2, Role::Sandbox(s("s1"))), (3, Role::Host)] {
        d.connections.push(Connection::new(id, role, SECOND));
    }
    d.connections.push(Connection::new(4, Role::Sandbox(s("s2")), SECOND));
    assert_eq!(d.serving_order(), vec![2, 4, 1, 3]);
}

#[test]
fn a_sandbox_detaches_only_without_more_to_say() {
    let mut d = daemon();
    let i = running(&mut d, "s1", "snikk", None, "snikk");
    let mut k = Connection::new(9, Role::Sandbox(s("s1")), SECOND);
    assert_eq!(
        d.detach_own(&mut k, i).err().unwrap(),
        (-32009, s("terminal is not attached"))
    );
    assert!(!k.close && !k.dead);
    assert!(d.sessions[i].terminal.attach(b"hello".to_vec()).is_ok());
    assert!(d.detach_own(&mut k, i).is_ok());
    assert!(k.close);
    k.input = b"more".to_vec();
    assert_eq!(
        d.detach_own(&mut k, i).err().unwrap(),
        (-32600, s("unexpected trailing input"))
    );
    assert!(k.dead);
}

#[test]
fn stopping_a_tree_leaves_the_rest_alone() {
    let mut d = daemon();
    let own = running(&mut d, "s1", "snikk", None, "snikk");
    let kid = running(&mut d, "s2", "kid", Some("s1"), "snikk/kid");
    let grandkid = running(&mut d, "s3", "deep", Some("s2"), "snikk/kid/deep");
    let other = running(&mut d, "s4", "other", None, "other");
    for (k, (i, session)) in [(grandkid, "s3"), (other, "s4")].into_iter().enumerate() {
        let id = format!("r{k}");
        d.sessions[i].pending = Some(Pending {
            initial_output: None,
            id: id.clone(),
            serial: 1,
            connection: k as u64,
            cancelled: false,
        });
        let mut c = Connection::new(k as u64, Role::Sandbox(s(session)), SECOND);
        c.waiting = Some((id.clone(), RpcId::Number(7)));
        d.connections.push(c);
        add_session(&mut d, "filler");
        d.sessions.pop();
        let p = d.permissions.last_mut().unwrap();
        p.id = id;
        p.session = s(session);
        p.state = PermissionState::Pending;
    }
    let stop = ControlCall::Stop { session: s("kid"), kill_children: true };
    answered(d.control_call(own, stop));
    assert_eq!(d.sessions[own].record.state, SessionState::Running);
    assert_eq!(d.sessions[kid].record.state, SessionState::Stopping);
    assert_eq!(d.sessions[grandkid].record.state, SessionState::Stopping);
    assert_eq!(d.sessions[other].record.state, SessionState::Running);
    assert!(d.sessions[grandkid].pending.is_none() && d.sessions[other].pending.is_some());
    assert_eq!(d.permissions[0].state, PermissionState::Cancelled);
    assert_eq!(d.permissions[1].state, PermissionState::Pending);
    assert!(d.connections[0].close && !d.connections[1].close);
    let told = d.connections[0].outbox[0].get("result").unwrap();
    assert_eq!(text_of(told, "status"), Some("error"));
    assert_eq!(text_of(told, "message"), Some("session stopped"));
    assert!(d.connections[1].outbox.is_empty());
}

#[test]
fn folding_leaves_rows_out_below_their_owner() {
    let sessions = vec![
        named("kid", Some("top")),
        named("top", None),
        named("deep", Some("kid")),
        named("other", None),
    ];
    let ids = |folded: &[&str]| -> Vec<String> {
        let folded = folded.iter().map(|f| s(f)).collect();
        let rows = session_tree(&sessions, &folded);
        rows.iter().map(|r| format!("{}{}", r.prefix, sessions[r.place].id)).collect()
    };
    let all = ids(&[]);
    assert_eq!(all.len(), 4);
    assert!(all[0].ends_with("top") && all[1].ends_with("kid") && all[2].ends_with("deep"));
    assert_eq!(ids(&["kid"]), vec![all[0].clone(), all[1].clone(), all[3].clone()]);
    assert_eq!(ids(&["top"]), vec![all[0].clone(), all[3].clone()]);
}
