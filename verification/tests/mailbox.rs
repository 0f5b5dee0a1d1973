//! Inboxes: who may write to whom, how items are fetched, completed and lost, and when an
//! agent is told of them.
use goblins::courier::{MailCall, MailParams};
use goblins::directory::{Directory, Fault, Session};
use goblins::integration::{
    Answer, Delivery, Driver, Health, Integrations, Names, Observation, Params, Phase,
};
use goblins::json::Json;
use goblins::mailbox::{
    Audit, AuditError, ChangeData, Event, EventData, Limits, Mailbox, Outcome,
};
use goblins::messages::{
    read_body, Claim, Message, Mutation, Next, Reply, Requeue, Send, State,
};
use goblins::messaging::{
    log_lines, offline_log, page, page_size, route, Entry, Ledger, List, Route, Service, LOG_LIMIT,
};

const INSTANCE: &str = "0123456789abcdef0123456789abcdef";

fn s(t: &str) -> String {
    t.to_string()
}

fn absent() -> Fault {
    (-32004, s("record absent or unavailable"))
}

fn conflict() -> Fault {
    (-32009, s("stale or conflicting operation"))
}

fn capacity() -> Fault {
    (-32010, s("mailbox capacity reached"))
}

fn show(m: &Message) -> String {
    format!(
        "{} {} {}->{} ({}->{}) {:?} {:?} {} {} {:?} {} {:?}",
        m.id,
        m.conversation,
        m.sender,
        m.recipient,
        m.sender_path,
        m.recipient_path,
        m.in_reply_to,
        m.body,
        m.created_sequence,
        m.created_at,
        m.state,
        m.claim_generation,
        m.failure
    )
}

fn shown(o: &Outcome) -> String {
    match o {
        Outcome::Sent(m) => format!("sent {}", show(m)),
        Outcome::Claimed { message, claim_generation } => {
            format!("claimed {} {}", show(message), claim_generation)
        }
        Outcome::Empty => s("empty"),
        Outcome::Replied { reply, completed } => format!("replied {} {}", show(reply), completed),
        Outcome::Completed { id, state } => format!("completed {} {:?}", id, state),
        Outcome::Requeued { id, claim_generation } => format!("requeued {} {}", id, claim_generation),
    }
}

/// What an event holds of the text of messages.
fn bodies(e: &Event) -> Vec<String> {
    match &e.data {
        EventData::Changed { change: ChangeData::Accepted(m), .. } => vec![m.body.clone()],
        EventData::Changed { change: ChangeData::Replied { message, .. }, .. } => {
            vec![message.body.clone()]
        }
        _ => Vec::new(),
    }
}

#[derive(Default)]
struct MemoryAudit {
    /// The kinds of the events, and the bodies in them.
    events: Vec<(String, Vec<String>)>,
    fail: bool,
    full: bool,
}

impl Audit for MemoryAudit {
    fn append(&mut self, event: &Event, _: usize) -> Result<(), AuditError> {
        if self.fail {
            return Err(AuditError::Unavailable);
        }
        if self.full && event.kind == "message.accepted" {
            return Err(AuditError::Capacity);
        }
        self.events.push((event.kind.clone(), bodies(event)));
        Ok(())
    }
}

struct Fixture {
    mailbox: Mailbox,
    directory: Directory,
    audit: MemoryAudit,
}

fn session(id: &str, parent: Option<&str>, path: &str) -> Session {
    Session { id: s(id), parent: parent.map(s), path: s(path), running: true }
}

impl Fixture {
    fn new() -> Fixture {
        Fixture::with(Limits::default())
    }

    fn with(limits: Limits) -> Fixture {
        let sessions = vec![
            session("p", None, "chief"),
            session("c", Some("p"), "chief/scout"),
            session("g", Some("c"), "chief/scout/helper"),
            session("s", Some("p"), "chief/sibling"),
            session("x", None, "unrelated"),
            session("y", Some("x"), "unrelated/scout"),
        ];
        Fixture {
            mailbox: Mailbox::new(s(INSTANCE), limits).ok().unwrap(),
            directory: Directory { sessions },
            audit: MemoryAudit::default(),
        }
    }

    fn call(&mut self, actor: &str, command: Mutation) -> Result<Outcome, Fault> {
        self.mailbox.execute(actor, command, &self.directory, 1000, &mut self.audit)
    }

    fn try_send(&mut self, actor: &str, to: &str, key: &str, body: &str) -> Result<Message, Fault> {
        let command =
            Mutation::Send(Send { key: s(key), to: s(to), body: s(body), conversation: None });
        match self.call(actor, command)? {
            Outcome::Sent(m) => Ok(m),
            _ => panic!("not sent"),
        }
    }

    fn send(&mut self, actor: &str, to: &str, key: &str, body: &str) -> Message {
        self.try_send(actor, to, key, body).ok().unwrap()
    }

    fn fetch(&mut self, actor: &str, key: &str) -> Option<Message> {
        match self.call(actor, Mutation::Next(Next { key: s(key) })).ok().unwrap() {
            Outcome::Claimed { message, claim_generation } => {
                assert_eq!(message.claim_generation, claim_generation);
                Some(message)
            }
            Outcome::Empty => None,
            _ => panic!("not fetched"),
        }
    }

    fn next(&mut self, actor: &str, key: &str) -> Message {
        self.fetch(actor, key).unwrap()
    }

    fn complete(&mut self, actor: &str, message: &Message, key: &str) -> Result<Outcome, Fault> {
        self.call(
            actor,
            Mutation::Complete(Claim {
                key: s(key),
                message: message.id.clone(),
                claim_generation: message.claim_generation,
            }),
        )
    }

    fn reply(&mut self, actor: &str, m: &Message, key: &str, body: &str) -> Result<Outcome, Fault> {
        self.call(
            actor,
            Mutation::Reply(Reply {
                key: s(key),
                message: m.id.clone(),
                claim_generation: 1,
                body: s(body),
            }),
        )
    }

    fn stop(&mut self, id: &str) {
        for x in self.directory.sessions.iter_mut() {
            if x.id == id {
                x.running = false;
            }
        }
    }
}

#[test]
fn audit_capacity_rejects_new_work_without_freezing_existing_completion() {
    let mut f = Fixture::new();
    f.send("p", "c", "first", "finish this");
    f.audit.full = true;
    assert_eq!(f.try_send("p", "c", "second", "later").err().unwrap(), capacity());
    assert!(!f.mailbox.status("c").audit_failed);
    let claim = f.next("c", "fetch");
    assert!(f.complete("c", &claim, "complete").is_ok());
}

#[test]
fn authenticated_routing_and_private_inboxes() {
    let mut f = Fixture::new();
    let first = f.send("p", "scout", "one", "pick a number");
    assert_eq!(first.recipient, "c");
    assert_eq!(first.sender, "p");
    assert_eq!(f.send("c", "parent", "two", "ready").recipient, "p");
    assert_eq!(f.send("p", "scout/helper", "three", "nested").recipient, "g");
    for (actor, to) in
        [("c", "s"), ("c", "x"), ("c", "p/scout"), ("g", "p"), ("c", "nonexistent")]
    {
        assert_eq!(f.try_send(actor, to, "denied", "x").err().unwrap(), absent());
    }
    assert_eq!(f.mailbox.get("s", &first.id).err().unwrap(), absent());
    assert_eq!(f.mailbox.get("c", &first.id).ok().unwrap().body, "pick a number");
    assert_eq!(f.mailbox.status("s").queued, 0);
    assert_eq!(f.try_send("host", "scout", "ambiguous", "x").err().unwrap().0, -32009);
    assert_eq!(f.send("host", "chief/scout", "host", "my message").sender, "host");
}

#[test]
fn fifo_claims_and_repeated_fetch_do_not_drain_an_inbox() {
    let mut f = Fixture::new();
    let first = f.send("p", "c", "one", "first");
    let second = f.send("p", "c", "two", "second");
    let claim = f.next("c", "fetch1");
    assert_eq!(claim.id, first.id);
    assert_eq!(claim.claim_generation, 1);
    assert_eq!(show(&f.next("c", "fetch2")), show(&claim));
    assert_eq!(f.mailbox.status("c").queued, 1);
    assert!(f.complete("c", &claim, "complete1").is_ok());
    // An answer that was lost is given again.
    assert_eq!(show(&f.next("c", "fetch1")), show(&claim));
    let claim2 = f.next("c", "fetch3");
    assert_eq!(claim2.id, second.id);
    assert!(f.complete("c", &claim2, "complete2").is_ok());
    assert!(f.fetch("c", "fetch4").is_none());
}

#[test]
fn empty_fetch_retry_is_a_receipt_not_a_new_claim() {
    let mut f = Fixture::new();
    assert!(f.fetch("c", "empty").is_none());
    let sent = f.send("p", "c", "one", "arrived later");
    assert!(f.fetch("c", "empty").is_none());
    assert_eq!(f.mailbox.status("c").queued, 1);
    assert_eq!(f.next("c", "new").id, sent.id);
}

#[test]
fn duplicate_send_survives_name_reuse_and_changed_body_conflicts() {
    let mut f = Fixture::new();
    let original = f.send("p", "scout", "same", "original");
    f.stop("c");
    f.directory.sessions.push(session("replacement", Some("p"), "chief/scout"));
    assert_eq!(show(&f.send("p", "scout", "same", "original")), show(&original));
    assert_eq!(f.audit.events.len(), 1);
    assert_eq!(f.try_send("p", "scout", "same", "changed").err().unwrap(), conflict());
    assert_eq!(f.send("p", "scout", "new", "next").recipient, "replacement");
}

#[test]
fn reply_completes_original_and_is_idempotent() {
    let mut f = Fixture::new();
    let original = f.send("p", "c", "one", "50");
    let claim = f.next("c", "fetch");
    let outcome = f.reply("c", &claim, "reply", "too high").ok().unwrap();
    match &outcome {
        Outcome::Replied { reply, completed } => {
            assert_eq!(*completed, original.id);
            assert_eq!(reply.in_reply_to, Some(original.id.clone()));
            assert_eq!(reply.conversation, original.conversation);
        }
        _ => panic!("not replied"),
    }
    assert_eq!(f.mailbox.status("c").claim, None);
    assert_eq!(f.mailbox.status("p").queued, 1);
    let again = f.reply("c", &claim, "reply", "too high").ok().unwrap();
    assert_eq!(shown(&again), shown(&outcome));
    assert_eq!(f.mailbox.status("p").queued, 1);
    assert_eq!(f.audit.events.iter().filter(|e| e.0 == "message.replied").count(), 1);
    assert_eq!(f.complete("p", &claim, "wrong-recipient").err().unwrap(), absent());
}

#[test]
fn reply_to_host_uses_host_inbox_without_granting_other_inbox_access() {
    let mut f = Fixture::new();
    f.send("host", "c", "one", "my message");
    let claim = f.next("c", "fetch");
    assert!(f.reply("c", &claim, "reply", "done").is_ok());
    let host_claim = f.next("host", "fetch");
    assert_eq!(host_claim.body, "done");
    assert_eq!(host_claim.recipient, "host");
    assert!(f.complete("host", &host_claim, "done").is_ok());
}

#[test]
fn full_reply_inbox_does_not_complete_original() {
    let mut f = Fixture::with(Limits { inbox: 1, ..Limits::default() });
    f.send("p", "c", "question", "50");
    f.send("host", "p", "fill", "another task");
    let claim = f.next("c", "fetch");
    assert_eq!(f.reply("c", &claim, "reply", "too high").err().unwrap(), capacity());
    assert_eq!(f.mailbox.status("c").claim, Some(claim.id.clone()));
    let parent_claim = f.next("p", "fetch");
    assert!(f.complete("p", &parent_claim, "complete").is_ok());
    assert!(f.reply("c", &claim, "reply", "too high").is_ok());
    assert_eq!(f.mailbox.status("c").claim, None);
}

#[test]
fn requeue_invalidates_old_claim_and_replay_does_not_upgrade_it() {
    let mut f = Fixture::new();
    f.send("p", "c", "one", "work");
    let claim = f.next("c", "fetch1");
    let requeue = Mutation::Requeue(Requeue {
        key: s("recover"),
        message: claim.id.clone(),
        claim_generation: 1,
        reason: s("interrupted"),
    });
    assert!(f.call("host", requeue).is_ok());
    assert_eq!(f.complete("c", &claim, "stale").err().unwrap(), conflict());
    assert_eq!(f.next("c", "fetch1").claim_generation, 1);
    let recovered = f.next("c", "fetch2");
    assert_eq!(recovered.claim_generation, 2);
    assert!(f.complete("c", &recovered, "done").is_ok());
}

#[test]
fn recipient_exit_fails_pending_items_and_preserves_send_receipt() {
    let mut f = Fixture::new();
    let first = f.send("p", "c", "one", "first");
    let second = f.send("p", "c", "two", "second");
    f.next("c", "fetch");
    f.stop("c");
    assert!(f.mailbox.stop_recipient("c", 2000, &mut f.audit).is_ok());
    for id in [&first.id, &second.id] {
        assert_eq!(f.mailbox.get("p", id).ok().unwrap().state, State::Failed);
    }
    assert_eq!(show(&f.send("p", "c", "one", "first")), show(&first));
    assert_eq!(f.try_send("p", "c", "new", "x").err().unwrap(), absent());
    let count = f.audit.events.len();
    assert!(f.mailbox.stop_recipient("c", 3000, &mut f.audit).is_ok());
    assert_eq!(f.audit.events.len(), count);
}

#[test]
fn audit_failure_never_publishes_a_partial_reply_and_freezes_mutations() {
    let mut f = Fixture::new();
    f.send("p", "c", "one", "50");
    let claim = f.next("c", "fetch");
    f.audit.fail = true;
    assert!(f.reply("c", &claim, "reply", "correct").is_err());
    assert_eq!(f.mailbox.status("c").claim, Some(claim.id.clone()));
    assert_eq!(f.mailbox.status("p").queued, 0);
    assert!(f.mailbox.status("c").audit_failed);
    f.audit.fail = false;
    assert!(f.reply("c", &claim, "reply", "correct").is_err());
    // What was recorded before is still given again.
    assert_eq!(show(&f.next("c", "fetch")), show(&claim));
    assert_eq!(f.audit.events.len(), 2);
}

#[test]
fn capacity_reserves_fetch_and_completion_but_rejects_unbounded_empty_reads() {
    let mut f = Fixture::with(Limits { operations: 3, ..Limits::default() });
    let sent = f.send("p", "c", "one", "work"); // It takes up a fetch and a completion.
    assert_eq!(
        f.call("p", Mutation::Next(Next { key: s("empty") })).err().unwrap(),
        capacity()
    );
    let claim = f.next("c", "fetch");
    assert!(f.complete("c", &claim, "done").is_ok());
    assert_eq!(show(&f.send("p", "c", "one", "work")), show(&sent));
    assert_eq!(
        f.call("c", Mutation::Next(Next { key: s("later") })).err().unwrap(),
        capacity()
    );
}

#[test]
fn conversation_ids_do_not_confer_routing_or_visibility() {
    let mut f = Fixture::new();
    let message = f.send("p", "c", "one", "setup");
    let in_conversation = |key: &str, to: &str, body: &str| {
        Mutation::Send(Send {
            key: s(key),
            to: s(to),
            body: s(body),
            conversation: Some(message.conversation.clone()),
        })
    };
    assert_eq!(f.call("x", in_conversation("foreign", "y", "x")).err().unwrap(), absent());
    assert_eq!(f.call("c", in_conversation("sibling", "s", "x")).err().unwrap(), absent());
    match f.call("c", in_conversation("allowed", "parent", "ready")).ok().unwrap() {
        Outcome::Sent(m) => assert_eq!(m.conversation, message.conversation),
        _ => panic!("not sent"),
    }
}

#[test]
fn sender_file_contents_survive_source_deletion_and_are_audited_once() {
    let mut f = Fixture::new();
    let source = "literal $(false)\n\u{001b}[2J\n\u{1F41F}";
    let body = read_body(source.as_bytes()).ok().unwrap();
    f.send("p", "c", "file", &body);
    let claim = f.next("c", "fetch");
    assert_eq!(claim.body, source);
    assert!(f.complete("c", &claim, "done").is_ok());
    assert_eq!(f.audit.events[0].1, vec![s(source)]);
    for event in &f.audit.events[1..] {
        assert!(event.1.is_empty());
    }
}

/// The name of a driver.
fn named(d: Driver) -> String {
    format!("{d:?}").to_lowercase()
}

struct Agent {
    state: Integrations,
    inbox: Mailbox,
    log: MemoryAudit,
    view: Observation,
    now: u64,
}

fn no_params() -> Params {
    Params {
        key: None,
        driver: None,
        epoch: None,
        event: None,
        delivery: None,
        active: false,
        session: None,
    }
}

impl Agent {
    fn of(driver: Driver) -> Agent {
        let names = Names { codex: named(Driver::Codex), claude: named(Driver::Claude) };
        let mut f = Agent {
            state: Integrations::new(names),
            inbox: Mailbox::new(s(INSTANCE), Limits::default()).ok().unwrap(),
            log: MemoryAudit::default(),
            view: Observation { ready: true, ..Observation::default() },
            now: 1000,
        };
        let p = Params {
            key: Some(s("register")),
            driver: Some(named(driver)),
            ..no_params()
        };
        assert!(matches!(
            f.call("integration.register", &p),
            Ok(Answer::Registered { epoch: 1, driver: d }) if d == driver
        ));
        f
    }

    fn new() -> Agent {
        Agent::of(Driver::Codex)
    }

    fn call(&mut self, method: &str, p: &Params) -> Result<Answer, Fault> {
        self.state.call(
            "child",
            method,
            p,
            &self.view,
            self.now,
            &mut self.inbox,
            &mut self.log,
        )
    }

    fn send(&mut self) {
        let directory = Directory { sessions: vec![session("child", None, "child")] };
        let command = Mutation::Send(Send {
            key: s("send"),
            to: s("child"),
            body: s("private body"),
            conversation: None,
        });
        assert!(self.inbox.execute("host", command, &directory, self.now, &mut self.log).is_ok());
    }

    fn hook(&mut self, event: &str, active: bool) -> bool {
        self.now += 1;
        let p = Params {
            epoch: Some(1),
            key: Some(format!("hook-{}", self.now)),
            event: Some(s(event)),
            active,
            ..no_params()
        };
        match self.call("integration.check", &p) {
            Ok(Answer::Decided { decision, .. }) => decision.proceed,
            _ => panic!("not decided"),
        }
    }

    fn try_tick(&mut self, epoch: u64, delivery: Option<&str>) -> Result<Option<Delivery>, Fault> {
        let p = Params { epoch: Some(epoch), delivery: delivery.map(s), ..no_params() };
        match self.call("integration.tick", &p)? {
            Answer::Decided { decision, .. } => Ok(decision.notify.map(|n| n.0)),
            _ => panic!("not decided"),
        }
    }

    fn tick(&mut self) -> bool {
        self.try_tick(1, None).ok().unwrap().is_some()
    }

    fn health(&self) -> Health {
        self.state.status("child", self.now).unwrap().health
    }
}

#[test]
fn startup_message_wakes_after_session_start() {
    let mut f = Agent::new();
    f.hook("SessionStart", false);
    f.send();
    assert!(f.tick());
}

#[test]
fn claude_notification_delivery_does_not_require_an_insertable_composer() {
    let mut f = Agent::of(Driver::Claude);
    f.hook("SessionStart", false);
    f.send();
    f.view.ready = false;
    f.view.input += 1;
    f.view.interrupted = true;
    assert_eq!(
        f.try_tick(1, Some("notification")).ok().unwrap(),
        Some(Delivery::Notification)
    );
}

#[test]
fn notification_delivery_is_restricted_to_claude() {
    let mut f = Agent::new();
    assert_eq!(
        f.try_tick(1, Some("notification")).err().unwrap(),
        (-32602, format!("notification delivery requires {:?}", Driver::Claude))
    );
    assert!(f.try_tick(1, Some("terminal")).is_ok());
    assert!(f.try_tick(1, Some("smoke")).is_err());
}

#[test]
fn empty_stop_then_arrival_and_busy_continuation_do_not_claim() {
    let mut f = Agent::new();
    f.hook("UserPromptSubmit", false);
    assert!(!f.hook("Stop", false));
    f.send();
    assert!(f.tick());
    assert!(!f.tick());
    assert_eq!(f.inbox.status("child").queued, 1);
    assert!(f.inbox.status("child").claim.is_none());
    f.hook("UserPromptSubmit", false);
    f.now += 30001;
    assert!(!f.tick());
    assert!(f.hook("Stop", false));
    assert!(!f.hook("Stop", true));
    assert!(f.tick());
    assert!(!f
        .log
        .events
        .iter()
        .filter(|e| e.0.starts_with("integration."))
        .any(|e| !e.1.is_empty()));
}

#[test]
fn human_input_stale_epoch_unknown_screen_and_bounded_retries() {
    let mut f = Agent::new();
    f.send();
    f.view.input += 1;
    assert!(!f.tick());
    f.hook("UserPromptSubmit", false);
    f.hook("Stop", true);
    f.view.ready = false;
    assert!(!f.tick());
    f.view.ready = true;
    assert!(f.try_tick(2, None).is_err());
    for _ in 0..3 {
        assert!(f.tick());
        f.now += 30001;
    }
    assert!(!f.tick());
    assert_eq!(f.health(), Health::Stalled);
    f.now += 6000;
    assert_eq!(f.health(), Health::Degraded);
}

#[test]
fn interruption_during_stop_stays_paused_until_a_new_turn() {
    let mut f = Agent::new();
    f.send();
    f.hook("UserPromptSubmit", false);
    f.view.input += 1;
    f.view.interrupted = true;
    assert!(!f.hook("Stop", false));
    assert!(!f.tick());
    assert_eq!(f.health(), Health::Paused);
    f.hook("UserPromptSubmit", false);
    f.hook("Stop", true);
    assert!(f.tick());
}

#[test]
fn stop_defers_while_escape_could_still_be_a_human_interrupt() {
    let mut f = Agent::new();
    f.send();
    f.hook("UserPromptSubmit", false);
    f.view.input_pending = true;
    f.view.ready = false;
    assert!(!f.hook("Stop", false));
    assert!(!f.tick());
    // A whole focus report leaves what was typed as it is.
    f.view.input_pending = false;
    f.view.ready = true;
    assert!(f.tick());
}

#[test]
fn audit_failure_prevents_a_wakeup() {
    let mut f = Agent::new();
    f.send();
    f.log.fail = true;
    assert!(f.try_tick(1, None).is_err());
    assert_eq!(f.state.status("child", f.now).unwrap().attempts, 0);
    assert!(f.inbox.status("child").audit_failed);
}

#[test]
fn the_host_pauses_and_resumes() {
    let mut f = Agent::new();
    f.send();
    let p = Params { session: Some(s("child")), ..no_params() };
    let host = |f: &mut Agent, method: &str| {
        f.state.call("host", method, &p, &f.view, f.now, &mut f.inbox, &mut f.log)
    };
    assert!(host(&mut f, "integration.pause").is_ok());
    assert_eq!(f.health(), Health::Paused);
    assert!(!f.tick());
    assert!(host(&mut f, "integration.resume").is_ok());
    assert_eq!(f.state.status("child", f.now).unwrap().phase, Phase::Ready);
    assert!(f.tick());
    assert!(host(&mut f, "integration.tick").is_err());
}

#[test]
fn sessions_come_and_go_in_the_mailbox() {
    let names = Names { codex: named(Driver::Codex), claude: named(Driver::Claude) };
    let mut service = Service::new(s(INSTANCE), names).ok().unwrap();
    let mut audit = MemoryAudit::default();
    let mut directory = Directory { sessions: vec![session("a", None, "a")] };
    service.sync(&directory, 1, &mut audit);
    assert_eq!(service.known.sessions.len(), 1);
    directory.sessions[0].running = false;
    service.sync(&directory, 2, &mut audit);
    assert!(!service.known.sessions[0].running);
    service.finish(3, &mut audit);
    assert!(audit.events.len() >= 2);
    let names = Names { codex: named(Driver::Codex), claude: named(Driver::Claude) };
    assert_eq!(Service::new(s("short"), names).err().unwrap(), "invalid daemon instance");
    assert!(matches!(route("a", "integration.tick"), Route::Integration));
    assert!(matches!(route("a", "messages.send"), Route::Mutation));
}

fn entry(sequence: u64, session: &str, size: usize) -> Entry {
    Entry {
        instance: s(INSTANCE),
        sequence,
        kind: s("message.accepted"),
        actor: s("host"),
        sessions: vec![s(session)],
        parent: None,
        path: None,
        size,
    }
}

#[test]
fn the_log_is_read_in_pages() {
    let directory = Directory { sessions: vec![session("a", None, "a"), session("b", None, "b")] };
    let entries = vec![entry(1, "a", 10), entry(2, "b", 10), entry(3, "a", 10)];
    let ask = |after: u64, limit: usize, session: Option<&str>| {
        page(&entries, &directory, &List { after, limit, session: session.map(s) })
    };
    let all = ask(0, page_size(), None).ok().unwrap();
    assert_eq!(all.events, vec![0, 1, 2]);
    assert_eq!(all.cursor, 3);
    assert_eq!(all.latest, 3);
    let one = ask(1, page_size(), Some("a")).ok().unwrap();
    assert_eq!(one.events, vec![2]);
    assert_eq!(one.session, Some(s("a")));
    assert!(ask(0, page_size(), Some("zzz")).is_err());
    let mut ledger = Ledger::new();
    assert!(ledger.room(100, 0).is_ok());
    ledger.wrote(entry(1, "a", 100), 100);
    assert_eq!(ledger.bytes, 100);
    assert_eq!(ledger.room(LOG_LIMIT, 0).err().unwrap(), AuditError::Capacity);
    assert_eq!(offline_log(&entries, None).ok().unwrap(), vec![0, 1, 2]);
    let gap = vec![entry(1, "a", 10), entry(3, "a", 10)];
    assert!(offline_log(&gap, None).is_err());
}

#[test]
fn notes_hold_values() {
    let mut mailbox = Mailbox::new(s(INSTANCE), Limits::default()).ok().unwrap();
    let mut audit = MemoryAudit::default();
    let note = EventData::Note(Json::Bool(true));
    assert!(mailbox.record("a", "integration.hook", note, 1, &mut audit).is_ok());
    assert_eq!(audit.events[0].0, "integration.hook");
    assert!(Mailbox::new(s("x"), Limits::default()).is_err());
}

fn text_of<'a>(v: &'a Json, key: &str) -> Option<&'a str> {
    v.get(key).and_then(|m| m.as_str())
}

#[test]
fn answers_are_written_as_they_are_read() {
    let message = Message {
        id: s("m1"),
        conversation: s("c1"),
        sender: s("p"),
        recipient: s("child"),
        sender_path: s("chief"),
        recipient_path: s("chief/scout"),
        in_reply_to: None,
        body: s("look"),
        created_sequence: 3,
        created_at: 17,
        state: State::Claimed,
        claim_generation: 2,
        failure: None,
    };
    let v = message.value();
    assert_eq!(text_of(&v, "state"), Some("claimed"));
    assert_eq!(text_of(&v, "body"), Some("look"));
    assert_eq!(v.get("created_at").and_then(|n| n.as_u64()), Some(17));
    assert!(matches!(v.get("failure"), Some(Json::Null)));
    let claimed = Outcome::Claimed {
        message,
        claim_generation: 2,
    }
    .value();
    assert_eq!(text_of(claimed.get("message").unwrap(), "id"), Some("m1"));
    assert!(matches!(
        Outcome::Empty.value().get("message"),
        Some(Json::Null)
    ));
    let done = Outcome::Completed {
        id: s("m1"),
        state: State::Completed,
    };
    assert_eq!(text_of(&done.value(), "state"), Some("completed"));
    let event = Event {
        instance: s(INSTANCE),
        sequence: 4,
        timestamp: 9,
        kind: s("message.completed"),
        actor: s("child"),
        sessions: vec![s("child")],
        data: EventData::Changed {
            key: s("k"),
            method: s("inbox.complete"),
            change: ChangeData::Completed {
                id: s("m1"),
                claim_generation: 2,
            },
        },
    };
    let v = event.value();
    assert_eq!(text_of(&v, "kind"), Some("message.completed"));
    let data = v.get("data").unwrap();
    assert_eq!(text_of(data, "method"), Some("inbox.complete"));
    assert_eq!(text_of(data.get("change").unwrap(), "message"), Some("m1"));
    let names = Names { codex: named(Driver::Codex), claude: named(Driver::Claude) };
    let unknown = names.answer(&Answer::Standing(None));
    assert_eq!(text_of(&unknown, "health"), Some("unregistered"));
    let known = names.answer(&Answer::Registered {
        epoch: 5,
        driver: Driver::Codex,
    });
    assert_eq!(text_of(&known, "driver"), Some(names.codex.as_str()));
    assert_eq!(known.get("epoch").and_then(|n| n.as_u64()), Some(5));
}

#[test]
fn a_log_ends_where_a_line_does() {
    let lines = log_lines(b"one\n\ntwo\n").ok().unwrap();
    assert_eq!(lines, vec![b"one".to_vec(), b"two".to_vec()]);
    assert_eq!(log_lines(b"").ok().unwrap(), Vec::<Vec<u8>>::new());
    assert_eq!(log_lines(b"\n").ok().unwrap(), Vec::<Vec<u8>>::new());
    assert_eq!(
        log_lines(b"one\ntwo").err().unwrap(),
        "oversized or incomplete communications log"
    );
    assert!(log_lines(&vec![b'\n'; LOG_LIMIT + 1]).is_err());
}

/// Keeps the numbers of what it takes, and what it was asked to keep free.
#[derive(Default)]
struct Numbers {
    taken: Vec<u64>,
    reserved: Vec<usize>,
    full: bool,
}

impl Audit for Numbers {
    fn append(&mut self, event: &Event, reserved_bytes: usize) -> Result<(), AuditError> {
        self.reserved.push(reserved_bytes);
        if self.full {
            return Err(AuditError::Capacity);
        }
        self.taken.push(event.sequence);
        Ok(())
    }
}

#[test]
fn taken_events_are_numbered_without_a_gap() {
    let mut f = Fixture::new();
    let mut audit = Numbers::default();
    let send = |key: &str| {
        Mutation::Send(Send { key: s(key), to: s("c"), body: s("hi"), conversation: None })
    };
    let key = |c: &str| c.repeat(32);
    let mut call = |audit: &mut Numbers, command: Mutation| {
        f.mailbox.execute("p", command, &f.directory, 1000, audit).is_ok()
    };
    assert!(call(&mut audit, send(&key("a"))));
    audit.full = true;
    assert!(!call(&mut audit, send(&key("b"))));
    audit.full = false;
    assert!(call(&mut audit, send(&key("a"))));
    assert_eq!(audit.taken, vec![1]);
    assert!(call(&mut audit, send(&key("b"))));
    let note = EventData::Note(Json::Null);
    assert!(f.mailbox.record("p", "test.note", note, 1000, &mut audit).is_ok());
    assert!(f.mailbox.stop_recipient("c", 1000, &mut audit).is_ok());
    assert_eq!(audit.taken, vec![1, 2, 3, 4]);
    assert_eq!(audit.reserved.len(), 5);
    assert!(f.mailbox.stop_recipient("c", 1000, &mut audit).is_ok());
    assert_eq!(audit.taken.len(), 4);
}

#[test]
fn the_mailbox_answers_each_call() {
    let names = Names { codex: named(Driver::Codex), claude: named(Driver::Claude) };
    let mut service = Service::new(s(INSTANCE), names).ok().unwrap();
    let mut audit = MemoryAudit::default();
    let mut ask = |actor: &str, method: &str, p: MailParams| {
        let call = MailCall {
            actor: s(actor),
            method: s(method),
            params: Json::Null,
            directory: Fixture::new().directory,
            view: Observation::default(),
        };
        service.answer(&call, &p, 1000, &mut audit)
    };
    let text = |v: &Json, key: &str| v.get(key).and_then(|t| t.as_str()).map(s);
    let fields = |list: &[(&str, &str)]| {
        Json::Object(list.iter().map(|(k, v)| (s(k), Json::Text(s(v)))).collect())
    };
    let key = "a".repeat(32);
    let send = fields(&[("key", &key), ("to", "c"), ("body", "hi")]);
    let sent = ask("p", "messages.send", MailParams::Mutation(send, String::new())).ok().unwrap();
    assert_eq!(text(&sent, "recipient"), Some(s("c")));
    let id = text(&sent, "id").unwrap();
    let read = ask("c", "messages.get", MailParams::Message(id.clone())).ok().unwrap();
    assert_eq!(text(&read, "body"), Some(s("hi")));
    assert_eq!(ask("x", "messages.get", MailParams::Message(id)).err().unwrap(), absent());
    let inbox = ask("c", "inbox.status", MailParams::Inbox).ok().unwrap();
    assert_eq!(inbox.get("queued").and_then(|n| n.as_u64()), Some(1));
    let standing = inbox.get("integration").unwrap();
    assert_eq!(text(standing, "health"), Some(s("unregistered")));
    assert_eq!(
        ask("c", "inbox.next", MailParams::Mutation(Json::Null, s("no fields"))).err().unwrap(),
        (-32602, s("no fields"))
    );
    let inbox = ask("c", "inbox.status", MailParams::Inbox).ok().unwrap();
    assert_eq!(inbox.get("queued").and_then(|n| n.as_u64()), Some(1));
    let mut p = no_params();
    p.driver = Some(named(Driver::Codex));
    p.key = Some("b".repeat(32));
    let answer = ask("c", "integration.register", MailParams::Integration(p));
    assert_eq!(answer.ok().unwrap().get("epoch").and_then(|n| n.as_u64()), Some(1));
    assert!(service.integrations.has_epochs());
    assert_eq!(service.integrations.names().codex, named(Driver::Codex));
}

#[test]
fn pages_put_together_are_the_log() {
    let entries: Vec<Entry> =
        (1..=7).map(|n| entry(n * 2, if n % 3 == 0 { "b" } else { "a" }, 10)).collect();
    let directory = Directory { sessions: vec![session("a", None, "a"), session("b", None, "b")] };
    let mut all = Vec::new();
    let (mut after, mut pages) = (0, 0);
    loop {
        let p = List { after, limit: 2, session: Some(s("a")) };
        let page = page(&entries, &directory, &p).ok().unwrap();
        assert!(page.events.len() <= 2);
        all.extend(page.events);
        pages += 1;
        if page.cursor >= page.latest {
            break;
        }
        after = page.cursor;
    }
    assert_eq!(all, vec![0, 1, 3, 4, 6]);
    assert!(pages <= entries.len());
}

#[test]
fn what_an_agent_is_told_does_not_depend_on_bodies() {
    let told = |body: &str| {
        let names = Names { codex: named(Driver::Codex), claude: named(Driver::Claude) };
        let mut service = Service::new(s(INSTANCE), names).ok().unwrap();
        let mut audit = Lines::default();
        let directory = Fixture::new().directory;
        let send = Mutation::Send(Send {
            key: s("k"),
            to: s("c"),
            body: s(body),
            conversation: None,
        });
        let mailbox = &mut service.mailbox;
        assert!(mailbox.execute("p", send, &directory, 1, &mut audit).is_ok());
        let (view, mut p) = (Observation { ready: true, ..Observation::default() }, no_params());
        p.key = Some(s("r"));
        p.driver = Some(named(Driver::Codex));
        let mut answers = Vec::new();
        for method in ["integration.register", "integration.tick", "integration.status"] {
            let answer =
                service.integrations.call("c", method, &p, &view, 5, mailbox, &mut audit);
            let answer = service.integrations.names().answer(&answer.ok().unwrap());
            answers.push(answer.get("notify").is_some());
            p.epoch = Some(1);
        }
        audit.notes.remove(0);
        (answers, audit.notes)
    };
    let (answers, notes) = told("hello");
    assert_eq!((answers.clone(), notes.clone()), told("something else altogether"));
    assert_eq!(answers.len(), 3);
    assert_eq!(notes.len(), 2);
}

/// Keeps the kinds of the events, their numbers and what they concern.
#[derive(Default)]
struct Lines {
    notes: Vec<String>,
}

impl Audit for Lines {
    fn append(&mut self, event: &Event, reserved: usize) -> Result<(), AuditError> {
        let data = match &event.data {
            EventData::Note(Json::Object(fields)) => fields.iter().map(|f| f.0.clone()).collect(),
            _ => Vec::new(),
        };
        let (kind, sequence) = (&event.kind, event.sequence);
        self.notes.push(format!("{kind} {sequence} {:?} {reserved} {data:?}", event.sessions));
        Ok(())
    }
}

#[test]
fn sessions_are_noted_in_the_order_of_their_ids() {
    let names = Names { codex: named(Driver::Codex), claude: named(Driver::Claude) };
    let mut service = Service::new(s(INSTANCE), names).ok().unwrap();
    let mut audit = Lines::default();
    let mut directory = Directory { sessions: Vec::new() };
    for id in ["s2", "s10", "s1"] {
        directory.insert(session(id, None, id));
    }
    let ids = |d: &Directory| d.sessions.iter().map(|e| e.id.clone()).collect::<Vec<_>>();
    assert_eq!(ids(&directory), vec!["s1", "s10", "s2"]);
    service.sync(&directory, 1, &mut audit);
    directory.insert(session("s11", None, "s11"));
    directory.sessions.remove(0);
    directory.sessions.remove(2);
    service.sync(&directory, 2, &mut audit);
    assert_eq!(ids(&service.known), vec!["s1", "s10", "s11", "s2"]);
    let noted = |k: usize| audit.notes[k].contains("session.exited");
    assert_eq!(audit.notes.len(), 6);
    assert!(audit.notes[3].contains("session.started") && audit.notes[3].contains("s11"));
    assert!(noted(4) && audit.notes[4].contains("s1\"") && noted(5) && audit.notes[5].contains("s2"));
}
