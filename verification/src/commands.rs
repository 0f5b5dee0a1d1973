//! What the commands of the host do: which calls they make, what they check of the
//! answers, and what they show.
use vstd::prelude::*;

use crate::arguments::{list, put, with_between};
use crate::cli::{Command, CommandView, Steer};
use crate::client::{is_simple, session_request, simple, stop_request};
use crate::config::{member, text_at, text_member};
use crate::json::Json;
use crate::names::{is_agent_name, valid_agent_name};
use crate::params::{asking, asks, optional, Params, Request, Value};
use crate::paths::{join, joined};
use crate::plain::{ascii_chars, escaped_json};
use crate::text::{
    cut, decimal, decimal_of, holds, maybe, same, split_once, texts,
};

verus! {

/// Where a user's own runtime files go.
pub fn runtime_root(variable: &Option<String>, user: u32) -> (r: String)
    ensures
        r@ == match *variable {
            Some(p) => p@,
            None => "/run/user/"@ + decimal_of(user as nat),
        },
{
    match variable {
        Some(p) => p.clone(),
        None => {
            let mut r = String::from_str("/run/user/");
            r.push_str(&decimal(user as u64));
            r
        },
    }
}

/// Where the state of the server is: where it was said, else among the user's runtime
/// files where these exist, else in a place of its own.
pub fn state_path(said: &Option<String>, root: &str, exists: bool, user: u32) -> (r: String)
    ensures
        r@ == match *said {
            Some(p) => p@,
            None => if exists {
                joined(root@, "goblins"@)
            } else {
                "/tmp/goblins-control-"@ + decimal_of(user as nat)
            },
        },
{
    match said {
        Some(p) => p.clone(),
        None => if exists {
            join(root, "goblins")
        } else {
            let mut r = String::from_str("/tmp/goblins-control-");
            r.push_str(&decimal(user as u64));
            r
        },
    }
}

/// What commands ask for whose answer is only shown.
pub open spec fn simple_call(c: CommandView) -> Option<(Seq<char>, Seq<(Seq<char>, Value)>)> {
    match c {
        CommandView::List => Some(("sessions.list"@, Seq::empty())),
        CommandView::Stop { id_or_name, kill_children } => Some(
            (
                "sessions.stop"@,
                seq![
                    ("session"@, Value::Text(id_or_name)),
                    ("kill_children"@, Value::Flag(kill_children)),
                ],
            ),
        ),
        CommandView::Kill { id_or_name, kill_children } => Some(
            (
                "sessions.stop"@,
                seq![
                    ("session"@, Value::Text(id_or_name)),
                    ("kill_children"@, Value::Flag(kill_children)),
                ],
            ),
        ),
        CommandView::Detatch { id_or_name } => Some(
            ("sessions.detach"@, seq![("session"@, Value::Text(id_or_name))]),
        ),
        CommandView::Integration { steer, session } => Some(
            (
                match steer {
                    Steer::Status => "integration.status"@,
                    Steer::Pause => "integration.pause"@,
                    Steer::Resume => "integration.resume"@,
                },
                seq![("session"@, Value::Text(session))],
            ),
        ),
        _ => None,
    }
}

/// The call of a command whose answer is only shown.
pub fn simple_request(c: &Command) -> (r: Option<Request>)
    ensures
        match simple_call(c@) {
            Some((method, params)) => r matches Some(q) && asks(q, method, params),
            None => r is None,
        },
{
    match c {
        Command::List => Some(asking("sessions.list", Params::new())),
        Command::Stop { id_or_name, kill_children } => Some(
            stop_request(id_or_name, *kill_children),
        ),
        Command::Kill { id_or_name, kill_children } => Some(
            stop_request(id_or_name, *kill_children),
        ),
        Command::Detatch { id_or_name } => Some(session_request("sessions.detach", id_or_name)),
        Command::Integration { steer, session } => {
            let method = match steer {
                Steer::Status => "integration.status",
                Steer::Pause => "integration.pause",
                Steer::Resume => "integration.resume",
            };
            Some(session_request(method, session))
        },
        _ => None,
    }
}

/// Whether a configuration is one that a manifest offers.
pub fn check_configuration(names: &Vec<String>, config: &str) -> (r: Result<(), String>)
    ensures
        if texts(names@).contains(config@) {
            r is Ok
        } else {
            r matches Err(e) && e@ == "unknown configuration '"@ + config@ + "'; available: "@
                + with_between(texts(names@), ", "@)
        },
{
    if holds(names, config) {
        return Ok(());
    }
    let mut e = String::from_str("unknown configuration '");
    e.push_str(config);
    e.push_str("'; available: ");
    e.push_str(&list(names, ", "));
    Err(e)
}

/// What a session is started with from the host.
pub struct Start {
    pub key: String,
    pub configuration: String,
    pub name: String,
    pub agent_name: Option<String>,
    pub parent: Option<String>,
    pub detached: bool,
    pub cwd: String,
    pub rows: u16,
    pub cols: u16,
}

/// A size of a terminal is at least one.
pub open spec fn at_least_one(n: u16) -> nat {
    if n == 0 {
        1
    } else {
        n as nat
    }
}

pub open spec fn start_params(s: Start) -> Seq<(Seq<char>, Value)> {
    seq![
        ("key"@, Value::Text(s.key@)),
        ("configuration"@, Value::Text(s.configuration@)),
        ("name"@, Value::Text(s.name@)),
        ("agent_name"@, optional(maybe(s.agent_name))),
        ("parent"@, optional(maybe(s.parent))),
        ("detached"@, Value::Flag(s.detached)),
        ("cwd"@, Value::Text(s.cwd@)),
        ("rows"@, Value::Number(at_least_one(s.rows))),
        ("cols"@, Value::Number(at_least_one(s.cols))),
    ]
}

fn size(n: u16) -> (r: u64)
    ensures
        r == at_least_one(n),
{
    if n == 0 {
        1
    } else {
        n as u64
    }
}

/// The call that starts a session from the host.
pub fn start_request(s: &Start) -> (r: Request)
    ensures
        asks(r, "sessions.start"@, start_params(*s)),
{
    let p = Params::new().text("key", &s.key).text("configuration", &s.configuration).text(
        "name",
        &s.name,
    ).maybe("agent_name", &s.agent_name).maybe("parent", &s.parent).flag("detached", s.detached).text(
        "cwd",
        &s.cwd,
    ).number("rows", size(s.rows)).number("cols", size(s.cols));
    assert(p@ =~= start_params(*s));
    asking("sessions.start", p)
}

/// Whether the daemon is the one that is expected, where one is.
pub fn check_instance(expected: &Option<String>, instance: &str) -> (r: Result<(), String>)
    ensures
        if expected matches Some(e) && e@ != instance@ {
            r matches Err(e) && e@ == "daemon instance changed; cannot attach"@
        } else {
            r is Ok
        },
{
    match expected {
        Some(e) => if !same(e, instance) {
            Err(String::from_str("daemon instance changed; cannot attach"))
        } else {
            Ok(())
        },
        None => Ok(()),
    }
}

/// The session and the terminal of a record. Where a daemon was expected, names that can
/// be given to another session do not count.
pub open spec fn attachment_of(exact: bool, session: Seq<char>, record: Json) -> Result<
    (Seq<char>, Seq<char>),
    Seq<char>,
> {
    if exact && text_at(record, "id"@) != Some(session) {
        Err("session identity mismatch"@)
    } else {
        match (text_at(record, "id"@), text_at(record, "terminal"@)) {
            (None, _) => Err("missing session ID"@),
            (_, None) => Err("missing terminal path"@),
            (Some(id), Some(path)) => Ok((id, path)),
        }
    }
}

/// The session and the terminal of a record.
pub fn attachment(exact: bool, session: &str, record: &Json) -> (r: Result<
    (String, String),
    String,
>)
    ensures
        match attachment_of(exact, session@, *record) {
            Ok((id, path)) => r matches Ok((a, b)) && a@ == id && b@ == path,
            Err(text) => r matches Err(e) && e@ == text,
        },
{
    let id = text_member(record, "id");
    if exact {
        let fits = match id {
            Some(t) => same(t, session),
            None => false,
        };
        if !fits {
            return Err(String::from_str("session identity mismatch"));
        }
    }
    match (id, text_member(record, "terminal")) {
        (None, _) => Err(String::from_str("missing session ID")),
        (_, None) => Err(String::from_str("missing terminal path")),
        (Some(a), Some(b)) => Ok((String::from_str(a), String::from_str(b))),
    }
}

/// Whether a terminal let itself be attached to.
pub fn check_hello(hello: &Json) -> (r: Result<(), String>)
    ensures
        if crate::json::lookup(hello.fields(), "error"@) is Some {
            r matches Err(e) && e@ == crate::client::text_or(
                member(*hello, "error"@),
                "message"@,
                "attachment rejected"@,
            )
        } else if member(member(*hello, "result"@), "attached"@) == Json::Bool(true) {
            r is Ok
        } else {
            r matches Err(e) && e@ == "invalid terminal handshake"@
        },
{
    match hello.get("error") {
        Some(error) => {
            return match text_member(error, "message") {
                Some(t) => Err(String::from_str(t)),
                None => Err(String::from_str("attachment rejected")),
            };
        },
        None => {},
    }
    let attached = match hello.get("result") {
        Some(result) => match result.get("attached") {
            Some(Json::Bool(b)) => *b,
            _ => false,
        },
        None => false,
    };
    if !attached {
        return Err(String::from_str("invalid terminal handshake"));
    }
    Ok(())
}

/// How far the log of messages was followed: of which session and daemon, up to where.
pub struct Follow {
    pub session: Option<String>,
    pub cursor: u64,
    pub instance: Option<String>,
}

/// What a page of the log comes to: where it ends and where the log does.
pub open spec fn page_of(page: Json) -> Result<(u64, u64), Seq<char>> {
    if !(member(page, "events"@) is Array) {
        Err("invalid communications page"@)
    } else {
        match (member(page, "cursor"@), member(page, "latest"@)) {
            (Json::Unsigned(cursor), Json::Unsigned(latest)) => Ok((cursor, latest)),
            (Json::Unsigned(_), _) => Err("invalid communications sequence"@),
            _ => Err("invalid communications cursor"@),
        }
    }
}

/// A number of an object, where it has one.
fn number_member(v: &Json, key: &str) -> (r: Option<u64>)
    ensures
        match member(*v, key@) {
            Json::Unsigned(n) => r == Some(n),
            _ => r is None,
        },
{
    match v.get(key) {
        Some(x) => x.as_u64(),
        None => None,
    }
}

impl Follow {
    /// A log that is followed from its start.
    pub fn new(session: Option<String>) -> (r: Follow)
        ensures
            r.session == session,
            r.cursor == 0,
            r.instance is None,
    {
        Follow { session, cursor: 0, instance: None }
    }

    /// Takes in which daemon answers: the log of one is not continued with another's.
    pub fn connected(&mut self, instance: &str) -> (r: Result<(), String>)
        ensures
            if old(self).instance matches Some(i) && i@ != instance@ {
                r matches Err(e) && e@
                    == "daemon instance changed; choose the intended log explicitly"@
                    && *final(self) == *old(self)
            } else {
                r is Ok && maybe(final(self).instance) == Some(instance@) && *final(self) == (Follow {
                    instance: final(self).instance,
                    ..*old(self)
                })
            },
    {
        match &self.instance {
            Some(i) => {
                if !same(i, instance) {
                    return Err(
                        String::from_str(
                            "daemon instance changed; choose the intended log explicitly",
                        ),
                    );
                }
            },
            None => {},
        }
        self.instance = Some(String::from_str(instance));
        Ok(())
    }

    /// The call for the next page.
    pub fn request(&self) -> (r: Request)
        ensures
            asks(
                r,
                "communications.list"@,
                seq![
                    ("session"@, optional(maybe(self.session))),
                    ("after"@, Value::Number(self.cursor as nat)),
                ],
            ),
    {
        let p = Params::new().maybe("session", &self.session).number("after", self.cursor);
        assert(p@ =~= seq![
            ("session"@, optional(maybe(self.session))),
            ("after"@, Value::Number(self.cursor as nat)),
        ]);
        asking("communications.list", p)
    }

    /// Takes in a page: whether the log ends with it.
    pub fn advance(&mut self, page: &Json) -> (r: Result<bool, String>)
        ensures
            match page_of(*page) {
                Ok((cursor, latest)) => r matches Ok(b) && b == (cursor >= latest)
                    && final(self).cursor == cursor && maybe(final(self).session) == text_at(
                    *page,
                    "session"@,
                ) && final(self).instance == old(self).instance,
                Err(text) => r matches Err(e) && e@ == text && *final(self) == *old(self),
            },
    {
        match page.get("events") {
            Some(Json::Array(_)) => {},
            _ => {
                return Err(String::from_str("invalid communications page"));
            },
        }
        let cursor = match number_member(page, "cursor") {
            Some(n) => n,
            None => {
                return Err(String::from_str("invalid communications cursor"));
            },
        };
        let latest = match number_member(page, "latest") {
            Some(n) => n,
            None => {
                return Err(String::from_str("invalid communications sequence"));
            },
        };
        self.session =
        match text_member(page, "session") {
            Some(t) => Some(String::from_str(t)),
            None => None,
        };
        self.cursor = cursor;
        Ok(cursor >= latest)
    }
}

/// A line that shows an event: its number, its kind, and in plain characters who did it
/// and what.
pub fn event_line(sequence: &str, kind: &Option<String>, actor: &str, data: &str) -> (r: String)
    ensures
        r@ == sequence@ + " "@ + (match *kind {
            Some(k) => k@,
            None => "unknown"@,
        }) + " "@ + ascii_chars(actor@) + " "@ + ascii_chars(data@),
{
    let mut r = String::from_str(sequence);
    r.push_str(" ");
    match kind {
        Some(k) => r.push_str(k),
        None => r.push_str("unknown"),
    }
    r.push_str(" ");
    r.push_str(&escaped_json(actor));
    r.push_str(" ");
    r.push_str(&escaped_json(data));
    r
}

/// The name of a session that is live, where it can be shown.
pub open spec fn live_name(record: Json) -> Option<Seq<char>> {
    let state = text_at(record, "state"@);
    match text_at(record, "agent_name"@) {
        Some(name) => if (state == Some("starting"@) || state == Some("running"@) || state == Some(
            "stopping"@,
        )) && is_agent_name(name) {
            Some(name)
        } else {
            None
        },
        None => None,
    }
}

pub open spec fn names_in(records: Seq<Json>) -> Seq<Seq<char>>
    decreases records.len(),
{
    if records.len() == 0 {
        Seq::empty()
    } else {
        let most = names_in(records.drop_last());
        match live_name(records.last()) {
            Some(n) => most.push(n),
            None => most,
        }
    }
}

fn name_of(record: &Json) -> (r: Option<String>)
    ensures
        maybe(r) == live_name(*record),
{
    let live = match text_member(record, "state") {
        Some(s) => same(s, "starting") || same(s, "running") || same(s, "stopping"),
        None => false,
    };
    match text_member(record, "agent_name") {
        Some(name) => if live && valid_agent_name(name) {
            Some(String::from_str(name))
        } else {
            None
        },
        None => None,
    }
}

/// The names that are offered where a session is completed.
pub fn live_names(records: &Json) -> (r: Vec<String>)
    ensures
        texts(r@) == match *records {
            Json::Array(items) => names_in(items@),
            _ => Seq::empty(),
        },
{
    let mut r: Vec<String> = Vec::new();
    assert(texts(r@) =~= Seq::empty());
    match records {
        Json::Array(items) => {
            let mut k: usize = 0;
            assert(items@.take(0) =~= Seq::empty());
            while k < items.len()
                invariant
                    k <= items@.len(),
                    *records == Json::Array(*items),
                    texts(r@) == names_in(items@.take(k as int)),
                decreases items@.len() - k,
            {
                assert(items@.take(k + 1).drop_last() =~= items@.take(k as int));
                match name_of(&items[k]) {
                    Some(n) => put(&mut r, &n),
                    None => {},
                }
                k += 1;
            }
            assert(items@.take(k as int) =~= items@);
        },
        _ => {},
    }
    r
}

/// The keys of configurations can stand in a script: none is empty or holds more than
/// letters, digits, underscores and hyphens.
pub open spec fn are_keys(names: Seq<Seq<char>>) -> bool {
    forall|i: int| 0 <= i < names.len() ==> (#[trigger] names[i]).len() > 0 && is_simple(names[i])
}

/// Whether the keys of configurations can stand in a script.
pub fn check_keys(names: &Vec<String>) -> (r: Result<(), String>)
    ensures
        if are_keys(texts(names@)) {
            r is Ok
        } else {
            r matches Err(e) && e@ == "completion configuration keys must be simple identifiers"@
        },
{
    let ghost t = texts(names@);
    let mut k: usize = 0;
    while k < names.len()
        invariant
            k <= names@.len(),
            t == texts(names@),
            forall|i: int| 0 <= i < k ==> (#[trigger] t[i]).len() > 0 && is_simple(t[i]),
        decreases names@.len() - k,
    {
        assert(t[k as int] == names@[k as int]@);
        let empty = crate::text::chars(&names[k]).len() == 0;
        if empty || !simple(&names[k]) {
            return Err(
                String::from_str("completion configuration keys must be simple identifiers"),
            );
        }
        k += 1;
    }
    Ok(())
}

/// A script with more at the start of the function that completes.
pub open spec fn hooked(script: Seq<char>, hook: Seq<char>) -> Option<Seq<char>> {
    match cut(script, "_goblins() {"@) {
        Some((before, after)) => Some(before + "_goblins() {"@ + hook + after),
        None => None,
    }
}

/// A script with more at the start of the function that completes: names are offered where
/// they belong, before anything else is.
pub fn hook_script(script: &str, hook: &str) -> (r: Result<String, String>)
    ensures
        match hooked(script@, hook@) {
            Some(s) => r matches Ok(t) && t@ == s,
            None => r matches Err(e) && e@ == "unexpected shell completion function"@,
        },
{
    match split_once(script, "_goblins() {") {
        Some((before, after)) => {
            let mut r = before;
            r.push_str("_goblins() {");
            r.push_str(hook);
            r.push_str(&after);
            Ok(r)
        },
        None => Err(String::from_str("unexpected shell completion function")),
    }
}

/// What is said of the server, and whether it runs.
pub fn server_status(
    answer: &Option<(Option<String>, String, String)>,
    locked: bool,
) -> (r: (String, i32))
    ensures
        match *answer {
            Some((state, instance, sessions)) => r.1 == 0 && r.0@ == "Server "@ + (match state {
                Some(s) => s@,
                None => "unknown"@,
            }) + " ("@ + instance@ + ") \u{b7} "@ + sessions@ + " live agents"@,
            None => r.1 == 1 && r.0@ == if locked {
                "Server starting or stopping (not accepting connections)"@
            } else {
                "Server stopped"@
            },
        },
{
    match answer {
        Some((state, instance, sessions)) => {
            let mut s = String::from_str("Server ");
            match state {
                Some(t) => s.push_str(t),
                None => s.push_str("unknown"),
            }
            s.push_str(" (");
            s.push_str(instance);
            s.push_str(") \u{b7} ");
            s.push_str(sessions);
            s.push_str(" live agents");
            (s, 0)
        },
        None => if locked {
            (String::from_str("Server starting or stopping (not accepting connections)"), 1)
        } else {
            (String::from_str("Server stopped"), 1)
        },
    }
}

/// What is done while a server starts: a daemon that answers counts, one that ended does
/// not come any more.
pub fn server_starting(exited: bool, answers: bool, expired: bool, status: &str) -> (r: Result<
    bool,
    String,
>)
    ensures
        if exited {
            r matches Err(e) && e@ == "server exited during startup ("@ + status@
                + "); see 'goblins server logs'"@
        } else if answers {
            r matches Ok(true)
        } else if expired {
            r matches Err(e) && e@ == "server startup did not complete; see 'goblins server logs'"@
        } else {
            r matches Ok(false)
        },
{
    if exited {
        let mut e = String::from_str("server exited during startup (");
        e.push_str(status);
        e.push_str("); see 'goblins server logs'");
        return Err(e);
    }
    if answers {
        return Ok(true);
    }
    if expired {
        return Err(
            String::from_str("server startup did not complete; see 'goblins server logs'"),
        );
    }
    Ok(false)
}

/// Whether a log of the server can be used: it is a private regular file of the user.
pub fn check_log(file: bool, owner: u32, user: u32, mode: u32) -> (r: Result<(), String>)
    ensures
        if file && owner == user && mode & 0o077 == 0 {
            r is Ok
        } else {
            r matches Err(e) && e@ == "server log must be a private regular file owned by you"@
        },
{
    if !file || owner != user || mode & 0o077 != 0 {
        return Err(String::from_str("server log must be a private regular file owned by you"));
    }
    Ok(())
}

/// Every session that is live is offered by its name.
pub proof fn every_live_session_is_offered(records: Seq<Json>, picked: Seq<char>)
    ensures
        names_in(records).contains(picked) <==> exists|i: int|
            0 <= i < records.len() && live_name((#[trigger] records[i])) == Some(picked),
        names_in(records).len() == records.filter(|x: Json| live_name(x) is Some).len(),
    decreases records.len(),
{
    reveal(Seq::filter);
    if records.len() > 0 {
        let most = records.drop_last();
        every_live_session_is_offered(most, picked);
        let before = names_in(most);
        let now = names_in(records);
        assert(forall|i: int| 0 <= i < most.len() ==> records[i] == #[trigger] most[i]);
        if now.contains(picked) {
            let a = choose|a: int| 0 <= a < now.len() && now[a] == picked;
            if a < before.len() {
                assert(before[a] == picked);
                assert(before.contains(picked));
                let i = choose|i: int| 0 <= i < most.len()
                    && live_name((#[trigger] most[i])) == Some(picked);
                assert(live_name(records[i]) == Some(picked));
            } else {
                assert(live_name(records[records.len() - 1]) == Some(picked));
            }
        }
        if exists|i: int| 0 <= i < records.len() && live_name((#[trigger] records[i]))
            == Some(picked) {
            let i = choose|i: int| 0 <= i < records.len()
                && live_name((#[trigger] records[i])) == Some(picked);
            if i < most.len() {
                assert(most[i] == records[i]);
                assert(before.contains(picked));
                let a = choose|a: int| 0 <= a < before.len() && before[a] == picked;
                assert(now[a] == picked);
            } else {
                assert(now[now.len() - 1] == picked);
            }
        }
    }
}

} // verus!
