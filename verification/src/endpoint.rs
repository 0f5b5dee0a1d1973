//! Who may call what: the endpoint of the host, and that of each sandbox.
use vstd::prelude::*;

use crate::connection::{Connection, Role};
use crate::control::{lemma_kin, lemma_update_kin};
use crate::controller::{
    below, is_missing, is_stale, maybe_str, meant, place, Active, Controller, HOSTS,
};
use crate::directory::{fault, is_fault, Fault};
use crate::integration::{driver_of, Names, NamesView};
use crate::json::Json;
use crate::messages::MAX_REQUEST;
use crate::permissions::connection_place;
use crate::records::{PermissionRecord, SessionState};
use crate::rpc::{start, Decoder, TIMEOUT};
use crate::terminal::{countable, kept_size, TerminalView};
use crate::text::{decimal, decimal_of, maybe, places, same, starts_with};

verus! {

/// How long, in nanoseconds, the end waits for its own answer to be read.
pub const SHUTDOWN_GRACE: u64 = 1_000_000_000;

/// What a call is about.
#[derive(Clone, Copy, Debug, PartialEq, Eq, Structural)]
pub enum Route {
    /// A notification: nothing is done, and nothing answered.
    Ignore,
    Initialize,
    Messaging,
    Host,
    /// The caller's own terminal lets its consumer go.
    Detach,
    /// The connection becomes the consumer of a terminal.
    Attach,
    /// The caller's own subtree.
    Control,
    Permission,
}

pub open spec fn is_messaging(method: Seq<char>) -> bool {
    ||| "integration."@.is_prefix_of(method)
    ||| method == "messages.send"@
    ||| method == "messages.get"@
    ||| method == "messages.reply"@
    ||| method == "inbox.next"@
    ||| method == "inbox.status"@
    ||| method == "inbox.complete"@
    ||| method == "inbox.requeue"@
    ||| method == "communications.list"@
}

/// The most bytes of a call that is not about messages.
pub open spec fn frame_limit(role: Role) -> nat {
    match role {
        Role::Host => 16384,
        Role::Sandbox(_) => 4096,
    }
}

/// The session of an endpoint runs and has a worker.
pub open spec fn in_service(c: Controller, id: Seq<char>) -> bool {
    place(c.sessions@, id) matches Some(i) && c.sessions@[i].record.state == SessionState::Running
        && c.sessions@[i].worker
}

/// What a call over a connection is about, or why it is refused.
pub open spec fn routed(c: Controller, k: Connection, has_id: bool, method: Seq<char>) -> Result<
    Route,
    (int, Seq<char>),
> {
    if !has_id {
        Ok(Route::Ignore)
    } else if !is_messaging(method) && k.body_bytes > frame_limit(k.role) {
        Err((-32602, "request exceeds method frame limit"@))
    } else if method == "initialize"@ {
        Ok(Route::Initialize)
    } else if !k.initialized {
        Err((-32001, "initialize first"@))
    } else if is_messaging(method) {
        if c.shutdown is Some {
            Err(is_stale())
        } else if method == "communications.list"@ && k.role is Sandbox {
            Err((-32601, "method unavailable on sandbox endpoint"@))
        } else {
            Ok(Route::Messaging)
        }
    } else {
        match k.role {
            Role::Host => Ok(Route::Host),
            Role::Sandbox(session) => if c.shutdown is Some || !in_service(c, session@) {
                Err(is_stale())
            } else if method == "sessions.detach"@ {
                Ok(Route::Detach)
            } else if method == "sessions.attach"@ {
                Ok(Route::Attach)
            } else if method == "permissions.request"@ {
                Ok(Route::Permission)
            } else {
                Ok(Route::Control)
            },
        }
    }
}

/// Whether a method is about messages.
pub fn messaging(method: &str) -> (r: bool)
    ensures
        r == is_messaging(method@),
{
    starts_with(method, "integration.") || same(method, "messages.send") || same(
        method,
        "messages.get",
    ) || same(method, "messages.reply") || same(method, "inbox.next") || same(
        method,
        "inbox.status",
    ) || same(method, "inbox.complete") || same(method, "inbox.requeue") || same(
        method,
        "communications.list",
    )
}

/// A method of the host's endpoint.
#[derive(Clone, Copy, Debug, PartialEq, Eq, Structural)]
pub enum HostMethod {
    ServerStatus,
    ServerStop,
    SessionsList,
    SessionsGet,
    SessionsStart,
    SessionsStop,
    SessionsDetach,
    SessionsResize,
    PermissionsList,
    PermissionsGet,
    PermissionsDecide,
    Subscribe,
    Unsubscribe,
}

pub open spec fn host_method_of(method: Seq<char>) -> Option<HostMethod> {
    if method == "server.status"@ {
        Some(HostMethod::ServerStatus)
    } else if method == "server.stop"@ {
        Some(HostMethod::ServerStop)
    } else if method == "sessions.list"@ {
        Some(HostMethod::SessionsList)
    } else if method == "sessions.get"@ {
        Some(HostMethod::SessionsGet)
    } else if method == "sessions.start"@ {
        Some(HostMethod::SessionsStart)
    } else if method == "sessions.stop"@ {
        Some(HostMethod::SessionsStop)
    } else if method == "sessions.detach"@ {
        Some(HostMethod::SessionsDetach)
    } else if method == "sessions.resize"@ {
        Some(HostMethod::SessionsResize)
    } else if method == "permissions.list"@ {
        Some(HostMethod::PermissionsList)
    } else if method == "permissions.get"@ {
        Some(HostMethod::PermissionsGet)
    } else if method == "permissions.decide"@ {
        Some(HostMethod::PermissionsDecide)
    } else if method == "state.subscribe"@ {
        Some(HostMethod::Subscribe)
    } else if method == "state.unsubscribe"@ {
        Some(HostMethod::Unsubscribe)
    } else {
        None
    }
}

/// What the host may call now: at the end nothing but after the end itself.
pub open spec fn host_routed(c: Controller, method: Seq<char>) -> Result<
    HostMethod,
    (int, Seq<char>),
> {
    if c.shutdown is Some && method != "server.status"@ && method != "server.stop"@ {
        Err((-32009, "server is stopping"@))
    } else {
        match host_method_of(method) {
            Some(m) => Ok(m),
            None => Err((-32601, "method unavailable on host endpoint"@)),
        }
    }
}

/// A method of a sandbox's endpoint, on the caller's own subtree.
#[derive(Clone, Copy, Debug, PartialEq, Eq, Structural)]
pub enum ControlMethod {
    Status,
    Resize,
    List,
    Get,
    Start,
    Stop,
}

pub open spec fn control_method_of(method: Seq<char>) -> Option<ControlMethod> {
    if method == "sessions.status"@ {
        Some(ControlMethod::Status)
    } else if method == "sessions.resize"@ {
        Some(ControlMethod::Resize)
    } else if method == "sessions.list"@ {
        Some(ControlMethod::List)
    } else if method == "sessions.get"@ {
        Some(ControlMethod::Get)
    } else if method == "sessions.start"@ {
        Some(ControlMethod::Start)
    } else if method == "sessions.stop"@ {
        Some(ControlMethod::Stop)
    } else {
        None
    }
}

/// The method that a session calls on its own subtree.
pub fn sandbox_control(method: &str) -> (r: Result<ControlMethod, Fault>)
    ensures
        match control_method_of(method@) {
            Some(m) => r == Ok::<ControlMethod, Fault>(m),
            None => is_fault(r, (-32601int, "method unavailable on sandbox endpoint"@)),
        },
{
    if same(method, "sessions.status") {
        Ok(ControlMethod::Status)
    } else if same(method, "sessions.resize") {
        Ok(ControlMethod::Resize)
    } else if same(method, "sessions.list") {
        Ok(ControlMethod::List)
    } else if same(method, "sessions.get") {
        Ok(ControlMethod::Get)
    } else if same(method, "sessions.start") {
        Ok(ControlMethod::Start)
    } else if same(method, "sessions.stop") {
        Ok(ControlMethod::Stop)
    } else {
        Err((-32601, String::from_str("method unavailable on sandbox endpoint")))
    }
}

/// What a host endpoint, or a sandbox's, can do.
pub open spec fn feature_names(role: Role) -> Seq<Seq<char>> {
    match role {
        Role::Host => seq![
            "docker-scopes"@,
            "docker-enable"@,
            "package-grants"@,
            "same-daemon-reconnect"@,
            "state-subscribe"@,
            "raw-terminal"@,
            "agent-names"@,
            "server-control"@,
            "terminal-reattach"@,
            "agent-inbox-v1"@,
            "agent-integration-v1"@,
            "communications-log-v1"@,
        ],
        Role::Sandbox(_) => seq![
            "docker-scopes"@,
            "docker-enable"@,
            "package-grants"@,
            "terminal-detach"@,
            "subtree-control"@,
            "subtree-terminal"@,
            "sandbox-status"@,
            "agent-inbox-v1"@,
            "agent-integration-v1"@,
        ],
    }
}

/// What a host endpoint, or a sandbox's, can do.
pub fn features(role: &Role) -> (r: Vec<&'static str>)
    ensures
        crate::names::said(r@) == feature_names(*role),
{
    match role {
        Role::Host => {
            let r = vec![
                "docker-scopes",
                "docker-enable",
                "package-grants",
                "same-daemon-reconnect",
                "state-subscribe",
                "raw-terminal",
                "agent-names",
                "server-control",
                "terminal-reattach",
                "agent-inbox-v1",
                "agent-integration-v1",
                "communications-log-v1",
            ];
            assert(crate::names::said(r@) =~= feature_names(*role));
            r
        },
        Role::Sandbox(_) => {
            let r = vec![
                "docker-scopes",
                "docker-enable",
                "package-grants",
                "terminal-detach",
                "subtree-control",
                "subtree-terminal",
                "sandbox-status",
                "agent-inbox-v1",
                "agent-integration-v1",
            ];
            assert(crate::names::said(r@) =~= feature_names(*role));
            r
        },
    }
}

impl Connection {
    /// Opens a connection for a version of the interface.
    pub fn initialize(&mut self, api: u32, now: u64) -> (r: Result<(), Fault>)
        requires
            old(self).wf(),
        ensures
            final(self).wf(),
            if old(self).initialized {
                is_fault(r, is_stale()) && *final(self) == *old(self)
            } else if api != 1 {
                is_fault(r, (-32002int, "unsupported Goblins API"@)) && *final(self) == *old(self)
            } else {
                &&& r is Ok
                &&& final(self).decoder.progress() == start()
                &&& final(self).decoder.limit() == MAX_REQUEST
                &&& final(self).decoder.deadline() == match old(self).role {
                    Role::Host => None,
                    Role::Sandbox(_) => Some(now + TIMEOUT),
                }
                &&& *final(self) == (Connection {
                    initialized: true,
                    decoder: final(self).decoder,
                    ..*old(self)
                })
            },
    {
        if self.initialized {
            return Err((-32009, String::from_str("stale or conflicting operation")));
        }
        if api != 1 {
            return Err((-32002, String::from_str("unsupported Goblins API")));
        }
        self.initialized = true;
        self.decoder =
        if self.role.is_host() {
            Decoder::new(MAX_REQUEST, None)
        } else {
            Decoder::new(MAX_REQUEST, Some(now))
        };
        Ok(())
    }

    /// Nothing may follow a call that ends the framed exchange: what does ends the connection.
    pub fn check_trailing(&mut self) -> (r: Result<(), Fault>)
        requires
            old(self).wf(),
        ensures
            final(self).wf(),
            if old(self).input@.len() > 0 {
                &&& is_fault(r, (-32600int, "unexpected trailing input"@))
                &&& *final(self) == (Connection { dead: true, ..*old(self) })
            } else {
                r is Ok && *final(self) == *old(self)
            },
    {
        if self.input.len() > 0 {
            self.dead = true;
            return Err((-32600, String::from_str("unexpected trailing input")));
        }
        Ok(())
    }

    /// A connection becomes a terminal's only when nothing is on its way in either
    /// direction, so that no frame is taken for keys.
    pub fn check_upgrade(&self) -> (r: Result<(), Fault>)
        ensures
            if self.input@.len() > 0 || self.output@.len() > 0 {
                is_fault(r, (-32600int, "unexpected pipelined input"@))
            } else {
                r is Ok
            },
    {
        if self.input.len() > 0 || self.output.len() > 0 {
            return Err((-32600, String::from_str("unexpected pipelined input")));
        }
        Ok(())
    }

    /// Ends a subscription of that name.
    pub fn unsubscribe(&mut self, subscription: &str) -> (r: Result<(), Fault>)
        requires
            old(self).wf(),
        ensures
            final(self).wf(),
            if maybe(old(self).subscription) == Some(subscription@) {
                r is Ok && *final(self) == (Connection { subscription: None, ..*old(self) })
            } else {
                is_fault(r, is_stale()) && *final(self) == *old(self)
            },
    {
        let known = match &self.subscription {
            Some(s) => same(s.as_str(), subscription),
            None => false,
        };
        if !known {
            return Err((-32009, String::from_str("stale or conflicting operation")));
        }
        self.subscription = None;
        Ok(())
    }
}

/// The requests, among the first `k`, of a session and in a state, where these are given.
pub open spec fn filtered(
    p: Seq<PermissionRecord>,
    session: Option<Seq<char>>,
    state: Option<Seq<char>>,
    k: nat,
) -> Seq<int>
    decreases k,
{
    if k == 0 {
        Seq::empty()
    } else {
        let before = filtered(p, session, state, (k - 1) as nat);
        let r = p[k - 1];
        if (session matches Some(s) ==> s == r.session@) && (state matches Some(s) ==> s
            == r.state.text()) {
            before.push(k - 1)
        } else {
            before
        }
    }
}

/// What is filtered stands among the requests.
pub proof fn lemma_filtered(
    p: Seq<PermissionRecord>,
    session: Option<Seq<char>>,
    state: Option<Seq<char>>,
    k: nat,
)
    requires
        k <= p.len(),
    ensures
        forall|j: int|
            0 <= j < filtered(p, session, state, k).len() ==> 0 <= #[trigger] filtered(
                p,
                session,
                state,
                k,
            )[j] < k,
    decreases k,
{
    if k > 0 {
        lemma_filtered(p, session, state, (k - 1) as nat);
        let before = filtered(p, session, state, (k - 1) as nat);
        let all = filtered(p, session, state, k);
        assert forall|j: int| 0 <= j < all.len() implies 0 <= #[trigger] all[j] < k by {
            if j < before.len() {
                assert(all[j] == before[j]);
            }
        }
    }
}

/// What comes of giving the terminal of a session a size.
pub open spec fn resizing(
    c: Controller,
    d: Controller,
    i: int,
    rows: u16,
    cols: u16,
    r: Result<Option<(u16, u16)>, Fault>,
) -> bool {
    if 1 <= rows <= 1000 && 1 <= cols <= 1000 {
        let a = c.sessions@[i];
        let t = d.sessions@[i].terminal;
        &&& r == Ok::<Option<(u16, u16)>, Fault>(
            if a.terminal@.master {
                Some((rows, cols))
            } else {
                None
            },
        )
        &&& t@ == (TerminalView {
            dimensions: Some((rows, cols)),
            revision: (a.terminal@.revision + 1) as u64,
            screen: a.terminal@.screen.push(kept_size(rows, cols)),
            ..a.terminal@
        })
        &&& d.sessions@ == c.sessions@.update(i, Active { terminal: t, ..a })
        &&& d == (Controller { sessions: d.sessions, ..c })
    } else {
        is_fault(r, (-32602int, "invalid dimensions"@)) && d == c
    }
}

/// The session whose integration a call is about, or why there is none: the
/// caller's own, or for the host the one that is named.
pub open spec fn integration_place(
    c: Controller,
    names: NamesView,
    role: Role,
    named: Option<Seq<char>>,
    method: Seq<char>,
    driver: Option<Seq<char>>,
) -> Result<int, (int, Seq<char>)> {
    let target = match role {
        Role::Host => match named {
            None => Err(is_missing()),
            Some(t) => meant(c.sessions@, t, None),
        },
        Role::Sandbox(id) => match place(c.sessions@, id@) {
            None => Err(is_missing()),
            Some(i) => Ok(i),
        },
    };
    match target {
        Err(f) => Err(f),
        Ok(i) => {
            let a = c.sessions@[i];
            let supported = match a.inheritance {
                Some(h) => maybe(h.integration),
                None => None,
            };
            if a.record.state != SessionState::Running {
                Err(is_stale())
            } else if driver_of(names, supported) is None {
                Err((-32009, "session has no supported integration"@))
            } else if method == "integration.register"@ && driver != supported {
                Err((-32009, "integration driver does not match session"@))
            } else {
                Ok(i)
            }
        },
    }
}

/// The connections, from the place `i` on, of the host.
pub open spec fn host_count(c: Seq<Connection>, i: int) -> nat
    decreases c.len() - i,
{
    if i < 0 || i >= c.len() {
        0
    } else {
        host_count(c, i + 1) + if c[i].role is Host {
            1nat
        } else {
            0
        }
    }
}

/// The connections, from the place `i` on, of a sandbox.
pub open spec fn sandbox_count(c: Seq<Connection>, id: Seq<char>, i: int) -> nat
    decreases c.len() - i,
{
    if i < 0 || i >= c.len() {
        0
    } else {
        sandbox_count(c, id, i + 1) + if c[i].role matches Role::Sandbox(s) && s@ == id {
            1nat
        } else {
            0
        }
    }
}

impl Controller {
    /// What a call over a connection is about.
    pub fn route(&self, k: &Connection, has_id: bool, method: &str) -> (r: Result<Route, Fault>)
        ensures
            match r {
                Ok(x) => routed(*self, *k, has_id, method@) == Ok::<Route, (int, Seq<char>)>(x),
                Err(f) => routed(*self, *k, has_id, method@) == Err::<Route, (int, Seq<char>)>(
                    fault(f),
                ),
            },
    {
        if !has_id {
            return Ok(Route::Ignore);
        }
        let about_messages = messaging(method);
        let limit: usize = if k.role.is_host() {
            16384
        } else {
            4096
        };
        if !about_messages && k.body_bytes > limit {
            return Err((-32602, String::from_str("request exceeds method frame limit")));
        }
        if same(method, "initialize") {
            return Ok(Route::Initialize);
        }
        if !k.initialized {
            return Err((-32001, String::from_str("initialize first")));
        }
        if about_messages {
            if self.shutdown.is_some() {
                return Err((-32009, String::from_str("stale or conflicting operation")));
            }
            if same(method, "communications.list") && !k.role.is_host() {
                return Err((-32601, String::from_str("method unavailable on sandbox endpoint")));
            }
            return Ok(Route::Messaging);
        }
        let session = match &k.role {
            Role::Host => {
                return Ok(Route::Host);
            },
            Role::Sandbox(session) => session,
        };
        let serves = match self.find(session.as_str()) {
            Some(i) => self.sessions[i].record.state == SessionState::Running
                && self.sessions[i].worker,
            None => false,
        };
        if self.shutdown.is_some() || !serves {
            return Err((-32009, String::from_str("stale or conflicting operation")));
        }
        if same(method, "sessions.detach") {
            Ok(Route::Detach)
        } else if same(method, "sessions.attach") {
            Ok(Route::Attach)
        } else if same(method, "permissions.request") {
            Ok(Route::Permission)
        } else {
            Ok(Route::Control)
        }
    }

    /// The method that the host calls.
    pub fn host(&self, method: &str) -> (r: Result<HostMethod, Fault>)
        ensures
            match r {
                Ok(m) => host_routed(*self, method@) == Ok::<HostMethod, (int, Seq<char>)>(m),
                Err(f) => host_routed(*self, method@) == Err::<HostMethod, (int, Seq<char>)>(
                    fault(f),
                ),
            },
    {
        if self.shutdown.is_some() && !same(method, "server.status") && !same(
            method,
            "server.stop",
        ) {
            return Err((-32009, String::from_str("server is stopping")));
        }
        if same(method, "server.status") {
            Ok(HostMethod::ServerStatus)
        } else if same(method, "server.stop") {
            Ok(HostMethod::ServerStop)
        } else if same(method, "sessions.list") {
            Ok(HostMethod::SessionsList)
        } else if same(method, "sessions.get") {
            Ok(HostMethod::SessionsGet)
        } else if same(method, "sessions.start") {
            Ok(HostMethod::SessionsStart)
        } else if same(method, "sessions.stop") {
            Ok(HostMethod::SessionsStop)
        } else if same(method, "sessions.detach") {
            Ok(HostMethod::SessionsDetach)
        } else if same(method, "sessions.resize") {
            Ok(HostMethod::SessionsResize)
        } else if same(method, "permissions.list") {
            Ok(HostMethod::PermissionsList)
        } else if same(method, "permissions.get") {
            Ok(HostMethod::PermissionsGet)
        } else if same(method, "permissions.decide") {
            Ok(HostMethod::PermissionsDecide)
        } else if same(method, "state.subscribe") {
            Ok(HostMethod::Subscribe)
        } else if same(method, "state.unsubscribe") {
            Ok(HostMethod::Unsubscribe)
        } else {
            Err((-32601, String::from_str("method unavailable on host endpoint")))
        }
    }

    /// Begins the end, at the request of a connection. The first request counts.
    pub fn server_stop(&mut self, k: &mut Connection, now: u64)
        requires
            old(self).wf(),
            old(k).wf(),
            now <= u64::MAX - SHUTDOWN_GRACE,
        ensures
            final(self).wf(),
            final(k).wf(),
            *final(k) == (Connection { subscription: None, close: true, ..*old(k) }),
            *final(self) == (Controller {
                shutdown: match old(self).shutdown {
                    Some(s) => Some(s),
                    None => Some((old(k).id, (now + SHUTDOWN_GRACE) as u64)),
                },
                ..*old(self)
            }),
    {
        if self.shutdown.is_none() {
            self.shutdown = Some((k.id, now + SHUTDOWN_GRACE));
        }
        k.subscription = None;
        k.close = true;
    }

    /// Whether the end may come: whoever asked for it has its answer, or was given
    /// time enough to take it.
    pub fn shutdown_ready(&self, now: u64) -> (r: bool)
        ensures
            r == match self.shutdown {
                None => false,
                Some((id, deadline)) => now >= deadline || !exists|k: int|
                    0 <= k < self.connections@.len() && (#[trigger] self.connections@[k]).id == id
                        && self.connections@[k].queued != 0,
            },
    {
        match self.shutdown {
            None => false,
            Some((id, deadline)) => {
                if now >= deadline {
                    return true;
                }
                let mut k: usize = 0;
                while k < self.connections.len()
                    invariant
                        self.shutdown == Some((id, deadline)),
                        now < deadline,
                        k <= self.connections@.len(),
                        forall|j: int|
                            0 <= j < k ==> !((#[trigger] self.connections@[j]).id == id
                                && self.connections@[j].queued != 0),
                    decreases self.connections@.len() - k,
                {
                    if self.connections[k].id == id && self.connections[k].queued != 0 {
                        return false;
                    }
                    k += 1;
                }
                true
            },
        }
    }

    /// Subscribes a connection to what the host shows. The caller publishes what is
    /// due first, so that the snapshot it gets and the events behind it have one order.
    pub fn subscribe(&mut self, k: &mut Connection) -> (r: Result<String, Fault>)
        requires
            old(self).wf(),
            old(k).wf(),
            old(self).next < u64::MAX,
        ensures
            final(self).wf(),
            final(k).wf(),
            if old(k).subscription is Some {
                is_fault(r, is_stale()) && *final(self) == *old(self) && *final(k) == *old(k)
            } else {
                &&& r matches Ok(id) && id@ == old(self).instance@ + "-sub"@ + decimal_of(
                    (old(self).next + 1) as nat,
                ) && maybe(final(k).subscription) == Some(id@)
                &&& *final(k) == (Connection { subscription: final(k).subscription, ..*old(k) })
                &&& *final(self) == (Controller { next: (old(self).next + 1) as u64, ..*old(self) })
            },
    {
        if k.subscription.is_some() {
            return Err((-32009, String::from_str("stale or conflicting operation")));
        }
        let ghost before = *self;
        let n: u64 = self.number();
        proof {
            crate::launch::lemma_number_kept(before, *self);
        }
        let mut id = self.instance.clone();
        id.push_str("-sub");
        id.push_str(decimal(n).as_str());
        k.subscription = Some(id.clone());
        Ok(id)
    }

    /// What is shown has a new place in the order. Says whether there was anything to show.
    pub fn published(&mut self) -> (r: bool)
        requires
            old(self).wf(),
            old(self).sequence < u64::MAX,
        ensures
            final(self).wf(),
            r == old(self).dirty,
            *final(self) == if r {
                Controller {
                    dirty: false,
                    sequence: (old(self).sequence + 1) as u64,
                    ..*old(self)
                }
            } else {
                *old(self)
            },
    {
        if !self.dirty {
            return false;
        }
        self.dirty = false;
        self.sequence = self.sequence + 1;
        true
    }

    /// Whether another connection of the host is taken.
    pub fn host_room(&self) -> (r: bool)
        ensures
            r == (host_count(self.connections@, 0) < HOSTS),
    {
        let ghost c = self.connections@;
        let mut n: usize = 0;
        let mut i: usize = 0;
        while i < self.connections.len()
            invariant
                c == self.connections@,
                i <= c.len(),
                n <= i,
                host_count(c, 0) == n + host_count(c, i as int),
            decreases c.len() - i,
        {
            if self.connections[i].role.is_host() {
                n += 1;
            }
            i += 1;
        }
        n < HOSTS
    }

    /// Whether another connection of a sandbox is taken.
    pub fn sandbox_room(&self, id: &str) -> (r: bool)
        ensures
            r == (sandbox_count(self.connections@, id@, 0) < 8),
    {
        let ghost c = self.connections@;
        let mut n: usize = 0;
        let mut i: usize = 0;
        while i < self.connections.len()
            invariant
                c == self.connections@,
                i <= c.len(),
                n <= i,
                sandbox_count(c, id@, 0) == n + sandbox_count(c, id@, i as int),
            decreases c.len() - i,
        {
            if let Role::Sandbox(s) = &self.connections[i].role {
                if same(s.as_str(), id) {
                    n += 1;
                }
            }
            i += 1;
        }
        n < 8
    }

    /// The places of the requests of a session and in a state.
    pub fn permissions_matching(&self, session: Option<&str>, state: Option<&str>) -> (r: Vec<usize>)
        ensures
            places(r@) == filtered(
                self.permissions@,
                maybe_str(session),
                maybe_str(state),
                self.permissions@.len(),
            ),
    {
        let ghost p = self.permissions@;
        let mut r: Vec<usize> = Vec::new();
        let mut k: usize = 0;
        assert(places(r@) =~= Seq::<int>::empty());
        while k < self.permissions.len()
            invariant
                p == self.permissions@,
                k <= p.len(),
                places(r@) == filtered(p, maybe_str(session), maybe_str(state), k as nat),
            decreases p.len() - k,
        {
            let mine = match session {
                Some(s) => same(s, self.permissions[k].session.as_str()),
                None => true,
            };
            let fits = match state {
                Some(s) => same(s, self.permissions[k].state.name()),
                None => true,
            };
            if mine && fits {
                let ghost before = places(r@);
                r.push(k);
                assert(places(r@) =~= before.push(k as int));
            }
            k += 1;
        }
        r
    }

    /// Why a session's own child is stopped by it.
    pub fn stop_reason(&self, i: usize) -> (r: String)
        requires
            i < self.sessions@.len(),
        ensures
            r@ == "stopped by goblin "@ + self.sessions@[i as int].record.agent_name@ + " ("@
                + self.sessions@[i as int].record.id@ + ")"@,
    {
        let mut r = String::from_str("stopped by goblin ");
        r.push_str(self.sessions[i].record.agent_name.as_str());
        r.push_str(" (");
        r.push_str(self.sessions[i].record.id.as_str());
        r.push_str(")");
        r
    }

    /// Gives the terminal of a session a size, which the payload is to get where it runs.
    pub fn resize(&mut self, i: usize, rows: u16, cols: u16) -> (r: Result<
        Option<(u16, u16)>,
        Fault,
    >)
        requires
            old(self).wf(),
            i < old(self).sessions@.len(),
            countable(old(self).sessions@[i as int].terminal@),
        ensures
            final(self).wf(),
            resizing(*old(self), *final(self), i as int, rows, cols, r),
    {
        if !crate::controller::dimensions(rows, cols) {
            return Err((-32602, String::from_str("invalid dimensions")));
        }
        let ghost before = *self;
        let size = self.sessions[i].terminal.resize(rows, cols);
        proof {
            let b = self.sessions@[i as int];
            assert(self.sessions@ =~= before.sessions@.update(i as int, b));
            lemma_update_kin(before.sessions@, i as int, b);
            lemma_kin(before.sessions@, self.sessions@);
        }
        Ok(size)
    }

    /// The session whose integration a call is about.
    pub fn integration_target(
        &self,
        names: &Names,
        role: &Role,
        named: Option<&str>,
        method: &str,
        driver: Option<&str>,
    ) -> (r: Result<usize, Fault>)
        ensures
            match r {
                Ok(i) => i < self.sessions@.len() && integration_place(
                    *self,
                    names@,
                    *role,
                    maybe_str(named),
                    method@,
                    maybe_str(driver),
                ) == Ok::<int, (int, Seq<char>)>(i as int),
                Err(f) => integration_place(
                    *self,
                    names@,
                    *role,
                    maybe_str(named),
                    method@,
                    maybe_str(driver),
                ) == Err::<int, (int, Seq<char>)>(fault(f)),
            },
    {
        let i = match role {
            Role::Host => match named {
                None => {
                    return Err((-32004, String::from_str("record absent or no longer retained")));
                },
                Some(t) => match self.resolve_session(t) {
                    Ok(i) => i,
                    Err(f) => {
                        return Err(f);
                    },
                },
            },
            Role::Sandbox(id) => match self.find(id.as_str()) {
                Some(i) => i,
                None => {
                    return Err((-32004, String::from_str("record absent or no longer retained")));
                },
            },
        };
        if self.sessions[i].record.state != SessionState::Running {
            return Err((-32009, String::from_str("stale or conflicting operation")));
        }
        let supported: Option<String> = match &self.sessions[i].inheritance {
            Some(h) => h.integration.clone(),
            None => None,
        };
        if names.driver(&supported).is_none() {
            return Err((-32009, String::from_str("session has no supported integration")));
        }
        if same(method, "integration.register") {
            let fits = match (driver, &supported) {
                (Some(d), Some(t)) => same(d, t),
                _ => false,
            };
            if !fits {
                return Err(
                    (-32009, String::from_str("integration driver does not match session")),
                );
            }
        }
        Ok(i)
    }

    /// The answer of the mailbox to a call that a connection waits for.
    pub fn messaging_answered(&mut self, connection: u64, value: Json)
        requires
            old(self).wf(),
        ensures
            final(self).wf(),
            match connection_place(old(self).connections@, connection, 0) {
                None => *final(self) == *old(self),
                Some(k) => {
                    let c = old(self).connections@[k];
                    let d = final(self).connections@[k];
                    &&& d.outbox@ == c.outbox@.push(value)
                    &&& d == (Connection {
                        waiting: None,
                        close: c.role is Sandbox,
                        outbox: d.outbox,
                        ..c
                    })
                    &&& final(self).connections@ == old(self).connections@.update(k, d)
                    &&& *final(self) == (Controller {
                        connections: final(self).connections,
                        ..*old(self)
                    })
                },
            },
    {
        let ghost before = *self;
        if let Some(k) = self.find_connection(connection) {
            self.connections[k].settle(value);
            proof {
                let d = self.connections@[k as int];
                assert(self.connections@ =~= before.connections@.update(k as int, d));
            }
        }
    }
}

impl Connection {
    fn settle(&mut self, value: Json)
        requires
            old(self).wf(),
        ensures
            final(self).wf(),
            final(self).outbox@ == old(self).outbox@.push(value),
            *final(self) == (Connection {
                waiting: None,
                close: old(self).role is Sandbox,
                outbox: final(self).outbox,
                ..*old(self)
            }),
    {
        self.waiting = None;
        self.close = !self.role.is_host();
        self.queue(value);
    }
}

/// Before a connection is opened nothing is done for it.
pub proof fn nothing_is_done_before_opening(
    c: Controller,
    k: Connection,
    has_id: bool,
    method: Seq<char>,
)
    requires
        !k.initialized,
    ensures
        match routed(c, k, has_id, method) {
            Ok(r) => r == Route::Ignore || r == Route::Initialize,
            Err(_) => true,
        },
{
}

/// A sandbox reaches none of what the host alone may do, and sees nothing but
/// what descends from it.
pub proof fn a_sandbox_has_no_host_authority(
    c: Controller,
    k: Connection,
    has_id: bool,
    method: Seq<char>,
)
    requires
        k.role is Sandbox,
    ensures
        routed(c, k, has_id, method) != Ok::<Route, (int, Seq<char>)>(Route::Host),
        routed(c, k, has_id, method) == Ok::<Route, (int, Seq<char>)>(Route::Messaging) ==> method
            != "communications.list"@,
{
}

/// What a target means to a session is below it.
pub proof fn a_session_resolves_only_its_own(s: Seq<Active>, target: Seq<char>, scope: Seq<char>)
    ensures
        meant(s, target, Some(scope)) matches Ok(i) ==> 0 <= i < s.len() && below(
            s,
            s[i].record.id@,
            scope,
        ),
{
    lemma_seen(s, target, scope, 0);
}

proof fn lemma_seen(s: Seq<Active>, target: Seq<char>, scope: Seq<char>, i: int)
    requires
        0 <= i,
    ensures
        crate::controller::seen_by_id(s, target, Some(scope), i) matches Some(k) ==> 0 <= k < s.len()
            && below(s, s[k].record.id@, scope),
        crate::controller::seen_by_path(s, target, Some(scope), i) matches Some(k) ==> 0 <= k
            < s.len() && below(s, s[k].record.id@, scope),
        crate::controller::seen_by_name(s, target, Some(scope), i).len() > 0 ==> {
            let k = crate::controller::seen_by_name(s, target, Some(scope), i)[0];
            0 <= k < s.len() && below(s, s[k].record.id@, scope)
        },
    decreases s.len() - i,
{
    if i < s.len() {
        lemma_seen(s, target, scope, i + 1);
    }
}

/// A listing has every request that matches what was asked for, in order, and no other.
pub proof fn every_matching_request_is_listed(
    p: Seq<PermissionRecord>,
    session: Option<Seq<char>>,
    state: Option<Seq<char>>, k: nat)
    requires
        k <= p.len(),
    ensures
        forall|i: int| #[trigger]
            filtered(p, session, state, k).contains(i) <==> 0 <= i < k
                && (session is None || session == Some(p[i].session@))
                && (state is None || state == Some(p[i].state.text())),
        forall|a: int, b: int|
            0 <= a < b < filtered(p, session, state, k).len() ==> (#[trigger] filtered(p, session,
                state, k)[a])
                < #[trigger] filtered(p, session, state, k)[b],
    decreases k,
{
    if k > 0 {
        let less = (k - 1) as nat;
        every_matching_request_is_listed(p, session, state, less);
        let before = filtered(p, session, state, less);
        let now = filtered(p, session, state, k);
        assert forall|a: int| 0 <= a < before.len() implies 0 <= #[trigger] before[a] < k - 1 by {
            assert(before.contains(before[a]));
        }
        assert forall|i: int| #[trigger] now.contains(i) <==> 0 <= i < k
            && (session is None || session == Some(p[i].session@))
            && (state is None || state == Some(p[i].state.text())) by {
            if now.contains(i) {
                let a = choose|a: int| 0 <= a < now.len() && now[a] == i;
                if a < before.len() {
                    assert(before[a] == i);
                    assert(before.contains(i));
                }
            }
            if 0 <= i < k && (session is None || session == Some(p[i].session@))
                && (state is None || state == Some(p[i].state.text())) {
                if i < k - 1 {
                    assert(before.contains(i));
                    let a = choose|a: int| 0 <= a < before.len() && before[a] == i;
                    assert(now[a] == i);
                } else {
                    assert(now[now.len() - 1] == i);
                }
            }
        }
    }
}

/// The connections of the host are counted, and those of each session.
pub proof fn connections_are_counted(c: Seq<Connection>, id: Seq<char>, i: int)
    requires
        0 <= i <= c.len(),
    ensures
        host_count(c, i) == c.skip(i).filter(|k: Connection| k.role is Host).len(),
        sandbox_count(c, id, i) == c.skip(i).filter(
            |k: Connection| k.role matches Role::Sandbox(s) && s@ == id,
        ).len(),
    decreases c.len() - i,
{
    let host = |k: Connection| k.role is Host;
    let own = |k: Connection| k.role matches Role::Sandbox(s) && s@ == id;
    reveal_with_fuel(Seq::filter, 2);
    if i < c.len() {
        connections_are_counted(c, id, i + 1);
        assert(c.skip(i) =~= seq![c[i]] + c.skip(i + 1));
        Seq::filter_distributes_over_add(seq![c[i]], c.skip(i + 1), host);
        Seq::filter_distributes_over_add(seq![c[i]], c.skip(i + 1), own);
        assert(seq![c[i]].drop_last() =~= Seq::empty());
        assert(seq![c[i]].last() == c[i]);
        assert(seq![c[i]].filter(host).len() == if host(c[i]) {
            1nat
        } else {
            0
        });
        assert(seq![c[i]].filter(own).len() == if own(c[i]) {
            1nat
        } else {
            0
        });
    } else {
        assert(c.skip(i) =~= Seq::empty());
    }
}

/// What carries no id is a notification, and is not answered.
pub proof fn a_notification_is_ignored(c: Controller, k: Connection, method: Seq<char>)
    ensures
        routed(c, k, false, method) == Ok::<Route, (int, Seq<char>)>(Route::Ignore),
{
}

/// The host is served once it has opened the connection, whatever it asks for besides mail, as
/// long as it asks for it in 16 KiB.
pub proof fn an_opened_host_is_served(c: Controller, k: Connection, method: Seq<char>)
    requires
        k.role is Host,
        k.initialized,
        !is_messaging(method),
        method != "initialize"@,
    ensures
        routed(c, k, true, method) == if k.body_bytes <= 16384 {
            Ok::<Route, (int, Seq<char>)>(Route::Host)
        } else {
            Err((-32602int, "request exceeds method frame limit"@))
        },
{
}

/// A session that runs and has its worker is served once it has opened the connection.
pub proof fn a_running_session_is_served(
    c: Controller,
    k: Connection,
    id: String,
    i: int,
    method: Seq<char>,
)
    requires
        k.role == Role::Sandbox(id),
        k.initialized,
        c.shutdown is None,
        place(c.sessions@, id@) == Some(i),
        c.sessions@[i].record.state == SessionState::Running,
        c.sessions@[i].worker,
        !is_messaging(method),
        method != "initialize"@,
        k.body_bytes <= 4096,
    ensures
        routed(c, k, true, method) matches Ok(r) && {
            &&& r == Route::Detach <==> method == "sessions.detach"@
            &&& r == Route::Attach <==> method == "sessions.attach"@
            &&& r == Route::Permission <==> method == "permissions.request"@
            &&& r == Route::Detach || r == Route::Attach || r == Route::Permission || r
                == Route::Control
        },
{
    reveal_strlit("sessions.detach");
    reveal_strlit("sessions.attach");
    reveal_strlit("permissions.request");
    assert("sessions.detach"@[9] != "sessions.attach"@[9]);
}

/// A session that does not run, or has lost its worker, is not served.
pub proof fn a_session_that_is_gone_is_refused(
    c: Controller,
    k: Connection,
    id: String,
    method: Seq<char>,
)
    requires
        k.role == Role::Sandbox(id),
        k.initialized,
        place(c.sessions@, id@) matches Some(i) ==> c.sessions@[i].record.state
            != SessionState::Running || !c.sessions@[i].worker,
        !is_messaging(method),
        method != "initialize"@,
    ensures
        routed(c, k, true, method) is Err,
{
}

/// Mail is taken from whoever has opened the connection, as long as the daemon goes on.
pub proof fn mail_is_taken(c: Controller, k: Connection, method: Seq<char>)
    requires
        k.initialized,
        method == "messages.send"@ || method == "messages.get"@ || method == "messages.reply"@
            || method == "inbox.next"@ || method == "inbox.status"@ || method == "inbox.complete"@
            || method == "inbox.requeue"@,
    ensures
        routed(c, k, true, method) == if c.shutdown is None {
            Ok::<Route, (int, Seq<char>)>(Route::Messaging)
        } else {
            Err(is_stale())
        },
{
    reveal_strlit("messages.send");
    reveal_strlit("messages.get");
    reveal_strlit("messages.reply");
    reveal_strlit("inbox.next");
    reveal_strlit("inbox.status");
    reveal_strlit("inbox.complete");
    reveal_strlit("inbox.requeue");
    reveal_strlit("initialize");
    reveal_strlit("communications.list");
    assert("inbox.next"@[2] != "initialize"@[2]);
    assert(method.len() <= 14);
    assert("communications.list"@.len() == 19);
    assert("initialize"@.len() == 10);
    assert(method.len() == 10 ==> method == "inbox.next"@);
}

/// A terminal has the size that it was given, and no other terminal changes.
pub proof fn a_terminal_has_the_size_it_was_given(
    c: Controller,
    d: Controller,
    i: int,
    rows: u16,
    cols: u16,
    r: Result<Option<(u16, u16)>, Fault>,
    j: int,
)
    requires
        resizing(c, d, i, rows, cols, r),
        0 <= i < c.sessions@.len(),
        1 <= rows <= 1000,
        1 <= cols <= 1000,
    ensures
        r is Ok,
        d.sessions@.len() == c.sessions@.len(),
        d.sessions@[i].terminal@.dimensions == Some((rows, cols)),
        c.sessions@[i].terminal@.master ==> r == Ok::<Option<(u16, u16)>, Fault>(Some((rows,
            cols))),
        0 <= j < c.sessions@.len() && j != i ==> d.sessions@[j] == c.sessions@[j],
        d.permissions == c.permissions,
{
}

/// An agent speaks of itself alone; the host names the session that it speaks of.
pub proof fn an_agent_speaks_of_itself(
    c: Controller,
    names: NamesView,
    id: String,
    named: Option<Seq<char>>,
    method: Seq<char>,
    driver: Option<Seq<char>>,
)
    ensures
        integration_place(c, names, Role::Sandbox(id), named, method, driver) matches Ok(i)
            ==> place(c.sessions@, id@) == Some(i) && c.sessions@[i].record.state
            == SessionState::Running,
        integration_place(c, names, Role::Host, named, method, driver) matches Ok(i)
            ==> named is Some && meant(c.sessions@, named->0, None) == Ok::<int, (int,
                Seq<char>)>(i)
            && c.sessions@[i].record.state == SessionState::Running,
{
}

} // verus!
