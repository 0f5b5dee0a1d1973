//! Calls that were taken apart: what the daemon does with each of them, and what is left
//! to be done for it outside.
use vstd::prelude::*;

use crate::answers::{shown, Shown};
use crate::connection::Connection;
use crate::control::{
    detaching, orphans_stop, ownership_is_transitive, pending_id, request_place, settled_request,
    tree_stop,
};
use crate::controller::{
    below, is_missing, is_stale, maybe_str, meant, missing, place, Controller, Start,
};
use crate::directory::{fault, is_fault, Fault};
use crate::endpoint::{
    a_session_resolves_only_its_own, filtered, lemma_filtered, resizing, SHUTDOWN_GRACE,
};
use crate::json::Json;
use crate::listing::{below_by_id, shows_host};
use crate::permissions::Decision;
use crate::records::{SessionState, Snapshot};
use crate::replies::{
    accepted, accepted_shown, chosen, chosen_shown, listed_as, lists, standing_shown, subscribed,
    subscribed_shown,
};
use crate::rpc::{error, is_error, is_id_value, is_result, result, RpcId};
use crate::terminal::countable;
use crate::text::{decimal_of, maybe, places};
use crate::values::{
    own_shown, permission_shown, session_shown, sessions_shown, sessions_value, snapshot_shown,
};

verus! {

/// A call of the host, with its parameters.
#[allow(inconsistent_fields)]
pub enum HostCall {
    ServerStatus,
    ServerStop,
    SessionsList,
    SessionsGet(String),
    SessionsStart(Start),
    SessionsStop { session: String, kill_children: bool },
    SessionsDetach(String),
    SessionsResize { session: String, rows: u16, cols: u16 },
    PermissionsList { session: Option<String>, state: Option<String> },
    PermissionsGet(String),
    PermissionsDecide(Decision),
    Subscribe,
    Unsubscribe(String),
}

/// What is left to do of a call.
pub enum Step {
    /// Nothing: this is answered.
    Answer(Json),
    /// A session is to begin.
    Start(Start),
    /// The stream towards the consumer of the session at that place is to be closed.
    Detached(usize),
    /// The payload of the session at that place is to get a size, where it runs.
    Resized(usize, Option<(u16, u16)>),
    /// A request is to be decided, once it was seen whether its session has said anything.
    Decide(Decision),
}

/// A call is answered so, and nothing is left to do.
pub open spec fn answers(r: Result<Step, Fault>, s: Shown) -> bool {
    r matches Ok(Step::Answer(v)) && shown(v) == s
}

/// What is answered where something was tried that can be refused.
pub open spec fn accepts(r: Result<Step, Fault>, tried: Result<(), Fault>) -> bool {
    match tried {
        Ok(_) => answers(r, accepted_shown()),
        Err(f) => is_fault(r, fault(f)),
    }
}

/// What comes of stopping the session that is meant.
pub open spec fn stop_called(
    c: Controller,
    d: Controller,
    target: Result<int, (int, Seq<char>)>,
    kill_children: bool,
    why: Seq<char>,
    r: Result<Step, Fault>,
) -> bool {
    match target {
        Err(f) => is_fault(r, f) && d == c,
        Ok(i) => stop_at(c, d, i, kill_children, why, r),
    }
}

/// What comes of stopping the session at a place.
pub open spec fn stop_at(
    c: Controller,
    d: Controller,
    i: int,
    kill_children: bool,
    why: Seq<char>,
    r: Result<Step, Fault>,
) -> bool {
    exists|reason: Option<String>, tried: Result<(), Fault>| #[trigger]
        tree_stop(c, d, i, kill_children, reason, tried) && accepts(r, tried) && maybe(reason)
            == Some(why)
}

/// What comes of sending the consumer of the session that is meant away.
pub open spec fn detach_called(
    c: Controller,
    d: Controller,
    target: Result<int, (int, Seq<char>)>,
    r: Result<Step, Fault>,
) -> bool {
    match target {
        Err(f) => is_fault(r, f) && d == c,
        Ok(i) => detach_at(c, d, i, r),
    }
}

/// What comes of sending the consumer of the session at a place away.
pub open spec fn detach_at(c: Controller, d: Controller, i: int, r: Result<Step, Fault>) -> bool {
    exists|tried: Result<(), Fault>| #[trigger]
        detaching(c, d, i, tried) && match tried {
            Ok(_) => r matches Ok(Step::Detached(k)) && k == i,
            Err(f) => is_fault(r, fault(f)),
        }
}

/// What comes of giving the terminal of the session that is meant a size.
pub open spec fn resize_called(
    c: Controller,
    d: Controller,
    target: Result<int, (int, Seq<char>)>,
    rows: u16,
    cols: u16,
    r: Result<Step, Fault>,
) -> bool {
    match target {
        Err(f) => is_fault(r, f) && d == c,
        Ok(i) => resize_at(c, d, i, rows, cols, r),
    }
}

/// What comes of giving the terminal of the session at a place a size.
pub open spec fn resize_at(
    c: Controller,
    d: Controller,
    i: int,
    rows: u16,
    cols: u16,
    r: Result<Step, Fault>,
) -> bool {
    exists|tried: Result<Option<(u16, u16)>, Fault>| #[trigger]
        resizing(c, d, i, rows, cols, tried) && match tried {
            Ok(size) => r matches Ok(Step::Resized(k, s)) && k == i && s == size,
            Err(f) => is_fault(r, fault(f)),
        }
}

/// The session of exactly that ID.
pub open spec fn exactly(c: Controller, id: Seq<char>) -> Result<int, (int, Seq<char>)> {
    match place(c.sessions@, id) {
        Some(i) => Ok(i),
        None => Err(is_missing()),
    }
}

/// What the daemon does with a call of the host.
pub open spec fn host_done(
    call: HostCall,
    c: Controller,
    d: Controller,
    k: Connection,
    l: Connection,
    now: u64,
    r: Result<Step, Fault>,
) -> bool {
    match call {
        HostCall::ServerStatus => answers(r, standing_shown(c)) && d == c && l == k,
        HostCall::ServerStop => {
            &&& answers(r, accepted_shown())
            &&& l == (Connection { subscription: None, close: true, ..k })
            &&& d == (Controller {
                shutdown: match c.shutdown {
                    Some(s) => Some(s),
                    None => Some((k.id, (now + SHUTDOWN_GRACE) as u64)),
                },
                ..c
            })
        },
        HostCall::SessionsList => d == c && l == k && exists|n: Snapshot| #[trigger]
            shows_host(n, c) && answers(r, sessions_shown(n.sessions@)),
        HostCall::SessionsGet(t) => d == c && l == k && match meant(c.sessions@, t@, None) {
            Ok(i) => answers(r, session_shown(c.sessions@[i].record)),
            Err(f) => is_fault(r, f),
        },
        HostCall::SessionsStart(p) => d == c && l == k && r == Ok::<Step, Fault>(Step::Start(p)),
        HostCall::SessionsStop { session, kill_children } => l == k && stop_called(
            c,
            d,
            meant(c.sessions@, session@, None),
            kill_children,
            "stopped by host"@,
            r,
        ),
        HostCall::SessionsDetach(t) => l == k && detach_called(
            c,
            d,
            meant(c.sessions@, t@, None),
            r,
        ),
        HostCall::SessionsResize { session, rows, cols } => l == k && if 1 <= rows <= 1000 && 1
            <= cols <= 1000 {
            resize_called(c, d, exactly(c, session@), rows, cols, r)
        } else {
            is_fault(r, (-32602, "invalid dimensions"@)) && d == c
        },
        HostCall::PermissionsList { session, state } => d == c && l == k && answers(
            r,
            chosen_shown(
                c.permissions@,
                filtered(c.permissions@, maybe(session), maybe(state), c.permissions@.len()),
            ),
        ),
        HostCall::PermissionsGet(id) => d == c && l == k && match request_place(
            c.permissions@,
            id@,
        ) {
            Some(q) => answers(r, permission_shown(c.permissions@[q])),
            None => is_fault(r, is_missing()),
        },
        HostCall::PermissionsDecide(p) => d == c && l == k && r == Ok::<Step, Fault>(
            Step::Decide(p),
        ),
        HostCall::Subscribe => if k.subscription is Some {
            is_fault(r, is_stale()) && d == c && l == k
        } else {
            let id = c.instance@ + "-sub"@ + decimal_of((c.next + 1) as nat);
            &&& maybe(l.subscription) == Some(id)
            &&& l == (Connection { subscription: l.subscription, ..k })
            &&& d == (Controller { next: (c.next + 1) as u64, ..c })
            &&& exists|n: Snapshot| #[trigger]
                shows_host(n, d) && answers(
                    r,
                    subscribed_shown(id, c.sequence, snapshot_shown(n)),
                )
        },
        HostCall::Unsubscribe(t) => d == c && if maybe(k.subscription) == Some(t@) {
            answers(r, accepted_shown()) && l == (Connection { subscription: None, ..k })
        } else {
            is_fault(r, is_stale()) && l == k
        },
    }
}

pub(crate) fn borrowed(t: &Option<String>) -> (r: Option<&str>)
    ensures
        maybe_str(r) == maybe(*t),
{
    match t {
        Some(t) => Some(t.as_str()),
        None => None,
    }
}

impl Controller {
    fn call_stop(&mut self, target: Result<usize, Fault>, kill_children: bool, why: String) -> (r:
        Result<Step, Fault>)
        requires
            old(self).wf(),
            target matches Ok(i) ==> i < old(self).sessions@.len(),
        ensures
            final(self).wf(),
            stop_called(*old(self), *final(self), found(target), kill_children, why@, r),
    {
        match target {
            Err(f) => Err(f),
            Ok(i) => {
                let ghost c = *self;
                let reason = Some(why);
                let ghost said = reason;
                let tried = self.stop_tree(i, kill_children, reason);
                assert(maybe(said) == Some(why@));
                assert(tree_stop(c, *self, i as int, kill_children, said, tried));
                let r = match tried {
                    Ok(_) => Ok(Step::Answer(accepted())),
                    Err(f) => Err(f),
                };
                assert(accepts(r, tried));
                assert(stop_at(c, *self, i as int, kill_children, why@, r));
                r
            },
        }
    }

    fn call_detach(&mut self, target: Result<usize, Fault>) -> (r: Result<Step, Fault>)
        requires
            old(self).wf(),
            target matches Ok(i) ==> i < old(self).sessions@.len(),
        ensures
            final(self).wf(),
            detach_called(*old(self), *final(self), found(target), r),
    {
        match target {
            Err(f) => Err(f),
            Ok(i) => {
                let ghost c = *self;
                let tried = self.detach(i);
                assert(detaching(c, *self, i as int, tried));
                let r = match tried {
                    Ok(_) => Ok(Step::Detached(i)),
                    Err(f) => Err(f),
                };
                assert(detach_at(c, *self, i as int, r));
                r
            },
        }
    }

    fn call_resize(&mut self, target: Result<usize, Fault>, rows: u16, cols: u16) -> (r: Result<
        Step,
        Fault,
    >)
        requires
            old(self).wf(),
            target matches Ok(i) ==> i < old(self).sessions@.len() && countable(
                old(self).sessions@[i as int].terminal@,
            ),
        ensures
            final(self).wf(),
            resize_called(*old(self), *final(self), found(target), rows, cols, r),
    {
        match target {
            Err(f) => Err(f),
            Ok(i) => {
                let ghost c = *self;
                let tried = self.resize(i, rows, cols);
                assert(resizing(c, *self, i as int, rows, cols, tried));
                let r = match tried {
                    Ok(size) => Ok(Step::Resized(i, size)),
                    Err(f) => Err(f),
                };
                assert(resize_at(c, *self, i as int, rows, cols, r));
                r
            },
        }
    }

    /// What the host asked for is done, as far as it can be without touching anything else.
    /// Before a subscription the caller publishes what is due.
    pub fn host_call(&mut self, k: &mut Connection, call: HostCall, now: u64) -> (r: Result<
        Step,
        Fault,
    >)
        requires
            old(self).wf(),
            old(k).wf(),
            old(self).next < u64::MAX,
            now <= u64::MAX - SHUTDOWN_GRACE,
            forall|i: int|
                0 <= i < old(self).sessions@.len() ==> countable(
                    (#[trigger] old(self).sessions@[i]).terminal@,
                ),
        ensures
            final(self).wf(),
            final(k).wf(),
            host_done(call, *old(self), *final(self), *old(k), *final(k), now, r),
    {
        match call {
            HostCall::ServerStatus => Ok(Step::Answer(self.standing())),
            HostCall::ServerStop => {
                self.server_stop(k, now);
                Ok(Step::Answer(accepted()))
            },
            HostCall::SessionsList => {
                let n = self.snapshot();
                let v = sessions_value(&n.sessions);
                assert(shows_host(n, *self));
                Ok(Step::Answer(v))
            },
            HostCall::SessionsGet(t) => match self.resolve_session(t.as_str()) {
                Ok(i) => Ok(Step::Answer(self.sessions[i].record.value())),
                Err(f) => Err(f),
            },
            HostCall::SessionsStart(p) => Ok(Step::Start(p)),
            HostCall::SessionsStop { session, kill_children } => {
                let target = self.resolve_session(session.as_str());
                self.call_stop(target, kill_children, String::from_str("stopped by host"))
            },
            HostCall::SessionsDetach(t) => {
                let target = self.resolve_session(t.as_str());
                self.call_detach(target)
            },
            HostCall::SessionsResize { session, rows, cols } => {
                if !crate::controller::dimensions(rows, cols) {
                    return Err((-32602, String::from_str("invalid dimensions")));
                }
                let target = match self.find(session.as_str()) {
                    Some(i) => Ok(i),
                    None => Err(missing()),
                };
                self.call_resize(target, rows, cols)
            },
            HostCall::PermissionsList { session, state } => {
                let which = self.permissions_matching(borrowed(&session), borrowed(&state));
                proof {
                    lemma_filtered(
                        self.permissions@,
                        maybe(session),
                        maybe(state),
                        self.permissions@.len(),
                    );
                    assert forall|j: int| 0 <= j < which@.len() implies (#[trigger] which@[j])
                        < self.permissions@.len() by {
                        assert(places(which@)[j] == which@[j]);
                    }
                }
                Ok(Step::Answer(chosen(&self.permissions, &which)))
            },
            HostCall::PermissionsGet(id) => match self.find_request(id.as_str()) {
                Some(q) => Ok(Step::Answer(self.permissions[q].value())),
                None => Err(missing()),
            },
            HostCall::PermissionsDecide(p) => Ok(Step::Decide(p)),
            HostCall::Subscribe => match self.subscribe(k) {
                Err(f) => Err(f),
                Ok(id) => {
                    let n = self.snapshot();
                    let v = subscribed(id.as_str(), self.sequence, n.value());
                    assert(shows_host(n, *self));
                    Ok(Step::Answer(v))
                },
            },
            HostCall::Unsubscribe(t) => match k.unsubscribe(t.as_str()) {
                Ok(_) => Ok(Step::Answer(accepted())),
                Err(f) => Err(f),
            },
        }
    }
}

/// Where a session stands, or why there is none.
pub open spec fn found(target: Result<usize, Fault>) -> Result<int, (int, Seq<char>)> {
    match target {
        Ok(i) => Ok(i as int),
        Err(f) => Err(fault(f)),
    }
}

/// A call of a sandbox on its own subtree.
pub enum ControlCall {
    Status,
    Resize { session: String, rows: u16, cols: u16 },
    List,
    Get(String),
    /// A session below, under that key and that configuration's name.
    Start {
        key: String,
        name: String,
        agent_name: Option<String>,
        parent: Option<String>,
        detached: bool,
    },
    Stop { session: String, kill_children: bool },
}

/// What a session starts below itself: it names no manifest, no directory and no size.
pub open spec fn is_child_start(
    p: Start,
    key: String,
    name: String,
    agent_name: Option<String>,
    parent: Option<String>,
    detached: bool,
) -> bool {
    &&& p.key == key && p.name == name && p.agent_name == agent_name && p.parent == parent
    &&& p.configuration@.len() == 0 && p.cwd is None
    &&& p.rows == 24 && p.cols == 80
    &&& p.detached == detached
}

/// What the daemon does with a call of a sandbox: nothing of the host outside the caller's
/// subtree is seen or changed by it.
pub open spec fn control_done(
    call: ControlCall,
    c: Controller,
    d: Controller,
    own: int,
    r: Result<Step, Fault>,
) -> bool {
    let scope = c.sessions@[own].record.id@;
    match call {
        ControlCall::Status => d == c && answers(r, own_shown(c.sessions@[own].record)),
        ControlCall::Resize { session, rows, cols } => resize_called(
            c,
            d,
            meant(c.sessions@, session@, Some(scope)),
            rows,
            cols,
            r,
        ),
        ControlCall::List => {
            &&& d == c
            &&& r matches Ok(Step::Answer(v)) && exists|order: Seq<int>| #[trigger]
                below_by_id(c.sessions@, scope, order) && lists(v, c, scope, order)
        },
        ControlCall::Get(t) => d == c && match meant(c.sessions@, t@, Some(scope)) {
            Ok(i) => r matches Ok(Step::Answer(v)) && listed_as(shown(v), c, i, scope),
            Err(f) => is_fault(r, f),
        },
        ControlCall::Start { key, name, agent_name, parent, detached } => {
            &&& d == c
            &&& r matches Ok(Step::Start(p)) && is_child_start(
                p,
                key,
                name,
                agent_name,
                parent,
                detached,
            )
        },
        ControlCall::Stop { session, kill_children } => stop_called(
            c,
            d,
            meant(c.sessions@, session@, Some(scope)),
            kill_children,
            "stopped by goblin "@ + c.sessions@[own].record.agent_name@ + " ("@ + scope + ")"@,
            r,
        ),
    }
}

impl Controller {
    /// What the session at a place asked for of its own subtree is done.
    pub fn control_call(&mut self, own: usize, call: ControlCall) -> (r: Result<Step, Fault>)
        requires
            old(self).wf(),
            own < old(self).sessions@.len(),
            forall|i: int|
                0 <= i < old(self).sessions@.len() ==> countable(
                    (#[trigger] old(self).sessions@[i]).terminal@,
                ),
        ensures
            final(self).wf(),
            control_done(call, *old(self), *final(self), own as int, r),
    {
        let scope = self.sessions[own].record.id.clone();
        match call {
            ControlCall::Status => Ok(Step::Answer(self.sessions[own].record.own())),
            ControlCall::Resize { session, rows, cols } => {
                let target = self.resolve_scoped(session.as_str(), Some(scope.as_str()));
                self.call_resize(target, rows, cols)
            },
            ControlCall::List => Ok(Step::Answer(self.listing(scope.as_str()))),
            ControlCall::Get(t) => match self.resolve_scoped(t.as_str(), Some(scope.as_str())) {
                Ok(i) => {
                    let record = self.sandbox_record(i, scope.as_str());
                    let v = record.value();
                    assert(listed_as(shown(v), *self, i as int, scope@));
                    Ok(Step::Answer(v))
                },
                Err(f) => Err(f),
            },
            ControlCall::Start { key, name, agent_name, parent, detached } => Ok(
                Step::Start(
                    Start {
                        key,
                        configuration: String::new(),
                        name,
                        agent_name,
                        parent,
                        cwd: None,
                        rows: 24,
                        cols: 80,
                        detached,
                    },
                ),
            ),
            ControlCall::Stop { session, kill_children } => {
                let why = self.stop_reason(own);
                let target = self.resolve_scoped(session.as_str(), Some(scope.as_str()));
                self.call_stop(target, kill_children, why)
            },
        }
    }

    /// A session is looked after. One whose payload has ended stops with all that lives
    /// below it; where it had stopped before, what it left behind is told to.
    pub fn look_after(&mut self, i: usize, exited: bool)
        requires
            old(self).wf(),
            i < old(self).sessions@.len(),
        ensures
            final(self).wf(),
            ({
                let state = old(self).sessions@[i as int].record.state;
                if state == SessionState::Running && exited {
                    exists|tried: Result<(), Fault>| #[trigger]
                        tree_stop(*old(self), *final(self), i as int, true, None, tried)
                } else if state.is_over() {
                    orphans_stop(*old(self), *final(self), i as int)
                } else {
                    *final(self) == *old(self)
                }
            }),
    {
        let ghost c = *self;
        let state = self.sessions[i].record.state;
        if state == SessionState::Running && exited {
            let tried = self.stop_tree(i, true, None);
            assert(tree_stop(c, *self, i as int, true, None, tried));
        } else if state.over() {
            self.stop_orphans(i);
        }
    }
}

/// What a call over a connection is answered, where something is.
pub open spec fn answered(
    k: Connection,
    l: Connection,
    id: RpcId,
    outcome: Result<Option<Json>, Fault>,
) -> bool {
    match outcome {
        Ok(None) => l == k,
        Ok(Some(v)) => {
            &&& l.outbox@.len() == k.outbox@.len() + 1
            &&& l.outbox@.drop_last() == k.outbox@
            &&& is_id_value(l.outbox@.last().fields()[1].1, id)
            &&& is_result(l.outbox@.last(), l.outbox@.last().fields()[1].1, v)
            &&& l == (Connection { outbox: l.outbox, ..k })
        },
        Err(f) => {
            &&& l.outbox@.len() == k.outbox@.len() + 1
            &&& l.outbox@.drop_last() == k.outbox@
            &&& is_id_value(l.outbox@.last().fields()[1].1, id)
            &&& is_error(l.outbox@.last(), l.outbox@.last().fields()[1].1, f.0 as int, f.1@)
            &&& l == (Connection { outbox: l.outbox, close: k.close || k.role is Sandbox, ..k })
        },
    }
}

impl Connection {
    /// A call is answered. A sandbox whose call was refused is not heard again.
    pub fn answer(&mut self, id: &RpcId, outcome: Result<Option<Json>, Fault>)
        requires
            old(self).wf(),
        ensures
            final(self).wf(),
            answered(*old(self), *final(self), *id, outcome),
    {
        let ghost k = *self;
        match outcome {
            Ok(None) => {},
            Ok(Some(v)) => {
                self.outbox.push(result(id.value(), v));
                assert(self.outbox@.drop_last() =~= k.outbox@);
            },
            Err((code, message)) => {
                self.outbox.push(error(id.value(), code, message.as_str()));
                assert(self.outbox@.drop_last() =~= k.outbox@);
                if !self.role.is_host() {
                    self.close = true;
                }
            },
        }
    }
}

/// What a sandbox calls for changes no session but those below its own, and no request but
/// those that one of these waits for.
pub proof fn a_sandbox_changes_only_its_own(
    call: ControlCall,
    c: Controller,
    d: Controller,
    own: int,
    r: Result<Step, Fault>,
)
    requires
        c.wf(),
        0 <= own < c.sessions@.len(),
        control_done(call, c, d, own, r),
    ensures
        d.sessions@.len() == c.sessions@.len(),
        forall|k: int|
            0 <= k < c.sessions@.len() && (#[trigger] d.sessions@[k]) != c.sessions@[k] ==> below(
                c.sessions@,
                c.sessions@[k].record.id@,
                c.sessions@[own].record.id@,
            ),
        d.permissions@.len() == c.permissions@.len(),
        forall|q: int|
            0 <= q < c.permissions@.len() && (#[trigger] d.permissions@[q]) != c.permissions@[q]
                ==> awaited_below(c, own, c.permissions@[q].id@),
{
    let s = c.sessions@;
    let scope = s[own].record.id@;
    match call {
        ControlCall::Resize { session, rows, cols } => {
            a_session_resolves_only_its_own(s, session@, scope);
            if let Ok(i) = meant(s, session@, Some(scope)) {
                assert(resize_at(c, d, i, rows, cols, r));
            }
        },
        ControlCall::Stop { session, kill_children } => {
            a_session_resolves_only_its_own(s, session@, scope);
            if let Ok(i) = meant(s, session@, Some(scope)) {
                let why = "stopped by goblin "@ + s[own].record.agent_name@ + " ("@ + scope + ")"@;
                assert(stop_at(c, d, i, kill_children, why, r));
                let (reason, tried) = choose|reason: Option<String>, tried: Result<(), Fault>|
                    #[trigger]
                    tree_stop(c, d, i, kill_children, reason, tried) && accepts(r, tried) && maybe(
                        reason,
                    ) == Some(why);
                lemma_stopped_below(c, d, own, i, kill_children, reason, tried);
            }
        },
        _ => {},
    }
}

/// A session below that one waits for the request.
pub open spec fn awaited_below(c: Controller, own: int, id: Seq<char>) -> bool {
    exists|k: int|
        {
            &&& 0 <= k < c.sessions@.len()
            &&& pending_id(#[trigger] c.sessions@[k]) == Some(id)
            &&& below(c.sessions@, c.sessions@[k].record.id@, c.sessions@[own].record.id@)
        }
}

proof fn lemma_stopped_below(
    c: Controller,
    d: Controller,
    own: int,
    i: int,
    kill_children: bool,
    reason: Option<String>,
    tried: Result<(), Fault>,
)
    requires
        c.wf(),
        0 <= own < c.sessions@.len(),
        0 <= i < c.sessions@.len(),
        below(c.sessions@, c.sessions@[i].record.id@, c.sessions@[own].record.id@),
        tree_stop(c, d, i, kill_children, reason, tried),
    ensures
        d.sessions@.len() == c.sessions@.len(),
        forall|k: int|
            0 <= k < c.sessions@.len() && (#[trigger] d.sessions@[k]) != c.sessions@[k] ==> below(
                c.sessions@,
                c.sessions@[k].record.id@,
                c.sessions@[own].record.id@,
            ),
        d.permissions@.len() == c.permissions@.len(),
        forall|q: int|
            0 <= q < c.permissions@.len() && (#[trigger] d.permissions@[q]) != c.permissions@[q]
                ==> awaited_below(c, own, c.permissions@[q].id@),
{
    let s = c.sessions@;
    let scope = s[own].record.id@;
    if d != c {
        assert forall|k: int|
            0 <= k < s.len() && (#[trigger] d.sessions@[k]) != s[k] implies below(
            s,
            s[k].record.id@,
            scope,
        ) by {
            if below(s, s[k].record.id@, s[i].record.id@) {
                ownership_is_transitive(c, k, s[i].record.id@, scope);
            }
        }
        assert forall|q: int|
            0 <= q < c.permissions@.len() && (#[trigger] d.permissions@[q])
                != c.permissions@[q] implies awaited_below(c, own, c.permissions@[q].id@) by {
            assert(settled_request(c, d, q));
            let id = c.permissions@[q].id@;
            let k = choose|k: int|
                0 <= k < s.len() && pending_id(#[trigger] s[k]) == Some(id) && pending_id(
                    d.sessions@[k],
                ) is None;
            assert(d.sessions@[k] != s[k]);
        }
    }
}

} // verus!
