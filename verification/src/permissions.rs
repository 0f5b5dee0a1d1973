//! What sessions ask for, who decides, and what comes of it.
use vstd::prelude::*;

use crate::catalog::Preview;
use crate::connection::Connection;
use crate::control::{
    answered, distinct_requests, kept, lemma_kin, lemma_request_place, lemma_session_ids,
    lemma_update_kin, pending_id, request_id, request_numbered, request_place, requests_numbered,
    with_state,
};
use crate::controller::{
    granted_above, is_full, is_missing, is_stale, lemma_place, place, Active, Controller,
    Inheritance, PERMISSIONS, Pending,
};
use crate::directory::{fault, is_fault, Fault};
use crate::launch::lemma_number_kept;
use crate::protocol::{is_package_name, package_name};
use crate::records::{PermissionRecord, PermissionState, PreviewShown, SessionState};
use crate::text::{chars, copy_option, decimal, decimal_of, holds, maybe, same, same_option, texts};

verus! {

/// What a session asks its host for.
pub struct PermissionRequest {
    pub kind: String,
    pub package: String,
    pub reason: String,
    pub scope: Option<String>,
    pub anonymous: bool,
}

/// A package of the catalogue, or Docker, for a reason of at most 1024 characters.
pub open spec fn is_proper(p: PermissionRequest) -> bool {
    &&& 1 <= p.reason@.len() <= 1024
    &&& (p.kind@ == "package"@ && is_package_name(p.package@)) || p.kind@ == "docker"@
}

/// Work for the worker of a session.
pub enum Work {
    /// Find out what a package would take.
    Preview { serial: u64, package: String },
    /// Carry an approved request out, where a path is given by that path.
    Decide {
        request: String,
        kind: String,
        package: String,
        reason: String,
        scope: Option<String>,
        anonymous: bool,
        output: Option<String>,
    },
}

impl Work {
    pub fn copy(&self) -> (r: Work)
        ensures
            r == *self,
    {
        match self {
            Work::Preview { serial, package } => Work::Preview {
                serial: *serial,
                package: package.clone(),
            },
            Work::Decide { request, kind, package, reason, scope, anonymous, output } => Work::Decide {
                request: request.clone(),
                kind: kind.clone(),
                package: package.clone(),
                reason: reason.clone(),
                scope: copy_option(scope),
                anonymous: *anonymous,
                output: copy_option(output),
            },
        }
    }
}

/// A request that is ready but for its work to be handed on.
pub struct RequestPlan {
    pub place: usize,
    pub connection: u64,
    pub serial: u64,
    pub request: String,
    pub approval: String,
    pub asked: PermissionRequest,
    pub approved: bool,
    pub work: Option<Work>,
}

/// Whether a configuration allows a scope: the default one is implied.
pub open spec fn scope_allowed(i: Inheritance, name: Seq<char>) -> bool {
    maybe(i.default_scope) == Some(name) || texts(i.allowed_scopes@).contains(name)
}

/// The scope that a request means: without one, the one the session is in.
pub open spec fn meant_scope(p: PermissionRequest, a: Active) -> Option<Seq<char>> {
    if p.kind@ == "docker"@ && !p.anonymous && p.scope is None {
        maybe(a.record.docker_scope)
    } else {
        maybe(p.scope)
    }
}

/// What a request is shown as asking for.
pub open spec fn meant_package(p: PermissionRequest, a: Active) -> Seq<char> {
    if p.kind@ == "docker"@ {
        match meant_scope(p, a) {
            Some(s) => "Docker scope: "@ + s,
            None => "Docker engine"@,
        }
    } else {
        p.package@
    }
}

/// The first request that nothing more comes of.
pub open spec fn closed_place(p: Seq<PermissionRecord>, i: int) -> Option<int>
    decreases p.len() - i,
{
    if i < 0 || i >= p.len() {
        None
    } else if !p[i].state.is_open() {
        Some(i)
    } else {
        closed_place(p, i + 1)
    }
}

/// Why a request of a session is refused, if it is.
pub open spec fn request_refusal(c: Controller, i: int, p: PermissionRequest) -> Option<
    (int, Seq<char>),
> {
    let a = c.sessions@[i];
    if !is_proper(p) {
        Some((-32602, "invalid permission request or reason"@))
    } else if a.record.state != SessionState::Running || a.pending is Some {
        Some(is_stale())
    } else if p.kind@ == "docker"@ && meant_scope(p, a) is Some && !(a.inheritance matches Some(h)
        && scope_allowed(h, meant_scope(p, a)->0)) {
        Some((-32602, "Docker scope is not allowed by this configuration"@))
    } else if p.kind@ == "package"@ && a.record.packages@.len() >= 64 {
        Some(is_full())
    } else if c.permissions@.len() >= PERMISSIONS && closed_place(c.permissions@, 0) is None {
        Some(is_full())
    } else {
        None
    }
}

/// The requests that are remembered beside a new one.
pub open spec fn with_room(p: Seq<PermissionRecord>) -> Seq<PermissionRecord> {
    if p.len() >= PERMISSIONS {
        match closed_place(p, 0) {
            Some(k) => p.remove(k),
            None => p,
        }
    } else {
        p
    }
}

/// The path that is granted again without a question, where the session or one
/// that owns it was granted the package.
pub open spec fn inherited_path(c: Controller, i: int, p: PermissionRequest) -> Option<Seq<char>> {
    if p.kind@ == "package"@ {
        granted_above(
            c.sessions@,
            c.sessions@[i].record.id@,
            p.package@,
            (c.sessions@.len() + 1) as nat,
        )
    } else {
        None
    }
}

/// A request is approved without a question where it is for a package that was
/// granted above, or for the Docker scope that the session is in already.
pub open spec fn self_evident(c: Controller, i: int, p: PermissionRequest) -> bool {
    let a = c.sessions@[i];
    ||| inherited_path(c, i, p) is Some
    ||| p.kind@ == "docker"@ && !p.anonymous && a.record.docker_enabled && meant_scope(p, a)
        == maybe(a.record.docker_scope)
}

pub open spec fn is_request_plan(
    r: RequestPlan,
    c: Controller,
    i: int,
    p: PermissionRequest,
    connection: u64,
) -> bool {
    let a = c.sessions@[i];
    &&& r.place == i
    &&& r.connection == connection
    &&& r.serial == c.next + 1
    &&& r.request@ == request_id(c.instance@, r.serial)
    &&& r.approval@ == c.instance@ + "-a"@ + decimal_of(r.serial as nat)
    &&& r.asked.kind@ == p.kind@
    &&& r.asked.package@ == meant_package(p, a)
    &&& r.asked.reason@ == p.reason@
    &&& maybe(r.asked.scope) == meant_scope(p, a)
    &&& r.asked.anonymous == p.anonymous
    &&& r.approved == self_evident(c, i, p)
    &&& match r.work {
        Some(Work::Decide { request, kind, package, reason, scope, anonymous, output }) => {
            &&& r.approved
            &&& request@ == r.request@ && kind@ == p.kind@ && package@ == r.asked.package@
            &&& reason@ == p.reason@ && maybe(scope) == maybe(r.asked.scope) && anonymous
                == p.anonymous
            &&& maybe(output) == inherited_path(c, i, p)
        },
        Some(Work::Preview { serial, package }) => {
            &&& !r.approved && p.kind@ == "package"@
            &&& serial == r.serial && package@ == p.package@
        },
        None => !r.approved && p.kind@ != "package"@,
    }
}

proof fn lemma_closed_place(p: Seq<PermissionRecord>, i: int)
    requires
        0 <= i,
    ensures
        closed_place(p, i) matches Some(k) ==> i <= k < p.len() && !p[k].state.is_open(),
    decreases p.len() - i,
{
    if i < p.len() {
        lemma_closed_place(p, i + 1);
    }
}

proof fn lemma_room(p: Seq<PermissionRecord>, instance: Seq<char>, next: u64)
    requires
        distinct_requests(p),
        requests_numbered(p, instance, next),
        p.len() <= PERMISSIONS,
    ensures
        distinct_requests(with_room(p)),
        requests_numbered(with_room(p), instance, next),
        p.len() < PERMISSIONS || closed_place(p, 0) is Some ==> with_room(p).len() < PERMISSIONS,
{
    lemma_closed_place(p, 0);
    let q = with_room(p);
    if p.len() >= PERMISSIONS && closed_place(p, 0) is Some {
        let k = closed_place(p, 0)->0;
        assert forall|i: int| 0 <= i < q.len() implies #[trigger] q[i] == if i < k {
            p[i]
        } else {
            p[i + 1]
        } by {}
        assert forall|i: int, j: int| 0 <= i < j < q.len() implies (#[trigger] q[i]).id@ != (
        #[trigger] q[j]).id@ by {
            let a = if i < k { i } else { i + 1 };
            let b = if j < k { j } else { j + 1 };
            assert(p[a].id@ != p[b].id@);
        }
        assert forall|i: int| 0 <= i < q.len() implies request_numbered(
            #[trigger] q[i],
            instance,
            next,
        ) by {
            let a = if i < k { i } else { i + 1 };
            assert(request_numbered(p[a], instance, next));
        }
    }
}

fn proper(p: &PermissionRequest) -> (r: bool)
    ensures
        r == is_proper(*p),
{
    let n: usize = chars(p.reason.as_str()).len();
    1 <= n && n <= 1024 && ((same(p.kind.as_str(), "package") && package_name(p.package.as_str()))
        || same(p.kind.as_str(), "docker"))
}

impl Inheritance {
    /// Whether the configuration allows a scope.
    pub fn docker_allowed(&self, name: &str) -> (r: bool)
        ensures
            r == scope_allowed(*self, name@),
    {
        let default = match &self.default_scope {
            Some(s) => same(s.as_str(), name),
            None => false,
        };
        default || holds(&self.allowed_scopes, name)
    }

    /// Whether the session began with that path.
    pub fn initially_available(&self, path: &str) -> (r: bool)
        ensures
            r == crate::paths::has_path(texts(self.initial_packages@), path@),
    {
        crate::paths::listed(&self.initial_packages, path)
    }
}

impl Controller {
    fn find_closed(&self) -> (r: Option<usize>)
        ensures
            match r {
                Some(k) => closed_place(self.permissions@, 0) == Some(k as int) && k
                    < self.permissions@.len(),
                None => closed_place(self.permissions@, 0) is None,
            },
    {
        let ghost p = self.permissions@;
        let mut i: usize = 0;
        while i < self.permissions.len()
            invariant
                p == self.permissions@,
                i <= p.len(),
                closed_place(p, 0) == closed_place(p, i as int),
            decreases p.len() - i,
        {
            if !self.permissions[i].state.open() {
                return Some(i);
            }
            i += 1;
        }
        None
    }

    /// Forgets the first request that nothing more comes of.
    pub fn evict_permission(&mut self) -> (r: bool)
        requires
            old(self).wf(),
        ensures
            final(self).wf(),
            match closed_place(old(self).permissions@, 0) {
                Some(k) => {
                    &&& r
                    &&& final(self).permissions@ == old(self).permissions@.remove(k)
                    &&& *final(self) == (Controller {
                        permissions: final(self).permissions,
                        ..*old(self)
                    })
                },
                None => !r && *final(self) == *old(self),
            },
    {
        let ghost before = *self;
        match self.find_closed() {
            None => false,
            Some(k) => {
                let _ = self.permissions.remove(k);
                proof {
                    lemma_removed(before.permissions@, k as int, before.instance@, before.next);
                }
                true
            },
        }
    }

    /// Decides on a request of a session. What is self-evident is approved at once.
    pub fn plan_request(&mut self, i: usize, p: PermissionRequest, connection: u64) -> (r: Result<
        RequestPlan,
        Fault,
    >)
        requires
            old(self).wf(),
            old(self).next < u64::MAX,
            i < old(self).sessions@.len(),
        ensures
            final(self).wf(),
            match request_refusal(*old(self), i as int, p) {
                Some(f) => is_fault(r, f) && *final(self) == *old(self),
                None => {
                    &&& r matches Ok(plan) && is_request_plan(
                        plan,
                        *old(self),
                        i as int,
                        p,
                        connection,
                    )
                    &&& final(self).permissions@ == with_room(old(self).permissions@)
                    &&& final(self).permissions@.len() < PERMISSIONS
                    &&& *final(self) == (Controller {
                        permissions: final(self).permissions,
                        next: (old(self).next + 1) as u64,
                        ..*old(self)
                    })
                    &&& request_ready(*final(self), r->Ok_0)
                },
            },
    {
        let ghost before = *self;
        if !proper(&p) {
            return Err((-32602, String::from_str("invalid permission request or reason")));
        }
        if self.sessions[i].record.state != SessionState::Running
            || self.sessions[i].pending.is_some() {
            return Err((-32009, String::from_str("stale or conflicting operation")));
        }
        let mut p = p;
        let docker = same(p.kind.as_str(), "docker");
        let package = same(p.kind.as_str(), "package");
        proof {
            reveal_strlit("docker");
            reveal_strlit("package");
            assert("docker"@.len() == 6 && "package"@.len() == 7);
        }
        if docker {
            if !p.anonymous && p.scope.is_none() {
                p.scope = copy_option(&self.sessions[i].record.docker_scope);
            }
            if let Some(name) = &p.scope {
                let allowed = match &self.sessions[i].inheritance {
                    Some(h) => h.docker_allowed(name.as_str()),
                    None => false,
                };
                if !allowed {
                    return Err(
                        (
                            -32602,
                            String::from_str("Docker scope is not allowed by this configuration"),
                        ),
                    );
                }
            }
            p.package = match &p.scope {
                Some(name) => {
                    let mut s = String::from_str("Docker scope: ");
                    s.push_str(name.as_str());
                    s
                },
                None => String::from_str("Docker engine"),
            };
        }
        if package && self.sessions[i].record.packages.len() >= 64 {
            return Err((-32010, String::from_str("resource limit reached")));
        }
        proof {
            lemma_room(before.permissions@, before.instance@, before.next);
        }
        if self.permissions.len() >= PERMISSIONS {
            match self.find_closed() {
                Some(k) => {
                    let _ = self.permissions.remove(k);
                },
                None => {
                    return Err((-32010, String::from_str("resource limit reached")));
                },
            }
        }
        assert(self.permissions@ == with_room(before.permissions@));
        let ghost trimmed = *self;
        assert(kept(trimmed));
        let serial: u64 = self.number();
        proof {
            lemma_number_kept(trimmed, *self);
        }
        let mut request = self.instance.clone();
        request.push_str("-r");
        request.push_str(decimal(serial).as_str());
        proof {
            assert forall|q: int| 0 <= q < self.permissions@.len() implies (
            #[trigger] self.permissions@[q]).id@ != request@ by {
                assert(request_numbered(trimmed.permissions@[q], trimmed.instance@, trimmed.next));
                let k = choose|k: u64|
                    k <= trimmed.next && trimmed.permissions@[q].id@ == #[trigger] request_id(
                        trimmed.instance@,
                        k,
                    );
                lemma_session_ids(trimmed.instance@, k, serial);
            }
        }
        let mut approval = self.instance.clone();
        approval.push_str("-a");
        approval.push_str(decimal(serial).as_str());
        let output = if package {
            self.inherits_package(self.sessions[i].record.id.as_str(), p.package.as_str())
        } else {
            None
        };
        let current = docker && !p.anonymous && self.sessions[i].record.docker_enabled
            && same_option(&p.scope, &self.sessions[i].record.docker_scope);
        let approved = output.is_some() || current;
        let work = if approved {
            Some(
                Work::Decide {
                    request: request.clone(),
                    kind: p.kind.clone(),
                    package: p.package.clone(),
                    reason: p.reason.clone(),
                    scope: copy_option(&p.scope),
                    anonymous: p.anonymous,
                    output,
                },
            )
        } else if package {
            Some(Work::Preview { serial, package: p.package.clone() })
        } else {
            None
        };
        Ok(
            RequestPlan {
                place: i,
                connection,
                serial,
                request,
                approval,
                asked: p,
                approved,
                work,
            },
        )
    }
}

/// A request is new, and its session waits for no other.
pub open spec fn request_ready(c: Controller, r: RequestPlan) -> bool {
    &&& r.place < c.sessions@.len()
    &&& c.sessions@[r.place as int].pending is None
    &&& c.permissions@.len() < PERMISSIONS
    &&& r.serial <= c.next
    &&& r.request@ == request_id(c.instance@, r.serial)
    &&& forall|q: int|
        0 <= q < c.permissions@.len() ==> (#[trigger] c.permissions@[q]).id@ != r.request@
}

/// What a host is shown of a request for Docker.
pub open spec fn docker_description(scope: Option<Seq<char>>) -> Seq<char> {
    match scope {
        Some(s) => "Join Docker trust group '"@ + s
            + "': members control the same containers, volumes, network, and combined filesystem grants. Named data persists after the last user leaves."@,
        None => "Use an anonymous rootless Docker scope, inherited by children; delete its data after the last attached sandbox exits."@,
    }
}

/// The record of a new request.
pub open spec fn is_record_of(p: PermissionRecord, c: Controller, r: RequestPlan) -> bool {
    let a = c.sessions@[r.place as int];
    &&& p.kind@ == r.asked.kind@
    &&& maybe(p.scope) == maybe(r.asked.scope)
    &&& p.anonymous == r.asked.anonymous
    &&& p.id@ == r.request@
    &&& p.session@ == a.record.id@
    &&& p.agent_name@ == a.record.agent_name@
    &&& p.approval@ == r.approval@
    &&& p.package@ == r.asked.package@
    &&& p.reason@ == r.asked.reason@
    &&& p.state == if r.approved {
        PermissionState::Realizing
    } else {
        PermissionState::Pending
    }
    &&& p.approved == if r.approved {
        Some(true)
    } else {
        None
    }
    &&& match p.preview {
        Some(PreviewShown::Description(d)) => r.asked.kind@ == "docker"@ && d@
            == docker_description(maybe(r.asked.scope)),
        None => r.asked.kind@ != "docker"@,
        _ => false,
    }
    &&& p.message is None
}

/// The wait of a session for a new request.
pub open spec fn is_wait_for(p: Option<Pending>, r: RequestPlan) -> bool {
    p matches Some(p) && p.id@ == r.request@ && p.serial == r.serial && p.connection
        == r.connection && p.initial_output is None && !p.cancelled
}

fn describe(scope: &Option<String>) -> (r: String)
    ensures
        r@ == docker_description(maybe(*scope)),
{
    match scope {
        Some(s) => {
            let mut r = String::from_str("Join Docker trust group '");
            r.push_str(s.as_str());
            r.push_str(
                "': members control the same containers, volumes, network, and combined filesystem grants. Named data persists after the last user leaves.",
            );
            r
        },
        None => String::from_str(
            "Use an anonymous rootless Docker scope, inherited by children; delete its data after the last attached sandbox exits.",
        ),
    }
}

/// Who decides on what: the session, the request, the approval that was shown, and the answer.
pub struct Decision {
    pub session: String,
    pub request: String,
    pub approval: String,
    pub approved: bool,
}

/// The places of a request that may be decided and of the session that waits for
/// it, or why it may not.
pub open spec fn decidable(c: Controller, d: Decision) -> Result<(int, int), (int, Seq<char>)> {
    match request_place(c.permissions@, d.request@) {
        None => Err(is_missing()),
        Some(q) => {
            let r = c.permissions@[q];
            if r.session@ != d.session@ || r.approval@ != d.approval@ || r.state
                != PermissionState::Pending {
                Err(is_stale())
            } else {
                match place(c.sessions@, d.session@) {
                    None => Err(is_missing()),
                    Some(i) => if pending_id(c.sessions@[i]) != Some(d.request@) {
                        Err(is_stale())
                    } else if connection_place(
                        c.connections@,
                        (c.sessions@[i].pending->0).connection,
                        0,
                    ) is None {
                        Err(is_stale())
                    } else {
                        Ok((q, i))
                    },
                }
            }
        },
    }
}

/// The place of a connection.
pub open spec fn connection_place(c: Seq<Connection>, id: u64, i: int) -> Option<int>
    decreases c.len() - i,
{
    if i < 0 || i >= c.len() {
        None
    } else if c[i].id == id {
        Some(i)
    } else {
        connection_place(c, id, i + 1)
    }
}

/// The work that an approval hands on: the path that was granted above, or that
/// the session began with, where there is one.
pub open spec fn is_approved_work(w: Work, c: Controller, q: int, i: int) -> bool {
    let r = c.permissions@[q];
    w matches Work::Decide { request, kind, package, reason, scope, anonymous, output } && {
        &&& request@ == r.id@ && kind@ == r.kind@ && package@ == r.package@ && reason@ == r.reason@
        &&& maybe(scope) == maybe(r.scope) && anonymous == r.anonymous
        &&& maybe(output) == chosen_output(c, q, i)
    }
}

pub open spec fn chosen_output(c: Controller, q: int, i: int) -> Option<Seq<char>> {
    let r = c.permissions@[q];
    let above = granted_above(
        c.sessions@,
        r.session@,
        r.package@,
        (c.sessions@.len() + 1) as nat,
    );
    if r.kind@ == "package"@ && above is Some {
        above
    } else {
        maybe((c.sessions@[i].pending->0).initial_output)
    }
}

/// A session whose preview is no longer wanted.
pub open spec fn without_preview(a: Active) -> Active {
    match a.pending {
        Some(p) => Active { pending: Some(Pending { cancelled: true, ..p }), ..a },
        None => a,
    }
}

impl Controller {
    /// Takes a new request whose work, where it has any, was handed on.
    pub fn finish_request(&mut self, r: RequestPlan, sent: bool) -> (x: Result<String, Fault>)
        requires
            old(self).wf(),
            request_ready(*old(self), r),
        ensures
            final(self).wf(),
            if r.work is Some && !sent {
                is_fault(x, is_full()) && *final(self) == *old(self)
            } else {
                let i = r.place as int;
                let a = old(self).sessions@[i];
                &&& x matches Ok(id) && id@ == r.request@
                &&& is_wait_for(final(self).sessions@[i].pending, r)
                &&& final(self).sessions@ == old(self).sessions@.update(
                    i,
                    Active { pending: final(self).sessions@[i].pending, ..a },
                )
                &&& final(self).permissions@.len() == old(self).permissions@.len() + 1
                &&& final(self).permissions@.drop_last() == old(self).permissions@
                &&& is_record_of(final(self).permissions@.last(), *old(self), r)
                &&& *final(self) == (Controller {
                    sessions: final(self).sessions,
                    permissions: final(self).permissions,
                    dirty: true,
                    ..*old(self)
                })
            },
    {
        if r.work.is_some() && !sent {
            return Err((-32010, String::from_str("resource limit reached")));
        }
        let ghost before = *self;
        let i: usize = r.place;
        let docker = same(r.asked.kind.as_str(), "docker");
        let record = PermissionRecord {
            kind: r.asked.kind.clone(),
            scope: copy_option(&r.asked.scope),
            anonymous: r.asked.anonymous,
            id: r.request.clone(),
            session: self.sessions[i].record.id.clone(),
            agent_name: self.sessions[i].record.agent_name.clone(),
            approval: r.approval.clone(),
            package: r.asked.package.clone(),
            reason: r.asked.reason.clone(),
            state: if r.approved {
                PermissionState::Realizing
            } else {
                PermissionState::Pending
            },
            approved: if r.approved {
                Some(true)
            } else {
                None
            },
            preview: if docker {
                Some(PreviewShown::Description(describe(&r.asked.scope)))
            } else {
                None
            },
            message: None,
        };
        self.sessions[i].pending = Some(
            Pending {
                initial_output: None,
                id: r.request.clone(),
                serial: r.serial,
                connection: r.connection,
                cancelled: false,
            },
        );
        self.permissions.push(record);
        self.dirty = true;
        proof {
            let entry = self.sessions@[i as int];
            lemma_update_kin(before.sessions@, i as int, entry);
            assert(self.sessions@ =~= before.sessions@.update(i as int, entry));
            lemma_kin(before.sessions@, self.sessions@);
            let p = before.permissions@;
            let q = self.permissions@;
            assert(q.drop_last() =~= p);
            assert forall|j: int, k: int| 0 <= j < k < q.len() implies (#[trigger] q[j]).id@ != (
            #[trigger] q[k]).id@ by {
                if k < p.len() {
                    assert(p[j].id@ != p[k].id@);
                } else {
                    assert(p[j].id@ != r.request@);
                }
            }
            assert forall|j: int| 0 <= j < q.len() implies request_numbered(
                #[trigger] q[j],
                self.instance@,
                self.next,
            ) by {
                if j < p.len() {
                    assert(request_numbered(p[j], before.instance@, before.next));
                } else {
                    assert(request_id(self.instance@, r.serial) == q[j].id@);
                }
            }
        }
        Ok(r.request)
    }

    pub(crate) fn find_connection(&self, id: u64) -> (r: Option<usize>)
        ensures
            match r {
                Some(k) => connection_place(self.connections@, id, 0) == Some(k as int) && k
                    < self.connections@.len(),
                None => connection_place(self.connections@, id, 0) is None,
            },
    {
        let ghost c = self.connections@;
        let mut i: usize = 0;
        while i < self.connections.len()
            invariant
                c == self.connections@,
                i <= c.len(),
                connection_place(c, id, 0) == connection_place(c, id, i as int),
            decreases c.len() - i,
        {
            if self.connections[i].id == id {
                return Some(i);
            }
            i += 1;
        }
        None
    }

    /// The places of the request and of the session that a decision is about.
    pub fn check_decision(&self, d: &Decision) -> (r: Result<(usize, usize), Fault>)
        ensures
            match r {
                Ok((q, i)) => {
                    &&& decidable(*self, *d) == Ok::<(int, int), (int, Seq<char>)>(
                        (q as int, i as int),
                    )
                    &&& q < self.permissions@.len() && i < self.sessions@.len()
                },
                Err(f) => decidable(*self, *d) == Err::<(int, int), (int, Seq<char>)>(fault(f)),
            },
    {
        let q = match self.find_request(d.request.as_str()) {
            Some(q) => q,
            None => {
                return Err((-32004, String::from_str("record absent or no longer retained")));
            },
        };
        let r = &self.permissions[q];
        if !same(r.session.as_str(), d.session.as_str()) || !same(
            r.approval.as_str(),
            d.approval.as_str(),
        ) || r.state != PermissionState::Pending {
            return Err((-32009, String::from_str("stale or conflicting operation")));
        }
        let i = match self.find(d.session.as_str()) {
            Some(i) => i,
            None => {
                return Err((-32004, String::from_str("record absent or no longer retained")));
            },
        };
        let found = match &self.sessions[i].pending {
            Some(p) => same(p.id.as_str(), d.request.as_str()) && self.find_connection(
                p.connection,
            ).is_some(),
            None => false,
        };
        if !found {
            return Err((-32009, String::from_str("stale or conflicting operation")));
        }
        Ok((q, i))
    }

    /// The place of the connection over which a decided session waits. Before the
    /// decision takes effect the caller sees whether anything has come over it.
    pub fn decision_peer(&self, d: &Decision) -> (r: Result<usize, Fault>)
        ensures
            match decidable(*self, *d) {
                Ok((q, i)) => r matches Ok(k) && Some(k as int) == connection_place(
                    self.connections@,
                    (self.sessions@[i].pending->0).connection,
                    0,
                ),
                Err(f) => is_fault(r, f),
            },
    {
        match self.check_decision(d) {
            Err(f) => Err(f),
            Ok((_, i)) => {
                let id: u64 = match &self.sessions[i].pending {
                    Some(p) => p.connection,
                    None => 0,
                };
                match self.find_connection(id) {
                    Some(k) => Ok(k),
                    None => Err((-32009, String::from_str("stale or conflicting operation"))),
                }
            },
        }
    }

    /// Hands an approval on. A preview is no longer wanted either way. Nothing is
    /// handed on for a denial.
    pub fn plan_decision(&mut self, d: &Decision) -> (r: Result<Option<Work>, Fault>)
        requires
            old(self).wf(),
            decidable(*old(self), *d) is Ok,
        ensures
            final(self).wf(),
            decidable(*old(self), *d) matches Ok((q, i)) && {
                &&& final(self).sessions@ == old(self).sessions@.update(
                    i,
                    without_preview(old(self).sessions@[i]),
                )
                &&& *final(self) == (Controller { sessions: final(self).sessions, ..*old(self) })
                &&& if !d.approved {
                    r matches Ok(None)
                } else if !old(self).sessions@[i].worker {
                    is_fault(r, is_stale())
                } else {
                    r matches Ok(Some(w)) && is_approved_work(w, *old(self), q, i)
                }
            },
    {
        let ghost before = *self;
        let (q, i) = match self.check_decision(d) {
            Ok(found) => found,
            Err(f) => {
                return Err(f);
            },
        };
        proof {
            lemma_request_place(self.permissions@, d.request@);
            lemma_place(self.sessions@, d.session@);
        }
        let above = if same(self.permissions[q].kind.as_str(), "package") {
            self.inherits_package(d.session.as_str(), self.permissions[q].package.as_str())
        } else {
            None
        };
        let initial = match &self.sessions[i].pending {
            Some(p) => copy_option(&p.initial_output),
            None => None,
        };
        if let Some(p) = &mut self.sessions[i].pending {
            p.cancelled = true;
        }
        proof {
            let entry = without_preview(before.sessions@[i as int]);
            assert(self.sessions@ =~= before.sessions@.update(i as int, entry));
            lemma_update_kin(before.sessions@, i as int, entry);
            lemma_kin(before.sessions@, self.sessions@);
        }
        if !d.approved {
            return Ok(None);
        }
        if !self.sessions[i].worker {
            return Err((-32009, String::from_str("stale or conflicting operation")));
        }
        let r = &self.permissions[q];
        let output = match above {
            Some(path) => Some(path),
            None => initial,
        };
        Ok(
            Some(
                Work::Decide {
                    request: d.request.clone(),
                    kind: r.kind.clone(),
                    package: r.package.clone(),
                    reason: r.reason.clone(),
                    scope: copy_option(&r.scope),
                    anonymous: r.anonymous,
                    output,
                },
            ),
        )
    }
}

/// The record of a decided request.
pub open spec fn decided(p: PermissionRecord, approved: bool) -> PermissionRecord {
    PermissionRecord {
        approved: Some(approved),
        state: if approved {
            PermissionState::Realizing
        } else {
            PermissionState::Denied
        },
        ..p
    }
}

proof fn lemma_record_kept(c: Controller, d: Controller, q: int, r: PermissionRecord)
    requires
        kept(c),
        0 <= q < c.permissions@.len(),
        r.id@ == c.permissions@[q].id@,
        d.permissions@ == c.permissions@.update(q, r),
        d == (Controller { permissions: d.permissions, ..c }),
    ensures
        kept(d),
{
    let a = c.permissions@;
    let b = d.permissions@;
    assert forall|i: int, j: int| 0 <= i < j < b.len() implies (#[trigger] b[i]).id@ != (
    #[trigger] b[j]).id@ by {
        assert(a[i].id@ != a[j].id@);
    }
    assert forall|i: int| 0 <= i < b.len() implies request_numbered(
        #[trigger] b[i],
        d.instance@,
        d.next,
    ) by {
        assert(request_numbered(a[i], c.instance@, c.next));
    }
}

impl Controller {
    /// A decision takes effect, once an approval was handed on.
    pub fn finish_decision(&mut self, d: &Decision, sent: bool) -> (r: Result<(), Fault>)
        requires
            old(self).wf(),
            decidable(*old(self), *d) is Ok,
        ensures
            final(self).wf(),
            decidable(*old(self), *d) matches Ok((q, i)) && if d.approved && !sent {
                is_fault(r, is_full()) && *final(self) == *old(self)
            } else {
                &&& r is Ok
                &&& final(self).permissions@ == old(self).permissions@.update(
                    q,
                    decided(old(self).permissions@[q], d.approved),
                )
                &&& if d.approved {
                    *final(self) == (Controller {
                        permissions: final(self).permissions,
                        dirty: true,
                        ..*old(self)
                    })
                } else {
                    &&& final(self).sessions@ == old(self).sessions@.update(
                        i,
                        Active { pending: None, ..old(self).sessions@[i] },
                    )
                    &&& answered(
                        old(self).connections@,
                        final(self).connections@,
                        d.request@,
                        "denied"@,
                        None,
                    )
                    &&& *final(self) == (Controller {
                        permissions: final(self).permissions,
                        sessions: final(self).sessions,
                        connections: final(self).connections,
                        dirty: true,
                        ..*old(self)
                    })
                }
            },
    {
        let ghost before = *self;
        if d.approved && !sent {
            return Err((-32010, String::from_str("resource limit reached")));
        }
        let (q, i) = match self.check_decision(d) {
            Ok(found) => found,
            Err(f) => {
                return Err(f);
            },
        };
        proof {
            lemma_request_place(self.permissions@, d.request@);
            lemma_place(self.sessions@, d.session@);
        }
        self.permissions[q].approved = Some(d.approved);
        self.permissions[q].state = if d.approved {
            PermissionState::Realizing
        } else {
            PermissionState::Denied
        };
        let ghost noted = *self;
        proof {
            assert(self.permissions@ =~= before.permissions@.update(
                q as int,
                decided(before.permissions@[q as int], d.approved),
            ));
            lemma_record_kept(
                before,
                noted,
                q as int,
                decided(before.permissions@[q as int], d.approved),
            );
        }
        if !d.approved {
            self.sessions[i].pending = None;
            proof {
                let entry = Active { pending: None, ..before.sessions@[i as int] };
                assert(self.sessions@ =~= before.sessions@.update(i as int, entry));
                lemma_update_kin(before.sessions@, i as int, entry);
                lemma_kin(before.sessions@, self.sessions@);
            }
            self.reply_permission(d.request.as_str(), "denied", None);
        }
        self.dirty = true;
        Ok(())
    }

    /// Something came over the connection of a session that is about to be decided
    /// on: it counts as gone, and the request as withdrawn.
    pub fn peer_spoke(&mut self, k: usize)
        requires
            old(self).wf(),
            k < old(self).connections@.len(),
        ensures
            final(self).wf(),
            final(self).connections@ == old(self).connections@.update(
                k as int,
                Connection { dead: true, ..old(self).connections@[k as int] },
            ),
            ({
                let c = Controller { connections: final(self).connections, ..*old(self) };
                match crate::control::undecided(c, old(self).connections@[k as int].id, 0) {
                    None => *final(self) == c,
                    Some(i) => {
                        &&& final(self).sessions@ == c.sessions@.update(
                            i,
                            Active { pending: None, ..c.sessions@[i] },
                        )
                        &&& final(self).permissions@ == with_state(
                            c.permissions@,
                            pending_id(c.sessions@[i])->0,
                            PermissionState::Withdrawn,
                        )
                        &&& *final(self) == (Controller {
                            sessions: final(self).sessions,
                            permissions: final(self).permissions,
                            dirty: true,
                            ..c
                        })
                    },
                }
            }),
    {
        let ghost before = *self;
        self.connections[k].dead = true;
        assert(self.connections@ =~= before.connections@.update(
            k as int,
            Connection { dead: true, ..before.connections@[k as int] },
        ));
        let id: u64 = self.connections[k].id;
        self.withdraw(id);
    }

    /// A package request that nobody has decided, and that is granted above its
    /// session or was there when it began.
    fn is_inherited(&self, q: usize) -> (r: bool)
        requires
            q < self.permissions@.len(),
        ensures
            r == follows_from_above(*self, q as int),
    {
        let r = &self.permissions[q];
        if r.state != PermissionState::Pending || !same(r.kind.as_str(), "package") {
            return false;
        }
        match self.find(r.session.as_str()) {
            None => false,
            Some(i) => {
                if self.sessions[i].record.state != SessionState::Running {
                    return false;
                }
                match &self.sessions[i].pending {
                    None => false,
                    Some(p) => p.initial_output.is_some() || self.inherits_package(
                        r.session.as_str(),
                        r.package.as_str(),
                    ).is_some(),
                }
            },
        }
    }

    /// The decisions that follow from what was granted before.
    pub fn inherited_decisions(&self) -> (r: Vec<Decision>)
        ensures
            decide_all(r@, *self, inherited_places(*self, self.permissions@.len())),
    {
        let mut r: Vec<Decision> = Vec::new();
        let mut q: usize = 0;
        while q < self.permissions.len()
            invariant
                q <= self.permissions@.len(),
                decide_all(r@, *self, inherited_places(*self, q as nat)),
            decreases self.permissions@.len() - q,
        {
            if self.is_inherited(q) {
                let p = &self.permissions[q];
                let d = Decision {
                    session: p.session.clone(),
                    request: p.id.clone(),
                    approval: p.approval.clone(),
                    approved: true,
                };
                assert(decides(d, *self, q as int));
                r.push(d);
            }
            q += 1;
        }
        r
    }
}

/// The places, among the first `n`, of the requests that follow from above.
pub open spec fn inherited_places(c: Controller, n: nat) -> Seq<int>
    decreases n,
{
    if n == 0 {
        Seq::empty()
    } else if follows_from_above(c, n - 1) {
        inherited_places(c, (n - 1) as nat).push(n - 1)
    } else {
        inherited_places(c, (n - 1) as nat)
    }
}

/// One decision for each of these requests, in their order.
pub open spec fn decide_all(v: Seq<Decision>, c: Controller, places: Seq<int>) -> bool {
    &&& v.len() == places.len()
    &&& forall|k: int| 0 <= k < v.len() ==> decides(#[trigger] v[k], c, places[k])
}

pub open spec fn follows_from_above(c: Controller, q: int) -> bool {
    let r = c.permissions@[q];
    &&& r.state == PermissionState::Pending
    &&& r.kind@ == "package"@
    &&& place(c.sessions@, r.session@) matches Some(i) && {
        let a = c.sessions@[i];
        &&& a.record.state == SessionState::Running
        &&& a.pending matches Some(p) && (p.initial_output is Some || granted_above(
            c.sessions@,
            r.session@,
            r.package@,
            (c.sessions@.len() + 1) as nat,
        ) is Some)
    }
}

/// A decision is about the request at that place, which follows from above.
pub open spec fn decides(d: Decision, c: Controller, q: int) -> bool {
    &&& 0 <= q < c.permissions@.len()
    &&& follows_from_above(c, q)
    &&& d.request@ == c.permissions@[q].id@
    &&& d.session@ == c.permissions@[q].session@
    &&& d.approval@ == c.permissions@[q].approval@
    &&& d.approved
}

proof fn lemma_removed(p: Seq<PermissionRecord>, k: int, instance: Seq<char>, next: u64)
    requires
        distinct_requests(p),
        requests_numbered(p, instance, next),
        0 <= k < p.len(),
    ensures
        distinct_requests(p.remove(k)),
        requests_numbered(p.remove(k), instance, next),
{
    let q = p.remove(k);
    assert forall|i: int, j: int| 0 <= i < j < q.len() implies (#[trigger] q[i]).id@ != (
    #[trigger] q[j]).id@ by {
        let a = if i < k { i } else { i + 1 };
        let b = if j < k { j } else { j + 1 };
        assert(p[a].id@ != p[b].id@);
    }
    assert forall|i: int| 0 <= i < q.len() implies request_numbered(
        #[trigger] q[i],
        instance,
        next,
    ) by {
        let a = if i < k { i } else { i + 1 };
        assert(request_numbered(p[a], instance, next));
    }
}

/// The request that makes room is the first one that is settled.
pub proof fn the_first_settled_request_makes_room(p: Seq<PermissionRecord>, from: int)
    requires
        0 <= from,
    ensures
        match closed_place(p, from) {
            Some(i) => {
                &&& from <= i < p.len()
                &&& !p[i].state.is_open()
                &&& forall|j: int| from <= j < i ==> !(!(#[trigger] p[j]).state.is_open())
            },
            None => forall|j: int|
                from <= j < p.len() ==> !(!(#[trigger] p[j]).state.is_open()),
        },
    decreases p.len() - from,
{
    if from < p.len() {
        the_first_settled_request_makes_room(p, from + 1);
    }
}

/// A connection is found by its number.
pub proof fn a_connection_is_found_by_its_number(c: Seq<Connection>, id: u64, from: int)
    requires
        0 <= from,
    ensures
        match connection_place(c, id, from) {
            Some(i) => {
                &&& from <= i < c.len()
                &&& c[i].id == id
                &&& forall|j: int| from <= j < i ==> !((#[trigger] c[j]).id == id)
            },
            None => forall|j: int|
                from <= j < c.len() ==> !((#[trigger] c[j]).id == id),
        },
    decreases c.len() - from,
{
    if from < c.len() {
        a_connection_is_found_by_its_number(c, id, from + 1);
    }
}

} // verus!
