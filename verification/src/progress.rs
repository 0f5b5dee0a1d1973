//! What the worker of a session reports, and what its terminal has come to.
use vstd::prelude::*;

use crate::catalog::Preview;
use crate::control::{
    all_wf, answered, ended_at, kept, kin_at, lemma_ended_kept, lemma_kin, lemma_request_place,
    lemma_update_kin, lemma_with_state, pending_id, request_numbered, request_place, with_state,
};
use crate::controller::{bounded, first_of, Active, Controller, Inheritance, Pending};
use crate::records::{
    Identity, PermissionRecord, PermissionState, PreviewShown, SessionRecord, SessionState,
};
use crate::terminal::{countable, kept_size, Terminal, TerminalView};
use crate::text::{copy_option, holds, maybe, same, texts};

verus! {

/// A payload that runs.
pub struct Begun {
    pub docker_enabled: bool,
    pub docker_scope: Option<String>,
    pub initial_packages: Vec<String>,
    pub identity: Identity,
    pub inheritance: Inheritance,
}

/// What came of carrying a request out.
pub struct Granted {
    /// It is there. Otherwise it failed.
    pub ready: bool,
    /// What the session is told: a status, and a concise reason.
    pub status: String,
    pub message: Option<String>,
    /// What the host is told beside it.
    pub detail: Option<String>,
    pub output: Option<String>,
    pub docker_scope: Option<String>,
}

/// What a terminal has come to.
#[derive(Clone, Copy, Debug, PartialEq, Eq, Structural)]
pub struct TerminalFlags {
    pub eof: bool,
    pub complete: bool,
    pub interrupted: bool,
    pub attached: bool,
    pub detached: bool,
}

pub open spec fn flags_of(t: TerminalView) -> TerminalFlags {
    TerminalFlags {
        eof: t.eof,
        complete: t.complete,
        interrupted: t.interrupted,
        attached: t.peer && !t.detached,
        detached: t.detached,
    }
}

pub fn terminal_flags(t: &Terminal) -> (r: TerminalFlags)
    ensures
        r == flags_of(t@),
{
    TerminalFlags {
        eof: t.eof(),
        complete: t.complete(),
        interrupted: t.interrupted(),
        attached: t.attached(),
        detached: t.detached(),
    }
}

/// A record that shows what its terminal has come to.
pub open spec fn with_flags(r: SessionRecord, f: TerminalFlags) -> SessionRecord {
    SessionRecord {
        pty_eof: f.eof,
        terminal_complete: f.complete,
        terminal_interrupted: f.interrupted,
        terminal_attached: f.attached,
        terminal_detached: f.detached,
        ..r
    }
}

/// One entry of the controller has changed, and nothing else but that it is to be
/// shown again.
pub open spec fn changed_at(before: Controller, after: Controller, i: int, entry: Active) -> bool {
    &&& after.sessions@ == before.sessions@.update(i, entry)
    &&& after == (Controller { sessions: after.sessions, dirty: true, ..before })
}

proof fn lemma_entry_kept(c: Controller, d: Controller, i: int, a: Active)
    requires
        kept(c),
        0 <= i < c.sessions@.len(),
        kin_at(c.sessions@[i], a),
        a.terminal.wf(),
        d.sessions@ == c.sessions@.update(i, a),
        d == (Controller { sessions: d.sessions, dirty: d.dirty, ..c }),
    ensures
        kept(d),
{
    lemma_update_kin(c.sessions@, i, a);
    lemma_kin(c.sessions@, d.sessions@);
}

/// A session whose payload runs. One that was told to stop in the meantime takes
/// no connections.
pub open spec fn running(a: Active, b: Begun, terminal: Terminal) -> Active {
    let first = a.record.state == SessionState::Starting;
    Active {
        record: SessionRecord {
            docker_enabled: b.docker_enabled,
            docker_scope: b.docker_scope,
            description: b.inheritance.description,
            initial_packages: b.initial_packages,
            identity: Some(b.identity),
            state: if first {
                SessionState::Running
            } else {
                a.record.state
            },
            ..a.record
        },
        exit_watch: true,
        inheritance: Some(b.inheritance),
        listening: a.listening || first,
        terminal,
        ..a
    }
}

/// The request that a preview is for, where it still waits for a decision.
pub open spec fn previewed(c: Controller, i: int, serial: u64) -> Option<int> {
    match c.sessions@[i].pending {
        Some(p) => if p.serial == serial {
            match request_place(c.permissions@, p.id@) {
                Some(q) => if c.permissions@[q].state == PermissionState::Pending {
                    Some(q)
                } else {
                    None
                },
                None => None,
            }
        } else {
            None
        },
        None => None,
    }
}

/// The path of a package, where the session began with it.
pub open spec fn initial_path(a: Active, path: Option<Seq<char>>) -> Option<Seq<char>> {
    match (path, a.inheritance) {
        (Some(p), Some(h)) => if crate::paths::has_path(texts(h.initial_packages@), p) {
            Some(p)
        } else {
            None
        },
        _ => None,
    }
}

impl Active {
    fn begin(&mut self, b: Begun) -> (r: Option<(u16, u16)>)
        requires
            old(self).terminal.wf(),
            countable(old(self).terminal@),
        ensures
            final(self).terminal.wf(),
            r == old(self).terminal@.dimensions,
            final(self).terminal@ == (TerminalView {
                master: true,
                revision: if r is Some {
                    (old(self).terminal@.revision + 1) as u64
                } else {
                    old(self).terminal@.revision
                },
                screen: match r {
                    Some((rows, cols)) => old(self).terminal@.screen.push(kept_size(rows, cols)),
                    None => old(self).terminal@.screen,
                },
                ..old(self).terminal@
            }),
            final(self).record.description@ == b.inheritance.description@,
            *final(self) == with_description(
                running(*old(self), b, final(self).terminal),
                final(self).record.description,
            ),
    {
        let size = self.terminal.master();
        let description = b.inheritance.description.clone();
        self.record.docker_enabled = b.docker_enabled;
        self.record.docker_scope = b.docker_scope;
        self.record.description = description;
        self.exit_watch = true;
        self.inheritance = Some(b.inheritance);
        self.record.initial_packages = b.initial_packages;
        self.record.identity = Some(b.identity);
        if self.record.state == SessionState::Starting {
            self.record.state = SessionState::Running;
            self.listening = true;
        }
        size
    }
}

impl Controller {
    /// A payload runs. Where the terminal was given a size before, the caller sets it.
    pub fn payload_started(&mut self, i: usize, b: Begun) -> (r: Option<(u16, u16)>)
        requires
            old(self).wf(),
            i < old(self).sessions@.len(),
            countable(old(self).sessions@[i as int].terminal@),
        ensures
            final(self).wf(),
            ({
                let a = old(self).sessions@[i as int];
                let t = final(self).sessions@[i as int].terminal;
                &&& r == a.terminal@.dimensions
                &&& t@ == (TerminalView {
                    master: true,
                    revision: if r is Some {
                        (a.terminal@.revision + 1) as u64
                    } else {
                        a.terminal@.revision
                    },
                    screen: match r {
                        Some((rows, cols)) => a.terminal@.screen.push(kept_size(rows, cols)),
                        None => a.terminal@.screen,
                    },
                    ..a.terminal@
                })
                &&& exists|description: String|
                    {
                        &&& description@ == b.inheritance.description@
                        &&& #[trigger] changed_at(
                            *old(self),
                            *final(self),
                            i as int,
                            with_description(running(a, b, t), description),
                        )
                    }
            }),
    {
        let ghost before = *self;
        let ghost a = self.sessions@[i as int];
        let size = self.sessions[i].begin(b);
        self.dirty = true;
        proof {
            let t = self.sessions@[i as int].terminal;
            let said = self.sessions@[i as int].record.description;
            let entry = with_description(running(a, b, t), said);
            assert(self.sessions@ =~= before.sessions@.update(i as int, entry));
            lemma_entry_kept(before, *self, i as int, entry);
            assert(changed_at(before, *self, i as int, entry));
        }
        size
    }

    /// A preview is there. It is shown as long as nobody has decided; where the
    /// session began with the package, its path is kept for the decision.
    pub fn preview_done(
        &mut self,
        i: usize,
        serial: u64,
        result: Result<Preview, String>,
        path: Option<String>,
    )
        requires
            old(self).wf(),
            i < old(self).sessions@.len(),
        ensures
            final(self).wf(),
            match previewed(*old(self), i as int, serial) {
                None => *final(self) == *old(self),
                Some(q) => {
                    let a = old(self).sessions@[i as int];
                    let r = old(self).permissions@[q];
                    let p = final(self).permissions@[q].preview;
                    let kept_path = final(self).sessions@[i as int].pending->0.initial_output;
                    &&& final(self).permissions@ == old(self).permissions@.update(
                        q,
                        PermissionRecord { preview: p, ..r },
                    )
                    &&& match result {
                        Ok(preview) => p == Some(PreviewShown::Package(preview)) && maybe(kept_path)
                            == initial_path(a, maybe(path)),
                        Err(e) => {
                            &&& p matches Some(PreviewShown::Failed(m)) && m@ == first_of(e@, 512)
                            &&& kept_path == (a.pending->0).initial_output
                        },
                    }
                    &&& final(self).sessions@ == old(self).sessions@.update(
                        i as int,
                        Active {
                            pending: Some(
                                Pending { initial_output: kept_path, ..a.pending->0 },
                            ),
                            ..a
                        },
                    )
                    &&& *final(self) == (Controller {
                        sessions: final(self).sessions,
                        permissions: final(self).permissions,
                        dirty: true,
                        ..*old(self)
                    })
                },
            },
    {
        let ghost before = *self;
        let ghost a = self.sessions@[i as int];
        let id = match &self.sessions[i].pending {
            Some(p) => if p.serial == serial {
                p.id.clone()
            } else {
                return ;
            },
            None => {
                return ;
            },
        };
        let q = match self.find_request(id.as_str()) {
            Some(q) => q,
            None => {
                return ;
            },
        };
        if self.permissions[q].state != PermissionState::Pending {
            return ;
        }
        match result {
            Ok(preview) => {
                let known = match (&path, &self.sessions[i].inheritance) {
                    (Some(p), Some(h)) => h.initially_available(p.as_str()),
                    _ => false,
                };
                let kept_path = if known {
                    path
                } else {
                    None
                };
                if let Some(p) = &mut self.sessions[i].pending {
                    p.initial_output = kept_path;
                }
                self.permissions[q].preview = Some(PreviewShown::Package(preview));
            },
            Err(e) => {
                self.permissions[q].preview = Some(PreviewShown::Failed(bounded(e.as_str())));
            },
        }
        self.dirty = true;
        proof {
            let entry = self.sessions@[i as int];
            assert(entry == (Active { pending: entry.pending, ..a }));
            assert(self.sessions@ =~= before.sessions@.update(i as int, entry));
            lemma_update_kin(before.sessions@, i as int, entry);
            lemma_kin(before.sessions@, self.sessions@);
            lemma_records_kept(before, *self, q as int);
        }
    }

    /// A request gets on, as long as it is being carried out and its session waits for it.
    pub fn progressed(&mut self, i: usize, request: &str, state: PermissionState)
        requires
            old(self).wf(),
            i < old(self).sessions@.len(),
        ensures
            final(self).wf(),
            if pending_id(old(self).sessions@[i as int]) == Some(request@) && (request_place(
                old(self).permissions@,
                request@,
            ) matches Some(q) && old(self).permissions@[q].state.is_under_way()) {
                &&& final(self).permissions@ == with_state(old(self).permissions@, request@, state)
                &&& *final(self) == (Controller {
                    permissions: final(self).permissions,
                    dirty: true,
                    ..*old(self)
                })
            } else {
                *final(self) == *old(self)
            },
    {
        let ghost before = *self;
        let waits = match &self.sessions[i].pending {
            Some(p) => same(p.id.as_str(), request),
            None => false,
        };
        if !waits {
            return ;
        }
        if let Some(q) = self.find_request(request) {
            if self.permissions[q].state.under_way() {
                self.set_state(request, state);
                self.dirty = true;
                proof {
                    lemma_with_state(before.permissions@, request@, state);
                }
            }
        }
    }
}

/// A host's own words, cut to size.
pub open spec fn cut_text(s: Option<String>) -> Option<Seq<char>> {
    match s {
        Some(t) => Some(first_of(t@, 512)),
        None => None,
    }
}

/// What a request's record says once it was carried out.
pub open spec fn is_carried_out(p: PermissionRecord, before: PermissionRecord, g: Granted) -> bool {
    &&& p.state == if g.ready {
        PermissionState::Ready
    } else {
        PermissionState::Failed
    }
    &&& maybe(p.message) == match cut_text(g.detail) {
        Some(d) => Some(d),
        None => maybe(g.message),
    }
    &&& p == (PermissionRecord { state: p.state, message: p.message, ..before })
}

/// What a request that was carried out adds to a session.
pub open spec fn gains(a: Active, before: Active, r: PermissionRecord, g: Granted) -> bool {
    let docker = g.ready && r.kind@ == "docker"@;
    let package = g.ready && r.kind@ == "package"@ && !texts(before.record.packages@).contains(
        r.package@,
    );
    &&& a.record.docker_enabled == (before.record.docker_enabled || docker)
    &&& maybe(a.record.docker_scope) == if docker {
        maybe(g.docker_scope)
    } else {
        maybe(before.record.docker_scope)
    }
    &&& texts(a.record.packages@) == if package {
        texts(before.record.packages@).push(r.package@)
    } else {
        texts(before.record.packages@)
    }
    &&& if package && g.output is Some {
        &&& a.granted_outputs@.len() == before.granted_outputs@.len() + 1
        &&& a.granted_outputs@.drop_last() == before.granted_outputs@
        &&& a.granted_outputs@.last().0@ == r.package@
        &&& a.granted_outputs@.last().1@ == (g.output->0)@
    } else {
        a.granted_outputs@ == before.granted_outputs@
    }
    &&& a == (Active {
        granted_outputs: a.granted_outputs,
        record: SessionRecord {
            docker_enabled: a.record.docker_enabled,
            docker_scope: a.record.docker_scope,
            packages: a.record.packages,
            ..before.record
        },
        ..before
    })
}

/// What a session has once a request was carried out.
pub open spec fn is_endowed(
    a: Active,
    before: Active,
    request: Option<PermissionRecord>,
    g: Granted,
) -> bool {
    let rest = Active { pending: None, ..before };
    let same_detail = Active {
        record: SessionRecord { detail: before.record.detail, ..a.record },
        ..a
    };
    &&& maybe(a.record.detail) == cut_text(g.detail)
    &&& match request {
        Some(r) => gains(same_detail, rest, r, g),
        None => same_detail == rest,
    }
}

/// A session that could not be started.
pub open spec fn unstarted(a: Active, terminal: Terminal, detail: Option<String>) -> Active {
    Active {
        record: SessionRecord { state: SessionState::Failed, detail, ..a.record },
        terminal,
        ..a
    }
}

/// A session whose payload has ended.
pub open spec fn payload_over(a: Active, terminal: Terminal, exit_code: Option<i32>) -> Active {
    Active {
        record: SessionRecord {
            state: if a.record.state == SessionState::Failed {
                SessionState::Failed
            } else {
                SessionState::Stopped
            },
            exit_code,
            ..a.record
        },
        listening: false,
        pending: None,
        terminal,
        ..a
    }
}

/// A terminal that no payload will ever use.
pub open spec fn unused(t: TerminalView) -> TerminalView {
    TerminalView { eof: true, interrupted: true, ..t }
}

/// A session without its worker.
pub open spec fn unserved(a: Active) -> Active {
    Active { worker: false, inheritance: None, exit_watch: false, ..a }
}

/// A session whose worker ended without a word.
pub open spec fn abandoned(a: Active, terminal: Terminal, detail: Option<String>) -> Active {
    Active {
        record: SessionRecord { state: SessionState::Failed, detail, ..a.record },
        listening: false,
        pending: None,
        terminal,
        ..unserved(a)
    }
}

fn cut(s: &Option<String>) -> (r: Option<String>)
    ensures
        maybe(r) == cut_text(*s),
{
    match s {
        Some(t) => Some(bounded(t.as_str())),
        None => None,
    }
}

fn carry_out(p: &mut PermissionRecord, g: &Granted)
    ensures
        is_carried_out(*final(p), *old(p), *g),
{
    p.state = if g.ready {
        PermissionState::Ready
    } else {
        PermissionState::Failed
    };
    p.message = match cut(&g.detail) {
        Some(d) => Some(d),
        None => copy_option(&g.message),
    };
}

impl Active {
    fn endow(&mut self, r: &PermissionRecord, g: &Granted)
        ensures
            gains(*final(self), *old(self), *r, *g),
    {
        if !g.ready {
            return ;
        }
        if same(r.kind.as_str(), "docker") {
            self.record.docker_enabled = true;
            self.record.docker_scope = copy_option(&g.docker_scope);
            proof {
                reveal_strlit("docker");
                reveal_strlit("package");
                assert("docker"@.len() == 6 && "package"@.len() == 7);
            }
            return ;
        }
        if same(r.kind.as_str(), "package") && !holds(&self.record.packages, r.package.as_str()) {
            let ghost had = self.record.packages@;
            self.record.packages.push(r.package.clone());
            assert(texts(self.record.packages@) =~= texts(had).push(r.package@));
            if let Some(output) = &g.output {
                let ghost outputs = self.granted_outputs@;
                self.granted_outputs.push((r.package.clone(), output.clone()));
                assert(self.granted_outputs@.drop_last() =~= outputs);
            }
        }
    }

    fn close(&mut self, detail: &Option<String>)
        ensures
            maybe(final(self).record.detail) == cut_text(*detail),
            *final(self) == (Active {
                pending: None,
                record: SessionRecord { detail: final(self).record.detail, ..old(self).record },
                ..*old(self)
            }),
    {
        self.pending = None;
        self.record.detail = cut(detail);
    }

    fn show(&mut self, now: TerminalFlags)
        ensures
            *final(self) == (Active { record: with_flags(old(self).record, now), ..*old(self) }),
    {
        self.record.pty_eof = now.eof;
        self.record.terminal_complete = now.complete;
        self.record.terminal_interrupted = now.interrupted;
        self.record.terminal_attached = now.attached;
        self.record.terminal_detached = now.detached;
    }

    fn end_payload(&mut self, exit_code: Option<i32>)
        requires
            old(self).terminal.wf(),
        ensures
            final(self).terminal.wf(),
            if old(self).record.identity is None {
                final(self).terminal@ == unused(old(self).terminal@)
            } else {
                final(self).terminal == old(self).terminal
            },
            *final(self) == (Active {
                pending: old(self).pending,
                ..payload_over(*old(self), final(self).terminal, exit_code)
            }),
    {
        if self.record.identity.is_none() {
            self.terminal.failed_start();
        }
        if self.record.state != SessionState::Failed {
            self.record.state = SessionState::Stopped;
        }
        self.record.exit_code = exit_code;
        self.listening = false;
    }

    fn abandon(&mut self)
        requires
            old(self).terminal.wf(),
        ensures
            final(self).terminal.wf(),
            if old(self).record.identity is None {
                final(self).terminal@ == unused(old(self).terminal@)
            } else {
                final(self).terminal == old(self).terminal
            },
            maybe(final(self).record.detail) == Some(
                "session worker exited without a final lifecycle result"@,
            ),
            *final(self) == (Active {
                pending: old(self).pending,
                ..abandoned(*old(self), final(self).terminal, final(self).record.detail)
            }),
    {
        self.worker = false;
        self.inheritance = None;
        self.exit_watch = false;
        self.record.state = SessionState::Failed;
        self.record.detail = Some(
            String::from_str("session worker exited without a final lifecycle result"),
        );
        self.listening = false;
        if self.record.identity.is_none() {
            self.terminal.failed_start();
        }
    }
}

impl Controller {
    /// A request was carried out, or could not be. Whoever waits for it is told.
    pub fn granted(&mut self, i: usize, g: Granted)
        requires
            old(self).wf(),
            i < old(self).sessions@.len(),
        ensures
            final(self).wf(),
            *final(self) == (Controller {
                sessions: final(self).sessions,
                permissions: final(self).permissions,
                connections: final(self).connections,
                dirty: true,
                ..*old(self)
            }),
            final(self).sessions@ == old(self).sessions@.update(
                i as int,
                final(self).sessions@[i as int],
            ),
            is_endowed(
                final(self).sessions@[i as int],
                old(self).sessions@[i as int],
                request_of(*old(self), i as int),
                g,
            ),
            match pending_id(old(self).sessions@[i as int]) {
                Some(id) => {
                    &&& records_outcome(old(self).permissions@, final(self).permissions@, id, g)
                    &&& answered(
                        old(self).connections@,
                        final(self).connections@,
                        id,
                        g.status@,
                        maybe(g.message),
                    )
                },
                None => {
                    &&& final(self).permissions == old(self).permissions
                    &&& final(self).connections == old(self).connections
                },
            },
    {
        let ghost before = *self;
        let ghost a = self.sessions@[i as int];
        let id = match &self.sessions[i].pending {
            Some(p) => p.id.clone(),
            None => {
                self.sessions[i].close(&g.detail);
                self.dirty = true;
                proof {
                    let b = self.sessions@[i as int];
                    assert(self.sessions@ =~= before.sessions@.update(i as int, b));
                    lemma_entry_kept(before, *self, i as int, b);
                }
                return ;
            },
        };
        self.fulfil(i, id.as_str(), &g);
        let ghost m = *self;
        self.sessions[i].close(&g.detail);
        let ghost b = self.sessions@[i as int];
        let ghost closed = *self;
        proof {
            assert(closed.sessions@ =~= before.sessions@.update(i as int, b));
            lemma_fulfilled(before, m, i as int, b, id@, g);
        }
        self.reply_permission(id.as_str(), g.status.as_str(), g.message);
        self.dirty = true;
        proof {
            lemma_granted_kept(before, *self, i as int, b);
        }
    }

    fn fulfil(&mut self, i: usize, id: &str, g: &Granted)
        requires
            i < old(self).sessions@.len(),
        ensures
            *final(self) == (Controller {
                permissions: final(self).permissions,
                sessions: final(self).sessions,
                ..*old(self)
            }),
            final(self).sessions@ == old(self).sessions@.update(
                i as int,
                final(self).sessions@[i as int],
            ),
            records_outcome(old(self).permissions@, final(self).permissions@, id@, *g),
            match request_place(old(self).permissions@, id@) {
                Some(q) => gains(
                    final(self).sessions@[i as int],
                    old(self).sessions@[i as int],
                    old(self).permissions@[q],
                    *g,
                ),
                None => final(self).sessions == old(self).sessions,
            },
    {
        let ghost before = *self;
        proof {
            lemma_request_place(before.permissions@, id@);
        }
        if let Some(q) = self.find_request(id) {
            carry_out(&mut self.permissions[q], g);
            assert(self.permissions@ =~= before.permissions@.update(
                q as int,
                self.permissions@[q as int],
            ));
            self.sessions[i].endow(&self.permissions[q], g);
            assert(self.sessions@ =~= before.sessions@.update(i as int, self.sessions@[i as int]));
        }
    }

    /// A session could not be started.
    pub fn start_failed(&mut self, i: usize, e: &str)
        requires
            old(self).wf(),
            i < old(self).sessions@.len(),
        ensures
            final(self).wf(),
            ({
                let a = old(self).sessions@[i as int];
                let b = final(self).sessions@[i as int];
                &&& b.terminal@ == unused(a.terminal@)
                &&& maybe(b.record.detail) == Some(first_of(e@, 512))
                &&& changed_at(
                    *old(self),
                    *final(self),
                    i as int,
                    unstarted(a, b.terminal, b.record.detail),
                )
            }),
    {
        let ghost before = *self;
        self.sessions[i].record.state = SessionState::Failed;
        self.sessions[i].record.detail = Some(bounded(e));
        self.sessions[i].terminal.failed_start();
        self.dirty = true;
        proof {
            let b = self.sessions@[i as int];
            assert(self.sessions@ =~= before.sessions@.update(i as int, b));
            lemma_entry_kept(before, *self, i as int, b);
        }
    }

    /// A payload has ended. What its session waits for is cancelled.
    pub fn payload_stopped(&mut self, i: usize, exit_code: Option<i32>)
        requires
            old(self).wf(),
            i < old(self).sessions@.len(),
        ensures
            final(self).wf(),
            ({
                let a = old(self).sessions@[i as int];
                let t = final(self).sessions@[i as int].terminal;
                &&& if a.record.identity is None {
                    t@ == unused(a.terminal@)
                } else {
                    t == a.terminal
                }
                &&& ended_at(
                    *old(self),
                    *final(self),
                    i as int,
                    payload_over(a, t, exit_code),
                    PermissionState::Cancelled,
                    "error"@,
                    Some("payload stopped"@),
                )
            }),
    {
        let ghost before = *self;
        let ghost a = self.sessions@[i as int];
        self.sessions[i].end_payload(exit_code);
        self.end_pending(i, PermissionState::Cancelled, "error", "payload stopped");
        self.dirty = true;
        proof {
            let t = self.sessions@[i as int].terminal;
            let entry = payload_over(a, t, exit_code);
            assert(self.sessions@ =~= before.sessions@.update(i as int, entry));
            lemma_ended_kept(
                before,
                *self,
                i as int,
                entry,
                PermissionState::Cancelled,
                "error"@,
                Some("payload stopped"@),
            );
        }
    }

    /// The worker of a session has ended. A session never outlives its worker: one
    /// whose end was not reported has failed.
    pub fn worker_finished(&mut self, i: usize)
        requires
            old(self).wf(),
            i < old(self).sessions@.len(),
        ensures
            final(self).wf(),
            ({
                let a = old(self).sessions@[i as int];
                let b = final(self).sessions@[i as int];
                if a.record.state.is_over() {
                    &&& final(self).sessions@ == old(self).sessions@.update(i as int, unserved(a))
                    &&& *final(self) == (Controller {
                        sessions: final(self).sessions,
                        ..*old(self)
                    })
                } else {
                    &&& if a.record.identity is None {
                        b.terminal@ == unused(a.terminal@)
                    } else {
                        b.terminal == a.terminal
                    }
                    &&& maybe(b.record.detail) == Some(
                        "session worker exited without a final lifecycle result"@,
                    )
                    &&& ended_at(
                        *old(self),
                        *final(self),
                        i as int,
                        abandoned(a, b.terminal, b.record.detail),
                        PermissionState::Cancelled,
                        "error"@,
                        Some("session worker exited"@),
                    )
                }
            }),
    {
        let ghost before = *self;
        let ghost a = self.sessions@[i as int];
        if self.sessions[i].record.state.over() {
            self.sessions[i].worker = false;
            self.sessions[i].inheritance = None;
            self.sessions[i].exit_watch = false;
            proof {
                assert(self.sessions@ =~= before.sessions@.update(i as int, unserved(a)));
                lemma_entry_kept(before, *self, i as int, unserved(a));
            }
            return ;
        }
        self.sessions[i].abandon();
        self.end_pending(i, PermissionState::Cancelled, "error", "session worker exited");
        self.dirty = true;
        proof {
            let b = self.sessions@[i as int];
            let entry = abandoned(a, b.terminal, b.record.detail);
            assert(self.sessions@ =~= before.sessions@.update(i as int, entry));
            lemma_ended_kept(
                before,
                *self,
                i as int,
                entry,
                PermissionState::Cancelled,
                "error"@,
                Some("session worker exited"@),
            );
        }
    }

    /// Shows what a terminal has come to since it was like that.
    pub fn terminal_moved(&mut self, i: usize, since: TerminalFlags)
        requires
            old(self).wf(),
            i < old(self).sessions@.len(),
        ensures
            final(self).wf(),
            ({
                let a = old(self).sessions@[i as int];
                let now = flags_of(a.terminal@);
                &&& final(self).sessions@ == old(self).sessions@.update(
                    i as int,
                    Active { record: with_flags(a.record, now), ..a },
                )
                &&& *final(self) == (Controller {
                    sessions: final(self).sessions,
                    dirty: old(self).dirty || since != now,
                    ..*old(self)
                })
            }),
    {
        let ghost before = *self;
        let ghost a = self.sessions@[i as int];
        let now = terminal_flags(&self.sessions[i].terminal);
        if now != since {
            self.dirty = true;
        }
        self.sessions[i].show(now);
        proof {
            let entry = Active { record: with_flags(a.record, now), ..a };
            assert(self.sessions@ =~= before.sessions@.update(i as int, entry));
            lemma_entry_kept(before, *self, i as int, entry);
        }
    }

    /// A terminal could not be served.
    pub fn terminal_failed(&mut self, i: usize, e: &str)
        requires
            old(self).wf(),
            i < old(self).sessions@.len(),
        ensures
            final(self).wf(),
            ({
                let a = old(self).sessions@[i as int];
                let b = final(self).sessions@[i as int];
                &&& b.terminal@ == (TerminalView { interrupted: true, ..a.terminal@ })
                &&& maybe(b.record.detail) == Some(first_of(e@, 512))
                &&& final(self).sessions@ == old(self).sessions@.update(
                    i as int,
                    Active {
                        record: SessionRecord { detail: b.record.detail, ..a.record },
                        terminal: b.terminal,
                        ..a
                    },
                )
                &&& *final(self) == (Controller { sessions: final(self).sessions, ..*old(self) })
            }),
    {
        let ghost before = *self;
        self.sessions[i].record.detail = Some(bounded(e));
        self.sessions[i].terminal.interrupt();
        proof {
            let b = self.sessions@[i as int];
            assert(self.sessions@ =~= before.sessions@.update(i as int, b));
            lemma_entry_kept(before, *self, i as int, b);
        }
    }
}

/// A request that is over stays as it ended: a session that stopped waiting for it
/// no longer moves it.
pub proof fn an_ended_request_is_not_restored(c: Controller, i: int, request: Seq<char>)
    requires
        0 <= i < c.sessions@.len(),
        c.sessions@[i].pending is None,
    ensures
        pending_id(c.sessions@[i]) != Some(request),
        forall|serial: u64| #[trigger] previewed(c, i, serial) is None,
{
}

/// A session whose worker is gone is over.
pub proof fn no_session_outlives_its_worker(
    a: Active,
    terminal: Terminal,
    detail: Option<String>,
)
    ensures
        a.record.state.is_over() ==> unserved(a).record.state.is_over() && !unserved(a).worker,
        abandoned(a, terminal, detail).record.state.is_over(),
        !abandoned(a, terminal, detail).worker,
        abandoned(a, terminal, detail).pending is None,
{
}

/// The request that a session waits for, as it is recorded.
pub open spec fn request_of(c: Controller, i: int) -> Option<PermissionRecord> {
    match pending_id(c.sessions@[i]) {
        Some(id) => match request_place(c.permissions@, id) {
            Some(q) => Some(c.permissions@[q]),
            None => None,
        },
        None => None,
    }
}

/// What came of a request is recorded, and nothing else.
pub open spec fn records_outcome(
    before: Seq<PermissionRecord>,
    after: Seq<PermissionRecord>,
    id: Seq<char>,
    g: Granted,
) -> bool {
    match request_place(before, id) {
        Some(q) => {
            &&& is_carried_out(after[q], before[q], g)
            &&& after == before.update(q, after[q])
        },
        None => after == before,
    }
}

proof fn lemma_fulfilled(
    before: Controller,
    m: Controller,
    i: int,
    b: Active,
    id: Seq<char>,
    g: Granted,
)
    requires
        0 <= i < before.sessions@.len(),
        pending_id(before.sessions@[i]) == Some(id),
        records_outcome(before.permissions@, m.permissions@, id, g),
        match request_place(before.permissions@, id) {
            Some(q) => gains(m.sessions@[i], before.sessions@[i], before.permissions@[q], g),
            None => m.sessions@[i] == before.sessions@[i],
        },
        maybe(b.record.detail) == cut_text(g.detail),
        b == (Active {
            pending: None,
            record: SessionRecord { detail: b.record.detail, ..m.sessions@[i].record },
            ..m.sessions@[i]
        }),
    ensures
        is_endowed(b, before.sessions@[i], request_of(before, i), g),
        kin_at(before.sessions@[i], b),
        b.terminal == before.sessions@[i].terminal,
        m.permissions@.len() == before.permissions@.len(),
        forall|j: int|
            0 <= j < before.permissions@.len() ==> (#[trigger] m.permissions@[j]).id@
                == before.permissions@[j].id@,
{
    lemma_request_place(before.permissions@, id);
}

proof fn lemma_granted_kept(c: Controller, d: Controller, i: int, b: Active)
    requires
        kept(c),
        0 <= i < c.sessions@.len(),
        kin_at(c.sessions@[i], b),
        b.terminal.wf(),
        d.sessions@ == c.sessions@.update(i, b),
        d.permissions@.len() == c.permissions@.len(),
        forall|j: int|
            0 <= j < c.permissions@.len() ==> (#[trigger] d.permissions@[j]).id@
                == c.permissions@[j].id@,
        all_wf(d.connections@),
        d == (Controller {
            sessions: d.sessions,
            permissions: d.permissions,
            connections: d.connections,
            dirty: true,
            ..c
        }),
    ensures
        kept(d),
{
    lemma_update_kin(c.sessions@, i, b);
    lemma_kin(c.sessions@, d.sessions@);
    if c.permissions@.len() > 0 {
        lemma_records_kept(c, d, 0);
    }
}

/// The same entry with another copy of its description.
pub open spec fn with_description(a: Active, description: String) -> Active {
    Active { record: SessionRecord { description, ..a.record }, ..a }
}

proof fn lemma_records_kept(c: Controller, d: Controller, q: int)
    requires
        kept(c),
        0 <= q < c.permissions@.len(),
        d.permissions@.len() == c.permissions@.len(),
        forall|j: int|
            0 <= j < c.permissions@.len() ==> (#[trigger] d.permissions@[j]).id@
                == c.permissions@[j].id@,
        d.instance == c.instance,
        d.next == c.next,
    ensures
        crate::control::distinct_requests(d.permissions@),
        crate::control::requests_numbered(d.permissions@, d.instance@, d.next),
{
    let a = c.permissions@;
    let b = d.permissions@;
    assert forall|i: int, j: int| 0 <= i < j < b.len() implies (#[trigger] b[i]).id@ != (
    #[trigger] b[j]).id@ by {
        assert(a[i].id@ != a[j].id@);
    }
    assert forall|i: int| 0 <= i < b.len() implies request_numbered(
        #[trigger] b[i],
        d.instance@,
        d.next,
    ) by {
        assert(request_numbered(a[i], c.instance@, c.next));
    }
}

/// What is said of a terminal is what became of it: a consumer that has left is not there any more.
pub proof fn a_terminal_is_told_as_it_is(t: TerminalView, r: SessionRecord)
    ensures
        with_flags(r, flags_of(t)).pty_eof == t.eof,
        with_flags(r, flags_of(t)).terminal_complete == t.complete,
        with_flags(r, flags_of(t)).terminal_interrupted == t.interrupted,
        with_flags(r, flags_of(t)).terminal_detached == t.detached,
        with_flags(r, flags_of(t)).terminal_attached <==> t.peer && !t.detached,
        with_flags(r, flags_of(t)).state == r.state,
        with_flags(r, flags_of(t)).id == r.id,
        with_flags(r, flags_of(t)).exit_code == r.exit_code,
{
}

/// A preview is for the request that waits under its number, while it waits.
pub proof fn a_preview_is_for_what_waits(c: Controller, i: int, serial: u64, q: int)
    requires
        0 <= i < c.sessions@.len(),
        c.sessions@[i].pending is Some,
        request_place(c.permissions@, (c.sessions@[i].pending->0).id@) == Some(q),
    ensures
        previewed(c, i, serial) == Some(q) <==> (c.sessions@[i].pending->0).serial == serial
            && c.permissions@[q].state == PermissionState::Pending,
{
}

/// A payload that ends leaves its exit code, its session stops, and nothing of it waits any more; a
/// session that had failed stays failed.
pub proof fn an_ended_payload_leaves_its_code(a: Active, terminal: Terminal, exit_code: Option<i32>)
    ensures
        payload_over(a, terminal, exit_code).record.exit_code == exit_code,
        payload_over(a, terminal, exit_code).record.state.is_over(),
        a.record.state == SessionState::Failed <==> payload_over(a, terminal, exit_code).record.state
            == SessionState::Failed,
        payload_over(a, terminal, exit_code).pending is None,
        !payload_over(a, terminal, exit_code).listening,
        payload_over(a, terminal, exit_code).worker == a.worker,
        payload_over(a, terminal, exit_code).record.packages == a.record.packages,
        payload_over(a, terminal, exit_code).record.id == a.record.id,
{
}

/// A session that could not begin has failed, for the reason given, and keeps its worker and its
/// names.
pub proof fn a_session_that_could_not_begin_has_failed(
    a: Active,
    terminal: Terminal,
    detail: Option<String>,
)
    ensures
        unstarted(a, terminal, detail).record.state == SessionState::Failed,
        unstarted(a, terminal, detail).record.detail == detail,
        unstarted(a, terminal, detail).worker == a.worker,
        unstarted(a, terminal, detail).record.id == a.record.id,
        abandoned(a, terminal, detail).record.state == SessionState::Failed,
        abandoned(a, terminal, detail).record.detail == detail,
        abandoned(a, terminal, detail).inheritance is None,
        !abandoned(a, terminal, detail).listening,
{
}

} // verus!
