//! What the daemon hands to the mailbox, what it does with what comes back, and in what
//! order those that wait are served.
use vstd::prelude::*;

use crate::answers::{shown, Shown};
use crate::connection::{Connection, Role};
use crate::control::detaching;
use crate::controller::{addressed, capacity, is_full, place, Active, Controller};
use crate::directory::{fault, is_absent, is_fault, Directory, Fault, Session};
use crate::dispatch::borrowed;
use crate::endpoint::integration_place;
use crate::integration::{
    call_done, standing_at, Answer, Names, Observation, Params, ParamsView,
};
use crate::json::{lookup, set_text, with, Json};
use crate::launch::oldest;
use crate::mailbox::{
    execute_done, first_where, given_by, is_status, visible_to, Audit, Handed, OutcomeView, Status,
};
use crate::messages::{
    get_number, get_text, mutation_of, number_at, text_at, Mutation, MutationView,
};
use crate::messaging::Service;
use crate::permissions::closed_place;
use crate::records::SessionState;
use crate::rpc::{error, is_error, is_id_value, is_result, result, Call, RpcId};
use crate::terminal::{countable, observed};
use crate::text::{same, same_option, starts_with};
use crate::values::{answer_shown, inbox_shown, message_shown, outcome_shown, standing_shown};

verus! {

/// A call for the mailbox: who makes it, whom it can reach, and what the terminal of the
/// agent shows that it is about.
pub struct MailCall {
    pub actor: String,
    pub method: String,
    pub params: Json,
    pub directory: Directory,
    pub view: Observation,
}

/// Who calls.
pub open spec fn actor_of(role: Role) -> Seq<char> {
    match role {
        Role::Host => "host"@,
        Role::Sandbox(id) => id@,
    }
}

/// Calls about what drives an agent.
pub open spec fn about_integration(method: Seq<char>) -> bool {
    "integration."@.is_prefix_of(method)
}

/// A terminal that nothing is known of.
pub open spec fn unseen() -> Observation {
    Observation { revision: 0, ready: false, input: 0, interrupted: false, input_pending: false }
}

/// The parameters as they are handed on: what the host calls a session becomes its ID.
pub open spec fn directed(before: Json, after: Json, role: Role, id: Seq<char>) -> bool {
    match role {
        Role::Host => {
            &&& before is Object
            &&& after is Object
            &&& with(before.fields(), after.fields(), "session"@, id)
        },
        Role::Sandbox(_) => after == before,
    }
}

/// What is handed on of a call.
pub open spec fn carries(m: MailCall, c: Controller, role: Role, call: Call) -> bool {
    &&& m.actor@ == actor_of(role)
    &&& m.method == call.method
    &&& m.directory@ == addressed(c.sessions@)
}

impl Controller {
    /// Makes a call for the mailbox of a call, or says why it is refused.
    pub fn mail_call(&self, role: &Role, names: &Names, call: Call, now: u64) -> (r: Result<
        MailCall,
        Fault,
    >)
        ensures
            if about_integration(call.method@) {
                match integration_place(
                    *self,
                    names@,
                    *role,
                    text_at(call.params, "session"@),
                    call.method@,
                    text_at(call.params, "driver"@),
                ) {
                    Err(f) => is_fault(r, f),
                    Ok(i) => {
                        let a = self.sessions@[i];
                        &&& r matches Ok(m)
                        &&& carries(m, *self, *role, call)
                        &&& m.view == observed(a.terminal, now)
                        &&& directed(call.params, m.params, *role, a.record.id@)
                    },
                }
            } else {
                &&& r matches Ok(m)
                &&& carries(m, *self, *role, call)
                &&& m.view == unseen()
                &&& m.params == call.params
            },
    {
        let actor = match role {
            Role::Host => String::from_str("host"),
            Role::Sandbox(id) => id.clone(),
        };
        let method = call.method;
        let mut params = call.params;
        let mut view = Observation {
            revision: 0,
            ready: false,
            input: 0,
            interrupted: false,
            input_pending: false,
        };
        if starts_with(method.as_str(), "integration.") {
            let named = get_text(&params, "session");
            let driver = get_text(&params, "driver");
            let i = match self.integration_target(
                names,
                role,
                borrowed(&named),
                method.as_str(),
                borrowed(&driver),
            ) {
                Ok(i) => i,
                Err(f) => {
                    return Err(f);
                },
            };
            view = self.sessions[i].terminal.integration_view(now);
            if role.is_host() {
                if let Json::Object(members) = &mut params {
                    set_text(members, "session", self.sessions[i].record.id.as_str());
                }
            }
        }
        Ok(MailCall { actor, method, params, directory: self.message_directory(), view })
    }
}

impl Connection {
    /// A call was handed on, and its answer is awaited; or there was no room for it.
    pub fn handed(&mut self, id: &RpcId, sent: bool) -> (r: Result<(), Fault>)
        requires
            old(self).wf(),
        ensures
            final(self).wf(),
            if sent {
                &&& r is Ok
                &&& final(self).waiting matches Some((what, under))
                &&& what@ == "mailbox"@ && under == *id
                &&& *final(self) == (Connection { waiting: final(self).waiting, ..*old(self) })
            } else {
                is_fault(r, is_full()) && *final(self) == *old(self)
            },
    {
        if !sent {
            return Err(capacity());
        }
        self.waiting = Some((String::from_str("mailbox"), id.copy()));
        Ok(())
    }
}

/// The state of the terminal at which a notice is to be typed that an integration decided
/// on. One that is shown beside the terminal is not typed.
pub open spec fn notice_of(v: Json) -> Option<u64> {
    if lookup(v.fields(), "notify"@) == Some(Json::Bool(true)) && text_at(v, "delivery"@) != Some(
        "notification"@,
    ) {
        Some(
            match number_at(v, "revision"@) {
                Some(n) => n,
                None => 0,
            },
        )
    } else {
        None
    }
}

pub fn notice(v: &Json) -> (r: Option<u64>)
    ensures
        r == notice_of(*v),
{
    let wanted = match v.get("notify") {
        Some(Json::Bool(b)) => *b,
        _ => false,
    };
    if !wanted {
        return None;
    }
    if let Some(Json::Text(s)) = v.get("delivery") {
        if same(s.as_str(), "notification") {
            return None;
        }
    }
    match get_number(v, "revision") {
        Some(n) => Some(n),
        None => Some(0),
    }
}

/// What is told of a notice in place of what was planned.
pub fn delivered(v: &mut Json, typed: bool)
    ensures
        if *old(v) is Object {
            &&& *final(v) is Object
            &&& with(
                old(v).fields(),
                final(v).fields(),
                "delivery"@,
                if typed {
                    "submitted"@
                } else {
                    "deferred"@
                },
            )
        } else {
            *final(v) == *old(v)
        },
{
    let text = if typed {
        "submitted"
    } else {
        "deferred"
    };
    if let Json::Object(fields) = v {
        set_text(fields, "delivery", text);
    }
}

/// What the mailbox said, as an answer.
pub fn mail_answer(id: &RpcId, outcome: Result<Json, Fault>) -> (r: Json)
    ensures
        match outcome {
            Ok(v) => exists|under: Json| #[trigger]
                is_id_value(under, *id) && is_result(r, under, v),
            Err(f) => exists|under: Json| #[trigger]
                is_id_value(under, *id) && is_error(r, under, f.0 as int, f.1@),
        },
{
    match outcome {
        Ok(v) => result(id.value(), v),
        Err(f) => error(id.value(), f.0, f.1.as_str()),
    }
}

/// What had to go for room.
pub enum Room {
    /// A request that nothing more comes of.
    Request,
    /// The record of a session; its files are to be removed.
    Session(Active),
    /// Nothing can go.
    Nothing,
}

/// What makes room: the first request that nothing more comes of, and only without one
/// the oldest session that nobody needs.
pub open spec fn makes_room(c: Controller, d: Controller, r: Room) -> bool {
    match closed_place(c.permissions@, 0) {
        Some(k) => {
            &&& r is Request
            &&& d.permissions@ == c.permissions@.remove(k)
            &&& d == (Controller { permissions: d.permissions, ..c })
        },
        None => match oldest(c.sessions@, c.sessions@.len()) {
            Some(i) => {
                &&& r == Room::Session(c.sessions@[i])
                &&& d.sessions@ == c.sessions@.remove(i)
                &&& d == (Controller { sessions: d.sessions, ..c })
            },
            None => r is Nothing && d == c,
        },
    }
}

/// The numbers of the connections, among the first `n`, of the host or of sandboxes.
pub open spec fn numbers_of(k: Seq<Connection>, host: bool, n: nat) -> Seq<u64>
    decreases n,
{
    if n == 0 {
        Seq::empty()
    } else if (k[n - 1].role is Host) == host {
        numbers_of(k, host, (n - 1) as nat).push(k[n - 1].id)
    } else {
        numbers_of(k, host, (n - 1) as nat)
    }
}

impl Controller {
    /// The session at whose terminal a notice is typed: it must run.
    pub fn notice_target(&self, actor: &str) -> (r: Option<usize>)
        ensures
            match place(self.sessions@, actor@) {
                Some(i) => if self.sessions@[i].record.state == SessionState::Running {
                    r matches Some(k) && k == i
                } else {
                    r is None
                },
                None => r is None,
            },
    {
        match self.find(actor) {
            Some(i) => if self.sessions[i].record.state == SessionState::Running {
                Some(i)
            } else {
                None
            },
            None => None,
        }
    }

    /// Too much is shown: something goes, as long as there is anything that can.
    pub fn make_room(&mut self) -> (r: Room)
        requires
            old(self).wf(),
        ensures
            final(self).wf(),
            makes_room(*old(self), *final(self), r),
    {
        if self.evict_permission() {
            return Room::Request;
        }
        match self.evict_session() {
            Some(a) => Room::Session(a),
            None => Room::Nothing,
        }
    }

    /// The connections in the order in which they are served: what sandboxes have said
    /// counts before the host decides.
    pub fn serving_order(&self) -> (r: Vec<u64>)
        ensures
            r@ == numbers_of(self.connections@, false, self.connections@.len()) + numbers_of(
                self.connections@,
                true,
                self.connections@.len(),
            ),
    {
        let mut r = self.numbers(false);
        let mut hosts = self.numbers(true);
        r.append(&mut hosts);
        r
    }

    fn numbers(&self, host: bool) -> (r: Vec<u64>)
        ensures
            r@ == numbers_of(self.connections@, host, self.connections@.len()),
    {
        let ghost k = self.connections@;
        let mut r: Vec<u64> = Vec::new();
        let mut i: usize = 0;
        while i < self.connections.len()
            invariant
                k == self.connections@,
                i <= k.len(),
                r@ == numbers_of(k, host, i as nat),
            decreases k.len() - i,
        {
            if self.connections[i].role.is_host() == host {
                r.push(self.connections[i].id);
            }
            i += 1;
        }
        r
    }

    /// A sandbox sends the consumer of its own terminal away; nothing may follow on its
    /// connection, which closes after the answer.
    pub fn detach_own(&mut self, k: &mut Connection, own: usize) -> (r: Result<(), Fault>)
        requires
            old(self).wf(),
            old(k).wf(),
            own < old(self).sessions@.len(),
            countable(old(self).sessions@[own as int].terminal@),
        ensures
            final(self).wf(),
            final(k).wf(),
            if old(k).input@.len() > 0 {
                &&& is_fault(r, (-32600int, "unexpected trailing input"@))
                &&& *final(k) == (Connection { dead: true, ..*old(k) })
                &&& *final(self) == *old(self)
            } else {
                &&& detaching(*old(self), *final(self), own as int, r)
                &&& *final(k) == (Connection { close: old(k).close || r is Ok, ..*old(k) })
            },
    {
        if let Err(f) = k.check_trailing() {
            return Err(f);
        }
        let done = self.detach(own);
        if done.is_ok() {
            k.close = true;
        }
        done
    }
}

impl Session {
    /// Whether the mailbox would learn nothing new of it.
    pub fn same(&self, other: &Session) -> (r: bool)
        ensures
            r == (self@ == other@),
    {
        same(self.id.as_str(), other.id.as_str()) && same_option(&self.parent, &other.parent)
            && same(self.path.as_str(), other.path.as_str()) && self.running == other.running
    }
}

impl Directory {
    /// Whether the mailbox would learn nothing new of the sessions.
    pub fn same(&self, other: &Directory) -> (r: bool)
        ensures
            r == (self@ == other@),
    {
        if self.sessions.len() != other.sessions.len() {
            assert(self@.len() != other@.len());
            return false;
        }
        let mut i: usize = 0;
        while i < self.sessions.len()
            invariant
                self.sessions@.len() == other.sessions@.len(),
                i <= self.sessions@.len(),
                forall|j: int| 0 <= j < i ==> #[trigger] self@[j] == other@[j],
            decreases self.sessions@.len() - i,
        {
            if !self.sessions[i].same(&other.sessions[i]) {
                assert(self@[i as int] != other@[i as int]);
                return false;
            }
            i += 1;
        }
        assert(self@ =~= other@);
        true
    }
}

/// The parameters of a call for the mailbox, as far as they were read.
pub enum MailParams {
    Integration(Params),
    Message(String),
    Inbox,
    /// They are still to be read. The text is the complaint of what decodes them, where it
    /// has one.
    Mutation(Json, String),
}

/// That is answered.
pub open spec fn says(r: Result<Json, Fault>, s: Shown) -> bool {
    r matches Ok(v) && shown(v) == s
}

/// The mutation that is asked for, or why there is none.
pub open spec fn mutation_read(
    method: Seq<char>,
    v: Json,
    complaint: Seq<char>,
) -> Result<MutationView, Seq<char>> {
    match mutation_of(method, v) {
        None => Err(complaint),
        Some(m) => match m.refusal() {
            Some(why) => Err(why),
            None => Ok(m),
        },
    }
}

/// What answering a mutation leaves.
pub open spec fn mutation_done(
    before: Service,
    after: Service,
    log: Seq<Handed>,
    longer: Seq<Handed>,
    call: MailCall,
    m: MutationView,
    now: u64,
    r: Result<Json, Fault>,
) -> bool {
    exists|given: Result<OutcomeView, (int, Seq<char>)>| #[trigger]
        execute_done(
            before.mailbox@,
            after.mailbox@,
            log,
            longer,
            call.actor@,
            m,
            call.directory@,
            now,
            given,
        ) && match given {
            Ok(o) => says(r, outcome_shown(o)),
            Err(f) => is_fault(r, f),
        }
}

/// What answering a call of an integration leaves.
pub open spec fn integration_done(
    before: Service,
    after: Service,
    log: Seq<Handed>,
    longer: Seq<Handed>,
    call: MailCall,
    p: ParamsView,
    now: u64,
    r: Result<Json, Fault>,
) -> bool {
    exists|given: Result<Answer, Fault>| #[trigger]
        call_done(
            before.integrations@,
            after.integrations@,
            before.mailbox@,
            after.mailbox@,
            log,
            longer,
            call.actor@,
            call.method@,
            p,
            call.view,
            now,
            given,
        ) && match given {
            Ok(a) => says(r, answer_shown(before.integrations@.names, a)),
            Err(f) => is_fault(r, fault(f)),
        }
}

/// What an inbox is shown as.
pub open spec fn shows_inbox(before: Service, actor: Seq<char>, now: u64, r: Result<Json, Fault>) -> bool {
    exists|s: Status| #[trigger]
        is_status(s, before.mailbox@, actor) && says(
            r,
            inbox_shown(
                s,
                standing_shown(
                    before.integrations@.names,
                    standing_at(before.integrations@, actor, now),
                ),
            ),
        )
}

/// What answering a call leaves of the service and of the log.
pub open spec fn call_answered(
    before: Service,
    after: Service,
    log: Seq<Handed>,
    longer: Seq<Handed>,
    call: MailCall,
    p: MailParams,
    now: u64,
    r: Result<Json, Fault>,
) -> bool {
    match p {
        MailParams::Integration(q) => {
            &&& integration_done(before, after, log, longer, call, q@, now, r)
            &&& after == (Service {
                integrations: after.integrations,
                mailbox: after.mailbox,
                ..before
            })
        },
        MailParams::Message(id) => {
            &&& after == before && longer == log
            &&& match first_where(before.mailbox@.messages, visible_to(call.actor@, id@)) {
                Some(i) => says(r, message_shown(before.mailbox@.messages[i])),
                None => is_fault(r, is_absent()),
            }
        },
        MailParams::Inbox => {
            &&& after == before && longer == log
            &&& shows_inbox(before, call.actor@, now, r)
        },
        MailParams::Mutation(v, complaint) => match mutation_read(call.method@, v, complaint@) {
            Err(why) => {
                &&& after == before && longer == log
                &&& is_fault(r, (-32602int, why))
            },
            Ok(m) => {
                &&& mutation_done(before, after, log, longer, call, m, now, r)
                &&& after == (Service { mailbox: after.mailbox, ..before })
            },
        },
    }
}

impl Service {
    /// Answers a call.
    pub fn answer<A: Audit>(&mut self, call: &MailCall, p: &MailParams, now: u64, audit: &mut A) -> (r:
        Result<Json, Fault>)
        requires
            old(self).wf(),
            old(self).integrations@.next_epoch < u64::MAX,
        ensures
            final(self).wf(),
            call_answered(
                *old(self),
                *final(self),
                old(audit).log(),
                final(audit).log(),
                *call,
                *p,
                now,
                r,
            ),
    {
        let ghost before = *self;
        let ghost log = audit.log();
        let actor = call.actor.as_str();
        match p {
            MailParams::Integration(q) => {
                let given = self.integrations.call(
                    actor,
                    call.method.as_str(),
                    q,
                    &call.view,
                    now,
                    &mut self.mailbox,
                    audit,
                );
                let r = match &given {
                    Ok(a) => Ok(self.integrations.names().answer(a)),
                    Err(f) => Err((f.0, f.1.clone())),
                };
                assert(call_done(
                    before.integrations@,
                    self.integrations@,
                    before.mailbox@,
                    self.mailbox@,
                    log,
                    audit.log(),
                    call.actor@,
                    call.method@,
                    q@,
                    call.view,
                    now,
                    given,
                ));
                r
            },
            MailParams::Message(id) => match self.mailbox.get(actor, id.as_str()) {
                Ok(m) => Ok(m.value()),
                Err(f) => Err(f),
            },
            MailParams::Inbox => {
                let s = self.mailbox.status(actor);
                let standing = self.integrations.names().standing(
                    self.integrations.status(actor, now),
                );
                let r = Ok(s.value(standing));
                assert(is_status(s, before.mailbox@, call.actor@));
                r
            },
            MailParams::Mutation(v, complaint) => match Mutation::parse(
                call.method.as_str(),
                v,
                complaint.as_str(),
            ) {
                Err(e) => Err((-32602, e)),
                Ok(m) => {
                    let ghost asked = m@;
                    let given = self.mailbox.execute(actor, m, &call.directory, now, audit);
                    let ghost told = given_by(given);
                    let r = match given {
                        Ok(o) => Ok(o.value()),
                        Err(f) => Err(f),
                    };
                    assert(execute_done(
                        before.mailbox@,
                        self.mailbox@,
                        log,
                        audit.log(),
                        call.actor@,
                        asked,
                        call.directory@,
                        now,
                        told,
                    ));
                    r
                },
            },
        }
    }
}

/// A call that is refused leaves every message, and what is remembered of earlier
/// operations, as they were; only the trust in the audit may be lost.
pub proof fn a_refused_call_changes_no_message(
    before: Service,
    after: Service,
    log: Seq<Handed>,
    longer: Seq<Handed>,
    call: MailCall,
    p: MailParams,
    now: u64,
    r: Result<Json, Fault>,
)
    requires
        call_answered(before, after, log, longer, call, p, now, r),
        r is Err,
    ensures
        after.mailbox@.messages == before.mailbox@.messages,
        after.mailbox@.receipts == before.mailbox@.receipts,
        after.known == before.known,
{
}

/// Reading a message or an inbox changes nothing, and nothing is recorded of it.
pub proof fn reading_changes_nothing(
    before: Service,
    after: Service,
    log: Seq<Handed>,
    longer: Seq<Handed>,
    call: MailCall,
    p: MailParams,
    now: u64,
    r: Result<Json, Fault>,
)
    requires
        call_answered(before, after, log, longer, call, p, now, r),
        p is Message || p is Inbox,
    ensures
        after == before,
        longer == log,
{
}

} // verus!
