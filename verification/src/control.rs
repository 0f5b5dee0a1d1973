//! How sessions end, and what becomes of the requests that they wait for.
use vstd::prelude::*;

use crate::connection::Connection;
use crate::controller::{
    below, granted_above, is_missing, lemma_place, meant, output_of, place, relative, seen_by_id,
    seen_by_name, seen_by_path, tree, Active, Controller, LAUNCHES, PERMISSIONS,
    RECORDS, SESSIONS,
};
use crate::directory::{descends, is_fault, parent_of, Fault, SessionView};
use crate::json::Json;
use crate::records::{PermissionRecord, PermissionState, SessionRecord, SessionState};
use crate::rpc::{has_names, is_id_value, is_text, result, RpcId};
use crate::terminal::TerminalView;
use crate::text::{decimal, decimal_of, lemma_decimal_injective, maybe, same, texts};

verus! {

// ---------------------------------------------------------------------------
// What every operation keeps
// ---------------------------------------------------------------------------

pub open spec fn distinct_ids(s: Seq<Active>) -> bool {
    forall|i: int, j: int|
        0 <= i < j < s.len() ==> (#[trigger] s[i]).record.id@ != (#[trigger] s[j]).record.id@
}

pub open spec fn distinct_requests(p: Seq<PermissionRecord>) -> bool {
    forall|i: int, j: int| 0 <= i < j < p.len() ==> (#[trigger] p[i]).id@ != (#[trigger] p[j]).id@
}

/// Live sessions of one owner have names of their own.
pub open spec fn distinct_names(s: Seq<Active>) -> bool {
    forall|i: int, j: int|
        0 <= i < j < s.len() && (#[trigger] s[i]).worker && (#[trigger] s[j]).worker && maybe(
            s[i].record.parent,
        ) == maybe(s[j].record.parent) ==> s[i].record.agent_name@ != s[j].record.agent_name@
}

pub open spec fn live_count(s: Seq<Active>) -> nat
    decreases s.len(),
{
    if s.len() == 0 {
        0
    } else {
        live_count(s.drop_last()) + if s.last().worker {
            1nat
        } else {
            0
        }
    }
}

/// What every operation keeps: each session, and each request, under an ID of
/// its own; live sessions of one owner under names of their own; owners older
/// than what they own; and everything within the limits.
pub open spec fn kept(c: Controller) -> bool {
    &&& distinct_ids(c.sessions@)
    &&& distinct_names(c.sessions@)
    &&& owners_older(c.sessions@, c.next)
    &&& numbered(c.sessions@, c.instance@)
    &&& requests_numbered(c.permissions@, c.instance@, c.next)
    &&& distinct_requests(c.permissions@)
    &&& live_count(c.sessions@) <= SESSIONS
    &&& c.sessions@.len() <= RECORDS
    &&& c.permissions@.len() <= PERMISSIONS
    &&& c.launches@.len() <= LAUNCHES
    &&& forall|i: int| 0 <= i < c.sessions@.len() ==> (#[trigger] c.sessions@[i]).terminal.wf()
    &&& all_wf(c.connections@)
}

pub open spec fn all_wf(c: Seq<Connection>) -> bool {
    forall|i: int| 0 <= i < c.len() ==> (#[trigger] c[i]).wf()
}

/// The same sessions, none of which has gained a worker.
pub open spec fn kin(s: Seq<Active>, t: Seq<Active>) -> bool {
    &&& s.len() == t.len()
    &&& forall|i: int| 0 <= i < s.len() ==> kin_at(#[trigger] s[i], t[i])
}

pub open spec fn kin_at(a: Active, b: Active) -> bool {
    &&& b.record.id@ == a.record.id@
    &&& maybe(b.record.parent) == maybe(a.record.parent)
    &&& b.record.path@ == a.record.path@
    &&& b.record.agent_name@ == a.record.agent_name@
    &&& b.created == a.created
    &&& b.worker ==> a.worker
}

proof fn lemma_kin_self(s: Seq<Active>)
    ensures
        kin(s, s),
{
}

/// An owner is older than what it owns, so that nothing owns itself.
pub open spec fn owners_older(s: Seq<Active>, next: u64) -> bool {
    &&& forall|i: int| 0 <= i < s.len() ==> (#[trigger] s[i]).created <= next
    &&& forall|i: int, j: int|
        0 <= i < s.len() && 0 <= j < s.len() && maybe((#[trigger] s[i]).record.parent) == Some(
            (#[trigger] s[j]).record.id@,
        ) ==> s[j].created < s[i].created
}

pub open spec fn session_id(instance: Seq<char>, n: u64) -> Seq<char> {
    instance + "-s"@ + decimal_of(n as nat)
}

pub open spec fn request_id(instance: Seq<char>, n: u64) -> Seq<char> {
    instance + "-r"@ + decimal_of(n as nat)
}

/// A session is named by the number under which it was made, its owner by an earlier one.
pub open spec fn numbered_at(a: Active, instance: Seq<char>) -> bool {
    &&& a.record.id@ == session_id(instance, a.created)
    &&& maybe(a.record.parent) matches Some(p) ==> exists|k: u64|
        k < a.created && p == #[trigger] session_id(instance, k)
}

pub open spec fn numbered(s: Seq<Active>, instance: Seq<char>) -> bool {
    forall|i: int| 0 <= i < s.len() ==> numbered_at(#[trigger] s[i], instance)
}

/// A request is named by a number that was given out.
pub open spec fn requests_numbered(
    p: Seq<PermissionRecord>,
    instance: Seq<char>,
    next: u64,
) -> bool {
    forall|q: int| 0 <= q < p.len() ==> request_numbered(#[trigger] p[q], instance, next)
}

pub open spec fn request_numbered(p: PermissionRecord, instance: Seq<char>, next: u64) -> bool {
    exists|k: u64| k <= next && p.id@ == #[trigger] request_id(instance, k)
}

pub(crate) proof fn lemma_session_ids(instance: Seq<char>, a: u64, b: u64)
    ensures
        session_id(instance, a) == session_id(instance, b) <==> a == b,
        request_id(instance, a) == request_id(instance, b) <==> a == b,
{
    lemma_decimal_injective(a as nat, b as nat);
    let s = instance + "-s"@;
    let r = instance + "-r"@;
    if session_id(instance, a) == session_id(instance, b) {
        assert(session_id(instance, a).skip(s.len() as int) =~= decimal_of(a as nat));
        assert(session_id(instance, b).skip(s.len() as int) =~= decimal_of(b as nat));
    }
    if request_id(instance, a) == request_id(instance, b) {
        assert(request_id(instance, a).skip(r.len() as int) =~= decimal_of(a as nat));
        assert(request_id(instance, b).skip(r.len() as int) =~= decimal_of(b as nat));
    }
}

/// What is below a session is younger.
pub(crate) proof fn lemma_below_younger(
    s: Seq<Active>,
    next: u64,
    i: int,
    j: int,
    steps: nat,
)
    requires
        owners_older(s, next),
        distinct_ids(s),
        0 <= i < s.len(),
        0 <= j < s.len(),
        descends(tree(s), s[i].record.id@, s[j].record.id@, steps),
    ensures
        s[j].created < s[i].created,
    decreases steps,
{
    let id = s[i].record.id@;
    lemma_place(s, id);
    let k = place(s, id)->0;
    if k < i {
        assert(s[k].record.id@ != s[i].record.id@);
    }
    let p = maybe(s[i].record.parent)->0;
    if p != s[j].record.id@ {
        lemma_place(s, p);
        assert(parent_of(tree(s), p) is Some) by {
            assert(descends(tree(s), p, s[j].record.id@, (steps - 1) as nat));
        }
        let q = place(s, p)->0;
        assert(s[q].created < s[i].created);
        lemma_below_younger(s, next, q, j, (steps - 1) as nat);
    }
}

/// How many sessions are older than that.
spec fn older(s: Seq<Active>, than: int) -> nat
    decreases s.len(),
{
    if s.len() == 0 {
        0
    } else {
        older(s.drop_last(), than) + if s.last().created < than {
            1nat
        } else {
            0
        }
    }
}

proof fn lemma_older(s: Seq<Active>, a: int, b: int)
    requires
        a <= b,
    ensures
        older(s, a) <= older(s, b) <= s.len(),
        forall|q: int|
            0 <= q < s.len() && a <= (#[trigger] s[q]).created < b ==> older(s, a) < older(s, b),
    decreases s.len(),
{
    if s.len() > 0 {
        let most = s.drop_last();
        lemma_older(most, a, b);
        assert forall|q: int|
            0 <= q < s.len() && a <= (#[trigger] s[q]).created < b implies older(s, a) < older(
            s,
            b,
        ) by {
            if q < most.len() {
                assert(most[q] == s[q]);
            }
        }
    }
}

proof fn lemma_longer(t: Seq<SessionView>, x: Seq<char>, ancestor: Seq<char>, n: nat, m: nat)
    requires
        n <= m,
        descends(t, x, ancestor, n),
    ensures
        descends(t, x, ancestor, m),
    decreases n,
{
    let p = parent_of(t, x)->0;
    if p != ancestor {
        lemma_longer(t, p, ancestor, (n - 1) as nat, (m - 1) as nat);
    }
}

/// The way up from a session meets only older ones.
proof fn lemma_way_up(s: Seq<Active>, next: u64, i: int, ancestor: Seq<char>, n: nat)
    requires
        owners_older(s, next),
        distinct_ids(s),
        0 <= i < s.len(),
        descends(tree(s), s[i].record.id@, ancestor, n),
    ensures
        descends(tree(s), s[i].record.id@, ancestor, older(s, s[i].created as int) + 1),
    decreases n,
{
    let t = tree(s);
    let id = s[i].record.id@;
    lemma_place(s, id);
    let k = place(s, id)->0;
    if k < i {
        assert(s[k].record.id@ != s[i].record.id@);
    }
    let p = maybe(s[i].record.parent)->0;
    if p != ancestor {
        lemma_place(s, p);
        assert(descends(t, p, ancestor, (n - 1) as nat));
        let q = place(s, p)->0;
        assert(s[q].created < s[i].created);
        lemma_way_up(s, next, q, ancestor, (n - 1) as nat);
        lemma_older(s, s[q].created as int, s[i].created as int);
        lemma_longer(
            t,
            p,
            ancestor,
            older(s, s[q].created as int) + 1,
            older(s, s[i].created as int),
        );
    }
}

proof fn lemma_on_the_way(
    t: Seq<SessionView>,
    x: Seq<char>,
    middle: Seq<char>,
    ancestor: Seq<char>,
    n: nat,
    m: nat,
)
    requires
        descends(t, x, middle, n),
        descends(t, middle, ancestor, m),
    ensures
        descends(t, x, ancestor, n + m),
    decreases n,
{
    let p = parent_of(t, x)->0;
    if p == middle {
        lemma_longer(t, middle, ancestor, m, (n + m - 1) as nat);
    } else {
        lemma_on_the_way(t, p, middle, ancestor, (n - 1) as nat, m);
    }
}

/// What is below something that is below a session is below that session.
pub proof fn ownership_is_transitive(c: Controller, i: int, middle: Seq<char>, ancestor: Seq<char>)
    requires
        kept(c),
        0 <= i < c.sessions@.len(),
        below(c.sessions@, c.sessions@[i].record.id@, middle),
        below(c.sessions@, middle, ancestor),
    ensures
        below(c.sessions@, c.sessions@[i].record.id@, ancestor),
{
    let s = c.sessions@;
    let id = s[i].record.id@;
    lemma_on_the_way(tree(s), id, middle, ancestor, s.len(), s.len());
    lemma_way_up(s, c.next, i, ancestor, s.len() + s.len());
    lemma_older(s, s[i].created as int, u64::MAX + 1);
    lemma_longer(tree(s), id, ancestor, older(s, s[i].created as int) + 1, s.len());
}

pub(crate) proof fn lemma_live_count(s: Seq<Active>, t: Seq<Active>)
    requires
        kin(s, t),
    ensures
        live_count(t) <= live_count(s),
    decreases s.len(),
{
    if s.len() > 0 {
        assert(kin(s.drop_last(), t.drop_last()));
        lemma_live_count(s.drop_last(), t.drop_last());
        assert(kin_at(s[s.len() - 1], t[s.len() - 1]));
    }
}

pub(crate) proof fn lemma_kin(s: Seq<Active>, t: Seq<Active>)
    requires
        kin(s, t),
    ensures
        distinct_ids(s) ==> distinct_ids(t),
        distinct_names(s) ==> distinct_names(t),
        forall|next: u64| owners_older(s, next) ==> #[trigger] owners_older(t, next),
        forall|instance: Seq<char>| numbered(s, instance) ==> #[trigger] numbered(t, instance),
        live_count(t) <= live_count(s),
        forall|id: Seq<char>| #[trigger] place(t, id) == place(s, id),
        forall|id: Seq<char>, ancestor: Seq<char>|
            #[trigger] below(t, id, ancestor) == below(s, id, ancestor),
{
    lemma_live_count(s, t);
    assert forall|instance: Seq<char>| numbered(s, instance) implies #[trigger] numbered(
        t,
        instance,
    ) by {
        assert forall|i: int| 0 <= i < t.len() implies numbered_at(#[trigger] t[i], instance) by {
            assert(kin_at(s[i], t[i]));
            assert(numbered_at(s[i], instance));
        }
    }
    assert forall|next: u64| owners_older(s, next) implies #[trigger] owners_older(t, next) by {
        assert forall|i: int| 0 <= i < t.len() implies (#[trigger] t[i]).created <= next by {
            assert(kin_at(s[i], t[i]));
        }
        assert forall|i: int, j: int|
            0 <= i < t.len() && 0 <= j < t.len() && maybe((#[trigger] t[i]).record.parent) == Some(
                (#[trigger] t[j]).record.id@,
            ) implies t[j].created < t[i].created by {
            assert(kin_at(s[i], t[i]) && kin_at(s[j], t[j]));
        }
    }
    assert forall|id: Seq<char>| #[trigger] place(t, id) == place(s, id) by {
        lemma_kin_place(s, t, id);
    }
    assert forall|id: Seq<char>, ancestor: Seq<char>| #[trigger] below(t, id, ancestor) == below(
        s,
        id,
        ancestor,
    ) by {
        lemma_kin_below(s, t, id, ancestor, s.len());
    }
    if distinct_ids(s) {
        assert forall|i: int, j: int| 0 <= i < j < t.len() implies (#[trigger] t[i]).record.id@ != (
        #[trigger] t[j]).record.id@ by {
            assert(kin_at(s[i], t[i]) && kin_at(s[j], t[j]));
        }
    }
    if distinct_names(s) {
        assert forall|i: int, j: int|
            0 <= i < j < t.len() && (#[trigger] t[i]).worker && (#[trigger] t[j]).worker && maybe(
                t[i].record.parent,
            ) == maybe(t[j].record.parent) implies t[i].record.agent_name@
            != t[j].record.agent_name@ by {
            assert(kin_at(s[i], t[i]) && kin_at(s[j], t[j]));
        }
    }
}

proof fn lemma_kin_place(s: Seq<Active>, t: Seq<Active>, id: Seq<char>)
    requires
        kin(s, t),
    ensures
        place(t, id) == place(s, id),
    decreases s.len(),
{
    if s.len() > 0 {
        assert(kin_at(s[0], t[0]));
        let a = s.drop_first();
        let b = t.drop_first();
        assert forall|i: int| 0 <= i < a.len() implies kin_at(#[trigger] a[i], b[i]) by {
            assert(kin_at(s[i + 1], t[i + 1]));
        }
        lemma_kin_place(a, b, id);
    }
}

proof fn lemma_kin_below(
    s: Seq<Active>,
    t: Seq<Active>,
    id: Seq<char>,
    ancestor: Seq<char>,
    steps: nat,
)
    requires
        kin(s, t),
    ensures
        descends(tree(t), id, ancestor, steps) == descends(tree(s), id, ancestor, steps),
    decreases steps,
{
    if steps > 0 {
        lemma_kin_place(s, t, id);
        lemma_place(s, id);
        lemma_place(t, id);
        if let Some(i) = place(s, id) {
            assert(kin_at(s[i], t[i]));
            if let Some(p) = maybe(s[i].record.parent) {
                lemma_kin_below(s, t, p, ancestor, (steps - 1) as nat);
            }
        }
    }
}

/// Changing one entry without making it another session.
pub(crate) proof fn lemma_update_kin(s: Seq<Active>, i: int, a: Active)
    requires
        0 <= i < s.len(),
        kin_at(s[i], a),
    ensures
        kin(s, s.update(i, a)),
{
    let t = s.update(i, a);
    assert forall|j: int| 0 <= j < s.len() implies kin_at(#[trigger] s[j], t[j]) by {}
}

// ---------------------------------------------------------------------------
// Requests and the connections that wait for them
// ---------------------------------------------------------------------------

/// The place of a request.
pub open spec fn request_place(p: Seq<PermissionRecord>, id: Seq<char>) -> Option<int>
    decreases p.len(),
{
    if p.len() == 0 {
        None
    } else if p[0].id@ == id {
        Some(0)
    } else {
        match request_place(p.drop_first(), id) {
            Some(i) => Some(i + 1),
            None => None,
        }
    }
}

pub(crate) proof fn lemma_request_place(p: Seq<PermissionRecord>, id: Seq<char>)
    ensures
        match request_place(p, id) {
            Some(i) => 0 <= i < p.len() && p[i].id@ == id && forall|j: int|
                0 <= j < i ==> (#[trigger] p[j]).id@ != id,
            None => forall|j: int| 0 <= j < p.len() ==> (#[trigger] p[j]).id@ != id,
        },
    decreases p.len(),
{
    if p.len() > 0 {
        let rest = p.drop_first();
        lemma_request_place(rest, id);
        if p[0].id@ != id {
            assert forall|j: int|
                0 <= j < p.len() && (request_place(rest, id) matches Some(i) ==> j < i + 1) implies (
            #[trigger] p[j]).id@ != id by {
                if j > 0 {
                    assert(rest[j - 1] == p[j]);
                }
            }
        }
    }
}

/// The requests with that one in that state.
pub open spec fn with_state(
    p: Seq<PermissionRecord>,
    id: Seq<char>,
    state: PermissionState,
) -> Seq<PermissionRecord> {
    match request_place(p, id) {
        Some(i) => p.update(i, PermissionRecord { state, ..p[i] }),
        None => p,
    }
}

/// The connection waits for an answer to that request.
pub open spec fn waits_for(c: Connection, id: Seq<char>) -> bool {
    c.waiting matches Some((request, _)) && request@ == id
}

/// The answer to a request: its ID, what became of it, and why.
pub open spec fn is_answer(
    v: Json,
    rpc: RpcId,
    id: Seq<char>,
    status: Seq<char>,
    message: Option<Seq<char>>,
) -> bool {
    &&& has_names(v, seq!["jsonrpc"@, "id"@, "result"@])
    &&& is_text(v.fields()[0].1, "2.0"@)
    &&& is_id_value(v.fields()[1].1, rpc)
    &&& has_names(v.fields()[2].1, seq!["request"@, "status"@, "message"@])
    &&& is_text(v.fields()[2].1.fields()[0].1, id)
    &&& is_text(v.fields()[2].1.fields()[1].1, status)
    &&& match message {
        Some(m) => is_text(v.fields()[2].1.fields()[2].1, m),
        None => v.fields()[2].1.fields()[2].1 == Json::Null,
    }
}

/// A connection that waited has its answer queued and closes; any other is as it was.
pub open spec fn answered_at(
    before: Connection,
    after: Connection,
    id: Seq<char>,
    status: Seq<char>,
    message: Option<Seq<char>>,
) -> bool {
    if waits_for(before, id) {
        &&& after.outbox@.len() == before.outbox@.len() + 1
        &&& after.outbox@.drop_last() == before.outbox@
        &&& is_answer(after.outbox@.last(), (before.waiting->0).1, id, status, message)
        &&& after == (Connection { outbox: after.outbox, close: true, ..before })
    } else {
        after == before
    }
}

pub open spec fn answered(
    before: Seq<Connection>,
    after: Seq<Connection>,
    id: Seq<char>,
    status: Seq<char>,
    message: Option<Seq<char>>,
) -> bool {
    &&& after.len() == before.len()
    &&& forall|i: int|
        0 <= i < before.len() ==> answered_at(
            before[i],
            #[trigger] after[i],
            id,
            status,
            message,
        )
}

fn answer(rpc: &RpcId, id: &str, status: &str, message: &Option<String>) -> (r: Json)
    ensures
        is_answer(r, *rpc, id@, status@, maybe(*message)),
{
    let why = match message {
        Some(m) => Json::Text(m.clone()),
        None => Json::Null,
    };
    let body = Json::Object(
        vec![
            (String::from_str("request"), Json::Text(String::from_str(id))),
            (String::from_str("status"), Json::Text(String::from_str(status))),
            (String::from_str("message"), why),
        ],
    );
    result(rpc.value(), body)
}

impl Controller {
    pub fn find_request(&self, id: &str) -> (r: Option<usize>)
        ensures
            match r {
                Some(i) => request_place(self.permissions@, id@) == Some(i as int) && i
                    < self.permissions@.len(),
                None => request_place(self.permissions@, id@) is None,
            },
    {
        let ghost p = self.permissions@;
        let mut i: usize = 0;
        assert(p.skip(0) =~= p);
        while i < self.permissions.len()
            invariant
                p == self.permissions@,
                i <= p.len(),
                request_place(p, id@) == (match request_place(p.skip(i as int), id@) {
                    Some(k) => Some(k + i),
                    None => None,
                }),
            decreases p.len() - i,
        {
            if same(self.permissions[i].id.as_str(), id) {
                return Some(i);
            }
            assert(p.skip(i as int).drop_first() =~= p.skip(i + 1));
            i += 1;
        }
        None
    }

    pub(crate) fn set_state(&mut self, id: &str, state: PermissionState)
        ensures
            final(self).permissions@ == with_state(old(self).permissions@, id@, state),
            *final(self) == (Controller { permissions: final(self).permissions, ..*old(self) }),
    {
        if let Some(i) = self.find_request(id) {
            self.permissions[i].state = state;
        }
    }

    /// Answers whoever waits for a request.
    pub(crate) fn reply_permission(&mut self, id: &str, status: &str, message: Option<String>)
        requires
            all_wf(old(self).connections@),
        ensures
            answered(
                old(self).connections@,
                final(self).connections@,
                id@,
                status@,
                maybe(message),
            ),
            all_wf(final(self).connections@),
            *final(self) == (Controller { connections: final(self).connections, ..*old(self) }),
    {
        let ghost before = self.connections@;
        let mut i: usize = 0;
        while i < self.connections.len()
            invariant
                before == old(self).connections@,
                i <= self.connections@.len() == before.len(),
                *self == (Controller { connections: self.connections, ..*old(self) }),
                all_wf(self.connections@),
                forall|j: int|
                    0 <= j < i ==> answered_at(
                        before[j],
                        #[trigger] self.connections@[j],
                        id@,
                        status@,
                        maybe(message),
                    ),
                forall|j: int|
                    i <= j < before.len() ==> #[trigger] self.connections@[j] == before[j],
            decreases before.len() - i,
        {
            assert(self.connections@[i as int] == before[i as int]);
            let value = match &self.connections[i].waiting {
                Some((request, rpc)) => if same(request.as_str(), id) {
                    Some(answer(rpc, id, status, &message))
                } else {
                    None
                },
                None => None,
            };
            if let Some(value) = value {
                self.connections[i].queue(value);
                self.connections[i].close = true;
                assert(self.connections@[i as int].outbox@.drop_last()
                    =~= before[i as int].outbox@);
            }
            i += 1;
        }
    }
}

// ---------------------------------------------------------------------------
// Stopping
// ---------------------------------------------------------------------------

/// A session that is told to stop. The first cause stands, be it none.
pub open spec fn told_to_stop(a: Active, reason: Option<String>) -> Active {
    Active {
        record: SessionRecord {
            state: if a.worker {
                SessionState::Stopping
            } else {
                a.record.state
            },
            stop_reason: if a.worker && !a.record.state.is_ending() {
                reason
            } else {
                a.record.stop_reason
            },
            ..a.record
        },
        cancelled: a.cancelled || a.worker,
        listening: false,
        pending: None,
        ..a
    }
}

/// The request that a session waits for.
pub open spec fn pending_id(a: Active) -> Option<Seq<char>> {
    match a.pending {
        Some(p) => Some(p.id@),
        None => None,
    }
}

/// A controller with one session's entry changed and its pending request, if it
/// has one, ended in that state and answered.
pub open spec fn ended_at(
    before: Controller,
    after: Controller,
    i: int,
    entry: Active,
    state: PermissionState,
    status: Seq<char>,
    message: Option<Seq<char>>,
) -> bool {
    &&& after.sessions@ == before.sessions@.update(i, entry)
    &&& match pending_id(before.sessions@[i]) {
        Some(id) => {
            &&& after.permissions@ == with_state(before.permissions@, id, state)
            &&& answered(before.connections@, after.connections@, id, status, message)
        },
        None => {
            &&& after.permissions == before.permissions
            &&& after.connections == before.connections
        },
    }
    &&& after == (Controller {
        sessions: after.sessions,
        permissions: after.permissions,
        connections: after.connections,
        dirty: true,
        ..before
    })
}

pub(crate) proof fn lemma_with_state(
    p: Seq<PermissionRecord>,
    id: Seq<char>,
    state: PermissionState,
)
    requires
        distinct_requests(p),
    ensures
        distinct_requests(with_state(p, id, state)),
        with_state(p, id, state).len() == p.len(),
        forall|instance: Seq<char>, next: u64|
            requests_numbered(p, instance, next) ==> #[trigger] requests_numbered(
                with_state(p, id, state),
                instance,
                next,
            ),
{
    lemma_request_place(p, id);
    let q = with_state(p, id, state);
    assert forall|instance: Seq<char>, next: u64| requests_numbered(p, instance, next) implies
        #[trigger] requests_numbered(q, instance, next) by {
        assert forall|i: int| 0 <= i < q.len() implies request_numbered(
            #[trigger] q[i],
            instance,
            next,
        ) by {
            assert(request_numbered(p[i], instance, next));
        }
    }
    assert forall|i: int, j: int| 0 <= i < j < q.len() implies (#[trigger] q[i]).id@ != (
    #[trigger] q[j]).id@ by {
        assert(p[i].id@ != p[j].id@);
    }
}

pub(crate) proof fn lemma_ended_kept(
    before: Controller,
    after: Controller,
    i: int,
    entry: Active,
    state: PermissionState,
    status: Seq<char>,
    message: Option<Seq<char>>,
)
    requires
        kept(before),
        0 <= i < before.sessions@.len(),
        ended_at(before, after, i, entry, state, status, message),
        kin_at(before.sessions@[i], entry),
        entry.terminal.wf(),
        all_wf(after.connections@),
    ensures
        kept(after),
{
    lemma_update_kin(before.sessions@, i, entry);
    lemma_kin(before.sessions@, after.sessions@);
    if let Some(id) = pending_id(before.sessions@[i]) {
        lemma_with_state(before.permissions@, id, state);
    }
}

/// The sessions below one that have a worker, among the first `k`.
pub open spec fn live_below(s: Seq<Active>, id: Seq<char>, k: nat) -> Seq<Seq<char>>
    decreases k,
{
    if k == 0 {
        Seq::empty()
    } else {
        let before = live_below(s, id, (k - 1) as nat);
        if s[k - 1].worker && below(s, s[k - 1].record.id@, id) {
            before.push(s[k - 1].record.id@)
        } else {
            before
        }
    }
}

/// Why what a session owned is stopped after it has gone.
pub open spec fn owner_exited(agent_name: Seq<char>, id: Seq<char>) -> Seq<char> {
    "stopped because owner goblin "@ + agent_name + " ("@ + id + ") exited"@
}

/// A session after it and all that is live below it were told to stop.
pub open spec fn stopped_with(
    s: Seq<Active>,
    k: int,
    id: Seq<char>,
    reason: Option<String>,
    child_reason: Option<String>,
) -> Active {
    if s[k].record.id@ == id {
        told_to_stop(s[k], reason)
    } else if s[k].worker && below(s, s[k].record.id@, id) {
        told_to_stop(s[k], child_reason)
    } else {
        s[k]
    }
}

/// A session that was stopped waited for that request.
pub open spec fn dropped(before: Seq<Active>, after: Seq<Active>, id: Seq<char>) -> bool {
    exists|k: int|
        0 <= k < before.len() && pending_id(#[trigger] before[k]) == Some(id) && pending_id(after[k])
            is None
}

/// What stopping sessions leaves of a request: it is cancelled where one of them waited
/// for it.
pub open spec fn settled_request(
    before: Controller,
    after: Controller,
    q: int,
) -> bool {
    let p = before.permissions@[q];
    after.permissions@[q] == if dropped(before.sessions@, after.sessions@, p.id@) && request_place(
        before.permissions@,
        p.id@,
    ) == Some(q) {
        PermissionRecord { state: PermissionState::Cancelled, ..p }
    } else {
        p
    }
}

/// What stopping sessions leaves of a connection: it is answered, and closes, where it
/// waited for what one of them waited for.
pub open spec fn settled_connection(before: Controller, after: Controller, i: int) -> bool {
    let c = before.connections@[i];
    let d = after.connections@[i];
    if c.waiting matches Some(w) && dropped(before.sessions@, after.sessions@, w.0@) {
        &&& c.outbox@.len() < d.outbox@.len()
        &&& c.outbox@.is_prefix_of(d.outbox@)
        &&& d == (Connection { outbox: d.outbox, close: true, ..c })
    } else {
        d == c
    }
}

/// What stopping sessions leaves of the rest: requests of theirs are cancelled,
/// whoever waited for one is answered, and nothing else changes.
pub open spec fn settled(before: Controller, after: Controller) -> bool {
    &&& after.permissions@.len() == before.permissions@.len()
    &&& forall|q: int|
        0 <= q < before.permissions@.len() ==> #[trigger] settled_request(before, after, q)
    &&& after.connections@.len() == before.connections@.len()
    &&& forall|i: int|
        0 <= i < before.connections@.len() ==> #[trigger] settled_connection(before, after, i)
    &&& after.sessions@.len() == before.sessions@.len()
    &&& forall|k: int|
        0 <= k < before.sessions@.len() ==> pending_id(#[trigger] after.sessions@[k]) == pending_id(
            before.sessions@[k],
        ) || pending_id(after.sessions@[k]) is None
    &&& after == (Controller {
        sessions: after.sessions,
        permissions: after.permissions,
        connections: after.connections,
        dirty: after.dirty,
        ..before
    })
}

/// The session of an ID, if there is one, is told to stop, and what it waits for ends.
pub open spec fn stop_step(
    c: Controller,
    d: Controller,
    id: Seq<char>,
    reason: Option<String>,
) -> bool {
    match place(c.sessions@, id) {
        None => d == c,
        Some(i) => ended_at(
            c,
            d,
            i,
            told_to_stop(c.sessions@[i], reason),
            PermissionState::Cancelled,
            "error"@,
            Some("session stopped"@),
        ),
    }
}

/// The sessions of these IDs are told to stop one after the other.
pub open spec fn stopped_in_turn(
    h: Seq<Controller>,
    ids: Seq<Seq<char>>,
    reason: Option<String>,
) -> bool {
    &&& h.len() == ids.len() + 1
    &&& forall|n: int| 0 <= n < ids.len() ==> stop_step(#[trigger] h[n], h[n + 1], ids[n], reason)
}

proof fn lemma_settled_self(c: Controller)
    ensures
        settled(c, c),
{
}

proof fn lemma_place_by_ids(
    p: Seq<PermissionRecord>,
    q: Seq<PermissionRecord>,
    id: Seq<char>,
)
    requires
        p.len() == q.len(),
        forall|i: int| 0 <= i < p.len() ==> (#[trigger] q[i]).id@ == p[i].id@,
    ensures
        request_place(q, id) == request_place(p, id),
    decreases p.len(),
{
    if p.len() > 0 {
        assert(q[0].id@ == p[0].id@);
        assert forall|i: int| 0 <= i < p.drop_first().len() implies (
        #[trigger] q.drop_first()[i]).id@ == p.drop_first()[i].id@ by {
            assert(q[i + 1].id@ == p[i + 1].id@);
        }
        lemma_place_by_ids(p.drop_first(), q.drop_first(), id);
    }
}

proof fn lemma_settled_step(
    first: Controller,
    before: Controller,
    after: Controller,
    i: int,
    entry: Active,
)
    requires
        settled(first, before),
        0 <= i < before.sessions@.len(),
        entry.pending is None,
        ended_at(
            before,
            after,
            i,
            entry,
            PermissionState::Cancelled,
            "error"@,
            Some("session stopped"@),
        ),
    ensures
        settled(first, after),
{
    let p = first.permissions@;
    let (s, m, t) = (first.sessions@, before.sessions@, after.sessions@);
    let ended = pending_id(m[i]);
    if let Some(id) = ended {
        lemma_request_place(before.permissions@, id);
    }
    assert forall|q: int| 0 <= q < p.len() implies (#[trigger] before.permissions@[q]).id@
        == p[q].id@ by {
        assert(settled_request(first, before, q));
    }
    assert forall|id: Seq<char>| #[trigger] dropped(s, t, id) == (dropped(s, m, id) || ended == Some(
        id,
    )) by {
        if dropped(s, t, id) {
            let k = choose|k: int|
                0 <= k < s.len() && pending_id(#[trigger] s[k]) == Some(id) && pending_id(t[k]) is None;
            assert(pending_id(m[k]) == pending_id(s[k]) || pending_id(m[k]) is None);
            if k != i {
                assert(t[k] == m[k]);
            }
        }
        if dropped(s, m, id) {
            let k = choose|k: int|
                0 <= k < s.len() && pending_id(#[trigger] s[k]) == Some(id) && pending_id(m[k]) is None;
            assert(pending_id(t[k]) is None);
        }
        if ended == Some(id) {
            assert(pending_id(m[i]) == pending_id(s[i]));
            assert(pending_id(t[i]) is None);
        }
    }
    assert forall|q: int| 0 <= q < p.len() implies #[trigger] settled_request(first, after, q) by {
        assert(settled_request(first, before, q));
        if let Some(id) = ended {
            lemma_place_by_ids(p, before.permissions@, id);
        }
    }
    assert forall|j: int| 0 <= j < first.connections@.len() implies #[trigger] settled_connection(
        first,
        after,
        j,
    ) by {
        assert(settled_connection(first, before, j));
        if let Some(id) = ended {
            assert(answered_at(
                before.connections@[j],
                after.connections@[j],
                id,
                "error"@,
                Some("session stopped"@),
            ));
            let (c, d) = (before.connections@[j], after.connections@[j]);
            if waits_for(c, id) {
                assert(c.outbox@ == d.outbox@.take(c.outbox@.len() as int));
                assert(first.connections@[j].outbox@.is_prefix_of(d.outbox@));
            }
        }
    }
    assert forall|k: int| 0 <= k < s.len() implies pending_id(#[trigger] t[k]) == pending_id(s[k])
        || pending_id(t[k]) is None by {
        assert(pending_id(m[k]) == pending_id(s[k]) || pending_id(m[k]) is None);
    }
}

proof fn lemma_live_below(s: Seq<Active>, id: Seq<char>, k: nat)
    requires
        k <= s.len(),
    ensures
        forall|x: Seq<char>|
            #[trigger] live_below(s, id, k).contains(x) <==> exists|m: int|
                0 <= m < k && (#[trigger] s[m]).record.id@ == x && s[m].worker && below(
                    s,
                    s[m].record.id@,
                    id,
                ),
    decreases k,
{
    if k > 0 {
        let before = live_below(s, id, (k - 1) as nat);
        let all = live_below(s, id, k);
        lemma_live_below(s, id, (k - 1) as nat);
        assert forall|x: Seq<char>|
            #[trigger] all.contains(x) <==> exists|m: int|
                0 <= m < k && (#[trigger] s[m]).record.id@ == x && s[m].worker && below(
                    s,
                    s[m].record.id@,
                    id,
                ) by {
            if all.contains(x) {
                let n = choose|n: int| 0 <= n < all.len() && all[n] == x;
                if n < before.len() {
                    assert(before[n] == x);
                    assert(before.contains(x));
                } else {
                    assert(s[k - 1].record.id@ == x);
                }
            }
            if exists|m: int|
                0 <= m < k && (#[trigger] s[m]).record.id@ == x && s[m].worker && below(
                    s,
                    s[m].record.id@,
                    id,
                ) {
                let m = choose|m: int|
                    0 <= m < k && (#[trigger] s[m]).record.id@ == x && s[m].worker && below(
                        s,
                        s[m].record.id@,
                        id,
                    );
                if m < k - 1 {
                    assert(before.contains(x));
                    let n = choose|n: int| 0 <= n < before.len() && before[n] == x;
                    assert(all[n] == x);
                } else {
                    assert(all[before.len() as int] == x);
                }
            }
        }
    }
}

pub open spec fn stopped_tree(
    before: Seq<Active>,
    after: Seq<Active>,
    id: Seq<char>,
    reason: Option<String>,
    child: String,
) -> bool {
    &&& after.len() == before.len()
    &&& forall|k: int|
        0 <= k < before.len() ==> #[trigger] after[k] == stopped_with(
            before,
            k,
            id,
            reason,
            Some(child),
        )
}

/// The sessions of these IDs were told to stop, for one reason.
pub open spec fn stopped_of(
    before: Seq<Active>,
    after: Seq<Active>,
    ids: Seq<Seq<char>>,
    reason: Option<String>,
) -> bool {
    &&& after.len() == before.len()
    &&& forall|k: int|
        0 <= k < before.len() ==> #[trigger] after[k] == if ids.contains(before[k].record.id@) {
            told_to_stop(before[k], reason)
        } else {
            before[k]
        }
}

proof fn lemma_contains_push(list: Seq<Seq<char>>, id: Seq<char>, x: Seq<char>)
    ensures
        list.push(id).contains(x) == (list.contains(x) || x == id),
{
    let all = list.push(id);
    if list.contains(x) {
        let m = choose|m: int| 0 <= m < list.len() && list[m] == x;
        assert(all[m] == x);
    }
    if x == id {
        assert(all[list.len() as int] == x);
    }
    if all.contains(x) {
        let m = choose|m: int| 0 <= m < all.len() && all[m] == x;
        if m < list.len() {
            assert(list[m] == x);
        }
    }
}

proof fn lemma_stop_one(
    s: Seq<Active>,
    m: Seq<Active>,
    t: Seq<Active>,
    list: Seq<Seq<char>>,
    id: Seq<char>,
    reason: Option<String>,
)
    requires
        distinct_ids(s),
        stopped_of(s, m, list, reason),
        match place(m, id) {
            None => t == m,
            Some(i) => t == m.update(i, told_to_stop(m[i], reason)),
        },
    ensures
        stopped_of(s, t, list.push(id), reason),
        kin(s, t),
{
    lemma_place(m, id);
    assert forall|k: int| 0 <= k < s.len() implies #[trigger] t[k] == if list.push(id).contains(
        s[k].record.id@,
    ) {
        told_to_stop(s[k], reason)
    } else {
        s[k]
    } by {
        lemma_contains_push(list, id, s[k].record.id@);
        assert(m[k].record.id@ == s[k].record.id@);
        if let Some(i) = place(m, id) {
            assert(m[i].record.id@ == s[i].record.id@);
            if k != i && s[k].record.id@ == id {
                if k < i {
                    assert(s[k].record.id@ != s[i].record.id@);
                } else {
                    assert(s[i].record.id@ != s[k].record.id@);
                }
            }
        }
    }
    assert forall|k: int| 0 <= k < s.len() implies kin_at(#[trigger] s[k], t[k]) by {
        assert(t[k] == t[k]);
    }
}

proof fn lemma_tree_stopped(
    s: Seq<Active>,
    next: u64,
    m: Seq<Active>,
    t: Seq<Active>,
    i: int,
    reason: Option<String>,
    child: String,
)
    requires
        distinct_ids(s),
        owners_older(s, next),
        0 <= i < s.len(),
        stopped_of(s, m, live_below(s, s[i].record.id@, s.len()), Some(child)),
        place(m, s[i].record.id@) matches Some(p) && t == m.update(p, told_to_stop(m[p], reason)),
    ensures
        stopped_tree(s, t, s[i].record.id@, reason, child),
        kin(s, t),
{
    let id = s[i].record.id@;
    let owned = live_below(s, id, s.len());
    lemma_live_below(s, id, s.len());
    lemma_place(m, id);
    let p = place(m, id)->0;
    assert(m[p].record.id@ == s[p].record.id@);
    if p < i {
        assert(s[p].record.id@ != s[i].record.id@);
    } else if i < p {
        assert(s[i].record.id@ != s[p].record.id@);
    }
    assert forall|k: int| 0 <= k < s.len() implies #[trigger] t[k] == stopped_with(
        s,
        k,
        id,
        reason,
        Some(child),
    ) by {
        let x = s[k].record.id@;
        assert(m[k] == m[k]);
        if owned.contains(x) {
            let j = choose|j: int|
                0 <= j < s.len() && (#[trigger] s[j]).record.id@ == x && s[j].worker && below(
                    s,
                    s[j].record.id@,
                    id,
                );
            if j < k {
                assert(s[j].record.id@ != s[k].record.id@);
            } else if k < j {
                assert(s[k].record.id@ != s[j].record.id@);
            }
        }
        if k == i {
            if below(s, id, id) {
                lemma_below_younger(s, next, i, i, s.len());
            }
        } else if k < i {
            assert(s[k].record.id@ != s[i].record.id@);
        } else {
            assert(s[i].record.id@ != s[k].record.id@);
        }
    }
    assert forall|k: int| 0 <= k < s.len() implies kin_at(#[trigger] s[k], t[k]) by {
        assert(t[k] == t[k]);
    }
}

/// What comes of stopping a session: nothing where it owns live ones that are to be left
/// alone, else it and all of them are told.
pub open spec fn tree_stop(
    c: Controller,
    d: Controller,
    i: int,
    kill_children: bool,
    reason: Option<String>,
    r: Result<(), Fault>,
) -> bool {
    let s = c.sessions@;
    let id = s[i].record.id@;
    let owned = live_below(s, id, s.len());
    if !kill_children && owned.len() > 0 {
        &&& d == c
        &&& is_fault(
            r,
            (
                -32009int,
                "warning: sandbox has "@ + decimal_of(owned.len())
                    + " live descendant(s); use --kill-children to kill the subtree"@,
            ),
        )
    } else {
        &&& r is Ok
        &&& kin(s, d.sessions@)
        &&& exists|child: String, h: Seq<Controller>|
            {
                &&& #[trigger] stopped_tree(s, d.sessions@, id, reason, child)
                &&& child@ == match reason {
                    Some(t) => t@,
                    None => owner_exited(s[i].record.agent_name@, id),
                }
                &&& #[trigger] stopped_in_turn(h, owned, Some(child))
                &&& h[0] == c
                &&& stop_step(h.last(), d, id, reason)
            }
        &&& settled(c, d)
    }
}

/// What lives below a session that has ended, and was not told yet, is told to stop.
pub open spec fn orphans_stop(c: Controller, d: Controller, i: int) -> bool {
    let s = c.sessions@;
    let id = s[i].record.id@;
    &&& kin(s, d.sessions@)
    &&& exists|why: String, h: Seq<Controller>|
        {
            &&& why@ == owner_exited(s[i].record.agent_name@, id)
            &&& #[trigger] stopped_of(s, d.sessions@, orphans(s, id, s.len()), Some(why))
            &&& #[trigger] stopped_in_turn(h, orphans(s, id, s.len()), Some(why))
            &&& h[0] == c
            &&& h.last() == d
        }
    &&& settled(c, d)
}

/// What comes of sending a consumer away: where there is none, nothing.
pub open spec fn detaching(c: Controller, d: Controller, i: int, r: Result<(), Fault>) -> bool {
    let a = c.sessions@[i];
    let t = a.terminal@;
    if t.peer && !t.detached && !t.complete {
        &&& r is Ok
        &&& d.sessions@[i].terminal@ == (TerminalView {
            detached: true,
            to_pty: Seq::empty(),
            ..t
        })
        &&& d.sessions@ == c.sessions@.update(
            i,
            Active {
                terminal: d.sessions@[i].terminal,
                record: SessionRecord {
                    terminal_attached: false,
                    terminal_detached: true,
                    ..a.record
                },
                ..a
            },
        )
        &&& d == (Controller { sessions: d.sessions, dirty: true, ..c })
    } else {
        &&& is_fault(r, (-32009int, "terminal is not attached"@))
        &&& d.sessions@.len() == c.sessions@.len()
        &&& d.sessions@[i].terminal@ == t
        &&& d == (Controller { sessions: d.sessions, ..c })
        &&& d.sessions@ == c.sessions@.update(
            i,
            Active { terminal: d.sessions@[i].terminal, ..a },
        )
    }
}

impl Controller {
    pub open spec fn wf(&self) -> bool {
        kept(*self)
    }

    /// Ends the request that a session waits for, if it waits for one.
    pub(crate) fn end_pending(&mut self, i: usize, state: PermissionState, status: &str, message: &str)
        requires
            i < old(self).sessions@.len(),
            all_wf(old(self).connections@),
        ensures
            all_wf(final(self).connections@),
            final(self).sessions@ == old(self).sessions@.update(
                i as int,
                Active { pending: None, ..old(self).sessions@[i as int] },
            ),
            match pending_id(old(self).sessions@[i as int]) {
                Some(id) => {
                    &&& final(self).permissions@ == with_state(old(self).permissions@, id, state)
                    &&& answered(
                        old(self).connections@,
                        final(self).connections@,
                        id,
                        status@,
                        Some(message@),
                    )
                },
                None => {
                    &&& final(self).permissions == old(self).permissions
                    &&& final(self).connections == old(self).connections
                },
            },
            *final(self) == (Controller {
                sessions: final(self).sessions,
                permissions: final(self).permissions,
                connections: final(self).connections,
                ..*old(self)
            }),
    {
        let id = match &self.sessions[i].pending {
            Some(p) => Some(p.id.clone()),
            None => None,
        };
        self.sessions[i].pending = None;
        if let Some(id) = id {
            self.set_state(id.as_str(), state);
            self.reply_permission(id.as_str(), status, Some(String::from_str(message)));
        }
    }

    /// Tells a session to stop. What it waits for is cancelled.
    pub fn stop(&mut self, id: &str, reason: Option<String>) -> (r: Result<(), Fault>)
        requires
            old(self).wf(),
        ensures
            final(self).wf(),
            match place(old(self).sessions@, id@) {
                None => is_fault(r, is_missing()) && *final(self) == *old(self),
                Some(i) => {
                    &&& r is Ok
                    &&& ended_at(
                        *old(self),
                        *final(self),
                        i,
                        told_to_stop(old(self).sessions@[i], reason),
                        PermissionState::Cancelled,
                        "error"@,
                        Some("session stopped"@),
                    )
                },
            },
    {
        proof {
            lemma_place(self.sessions@, id@);
        }
        let i = match self.find(id) {
            Some(i) => i,
            None => {
                return Err((-32004, String::from_str("record absent or no longer retained")));
            },
        };
        let ghost before = *self;
        let ghost a = self.sessions@[i as int];
        if self.sessions[i].worker {
            if !self.sessions[i].record.state.ending() {
                self.sessions[i].record.stop_reason = reason;
            }
            self.sessions[i].cancelled = true;
            self.sessions[i].record.state = SessionState::Stopping;
        }
        self.sessions[i].listening = false;
        self.end_pending(i, PermissionState::Cancelled, "error", "session stopped");
        self.dirty = true;
        proof {
            let entry = told_to_stop(a, reason);
            assert(self.sessions@ =~= before.sessions@.update(i as int, entry));
            lemma_ended_kept(
                before,
                *self,
                i as int,
                entry,
                PermissionState::Cancelled,
                "error"@,
                Some("session stopped"@),
            );
        }
        Ok(())
    }

    fn owner_exited_reason(&self, i: usize) -> (r: String)
        requires
            i < self.sessions@.len(),
        ensures
            r@ == owner_exited(
                self.sessions@[i as int].record.agent_name@,
                self.sessions@[i as int].record.id@,
            ),
    {
        let mut r = String::from_str("stopped because owner goblin ");
        r.push_str(self.sessions[i].record.agent_name.as_str());
        r.push_str(" (");
        r.push_str(self.sessions[i].record.id.as_str());
        r.push_str(") exited");
        r
    }

    fn find_live_below(&self, id: &str) -> (r: Vec<String>)
        ensures
            texts(r@) == live_below(self.sessions@, id@, self.sessions@.len()),
    {
        let ghost s = self.sessions@;
        let mut r: Vec<String> = Vec::new();
        let mut k: usize = 0;
        assert(texts(r@) =~= Seq::<Seq<char>>::empty());
        while k < self.sessions.len()
            invariant
                s == self.sessions@,
                k <= s.len(),
                texts(r@) == live_below(s, id@, k as nat),
            decreases s.len() - k,
        {
            if self.sessions[k].worker && self.descendant(
                self.sessions[k].record.id.as_str(),
                id,
            ) {
                let ghost before = texts(r@);
                r.push(self.sessions[k].record.id.clone());
                assert(texts(r@) =~= before.push(s[k as int].record.id@));
            }
            k += 1;
        }
        r
    }

    /// Stops each of these sessions.
    fn stop_each(&mut self, ids: &Vec<String>, reason: &Option<String>) -> (h: Ghost<
        Seq<Controller>,
    >)
        requires
            old(self).wf(),
        ensures
            final(self).wf(),
            stopped_in_turn(h@, texts(ids@), *reason),
            h@[0] == *old(self),
            h@.last() == *final(self),
            kin(old(self).sessions@, final(self).sessions@),
            stopped_of(old(self).sessions@, final(self).sessions@, texts(ids@), *reason),
            settled(*old(self), *final(self)),
    {
        let ghost s = self.sessions@;
        let ghost wanted = texts(ids@);
        let ghost mut h = seq![*self];
        let mut n: usize = 0;
        proof {
            lemma_kin_self(s);
            lemma_settled_self(*self);
            assert(stopped_of(s, s, wanted.take(0), *reason));
        }
        while n < ids.len()
            invariant
                s == old(self).sessions@,
                wanted == texts(ids@),
                n <= ids@.len(),
                self.wf(),
                kin(s, self.sessions@),
                distinct_ids(s),
                settled(*old(self), *self),
                stopped_of(s, self.sessions@, wanted.take(n as int), *reason),
                stopped_in_turn(h, wanted.take(n as int), *reason),
                h[0] == *old(self),
                h.last() == *self,
            decreases ids@.len() - n,
        {
            let why = match reason {
                Some(r) => Some(r.clone()),
                None => None,
            };
            let ghost mid = *self;
            let ghost id = wanted[n as int];
            assert(id == ids@[n as int]@);
            let _ = self.stop(ids[n].as_str(), why);
            proof {
                assert(wanted.take(n + 1) =~= wanted.take(n as int).push(id));
                lemma_stop_one(
                    s,
                    mid.sessions@,
                    self.sessions@,
                    wanted.take(n as int),
                    id,
                    *reason,
                );
                lemma_place(mid.sessions@, id);
                if let Some(i) = place(mid.sessions@, id) {
                    lemma_settled_step(
                        *old(self),
                        mid,
                        *self,
                        i,
                        told_to_stop(mid.sessions@[i], why),
                    );
                }
                let before = h;
                h = before.push(*self);
                assert forall|m: int| 0 <= m < n + 1 implies stop_step(
                    #[trigger] h[m],
                    h[m + 1],
                    wanted.take(n + 1)[m],
                    *reason,
                ) by {
                    if m < n {
                        assert(h[m] == before[m] && h[m + 1] == before[m + 1]);
                        assert(wanted.take(n + 1)[m] == wanted.take(n as int)[m]);
                    }
                }
            }
            n += 1;
        }
        assert(wanted.take(n as int) =~= wanted);
        Ghost(h)
    }

    /// Stops a session and, if that is asked for, all that lives below it. Without
    /// that a session that owns live ones is not stopped.
    pub fn stop_tree(&mut self, i: usize, kill_children: bool, reason: Option<String>) -> (r: Result<
        (),
        Fault,
    >)
        requires
            old(self).wf(),
            i < old(self).sessions@.len(),
        ensures
            final(self).wf(),
            tree_stop(*old(self), *final(self), i as int, kill_children, reason, r),
    {
        let ghost s = self.sessions@;
        let id = self.sessions[i].record.id.clone();
        let owned = self.find_live_below(id.as_str());
        assert(texts(owned@).len() == owned@.len());
        if !kill_children && owned.len() > 0 {
            let mut message = String::from_str("warning: sandbox has ");
            message.push_str(decimal(owned.len() as u64).as_str());
            message.push_str(" live descendant(s); use --kill-children to kill the subtree");
            return Err((-32009, message));
        }
        let child = match &reason {
            Some(r) => r.clone(),
            None => self.owner_exited_reason(i),
        };
        let ghost said = child;
        let child_reason = Some(child);
        let Ghost(h) = self.stop_each(&owned, &child_reason);
        let ghost mid = *self;
        let ghost own = reason;
        let r = self.stop(id.as_str(), reason);
        proof {
            lemma_place(mid.sessions@, id@);
            lemma_kin(s, mid.sessions@);
            lemma_place(s, id@);
            lemma_tree_stopped(s, old(self).next, mid.sessions@, self.sessions@, i as int, own, said);
            let p = place(mid.sessions@, id@)->0;
            lemma_settled_step(*old(self), mid, *self, p, told_to_stop(mid.sessions@[p], own));
            assert(stopped_in_turn(h, live_below(s, id@, s.len()), Some(said)));
            assert(stop_step(h.last(), *self, id@, own));
        }
        r
    }

    /// A session has ended: what lives below it, and was not told yet, is told to stop.
    pub fn stop_orphans(&mut self, i: usize)
        requires
            old(self).wf(),
            i < old(self).sessions@.len(),
        ensures
            final(self).wf(),
            orphans_stop(*old(self), *final(self), i as int),
    {
        let ghost s = self.sessions@;
        let id = self.sessions[i].record.id.clone();
        let mut list: Vec<String> = Vec::new();
        let mut k: usize = 0;
        assert(texts(list@) =~= Seq::<Seq<char>>::empty());
        while k < self.sessions.len()
            invariant
                *self == *old(self),
                s == self.sessions@,
                k <= s.len(),
                texts(list@) == orphans(s, id@, k as nat),
            decreases s.len() - k,
        {
            let a = &self.sessions[k];
            if a.worker && !a.record.state.ending() && self.descendant(
                a.record.id.as_str(),
                id.as_str(),
            ) {
                let ghost before = texts(list@);
                list.push(a.record.id.clone());
                assert(texts(list@) =~= before.push(s[k as int].record.id@));
            }
            k += 1;
        }
        let why = self.owner_exited_reason(i);
        let ghost said = why;
        let reason = Some(why);
        let Ghost(h) = self.stop_each(&list, &reason);
        assert(stopped_in_turn(h, orphans(s, id@, s.len()), Some(said)));
        assert(stopped_of(s, self.sessions@, orphans(s, id@, s.len()), Some(said)));
    }

    /// Sends the consumer of a session's terminal away.
    pub fn detach(&mut self, i: usize) -> (r: Result<(), Fault>)
        requires
            old(self).wf(),
            i < old(self).sessions@.len(),
        ensures
            final(self).wf(),
            detaching(*old(self), *final(self), i as int, r),
    {
        let ghost s = self.sessions@;
        let ghost a = s[i as int];
        match self.sessions[i].terminal.detach() {
            Err(e) => {
                proof {
                    lemma_update_kin(s, i as int, self.sessions@[i as int]);
                    lemma_kin(s, self.sessions@);
                }
                Err((-32009, e))
            },
            Ok(()) => {
                let attached = self.sessions[i].terminal.attached();
                self.sessions[i].record.terminal_attached = attached;
                let detached = self.sessions[i].terminal.detached();
                self.sessions[i].record.terminal_detached = detached;
                self.dirty = true;
                proof {
                    lemma_update_kin(s, i as int, self.sessions@[i as int]);
                    assert(self.sessions@ =~= s.update(i as int, self.sessions@[i as int]));
                    lemma_kin(s, self.sessions@);
                }
                Ok(())
            },
        }
    }

    /// A connection is gone. A request that it waited for, and that nobody has
    /// decided yet, is withdrawn.
    pub fn withdraw(&mut self, connection: u64)
        requires
            old(self).wf(),
        ensures
            final(self).wf(),
            match undecided(*old(self), connection, 0) {
                None => *final(self) == *old(self),
                Some(i) => {
                    &&& final(self).sessions@ == old(self).sessions@.update(
                        i,
                        Active { pending: None, ..old(self).sessions@[i] },
                    )
                    &&& final(self).permissions@ == with_state(
                        old(self).permissions@,
                        pending_id(old(self).sessions@[i])->0,
                        PermissionState::Withdrawn,
                    )
                    &&& *final(self) == (Controller {
                        sessions: final(self).sessions,
                        permissions: final(self).permissions,
                        dirty: true,
                        ..*old(self)
                    })
                },
            },
    {
        let ghost before = *self;
        let mut i: usize = 0;
        while i < self.sessions.len()
            invariant
                *self == before,
                before == *old(self),
                kept(before),
                i <= self.sessions@.len(),
                undecided(before, connection, 0) == undecided(before, connection, i as int),
            decreases self.sessions@.len() - i,
        {
            let request = match &self.sessions[i].pending {
                Some(p) => if p.connection == connection {
                    Some(p.id.clone())
                } else {
                    None
                },
                None => None,
            };
            if let Some(id) = request {
                let open = match self.find_request(id.as_str()) {
                    Some(q) => self.permissions[q].state == PermissionState::Pending,
                    None => false,
                };
                if open {
                    self.sessions[i].pending = None;
                    self.set_state(id.as_str(), PermissionState::Withdrawn);
                    self.dirty = true;
                    proof {
                        let entry = Active { pending: None, ..before.sessions@[i as int] };
                        assert(self.sessions@ =~= before.sessions@.update(i as int, entry));
                        lemma_update_kin(before.sessions@, i as int, entry);
                        lemma_kin(before.sessions@, self.sessions@);
                        lemma_with_state(before.permissions@, id@, PermissionState::Withdrawn);
                    }
                    return;
                }
            }
            i += 1;
        }
    }
}

/// The sessions below one, among the first `k`, that have a worker and were not told to stop.
pub open spec fn orphans(s: Seq<Active>, id: Seq<char>, k: nat) -> Seq<Seq<char>>
    decreases k,
{
    if k == 0 {
        Seq::empty()
    } else {
        let before = orphans(s, id, (k - 1) as nat);
        let a = s[k - 1];
        if a.worker && !a.record.state.is_ending() && below(s, a.record.id@, id) {
            before.push(a.record.id@)
        } else {
            before
        }
    }
}

/// The first session, from the place `i` on, that waits over that connection for
/// a request that nobody has decided.
pub open spec fn undecided(c: Controller, connection: u64, i: int) -> Option<int>
    decreases c.sessions@.len() - i,
{
    if i < 0 || i >= c.sessions@.len() {
        None
    } else if c.sessions@[i].pending matches Some(p) && p.connection == connection && is_undecided(
        c.permissions@,
        p.id@,
    ) {
        Some(i)
    } else {
        undecided(c, connection, i + 1)
    }
}

pub open spec fn is_undecided(p: Seq<PermissionRecord>, id: Seq<char>) -> bool {
    request_place(p, id) matches Some(q) && p[q].state == PermissionState::Pending
}

/// Stopping a session again does not change why it was stopped.
pub proof fn the_first_reason_stands(a: Active, first: Option<String>, second: Option<String>)
    ensures
        told_to_stop(told_to_stop(a, first), second).record.stop_reason == told_to_stop(
            a,
            first,
        ).record.stop_reason,
{
}

/// Nothing is below itself, and of two sessions at most one is below the other.
pub proof fn ownership_has_no_cycles(c: Controller, i: int, j: int)
    requires
        kept(c),
        0 <= i < c.sessions@.len(),
        0 <= j < c.sessions@.len(),
        below(c.sessions@, c.sessions@[i].record.id@, c.sessions@[j].record.id@),
    ensures
        !below(c.sessions@, c.sessions@[j].record.id@, c.sessions@[i].record.id@),
        i != j,
{
    let s = c.sessions@;
    lemma_below_younger(s, c.next, i, j, s.len());
    if below(s, s[j].record.id@, s[i].record.id@) {
        lemma_below_younger(s, c.next, j, i, s.len());
    }
}

// ---------------------------------------------------------------------------
// The way up
// ---------------------------------------------------------------------------

/// The session at the place `i` is owned by the one at the place `j`.
pub open spec fn owned_by(s: Seq<Active>, i: int, j: int) -> bool {
    0 <= i < s.len() && 0 <= j < s.len() && maybe(s[i].record.parent) == Some(s[j].record.id@)
}

/// Places of sessions of which each is owned by the next.
pub open spec fn leads_up(s: Seq<Active>, path: Seq<int>) -> bool {
    &&& path.len() > 0
    &&& 0 <= path[0] < s.len()
    &&& forall|k: int| 0 <= k < path.len() - 1 ==> #[trigger] owned_by(s, path[k], path[k + 1])
}

proof fn lemma_place_of(s: Seq<Active>, i: int)
    requires
        distinct_ids(s),
        0 <= i < s.len(),
    ensures
        place(s, s[i].record.id@) == Some(i),
{
    lemma_place(s, s[i].record.id@);
    let k = place(s, s[i].record.id@)->0;
    if k < i {
        assert(s[k].record.id@ != s[i].record.id@);
    }
}

/// A way up is no longer than there are sessions.
proof fn lemma_way_is_short(s: Seq<Active>, next: u64, path: Seq<int>)
    requires
        owners_older(s, next),
        leads_up(s, path),
    ensures
        path.len() - 1 <= older(s, s[path[0]].created as int),
        path.len() <= s.len(),
    decreases path.len(),
{
    let a = s[path[0]].created as int;
    if path.len() > 1 {
        lemma_rest_leads_up(s, path);
        lemma_way_is_short(s, next, path.drop_first());
        let i = path[0];
        let j = path.drop_first()[0];
        assert(s[j].created < s[i].created);
        lemma_older(s, s[j].created as int, a);
        assert(s[j].created as int <= s[j].created < a);
    }
    lemma_older(s, a, u64::MAX + 1);
    assert(a <= s[path[0]].created < u64::MAX + 1);
}

proof fn lemma_rest_leads_up(s: Seq<Active>, path: Seq<int>)
    requires
        leads_up(s, path),
        path.len() > 1,
    ensures
        leads_up(s, path.drop_first()),
        maybe(s[path[0]].record.parent) == Some(s[path.drop_first()[0]].record.id@),
{
    let rest = path.drop_first();
    assert(owned_by(s, path[0], path[0int + 1]));
    assert forall|k: int| 0 <= k < rest.len() - 1 implies #[trigger] owned_by(
        s,
        rest[k],
        rest[k + 1],
    ) by {
        assert(owned_by(s, path[k + 1], path[k + 1 + 1]));
    }
}

proof fn lemma_longer_way(s: Seq<Active>, i: int, path: Seq<int>)
    requires
        leads_up(s, path),
        0 <= i < s.len(),
        maybe(s[i].record.parent) == Some(s[path[0]].record.id@),
    ensures
        leads_up(s, seq![i] + path),
{
    let all = seq![i] + path;
    assert forall|k: int| 0 <= k < all.len() - 1 implies #[trigger] owned_by(s, all[k],
        all[k + 1]) by {
        if k > 0 {
            assert(owned_by(s, path[k - 1], path[k - 1 + 1]));
        }
    }
}

proof fn lemma_way_descends(s: Seq<Active>, path: Seq<int>, steps: nat)
    requires
        distinct_ids(s),
        leads_up(s, path),
        path.len() > 1,
        steps >= path.len() - 1,
    ensures
        descends(tree(s), s[path[0]].record.id@, s[path.last()].record.id@, steps),
    decreases path.len(),
{
    lemma_rest_leads_up(s, path);
    lemma_place(s, s[path[0]].record.id@);
    lemma_place_of(s, path[0]);
    if path.len() > 2 {
        lemma_way_descends(s, path.drop_first(), (steps - 1) as nat);
    }
}

/// A session is below another exactly where a way up leads from the one to the other.
pub proof fn what_is_below_has_a_way_up(c: Controller, path: Seq<int>)
    requires
        kept(c),
        leads_up(c.sessions@, path),
        path.len() > 1,
    ensures
        below(
            c.sessions@,
            c.sessions@[path[0]].record.id@,
            c.sessions@[path.last()].record.id@,
        ),
{
    lemma_way_is_short(c.sessions@, c.next, path);
    lemma_way_descends(c.sessions@, path, c.sessions@.len());
}

/// From what is below a session a way up leads to it.
pub proof fn a_way_leads_up_from_below(c: Controller, i: int, j: int) -> (path: Seq<int>)
    requires
        kept(c),
        0 <= i < c.sessions@.len(),
        0 <= j < c.sessions@.len(),
        below(c.sessions@, c.sessions@[i].record.id@, c.sessions@[j].record.id@),
    ensures
        leads_up(c.sessions@, path),
        path.len() > 1,
        path[0] == i,
        path.last() == j,
{
    lemma_way_from(c.sessions@, i, j, c.sessions@.len())
}

proof fn lemma_way_from(s: Seq<Active>, i: int, j: int, steps: nat) -> (path: Seq<int>)
    requires
        distinct_ids(s),
        0 <= i < s.len(),
        0 <= j < s.len(),
        descends(tree(s), s[i].record.id@, s[j].record.id@, steps),
    ensures
        leads_up(s, path),
        path.len() > 1,
        path[0] == i,
        path.last() == j,
    decreases steps,
{
    lemma_place(s, s[i].record.id@);
    lemma_place_of(s, i);
    let p = maybe(s[i].record.parent)->0;
    if p == s[j].record.id@ {
        let one = seq![j];
        lemma_longer_way(s, i, one);
        seq![i] + one
    } else {
        assert(descends(tree(s), p, s[j].record.id@, (steps - 1) as nat));
        lemma_place(s, p);
        let q = place(s, p)->0;
        let rest = lemma_way_from(s, q, j, (steps - 1) as nat);
        lemma_longer_way(s, i, rest);
        assert((seq![i] + rest).last() == rest.last());
        seq![i] + rest
    }
}

/// A session was granted a path of a package: the first that is noted of it.
pub open spec fn was_granted(a: Active, package: Seq<char>, output: Seq<char>) -> bool {
    exists|k: int|
        0 <= k < a.granted_outputs@.len() && (#[trigger] a.granted_outputs@[k]).0@ == package
            && a.granted_outputs@[k].1@ == output && forall|j: int|
            0 <= j < k ==> (#[trigger] a.granted_outputs@[j]).0@ != package
}

/// A session was granted nothing of a package.
pub open spec fn was_not_granted(a: Active, package: Seq<char>) -> bool {
    forall|k: int|
        0 <= k < a.granted_outputs@.len() ==> (#[trigger] a.granted_outputs@[k]).0@ != package
}

proof fn lemma_output(o: Seq<(String, String)>, package: Seq<char>, k: int)
    requires
        0 <= k <= o.len(),
        forall|j: int| 0 <= j < k ==> (#[trigger] o[j]).0@ != package,
        k < o.len() ==> o[k].0@ == package,
    ensures
        output_of(o, package) == if k < o.len() {
            Some(o[k].1@)
        } else {
            None
        },
    decreases o.len(),
{
    if k > 0 {
        let rest = o.drop_first();
        assert forall|j: int| 0 <= j < k - 1 implies (#[trigger] rest[j]).0@ != package by {
            assert(rest[j] == o[j + 1]);
        }
        assert(o[0].0@ != package);
        lemma_output(rest, package, k - 1);
    }
}

proof fn lemma_grant(a: Active, package: Seq<char>, output: Seq<char>)
    ensures
        was_granted(a, package, output) ==> output_of(a.granted_outputs@, package) == Some(output),
        was_not_granted(a, package) ==> output_of(a.granted_outputs@, package) is None,
{
    let o = a.granted_outputs@;
    if was_granted(a, package, output) {
        let k = choose|k: int|
            0 <= k < o.len() && (#[trigger] o[k]).0@ == package && o[k].1@ == output && forall|
                j: int,
            |
                0 <= j < k ==> (#[trigger] o[j]).0@ != package;
        lemma_output(o, package, k);
    }
    if was_not_granted(a, package) {
        lemma_output(o, package, o.len() as int);
    }
}

/// What was granted of a package is what is noted of it, or nothing.
proof fn lemma_noted(o: Seq<(String, String)>, package: Seq<char>) -> (k: int)
    ensures
        0 <= k <= o.len(),
        forall|j: int| 0 <= j < k ==> (#[trigger] o[j]).0@ != package,
        k < o.len() ==> o[k].0@ == package,
    decreases o.len(),
{
    if o.len() == 0 {
        0
    } else if o[0].0@ == package {
        0
    } else {
        let rest = o.drop_first();
        let k = lemma_noted(rest, package);
        assert forall|j: int| 0 <= j < k + 1 implies (#[trigger] o[j]).0@ != package by {
            if j > 0 {
                assert(o[j] == rest[j - 1]);
            }
        }
        if k < rest.len() {
            assert(o[k + 1] == rest[k]);
        }
        k + 1
    }
}

proof fn lemma_granted_up(
    s: Seq<Active>,
    path: Seq<int>,
    package: Seq<char>,
    output: Seq<char>,
    steps: nat,
)
    requires
        distinct_ids(s),
        leads_up(s, path),
        steps >= path.len(),
        forall|k: int| 0 <= k < path.len() - 1 ==> was_not_granted(s[#[trigger] path[k]], package),
        was_granted(s[path.last()], package, output),
    ensures
        granted_above(s, s[path[0]].record.id@, package, steps) == Some(output),
    decreases path.len(),
{
    lemma_place_of(s, path[0]);
    lemma_grant(s[path[0]], package, output);
    if path.len() > 1 {
        let rest = path.drop_first();
        lemma_rest_leads_up(s, path);
        assert(was_not_granted(s[path[0]], package));
        assert forall|k: int| 0 <= k < rest.len() - 1 implies was_not_granted(
            s[#[trigger] rest[k]],
            package,
        ) by {
            assert(rest[k] == path[k + 1]);
        }
        assert(rest.last() == path.last());
        lemma_granted_up(s, rest, package, output, (steps - 1) as nat);
    }
}

/// A session inherits what the nearest session on the way up was granted of a package, itself
/// first: the very path that was granted.
pub proof fn a_grant_is_inherited_downward(
    c: Controller,
    path: Seq<int>,
    package: Seq<char>,
    output: Seq<char>,
)
    requires
        kept(c),
        leads_up(c.sessions@, path),
        forall|k: int|
            0 <= k < path.len() - 1 ==> was_not_granted(
                c.sessions@[#[trigger] path[k]],
                package,
            ),
        was_granted(c.sessions@[path.last()], package, output),
    ensures
        granted_above(
            c.sessions@,
            c.sessions@[path[0]].record.id@,
            package,
            (c.sessions@.len() + 1) as nat,
        ) == Some(output),
{
    lemma_way_is_short(c.sessions@, c.next, path);
    lemma_granted_up(c.sessions@, path, package, output, (c.sessions@.len() + 1) as nat);
}

/// What a session inherits of a package was granted to a session on the way up, and to none
/// before that.
pub proof fn what_is_inherited_was_granted_above(c: Controller, i: int,
    package: Seq<char>) -> (path:
    Seq<int>)
    requires
        kept(c),
        0 <= i < c.sessions@.len(),
        granted_above(
            c.sessions@,
            c.sessions@[i].record.id@,
            package,
            (c.sessions@.len() + 1) as nat,
        ) is Some,
    ensures
        leads_up(c.sessions@, path),
        path[0] == i,
        forall|k: int|
            0 <= k < path.len() - 1 ==> was_not_granted(
                c.sessions@[#[trigger] path[k]],
                package,
            ),
        was_granted(
            c.sessions@[path.last()],
            package,
            granted_above(
                c.sessions@,
                c.sessions@[i].record.id@,
                package,
                (c.sessions@.len() + 1) as nat,
            )->0,
        ),
{
    lemma_granted_from(c.sessions@, i, package, (c.sessions@.len() + 1) as nat)
}

proof fn lemma_granted_from(s: Seq<Active>, i: int, package: Seq<char>, steps: nat) -> (path: Seq<
    int,
>)
    requires
        distinct_ids(s),
        0 <= i < s.len(),
        granted_above(s, s[i].record.id@, package, steps) is Some,
    ensures
        leads_up(s, path),
        path[0] == i,
        forall|k: int| 0 <= k < path.len() - 1 ==> was_not_granted(s[#[trigger] path[k]], package),
        was_granted(
            s[path.last()],
            package,
            granted_above(s, s[i].record.id@, package, steps)->0,
        ),
    decreases steps,
{
    lemma_place_of(s, i);
    let o = s[i].granted_outputs@;
    let k = lemma_noted(o, package);
    lemma_output(o, package, k);
    if k < o.len() {
        assert(was_granted(s[i], package, o[k].1@));
        seq![i]
    } else {
        assert(was_not_granted(s[i], package));
        let p = maybe(s[i].record.parent)->0;
        assert(granted_above(s, p, package, (steps - 1) as nat) is Some);
        lemma_place(s, p);
        let q = place(s, p)->0;
        let rest = lemma_granted_from(s, q, package, (steps - 1) as nat);
        let all = seq![i] + rest;
        lemma_longer_way(s, i, rest);
        assert forall|k: int| 0 <= k < all.len() - 1 implies was_not_granted(
            s[#[trigger] all[k]],
            package,
        ) by {
            if k > 0 {
                assert(all[k] == rest[k - 1]);
            }
        }
        assert(all.last() == rest.last());
        all
    }
}

/// How many sessions have a worker is how many there are of those.
pub proof fn live_sessions_are_counted(s: Seq<Active>)
    ensures
        live_count(s) == s.filter(|a: Active| a.worker).len(),
    decreases s.len(),
{
    reveal(Seq::filter);
    if s.len() > 0 {
        live_sessions_are_counted(s.drop_last());
    }
}

// ---------------------------------------------------------------------------
// Whom a caller means
// ---------------------------------------------------------------------------

/// A caller sees a session: the host every one, a session what it owns, near or far.
pub open spec fn in_sight(s: Seq<Active>, scope: Option<Seq<char>>, i: int) -> bool {
    &&& 0 <= i < s.len()
    &&& scope matches Some(root) ==> below(s, s[i].record.id@, root)
}

/// A session is meant by its ID by whoever sees it, whether it lives or not.
pub proof fn a_session_is_meant_by_its_id(c: Controller, i: int, scope: Option<Seq<char>>)
    requires
        kept(c),
        in_sight(c.sessions@, scope, i),
    ensures
        meant(c.sessions@, c.sessions@[i].record.id@, scope) == Ok::<int, (int, Seq<char>)>(i),
{
    let s = c.sessions@;
    let target = s[i].record.id@;
    assert forall|j: int| 0 <= j < i implies (#[trigger] s[j]).record.id@ != target by {
        assert(s[j].record.id@ != s[i].record.id@);
    }
    lemma_seen_by_id(s, target, scope, 0, i);
}

proof fn lemma_seen_by_id(
    s: Seq<Active>,
    target: Seq<char>,
    scope: Option<Seq<char>>,
    from: int,
    i: int,
)
    requires
        0 <= from <= i <= s.len(),
        forall|j: int|
            from <= j < i ==> !((#[trigger] s[j]).record.id@ == target && in_sight(s, scope, j)),
        i < s.len() ==> s[i].record.id@ == target && in_sight(s, scope, i),
    ensures
        seen_by_id(s, target, scope, from) == if i < s.len() {
            Some(i)
        } else {
            None
        },
    decreases s.len() - from,
{
    if from < i {
        assert(!(s[from].record.id@ == target && in_sight(s, scope, from)));
        lemma_seen_by_id(s, target, scope, from + 1, i);
    }
}

proof fn lemma_seen_by_path(
    s: Seq<Active>,
    target: Seq<char>,
    scope: Option<Seq<char>>,
    from: int,
    i: int,
)
    requires
        0 <= from <= i <= s.len(),
        forall|j: int|
            from <= j < i ==> !((#[trigger] s[j]).worker && relative(
                s,
                s[j].record.path@,
                scope,
            ) == target && in_sight(s, scope, j)),
        i < s.len() ==> s[i].worker && relative(s, s[i].record.path@, scope) == target && in_sight(
            s,
            scope,
            i,
        ),
    ensures
        seen_by_path(s, target, scope, from) == if i < s.len() {
            Some(i)
        } else {
            None
        },
    decreases s.len() - from,
{
    if from < i {
        assert(!(s[from].worker && relative(s, s[from].record.path@, scope) == target && in_sight(
            s,
            scope,
            from,
        )));
        lemma_seen_by_path(s, target, scope, from + 1, i);
    }
}

/// A live session is meant by its path: its whole one for the host, and for a session what
/// stands behind its own.
pub proof fn a_live_session_is_meant_by_its_path(
    c: Controller,
    i: int,
    scope: Option<Seq<char>>,
    target: Seq<char>,
)
    requires
        in_sight(c.sessions@, scope, i),
        c.sessions@[i].worker,
        relative(c.sessions@, c.sessions@[i].record.path@, scope) == target,
        forall|j: int|
            0 <= j < c.sessions@.len() ==> (#[trigger] c.sessions@[j]).record.id@ != target,
        forall|j: int|
            0 <= j < i ==> !((#[trigger] c.sessions@[j]).worker && relative(
                c.sessions@,
                c.sessions@[j].record.path@,
                scope,
            ) == target && in_sight(c.sessions@, scope, j)),
    ensures
        meant(c.sessions@, target, scope) == Ok::<int, (int, Seq<char>)>(i),
{
    let s = c.sessions@;
    lemma_seen_by_id(s, target, scope, 0, s.len() as int);
    lemma_seen_by_path(s, target, scope, 0, i);
}

/// A path below a session is what stands behind its own and a slash.
pub proof fn a_path_is_seen_from_its_owner(c: Controller, r: int, rest: Seq<char>)
    requires
        kept(c),
        0 <= r < c.sessions@.len(),
    ensures
        relative(
            c.sessions@,
            c.sessions@[r].record.path@ + "/"@ + rest,
            Some(c.sessions@[r].record.id@),
        ) == rest,
        relative(c.sessions@, rest, None) == rest,
{
    lemma_place_of(c.sessions@, r);
    let prefix = c.sessions@[r].record.path@ + "/"@;
    let all = prefix + rest;
    assert(all.take(prefix.len() as int) =~= prefix);
    assert(all.skip(prefix.len() as int) =~= rest);
}

/// The live sessions of a name that a caller sees.
pub open spec fn bears_name(
    s: Seq<Active>,
    target: Seq<char>,
    scope: Option<Seq<char>>,
    i: int,
) -> bool {
    in_sight(s, scope, i) && s[i].worker && s[i].record.agent_name@ == target
}

proof fn lemma_seen_by_name(
    s: Seq<Active>,
    target: Seq<char>,
    scope: Option<Seq<char>>,
    from: int,
)
    requires
        0 <= from <= s.len(),
    ensures
        forall|x: int| #[trigger]
            seen_by_name(s, target, scope, from).contains(x) <==> from <= x && bears_name(
                s,
                target,
                scope,
                x,
            ),
        forall|a: int, b: int|
            0 <= a < b < seen_by_name(s, target, scope, from).len() ==> (#[trigger] seen_by_name(
                s,
                target,
                scope,
                from,
            )[a]) < (#[trigger] seen_by_name(s, target, scope, from)[b]),
    decreases s.len() - from,
{
    let all = seen_by_name(s, target, scope, from);
    if from < s.len() {
        let rest = seen_by_name(s, target, scope, from + 1);
        lemma_seen_by_name(s, target, scope, from + 1);
        assert forall|x: int| #[trigger] all.contains(x) <==> from <= x && bears_name(
            s,
            target,
            scope,
            x,
        ) by {
            if bears_name(s, target, scope, from) {
                assert(all == seq![from] + rest);
                if rest.contains(x) {
                    let k = choose|k: int| 0 <= k < rest.len() && rest[k] == x;
                    assert(all[k + 1] == x);
                }
                if x == from {
                    assert(all[0] == x);
                }
                if all.contains(x) && x != from {
                    let k = choose|k: int| 0 <= k < all.len() && all[k] == x;
                    assert(rest[k - 1] == x);
                }
            }
        }
        assert forall|a: int, b: int| 0 <= a < b < all.len() implies (#[trigger] all[a]) < (
        #[trigger] all[b]) by {
            if bears_name(s, target, scope, from) {
                assert(rest.contains(rest[b - 1]));
            }
        }
    }
}

/// A name means the one live session that bears it, and nothing where none or several do.
pub proof fn a_name_means_one_live_session(
    c: Controller,
    target: Seq<char>,
    scope: Option<Seq<char>>,
    i: int,
    j: int,
)
    requires
        forall|k: int|
            0 <= k < c.sessions@.len() ==> (#[trigger] c.sessions@[k]).record.id@ != target
                && relative(c.sessions@, c.sessions@[k].record.path@, scope) != target,
    ensures
        (bears_name(c.sessions@, target, scope, i) && forall|k: int|
            k != i ==> !#[trigger] bears_name(c.sessions@, target, scope, k)) ==> meant(
            c.sessions@,
            target,
            scope,
        ) == Ok::<int, (int, Seq<char>)>(i),
        (i < j && bears_name(c.sessions@, target, scope, i) && bears_name(
            c.sessions@,
            target,
            scope,
            j,
        )) ==> (meant(c.sessions@, target, scope) matches Err(f) && f.0 == -32009),
        (forall|k: int| !#[trigger] bears_name(c.sessions@, target, scope, k)) ==> (meant(
            c.sessions@,
            target,
            scope,
        ) matches Err(f) && f.0 == -32004),
{
    let s = c.sessions@;
    lemma_seen_by_id(s, target, scope, 0, s.len() as int);
    lemma_seen_by_path(s, target, scope, 0, s.len() as int);
    let all = seen_by_name(s, target, scope, 0);
    lemma_seen_by_name(s, target, scope, 0);
    if all.len() > 0 {
        assert(all.contains(all[0]));
        assert(bears_name(s, target, scope, all[0]));
    }
    if all.len() > 1 {
        assert(all.contains(all[1]));
        assert(bears_name(s, target, scope, all[1]));
        assert(all[0] < all[1]);
    }
    if bears_name(s, target, scope, i) {
        assert(all.contains(i));
    }
    if i < j && bears_name(s, target, scope, i) && bears_name(s, target, scope, j) {
        assert(all.contains(i) && all.contains(j));
        let a = choose|a: int| 0 <= a < all.len() && all[a] == i;
        let b = choose|b: int| 0 <= b < all.len() && all[b] == j;
        assert(a != b);
    }
}

/// What runs below a session is every session there that has a worker.
pub proof fn what_runs_below_is_listed(s: Seq<Active>, of: Seq<char>, k: nat, id: Seq<char>)
    requires
        k <= s.len(),
    ensures
        live_below(s, of, k).contains(id) <==> exists|i: int|
            0 <= i < k && (#[trigger] s[i]).worker && below(s, (#[trigger] s[i]).record.id@, of)
                && s[i].record.id@ == id,
        live_below(s, of, k).len() == s.take(k as int).filter(|a: Active| a.worker
            && below(s, a.record.id@, of)).len(),
    decreases k,
{
    reveal(Seq::filter);
    if k > 0 {
        let less = (k - 1) as nat;
        what_runs_below_is_listed(s, of, less, id);
        let before = live_below(s, of, less);
        let now = live_below(s, of, k);
        assert(s.take(k as int).drop_last() =~= s.take(less as int));
        if now.contains(id) {
            let a = choose|a: int| 0 <= a < now.len() && now[a] == id;
            if a < before.len() {
                assert(before[a] == id);
                assert(before.contains(id));
            } else {
                assert(s[k - 1].worker && below(s, s[k - 1].record.id@, of)
                    && s[k - 1].record.id@ == id);
            }
        }
        if exists|i: int| 0 <= i < k && (#[trigger] s[i]).worker
            && below(s, (#[trigger] s[i]).record.id@, of) && s[i].record.id@ == id {
            let i = choose|i: int| 0 <= i < k && (#[trigger] s[i]).worker
                && below(s, (#[trigger] s[i]).record.id@, of) && s[i].record.id@ == id;
            if i < k - 1 {
                assert(before.contains(id));
                let a = choose|a: int| 0 <= a < before.len() && before[a] == id;
                assert(now[a] == id);
            } else {
                assert(now[now.len() - 1] == id);
            }
        }
    }
}

/// The orphans of a session are those below it that run and are not ending.
pub proof fn every_orphan_is_listed(s: Seq<Active>, of: Seq<char>, k: nat, id: Seq<char>)
    requires
        k <= s.len(),
    ensures
        orphans(s, of, k).contains(id) <==> exists|i: int|
            0 <= i < k && (#[trigger] s[i]).worker && !(#[trigger] s[i]).record.state.is_ending()
                && below(s, (#[trigger] s[i]).record.id@, of) && s[i].record.id@ == id,
        orphans(s, of, k).len() == s.take(k as int).filter(|a: Active| a.worker
            && !a.record.state.is_ending() && below(s, a.record.id@, of)).len(),
    decreases k,
{
    reveal(Seq::filter);
    if k > 0 {
        let less = (k - 1) as nat;
        every_orphan_is_listed(s, of, less, id);
        let before = orphans(s, of, less);
        let now = orphans(s, of, k);
        assert(s.take(k as int).drop_last() =~= s.take(less as int));
        if now.contains(id) {
            let a = choose|a: int| 0 <= a < now.len() && now[a] == id;
            if a < before.len() {
                assert(before[a] == id);
                assert(before.contains(id));
            } else {
                assert(s[k - 1].worker && !s[k - 1].record.state.is_ending()
                    && below(s, s[k - 1].record.id@, of) && s[k - 1].record.id@ == id);
            }
        }
        if exists|i: int| 0 <= i < k && (#[trigger] s[i]).worker
            && !(#[trigger] s[i]).record.state.is_ending()
            && below(s, (#[trigger] s[i]).record.id@, of) && s[i].record.id@ == id {
            let i = choose|i: int| 0 <= i < k && (#[trigger] s[i]).worker
                && !(#[trigger] s[i]).record.state.is_ending()
                && below(s, (#[trigger] s[i]).record.id@, of) && s[i].record.id@ == id;
            if i < k - 1 {
                assert(before.contains(id));
                let a = choose|a: int| 0 <= a < before.len() && before[a] == id;
                assert(now[a] == id);
            } else {
                assert(now[now.len() - 1] == id);
            }
        }
    }
}

/// Who leaves an attached terminal leaves it running: the session goes on, what was typed and not
/// taken yet is dropped, and no other session changes.
pub proof fn a_terminal_is_left_running(
    c: Controller,
    d: Controller,
    i: int,
    r: Result<(), Fault>,
    j: int,
)
    requires
        detaching(c, d, i, r),
        0 <= i < c.sessions@.len(),
        0 <= j < c.sessions@.len(),
    ensures
        r is Ok <==> c.sessions@[i].terminal@.peer && !c.sessions@[i].terminal@.detached
            && !c.sessions@[i].terminal@.complete,
        d.sessions@.len() == c.sessions@.len(),
        r is Ok ==> d.sessions@[i].terminal@.detached && d.sessions@[i].record.terminal_detached
            && !d.sessions@[i].record.terminal_attached && d.sessions@[i].terminal@.to_pty.len()
            == 0,
        r is Err ==> d.sessions@[i].terminal@ == c.sessions@[i].terminal@ && d.sessions@[i].record
            == c.sessions@[i].record,
        d.sessions@[i].record.state == c.sessions@[i].record.state,
        d.sessions@[i].worker == c.sessions@[i].worker,
        j != i ==> d.sessions@[j] == c.sessions@[j],
        d.permissions == c.permissions,
{
}

} // verus!
