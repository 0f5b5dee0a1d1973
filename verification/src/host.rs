//! The host's side of a daemon: following its state, and deciding requests by what was
//! shown of them.
use vstd::prelude::*;

use crate::config::{member, text_at, text_member};
use crate::json::Json;
use crate::params::{asking, asks, Params, Request, Value};
use crate::records::{PermissionRecord, PermissionState, Snapshot};
use crate::text::{same, texts, words, words_of};

verus! {

/// What is followed of a daemon: the last snapshot, and its number.
pub struct Subscription {
    pub id: String,
    pub sequence: u64,
    pub snapshot: Snapshot,
}

/// A message is the next one of a subscription.
pub open spec fn is_next(value: Json, id: Seq<char>, sequence: u64) -> bool {
    let p = member(value, "params"@);
    text_at(value, "jsonrpc"@) == Some("2.0"@) && text_at(value, "method"@) == Some(
        "state.changed"@,
    ) && text_at(p, "subscription"@) == Some(id) && (member(p, "sequence"@) matches Json::Unsigned(n)
        && n == sequence + 1)
}

fn says(v: &Json, key: &str, text: &str) -> (r: bool)
    ensures
        r == (text_at(*v, key@) == Some(text@)),
{
    match text_member(v, key) {
        Some(t) => same(t, text),
        None => false,
    }
}

impl Subscription {
    /// Whether a message is the next one: what comes out of turn is not taken in.
    pub fn check(&self, value: &Json) -> (r: Result<(), String>)
        ensures
            if is_next(*value, self.id@, self.sequence) {
                r is Ok
            } else {
                r matches Err(e) && e@ == "subscription gap; reconnect for a fresh snapshot"@
            },
    {
        let null = Json::Null;
        let p: &Json = match value.get("params") {
            Some(v) => v,
            None => &null,
        };
        assert(*p == member(*value, "params"@));
        let number = match p.get("sequence") {
            Some(v) => v.as_u64(),
            None => None,
        };
        let next = match number {
            Some(n) => n > 0 && n - 1 == self.sequence,
            None => false,
        };
        if !says(value, "jsonrpc", "2.0") || !says(value, "method", "state.changed") || !says(
            p,
            "subscription",
            &self.id,
        ) || !next {
            return Err(String::from_str("subscription gap; reconnect for a fresh snapshot"));
        }
        Ok(())
    }

    /// Takes in the next snapshot, of the same daemon.
    pub fn accept(&mut self, snapshot: Snapshot) -> (r: Result<(), String>)
        requires
            old(self).sequence < u64::MAX,
        ensures
            if snapshot.instance@ == old(self).snapshot.instance@ {
                r is Ok && *final(self) == (Subscription {
                    snapshot,
                    sequence: (old(self).sequence + 1) as u64,
                    ..*old(self)
                })
            } else {
                r matches Err(e) && e@ == "daemon instance changed; reconnect"@ && *final(self)
                    == *old(self)
            },
    {
        if !same(&snapshot.instance, &self.snapshot.instance) {
            return Err(String::from_str("daemon instance changed; reconnect"));
        }
        self.snapshot = snapshot;
        self.sequence = self.sequence + 1;
        Ok(())
    }
}

/// Where the first pending request stands that has an approval.
pub open spec fn pending_at(v: Seq<PermissionRecord>, approval: Seq<char>) -> Option<int>
    decreases v.len(),
{
    if v.len() == 0 {
        None
    } else if v[0].approval@ == approval && v[0].state is Pending {
        Some(0)
    } else {
        match pending_at(v.drop_first(), approval) {
            Some(i) => Some(i + 1),
            None => None,
        }
    }
}

/// What a line decides: which request, and how.
pub open spec fn decided_by(line: Seq<char>, snapshot: Snapshot) -> Option<(int, bool)> {
    let w = words_of(line);
    if w.len() != 2 || (w[0] != "approve"@ && w[0] != "deny"@) {
        None
    } else {
        match pending_at(snapshot.permissions@, w[1]) {
            Some(i) => Some((i, w[0] == "approve"@)),
            None => None,
        }
    }
}

/// What a line decides: the place of the request, and whether it is approved. A line names
/// the approval that was shown, so it never comes to decide another request.
pub fn decision(line: &str, snapshot: &Snapshot) -> (r: Option<(usize, bool)>)
    ensures
        match decided_by(line@, *snapshot) {
            Some((i, b)) => r matches Some((k, c)) && k == i && c == b && k
                < snapshot.permissions@.len(),
            None => r is None,
        },
{
    let w = words(line);
    assert(texts(w@).len() == w@.len());
    if w.len() != 2 {
        return None;
    }
    assert(texts(w@)[0] == w@[0]@ && texts(w@)[1] == w@[1]@);
    let approve = same(&w[0], "approve");
    if !approve && !same(&w[0], "deny") {
        return None;
    }
    let ghost all = snapshot.permissions@;
    let mut k: usize = 0;
    assert(all.skip(0) =~= all);
    while k < snapshot.permissions.len()
        invariant
            k <= snapshot.permissions@.len(),
            all == snapshot.permissions@,
            w@.len() == 2,
            pending_at(all, w@[1]@) == match pending_at(all.skip(k as int), w@[1]@) {
                Some(i) => Some(i + k),
                None => None,
            },
            decided_by(line@, *snapshot) == match pending_at(all, w@[1]@) {
                Some(i) => Some((i, approve)),
                None => None,
            },
        decreases snapshot.permissions@.len() - k,
    {
        let p = &snapshot.permissions[k];
        let pending = match p.state {
            PermissionState::Pending => true,
            _ => false,
        };
        if pending && same(&p.approval, &w[1]) {
            return Some((k, approve));
        }
        assert(all.skip(k as int).drop_first() =~= all.skip(k + 1));
        k += 1;
    }
    None
}

/// The call that decides a request: it carries what was shown.
pub fn decide_request(p: &PermissionRecord, approved: bool) -> (r: Request)
    ensures
        asks(
            r,
            "permissions.decide"@,
            seq![
                ("session"@, Value::Text(p.session@)),
                ("request"@, Value::Text(p.id@)),
                ("approval"@, Value::Text(p.approval@)),
                ("approved"@, Value::Flag(approved)),
            ],
        ),
{
    let q = Params::new().text("session", &p.session).text("request", &p.id).text(
        "approval",
        &p.approval,
    ).flag("approved", approved);
    assert(q@ =~= seq![
        ("session"@, Value::Text(p.session@)),
        ("request"@, Value::Text(p.id@)),
        ("approval"@, Value::Text(p.approval@)),
        ("approved"@, Value::Flag(approved)),
    ]);
    asking("permissions.decide", q)
}

proof fn lemma_pending_at(v: Seq<PermissionRecord>, approval: Seq<char>)
    ensures
        match pending_at(v, approval) {
            Some(i) => 0 <= i < v.len() && v[i].approval@ == approval && v[i].state is Pending,
            None => true,
        },
    decreases v.len(),
{
    if v.len() > 0 {
        lemma_pending_at(v.drop_first(), approval);
    }
}

/// A line decides a request only while it is pending and under the approval that the line
/// names.
pub proof fn a_line_decides_what_it_names(line: Seq<char>, snapshot: Snapshot)
    ensures
        match decided_by(line, snapshot) {
            Some((i, _)) => 0 <= i < snapshot.permissions@.len() && snapshot.permissions@[i].state is Pending
                && snapshot.permissions@[i].approval@ == words_of(line)[1],
            None => true,
        },
{
    if words_of(line).len() == 2 {
        lemma_pending_at(snapshot.permissions@, words_of(line)[1]);
    }
}

/// A decision is for the first request that waits under the approval shown.
pub proof fn the_first_waiting_request_is_decided(v: Seq<PermissionRecord>, approval: Seq<char>)
    ensures
        match pending_at(v, approval) {
            Some(i) => {
                &&& 0 <= i < v.len()
                &&& v[i].approval@ == approval && v[i].state is Pending
                &&& forall|j: int| 0 <= j < i ==> !((#[trigger] v[j]).approval@ == approval
                    && (#[trigger] v[j]).state is Pending)
            },
            None => forall|j: int|
                0 <= j < v.len() ==> !((#[trigger] v[j]).approval@ == approval
                    && (#[trigger] v[j]).state is Pending),
        },
    decreases v.len(),
{
    if v.len() > 0 {
        let rest = v.drop_first();
        the_first_waiting_request_is_decided(rest, approval);
        match pending_at(v, approval) {
            Some(i) => {
                assert forall|j: int| 0 <= j < i implies !((#[trigger] v[j]).approval@ == approval
                    && (#[trigger] v[j]).state is Pending) by {
                    if j > 0 {
                        assert(rest[j - 1] == v[j]);
                    }
                }
            },
            None => {
                assert forall|j: int| 0 <= j < v.len() implies !((#[trigger] v[j]).approval@
                    == approval && (#[trigger] v[j]).state is Pending) by {
                    if j > 0 {
                        assert(rest[j - 1] == v[j]);
                    }
                }
            },
        }
    }
}

/// A line that names an approval which waits decides that request, one way or the other.
pub proof fn a_waiting_request_is_decided_by_a_line(line: Seq<char>, snapshot: Snapshot, i: int)
    requires
        words_of(line).len() == 2,
        words_of(line)[0] == "approve"@ || words_of(line)[0] == "deny"@,
        0 <= i < snapshot.permissions@.len(),
        snapshot.permissions@[i].approval@ == words_of(line)[1],
        snapshot.permissions@[i].state is Pending,
        forall|j: int|
            0 <= j < i ==> (#[trigger] snapshot.permissions@[j]).approval@ != words_of(line)[1],
    ensures
        decided_by(line, snapshot) == Some((i, words_of(line)[0] == "approve"@)),
        words_of(line)[0] == "deny"@ ==> decided_by(line, snapshot) == Some((i, false)),
{
    reveal_strlit("approve");
    reveal_strlit("deny");
    assert("approve"@.len() != "deny"@.len());
    the_first_waiting_request_is_decided(snapshot.permissions@, words_of(line)[1]);
    match pending_at(snapshot.permissions@, words_of(line)[1]) {
        Some(k) => {
            assert(k == i) by {
                if k < i {
                    assert(snapshot.permissions@[k].approval@ != words_of(line)[1]);
                }
            }
        },
        None => {},
    }
}

} // verus!
