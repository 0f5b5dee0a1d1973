//! What is decided on requests, and what a stop reaches.
use vstd::prelude::*;

use crate::connection::Connection;
use crate::control::{
    a_grant_is_inherited_downward, a_way_leads_up_from_below, kept, leads_up, live_below, orphans,
    orphans_stop, pending_id, request_place, told_to_stop, tree_stop, undecided,
    was_granted, was_not_granted, what_is_below_has_a_way_up, what_is_inherited_was_granted_above,
    with_state,
};
use crate::controller::{below, granted_above, lemma_place, place, Active, Controller, Pending};
use crate::directory::Fault;
use crate::permissions::{
    chosen_output, closed_place, connection_place, decidable, decided, follows_from_above,
    inherited_places, is_request_plan, request_refusal, with_room, Decision, PermissionRequest,
    RequestPlan, Work,
};
use crate::progress::{is_endowed, payload_over, records_outcome, running, Begun, Granted};
use crate::protocol::is_package_name;
use crate::records::{PermissionRecord, PermissionState, SessionState};
use crate::terminal::Terminal;
use crate::text::{maybe, texts};

verus! {

/// A request has the place of the first record that bears its ID.
pub proof fn a_request_is_found_by_its_id(p: Seq<PermissionRecord>, id: Seq<char>, i: int)
    requires
        0 <= i <= p.len(),
        forall|j: int| 0 <= j < i ==> (#[trigger] p[j]).id@ != id,
        i < p.len() ==> p[i].id@ == id,
    ensures
        request_place(p, id) == if i < p.len() {
            Some(i)
        } else {
            None
        },
    decreases p.len(),
{
    if i > 0 {
        let rest = p.drop_first();
        assert forall|j: int| 0 <= j < i - 1 implies (#[trigger] rest[j]).id@ != id by {
            assert(rest[j] == p[j + 1]);
        }
        assert(p[0].id@ != id);
        a_request_is_found_by_its_id(rest, id, i - 1);
    }
}

proof fn lemma_request_place(p: Seq<PermissionRecord>, id: Seq<char>)
    ensures
        match request_place(p, id) {
            Some(i) => 0 <= i < p.len() && p[i].id@ == id && forall|j: int|
                0 <= j < i ==> (#[trigger] p[j]).id@ != id,
            None => forall|j: int| 0 <= j < p.len() ==> (#[trigger] p[j]).id@ != id,
        },
    decreases p.len(),
{
    if p.len() > 0 && p[0].id@ != id {
        let rest = p.drop_first();
        lemma_request_place(rest, id);
        assert forall|j: int|
            0 <= j < p.len() && (request_place(rest, id) matches Some(i) ==> j < i + 1) implies (
        #[trigger] p[j]).id@ != id by {
            if j > 0 {
                assert(p[j] == rest[j - 1]);
            }
        }
    }
}

proof fn lemma_connection_place(c: Seq<Connection>, id: u64, from: int)
    requires
        0 <= from <= c.len(),
    ensures
        match connection_place(c, id, from) {
            Some(k) => from <= k < c.len() && c[k].id == id,
            None => forall|j: int| from <= j < c.len() ==> (#[trigger] c[j]).id != id,
        },
    decreases c.len() - from,
{
    if from < c.len() && c[from].id != id {
        lemma_connection_place(c, id, from + 1);
    }
}

/// A package that an owner was granted is granted to what asks for it below without a
/// question, as the very path that the owner has.
pub proof fn an_inherited_package_needs_no_question(
    c: Controller,
    i: int,
    p: PermissionRequest,
    connection: u64,
    r: RequestPlan,
    path: Seq<int>,
    output: Seq<char>,
)
    requires
        kept(c),
        0 <= i < c.sessions@.len(),
        is_request_plan(r, c, i, p, connection),
        p.kind@ == "package"@,
        leads_up(c.sessions@, path),
        path[0] == i,
        forall|k: int|
            0 <= k < path.len() - 1 ==> was_not_granted(
                c.sessions@[#[trigger] path[k]],
                p.package@,
            ),
        was_granted(c.sessions@[path.last()], p.package@, output),
    ensures
        r.approved,
        r.work matches Some(Work::Decide { request, kind, package, reason, output: used, .. })
            && request@ == r.request@ && kind@ == "package"@ && package@ == p.package@ && reason@
            == p.reason@ && maybe(used) == Some(output),
{
    reveal_strlit("package");
    reveal_strlit("docker");
    assert("package"@.len() == 7 && "docker"@.len() == 6);
    a_grant_is_inherited_downward(c, path, p.package@, output);
}

/// A person is asked for a package that nobody on the way up was granted, and what it costs
/// is looked up meanwhile.
pub proof fn a_new_package_is_asked_for(
    c: Controller,
    i: int,
    p: PermissionRequest,
    connection: u64,
    r: RequestPlan,
)
    requires
        kept(c),
        0 <= i < c.sessions@.len(),
        is_request_plan(r, c, i, p, connection),
        p.kind@ == "package"@,
        forall|path: Seq<int>| #[trigger]
            leads_up(c.sessions@, path) && path[0] == i ==> was_not_granted(
                c.sessions@[path.last()],
                p.package@,
            ),
    ensures
        !r.approved,
        r.work matches Some(Work::Preview { serial, package }) && serial == r.serial && package@
            == p.package@,
{
    reveal_strlit("package");
    reveal_strlit("docker");
    assert("package"@.len() == 7 && "docker"@.len() == 6);
    let n = (c.sessions@.len() + 1) as nat;
    if granted_above(c.sessions@, c.sessions@[i].record.id@, p.package@, n) is Some {
        let path = what_is_inherited_was_granted_above(c, i, p.package@);
        let a = c.sessions@[path.last()];
        assert(was_not_granted(a, p.package@));
        let output =
            granted_above(c.sessions@, c.sessions@[i].record.id@, p.package@, n)->0;
        assert(was_granted(a, p.package@, output));
        let k = choose|k: int|
            0 <= k < a.granted_outputs@.len() && (#[trigger] a.granted_outputs@[k]).0@ == p.package@
                && a.granted_outputs@[k].1@ == output && forall|j: int|
                0 <= j < k ==> (#[trigger] a.granted_outputs@[j]).0@ != p.package@;
        assert(false);
    }
}

/// An engine that a session uses already is not asked for again; any other one, and one of its
/// own always, is.
pub proof fn an_engine_in_use_needs_no_question(
    c: Controller,
    i: int,
    p: PermissionRequest,
    connection: u64,
    r: RequestPlan,
)
    requires
        is_request_plan(r, c, i, p, connection),
        p.kind@ == "docker"@,
    ensures
        r.approved <==> (!p.anonymous && c.sessions@[i].record.docker_enabled && (p.scope is None
            || maybe(p.scope) == maybe(c.sessions@[i].record.docker_scope))),
        maybe(r.asked.scope) == if p.scope is Some || p.anonymous {
            maybe(p.scope)
        } else {
            maybe(c.sessions@[i].record.docker_scope)
        },
{
    reveal_strlit("package");
    reveal_strlit("docker");
    assert("package"@.len() == 7 && "docker"@.len() == 6);
}

/// A request for a package is taken from a session that runs and waits for nothing, with a
/// reason of a sensible length, while there is room; and from no other.
pub proof fn a_proper_request_is_taken(c: Controller, i: int, p: PermissionRequest)
    requires
        p.kind@ == "package"@,
        c.permissions@.len() < 256,
    ensures
        request_refusal(c, i, p) is None <==> (is_package_name(p.package@) && 1 <= p.reason@.len()
            <= 1024 && c.sessions@[i].record.state == SessionState::Running
            && c.sessions@[i].pending is None && c.sessions@[i].record.packages@.len() < 64),
{
    reveal_strlit("package");
    reveal_strlit("docker");
    assert("package"@.len() == 7 && "docker"@.len() == 6);
}

/// A request for a container engine is taken where the scope that is meant is one that the
/// configuration allows.
pub proof fn a_proper_engine_is_taken(c: Controller, i: int, p: PermissionRequest)
    requires
        p.kind@ == "docker"@,
        c.permissions@.len() < 256,
        1 <= p.reason@.len() <= 1024,
        c.sessions@[i].record.state == SessionState::Running,
        c.sessions@[i].pending is None,
    ensures
        ({
            let scope = if p.scope is Some || p.anonymous {
                maybe(p.scope)
            } else {
                maybe(c.sessions@[i].record.docker_scope)
            };
            request_refusal(c, i, p) is None <==> (scope matches Some(name) ==> (
            c.sessions@[i].inheritance matches Some(h) && (maybe(h.default_scope) == Some(name)
                || texts(h.allowed_scopes@).contains(name))))
        }),
{
    reveal_strlit("package");
    reveal_strlit("docker");
    assert("package"@.len() == 7 && "docker"@.len() == 6);
}

/// What still waits or is worked on is never forgotten for a new request.
pub proof fn open_requests_are_kept(p: Seq<PermissionRecord>, k: int)
    requires
        0 <= k < p.len(),
        p[k].state == PermissionState::Pending || p[k].state == PermissionState::Realizing
            || p[k].state == PermissionState::Mounting || p[k].state
            == PermissionState::Publishing,
    ensures
        with_room(p).contains(p[k]),
        p.len() < 256 ==> with_room(p) == p,
        with_room(p).len() >= p.len() - 1,
{
    lemma_closed_place(p, 0);
    if p.len() >= 256 && closed_place(p, 0) is Some {
        let i = closed_place(p, 0)->0;
        if k < i {
            assert(with_room(p)[k] == p[k]);
        } else {
            assert(with_room(p)[k - 1] == p[k]);
        }
    } else {
        assert(with_room(p)[k] == p[k]);
    }
}

proof fn lemma_closed_place(p: Seq<PermissionRecord>, from: int)
    requires
        0 <= from <= p.len(),
    ensures
        match closed_place(p, from) {
            Some(k) => from <= k < p.len() && !p[k].state.is_open(),
            None => forall|j: int| from <= j < p.len() ==> (#[trigger] p[j]).state.is_open(),
        },
    decreases p.len() - from,
{
    if from < p.len() && p[from].state.is_open() {
        lemma_closed_place(p, from + 1);
    }
}

/// A decision counts exactly for a request that waits, of that session and with the approval
/// that was shown, whose session still waits for it and whose asker is still there.
pub proof fn a_decision_counts_where_it_was_shown(c: Controller, d: Decision, q: int, i: int)
    requires
        kept(c),
        0 <= q < c.permissions@.len(),
        0 <= i < c.sessions@.len(),
        c.permissions@[q].id@ == d.request@,
        c.sessions@[i].record.id@ == d.session@,
    ensures
        decidable(c, d) is Ok <==> (c.permissions@[q].session@ == d.session@
            && c.permissions@[q].approval@ == d.approval@ && c.permissions@[q].state
            == PermissionState::Pending && (c.sessions@[i].pending matches Some(p) && p.id@
            == d.request@ && exists|k: int|
            0 <= k < c.connections@.len() && (#[trigger] c.connections@[k]).id == p.connection)),
        decidable(c, d) matches Ok(x) ==> x == (q, i),
{
    lemma_request_place(c.permissions@, d.request@);
    let a = request_place(c.permissions@, d.request@)->0;
    if a < q {
        assert(c.permissions@[a].id@ != c.permissions@[q].id@);
    }
    lemma_place(c.sessions@, d.session@);
    let b = place(c.sessions@, d.session@)->0;
    if b < i {
        assert(c.sessions@[b].record.id@ != c.sessions@[i].record.id@);
    }
    if let Some(p) = c.sessions@[i].pending {
        lemma_connection_place(c.connections@, p.connection, 0);
    }
}

/// A decision that names a request that is not there does not count.
pub proof fn an_unknown_request_is_not_decided(c: Controller, d: Decision)
    requires
        forall|q: int| 0 <= q < c.permissions@.len() ==> (#[trigger] c.permissions@[q]).id@
            != d.request@,
    ensures
        decidable(c, d) == Err::<(int, int), (int, Seq<char>)>(
            (-32004, "record absent or no longer retained"@),
        ),
{
    lemma_request_place(c.permissions@, d.request@);
}

/// An approved request is realised, a refused one is denied; nothing else of it changes.
pub proof fn a_decision_is_what_was_decided(p: PermissionRecord)
    ensures
        decided(p, true) == (PermissionRecord {
            state: PermissionState::Realizing,
            approved: Some(true),
            ..p
        }),
        decided(p, false) == (PermissionRecord {
            state: PermissionState::Denied,
            approved: Some(false),
            ..p
        }),
{
}

/// An approved package is taken as the path that was granted above, and else as the one that
/// the session began with, if it is one of those.
pub proof fn an_approved_package_is_used_again(
    c: Controller,
    q: int,
    i: int,
    path: Seq<int>,
    output: Seq<char>,
)
    requires
        kept(c),
        0 <= q < c.permissions@.len(),
        c.permissions@[q].kind@ == "package"@,
        leads_up(c.sessions@, path),
        c.sessions@[path[0]].record.id@ == c.permissions@[q].session@,
        forall|k: int|
            0 <= k < path.len() - 1 ==> was_not_granted(
                c.sessions@[#[trigger] path[k]],
                c.permissions@[q].package@,
            ),
        was_granted(c.sessions@[path.last()], c.permissions@[q].package@, output),
    ensures
        chosen_output(c, q, i) == Some(output),
{
    a_grant_is_inherited_downward(c, path, c.permissions@[q].package@, output);
}

/// The requests that are approved because of what was granted meanwhile: each of them that
/// waits for a package, of a session that runs, and that an owner was granted or that the
/// session began with; in order, and no other.
pub proof fn inherited_requests_are_approved(c: Controller, n: nat, q: int)
    requires
        n <= c.permissions@.len(),
    ensures
        inherited_places(c, n).contains(q) <==> 0 <= q < n && follows_from_above(c, q),
    decreases n,
{
    let all = inherited_places(c, n);
    if n > 0 {
        let some = inherited_places(c, (n - 1) as nat);
        inherited_requests_are_approved(c, (n - 1) as nat, q);
        if some.contains(q) {
            let k = choose|k: int| 0 <= k < some.len() && some[k] == q;
            assert(all[k] == q);
        }
        if all.contains(q) && q != n - 1 {
            let k = choose|k: int| 0 <= k < all.len() && all[k] == q;
            assert(some[k] == q);
        }
        if q == n - 1 && follows_from_above(c, q) {
            assert(all[some.len() as int] == q);
        }
        if q == n - 1 && all.contains(q) && !follows_from_above(c, q) {
            assert(some.contains(q));
        }
    }
}

/// A package that waits for a decision follows from above where an owner was granted it.
pub proof fn what_an_owner_was_granted_is_approved(
    c: Controller,
    q: int,
    path: Seq<int>,
    output: Seq<char>,
    p: Pending,
)
    requires
        kept(c),
        0 <= q < c.permissions@.len(),
        c.permissions@[q].state == PermissionState::Pending,
        c.permissions@[q].kind@ == "package"@,
        leads_up(c.sessions@, path),
        c.sessions@[path[0]].record.id@ == c.permissions@[q].session@,
        c.sessions@[path[0]].record.state == SessionState::Running,
        c.sessions@[path[0]].pending == Some(p),
        forall|k: int|
            0 <= k < path.len() - 1 ==> was_not_granted(
                c.sessions@[#[trigger] path[k]],
                c.permissions@[q].package@,
            ),
        was_granted(c.sessions@[path.last()], c.permissions@[q].package@, output),
    ensures
        inherited_places(c, c.permissions@.len()).contains(q),
{
    a_grant_is_inherited_downward(c, path, c.permissions@[q].package@, output);
    let i = path[0];
    lemma_place(c.sessions@, c.permissions@[q].session@);
    let b = place(c.sessions@, c.permissions@[q].session@)->0;
    if b < i {
        assert(c.sessions@[b].record.id@ != c.sessions@[i].record.id@);
    }
    inherited_requests_are_approved(c, c.permissions@.len(), q);
}

/// A request that ends has the state that it ended in, and no other request changes.
pub proof fn only_the_request_that_ends_changes(
    p: Seq<PermissionRecord>,
    id: Seq<char>,
    state: PermissionState,
    i: int,
    j: int,
)
    requires
        0 <= i < p.len(),
        p[i].id@ == id,
        forall|k: int| 0 <= k < i ==> (#[trigger] p[k]).id@ != id,
        0 <= j < p.len(),
    ensures
        with_state(p, id, state).len() == p.len(),
        with_state(p, id, state)[j] == if j == i {
            PermissionRecord { state, ..p[i] }
        } else {
            p[j]
        },
{
    a_request_is_found_by_its_id(p, id, i);
}

/// The session at the place `i` waits for the request at the place `q`, which came by that
/// connection and is not decided.
pub open spec fn awaits_decision(c: Controller, i: int, q: int, connection: u64) -> bool {
    &&& 0 <= i < c.sessions@.len() && 0 <= q < c.permissions@.len()
    &&& c.sessions@[i].pending matches Some(p) && p.connection == connection
        && c.permissions@[q].id@ == p.id@ && c.permissions@[q].state == PermissionState::Pending
}

/// A connection that is gone withdraws the request that still waits for a decision, and none
/// that was decided.
pub proof fn a_lost_asker_withdraws(c: Controller, connection: u64, from: int)
    requires
        kept(c),
        0 <= from <= c.sessions@.len(),
    ensures
        match undecided(c, connection, from) {
            Some(i) => from <= i && exists|q: int| #[trigger] awaits_decision(c, i, q, connection),
            None => forall|i: int, q: int|
                from <= i ==> !#[trigger] awaits_decision(c, i, q, connection),
        },
    decreases c.sessions@.len() - from,
{
    if from < c.sessions@.len() {
        lemma_awaits(c, from, connection);
        a_lost_asker_withdraws(c, connection, from + 1);
        if undecided(c, connection, from) is None {
            assert forall|i: int, q: int|
                from <= i implies !#[trigger] awaits_decision(c, i, q, connection) by {
                if i == from {
                    assert(!awaits_decision(c, from, q, connection));
                }
            }
        }
    }
}

proof fn lemma_awaits(c: Controller, i: int, connection: u64)
    requires
        kept(c),
        0 <= i < c.sessions@.len(),
    ensures
        (c.sessions@[i].pending matches Some(p) && p.connection == connection
            && crate::control::is_undecided(c.permissions@, p.id@)) <==> exists|q: int| #[trigger]
            awaits_decision(c, i, q, connection),
{
    if let Some(p) = c.sessions@[i].pending {
        lemma_request_place(c.permissions@, p.id@);
        if crate::control::is_undecided(c.permissions@, p.id@) && p.connection == connection {
            let q = request_place(c.permissions@, p.id@)->0;
            assert(awaits_decision(c, i, q, connection));
        }
        if exists|q: int| #[trigger] awaits_decision(c, i, q, connection) {
            let q = choose|q: int| #[trigger] awaits_decision(c, i, q, connection);
            let r = request_place(c.permissions@, p.id@)->0;
            if r < q {
                assert(c.permissions@[r].id@ != c.permissions@[q].id@);
            }
        }
    }
}

// ---------------------------------------------------------------------------
// Stops
// ---------------------------------------------------------------------------

/// A live session that is told to stop stops, for the first reason that it was told, waits for
/// nothing and takes no requests; one that has ended is not brought back.
pub proof fn a_session_that_is_told_stops(a: Active, reason: Option<String>)
    ensures
        ({
            let b = told_to_stop(a, reason);
            &&& b.pending is None && !b.listening
            &&& a.worker ==> b.record.state == SessionState::Stopping && b.cancelled
            &&& !a.worker ==> b.record.state == a.record.state && b.cancelled == a.cancelled
                && b.record.stop_reason == a.record.stop_reason
            &&& (a.worker && a.record.state != SessionState::Stopping && a.record.state
                != SessionState::Stopped && a.record.state != SessionState::Failed)
                ==> b.record.stop_reason == reason
            &&& b.worker == a.worker && b.record.id == a.record.id && b.record.parent
                == a.record.parent && b.granted_outputs == a.granted_outputs && b.terminal
                == a.terminal
        }),
{
}

proof fn lemma_live_below(s: Seq<Active>, id: Seq<char>, n: nat)
    requires
        n <= s.len(),
    ensures
        live_below(s, id, n).len() == s.take(n as int).filter(
            |a: Active| a.worker && below(s, a.record.id@, id),
        ).len(),
        forall|k: int|
            0 <= k < n && (#[trigger] s[k]).worker && below(s, s[k].record.id@, id) ==> live_below(
                s,
                id,
                n,
            ).len() > 0,
        live_below(s, id, n).len() > 0 ==> exists|k: int|
            0 <= k < n && (#[trigger] s[k]).worker && below(s, s[k].record.id@, id),
    decreases n,
{
    reveal(Seq::filter);
    if n > 0 {
        lemma_live_below(s, id, (n - 1) as nat);
        assert(s.take(n as int).drop_last() =~= s.take(n - 1));
        assert(s.take(n as int).last() == s[n - 1]);
        if s[n - 1].worker && below(s, s[n - 1].record.id@, id) {
            assert(live_below(s, id, n).len() > 0);
        }
    } else {
        assert(s.take(0) =~= Seq::<Active>::empty());
    }
}

/// Without leave to stop what it owns, a session with a live one below it is not stopped, and
/// nothing changes.
pub proof fn a_live_subtree_is_not_stopped_unasked(
    c: Controller,
    d: Controller,
    i: int,
    reason: Option<String>,
    r: Result<(), Fault>,
    path: Seq<int>,
)
    requires
        kept(c),
        0 <= i < c.sessions@.len(),
        tree_stop(c, d, i, false, reason, r),
        leads_up(c.sessions@, path),
        path.len() > 1,
        path.last() == i,
        c.sessions@[path[0]].worker,
    ensures
        r matches Err(f) && f.0 == -32009,
        d == c,
{
    let s = c.sessions@;
    what_is_below_has_a_way_up(c, path);
    lemma_live_below(s, s[i].record.id@, s.len());
    assert(s[path[0]].worker && below(s, s[path[0]].record.id@, s[i].record.id@));
}

/// A stop reaches the session and every live one below it, and nothing else; what they waited
/// for is cancelled.
pub proof fn a_stop_reaches_the_whole_tree(
    c: Controller,
    d: Controller,
    i: int,
    kill_children: bool,
    reason: Option<String>,
    r: Result<(), Fault>,
    k: int,
)
    requires
        kept(c),
        0 <= i < c.sessions@.len(),
        0 <= k < c.sessions@.len(),
        tree_stop(c, d, i, kill_children, reason, r),
        r is Ok,
    ensures
        d.sessions@.len() == c.sessions@.len(),
        ({
            let reached = k == i || exists|path: Seq<int>| #[trigger]
                leads_up(c.sessions@, path) && path.len() > 1 && path[0] == k && path.last() == i;
            let a = c.sessions@[k];
            let b = d.sessions@[k];
            &&& reached && a.worker ==> b.record.state == SessionState::Stopping && b.cancelled
                && b.pending is None && !b.listening
            &&& !reached ==> b == a
            &&& a.pending matches Some(p) ==> (b.pending is None ==> forall|q: int|
                0 <= q < c.permissions@.len() && (#[trigger] c.permissions@[q]).id@ == p.id@
                    ==> d.permissions@[q].state == PermissionState::Cancelled)
            &&& b.pending is Some ==> b.pending == a.pending
        }),
        kill_children || forall|path: Seq<int>| #[trigger]
            leads_up(c.sessions@, path) && path.len() > 1 && path.last() == i
                ==> !c.sessions@[path[0]].worker,
{
    let s = c.sessions@;
    let id = s[i].record.id@;
    let child: String = choose|child: String| #[trigger]
        crate::control::stopped_tree(s, d.sessions@, id, reason, child);
    assert(crate::control::stopped_tree(s, d.sessions@, id, reason, child)) by {
        let (x, h) = choose|x: String, h: Seq<Controller>|
            {
                &&& #[trigger] crate::control::stopped_tree(s, d.sessions@, id, reason, x)
                &&& x@ == match reason {
                    Some(t) => t@,
                    None => crate::control::owner_exited(s[i].record.agent_name@, id),
                }
                &&& #[trigger] crate::control::stopped_in_turn(
                    h,
                    live_below(s, id, s.len()),
                    Some(x),
                )
                &&& h[0] == c
                &&& crate::control::stop_step(h.last(), d, id, reason)
            };
        assert(crate::control::stopped_tree(s, d.sessions@, id, reason, x));
    }
    assert(d.sessions@[k] == crate::control::stopped_with(s, k, id, reason, Some(child)));
    if s[k].record.id@ == id && k != i {
        if k < i {
            assert(s[k].record.id@ != s[i].record.id@);
        } else {
            assert(s[i].record.id@ != s[k].record.id@);
        }
    }
    if exists|path: Seq<int>| #[trigger]
        leads_up(s, path) && path.len() > 1 && path[0] == k && path.last() == i {
        let path = choose|path: Seq<int>| #[trigger]
            leads_up(s, path) && path.len() > 1 && path[0] == k && path.last() == i;
        what_is_below_has_a_way_up(c, path);
    }
    if k != i && below(s, s[k].record.id@, id) {
        let path = a_way_leads_up_from_below(c, k, i);
        assert(leads_up(s, path));
    }
    if let Some(p) = s[k].pending {
        if d.sessions@[k].pending is None {
            assert(pending_id(s[k]) == Some(p.id@) && pending_id(d.sessions@[k]) is None);
            assert(crate::control::dropped(s, d.sessions@, p.id@));
            assert forall|q: int|
                0 <= q < c.permissions@.len() && (#[trigger] c.permissions@[q]).id@
                    == p.id@ implies d.permissions@[q].state == PermissionState::Cancelled by {
                assert(crate::control::settled_request(c, d, q));
                assert forall|j: int| 0 <= j < q implies (#[trigger] c.permissions@[j]).id@
                    != p.id@ by {
                    assert(c.permissions@[j].id@ != c.permissions@[q].id@);
                }
                a_request_is_found_by_its_id(c.permissions@, p.id@, q);
            }
        }
    }
    if !kill_children {
        lemma_live_below(s, id, s.len());
        assert forall|path: Seq<int>| #[trigger]
            leads_up(s, path) && path.len() > 1 && path.last() == i implies !s[path[0]].worker by {
            what_is_below_has_a_way_up(c, path);
            if s[path[0]].worker {
                assert(s[path[0]].worker && below(s, s[path[0]].record.id@, id));
            }
        }
    }
}

proof fn lemma_orphans(s: Seq<Active>, id: Seq<char>, n: nat, x: Seq<char>)
    requires
        n <= s.len(),
    ensures
        orphans(s, id, n).contains(x) <==> exists|k: int|
            0 <= k < n && (#[trigger] s[k]).record.id@ == x && s[k].worker
                && !s[k].record.state.is_ending() && below(s, x, id),
    decreases n,
{
    let all = orphans(s, id, n);
    if n > 0 {
        let some = orphans(s, id, (n - 1) as nat);
        lemma_orphans(s, id, (n - 1) as nat, x);
        if some.contains(x) {
            let k = choose|k: int| 0 <= k < some.len() && some[k] == x;
            assert(all[k] == x);
        }
        let a = s[n - 1];
        if a.record.id@ == x && a.worker && !a.record.state.is_ending() && below(s, x, id) {
            assert(all[some.len() as int] == x);
        }
        if all.contains(x) && !some.contains(x) {
            let k = choose|k: int| 0 <= k < all.len() && all[k] == x;
            if k < some.len() {
                assert(some[k] == x);
            }
            assert(s[n - 1].record.id@ == x);
        }
    }
}

/// When a session has gone, every live one below it that is not ending already is stopped, and
/// told why; nothing else is touched.
pub proof fn what_a_session_owned_ends_with_it(c: Controller, d: Controller, i: int, k: int)
    requires
        kept(c),
        0 <= i < c.sessions@.len(),
        0 <= k < c.sessions@.len(),
        orphans_stop(c, d, i),
    ensures
        ({
            let a = c.sessions@[k];
            let b = d.sessions@[k];
            let owned = exists|path: Seq<int>| #[trigger]
                leads_up(c.sessions@, path) && path.len() > 1 && path[0] == k && path.last() == i;
            let open = a.worker && (a.record.state == SessionState::Starting || a.record.state
                == SessionState::Running);
            &&& owned && open ==> b.record.state == SessionState::Stopping && b.cancelled
                && b.pending is None && (b.record.stop_reason matches Some(why) && why@
                == "stopped because owner goblin "@ + c.sessions@[i].record.agent_name@ + " ("@
                + c.sessions@[i].record.id@ + ") exited"@)
            &&& !(owned && open) ==> b == a
        }),
{
    let s = c.sessions@;
    let id = s[i].record.id@;
    let (why, h) = choose|why: String, h: Seq<Controller>|
        {
            &&& why@ == crate::control::owner_exited(s[i].record.agent_name@, id)
            &&& #[trigger] crate::control::stopped_of(
                s,
                d.sessions@,
                orphans(s, id, s.len()),
                Some(why),
            )
            &&& #[trigger] crate::control::stopped_in_turn(h, orphans(s, id, s.len()), Some(why))
            &&& h[0] == c
            &&& h.last() == d
        };
    let x = s[k].record.id@;
    lemma_orphans(s, id, s.len(), x);
    assert(d.sessions@[k] == if orphans(s, id, s.len()).contains(x) {
        told_to_stop(s[k], Some(why))
    } else {
        s[k]
    });
    if orphans(s, id, s.len()).contains(x) {
        let j = choose|j: int|
            0 <= j < s.len() && (#[trigger] s[j]).record.id@ == x && s[j].worker
                && !s[j].record.state.is_ending() && below(s, x, id);
        if j < k {
            assert(s[j].record.id@ != s[k].record.id@);
        } else if k < j {
            assert(s[k].record.id@ != s[j].record.id@);
        }
        let path = a_way_leads_up_from_below(c, k, i);
        assert(leads_up(s, path));
    }
    if exists|path: Seq<int>| #[trigger]
        leads_up(s, path) && path.len() > 1 && path[0] == k && path.last() == i {
        let path = choose|path: Seq<int>| #[trigger]
            leads_up(s, path) && path.len() > 1 && path[0] == k && path.last() == i;
        what_is_below_has_a_way_up(c, path);
    }
}

// ---------------------------------------------------------------------------
// Grants
// ---------------------------------------------------------------------------

/// A package that was granted is noted of the session that asked, under its name and with its
/// path, so that it is inherited from there on; where it could not be granted nothing is.
pub proof fn a_granted_package_is_noted(
    before: Active,
    after: Active,
    r: PermissionRecord,
    g: Granted,
)
    requires
        is_endowed(after, before, Some(r), g),
        r.kind@ == "package"@,
    ensures
        after.pending is None,
        (g.ready && !texts(before.record.packages@).contains(r.package@)) ==> texts(
            after.record.packages@,
        ) == texts(before.record.packages@).push(r.package@),
        (!g.ready || texts(before.record.packages@).contains(r.package@)) ==> texts(
            after.record.packages@,
        ) == texts(before.record.packages@) && after.granted_outputs@ == before.granted_outputs@,
        (g.ready && !texts(before.record.packages@).contains(r.package@) && was_not_granted(
            before,
            r.package@,
        )) ==> (g.output matches Some(o) ==> was_granted(after, r.package@, o@)),
        after.record.docker_enabled == before.record.docker_enabled,
        maybe(after.record.docker_scope) == maybe(before.record.docker_scope),
        after.record.state == before.record.state && after.worker == before.worker
            && after.record.id == before.record.id,
{
    reveal_strlit("package");
    reveal_strlit("docker");
    assert("package"@.len() == 7 && "docker"@.len() == 6);
    if g.ready && !texts(before.record.packages@).contains(r.package@) && g.output is Some {
        let n = before.granted_outputs@.len() as int;
        assert(after.granted_outputs@[n] == after.granted_outputs@.last());
        assert(after.granted_outputs@[n].0@ == r.package@);
        assert forall|j: int| 0 <= j < n implies (#[trigger] after.granted_outputs@[j])
            == before.granted_outputs@[j] by {
            assert(after.granted_outputs@.drop_last()[j] == before.granted_outputs@[j]);
        }
    }
}

/// An engine that was granted is the one that the session uses from then on.
pub proof fn a_granted_engine_is_used(
    before: Active,
    after: Active,
    r: PermissionRecord,
    g: Granted,
)
    requires
        is_endowed(after, before, Some(r), g),
        r.kind@ == "docker"@,
    ensures
        after.pending is None,
        g.ready ==> after.record.docker_enabled && maybe(after.record.docker_scope) == maybe(
            g.docker_scope,
        ),
        !g.ready ==> after.record.docker_enabled == before.record.docker_enabled && maybe(
            after.record.docker_scope,
        ) == maybe(before.record.docker_scope),
        texts(after.record.packages@) == texts(before.record.packages@),
        after.granted_outputs@ == before.granted_outputs@,
{
    reveal_strlit("package");
    reveal_strlit("docker");
    assert("package"@.len() == 7 && "docker"@.len() == 6);
}

/// A request that was carried out is ready, or has failed, and no other request changes.
pub proof fn a_request_is_carried_out(
    before: Seq<PermissionRecord>,
    after: Seq<PermissionRecord>,
    id: Seq<char>,
    g: Granted,
    q: int,
    j: int,
)
    requires
        records_outcome(before, after, id, g),
        0 <= q < before.len(),
        before[q].id@ == id,
        forall|k: int| 0 <= k < q ==> (#[trigger] before[k]).id@ != id,
        0 <= j < before.len(),
    ensures
        after.len() == before.len(),
        g.ready ==> after[q].state == PermissionState::Ready,
        !g.ready ==> after[q].state == PermissionState::Failed,
        after[q].approved == before[q].approved && after[q].package == before[q].package
            && after[q].session == before[q].session,
        j != q ==> after[j] == before[j],
{
    a_request_is_found_by_its_id(before, id, q);
}

/// A session whose payload began runs, with what it was begun with, unless it is ending
/// already.
pub proof fn a_begun_session_runs(a: Active, b: Begun, terminal: Terminal)
    ensures
        ({
            let r = running(a, b, terminal);
            &&& a.record.state == SessionState::Starting ==> r.record.state
                == SessionState::Running && r.listening
            &&& a.record.state != SessionState::Starting ==> r.record.state == a.record.state
                && r.listening == a.listening
            &&& r.record.identity == Some(b.identity) && r.inheritance == Some(b.inheritance)
            &&& r.record.initial_packages == b.initial_packages && r.record.docker_enabled
                == b.docker_enabled && r.record.docker_scope == b.docker_scope
            &&& r.exit_watch && r.worker == a.worker && r.pending == a.pending && r.record.id
                == a.record.id && r.record.parent == a.record.parent && r.granted_outputs
                == a.granted_outputs
        }),
{
}

/// A session whose payload ended has stopped, with its exit code, unless it had failed before.
pub proof fn an_ended_payload_stops_its_session(
    a: Active,
    terminal: Terminal,
    exit_code: Option<i32>,
)
    ensures
        ({
            let b = payload_over(a, terminal, exit_code);
            &&& a.record.state == SessionState::Failed ==> b.record.state == SessionState::Failed
            &&& a.record.state != SessionState::Failed ==> b.record.state == SessionState::Stopped
            &&& b.record.exit_code == exit_code && b.pending is None && !b.listening
            &&& b.worker == a.worker && b.record.stop_reason == a.record.stop_reason
        }),
{
}

} // verus!
