//! What those that call the daemon get from it.
use vstd::prelude::*;

use crate::answers::{shown, Shown};
use crate::connection::Connection;
use crate::control::{request_place, tree_stop};
use crate::controller::{below, meant, place, Controller};
use crate::courier::{actor_of, call_answered, notice_of, numbers_of, MailCall, MailParams};
use crate::directory::{fault, is_fault, Fault};
use crate::dispatch::{answered, control_done, host_done, ControlCall, HostCall, Step};
use crate::endpoint::{every_matching_request_is_listed, filtered, resizing, SHUTDOWN_GRACE};
use crate::json::Json;
use crate::mailbox::{execute_done, Handed, OutcomeView};
use crate::messages::{mutation_of, text_at, MutationView};
use crate::messaging::Service;
use crate::replies::{path_below, standing_shown};
use crate::rpc::{is_id_value, RpcId};
use crate::shown_laws::tells;
use crate::text::maybe;
use crate::values::{outcome_shown, permission_shown, session_shown};

verus! {

/// Who only asks changes nothing.
pub proof fn asking_changes_nothing(
    call: HostCall,
    c: Controller,
    d: Controller,
    k: Connection,
    l: Connection,
    now: u64,
    r: Result<Step, Fault>,
)
    requires
        host_done(call, c, d, k, l, now, r),
        call is ServerStatus || call is SessionsList || call is SessionsGet
            || call is PermissionsList || call is PermissionsGet,
    ensures
        d == c,
        l == k,
        r matches Ok(s) ==> s is Answer,
{
}

/// The host is told whether the daemon goes on, and under which name.
pub proof fn a_daemon_tells_how_it_stands(
    c: Controller,
    d: Controller,
    k: Connection,
    l: Connection,
    now: u64,
    r: Result<Step, Fault>,
)
    requires
        host_done(HostCall::ServerStatus, c, d, k, l, now, r),
    ensures
        r matches Ok(Step::Answer(v)) && tells(shown(v), "instance"@, Shown::Text(c.instance@)) && (
        c.shutdown is None ==> tells(shown(v), "state"@, Shown::Text("running"@))) && (
        c.shutdown is Some ==> tells(shown(v), "state"@, Shown::Text("stopping"@))),
{
    let s = standing_shown(c);
    assert(s->Fields_0[0] == ("instance"@, Shown::Text(c.instance@)));
    assert(s->Fields_0[1].0 == "state"@);
}

/// A daemon that is told to stop stops, once and for all: a second call does not put it off.
pub proof fn a_daemon_stops_when_told(
    c: Controller,
    d: Controller,
    k: Connection,
    l: Connection,
    now: u64,
    r: Result<Step, Fault>,
)
    requires
        host_done(HostCall::ServerStop, c, d, k, l, now, r),
        now <= u64::MAX - SHUTDOWN_GRACE,
    ensures
        r is Ok,
        l.close,
        l.subscription is None,
        d.shutdown is Some,
        c.shutdown is Some ==> d.shutdown == c.shutdown,
        c.shutdown is None ==> d.shutdown == Some((k.id, (now + SHUTDOWN_GRACE) as u64)),
        d.sessions == c.sessions,
        d.permissions == c.permissions,
{
}

/// Who asks for a session is told all of the session that is meant.
pub proof fn a_session_that_is_asked_for_is_told(
    target: String,
    i: int,
    c: Controller,
    d: Controller,
    k: Connection,
    l: Connection,
    now: u64,
    r: Result<Step, Fault>,
)
    requires
        host_done(HostCall::SessionsGet(target), c, d, k, l, now, r),
        meant(c.sessions@, target@, None) == Ok::<int, (int, Seq<char>)>(i),
    ensures
        r matches Ok(Step::Answer(v)) && shown(v) == session_shown(c.sessions@[i].record) && tells(
            shown(v),
            "id"@,
            Shown::Text(c.sessions@[i].record.id@),
        ),
{
    crate::shown_laws::a_session_is_told_whole(c.sessions@[i].record);
}

/// Every session is in the list that the host gets.
pub proof fn every_session_is_listed(
    i: int,
    c: Controller,
    d: Controller,
    k: Connection,
    l: Connection,
    now: u64,
    r: Result<Step, Fault>,
)
    requires
        host_done(HostCall::SessionsList, c, d, k, l, now, r),
        0 <= i < c.sessions@.len(),
    ensures
        r matches Ok(Step::Answer(v)) && (shown(v) matches Shown::List(list) && list.len()
            == c.sessions@.len() && exists|j: int|
            0 <= j < list.len() && tells(
                #[trigger] list[j],
                "id"@,
                Shown::Text(c.sessions@[i].record.id@),
            ) && tells(list[j], "path"@, Shown::Text(c.sessions@[i].record.path@))),
{
    let n = choose|n: crate::records::Snapshot| #[trigger]
        crate::listing::shows_host(n, c) && crate::dispatch::answers(
            r,
            crate::values::sessions_shown(n.sessions@),
        );
    let order = choose|order: Seq<int>| #[trigger]
        crate::listing::all_by_id(c.sessions@, order) && crate::listing::follows(n, c, order);
    assert(order.contains(i));
    let j = choose|j: int| 0 <= j < order.len() && order[j] == i;
    let list = crate::values::sessions_shown(n.sessions@)->List_0;
    assert(n.sessions@[j].same(c.sessions@[order[j]].record));
    crate::shown_laws::a_session_is_told_whole(n.sessions@[j]);
    assert(list[j] == session_shown(n.sessions@[j]));
}

/// Every request that matches what the host asks for is in the list that it gets, and no other.
pub proof fn every_request_is_listed(
    session: Option<String>,
    state: Option<String>,
    c: Controller,
    d: Controller,
    k: Connection,
    l: Connection,
    now: u64,
    r: Result<Step, Fault>,
)
    requires
        host_done(HostCall::PermissionsList { session, state }, c, d, k, l, now, r),
    ensures
        r matches Ok(Step::Answer(v)) && shown(v) is List,
        forall|q: int|
            {
                &&& 0 <= q < c.permissions@.len()
                &&& maybe(session) is None || maybe(session) == Some(
                    (#[trigger] c.permissions@[q]).session@,
                )
                &&& maybe(state) is None || maybe(state) == Some(c.permissions@[q].state.text())
            } ==> shown((r->Ok_0)->Answer_0)->List_0.contains(permission_shown(c.permissions@[q])),
        forall|j: int|
            0 <= j < shown((r->Ok_0)->Answer_0)->List_0.len() ==> exists|q: int|
                {
                    &&& 0 <= q < c.permissions@.len()
                    &&& #[trigger] permission_shown(c.permissions@[q])
                        == #[trigger] shown((r->Ok_0)->Answer_0)->List_0[j]
                    &&& maybe(session) is None || maybe(session) == Some(
                        c.permissions@[q].session@,
                    )
                    &&& maybe(state) is None || maybe(state) == Some(c.permissions@[q].state.text())
                },
{
    let p = c.permissions@;
    every_matching_request_is_listed(p, maybe(session), maybe(state), p.len());
    let chosen = filtered(p, maybe(session), maybe(state), p.len());
    let list = shown((r->Ok_0)->Answer_0)->List_0;
    assert(list == chosen.map_values(|i: int| permission_shown(p[i])));
    assert forall|q: int|
        {
            &&& 0 <= q < p.len()
            &&& maybe(session) is None || maybe(session) == Some((#[trigger] p[q]).session@)
            &&& maybe(state) is None || maybe(state) == Some(p[q].state.text())
        } implies list.contains(permission_shown(p[q])) by {
        assert(chosen.contains(q));
        let a = choose|a: int| 0 <= a < chosen.len() && chosen[a] == q;
        assert(list[a] == permission_shown(p[q]));
    }
    assert forall|j: int| 0 <= j < list.len() implies exists|q: int|
        {
            &&& 0 <= q < p.len()
            &&& #[trigger] permission_shown(p[q]) == #[trigger] list[j]
            &&& maybe(session) is None || maybe(session) == Some(p[q].session@)
            &&& maybe(state) is None || maybe(state) == Some(p[q].state.text())
        } by {
        assert(chosen.contains(chosen[j]));
        assert(permission_shown(p[chosen[j]]) == list[j]);
    }
}

/// A request that is asked for is told whole.
pub proof fn a_request_that_is_asked_for_is_told(
    id: String,
    q: int,
    c: Controller,
    d: Controller,
    k: Connection,
    l: Connection,
    now: u64,
    r: Result<Step, Fault>,
)
    requires
        host_done(HostCall::PermissionsGet(id), c, d, k, l, now, r),
        request_place(c.permissions@, id@) == Some(q),
    ensures
        r matches Ok(Step::Answer(v)) && tells(
            shown(v),
            "package"@,
            Shown::Text(c.permissions@[q].package@),
        ) && tells(shown(v), "session"@, Shown::Text(c.permissions@[q].session@)) && tells(
            shown(v),
            "state"@,
            Shown::Text(c.permissions@[q].state.text()),
        ),
{
    crate::shown_laws::a_request_is_told_whole(c.permissions@[q]);
}

/// A session stops by the host's will under the host's name, and nothing but what is meant stops.
pub proof fn a_host_stops_what_it_means(
    session: String,
    kill_children: bool,
    i: int,
    c: Controller,
    d: Controller,
    k: Connection,
    l: Connection,
    now: u64,
    r: Result<Step, Fault>,
)
    requires
        host_done(HostCall::SessionsStop { session, kill_children }, c, d, k, l, now, r),
        meant(c.sessions@, session@, None) == Ok::<int, (int, Seq<char>)>(i),
    ensures
        exists|reason: Option<String>, tried: Result<(), Fault>| #[trigger]
            tree_stop(c, d, i, kill_children, reason, tried) && maybe(reason) == Some(
                "stopped by host"@,
            ) && (r is Ok <==> tried is Ok),
{
    let (reason, tried) = choose|reason: Option<String>, tried: Result<(), Fault>| #[trigger]
        tree_stop(c, d, i, kill_children, reason, tried) && crate::dispatch::accepts(r, tried)
            && maybe(reason) == Some("stopped by host"@);
    assert(tree_stop(c, d, i, kill_children, reason, tried));
}

/// Who means no session stops, leaves or resizes none.
pub proof fn what_is_not_meant_is_left_alone(
    call: HostCall,
    f: (int, Seq<char>),
    c: Controller,
    d: Controller,
    k: Connection,
    l: Connection,
    now: u64,
    r: Result<Step, Fault>,
)
    requires
        host_done(call, c, d, k, l, now, r),
        (call matches HostCall::SessionsStop { session, .. } && meant(c.sessions@, session@, None)
            == Err::<int, (int, Seq<char>)>(f)) || (call matches HostCall::SessionsDetach(t)
            && meant(c.sessions@, t@, None) == Err::<int, (int, Seq<char>)>(f)) || (call matches
            HostCall::SessionsGet(t) && meant(c.sessions@, t@, None) == Err::<
            int,
            (int, Seq<char>),
        >(f)),
    ensures
        is_fault(r, f),
        d == c,
        l == k,
{
}

/// A subscription is made once, and ends when its own name is given.
pub proof fn a_subscription_is_made_once(
    c: Controller,
    d: Controller,
    k: Connection,
    l: Connection,
    now: u64,
    r: Result<Step, Fault>,
)
    requires
        host_done(HostCall::Subscribe, c, d, k, l, now, r),
        c.next < u64::MAX,
    ensures
        r is Ok <==> k.subscription is None,
        k.subscription is Some ==> d == c && l == k,
        k.subscription is None ==> l.subscription is Some && d.next == c.next + 1 && d.sessions
            == c.sessions && (r matches Ok(Step::Answer(v)) && tells(
            shown(v),
            "subscription"@,
            Shown::Text(l.subscription->0@),
        ) && tells(shown(v), "sequence"@, Shown::Number(c.sequence as int))),
{
    if k.subscription is None {
        let s = shown((r->Ok_0)->Answer_0);
        assert(s->Fields_0[0] == ("subscription"@, Shown::Text(l.subscription->0@)));
        assert(s->Fields_0[1] == ("sequence"@, Shown::Number(c.sequence as int)));
    }
}

/// A subscription ends when its own name is given, and only then.
pub proof fn a_subscription_ends_by_its_name(
    name: String,
    c: Controller,
    d: Controller,
    k: Connection,
    l: Connection,
    now: u64,
    r: Result<Step, Fault>,
)
    requires
        host_done(HostCall::Unsubscribe(name), c, d, k, l, now, r),
    ensures
        d == c,
        k.subscription matches Some(s) && s@ == name@ ==> r is Ok && l.subscription is None,
        !(k.subscription matches Some(s) && s@ == name@) ==> r is Err && l == k,
{
}

/// A terminal is resized to what was asked for.
pub proof fn a_host_resizes_what_it_names(
    session: String,
    rows: u16,
    cols: u16,
    i: int,
    c: Controller,
    d: Controller,
    k: Connection,
    l: Connection,
    now: u64,
    r: Result<Step, Fault>,
)
    requires
        host_done(HostCall::SessionsResize { session, rows, cols }, c, d, k, l, now, r),
        place(c.sessions@, session@) == Some(i),
        0 <= i < c.sessions@.len(),
        1 <= rows <= 1000,
        1 <= cols <= 1000,
    ensures
        d.sessions@[i].terminal@.dimensions == Some((rows, cols)),
        r matches Ok(Step::Resized(n, size)) && n == i && (c.sessions@[i].terminal@.master ==> size
            == Some((rows, cols))),
{
    let tried = choose|tried: Result<Option<(u16, u16)>, Fault>| #[trigger]
        resizing(c, d, i, rows, cols, tried) && match tried {
            Ok(size) => r matches Ok(Step::Resized(n, s)) && n == i && s == size,
            Err(f) => is_fault(r, fault(f)),
        };
    crate::endpoint::a_terminal_has_the_size_it_was_given(c, d, i, rows, cols, tried, i);
}

/// A session is told of itself under its own name.
pub proof fn a_session_asks_for_itself(
    c: Controller,
    d: Controller,
    own: int,
    r: Result<Step, Fault>,
)
    requires
        control_done(ControlCall::Status, c, d, own, r),
    ensures
        d == c,
        r matches Ok(Step::Answer(v)) && tells(
            shown(v),
            "id"@,
            Shown::Text(c.sessions@[own].record.id@),
        ) && tells(shown(v), "state"@, Shown::Text(c.sessions@[own].record.state.text())),
{
    crate::shown_laws::a_session_is_told_of_itself(c.sessions@[own].record);
}

/// A session is told of every session below it, and of no other.
pub proof fn a_session_lists_what_it_owns(
    c: Controller,
    d: Controller,
    own: int,
    r: Result<Step, Fault>,
    i: int,
)
    requires
        control_done(ControlCall::List, c, d, own, r),
        0 <= own < c.sessions@.len(),
        0 <= i < c.sessions@.len(),
    ensures
        d == c,
        r matches Ok(Step::Answer(v)) && shown(v) is List,
        below(c.sessions@, c.sessions@[i].record.id@, c.sessions@[own].record.id@) ==> exists|j: int|
            0 <= j < shown((r->Ok_0)->Answer_0)->List_0.len() && tells(
                #[trigger] shown((r->Ok_0)->Answer_0)->List_0[j],
                "id"@,
                Shown::Text(c.sessions@[i].record.id@),
            ),
{
    let scope = c.sessions@[own].record.id@;
    let v = (r->Ok_0)->Answer_0;
    let order = choose|order: Seq<int>| #[trigger]
        crate::listing::below_by_id(c.sessions@, scope, order) && crate::replies::lists(
            v,
            c,
            scope,
            order,
        );
    let list = shown(v)->List_0;
    if below(c.sessions@, c.sessions@[i].record.id@, scope) {
        assert(order.contains(i));
        let j = choose|j: int| 0 <= j < order.len() && order[j] == i;
        assert(crate::replies::listed_as(list[j], c, order[j], scope));
        let record = choose|record: crate::controller::SandboxRecord| #[trigger]
            crate::controller::shows(record, c.sessions@, i, scope) && list[j]
                == crate::values::sandbox_shown(record);
        crate::shown_laws::a_session_is_told_of_its_own(record);
        assert(tells(list[j], "id"@, Shown::Text(c.sessions@[i].record.id@)));
    }
}

/// A session begins another under the key and the names that it gave, for no configuration but its
/// own.
pub proof fn a_session_begins_what_it_asks_for(
    key: String,
    name: String,
    agent_name: Option<String>,
    parent: Option<String>,
    detached: bool,
    c: Controller,
    d: Controller,
    own: int,
    r: Result<Step, Fault>,
)
    requires
        control_done(
            ControlCall::Start { key, name, agent_name, parent, detached },
            c,
            d,
            own,
            r,
        ),
    ensures
        d == c,
        r matches Ok(Step::Start(p)) && p.key == key && p.name == name && p.agent_name == agent_name
            && p.parent == parent && p.detached == detached && p.configuration@ == Seq::<
            char,
        >::empty(),
{
    let p = (r->Ok_0)->Start_0;
    assert(p.configuration@ =~= Seq::<char>::empty());
}

/// A call is answered under its own id, behind all that was answered before.
pub proof fn a_call_is_answered_under_its_id(
    k: Connection,
    l: Connection,
    id: RpcId,
    outcome: Result<Option<Json>, Fault>,
)
    requires
        answered(k, l, id, outcome),
        outcome matches Ok(o) ==> o is Some,
    ensures
        l.outbox@.len() == k.outbox@.len() + 1,
        l.outbox@.take(k.outbox@.len() as int) == k.outbox@,
        is_id_value(l.outbox@[k.outbox@.len() as int].fields()[1].1, id),
        outcome matches Ok(Some(v)) ==> l.outbox@[k.outbox@.len() as int].fields()[2].1 == v
            && l.close == k.close,
        outcome is Err && k.role is Sandbox ==> l.close,
        l.output == k.output,
{
    assert(l.outbox@.take(k.outbox@.len() as int) =~= l.outbox@.drop_last());
}

/// What was begun is told by the path that leads to it from the one who began it.
pub proof fn a_child_is_told_from_its_owner(above: Seq<char>, rest: Seq<char>)
    ensures
        path_below(above + "/"@ + rest, above) == Some(rest),
{
    let prefix = above + "/"@;
    let path = prefix + rest;
    assert(path.take(prefix.len() as int) =~= prefix);
    assert(path.skip(prefix.len() as int) =~= rest);
    assert(prefix.is_prefix_of(path));
}

/// Messages are sent in the name of the session that they come from, whatever they say.
pub proof fn mail_comes_from_its_session(id: String)
    ensures
        actor_of(crate::connection::Role::Sandbox(id)) == id@,
        actor_of(crate::connection::Role::Host) == "host"@,
{
}

/// What is asked of the mailbox is done there, and answered with what came of it.
pub proof fn mail_is_carried_out(
    before: Service,
    after: Service,
    log: Seq<Handed>,
    longer: Seq<Handed>,
    call: MailCall,
    v: Json,
    complaint: String,
    m: MutationView,
    now: u64,
    r: Result<Json, Fault>,
)
    requires
        call_answered(
            before,
            after,
            log,
            longer,
            call,
            MailParams::Mutation(v, complaint),
            now,
            r,
        ),
        mutation_of(call.method@, v) == Some(m),
        m.refusal() is None,
    ensures
        exists|given: Result<OutcomeView, (int, Seq<char>)>| #[trigger]
            execute_done(
                before.mailbox@,
                after.mailbox@,
                log,
                longer,
                call.actor@,
                m,
                call.directory@,
                now,
                given,
            ) && (given matches Ok(o) ==> (r matches Ok(w) && shown(w) == outcome_shown(o))) && (
            given is Err ==> r is Err),
        after.integrations == before.integrations,
{
    let given = choose|given: Result<OutcomeView, (int, Seq<char>)>| #[trigger]
        execute_done(
            before.mailbox@,
            after.mailbox@,
            log,
            longer,
            call.actor@,
            m,
            call.directory@,
            now,
            given,
        ) && match given {
            Ok(o) => crate::courier::says(r, outcome_shown(o)),
            Err(f) => is_fault(r, f),
        };
    assert(execute_done(
        before.mailbox@,
        after.mailbox@,
        log,
        longer,
        call.actor@,
        m,
        call.directory@,
        now,
        given,
    ));
}

/// What the mailbox does not take is refused, and changes nothing.
pub proof fn improper_mail_is_refused(
    before: Service,
    after: Service,
    log: Seq<Handed>,
    longer: Seq<Handed>,
    call: MailCall,
    v: Json,
    complaint: String,
    now: u64,
    r: Result<Json, Fault>,
)
    requires
        call_answered(
            before,
            after,
            log,
            longer,
            call,
            MailParams::Mutation(v, complaint),
            now,
            r,
        ),
        mutation_of(call.method@, v) matches Some(m) ==> m.refusal() is Some,
    ensures
        r is Err,
        after == before,
        longer == log,
{
}

/// A message is shown to its parties and to the host, and to nobody else.
pub proof fn a_message_that_is_asked_for_is_told(
    before: Service,
    after: Service,
    log: Seq<Handed>,
    longer: Seq<Handed>,
    call: MailCall,
    id: String,
    now: u64,
    r: Result<Json, Fault>,
)
    requires
        call_answered(before, after, log, longer, call, MailParams::Message(id), now, r),
    ensures
        r matches Ok(v) ==> exists|i: int|
            {
                &&& 0 <= i < before.mailbox@.messages.len()
                &&& (#[trigger] before.mailbox@.messages[i]).id == id@
                &&& call.actor@ == "host"@ || before.mailbox@.messages[i].sender == call.actor@
                    || before.mailbox@.messages[i].recipient == call.actor@
                &&& tells(shown(v), "body"@, Shown::Text(before.mailbox@.messages[i].body))
            },
        r is Err ==> forall|i: int|
            0 <= i < before.mailbox@.messages.len() && (
            #[trigger] before.mailbox@.messages[i]).id == id@ ==> before.mailbox@.messages[i].sender
                != call.actor@ && before.mailbox@.messages[i].recipient != call.actor@ && call.actor@
                != "host"@,
{
    let ms = before.mailbox@.messages;
    crate::mailbox::lemma_first_where(ms, crate::mailbox::visible_to(call.actor@, id@));
    if let Ok(v) = r {
        let i = crate::mailbox::first_where(ms, crate::mailbox::visible_to(call.actor@, id@))->0;
        crate::shown_laws::a_message_is_told_whole(ms[i]);
        assert(crate::mailbox::visible_to(call.actor@, id@)(ms[i]));
        assert(tells(shown(v), "body"@, Shown::Text(before.mailbox@.messages[i].body)));
    }
}

/// Those in a sandbox are served before the host, each in the order of their connections.
pub proof fn everyone_is_served(k: Seq<Connection>, n: nat, host: bool, i: int)
    requires
        n <= k.len(),
        0 <= i < n,
    ensures
        (k[i].role is Host) == host ==> numbers_of(k, host, n).contains(k[i].id),
        numbers_of(k, true, n).len() + numbers_of(k, false, n).len() == n,
    decreases n,
{
    let less = (n - 1) as nat;
    if less > 0 {
        everyone_is_served(
            k,
            less,
            host,
            if i < less {
                i
            } else {
                0
            },
        );
    } else {
        assert(numbers_of(k, true, less).len() == 0);
        assert(numbers_of(k, false, less).len() == 0);
    }
    if (k[i].role is Host) == host {
        let before = numbers_of(k, host, less);
        let now = numbers_of(k, host, n);
        if i < less {
            let a = choose|a: int| 0 <= a < before.len() && before[a] == k[i].id;
            assert(now[a] == k[i].id);
        } else {
            assert(now[now.len() - 1] == k[i].id);
        }
    }
}

/// An agent whose driver cannot tell it of work is told of it at its terminal.
pub proof fn a_notice_goes_to_the_terminal(v: Json, n: u64)
    requires
        crate::json::lookup(v.fields(), "notify"@) == Some(Json::Bool(true)),
        text_at(v, "delivery"@) == Some("terminal"@),
        crate::json::lookup(v.fields(), "revision"@) == Some(Json::Unsigned(n)),
    ensures
        notice_of(v) == Some(n),
{
    reveal_strlit("terminal");
    reveal_strlit("notification");
    assert("terminal"@.len() != "notification"@.len());
}

} // verus!
