//! What the daemon answers to its host and to its sandboxes.
use vstd::prelude::*;

use crate::answers::{maybe_text, no_fields, shown, shown_texts, Fields, Shown};
use crate::config::{Configuration, Manifest};
use crate::connection::{Role, QUEUE};
use crate::control::live_count;
use crate::controller::{
    is_missing, missing, place, shows, strip_prefix, Controller, SandboxRecord, Started, HOSTS,
    SESSIONS,
};
use crate::directory::{fault, Fault};
use crate::endpoint::{feature_names, features};
use crate::json::Json;
use crate::listing::below_by_id;
use crate::messages::MAX_REQUEST;
use crate::messaging::Page;
use crate::names::said;
use crate::records::{PermissionRecord, SessionState};
use crate::rpc::{error, is_error, MAX_BODY, MAX_HEADER};
use crate::terminal::CAP;
use crate::text::{maybe, places, starts_with};
use crate::values::{names_shown, permission_shown, sandbox_shown};

verus! {

/// The most bytes that a snapshot takes.
pub const SNAPSHOT: usize = 921_600;

/// How many calls a connection may make.
pub open spec fn calls_of(host: bool) -> int {
    if host {
        4096
    } else {
        2
    }
}

/// How many connections an endpoint takes.
pub open spec fn connections_of(host: bool) -> int {
    if host {
        HOSTS as int
    } else {
        8
    }
}

pub open spec fn limits_shown(host: bool) -> Shown {
    Shown::Fields(
        no_fields()
            .push(("header"@, Shown::Number(MAX_HEADER as int)))
            .push(("body"@, Shown::Number(MAX_REQUEST as int)))
            .push(("frame_seconds"@, Shown::Number(3)))
            .push(("depth"@, Shown::Number(32)))
            .push(("response_body"@, Shown::Number(MAX_BODY as int)))
            .push(("calls"@, Shown::Number(calls_of(host))))
            .push(("connections"@, Shown::Number(connections_of(host))))
            .push(("sessions"@, Shown::Number(SESSIONS as int)))
            .push(("output_queue"@, Shown::Number(QUEUE as int)))
            .push(("snapshot"@, Shown::Number(SNAPSHOT as int)))
            .push(("terminal_buffer"@, Shown::Number(CAP as int))),
    )
}

fn limits(host: bool) -> (r: Json)
    ensures
        shown(r) == limits_shown(host),
{
    let calls: u64 = if host {
        4096
    } else {
        2
    };
    let connections: u64 = if host {
        HOSTS as u64
    } else {
        8
    };
    Fields::new()
        .number("header", MAX_HEADER as u64)
        .number("body", MAX_REQUEST as u64)
        .number("frame_seconds", 3)
        .number("depth", 32)
        .number("response_body", MAX_BODY as u64)
        .number("calls", calls)
        .number("connections", connections)
        .number("sessions", SESSIONS as u64)
        .number("output_queue", QUEUE as u64)
        .number("snapshot", SNAPSHOT as u64)
        .number("terminal_buffer", CAP as u64)
        .done()
}

fn features_value(role: &Role) -> (r: Json)
    ensures
        shown(r) == names_shown(feature_names(*role)),
{
    let names = features(role);
    let ghost v = feature_names(*role);
    assert forall|j: int| 0 <= j < v.len() implies (#[trigger] names@[j])@ == v[j] by {
        assert(said(names@)[j] == names@[j]@);
    }
    assert(said(names@).len() == names@.len());
    let mut items: Vec<Json> = Vec::new();
    let mut i: usize = 0;
    while i < names.len()
        invariant
            i <= names@.len() == v.len(),
            forall|j: int| 0 <= j < v.len() ==> (#[trigger] names@[j])@ == v[j],
            items@.len() == i,
            forall|j: int| 0 <= j < i ==> shown(#[trigger] items@[j]) == Shown::Text(v[j]),
        decreases names@.len() - i,
    {
        let t: &str = names[i];
        items.push(Json::Text(String::from_str(t)));
        i += 1;
    }
    let r = Json::Array(items);
    assert(shown(r)->List_0 =~= v.map_values(|t: Seq<char>| Shown::Text(t)));
    r
}

/// What a connection is told when it is opened.
pub open spec fn hello_shown(
    instance: Seq<char>,
    configuration: Option<Seq<char>>,
    role: Role,
) -> Shown {
    Shown::Fields(
        no_fields()
            .push(("api"@, Shown::Number(1)))
            .push(("instance"@, Shown::Text(instance)))
            .push(("configuration"@, maybe_text(configuration)))
            .push(
                (
                    "role"@,
                    Shown::Text(
                        if role is Host {
                            "host"@
                        } else {
                            "sandbox"@
                        },
                    ),
                ),
            )
            .push(("features"@, names_shown(feature_names(role))))
            .push(("limits"@, limits_shown(role is Host))),
    )
}

/// How the daemon stands.
pub open spec fn standing_shown(c: Controller) -> Shown {
    let state = if c.shutdown is Some {
        "stopping"@
    } else {
        "running"@
    };
    Shown::Fields(
        no_fields()
            .push(("instance"@, Shown::Text(c.instance@)))
            .push(("state"@, Shown::Text(state)))
            .push(("sessions"@, Shown::Number(live_count(c.sessions@) as int))),
    )
}

/// The configuration that a caller runs in, where it is a session.
pub open spec fn configuration_of(c: Controller, role: Role) -> Option<Seq<char>> {
    match role {
        Role::Host => None,
        Role::Sandbox(id) => match place(c.sessions@, id@) {
            Some(i) => Some(c.sessions@[i].record.name@),
            None => None,
        },
    }
}

impl Controller {
    /// What a connection of that role is told when it is opened.
    pub fn hello(&self, role: &Role) -> (r: Json)
        ensures
            shown(r) == hello_shown(self.instance@, configuration_of(*self, *role), *role),
    {
        let configuration = match role {
            Role::Host => None,
            Role::Sandbox(id) => match self.find(id) {
                Some(i) => Some(self.sessions[i].record.name.clone()),
                None => None,
            },
        };
        assert(maybe(configuration) == configuration_of(*self, *role));
        let name = if role.is_host() {
            "host"
        } else {
            "sandbox"
        };
        Fields::new()
            .number("api", 1)
            .text("instance", &self.instance)
            .maybe("configuration", &configuration)
            .text("role", name)
            .add("features", features_value(role))
            .add("limits", limits(role.is_host()))
            .done()
    }

    /// How the daemon stands.
    pub fn standing(&self) -> (r: Json)
        ensures
            shown(r) == standing_shown(*self),
    {
        let state = if self.shutdown.is_some() {
            "stopping"
        } else {
            "running"
        };
        Fields::new()
            .text("instance", &self.instance)
            .text("state", state)
            .number("sessions", self.live() as u64)
            .done()
    }

    /// The sessions that a sandbox lists.
    pub fn listing(&self, scope: &str) -> (r: Json)
        ensures
            exists|order: Seq<int>| #[trigger]
                below_by_id(self.sessions@, scope@, order) && lists(
                    r,
                    *self,
                    scope@,
                    order,
                ),
    {
        let order = self.list_below(scope);
        let ghost held = places(order@);
        let mut items: Vec<Json> = Vec::new();
        let mut i: usize = 0;
        while i < order.len()
            invariant
                i <= order@.len(),
                held == places(order@),
                below_by_id(self.sessions@, scope@, held),
                items@.len() == i,
                forall|j: int|
                    0 <= j < i ==> listed_as(
                        shown(#[trigger] items@[j]),
                        *self,
                        held[j],
                        scope@,
                    ),
            decreases order@.len() - i,
        {
            assert(held[i as int] == order@[i as int]);
            let record = self.sandbox_record(order[i], scope);
            let v = record.value();
            assert(listed_as(shown(v), *self, held[i as int], scope@));
            items.push(v);
            i += 1;
        }
        let r = Json::Array(items);
        assert(below_by_id(self.sessions@, scope@, held));
        assert(lists(r, *self, scope@, held));
        r
    }
}

/// A session is shown as its owner sees it.
pub open spec fn listed_as(s: Shown, c: Controller, i: int, scope: Seq<char>) -> bool {
    exists|r: SandboxRecord| #[trigger]
        shows(r, c.sessions@, i, scope) && s == sandbox_shown(r)
}

/// A value lists the sessions at these places.
pub open spec fn lists(v: Json, c: Controller, scope: Seq<char>, order: Seq<int>) -> bool {
    shown(v) matches Shown::List(l) && l.len() == order.len() && forall|k: int|
        0 <= k < order.len() ==> listed_as(#[trigger] l[k], c, order[k], scope)
}

pub open spec fn accepted_shown() -> Shown {
    Shown::Fields(no_fields().push(("accepted"@, Shown::Flag(true))))
}

/// That something was done.
pub fn accepted() -> (r: Json)
    ensures
        shown(r) == accepted_shown(),
{
    Fields::new().flag("accepted", true).done()
}

/// That a connection is now a terminal's.
pub fn attached() -> (r: Json)
    ensures
        shown(r) == Shown::Fields(no_fields().push(("attached"@, Shown::Flag(true)))),
{
    Fields::new().flag("attached", true).done()
}

/// That a request was decided.
pub fn decided(request: &str, approved: bool) -> (r: Json)
    ensures
        shown(r) == Shown::Fields(
            no_fields()
                .push(("accepted"@, Shown::Flag(true)))
                .push(("request"@, Shown::Text(request@)))
                .push(("approved"@, Shown::Flag(approved))),
        ),
{
    Fields::new()
        .flag("accepted", true)
        .text("request", request)
        .flag("approved", approved)
        .done()
}

/// The path of a session as the one that started it sees it, which stands at another path:
/// the part below that.
pub open spec fn path_below(path: Seq<char>, above: Seq<char>) -> Option<Seq<char>> {
    let prefix = above + "/"@;
    if prefix.is_prefix_of(path) {
        Some(path.skip(prefix.len() as int))
    } else {
        None
    }
}

pub open spec fn child_shown(started: Started, path: Seq<char>) -> Shown {
    Shown::Fields(
        no_fields()
            .push(("session"@, Shown::Text(started.session@)))
            .push(("agent_name"@, Shown::Text(started.agent_name@)))
            .push(("path"@, Shown::Text(path)))
            .push(("state"@, Shown::Text("starting"@))),
    )
}

/// What a sandbox is answered to a start: paths as it sees them. It is answered from what
/// was kept of the start, whatever has come of the session since.
pub fn child_started(started: &Started, above: &str) -> (r: Result<Json, Fault>)
    ensures
        match path_below(started.path@, above@) {
            Some(path) => r matches Ok(v) && shown(v) == child_shown(*started, path),
            None => r matches Err(f) && fault(f) == is_missing(),
        },
{
    let mut prefix = String::from_str(above);
    prefix.push_str("/");
    if !starts_with(&started.path, &prefix) {
        return Err(missing());
    }
    let path = strip_prefix(&started.path, &prefix);
    Ok(
        Fields::new()
            .text("session", &started.session)
            .text("agent_name", &started.agent_name)
            .text("path", &path)
            .text("state", SessionState::Starting.name())
            .done(),
    )
}

pub open spec fn subscribed_shown(id: Seq<char>, sequence: u64, snapshot: Shown) -> Shown {
    Shown::Fields(
        no_fields()
            .push(("subscription"@, Shown::Text(id)))
            .push(("sequence"@, Shown::Number(sequence as int)))
            .push(("snapshot"@, snapshot)),
    )
}

/// What a subscription begins with.
pub fn subscribed(id: &str, sequence: u64, snapshot: Json) -> (r: Json)
    ensures
        shown(r) == subscribed_shown(id@, sequence, shown(snapshot)),
{
    Fields::new()
        .text("subscription", id)
        .number("sequence", sequence)
        .add("snapshot", snapshot)
        .done()
}

/// What a subscription is told of a change: a notification, which nobody answers.
pub fn changed(id: &str, sequence: u64, snapshot: Json) -> (r: Json)
    ensures
        shown(r) == Shown::Fields(
            no_fields()
                .push(("jsonrpc"@, Shown::Text("2.0"@)))
                .push(("method"@, Shown::Text("state.changed"@)))
                .push(("params"@, subscribed_shown(id@, sequence, shown(snapshot)))),
        ),
{
    let params = subscribed(id, sequence, snapshot);
    Fields::new()
        .text("jsonrpc", "2.0")
        .text("method", "state.changed")
        .add("params", params)
        .done()
}

pub open spec fn chosen_shown(permissions: Seq<PermissionRecord>, chosen: Seq<int>) -> Shown {
    Shown::List(chosen.map_values(|i: int| permission_shown(permissions[i])))
}

/// The requests at these places.
pub fn chosen(permissions: &Vec<PermissionRecord>, which: &Vec<usize>) -> (r: Json)
    requires
        forall|k: int| 0 <= k < which@.len() ==> (#[trigger] which@[k]) < permissions@.len(),
    ensures
        shown(r) == chosen_shown(permissions@, places(which@)),
{
    let mut items: Vec<Json> = Vec::new();
    let mut i: usize = 0;
    while i < which.len()
        invariant
            i <= which@.len(),
            forall|k: int| 0 <= k < which@.len() ==> (#[trigger] which@[k]) < permissions@.len(),
            items@.len() == i,
            forall|j: int|
                0 <= j < i ==> shown(#[trigger] items@[j]) == permission_shown(
                    permissions@[which@[j] as int],
                ),
        decreases which@.len() - i,
    {
        items.push(permissions[which[i]].value());
        i += 1;
    }
    let r = Json::Array(items);
    assert(shown(r)->List_0 =~= places(which@).map_values(
        |i: int| permission_shown(permissions@[i]),
    ));
    r
}

/// A page of the log, with its events as they were written.
pub fn page_value(p: &Page, events: Json) -> (r: Json)
    ensures
        shown(r) == Shown::Fields(
            no_fields()
                .push(("events"@, shown(events)))
                .push(("cursor"@, Shown::Number(p.cursor as int)))
                .push(("session"@, maybe_text(maybe(p.session))))
                .push(("latest"@, Shown::Number(p.latest as int))),
        ),
{
    Fields::new()
        .add("events", events)
        .number("cursor", p.cursor)
        .maybe("session", &p.session)
        .number("latest", p.latest)
        .done()
}

/// What came of a notice that was to be typed.
pub fn delivery(revision: u64, submitted: bool) -> (r: Json)
    ensures
        shown(r) == Shown::Fields(
            no_fields()
                .push(("terminal_revision"@, Shown::Number(revision as int)))
                .push(("submitted"@, Shown::Flag(submitted))),
        ),
{
    Fields::new()
        .number("terminal_revision", revision)
        .flag("submitted", submitted)
        .done()
}

/// What a consumer that came to a terminal is told when it is turned away.
pub fn turned_away(why: &str) -> (r: Json)
    ensures
        is_error(r, Json::Unsigned(0), -32009, why@),
{
    error(Json::Unsigned(0), -32009, why)
}

/// The configurations of a manifest by name, each with what is said of it.
pub open spec fn descriptions_shown(v: Seq<(String, Configuration)>) -> Seq<(Seq<char>, Shown)> {
    v.map_values(|c: (String, Configuration)| (c.0@, Shown::Text(c.1.description@)))
}

pub open spec fn offered_shown(v: Seq<(String, Configuration)>) -> Shown {
    Shown::List(v.map_values(|c: (String, Configuration)| Shown::Text(c.0@)))
}

/// What can be launched from a manifest at that path.
pub fn configurations_value(path: &str, m: &Manifest) -> (r: Json)
    ensures
        shown(r) == Shown::Fields(
            no_fields()
                .push(("configuration"@, Shown::Text(path@)))
                .push(("names"@, offered_shown(m.goblins@)))
                .push(("descriptions"@, Shown::Fields(descriptions_shown(m.goblins@)))),
        ),
{
    let ghost all = m.goblins@;
    let mut names: Vec<String> = Vec::new();
    let mut described = Fields::new();
    let mut i: usize = 0;
    assert(described@ =~= descriptions_shown(all).take(0));
    while i < m.goblins.len()
        invariant
            i <= all.len(),
            all == m.goblins@,
            names@.len() == i,
            forall|j: int| 0 <= j < i ==> (#[trigger] names@[j])@ == all[j].0@,
            described@ == descriptions_shown(all).take(i as int),
        decreases all.len() - i,
    {
        names.push(m.goblins[i].0.clone());
        described = described.text(
            m.goblins[i].0.as_str(),
            m.goblins[i].1.description.as_str(),
        );
        i += 1;
        assert(described@ =~= descriptions_shown(all).take(i as int));
    }
    assert(descriptions_shown(all).take(i as int) =~= descriptions_shown(all));
    assert(shown_texts(names@) == offered_shown(all)) by {
        assert(names@.map_values(|t: String| Shown::Text(t@)) =~= all.map_values(
            |c: (String, Configuration)| Shown::Text(c.0@),
        ));
    }
    Fields::new().text("configuration", path).list("names", &names).add(
        "descriptions",
        described.done(),
    ).done()
}

} // verus!
