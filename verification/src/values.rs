//! How records, messages and their events are written.
use vstd::prelude::*;

use crate::answers::{integer, maybe_text, no_fields, shown, shown_texts, Fields, Shown};
use crate::controller::{SandboxRecord, Started};
use crate::integration::{
    driver_name, phase_name, phase_text, Answer, Decision, Delivery, Health, Names, NamesView,
    Standing,
};
use crate::json::Json;
use crate::mailbox::{
    ChangeData, ChangeDataView, Event, EventData, EventDataView, Outcome, OutcomeView, Status,
};
use crate::messages::{Message, MessageView, State};
use crate::records::{
    Identity, PermissionRecord, PreviewShown, SessionRecord, SessionState, Snapshot,
};
use crate::text::{maybe, texts};

verus! {

pub open spec fn state_name(s: State) -> Seq<char> {
    match s {
        State::Queued => "queued"@,
        State::Claimed => "claimed"@,
        State::Completed => "completed"@,
        State::Failed => "failed"@,
    }
}

impl State {
    pub fn name(self) -> (r: &'static str)
        ensures
            r@ == state_name(self),
    {
        match self {
            State::Queued => "queued",
            State::Claimed => "claimed",
            State::Completed => "completed",
            State::Failed => "failed",
        }
    }
}

pub open spec fn message_shown(m: MessageView) -> Shown {
    Shown::Fields(
        no_fields()
            .push(("id"@, Shown::Text(m.id)))
            .push(("conversation"@, Shown::Text(m.conversation)))
            .push(("sender"@, Shown::Text(m.sender)))
            .push(("recipient"@, Shown::Text(m.recipient)))
            .push(("sender_path"@, Shown::Text(m.sender_path)))
            .push(("recipient_path"@, Shown::Text(m.recipient_path)))
            .push(("in_reply_to"@, maybe_text(m.in_reply_to)))
            .push(("body"@, Shown::Text(m.body)))
            .push(("created_sequence"@, Shown::Number(m.created_sequence as int)))
            .push(("created_at"@, Shown::Number(m.created_at as int)))
            .push(("state"@, Shown::Text(state_name(m.state))))
            .push(("claim_generation"@, Shown::Number(m.claim_generation as int)))
            .push(("failure"@, maybe_text(m.failure))),
    )
}

impl Message {
    pub fn value(&self) -> (r: Json)
        ensures
            shown(r) == message_shown(self@),
    {
        Fields::new()
            .text("id", &self.id)
            .text("conversation", &self.conversation)
            .text("sender", &self.sender)
            .text("recipient", &self.recipient)
            .text("sender_path", &self.sender_path)
            .text("recipient_path", &self.recipient_path)
            .maybe("in_reply_to", &self.in_reply_to)
            .text("body", &self.body)
            .number("created_sequence", self.created_sequence)
            .number("created_at", self.created_at)
            .text("state", self.state.name())
            .number("claim_generation", self.claim_generation)
            .maybe("failure", &self.failure)
            .done()
    }
}

/// What an operation on a mailbox answers.
pub open spec fn outcome_shown(o: OutcomeView) -> Shown {
    match o {
        OutcomeView::Sent(m) => message_shown(m),
        OutcomeView::Claimed { message, claim_generation } => Shown::Fields(
            no_fields()
                .push(("message"@, message_shown(message)))
                .push(("claim_generation"@, Shown::Number(claim_generation as int))),
        ),
        OutcomeView::Empty => Shown::Fields(
            no_fields()
                .push(("message"@, Shown::Nothing))
                .push(("claim_generation"@, Shown::Nothing)),
        ),
        OutcomeView::Replied { reply, completed } => Shown::Fields(
            no_fields()
                .push(("reply"@, message_shown(reply)))
                .push(("completed"@, Shown::Text(completed))),
        ),
        OutcomeView::Completed { id, state } => Shown::Fields(
            no_fields()
                .push(("message"@, Shown::Text(id)))
                .push(("state"@, Shown::Text(state_name(state)))),
        ),
        OutcomeView::Requeued { id, claim_generation } => Shown::Fields(
            no_fields()
                .push(("message"@, Shown::Text(id)))
                .push(("claim_generation"@, Shown::Number(claim_generation as int))),
        ),
    }
}

impl Outcome {
    pub fn value(&self) -> (r: Json)
        ensures
            shown(r) == outcome_shown(self@),
    {
        match self {
            Outcome::Sent(m) => m.value(),
            Outcome::Claimed { message, claim_generation } => Fields::new()
                .add("message", message.value())
                .number("claim_generation", *claim_generation)
                .done(),
            Outcome::Empty => Fields::new()
                .add("message", Json::Null)
                .add("claim_generation", Json::Null)
                .done(),
            Outcome::Replied { reply, completed } => Fields::new()
                .add("reply", reply.value())
                .text("completed", completed)
                .done(),
            Outcome::Completed { id, state } => Fields::new()
                .text("message", id)
                .text("state", state.name())
                .done(),
            Outcome::Requeued { id, claim_generation } => Fields::new()
                .text("message", id)
                .number("claim_generation", *claim_generation)
                .done(),
        }
    }
}

/// What the log says of a change.
pub open spec fn change_shown(c: ChangeDataView) -> Shown {
    match c {
        ChangeDataView::Accepted(m) => Shown::Fields(no_fields()
            .push(("message"@, message_shown(m)))),
        ChangeDataView::Claimed { id, claim_generation } => Shown::Fields(
            no_fields()
                .push(("message"@, Shown::Text(id)))
                .push(("claim_generation"@, Shown::Number(claim_generation as int))),
        ),
        ChangeDataView::Empty => Shown::Fields(no_fields()),
        ChangeDataView::Replied { message, completed } => Shown::Fields(
            no_fields()
                .push(("message"@, message_shown(message)))
                .push(("completed"@, Shown::Text(completed))),
        ),
        ChangeDataView::Completed { id, claim_generation } => Shown::Fields(
            no_fields()
                .push(("message"@, Shown::Text(id)))
                .push(("claim_generation"@, Shown::Number(claim_generation as int))),
        ),
        ChangeDataView::Requeued { id, claim_generation, reason } => Shown::Fields(
            no_fields()
                .push(("message"@, Shown::Text(id)))
                .push(("claim_generation"@, Shown::Number(claim_generation as int)))
                .push(("reason"@, Shown::Text(reason))),
        ),
    }
}

impl ChangeData {
    pub fn value(&self) -> (r: Json)
        ensures
            shown(r) == change_shown(self@),
    {
        match self {
            ChangeData::Accepted(m) => Fields::new().add("message", m.value()).done(),
            ChangeData::Claimed { id, claim_generation } => Fields::new()
                .text("message", id)
                .number("claim_generation", *claim_generation)
                .done(),
            ChangeData::Empty => Fields::new().done(),
            ChangeData::Replied { message, completed } => Fields::new()
                .add("message", message.value())
                .text("completed", completed)
                .done(),
            ChangeData::Completed { id, claim_generation } => Fields::new()
                .text("message", id)
                .number("claim_generation", *claim_generation)
                .done(),
            ChangeData::Requeued { id, claim_generation, reason } => Fields::new()
                .text("message", id)
                .number("claim_generation", *claim_generation)
                .text("reason", reason)
                .done(),
        }
    }
}

pub open spec fn names_shown(v: Seq<Seq<char>>) -> Shown {
    Shown::List(v.map_values(|t: Seq<char>| Shown::Text(t)))
}

proof fn lemma_names_shown(v: Seq<String>)
    ensures
        shown_texts(v) == names_shown(texts(v)),
{
    assert(v.map_values(|t: String| Shown::Text(t@)) =~= texts(v).map_values(
        |t: Seq<char>| Shown::Text(t),
    ));
}

pub open spec fn data_shown(d: EventDataView) -> Shown {
    match d {
        EventDataView::Changed { key, method, change } => Shown::Fields(
            no_fields()
                .push(("key"@, Shown::Text(key)))
                .push(("method"@, Shown::Text(method)))
                .push(("change"@, change_shown(change))),
        ),
        EventDataView::Stopped { recipient, messages } => Shown::Fields(
            no_fields()
                .push(("recipient"@, Shown::Text(recipient)))
                .push(("messages"@, names_shown(messages))),
        ),
        EventDataView::Note(v) => shown(v),
    }
}

impl EventData {
    pub fn value(&self) -> (r: Json)
        ensures
            shown(r) == data_shown(self@),
    {
        match self {
            EventData::Changed { key, method, change } => Fields::new()
                .text("key", key)
                .text("method", method)
                .add("change", change.value())
                .done(),
            EventData::Stopped { recipient, messages } => {
                proof {
                    lemma_names_shown(messages@);
                }
                Fields::new().text("recipient", recipient).list("messages", messages).done()
            },
            EventData::Note(v) => v.copy(),
        }
    }
}

impl Event {
    /// The line of an event in the log.
    pub fn value(&self) -> (r: Json)
        ensures
            shown(r) == Shown::Fields(
                no_fields()
                    .push(("instance"@, Shown::Text(self.instance@)))
                    .push(("sequence"@, Shown::Number(self.sequence as int)))
                    .push(("timestamp"@, Shown::Number(self.timestamp as int)))
                    .push(("kind"@, Shown::Text(self.kind@)))
                    .push(("actor"@, Shown::Text(self.actor@)))
                    .push(("sessions"@, shown_texts(self.sessions@)))
                    .push(("data"@, data_shown(self.data@))),
            ),
    {
        Fields::new()
            .text("instance", &self.instance)
            .number("sequence", self.sequence)
            .number("timestamp", self.timestamp)
            .text("kind", &self.kind)
            .text("actor", &self.actor)
            .list("sessions", &self.sessions)
            .add("data", self.data.value())
            .done()
    }
}

pub open spec fn health_name(h: Health) -> Seq<char> {
    match h {
        Health::Paused => "paused"@,
        Health::Degraded => "degraded"@,
        Health::Stalled => "stalled"@,
        Health::Healthy => "healthy"@,
    }
}

/// How an integration stands.
pub open spec fn standing_shown(names: NamesView, s: Option<Standing>) -> Shown {
    match s {
        None => Shown::Fields(no_fields().push(("health"@, Shown::Text("unregistered"@)))),
        Some(s) => Shown::Fields(
            no_fields()
                .push(("driver"@, Shown::Text(driver_name(names, s.driver))))
                .push(("epoch"@, Shown::Number(s.epoch as int)))
                .push(("state"@, Shown::Text(phase_name(s.phase))))
                .push(("health"@, Shown::Text(health_name(s.health))))
                .push(("attempts"@, Shown::Number(s.attempts as int))),
        ),
    }
}

impl Names {
    pub fn standing(&self, s: Option<Standing>) -> (r: Json)
        ensures
            shown(r) == standing_shown(self@, s),
    {
        match s {
            None => Fields::new().text("health", "unregistered").done(),
            Some(s) => {
                let health = match s.health {
                    Health::Paused => "paused",
                    Health::Degraded => "degraded",
                    Health::Stalled => "stalled",
                    Health::Healthy => "healthy",
                };
                let driver = self.text(s.driver);
                Fields::new()
                    .text("driver", &driver)
                    .number("epoch", s.epoch)
                    .text("state", phase_text(s.phase))
                    .text("health", health)
                    .number("attempts", s.attempts as u64)
                    .done()
            },
        }
    }
}

/// What an agent is told to do: how it is told of its inbox only where it is.
pub open spec fn decision_fields(d: Decision, standing: Shown) -> Seq<(Seq<char>, Shown)> {
    let first = no_fields()
        .push(("continue"@, Shown::Flag(d.proceed)))
        .push(("notify"@, Shown::Flag(d.notify is Some)));
    match d.notify {
        None => first.push(("integration"@, standing)),
        Some((delivery, revision)) => first.push(
            (
                "delivery"@,
                Shown::Text(
                    match delivery {
                        Delivery::Notification => "notification"@,
                        Delivery::Terminal => "terminal"@,
                    },
                ),
            ),
        ).push(("revision"@, Shown::Number(revision as int))).push(("integration"@, standing)),
    }
}

/// What is answered to a call about an integration.
pub open spec fn answer_shown(names: NamesView, a: Answer) -> Shown {
    match a {
        Answer::Standing(s) => standing_shown(names, s),
        Answer::Registered { epoch, driver } => Shown::Fields(
            no_fields()
                .push(("epoch"@, Shown::Number(epoch as int)))
                .push(("driver"@, Shown::Text(driver_name(names, driver)))),
        ),
        Answer::Known { epoch } => Shown::Fields(no_fields()
            .push(("epoch"@, Shown::Number(epoch as int)))),
        Answer::Repeated { proceed } => Shown::Fields(
            no_fields()
                .push(("continue"@, Shown::Flag(proceed)))
                .push(("notify"@, Shown::Flag(false))),
        ),
        Answer::Decided { decision, standing } => Shown::Fields(
            decision_fields(decision, standing_shown(names, Some(standing))),
        ),
    }
}

impl Names {
    pub fn answer(&self, a: &Answer) -> (r: Json)
        ensures
            shown(r) == answer_shown(self@, *a),
    {
        match a {
            Answer::Standing(s) => self.standing(*s),
            Answer::Registered { epoch, driver } => {
                let name = self.text(*driver);
                Fields::new().number("epoch", *epoch).text("driver", &name).done()
            },
            Answer::Known { epoch } => Fields::new().number("epoch", *epoch).done(),
            Answer::Repeated { proceed } => Fields::new()
                .flag("continue", *proceed)
                .flag("notify", false)
                .done(),
            Answer::Decided { decision, standing } => {
                let standing = self.standing(Some(*standing));
                let first = Fields::new()
                    .flag("continue", decision.proceed)
                    .flag("notify", decision.notify.is_some());
                match decision.notify {
                    None => first.add("integration", standing).done(),
                    Some((delivery, revision)) => {
                        let way = match delivery {
                            Delivery::Notification => "notification",
                            Delivery::Terminal => "terminal",
                        };
                        first.text("delivery", way).number("revision", revision).add(
                            "integration",
                            standing,
                        ).done()
                    },
                }
            },
        }
    }
}

pub open spec fn head_shown(head: Option<(String, u64)>) -> Shown {
    match head {
        None => Shown::Nothing,
        Some((id, generation)) => Shown::List(
            seq![Shown::Text(id@), Shown::Number(generation as int)],
        ),
    }
}

/// How an inbox stands, and the integration of its owner.
pub open spec fn inbox_shown(s: Status, integration: Shown) -> Shown {
    Shown::Fields(
        no_fields()
            .push(("queued"@, Shown::Number(s.queued as int)))
            .push(("claim"@, maybe_text(maybe(s.claim))))
            .push(("head"@, head_shown(s.head)))
            .push(("revision"@, Shown::Number(s.revision as int)))
            .push(("audit_failed"@, Shown::Flag(s.audit_failed)))
            .push(("integration"@, integration)),
    )
}

impl Status {
    /// How an inbox stands, and the integration of its owner.
    pub fn value(&self, integration: Json) -> (r: Json)
        ensures
            shown(r) == inbox_shown(*self, shown(integration)),
    {
        let head = match &self.head {
            None => Json::Null,
            Some((id, generation)) => {
                let pair = vec![Json::Text(id.clone()), Json::Unsigned(*generation)];
                assert(shown(pair@[0]) == Shown::Text(id@));
                assert(shown(pair@[1]) == Shown::Number(*generation as int));
                let v = Json::Array(pair);
                assert(shown(v)->List_0 =~= head_shown(self.head)->List_0);
                v
            },
        };
        Fields::new()
            .number("queued", self.queued as u64)
            .maybe("claim", &self.claim)
            .add("head", head)
            .number("revision", self.revision)
            .flag("audit_failed", self.audit_failed)
            .add("integration", integration)
            .done()
    }
}

pub open spec fn identity_shown(i: Option<Identity>) -> Shown {
    match i {
        None => Shown::Nothing,
        Some(i) => Shown::Fields(
            no_fields()
                .push(("pid"@, Shown::Number(i.pid as int)))
                .push(("helper_userns"@, Shown::Number(i.helper_userns as int)))
                .push(("mount_owner"@, Shown::Number(i.mount_owner as int)))
                .push(("source_mountns"@, Shown::Number(i.source_mountns as int)))
                .push(("mountns"@, Shown::Number(i.mountns as int))),
        ),
    }
}

pub fn identity_value(i: &Option<Identity>) -> (r: Json)
    ensures
        shown(r) == identity_shown(*i),
{
    match i {
        None => Json::Null,
        Some(i) => Fields::new()
            .number("pid", i.pid as u64)
            .number("helper_userns", i.helper_userns)
            .number("mount_owner", i.mount_owner)
            .number("source_mountns", i.source_mountns)
            .number("mountns", i.mountns)
            .done(),
    }
}

pub open spec fn maybe_number(n: Option<i32>) -> Shown {
    match n {
        None => Shown::Nothing,
        Some(n) => Shown::Number(n as int),
    }
}

fn number_value(n: &Option<i32>) -> (r: Json)
    ensures
        shown(r) == maybe_number(*n),
{
    match n {
        None => Json::Null,
        Some(n) => integer(*n),
    }
}

pub open spec fn session_shown(r: SessionRecord) -> Shown {
    Shown::Fields(
        no_fields()
            .push(("docker_enabled"@, Shown::Flag(r.docker_enabled)))
            .push(("docker_scope"@, maybe_text(maybe(r.docker_scope))))
            .push(("id"@, Shown::Text(r.id@)))
            .push(("agent_name"@, Shown::Text(r.agent_name@)))
            .push(("parent"@, maybe_text(maybe(r.parent))))
            .push(("path"@, Shown::Text(r.path@)))
            .push(("name"@, Shown::Text(r.name@)))
            .push(("description"@, Shown::Text(r.description@)))
            .push(("configuration"@, Shown::Text(r.configuration@)))
            .push(("state"@, Shown::Text(r.state.text())))
            .push(("identity"@, identity_shown(r.identity)))
            .push(("initial_packages"@, shown_texts(r.initial_packages@)))
            .push(("packages"@, shown_texts(r.packages@)))
            .push(("terminal"@, Shown::Text(r.terminal@)))
            .push(("pty_eof"@, Shown::Flag(r.pty_eof)))
            .push(("terminal_complete"@, Shown::Flag(r.terminal_complete)))
            .push(("terminal_interrupted"@, Shown::Flag(r.terminal_interrupted)))
            .push(("terminal_attached"@, Shown::Flag(r.terminal_attached)))
            .push(("terminal_detached"@, Shown::Flag(r.terminal_detached)))
            .push(("exit_code"@, maybe_number(r.exit_code)))
            .push(("stop_reason"@, maybe_text(maybe(r.stop_reason))))
            .push(("detail"@, maybe_text(maybe(r.detail)))),
    )
}

/// What a session is shown of itself.
pub open spec fn own_shown(r: SessionRecord) -> Shown {
    Shown::Fields(
        no_fields()
            .push(("id"@, Shown::Text(r.id@)))
            .push(("agent_name"@, Shown::Text(r.agent_name@)))
            .push(("name"@, Shown::Text(r.name@)))
            .push(("description"@, Shown::Text(r.description@)))
            .push(("state"@, Shown::Text(r.state.text())))
            .push(("docker_scope"@, maybe_text(maybe(r.docker_scope))))
            .push(("docker_enabled"@, Shown::Flag(r.docker_enabled))),
    )
}

impl SessionRecord {
    /// All that the host is shown of a session.
    pub fn value(&self) -> (r: Json)
        ensures
            shown(r) == session_shown(*self),
    {
        Fields::new()
            .flag("docker_enabled", self.docker_enabled)
            .maybe("docker_scope", &self.docker_scope)
            .text("id", &self.id)
            .text("agent_name", &self.agent_name)
            .maybe("parent", &self.parent)
            .text("path", &self.path)
            .text("name", &self.name)
            .text("description", &self.description)
            .text("configuration", &self.configuration)
            .text("state", self.state.name())
            .add("identity", identity_value(&self.identity))
            .list("initial_packages", &self.initial_packages)
            .list("packages", &self.packages)
            .text("terminal", &self.terminal)
            .flag("pty_eof", self.pty_eof)
            .flag("terminal_complete", self.terminal_complete)
            .flag("terminal_interrupted", self.terminal_interrupted)
            .flag("terminal_attached", self.terminal_attached)
            .flag("terminal_detached", self.terminal_detached)
            .add("exit_code", number_value(&self.exit_code))
            .maybe("stop_reason", &self.stop_reason)
            .maybe("detail", &self.detail)
            .done()
    }

    /// What a session is shown of itself.
    pub fn own(&self) -> (r: Json)
        ensures
            shown(r) == own_shown(*self),
    {
        Fields::new()
            .text("id", &self.id)
            .text("agent_name", &self.agent_name)
            .text("name", &self.name)
            .text("description", &self.description)
            .text("state", self.state.name())
            .maybe("docker_scope", &self.docker_scope)
            .flag("docker_enabled", self.docker_enabled)
            .done()
    }
}

pub open spec fn sandbox_shown(r: SandboxRecord) -> Shown {
    Shown::Fields(
        no_fields()
            .push(("id"@, Shown::Text(r.id@)))
            .push(("agent_name"@, Shown::Text(r.agent_name@)))
            .push(("parent"@, maybe_text(maybe(r.parent))))
            .push(("path"@, Shown::Text(r.path@)))
            .push(("name"@, Shown::Text(r.name@)))
            .push(("description"@, Shown::Text(r.description@)))
            .push(("state"@, Shown::Text(r.state.text())))
            .push(("initial_packages"@, shown_texts(r.initial_packages@)))
            .push(("packages"@, shown_texts(r.packages@)))
            .push(("docker_scope"@, maybe_text(maybe(r.docker_scope))))
            .push(("docker_enabled"@, Shown::Flag(r.docker_enabled)))
            .push(("exit_code"@, maybe_number(r.exit_code)))
            .push(("stop_reason"@, maybe_text(maybe(r.stop_reason))))
            .push(("terminal_complete"@, Shown::Flag(r.terminal_complete)))
            .push(("terminal_interrupted"@, Shown::Flag(r.terminal_interrupted)))
            .push(("terminal_detached"@, Shown::Flag(r.terminal_detached)))
            .push(("terminal_attached"@, Shown::Flag(r.terminal_attached))),
    )
}

impl SandboxRecord {
    /// What a session is shown of what it owns: no path, process or diagnostic of the host.
    pub fn value(&self) -> (r: Json)
        ensures
            shown(r) == sandbox_shown(*self),
    {
        Fields::new()
            .text("id", &self.id)
            .text("agent_name", &self.agent_name)
            .maybe("parent", &self.parent)
            .text("path", &self.path)
            .text("name", &self.name)
            .text("description", &self.description)
            .text("state", self.state.name())
            .list("initial_packages", &self.initial_packages)
            .list("packages", &self.packages)
            .maybe("docker_scope", &self.docker_scope)
            .flag("docker_enabled", self.docker_enabled)
            .add("exit_code", number_value(&self.exit_code))
            .maybe("stop_reason", &self.stop_reason)
            .flag("terminal_complete", self.terminal_complete)
            .flag("terminal_interrupted", self.terminal_interrupted)
            .flag("terminal_detached", self.terminal_detached)
            .flag("terminal_attached", self.terminal_attached)
            .done()
    }
}

pub open spec fn preview_shown(p: Option<PreviewShown>) -> Shown {
    match p {
        None => Shown::Nothing,
        Some(PreviewShown::Package(p)) => Shown::Fields(
            no_fields()
                .push(("in_store"@, Shown::Flag(p.in_store)))
                .push(("download"@, maybe_text(maybe(p.download))))
                .push(("build_required"@, Shown::Flag(p.build_required))),
        ),
        Some(PreviewShown::Description(t)) => Shown::Fields(
            no_fields().push(("description"@, Shown::Text(t@))),
        ),
        Some(PreviewShown::Failed(t)) => Shown::Fields(no_fields()
            .push(("error"@, Shown::Text(t@)))),
    }
}

fn preview_value(p: &Option<PreviewShown>) -> (r: Json)
    ensures
        shown(r) == preview_shown(*p),
{
    match p {
        None => Json::Null,
        Some(PreviewShown::Package(p)) => Fields::new()
            .flag("in_store", p.in_store)
            .maybe("download", &p.download)
            .flag("build_required", p.build_required)
            .done(),
        Some(PreviewShown::Description(t)) => Fields::new().text("description", t).done(),
        Some(PreviewShown::Failed(t)) => Fields::new().text("error", t).done(),
    }
}

pub open spec fn maybe_flag(b: Option<bool>) -> Shown {
    match b {
        Some(b) => Shown::Flag(b),
        None => Shown::Nothing,
    }
}

pub open spec fn permission_shown(p: PermissionRecord) -> Shown {
    Shown::Fields(
        no_fields()
            .push(("kind"@, Shown::Text(p.kind@)))
            .push(("scope"@, maybe_text(maybe(p.scope))))
            .push(("anonymous"@, Shown::Flag(p.anonymous)))
            .push(("id"@, Shown::Text(p.id@)))
            .push(("session"@, Shown::Text(p.session@)))
            .push(("agent_name"@, Shown::Text(p.agent_name@)))
            .push(("approval"@, Shown::Text(p.approval@)))
            .push(("package"@, Shown::Text(p.package@)))
            .push(("reason"@, Shown::Text(p.reason@)))
            .push(("state"@, Shown::Text(p.state.text())))
            .push(("approved"@, maybe_flag(p.approved)))
            .push(("preview"@, preview_shown(p.preview)))
            .push(("message"@, maybe_text(maybe(p.message)))),
    )
}

impl PermissionRecord {
    pub fn value(&self) -> (r: Json)
        ensures
            shown(r) == permission_shown(*self),
    {
        let approved = match self.approved {
            Some(b) => Json::Bool(b),
            None => Json::Null,
        };
        Fields::new()
            .text("kind", &self.kind)
            .maybe("scope", &self.scope)
            .flag("anonymous", self.anonymous)
            .text("id", &self.id)
            .text("session", &self.session)
            .text("agent_name", &self.agent_name)
            .text("approval", &self.approval)
            .text("package", &self.package)
            .text("reason", &self.reason)
            .text("state", self.state.name())
            .add("approved", approved)
            .add("preview", preview_value(&self.preview))
            .maybe("message", &self.message)
            .done()
    }
}

pub open spec fn sessions_shown(v: Seq<SessionRecord>) -> Shown {
    Shown::List(v.map_values(|r: SessionRecord| session_shown(r)))
}

pub open spec fn permissions_shown(v: Seq<PermissionRecord>) -> Shown {
    Shown::List(v.map_values(|p: PermissionRecord| permission_shown(p)))
}

pub open spec fn snapshot_shown(n: Snapshot) -> Shown {
    Shown::Fields(
        no_fields()
            .push(("instance"@, Shown::Text(n.instance@)))
            .push(("sessions"@, sessions_shown(n.sessions@)))
            .push(("permissions"@, permissions_shown(n.permissions@))),
    )
}

/// A list of session records.
pub fn sessions_value(v: &Vec<SessionRecord>) -> (r: Json)
    ensures
        shown(r) == sessions_shown(v@),
{
    let mut items: Vec<Json> = Vec::new();
    let mut i: usize = 0;
    while i < v.len()
        invariant
            i <= v@.len(),
            items@.len() == i,
            forall|j: int| 0 <= j < i ==> shown(#[trigger] items@[j]) == session_shown(v@[j]),
        decreases v@.len() - i,
    {
        items.push(v[i].value());
        i += 1;
    }
    let r = Json::Array(items);
    assert(shown(r)->List_0 =~= v@.map_values(|r: SessionRecord| session_shown(r)));
    r
}

/// A list of requests.
pub fn permissions_value(v: &Vec<PermissionRecord>) -> (r: Json)
    ensures
        shown(r) == permissions_shown(v@),
{
    let mut items: Vec<Json> = Vec::new();
    let mut i: usize = 0;
    while i < v.len()
        invariant
            i <= v@.len(),
            items@.len() == i,
            forall|j: int| 0 <= j < i ==> shown(#[trigger] items@[j]) == permission_shown(v@[j]),
        decreases v@.len() - i,
    {
        items.push(v[i].value());
        i += 1;
    }
    let r = Json::Array(items);
    assert(shown(r)->List_0 =~= v@.map_values(|p: PermissionRecord| permission_shown(p)));
    r
}

impl Snapshot {
    pub fn value(&self) -> (r: Json)
        ensures
            shown(r) == snapshot_shown(*self),
    {
        Fields::new()
            .text("instance", &self.instance)
            .add("sessions", sessions_value(&self.sessions))
            .add("permissions", permissions_value(&self.permissions))
            .done()
    }
}

impl Started {
    /// What the host is answered to a start.
    pub fn value(&self) -> (r: Json)
        ensures
            shown(r) == Shown::Fields(
                no_fields()
                    .push(("session"@, Shown::Text(self.session@)))
                    .push(("agent_name"@, Shown::Text(self.agent_name@)))
                    .push(("path"@, Shown::Text(self.path@)))
                    .push(("parent"@, maybe_text(maybe(self.parent))))
                    .push(("state"@, Shown::Text("starting"@)))
                    .push(("terminal"@, Shown::Text(self.terminal@))),
            ),
    {
        Fields::new()
            .text("session", &self.session)
            .text("agent_name", &self.agent_name)
            .text("path", &self.path)
            .maybe("parent", &self.parent)
            .text("state", SessionState::Starting.name())
            .text("terminal", &self.terminal)
            .done()
    }
}

} // verus!
