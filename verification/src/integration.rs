//! When an agent is told that its inbox holds something: hooks of the agent,
//! the state of its terminal, and what a human has typed, but never the
//! contents of a message.
use vstd::prelude::*;

use crate::answers::{maybe_text, no_fields, shown, Fields, Shown};
use crate::directory::{is_fault, Fault};
use crate::json::{lookup, Json};
use crate::mailbox::{
    at_hand, failure_of, first_where, has_id, lemma_first_where, queued, record_done, unresolved, waits, Audit,
    EventData, EventDataView, EventView, Handed, Mailbox, MailboxView, Status,
};
use crate::messages::{text_at, MessageView, State};
use crate::protocol::{identifier, is_identifier};
use crate::text::{chars, copy_option, maybe, same, same_option, span};

verus! {

/// What the terminal of an agent shows of its readiness for input.
#[derive(Clone, Copy, Debug, Default)]
pub struct Observation {
    pub revision: u64,
    pub ready: bool,
    pub input: u64,
    pub interrupted: bool,
    pub input_pending: bool,
}

/// What drives an agent. The second can also be notified beside its terminal.
#[derive(Clone, Copy, Debug, PartialEq, Eq, Structural)]
pub enum Driver {
    Codex,
    Claude,
}

/// The names by which the host knows the drivers.
pub struct Names {
    pub codex: String,
    pub claude: String,
}

pub struct NamesView {
    pub codex: Seq<char>,
    pub claude: Seq<char>,
}

impl View for Names {
    type V = NamesView;

    open spec fn view(&self) -> NamesView {
        NamesView { codex: self.codex@, claude: self.claude@ }
    }
}

#[derive(Clone, Copy, Debug, PartialEq, Eq, Structural)]
pub enum Phase {
    Starting,
    Ready,
    Working,
}

#[derive(Clone, Copy, Debug, PartialEq, Eq, Structural)]
pub enum Delivery {
    Terminal,
    Notification,
}

#[derive(Clone, Copy, Debug, PartialEq, Eq, Structural)]
pub enum Health {
    Paused,
    Degraded,
    Stalled,
    Healthy,
}

struct Agent {
    id: String,
    key: String,
    driver: Driver,
    epoch: u64,
    phase: Phase,
    paused: bool,
    last_seen: u64,
    last_attempt: u64,
    attempts: u8,
    input: u64,
    claim: Option<String>,
    last_hook: String,
    head: Option<(String, u64)>,
}

pub struct AgentView {
    pub id: Seq<char>,
    pub key: Seq<char>,
    pub driver: Driver,
    pub epoch: u64,
    pub phase: Phase,
    pub paused: bool,
    pub last_seen: u64,
    pub last_attempt: u64,
    pub attempts: u8,
    pub input: u64,
    pub claim: Option<Seq<char>>,
    pub last_hook: Seq<char>,
    pub head: Option<(Seq<char>, u64)>,
}

pub open spec fn head_view(head: Option<(String, u64)>) -> Option<(Seq<char>, u64)> {
    match head {
        Some((id, generation)) => Some((id@, generation)),
        None => None,
    }
}

impl View for Agent {
    type V = AgentView;

    closed spec fn view(&self) -> AgentView {
        AgentView {
            id: self.id@,
            key: self.key@,
            driver: self.driver,
            epoch: self.epoch,
            phase: self.phase,
            paused: self.paused,
            last_seen: self.last_seen,
            last_attempt: self.last_attempt,
            attempts: self.attempts,
            input: self.input,
            claim: maybe(self.claim),
            last_hook: self.last_hook@,
            head: head_view(self.head),
        }
    }
}

/// The parameters of a call, as a driver or the host sends them.
pub struct Params {
    pub key: Option<String>,
    pub driver: Option<String>,
    pub epoch: Option<u64>,
    pub event: Option<String>,
    pub delivery: Option<String>,
    pub active: bool,
    pub session: Option<String>,
}

pub struct ParamsView {
    pub key: Option<Seq<char>>,
    pub driver: Option<Seq<char>>,
    pub epoch: Option<u64>,
    pub event: Option<Seq<char>>,
    pub delivery: Option<Seq<char>>,
    pub active: bool,
    pub session: Option<Seq<char>>,
}

impl View for Params {
    type V = ParamsView;

    open spec fn view(&self) -> ParamsView {
        ParamsView {
            key: maybe(self.key),
            driver: maybe(self.driver),
            epoch: self.epoch,
            event: maybe(self.event),
            delivery: maybe(self.delivery),
            active: self.active,
            session: maybe(self.session),
        }
    }
}

/// How an integration stands.
#[derive(Clone, Copy, Debug, PartialEq, Eq, Structural)]
pub struct Standing {
    pub driver: Driver,
    pub epoch: u64,
    pub phase: Phase,
    pub health: Health,
    pub attempts: u8,
}

/// What a driver is to do.
#[derive(Clone, Copy, Debug, PartialEq, Eq)]
pub struct Decision {
    /// Go on working instead of stopping.
    pub proceed: bool,
    /// Tell the agent that its inbox holds something, in that way, as long as the
    /// terminal is at that revision.
    pub notify: Option<(Delivery, u64)>,
}

#[derive(Clone, Copy, Debug, PartialEq, Eq)]
pub enum Answer {
    /// How an integration stands; nothing where there is none.
    Standing(Option<Standing>),
    Registered { epoch: u64, driver: Driver },
    /// A registration that was made before.
    Known { epoch: u64 },
    /// A hook that was reported before.
    Repeated { proceed: bool },
    Decided { decision: Decision, standing: Standing },
}

pub struct Integrations {
    names: Names,
    states: Vec<Agent>,
    next_epoch: u64,
}

pub struct IntegrationsView {
    pub names: NamesView,
    pub states: Seq<AgentView>,
    pub next_epoch: u64,
}

impl View for Integrations {
    type V = IntegrationsView;

    closed spec fn view(&self) -> IntegrationsView {
        IntegrationsView {
            names: self.names@,
            states: self.states@.map_values(|a: Agent| a@),
            next_epoch: self.next_epoch,
        }
    }
}

// ---------------------------------------------------------------------------
// The model
// ---------------------------------------------------------------------------

/// The place of an agent.
pub open spec fn place(states: Seq<AgentView>, id: Seq<char>) -> Option<int>
    decreases states.len(),
{
    if states.len() == 0 {
        None
    } else {
        match place(states.drop_last(), id) {
            Some(i) => Some(i),
            None => if states.last().id == id {
                Some(states.len() - 1)
            } else {
                None
            },
        }
    }
}

pub open spec fn elapsed(now: u64, since: u64) -> int {
    if now >= since {
        now - since
    } else {
        0
    }
}

pub open spec fn health_of(a: AgentView, now: u64) -> Health {
    if a.paused {
        Health::Paused
    } else if elapsed(now, a.last_seen) > 5000 {
        Health::Degraded
    } else if a.attempts >= 3 {
        Health::Stalled
    } else {
        Health::Healthy
    }
}

pub open spec fn standing_of(a: AgentView, now: u64) -> Standing {
    Standing {
        driver: a.driver,
        epoch: a.epoch,
        phase: a.phase,
        health: health_of(a, now),
        attempts: a.attempts,
    }
}

pub open spec fn standing_at(s: IntegrationsView, id: Seq<char>, now: u64) -> Option<Standing> {
    match place(s.states, id) {
        Some(i) => Some(standing_of(s.states[i], now)),
        None => None,
    }
}

/// The driver of a name.
pub open spec fn driver_of(names: NamesView, name: Option<Seq<char>>) -> Option<Driver> {
    if name == Some(names.codex) {
        Some(Driver::Codex)
    } else if name == Some(names.claude) {
        Some(Driver::Claude)
    } else {
        None
    }
}

/// The message that an inbox has under work.
pub open spec fn claim_in(b: MailboxView, id: Seq<char>) -> Option<Seq<char>> {
    match first_where(b.messages, waits(id, State::Claimed)) {
        Some(i) => Some(b.messages[i].id),
        None => None,
    }
}

/// The message that is next in an inbox, and its generation.
pub open spec fn head_in(b: MailboxView, id: Seq<char>) -> Option<(Seq<char>, u64)> {
    match first_where(b.messages, at_hand(id)) {
        Some(i) => Some((b.messages[i].id, b.messages[i].claim_generation)),
        None => None,
    }
}

pub open spec fn has_work(b: MailboxView, id: Seq<char>) -> bool {
    queued(b.messages, id) > 0 || claim_in(b, id) is Some
}

pub open spec fn calm(a: AgentView) -> AgentView {
    AgentView { attempts: 0, last_attempt: 0, ..a }
}

/// Another message at the head of the inbox starts a new count of attempts.
pub open spec fn refreshed(a: AgentView, b: MailboxView) -> AgentView {
    if a.head != head_in(b, a.id) {
        AgentView { head: head_in(b, a.id), ..calm(a) }
    } else {
        a
    }
}

/// A hook that begins a turn or a session: new input starts a new count of attempts.
pub open spec fn begun(a: AgentView, phase: Phase, view: Observation) -> AgentView {
    let fresh = if a.input != view.input {
        calm(a)
    } else {
        a
    };
    AgentView { phase, input: view.input, ..fresh }
}

/// Whether a driver that is about to stop is to go on: something is in its
/// inbox that it was not reminded of, and no human is at the terminal.
pub open spec fn goes_on(a: AgentView, b: MailboxView, active: bool, view: Observation) -> bool {
    let claim = claim_in(b, a.id);
    &&& has_work(b, a.id)
    &&& !active
    &&& !(a.paused || interrupts(a, view))
    &&& !view.input_pending
    &&& claim is None || claim != a.claim
}

/// A human has interrupted since the last hook.
pub open spec fn interrupts(a: AgentView, view: Observation) -> bool {
    view.interrupted && view.input != a.input
}

pub open spec fn halted(a: AgentView, b: MailboxView, active: bool, view: Observation) -> AgentView {
    AgentView {
        paused: a.paused || interrupts(a, view),
        input: view.input,
        phase: if goes_on(a, b, active, view) {
            Phase::Working
        } else {
            Phase::Ready
        },
        claim: claim_in(b, a.id),
        ..a
    }
}

/// What a hook makes of an agent, or nothing for a hook that is not known.
pub open spec fn hooked(
    a: AgentView,
    b: MailboxView,
    event: Option<Seq<char>>,
    active: bool,
    view: Observation,
) -> Option<(AgentView, bool)> {
    if event == Some("SessionStart"@) {
        Some((begun(a, Phase::Starting, view), false))
    } else if event == Some("UserPromptSubmit"@) {
        Some((AgentView { paused: false, ..begun(a, Phase::Working, view) }, false))
    } else if event == Some("Stop"@) {
        Some((halted(a, b, active, view), goes_on(a, b, active, view)))
    } else {
        None
    }
}

/// An agent as it is after a tick, before any attempt to wake it.
pub open spec fn ticked(a: AgentView, b: MailboxView, notification: bool, view: Observation, now: u64) -> AgentView {
    AgentView {
        last_seen: now,
        paused: a.paused || (!notification && interrupts(a, view)),
        attempts: if has_work(b, a.id) {
            a.attempts
        } else {
            0
        },
        claim: if has_work(b, a.id) {
            a.claim
        } else {
            None
        },
        ..a
    }
}

/// Whether an agent may be woken now: there is something in its inbox, nobody
/// else is at its terminal, and fewer than three attempts have been made for
/// this message, the last of them at least half a minute ago.
pub open spec fn wakes(a: AgentView, b: MailboxView, notification: bool, view: Observation, now: u64) -> bool {
    &&& has_work(b, a.id)
    &&& !a.paused
    &&& notification || (view.ready && view.input == a.input)
    &&& a.phase == Phase::Starting || a.phase == Phase::Ready
    &&& !b.audit_failed
    &&& a.attempts < 3
    &&& a.last_attempt == 0 || elapsed(now, a.last_attempt) >= 30000
}

/// What comes of a call before the audit is asked.
pub enum CallView {
    Refuse(int, Seq<char>),
    Say(Answer),
    /// A new agent, if the audit takes it.
    Register(AgentView),
    /// An agent as it becomes, if the audit takes the event where there is one.
    Step { place: int, next: AgentView, decision: Decision, event: Option<Seq<char>> },
}

pub open spec fn target_of(actor: Seq<char>, p: ParamsView) -> Result<Seq<char>, (int, Seq<char>)> {
    if actor == "host"@ {
        match p.session {
            Some(s) => Ok(s),
            None => Err((-32602, "session required"@)),
        }
    } else if p.session is Some {
        Err((-32602, "own integration only"@))
    } else {
        Ok(actor)
    }
}

pub open spec fn registered(
    s: IntegrationsView,
    actor: Seq<char>,
    p: ParamsView,
    view: Observation,
    now: u64,
) -> CallView {
    if actor == "host"@ || driver_of(s.names, p.driver) is None {
        CallView::Refuse(-32602, "unsupported driver"@)
    } else if p.key is None {
        CallView::Refuse(-32602, "registration key required"@)
    } else if !is_identifier(p.key->0) {
        CallView::Refuse(-32602, "invalid key"@)
    } else {
        match place(s.states, actor) {
            Some(i) => if s.states[i].key == p.key->0 {
                CallView::Say(Answer::Known { epoch: s.states[i].epoch })
            } else {
                CallView::Refuse(-32009, "driver already registered"@)
            },
            None => CallView::Register(
                AgentView {
                    id: actor,
                    key: p.key->0,
                    driver: driver_of(s.names, p.driver)->0,
                    epoch: (s.next_epoch + 1) as u64,
                    phase: Phase::Starting,
                    paused: false,
                    last_seen: now,
                    last_attempt: 0,
                    attempts: 0,
                    input: view.input,
                    claim: None,
                    last_hook: Seq::empty(),
                    head: None,
                },
            ),
        }
    }
}

pub open spec fn quiet() -> Decision {
    Decision { proceed: false, notify: None }
}

pub open spec fn stepped(
    names: NamesView,
    a: AgentView,
    i: int,
    b: MailboxView,
    by_host: bool,
    method: Seq<char>,
    p: ParamsView,
    view: Observation,
    now: u64,
) -> CallView {
    let fresh = refreshed(a, b);
    if by_host {
        if method == "integration.pause"@ {
            CallView::Step {
                place: i,
                next: AgentView { paused: true, ..fresh },
                decision: quiet(),
                event: Some("integration.paused"@),
            }
        } else if method == "integration.resume"@ {
            CallView::Step {
                place: i,
                next: AgentView {
                    paused: false,
                    phase: Phase::Ready,
                    input: view.input,
                    ..calm(fresh)
                },
                decision: quiet(),
                event: Some("integration.resumed"@),
            }
        } else {
            CallView::Refuse(-32601, "host integration method unavailable"@)
        }
    } else if p.epoch != Some(a.epoch) {
        CallView::Refuse(-32009, "stale driver epoch"@)
    } else if method == "integration.check"@ {
        if p.key is None {
            CallView::Refuse(-32602, "hook key required"@)
        } else if p.key->0 == a.last_hook {
            CallView::Say(Answer::Repeated { proceed: a.phase == Phase::Working })
        } else if !is_identifier(p.key->0) {
            CallView::Refuse(-32602, "invalid key"@)
        } else {
            match hooked(fresh, b, p.event, p.active, view) {
                None => CallView::Refuse(-32602, "unsupported hook event"@),
                Some((next, proceed)) => CallView::Step {
                    place: i,
                    next: AgentView { last_hook: p.key->0, ..next },
                    decision: Decision { proceed, notify: None },
                    event: Some("integration.hook"@),
                },
            }
        }
    } else if method == "integration.tick"@ {
        let notification = p.delivery == Some("notification"@);
        if p.delivery is Some && !notification && p.delivery != Some("terminal"@) {
            CallView::Refuse(-32602, "unsupported delivery mode"@)
        } else if notification && a.driver != Driver::Claude {
            CallView::Refuse(
                -32602,
                "notification delivery requires "@ + capitalized(names.claude),
            )
        } else {
            let seen = ticked(fresh, b, notification, view, now);
            if wakes(seen, b, notification, view, now) {
                CallView::Step {
                    place: i,
                    next: AgentView {
                        attempts: (seen.attempts + 1) as u8,
                        last_attempt: now,
                        ..seen
                    },
                    decision: Decision {
                        proceed: false,
                        notify: Some(
                            (
                                if notification {
                                    Delivery::Notification
                                } else {
                                    Delivery::Terminal
                                },
                                view.revision,
                            ),
                        ),
                    },
                    event: Some("integration.wake_attempt"@),
                }
            } else {
                CallView::Step { place: i, next: seen, decision: quiet(), event: None }
            }
        }
    } else {
        CallView::Refuse(-32601, "integration method unavailable"@)
    }
}

/// What comes of a call before the audit is asked.
pub open spec fn called(
    s: IntegrationsView,
    b: MailboxView,
    actor: Seq<char>,
    method: Seq<char>,
    p: ParamsView,
    view: Observation,
    now: u64,
) -> CallView {
    match target_of(actor, p) {
        Err((code, message)) => CallView::Refuse(code, message),
        Ok(target) => if method == "integration.status"@ {
            CallView::Say(Answer::Standing(standing_at(s, target, now)))
        } else if method == "integration.register"@ {
            registered(s, actor, p, view, now)
        } else {
            match place(s.states, target) {
                None => CallView::Refuse(-32004, "integration absent"@),
                Some(i) => stepped(
                    s.names,
                    s.states[i],
                    i,
                    b,
                    actor == "host"@,
                    method,
                    p,
                    view,
                    now,
                ),
            }
        },
    }
}

/// What every call keeps: each agent once, at an epoch that was given out, with
/// at most three attempts for the message at the head of its inbox.
pub open spec fn kept(s: IntegrationsView) -> bool {
    &&& forall|i: int|
        0 <= i < s.states.len() ==> (#[trigger] s.states[i]).attempts <= 3 && s.states[i].epoch
            <= s.next_epoch
    &&& forall|i: int, j: int|
        0 <= i < j < s.states.len() ==> (#[trigger] s.states[i]).id != (#[trigger] s.states[j]).id
    &&& forall|i: int, j: int|
        0 <= i < j < s.states.len() ==> (#[trigger] s.states[i]).epoch < (
        #[trigger] s.states[j]).epoch
}

proof fn lemma_place(states: Seq<AgentView>, id: Seq<char>)
    ensures
        match place(states, id) {
            Some(i) => 0 <= i < states.len() && states[i].id == id && forall|j: int|
                0 <= j < i ==> (#[trigger] states[j]).id != id,
            None => forall|j: int| 0 <= j < states.len() ==> (#[trigger] states[j]).id != id,
        },
    decreases states.len(),
{
    if states.len() > 0 {
        let most = states.drop_last();
        lemma_place(most, id);
        assert forall|j: int| 0 <= j < most.len() implies most[j] == #[trigger] states[j] by {}
    }
}

// ---------------------------------------------------------------------------
// The integrations of a host
// ---------------------------------------------------------------------------

fn passed(now: u64, since: u64) -> (r: u64)
    ensures
        r == elapsed(now, since),
{
    if now >= since {
        now - since
    } else {
        0
    }
}

fn named(value: &Option<String>, name: &str) -> (r: bool)
    ensures
        r == (maybe(*value) == Some(name@)),
{
    match value {
        Some(s) => same(s.as_str(), name),
        None => false,
    }
}

fn same_head(a: &Option<(String, u64)>, b: &Option<(String, u64)>) -> (r: bool)
    ensures
        r == (head_view(*a) == head_view(*b)),
{
    match (a, b) {
        (Some((x, m)), Some((y, n))) => *m == *n && same(x.as_str(), y.as_str()),
        (None, None) => true,
        _ => false,
    }
}

fn copy_head(h: &Option<(String, u64)>) -> (r: Option<(String, u64)>)
    ensures
        r == *h,
{
    match h {
        Some((id, n)) => Some((id.clone(), *n)),
        None => None,
    }
}

impl Agent {
    fn copy(&self) -> (r: Agent)
        ensures
            r == *self,
    {
        Agent {
            id: self.id.clone(),
            key: self.key.clone(),
            driver: self.driver,
            epoch: self.epoch,
            phase: self.phase,
            paused: self.paused,
            last_seen: self.last_seen,
            last_attempt: self.last_attempt,
            attempts: self.attempts,
            input: self.input,
            claim: copy_option(&self.claim),
            last_hook: self.last_hook.clone(),
            head: copy_head(&self.head),
        }
    }

    fn standing(&self, now: u64) -> (r: Standing)
        ensures
            r == standing_of(self@, now),
    {
        let health = if self.paused {
            Health::Paused
        } else if passed(now, self.last_seen) > 5000 {
            Health::Degraded
        } else if self.attempts >= 3 {
            Health::Stalled
        } else {
            Health::Healthy
        };
        Standing {
            driver: self.driver,
            epoch: self.epoch,
            phase: self.phase,
            health,
            attempts: self.attempts,
        }
    }
}

/// The event of an integration: how the agent stands and what it is told, and
/// nothing of any message.
pub open spec fn note_shown(
    names: NamesView,
    next: AgentView,
    decision: Decision,
    hook: Option<Seq<char>>,
    revision: u64,
) -> Shown {
    let delivery = match decision.notify {
        Some((d, _)) => Shown::Text(delivery_name(d)),
        None => Shown::Nothing,
    };
    Shown::Fields(
        no_fields()
            .push(("driver"@, Shown::Text(driver_name(names, next.driver))))
            .push(("epoch"@, Shown::Number(next.epoch as int)))
            .push(("state"@, Shown::Text(phase_name(next.phase))))
            .push(("attempt"@, Shown::Number(next.attempts as int)))
            .push(("hook"@, maybe_text(hook)))
            .push(("continue"@, Shown::Flag(decision.proceed)))
            .push(("delivery"@, delivery))
            .push(("terminal_revision"@, Shown::Number(revision as int))),
    )
}

fn note(
    names: &Names,
    next: &Agent,
    decision: Decision,
    hook: &Option<String>,
    revision: u64,
) -> (r: Json)
    ensures
        shown(r) == note_shown(names@, next@, decision, maybe(*hook), revision),
{
    let delivery = match decision.notify {
        Some((Delivery::Terminal, _)) => Json::Text(String::from_str("terminal")),
        Some((Delivery::Notification, _)) => Json::Text(String::from_str("notification")),
        None => Json::Null,
    };
    let driver = names.text(next.driver);
    Fields::new()
        .text("driver", &driver)
        .number("epoch", next.epoch)
        .text("state", phase_text(next.phase))
        .number("attempt", next.attempts as u64)
        .maybe("hook", hook)
        .flag("continue", decision.proceed)
        .add("delivery", delivery)
        .number("terminal_revision", revision)
        .done()
}

/// What the log says of a registration.
pub open spec fn registration_shown(names: NamesView, driver: Driver, epoch: u64) -> Shown {
    Shown::Fields(
        no_fields()
            .push(("driver"@, Shown::Text(driver_name(names, driver))))
            .push(("epoch"@, Shown::Number(epoch as int))),
    )
}

/// What noting something of an integration leaves of the mailbox and of the log.
pub open spec fn reported(
    before: MailboxView,
    after: MailboxView,
    log: Seq<Handed>,
    longer: Seq<Handed>,
    actor: Seq<char>,
    kind: Seq<char>,
    said: Shown,
    now: u64,
    failure: Option<(int, Seq<char>)>,
) -> bool {
    exists|data: Json|
        shown(data) == said && #[trigger] record_done(
            before,
            after,
            log,
            longer,
            actor,
            kind,
            EventDataView::Note(data),
            now,
            failure,
        )
}

pub open spec fn driver_name(names: NamesView, d: Driver) -> Seq<char> {
    match d {
        Driver::Codex => names.codex,
        Driver::Claude => names.claude,
    }
}

pub open spec fn phase_name(p: Phase) -> Seq<char> {
    match p {
        Phase::Starting => "starting"@,
        Phase::Ready => "ready"@,
        Phase::Working => "working"@,
    }
}

pub open spec fn delivery_name(d: Delivery) -> Seq<char> {
    match d {
        Delivery::Terminal => "terminal"@,
        Delivery::Notification => "notification"@,
    }
}

impl Names {
    /// The name of a driver.
    pub fn text(&self, d: Driver) -> (r: String)
        ensures
            r@ == driver_name(self@, d),
    {
        match d {
            Driver::Codex => self.codex.clone(),
            Driver::Claude => self.claude.clone(),
        }
    }

    /// The driver of a name.
    pub fn driver(&self, name: &Option<String>) -> (r: Option<Driver>)
        ensures
            r == driver_of(self@, maybe(*name)),
    {
        if named(name, self.codex.as_str()) {
            Some(Driver::Codex)
        } else if named(name, self.claude.as_str()) {
            Some(Driver::Claude)
        } else {
            None
        }
    }
}

pub fn phase_text(p: Phase) -> (r: &'static str)
    ensures
        r@ == phase_name(p),
{
    match p {
        Phase::Starting => "starting",
        Phase::Ready => "ready",
        Phase::Working => "working",
    }
}

enum Planned {
    Refuse(Fault),
    Say(Answer),
    Register(Agent),
    Step { place: usize, next: Agent, decision: Decision, event: Option<&'static str> },
}

impl View for Planned {
    type V = CallView;

    closed spec fn view(&self) -> CallView {
        match self {
            Planned::Refuse(f) => CallView::Refuse(f.0 as int, f.1@),
            Planned::Say(a) => CallView::Say(*a),
            Planned::Register(a) => CallView::Register(a@),
            Planned::Step { place, next, decision, event } => CallView::Step {
                place: *place as int,
                next: next@,
                decision: *decision,
                event: match event {
                    Some(e) => Some(e@),
                    None => None,
                },
            },
        }
    }
}

/// A name as it stands in a sentence: its first letter is a capital.
pub open spec fn capitalized(name: Seq<char>) -> Seq<char> {
    if name.len() > 0 && 'a' <= name[0] && name[0] <= 'z' {
        name.update(0, ((name[0] as u8 - 32) as u8) as char)
    } else {
        name
    }
}

fn capitalize(name: &str) -> (r: String)
    ensures
        r@ == capitalized(name@),
{
    let c = chars(name);
    if c.len() > 0 && 'a' <= c[0] && c[0] <= 'z' {
        let mut r = String::new();
        r.push((c[0] as u8 - 32) as char);
        r.push_str(span(&c, 1, c.len()).as_str());
        assert(r@ =~= capitalized(name@));
        r
    } else {
        String::from_str(name)
    }
}

fn refuse(code: i32, message: &str) -> (r: Planned)
    ensures
        r@ == CallView::Refuse(code as int, message@),
{
    Planned::Refuse((code, String::from_str(message)))
}

fn plan_step(
    names: &Names,
    a: &Agent,
    place: usize,
    status: &Status,
    by_host: bool,
    method: &str,
    p: &Params,
    view: &Observation,
    now: u64,
    Ghost(b): Ghost<MailboxView>,
) -> (r: Planned)
    requires
        crate::mailbox::is_status(*status, b, a@.id),
        a@.attempts <= 3,
    ensures
        r@ == stepped(names@, a@, place as int, b, by_host, method@, p@, *view, now),
{
    let mut next = a.copy();
    if !same_head(&next.head, &status.head) {
        next.attempts = 0;
        next.last_attempt = 0;
        next.head = copy_head(&status.head);
    }
    assert(head_view(status.head) == head_in(b, a@.id));
    assert(maybe(status.claim) == claim_in(b, a@.id));
    assert(next@ == refreshed(a@, b));
    let work = status.queued > 0 || status.claim.is_some();
    if by_host {
        if same(method, "integration.pause") {
            next.paused = true;
            return Planned::Step {
                place,
                next,
                decision: Decision { proceed: false, notify: None },
                event: Some("integration.paused"),
            };
        }
        if same(method, "integration.resume") {
            next.paused = false;
            next.phase = Phase::Ready;
            next.attempts = 0;
            next.last_attempt = 0;
            next.input = view.input;
            return Planned::Step {
                place,
                next,
                decision: Decision { proceed: false, notify: None },
                event: Some("integration.resumed"),
            };
        }
        return refuse(-32601, "host integration method unavailable");
    }
    let current = match p.epoch {
        Some(epoch) => epoch == a.epoch,
        None => false,
    };
    if !current {
        return refuse(-32009, "stale driver epoch");
    }
    if same(method, "integration.check") {
        let key = match &p.key {
            Some(key) => key,
            None => {
                return refuse(-32602, "hook key required");
            },
        };
        if same(key.as_str(), a.last_hook.as_str()) {
            return Planned::Say(Answer::Repeated { proceed: a.phase == Phase::Working });
        }
        if !identifier(key.as_str()) {
            return refuse(-32602, "invalid key");
        }
        next.last_hook = key.clone();
        let mut proceed: bool = false;
        if named(&p.event, "SessionStart") {
            next.phase = Phase::Starting;
            if next.input != view.input {
                next.attempts = 0;
                next.last_attempt = 0;
            }
            next.input = view.input;
        } else if named(&p.event, "UserPromptSubmit") {
            next.phase = Phase::Working;
            next.paused = false;
            if next.input != view.input {
                next.attempts = 0;
                next.last_attempt = 0;
            }
            next.input = view.input;
        } else if named(&p.event, "Stop") {
            if view.interrupted && view.input != a.input {
                next.paused = true;
            }
            next.input = view.input;
            let remind = status.claim.is_none() || !same_option(&status.claim, &a.claim);
            proceed = work && !p.active && !next.paused && !view.input_pending && remind;
            next.phase = if proceed {
                Phase::Working
            } else {
                Phase::Ready
            };
            next.claim = copy_option(&status.claim);
        } else {
            return refuse(-32602, "unsupported hook event");
        }
        return Planned::Step {
            place,
            next,
            decision: Decision { proceed, notify: None },
            event: Some("integration.hook"),
        };
    }
    if same(method, "integration.tick") {
        let notification = named(&p.delivery, "notification");
        if p.delivery.is_some() && !notification && !named(&p.delivery, "terminal") {
            return refuse(-32602, "unsupported delivery mode");
        }
        if notification && a.driver != Driver::Claude {
            let mut message = String::from_str("notification delivery requires ");
            message.push_str(capitalize(names.claude.as_str()).as_str());
            return refuse(-32602, message.as_str());
        }
        next.last_seen = now;
        if !notification && view.interrupted && view.input != a.input {
            next.paused = true;
        }
        if !work {
            next.attempts = 0;
            next.claim = None;
        }
        let eligible = work && !next.paused && (notification || (view.ready && view.input
            == next.input)) && (next.phase == Phase::Starting || next.phase == Phase::Ready)
            && !status.audit_failed;
        if eligible && next.attempts < 3 && (next.last_attempt == 0 || passed(
            now,
            next.last_attempt,
        ) >= 30000) {
            next.attempts = next.attempts + 1;
            next.last_attempt = now;
            let delivery = if notification {
                Delivery::Notification
            } else {
                Delivery::Terminal
            };
            return Planned::Step {
                place,
                next,
                decision: Decision { proceed: false, notify: Some((delivery, view.revision)) },
                event: Some("integration.wake_attempt"),
            };
        }
        return Planned::Step {
            place,
            next,
            decision: Decision { proceed: false, notify: None },
            event: None,
        };
    }
    refuse(-32601, "integration method unavailable")
}

/// What a call leaves of the integrations, of the mailbox and of the log, and what it gives.
pub open spec fn call_done(
    s: IntegrationsView,
    t: IntegrationsView,
    before: MailboxView,
    after: MailboxView,
    log: Seq<Handed>,
    longer: Seq<Handed>,
    actor: Seq<char>,
    method: Seq<char>,
    p: ParamsView,
    view: Observation,
    now: u64,
    r: Result<Answer, Fault>,
) -> bool {
    &&& t.names == s.names
    &&& match called(s, before, actor, method, p, view, now) {
        CallView::Refuse(code, message) => {
            &&& is_fault(r, (code, message))
            &&& t == s
            &&& after == before
            &&& longer == log
        },
        CallView::Say(answer) => {
            &&& r == Ok::<Answer, Fault>(answer)
            &&& t == s
            &&& after == before
            &&& longer == log
        },
        CallView::Register(agent) => {
            &&& reported(
                before,
                after,
                log,
                longer,
                actor,
                "integration.registered"@,
                registration_shown(s.names, agent.driver, agent.epoch),
                now,
                failure_of(r),
            )
            &&& t.next_epoch == agent.epoch
            &&& match r {
                Ok(answer) => answer == (Answer::Registered {
                    epoch: agent.epoch,
                    driver: agent.driver,
                }) && t.states == s.states.push(agent),
                Err(_) => t.states == s.states,
            }
        },
        CallView::Step { place, next, decision, event } => {
            &&& t.next_epoch == s.next_epoch
            &&& match event {
                Some(kind) => reported(
                    before,
                    after,
                    log,
                    longer,
                    next.id,
                    kind,
                    note_shown(s.names, next, decision, p.event, view.revision),
                    now,
                    failure_of(r),
                ),
                None => after == before && longer == log && r is Ok,
            }
            &&& match r {
                Ok(answer) => answer == (Answer::Decided {
                    decision,
                    standing: standing_of(next, now),
                }) && t.states == s.states.update(place, next),
                Err(_) => t.states == s.states,
            }
        },
    }
}

impl Integrations {
    pub open spec fn wf(&self) -> bool {
        kept(self@)
    }

    pub fn new(names: Names) -> (r: Self)
        ensures
            r.wf(),
            r@ == (IntegrationsView { names: names@, states: Seq::empty(), next_epoch: 0 }),
    {
        let r = Integrations { names, states: Vec::new(), next_epoch: 0 };
        assert(r@.states =~= Seq::<AgentView>::empty());
        r
    }

    fn find(&self, id: &str) -> (r: Option<usize>)
        ensures
            match r {
                Some(i) => place(self@.states, id@) == Some(i as int) && i < self.states@.len()
                    && self@.states[i as int] == self.states@[i as int]@,
                None => place(self@.states, id@) is None,
            },
    {
        let ghost ss = self@.states;
        let mut i: usize = 0;
        while i < self.states.len()
            invariant
                ss == self@.states,
                i <= self.states@.len() == ss.len(),
                forall|j: int| 0 <= j < i ==> (#[trigger] ss[j]).id != id@,
            decreases self.states@.len() - i,
        {
            assert(ss[i as int] == self.states@[i as int]@);
            if same(self.states[i].id.as_str(), id) {
                proof {
                    lemma_place(ss, id@);
                }
                return Some(i);
            }
            i += 1;
        }
        proof {
            lemma_place(ss, id@);
        }
        None
    }

    /// How an integration stands.
    pub fn status(&self, actor: &str, now: u64) -> (r: Option<Standing>)
        ensures
            r == standing_at(self@, actor@, now),
    {
        match self.find(actor) {
            Some(i) => Some(self.states[i].standing(now)),
            None => None,
        }
    }

    fn plan(
        &self,
        actor: &str,
        method: &str,
        p: &Params,
        view: &Observation,
        now: u64,
        mailbox: &Mailbox,
    ) -> (r: Planned)
        requires
            kept(self@),
            self@.next_epoch < u64::MAX,
        ensures
            r@ == called(self@, mailbox@, actor@, method@, p@, *view, now),
    {
        let host = same(actor, "host");
        let target = if host {
            match &p.session {
                Some(s) => s.as_str(),
                None => {
                    return refuse(-32602, "session required");
                },
            }
        } else {
            if p.session.is_some() {
                return refuse(-32602, "own integration only");
            }
            actor
        };
        if same(method, "integration.status") {
            return Planned::Say(Answer::Standing(self.status(target, now)));
        }
        if same(method, "integration.register") {
            let driver = match self.names.driver(&p.driver) {
                Some(d) => d,
                None => {
                    return refuse(-32602, "unsupported driver");
                },
            };
            if host {
                return refuse(-32602, "unsupported driver");
            }
            let key = match &p.key {
                Some(key) => key,
                None => {
                    return refuse(-32602, "registration key required");
                },
            };
            if !identifier(key.as_str()) {
                return refuse(-32602, "invalid key");
            }
            return match self.find(actor) {
                Some(i) => if same(self.states[i].key.as_str(), key.as_str()) {
                    Planned::Say(Answer::Known { epoch: self.states[i].epoch })
                } else {
                    refuse(-32009, "driver already registered")
                },
                None => Planned::Register(
                    Agent {
                        id: String::from_str(actor),
                        key: key.clone(),
                        driver,
                        epoch: self.next_epoch + 1,
                        phase: Phase::Starting,
                        paused: false,
                        last_seen: now,
                        last_attempt: 0,
                        attempts: 0,
                        input: view.input,
                        claim: None,
                        last_hook: String::new(),
                        head: None,
                    },
                ),
            };
        }
        proof {
            lemma_place(self@.states, target@);
        }
        match self.find(target) {
            None => refuse(-32004, "integration absent"),
            Some(i) => {
                let status = mailbox.status(target);
                plan_step(
                    &self.names,
                    &self.states[i],
                    i,
                    &status,
                    host,
                    method,
                    p,
                    view,
                    now,
                    Ghost(mailbox@),
                )
            },
        }
    }

    /// Whether another agent can be told apart from those before it.
    pub fn has_epochs(&self) -> (r: bool)
        ensures
            r == (self@.next_epoch < u64::MAX),
    {
        self.next_epoch < u64::MAX
    }

    /// The names by which the host knows the drivers.
    pub fn names(&self) -> (r: &Names)
        ensures
            r@ == self@.names,
    {
        &self.names
    }

    /// A call of a driver for its own agent, or of the host for any.
    pub fn call<A: Audit>(
        &mut self,
        actor: &str,
        method: &str,
        p: &Params,
        view: &Observation,
        now: u64,
        mailbox: &mut Mailbox,
        audit: &mut A,
    ) -> (r: Result<Answer, Fault>)
        requires
            old(self).wf(),
            old(self)@.next_epoch < u64::MAX,
            old(mailbox).wf(),
        ensures
            final(self).wf(),
            final(mailbox).wf(),
            call_done(
                old(self)@,
                final(self)@,
                old(mailbox)@,
                final(mailbox)@,
                old(audit).log(),
                final(audit).log(),
                actor@,
                method@,
                p@,
                *view,
                now,
                r,
            ),
    {
        let ghost before = self@;
        match self.plan(actor, method, p, view, now, mailbox) {
            Planned::Refuse(f) => Err(f),
            Planned::Say(a) => Ok(a),
            Planned::Register(agent) => {
                self.next_epoch = agent.epoch;
                assert(self@.states == before.states);
                proof {
                    lemma_place(before.states, actor@);
                }
                let driver = self.names.text(agent.driver);
                let data = Fields::new().text("driver", &driver).number("epoch", agent.epoch).done();
                let ghost said = data;
                let ghost noted = EventData::Note(data);
                let done = mailbox.record(
                    actor,
                    "integration.registered",
                    EventData::Note(data),
                    now,
                    audit,
                );
                assert(noted@ == EventDataView::Note(said));
                match done {
                    Err(f) => Err(f),
                    Ok(()) => {
                        let answer = Answer::Registered {
                            epoch: agent.epoch,
                            driver: agent.driver,
                        };
                        self.states.push(agent);
                        assert(self@.states =~= before.states.push(agent@));
                        Ok(answer)
                    },
                }
            },
            Planned::Step { place, next, decision, event } => {
                let target = next.id.clone();
                proof {
                    lemma_step_keeps(before, mailbox@, actor@, method@, p@, *view, now);
                }
                if let Some(kind) = event {
                    let data = note(&self.names, &next, decision, &p.event, view.revision);
                    match mailbox.record(target.as_str(), kind, EventData::Note(data), now, audit) {
                        Err(f) => {
                            return Err(f);
                        },
                        Ok(()) => {},
                    }
                }
                let standing = next.standing(now);
                self.states.set(place, next);
                assert(self@.states =~= before.states.update(place as int, next@));
                Ok(Answer::Decided { decision, standing })
            },
        }
    }
}

proof fn lemma_step_keeps(
    s: IntegrationsView,
    b: MailboxView,
    actor: Seq<char>,
    method: Seq<char>,
    p: ParamsView,
    view: Observation,
    now: u64,
)
    requires
        kept(s),
        called(s, b, actor, method, p, view, now) is Step,
    ensures
        called(s, b, actor, method, p, view, now) matches CallView::Step { place: i, next, .. } && {
            &&& 0 <= i < s.states.len()
            &&& next.id == s.states[i].id
            &&& next.epoch == s.states[i].epoch
            &&& next.attempts <= 3
            &&& kept(IntegrationsView { states: s.states.update(i, next), ..s })
        },
{
    let target = target_of(actor, p)->Ok_0;
    lemma_place(s.states, target);
    let i = place(s.states, target)->0;
    let next = called(s, b, actor, method, p, view, now)->next;
    let t = IntegrationsView { states: s.states.update(i, next), ..s };
    assert(s.states[i].attempts <= 3);
    assert forall|j: int, k: int| 0 <= j < k < t.states.len() implies (#[trigger] t.states[j]).id
        != (#[trigger] t.states[k]).id by {
        assert(s.states[j].id != s.states[k].id);
    }
    assert forall|j: int, k: int| 0 <= j < k < t.states.len() implies (#[trigger] t.states[j]).epoch
        < (#[trigger] t.states[k]).epoch by {
        assert(s.states[j].epoch < s.states[k].epoch);
    }
}

/// Telling an agent of its inbox changes no message and claims none, whatever is called for.
pub proof fn telling_an_agent_claims_nothing(
    s: IntegrationsView,
    t: IntegrationsView,
    before: MailboxView,
    after: MailboxView,
    log: Seq<Handed>,
    longer: Seq<Handed>,
    actor: Seq<char>,
    method: Seq<char>,
    p: ParamsView,
    view: Observation,
    now: u64,
    r: Result<Answer, Fault>,
)
    requires
        call_done(s, t, before, after, log, longer, actor, method, p, view, now, r),
    ensures
        after.messages == before.messages,
        after.receipts == before.receipts,
{
}

/// Two messages that differ in nothing but their bodies.
pub open spec fn same_but_body(m: MessageView, n: MessageView) -> bool {
    m == (MessageView { body: m.body, ..n })
}

/// Two mailboxes whose messages differ in nothing but their bodies.
pub open spec fn same_but_bodies(a: MailboxView, b: MailboxView) -> bool {
    &&& a.messages.len() == b.messages.len()
    &&& forall|i: int|
        0 <= i < a.messages.len() ==> same_but_body(#[trigger] a.messages[i], b.messages[i])
    &&& a == (MailboxView { messages: a.messages, receipts: a.receipts, ..b })
}

/// Two events that say the same.
pub open spec fn events_alike(a: EventView, b: EventView) -> bool {
    &&& a == (EventView { data: a.data, ..b })
    &&& a.data matches EventDataView::Note(x) && (b.data matches EventDataView::Note(y) && shown(x)
        == shown(y))
}

/// What is handed to an audit in one log and in another is the same.
pub open spec fn handed_alike(
    log: Seq<Handed>,
    longer: Seq<Handed>,
    journal: Seq<Handed>,
    fuller: Seq<Handed>,
) -> bool {
    &&& longer.len() - log.len() == fuller.len() - journal.len()
    &&& longer.len() > log.len() ==> {
        &&& longer.len() == log.len() + 1
        &&& events_alike(longer.last().event, fuller.last().event)
        &&& longer.last().reserved == fuller.last().reserved
    }
}

proof fn lemma_first_alike(
    ms: Seq<MessageView>,
    ns: Seq<MessageView>,
    f: spec_fn(MessageView) -> bool,
)
    requires
        ms.len() == ns.len(),
        forall|i: int| 0 <= i < ms.len() ==> same_but_body(#[trigger] ms[i], ns[i]),
        forall|m: MessageView, n: MessageView| #[trigger]
            same_but_body(m, n) ==> f(m) == f(n),
    ensures
        first_where(ms, f) == first_where(ns, f),
        first_where(ms, f) matches Some(i) ==> 0 <= i < ms.len(),
    decreases ms.len(),
{
    if ms.len() > 0 {
        let (a, b) = (ms.drop_last(), ns.drop_last());
        assert forall|i: int| 0 <= i < a.len() implies same_but_body(#[trigger] a[i], b[i]) by {
            assert(same_but_body(ms[i], ns[i]));
        }
        lemma_first_alike(a, b, f);
        assert(same_but_body(ms[ms.len() - 1], ns[ms.len() - 1]));
    }
}

proof fn lemma_counts_alike(ms: Seq<MessageView>, ns: Seq<MessageView>, id: Seq<char>)
    requires
        ms.len() == ns.len(),
        forall|i: int| 0 <= i < ms.len() ==> same_but_body(#[trigger] ms[i], ns[i]),
    ensures
        queued(ms, id) == queued(ns, id),
        unresolved(ms) == unresolved(ns),
    decreases ms.len(),
{
    if ms.len() > 0 {
        let (a, b) = (ms.drop_last(), ns.drop_last());
        assert forall|i: int| 0 <= i < a.len() implies same_but_body(#[trigger] a[i], b[i]) by {
            assert(same_but_body(ms[i], ns[i]));
        }
        lemma_counts_alike(a, b, id);
        assert(same_but_body(ms[ms.len() - 1], ns[ms.len() - 1]));
    }
}

/// What an agent's inbox tells of itself does not depend on bodies.
proof fn lemma_inbox_alike(a: MailboxView, b: MailboxView, id: Seq<char>)
    requires
        same_but_bodies(a, b),
    ensures
        claim_in(a, id) == claim_in(b, id),
        head_in(a, id) == head_in(b, id),
        has_work(a, id) == has_work(b, id),
{
    let (ms, ns) = (a.messages, b.messages);
    lemma_first_alike(ms, ns, waits(id, State::Claimed));
    lemma_first_alike(ms, ns, at_hand(id));
    lemma_counts_alike(ms, ns, id);
    if let Some(i) = first_where(ms, waits(id, State::Claimed)) {
        assert(same_but_body(ms[i], ns[i]));
    }
    if let Some(i) = first_where(ms, at_hand(id)) {
        assert(same_but_body(ms[i], ns[i]));
    }
}

proof fn lemma_lookup_alike(f: Seq<(String, Json)>, g: Seq<(String, Json)>, key: Seq<char>)
    requires
        f.len() == g.len(),
        forall|i: int|
            0 <= i < f.len() ==> (#[trigger] f[i]).0@ == g[i].0@ && shown(f[i].1) == shown(g[i].1),
    ensures
        match (lookup(f, key), lookup(g, key)) {
            (Some(x), Some(y)) => shown(x) == shown(y),
            (None, None) => true,
            _ => false,
        },
    decreases f.len(),
{
    if f.len() > 0 {
        assert(f[0].0@ == g[0].0@);
        assert forall|i: int| 0 <= i < f.drop_first().len() implies (
        #[trigger] f.drop_first()[i]).0@ == g.drop_first()[i].0@ && shown(f.drop_first()[i].1)
            == shown(g.drop_first()[i].1) by {
            assert(f[i + 1].0@ == g[i + 1].0@);
        }
        lemma_lookup_alike(f.drop_first(), g.drop_first(), key);
    }
}

/// Values that say the same have the same text under a name.
proof fn lemma_text_alike(x: Json, y: Json, key: Seq<char>)
    requires
        shown(x) == shown(y),
    ensures
        text_at(x, key) == text_at(y, key),
{
    let (f, g) = (x.fields(), y.fields());
    if x is Object {
        let (a, b) = (shown(x)->Fields_0, shown(y)->Fields_0);
        assert(a.len() == f.len() && b.len() == g.len());
        assert forall|i: int| 0 <= i < f.len() implies (#[trigger] f[i]).0@ == g[i].0@ && shown(
            f[i].1,
        ) == shown(g[i].1) by {
            assert(a[i] == (f[i].0@, shown(f[i].1)));
            assert(b[i] == (g[i].0@, shown(g[i].1)));
        }
        lemma_lookup_alike(f, g, key);
    }
}

proof fn lemma_reported_alike(
    before: MailboxView,
    after: MailboxView,
    log: Seq<Handed>,
    longer: Seq<Handed>,
    other: MailboxView,
    later: MailboxView,
    journal: Seq<Handed>,
    fuller: Seq<Handed>,
    actor: Seq<char>,
    kind: Seq<char>,
    said: Shown,
    now: u64,
    failure: Option<(int, Seq<char>)>,
    outcome: Option<(int, Seq<char>)>,
)
    requires
        same_but_bodies(before, other),
        reported(before, after, log, longer, actor, kind, said, now, failure),
        reported(other, later, journal, fuller, actor, kind, said, now, outcome),
        longer.len() > log.len() && fuller.len() > journal.len() ==> longer.last().verdict
            == fuller.last().verdict,
    ensures
        handed_alike(log, longer, journal, fuller),
        failure == outcome,
        same_but_bodies(after, later),
{
    let x = choose|data: Json|
        shown(data) == said && #[trigger] record_done(
            before,
            after,
            log,
            longer,
            actor,
            kind,
            EventDataView::Note(data),
            now,
            failure,
        );
    let y = choose|data: Json|
        shown(data) == said && #[trigger] record_done(
            other,
            later,
            journal,
            fuller,
            actor,
            kind,
            EventDataView::Note(data),
            now,
            outcome,
        );
    lemma_text_alike(x, y, "message"@);
    lemma_counts_alike(before.messages, other.messages, actor);
    if let Some(id) = text_at(x, "message"@) {
        lemma_first_alike(before.messages, other.messages, has_id(id));
        if let Some(i) = first_where(before.messages, has_id(id)) {
            assert(same_but_body(before.messages[i], other.messages[i]));
        }
    }
}

/// What comes of a call before the audit is asked does not depend on bodies.
proof fn lemma_called_alike(
    s: IntegrationsView,
    a: MailboxView,
    b: MailboxView,
    actor: Seq<char>,
    method: Seq<char>,
    p: ParamsView,
    view: Observation,
    now: u64,
)
    requires
        same_but_bodies(a, b),
    ensures
        called(s, a, actor, method, p, view, now) == called(s, b, actor, method, p, view, now),
{
    if let Ok(target) = target_of(actor, p) {
        if let Some(i) = place(s.states, target) {
            lemma_inbox_alike(a, b, s.states[i].id);
        }
    }
}

/// What an agent is told, and what is recorded of it, carries nothing of a message's body:
/// with other bodies in the mailbox, and an audit that says the same, everything is as it
/// was.
pub proof fn telling_an_agent_carries_no_body(
    s: IntegrationsView,
    t: IntegrationsView,
    u: IntegrationsView,
    before: MailboxView,
    after: MailboxView,
    log: Seq<Handed>,
    longer: Seq<Handed>,
    other: MailboxView,
    later: MailboxView,
    journal: Seq<Handed>,
    fuller: Seq<Handed>,
    actor: Seq<char>,
    method: Seq<char>,
    p: ParamsView,
    view: Observation,
    now: u64,
    r: Result<Answer, Fault>,
    q: Result<Answer, Fault>,
)
    requires
        same_but_bodies(before, other),
        call_done(s, t, before, after, log, longer, actor, method, p, view, now, r),
        call_done(s, u, other, later, journal, fuller, actor, method, p, view, now, q),
        longer.len() > log.len() && fuller.len() > journal.len() ==> longer.last().verdict
            == fuller.last().verdict,
    ensures
        t == u,
        failure_of(r) == failure_of(q),
        r matches Ok(answer) ==> q == Ok::<Answer, Fault>(answer),
        handed_alike(log, longer, journal, fuller),
        same_but_bodies(after, later),
{
    lemma_called_alike(s, before, other, actor, method, p, view, now);
    match called(s, before, actor, method, p, view, now) {
        CallView::Register(agent) => {
            lemma_reported_alike(
                before,
                after,
                log,
                longer,
                other,
                later,
                journal,
                fuller,
                actor,
                "integration.registered"@,
                registration_shown(s.names, agent.driver, agent.epoch),
                now,
                failure_of(r),
                failure_of(q),
            );
        },
        CallView::Step { next, decision, event: Some(kind), .. } => {
            lemma_reported_alike(
                before,
                after,
                log,
                longer,
                other,
                later,
                journal,
                fuller,
                next.id,
                kind,
                note_shown(s.names, next, decision, p.event, view.revision),
                now,
                failure_of(r),
                failure_of(q),
            );
        },
        _ => {},
    }
}

/// An agent is woken at most three times for one message at the head of its
/// inbox: an attempt is made only where fewer were counted, and counts. Two
/// attempts for it are at least half a minute apart.
pub proof fn wake_attempts_are_bounded(
    s: IntegrationsView,
    b: MailboxView,
    actor: Seq<char>,
    method: Seq<char>,
    p: ParamsView,
    view: Observation,
    now: u64,
)
    requires
        kept(s),
        called(s, b, actor, method, p, view, now) matches CallView::Step { decision, .. }
            && decision.notify is Some,
    ensures
        called(s, b, actor, method, p, view, now) matches CallView::Step { place: i, next, .. } && {
            let a = s.states[i];
            &&& next.attempts <= 3
            &&& next.last_attempt == now
            &&& a.head == head_in(b, a.id) ==> {
                &&& next.attempts == a.attempts + 1
                &&& a.last_attempt == 0 || elapsed(now, a.last_attempt) >= 30000
            }
        },
{
    lemma_place(s.states, target_of(actor, p)->Ok_0);
}

/// Whoever types at a terminal keeps it: an agent is told through its terminal
/// only while nothing was typed since the last hook, the terminal shows an
/// empty prompt, and the agent is neither paused nor at work.
pub proof fn a_human_at_the_terminal_is_not_disturbed(
    s: IntegrationsView,
    b: MailboxView,
    actor: Seq<char>,
    method: Seq<char>,
    p: ParamsView,
    view: Observation,
    now: u64,
)
    requires
        called(s, b, actor, method, p, view, now) matches CallView::Step { decision, .. }
            && decision.notify matches Some((Delivery::Terminal, _)),
    ensures
        called(s, b, actor, method, p, view, now) matches CallView::Step { place: i, .. } && {
            let a = s.states[i];
            &&& view.ready
            &&& view.input == a.input
            &&& !a.paused
            &&& a.phase != Phase::Working
        },
{
}

/// An agent is told of its inbox only where it holds something and the audit
/// has taken every event so far.
pub proof fn an_agent_is_told_only_of_work(
    s: IntegrationsView,
    b: MailboxView,
    actor: Seq<char>,
    method: Seq<char>,
    p: ParamsView,
    view: Observation,
    now: u64,
)
    requires
        called(s, b, actor, method, p, view, now) matches CallView::Step { decision, .. } && (
        decision.notify is Some || decision.proceed),
    ensures
        called(s, b, actor, method, p, view, now) matches CallView::Step {
            place: i,
            decision,
            ..
        } && has_work(b, s.states[i].id) && (decision.notify is Some ==> !b.audit_failed),
{
}

// ---------------------------------------------------------------------------
// When an agent is told
// ---------------------------------------------------------------------------

/// A message waits for an agent, or is worked on by it.
pub open spec fn is_work(b: MailboxView, id: Seq<char>, k: int) -> bool {
    &&& 0 <= k < b.messages.len() && b.messages[k].recipient == id
    &&& b.messages[k].state == State::Queued || b.messages[k].state == State::Claimed
}

/// There is work for an agent exactly where a message waits for it or is worked on by it.
pub proof fn work_is_a_message(b: MailboxView, id: Seq<char>)
    ensures
        has_work(b, id) <==> exists|k: int| #[trigger] is_work(b, id, k),
{
    let claimed = waits(id, State::Claimed);
    lemma_first_where(b.messages, claimed);
    lemma_queued(b.messages, id);
    if has_work(b, id) {
        if queued(b.messages, id) > 0 {
            let k = choose|k: int|
                0 <= k < b.messages.len() && (#[trigger] b.messages[k]).recipient == id
                    && b.messages[k].state == State::Queued;
            assert(is_work(b, id, k));
        } else {
            let k = first_where(b.messages, claimed)->0;
            assert(claimed(b.messages[k]));
            assert(is_work(b, id, k));
        }
    }
    if exists|k: int| #[trigger] is_work(b, id, k) {
        let k = choose|k: int| #[trigger] is_work(b, id, k);
        if b.messages[k].state == State::Claimed {
            assert(claimed(b.messages[k]));
            assert(first_where(b.messages, claimed) is Some);
        }
    }
}

proof fn lemma_queued(ms: Seq<MessageView>, id: Seq<char>)
    ensures
        queued(ms, id) > 0 <==> exists|k: int|
            0 <= k < ms.len() && (#[trigger] ms[k]).recipient == id && ms[k].state
                == State::Queued,
    decreases ms.len(),
{
    if ms.len() > 0 {
        let most = ms.drop_last();
        lemma_queued(most, id);
        if queued(most, id) > 0 {
            let k = choose|k: int|
                0 <= k < most.len() && (#[trigger] most[k]).recipient == id && most[k].state
                    == State::Queued;
            assert(ms[k] == most[k]);
        }
        if exists|k: int|
            0 <= k < ms.len() && (#[trigger] ms[k]).recipient == id && ms[k].state
                == State::Queued {
            let k = choose|k: int|
                0 <= k < ms.len() && (#[trigger] ms[k]).recipient == id && ms[k].state
                    == State::Queued;
            if k < most.len() {
                assert(most[k] == ms[k]);
            }
        }
    }
}

/// An agent that waits is told of its work: once its terminal is ready and nobody typed, if it
/// is not paused, was not told three times already, and not within the last half minute.
pub proof fn a_waiting_agent_is_told_of_its_work(
    names: NamesView,
    a: AgentView,
    i: int,
    b: MailboxView,
    p: ParamsView,
    view: Observation,
    now: u64,
    k: int,
)
    requires
        is_work(b, a.id, k),
        a.head == head_in(b, a.id),
        p.epoch == Some(a.epoch),
        p.delivery is None,
        !a.paused,
        view.ready,
        view.input == a.input,
        a.phase == Phase::Starting || a.phase == Phase::Ready,
        !b.audit_failed,
        a.attempts < 3,
        a.last_attempt == 0 || now - a.last_attempt >= 30000,
    ensures
        stepped(names, a, i, b, false, "integration.tick"@, p, view, now) matches CallView::Step {
            place,
            next,
            decision,
            event,
        } && place == i && decision.notify == Some((Delivery::Terminal, view.revision))
            && next.attempts == a.attempts + 1 && next.last_attempt == now && next.last_seen == now
            && event == Some("integration.wake_attempt"@),
{
    work_is_a_message(b, a.id);
    reveal_strlit("integration.check");
    reveal_strlit("integration.tick");
    assert("integration.check"@.len() == 17 && "integration.tick"@.len() == 16);
}

/// An agent is not told while it is paused, works, has nothing to do, or cannot be recorded.
pub proof fn nobody_is_told_in_vain(
    names: NamesView,
    a: AgentView,
    i: int,
    b: MailboxView,
    p: ParamsView,
    view: Observation,
    now: u64,
)
    requires
        a.paused || a.phase == Phase::Working || b.audit_failed || forall|k: int|
            !#[trigger] is_work(b, a.id, k),
    ensures
        stepped(names, a, i, b, false, "integration.tick"@, p, view, now) matches CallView::Step {
            decision,
            ..
        } ==> decision.notify is None,
{
    work_is_a_message(b, a.id);
    reveal_strlit("integration.check");
    reveal_strlit("integration.tick");
    assert("integration.check"@.len() == 17 && "integration.tick"@.len() == 16);
}

/// An agent that stops goes on where there is new work for it, unless it is paused, was
/// interrupted, is being typed to, or goes on already.
pub proof fn an_agent_goes_on_with_new_work(
    a: AgentView,
    b: MailboxView,
    active: bool,
    view: Observation,
)
    ensures
        hooked(a, b, Some("Stop"@), active, view) matches Some((next, proceed)) && (proceed <==> ((
        exists|k: int| #[trigger] is_work(b, a.id, k)) && !active && !a.paused && !(view.interrupted
            && view.input != a.input) && !view.input_pending && (claim_in(b, a.id) is None
            || claim_in(b, a.id) != a.claim))) && next.phase == (if proceed {
            Phase::Working
        } else {
            Phase::Ready
        }) && next.paused == (a.paused || (view.interrupted && view.input != a.input)) && next.claim
            == claim_in(b, a.id),
{
    work_is_a_message(b, a.id);
    reveal_strlit("Stop");
    reveal_strlit("SessionStart");
    reveal_strlit("UserPromptSubmit");
    assert("Stop"@.len() == 4 && "SessionStart"@.len() == 12 && "UserPromptSubmit"@.len() == 16);
}

/// A prompt that a person sends sets an agent to work and ends its pause.
pub proof fn a_prompt_ends_a_pause(a: AgentView, b: MailboxView, active: bool, view: Observation)
    ensures
        hooked(a, b, Some("UserPromptSubmit"@), active, view) matches Some((next, proceed))
            && !proceed && !next.paused && next.phase == Phase::Working && next.input == view.input,
        hooked(a, b, Some("SessionStart"@), active, view) matches Some((next, proceed)) && !proceed
            && next.phase == Phase::Starting && next.paused == a.paused,
{
    reveal_strlit("Stop");
    reveal_strlit("SessionStart");
    reveal_strlit("UserPromptSubmit");
    assert("Stop"@.len() == 4 && "SessionStart"@.len() == 12 && "UserPromptSubmit"@.len() == 16);
}

/// The host pauses an agent and lets it go on; then it may be told anew.
pub proof fn a_host_pauses_and_resumes(
    names: NamesView,
    a: AgentView,
    i: int,
    b: MailboxView,
    p: ParamsView,
    view: Observation,
    now: u64,
)
    ensures
        stepped(names, a, i, b, true, "integration.pause"@, p, view, now) matches CallView::Step {
            next,
            decision,
            event,
            ..
        } && next.paused && decision.notify is None && event == Some("integration.paused"@),
        stepped(names, a, i, b, true, "integration.resume"@, p, view, now) matches CallView::Step {
            next,
            decision,
            event,
            ..
        } && !next.paused && next.phase == Phase::Ready && next.attempts == 0 && next.last_attempt
            == 0 && decision.notify is None && event == Some("integration.resumed"@),
{
    reveal_strlit("integration.pause");
    reveal_strlit("integration.resume");
    assert("integration.pause"@.len() == 17 && "integration.resume"@.len() == 18);
}

/// A step of an old registration is refused.
pub proof fn an_old_registration_is_refused(
    names: NamesView,
    a: AgentView,
    i: int,
    b: MailboxView,
    method: Seq<char>,
    p: ParamsView,
    view: Observation,
    now: u64,
)
    requires
        p.epoch != Some(a.epoch),
    ensures
        stepped(names, a, i, b, false, method, p, view, now) == CallView::Refuse(
            -32009,
            "stale driver epoch"@,
        ),
{
}

/// An agent that was not heard of for five seconds is degraded, one that was told three times
/// in vain is stalled, a paused one is paused, and every other one is well.
pub proof fn health_is_what_was_seen(a: AgentView, now: u64)
    ensures
        a.paused ==> health_of(a, now) == Health::Paused,
        (!a.paused && now - a.last_seen > 5000) ==> health_of(a, now) == Health::Degraded,
        (!a.paused && now - a.last_seen <= 5000 && a.attempts >= 3) ==> health_of(a, now)
            == Health::Stalled,
        (!a.paused && now - a.last_seen <= 5000 && a.attempts < 3) ==> health_of(a, now)
            == Health::Healthy,
{
}

/// An agent registers once, under a new number; asking again under the same key gives that number
/// back, and another key is refused.
pub proof fn an_agent_registers_once(
    s: IntegrationsView,
    actor: Seq<char>,
    p: ParamsView,
    view: Observation,
    now: u64,
    key: Seq<char>,
)
    requires
        actor != "host"@,
        driver_of(s.names, p.driver) is Some,
        p.key == Some(key),
        is_identifier(key),
    ensures
        place(s.states, actor) matches Some(i) ==> registered(s, actor, p, view, now) == (
        if s.states[i].key == key {
            CallView::Say(Answer::Known { epoch: s.states[i].epoch })
        } else {
            CallView::Refuse(-32009, "driver already registered"@)
        }),
        place(s.states, actor) is None ==> (registered(s, actor, p, view, now) matches
            CallView::Register(a) && a.id == actor && a.key == key && a.epoch == (s.next_epoch
            + 1) as u64 && !a.paused && a.attempts == 0 && a.phase == Phase::Starting && a.last_seen
            == now && a.input == view.input),
{
}

/// An agent is found by its id.
pub proof fn a_registered_agent_is_found(states: Seq<AgentView>, id: Seq<char>)
    ensures
        match place(states, id) {
            Some(i) => 0 <= i < states.len() && states[i].id == id && forall|j: int|
                0 <= j < i ==> (#[trigger] states[j]).id != id,
            None => forall|j: int| 0 <= j < states.len() ==> (#[trigger] states[j]).id != id,
        },
    decreases states.len(),
{
    if states.len() > 0 {
        let most = states.drop_last();
        a_registered_agent_is_found(most, id);
        assert(forall|j: int| 0 <= j < most.len() ==> states[j] == #[trigger] most[j]);
        match place(states, id) {
            Some(i) => {
                assert forall|j: int| 0 <= j < i implies (#[trigger] states[j]).id != id by {
                    assert(most[j] == states[j]);
                }
            },
            None => {
                assert forall|j: int| 0 <= j < states.len() implies (#[trigger] states[j]).id
                    != id by {
                    if j < most.len() {
                        assert(most[j] == states[j]);
                    }
                }
            },
        }
    }
}

} // verus!
