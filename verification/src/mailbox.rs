//! The mailbox of a host: which message an agent works on, and what every
//! accepted operation leaves behind.
//!
//! The caller supplies the authenticated actor and the host's own directory of
//! sessions. A transition is published only after the audit has taken its event.
use vstd::prelude::*;

use crate::directory::{
    absent, entry, fault, is_absent, is_live, live, resolve, resolved, Directory, Fault,
    SessionView,
};
use crate::json::Json;
use crate::messages::{text_at, Message, MessageView, Mutation, MutationView, State};
use crate::text::{
    chars, decimal, decimal_of, digit, is_digit, lemma_decimal_injective, same, texts,
};

verus! {

pub open spec fn is_conflict() -> (int, Seq<char>) {
    (-32009, "stale or conflicting operation"@)
}

pub open spec fn is_capacity() -> (int, Seq<char>) {
    (-32010, "mailbox capacity reached"@)
}

pub open spec fn is_unaudited() -> (int, Seq<char>) {
    (-32009, "mailbox audit unavailable"@)
}

fn conflict() -> (r: Fault)
    ensures
        fault(r) == is_conflict(),
{
    (-32009, String::from_str("stale or conflicting operation"))
}

fn capacity() -> (r: Fault)
    ensures
        fault(r) == is_capacity(),
{
    (-32010, String::from_str("mailbox capacity reached"))
}

fn unaudited() -> (r: Fault)
    ensures
        fault(r) == is_unaudited(),
{
    (-32009, String::from_str("mailbox audit unavailable"))
}

/// How much a mailbox holds.
#[derive(Clone, Copy, Debug)]
pub struct Limits {
    pub messages: usize,
    pub operations: usize,
    pub inbox: usize,
}

impl Default for Limits {
    fn default() -> (r: Self)
        ensures
            r == (Limits { messages: 4096, operations: 16384, inbox: 256 }),
    {
        Limits { messages: 4096, operations: 16384, inbox: 256 }
    }
}

/// What an accepted operation says in return.
pub enum Outcome {
    Sent(Message),
    Claimed { message: Message, claim_generation: u64 },
    Empty,
    Replied { reply: Message, completed: String },
    Completed { id: String, state: State },
    Requeued { id: String, claim_generation: u64 },
}

pub enum OutcomeView {
    Sent(MessageView),
    Claimed { message: MessageView, claim_generation: u64 },
    Empty,
    Replied { reply: MessageView, completed: Seq<char> },
    Completed { id: Seq<char>, state: State },
    Requeued { id: Seq<char>, claim_generation: u64 },
}

impl View for Outcome {
    type V = OutcomeView;

    open spec fn view(&self) -> OutcomeView {
        match self {
            Outcome::Sent(m) => OutcomeView::Sent(m@),
            Outcome::Claimed { message, claim_generation } => OutcomeView::Claimed {
                message: message@,
                claim_generation: *claim_generation,
            },
            Outcome::Empty => OutcomeView::Empty,
            Outcome::Replied { reply, completed } => OutcomeView::Replied {
                reply: reply@,
                completed: completed@,
            },
            Outcome::Completed { id, state } => OutcomeView::Completed {
                id: id@,
                state: *state,
            },
            Outcome::Requeued { id, claim_generation } => OutcomeView::Requeued {
                id: id@,
                claim_generation: *claim_generation,
            },
        }
    }
}

impl Outcome {
    pub fn copy(&self) -> (r: Outcome)
        ensures
            r == *self,
    {
        match self {
            Outcome::Sent(m) => Outcome::Sent(m.copy()),
            Outcome::Claimed { message, claim_generation } => Outcome::Claimed {
                message: message.copy(),
                claim_generation: *claim_generation,
            },
            Outcome::Empty => Outcome::Empty,
            Outcome::Replied { reply, completed } => Outcome::Replied {
                reply: reply.copy(),
                completed: completed.clone(),
            },
            Outcome::Completed { id, state } => Outcome::Completed {
                id: id.clone(),
                state: *state,
            },
            Outcome::Requeued { id, claim_generation } => Outcome::Requeued {
                id: id.clone(),
                claim_generation: *claim_generation,
            },
        }
    }
}

/// What an accepted operation changed, as the audit sees it.
pub enum ChangeData {
    Accepted(Message),
    Claimed { id: String, claim_generation: u64 },
    Empty,
    Replied { message: Message, completed: String },
    Completed { id: String, claim_generation: u64 },
    Requeued { id: String, claim_generation: u64, reason: String },
}

pub enum ChangeDataView {
    Accepted(MessageView),
    Claimed { id: Seq<char>, claim_generation: u64 },
    Empty,
    Replied { message: MessageView, completed: Seq<char> },
    Completed { id: Seq<char>, claim_generation: u64 },
    Requeued { id: Seq<char>, claim_generation: u64, reason: Seq<char> },
}

impl View for ChangeData {
    type V = ChangeDataView;

    open spec fn view(&self) -> ChangeDataView {
        match self {
            ChangeData::Accepted(m) => ChangeDataView::Accepted(m@),
            ChangeData::Claimed { id, claim_generation } => ChangeDataView::Claimed {
                id: id@,
                claim_generation: *claim_generation,
            },
            ChangeData::Empty => ChangeDataView::Empty,
            ChangeData::Replied { message, completed } => ChangeDataView::Replied {
                message: message@,
                completed: completed@,
            },
            ChangeData::Completed { id, claim_generation } => ChangeDataView::Completed {
                id: id@,
                claim_generation: *claim_generation,
            },
            ChangeData::Requeued { id, claim_generation, reason } => ChangeDataView::Requeued {
                id: id@,
                claim_generation: *claim_generation,
                reason: reason@,
            },
        }
    }
}

impl ChangeDataView {
    pub open spec fn kind(self) -> Seq<char> {
        match self {
            ChangeDataView::Accepted(_) => "message.accepted"@,
            ChangeDataView::Claimed { .. } => "message.claimed"@,
            ChangeDataView::Empty => "inbox.empty"@,
            ChangeDataView::Replied { .. } => "message.replied"@,
            ChangeDataView::Completed { .. } => "message.completed"@,
            ChangeDataView::Requeued { .. } => "message.requeued"@,
        }
    }
}

impl ChangeData {
    fn copy(&self) -> (r: ChangeData)
        ensures
            r == *self,
    {
        match self {
            ChangeData::Accepted(m) => ChangeData::Accepted(m.copy()),
            ChangeData::Claimed { id, claim_generation } => ChangeData::Claimed {
                id: id.clone(),
                claim_generation: *claim_generation,
            },
            ChangeData::Empty => ChangeData::Empty,
            ChangeData::Replied { message, completed } => ChangeData::Replied {
                message: message.copy(),
                completed: completed.clone(),
            },
            ChangeData::Completed { id, claim_generation } => ChangeData::Completed {
                id: id.clone(),
                claim_generation: *claim_generation,
            },
            ChangeData::Requeued { id, claim_generation, reason } => ChangeData::Requeued {
                id: id.clone(),
                claim_generation: *claim_generation,
                reason: reason.clone(),
            },
        }
    }

    fn kind(&self) -> (r: String)
        ensures
            r@ == self@.kind(),
    {
        match self {
            ChangeData::Accepted(_) => String::from_str("message.accepted"),
            ChangeData::Claimed { .. } => String::from_str("message.claimed"),
            ChangeData::Empty => String::from_str("inbox.empty"),
            ChangeData::Replied { .. } => String::from_str("message.replied"),
            ChangeData::Completed { .. } => String::from_str("message.completed"),
            ChangeData::Requeued { .. } => String::from_str("message.requeued"),
        }
    }
}

/// What an event is about.
pub enum EventData {
    /// An accepted operation.
    Changed { key: String, method: String, change: ChangeData },
    /// The unresolved messages of a session that stopped.
    Stopped { recipient: String, messages: Vec<String> },
    /// Something beside the mailbox itself.
    Note(Json),
}

pub enum EventDataView {
    Changed { key: Seq<char>, method: Seq<char>, change: ChangeDataView },
    Stopped { recipient: Seq<char>, messages: Seq<Seq<char>> },
    Note(Json),
}

impl View for EventData {
    type V = EventDataView;

    open spec fn view(&self) -> EventDataView {
        match self {
            EventData::Changed { key, method, change } => EventDataView::Changed {
                key: key@,
                method: method@,
                change: change@,
            },
            EventData::Stopped { recipient, messages } => EventDataView::Stopped {
                recipient: recipient@,
                messages: texts(messages@),
            },
            EventData::Note(data) => EventDataView::Note(*data),
        }
    }
}

impl EventDataView {
    /// The message that the data names.
    pub open spec fn message(self) -> Option<Seq<char>> {
        match self {
            EventDataView::Note(data) => text_at(data, "message"@),
            _ => None,
        }
    }
}

pub struct Event {
    pub instance: String,
    pub sequence: u64,
    pub timestamp: u64,
    pub kind: String,
    pub actor: String,
    pub sessions: Vec<String>,
    pub data: EventData,
}

pub struct EventView {
    pub instance: Seq<char>,
    pub sequence: u64,
    pub timestamp: u64,
    pub kind: Seq<char>,
    pub actor: Seq<char>,
    pub sessions: Seq<Seq<char>>,
    pub data: EventDataView,
}

impl View for Event {
    type V = EventView;

    open spec fn view(&self) -> EventView {
        EventView {
            instance: self.instance@,
            sequence: self.sequence,
            timestamp: self.timestamp,
            kind: self.kind@,
            actor: self.actor@,
            sessions: texts(self.sessions@),
            data: self.data@,
        }
    }
}

/// Why an event was not taken.
#[derive(Clone, Copy, Debug, PartialEq, Eq, Structural)]
pub enum AuditError {
    /// There is no room for it beside what is reserved.
    Capacity,
    /// Whether it was written is not known.
    Unavailable,
}

/// An event as it was handed to an audit, the bytes that were to stay free beside it, and
/// what the audit said.
pub ghost struct Handed {
    pub event: EventView,
    pub reserved: nat,
    pub verdict: Result<(), AuditError>,
}

/// Where events go before they take effect. `Capacity` refuses one event;
/// `Unavailable` stops every later change.
pub trait Audit {
    /// All that was handed to it, in order.
    closed spec fn log(&self) -> Seq<Handed> {
        arbitrary()
    }

    fn append(&mut self, event: &Event, reserved_bytes: usize) -> (r: Result<(), AuditError>)
        ensures
            final(self).log() == old(self).log().push(
                (Handed { event: event@, reserved: reserved_bytes as nat, verdict: r }),
            ),
    ;
}

/// One event more was handed on.
pub open spec fn handed_on(
    before: Seq<Handed>,
    after: Seq<Handed>,
    event: EventView,
    reserved: nat,
) -> bool {
    &&& after.len() == before.len() + 1
    &&& after.drop_last() == before
    &&& after.last().event == event
    &&& after.last().reserved == reserved
}

/// What an event that was handed on leaves: what it stands for has happened, or nothing
/// but the fault.
pub open spec fn taken(
    before: MailboxView,
    after: MailboxView,
    happened: MailboxView,
    verdict: Result<(), AuditError>,
    failure: Option<(int, Seq<char>)>,
) -> bool {
    match verdict {
        Ok(_) => after == happened && failure is None,
        Err(e) => after == refused(before, e).0 && failure == Some(refused(before, e).1),
    }
}

/// What noting something leaves of the mailbox and of the log.
pub open spec fn record_done(
    before: MailboxView,
    after: MailboxView,
    log: Seq<Handed>,
    longer: Seq<Handed>,
    actor: Seq<char>,
    kind: Seq<char>,
    data: EventDataView,
    now: u64,
    failure: Option<(int, Seq<char>)>,
) -> bool {
    match noted(before, actor, kind, data, now) {
        Err(f) => after == before && longer == log && failure == Some(f),
        Ok((event, reserved)) => handed_on(log, longer, event, reserved) && taken(
            before,
            after,
            with_note(before),
            longer.last().verdict,
            failure,
        ),
    }
}

/// What the end of a recipient leaves of the mailbox and of the log.
pub open spec fn stop_done(
    before: MailboxView,
    after: MailboxView,
    log: Seq<Handed>,
    longer: Seq<Handed>,
    recipient: Seq<char>,
    now: u64,
    failure: Option<(int, Seq<char>)>,
) -> bool {
    match stop_planned(before, recipient, now) {
        Err(f) => after == before && longer == log && failure == Some(f),
        Ok(None) => after == before && longer == log && failure is None,
        Ok(Some((event, reserved))) => handed_on(log, longer, event, reserved) && taken(
            before,
            after,
            with_stop(before, recipient),
            longer.last().verdict,
            failure,
        ),
    }
}

/// What an operation leaves of the mailbox and of the log, and what it gives.
pub open spec fn execute_done(
    before: MailboxView,
    after: MailboxView,
    log: Seq<Handed>,
    longer: Seq<Handed>,
    actor: Seq<char>,
    command: MutationView,
    directory: Seq<SessionView>,
    now: u64,
    given: Result<OutcomeView, (int, Seq<char>)>,
) -> bool {
    match planned(before, actor, command, directory, now) {
        PlanView::Refuse(code, message) => after == before && longer == log && given == Err::<
            OutcomeView,
            (int, Seq<char>),
        >((code, message)),
        PlanView::Replay(outcome) => after == before && longer == log && given == Ok::<
            OutcomeView,
            (int, Seq<char>),
        >(outcome),
        PlanView::Commit(g) => {
            &&& handed_on(log, longer, g.event, g.reserved_bytes)
            &&& taken(
                before,
                after,
                committed(before, g),
                longer.last().verdict,
                match given {
                    Ok(_) => None,
                    Err(f) => Some(f),
                },
            )
            &&& given matches Ok(outcome) ==> outcome == g.change.outcome
        },
    }
}

/// What is given, as it is read.
pub open spec fn given_by(r: Result<Outcome, Fault>) -> Result<OutcomeView, (int, Seq<char>)> {
    match r {
        Ok(o) => Ok(o@),
        Err(f) => Err(fault(f)),
    }
}

pub open spec fn failure_of<T>(r: Result<T, Fault>) -> Option<(int, Seq<char>)> {
    match r {
        Ok(_) => None,
        Err(f) => Some(fault(f)),
    }
}

struct Receipt {
    actor: String,
    command: Mutation,
    result: Outcome,
}

/// An operation that was accepted, with what it said in return.
pub struct ReceiptView {
    pub actor: Seq<char>,
    pub command: MutationView,
    pub result: OutcomeView,
}

impl View for Receipt {
    type V = ReceiptView;

    closed spec fn view(&self) -> ReceiptView {
        ReceiptView { actor: self.actor@, command: self.command@, result: self.result@ }
    }
}

pub struct MailboxView {
    pub instance: Seq<char>,
    pub limits: Limits,
    pub sequence: u64,
    pub messages: Seq<MessageView>,
    pub receipts: Seq<ReceiptView>,
    pub audit_failed: bool,
    pub auxiliary_events: nat,
}

pub struct Mailbox {
    instance: String,
    limits: Limits,
    sequence: u64,
    messages: Vec<Message>,
    receipts: Vec<Receipt>,
    audit_failed: bool,
    auxiliary_events: usize,
}

/// What messages say.
pub open spec fn mail(v: Seq<Message>) -> Seq<MessageView> {
    v.map_values(|m: Message| m@)
}

impl View for Mailbox {
    type V = MailboxView;

    closed spec fn view(&self) -> MailboxView {
        MailboxView {
            instance: self.instance@,
            limits: self.limits,
            sequence: self.sequence,
            messages: mail(self.messages@),
            receipts: self.receipts@.map_values(|r: Receipt| r@),
            audit_failed: self.audit_failed,
            auxiliary_events: self.auxiliary_events as nat,
        }
    }
}

// ---------------------------------------------------------------------------
// The model
// ---------------------------------------------------------------------------

pub open spec fn message_id(instance: Seq<char>, sequence: u64) -> Seq<char> {
    instance + "-m"@ + decimal_of(sequence as nat)
}

pub open spec fn conversation_id(instance: Seq<char>, sequence: u64) -> Seq<char> {
    instance + "-c"@ + decimal_of(sequence as nat)
}

/// The operations that are kept free for a message: a fetch and a completion
/// for one that waits, a completion for one that is worked on.
pub open spec fn weight(m: MessageView) -> nat {
    match m.state {
        State::Queued => 2,
        State::Claimed => 1,
        _ => 0,
    }
}

/// One where a message waits in, or is worked on from, that inbox.
pub open spec fn occupies(m: MessageView, recipient: Seq<char>) -> nat {
    if m.recipient == recipient && m.state.is_unresolved() {
        1
    } else {
        0
    }
}

pub open spec fn reserved(ms: Seq<MessageView>) -> nat
    decreases ms.len(),
{
    if ms.len() == 0 {
        0
    } else {
        reserved(ms.drop_last()) + weight(ms.last())
    }
}

pub open spec fn occupancy(ms: Seq<MessageView>, recipient: Seq<char>) -> nat
    decreases ms.len(),
{
    if ms.len() == 0 {
        0
    } else {
        occupancy(ms.drop_last(), recipient) + occupies(ms.last(), recipient)
    }
}

/// The place of the first message of which `f` holds.
pub open spec fn first_where(ms: Seq<MessageView>, f: spec_fn(MessageView) -> bool) -> Option<int>
    decreases ms.len(),
{
    if ms.len() == 0 {
        None
    } else {
        match first_where(ms.drop_last(), f) {
            Some(i) => Some(i),
            None => if f(ms.last()) {
                Some(ms.len() - 1)
            } else {
                None
            },
        }
    }
}

pub open spec fn visible_to(actor: Seq<char>, id: Seq<char>) -> spec_fn(MessageView) -> bool {
    |m: MessageView| m.id == id && (actor == "host"@ || m.sender == actor || m.recipient == actor)
}

pub open spec fn waits(recipient: Seq<char>, state: State) -> spec_fn(MessageView) -> bool {
    |m: MessageView| m.recipient == recipient && m.state == state
}

pub open spec fn takes_part(actor: Seq<char>, conversation: Seq<char>) -> spec_fn(
    MessageView,
) -> bool {
    |m: MessageView| m.conversation == conversation && (m.sender == actor || m.recipient == actor)
}

pub open spec fn path_of(dir: Seq<SessionView>, id: Seq<char>) -> Seq<char> {
    match entry(dir, id) {
        Some(s) => s.path,
        None => id,
    }
}

pub open spec fn fresh_message(
    s: MailboxView,
    sender: Seq<char>,
    recipient: Seq<char>,
    body: Seq<char>,
    conversation: Seq<char>,
    in_reply_to: Option<Seq<char>>,
    dir: Seq<SessionView>,
    now: u64,
) -> MessageView {
    let sequence = (s.sequence + 1) as u64;
    MessageView {
        id: message_id(s.instance, sequence),
        conversation,
        sender,
        recipient,
        sender_path: path_of(dir, sender),
        recipient_path: path_of(dir, recipient),
        in_reply_to,
        body,
        created_sequence: sequence,
        created_at: now,
        state: State::Queued,
        claim_generation: 0,
        failure: None,
    }
}

/// A change in preparation: at most one message replaced, at most one added.
pub struct ChangeView {
    pub replaced: Option<(int, MessageView)>,
    pub added: Option<MessageView>,
    pub outcome: OutcomeView,
    pub data: ChangeDataView,
}

/// The messages after a change.
pub open spec fn after(ms: Seq<MessageView>, c: ChangeView) -> Seq<MessageView> {
    let kept = match c.replaced {
        Some((i, m)) => ms.update(i, m),
        None => ms,
    };
    match c.added {
        Some(m) => kept.push(m),
        None => kept,
    }
}

/// The sessions that a change concerns.
pub open spec fn concerned(c: ChangeView) -> Seq<Seq<char>> {
    (match c.replaced {
        Some((i, m)) => seq![m.sender, m.recipient],
        None => Seq::empty(),
    }) + (match c.added {
        Some(m) => seq![m.sender, m.recipient],
        None => Seq::empty(),
    })
}

/// The message that an actor holds under that claim, or why it holds none.
pub open spec fn claimed_by(
    s: MailboxView,
    actor: Seq<char>,
    id: Seq<char>,
    generation: u64,
) -> Result<int, (int, Seq<char>)> {
    match first_where(s.messages, visible_to(actor, id)) {
        None => Err(is_absent()),
        Some(i) => if s.messages[i].recipient != actor {
            Err(is_absent())
        } else if s.messages[i].state != State::Claimed || s.messages[i].claim_generation
            != generation {
            Err(is_conflict())
        } else {
            Ok(i)
        },
    }
}

/// What an operation would change.
pub open spec fn prepared(
    s: MailboxView,
    actor: Seq<char>,
    command: MutationView,
    dir: Seq<SessionView>,
    now: u64,
) -> Result<ChangeView, (int, Seq<char>)> {
    let sequence = (s.sequence + 1) as u64;
    match command {
        MutationView::Send { key, to, body, conversation } => match resolved(dir, actor, to) {
            Err(e) => Err(e),
            Ok(recipient) => if conversation matches Some(c) && first_where(
                s.messages,
                takes_part(actor, c),
            ) is None {
                Err(is_absent())
            } else {
                let thread = match conversation {
                    Some(c) => c,
                    None => conversation_id(s.instance, sequence),
                };
                let m = fresh_message(s, actor, recipient, body, thread, None, dir, now);
                Ok(
                    ChangeView {
                        replaced: None,
                        added: Some(m),
                        outcome: OutcomeView::Sent(m),
                        data: ChangeDataView::Accepted(m),
                    },
                )
            },
        },
        MutationView::Next { key } => {
            let current = match first_where(s.messages, waits(actor, State::Claimed)) {
                Some(i) => Some(i),
                None => first_where(s.messages, waits(actor, State::Queued)),
            };
            match current {
                None => Ok(
                    ChangeView {
                        replaced: None,
                        added: None,
                        outcome: OutcomeView::Empty,
                        data: ChangeDataView::Empty,
                    },
                ),
                Some(i) => {
                    let m = claim_of(s.messages[i]);
                    Ok(
                        ChangeView {
                            replaced: Some((i, m)),
                            added: None,
                            outcome: OutcomeView::Claimed {
                                message: m,
                                claim_generation: m.claim_generation,
                            },
                            data: ChangeDataView::Claimed {
                                id: m.id,
                                claim_generation: m.claim_generation,
                            },
                        },
                    )
                },
            }
        },
        MutationView::Reply { key, message, generation, body } => match claimed_by(
            s,
            actor,
            message,
            generation,
        ) {
            Err(e) => Err(e),
            Ok(i) => {
                let original = s.messages[i];
                if !is_live(dir, original.sender) {
                    Err(is_absent())
                } else {
                    let reply = fresh_message(
                        s,
                        actor,
                        original.sender,
                        body,
                        original.conversation,
                        Some(original.id),
                        dir,
                        now,
                    );
                    Ok(
                        ChangeView {
                            replaced: Some(
                                (i, MessageView { state: State::Completed, ..original }),
                            ),
                            added: Some(reply),
                            outcome: OutcomeView::Replied { reply, completed: original.id },
                            data: ChangeDataView::Replied {
                                message: reply,
                                completed: original.id,
                            },
                        },
                    )
                }
            },
        },
        MutationView::Complete { key, message, generation } => match claimed_by(
            s,
            actor,
            message,
            generation,
        ) {
            Err(e) => Err(e),
            Ok(i) => {
                let m = MessageView { state: State::Completed, ..s.messages[i] };
                Ok(
                    ChangeView {
                        replaced: Some((i, m)),
                        added: None,
                        outcome: OutcomeView::Completed { id: m.id, state: m.state },
                        data: ChangeDataView::Completed {
                            id: m.id,
                            claim_generation: m.claim_generation,
                        },
                    },
                )
            },
        },
        MutationView::Requeue { key, message, generation, reason } => match first_where(
            s.messages,
            visible_to(actor, message),
        ) {
            None => Err(is_absent()),
            Some(i) => {
                let old = s.messages[i];
                if old.recipient != actor && actor != "host"@ {
                    Err(is_absent())
                } else if old.state != State::Claimed || old.claim_generation != generation {
                    Err(is_conflict())
                } else if !is_live(dir, old.recipient) {
                    Err(is_absent())
                } else if old.claim_generation == u64::MAX {
                    Err(is_capacity())
                } else {
                    let m = MessageView {
                        state: State::Queued,
                        claim_generation: (old.claim_generation + 1) as u64,
                        ..old
                    };
                    Ok(
                        ChangeView {
                            replaced: Some((i, m)),
                            added: None,
                            outcome: OutcomeView::Requeued {
                                id: m.id,
                                claim_generation: m.claim_generation,
                            },
                            data: ChangeDataView::Requeued {
                                id: m.id,
                                claim_generation: m.claim_generation,
                                reason,
                            },
                        },
                    )
                }
            },
        },
    }
}

/// A message as it is handed to its recipient.
pub open spec fn claim_of(m: MessageView) -> MessageView {
    MessageView {
        state: State::Claimed,
        claim_generation: if m.claim_generation == 0 {
            1
        } else {
            m.claim_generation
        },
        ..m
    }
}

/// Whether the messages, with that many receipts, are within the limits.
pub open spec fn fits(ms: Seq<MessageView>, receipts: nat, limits: Limits) -> bool {
    &&& ms.len() <= limits.messages
    &&& forall|r: Seq<char>| #[trigger] occupancy(ms, r) <= limits.inbox
    &&& receipts + reserved(ms) <= limits.operations
}

/// A receipt of that actor, method and key.
pub open spec fn receipt_of(
    rs: Seq<ReceiptView>,
    actor: Seq<char>,
    command: MutationView,
) -> Option<ReceiptView>
    decreases rs.len(),
{
    if rs.len() == 0 {
        None
    } else if rs[0].actor == actor && rs[0].command.method() == command.method()
        && rs[0].command.key() == command.key() {
        Some(rs[0])
    } else {
        receipt_of(rs.drop_first(), actor, command)
    }
}

/// An operation that is ready but for the audit.
pub struct StagedView {
    pub actor: Seq<char>,
    pub command: MutationView,
    pub change: ChangeView,
    pub event: EventView,
    pub reserved_bytes: nat,
}

/// What comes of an operation before the audit is asked.
pub enum PlanView {
    Refuse(int, Seq<char>),
    Replay(OutcomeView),
    Commit(StagedView),
}

pub open spec fn planned(
    s: MailboxView,
    actor: Seq<char>,
    command: MutationView,
    dir: Seq<SessionView>,
    now: u64,
) -> PlanView {
    let receipt = receipt_of(s.receipts, actor, command);
    if command.refusal() is Some {
        PlanView::Refuse(-32602, command.refusal()->0)
    } else if receipt is Some {
        if (receipt->0).command != command {
            PlanView::Refuse(is_conflict().0, is_conflict().1)
        } else {
            PlanView::Replay((receipt->0).result)
        }
    } else if s.audit_failed {
        PlanView::Refuse(is_unaudited().0, is_unaudited().1)
    } else if !is_live(dir, actor) {
        PlanView::Refuse(is_absent().0, is_absent().1)
    } else if s.sequence == u64::MAX {
        PlanView::Refuse(is_capacity().0, is_capacity().1)
    } else {
        match prepared(s, actor, command, dir, now) {
            Err((code, message)) => PlanView::Refuse(code, message),
            Ok(change) => if !fits(after(s.messages, change), s.receipts.len() + 1, s.limits) {
                PlanView::Refuse(is_capacity().0, is_capacity().1)
            } else {
                PlanView::Commit(
                    StagedView {
                        actor,
                        command,
                        change,
                        event: EventView {
                            instance: s.instance,
                            sequence: (s.sequence + 1) as u64,
                            timestamp: now,
                            kind: change.data.kind(),
                            actor,
                            sessions: concerned(change),
                            data: EventDataView::Changed {
                                key: command.key(),
                                method: command.method(),
                                change: change.data,
                            },
                        },
                        reserved_bytes: reserved(after(s.messages, change)) * 2048,
                    },
                )
            },
        }
    }
}

/// The mailbox once the audit has taken a staged operation.
pub open spec fn committed(s: MailboxView, g: StagedView) -> MailboxView {
    MailboxView {
        sequence: g.event.sequence,
        messages: after(s.messages, g.change),
        receipts: s.receipts.push(
            ReceiptView { actor: g.actor, command: g.command, result: g.change.outcome },
        ),
        ..s
    }
}

/// The mailbox and the refusal once the audit has refused an event.
pub open spec fn refused(s: MailboxView, e: AuditError) -> (MailboxView, (int, Seq<char>)) {
    match e {
        AuditError::Capacity => (s, is_capacity()),
        AuditError::Unavailable => (MailboxView { audit_failed: true, ..s }, is_unaudited()),
    }
}

/// The event of a note, and the bytes that must stay free beside it.
pub open spec fn noted(
    s: MailboxView,
    actor: Seq<char>,
    kind: Seq<char>,
    data: EventDataView,
    now: u64,
) -> Result<(EventView, nat), (int, Seq<char>)> {
    if s.audit_failed {
        Err(is_unaudited())
    } else if s.auxiliary_events >= 16384 || s.sequence == u64::MAX {
        Err(is_capacity())
    } else {
        let about = match data.message() {
            Some(id) => first_where(s.messages, has_id(id)),
            None => None,
        };
        Ok(
            (
                EventView {
                    instance: s.instance,
                    sequence: (s.sequence + 1) as u64,
                    timestamp: now,
                    kind,
                    actor,
                    sessions: match about {
                        Some(i) => seq![s.messages[i].sender, s.messages[i].recipient],
                        None => seq![actor],
                    },
                    data,
                },
                unresolved(s.messages) * 2048,
            ),
        )
    }
}

pub open spec fn has_id(id: Seq<char>) -> spec_fn(MessageView) -> bool {
    |m: MessageView| m.id == id
}

pub open spec fn unresolved(ms: Seq<MessageView>) -> nat
    decreases ms.len(),
{
    if ms.len() == 0 {
        0
    } else {
        unresolved(ms.drop_last()) + if ms.last().state.is_unresolved() {
            1nat
        } else {
            0
        }
    }
}

/// The mailbox after a note was taken.
pub open spec fn with_note(s: MailboxView) -> MailboxView {
    MailboxView {
        sequence: (s.sequence + 1) as u64,
        auxiliary_events: s.auxiliary_events + 1,
        ..s
    }
}

/// A message whose recipient stopped.
pub open spec fn failed(m: MessageView) -> MessageView {
    MessageView { state: State::Failed, failure: Some("recipient stopped"@), ..m }
}

pub open spec fn is_pending(m: MessageView, recipient: Seq<char>) -> bool {
    m.recipient == recipient && m.state.is_unresolved()
}

/// The messages after a recipient stopped.
pub open spec fn stopped(ms: Seq<MessageView>, recipient: Seq<char>) -> Seq<MessageView> {
    ms.map_values(|m: MessageView| if is_pending(m, recipient) { failed(m) } else { m })
}

/// The unresolved messages of a recipient.
pub open spec fn pending(ms: Seq<MessageView>, recipient: Seq<char>) -> Seq<MessageView>
    decreases ms.len(),
{
    if ms.len() == 0 {
        Seq::empty()
    } else if is_pending(ms.last(), recipient) {
        pending(ms.drop_last(), recipient).push(ms.last())
    } else {
        pending(ms.drop_last(), recipient)
    }
}

/// The ID of each message.
pub open spec fn ids(ms: Seq<MessageView>) -> Seq<Seq<char>> {
    Seq::new(ms.len(), |i: int| ms[i].id)
}

/// Sender and recipient of each message.
pub open spec fn parties(ms: Seq<MessageView>) -> Seq<Seq<char>>
    decreases ms.len(),
{
    if ms.len() == 0 {
        Seq::empty()
    } else {
        parties(ms.drop_last()).push(ms.last().sender).push(ms.last().recipient)
    }
}

pub open spec fn stop_event(s: MailboxView, recipient: Seq<char>, now: u64) -> EventView {
    EventView {
        instance: s.instance,
        sequence: (s.sequence + 1) as u64,
        timestamp: now,
        kind: "recipient.stopped"@,
        actor: "host"@,
        sessions: parties(pending(s.messages, recipient)),
        data: EventDataView::Stopped {
            recipient,
            messages: ids(pending(s.messages, recipient)),
        },
    }
}

/// The event of a recipient that stops, where it leaves anything unresolved.
pub open spec fn stop_planned(s: MailboxView, recipient: Seq<char>, now: u64) -> Result<
    Option<(EventView, nat)>,
    (int, Seq<char>),
> {
    if pending(s.messages, recipient).len() == 0 {
        Ok(None)
    } else if s.audit_failed {
        Err(is_unaudited())
    } else if s.sequence == u64::MAX {
        Err(is_capacity())
    } else {
        Ok(
            Some(
                (
                    stop_event(s, recipient, now),
                    reserved(stopped(s.messages, recipient)) * 2048,
                ),
            ),
        )
    }
}

/// The mailbox once the audit has taken that a recipient stopped.
pub open spec fn with_stop(s: MailboxView, recipient: Seq<char>) -> MailboxView {
    MailboxView {
        sequence: (s.sequence + 1) as u64,
        messages: stopped(s.messages, recipient),
        ..s
    }
}

/// What every operation keeps: messages in the order of their creation, under
/// IDs of their own; in each inbox at most one that is worked on; one receipt
/// for an actor, a method and a key; and everything within the limits.
pub open spec fn inv(s: MailboxView) -> bool {
    &&& is_instance(s.instance)
    &&& s.limits.messages <= usize::MAX / 8192
    &&& s.limits.operations <= usize::MAX / 2
    &&& s.auxiliary_events <= 16384
    &&& fits(s.messages, s.receipts.len(), s.limits)
    &&& forall|i: int|
        0 <= i < s.messages.len() ==> {
            let m = #[trigger] s.messages[i];
            &&& m.id == message_id(s.instance, m.created_sequence)
            &&& m.created_sequence <= s.sequence
            &&& m.state == State::Claimed ==> m.claim_generation > 0
        }
    &&& forall|i: int, j: int|
        0 <= i < j < s.messages.len() ==> (#[trigger] s.messages[i]).created_sequence
            < (#[trigger] s.messages[j]).created_sequence
    &&& forall|i: int, j: int|
        0 <= i < j < s.messages.len() ==> !((#[trigger] s.messages[i]).state == State::Claimed && (
        #[trigger] s.messages[j]).state == State::Claimed && s.messages[i].recipient
            == s.messages[j].recipient)
    &&& forall|i: int, j: int|
        0 <= i < j < s.receipts.len() ==> !((#[trigger] s.receipts[i]).actor == (
        #[trigger] s.receipts[j]).actor && s.receipts[i].command.method()
            == s.receipts[j].command.method() && s.receipts[i].command.key()
            == s.receipts[j].command.key())
}

// ---------------------------------------------------------------------------
// Facts about sequences of messages
// ---------------------------------------------------------------------------

pub(crate) proof fn lemma_first_where(ms: Seq<MessageView>, f: spec_fn(MessageView) -> bool)
    ensures
        match first_where(ms, f) {
            Some(i) => 0 <= i < ms.len() && f(ms[i]) && forall|j: int|
                0 <= j < i ==> !f(#[trigger] ms[j]),
            None => forall|j: int| 0 <= j < ms.len() ==> !f(#[trigger] ms[j]),
        },
    decreases ms.len(),
{
    if ms.len() > 0 {
        let most = ms.drop_last();
        lemma_first_where(most, f);
        assert forall|j: int| 0 <= j < most.len() implies most[j] == #[trigger] ms[j] by {}
    }
}

pub(crate) proof fn lemma_first_is(ms: Seq<MessageView>, f: spec_fn(MessageView) -> bool, i: int)
    requires
        0 <= i < ms.len(),
        f(ms[i]),
        forall|j: int| 0 <= j < i ==> !f(#[trigger] ms[j]),
    ensures
        first_where(ms, f) == Some(i),
{
    lemma_first_where(ms, f);
}

pub(crate) proof fn lemma_none_is(ms: Seq<MessageView>, f: spec_fn(MessageView) -> bool)
    requires
        forall|j: int| 0 <= j < ms.len() ==> !f(#[trigger] ms[j]),
    ensures
        first_where(ms, f) is None,
{
    lemma_first_where(ms, f);
}

pub(crate) proof fn lemma_reserved_update(ms: Seq<MessageView>, i: int, m: MessageView)
    requires
        0 <= i < ms.len(),
    ensures
        reserved(ms.update(i, m)) + weight(ms[i]) == reserved(ms) + weight(m),
        weight(ms[i]) <= reserved(ms),
    decreases ms.len(),
{
    let changed = ms.update(i, m);
    if i == ms.len() - 1 {
        assert(changed.drop_last() =~= ms.drop_last());
    } else {
        lemma_reserved_update(ms.drop_last(), i, m);
        assert(changed.drop_last() =~= ms.drop_last().update(i, m));
    }
}

pub(crate) proof fn lemma_occupancy_update(ms: Seq<MessageView>, i: int, m: MessageView, r: Seq<char>)
    requires
        0 <= i < ms.len(),
    ensures
        occupancy(ms.update(i, m), r) + occupies(ms[i], r) == occupancy(ms, r) + occupies(m, r),
        occupies(ms[i], r) <= occupancy(ms, r),
    decreases ms.len(),
{
    let changed = ms.update(i, m);
    if i == ms.len() - 1 {
        assert(changed.drop_last() =~= ms.drop_last());
    } else {
        lemma_occupancy_update(ms.drop_last(), i, m, r);
        assert(changed.drop_last() =~= ms.drop_last().update(i, m));
    }
}

pub(crate) proof fn lemma_counts(ms: Seq<MessageView>, r: Seq<char>)
    ensures
        reserved(ms) <= 2 * ms.len(),
        occupancy(ms, r) <= ms.len(),
        unresolved(ms) <= ms.len(),
    decreases ms.len(),
{
    if ms.len() > 0 {
        lemma_counts(ms.drop_last(), r);
    }
}

pub(crate) proof fn lemma_push(ms: Seq<MessageView>, m: MessageView, r: Seq<char>)
    ensures
        reserved(ms.push(m)) == reserved(ms) + weight(m),
        occupancy(ms.push(m), r) == occupancy(ms, r) + occupies(m, r),
{
    assert(ms.push(m).drop_last() =~= ms);
}

/// Messages that no two share a creation have IDs of their own.
pub(crate) proof fn lemma_ids(instance: Seq<char>, a: u64, b: u64)
    ensures
        message_id(instance, a) == message_id(instance, b) <==> a == b,
{
    let prefix = instance + "-m"@;
    lemma_decimal_injective(a as nat, b as nat);
    if message_id(instance, a) == message_id(instance, b) {
        assert(message_id(instance, a).skip(prefix.len() as int) =~= decimal_of(a as nat));
        assert(message_id(instance, b).skip(prefix.len() as int) =~= decimal_of(b as nat));
    }
}

/// A replaced message keeps its identity and its inbox, and does not come back
/// from where it was settled.
pub(crate) open spec fn keeps(old: MessageView, m: MessageView) -> bool {
    &&& m.id == old.id
    &&& m.created_sequence == old.created_sequence
    &&& m.recipient == old.recipient
    &&& old.state.is_unresolved()
    &&& m.state == State::Claimed ==> m.claim_generation > 0
}

pub(crate) open spec fn sound(s: MailboxView, c: ChangeView) -> bool {
    &&& c.replaced matches Some((i, m)) ==> 0 <= i < s.messages.len() && keeps(s.messages[i], m)
    &&& c.added matches Some(m) ==> {
        &&& m.created_sequence == s.sequence + 1
        &&& m.id == message_id(s.instance, m.created_sequence)
        &&& m.state == State::Queued
    }
    &&& c.replaced matches Some((i, m)) ==> m.state == State::Claimed ==> forall|j: int|
        0 <= j < s.messages.len() && (#[trigger] s.messages[j]).state == State::Claimed
            && s.messages[j].recipient == m.recipient ==> j == i
}

pub(crate) proof fn lemma_prepared_sound(
    s: MailboxView,
    actor: Seq<char>,
    command: MutationView,
    dir: Seq<SessionView>,
    now: u64,
)
    requires
        inv(s),
        s.sequence < u64::MAX,
        prepared(s, actor, command, dir, now) is Ok,
    ensures
        sound(s, prepared(s, actor, command, dir, now)->Ok_0),
{
    match command {
        MutationView::Send { .. } => {},
        MutationView::Next { .. } => {
            lemma_first_where(s.messages, waits(actor, State::Claimed));
            lemma_first_where(s.messages, waits(actor, State::Queued));
            let c = prepared(s, actor, command, dir, now)->Ok_0;
            if c.replaced is Some {
                let i = (c.replaced->0).0;
                assert forall|j: int|
                    0 <= j < s.messages.len() && (#[trigger] s.messages[j]).state == State::Claimed
                        && s.messages[j].recipient == actor implies j == i by {
                    if first_where(s.messages, waits(actor, State::Claimed)) is None {
                        assert(waits(actor, State::Claimed)(s.messages[j]));
                    } else {
                        assert(waits(actor, State::Claimed)(s.messages[i]));
                        if i < j {
                            assert(!(s.messages[i].state == State::Claimed && s.messages[j].state
                                == State::Claimed && s.messages[i].recipient
                                == s.messages[j].recipient));
                        }
                    }
                }
            }
        },
        MutationView::Reply { message, .. } => {
            lemma_first_where(s.messages, visible_to(actor, message));
        },
        MutationView::Complete { message, .. } => {
            lemma_first_where(s.messages, visible_to(actor, message));
        },
        MutationView::Requeue { message, .. } => {
            lemma_first_where(s.messages, visible_to(actor, message));
        },
    }
}

pub(crate) proof fn lemma_committed_inv(
    s: MailboxView,
    actor: Seq<char>,
    command: MutationView,
    dir: Seq<SessionView>,
    now: u64,
    g: StagedView,
)
    requires
        inv(s),
        planned(s, actor, command, dir, now) == PlanView::Commit(g),
    ensures
        inv(committed(s, g)),
{
    lemma_prepared_sound(s, actor, command, dir, now);
    let t = committed(s, g);
    lemma_no_receipt(s.receipts, actor, command);
    assert forall|i: int, j: int| 0 <= i < j < t.receipts.len() implies !((
    #[trigger] t.receipts[i]).actor == (#[trigger] t.receipts[j]).actor
        && t.receipts[i].command.method() == t.receipts[j].command.method()
        && t.receipts[i].command.key() == t.receipts[j].command.key()) by {
        if j < s.receipts.len() {
            assert(t.receipts[i] == s.receipts[i] && t.receipts[j] == s.receipts[j]);
        }
    }
}

pub(crate) proof fn lemma_no_receipt(rs: Seq<ReceiptView>, actor: Seq<char>, command: MutationView)
    ensures
        match receipt_of(rs, actor, command) {
            Some(r) => rs.contains(r) && r.actor == actor && r.command.method() == command.method()
                && r.command.key() == command.key(),
            None => forall|i: int|
                0 <= i < rs.len() ==> !((#[trigger] rs[i]).actor == actor && rs[i].command.method()
                    == command.method() && rs[i].command.key() == command.key()),
        },
    decreases rs.len(),
{
    if rs.len() > 0 {
        let rest = rs.drop_first();
        lemma_no_receipt(rest, actor, command);
        if receipt_of(rs, actor, command) is Some {
            if receipt_of(rest, actor, command) is Some {
                let r = receipt_of(rest, actor, command)->0;
                let k = choose|k: int| 0 <= k < rest.len() && rest[k] == r;
                assert(rs[k + 1] == r);
            }
        } else {
            assert forall|i: int| 0 <= i < rs.len() implies !((#[trigger] rs[i]).actor == actor
                && rs[i].command.method() == command.method() && rs[i].command.key()
                == command.key()) by {
                if i > 0 {
                    assert(rest[i - 1] == rs[i]);
                }
            }
        }
    }
}

// ---------------------------------------------------------------------------
// The mailbox
// ---------------------------------------------------------------------------

struct Change {
    replaced: Option<(usize, Message)>,
    added: Option<Message>,
    outcome: Outcome,
    data: ChangeData,
}

impl View for Change {
    type V = ChangeView;

    closed spec fn view(&self) -> ChangeView {
        ChangeView {
            replaced: match self.replaced {
                Some((i, m)) => Some((i as int, m@)),
                None => None,
            },
            added: match self.added {
                Some(m) => Some(m@),
                None => None,
            },
            outcome: self.outcome@,
            data: self.data@,
        }
    }
}

/// An operation that is ready but for the audit.
pub struct Staged {
    actor: String,
    command: Mutation,
    change: Change,
    event: Event,
    reserved_bytes: usize,
}

impl View for Staged {
    type V = StagedView;

    closed spec fn view(&self) -> StagedView {
        StagedView {
            actor: self.actor@,
            command: self.command@,
            change: self.change@,
            event: self.event@,
            reserved_bytes: self.reserved_bytes as nat,
        }
    }
}

impl Staged {
    /// The event that the audit must take.
    pub fn event(&self) -> (r: &Event)
        ensures
            r@ == self@.event,
    {
        &self.event
    }

    /// How many bytes must stay free beside it.
    pub fn reserved_bytes(&self) -> (r: usize)
        ensures
            r == self@.reserved_bytes,
    {
        self.reserved_bytes
    }
}

/// What comes of an operation before the audit is asked.
pub enum Plan {
    Refuse(Fault),
    Replay(Outcome),
    Commit(Staged),
}

impl View for Plan {
    type V = PlanView;

    open spec fn view(&self) -> PlanView {
        match self {
            Plan::Refuse(f) => PlanView::Refuse(f.0 as int, f.1@),
            Plan::Replay(o) => PlanView::Replay(o@),
            Plan::Commit(g) => PlanView::Commit(g@),
        }
    }
}

/// How much waits in an inbox, and what is next in it.
pub struct Status {
    pub queued: usize,
    pub claim: Option<String>,
    pub head: Option<(String, u64)>,
    pub revision: u64,
    pub audit_failed: bool,
}

pub open spec fn queued(ms: Seq<MessageView>, recipient: Seq<char>) -> nat
    decreases ms.len(),
{
    if ms.len() == 0 {
        0
    } else {
        queued(ms.drop_last(), recipient) + if ms.last().recipient == recipient && ms.last().state
            == State::Queued {
            1nat
        } else {
            0
        }
    }
}

pub open spec fn at_hand(recipient: Seq<char>) -> spec_fn(MessageView) -> bool {
    |m: MessageView| is_pending(m, recipient)
}

pub open spec fn is_status(st: Status, s: MailboxView, actor: Seq<char>) -> bool {
    &&& st.queued == queued(s.messages, actor)
    &&& match first_where(s.messages, waits(actor, State::Claimed)) {
        Some(i) => st.claim matches Some(id) && id@ == s.messages[i].id,
        None => st.claim is None,
    }
    &&& match first_where(s.messages, at_hand(actor)) {
        Some(i) => st.head matches Some((id, generation)) && id@ == s.messages[i].id && generation
            == s.messages[i].claim_generation,
        None => st.head is None,
    }
    &&& st.revision == s.sequence
    &&& st.audit_failed == s.audit_failed
}

fn is_hex(c: char) -> (r: bool)
    ensures
        r == is_hex_char(c),
{
    digit(c) || ('a' <= c && c <= 'f') || ('A' <= c && c <= 'F')
}

pub open spec fn is_hex_char(c: char) -> bool {
    is_digit(c) || ('a' <= c && c <= 'f') || ('A' <= c && c <= 'F')
}

/// Thirty-two hexadecimal digits.
pub open spec fn is_instance(s: Seq<char>) -> bool {
    s.len() == 32 && forall|i: int| 0 <= i < s.len() ==> is_hex_char(#[trigger] s[i])
}

fn find_first(messages: &Vec<Message>, recipient: &str, state: State) -> (r: Option<usize>)
    ensures
        match r {
            Some(i) => first_where(mail(messages@), waits(recipient@, state)) == Some(i as int),
            None => first_where(mail(messages@), waits(recipient@, state)) is None,
        },
        r matches Some(i) ==> i < messages@.len(),
{
    let ghost ms = mail(messages@);
    let ghost f = waits(recipient@, state);
    let mut i: usize = 0;
    while i < messages.len()
        invariant
            ms == mail(messages@),
            f == waits(recipient@, state),
            i <= messages@.len() == ms.len(),
            forall|j: int| 0 <= j < i ==> !f(#[trigger] ms[j]),
        decreases messages@.len() - i,
    {
        assert(ms[i as int] == messages@[i as int]@);
        if messages[i].state == state && same(messages[i].recipient.as_str(), recipient) {
            proof {
                lemma_first_is(ms, f, i as int);
            }
            return Some(i);
        }
        i += 1;
    }
    proof {
        lemma_none_is(ms, f);
    }
    None
}

fn find_visible(messages: &Vec<Message>, actor: &str, id: &str) -> (r: Option<usize>)
    ensures
        match r {
            Some(i) => first_where(mail(messages@), visible_to(actor@, id@)) == Some(i as int),
            None => first_where(mail(messages@), visible_to(actor@, id@)) is None,
        },
        r matches Some(i) ==> i < messages@.len(),
{
    let ghost ms = mail(messages@);
    let ghost f = visible_to(actor@, id@);
    let host = same(actor, "host");
    let mut i: usize = 0;
    while i < messages.len()
        invariant
            ms == mail(messages@),
            f == visible_to(actor@, id@),
            host == (actor@ == "host"@),
            i <= messages@.len() == ms.len(),
            forall|j: int| 0 <= j < i ==> !f(#[trigger] ms[j]),
        decreases messages@.len() - i,
    {
        assert(ms[i as int] == messages@[i as int]@);
        if same(messages[i].id.as_str(), id) && (host || same(messages[i].sender.as_str(), actor)
            || same(messages[i].recipient.as_str(), actor)) {
            proof {
                lemma_first_is(ms, f, i as int);
            }
            return Some(i);
        }
        i += 1;
    }
    proof {
        lemma_none_is(ms, f);
    }
    None
}

fn find_thread(messages: &Vec<Message>, actor: &str, conversation: &str) -> (r: bool)
    ensures
        r == (first_where(mail(messages@), takes_part(actor@, conversation@)) is Some),
{
    let ghost ms = mail(messages@);
    let ghost f = takes_part(actor@, conversation@);
    let mut i: usize = 0;
    while i < messages.len()
        invariant
            ms == mail(messages@),
            f == takes_part(actor@, conversation@),
            i <= messages@.len() == ms.len(),
            forall|j: int| 0 <= j < i ==> !f(#[trigger] ms[j]),
        decreases messages@.len() - i,
    {
        assert(ms[i as int] == messages@[i as int]@);
        if same(messages[i].conversation.as_str(), conversation) && (same(
            messages[i].sender.as_str(),
            actor,
        ) || same(messages[i].recipient.as_str(), actor)) {
            proof {
                lemma_first_is(ms, f, i as int);
            }
            return true;
        }
        i += 1;
    }
    proof {
        lemma_none_is(ms, f);
    }
    false
}

fn find_id(messages: &Vec<Message>, id: &str) -> (r: Option<usize>)
    ensures
        match r {
            Some(i) => first_where(mail(messages@), has_id(id@)) == Some(i as int),
            None => first_where(mail(messages@), has_id(id@)) is None,
        },
        r matches Some(i) ==> i < messages@.len(),
{
    let ghost ms = mail(messages@);
    let ghost f = has_id(id@);
    let mut i: usize = 0;
    while i < messages.len()
        invariant
            ms == mail(messages@),
            f == has_id(id@),
            i <= messages@.len() == ms.len(),
            forall|j: int| 0 <= j < i ==> !f(#[trigger] ms[j]),
        decreases messages@.len() - i,
    {
        assert(ms[i as int] == messages@[i as int]@);
        if same(messages[i].id.as_str(), id) {
            proof {
                lemma_first_is(ms, f, i as int);
            }
            return Some(i);
        }
        i += 1;
    }
    proof {
        lemma_none_is(ms, f);
    }
    None
}

fn find_head(messages: &Vec<Message>, recipient: &str) -> (r: Option<usize>)
    ensures
        match r {
            Some(i) => first_where(mail(messages@), at_hand(recipient@)) == Some(i as int),
            None => first_where(mail(messages@), at_hand(recipient@)) is None,
        },
        r matches Some(i) ==> i < messages@.len(),
{
    let ghost ms = mail(messages@);
    let ghost f = at_hand(recipient@);
    let mut i: usize = 0;
    while i < messages.len()
        invariant
            ms == mail(messages@),
            f == at_hand(recipient@),
            i <= messages@.len() == ms.len(),
            forall|j: int| 0 <= j < i ==> !f(#[trigger] ms[j]),
        decreases messages@.len() - i,
    {
        assert(ms[i as int] == messages@[i as int]@);
        if messages[i].state.unresolved() && same(messages[i].recipient.as_str(), recipient) {
            proof {
                lemma_first_is(ms, f, i as int);
            }
            return Some(i);
        }
        i += 1;
    }
    proof {
        lemma_none_is(ms, f);
    }
    None
}

fn cost(m: &Message) -> (r: usize)
    ensures
        r == weight(m@),
{
    match m.state {
        State::Queued => 2,
        State::Claimed => 1,
        _ => 0,
    }
}

fn count_reserved(messages: &Vec<Message>) -> (r: usize)
    requires
        messages@.len() <= usize::MAX / 8192,
    ensures
        r == reserved(mail(messages@)),
        r <= 2 * messages@.len(),
{
    let ghost ms = mail(messages@);
    let mut n: usize = 0;
    let mut i: usize = 0;
    assert(ms.take(0) =~= Seq::<MessageView>::empty());
    while i < messages.len()
        invariant
            ms == mail(messages@),
            messages@.len() <= usize::MAX / 8192,
            i <= messages@.len() == ms.len(),
            n == reserved(ms.take(i as int)),
            n <= 2 * i,
        decreases messages@.len() - i,
    {
        assert(ms[i as int] == messages@[i as int]@);
        n += cost(&messages[i]);
        i += 1;
        assert(ms.take(i as int).drop_last() =~= ms.take(i - 1));
    }
    assert(ms.take(i as int) =~= ms);
    n
}

fn count_unresolved(messages: &Vec<Message>) -> (r: usize)
    ensures
        r == unresolved(mail(messages@)),
        r <= messages@.len(),
{
    let ghost ms = mail(messages@);
    let mut n: usize = 0;
    let mut i: usize = 0;
    assert(ms.take(0) =~= Seq::<MessageView>::empty());
    while i < messages.len()
        invariant
            ms == mail(messages@),
            i <= messages@.len() == ms.len(),
            n == unresolved(ms.take(i as int)),
            n <= i,
        decreases messages@.len() - i,
    {
        assert(ms[i as int] == messages@[i as int]@);
        if messages[i].state.unresolved() {
            n += 1;
        }
        i += 1;
        assert(ms.take(i as int).drop_last() =~= ms.take(i - 1));
    }
    assert(ms.take(i as int) =~= ms);
    n
}

fn count_inbox(messages: &Vec<Message>, recipient: &str) -> (r: usize)
    ensures
        r == occupancy(mail(messages@), recipient@),
        r <= messages@.len(),
{
    let ghost ms = mail(messages@);
    let mut n: usize = 0;
    let mut i: usize = 0;
    assert(ms.take(0) =~= Seq::<MessageView>::empty());
    while i < messages.len()
        invariant
            ms == mail(messages@),
            i <= messages@.len() == ms.len(),
            n == occupancy(ms.take(i as int), recipient@),
            n <= i,
        decreases messages@.len() - i,
    {
        assert(ms[i as int] == messages@[i as int]@);
        if messages[i].state.unresolved() && same(messages[i].recipient.as_str(), recipient) {
            n += 1;
        }
        i += 1;
        assert(ms.take(i as int).drop_last() =~= ms.take(i - 1));
    }
    assert(ms.take(i as int) =~= ms);
    n
}

fn count_queued(messages: &Vec<Message>, recipient: &str) -> (r: usize)
    ensures
        r == queued(mail(messages@), recipient@),
{
    let ghost ms = mail(messages@);
    let mut n: usize = 0;
    let mut i: usize = 0;
    assert(ms.take(0) =~= Seq::<MessageView>::empty());
    while i < messages.len()
        invariant
            ms == mail(messages@),
            i <= messages@.len() == ms.len(),
            n == queued(ms.take(i as int), recipient@),
            n <= i,
        decreases messages@.len() - i,
    {
        assert(ms[i as int] == messages@[i as int]@);
        if messages[i].state == State::Queued && same(messages[i].recipient.as_str(), recipient) {
            n += 1;
        }
        i += 1;
        assert(ms.take(i as int).drop_last() =~= ms.take(i - 1));
    }
    assert(ms.take(i as int) =~= ms);
    n
}

fn numbered(instance: &str, mark: &str, sequence: u64) -> (r: String)
    ensures
        r@ == instance@ + mark@ + decimal_of(sequence as nat),
{
    let mut r = String::from_str(instance);
    r.push_str(mark);
    r.push_str(decimal(sequence).as_str());
    r
}

fn path_for(directory: &Directory, id: &str) -> (r: String)
    ensures
        r@ == path_of(directory@, id@),
{
    match directory.get(id) {
        Some(s) => s.path.clone(),
        None => String::from_str(id),
    }
}

impl Mailbox {
    pub open spec fn wf(&self) -> bool {
        inv(self@)
    }

    pub fn new(instance: String, limits: Limits) -> (r: Result<Self, Fault>)
        requires
            limits.messages <= usize::MAX / 8192,
            limits.operations <= usize::MAX / 2,
        ensures
            match r {
                Ok(m) => {
                    &&& is_instance(instance@)
                    &&& m.wf()
                    &&& m@ == (MailboxView {
                        instance: instance@,
                        limits,
                        sequence: 0,
                        messages: Seq::empty(),
                        receipts: Seq::empty(),
                        audit_failed: false,
                        auxiliary_events: 0,
                    })
                },
                Err(f) => !is_instance(instance@) && fault(f) == (
                    -32602int,
                    "invalid daemon instance"@,
                ),
            },
    {
        let c = chars(instance.as_str());
        let mut fits: bool = c.len() == 32;
        let mut i: usize = 0;
        while fits && i < c.len()
            invariant
                i <= c@.len(),
                c@ == instance@,
                fits ==> c@.len() == 32 && forall|j: int| 0 <= j < i ==> is_hex_char(#[trigger] c@[j]),
                !fits ==> !is_instance(c@),
            decreases c@.len() - i, if fits { 1int } else { 0int },
        {
            if is_hex(c[i]) {
                i += 1;
            } else {
                fits = false;
            }
        }
        if !fits {
            return Err((-32602, String::from_str("invalid daemon instance")));
        }
        let m = Mailbox {
            instance,
            limits,
            sequence: 0,
            messages: Vec::new(),
            receipts: Vec::new(),
            audit_failed: false,
            auxiliary_events: 0,
        };
        proof {
            assert(m@.messages =~= Seq::<MessageView>::empty());
            assert(m@.receipts =~= Seq::<ReceiptView>::empty());
            assert forall|r: Seq<char>| #[trigger] occupancy(m@.messages, r) <= limits.inbox by {}
        }
        Ok(m)
    }

    /// The message of that ID, for its sender, its recipient and the host.
    pub fn get(&self, actor: &str, id: &str) -> (r: Result<&Message, Fault>)
        ensures
            match first_where(self@.messages, visible_to(actor@, id@)) {
                Some(i) => r matches Ok(m) && m@ == self@.messages[i],
                None => r matches Err(f) && fault(f) == is_absent(),
            },
    {
        match find_visible(&self.messages, actor, id) {
            Some(i) => {
                assert(self@.messages[i as int] == self.messages@[i as int]@);
                Ok(&self.messages[i])
            },
            None => Err(absent()),
        }
    }

    pub fn status(&self, actor: &str) -> (r: Status)
        ensures
            is_status(r, self@, actor@),
    {
        let claim = match find_first(&self.messages, actor, State::Claimed) {
            Some(i) => Some(self.messages[i].id.clone()),
            None => None,
        };
        let head = match find_head(&self.messages, actor) {
            Some(i) => Some((self.messages[i].id.clone(), self.messages[i].claim_generation)),
            None => None,
        };
        Status {
            queued: count_queued(&self.messages, actor),
            claim,
            head,
            revision: self.sequence,
            audit_failed: self.audit_failed,
        }
    }

    fn claim(&self, actor: &str, id: &str, generation: u64) -> (r: Result<usize, Fault>)
        ensures
            match r {
                Ok(i) => claimed_by(self@, actor@, id@, generation) == Ok::<int, (int, Seq<char>)>(
                    i as int,
                ) && i < self.messages@.len(),
                Err(f) => claimed_by(self@, actor@, id@, generation) == Err::<
                    int,
                    (int, Seq<char>),
                >(fault(f)),
            },
    {
        match find_visible(&self.messages, actor, id) {
            None => Err(absent()),
            Some(i) => {
                let m = &self.messages[i];
                assert(self@.messages[i as int] == m@);
                if !same(m.recipient.as_str(), actor) {
                    return Err(absent());
                }
                if m.state != State::Claimed || m.claim_generation != generation {
                    return Err(conflict());
                }
                Ok(i)
            },
        }
    }

    fn new_message(
        &self,
        sender: &str,
        recipient: &str,
        body: &str,
        conversation: String,
        in_reply_to: Option<String>,
        directory: &Directory,
        now: u64,
    ) -> (r: Message)
        requires
            self.sequence < u64::MAX,
        ensures
            r@ == fresh_message(
                self@,
                sender@,
                recipient@,
                body@,
                conversation@,
                crate::text::maybe(in_reply_to),
                directory@,
                now,
            ),
    {
        let sequence: u64 = self.sequence + 1;
        Message {
            id: numbered(self.instance.as_str(), "-m", sequence),
            conversation,
            sender: String::from_str(sender),
            recipient: String::from_str(recipient),
            sender_path: path_for(directory, sender),
            recipient_path: path_for(directory, recipient),
            in_reply_to,
            body: String::from_str(body),
            created_sequence: sequence,
            created_at: now,
            state: State::Queued,
            claim_generation: 0,
            failure: None,
        }
    }

    fn prepare(&self, actor: &str, command: &Mutation, directory: &Directory, now: u64) -> (r:
        Result<Change, Fault>)
        requires
            self.sequence < u64::MAX,
        ensures
            match r {
                Ok(c) => prepared(self@, actor@, command@, directory@, now) == Ok::<
                    ChangeView,
                    (int, Seq<char>),
                >(c@),
                Err(f) => prepared(self@, actor@, command@, directory@, now) == Err::<
                    ChangeView,
                    (int, Seq<char>),
                >(fault(f)),
            },
    {
        match command {
            Mutation::Send(p) => {
                let recipient = match resolve(directory, actor, p.to.as_str()) {
                    Ok(id) => id,
                    Err(f) => {
                        return Err(f);
                    },
                };
                let conversation = match &p.conversation {
                    Some(id) => {
                        if !find_thread(&self.messages, actor, id.as_str()) {
                            return Err(absent());
                        }
                        id.clone()
                    },
                    None => numbered(self.instance.as_str(), "-c", self.sequence + 1),
                };
                let m = self.new_message(
                    actor,
                    recipient.as_str(),
                    p.body.as_str(),
                    conversation,
                    None,
                    directory,
                    now,
                );
                Ok(
                    Change {
                        replaced: None,
                        outcome: Outcome::Sent(m.copy()),
                        data: ChangeData::Accepted(m.copy()),
                        added: Some(m),
                    },
                )
            },
            Mutation::Next(_) => {
                let current = match find_first(&self.messages, actor, State::Claimed) {
                    Some(i) => Some(i),
                    None => find_first(&self.messages, actor, State::Queued),
                };
                match current {
                    None => Ok(
                        Change {
                            replaced: None,
                            added: None,
                            outcome: Outcome::Empty,
                            data: ChangeData::Empty,
                        },
                    ),
                    Some(i) => {
                        let mut m = self.messages[i].copy();
                        assert(self@.messages[i as int] == m@);
                        m.state = State::Claimed;
                        if m.claim_generation == 0 {
                            m.claim_generation = 1;
                        }
                        Ok(
                            Change {
                                added: None,
                                outcome: Outcome::Claimed {
                                    message: m.copy(),
                                    claim_generation: m.claim_generation,
                                },
                                data: ChangeData::Claimed {
                                    id: m.id.clone(),
                                    claim_generation: m.claim_generation,
                                },
                                replaced: Some((i, m)),
                            },
                        )
                    },
                }
            },
            Mutation::Reply(p) => {
                let i = match self.claim(actor, p.message.as_str(), p.claim_generation) {
                    Ok(i) => i,
                    Err(f) => {
                        return Err(f);
                    },
                };
                let mut original = self.messages[i].copy();
                assert(self@.messages[i as int] == original@);
                if !live(directory, original.sender.as_str()) {
                    return Err(absent());
                }
                let reply = self.new_message(
                    actor,
                    original.sender.as_str(),
                    p.body.as_str(),
                    original.conversation.clone(),
                    Some(original.id.clone()),
                    directory,
                    now,
                );
                original.state = State::Completed;
                Ok(
                    Change {
                        outcome: Outcome::Replied {
                            reply: reply.copy(),
                            completed: original.id.clone(),
                        },
                        data: ChangeData::Replied {
                            message: reply.copy(),
                            completed: original.id.clone(),
                        },
                        replaced: Some((i, original)),
                        added: Some(reply),
                    },
                )
            },
            Mutation::Complete(p) => {
                let i = match self.claim(actor, p.message.as_str(), p.claim_generation) {
                    Ok(i) => i,
                    Err(f) => {
                        return Err(f);
                    },
                };
                let mut m = self.messages[i].copy();
                assert(self@.messages[i as int] == m@);
                m.state = State::Completed;
                Ok(
                    Change {
                        added: None,
                        outcome: Outcome::Completed { id: m.id.clone(), state: m.state },
                        data: ChangeData::Completed {
                            id: m.id.clone(),
                            claim_generation: m.claim_generation,
                        },
                        replaced: Some((i, m)),
                    },
                )
            },
            Mutation::Requeue(p) => {
                let i = match find_visible(&self.messages, actor, p.message.as_str()) {
                    Some(i) => i,
                    None => {
                        return Err(absent());
                    },
                };
                let mut m = self.messages[i].copy();
                assert(self@.messages[i as int] == m@);
                if !same(m.recipient.as_str(), actor) && !same(actor, "host") {
                    return Err(absent());
                }
                if m.state != State::Claimed || m.claim_generation != p.claim_generation {
                    return Err(conflict());
                }
                if !live(directory, m.recipient.as_str()) {
                    return Err(absent());
                }
                if m.claim_generation == u64::MAX {
                    return Err(capacity());
                }
                m.state = State::Queued;
                m.claim_generation = m.claim_generation + 1;
                Ok(
                    Change {
                        added: None,
                        outcome: Outcome::Requeued {
                            id: m.id.clone(),
                            claim_generation: m.claim_generation,
                        },
                        data: ChangeData::Requeued {
                            id: m.id.clone(),
                            claim_generation: m.claim_generation,
                            reason: p.reason.clone(),
                        },
                        replaced: Some((i, m)),
                    },
                )
            },
        }
    }

    /// The operations to keep free after a change, if everything still fits.
    fn check_capacity(&self, change: &Change) -> (r: Option<usize>)
        requires
            inv(self@),
            sound(self@, change@),
        ensures
            match r {
                Some(n) => {
                    &&& fits(after(self@.messages, change@), self@.receipts.len() + 1, self@.limits)
                    &&& n == reserved(after(self@.messages, change@))
                    &&& n <= usize::MAX / 2048
                },
                None => !fits(
                    after(self@.messages, change@),
                    self@.receipts.len() + 1,
                    self@.limits,
                ),
            },
    {
        let ghost ms = self@.messages;
        let ghost end = after(ms, change@);
        let ghost kept = match change@.replaced {
            Some((i, m)) => ms.update(i, m),
            None => ms,
        };
        if change.added.is_some() && self.messages.len() >= self.limits.messages {
            return None;
        }
        let mut n: usize = count_reserved(&self.messages);
        if let Some((i, m)) = &change.replaced {
            assert(ms[*i as int] == self.messages@[*i as int]@);
            proof {
                lemma_reserved_update(ms, *i as int, m@);
            }
            n = n - cost(&self.messages[*i]) + cost(m);
        }
        assert(n == reserved(kept));
        proof {
            assert forall|r: Seq<char>| #[trigger] occupancy(kept, r) <= occupancy(ms, r) by {
                if let Some((i, m)) = change@.replaced {
                    lemma_occupancy_update(ms, i, m, r);
                }
            }
        }
        if let Some(m) = &change.added {
            proof {
                lemma_push(kept, m@, m@.recipient);
            }
            n = n + cost(m);
            let mut count: usize = count_inbox(&self.messages, m.recipient.as_str());
            if let Some((i, old)) = &change.replaced {
                assert(ms[*i as int] == self.messages@[*i as int]@);
                proof {
                    lemma_occupancy_update(ms, *i as int, old@, m@.recipient);
                }
                if same(old.recipient.as_str(), m.recipient.as_str()) && !old.state.unresolved() {
                    count = count - 1;
                }
            }
            assert(count == occupancy(kept, m@.recipient));
            if count >= self.limits.inbox {
                assert(occupancy(end, m@.recipient) > self.limits.inbox);
                return None;
            }
        }
        assert(n == reserved(end));
        assert forall|r: Seq<char>| #[trigger] occupancy(end, r) <= self.limits.inbox by {
            if let Some(m) = change@.added {
                lemma_push(kept, m, r);
            }
            assert(occupancy(ms, r) <= self.limits.inbox);
        }
        if self.receipts.len() + 1 + n > self.limits.operations {
            return None;
        }
        Some(n)
    }

    fn find_receipt(&self, actor: &str, command: &Mutation) -> (r: Option<usize>)
        ensures
            match r {
                Some(i) => i < self.receipts@.len() && receipt_of(
                    self@.receipts,
                    actor@,
                    command@,
                ) == Some(self.receipts@[i as int]@),
                None => receipt_of(self@.receipts, actor@, command@) is None,
            },
    {
        let ghost rs = self@.receipts;
        let mut i: usize = 0;
        assert(rs.skip(0) =~= rs);
        while i < self.receipts.len()
            invariant
                rs == self@.receipts,
                i <= self.receipts@.len() == rs.len(),
                receipt_of(rs, actor@, command@) == receipt_of(
                    rs.skip(i as int),
                    actor@,
                    command@,
                ),
            decreases self.receipts@.len() - i,
        {
            let receipt = &self.receipts[i];
            assert(rs[i as int] == receipt@);
            if same(receipt.command.key(), command.key()) && same(
                receipt.command.method(),
                command.method(),
            ) && same(receipt.actor.as_str(), actor) {
                return Some(i);
            }
            i += 1;
            assert(rs.skip(i as int) =~= rs.skip(i - 1).drop_first());
        }
        None
    }

    /// What comes of an operation before the audit is asked. A repeated operation
    /// is recognized before its target is looked up, so that a name that has
    /// changed hands cannot redirect it.
    pub fn plan(&self, actor: &str, command: Mutation, directory: &Directory, now: u64) -> (r: Plan)
        requires
            self.wf(),
        ensures
            r@ == planned(self@, actor@, command@, directory@, now),
    {
        if let Err(e) = command.validate() {
            return Plan::Refuse((-32602, e));
        }
        if let Some(i) = self.find_receipt(actor, &command) {
            if !self.receipts[i].command.same(&command) {
                return Plan::Refuse(conflict());
            }
            return Plan::Replay(self.receipts[i].result.copy());
        }
        if self.audit_failed {
            return Plan::Refuse(unaudited());
        }
        if !live(directory, actor) {
            return Plan::Refuse(absent());
        }
        if self.sequence == u64::MAX {
            return Plan::Refuse(capacity());
        }
        let change = match self.prepare(actor, &command, directory, now) {
            Ok(change) => change,
            Err(f) => {
                return Plan::Refuse(f);
            },
        };
        proof {
            lemma_prepared_sound(self@, actor@, command@, directory@, now);
        }
        match self.check_capacity(&change) {
            None => Plan::Refuse(capacity()),
            Some(n) => {
                let mut sessions: Vec<String> = Vec::new();
                if let Some((_, m)) = &change.replaced {
                    sessions.push(m.sender.clone());
                    sessions.push(m.recipient.clone());
                }
                if let Some(m) = &change.added {
                    sessions.push(m.sender.clone());
                    sessions.push(m.recipient.clone());
                }
                assert(texts(sessions@) =~= concerned(change@));
                let event = Event {
                    instance: self.instance.clone(),
                    sequence: self.sequence + 1,
                    timestamp: now,
                    kind: change.data.kind(),
                    actor: String::from_str(actor),
                    sessions,
                    data: EventData::Changed {
                        key: String::from_str(command.key()),
                        method: String::from_str(command.method()),
                        change: change.data.copy(),
                    },
                };
                Plan::Commit(
                    Staged {
                        actor: String::from_str(actor),
                        command,
                        change,
                        event,
                        reserved_bytes: n * 2048,
                    },
                )
            },
        }
    }

    /// Publishes a staged operation, or says why the audit prevents it.
    pub fn commit(&mut self, staged: Staged, verdict: Result<(), AuditError>) -> (r: Result<
        Outcome,
        Fault,
    >)
        requires
            old(self).wf(),
            exists|dir: Seq<SessionView>, now: u64|
                #[trigger] planned(
                    old(self)@,
                    staged@.actor,
                    staged@.command,
                    dir,
                    now,
                ) == PlanView::Commit(staged@),
        ensures
            final(self).wf(),
            match verdict {
                Ok(()) => {
                    &&& final(self)@ == committed(old(self)@, staged@)
                    &&& r matches Ok(o) && o@ == staged@.change.outcome
                },
                Err(e) => {
                    &&& final(self)@ == refused(old(self)@, e).0
                    &&& r matches Err(f) && fault(f) == refused(old(self)@, e).1
                },
            },
    {
        let ghost before = self@;
        let ghost goal = committed(before, staged@);
        proof {
            let (dir, now) = choose|dir: Seq<SessionView>, now: u64|
                #[trigger] planned(
                    before,
                    staged@.actor,
                    staged@.command,
                    dir,
                    now,
                ) == PlanView::Commit(staged@);
            lemma_prepared_sound(before, staged@.actor, staged@.command, dir, now);
            lemma_committed_inv(before, staged@.actor, staged@.command, dir, now, staged@);
        }
        if let Err(e) = verdict {
            return Err(self.audit_error(e));
        }
        let Staged { actor, command, change, event, reserved_bytes } = staged;
        let Change { replaced, added, outcome, data } = change;
        if let Some((i, m)) = replaced {
            self.messages.set(i, m);
        }
        if let Some(m) = added {
            self.messages.push(m);
        }
        self.sequence = event.sequence;
        let result = outcome.copy();
        self.receipts.push(Receipt { actor, command, result: outcome });
        proof {
            assert(self@.messages =~= goal.messages);
            assert(self@.receipts =~= goal.receipts);
        }
        Ok(result)
    }

    fn audit_error(&mut self, error: AuditError) -> (r: Fault)
        ensures
            final(self)@ == refused(old(self)@, error).0,
            fault(r) == refused(old(self)@, error).1,
    {
        match error {
            AuditError::Capacity => capacity(),
            AuditError::Unavailable => {
                self.audit_failed = true;
                unaudited()
            },
        }
    }

    /// The event of a note beside the mailbox's own operations.
    pub fn plan_note(&self, actor: &str, kind: &str, data: EventData, now: u64) -> (r: Result<
        (Event, usize),
        Fault,
    >)
        requires
            self.wf(),
        ensures
            match r {
                Ok((event, bytes)) => noted(self@, actor@, kind@, data@, now) == Ok::<
                    (EventView, nat),
                    (int, Seq<char>),
                >((event@, bytes as nat)),
                Err(f) => noted(self@, actor@, kind@, data@, now) == Err::<
                    (EventView, nat),
                    (int, Seq<char>),
                >(fault(f)),
            },
    {
        if self.audit_failed {
            return Err(unaudited());
        }
        if self.auxiliary_events >= 16384 || self.sequence == u64::MAX {
            return Err(capacity());
        }
        let about = match &data {
            EventData::Note(data) => match data.get("message") {
                Some(Json::Text(id)) => find_id(&self.messages, id.as_str()),
                _ => None,
            },
            _ => None,
        };
        let mut sessions: Vec<String> = Vec::new();
        match about {
            Some(i) => {
                assert(self@.messages[i as int] == self.messages@[i as int]@);
                sessions.push(self.messages[i].sender.clone());
                sessions.push(self.messages[i].recipient.clone());
                assert(texts(sessions@) =~= seq![
                    self@.messages[i as int].sender,
                    self@.messages[i as int].recipient,
                ]);
            },
            None => {
                sessions.push(String::from_str(actor));
                assert(texts(sessions@) =~= seq![actor@]);
            },
        }
        let bytes: usize = count_unresolved(&self.messages) * 2048;
        Ok(
            (
                Event {
                    instance: self.instance.clone(),
                    sequence: self.sequence + 1,
                    timestamp: now,
                    kind: String::from_str(kind),
                    actor: String::from_str(actor),
                    sessions,
                    data,
                },
                bytes,
            ),
        )
    }

    /// Counts a note that the audit has taken, or says why it prevents it.
    pub fn finish_note(&mut self, verdict: Result<(), AuditError>) -> (r: Result<(), Fault>)
        requires
            old(self).wf(),
            old(self)@.sequence < u64::MAX,
            old(self)@.auxiliary_events < 16384,
        ensures
            final(self).wf(),
            match verdict {
                Ok(()) => final(self)@ == with_note(old(self)@) && r is Ok,
                Err(e) => {
                    &&& final(self)@ == refused(old(self)@, e).0
                    &&& r matches Err(f) && fault(f) == refused(old(self)@, e).1
                },
            },
    {
        match verdict {
            Err(e) => Err(self.audit_error(e)),
            Ok(()) => {
                self.sequence = self.sequence + 1;
                self.auxiliary_events = self.auxiliary_events + 1;
                Ok(())
            },
        }
    }

    /// Notes something that is no operation of the mailbox.
    pub fn record<A: Audit>(
        &mut self,
        actor: &str,
        kind: &str,
        data: EventData,
        now: u64,
        audit: &mut A,
    ) -> (r: Result<(), Fault>)
        requires
            old(self).wf(),
        ensures
            final(self).wf(),
            record_done(
                old(self)@,
                final(self)@,
                old(audit).log(),
                final(audit).log(),
                actor@,
                kind@,
                data@,
                now,
                failure_of(r),
            ),
    {
        match self.plan_note(actor, kind, data, now) {
            Err(f) => Err(f),
            Ok((event, bytes)) => {
                let verdict = audit.append(&event, bytes);
                assert(audit.log().drop_last() =~= old(audit).log());
                let r = self.finish_note(verdict);
                r
            },
        }
    }

    /// Carries out an operation. A repeated one gives again what it gave, even
    /// where the audit has failed, and changes and records nothing.
    pub fn execute<A: Audit>(
        &mut self,
        actor: &str,
        command: Mutation,
        directory: &Directory,
        now: u64,
        audit: &mut A,
    ) -> (r: Result<Outcome, Fault>)
        requires
            old(self).wf(),
        ensures
            final(self).wf(),
            execute_done(
                old(self)@,
                final(self)@,
                old(audit).log(),
                final(audit).log(),
                actor@,
                command@,
                directory@,
                now,
                given_by(r),
            ),
    {
        let ghost before = self@;
        match self.plan(actor, command, directory, now) {
            Plan::Refuse(f) => Err(f),
            Plan::Replay(outcome) => Ok(outcome),
            Plan::Commit(staged) => {
                let verdict = audit.append(staged.event(), staged.reserved_bytes());
                assert(planned(before, staged@.actor, staged@.command, directory@, now)
                    == PlanView::Commit(staged@));
                assert(audit.log().drop_last() =~= old(audit).log());
                let r = self.commit(staged, verdict);
                r
            },
        }
    }

    /// The event of a recipient that stops, and the bytes that must stay free
    /// beside it; nothing where it leaves nothing unresolved.
    pub fn plan_stop(&self, recipient: &str, now: u64) -> (r: Result<Option<(Event, usize)>, Fault>)
        requires
            self.wf(),
        ensures
            match r {
                Ok(None) => stop_planned(self@, recipient@, now) == Ok::<
                    Option<(EventView, nat)>,
                    (int, Seq<char>),
                >(None),
                Ok(Some((event, bytes))) => stop_planned(self@, recipient@, now) == Ok::<
                    Option<(EventView, nat)>,
                    (int, Seq<char>),
                >(Some((event@, bytes as nat))),
                Err(f) => stop_planned(self@, recipient@, now) == Err::<
                    Option<(EventView, nat)>,
                    (int, Seq<char>),
                >(fault(f)),
            },
    {
        let ghost ms = self@.messages;
        let ghost end = stopped(ms, recipient@);
        let mut sessions: Vec<String> = Vec::new();
        let mut left: Vec<String> = Vec::new();
        let mut kept: usize = 0;
        let mut i: usize = 0;
        assert(ms.take(0) =~= Seq::<MessageView>::empty());
        assert(end.take(0) =~= Seq::<MessageView>::empty());
        assert(texts(sessions@) =~= parties(pending(ms.take(0), recipient@)));
        assert(texts(left@) =~= ids(pending(ms.take(0), recipient@)));
        while i < self.messages.len()
            invariant
                inv(self@),
                ms == self@.messages,
                end == stopped(ms, recipient@),
                i <= self.messages@.len() == ms.len() == end.len(),
                texts(sessions@) == parties(pending(ms.take(i as int), recipient@)),
                texts(left@) == ids(pending(ms.take(i as int), recipient@)),
                kept == reserved(end.take(i as int)),
                kept <= 2 * i,
            decreases self.messages@.len() - i,
        {
            let m = &self.messages[i];
            let ghost before = pending(ms.take(i as int), recipient@);
            assert(ms[i as int] == m@);
            assert(ms.take(i + 1).drop_last() =~= ms.take(i as int));
            assert(end.take(i + 1).drop_last() =~= end.take(i as int));
            if m.state.unresolved() && same(m.recipient.as_str(), recipient) {
                sessions.push(m.sender.clone());
                sessions.push(m.recipient.clone());
                let ghost known = left@;
                left.push(m.id.clone());
                proof {
                    let now_pending = before.push(m@);
                    assert(texts(left@) =~= texts(known).push(m@.id));
                    assert(ids(now_pending) =~= ids(before).push(m@.id));
                    assert(pending(ms.take(i + 1), recipient@) == now_pending);
                    assert(now_pending.drop_last() =~= before);
                    assert(texts(sessions@) =~= parties(before).push(m@.sender).push(m@.recipient));
                    assert(texts(left@) =~= ids(now_pending));
                }
            } else {
                kept += cost(m);
            }
            i += 1;
        }
        assert(ms.take(i as int) =~= ms);
        assert(end.take(i as int) =~= end);
        if left.len() == 0 {
            return Ok(None);
        }
        if self.audit_failed {
            return Err(unaudited());
        }
        if self.sequence == u64::MAX {
            return Err(capacity());
        }
        Ok(
            Some(
                (
                    Event {
                        instance: self.instance.clone(),
                        sequence: self.sequence + 1,
                        timestamp: now,
                        kind: String::from_str("recipient.stopped"),
                        actor: String::from_str("host"),
                        sessions,
                        data: EventData::Stopped {
                            recipient: String::from_str(recipient),
                            messages: left,
                        },
                    },
                    kept * 2048,
                ),
            ),
        )
    }

    /// Fails what a stopped recipient leaves unresolved, or says why the audit
    /// prevents it.
    pub fn finish_stop(&mut self, recipient: &str, verdict: Result<(), AuditError>) -> (r: Result<
        (),
        Fault,
    >)
        requires
            old(self).wf(),
            old(self)@.sequence < u64::MAX,
        ensures
            final(self).wf(),
            match verdict {
                Ok(()) => final(self)@ == with_stop(old(self)@, recipient@) && r is Ok,
                Err(e) => {
                    &&& final(self)@ == refused(old(self)@, e).0
                    &&& r matches Err(f) && fault(f) == refused(old(self)@, e).1
                },
            },
    {
        if let Err(e) = verdict {
            return Err(self.audit_error(e));
        }
        let ghost before = self@;
        let ghost ms = before.messages;
        let ghost end = stopped(ms, recipient@);
        let mut i: usize = 0;
        while i < self.messages.len()
            invariant
                ms == before.messages,
                before == old(self)@,
                end == stopped(ms, recipient@),
                i <= self.messages@.len() == ms.len() == end.len(),
                self@ == (MailboxView { messages: mail(self.messages@), ..before }),
                forall|j: int| 0 <= j < i ==> (#[trigger] self.messages@[j])@ == end[j],
                forall|j: int| i <= j < ms.len() ==> (#[trigger] self.messages@[j])@ == ms[j],
            decreases ms.len() - i,
        {
            assert(self.messages@[i as int]@ == ms[i as int]);
            if self.messages[i].state.unresolved() && same(
                self.messages[i].recipient.as_str(),
                recipient,
            ) {
                let mut m = self.messages[i].copy();
                m.state = State::Failed;
                m.failure = Some(String::from_str("recipient stopped"));
                self.messages.set(i, m);
            }
            i += 1;
        }
        self.sequence = self.sequence + 1;
        proof {
            assert(self@.messages =~= end);
            lemma_stop_inv(before, recipient@);
        }
        Ok(())
    }

    /// A recipient stops. What it leaves unresolved fails, without using up the
    /// room that is kept for other operations.
    pub fn stop_recipient<A: Audit>(&mut self, recipient: &str, now: u64, audit: &mut A) -> (r:
        Result<(), Fault>)
        requires
            old(self).wf(),
        ensures
            final(self).wf(),
            stop_done(
                old(self)@,
                final(self)@,
                old(audit).log(),
                final(audit).log(),
                recipient@,
                now,
                failure_of(r),
            ),
    {
        match self.plan_stop(recipient, now) {
            Err(f) => Err(f),
            Ok(None) => Ok(()),
            Ok(Some((event, bytes))) => {
                let verdict = audit.append(&event, bytes);
                assert(audit.log().drop_last() =~= old(audit).log());
                let r = self.finish_stop(recipient, verdict);
                r
            },
        }
    }
}

proof fn lemma_stopped_counts(ms: Seq<MessageView>, recipient: Seq<char>, r: Seq<char>)
    ensures
        reserved(stopped(ms, recipient)) <= reserved(ms),
        occupancy(stopped(ms, recipient), r) <= occupancy(ms, r),
    decreases ms.len(),
{
    if ms.len() > 0 {
        lemma_stopped_counts(ms.drop_last(), recipient, r);
        assert(stopped(ms, recipient).drop_last() =~= stopped(ms.drop_last(), recipient));
    }
}

proof fn lemma_stop_inv(s: MailboxView, recipient: Seq<char>)
    requires
        inv(s),
        s.sequence < u64::MAX,
    ensures
        inv(with_stop(s, recipient)),
{
    let t = with_stop(s, recipient);
    assert forall|r: Seq<char>| #[trigger] occupancy(t.messages, r) <= s.limits.inbox by {
        lemma_stopped_counts(s.messages, recipient, r);
        assert(occupancy(s.messages, r) <= s.limits.inbox);
    }
    lemma_stopped_counts(s.messages, recipient, recipient);
    assert forall|i: int| 0 <= i < t.messages.len() implies ({
        let m = #[trigger] t.messages[i];
        &&& m.id == message_id(s.instance, m.created_sequence)
        &&& m.created_sequence <= t.sequence
        &&& m.state == State::Claimed ==> m.claim_generation > 0
    }) by {
        assert(s.messages[i].created_sequence <= s.sequence);
    }
    assert forall|i: int, j: int| 0 <= i < j < t.messages.len() implies (
    #[trigger] t.messages[i]).created_sequence < (#[trigger] t.messages[j]).created_sequence by {
        assert(s.messages[i].created_sequence < s.messages[j].created_sequence);
    }
    assert forall|i: int, j: int| 0 <= i < j < t.messages.len() implies !((
    #[trigger] t.messages[i]).state == State::Claimed && (#[trigger] t.messages[j]).state
        == State::Claimed && t.messages[i].recipient == t.messages[j].recipient) by {
        assert(!(s.messages[i].state == State::Claimed && s.messages[j].state == State::Claimed
            && s.messages[i].recipient == s.messages[j].recipient));
    }
}

} // verus!
