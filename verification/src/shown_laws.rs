//! What is told of messages, sessions and requests.
use vstd::prelude::*;

use crate::answers::{maybe_text, shown_texts, Shown};
use crate::controller::SandboxRecord;
use crate::integration::{driver_name, phase_name, Answer, Decision, Delivery, NamesView, Standing};
use crate::mailbox::{ChangeDataView, EventDataView, OutcomeView, Status};
use crate::messages::MessageView;
use crate::records::{PermissionRecord, PreviewShown, SessionRecord, Snapshot};
use crate::text::maybe;
use crate::values::{
    answer_shown, change_shown, data_shown, head_shown, health_name, identity_shown, inbox_shown,
    maybe_flag, maybe_number, message_shown, outcome_shown, own_shown, permission_shown,
    preview_shown, sandbox_shown, session_shown, snapshot_shown, standing_shown, state_name,
};

verus! {

/// Whether the fields of `s` say `v` under `name`.
pub open spec fn tells(s: Shown, name: Seq<char>, v: Shown) -> bool {
    &&& s is Fields
    &&& exists|i: int| 0 <= i < s->Fields_0.len() && #[trigger] s->Fields_0[i] == (name, v)
}

/// A message is told whole, in the words it was sent with.
pub proof fn a_message_is_told_whole(m: MessageView)
    ensures
        message_shown(m)->Fields_0.len() == 13,
        tells(message_shown(m), "id"@, Shown::Text(m.id)),
        tells(message_shown(m), "conversation"@, Shown::Text(m.conversation)),
        tells(message_shown(m), "sender"@, Shown::Text(m.sender)),
        tells(message_shown(m), "recipient"@, Shown::Text(m.recipient)),
        tells(message_shown(m), "sender_path"@, Shown::Text(m.sender_path)),
        tells(message_shown(m), "recipient_path"@, Shown::Text(m.recipient_path)),
        tells(message_shown(m), "in_reply_to"@, maybe_text(m.in_reply_to)),
        tells(message_shown(m), "body"@, Shown::Text(m.body)),
        tells(message_shown(m), "created_sequence"@, Shown::Number(m.created_sequence as int)),
        tells(message_shown(m), "created_at"@, Shown::Number(m.created_at as int)),
        tells(message_shown(m), "state"@, Shown::Text(state_name(m.state))),
        tells(message_shown(m), "claim_generation"@, Shown::Number(m.claim_generation as int)),
        tells(message_shown(m), "failure"@, maybe_text(m.failure)),
{
    let said = message_shown(m);
    assert(said->Fields_0[0] == ("id"@, Shown::Text(m.id)));
    assert(said->Fields_0[1] == ("conversation"@, Shown::Text(m.conversation)));
    assert(said->Fields_0[2] == ("sender"@, Shown::Text(m.sender)));
    assert(said->Fields_0[3] == ("recipient"@, Shown::Text(m.recipient)));
    assert(said->Fields_0[4] == ("sender_path"@, Shown::Text(m.sender_path)));
    assert(said->Fields_0[5] == ("recipient_path"@, Shown::Text(m.recipient_path)));
    assert(said->Fields_0[6] == ("in_reply_to"@, maybe_text(m.in_reply_to)));
    assert(said->Fields_0[7] == ("body"@, Shown::Text(m.body)));
    assert(said->Fields_0[8] == ("created_sequence"@, Shown::Number(m.created_sequence as int)));
    assert(said->Fields_0[9] == ("created_at"@, Shown::Number(m.created_at as int)));
    assert(said->Fields_0[10] == ("state"@, Shown::Text(state_name(m.state))));
    assert(said->Fields_0[11] == ("claim_generation"@, Shown::Number(m.claim_generation as int)));
    assert(said->Fields_0[12] == ("failure"@, maybe_text(m.failure)));
}

/// Who fetches a message is told it and the claim under which it is held.
pub proof fn a_claim_is_told(message: MessageView, claim_generation: u64)
    ensures
        outcome_shown(OutcomeView::Claimed { message, claim_generation })->Fields_0.len() == 2,
        tells(outcome_shown(OutcomeView::Claimed { message, claim_generation }), "message"@,
            message_shown(message)),
        tells(outcome_shown(OutcomeView::Claimed { message, claim_generation }),
            "claim_generation"@, Shown::Number(claim_generation as int)),
{
    let said = outcome_shown(OutcomeView::Claimed { message, claim_generation });
    assert(said->Fields_0[0] == ("message"@, message_shown(message)));
    assert(said->Fields_0[1] == ("claim_generation"@, Shown::Number(claim_generation as int)));
}

/// Who finds nothing is told that there is no message.
pub proof fn an_empty_inbox_is_told()
    ensures
        outcome_shown(OutcomeView::Empty)->Fields_0.len() == 2,
        tells(outcome_shown(OutcomeView::Empty), "message"@, Shown::Nothing),
        tells(outcome_shown(OutcomeView::Empty), "claim_generation"@, Shown::Nothing),
{
    let said = outcome_shown(OutcomeView::Empty);
    assert(said->Fields_0[0] == ("message"@, Shown::Nothing));
    assert(said->Fields_0[1] == ("claim_generation"@, Shown::Nothing));
}

/// Who answers a message is told the answer and the message that it completes.
pub proof fn a_reply_is_told(reply: MessageView, completed: Seq<char>)
    ensures
        outcome_shown(OutcomeView::Replied { reply, completed })->Fields_0.len() == 2,
        tells(outcome_shown(OutcomeView::Replied { reply, completed }), "reply"@,
            message_shown(reply)),
        tells(outcome_shown(OutcomeView::Replied { reply, completed }), "completed"@,
            Shown::Text(completed)),
{
    let said = outcome_shown(OutcomeView::Replied { reply, completed });
    assert(said->Fields_0[0] == ("reply"@, message_shown(reply)));
    assert(said->Fields_0[1] == ("completed"@, Shown::Text(completed)));
}

/// Who asks for their inbox is told what waits there.
pub proof fn an_inbox_is_told(s: Status, integration: Shown)
    ensures
        inbox_shown(s, integration)->Fields_0.len() == 6,
        tells(inbox_shown(s, integration), "queued"@, Shown::Number(s.queued as int)),
        tells(inbox_shown(s, integration), "claim"@, maybe_text(maybe(s.claim))),
        tells(inbox_shown(s, integration), "head"@, head_shown(s.head)),
        tells(inbox_shown(s, integration), "revision"@, Shown::Number(s.revision as int)),
        tells(inbox_shown(s, integration), "audit_failed"@, Shown::Flag(s.audit_failed)),
        tells(inbox_shown(s, integration), "integration"@, integration),
{
    let said = inbox_shown(s, integration);
    assert(said->Fields_0[0] == ("queued"@, Shown::Number(s.queued as int)));
    assert(said->Fields_0[1] == ("claim"@, maybe_text(maybe(s.claim))));
    assert(said->Fields_0[2] == ("head"@, head_shown(s.head)));
    assert(said->Fields_0[3] == ("revision"@, Shown::Number(s.revision as int)));
    assert(said->Fields_0[4] == ("audit_failed"@, Shown::Flag(s.audit_failed)));
    assert(said->Fields_0[5] == ("integration"@, integration));
}

/// The host is told all of a session.
pub proof fn a_session_is_told_whole(r: SessionRecord)
    ensures
        session_shown(r)->Fields_0.len() == 22,
        tells(session_shown(r), "docker_enabled"@, Shown::Flag(r.docker_enabled)),
        tells(session_shown(r), "docker_scope"@, maybe_text(maybe(r.docker_scope))),
        tells(session_shown(r), "id"@, Shown::Text(r.id@)),
        tells(session_shown(r), "agent_name"@, Shown::Text(r.agent_name@)),
        tells(session_shown(r), "parent"@, maybe_text(maybe(r.parent))),
        tells(session_shown(r), "path"@, Shown::Text(r.path@)),
        tells(session_shown(r), "name"@, Shown::Text(r.name@)),
        tells(session_shown(r), "description"@, Shown::Text(r.description@)),
        tells(session_shown(r), "configuration"@, Shown::Text(r.configuration@)),
        tells(session_shown(r), "state"@, Shown::Text(r.state.text())),
        tells(session_shown(r), "identity"@, identity_shown(r.identity)),
        tells(session_shown(r), "initial_packages"@, shown_texts(r.initial_packages@)),
        tells(session_shown(r), "packages"@, shown_texts(r.packages@)),
        tells(session_shown(r), "terminal"@, Shown::Text(r.terminal@)),
        tells(session_shown(r), "pty_eof"@, Shown::Flag(r.pty_eof)),
        tells(session_shown(r), "terminal_complete"@, Shown::Flag(r.terminal_complete)),
        tells(session_shown(r), "terminal_interrupted"@, Shown::Flag(r.terminal_interrupted)),
        tells(session_shown(r), "terminal_attached"@, Shown::Flag(r.terminal_attached)),
        tells(session_shown(r), "terminal_detached"@, Shown::Flag(r.terminal_detached)),
        tells(session_shown(r), "exit_code"@, maybe_number(r.exit_code)),
        tells(session_shown(r), "stop_reason"@, maybe_text(maybe(r.stop_reason))),
        tells(session_shown(r), "detail"@, maybe_text(maybe(r.detail))),
{
    let said = session_shown(r);
    assert(said->Fields_0[0] == ("docker_enabled"@, Shown::Flag(r.docker_enabled)));
    assert(said->Fields_0[1] == ("docker_scope"@, maybe_text(maybe(r.docker_scope))));
    assert(said->Fields_0[2] == ("id"@, Shown::Text(r.id@)));
    assert(said->Fields_0[3] == ("agent_name"@, Shown::Text(r.agent_name@)));
    assert(said->Fields_0[4] == ("parent"@, maybe_text(maybe(r.parent))));
    assert(said->Fields_0[5] == ("path"@, Shown::Text(r.path@)));
    assert(said->Fields_0[6] == ("name"@, Shown::Text(r.name@)));
    assert(said->Fields_0[7] == ("description"@, Shown::Text(r.description@)));
    assert(said->Fields_0[8] == ("configuration"@, Shown::Text(r.configuration@)));
    assert(said->Fields_0[9] == ("state"@, Shown::Text(r.state.text())));
    assert(said->Fields_0[10] == ("identity"@, identity_shown(r.identity)));
    assert(said->Fields_0[11] == ("initial_packages"@, shown_texts(r.initial_packages@)));
    assert(said->Fields_0[12] == ("packages"@, shown_texts(r.packages@)));
    assert(said->Fields_0[13] == ("terminal"@, Shown::Text(r.terminal@)));
    assert(said->Fields_0[14] == ("pty_eof"@, Shown::Flag(r.pty_eof)));
    assert(said->Fields_0[15] == ("terminal_complete"@, Shown::Flag(r.terminal_complete)));
    assert(said->Fields_0[16] == ("terminal_interrupted"@, Shown::Flag(r.terminal_interrupted)));
    assert(said->Fields_0[17] == ("terminal_attached"@, Shown::Flag(r.terminal_attached)));
    assert(said->Fields_0[18] == ("terminal_detached"@, Shown::Flag(r.terminal_detached)));
    assert(said->Fields_0[19] == ("exit_code"@, maybe_number(r.exit_code)));
    assert(said->Fields_0[20] == ("stop_reason"@, maybe_text(maybe(r.stop_reason))));
    assert(said->Fields_0[21] == ("detail"@, maybe_text(maybe(r.detail))));
}

/// A session is told what it is itself.
pub proof fn a_session_is_told_of_itself(r: SessionRecord)
    ensures
        own_shown(r)->Fields_0.len() == 7,
        tells(own_shown(r), "id"@, Shown::Text(r.id@)),
        tells(own_shown(r), "agent_name"@, Shown::Text(r.agent_name@)),
        tells(own_shown(r), "name"@, Shown::Text(r.name@)),
        tells(own_shown(r), "description"@, Shown::Text(r.description@)),
        tells(own_shown(r), "state"@, Shown::Text(r.state.text())),
        tells(own_shown(r), "docker_scope"@, maybe_text(maybe(r.docker_scope))),
        tells(own_shown(r), "docker_enabled"@, Shown::Flag(r.docker_enabled)),
{
    let said = own_shown(r);
    assert(said->Fields_0[0] == ("id"@, Shown::Text(r.id@)));
    assert(said->Fields_0[1] == ("agent_name"@, Shown::Text(r.agent_name@)));
    assert(said->Fields_0[2] == ("name"@, Shown::Text(r.name@)));
    assert(said->Fields_0[3] == ("description"@, Shown::Text(r.description@)));
    assert(said->Fields_0[4] == ("state"@, Shown::Text(r.state.text())));
    assert(said->Fields_0[5] == ("docker_scope"@, maybe_text(maybe(r.docker_scope))));
    assert(said->Fields_0[6] == ("docker_enabled"@, Shown::Flag(r.docker_enabled)));
}

/// A session is told of those that it owns.
pub proof fn a_session_is_told_of_its_own(r: SandboxRecord)
    ensures
        sandbox_shown(r)->Fields_0.len() == 17,
        tells(sandbox_shown(r), "id"@, Shown::Text(r.id@)),
        tells(sandbox_shown(r), "agent_name"@, Shown::Text(r.agent_name@)),
        tells(sandbox_shown(r), "parent"@, maybe_text(maybe(r.parent))),
        tells(sandbox_shown(r), "path"@, Shown::Text(r.path@)),
        tells(sandbox_shown(r), "name"@, Shown::Text(r.name@)),
        tells(sandbox_shown(r), "description"@, Shown::Text(r.description@)),
        tells(sandbox_shown(r), "state"@, Shown::Text(r.state.text())),
        tells(sandbox_shown(r), "initial_packages"@, shown_texts(r.initial_packages@)),
        tells(sandbox_shown(r), "packages"@, shown_texts(r.packages@)),
        tells(sandbox_shown(r), "docker_scope"@, maybe_text(maybe(r.docker_scope))),
        tells(sandbox_shown(r), "docker_enabled"@, Shown::Flag(r.docker_enabled)),
        tells(sandbox_shown(r), "exit_code"@, maybe_number(r.exit_code)),
        tells(sandbox_shown(r), "stop_reason"@, maybe_text(maybe(r.stop_reason))),
        tells(sandbox_shown(r), "terminal_complete"@, Shown::Flag(r.terminal_complete)),
        tells(sandbox_shown(r), "terminal_interrupted"@, Shown::Flag(r.terminal_interrupted)),
        tells(sandbox_shown(r), "terminal_detached"@, Shown::Flag(r.terminal_detached)),
        tells(sandbox_shown(r), "terminal_attached"@, Shown::Flag(r.terminal_attached)),
{
    let said = sandbox_shown(r);
    assert(said->Fields_0[0] == ("id"@, Shown::Text(r.id@)));
    assert(said->Fields_0[1] == ("agent_name"@, Shown::Text(r.agent_name@)));
    assert(said->Fields_0[2] == ("parent"@, maybe_text(maybe(r.parent))));
    assert(said->Fields_0[3] == ("path"@, Shown::Text(r.path@)));
    assert(said->Fields_0[4] == ("name"@, Shown::Text(r.name@)));
    assert(said->Fields_0[5] == ("description"@, Shown::Text(r.description@)));
    assert(said->Fields_0[6] == ("state"@, Shown::Text(r.state.text())));
    assert(said->Fields_0[7] == ("initial_packages"@, shown_texts(r.initial_packages@)));
    assert(said->Fields_0[8] == ("packages"@, shown_texts(r.packages@)));
    assert(said->Fields_0[9] == ("docker_scope"@, maybe_text(maybe(r.docker_scope))));
    assert(said->Fields_0[10] == ("docker_enabled"@, Shown::Flag(r.docker_enabled)));
    assert(said->Fields_0[11] == ("exit_code"@, maybe_number(r.exit_code)));
    assert(said->Fields_0[12] == ("stop_reason"@, maybe_text(maybe(r.stop_reason))));
    assert(said->Fields_0[13] == ("terminal_complete"@, Shown::Flag(r.terminal_complete)));
    assert(said->Fields_0[14] == ("terminal_interrupted"@, Shown::Flag(r.terminal_interrupted)));
    assert(said->Fields_0[15] == ("terminal_detached"@, Shown::Flag(r.terminal_detached)));
    assert(said->Fields_0[16] == ("terminal_attached"@, Shown::Flag(r.terminal_attached)));
}

/// A request is told whole, with what was decided of it.
pub proof fn a_request_is_told_whole(p: PermissionRecord)
    ensures
        permission_shown(p)->Fields_0.len() == 13,
        tells(permission_shown(p), "kind"@, Shown::Text(p.kind@)),
        tells(permission_shown(p), "scope"@, maybe_text(maybe(p.scope))),
        tells(permission_shown(p), "anonymous"@, Shown::Flag(p.anonymous)),
        tells(permission_shown(p), "id"@, Shown::Text(p.id@)),
        tells(permission_shown(p), "session"@, Shown::Text(p.session@)),
        tells(permission_shown(p), "agent_name"@, Shown::Text(p.agent_name@)),
        tells(permission_shown(p), "approval"@, Shown::Text(p.approval@)),
        tells(permission_shown(p), "package"@, Shown::Text(p.package@)),
        tells(permission_shown(p), "reason"@, Shown::Text(p.reason@)),
        tells(permission_shown(p), "state"@, Shown::Text(p.state.text())),
        tells(permission_shown(p), "approved"@, maybe_flag(p.approved)),
        tells(permission_shown(p), "preview"@, preview_shown(p.preview)),
        tells(permission_shown(p), "message"@, maybe_text(maybe(p.message))),
{
    let said = permission_shown(p);
    assert(said->Fields_0[0] == ("kind"@, Shown::Text(p.kind@)));
    assert(said->Fields_0[1] == ("scope"@, maybe_text(maybe(p.scope))));
    assert(said->Fields_0[2] == ("anonymous"@, Shown::Flag(p.anonymous)));
    assert(said->Fields_0[3] == ("id"@, Shown::Text(p.id@)));
    assert(said->Fields_0[4] == ("session"@, Shown::Text(p.session@)));
    assert(said->Fields_0[5] == ("agent_name"@, Shown::Text(p.agent_name@)));
    assert(said->Fields_0[6] == ("approval"@, Shown::Text(p.approval@)));
    assert(said->Fields_0[7] == ("package"@, Shown::Text(p.package@)));
    assert(said->Fields_0[8] == ("reason"@, Shown::Text(p.reason@)));
    assert(said->Fields_0[9] == ("state"@, Shown::Text(p.state.text())));
    assert(said->Fields_0[10] == ("approved"@, maybe_flag(p.approved)));
    assert(said->Fields_0[11] == ("preview"@, preview_shown(p.preview)));
    assert(said->Fields_0[12] == ("message"@, maybe_text(maybe(p.message))));
}

/// An agent that is registered is told how it stands.
pub proof fn a_standing_is_told(names: NamesView, s: Standing)
    ensures
        standing_shown(names, Some(s))->Fields_0.len() == 5,
        tells(standing_shown(names, Some(s)), "driver"@, Shown::Text(driver_name(names, s.driver))),
        tells(standing_shown(names, Some(s)), "epoch"@, Shown::Number(s.epoch as int)),
        tells(standing_shown(names, Some(s)), "state"@, Shown::Text(phase_name(s.phase))),
        tells(standing_shown(names, Some(s)), "health"@, Shown::Text(health_name(s.health))),
        tells(standing_shown(names, Some(s)), "attempts"@, Shown::Number(s.attempts as int)),
{
    let said = standing_shown(names, Some(s));
    assert(said->Fields_0[0] == ("driver"@, Shown::Text(driver_name(names, s.driver))));
    assert(said->Fields_0[1] == ("epoch"@, Shown::Number(s.epoch as int)));
    assert(said->Fields_0[2] == ("state"@, Shown::Text(phase_name(s.phase))));
    assert(said->Fields_0[3] == ("health"@, Shown::Text(health_name(s.health))));
    assert(said->Fields_0[4] == ("attempts"@, Shown::Number(s.attempts as int)));
}

/// A decision is told with how the agent stands: whether it goes on, and whether it is to be
/// told of work.
pub proof fn a_decision_is_told(names: NamesView, decision: Decision, standing: Standing)
    ensures
        tells(answer_shown(names, Answer::Decided { decision, standing }), "continue"@,
            Shown::Flag(decision.proceed)),
        tells(answer_shown(names, Answer::Decided { decision, standing }), "notify"@,
            Shown::Flag(decision.notify is Some)),
        tells(answer_shown(names, Answer::Decided { decision, standing }), "integration"@,
            standing_shown(names, Some(standing))),
{
    let said = answer_shown(names, Answer::Decided { decision, standing });
    assert(said->Fields_0[0] == ("continue"@, Shown::Flag(decision.proceed)));
    assert(said->Fields_0[1] == ("notify"@, Shown::Flag(decision.notify is Some)));
    assert(said->Fields_0[if decision.notify is Some {
        4int
    } else {
        2
    }] == ("integration"@, standing_shown(names, Some(standing))));
}

/// Who is to be told of work is told how, and of which state of the inbox.
pub proof fn a_notice_is_told(
    names: NamesView,
    decision: Decision,
    standing: Standing,
    delivery: Delivery,
    revision: u64,
)
    requires
        decision.notify == Some((delivery, revision)),
    ensures
        tells(answer_shown(names, Answer::Decided { decision, standing }), "delivery"@, Shown::Text(
            if delivery is Notification {
                "notification"@
            } else {
                "terminal"@
            },
        )),
        tells(answer_shown(names, Answer::Decided { decision, standing }), "revision"@,
            Shown::Number(revision as int)),
{
    let said = answer_shown(names, Answer::Decided { decision, standing });
    assert(said->Fields_0[2] == ("delivery"@, Shown::Text(
            if delivery is Notification {
                "notification"@
            } else {
                "terminal"@
            },
        )));
    assert(said->Fields_0[3] == ("revision"@, Shown::Number(revision as int)));
}

/// What the host sees of the daemon has every session and every request, in order.
pub proof fn a_snapshot_tells_all(n: Snapshot, i: int)
    ensures
        snapshot_shown(n) is Fields,
        tells(snapshot_shown(n), "instance"@, Shown::Text(n.instance@)),
        snapshot_shown(n)->Fields_0[1].0 == "sessions"@,
        snapshot_shown(n)->Fields_0[2].0 == "permissions"@,
        snapshot_shown(n)->Fields_0[1].1 matches Shown::List(l) && l.len() == n.sessions@.len()
            && (0
            <= i < n.sessions@.len() ==> l[i] == session_shown(n.sessions@[i])),
        snapshot_shown(n)->Fields_0[2].1 matches Shown::List(l) && l.len() == n.permissions@.len()
            && (
        0 <= i < n.permissions@.len() ==> l[i] == permission_shown(n.permissions@[i])),
{
    let s = snapshot_shown(n);
    assert(s->Fields_0[0] == ("instance"@, Shown::Text(n.instance@)));
}

/// An event of the log tells under which key and by which method what was changed.
pub proof fn a_change_is_told(key: Seq<char>, method: Seq<char>, change: ChangeDataView)
    ensures
        tells(data_shown(EventDataView::Changed { key, method, change }), "key"@, Shown::Text(key)),
        tells(
            data_shown(EventDataView::Changed { key, method, change }),
            "method"@,
            Shown::Text(method),
        ),
        change matches ChangeDataView::Accepted(m) ==> tells(
            change_shown(change),
            "message"@,
            message_shown(m),
        ),
        change matches ChangeDataView::Claimed { id, claim_generation } ==> (tells(
            change_shown(change),
            "message"@,
            Shown::Text(id),
        ) && tells(
            change_shown(change),
            "claim_generation"@,
            Shown::Number(claim_generation as int),
        )),
        change matches ChangeDataView::Replied { message, completed } ==> (tells(
            change_shown(change),
            "message"@,
            message_shown(message),
        ) && tells(change_shown(change), "completed"@, Shown::Text(completed))),
        change matches ChangeDataView::Completed { id, claim_generation } ==> tells(
            change_shown(change),
            "message"@,
            Shown::Text(id),
        ),
        change matches ChangeDataView::Requeued { id, claim_generation, reason } ==> (tells(
            change_shown(change),
            "message"@,
            Shown::Text(id),
        ) && tells(change_shown(change), "reason"@, Shown::Text(reason))),
        tells(
            data_shown(EventDataView::Changed { key, method, change }),
            "change"@,
            change_shown(change),
        ),
{
    let s = data_shown(EventDataView::Changed { key, method, change });
    assert(s->Fields_0[0] == ("key"@, Shown::Text(key)));
    assert(s->Fields_0[1] == ("method"@, Shown::Text(method)));
    assert(s->Fields_0[2] == ("change"@, change_shown(change)));
    let c = change_shown(change);
    match change {
        ChangeDataView::Accepted(m) => {
            assert(c->Fields_0[0] == ("message"@, message_shown(m)));
        },
        ChangeDataView::Claimed { id, claim_generation } => {
            assert(c->Fields_0[0] == ("message"@, Shown::Text(id)));
            assert(c->Fields_0[1] == ("claim_generation"@, Shown::Number(claim_generation as int)));
        },
        ChangeDataView::Replied { message, completed } => {
            assert(c->Fields_0[0] == ("message"@, message_shown(message)));
            assert(c->Fields_0[1] == ("completed"@, Shown::Text(completed)));
        },
        ChangeDataView::Completed { id, claim_generation } => {
            assert(c->Fields_0[0] == ("message"@, Shown::Text(id)));
        },
        ChangeDataView::Requeued { id, claim_generation, reason } => {
            assert(c->Fields_0[0] == ("message"@, Shown::Text(id)));
            assert(c->Fields_0[2] == ("reason"@, Shown::Text(reason)));
        },
        ChangeDataView::Empty => {},
    }
}

/// What the store has and what must be fetched or built for a package is told with the request.
pub proof fn a_preview_is_told(p: PreviewShown)
    ensures
        p matches PreviewShown::Package(q) ==> (tells(
            preview_shown(Some(p)),
            "in_store"@,
            Shown::Flag(q.in_store),
        ) && tells(preview_shown(Some(p)), "download"@, maybe_text(maybe(q.download))) && tells(
            preview_shown(Some(p)),
            "build_required"@,
            Shown::Flag(q.build_required),
        )),
        p matches PreviewShown::Description(t) ==> tells(
            preview_shown(Some(p)),
            "description"@,
            Shown::Text(t@),
        ),
        p matches PreviewShown::Failed(t) ==> tells(
            preview_shown(Some(p)),
            "error"@,
            Shown::Text(t@),
        ),
{
    let s = preview_shown(Some(p));
    match p {
        PreviewShown::Package(q) => {
            assert(s->Fields_0[0] == ("in_store"@, Shown::Flag(q.in_store)));
            assert(s->Fields_0[1] == ("download"@, maybe_text(maybe(q.download))));
            assert(s->Fields_0[2] == ("build_required"@, Shown::Flag(q.build_required)));
        },
        PreviewShown::Description(t) => {
            assert(s->Fields_0[0] == ("description"@, Shown::Text(t@)));
        },
        PreviewShown::Failed(t) => {
            assert(s->Fields_0[0] == ("error"@, Shown::Text(t@)));
        },
    }
}

} // verus!
