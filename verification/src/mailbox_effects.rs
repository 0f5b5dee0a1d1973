//! What the operations of a mailbox do to its messages, and for whom.
use vstd::prelude::*;

use crate::directory::{is_live, names, resolved, SessionView};
use crate::mailbox::{
    after, at_hand, execute_done, first_where, ids, inv, is_pending, is_status, lemma_first_is,
    lemma_first_where, lemma_no_receipt, lemma_none_is, lemma_occupancy_update, lemma_push,
    lemma_reserved_update, occupancy, parties, pending, planned, prepared, queued, receipt_of,
    reserved, stop_done, takes_part, unresolved, visible_to, waits, ChangeDataView, EventDataView,
    Handed, MailboxView, OutcomeView, Status,
};
use crate::mailbox_laws::{lemma_one_id, message_ids_are_identifiers};
use crate::messages::{MessageView, MutationView, State};
use crate::protocol::is_identifier;
use crate::text::{decimal_of, maybe, size};

verus! {

/// What is sent is in the inbox of the one that it is for, behind all that was there before,
/// as its sender wrote it; nothing else changes.
pub proof fn a_sent_message_waits_for_its_recipient(
    s: MailboxView,
    t: MailboxView,
    log: Seq<Handed>,
    longer: Seq<Handed>,
    actor: Seq<char>,
    key: Seq<char>,
    to: Seq<char>,
    body: Seq<char>,
    conversation: Option<Seq<char>>,
    dir: Seq<SessionView>,
    now: u64,
    outcome: OutcomeView,
)
    requires
        inv(s),
        execute_done(
            s,
            t,
            log,
            longer,
            actor,
            MutationView::Send { key, to, body, conversation },
            dir,
            now,
            Ok(outcome),
        ),
        longer.len() > log.len(),
    ensures
        t.messages.len() == s.messages.len() + 1,
        t.messages.drop_last() == s.messages,
        t.sequence == s.sequence + 1,
        resolved(dir, actor, to) == Ok::<Seq<char>, (int, Seq<char>)>(t.messages.last().recipient),
        ({
            let m = t.messages.last();
            &&& m.id == s.instance + "-m"@ + decimal_of(t.sequence as nat)
            &&& m.sender == actor
            &&& m.body == body
            &&& m.state == State::Queued
            &&& m.claim_generation == 0
            &&& m.in_reply_to is None && m.failure is None
            &&& m.created_sequence == t.sequence && m.created_at == now
            &&& m.conversation == match conversation {
                Some(c) => c,
                None => s.instance + "-c"@ + decimal_of(t.sequence as nat),
            }
            &&& outcome == OutcomeView::Sent(m)
        }),
        conversation matches Some(c) ==> exists|j: int|
            0 <= j < s.messages.len() && (#[trigger] s.messages[j]).conversation == c && (
            s.messages[j].sender == actor || s.messages[j].recipient == actor),
{
    assert(t.messages.drop_last() =~= s.messages);
    if let Some(c) = conversation {
        lemma_first_where(s.messages, takes_part(actor, c));
    }
}

/// An agent that fetches goes on with the message that it works on, and else begins with the
/// first one that waits for it: that is handed to it whole, and only its state and its claim
/// change.
pub proof fn a_fetch_hands_out_the_first_message(
    s: MailboxView,
    t: MailboxView,
    log: Seq<Handed>,
    longer: Seq<Handed>,
    actor: Seq<char>,
    key: Seq<char>,
    dir: Seq<SessionView>,
    now: u64,
    outcome: OutcomeView,
    i: int,
)
    requires
        inv(s),
        execute_done(s, t, log, longer, actor, MutationView::Next { key }, dir, now, Ok(outcome)),
        longer.len() > log.len(),
        0 <= i < s.messages.len(),
        s.messages[i].recipient == actor,
        s.messages[i].state == State::Claimed || {
            &&& s.messages[i].state == State::Queued
            &&& forall|j: int|
                0 <= j < s.messages.len() && (#[trigger] s.messages[j]).recipient == actor
                    ==> s.messages[j].state != State::Claimed
            &&& forall|j: int|
                0 <= j < i && (#[trigger] s.messages[j]).recipient == actor
                    ==> s.messages[j].state != State::Queued
        },
    ensures
        t.messages == s.messages.update(
            i,
            MessageView {
                state: State::Claimed,
                claim_generation: if s.messages[i].claim_generation == 0 {
                    1
                } else {
                    s.messages[i].claim_generation
                },
                ..s.messages[i]
            },
        ),
        outcome == (OutcomeView::Claimed {
            message: t.messages[i],
            claim_generation: t.messages[i].claim_generation,
        }),
        s.messages[i].state == State::Claimed ==> t.messages == s.messages,
{
    let claimed = waits(actor, State::Claimed);
    let waiting = waits(actor, State::Queued);
    if s.messages[i].state == State::Claimed {
        assert forall|j: int| 0 <= j < i implies !claimed(#[trigger] s.messages[j]) by {
            assert(!(s.messages[j].state == State::Claimed && s.messages[i].state == State::Claimed
                && s.messages[j].recipient == s.messages[i].recipient));
        }
        lemma_first_is(s.messages, claimed, i);
        assert(t.messages =~= s.messages);
    } else {
        lemma_none_is(s.messages, claimed);
        lemma_first_is(s.messages, waiting, i);
    }
}

/// An agent for which nothing waits is told so, and nothing changes.
pub proof fn an_empty_inbox_gives_nothing(
    s: MailboxView,
    t: MailboxView,
    log: Seq<Handed>,
    longer: Seq<Handed>,
    actor: Seq<char>,
    key: Seq<char>,
    dir: Seq<SessionView>,
    now: u64,
    outcome: OutcomeView,
)
    requires
        execute_done(s, t, log, longer, actor, MutationView::Next { key }, dir, now, Ok(outcome)),
        longer.len() > log.len(),
        forall|j: int|
            0 <= j < s.messages.len() && (#[trigger] s.messages[j]).recipient == actor
                ==> s.messages[j].state != State::Claimed && s.messages[j].state != State::Queued,
    ensures
        outcome == OutcomeView::Empty,
        t.messages == s.messages,
{
    lemma_none_is(s.messages, waits(actor, State::Claimed));
    lemma_none_is(s.messages, waits(actor, State::Queued));
}

/// Who completes a message works on it, under the claim that it names; the message is
/// completed, and nothing else changes.
pub proof fn a_completed_message_is_done_with(
    s: MailboxView,
    t: MailboxView,
    log: Seq<Handed>,
    longer: Seq<Handed>,
    actor: Seq<char>,
    key: Seq<char>,
    message: Seq<char>,
    generation: u64,
    dir: Seq<SessionView>,
    now: u64,
    outcome: OutcomeView,
)
    requires
        execute_done(
            s,
            t,
            log,
            longer,
            actor,
            MutationView::Complete { key, message, generation },
            dir,
            now,
            Ok(outcome),
        ),
        longer.len() > log.len(),
    ensures
        exists|i: int|
            0 <= i < s.messages.len() && (#[trigger] s.messages[i]).id == message
                && s.messages[i].recipient == actor && s.messages[i].state == State::Claimed
                && s.messages[i].claim_generation == generation && t.messages
                == s.messages.update(i, MessageView { state: State::Completed, ..s.messages[i] }),
        outcome == (OutcomeView::Completed { id: message, state: State::Completed }),
{
    lemma_first_where(s.messages, visible_to(actor, message));
    let i = first_where(s.messages, visible_to(actor, message))->0;
    assert(s.messages[i].id == message);
}

/// Who answers a message works on it, under the claim that it names. The message is
/// completed, and the answer waits for its sender, in the same conversation.
pub proof fn a_reply_goes_back_to_the_sender(
    s: MailboxView,
    t: MailboxView,
    log: Seq<Handed>,
    longer: Seq<Handed>,
    actor: Seq<char>,
    key: Seq<char>,
    message: Seq<char>,
    generation: u64,
    body: Seq<char>,
    dir: Seq<SessionView>,
    now: u64,
    outcome: OutcomeView,
)
    requires
        execute_done(
            s,
            t,
            log,
            longer,
            actor,
            MutationView::Reply { key, message, generation, body },
            dir,
            now,
            Ok(outcome),
        ),
        longer.len() > log.len(),
    ensures
        t.messages.len() == s.messages.len() + 1,
        t.sequence == s.sequence + 1,
        exists|i: int|
            0 <= i < s.messages.len() && (#[trigger] s.messages[i]).id == message
                && s.messages[i].recipient == actor && s.messages[i].state == State::Claimed
                && s.messages[i].claim_generation == generation && is_live(
                dir,
                s.messages[i].sender,
            ) && t.messages.drop_last() == s.messages.update(
                i,
                MessageView { state: State::Completed, ..s.messages[i] },
            ) && t.messages.last().recipient == s.messages[i].sender
                && t.messages.last().conversation == s.messages[i].conversation,
        ({
            let m = t.messages.last();
            &&& m.id == s.instance + "-m"@ + decimal_of(t.sequence as nat)
            &&& m.sender == actor
            &&& m.body == body
            &&& m.in_reply_to == Some(message)
            &&& m.state == State::Queued
            &&& m.claim_generation == 0
            &&& m.failure is None
            &&& m.created_sequence == t.sequence && m.created_at == now
            &&& outcome == (OutcomeView::Replied { reply: m, completed: message })
        }),
{
    lemma_first_where(s.messages, visible_to(actor, message));
    let i = first_where(s.messages, visible_to(actor, message))->0;
    assert(s.messages[i].id == message);
    assert(t.messages.drop_last() =~= s.messages.update(
        i,
        MessageView { state: State::Completed, ..s.messages[i] },
    ));
}

/// Work that is put back, by the one that has it or by the host, waits again in the inbox and
/// at the place that it had, with all that it says, under the next claim.
pub proof fn requeued_work_waits_again(
    s: MailboxView,
    t: MailboxView,
    log: Seq<Handed>,
    longer: Seq<Handed>,
    actor: Seq<char>,
    key: Seq<char>,
    message: Seq<char>,
    generation: u64,
    reason: Seq<char>,
    dir: Seq<SessionView>,
    now: u64,
    outcome: OutcomeView,
) -> (i: int)
    requires
        execute_done(
            s,
            t,
            log,
            longer,
            actor,
            MutationView::Requeue { key, message, generation, reason },
            dir,
            now,
            Ok(outcome),
        ),
        longer.len() > log.len(),
    ensures
        0 <= i < s.messages.len(),
        s.messages[i].id == message,
        s.messages[i].recipient == actor || actor == "host"@,
        s.messages[i].state == State::Claimed,
        s.messages[i].claim_generation == generation,
        is_live(dir, s.messages[i].recipient),
        generation < u64::MAX,
        t.messages == s.messages.update(
            i,
            MessageView {
                state: State::Queued,
                claim_generation: (generation + 1) as u64,
                ..s.messages[i]
            },
        ),
        outcome == (OutcomeView::Requeued {
            id: message,
            claim_generation: (generation + 1) as u64,
        }),
{
    lemma_first_where(s.messages, visible_to(actor, message));
    first_where(s.messages, visible_to(actor, message))->0
}

/// Work that was put back is handed out again by the next fetch, whole and under the next
/// claim, where nothing that came before it waits.
pub proof fn requeued_work_is_fetched_again(
    s: MailboxView,
    t: MailboxView,
    log: Seq<Handed>,
    longer: Seq<Handed>,
    actor: Seq<char>,
    key: Seq<char>,
    message: Seq<char>,
    generation: u64,
    reason: Seq<char>,
    dir: Seq<SessionView>,
    now: u64,
    outcome: OutcomeView,
    u: MailboxView,
    longest: Seq<Handed>,
    other: Seq<char>,
    later: Seq<SessionView>,
    then: u64,
    fetched: OutcomeView,
    i: int,
)
    requires
        inv(s),
        inv(t),
        execute_done(
            s,
            t,
            log,
            longer,
            actor,
            MutationView::Requeue { key, message, generation, reason },
            dir,
            now,
            Ok(outcome),
        ),
        longer.len() > log.len(),
        0 <= i < s.messages.len(),
        s.messages[i].id == message,
        forall|j: int|
            0 <= j < i && (#[trigger] s.messages[j]).recipient == s.messages[i].recipient
                ==> s.messages[j].state != State::Queued,
        execute_done(
            t,
            u,
            longer,
            longest,
            s.messages[i].recipient,
            MutationView::Next { key: other },
            later,
            then,
            Ok(fetched),
        ),
        longest.len() > longer.len(),
    ensures
        fetched == (OutcomeView::Claimed {
            message: MessageView { claim_generation: (generation + 1) as u64, ..s.messages[i] },
            claim_generation: (generation + 1) as u64,
        }),
{
    let k = requeued_work_waits_again(
        s,
        t,
        log,
        longer,
        actor,
        key,
        message,
        generation,
        reason,
        dir,
        now,
        outcome,
    );
    lemma_one_id(s, i, k);
    let recipient = s.messages[i].recipient;
    assert forall|j: int|
        0 <= j < t.messages.len() && (#[trigger] t.messages[j]).recipient
            == recipient implies t.messages[j].state != State::Claimed by {
        if j < i {
            assert(!(s.messages[j].state == State::Claimed && s.messages[i].state == State::Claimed
                && s.messages[j].recipient == s.messages[i].recipient));
        } else if j > i {
            assert(!(s.messages[i].state == State::Claimed && s.messages[j].state == State::Claimed
                && s.messages[i].recipient == s.messages[j].recipient));
        }
    }
    assert forall|j: int|
        0 <= j < i && (#[trigger] t.messages[j]).recipient == recipient implies t.messages[j].state
        != State::Queued by {
        assert(t.messages[j] == s.messages[j]);
    }
    a_fetch_hands_out_the_first_message(
        t,
        u,
        longer,
        longest,
        recipient,
        other,
        later,
        then,
        fetched,
        i,
    );
}

/// What is kept free is counted by the messages themselves: two operations for one that
/// waits, one for one that is worked on; and an inbox holds those that wait and the one that is
/// worked on.
pub proof fn what_waits_is_counted(ms: Seq<MessageView>, recipient: Seq<char>)
    ensures
        queued(ms, recipient) == ms.filter(
            |m: MessageView| m.recipient == recipient && m.state == State::Queued,
        ).len(),
        occupancy(ms, recipient) == ms.filter(
            |m: MessageView|
                m.recipient == recipient && (m.state == State::Queued || m.state
                    == State::Claimed),
        ).len(),
        reserved(ms) == 2 * ms.filter(|m: MessageView| m.state == State::Queued).len()
            + ms.filter(|m: MessageView| m.state == State::Claimed).len(),
        unresolved(ms) == ms.filter(
            |m: MessageView| m.state == State::Queued || m.state == State::Claimed,
        ).len(),
    decreases ms.len(),
{
    reveal(Seq::filter);
    if ms.len() > 0 {
        what_waits_is_counted(ms.drop_last(), recipient);
    }
}

/// A status counts the messages that wait for an agent, names the one that it works on, and
/// the one that it would be handed.
pub proof fn a_status_tells_what_waits(st: Status, s: MailboxView, actor: Seq<char>, i: int)
    requires
        inv(s),
        is_status(st, s, actor),
        0 <= i < s.messages.len(),
        s.messages[i].recipient == actor,
    ensures
        st.queued == s.messages.filter(
            |m: MessageView| m.recipient == actor && m.state == State::Queued,
        ).len(),
        s.messages[i].state == State::Queued ==> st.queued > 0,
        s.messages[i].state == State::Claimed ==> maybe(st.claim) == Some(s.messages[i].id),
        (forall|j: int|
            0 <= j < s.messages.len() && (#[trigger] s.messages[j]).recipient == actor
                ==> s.messages[j].state != State::Claimed) ==> st.claim is None,
        ((s.messages[i].state == State::Queued || s.messages[i].state == State::Claimed) && forall|
            j: int,
        |
            0 <= j < i && (#[trigger] s.messages[j]).recipient == actor ==> s.messages[j].state
                != State::Queued && s.messages[j].state != State::Claimed) ==> (st.head matches Some(
            (id, generation),
        ) && id@ == s.messages[i].id && generation == s.messages[i].claim_generation),
        st.revision == s.sequence,
        st.audit_failed == s.audit_failed,
{
    what_waits_is_counted(s.messages, actor);
    let waiting = |m: MessageView| m.recipient == actor && m.state == State::Queued;
    if s.messages[i].state == State::Queued {
        s.messages.lemma_filter_contains_rev(waiting, s.messages[i]);
        lemma_counted(s.messages, waiting, i);
    }
    let claimed = waits(actor, State::Claimed);
    lemma_first_where(s.messages, claimed);
    if s.messages[i].state == State::Claimed {
        assert forall|j: int| 0 <= j < i implies !claimed(#[trigger] s.messages[j]) by {
            assert(!(s.messages[j].state == State::Claimed && s.messages[i].state == State::Claimed
                && s.messages[j].recipient == s.messages[i].recipient));
        }
        lemma_first_is(s.messages, claimed, i);
    }
    if forall|j: int|
        0 <= j < s.messages.len() && (#[trigger] s.messages[j]).recipient == actor
            ==> s.messages[j].state != State::Claimed {
        lemma_none_is(s.messages, claimed);
    }
    if (s.messages[i].state == State::Queued || s.messages[i].state == State::Claimed) && forall|
        j: int,
    |
        0 <= j < i && (#[trigger] s.messages[j]).recipient == actor ==> s.messages[j].state
            != State::Queued && s.messages[j].state != State::Claimed {
        lemma_first_is(s.messages, at_hand(actor), i);
    }
}

proof fn lemma_counted(ms: Seq<MessageView>, f: spec_fn(MessageView) -> bool, i: int)
    requires
        0 <= i < ms.len(),
        f(ms[i]),
    ensures
        ms.filter(f).len() > 0,
    decreases ms.len(),
{
    reveal(Seq::filter);
    if i < ms.len() - 1 {
        lemma_counted(ms.drop_last(), f, i);
    }
}

/// A message is shown to its sender, to its recipient and to the host, and to nobody else.
pub proof fn a_message_is_shown_to_its_parties(s: MailboxView, actor: Seq<char>, i: int)
    requires
        inv(s),
        0 <= i < s.messages.len(),
    ensures
        first_where(s.messages, visible_to(actor, s.messages[i].id)) == if actor == "host"@
            || s.messages[i].sender == actor || s.messages[i].recipient == actor {
            Some(i)
        } else {
            None
        },
{
    let f = visible_to(actor, s.messages[i].id);
    lemma_first_where(s.messages, f);
    if let Some(k) = first_where(s.messages, f) {
        lemma_one_id(s, i, k);
    } else {
        assert(!f(s.messages[i]));
    }
}

/// No operation of that actor, method and key was accepted before.
pub open spec fn is_new(s: MailboxView, actor: Seq<char>, command: MutationView) -> bool {
    forall|k: int|
        0 <= k < s.receipts.len() ==> !((#[trigger] s.receipts[k]).actor == actor
            && s.receipts[k].command.method() == command.method() && s.receipts[k].command.key()
            == command.key())
}

/// A message to a session that can be meant is accepted where there is room for it: one
/// message more in the mailbox and in that inbox, and the operations that it needs.
pub proof fn a_message_is_accepted(
    s: MailboxView,
    actor: Seq<char>,
    key: Seq<char>,
    to: Seq<char>,
    body: Seq<char>,
    dir: Seq<SessionView>,
    now: u64,
    recipient: Seq<char>,
)
    requires
        inv(s),
        !s.audit_failed,
        s.sequence < u64::MAX,
        is_live(dir, actor),
        is_identifier(key),
        0 < to.len(),
        size(to) <= 512,
        size(body) <= 8192,
        is_new(s, actor, MutationView::Send { key, to, body, conversation: None }),
        resolved(dir, actor, to) == Ok::<Seq<char>, (int, Seq<char>)>(recipient),
        s.messages.len() < s.limits.messages,
        s.messages.filter(
            |m: MessageView|
                m.recipient == recipient && (m.state == State::Queued || m.state
                    == State::Claimed),
        ).len() < s.limits.inbox,
        s.receipts.len() + 3 + 2 * s.messages.filter(
            |m: MessageView| m.state == State::Queued,
        ).len() + s.messages.filter(|m: MessageView| m.state == State::Claimed).len()
            <= s.limits.operations,
    ensures
        planned(
            s,
            actor,
            MutationView::Send { key, to, body, conversation: None },
            dir,
            now,
        ) is Commit,
{
    let command = MutationView::Send { key, to, body, conversation: None };
    lemma_no_receipt(s.receipts, actor, command);
    if receipt_of(s.receipts, actor, command) is Some {
        let r = receipt_of(s.receipts, actor, command)->0;
        let k = choose|k: int| 0 <= k < s.receipts.len() && s.receipts[k] == r;
        assert(s.receipts[k].actor == actor);
    }
    let c = prepared(s, actor, command, dir, now)->Ok_0;
    let m = c.added->0;
    what_waits_is_counted(s.messages, recipient);
    assert(after(s.messages, c) == s.messages.push(m));
    assert forall|r: Seq<char>| #[trigger] occupancy(after(s.messages, c), r) <= s.limits.inbox by {
        lemma_push(s.messages, m, r);
        assert(occupancy(s.messages, r) <= s.limits.inbox);
    }
    lemma_push(s.messages, m, recipient);
}

/// The one that works on a message, or the host, can put it back under the claim that it has,
/// as long as its recipient runs and there is room for one more fetch.
pub proof fn claimed_work_can_be_put_back(
    s: MailboxView,
    actor: Seq<char>,
    key: Seq<char>,
    reason: Seq<char>,
    dir: Seq<SessionView>,
    now: u64,
    i: int,
)
    requires
        inv(s),
        !s.audit_failed,
        s.sequence < u64::MAX,
        0 <= i < s.messages.len(),
        s.messages[i].state == State::Claimed,
        s.messages[i].claim_generation < u64::MAX,
        actor == s.messages[i].recipient || actor == "host"@,
        is_live(dir, s.messages[i].recipient),
        is_identifier(key),
        0 < reason.len(),
        size(reason) <= 512,
        is_new(
            s,
            actor,
            MutationView::Requeue {
                key,
                message: s.messages[i].id,
                generation: s.messages[i].claim_generation,
                reason,
            },
        ),
        s.receipts.len() + 2 + 2 * s.messages.filter(
            |m: MessageView| m.state == State::Queued,
        ).len() + s.messages.filter(|m: MessageView| m.state == State::Claimed).len()
            <= s.limits.operations,
    ensures
        planned(
            s,
            actor,
            MutationView::Requeue {
                key,
                message: s.messages[i].id,
                generation: s.messages[i].claim_generation,
                reason,
            },
            dir,
            now,
        ) is Commit,
{
    let m = s.messages[i];
    let command = MutationView::Requeue {
        key,
        message: m.id,
        generation: m.claim_generation,
        reason,
    };
    message_ids_are_identifiers(s, m.created_sequence);
    lemma_no_receipt(s.receipts, actor, command);
    if receipt_of(s.receipts, actor, command) is Some {
        let r = receipt_of(s.receipts, actor, command)->0;
        let k = choose|k: int| 0 <= k < s.receipts.len() && s.receipts[k] == r;
        assert(s.receipts[k].actor == actor);
    }
    a_message_is_shown_to_its_parties(s, actor, i);
    let c = prepared(s, actor, command, dir, now)->Ok_0;
    let back = (c.replaced->0).1;
    what_waits_is_counted(s.messages, m.recipient);
    lemma_reserved_update(s.messages, i, back);
    assert forall|r: Seq<char>| #[trigger] occupancy(after(s.messages, c), r) <= s.limits.inbox by {
        lemma_occupancy_update(s.messages, i, back, r);
        assert(occupancy(s.messages, r) <= s.limits.inbox);
    }
}

/// The one that works on a message can answer it under the claim that it has, as long as the
/// sender runs and has room for it.
pub proof fn claimed_work_can_be_answered(
    s: MailboxView,
    key: Seq<char>,
    body: Seq<char>,
    dir: Seq<SessionView>,
    now: u64,
    i: int,
)
    requires
        inv(s),
        !s.audit_failed,
        s.sequence < u64::MAX,
        0 <= i < s.messages.len(),
        s.messages[i].state == State::Claimed,
        is_live(dir, s.messages[i].recipient),
        is_live(dir, s.messages[i].sender),
        is_identifier(key),
        size(body) <= 8192,
        is_new(
            s,
            s.messages[i].recipient,
            MutationView::Reply {
                key,
                message: s.messages[i].id,
                generation: s.messages[i].claim_generation,
                body,
            },
        ),
        s.messages.len() < s.limits.messages,
        s.messages.filter(
            |m: MessageView|
                m.recipient == s.messages[i].sender && (m.state == State::Queued || m.state
                    == State::Claimed),
        ).len() < s.limits.inbox,
        s.receipts.len() + 2 + 2 * s.messages.filter(
            |m: MessageView| m.state == State::Queued,
        ).len() + s.messages.filter(|m: MessageView| m.state == State::Claimed).len()
            <= s.limits.operations,
    ensures
        planned(
            s,
            s.messages[i].recipient,
            MutationView::Reply {
                key,
                message: s.messages[i].id,
                generation: s.messages[i].claim_generation,
                body,
            },
            dir,
            now,
        ) is Commit,
{
    let m = s.messages[i];
    let actor = m.recipient;
    let command = MutationView::Reply { key, message: m.id, generation: m.claim_generation, body };
    message_ids_are_identifiers(s, m.created_sequence);
    lemma_no_receipt(s.receipts, actor, command);
    if receipt_of(s.receipts, actor, command) is Some {
        let r = receipt_of(s.receipts, actor, command)->0;
        let k = choose|k: int| 0 <= k < s.receipts.len() && s.receipts[k] == r;
        assert(s.receipts[k].actor == actor);
    }
    a_message_is_shown_to_its_parties(s, actor, i);
    let c = prepared(s, actor, command, dir, now)->Ok_0;
    let done = (c.replaced->0).1;
    let reply = c.added->0;
    what_waits_is_counted(s.messages, m.sender);
    let kept = s.messages.update(i, done);
    lemma_reserved_update(s.messages, i, done);
    assert forall|r: Seq<char>| #[trigger] occupancy(after(s.messages, c), r) <= s.limits.inbox by {
        lemma_occupancy_update(s.messages, i, done, r);
        lemma_push(kept, reply, r);
        assert(occupancy(s.messages, r) <= s.limits.inbox);
    }
    lemma_push(kept, reply, m.sender);
}

/// What is done is told by its event: under the next number, by whom and when, under which
/// key, and what became of which message; and what the messages then need stays free.
pub proof fn the_log_tells_what_was_done(
    s: MailboxView,
    t: MailboxView,
    log: Seq<Handed>,
    longer: Seq<Handed>,
    actor: Seq<char>,
    command: MutationView,
    dir: Seq<SessionView>,
    now: u64,
    outcome: OutcomeView,
)
    requires
        inv(s),
        execute_done(s, t, log, longer, actor, command, dir, now, Ok(outcome)),
        longer.len() > log.len(),
    ensures
        longer == log.push(longer.last()),
        longer.last().verdict is Ok,
        longer.last().event.instance == s.instance,
        longer.last().event.sequence == s.sequence + 1 == t.sequence,
        longer.last().event.timestamp == now,
        longer.last().event.actor == actor,
        longer.last().reserved == 2048 * (2 * t.messages.filter(
            |m: MessageView| m.state == State::Queued,
        ).len() + t.messages.filter(|m: MessageView| m.state == State::Claimed).len()),
        longer.last().event.data matches EventDataView::Changed { key, method, change } && key
            == command.key() && method == command.method() && match outcome {
            OutcomeView::Sent(m) => change == ChangeDataView::Accepted(m)
                && longer.last().event.kind == "message.accepted"@ && longer.last().event.sessions
                == seq![m.sender, m.recipient],
            OutcomeView::Claimed { message, claim_generation } => change == (
            ChangeDataView::Claimed { id: message.id, claim_generation })
                && longer.last().event.kind == "message.claimed"@ && longer.last().event.sessions
                == seq![message.sender, message.recipient],
            OutcomeView::Empty => change == ChangeDataView::Empty && longer.last().event.kind
                == "inbox.empty"@ && longer.last().event.sessions.len() == 0,
            OutcomeView::Replied { reply, completed } => change == (ChangeDataView::Replied {
                message: reply,
                completed,
            }) && longer.last().event.kind == "message.replied"@ && longer.last().event.sessions
                == seq![reply.recipient, reply.sender, reply.sender, reply.recipient],
            OutcomeView::Completed { id, .. } => (change matches ChangeDataView::Completed {
                id: told,
                ..
            } && told == id) && longer.last().event.kind == "message.completed"@,
            OutcomeView::Requeued { id, claim_generation } => (change matches
                ChangeDataView::Requeued { id: told, claim_generation: next, reason }
                && told == id && next == claim_generation && (command matches
                MutationView::Requeue { reason: given, .. } && given == reason))
                && longer.last().event.kind == "message.requeued"@,
        },
{
    assert(longer =~= log.push(longer.last()));
    what_waits_is_counted(t.messages, actor);
    match command {
        MutationView::Next { .. } => {
            lemma_first_where(s.messages, waits(actor, State::Claimed));
            lemma_first_where(s.messages, waits(actor, State::Queued));
        },
        MutationView::Reply { message, .. } => {
            lemma_first_where(s.messages, visible_to(actor, message));
        },
        MutationView::Complete { message, .. } => {
            lemma_first_where(s.messages, visible_to(actor, message));
        },
        MutationView::Requeue { message, .. } => {
            lemma_first_where(s.messages, visible_to(actor, message));
        },
        MutationView::Send { .. } => {},
    }
    if let OutcomeView::Sent(m) = outcome {
        assert(longer.last().event.sessions =~= seq![m.sender, m.recipient]);
    }
    if let OutcomeView::Claimed { message, .. } = outcome {
        assert(longer.last().event.sessions =~= seq![message.sender, message.recipient]);
    }
    if let OutcomeView::Replied { reply, .. } = outcome {
        assert(longer.last().event.sessions =~= seq![
            reply.recipient,
            reply.sender,
            reply.sender,
            reply.recipient,
        ]);
    }
}

/// When a recipient stops, what waits for it or was worked on by it has failed, for that
/// reason, and all the rest stays as it is.
pub proof fn what_a_stopped_recipient_had_fails(
    s: MailboxView,
    t: MailboxView,
    log: Seq<Handed>,
    longer: Seq<Handed>,
    recipient: Seq<char>,
    now: u64,
    i: int,
)
    requires
        stop_done(s, t, log, longer, recipient, now, None),
        0 <= i < s.messages.len(),
    ensures
        t.messages.len() == s.messages.len(),
        t.messages[i] == if s.messages[i].recipient == recipient && (s.messages[i].state
            == State::Queued || s.messages[i].state == State::Claimed) {
            MessageView {
                state: State::Failed,
                failure: Some("recipient stopped"@),
                ..s.messages[i]
            }
        } else {
            s.messages[i]
        },
        (s.messages[i].recipient == recipient && (s.messages[i].state == State::Queued
            || s.messages[i].state == State::Claimed)) ==> {
            &&& longer.len() == log.len() + 1
            &&& longer.last().event.kind == "recipient.stopped"@
            &&& longer.last().event.data matches EventDataView::Stopped { recipient: r, messages }
                && r == recipient && messages.contains(s.messages[i].id)
        },
{
    if is_pending(s.messages[i], recipient) {
        lemma_pending_holds(s.messages, recipient, i);
    }
}

proof fn lemma_pending_holds(ms: Seq<MessageView>, recipient: Seq<char>, i: int)
    requires
        0 <= i < ms.len(),
        is_pending(ms[i], recipient),
    ensures
        pending(ms, recipient).len() > 0,
        ids(pending(ms, recipient)).contains(ms[i].id),
    decreases ms.len(),
{
    let all = pending(ms, recipient);
    let some = pending(ms.drop_last(), recipient);
    if i == ms.len() - 1 {
        assert(ids(all)[all.len() - 1] == ms[i].id);
    } else {
        lemma_pending_holds(ms.drop_last(), recipient, i);
        let k = choose|k: int| 0 <= k < ids(some).len() && ids(some)[k] == ms[i].id;
        assert(ids(all)[k] == ms[i].id);
    }
}

/// What is pending for a recipient is what waits for it or is in its hands, in order.
pub proof fn pending_mail_is_what_is_not_done_with(ms: Seq<MessageView>, recipient: Seq<char>)
    ensures
        pending(ms, recipient) == ms.filter(
            |m: MessageView|
                m.recipient == recipient && (m.state == State::Queued || m.state == State::Claimed),
        ),
    decreases ms.len(),
{
    reveal(Seq::filter);
    if ms.len() > 0 {
        pending_mail_is_what_is_not_done_with(ms.drop_last(), recipient);
    }
    assert(pending(ms, recipient) =~= ms.filter(
        |m: MessageView|
            m.recipient == recipient && (m.state == State::Queued || m.state == State::Claimed),
    ));
}

/// Both parties of every message are told of it.
pub proof fn both_parties_are_told(ms: Seq<MessageView>, i: int)
    requires
        0 <= i < ms.len(),
    ensures
        parties(ms).len() == 2 * ms.len(),
        parties(ms)[2 * i] == ms[i].sender,
        parties(ms)[2 * i + 1] == ms[i].recipient,
    decreases ms.len(),
{
    let most = ms.drop_last();
    if most.len() > 0 {
        both_parties_are_told(
            most,
            if i < most.len() {
                i
            } else {
                0
            },
        );
    } else {
        assert(parties(most).len() == 0);
    }
    if i < most.len() {
        assert(most[i] == ms[i]);
    }
}

} // verus!
