//! What holds of a mailbox over several operations.
use vstd::prelude::*;

use crate::directory::{candidates, descends, is_live, parent_of, resolved, SessionView};
use crate::mailbox::{
    after, claim_of, claimed_by, committed, execute_done, first_where, inv, is_conflict,
    is_hex_char, is_pending, keeps, lemma_committed_inv, lemma_first_is, lemma_first_where,
    lemma_ids, lemma_no_receipt, lemma_occupancy_update, lemma_prepared_sound,
    lemma_reserved_update, message_id, occupancy, pending, planned, prepared, receipt_of,
    record_done, refused, stop_done, stop_planned, stopped, visible_to, waits, with_note,
    with_stop, AuditError, EventDataView, Handed, MailboxView, OutcomeView, PlanView, ReceiptView,
    StagedView,
};
use crate::messages::{MessageView, MutationView, State};
use crate::protocol::{is_identifier, name_rest};
use crate::text::{decimal_of, is_digit, lemma_decimal_round_trip};

verus! {

/// Later operations have added receipts and taken none away.
pub open spec fn follows(s: MailboxView, t: MailboxView) -> bool {
    &&& s.receipts.len() <= t.receipts.len()
    &&& t.receipts.take(s.receipts.len() as int) == s.receipts
}

/// No operation takes a receipt away.
pub proof fn receipts_are_kept(s: MailboxView, g: StagedView, e: AuditError, recipient: Seq<char>)
    ensures
        follows(s, committed(s, g)),
        follows(s, refused(s, e).0),
        follows(s, with_note(s)),
        follows(s, with_stop(s, recipient)),
{
    assert(committed(s, g).receipts.take(s.receipts.len() as int) =~= s.receipts);
    assert(s.receipts.take(s.receipts.len() as int) =~= s.receipts);
}

/// What follows a mailbox that follows another follows that one too.
pub proof fn following_is_transitive(a: MailboxView, b: MailboxView, c: MailboxView)
    requires
        follows(a, b),
        follows(b, c),
    ensures
        follows(a, c),
{
    assert(c.receipts.take(a.receipts.len() as int) =~= b.receipts.take(a.receipts.len() as int));
}

proof fn lemma_receipt_at(
    rs: Seq<ReceiptView>,
    k: int,
    actor: Seq<char>,
    command: MutationView,
)
    requires
        0 <= k < rs.len(),
        rs[k].actor == actor,
        rs[k].command.method() == command.method(),
        rs[k].command.key() == command.key(),
        forall|i: int|
            0 <= i < k ==> !((#[trigger] rs[i]).actor == actor && rs[i].command.method()
                == command.method() && rs[i].command.key() == command.key()),
    ensures
        receipt_of(rs, actor, command) == Some(rs[k]),
    decreases rs.len(),
{
    if k > 0 {
        let rest = rs.drop_first();
        assert(rs[0].actor != actor || rs[0].command.method() != command.method()
            || rs[0].command.key() != command.key());
        assert forall|i: int| 0 <= i < k - 1 implies !((#[trigger] rest[i]).actor == actor
            && rest[i].command.method() == command.method() && rest[i].command.key()
            == command.key()) by {
            assert(rest[i] == rs[i + 1]);
        }
        lemma_receipt_at(rest, k - 1, actor, command);
    }
}

/// An operation that was accepted gives again what it gave, at any later time,
/// whatever has become of the sessions and of the audit.
pub proof fn a_repeated_operation_gives_what_it_gave(
    s: MailboxView,
    actor: Seq<char>,
    command: MutationView,
    dir: Seq<SessionView>,
    now: u64,
    g: StagedView,
    later: MailboxView,
    later_dir: Seq<SessionView>,
    later_now: u64,
)
    requires
        inv(s),
        planned(s, actor, command, dir, now) == PlanView::Commit(g),
        follows(committed(s, g), later),
    ensures
        planned(later, actor, command, later_dir, later_now) == PlanView::Replay(g.change.outcome),
{
    let n = s.receipts.len() as int;
    let t = committed(s, g);
    lemma_no_receipt(s.receipts, actor, command);
    assert(later.receipts.take(n + 1)[n] == t.receipts[n]);
    assert forall|i: int| 0 <= i < n implies !((#[trigger] later.receipts[i]).actor == actor
        && later.receipts[i].command.method() == command.method()
        && later.receipts[i].command.key() == command.key()) by {
        assert(later.receipts.take(n + 1)[i] == t.receipts[i]);
        assert(t.receipts[i] == s.receipts[i]);
    }
    lemma_receipt_at(later.receipts, n, actor, command);
}

/// The key of an accepted operation cannot be used for another one of the same method.
pub proof fn a_key_names_one_operation(
    s: MailboxView,
    actor: Seq<char>,
    command: MutationView,
    dir: Seq<SessionView>,
    now: u64,
    g: StagedView,
    later: MailboxView,
    other: MutationView,
    later_dir: Seq<SessionView>,
    later_now: u64,
)
    requires
        inv(s),
        planned(s, actor, command, dir, now) == PlanView::Commit(g),
        follows(committed(s, g), later),
        other.method() == command.method(),
        other.key() == command.key(),
        other != command,
        other.refusal() is None,
    ensures
        planned(later, actor, other, later_dir, later_now) == PlanView::Refuse(
            is_conflict().0,
            is_conflict().1,
        ),
{
    let n = s.receipts.len() as int;
    let t = committed(s, g);
    lemma_no_receipt(s.receipts, actor, command);
    assert(later.receipts.take(n + 1)[n] == t.receipts[n]);
    assert forall|i: int| 0 <= i < n implies !((#[trigger] later.receipts[i]).actor == actor
        && later.receipts[i].command.method() == other.method()
        && later.receipts[i].command.key() == other.key()) by {
        assert(later.receipts.take(n + 1)[i] == t.receipts[i]);
        assert(t.receipts[i] == s.receipts[i]);
    }
    lemma_receipt_at(later.receipts, n, actor, other);
}

/// What the audit refuses is not published: no message, no receipt and no
/// sequence number changes. Only an uncertain write is remembered.
pub proof fn a_refused_event_publishes_nothing(s: MailboxView, e: AuditError)
    ensures
        refused(s, e).0.messages == s.messages,
        refused(s, e).0.receipts == s.receipts,
        refused(s, e).0.sequence == s.sequence,
        refused(s, e).0.audit_failed == (s.audit_failed || e == AuditError::Unavailable),
{
}

/// After an uncertain write every operation that is no repetition is refused.
pub proof fn an_uncertain_write_stops_changes(
    s: MailboxView,
    actor: Seq<char>,
    command: MutationView,
    dir: Seq<SessionView>,
    now: u64,
)
    requires
        s.audit_failed,
    ensures
        !(planned(s, actor, command, dir, now) is Commit),
{
}

/// An inbox is fetched in order: a message is handed out only when none of its
/// inbox is worked on already, and no earlier one waits.
pub proof fn an_inbox_is_fetched_in_order(
    s: MailboxView,
    actor: Seq<char>,
    key: Seq<char>,
    dir: Seq<SessionView>,
    now: u64,
    i: int,
    m: MessageView,
    j: int,
)
    requires
        prepared(s, actor, MutationView::Next { key }, dir, now) matches Ok(c) && c.replaced
            == Some((i, m)),
        s.messages[i].state == State::Queued,
        0 <= j < s.messages.len(),
        s.messages[j].recipient == actor,
    ensures
        s.messages[i].recipient == actor,
        m == claim_of(s.messages[i]),
        s.messages[j].state != State::Claimed,
        j < i ==> s.messages[j].state != State::Queued,
{
    lemma_first_where(s.messages, waits(actor, State::Claimed));
    lemma_first_where(s.messages, waits(actor, State::Queued));
    assert(waits(actor, State::Claimed)(s.messages[j]) == (s.messages[j].state == State::Claimed));
    assert(waits(actor, State::Queued)(s.messages[j]) == (s.messages[j].state == State::Queued));
}

/// Fetching again without finishing hands out the same message under the same claim.
pub proof fn fetching_again_gives_the_same_message(
    s: MailboxView,
    actor: Seq<char>,
    key: Seq<char>,
    dir: Seq<SessionView>,
    now: u64,
    i: int,
)
    requires
        inv(s),
        0 <= i < s.messages.len(),
        s.messages[i].recipient == actor,
        s.messages[i].state == State::Claimed,
    ensures
        prepared(s, actor, MutationView::Next { key }, dir, now) matches Ok(c) && c.replaced
            == Some((i, s.messages[i])) && c.added is None,
{
    let f = waits(actor, State::Claimed);
    assert forall|j: int| 0 <= j < i implies !f(#[trigger] s.messages[j]) by {
        assert(s.messages[j].created_sequence < s.messages[i].created_sequence);
        assert(!(s.messages[j].state == State::Claimed && s.messages[i].state == State::Claimed
            && s.messages[j].recipient == s.messages[i].recipient));
    }
    lemma_first_is(s.messages, f, i);
}

/// A claim's generation never goes back, and a message keeps its place and its ID.
pub proof fn claim_generations_never_go_back(
    s: MailboxView,
    actor: Seq<char>,
    command: MutationView,
    dir: Seq<SessionView>,
    now: u64,
    g: StagedView,
    i: int,
)
    requires
        inv(s),
        planned(s, actor, command, dir, now) == PlanView::Commit(g),
        0 <= i < s.messages.len(),
    ensures
        committed(s, g).messages.len() >= s.messages.len(),
        committed(s, g).messages[i].id == s.messages[i].id,
        committed(s, g).messages[i].claim_generation >= s.messages[i].claim_generation,
{
    lemma_prepared_sound(s, actor, command, dir, now);
    match command {
        MutationView::Next { .. } => {
            lemma_first_where(s.messages, waits(actor, State::Claimed));
            lemma_first_where(s.messages, waits(actor, State::Queued));
        },
        MutationView::Reply { message, .. } => {
            lemma_first_where(s.messages, visible_to(actor, message));
        },
        MutationView::Complete { message, .. } => {
            lemma_first_where(s.messages, visible_to(actor, message));
        },
        MutationView::Requeue { message, .. } => {
            lemma_first_where(s.messages, visible_to(actor, message));
        },
        MutationView::Send { .. } => {},
    }
}

/// Once a message has come to a later generation, a claim of an earlier one is
/// good for nothing, for anyone.
pub proof fn an_old_claim_is_refused(
    t: MailboxView,
    i: int,
    actor: Seq<char>,
    generation: u64,
)
    requires
        inv(t),
        0 <= i < t.messages.len(),
        generation < t.messages[i].claim_generation,
    ensures
        claimed_by(t, actor, t.messages[i].id, generation) is Err,
{
    let id = t.messages[i].id;
    lemma_first_where(t.messages, visible_to(actor, id));
    if let Some(k) = first_where(t.messages, visible_to(actor, id)) {
        lemma_one_id(t, i, k);
    }
}

/// A message has its ID alone.
pub proof fn lemma_one_id(s: MailboxView, i: int, j: int)
    requires
        inv(s),
        0 <= i < s.messages.len(),
        0 <= j < s.messages.len(),
        s.messages[i].id == s.messages[j].id,
    ensures
        i == j,
{
    lemma_ids(s.instance, s.messages[i].created_sequence, s.messages[j].created_sequence);
    if i < j {
        assert(s.messages[i].created_sequence < s.messages[j].created_sequence);
    } else if j < i {
        assert(s.messages[j].created_sequence < s.messages[i].created_sequence);
    }
}

/// Putting a message back invalidates the claim that it was held under.
pub proof fn requeueing_invalidates_the_claim(
    s: MailboxView,
    actor: Seq<char>,
    key: Seq<char>,
    id: Seq<char>,
    generation: u64,
    reason: Seq<char>,
    dir: Seq<SessionView>,
    now: u64,
    g: StagedView,
    anyone: Seq<char>,
)
    requires
        inv(s),
        planned(
            s,
            actor,
            MutationView::Requeue { key, message: id, generation, reason },
            dir,
            now,
        ) == PlanView::Commit(g),
    ensures
        claimed_by(committed(s, g), anyone, id, generation) is Err,
{
    let command = MutationView::Requeue { key, message: id, generation, reason };
    lemma_prepared_sound(s, actor, command, dir, now);
    lemma_committed_inv(s, actor, command, dir, now, g);
    lemma_first_where(s.messages, visible_to(actor, id));
    let i = first_where(s.messages, visible_to(actor, id))->0;
    an_old_claim_is_refused(committed(s, g), i, anyone, generation);
}

/// The IDs of messages are identifiers.
pub proof fn message_ids_are_identifiers(s: MailboxView, sequence: u64)
    requires
        inv(s),
    ensures
        is_identifier(message_id(s.instance, sequence)),
{
    reveal_strlit("-m");
    let id = message_id(s.instance, sequence);
    let digits = decimal_of(sequence as nat);
    lemma_decimal_round_trip(sequence as nat);
    assert(digits.len() <= 20) by {
        reveal_with_fuel(decimal_of, 21);
    }
    assert forall|i: int| 0 <= i < id.len() implies name_rest(#[trigger] id[i]) by {
        if i < 32 {
            assert(is_hex_char(s.instance[i]));
        } else if i >= 34 {
            assert(is_digit(digits[i - 34]));
        }
    }
}

/// Room is kept for what was accepted: as long as the audit takes events, the
/// holder of a claim can complete it under any new key, however full the
/// mailbox is.
pub proof fn a_claim_can_be_completed(
    s: MailboxView,
    key: Seq<char>,
    dir: Seq<SessionView>,
    now: u64,
    i: int,
)
    requires
        inv(s),
        !s.audit_failed,
        s.sequence < u64::MAX,
        0 <= i < s.messages.len(),
        s.messages[i].state == State::Claimed,
        is_live(dir, s.messages[i].recipient),
        is_identifier(key),
        receipt_of(
            s.receipts,
            s.messages[i].recipient,
            MutationView::Complete {
                key,
                message: s.messages[i].id,
                generation: s.messages[i].claim_generation,
            },
        ) is None,
    ensures
        planned(
            s,
            s.messages[i].recipient,
            MutationView::Complete {
                key,
                message: s.messages[i].id,
                generation: s.messages[i].claim_generation,
            },
            dir,
            now,
        ) is Commit,
{
    let m = s.messages[i];
    let command = MutationView::Complete { key, message: m.id, generation: m.claim_generation };
    message_ids_are_identifiers(s, m.created_sequence);
    let f = visible_to(m.recipient, m.id);
    lemma_first_where(s.messages, f);
    assert(f(m));
    assert(first_where(s.messages, f) is Some) by {
        if first_where(s.messages, f) is None {
            assert(!f(s.messages[i]));
        }
    }
    lemma_one_id(s, i, first_where(s.messages, f)->0);
    let c = prepared(s, m.recipient, command, dir, now)->Ok_0;
    let done = MessageView { state: State::Completed, ..m };
    assert(c.replaced == Some((i, done)));
    lemma_reserved_update(s.messages, i, done);
    assert forall|r: Seq<char>| #[trigger] occupancy(after(s.messages, c), r) <= s.limits.inbox by {
        lemma_occupancy_update(s.messages, i, done, r);
        assert(occupancy(s.messages, r) <= s.limits.inbox);
    }
}

/// Room is kept for what was accepted: as long as the audit takes events, a
/// message that waits in an inbox can be fetched under any new key, however
/// full the mailbox is.
pub proof fn a_waiting_message_can_be_fetched(
    s: MailboxView,
    key: Seq<char>,
    dir: Seq<SessionView>,
    now: u64,
    i: int,
)
    requires
        inv(s),
        !s.audit_failed,
        s.sequence < u64::MAX,
        0 <= i < s.messages.len(),
        s.messages[i].state == State::Queued,
        forall|j: int|
            0 <= j < s.messages.len() && (#[trigger] s.messages[j]).recipient
                == s.messages[i].recipient ==> s.messages[j].state != State::Claimed,
        is_live(dir, s.messages[i].recipient),
        is_identifier(key),
        receipt_of(s.receipts, s.messages[i].recipient, MutationView::Next { key }) is None,
    ensures
        planned(s, s.messages[i].recipient, MutationView::Next { key }, dir, now) matches
            PlanView::Commit(g) && g.change.outcome is Claimed,
{
    let actor = s.messages[i].recipient;
    let command = MutationView::Next { key };
    let claimed = waits(actor, State::Claimed);
    let waiting = waits(actor, State::Queued);
    lemma_first_where(s.messages, claimed);
    lemma_first_where(s.messages, waiting);
    assert(waiting(s.messages[i]));
    if first_where(s.messages, claimed) is Some {
        let k = first_where(s.messages, claimed)->0;
        assert(claimed(s.messages[k]));
    }
    if first_where(s.messages, waiting) is None {
        assert(!waiting(s.messages[i]));
    }
    let k = first_where(s.messages, waiting)->0;
    let c = prepared(s, actor, command, dir, now)->Ok_0;
    let taken = claim_of(s.messages[k]);
    assert(c.replaced == Some((k, taken)));
    lemma_reserved_update(s.messages, k, taken);
    assert forall|r: Seq<char>| #[trigger] occupancy(after(s.messages, c), r) <= s.limits.inbox by {
        lemma_occupancy_update(s.messages, k, taken, r);
        assert(occupancy(s.messages, r) <= s.limits.inbox);
    }
}

proof fn lemma_candidates(dir: Seq<SessionView>, actor: Seq<char>, target: Seq<char>, k: nat)
    requires
        k <= dir.len(),
    ensures
        forall|i: int|
            0 <= i < candidates(dir, actor, target, k).len() ==> {
                let c = #[trigger] candidates(dir, actor, target, k)[i];
                0 <= c < k && crate::directory::may_write(dir, actor, dir[c])
            },
    decreases k,
{
    if k > 0 {
        let before = candidates(dir, actor, target, (k - 1) as nat);
        lemma_candidates(dir, actor, target, (k - 1) as nat);
        assert forall|i: int| 0 <= i < candidates(dir, actor, target, k).len() implies ({
            let c = #[trigger] candidates(dir, actor, target, k)[i];
            0 <= c < k && crate::directory::may_write(dir, actor, dir[c])
        }) by {
            if i < before.len() {
                assert(candidates(dir, actor, target, k)[i] == before[i]);
            }
        }
    }
}

/// An agent's target is its parent or descends from the agent, whatever name it is given by.
pub proof fn agents_write_only_to_their_kin(
    dir: Seq<SessionView>,
    actor: Seq<char>,
    target: Seq<char>,
)
    requires
        actor != "host"@,
        resolved(dir, actor, target) is Ok,
    ensures
        ({
            let r = resolved(dir, actor, target)->Ok_0;
            parent_of(dir, actor) == Some(r) || descends(dir, r, actor, dir.len())
        }),
{
    if target != "parent"@ {
        lemma_candidates(dir, actor, target, dir.len());
        let found = candidates(dir, actor, target, dir.len());
        assert(crate::directory::may_write(dir, actor, dir[found[0]]));
    }
}

/// Once a recipient has stopped nothing of its inbox is unresolved, nothing
/// else has changed, and stopping it again does nothing.
pub proof fn a_stopped_recipient_leaves_nothing_open(
    s: MailboxView,
    recipient: Seq<char>,
    now: u64,
    i: int,
)
    requires
        0 <= i < s.messages.len(),
    ensures
        ({
            let t = with_stop(s, recipient);
            &&& t.messages.len() == s.messages.len()
            &&& !is_pending(t.messages[i], recipient)
            &&& !is_pending(s.messages[i], recipient) ==> t.messages[i] == s.messages[i]
            &&& is_pending(s.messages[i], recipient) ==> t.messages[i].state == State::Failed
            &&& stop_planned(t, recipient, now) matches Ok(None)
        }),
{
    lemma_nothing_pending(stopped(s.messages, recipient), recipient);
}

proof fn lemma_nothing_pending(ms: Seq<MessageView>, recipient: Seq<char>)
    requires
        forall|i: int| 0 <= i < ms.len() ==> !is_pending(#[trigger] ms[i], recipient),
    ensures
        pending(ms, recipient).len() == 0,
    decreases ms.len(),
{
    if ms.len() > 0 {
        lemma_nothing_pending(ms.drop_last(), recipient);
    }
}

/// How many events of a log were taken.
pub open spec fn count_taken(log: Seq<Handed>) -> nat
    decreases log.len(),
{
    if log.len() == 0 {
        0
    } else {
        count_taken(log.drop_last()) + if log.last().verdict is Ok {
            1nat
        } else {
            0
        }
    }
}

/// The events that a log has taken are numbered from one on, without a gap, and the mailbox
/// stands at the last of them.
pub open spec fn in_step(s: MailboxView, log: Seq<Handed>) -> bool {
    &&& s.sequence == count_taken(log)
    &&& forall|i: int|
        0 <= i < log.len() && (#[trigger] log[i]).verdict is Ok ==> log[i].event.sequence
            == count_taken(log.take(i + 1))
}

/// From one moment to the next at most one event is handed on; a mailbox changes in nothing
/// but its trust in the audit unless that event was taken, under the next number.
pub open spec fn one_step(
    s: MailboxView,
    t: MailboxView,
    log: Seq<Handed>,
    longer: Seq<Handed>,
) -> bool {
    ||| longer == log && t == s
    ||| {
        &&& longer.len() == log.len() + 1
        &&& longer.drop_last() == log
        &&& longer.last().event.sequence == s.sequence + 1
        &&& match longer.last().verdict {
            Ok(_) => t.sequence == s.sequence + 1,
            Err(e) => t == (MailboxView {
                audit_failed: s.audit_failed || e == AuditError::Unavailable,
                ..s
            }),
        }
    }
}

/// An operation changes nothing that the log does not tell.
pub proof fn an_operation_is_recorded(
    s: MailboxView,
    t: MailboxView,
    log: Seq<Handed>,
    longer: Seq<Handed>,
    actor: Seq<char>,
    command: MutationView,
    dir: Seq<SessionView>,
    now: u64,
    given: Result<OutcomeView, (int, Seq<char>)>,
)
    requires
        execute_done(s, t, log, longer, actor, command, dir, now, given),
    ensures
        one_step(s, t, log, longer),
        given is Ok && t != s ==> longer.len() == log.len() + 1 && longer.last().verdict is Ok,
{
}

/// What is noted beside the mailbox is numbered with the operations.
pub proof fn a_note_is_recorded(
    s: MailboxView,
    t: MailboxView,
    log: Seq<Handed>,
    longer: Seq<Handed>,
    actor: Seq<char>,
    kind: Seq<char>,
    data: EventDataView,
    now: u64,
    failure: Option<(int, Seq<char>)>,
)
    requires
        record_done(s, t, log, longer, actor, kind, data, now, failure),
    ensures
        one_step(s, t, log, longer),
        failure is None ==> longer.len() == log.len() + 1 && longer.last().verdict is Ok,
{
}

/// A recipient does not stop behind the back of the log.
pub proof fn an_end_is_recorded(
    s: MailboxView,
    t: MailboxView,
    log: Seq<Handed>,
    longer: Seq<Handed>,
    recipient: Seq<char>,
    now: u64,
    failure: Option<(int, Seq<char>)>,
)
    requires
        stop_done(s, t, log, longer, recipient, now, failure),
    ensures
        one_step(s, t, log, longer),
        t.messages != s.messages ==> longer.len() == log.len() + 1 && longer.last().verdict is Ok,
{
}

/// The log has no gap: whatever is done, the events that were taken stay numbered from one
/// on, in the order in which they were handed on.
pub proof fn the_log_has_no_gap(
    s: MailboxView,
    t: MailboxView,
    log: Seq<Handed>,
    longer: Seq<Handed>,
)
    requires
        in_step(s, log),
        one_step(s, t, log, longer),
    ensures
        in_step(t, longer),
{
    if longer != log {
        assert forall|i: int|
            0 <= i < longer.len() && (#[trigger] longer[i]).verdict is Ok implies longer[i].event.sequence
            == count_taken(longer.take(i + 1)) by {
            if i < log.len() {
                assert(longer[i] == longer.drop_last()[i]);
                assert(longer.take(i + 1) =~= log.take(i + 1));
            } else {
                assert(longer.take(i + 1) =~= longer);
            }
        }
    }
}

} // verus!
