//! What commands ask for, and how it is understood where it arrives.
use vstd::prelude::*;

use crate::client::{
    command_of, inbox_call, key_of, mail_of, reply_params, send_params, settlement, simple_call,
    CommandView, MailView,
};
use crate::commands::{attachment_of, hooked, page_of};
use crate::config::member;
use crate::json::{lookup, the_first_member_counts, Json};
use crate::lines::{option_of, words_of, LineView};
use crate::messages::{
    a_fetch_is_read, a_send_is_read, an_answer_is_read, hex_of, mutation_of, only_names, text_at,
    MutationView,
};
use crate::params::{asks, plain, plain_fields, Request, Value};
use crate::protocol::is_identifier;
use crate::text::{a_text_is_cut_at_the_first_part, cut, has_part, occurs_at};

verus! {

proof fn lemma_param(f: Seq<(String, Json)>, p: Seq<(Seq<char>, Value)>, i: int)
    requires
        plain_fields(f) == p,
        0 <= i < p.len(),
        forall|j: int| 0 <= j < i ==> (#[trigger] p[j]).0 != p[i].0,
    ensures
        lookup(f, p[i].0) matches Some(v) && plain(v) == p[i].1,
{
    assert(f.len() == p.len());
    assert(plain_fields(f)[i] == p[i]);
    assert forall|j: int| 0 <= j < i implies (#[trigger] f[j]).0@ != p[i].0 by {
        assert(plain_fields(f)[j] == p[j]);
    }
    the_first_member_counts(f, p[i].0, i);
}

proof fn lemma_no_param(f: Seq<(String, Json)>, p: Seq<(Seq<char>, Value)>, name: Seq<char>)
    requires
        plain_fields(f) == p,
        forall|j: int| 0 <= j < p.len() ==> (#[trigger] p[j]).0 != name,
    ensures
        lookup(f, name) is None,
{
    assert(f.len() == p.len());
    assert forall|j: int| 0 <= j < f.len() implies (#[trigger] f[j]).0@ != name by {
        assert(plain_fields(f)[j] == p[j]);
    }
    the_first_member_counts(f, name, f.len() as int);
}

proof fn lemma_names()
    ensures
        "to"@.len() == 2,
        "key"@.len() == 3,
        "body"@.len() == 4,
        "reason"@.len() == 6,
        "message"@.len() == 7,
        "conversation"@.len() == 12,
        "claim_generation"@.len() == 16,
{
    reveal_strlit("to");
    reveal_strlit("key");
    reveal_strlit("body");
    reveal_strlit("reason");
    reveal_strlit("message");
    reveal_strlit("conversation");
    reveal_strlit("claim_generation");
}

/// A message that is asked to be sent is understood as it was asked for.
pub proof fn what_is_sent_is_understood(
    r: Request,
    key: Seq<char>,
    to: Seq<char>,
    body: Seq<char>,
)
    requires
        asks(r, "messages.send"@, send_params(key, to, body)),
    ensures
        mutation_of(r.method@, r.params) == Some(
            MutationView::Send { key, to, body, conversation: None },
        ),
{
    lemma_names();
    let v = r.params;
    let f = v.fields();
    let p = send_params(key, to, body);
    lemma_param(f, p, 0);
    lemma_param(f, p, 1);
    lemma_param(f, p, 2);
    lemma_no_param(f, p, "conversation"@);
    assert forall|i: int| 0 <= i < f.len() implies {
        let name = (#[trigger] f[i]).0@;
        name == "key"@ || name == "to"@ || name == "body"@ || name == "conversation"@
    } by {
        assert(plain_fields(f)[i] == p[i]);
    }
    a_send_is_read(v, key, to, body);
}

/// An answer is understood as it was asked for, under the claim that was named.
pub proof fn what_is_answered_is_understood(
    r: Request,
    key: Seq<char>,
    message: Seq<char>,
    generation: u64,
    body: Seq<char>,
)
    requires
        asks(r, "messages.reply"@, reply_params(key, message, generation as nat, body)),
    ensures
        mutation_of(r.method@, r.params) == Some(
            MutationView::Reply { key, message, generation, body },
        ),
{
    lemma_names();
    let v = r.params;
    let f = v.fields();
    let p = reply_params(key, message, generation as nat, body);
    lemma_param(f, p, 0);
    lemma_param(f, p, 1);
    lemma_param(f, p, 2);
    lemma_param(f, p, 3);
    let names = seq!["key"@, "message"@, "claim_generation"@, "body"@];
    assert(only_names(v, names)) by {
        assert forall|i: int| 0 <= i < f.len() implies names.contains((#[trigger] f[i]).0@) by {
            assert(plain_fields(f)[i] == p[i]);
            assert(names[i] == p[i].0);
        }
    }
    an_answer_is_read(v, key, message, generation, body);
}

/// What is asked of an inbox is understood as it was asked for, under the key that was given or
/// drawn.
pub proof fn what_an_inbox_is_asked_is_understood(
    r: Request,
    c: MailView,
    random: Seq<u8>,
    method: Seq<char>,
    params: Seq<(Seq<char>, Value)>,
    key: Seq<char>,
)
    requires
        inbox_call(c, random) == Some((method, params)),
        asks(r, method, params),
        c matches MailView::InboxNext { key: k } ==> key_of(k, random) == Some(key),
        c matches MailView::InboxComplete { key: k, claim_generation, .. } ==> key_of(k, random)
            == Some(key) && claim_generation <= u64::MAX,
        c matches MailView::InboxRequeue { key: k, claim_generation, .. } ==> key_of(k, random)
            == Some(key) && claim_generation <= u64::MAX,
    ensures
        c is InboxNext ==> mutation_of(r.method@, r.params) == Some(MutationView::Next { key }),
        c matches MailView::InboxComplete { message, claim_generation, .. } ==> mutation_of(
            r.method@,
            r.params,
        ) == Some(
            MutationView::Complete { key, message, generation: claim_generation as u64 },
        ),
        c matches MailView::InboxRequeue { message, claim_generation, reason, .. } ==> mutation_of(
            r.method@,
            r.params,
        ) == Some(
            MutationView::Requeue { key, message, generation: claim_generation as u64, reason },
        ),
{
    lemma_names();
    let v = r.params;
    let f = v.fields();
    let p = params;
    match c {
        MailView::InboxNext { .. } => {
            lemma_param(f, p, 0);
            assert(f.len() == p.len());
            assert forall|i: int| 0 <= i < f.len() implies (#[trigger] f[i]).0@ == "key"@ by {
                assert(plain_fields(f)[i] == p[i]);
                assert(i == 0);
            }
            a_fetch_is_read(v, key);
        },
        MailView::InboxComplete { message, claim_generation, .. } => {
            lemma_param(f, p, 0);
            lemma_param(f, p, 1);
            lemma_param(f, p, 2);
            let names = seq!["key"@, "message"@, "claim_generation"@];
            assert(names[0] == "key"@ && names[1] == "message"@ && names[2]
                == "claim_generation"@);
            assert(only_names(v, names)) by {
                assert forall|i: int| 0 <= i < f.len() implies names.contains(
                    (#[trigger] f[i]).0@,
                ) by {
                    assert(plain_fields(f)[i] == p[i]);
                }
            }
            an_answer_is_read(v, key, message, claim_generation as u64, Seq::empty());
        },
        MailView::InboxRequeue { message, claim_generation, reason, .. } => {
            lemma_param(f, p, 0);
            lemma_param(f, p, 1);
            lemma_param(f, p, 2);
            lemma_param(f, p, 3);
            let names = seq!["key"@, "message"@, "claim_generation"@, "reason"@];
            assert(names[0] == "key"@ && names[1] == "message"@ && names[2] == "claim_generation"@
                && names[3] == "reason"@);
            assert(f.len() == p.len());
            assert(p[0].0 == names[1] && p[1].0 == names[2] && p[2].0 == names[0] && p[3].0
                == names[3]);
            assert(only_names(v, names)) by {
                assert forall|i: int| 0 <= i < f.len() implies names.contains(
                    (#[trigger] f[i]).0@,
                ) by {
                    assert(plain_fields(f)[i] == p[i]);
                }
            }
            an_answer_is_read(v, key, message, claim_generation as u64, reason);
        },
        _ => {},
    }
}

/// A key that is given is used, and one that is not given is drawn.
pub proof fn a_given_key_is_used(key: Seq<char>, random: Seq<u8>)
    ensures
        is_identifier(key) ==> key_of(Some(key), random) == Some(key),
        !is_identifier(key) ==> key_of(Some(key), random) is None,
        key_of(None, random) == Some(hex_of(random)),
{
}

/// Who stops a session names it, and says whether those below it stop too.
pub proof fn a_stop_names_its_session(l: LineView, session: Seq<char>)
    requires
        l.command == "kill"@ || l.command == "stop"@,
        words_of(l.taken) == seq![session],
    ensures
        command_of(l) matches Some(c) && simple_call(c) == Some(
            (
                "sessions.stop"@,
                seq![
                    ("session"@, Value::Text(session)),
                    ("kill_children"@, Value::Flag(l.taken.flags.contains("--kill-children"@))),
                ],
            ),
        ),
{
    lemma_commands();
    let w = words_of(l.taken);
    assert(w.len() == 1 && w[0] == session);
    assert("kill"@.len() == 4 && "stop"@.len() == 4);
    assert("kill"@[0] == 'k' && "stop"@[0] == 's');
    assert(mail_of(l) is None);
}

proof fn lemma_commands()
    ensures
        "send"@.len() == 4 && "send"@[1] == 'e' && "send"@[0] == 's',
        "reply"@.len() == 5 && "reply"@[0] == 'r',
        "inbox status"@.len() == 12,
        "inbox next"@.len() == 10,
        "inbox complete"@.len() == 14,
        "inbox requeue"@.len() == 13 && "inbox requeue"@[0] == 'i',
        "integration register"@.len() == 20,
        "integration watch"@.len() == 17,
        "integration hook"@.len() == 16,
        "integration status"@.len() == 18,
        "__complete-names"@.len() == 16,
        "enable-docker"@.len() == 13 && "enable-docker"@[0] == 'e',
        "status"@.len() == 6 && "status"@[0] == 's',
        "list"@.len() == 4 && "list"@[0] == 'l',
        "detach"@.len() == 6 && "detach"@[0] == 'd',
        "request-package"@.len() == 15,
        "run"@.len() == 3,
        "attach"@.len() == 6 && "attach"@[0] == 'a',
        "kill"@.len() == 4 && "kill"@[0] == 'k',
        "stop"@.len() == 4 && "stop"@[1] == 't' && "stop"@[0] == 's',
{
    reveal_strlit("send");
    reveal_strlit("reply");
    reveal_strlit("inbox status");
    reveal_strlit("inbox next");
    reveal_strlit("inbox complete");
    reveal_strlit("inbox requeue");
    reveal_strlit("integration register");
    reveal_strlit("integration watch");
    reveal_strlit("integration hook");
    reveal_strlit("integration status");
    reveal_strlit("__complete-names");
    reveal_strlit("enable-docker");
    reveal_strlit("status");
    reveal_strlit("list");
    reveal_strlit("detach");
    reveal_strlit("request-package");
    reveal_strlit("run");
    reveal_strlit("attach");
    reveal_strlit("kill");
    reveal_strlit("stop");
}

/// A session is begun under the configuration, the name and the owner that the line gives.
pub proof fn a_run_says_what_begins(l: LineView, config: Seq<char>)
    requires
        l.command == "run"@,
        words_of(l.taken) == seq![config],
    ensures
        l.taken.flags.contains("--detatched"@) && l.taken.flags.contains("--detached"@)
            ==> command_of(l) is None,
        !(l.taken.flags.contains("--detatched"@) && l.taken.flags.contains("--detached"@))
            ==> command_of(l) == Some(
            CommandView::Run {
                config,
                name: option_of(l, "--name"@),
                parent: option_of(l, "--parent"@),
                detatched: l.taken.flags.contains("--detatched"@) || l.taken.flags.contains(
                    "--detached"@,
                ),
            },
        ),
{
    lemma_commands();
    let w = words_of(l.taken);
    assert(w.len() == 1 && w[0] == config);
    assert(mail_of(l) is None);
}

/// A package is asked for by its name, and a session attached to by what names it.
pub proof fn a_line_names_what_it_is_for(l: LineView, word: Seq<char>)
    requires
        words_of(l.taken) == seq![word],
    ensures
        l.command == "request-package"@ ==> command_of(l) == Some(
            CommandView::RequestPackage { package: word, reason: option_of(l, "--reason"@) },
        ),
        l.command == "attach"@ ==> command_of(l) == Some(CommandView::Attach { session: word }),
{
    lemma_commands();
    let w = words_of(l.taken);
    assert(w.len() == 1 && w[0] == word);
    if l.command == "request-package"@ {
        assert(mail_of(l) is None);
    }
    if l.command == "attach"@ {
        assert(mail_of(l) is None);
    }
}

/// A message goes to whom the line names, with the text that it gives.
pub proof fn a_line_sends_what_it_says(
    l: LineView,
    recipient: Seq<char>,
    text: Seq<char>,
)
    requires
        l.command == "send"@,
        words_of(l.taken) == seq![recipient],
        option_of(l, "--message"@) == Some(text),
        option_of(l, "--file"@) is None,
    ensures
        command_of(l) == Some(
            CommandView::Mail(
                MailView::Send {
                    recipient,
                    message: Some(text),
                    file: None,
                    key: option_of(l, "--key"@),
                },
            ),
        ),
{
    let w = words_of(l.taken);
    assert(w.len() == 1 && w[0] == recipient);
}

/// A request that was granted ends well, and one that was not does not.
pub proof fn what_was_granted_ends_well(request: Seq<char>)
    requires
        is_identifier(request),
    ensures
        settlement("ready"@, request) == Ok::<int, Seq<char>>(0),
        settlement("denied"@, request) == Ok::<int, Seq<char>>(1),
        settlement("error"@, request) == Ok::<int, Seq<char>>(1),
{
    reveal_strlit("ready");
    reveal_strlit("denied");
    reveal_strlit("error");
    assert("ready"@.len() != "denied"@.len());
    assert("ready"@[0] != "error"@[0]);
}

/// Who attaches to a session by its id gets that session or none.
pub proof fn an_attachment_is_the_session_named(exact: bool, session: Seq<char>, record: Json)
    ensures
        attachment_of(exact, session, record) matches Ok((id, path)) ==> crate::config::text_at(
            record,
            "id"@,
        ) == Some(id) && crate::config::text_at(record, "terminal"@) == Some(path) && (exact ==> id
            == session),
        crate::config::text_at(record, "id"@) is Some && crate::config::text_at(
            record,
            "terminal"@,
        ) is Some && (exact ==> crate::config::text_at(record, "id"@) == Some(session))
            ==> attachment_of(exact, session, record) is Ok,
{
}

/// A page is followed to its cursor.
pub proof fn a_page_is_followed_to_its_cursor(page: Json, cursor: u64, latest: u64)
    requires
        member(page, "events"@) is Array,
        member(page, "cursor"@) == Json::Unsigned(cursor),
        member(page, "latest"@) == Json::Unsigned(latest),
    ensures
        page_of(page) == Ok::<(u64, u64), Seq<char>>((cursor, latest)),
{
}

/// A hook is put behind the head of the function, and the script keeps all that it had.
pub proof fn a_hook_is_put_in(script: Seq<char>, hook: Seq<char>)
    ensures
        hooked(script, hook) is Some <==> has_part(script, "_goblins() {"@),
        hooked(script, hook) matches Some(s) ==> exists|a: Seq<char>, b: Seq<char>|
            script == #[trigger] (a + "_goblins() {"@ + b) && s == a + "_goblins() {"@ + hook + b,
{
    reveal_strlit("_goblins() {");
    let mark = "_goblins() {"@;
    assert(mark.len() > 0);
    a_text_is_cut_at_the_first_part(script, mark);
    if let Some((a, b)) = cut(script, mark) {
        assert(script == a + mark + b);
        assert(occurs_at(script, mark, a.len() as int)) by {
            assert(script.subrange(a.len() as int, (a.len() + mark.len()) as int) =~= mark);
        }
    }
}

/// The host stops the session that it names, and says whether those below it stop too.
pub proof fn a_host_line_stops_what_it_names(l: LineView, session: Seq<char>)
    requires
        l.command == "kill"@ || l.command == "stop"@,
        words_of(l.taken) == seq![session],
    ensures
        crate::cli::command_of(l) matches Some(c) && crate::commands::simple_call(c) == Some(
            (
                "sessions.stop"@,
                seq![
                    ("session"@, Value::Text(session)),
                    ("kill_children"@, Value::Flag(l.taken.flags.contains("--kill-children"@))),
                ],
            ),
        ),
{
    lemma_commands();
    reveal_strlit("rpc");
    reveal_strlit("detatch");
    assert("rpc"@.len() == 3 && "detatch"@.len() == 7);
    let w = words_of(l.taken);
    assert(w.len() == 1 && w[0] == session);
    assert(mail_of(l) is None);
}

/// The host begins a session under the configuration, the name and the owner that the line gives.
pub proof fn a_host_line_begins_what_it_names(l: LineView, config: Seq<char>)
    requires
        l.command == "run"@,
        words_of(l.taken) == seq![config],
        !(l.taken.flags.contains("--detatched"@) && l.taken.flags.contains("--detached"@)),
    ensures
        crate::cli::command_of(l) == Some(
            crate::cli::CommandView::Run {
                config,
                name: option_of(l, "--name"@),
                parent: option_of(l, "--parent"@),
                detatched: l.taken.flags.contains("--detatched"@) || l.taken.flags.contains(
                    "--detached"@,
                ),
            },
        ),
{
    lemma_commands();
    reveal_strlit("rpc");
    assert("rpc"@.len() == 3 && "rpc"@[1] == 'p');
    reveal_strlit("run");
    assert("run"@[1] == 'u');
    let w = words_of(l.taken);
    assert(w.len() == 1 && w[0] == config);
    assert(mail_of(l) is None);
}

/// The host attaches to the session that it names, or leaves it, or steers its integration.
pub proof fn a_host_line_reaches_what_it_names(l: LineView, session: Seq<char>)
    requires
        words_of(l.taken) == seq![session],
    ensures
        l.command == "attach"@ ==> crate::cli::command_of(l) == Some(
            crate::cli::CommandView::Attach { session, instance: option_of(l, "--instance"@) },
        ),
        l.command == "detach"@ || l.command == "detatch"@ ==> (crate::cli::command_of(l) matches Some(
            c,
        ) && crate::commands::simple_call(c) == Some(
            ("sessions.detach"@, seq![("session"@, Value::Text(session))]),
        )),
{
    lemma_commands();
    reveal_strlit("rpc");
    reveal_strlit("detatch");
    assert("rpc"@.len() == 3 && "detatch"@.len() == 7);
    let w = words_of(l.taken);
    assert(w.len() == 1 && w[0] == session);
    if l.command == "attach"@ {
        assert(mail_of(l) is None);
    }
    if l.command == "detach"@ || l.command == "detatch"@ {
        assert(mail_of(l) is None);
    }
}

} // verus!
