//! Mailbox data as it crosses the wire. Who sends comes from the endpoint that
//! a request arrives on, never from the request.
use vstd::prelude::*;
use vstd::utf8::{decode_utf8, valid_utf8};

use crate::json::{lookup, set_text, with, Json};
use crate::protocol::{identifier, is_identifier};
use crate::text::{byte_len, copy_option, from_utf8, maybe, same, same_option, size, utf8_complaint};

verus! {

/// The most bytes of a message's text.
pub const MAX_BODY: usize = 8192;

/// The most bytes of a request to a mailbox.
pub const MAX_REQUEST: usize = 65536;

/// The name under which a host offers mailboxes.
pub fn feature() -> (r: String)
    ensures
        r@ == "agent-inbox-v1"@,
{
    String::from_str("agent-inbox-v1")
}

pub struct Send {
    pub key: String,
    pub to: String,
    pub body: String,
    pub conversation: Option<String>,
}

pub struct Next {
    pub key: String,
}

pub struct Claim {
    pub key: String,
    pub message: String,
    pub claim_generation: u64,
}

pub struct Reply {
    pub key: String,
    pub message: String,
    pub claim_generation: u64,
    pub body: String,
}

pub struct Requeue {
    pub key: String,
    pub message: String,
    pub claim_generation: u64,
    pub reason: String,
}

/// A change that an actor asks of the mailbox.
pub enum Mutation {
    Send(Send),
    Next(Next),
    Reply(Reply),
    Complete(Claim),
    Requeue(Requeue),
}

/// What a mutation says.
pub enum MutationView {
    Send { key: Seq<char>, to: Seq<char>, body: Seq<char>, conversation: Option<Seq<char>> },
    Next { key: Seq<char> },
    Reply { key: Seq<char>, message: Seq<char>, generation: u64, body: Seq<char> },
    Complete { key: Seq<char>, message: Seq<char>, generation: u64 },
    Requeue { key: Seq<char>, message: Seq<char>, generation: u64, reason: Seq<char> },
}

impl View for Mutation {
    type V = MutationView;

    open spec fn view(&self) -> MutationView {
        match self {
            Mutation::Send(p) => MutationView::Send {
                key: p.key@,
                to: p.to@,
                body: p.body@,
                conversation: maybe(p.conversation),
            },
            Mutation::Next(p) => MutationView::Next { key: p.key@ },
            Mutation::Reply(p) => MutationView::Reply {
                key: p.key@,
                message: p.message@,
                generation: p.claim_generation,
                body: p.body@,
            },
            Mutation::Complete(p) => MutationView::Complete {
                key: p.key@,
                message: p.message@,
                generation: p.claim_generation,
            },
            Mutation::Requeue(p) => MutationView::Requeue {
                key: p.key@,
                message: p.message@,
                generation: p.claim_generation,
                reason: p.reason@,
            },
        }
    }
}

impl MutationView {
    /// The method that asks for it.
    pub open spec fn method(self) -> Seq<char> {
        match self {
            MutationView::Send { .. } => "messages.send"@,
            MutationView::Next { .. } => "inbox.next"@,
            MutationView::Reply { .. } => "messages.reply"@,
            MutationView::Complete { .. } => "inbox.complete"@,
            MutationView::Requeue { .. } => "inbox.requeue"@,
        }
    }

    /// The caller's name for this one operation.
    pub open spec fn key(self) -> Seq<char> {
        match self {
            MutationView::Send { key, .. } => key,
            MutationView::Next { key } => key,
            MutationView::Reply { key, .. } => key,
            MutationView::Complete { key, .. } => key,
            MutationView::Requeue { key, .. } => key,
        }
    }

    /// Why it is refused whatever the state of the mailbox, if it is.
    pub open spec fn refusal(self) -> Option<Seq<char>> {
        if !is_identifier(self.key()) {
            Some("invalid operation key"@)
        } else {
            match self {
                MutationView::Send { key, to, body, conversation } => if to.len() == 0 || size(to)
                    > 512 || (conversation matches Some(c) && !is_identifier(c)) {
                    Some("invalid recipient or conversation"@)
                } else {
                    body_refusal(body)
                },
                MutationView::Next { .. } => None,
                MutationView::Reply { key, message, generation, body } => match claim_refusal(
                    message,
                    generation,
                ) {
                    Some(e) => Some(e),
                    None => body_refusal(body),
                },
                MutationView::Complete { key, message, generation } => claim_refusal(
                    message,
                    generation,
                ),
                MutationView::Requeue { key, message, generation, reason } => match claim_refusal(
                    message,
                    generation,
                ) {
                    Some(e) => Some(e),
                    None => if reason.len() == 0 || size(reason) > 512 {
                        Some("requeue reason must contain 1..512 UTF-8 bytes"@)
                    } else {
                        None
                    },
                },
            }
        }
    }
}

pub open spec fn claim_refusal(message: Seq<char>, generation: u64) -> Option<Seq<char>> {
    if !is_identifier(message) || generation == 0 {
        Some("invalid message ID or claim generation"@)
    } else {
        None
    }
}

pub open spec fn body_refusal(body: Seq<char>) -> Option<Seq<char>> {
    if size(body) > MAX_BODY {
        Some("message exceeds 8 KiB of UTF-8 text"@)
    } else {
        None
    }
}

/// The members of a request are among these.
pub open spec fn only_names(v: Json, names: Seq<Seq<char>>) -> bool {
    v is Object && forall|i: int|
        0 <= i < v.fields().len() ==> names.contains((#[trigger] v.fields()[i]).0@)
}

pub open spec fn text_at(v: Json, key: Seq<char>) -> Option<Seq<char>> {
    match lookup(v.fields(), key) {
        Some(Json::Text(s)) => Some(s@),
        _ => None,
    }
}

pub open spec fn number_at(v: Json, key: Seq<char>) -> Option<u64> {
    match lookup(v.fields(), key) {
        Some(Json::Unsigned(n)) => Some(n),
        _ => None,
    }
}

pub open spec fn is_text_item(items: Seq<Json>, i: int) -> bool {
    0 <= i < items.len() && items[i] is Text
}

/// The mutation that a method and a list of its fields ask for: all of them, in order and
/// each of its type.
pub open spec fn positional_mutation(method: Seq<char>, items: Seq<Json>) -> Option<MutationView> {
    if !is_text_item(items, 0) {
        None
    } else if method == "messages.send"@ {
        if items.len() == 4 && items[1] is Text && items[2] is Text && (items[3] is Null
            || items[3] is Text) {
            Some(
                MutationView::Send {
                    key: items[0]->Text_0@,
                    to: items[1]->Text_0@,
                    body: items[2]->Text_0@,
                    conversation: if items[3] is Text {
                        Some(items[3]->Text_0@)
                    } else {
                        None
                    },
                },
            )
        } else {
            None
        }
    } else if method == "inbox.next"@ {
        if items.len() == 1 {
            Some(MutationView::Next { key: items[0]->Text_0@ })
        } else {
            None
        }
    } else if items.len() < 3 || !(items[1] is Text) || !(items[2] is Unsigned) {
        None
    } else if method == "inbox.complete"@ {
        if items.len() == 3 {
            Some(
                MutationView::Complete {
                    key: items[0]->Text_0@,
                    message: items[1]->Text_0@,
                    generation: items[2]->Unsigned_0,
                },
            )
        } else {
            None
        }
    } else if items.len() != 4 || !(items[3] is Text) {
        None
    } else if method == "messages.reply"@ {
        Some(
            MutationView::Reply {
                key: items[0]->Text_0@,
                message: items[1]->Text_0@,
                generation: items[2]->Unsigned_0,
                body: items[3]->Text_0@,
            },
        )
    } else if method == "inbox.requeue"@ {
        Some(
            MutationView::Requeue {
                key: items[0]->Text_0@,
                message: items[1]->Text_0@,
                generation: items[2]->Unsigned_0,
                reason: items[3]->Text_0@,
            },
        )
    } else {
        None
    }
}

/// The mutation that a method and its parameters ask for.
pub open spec fn mutation_of(method: Seq<char>, v: Json) -> Option<MutationView> {
    match v {
        Json::Array(items) => positional_mutation(method, items@),
        _ => named_mutation(method, v),
    }
}

/// The mutation that a method and its named parameters ask for: exactly the fields
/// of that method, each of its type, and nothing beside them.
pub open spec fn named_mutation(method: Seq<char>, v: Json) -> Option<MutationView> {
    let key = text_at(v, "key"@);
    let message = text_at(v, "message"@);
    let generation = number_at(v, "claim_generation"@);
    if key is None {
        None
    } else if method == "messages.send"@ {
        let conversation = lookup(v.fields(), "conversation"@);
        if only_names(v, seq!["key"@, "to"@, "body"@, "conversation"@]) && text_at(v, "to"@) is Some
            && text_at(v, "body"@) is Some && match conversation {
            None => true,
            Some(Json::Null) => true,
            Some(Json::Text(_)) => true,
            _ => false,
        } {
            Some(
                MutationView::Send {
                    key: key->0,
                    to: text_at(v, "to"@)->0,
                    body: text_at(v, "body"@)->0,
                    conversation: text_at(v, "conversation"@),
                },
            )
        } else {
            None
        }
    } else if method == "inbox.next"@ {
        if only_names(v, seq!["key"@]) {
            Some(MutationView::Next { key: key->0 })
        } else {
            None
        }
    } else if message is None || generation is None {
        None
    } else if method == "messages.reply"@ {
        if only_names(v, seq!["key"@, "message"@, "claim_generation"@, "body"@]) && text_at(
            v,
            "body"@,
        ) is Some {
            Some(
                MutationView::Reply {
                    key: key->0,
                    message: message->0,
                    generation: generation->0,
                    body: text_at(v, "body"@)->0,
                },
            )
        } else {
            None
        }
    } else if method == "inbox.complete"@ {
        if only_names(v, seq!["key"@, "message"@, "claim_generation"@]) {
            Some(
                MutationView::Complete {
                    key: key->0,
                    message: message->0,
                    generation: generation->0,
                },
            )
        } else {
            None
        }
    } else if method == "inbox.requeue"@ {
        if only_names(v, seq!["key"@, "message"@, "claim_generation"@, "reason"@]) && text_at(
            v,
            "reason"@,
        ) is Some {
            Some(
                MutationView::Requeue {
                    key: key->0,
                    message: message->0,
                    generation: generation->0,
                    reason: text_at(v, "reason"@)->0,
                },
            )
        } else {
            None
        }
    } else {
        None
    }
}

fn only(v: &Json, names: &Vec<&str>) -> (r: bool)
    ensures
        r == only_names(*v, names@.map_values(|s: &str| s@)),
{
    let ghost allowed = names@.map_values(|s: &str| s@);
    match v {
        Json::Object(fields) => {
            let mut i: usize = 0;
            while i < fields.len()
                invariant
                    *v == Json::Object(*fields),
                    allowed == names@.map_values(|s: &str| s@),
                    i <= fields@.len(),
                    forall|j: int| 0 <= j < i ==> allowed.contains((#[trigger] fields@[j]).0@),
                decreases fields@.len() - i,
            {
                let mut known: bool = false;
                let mut k: usize = 0;
                while k < names.len() && !known
                    invariant
                        i < fields@.len(),
                        k <= names@.len(),
                        allowed == names@.map_values(|s: &str| s@),
                        known ==> allowed.contains(fields@[i as int].0@),
                        !known ==> forall|j: int| 0 <= j < k ==> allowed[j] != fields@[i as int].0@,
                    decreases names@.len() - k, if known { 0int } else { 1int },
                {
                    if same(names[k], fields[i].0.as_str()) {
                        known = true;
                        assert(allowed[k as int] == fields@[i as int].0@);
                    } else {
                        k += 1;
                    }
                }
                if !known {
                    assert(v.fields()[i as int] == fields@[i as int]);
                    return false;
                }
                i += 1;
            }
            true
        },
        _ => false,
    }
}

pub(crate) fn get_text(v: &Json, key: &str) -> (r: Option<String>)
    ensures
        maybe(r) == text_at(*v, key@),
{
    match v.get(key) {
        Some(Json::Text(s)) => Some(s.clone()),
        _ => None,
    }
}

pub(crate) fn get_number(v: &Json, key: &str) -> (r: Option<u64>)
    ensures
        r == number_at(*v, key@),
{
    match v.get(key) {
        Some(Json::Unsigned(n)) => Some(*n),
        _ => None,
    }
}

fn item_text(items: &Vec<Json>, i: usize) -> (r: Option<String>)
    ensures
        match r {
            Some(s) => is_text_item(items@, i as int) && s@ == items@[i as int]->Text_0@,
            None => !is_text_item(items@, i as int),
        },
{
    if i < items.len() {
        match &items[i] {
            Json::Text(s) => Some(s.clone()),
            _ => None,
        }
    } else {
        None
    }
}

fn decode_list(method: &str, items: &Vec<Json>) -> (r: Option<Mutation>)
    ensures
        match r {
            Some(m) => positional_mutation(method@, items@) == Some(m@),
            None => positional_mutation(method@, items@) is None,
        },
{
    let n: usize = items.len();
    let key = match item_text(items, 0) {
        Some(key) => key,
        None => {
            return None;
        },
    };
    if same(method, "messages.send") {
        if n != 4 {
            return None;
        }
        let conversation = match &items[3] {
            Json::Null => None,
            Json::Text(s) => Some(s.clone()),
            _ => {
                return None;
            },
        };
        return match (item_text(items, 1), item_text(items, 2)) {
            (Some(to), Some(body)) => Some(Mutation::Send(Send { key, to, body, conversation })),
            _ => None,
        };
    }
    if same(method, "inbox.next") {
        return if n == 1 {
            Some(Mutation::Next(Next { key }))
        } else {
            None
        };
    }
    if n < 3 {
        return None;
    }
    let (message, claim_generation) = match (item_text(items, 1), &items[2]) {
        (Some(m), Json::Unsigned(g)) => (m, *g),
        _ => {
            return None;
        },
    };
    if same(method, "inbox.complete") {
        return if n == 3 {
            Some(Mutation::Complete(Claim { key, message, claim_generation }))
        } else {
            None
        };
    }
    if n != 4 {
        return None;
    }
    let last = match item_text(items, 3) {
        Some(t) => t,
        None => {
            return None;
        },
    };
    if same(method, "messages.reply") {
        return Some(Mutation::Reply(Reply { key, message, claim_generation, body: last }));
    }
    if same(method, "inbox.requeue") {
        return Some(Mutation::Requeue(Requeue { key, message, claim_generation, reason: last }));
    }
    None
}

/// Where a name stands for no method of the mailbox.
fn decode(method: &str, v: &Json) -> (r: Option<Mutation>)
    ensures
        match r {
            Some(m) => mutation_of(method@, *v) == Some(m@),
            None => mutation_of(method@, *v) is None,
        },
{
    if let Json::Array(items) = v {
        return decode_list(method, items);
    }
    let key = match get_text(v, "key") {
        Some(key) => key,
        None => {
            return None;
        },
    };
    if same(method, "messages.send") {
        let allowed: Vec<&str> = vec!["key", "to", "body", "conversation"];
        let fits = only(v, &allowed);
        assert(allowed@.map_values(|s: &str| s@) =~= seq![
            "key"@,
            "to"@,
            "body"@,
            "conversation"@,
        ]);
        let conversation = match v.get("conversation") {
            None => None,
            Some(Json::Null) => None,
            Some(Json::Text(s)) => Some(s.clone()),
            Some(_) => {
                return None;
            },
        };
        return match (get_text(v, "to"), get_text(v, "body")) {
            (Some(to), Some(body)) => if fits {
                Some(Mutation::Send(Send { key, to, body, conversation }))
            } else {
                None
            },
            _ => None,
        };
    }
    if same(method, "inbox.next") {
        let allowed: Vec<&str> = vec!["key"];
        let fits = only(v, &allowed);
        assert(allowed@.map_values(|s: &str| s@) =~= seq!["key"@]);
        return if fits {
            Some(Mutation::Next(Next { key }))
        } else {
            None
        };
    }
    let (message, claim_generation) = match (
        get_text(v, "message"),
        get_number(v, "claim_generation"),
    ) {
        (Some(m), Some(g)) => (m, g),
        _ => {
            return None;
        },
    };
    if same(method, "messages.reply") {
        let allowed: Vec<&str> = vec!["key", "message", "claim_generation", "body"];
        let fits = only(v, &allowed);
        assert(allowed@.map_values(|s: &str| s@) =~= seq![
            "key"@,
            "message"@,
            "claim_generation"@,
            "body"@,
        ]);
        return match get_text(v, "body") {
            Some(body) => if fits {
                Some(Mutation::Reply(Reply { key, message, claim_generation, body }))
            } else {
                None
            },
            None => None,
        };
    }
    if same(method, "inbox.complete") {
        let allowed: Vec<&str> = vec!["key", "message", "claim_generation"];
        let fits = only(v, &allowed);
        assert(allowed@.map_values(|s: &str| s@) =~= seq!["key"@, "message"@, "claim_generation"@]);
        return if fits {
            Some(Mutation::Complete(Claim { key, message, claim_generation }))
        } else {
            None
        };
    }
    if same(method, "inbox.requeue") {
        let allowed: Vec<&str> = vec!["key", "message", "claim_generation", "reason"];
        let fits = only(v, &allowed);
        assert(allowed@.map_values(|s: &str| s@) =~= seq![
            "key"@,
            "message"@,
            "claim_generation"@,
            "reason"@,
        ]);
        return match get_text(v, "reason") {
            Some(reason) => if fits {
                Some(Mutation::Requeue(Requeue { key, message, claim_generation, reason }))
            } else {
                None
            },
            None => None,
        };
    }
    None
}

impl Mutation {
    /// Reads a mutation from a method and its parameters. Where they have not the form of
    /// one, the complaint of what decodes them tells why.
    pub fn parse(method: &str, params: &Json, complaint: &str) -> (r: Result<Self, String>)
        ensures
            match mutation_of(method@, *params) {
                None => r matches Err(e) && e@ == complaint@,
                Some(m) => match m.refusal() {
                    Some(why) => r matches Err(e) && e@ == why,
                    None => r matches Ok(x) && x@ == m,
                },
            },
    {
        match decode(method, params) {
            None => Err(String::from_str(complaint)),
            Some(m) => match m.validate() {
                Ok(()) => Ok(m),
                Err(e) => Err(e),
            },
        }
    }

    pub fn method(&self) -> (r: &'static str)
        ensures
            r@ == self@.method(),
    {
        match self {
            Mutation::Send(_) => "messages.send",
            Mutation::Next(_) => "inbox.next",
            Mutation::Reply(_) => "messages.reply",
            Mutation::Complete(_) => "inbox.complete",
            Mutation::Requeue(_) => "inbox.requeue",
        }
    }

    pub fn key(&self) -> (r: &str)
        ensures
            r@ == self@.key(),
    {
        match self {
            Mutation::Send(p) => p.key.as_str(),
            Mutation::Next(p) => p.key.as_str(),
            Mutation::Reply(p) => p.key.as_str(),
            Mutation::Complete(p) => p.key.as_str(),
            Mutation::Requeue(p) => p.key.as_str(),
        }
    }

    pub fn validate(&self) -> (r: Result<(), String>)
        ensures
            match r {
                Ok(()) => self@.refusal() is None,
                Err(e) => self@.refusal() == Some(e@),
            },
    {
        if !identifier(self.key()) {
            return Err(String::from_str("invalid operation key"));
        }
        match self {
            Mutation::Send(p) => {
                let thread_fits = match &p.conversation {
                    Some(id) => identifier(id.as_str()),
                    None => true,
                };
                if p.to.as_str().is_empty() || byte_len(p.to.as_str()) > 512 || !thread_fits {
                    return Err(String::from_str("invalid recipient or conversation"));
                }
                validate_body(p.body.as_str())
            },
            Mutation::Reply(p) => match validate_claim(p.message.as_str(), p.claim_generation) {
                Ok(()) => validate_body(p.body.as_str()),
                Err(e) => Err(e),
            },
            Mutation::Complete(p) => validate_claim(p.message.as_str(), p.claim_generation),
            Mutation::Requeue(p) => match validate_claim(p.message.as_str(), p.claim_generation) {
                Ok(()) => if p.reason.as_str().is_empty() || byte_len(p.reason.as_str()) > 512 {
                    Err(String::from_str("requeue reason must contain 1..512 UTF-8 bytes"))
                } else {
                    Ok(())
                },
                Err(e) => Err(e),
            },
            Mutation::Next(_) => Ok(()),
        }
    }

    /// Whether two mutations say the same.
    pub fn same(&self, other: &Mutation) -> (r: bool)
        ensures
            r == (self@ == other@),
    {
        match (self, other) {
            (Mutation::Send(a), Mutation::Send(b)) => same(a.key.as_str(), b.key.as_str()) && same(
                a.to.as_str(),
                b.to.as_str(),
            ) && same(a.body.as_str(), b.body.as_str()) && same_option(
                &a.conversation,
                &b.conversation,
            ),
            (Mutation::Next(a), Mutation::Next(b)) => same(a.key.as_str(), b.key.as_str()),
            (Mutation::Reply(a), Mutation::Reply(b)) => same(a.key.as_str(), b.key.as_str())
                && same(a.message.as_str(), b.message.as_str()) && a.claim_generation
                == b.claim_generation && same(a.body.as_str(), b.body.as_str()),
            (Mutation::Complete(a), Mutation::Complete(b)) => same(a.key.as_str(), b.key.as_str())
                && same(a.message.as_str(), b.message.as_str()) && a.claim_generation
                == b.claim_generation,
            (Mutation::Requeue(a), Mutation::Requeue(b)) => same(a.key.as_str(), b.key.as_str())
                && same(a.message.as_str(), b.message.as_str()) && a.claim_generation
                == b.claim_generation && same(a.reason.as_str(), b.reason.as_str()),
            _ => false,
        }
    }
}

fn validate_claim(message: &str, generation: u64) -> (r: Result<(), String>)
    ensures
        match r {
            Ok(()) => claim_refusal(message@, generation) is None,
            Err(e) => claim_refusal(message@, generation) == Some(e@),
        },
{
    if !identifier(message) || generation == 0 {
        return Err(String::from_str("invalid message ID or claim generation"));
    }
    Ok(())
}

pub fn validate_body(body: &str) -> (r: Result<(), String>)
    ensures
        match r {
            Ok(()) => body_refusal(body@) is None,
            Err(e) => body_refusal(body@) == Some(e@),
        },
{
    if byte_len(body) > MAX_BODY {
        Err(String::from_str("message exceeds 8 KiB of UTF-8 text"))
    } else {
        Ok(())
    }
}

/// No parameter of a request names its sender: a request with any field that
/// its method does not have is refused.
pub proof fn requests_cannot_name_their_sender(method: Seq<char>, v: Json, i: int)
    requires
        0 <= i < v.fields().len(),
        v.fields()[i].0@ == "sender"@ || v.fields()[i].0@ == "session"@ || v.fields()[i].0@
            == "file"@,
    ensures
        mutation_of(method, v) is None,
{
    reveal_strlit("sender");
    reveal_strlit("session");
    reveal_strlit("file");
    reveal_strlit("key");
    reveal_strlit("to");
    reveal_strlit("body");
    reveal_strlit("conversation");
    reveal_strlit("message");
    reveal_strlit("claim_generation");
    reveal_strlit("reason");
    let name = v.fields()[i].0@;
    assert("sender"@.len() == 6 && "session"@.len() == 7 && "file"@.len() == 4);
    assert("key"@.len() == 3 && "to"@.len() == 2 && "body"@.len() == 4 && "conversation"@.len()
        == 12 && "message"@.len() == 7 && "claim_generation"@.len() == 16 && "reason"@.len() == 6);
    assert("sender"@[0] == 's' && "session"@[0] == 's' && "file"@[0] == 'f');
    assert("body"@[0] == 'b' && "message"@[0] == 'm' && "reason"@[0] == 'r');
    assert(!seq!["key"@, "to"@, "body"@, "conversation"@].contains(name));
    assert(!seq!["key"@].contains(name));
    assert(!seq!["key"@, "message"@, "claim_generation"@, "body"@].contains(name));
    assert(!seq!["key"@, "message"@, "claim_generation"@].contains(name));
    assert(!seq!["key"@, "message"@, "claim_generation"@, "reason"@].contains(name));
}

/// Why the text of a message could not be read.
pub enum BodyError {
    TooLarge,
    NotText(String),
}

impl BodyError {
    pub fn message(&self) -> (r: String)
        ensures
            r@ == match self {
                BodyError::TooLarge => "message exceeds 8 KiB"@,
                BodyError::NotText(e) => e@,
            },
    {
        match self {
            BodyError::TooLarge => String::from_str("message exceeds 8 KiB"),
            BodyError::NotText(e) => e.clone(),
        }
    }
}

/// The text of a message from the bytes of a file or a pipe, of which a caller
/// need read one more than a message may have.
pub fn read_body(bytes: &[u8]) -> (r: Result<String, BodyError>)
    ensures
        if bytes@.len() > MAX_BODY {
            r matches Err(BodyError::TooLarge)
        } else if !valid_utf8(bytes@) {
            r matches Err(BodyError::NotText(e)) && e@ == utf8_complaint(bytes@)
        } else {
            r matches Ok(s) && s@ == decode_utf8(bytes@)
        },
{
    if bytes.len() > MAX_BODY {
        return Err(BodyError::TooLarge);
    }
    match from_utf8(bytes) {
        Ok(s) => Ok(s),
        Err(e) => Err(BodyError::NotText(e)),
    }
}

/// Where the text of a message comes from.
pub enum BodySource {
    Text(String),
    Stdin,
    File(String),
}

/// Chooses the source of a message's text: exactly one of a text and a file,
/// where `-` is the standard input.
pub fn load_body(message: Option<String>, file: Option<String>) -> (r: Result<BodySource, String>)
    ensures
        match (message, file) {
            (Some(text), None) => match body_refusal(text@) {
                Some(why) => r matches Err(e) && e@ == why,
                None => r == Ok::<BodySource, String>(BodySource::Text(text)),
            },
            (None, Some(path)) => if path@ == "-"@ {
                r == Ok::<BodySource, String>(BodySource::Stdin)
            } else {
                r == Ok::<BodySource, String>(BodySource::File(path))
            },
            _ => r matches Err(e) && e@ == "provide exactly one of --message or --file"@,
        },
{
    match (message, file) {
        (Some(text), None) => match validate_body(text.as_str()) {
            Ok(()) => Ok(BodySource::Text(text)),
            Err(e) => Err(e),
        },
        (None, Some(path)) => if same(path.as_str(), "-") {
            Ok(BodySource::Stdin)
        } else {
            Ok(BodySource::File(path))
        },
        _ => Err(String::from_str("provide exactly one of --message or --file")),
    }
}

pub open spec fn hex_digit(n: int) -> char {
    if n < 10 {
        ('0' as u32 + n) as char
    } else {
        ('a' as u32 + (n - 10)) as char
    }
}

/// Two lower-case hexadecimal digits for each byte.
pub open spec fn hex_of(bytes: Seq<u8>) -> Seq<char> {
    Seq::new(
        2 * bytes.len(),
        |i: int|
            if i % 2 == 0 {
                hex_digit(bytes[i / 2] as int / 16)
            } else {
                hex_digit(bytes[i / 2] as int % 16)
            },
    )
}

fn hex_char(n: u8) -> (c: char)
    requires
        n < 16,
    ensures
        c == hex_digit(n as int),
{
    if n < 10 {
        (48 + n) as char
    } else {
        (87 + n) as char
    }
}

/// Bytes in hexadecimal.
pub fn hex(bytes: &[u8]) -> (r: String)
    ensures
        r@ == hex_of(bytes@),
{
    let mut r: String = String::new();
    let mut i: usize = 0;
    while i < bytes.len()
        invariant
            i <= bytes@.len(),
            r@ == hex_of(bytes@.take(i as int)),
        decreases bytes@.len() - i,
    {
        let b: u8 = bytes[i];
        r.push(hex_char(b / 16));
        r.push(hex_char(b % 16));
        i += 1;
        assert(r@ =~= hex_of(bytes@.take(i as int))) by {
            let before = hex_of(bytes@.take(i - 1));
            let after = hex_of(bytes@.take(i as int));
            assert forall|k: int| 0 <= k < before.len() implies before[k] == #[trigger] after[k] by {
                assert(bytes@.take(i - 1)[k / 2] == bytes@.take(i as int)[k / 2]);
            }
        }
    }
    assert(bytes@.take(i as int) =~= bytes@);
    r
}

/// The key of an operation: the caller's, which must be an identifier, or one
/// made of random bytes.
pub fn operation_key(key: Option<String>, random: &[u8; 16]) -> (r: Result<String, String>)
    ensures
        match key {
            Some(k) => if is_identifier(k@) {
                r == Ok::<String, String>(k)
            } else {
                r matches Err(e) && e@ == "invalid operation key"@
            },
            None => r matches Ok(k) && k@ == hex_of(random@) && is_identifier(k@),
        },
{
    match key {
        Some(key) => if identifier(key.as_str()) {
            Ok(key)
        } else {
            Err(String::from_str("invalid operation key"))
        },
        None => {
            let key = hex(random);
            assert(is_identifier(key@));
            Ok(key)
        },
    }
}

/// What a command prints of an outcome, and where.
pub enum Report {
    /// On the standard output, with exit status 0.
    Done(Json),
    /// On the standard error, with exit status 1: the host refused.
    Refused(Json),
    /// On the standard error, with exit status 2: whether it happened is not known.
    Unknown(String),
}

impl Report {
    pub fn code(&self) -> (r: i32)
        ensures
            r == match self {
                Report::Done(_) => 0i32,
                Report::Refused(_) => 1i32,
                Report::Unknown(_) => 2i32,
            },
    {
        match self {
            Report::Done(_) => 0,
            Report::Refused(_) => 1,
            Report::Unknown(_) => 2,
        }
    }
}

/// Tells a known refusal from an outcome that is not known. A result that is an
/// object is shown with the key of the operation, so that it can be retried.
pub fn print_outcome(result: Result<Result<Json, Json>, String>, key: Option<&str>) -> (r: Report)
    ensures
        match result {
            Ok(Ok(value)) => r matches Report::Done(shown) && match (key, value) {
                (Some(k), Json::Object(f)) => shown matches Json::Object(g) && with(
                    f@,
                    g@,
                    "key"@,
                    k@,
                ),
                _ => shown == value,
            },
            Ok(Err(e)) => r == Report::Refused(e),
            Err(e) => r == Report::Unknown(e),
        },
{
    match result {
        Ok(Ok(value)) => match (key, value) {
            (Some(k), Json::Object(mut fields)) => {
                set_text(&mut fields, "key", k);
                Report::Done(Json::Object(fields))
            },
            (_, value) => Report::Done(value),
        },
        Ok(Err(e)) => Report::Refused(e),
        Err(e) => Report::Unknown(e),
    }
}

/// The state of a message.
#[derive(Clone, Copy, Debug, PartialEq, Eq, Structural)]
pub enum State {
    Queued,
    Claimed,
    Completed,
    Failed,
}

impl State {
    pub open spec fn is_unresolved(self) -> bool {
        self == State::Queued || self == State::Claimed
    }

    pub fn unresolved(self) -> (r: bool)
        ensures
            r == self.is_unresolved(),
    {
        match self {
            State::Queued => true,
            State::Claimed => true,
            _ => false,
        }
    }
}

pub struct Message {
    pub id: String,
    pub conversation: String,
    pub sender: String,
    pub recipient: String,
    pub sender_path: String,
    pub recipient_path: String,
    pub in_reply_to: Option<String>,
    pub body: String,
    pub created_sequence: u64,
    /// Milliseconds since the start of 1970; the order of events is that of their sequence.
    pub created_at: u64,
    pub state: State,
    pub claim_generation: u64,
    pub failure: Option<String>,
}

/// What a message says.
pub struct MessageView {
    pub id: Seq<char>,
    pub conversation: Seq<char>,
    pub sender: Seq<char>,
    pub recipient: Seq<char>,
    pub sender_path: Seq<char>,
    pub recipient_path: Seq<char>,
    pub in_reply_to: Option<Seq<char>>,
    pub body: Seq<char>,
    pub created_sequence: u64,
    pub created_at: u64,
    pub state: State,
    pub claim_generation: u64,
    pub failure: Option<Seq<char>>,
}

impl View for Message {
    type V = MessageView;

    open spec fn view(&self) -> MessageView {
        MessageView {
            id: self.id@,
            conversation: self.conversation@,
            sender: self.sender@,
            recipient: self.recipient@,
            sender_path: self.sender_path@,
            recipient_path: self.recipient_path@,
            in_reply_to: maybe(self.in_reply_to),
            body: self.body@,
            created_sequence: self.created_sequence,
            created_at: self.created_at,
            state: self.state,
            claim_generation: self.claim_generation,
            failure: maybe(self.failure),
        }
    }
}

impl Message {
    pub fn copy(&self) -> (r: Message)
        ensures
            r == *self,
    {
        Message {
            id: self.id.clone(),
            conversation: self.conversation.clone(),
            sender: self.sender.clone(),
            recipient: self.recipient.clone(),
            sender_path: self.sender_path.clone(),
            recipient_path: self.recipient_path.clone(),
            in_reply_to: copy_option(&self.in_reply_to),
            body: self.body.clone(),
            created_sequence: self.created_sequence,
            created_at: self.created_at,
            state: self.state,
            claim_generation: self.claim_generation,
            failure: copy_option(&self.failure),
        }
    }
}

/// A message is sent as its request says: to whom, with which text and in which conversation.
pub proof fn a_send_is_read(v: Json, key: Seq<char>, to: Seq<char>, body: Seq<char>)
    requires
        v is Object,
        forall|i: int|
            0 <= i < v.fields().len() ==> {
                let name = (#[trigger] v.fields()[i]).0@;
                name == "key"@ || name == "to"@ || name == "body"@ || name == "conversation"@
            },
        text_at(v, "key"@) == Some(key),
        text_at(v, "to"@) == Some(to),
        text_at(v, "body"@) == Some(body),
        lookup(v.fields(), "conversation"@) matches Some(c) ==> c is Null || c is Text,
    ensures
        mutation_of("messages.send"@, v) == Some(
            MutationView::Send { key, to, body, conversation: text_at(v, "conversation"@) },
        ),
{
    let names = seq!["key"@, "to"@, "body"@, "conversation"@];
    assert(names[0] == "key"@ && names[1] == "to"@ && names[2] == "body"@ && names[3]
        == "conversation"@);
    assert(only_names(v, names));
}

/// A message is fetched under the key of the request.
pub proof fn a_fetch_is_read(v: Json, key: Seq<char>)
    requires
        v is Object,
        forall|i: int| 0 <= i < v.fields().len() ==> (#[trigger] v.fields()[i]).0@ == "key"@,
        text_at(v, "key"@) == Some(key),
    ensures
        mutation_of("inbox.next"@, v) == Some(MutationView::Next { key }),
{
    reveal_strlit("inbox.next");
    reveal_strlit("messages.send");
    assert("inbox.next"@.len() != "messages.send"@.len());
    let names = seq!["key"@];
    assert(names[0] == "key"@);
    assert(only_names(v, names));
}

/// A message that is in hand is answered, completed or put back as the request says, under the
/// claim that the request names.
pub proof fn an_answer_is_read(
    v: Json,
    key: Seq<char>,
    message: Seq<char>,
    generation: u64,
    more: Seq<char>,
)
    requires
        v is Object,
        text_at(v, "key"@) == Some(key),
        text_at(v, "message"@) == Some(message),
        number_at(v, "claim_generation"@) == Some(generation),
    ensures
        only_names(v, seq!["key"@, "message"@, "claim_generation"@, "body"@]) && text_at(
            v,
            "body"@,
        ) == Some(more) ==> mutation_of("messages.reply"@, v) == Some(
            MutationView::Reply { key, message, generation, body: more },
        ),
        only_names(v, seq!["key"@, "message"@, "claim_generation"@]) ==> mutation_of(
            "inbox.complete"@,
            v,
        ) == Some(MutationView::Complete { key, message, generation }),
        only_names(v, seq!["key"@, "message"@, "claim_generation"@, "reason"@]) && text_at(
            v,
            "reason"@,
        ) == Some(more) ==> mutation_of("inbox.requeue"@, v) == Some(
            MutationView::Requeue { key, message, generation, reason: more },
        ),
{
    reveal_strlit("inbox.next");
    reveal_strlit("messages.send");
    reveal_strlit("messages.reply");
    reveal_strlit("inbox.complete");
    reveal_strlit("inbox.requeue");
    assert("inbox.next"@.len() == 10);
    assert("messages.send"@.len() == 13);
    assert("messages.reply"@.len() == 14);
    assert("inbox.complete"@.len() == 14);
    assert("inbox.requeue"@.len() == 13);
    assert("inbox.complete"@[0] != "messages.reply"@[0]);
    assert("inbox.requeue"@[0] != "messages.send"@[0]);
}

/// What a request lacks is not made up.
pub proof fn an_incomplete_request_is_refused(method: Seq<char>, v: Json)
    requires
        v is Object,
    ensures
        text_at(v, "key"@) is None ==> mutation_of(method, v) is None,
        text_at(v, "to"@) is None || text_at(v, "body"@) is None ==> mutation_of(
            "messages.send"@,
            v,
        ) is None,
        mutation_of(method, v) matches Some(m) ==> m.method() == method && m.key() == text_at(
            v,
            "key"@,
        )->0,
{
}

/// A message is accepted exactly where its key, its recipient and its conversation can be named
/// and its text is no longer than 8 KiB.
pub proof fn a_proper_message_is_accepted(
    key: Seq<char>,
    to: Seq<char>,
    body: Seq<char>,
    conversation: Option<Seq<char>>,
)
    ensures
        (MutationView::Send { key, to, body, conversation }).refusal() is None <==> {
            &&& is_identifier(key)
            &&& 0 < to.len() && size(to) <= 512
            &&& conversation is Some ==> is_identifier(conversation->0)
            &&& size(body) <= 8192
        },
{
}

/// A claim is accepted exactly where it names a message and a claim that can have been made.
pub proof fn a_proper_claim_is_accepted(
    key: Seq<char>,
    message: Seq<char>,
    generation: u64,
    more: Seq<char>,
)
    ensures
        (MutationView::Complete { key, message, generation }).refusal() is None <==> is_identifier(
            key,
        ) && is_identifier(message) && generation > 0,
        (MutationView::Reply { key, message, generation, body: more }).refusal() is None
            <==> is_identifier(key) && is_identifier(message) && generation > 0 && size(more)
            <= 8192,
        (MutationView::Requeue { key, message, generation, reason: more }).refusal() is None
            <==> is_identifier(key) && is_identifier(message) && generation > 0 && 0 < more.len()
            && size(more) <= 512,
        (MutationView::Next { key }).refusal() is None <==> is_identifier(key),
{
}

/// What a hexadecimal digit stands for.
pub open spec fn digit_value(c: char) -> int {
    if c <= '9' {
        c as u32 - '0' as u32
    } else {
        c as u32 - 'a' as u32 + 10
    }
}

/// Bytes are given back by their digits, two for each.
pub proof fn digits_give_back_their_bytes(bytes: Seq<u8>, i: int)
    requires
        0 <= i < bytes.len(),
    ensures
        hex_of(bytes).len() == 2 * bytes.len(),
        bytes[i] == 16 * digit_value(hex_of(bytes)[2 * i]) + digit_value(hex_of(bytes)[2 * i + 1]),
{
    let h = bytes[i] as int / 16;
    let l = bytes[i] as int % 16;
    assert((2 * i) % 2 == 0 && (2 * i) / 2 == i);
    assert((2 * i + 1) % 2 == 1 && (2 * i + 1) / 2 == i);
    a_digit_gives_back_its_number(h);
    a_digit_gives_back_its_number(l);
}

/// A digit stands for the number that it was made of.
pub proof fn a_digit_gives_back_its_number(n: int)
    requires
        0 <= n < 16,
    ensures
        digit_value(hex_digit(n)) == n,
{
    let c = hex_digit(n);
    if n < 10 {
        assert(c as u32 == '0' as u32 + n);
    } else {
        assert(c as u32 == 'a' as u32 + (n - 10));
    }
}

} // verus!
