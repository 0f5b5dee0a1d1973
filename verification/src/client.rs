//! The command line of a sandbox: what can be asked for from inside. Whether it is done
//! is decided outside.
use vstd::prelude::*;

use crate::cli::{shell, shell_named, target, Shell};
use crate::config::{member, text_at, text_member};
use crate::json::Json;
use crate::lines::{
    behind_name, line_of, option_of, read, rejoin, rejoined, words_of, Line, LineView,
};
use crate::messages::{feature, hex_of, mutation_of, operation_key, Mutation};
use crate::numbers::{number_in, parse_up_to};
use crate::params::{asking, asks, optional, Params, Request, Value};
use crate::protocol::{identifier, is_identifier};
use crate::rpc::PermissionResult;
use crate::text::{
    alnum, chars, digit, is_alnum, is_digit, maybe, same, starts_with, texts,
};

verus! {

/// Where a message comes from: a text, or a file.
pub struct MessageSource {
    pub message: Option<String>,
    pub file: Option<String>,
}

/// What is done with an inbox.
pub enum InboxCommand {
    Status,
    Next { key: Option<String> },
    Complete { message: String, claim_generation: u64, key: Option<String> },
    Requeue { message: String, claim_generation: u64, reason: String, key: Option<String> },
}

/// What an agent's integration says.
pub enum IntegrationCommand {
    Register { driver: String },
    Watch { epoch: u64, delivery: String },
    Hook { event: String, active: bool },
    Status,
}

/// What a command line of a sandbox says to do.
#[allow(inconsistent_fields)]
pub enum Command {
    Integration { command: IntegrationCommand },
    Send { recipient: String, source: MessageSource, key: Option<String> },
    Reply {
        message_id: String,
        claim_generation: u64,
        source: MessageSource,
        key: Option<String>,
    },
    Inbox { command: InboxCommand },
    RequestPackage { package: String, reason: Option<String> },
    EnableDocker { reason: Option<String>, scope: Option<String>, anonymous: bool },
    Run { config: String, name: Option<String>, parent: Option<String>, detatched: bool },
    Attach { session: String },
    Status,
    List,
    Kill { session: String, kill_children: bool },
    Stop { session: String, kill_children: bool },
    Detach,
    Completions { shell: Shell },
    Complete { words: Vec<String> },
}

/// What the host and a sandbox can both say.
#[allow(inconsistent_fields)]
pub ghost enum MailView {
    Send { recipient: Seq<char>, message: Option<Seq<char>>, file: Option<Seq<char>>, key: Option<Seq<char>> },
    Reply {
        message_id: Seq<char>,
        claim_generation: nat,
        message: Option<Seq<char>>,
        file: Option<Seq<char>>,
        key: Option<Seq<char>>,
    },
    InboxStatus,
    InboxNext { key: Option<Seq<char>> },
    InboxComplete { message: Seq<char>, claim_generation: nat, key: Option<Seq<char>> },
    InboxRequeue {
        message: Seq<char>,
        claim_generation: nat,
        reason: Seq<char>,
        key: Option<Seq<char>>,
    },
}

pub ghost enum CommandView {
    Register { driver: Seq<char> },
    Watch { epoch: nat, delivery: Seq<char> },
    Hook { event: Seq<char>, active: bool },
    IntegrationStatus,
    Mail(MailView),
    RequestPackage { package: Seq<char>, reason: Option<Seq<char>> },
    EnableDocker { reason: Option<Seq<char>>, scope: Option<Seq<char>>, anonymous: bool },
    Run {
        config: Seq<char>,
        name: Option<Seq<char>>,
        parent: Option<Seq<char>>,
        detatched: bool,
    },
    Attach { session: Seq<char> },
    Status,
    List,
    Kill { session: Seq<char>, kill_children: bool },
    Stop { session: Seq<char>, kill_children: bool },
    Detach,
    Completions { shell: Shell },
    Complete { words: Seq<Seq<char>> },
}

/// A command of an inbox.
pub open spec fn inbox_view(c: InboxCommand) -> MailView {
    match c {
        InboxCommand::Status => MailView::InboxStatus,
        InboxCommand::Next { key } => MailView::InboxNext { key: maybe(key) },
        InboxCommand::Complete { message, claim_generation, key } => MailView::InboxComplete {
            message: message@,
            claim_generation: claim_generation as nat,
            key: maybe(key),
        },
        InboxCommand::Requeue { message, claim_generation, reason, key } => MailView::InboxRequeue {
            message: message@,
            claim_generation: claim_generation as nat,
            reason: reason@,
            key: maybe(key),
        },
    }
}

impl Command {
    pub open spec fn view(&self) -> CommandView {
        match *self {
            Command::Integration { command } => match command {
                IntegrationCommand::Register { driver } => CommandView::Register { driver: driver@ },
                IntegrationCommand::Watch { epoch, delivery } => CommandView::Watch {
                    epoch: epoch as nat,
                    delivery: delivery@,
                },
                IntegrationCommand::Hook { event, active } => CommandView::Hook {
                    event: event@,
                    active,
                },
                IntegrationCommand::Status => CommandView::IntegrationStatus,
            },
            Command::Send { recipient, source, key } => CommandView::Mail(
                MailView::Send {
                    recipient: recipient@,
                    message: maybe(source.message),
                    file: maybe(source.file),
                    key: maybe(key),
                },
            ),
            Command::Reply { message_id, claim_generation, source, key } => CommandView::Mail(
                MailView::Reply {
                    message_id: message_id@,
                    claim_generation: claim_generation as nat,
                    message: maybe(source.message),
                    file: maybe(source.file),
                    key: maybe(key),
                },
            ),
            Command::Inbox { command } => CommandView::Mail(inbox_view(command)),
            Command::RequestPackage { package, reason } => CommandView::RequestPackage {
                package: package@,
                reason: maybe(reason),
            },
            Command::EnableDocker { reason, scope, anonymous } => CommandView::EnableDocker {
                reason: maybe(reason),
                scope: maybe(scope),
                anonymous,
            },
            Command::Run { config, name, parent, detatched } => CommandView::Run {
                config: config@,
                name: maybe(name),
                parent: maybe(parent),
                detatched,
            },
            Command::Attach { session } => CommandView::Attach { session: session@ },
            Command::Status => CommandView::Status,
            Command::List => CommandView::List,
            Command::Kill { session, kill_children } => CommandView::Kill {
                session: session@,
                kill_children,
            },
            Command::Stop { session, kill_children } => CommandView::Stop {
                session: session@,
                kill_children,
            },
            Command::Detach => CommandView::Detach,
            Command::Completions { shell } => CommandView::Completions { shell },
            Command::Complete { words } => CommandView::Complete { words: texts(words@) },
        }
    }
}

/// A number that an option must give.
pub open spec fn number_of(l: LineView, name: Seq<char>) -> Option<nat> {
    match option_of(l, name) {
        None => None,
        Some(t) => match number_in(t, u64::MAX as nat) {
            Ok(n) => Some(n),
            Err(_) => None,
        },
    }
}

/// A message comes from a text or from a file, and not from both. A file has a name.
pub open spec fn has_source(l: LineView) -> bool {
    let message = option_of(l, "--message"@);
    let file = option_of(l, "--file"@);
    (message is Some) != (file is Some) && (file matches Some(f) ==> f.len() > 0)
}

/// What a line says of messages.
pub open spec fn mail_of(l: LineView) -> Option<MailView> {
    let w = words_of(l.taken);
    let key = option_of(l, "--key"@);
    let generation = number_of(l, "--claim-generation"@);
    if l.command == "send"@ {
        if w.len() == 1 && has_source(l) {
            Some(
                MailView::Send {
                    recipient: w[0],
                    message: option_of(l, "--message"@),
                    file: option_of(l, "--file"@),
                    key,
                },
            )
        } else {
            None
        }
    } else if l.command == "reply"@ {
        if w.len() == 1 && has_source(l) && generation is Some {
            Some(
                MailView::Reply {
                    message_id: w[0],
                    claim_generation: generation->0,
                    message: option_of(l, "--message"@),
                    file: option_of(l, "--file"@),
                    key,
                },
            )
        } else {
            None
        }
    } else if l.command == "inbox status"@ {
        if w.len() == 0 {
            Some(MailView::InboxStatus)
        } else {
            None
        }
    } else if l.command == "inbox next"@ {
        if w.len() == 0 {
            Some(MailView::InboxNext { key })
        } else {
            None
        }
    } else if l.command == "inbox complete"@ {
        if w.len() == 1 && generation is Some {
            Some(
                MailView::InboxComplete { message: w[0], claim_generation: generation->0, key },
            )
        } else {
            None
        }
    } else if l.command == "inbox requeue"@ {
        if w.len() == 1 && generation is Some && option_of(l, "--reason"@) is Some {
            Some(
                MailView::InboxRequeue {
                    message: w[0],
                    claim_generation: generation->0,
                    reason: option_of(l, "--reason"@)->0,
                    key,
                },
            )
        } else {
            None
        }
    } else {
        None
    }
}

/// What a line says of an integration.
pub open spec fn integration_of(l: LineView) -> Option<CommandView> {
    if words_of(l.taken).len() != 0 {
        None
    } else if l.command == "integration register"@ {
        match option_of(l, "--driver"@) {
            Some(driver) => Some(CommandView::Register { driver }),
            None => None,
        }
    } else if l.command == "integration watch"@ {
        let delivery = match option_of(l, "--delivery"@) {
            Some(d) => d,
            None => "terminal"@,
        };
        match number_of(l, "--epoch"@) {
            Some(epoch) => if delivery == "terminal"@ || delivery == "notification"@ {
                Some(CommandView::Watch { epoch, delivery })
            } else {
                None
            },
            None => None,
        }
    } else if l.command == "integration hook"@ {
        match option_of(l, "--event"@) {
            Some(event) => Some(
                CommandView::Hook { event, active: l.taken.flags.contains("--active"@) },
            ),
            None => None,
        }
    } else if l.command == "integration status"@ {
        Some(CommandView::IntegrationStatus)
    } else {
        None
    }
}

/// What a line of a sandbox says to do.
pub open spec fn command_of(l: LineView) -> Option<CommandView> {
    let w = words_of(l.taken);
    let detatched = l.taken.flags.contains("--detatched"@);
    let detached = l.taken.flags.contains("--detached"@);
    let kill_children = l.taken.flags.contains("--kill-children"@);
    if mail_of(l) is Some {
        Some(CommandView::Mail(mail_of(l)->0))
    } else if integration_of(l) is Some {
        integration_of(l)
    } else if l.command == "__complete-names"@ {
        if l.taken.words.len() == 0 {
            Some(CommandView::Complete { words: l.taken.rest })
        } else {
            None
        }
    } else if l.command == "enable-docker"@ {
        if w.len() == 0 {
            Some(
                CommandView::EnableDocker {
                    reason: option_of(l, "--reason"@),
                    scope: option_of(l, "--scope"@),
                    anonymous: l.taken.flags.contains("--anonymous"@),
                },
            )
        } else {
            None
        }
    } else if l.command == "status"@ || l.command == "list"@ || l.command == "detach"@ {
        if w.len() != 0 {
            None
        } else if l.command == "status"@ {
            Some(CommandView::Status)
        } else if l.command == "list"@ {
            Some(CommandView::List)
        } else {
            Some(CommandView::Detach)
        }
    } else if w.len() != 1 {
        None
    } else if l.command == "request-package"@ {
        Some(CommandView::RequestPackage { package: w[0], reason: option_of(l, "--reason"@) })
    } else if l.command == "run"@ {
        if detatched && detached {
            None
        } else {
            Some(
                CommandView::Run {
                    config: w[0],
                    name: option_of(l, "--name"@),
                    parent: option_of(l, "--parent"@),
                    detatched: detatched || detached,
                },
            )
        }
    } else if l.command == "attach"@ {
        Some(CommandView::Attach { session: w[0] })
    } else if l.command == "kill"@ {
        Some(CommandView::Kill { session: w[0], kill_children })
    } else if l.command == "stop"@ {
        Some(CommandView::Stop { session: w[0], kill_children })
    } else if l.command == "completions"@ {
        match shell_named(w[0]) {
            Some(shell) => Some(CommandView::Completions { shell }),
            None => None,
        }
    } else {
        None
    }
}

/// A number that an option must give.
fn number_option(l: &Line, name: &str) -> (r: Option<u64>)
    ensures
        match number_of(l@, name@) {
            Some(n) => r matches Some(m) && m == n,
            None => r is None,
        },
{
    match l.option(name) {
        None => None,
        Some(t) => match parse_up_to(&t, 0xFFFF_FFFF_FFFF_FFFF) {
            Ok(n) => Some(n),
            Err(_) => None,
        },
    }
}

fn source(l: &Line) -> (r: Option<MessageSource>)
    ensures
        r is Some <==> has_source(l@),
        r matches Some(s) ==> maybe(s.message) == option_of(l@, "--message"@) && maybe(s.file)
            == option_of(l@, "--file"@),
{
    let message = l.option("--message");
    let file = l.option("--file");
    let unnamed = match &file {
        Some(f) => chars(f).len() == 0,
        None => false,
    };
    if message.is_some() == file.is_some() || unnamed {
        return None;
    }
    Some(MessageSource { message, file })
}

/// What the host and a sandbox can both say of messages.
pub enum Mail {
    Send { recipient: String, source: MessageSource, key: Option<String> },
    Reply {
        message_id: String,
        claim_generation: u64,
        source: MessageSource,
        key: Option<String>,
    },
    Inbox { command: InboxCommand },
}

impl Mail {
    pub open spec fn view(&self) -> MailView {
        match *self {
            Mail::Send { recipient, source, key } => MailView::Send {
                recipient: recipient@,
                message: maybe(source.message),
                file: maybe(source.file),
                key: maybe(key),
            },
            Mail::Reply { message_id, claim_generation, source, key } => MailView::Reply {
                message_id: message_id@,
                claim_generation: claim_generation as nat,
                message: maybe(source.message),
                file: maybe(source.file),
                key: maybe(key),
            },
            Mail::Inbox { command } => inbox_view(command),
        }
    }
}

/// What a line says of messages.
pub fn read_mail(l: &Line) -> (r: Option<Mail>)
    ensures
        match mail_of(l@) {
            Some(m) => r matches Some(n) && n@ == m,
            None => r is None,
        },
{
    let key = l.option("--key");
    if same(&l.command, "send") {
        let recipient = l.one_word()?;
        let source = source(l)?;
        Some(Mail::Send { recipient, source, key })
    } else if same(&l.command, "reply") {
        let message_id = l.one_word()?;
        let source = source(l)?;
        let claim_generation = number_option(l, "--claim-generation")?;
        Some(Mail::Reply { message_id, claim_generation, source, key })
    } else if same(&l.command, "inbox status") {
        if l.no_words() {
            Some(Mail::Inbox { command: InboxCommand::Status })
        } else {
            None
        }
    } else if same(&l.command, "inbox next") {
        if l.no_words() {
            Some(Mail::Inbox { command: InboxCommand::Next { key } })
        } else {
            None
        }
    } else if same(&l.command, "inbox complete") {
        let message = l.one_word()?;
        let claim_generation = number_option(l, "--claim-generation")?;
        Some(Mail::Inbox { command: InboxCommand::Complete { message, claim_generation, key } })
    } else if same(&l.command, "inbox requeue") {
        let message = l.one_word()?;
        let claim_generation = number_option(l, "--claim-generation")?;
        let reason = l.option("--reason")?;
        Some(
            Mail::Inbox {
                command: InboxCommand::Requeue { message, claim_generation, reason, key },
            },
        )
    } else {
        None
    }
}

fn read_integration(l: &Line) -> (r: Option<IntegrationCommand>)
    ensures
        match integration_of(l@) {
            Some(v) => r matches Some(command) && (Command::Integration { command })@ == v,
            None => r is None,
        },
{
    if !l.no_words() {
        return None;
    }
    if same(&l.command, "integration register") {
        let driver = l.option("--driver")?;
        Some(IntegrationCommand::Register { driver })
    } else if same(&l.command, "integration watch") {
        let delivery = match l.option("--delivery") {
            Some(d) => d,
            None => String::from_str("terminal"),
        };
        let epoch = number_option(l, "--epoch")?;
        if !same(&delivery, "terminal") && !same(&delivery, "notification") {
            return None;
        }
        Some(IntegrationCommand::Watch { epoch, delivery })
    } else if same(&l.command, "integration hook") {
        let event = l.option("--event")?;
        Some(IntegrationCommand::Hook { event, active: l.taken.flag("--active") })
    } else if same(&l.command, "integration status") {
        Some(IntegrationCommand::Status)
    } else {
        None
    }
}

fn read_command(l: &Line) -> (r: Option<Command>)
    ensures
        match command_of(l@) {
            Some(c) => r matches Some(d) && d@ == c,
            None => r is None,
        },
{
    match read_mail(l) {
        Some(Mail::Send { recipient, source, key }) => {
            return Some(Command::Send { recipient, source, key });
        },
        Some(Mail::Reply { message_id, claim_generation, source, key }) => {
            return Some(Command::Reply { message_id, claim_generation, source, key });
        },
        Some(Mail::Inbox { command }) => {
            return Some(Command::Inbox { command });
        },
        None => {},
    }
    match read_integration(l) {
        Some(command) => {
            return Some(Command::Integration { command });
        },
        None => {},
    }
    if same(&l.command, "__complete-names") {
        assert(l@.taken.words.len() == l.taken.words@.len());
        if l.taken.words.len() == 0 {
            let mut words: Vec<String> = Vec::new();
            crate::arguments::put_all(&mut words, &l.taken.rest);
            assert(texts(words@) =~= l@.taken.rest);
            return Some(Command::Complete { words });
        }
        return None;
    }
    if same(&l.command, "enable-docker") {
        if !l.no_words() {
            return None;
        }
        return Some(
            Command::EnableDocker {
                reason: l.option("--reason"),
                scope: l.option("--scope"),
                anonymous: l.taken.flag("--anonymous"),
            },
        );
    }
    let status = same(&l.command, "status");
    let list = same(&l.command, "list");
    if status || list || same(&l.command, "detach") {
        if !l.no_words() {
            return None;
        }
        return if status {
            Some(Command::Status)
        } else if list {
            Some(Command::List)
        } else {
            Some(Command::Detach)
        };
    }
    read_one(l)
}

fn read_one(l: &Line) -> (r: Option<Command>)
    requires
        mail_of(l@) is None,
        integration_of(l@) is None,
        l@.command != "__complete-names"@,
        l@.command != "enable-docker"@,
        l@.command != "status"@,
        l@.command != "list"@,
        l@.command != "detach"@,
    ensures
        match command_of(l@) {
            Some(c) => r matches Some(d) && d@ == c,
            None => r is None,
        },
{
    let word = l.one_word()?;
    let kill_children = l.taken.flag("--kill-children");
    if same(&l.command, "request-package") {
        Some(Command::RequestPackage { package: word, reason: l.option("--reason") })
    } else if same(&l.command, "run") {
        let detatched = l.taken.flag("--detatched");
        let detached = l.taken.flag("--detached");
        if detatched && detached {
            return None;
        }
        Some(
            Command::Run {
                config: word,
                name: l.option("--name"),
                parent: l.option("--parent"),
                detatched: detatched || detached,
            },
        )
    } else if same(&l.command, "attach") {
        Some(Command::Attach { session: word })
    } else if same(&l.command, "kill") {
        Some(Command::Kill { session: word, kill_children })
    } else if same(&l.command, "stop") {
        Some(Command::Stop { session: word, kill_children })
    } else if same(&l.command, "completions") {
        match shell(&word) {
            Some(shell) => Some(Command::Completions { shell }),
            None => None,
        }
    } else {
        None
    }
}

/// What a command line of a sandbox says to do, behind the name of the program.
pub open spec fn said(args: Seq<Seq<char>>) -> Option<CommandView> {
    match line_of(args, false) {
        None => None,
        Some(l) => command_of(l),
    }
}

/// What a command line of a sandbox says to do, behind the name of the program.
pub fn parse(args: &Vec<String>) -> (r: Option<Command>)
    ensures
        match said(behind_name(args@)) {
            Some(c) => r matches Some(d) && d@ == c,
            None => r is None,
        },
{
    let line = read(args, false)?;
    read_command(&line)
}

/// The words with one for what is completed: behind a `=` where the last one waits for its
/// value.
pub open spec fn with_target(words: Seq<Seq<char>>) -> Seq<Seq<char>> {
    if words.len() > 0 && "--"@.is_prefix_of(words.last()) && words.last().last() == '=' {
        words.drop_last().push(words.last() + target())
    } else {
        words.push(target())
    }
}

/// What is completed: the name of a configuration (`false`), or of a session (`true`).
pub open spec fn slot_of(words: Seq<Seq<char>>) -> Option<bool> {
    match rejoined(Seq::empty(), with_target(words)) {
        None => None,
        Some(args) => match said(
            if args.len() == 0 {
                Seq::empty()
            } else {
                args.skip(1)
            },
        ) {
            Some(CommandView::Run { config, parent, .. }) => if config == target() {
                Some(false)
            } else if parent == Some(target()) {
                Some(true)
            } else {
                None
            },
            Some(CommandView::Kill { session, .. }) => if session == target() {
                Some(true)
            } else {
                None
            },
            Some(CommandView::Stop { session, .. }) => if session == target() {
                Some(true)
            } else {
                None
            },
            Some(CommandView::Attach { session }) => if session == target() {
                Some(true)
            } else {
                None
            },
            _ => None,
        },
    }
}

fn add_target(words: &Vec<String>) -> (r: Vec<String>)
    ensures
        texts(r@) == with_target(texts(words@)),
{
    let mut r: Vec<String> = Vec::new();
    crate::arguments::put_all(&mut r, words);
    assert(texts(r@) =~= texts(words@));
    let n = r.len();
    let mut waits: bool = false;
    proof {
        reveal_strlit("--");
        assert("--"@.len() == 2);
    }
    if n > 0 {
        assert(texts(r@).last() == r@[n - 1]@);
        let c = chars(&r[n - 1]);
        waits = starts_with(&r[n - 1], "--") && c[c.len() - 1] == '=';
    }
    if waits {
        let mut last = r[n - 1].clone();
        last.push_str("__goblins_completion_target__");
        r.set(n - 1, last);
        assert(texts(r@) =~= with_target(texts(words@)));
    } else {
        crate::arguments::put(&mut r, "__goblins_completion_target__");
    }
    r
}

/// What is completed in some words.
pub fn slot(words: &Vec<String>) -> (r: Option<bool>)
    ensures
        r == slot_of(texts(words@)),
{
    let args = rejoin(&add_target(words))?;
    assert(texts(args@).len() == args@.len());
    let t = "__goblins_completion_target__";
    match parse(&args) {
        Some(Command::Run { config, parent, .. }) => {
            if same(&config, t) {
                return Some(false);
            }
            match parent {
                Some(p) => if same(&p, t) {
                    Some(true)
                } else {
                    None
                },
                None => None,
            }
        },
        Some(Command::Kill { session, .. }) => if same(&session, t) {
            Some(true)
        } else {
            None
        },
        Some(Command::Stop { session, .. }) => if same(&session, t) {
            Some(true)
        } else {
            None
        },
        Some(Command::Attach { session }) => if same(&session, t) {
            Some(true)
        } else {
            None
        },
        _ => None,
    }
}

pub open spec fn is_parent_option(word: Seq<char>) -> bool {
    word == "--parent"@ || word == "--parent="@
}

/// Whether one of the last two words asks for a parent.
pub fn asks_parent(words: &Vec<String>) -> (r: bool)
    ensures
        r == {
            let w = texts(words@);
            (w.len() > 0 && is_parent_option(w.last())) || (w.len() > 1 && is_parent_option(
                w[w.len() - 2],
            ))
        },
{
    let n = words.len();
    let ghost w = texts(words@);
    if n > 0 {
        assert(w.last() == words@[n - 1]@);
        if same(&words[n - 1], "--parent") || same(&words[n - 1], "--parent=") {
            return true;
        }
    }
    if n > 1 {
        assert(w[n - 2] == words@[n - 2]@);
        if same(&words[n - 2], "--parent") || same(&words[n - 2], "--parent=") {
            return true;
        }
    }
    false
}

/// A name that can be shown to a shell: letters, digits, underscores and hyphens.
pub open spec fn is_simple(s: Seq<char>) -> bool {
    forall|i: int| 0 <= i < s.len() ==> simple_char(#[trigger] s[i])
}

pub open spec fn simple_char(c: char) -> bool {
    is_alnum(c) || c == '_' || c == '-'
}

/// Whether a name can be shown to a shell.
pub fn simple(s: &str) -> (r: bool)
    ensures
        r == is_simple(s@),
{
    let v = chars(s);
    let mut k: usize = 0;
    while k < v.len()
        invariant
            v@ == s@,
            k <= v@.len(),
            forall|i: int| 0 <= i < k ==> simple_char(#[trigger] v@[i]),
        decreases v@.len() - k,
    {
        if !alnum(v[k]) && v[k] != '_' && v[k] != '-' {
            assert(!simple_char(s@[k as int]));
            return false;
        }
        k += 1;
    }
    true
}

/// A path of agents' names that can be shown to a shell.
pub open spec fn is_agent_path(s: Seq<char>) -> bool {
    s.len() > 0 && forall|i: int| 0 <= i < s.len() ==> agent_path_char(#[trigger] s[i])
}

pub open spec fn agent_path_char(c: char) -> bool {
    ('a' <= c <= 'z') || is_digit(c) || c == '-' || c == '/'
}

fn agent_path(s: &str) -> (r: bool)
    ensures
        r == is_agent_path(s@),
{
    let v = chars(s);
    let mut k: usize = 0;
    while k < v.len()
        invariant
            v@ == s@,
            k <= v@.len(),
            forall|i: int| 0 <= i < k ==> agent_path_char(#[trigger] v@[i]),
        decreases v@.len() - k,
    {
        let c = v[k];
        if !('a' <= c && c <= 'z') && !digit(c) && c != '-' && c != '/' {
            assert(!agent_path_char(s@[k as int]));
            return false;
        }
        k += 1;
    }
    v.len() > 0
}

/// The configuration that is offered, where it can be shown.
pub fn offered_configuration(init: &Json) -> (r: Option<String>)
    ensures
        maybe(r) == match text_at(*init, "configuration"@) {
            Some(name) => if is_simple(name) {
                Some(name)
            } else {
                None
            },
            None => None,
        },
{
    match text_member(init, "configuration") {
        Some(name) => if simple(name) {
            Some(String::from_str(name))
        } else {
            None
        },
        None => None,
    }
}

/// The session of a record, where it is offered: it is live, or for a parent it runs.
pub open spec fn offered_of(record: Json, parent: bool) -> Option<Seq<char>> {
    let state = text_at(record, "state"@);
    let live = state == Some("running"@) || (!parent && (state == Some("starting"@) || state
        == Some("stopping"@)));
    match text_at(record, "path"@) {
        Some(path) => if live && is_agent_path(path) {
            Some(path)
        } else {
            None
        },
        None => None,
    }
}

pub open spec fn all_offered(records: Seq<Json>, parent: bool) -> Seq<Seq<char>>
    decreases records.len(),
{
    if records.len() == 0 {
        Seq::empty()
    } else {
        let most = all_offered(records.drop_last(), parent);
        match offered_of(records.last(), parent) {
            Some(p) => most.push(p),
            None => most,
        }
    }
}

fn offer(record: &Json, parent: bool) -> (r: Option<String>)
    ensures
        maybe(r) == offered_of(*record, parent),
{
    let live = match text_member(record, "state") {
        Some(s) => same(s, "running") || (!parent && (same(s, "starting") || same(s, "stopping"))),
        None => false,
    };
    match text_member(record, "path") {
        Some(path) => if live && agent_path(path) {
            Some(String::from_str(path))
        } else {
            None
        },
        None => None,
    }
}

/// The sessions that are offered: below a parent that is asked for, this one too.
pub fn offered_sessions(records: &Json, parent: bool) -> (r: Vec<String>)
    ensures
        texts(r@) == (if parent {
            seq!["."@]
        } else {
            Seq::empty()
        }) + (match *records {
            Json::Array(items) => all_offered(items@, parent),
            _ => Seq::empty(),
        }),
{
    let mut r: Vec<String> = Vec::new();
    if parent {
        crate::arguments::put(&mut r, ".");
    }
    let ghost start = texts(r@);
    assert(start =~= if parent {
        seq!["."@]
    } else {
        Seq::empty()
    });
    match records {
        Json::Array(items) => {
            let mut k: usize = 0;
            assert(items@.take(0) =~= Seq::empty());
            assert(start =~= start + all_offered(items@.take(0), parent));
            while k < items.len()
                invariant
                    k <= items@.len(),
                    *records == Json::Array(*items),
                    texts(r@) == start + all_offered(items@.take(k as int), parent),
                decreases items@.len() - k,
            {
                assert(items@.take(k + 1).drop_last() =~= items@.take(k as int));
                match offer(&items[k], parent) {
                    Some(p) => {
                        crate::arguments::put(&mut r, &p);
                        assert(texts(r@) =~= start + all_offered(items@.take(k + 1), parent));
                    },
                    None => {},
                }
                k += 1;
            }
            assert(items@.take(k as int) =~= items@);
        },
        _ => {
            assert(start =~= start + Seq::<Seq<char>>::empty());
        },
    }
    r
}

/// What a request for a package says from a place on: the package, the reason, and
/// whether options ended.
pub open spec fn requested(
    args: Seq<Seq<char>>,
    package: Option<Seq<char>>,
    reason: Seq<char>,
    ended: bool,
) -> Result<(Seq<char>, Seq<char>), Seq<char>>
    decreases args.len(),
{
    if args.len() == 0 {
        match package {
            Some(p) => Ok((p, reason)),
            None => Err("missing package attribute"@),
        }
    } else if !ended && args[0] == "--reason"@ {
        if args.len() < 2 {
            Err("--reason requires text"@)
        } else {
            requested(args.skip(2), package, args[1], ended)
        }
    } else if !ended && args[0] == "--"@ {
        requested(args.skip(1), package, reason, true)
    } else if !ended && args[0].len() > 0 && args[0][0] == '-' {
        Err("unknown option: "@ + args[0])
    } else if package is Some {
        Err("expected exactly one package attribute"@)
    } else {
        requested(args.skip(1), Some(args[0]), reason, ended)
    }
}

/// What a request for a package says. It can be made under an older name.
pub open spec fn package_request(legacy: bool, args: Seq<Seq<char>>) -> Result<
    (Seq<char>, Seq<char>),
    Seq<char>,
> {
    let kind = if legacy {
        "package"@
    } else {
        "request-package"@
    };
    if args.len() == 0 || args[0] != kind {
        Err("usage: goblins request-package PACKAGE [--reason TEXT]"@)
    } else {
        requested(args.skip(1), None, "Requested from the sandbox shell"@, false)
    }
}

/// What a request for a package says: the package and the reason.
pub fn parse_args(legacy: bool, args: &Vec<String>) -> (r: Result<(String, String), String>)
    ensures
        match package_request(legacy, texts(args@)) {
            Ok((p, t)) => r matches Ok((a, b)) && a@ == p && b@ == t,
            Err(text) => r matches Err(e) && e@ == text,
        },
{
    let ghost all = texts(args@);
    assert(all.len() == args@.len());
    let kind = if legacy {
        "package"
    } else {
        "request-package"
    };
    if args.len() > 0 {
        assert(all[0] == args@[0]@);
    }
    if args.len() == 0 || !same(&args[0], kind) {
        return Err(String::from_str("usage: goblins request-package PACKAGE [--reason TEXT]"));
    }
    let mut package: Option<String> = None;
    let mut reason = String::from_str("Requested from the sandbox shell");
    let mut ended: bool = false;
    let mut k: usize = 1;
    while k < args.len()
        invariant
            1 <= k <= args@.len(),
            all == texts(args@),
            requested(all.skip(k as int), maybe(package), reason@, ended) == package_request(
                legacy,
                all,
            ),
        decreases args@.len() - k,
    {
        let ghost rest = all.skip(k as int);
        assert(rest[0] == args@[k as int]@);
        assert(rest.skip(1) =~= all.skip(k + 1));
        let c = chars(&args[k]);
        if !ended && same(&args[k], "--reason") {
            if args.len() - k < 2 {
                return Err(String::from_str("--reason requires text"));
            }
            assert(rest[1] == args@[k + 1]@);
            assert(rest.skip(2) =~= all.skip(k + 2));
            reason = args[k + 1].clone();
            k += 2;
        } else if !ended && same(&args[k], "--") {
            ended = true;
            k += 1;
        } else if !ended && c.len() > 0 && c[0] == '-' {
            let mut e = String::from_str("unknown option: ");
            e.push_str(&args[k]);
            return Err(e);
        } else if package.is_some() {
            return Err(String::from_str("expected exactly one package attribute"));
        } else {
            package = Some(args[k].clone());
            k += 1;
        }
    }
    assert(all.skip(k as int) =~= Seq::empty());
    match package {
        Some(p) => Ok((p, reason)),
        None => Err(String::from_str("missing package attribute")),
    }
}

/// The parameters of a message.
pub open spec fn send_params(key: Seq<char>, to: Seq<char>, body: Seq<char>) -> Seq<
    (Seq<char>, Value),
> {
    seq![("key"@, Value::Text(key)), ("to"@, Value::Text(to)), ("body"@, Value::Text(body))]
}

/// The call that sends a message.
pub fn send_request(key: &str, to: &str, body: &str) -> (r: Request)
    ensures
        asks(r, "messages.send"@, send_params(key@, to@, body@)),
{
    let p = Params::new().text("key", key).text("to", to).text("body", body);
    assert(p@ =~= send_params(key@, to@, body@));
    asking("messages.send", p)
}

/// The parameters of a reply.
pub open spec fn reply_params(
    key: Seq<char>,
    message: Seq<char>,
    claim_generation: nat,
    body: Seq<char>,
) -> Seq<(Seq<char>, Value)> {
    seq![
        ("key"@, Value::Text(key)),
        ("message"@, Value::Text(message)),
        ("claim_generation"@, Value::Number(claim_generation)),
        ("body"@, Value::Text(body)),
    ]
}

/// The call that replies to a message.
pub fn reply_request(key: &str, message: &str, claim_generation: u64, body: &str) -> (r: Request)
    ensures
        asks(r, "messages.reply"@, reply_params(key@, message@, claim_generation as nat, body@)),
{
    let p = Params::new().text("key", key).text("message", message).number(
        "claim_generation",
        claim_generation,
    ).text("body", body);
    assert(p@ =~= reply_params(key@, message@, claim_generation as nat, body@));
    asking("messages.reply", p)
}

/// The key of an operation: the one that was given, which has to be an identifier, or one
/// made of random bytes.
pub open spec fn key_of(key: Option<Seq<char>>, random: Seq<u8>) -> Option<Seq<char>> {
    match key {
        Some(k) => if is_identifier(k) {
            Some(k)
        } else {
            None
        },
        None => Some(hex_of(random)),
    }
}

/// What is asked for by a command of an inbox.
pub open spec fn inbox_call(c: MailView, random: Seq<u8>) -> Option<
    (Seq<char>, Seq<(Seq<char>, Value)>),
> {
    match c {
        MailView::InboxStatus => Some(("inbox.status"@, Seq::empty())),
        MailView::InboxNext { key } => match key_of(key, random) {
            Some(k) => Some(("inbox.next"@, seq![("key"@, Value::Text(k))])),
            None => None,
        },
        MailView::InboxComplete { message, claim_generation, key } => match key_of(key, random) {
            Some(k) => Some(
                (
                    "inbox.complete"@,
                    seq![
                        ("message"@, Value::Text(message)),
                        ("claim_generation"@, Value::Number(claim_generation)),
                        ("key"@, Value::Text(k)),
                    ],
                ),
            ),
            None => None,
        },
        MailView::InboxRequeue { message, claim_generation, reason, key } => match key_of(
            key,
            random,
        ) {
            Some(k) => Some(
                (
                    "inbox.requeue"@,
                    seq![
                        ("message"@, Value::Text(message)),
                        ("claim_generation"@, Value::Number(claim_generation)),
                        ("key"@, Value::Text(k)),
                        ("reason"@, Value::Text(reason)),
                    ],
                ),
            ),
            None => None,
        },
        _ => None,
    }
}

impl InboxCommand {
    /// The call that a command of an inbox makes, with random bytes for the key where none
    /// was given.
    pub fn request(self, random: &[u8; 16]) -> (r: Result<Request, String>)
        ensures
            match inbox_call(inbox_view(self), random@) {
                Some((method, params)) => r matches Ok(c) && asks(c, method, params),
                None => r matches Err(e) && e@ == "invalid operation key"@,
            },
    {
        match self {
            InboxCommand::Status => {
                let p = Params::new();
                Ok(asking("inbox.status", p))
            },
            InboxCommand::Next { key } => {
                let k = operation_key(key, random)?;
                let p = Params::new().text("key", &k);
                assert(p@ =~= seq![("key"@, Value::Text(k@))]);
                Ok(asking("inbox.next", p))
            },
            InboxCommand::Complete { message, claim_generation, key } => {
                let k = operation_key(key, random)?;
                let p = Params::new().text("message", &message).number(
                    "claim_generation",
                    claim_generation,
                ).text("key", &k);
                assert(p@ =~= seq![
                    ("message"@, Value::Text(message@)),
                    ("claim_generation"@, Value::Number(claim_generation as nat)),
                    ("key"@, Value::Text(k@)),
                ]);
                Ok(asking("inbox.complete", p))
            },
            InboxCommand::Requeue { message, claim_generation, reason, key } => {
                let k = operation_key(key, random)?;
                let p = Params::new().text("message", &message).number(
                    "claim_generation",
                    claim_generation,
                ).text("key", &k).text("reason", &reason);
                assert(p@ =~= seq![
                    ("message"@, Value::Text(message@)),
                    ("claim_generation"@, Value::Number(claim_generation as nat)),
                    ("key"@, Value::Text(k@)),
                    ("reason"@, Value::Text(reason@)),
                ]);
                Ok(asking("inbox.requeue", p))
            },
        }
    }
}

/// What commands ask for whose answer is only shown.
pub open spec fn simple_call(c: CommandView) -> Option<(Seq<char>, Seq<(Seq<char>, Value)>)> {
    match c {
        CommandView::List => Some(("sessions.list"@, Seq::empty())),
        CommandView::Kill { session, kill_children } => Some(
            (
                "sessions.stop"@,
                seq![
                    ("session"@, Value::Text(session)),
                    ("kill_children"@, Value::Flag(kill_children)),
                ],
            ),
        ),
        CommandView::Stop { session, kill_children } => Some(
            (
                "sessions.stop"@,
                seq![
                    ("session"@, Value::Text(session)),
                    ("kill_children"@, Value::Flag(kill_children)),
                ],
            ),
        ),
        CommandView::Detach => Some(("sessions.detach"@, Seq::empty())),
        _ => None,
    }
}

/// The call that stops a session.
pub fn stop_request(session: &str, kill_children: bool) -> (r: Request)
    ensures
        asks(
            r,
            "sessions.stop"@,
            seq![
                ("session"@, Value::Text(session@)),
                ("kill_children"@, Value::Flag(kill_children)),
            ],
        ),
{
    let p = Params::new().text("session", session).flag("kill_children", kill_children);
    assert(p@ =~= seq![
        ("session"@, Value::Text(session@)),
        ("kill_children"@, Value::Flag(kill_children)),
    ]);
    asking("sessions.stop", p)
}

/// The call of a command whose answer is only shown.
pub fn simple_request(c: &Command) -> (r: Option<Request>)
    ensures
        match simple_call(c@) {
            Some((method, params)) => r matches Some(q) && asks(q, method, params),
            None => r is None,
        },
{
    match c {
        Command::List => Some(asking("sessions.list", Params::new())),
        Command::Kill { session, kill_children } => Some(stop_request(session, *kill_children)),
        Command::Stop { session, kill_children } => Some(stop_request(session, *kill_children)),
        Command::Detach => Some(asking("sessions.detach", Params::new())),
        _ => None,
    }
}

/// The parameters that start a session below another.
pub open spec fn start_params(
    key: Seq<char>,
    config: Seq<char>,
    name: Option<Seq<char>>,
    parent: Option<Seq<char>>,
    detached: bool,
) -> Seq<(Seq<char>, Value)> {
    seq![
        ("key"@, Value::Text(key)),
        ("name"@, Value::Text(config)),
        ("agent_name"@, optional(name)),
        ("parent"@, optional(parent)),
        ("detached"@, Value::Flag(detached)),
    ]
}

/// The call that starts a session below this one.
pub fn start_request(
    key: &str,
    config: &str,
    name: &Option<String>,
    parent: &Option<String>,
    detached: bool,
) -> (r: Request)
    ensures
        asks(
            r,
            "sessions.start"@,
            start_params(key@, config@, maybe(*name), maybe(*parent), detached),
        ),
{
    let p = Params::new().text("key", key).text("name", config).maybe("agent_name", name).maybe(
        "parent",
        parent,
    ).flag("detached", detached);
    assert(p@ =~= start_params(key@, config@, maybe(*name), maybe(*parent), detached));
    asking("sessions.start", p)
}

/// The call that asks about a session, or attaches to it.
pub fn session_request(method: &str, session: &str) -> (r: Request)
    ensures
        asks(r, method@, seq![("session"@, Value::Text(session@))]),
{
    let p = Params::new().text("session", session);
    assert(p@ =~= seq![("session"@, Value::Text(session@))]);
    asking(method, p)
}

/// The call that asks for a package.
pub fn package_call(package: &str, reason: &str) -> (r: Request)
    ensures
        asks(
            r,
            "permissions.request"@,
            seq![
                ("kind"@, Value::Text("package"@)),
                ("package"@, Value::Text(package@)),
                ("reason"@, Value::Text(reason@)),
            ],
        ),
{
    let p = Params::new().text("kind", "package").text("package", package).text("reason", reason);
    assert(p@ =~= seq![
        ("kind"@, Value::Text("package"@)),
        ("package"@, Value::Text(package@)),
        ("reason"@, Value::Text(reason@)),
    ]);
    asking("permissions.request", p)
}

/// The parameters that ask for a container engine: of a scope, or one of its own.
pub open spec fn docker_params(
    reason: Option<Seq<char>>,
    scope: Option<Seq<char>>,
    anonymous: bool,
) -> Seq<(Seq<char>, Value)> {
    seq![
        ("kind"@, Value::Text("docker"@)),
        (
            "reason"@,
            Value::Text(
                match reason {
                    Some(t) => t,
                    None => "Enable Docker in this sandbox"@,
                },
            ),
        ),
    ] + (match scope {
        Some(s) => seq![("scope"@, Value::Text(s))],
        None => Seq::empty(),
    }) + (if anonymous {
        seq![("anonymous"@, Value::Flag(true))]
    } else {
        Seq::empty()
    })
}

/// The call that asks for a container engine.
pub fn docker_call(reason: &Option<String>, scope: &Option<String>, anonymous: bool) -> (r: Request)
    ensures
        asks(r, "permissions.request"@, docker_params(maybe(*reason), maybe(*scope), anonymous)),
{
    let text: &str = match reason {
        Some(t) => t.as_str(),
        None => "Enable Docker in this sandbox",
    };
    let mut p = Params::new().text("kind", "docker").text("reason", text);
    match scope {
        Some(s) => {
            p = p.text("scope", s);
        },
        None => {},
    }
    if anonymous {
        p = p.flag("anonymous", true);
    }
    assert(p@ =~= docker_params(maybe(*reason), maybe(*scope), anonymous));
    asking("permissions.request", p)
}

/// A list of features has one.
pub open spec fn has_feature(init: Json, feature: Seq<char>) -> bool {
    match member(init, "features"@) {
        Json::Array(items) => exists|i: int|
            0 <= i < items@.len() && is_word(#[trigger] items@[i], feature),
        _ => false,
    }
}

pub open spec fn is_word(v: Json, word: Seq<char>) -> bool {
    v matches Json::Text(t) && t@ == word
}

/// Whether the daemon has a feature.
pub fn supports(init: &Json, feature: &str) -> (r: bool)
    ensures
        r == has_feature(*init, feature@),
{
    match init.get("features") {
        Some(Json::Array(items)) => {
            let mut k: usize = 0;
            while k < items.len()
                invariant
                    k <= items@.len(),
                    member(*init, "features"@) == Json::Array(*items),
                    forall|i: int| 0 <= i < k ==> !is_word(#[trigger] items@[i], feature@),
                decreases items@.len() - k,
            {
                match items[k].as_str() {
                    Some(t) => {
                        if same(t, feature) {
                            proof {
                                let all = member(*init, "features"@)->Array_0;
                                assert(all == *items);
                                assert(is_word(all@[k as int], feature@));
                            }
                            return true;
                        }
                    },
                    None => {},
                }
                k += 1;
            }
            false
        },
        _ => false,
    }
}

/// Whether a daemon speaks this language to this side.
pub fn check_daemon(init: &Json, role: &str) -> (r: Result<(), String>)
    ensures
        if member(*init, "api"@) == Json::Unsigned(1) && text_at(*init, "role"@) == Some(role@) {
            r is Ok
        } else {
            r matches Err(e) && e@ == "incompatible daemon"@
        },
{
    let api = match init.get("api") {
        Some(v) => v.as_u64(),
        None => None,
    };
    let fits = match api {
        Some(n) => n == 1,
        None => false,
    };
    let named = match text_member(init, "role") {
        Some(t) => same(t, role),
        None => false,
    };
    if !fits || !named {
        return Err(String::from_str("incompatible daemon"));
    }
    Ok(())
}

/// What a call to a mailbox is refused for before a daemon is looked for: it would not be
/// understood.
pub open spec fn unread_refusal(r: Request, complaint: Seq<char>) -> Option<Seq<char>> {
    if r.method@ == "inbox.status"@ {
        None
    } else {
        match mutation_of(r.method@, r.params) {
            None => Some(complaint),
            Some(m) => m.refusal(),
        }
    }
}

/// What a call to a mailbox is refused for before it is sent: it would not be understood,
/// or the daemon has no mailboxes.
pub open spec fn mail_refusal(r: Request, init: Json, complaint: Seq<char>) -> Option<Seq<char>> {
    if unread_refusal(r, complaint) is Some {
        unread_refusal(r, complaint)
    } else if !has_feature(init, "agent-inbox-v1"@) {
        Some("daemon does not support agent inboxes"@)
    } else {
        None
    }
}

/// Reads a call to a mailbox as the daemon will. The complaint is that of what decodes its
/// parameters, where it has one.
pub fn understood(r: &Request, complaint: &str) -> (k: Result<(), String>)
    ensures
        match unread_refusal(*r, complaint@) {
            Some(why) => k matches Err(e) && e@ == why,
            None => k is Ok,
        },
{
    if !same(r.method.as_str(), "inbox.status") {
        if let Err(e) = Mutation::parse(r.method.as_str(), &r.params, complaint) {
            return Err(e);
        }
    }
    Ok(())
}

/// Checks a call to a mailbox, and gives the key that it is repeated under if its outcome
/// stays unknown. The complaint is that of what decodes its parameters, where it has one.
pub fn check_mail(r: &Request, init: &Json, complaint: &str) -> (k: Result<Option<String>, String>)
    ensures
        match mail_refusal(*r, *init, complaint@) {
            Some(why) => k matches Err(e) && e@ == why,
            None => k matches Ok(key) && maybe(key) == text_at(r.params, "key"@),
        },
{
    if let Err(e) = understood(r, complaint) {
        return Err(e);
    }
    if !supports(init, feature().as_str()) {
        return Err(String::from_str("daemon does not support agent inboxes"));
    }
    match text_member(&r.params, "key") {
        Some(key) => Ok(Some(String::from_str(key))),
        None => Ok(None),
    }
}

/// Whether a daemon can be asked for something: engines and scopes came later.
pub fn check_support(init: &Json, docker: bool, scoped: bool) -> (r: Result<(), String>)
    ensures
        if docker && !has_feature(*init, "docker-enable"@) {
            r matches Err(e) && e@
                == "daemon does not support on-demand Docker; start a new sandbox with an updated daemon"@
        } else if scoped && !has_feature(*init, "docker-scopes"@) {
            r matches Err(e) && e@
                == "daemon does not support Docker scopes; start a new sandbox with an updated daemon"@
        } else {
            r is Ok
        },
{
    if docker && !supports(init, "docker-enable") {
        return Err(
            String::from_str(
                "daemon does not support on-demand Docker; start a new sandbox with an updated daemon",
            ),
        );
    }
    if scoped && !supports(init, "docker-scopes") {
        return Err(
            String::from_str(
                "daemon does not support Docker scopes; start a new sandbox with an updated daemon",
            ),
        );
    }
    Ok(())
}

/// What the answer to a request for a permission means: the exit status, or that nothing
/// is known.
pub open spec fn settlement(status: Seq<char>, request: Seq<char>) -> Result<int, Seq<char>> {
    if (status != "ready"@ && status != "denied"@ && status != "error"@) || !is_identifier(
        request,
    ) {
        Err("invalid terminal result"@)
    } else if status == "ready"@ {
        Ok(0)
    } else {
        Ok(1)
    }
}

/// What the answer to a request for a permission means.
pub fn settle(result: &PermissionResult) -> (r: Result<i32, String>)
    ensures
        match settlement(result.status@, result.request@) {
            Ok(code) => r matches Ok(c) && c == code,
            Err(text) => r matches Err(e) && e@ == text,
        },
{
    let ready = same(&result.status, "ready");
    if (!ready && !same(&result.status, "denied") && !same(&result.status, "error"))
        || !identifier(&result.request) {
        return Err(String::from_str("invalid terminal result"));
    }
    if ready {
        Ok(0)
    } else {
        Ok(1)
    }
}

/// What a refused request is reported as.
pub fn refusal(error: Json) -> (r: Json)
    ensures
        r is Object,
        r.fields().len() == 2,
        r.fields()[0].0@ == "status"@,
        is_word(r.fields()[0].1, "error"@),
        r.fields()[1].0@ == "message"@,
        r.fields()[1].1 == error,
{
    let mut fields: Vec<(String, Json)> = Vec::new();
    fields.push((String::from_str("status"), Json::Text(String::from_str("error"))));
    fields.push((String::from_str("message"), error));
    Json::Object(fields)
}

/// A member's text, or another.
pub open spec fn text_or(v: Json, key: Seq<char>, other: Seq<char>) -> Seq<char> {
    match text_at(v, key) {
        Some(t) => t,
        None => other,
    }
}

fn push_text_or(r: &mut String, v: &Json, key: &str, other: &str)
    ensures
        final(r)@ == old(r)@ + text_or(*v, key@, other@),
{
    match text_member(v, key) {
        Some(t) => r.push_str(t),
        None => r.push_str(other),
    }
}

/// What a session is told of itself.
pub open spec fn status_of(record: Json) -> Seq<char> {
    "Sandbox: "@ + text_or(record, "agent_name"@, "unknown"@) + "\nConfiguration: "@ + text_or(
        record,
        "name"@,
        "unknown"@,
    ) + "\nDescription: "@ + text_or(record, "description"@, "unknown"@) + "\nState: "@ + text_or(
        record,
        "state"@,
        "unknown"@,
    ) + "\nDocker: "@ + (if member(record, "docker_enabled"@) == Json::Bool(true) {
        "enabled"@
    } else {
        "disabled"@
    }) + "\nDocker scope: "@ + text_or(record, "docker_scope"@, "anonymous"@) + "\nID: "@ + text_or(
        record,
        "id"@,
        "unknown"@,
    )
}

/// What a session is told of itself.
pub fn status_text(record: &Json) -> (r: String)
    ensures
        r@ == status_of(*record),
{
    let mut r = String::from_str("Sandbox: ");
    push_text_or(&mut r, record, "agent_name", "unknown");
    r.push_str("\nConfiguration: ");
    push_text_or(&mut r, record, "name", "unknown");
    r.push_str("\nDescription: ");
    push_text_or(&mut r, record, "description", "unknown");
    r.push_str("\nState: ");
    push_text_or(&mut r, record, "state", "unknown");
    r.push_str("\nDocker: ");
    let enabled = match record.get("docker_enabled") {
        Some(Json::Bool(b)) => *b,
        _ => false,
    };
    if enabled {
        r.push_str("enabled");
    } else {
        r.push_str("disabled");
    }
    r.push_str("\nDocker scope: ");
    push_text_or(&mut r, record, "docker_scope", "anonymous");
    r.push_str("\nID: ");
    push_text_or(&mut r, record, "id", "unknown");
    r
}

/// The call of an integration, with a key and the epoch that a hook belongs to.
pub fn integration_request(c: &IntegrationCommand, key: &str, epoch: u64) -> (r: Option<Request>)
    ensures
        match *c {
            IntegrationCommand::Register { driver } => r matches Some(q) && asks(
                q,
                "integration.register"@,
                seq![("driver"@, Value::Text(driver@)), ("key"@, Value::Text(key@))],
            ),
            IntegrationCommand::Hook { event, active } => r matches Some(q) && asks(
                q,
                "integration.check"@,
                seq![
                    ("epoch"@, Value::Number(epoch as nat)),
                    ("event"@, Value::Text(event@)),
                    ("active"@, Value::Flag(active)),
                    ("key"@, Value::Text(key@)),
                ],
            ),
            IntegrationCommand::Status => r matches Some(q) && asks(
                q,
                "integration.status"@,
                Seq::empty(),
            ),
            IntegrationCommand::Watch { .. } => r is None,
        },
{
    match c {
        IntegrationCommand::Register { driver } => {
            let p = Params::new().text("driver", driver).text("key", key);
            assert(p@ =~= seq![("driver"@, Value::Text(driver@)), ("key"@, Value::Text(key@))]);
            Some(asking("integration.register", p))
        },
        IntegrationCommand::Hook { event, active } => {
            let p = Params::new().number("epoch", epoch).text("event", event).flag(
                "active",
                *active,
            ).text("key", key);
            assert(p@ =~= seq![
                ("epoch"@, Value::Number(epoch as nat)),
                ("event"@, Value::Text(event@)),
                ("active"@, Value::Flag(*active)),
                ("key"@, Value::Text(key@)),
            ]);
            Some(asking("integration.check", p))
        },
        IntegrationCommand::Status => Some(asking("integration.status", Params::new())),
        IntegrationCommand::Watch { .. } => None,
    }
}

/// The epoch that a hook belongs to, by the variable that holds it.
pub fn hook_epoch(value: &Option<String>) -> (r: Result<u64, String>)
    ensures
        match *value {
            None => r matches Err(e) && e@ == "missing integration epoch"@,
            Some(t) => match number_in(t@, u64::MAX as nat) {
                Ok(n) => r matches Ok(m) && m == n,
                Err(_) => r matches Err(e) && e@ == "invalid integration epoch"@,
            },
        },
{
    match value {
        None => Err(String::from_str("missing integration epoch")),
        Some(t) => match parse_up_to(t, 0xFFFF_FFFF_FFFF_FFFF) {
            Ok(n) => Ok(n),
            Err(_) => Err(String::from_str("invalid integration epoch")),
        },
    }
}

/// The call of a notifier.
pub fn tick_request(epoch: u64, delivery: &str) -> (r: Request)
    ensures
        asks(
            r,
            "integration.tick"@,
            seq![("epoch"@, Value::Number(epoch as nat)), ("delivery"@, Value::Text(delivery@))],
        ),
{
    let p = Params::new().number("epoch", epoch).text("delivery", delivery);
    assert(p@ =~= seq![
        ("epoch"@, Value::Number(epoch as nat)),
        ("delivery"@, Value::Text(delivery@)),
    ]);
    asking("integration.tick", p)
}

/// Whether a notifier writes its prompt, by what it was answered.
pub fn prompts(result: &Json) -> (r: bool)
    ensures
        r == (member(*result, "notify"@) == Json::Bool(true) && text_at(*result, "delivery"@)
            == Some("notification"@)),
{
    let notify = match result.get("notify") {
        Some(Json::Bool(b)) => *b,
        _ => false,
    };
    let delivery = match text_member(result, "delivery") {
        Some(t) => same(t, "notification"),
        None => false,
    };
    notify && delivery
}

/// How often a notifier fails in a row before it gives up.
pub const FAILURES: u32 = 20;

/// What a notifier does when it was not answered.
#[derive(Clone, Copy, Debug, PartialEq, Eq, Structural)]
pub enum Failing {
    /// It says so, and tries again.
    Warn,
    /// It tries again.
    Retry,
    /// It gives up.
    Stop,
}

/// Counts a failure of a notifier. It warns once, and gives up after several in a row.
pub fn failed(failures: &mut u32) -> (r: Failing)
    requires
        *old(failures) < u32::MAX,
    ensures
        *final(failures) == *old(failures) + 1,
        r == if *final(failures) >= FAILURES {
            Failing::Stop
        } else if *final(failures) == 1 {
            Failing::Warn
        } else {
            Failing::Retry
        },
{
    *failures = *failures + 1;
    if *failures >= FAILURES {
        Failing::Stop
    } else if *failures == 1 {
        Failing::Warn
    } else {
        Failing::Retry
    }
}

/// The exit status of a command that could not be done.
pub fn failure_code(args: &Vec<String>) -> (r: i32)
    ensures
        r == {
            let a = texts(args@);
            if a.len() > 1 && (a[1] == "send"@ || a[1] == "reply"@ || a[1] == "inbox"@) {
                1int
            } else {
                2int
            }
        },
{
    if args.len() > 1 {
        assert(texts(args@)[1] == args@[1]@);
        if same(&args[1], "send") || same(&args[1], "reply") || same(&args[1], "inbox") {
            return 1;
        }
    }
    2
}

/// What is asked for from inside a sandbox carries no paths of the host: a session is
/// started by the name of a configuration.
pub proof fn a_start_names_no_manifest(
    key: Seq<char>,
    config: Seq<char>,
    name: Option<Seq<char>>,
    parent: Option<Seq<char>>,
    detached: bool,
)
    ensures
        forall|i: int|
            0 <= i < start_params(key, config, name, parent, detached).len() ==> (
            #[trigger] start_params(key, config, name, parent, detached)[i]).0 != "configuration"@,
{
    reveal_strlit("configuration");
    reveal_strlit("key");
    reveal_strlit("name");
    reveal_strlit("agent_name");
    reveal_strlit("parent");
    reveal_strlit("detached");
    assert("configuration"@.len() == 13);
    assert("key"@.len() == 3);
    assert("name"@.len() == 4);
    assert("agent_name"@.len() == 10);
    assert("parent"@.len() == 6);
    assert("detached"@.len() == 8);
}

/// Every session that can be reached is offered by its path.
pub proof fn every_reachable_session_is_offered(records: Seq<Json>, parent: bool, picked: Seq<char>)
    ensures
        all_offered(records, parent).contains(picked) <==> exists|i: int|
            0 <= i < records.len() && offered_of((#[trigger] records[i]), parent) == Some(picked),
        all_offered(records, parent).len() == records.filter(|x: Json| offered_of(x,
            parent) is Some).len(),
    decreases records.len(),
{
    reveal(Seq::filter);
    if records.len() > 0 {
        let most = records.drop_last();
        every_reachable_session_is_offered(most, parent, picked);
        let before = all_offered(most, parent);
        let now = all_offered(records, parent);
        assert(forall|i: int| 0 <= i < most.len() ==> records[i] == #[trigger] most[i]);
        if now.contains(picked) {
            let a = choose|a: int| 0 <= a < now.len() && now[a] == picked;
            if a < before.len() {
                assert(before[a] == picked);
                assert(before.contains(picked));
                let i = choose|i: int| 0 <= i < most.len()
                    && offered_of((#[trigger] most[i]), parent) == Some(picked);
                assert(offered_of(records[i], parent) == Some(picked));
            } else {
                assert(offered_of(records[records.len() - 1], parent) == Some(picked));
            }
        }
        if exists|i: int| 0 <= i < records.len() && offered_of((#[trigger] records[i]), parent)
            == Some(picked) {
            let i = choose|i: int| 0 <= i < records.len()
                && offered_of((#[trigger] records[i]), parent) == Some(picked);
            if i < most.len() {
                assert(most[i] == records[i]);
                assert(before.contains(picked));
                let a = choose|a: int| 0 <= a < before.len() && before[a] == picked;
                assert(now[a] == picked);
            } else {
                assert(now[now.len() - 1] == picked);
            }
        }
    }
}

/// A session is offered while it runs; one that is not asked for as an owner, also while it starts
/// or stops.
pub proof fn a_running_session_is_offered(record: Json, path: Seq<char>, parent: bool)
    requires
        text_at(record, "path"@) == Some(path),
        is_agent_path(path),
    ensures
        text_at(record, "state"@) == Some("running"@) ==> offered_of(record, parent) == Some(path),
        text_at(record, "state"@) == Some("starting"@) || text_at(record, "state"@) == Some(
            "stopping"@,
        ) ==> offered_of(record, false) == Some(path) && offered_of(record, true) is None,
        text_at(record, "state"@) is None ==> offered_of(record, parent) is None,
{
    reveal_strlit("running");
    reveal_strlit("starting");
    reveal_strlit("stopping");
    assert("running"@.len() != "starting"@.len());
    assert("running"@.len() != "stopping"@.len());
}

/// A package is asked for with the reason given for it, before it or behind it.
pub proof fn a_package_is_asked_for_with_its_reason(package: Seq<char>, reason: Seq<char>)
    requires
        package.len() == 0 || package[0] != '-',
    ensures
        requested(seq![package], None, Seq::empty(), false) == Ok::<
            (Seq<char>, Seq<char>),
            Seq<char>,
        >((package, Seq::empty())),
        requested(seq!["--reason"@, reason, package], None, Seq::empty(), false) == Ok::<
            (Seq<char>, Seq<char>),
            Seq<char>,
        >((package, reason)),
        requested(seq![package, "--reason"@, reason], None, Seq::empty(), false) == Ok::<
            (Seq<char>, Seq<char>),
            Seq<char>,
        >((package, reason)),
{
    reveal_strlit("--reason");
    reveal_strlit("--");
    assert("--reason"@[0] == '-');
    assert("--"@[0] == '-');
    reveal_with_fuel(requested, 3);
    assert(seq![package].skip(1) =~= Seq::empty());
    let front = seq!["--reason"@, reason, package];
    assert(front.skip(2) =~= seq![package]);
    let behind = seq![package, "--reason"@, reason];
    assert(behind.skip(1) =~= seq!["--reason"@, reason]);
    assert(seq!["--reason"@, reason].skip(2) =~= Seq::empty());
}

/// Behind two dashes a package may have any name.
pub proof fn dashes_end_the_options(package: Seq<char>)
    ensures
        requested(seq!["--"@, package], None, Seq::empty(), false) == Ok::<
            (Seq<char>, Seq<char>),
            Seq<char>,
        >((package, Seq::empty())),
{
    reveal_strlit("--reason");
    reveal_strlit("--");
    assert("--reason"@.len() != "--"@.len());
    reveal_with_fuel(requested, 3);
    assert(seq!["--"@, package].skip(1) =~= seq![package]);
    assert(seq![package].skip(1) =~= Seq::empty());
}

/// One package is asked for at a time.
pub proof fn one_package_is_asked_for(a: Seq<char>, b: Seq<char>, rest: Seq<Seq<char>>)
    requires
        a.len() == 0 || a[0] != '-',
        b.len() == 0 || b[0] != '-',
    ensures
        requested(seq![a, b] + rest, None, Seq::empty(), false) == Err::<
            (Seq<char>, Seq<char>),
            Seq<char>,
        >("expected exactly one package attribute"@),
        requested(Seq::empty(), None, Seq::empty(), false) is Err,
{
    reveal_strlit("--reason");
    reveal_strlit("--");
    assert("--reason"@[0] == '-');
    assert("--"@[0] == '-');
    reveal_with_fuel(requested, 2);
    let args = seq![a, b] + rest;
    assert(args.skip(1)[0] == b);
    assert(args[0] == a);
}

} // verus!
