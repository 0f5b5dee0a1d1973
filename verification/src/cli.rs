//! The command line of the host: what it can say, and what is completed in it.
use vstd::prelude::*;

use crate::arguments::{list, put, put_all};
use crate::client::{mail_of, read_mail, Mail, MailView, MessageSource, InboxCommand};
use crate::lines::{
    behind_name, line_of, option_of, read, rejoin, rejoined, words_of, Line, LineView,
};
use crate::text::{chars, maybe, same, texts};

verus! {

/// What stands for the word that is completed.
pub open spec fn target() -> Seq<char> {
    "__goblins_completion_target__"@
}

/// The shells that completions are written for.
#[derive(Clone, Copy, Debug, PartialEq, Eq, Structural)]
pub enum Shell {
    Bash,
    Elvish,
    Fish,
    PowerShell,
    Zsh,
}

pub open spec fn shell_named(s: Seq<char>) -> Option<Shell> {
    if s == "bash"@ {
        Some(Shell::Bash)
    } else if s == "elvish"@ {
        Some(Shell::Elvish)
    } else if s == "fish"@ {
        Some(Shell::Fish)
    } else if s == "powershell"@ {
        Some(Shell::PowerShell)
    } else if s == "zsh"@ {
        Some(Shell::Zsh)
    } else {
        None
    }
}

/// The shell of a name.
pub fn shell(s: &str) -> (r: Option<Shell>)
    ensures
        r == shell_named(s@),
{
    if same(s, "bash") {
        Some(Shell::Bash)
    } else if same(s, "elvish") {
        Some(Shell::Elvish)
    } else if same(s, "fish") {
        Some(Shell::Fish)
    } else if same(s, "powershell") {
        Some(Shell::PowerShell)
    } else if same(s, "zsh") {
        Some(Shell::Zsh)
    } else {
        None
    }
}

/// What is done with the server.
pub enum ServerCommand {
    /// Start it in the background, unless it runs.
    Start { workspace: Option<String>, foreground: bool },
    /// Stop it and its agents.
    Stop,
    Status,
    Logs,
}

/// What is done with the integration of a session.
#[derive(Clone, Copy, Debug, PartialEq, Eq, Structural)]
pub enum Steer {
    Status,
    Pause,
    Resume,
}

/// What a command line says to do.
#[allow(inconsistent_fields)]
pub enum Command {
    Send { recipient: String, source: MessageSource, key: Option<String> },
    Reply {
        message_id: String,
        claim_generation: u64,
        source: MessageSource,
        key: Option<String>,
    },
    Inbox { command: InboxCommand },
    Integration { steer: Steer, session: String },
    CommunicationsLog {
        log: Option<String>,
        session: Option<String>,
        follow: bool,
        json: bool,
    },
    Server { command: ServerCommand },
    Tui { plain: bool },
    Run { config: String, name: Option<String>, parent: Option<String>, detatched: bool },
    Configurations,
    Attach { session: String, instance: Option<String> },
    Detatch { id_or_name: String },
    List,
    Stop { id_or_name: String, kill_children: bool },
    Kill { id_or_name: String, kill_children: bool },
    Rpc { method: String, params_json: String },
    Completions { shell: Shell },
    CompleteNames { words: Vec<String> },
}

/// A command line: where the manifest and the state of the server are, and what to do.
pub struct Cli {
    pub runtime: Option<String>,
    pub state_dir: Option<String>,
    pub command: Option<Command>,
}

#[allow(inconsistent_fields)]
pub ghost enum CommandView {
    Mail(MailView),
    Integration { steer: Steer, session: Seq<char> },
    CommunicationsLog {
        log: Option<Seq<char>>,
        session: Option<Seq<char>>,
        follow: bool,
        json: bool,
    },
    ServerStart { workspace: Option<Seq<char>>, foreground: bool },
    ServerStop,
    ServerStatus,
    ServerLogs,
    Tui { plain: bool },
    Run {
        config: Seq<char>,
        name: Option<Seq<char>>,
        parent: Option<Seq<char>>,
        detatched: bool,
    },
    Configurations,
    Attach { session: Seq<char>, instance: Option<Seq<char>> },
    Detatch { id_or_name: Seq<char> },
    List,
    Stop { id_or_name: Seq<char>, kill_children: bool },
    Kill { id_or_name: Seq<char>, kill_children: bool },
    Rpc { method: Seq<char>, params_json: Seq<char> },
    Completions { shell: Shell },
    CompleteNames { words: Seq<Seq<char>> },
}

pub ghost struct CliView {
    pub runtime: Option<Seq<char>>,
    pub state_dir: Option<Seq<char>>,
    pub command: Option<CommandView>,
}

impl Command {
    pub open spec fn view(&self) -> CommandView {
        match *self {
            Command::Send { recipient, source, key } => CommandView::Mail(
                (Mail::Send { recipient, source, key })@,
            ),
            Command::Reply { message_id, claim_generation, source, key } => CommandView::Mail(
                (Mail::Reply { message_id, claim_generation, source, key })@,
            ),
            Command::Inbox { command } => CommandView::Mail((Mail::Inbox { command })@),
            Command::Integration { steer, session } => CommandView::Integration {
                steer,
                session: session@,
            },
            Command::CommunicationsLog { log, session, follow, json } => {
                CommandView::CommunicationsLog {
                    log: maybe(log),
                    session: maybe(session),
                    follow,
                    json,
                }
            },
            Command::Server { command } => match command {
                ServerCommand::Start { workspace, foreground } => CommandView::ServerStart {
                    workspace: maybe(workspace),
                    foreground,
                },
                ServerCommand::Stop => CommandView::ServerStop,
                ServerCommand::Status => CommandView::ServerStatus,
                ServerCommand::Logs => CommandView::ServerLogs,
            },
            Command::Tui { plain } => CommandView::Tui { plain },
            Command::Run { config, name, parent, detatched } => CommandView::Run {
                config: config@,
                name: maybe(name),
                parent: maybe(parent),
                detatched,
            },
            Command::Configurations => CommandView::Configurations,
            Command::Attach { session, instance } => CommandView::Attach {
                session: session@,
                instance: maybe(instance),
            },
            Command::Detatch { id_or_name } => CommandView::Detatch { id_or_name: id_or_name@ },
            Command::List => CommandView::List,
            Command::Stop { id_or_name, kill_children } => CommandView::Stop {
                id_or_name: id_or_name@,
                kill_children,
            },
            Command::Kill { id_or_name, kill_children } => CommandView::Kill {
                id_or_name: id_or_name@,
                kill_children,
            },
            Command::Rpc { method, params_json } => CommandView::Rpc {
                method: method@,
                params_json: params_json@,
            },
            Command::Completions { shell } => CommandView::Completions { shell },
            Command::CompleteNames { words } => CommandView::CompleteNames { words: texts(words@) },
        }
    }
}

impl Cli {
    pub open spec fn view(&self) -> CliView {
        CliView {
            runtime: maybe(self.runtime),
            state_dir: maybe(self.state_dir),
            command: match self.command {
                Some(c) => Some(c@),
                None => None,
            },
        }
    }
}

/// A path that an option gives is not empty.
pub open spec fn is_path(p: Option<Seq<char>>) -> bool {
    p matches Some(t) ==> t.len() > 0
}

/// What a line says to do that has no words.
pub open spec fn wordless(l: LineView) -> Option<CommandView> {
    let flags = l.taken.flags;
    if l.command == "server start"@ {
        let workspace = option_of(l, "--workspace"@);
        if is_path(workspace) {
            Some(
                CommandView::ServerStart { workspace, foreground: flags.contains("--foreground"@) },
            )
        } else {
            None
        }
    } else if l.command == "server stop"@ {
        Some(CommandView::ServerStop)
    } else if l.command == "server status"@ {
        Some(CommandView::ServerStatus)
    } else if l.command == "server logs"@ {
        Some(CommandView::ServerLogs)
    } else if l.command == "tui"@ {
        Some(CommandView::Tui { plain: flags.contains("--plain"@) })
    } else if l.command == "configurations"@ {
        Some(CommandView::Configurations)
    } else if l.command == "list"@ {
        Some(CommandView::List)
    } else if l.command == "communications-log"@ {
        let log = option_of(l, "--log"@);
        if is_path(log) {
            Some(
                CommandView::CommunicationsLog {
                    log,
                    session: option_of(l, "--session"@),
                    follow: flags.contains("--follow"@),
                    json: flags.contains("--json"@),
                },
            )
        } else {
            None
        }
    } else {
        None
    }
}

/// What a line says to do that has one word.
pub open spec fn with_one(l: LineView, word: Seq<char>) -> Option<CommandView> {
    let flags = l.taken.flags;
    let kill_children = flags.contains("--kill-children"@);
    if l.command == "run"@ {
        if flags.contains("--detatched"@) && flags.contains("--detached"@) {
            None
        } else {
            Some(
                CommandView::Run {
                    config: word,
                    name: option_of(l, "--name"@),
                    parent: option_of(l, "--parent"@),
                    detatched: flags.contains("--detatched"@) || flags.contains("--detached"@),
                },
            )
        }
    } else if l.command == "attach"@ {
        Some(CommandView::Attach { session: word, instance: option_of(l, "--instance"@) })
    } else if l.command == "detatch"@ || l.command == "detach"@ {
        Some(CommandView::Detatch { id_or_name: word })
    } else if l.command == "stop"@ {
        Some(CommandView::Stop { id_or_name: word, kill_children })
    } else if l.command == "kill"@ {
        Some(CommandView::Kill { id_or_name: word, kill_children })
    } else if l.command == "integration status"@ {
        Some(CommandView::Integration { steer: Steer::Status, session: word })
    } else if l.command == "integration pause"@ {
        Some(CommandView::Integration { steer: Steer::Pause, session: word })
    } else if l.command == "integration resume"@ {
        Some(CommandView::Integration { steer: Steer::Resume, session: word })
    } else if l.command == "completions"@ {
        match shell_named(word) {
            Some(shell) => Some(CommandView::Completions { shell }),
            None => None,
        }
    } else {
        None
    }
}

/// What a line of the host says to do.
pub open spec fn command_of(l: LineView) -> Option<CommandView> {
    let w = words_of(l.taken);
    if mail_of(l) is Some {
        Some(CommandView::Mail(mail_of(l)->0))
    } else if l.command == "__complete-names"@ {
        if l.taken.words.len() == 0 {
            Some(CommandView::CompleteNames { words: l.taken.rest })
        } else {
            None
        }
    } else if l.command == "rpc"@ {
        if w.len() == 2 {
            Some(CommandView::Rpc { method: w[0], params_json: w[1] })
        } else {
            None
        }
    } else if w.len() == 0 {
        wordless(l)
    } else if w.len() == 1 {
        with_one(l, w[0])
    } else {
        None
    }
}

/// What a command line of the host says, behind the name of the program.
pub open spec fn cli_of(args: Seq<Seq<char>>) -> Option<CliView> {
    match line_of(args, true) {
        None => None,
        Some(l) => {
            let runtime = option_of(l, "--runtime"@);
            let state_dir = option_of(l, "--state-dir"@);
            if !is_path(runtime) || !is_path(state_dir) {
                None
            } else if l.command.len() == 0 {
                Some(CliView { runtime, state_dir, command: None })
            } else {
                match command_of(l) {
                    Some(c) => Some(CliView { runtime, state_dir, command: Some(c) }),
                    None => None,
                }
            }
        },
    }
}

fn no_path(p: &Option<String>) -> (r: bool)
    ensures
        r == !is_path(maybe(*p)),
{
    match p {
        Some(t) => chars(t).len() == 0,
        None => false,
    }
}

fn read_wordless(l: &Line) -> (r: Option<Command>)
    ensures
        match wordless(l@) {
            Some(c) => r matches Some(d) && d@ == c,
            None => r is None,
        },
{
    let server = if same(&l.command, "server start") {
        let workspace = l.option("--workspace");
        if no_path(&workspace) {
            return None;
        }
        ServerCommand::Start { workspace, foreground: l.taken.flag("--foreground") }
    } else if same(&l.command, "server stop") {
        ServerCommand::Stop
    } else if same(&l.command, "server status") {
        ServerCommand::Status
    } else if same(&l.command, "server logs") {
        ServerCommand::Logs
    } else if same(&l.command, "tui") {
        return Some(Command::Tui { plain: l.taken.flag("--plain") });
    } else if same(&l.command, "configurations") {
        return Some(Command::Configurations);
    } else if same(&l.command, "list") {
        return Some(Command::List);
    } else if same(&l.command, "communications-log") {
        let log = l.option("--log");
        if no_path(&log) {
            return None;
        }
        return Some(
            Command::CommunicationsLog {
                log,
                session: l.option("--session"),
                follow: l.taken.flag("--follow"),
                json: l.taken.flag("--json"),
            },
        );
    } else {
        return None;
    };
    Some(Command::Server { command: server })
}

fn read_with_one(l: &Line, word: String) -> (r: Option<Command>)
    ensures
        match with_one(l@, word@) {
            Some(c) => r matches Some(d) && d@ == c,
            None => r is None,
        },
{
    let kill_children = l.taken.flag("--kill-children");
    if same(&l.command, "run") {
        let detatched = l.taken.flag("--detatched");
        let detached = l.taken.flag("--detached");
        if detatched && detached {
            return None;
        }
        Some(
            Command::Run {
                config: word,
                name: l.option("--name"),
                parent: l.option("--parent"),
                detatched: detatched || detached,
            },
        )
    } else if same(&l.command, "attach") {
        Some(Command::Attach { session: word, instance: l.option("--instance") })
    } else if same(&l.command, "detatch") || same(&l.command, "detach") {
        Some(Command::Detatch { id_or_name: word })
    } else if same(&l.command, "stop") {
        Some(Command::Stop { id_or_name: word, kill_children })
    } else if same(&l.command, "kill") {
        Some(Command::Kill { id_or_name: word, kill_children })
    } else if same(&l.command, "integration status") {
        Some(Command::Integration { steer: Steer::Status, session: word })
    } else if same(&l.command, "integration pause") {
        Some(Command::Integration { steer: Steer::Pause, session: word })
    } else if same(&l.command, "integration resume") {
        Some(Command::Integration { steer: Steer::Resume, session: word })
    } else if same(&l.command, "completions") {
        match shell(&word) {
            Some(shell) => Some(Command::Completions { shell }),
            None => None,
        }
    } else {
        None
    }
}

fn read_command(l: &Line) -> (r: Option<Command>)
    ensures
        match command_of(l@) {
            Some(c) => r matches Some(d) && d@ == c,
            None => r is None,
        },
{
    match read_mail(l) {
        Some(Mail::Send { recipient, source, key }) => {
            return Some(Command::Send { recipient, source, key });
        },
        Some(Mail::Reply { message_id, claim_generation, source, key }) => {
            return Some(Command::Reply { message_id, claim_generation, source, key });
        },
        Some(Mail::Inbox { command }) => {
            return Some(Command::Inbox { command });
        },
        None => {},
    }
    if same(&l.command, "__complete-names") {
        assert(l@.taken.words.len() == l.taken.words@.len());
        if l.taken.words.len() == 0 {
            let mut words: Vec<String> = Vec::new();
            put_all(&mut words, &l.taken.rest);
            assert(texts(words@) =~= l@.taken.rest);
            return Some(Command::CompleteNames { words });
        }
        return None;
    }
    let mut w = l.words();
    let ghost all = texts(w@);
    assert(forall|i: int| 0 <= i < w@.len() ==> all[i] == #[trigger] w@[i]@);
    if same(&l.command, "rpc") {
        if w.len() != 2 {
            return None;
        }
        assert(all[0] == w@[0]@ && all[1] == w@[1]@);
        let params_json = w.remove(1);
        let method = w.remove(0);
        return Some(Command::Rpc { method, params_json });
    }
    if w.len() == 0 {
        return read_wordless(l);
    }
    if w.len() == 1 {
        assert(all[0] == w@[0]@);
        let word = w.remove(0);
        return read_with_one(l, word);
    }
    None
}

/// What a command line of the host says, behind the name of the program.
pub fn parse(args: &Vec<String>) -> (r: Option<Cli>)
    ensures
        match cli_of(behind_name(args@)) {
            Some(c) => r matches Some(d) && d@ == c,
            None => r is None,
        },
{
    let l = read(args, true)?;
    let runtime = l.option("--runtime");
    let state_dir = l.option("--state-dir");
    if no_path(&runtime) || no_path(&state_dir) {
        return None;
    }
    if chars(&l.command).len() == 0 {
        return Some(Cli { runtime, state_dir, command: None });
    }
    let command = read_command(&l)?;
    Some(Cli { runtime, state_dir, command: Some(command) })
}

/// Where the state is of the server whose sessions are offered, if words end where the
/// name of a session is completed.
pub open spec fn offered_from(default: Seq<char>, words: Seq<Seq<char>>) -> Option<Seq<char>> {
    match rejoined(Seq::empty(), words) {
        None => None,
        Some(args) => {
            let all = args.push(target());
            match cli_of(all.skip(1)) {
                None => None,
                Some(cli) => {
                    let state = match cli.state_dir {
                        Some(d) => d,
                        None => default,
                    };
                    match cli.command {
                        Some(CommandView::Attach { session, instance }) => if instance is None
                            && session == target() {
                            Some(state)
                        } else {
                            None
                        },
                        Some(CommandView::Detatch { id_or_name }) => if id_or_name == target() {
                            Some(state)
                        } else {
                            None
                        },
                        Some(CommandView::Kill { id_or_name, .. }) => if id_or_name == target() {
                            Some(state)
                        } else {
                            None
                        },
                        _ => None,
                    }
                },
            }
        },
    }
}

/// Where the state is of the server whose sessions are offered, if words end where the
/// name of a session is completed.
pub fn completion_state(default_state: &str, words: &Vec<String>) -> (r: Option<String>)
    ensures
        maybe(r) == offered_from(default_state@, texts(words@)),
{
    let mut args = rejoin(words)?;
    put(&mut args, "__goblins_completion_target__");
    let t = "__goblins_completion_target__";
    assert(args@.len() == texts(args@).len());
    assert(behind_name(args@) == texts(args@).skip(1));
    let cli = parse(&args)?;
    let fits = match &cli.command {
        Some(Command::Attach { session, instance }) => instance.is_none() && same(session, t),
        Some(Command::Detatch { id_or_name }) => same(id_or_name, t),
        Some(Command::Kill { id_or_name, .. }) => same(id_or_name, t),
        _ => false,
    };
    if !fits {
        return None;
    }
    match cli.state_dir {
        Some(d) => Some(d),
        None => Some(String::from_str(default_state)),
    }
}

} // verus!
