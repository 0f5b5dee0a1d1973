//! The command lines of the host and of a sandbox, as far as they can be told apart
//! without knowing what is done by them.
use vstd::prelude::*;

use crate::arguments::{put, put_all, put_each};
use crate::options::{
    is_dashed, lead, leading, option_in, option_pairs, take, told_apart, words_are_taken_in_order,
    Taken, TakenView,
};
use crate::text::{maybe, same, starts_with, texts};

verus! {

/// A command line: the options in front of the command and in front of the second word of
/// it, the command, and what belongs to it.
pub ghost struct LineView {
    pub top: Seq<(Seq<char>, Seq<char>)>,
    pub middle: Seq<(Seq<char>, Seq<char>)>,
    pub command: Seq<char>,
    pub taken: TakenView,
}

pub struct Line {
    pub top: Vec<(String, String)>,
    pub middle: Vec<(String, String)>,
    pub command: String,
    pub taken: Taken,
}

impl Line {
    pub open spec fn view(&self) -> LineView {
        LineView {
            top: option_pairs(self.top@),
            middle: option_pairs(self.middle@),
            command: self.command@,
            taken: self.taken@,
        }
    }
}

/// The options that stand with every command.
pub open spec fn everywhere(host: bool) -> Seq<Seq<char>> {
    if host {
        seq!["--runtime"@, "--state-dir"@]
    } else {
        Seq::empty()
    }
}

/// The commands of two words.
pub open spec fn is_group(name: Seq<char>, host: bool) -> bool {
    name == "inbox"@ || name == "integration"@ || (host && name == "server"@)
}

/// The options and flags of a command that both know.
pub open spec fn common_shape(command: Seq<char>) -> Option<(Seq<Seq<char>>, Seq<Seq<char>>)> {
    let none = Seq::<Seq<char>>::empty();
    if command == "send"@ {
        Some((seq!["--message"@, "--file"@, "--key"@], none))
    } else if command == "reply"@ {
        Some((seq!["--claim-generation"@, "--message"@, "--file"@, "--key"@], none))
    } else if command == "inbox next"@ {
        Some((seq!["--key"@], none))
    } else if command == "inbox complete"@ {
        Some((seq!["--claim-generation"@, "--key"@], none))
    } else if command == "inbox requeue"@ {
        Some((seq!["--claim-generation"@, "--reason"@, "--key"@], none))
    } else if command == "run"@ {
        Some((seq!["--name"@, "--parent"@], seq!["--detatched"@, "--detached"@]))
    } else if command == "stop"@ || command == "kill"@ {
        Some((none, seq!["--kill-children"@]))
    } else if command == "inbox status"@ || command == "list"@ || command == "detach"@ || command
        == "completions"@ || command == "__complete-names"@ || command == "integration status"@ {
        Some((none, none))
    } else {
        None
    }
}

/// The options and flags of a command of the host.
pub open spec fn host_shape(command: Seq<char>) -> Option<(Seq<Seq<char>>, Seq<Seq<char>>)> {
    let none = Seq::<Seq<char>>::empty();
    if command == "server start"@ {
        Some((seq!["--workspace"@], seq!["--foreground"@]))
    } else if command == "tui"@ {
        Some((none, seq!["--plain"@]))
    } else if command == "attach"@ {
        Some((seq!["--instance"@], none))
    } else if command == "communications-log"@ {
        Some((seq!["--log"@, "--session"@], seq!["--follow"@, "--json"@]))
    } else if command == "server stop"@ || command == "server status"@ || command == "server logs"@
        || command == "configurations"@ || command == "detatch"@ || command == "rpc"@ || command
        == "integration pause"@ || command == "integration resume"@ {
        Some((none, none))
    } else {
        None
    }
}

/// The options and flags of a command of a sandbox.
pub open spec fn sandbox_shape(command: Seq<char>) -> Option<(Seq<Seq<char>>, Seq<Seq<char>>)> {
    let none = Seq::<Seq<char>>::empty();
    if command == "integration register"@ {
        Some((seq!["--driver"@], none))
    } else if command == "integration watch"@ {
        Some((seq!["--epoch"@, "--delivery"@], none))
    } else if command == "integration hook"@ {
        Some((seq!["--event"@], seq!["--active"@]))
    } else if command == "request-package"@ {
        Some((seq!["--reason"@], none))
    } else if command == "enable-docker"@ {
        Some((seq!["--reason"@, "--scope"@], seq!["--anonymous"@]))
    } else if command == "attach"@ || command == "status"@ {
        Some((none, none))
    } else {
        None
    }
}

pub open spec fn shape_of(command: Seq<char>, host: bool) -> Option<
    (Seq<Seq<char>>, Seq<Seq<char>>),
> {
    match common_shape(command) {
        Some(s) => Some(s),
        None => if host {
            host_shape(command)
        } else {
            sandbox_shape(command)
        },
    }
}

/// What belongs to a command, told apart.
pub open spec fn belonging(command: Seq<char>, args: Seq<Seq<char>>, host: bool) -> Option<
    TakenView,
> {
    match shape_of(command, host) {
        None => None,
        Some((options, flags)) => told_apart(args, everywhere(host) + options, flags),
    }
}

pub open spec fn nothing_taken() -> TakenView {
    TakenView {
        options: Seq::empty(),
        flags: Seq::empty(),
        words: Seq::empty(),
        rest: Seq::empty(),
    }
}

/// What a command line is, behind the name of the program, unless it is an error. One
/// without a command has an empty one.
pub open spec fn line_of(args: Seq<Seq<char>>, host: bool) -> Option<LineView> {
    let none = Seq::<(Seq<char>, Seq<char>)>::empty();
    match leading(args, everywhere(host)) {
        None => None,
        Some((top, at)) => if at >= args.len() {
            Some(LineView { top, middle: none, command: Seq::empty(), taken: nothing_taken() })
        } else {
            let more = args.skip(at + 1);
            if is_group(args[at], host) {
                match leading(more, everywhere(host)) {
                    None => None,
                    Some((middle, k)) => if k >= more.len() {
                        None
                    } else {
                        let command = args[at] + " "@ + more[k];
                        match belonging(command, more.skip(k + 1), host) {
                            None => None,
                            Some(taken) => Some(LineView { top, middle, command, taken }),
                        }
                    },
                }
            } else {
                match belonging(args[at], more, host) {
                    None => None,
                    Some(taken) => Some(
                        LineView { top, middle: none, command: args[at], taken },
                    ),
                }
            }
        },
    }
}

/// The arguments behind the name of the program.
pub open spec fn behind_name(args: Seq<String>) -> Seq<Seq<char>> {
    if args.len() == 0 {
        Seq::empty()
    } else {
        texts(args).skip(1)
    }
}

/// Options and flags.
pub struct Shape {
    pub options: Vec<String>,
    pub flags: Vec<String>,
}

/// A shape is what is said of a command.
pub open spec fn is_shape(r: Option<Shape>, s: Option<(Seq<Seq<char>>, Seq<Seq<char>>)>) -> bool {
    match s {
        Some((options, flags)) => r matches Some(t) && texts(t.options@) == options && texts(
            t.flags@,
        ) == flags,
        None => r is None,
    }
}

fn shaped<const N: usize, const M: usize>(options: [&str; N], flags: [&str; M]) -> (r: Option<Shape>)
    ensures
        is_shape(r, Some((crate::arguments::each(options@), crate::arguments::each(flags@)))),
{
    let mut o: Vec<String> = Vec::new();
    put_each(&mut o, options);
    assert(texts(o@) =~= crate::arguments::each(options@));
    let mut f: Vec<String> = Vec::new();
    put_each(&mut f, flags);
    assert(texts(f@) =~= crate::arguments::each(flags@));
    Some(Shape { options: o, flags: f })
}

fn common(command: &str) -> (r: Option<Shape>)
    ensures
        is_shape(r, common_shape(command@)),
{
    let r = if same(command, "send") {
        shaped(["--message", "--file", "--key"], [])
    } else if same(command, "reply") {
        shaped(["--claim-generation", "--message", "--file", "--key"], [])
    } else if same(command, "inbox next") {
        shaped(["--key"], [])
    } else if same(command, "inbox complete") {
        shaped(["--claim-generation", "--key"], [])
    } else if same(command, "inbox requeue") {
        shaped(["--claim-generation", "--reason", "--key"], [])
    } else if same(command, "run") {
        shaped(["--name", "--parent"], ["--detatched", "--detached"])
    } else if same(command, "stop") || same(command, "kill") {
        shaped([], ["--kill-children"])
    } else if same(command, "inbox status") || same(command, "list") || same(command, "detach")
        || same(command, "completions") || same(command, "__complete-names") || same(
        command,
        "integration status",
    ) {
        shaped([], [])
    } else {
        None
    };
    proof {
        match common_shape(command@) {
            Some((options, flags)) => {
                assert(texts((r->0).options@) =~= options);
                assert(texts((r->0).flags@) =~= flags);
            },
            None => {},
        }
    }
    r
}

fn host_only(command: &str) -> (r: Option<Shape>)
    ensures
        is_shape(r, host_shape(command@)),
{
    let r = if same(command, "server start") {
        shaped(["--workspace"], ["--foreground"])
    } else if same(command, "tui") {
        shaped([], ["--plain"])
    } else if same(command, "attach") {
        shaped(["--instance"], [])
    } else if same(command, "communications-log") {
        shaped(["--log", "--session"], ["--follow", "--json"])
    } else if same(command, "server stop") || same(command, "server status") || same(
        command,
        "server logs",
    ) || same(command, "configurations") || same(command, "detatch") || same(command, "rpc") || same(
        command,
        "integration pause",
    ) || same(command, "integration resume") {
        shaped([], [])
    } else {
        None
    };
    proof {
        match host_shape(command@) {
            Some((options, flags)) => {
                assert(texts((r->0).options@) =~= options);
                assert(texts((r->0).flags@) =~= flags);
            },
            None => {},
        }
    }
    r
}

fn sandbox_only(command: &str) -> (r: Option<Shape>)
    ensures
        is_shape(r, sandbox_shape(command@)),
{
    let r = if same(command, "integration register") {
        shaped(["--driver"], [])
    } else if same(command, "integration watch") {
        shaped(["--epoch", "--delivery"], [])
    } else if same(command, "integration hook") {
        shaped(["--event"], ["--active"])
    } else if same(command, "request-package") {
        shaped(["--reason"], [])
    } else if same(command, "enable-docker") {
        shaped(["--reason", "--scope"], ["--anonymous"])
    } else if same(command, "attach") || same(command, "status") {
        shaped([], [])
    } else {
        None
    };
    proof {
        match sandbox_shape(command@) {
            Some((options, flags)) => {
                assert(texts((r->0).options@) =~= options);
                assert(texts((r->0).flags@) =~= flags);
            },
            None => {},
        }
    }
    r
}

fn everywhere_list(host: bool) -> (r: Vec<String>)
    ensures
        texts(r@) == everywhere(host),
{
    let mut r: Vec<String> = Vec::new();
    if host {
        put(&mut r, "--runtime");
        put(&mut r, "--state-dir");
    }
    assert(texts(r@) =~= everywhere(host));
    r
}

fn take_for(command: &str, args: &Vec<String>, from: usize, host: bool) -> (r: Option<Taken>)
    requires
        from <= args@.len(),
    ensures
        match belonging(command@, texts(args@).skip(from as int), host) {
            Some(t) => r matches Some(u) && u@ == t,
            None => r is None,
        },
{
    let shape = match common(command) {
        Some(s) => s,
        None => if host {
            host_only(command)?
        } else {
            sandbox_only(command)?
        },
    };
    let mut options = everywhere_list(host);
    put_all(&mut options, &shape.options);
    take(args, from, &options, &shape.flags)
}

/// What a command line is, behind the name of the program.
pub fn read(args: &Vec<String>, host: bool) -> (r: Option<Line>)
    ensures
        match line_of(behind_name(args@), host) {
            None => r is None,
            Some(line) => r matches Some(m) && m@ == line,
        },
{
    let from: usize = if args.len() == 0 {
        0
    } else {
        1
    };
    let ghost all = texts(args@).skip(from as int);
    assert(all =~= behind_name(args@));
    let globals = everywhere_list(host);
    let (top, at) = lead(args, from, &globals)?;
    let none: Vec<(String, String)> = Vec::new();
    assert(option_pairs(none@) =~= Seq::empty());
    if at == args.len() {
        let taken = Taken {
            options: Vec::new(),
            flags: Vec::new(),
            words: Vec::new(),
            rest: Vec::new(),
        };
        assert(taken@ =~= nothing_taken());
        let command = String::new();
        assert(command@ =~= Seq::empty());
        return Some(Line { top, middle: none, command, taken });
    }
    assert(all[at - from] == args@[at as int]@);
    assert(all.skip(at - from + 1) =~= texts(args@).skip(at + 1));
    let name = &args[at];
    if same(name, "inbox") || same(name, "integration") || (host && same(name, "server")) {
        let ghost more = texts(args@).skip(at + 1);
        let (middle, k) = lead(args, at + 1, &globals)?;
        if k == args.len() {
            return None;
        }
        assert(more[k - at - 1] == args@[k as int]@);
        assert(more.skip(k - at) =~= texts(args@).skip(k + 1));
        let mut command = name.clone();
        command.push_str(" ");
        command.push_str(&args[k]);
        let taken = take_for(&command, args, k + 1, host)?;
        return Some(Line { top, middle, command, taken });
    }
    let taken = take_for(name, args, at + 1, host)?;
    Some(Line { top, middle: none, command: name.clone(), taken })
}

/// The value of an option that stands in one of several places: the last place counts.
pub open spec fn option_of(l: LineView, name: Seq<char>) -> Option<Seq<char>> {
    match option_in(l.taken.options, name) {
        Some(v) => Some(v),
        None => match option_in(l.middle, name) {
            Some(v) => Some(v),
            None => option_in(l.top, name),
        },
    }
}

fn find(v: &Vec<(String, String)>, name: &str) -> (r: Option<String>)
    ensures
        match option_in(option_pairs(v@), name@) {
            Some(x) => r matches Some(t) && t@ == x,
            None => r is None,
        },
{
    let ghost p = option_pairs(v@);
    let mut k: usize = 0;
    assert(p.skip(0) =~= p);
    while k < v.len()
        invariant
            k <= v@.len(),
            p == option_pairs(v@),
            option_in(p.skip(k as int), name@) == option_in(p, name@),
        decreases v@.len() - k,
    {
        assert(p.skip(k as int)[0] == (v@[k as int].0@, v@[k as int].1@));
        if same(&v[k].0, name) {
            return Some(v[k].1.clone());
        }
        assert(p.skip(k as int).drop_first() =~= p.skip(k + 1));
        k += 1;
    }
    None
}

/// Words of a command: those in front of a `--` and those behind it.
pub open spec fn words_of(t: TakenView) -> Seq<Seq<char>> {
    t.words + t.rest
}

impl Line {
    /// The value of an option, wherever it stands.
    pub fn option(&self, name: &str) -> (r: Option<String>)
        ensures
            maybe(r) == option_of(self@, name@),
    {
        match find(&self.taken.options, name) {
            Some(v) => Some(v),
            None => match find(&self.middle, name) {
                Some(v) => Some(v),
                None => find(&self.top, name),
            },
        }
    }

    /// The words of the command.
    pub fn words(&self) -> (r: Vec<String>)
        ensures
            texts(r@) == words_of(self@.taken),
            r@.len() == words_of(self@.taken).len(),
    {
        let mut r: Vec<String> = Vec::new();
        put_all(&mut r, &self.taken.words);
        put_all(&mut r, &self.taken.rest);
        assert(texts(r@) =~= words_of(self@.taken));
        r
    }

    /// The one word of the command, where it has one and no more.
    pub fn one_word(&self) -> (r: Option<String>)
        ensures
            match words_of(self@.taken).len() == 1 {
                true => r matches Some(t) && t@ == words_of(self@.taken)[0],
                false => r is None,
            },
    {
        let mut w = self.words();
        if w.len() != 1 {
            return None;
        }
        assert(texts(w@)[0] == w@[0]@);
        Some(w.remove(0))
    }

    /// Whether the command has no words.
    pub fn no_words(&self) -> (r: bool)
        ensures
            r == (words_of(self@.taken).len() == 0),
    {
        self.words().len() == 0
    }
}

/// Words with those put together again that a shell took apart at a `=`: nothing where
/// there is no word behind it.
pub open spec fn rejoined(done: Seq<Seq<char>>, words: Seq<Seq<char>>) -> Option<Seq<Seq<char>>>
    decreases words.len(),
{
    if words.len() == 0 {
        Some(done)
    } else if words[0] == "="@ && done.len() > 0 && "--"@.is_prefix_of(done.last()) {
        if words.len() < 2 {
            None
        } else {
            rejoined(
                done.drop_last().push(done.last() + "="@ + words[1]),
                words.skip(2),
            )
        }
    } else {
        rejoined(done.push(words[0]), words.skip(1))
    }
}

/// Puts words together again that a shell took apart at a `=`, without evaluating them.
pub fn rejoin(words: &Vec<String>) -> (r: Option<Vec<String>>)
    ensures
        match rejoined(Seq::empty(), texts(words@)) {
            Some(v) => r matches Some(s) && texts(s@) == v,
            None => r is None,
        },
{
    let mut r: Vec<String> = Vec::new();
    let ghost all = texts(words@);
    let mut k: usize = 0;
    assert(all.skip(0) =~= all);
    assert(texts(r@) =~= Seq::empty());
    while k < words.len()
        invariant
            k <= words@.len(),
            all == texts(words@),
            rejoined(texts(r@), all.skip(k as int)) == rejoined(Seq::empty(), all),
        decreases words@.len() - k,
    {
        let ghost rest = all.skip(k as int);
        let ghost done = texts(r@);
        assert(rest[0] == words@[k as int]@);
        let n = r.len();
        if n > 0 {
            assert(done.last() == r@[n - 1]@);
        }
        if same(&words[k], "=") && n > 0 && starts_with(&r[n - 1], "--") {
            if words.len() - k < 2 {
                return None;
            }
            assert(rest[1] == words@[k + 1]@);
            assert(rest.skip(2) =~= all.skip(k + 2));
            let mut last = r[n - 1].clone();
            last.push_str("=");
            last.push_str(&words[k + 1]);
            r.set(n - 1, last);
            assert(texts(r@) =~= done.drop_last().push(done.last() + "="@ + rest[1]));
            k += 2;
        } else {
            assert(rest.skip(1) =~= all.skip(k + 1));
            put(&mut r, &words[k]);
            k += 1;
        }
    }
    assert(all.skip(k as int) =~= Seq::empty());
    Some(r)
}

/// An option counts where it stands nearest to its command.
pub proof fn the_nearest_option_counts(l: LineView, name: Seq<char>, value: Seq<char>)
    ensures
        option_in(l.taken.options, name) == Some(value) ==> option_of(l, name) == Some(value),
        option_in(l.taken.options, name) is None && option_in(l.middle, name) == Some(value)
            ==> option_of(l, name) == Some(value),
        option_in(l.taken.options, name) is None && option_in(l.middle, name) is None ==> option_of(
            l,
            name,
        ) == option_in(l.top, name),
{
}

/// A line without an equals sign between its words stays as it is.
pub proof fn plain_words_stay_as_they_are(done: Seq<Seq<char>>, words: Seq<Seq<char>>)
    requires
        forall|i: int| 0 <= i < words.len() ==> #[trigger] words[i] != "="@,
    ensures
        rejoined(done, words) == Some(done + words),
    decreases words.len(),
{
    if words.len() == 0 {
        assert(done + words =~= done);
    } else {
        let rest = words.skip(1);
        assert forall|i: int| 0 <= i < rest.len() implies #[trigger] rest[i] != "="@ by {
            assert(rest[i] == words[i + 1]);
        }
        plain_words_stay_as_they_are(done.push(words[0]), rest);
        assert(done.push(words[0]) + rest =~= done + words);
    }
}

/// An option that a shell took apart at its equals sign is put together again.
pub proof fn an_option_is_put_together(name: Seq<char>, value: Seq<char>, more: Seq<Seq<char>>)
    requires
        "--"@.is_prefix_of(name),
        forall|i: int| 0 <= i < more.len() ==> #[trigger] more[i] != "="@,
    ensures
        rejoined(Seq::empty(), seq![name, "="@, value] + more) == Some(
            seq![name + "="@ + value] + more,
        ),
{
    reveal_strlit("=");
    reveal_strlit("--");
    let all = seq![name, "="@, value] + more;
    let none = Seq::<Seq<char>>::empty();
    assert(name.len() >= 2);
    assert("="@.len() == 1);
    assert(all[0] == name);
    let first = none.push(name);
    let behind = all.skip(1);
    assert(behind[0] == "="@ && behind[1] == value);
    assert(behind.skip(2) =~= more);
    assert(first.last() == name);
    let put = first.drop_last().push(name + "="@ + value);
    assert(rejoined(none, all) == rejoined(first, behind));
    assert(rejoined(first, behind) == rejoined(put, more));
    plain_words_stay_as_they_are(put, more);
    assert(put =~= seq![name + "="@ + value]);
}

/// A command that stands alone takes the words behind it.
pub proof fn a_command_takes_its_words(
    command: Seq<char>,
    words: Seq<Seq<char>>,
    host: bool,
)
    requires
        !is_dashed(command),
        !is_group(command, host),
        shape_of(command, host) is Some,
        forall|i: int| 0 <= i < words.len() ==> !is_dashed(#[trigger] words[i]),
    ensures
        line_of(seq![command] + words, host) matches Some(l) && l.command == command && words_of(
            l.taken,
        ) == words && l.taken.flags == Seq::<Seq<char>>::empty() && l.taken.options == Seq::<
            (Seq<char>, Seq<char>),
        >::empty() && l.top == Seq::<(Seq<char>, Seq<char>)>::empty(),
{
    let args = seq![command] + words;
    assert(args[0] == command);
    assert(args.skip(1) =~= words);
    let (options, flags) = shape_of(command, host)->0;
    words_are_taken_in_order(words, Seq::empty(), everywhere(host) + options, flags);
    assert(words + Seq::<Seq<char>>::empty() =~= words);
}

/// A command of a group is named by both words, and takes the words behind them.
pub proof fn a_group_leads_to_its_commands(
    group: Seq<char>,
    name: Seq<char>,
    words: Seq<Seq<char>>,
    host: bool,
)
    requires
        !is_dashed(group),
        is_group(group, host),
        !is_dashed(name),
        shape_of(group + " "@ + name, host) is Some,
        forall|i: int| 0 <= i < words.len() ==> !is_dashed(#[trigger] words[i]),
    ensures
        line_of(seq![group, name] + words, host) matches Some(l) && l.command == group + " "@ + name
            && words_of(l.taken) == words,
{
    let args = seq![group, name] + words;
    assert(args[0] == group);
    let more = args.skip(1);
    assert(more[0] == name);
    assert(more.skip(1) =~= words);
    let (options, flags) = shape_of(group + " "@ + name, host)->0;
    words_are_taken_in_order(words, Seq::empty(), everywhere(host) + options, flags);
    assert(words + Seq::<Seq<char>>::empty() =~= words);
}

} // verus!
