//! Command lines: options with values, flags and words, told apart.
use vstd::prelude::*;

use crate::text::{chars, find_char, first_index, holds, lemma_first_index, same, span, texts};

verus! {

/// What a command line holds, told apart: options with their values, flags, words, and
/// what follows a `--`.
#[verifier::ext_equal]
pub ghost struct TakenView {
    pub options: Seq<(Seq<char>, Seq<char>)>,
    pub flags: Seq<Seq<char>>,
    pub words: Seq<Seq<char>>,
    pub rest: Seq<Seq<char>>,
}

/// What a command line holds, told apart.
pub struct Taken {
    pub options: Vec<(String, String)>,
    pub flags: Vec<String>,
    pub words: Vec<String>,
    pub rest: Vec<String>,
}

pub open spec fn option_pairs(v: Seq<(String, String)>) -> Seq<(Seq<char>, Seq<char>)> {
    v.map_values(|p: (String, String)| (p.0@, p.1@))
}

impl Taken {
    pub open spec fn view(&self) -> TakenView {
        TakenView {
            options: option_pairs(self.options@),
            flags: texts(self.flags@),
            words: texts(self.words@),
            rest: texts(self.rest@),
        }
    }
}

/// Whether an argument is not a word: it begins with a hyphen and is more than that.
pub open spec fn is_dashed(s: Seq<char>) -> bool {
    s.len() > 1 && s[0] == '-'
}

/// The name of an option, and its value where one is written behind a `=`.
pub open spec fn parts_of_option(s: Seq<char>) -> (Seq<char>, Option<Seq<char>>) {
    let at = first_index(s, '=');
    if 0 <= at < s.len() {
        (s.take(at), Some(s.skip(at + 1)))
    } else {
        (s, None)
    }
}

pub open spec fn has_option(v: Seq<(Seq<char>, Seq<char>)>, name: Seq<char>) -> bool {
    exists|i: int| 0 <= i < v.len() && (#[trigger] v[i]).0 == name
}

/// The value of an option.
pub open spec fn option_in(v: Seq<(Seq<char>, Seq<char>)>, name: Seq<char>) -> Option<Seq<char>>
    decreases v.len(),
{
    if v.len() == 0 {
        None
    } else if v[0].0 == name {
        Some(v[0].1)
    } else {
        option_in(v.drop_first(), name)
    }
}

/// An option in front of what else a command line holds, unless it stands there too.
pub open spec fn with_option(name: Seq<char>, value: Seq<char>, more: Option<TakenView>) -> Option<
    TakenView,
> {
    match more {
        None => None,
        Some(t) => if has_option(t.options, name) {
            None
        } else {
            Some(TakenView { options: seq![(name, value)] + t.options, ..t })
        },
    }
}

/// A flag in front of what else a command line holds, unless it stands there too.
pub open spec fn with_flag(name: Seq<char>, more: Option<TakenView>) -> Option<TakenView> {
    match more {
        None => None,
        Some(t) => if t.flags.contains(name) {
            None
        } else {
            Some(TakenView { flags: seq![name] + t.flags, ..t })
        },
    }
}

pub open spec fn with_word(word: Seq<char>, more: Option<TakenView>) -> Option<TakenView> {
    match more {
        None => None,
        Some(t) => Some(TakenView { words: seq![word] + t.words, ..t }),
    }
}

/// A command line told apart, by the names of its options and flags. Nothing where it has
/// another option, one twice, or one without its value.
pub open spec fn told_apart(
    args: Seq<Seq<char>>,
    options: Seq<Seq<char>>,
    flags: Seq<Seq<char>>,
) -> Option<TakenView>
    decreases args.len(),
{
    if args.len() == 0 {
        Some(
            TakenView {
                options: Seq::empty(),
                flags: Seq::empty(),
                words: Seq::empty(),
                rest: Seq::empty(),
            },
        )
    } else if args[0] == "--"@ {
        Some(
            TakenView {
                options: Seq::empty(),
                flags: Seq::empty(),
                words: Seq::empty(),
                rest: args.skip(1),
            },
        )
    } else if !is_dashed(args[0]) {
        with_word(args[0], told_apart(args.skip(1), options, flags))
    } else {
        let (name, value) = parts_of_option(args[0]);
        match value {
            Some(v) => if options.contains(name) {
                with_option(name, v, told_apart(args.skip(1), options, flags))
            } else {
                None
            },
            None => if flags.contains(name) {
                with_flag(name, told_apart(args.skip(1), options, flags))
            } else if options.contains(name) && args.len() > 1 && !is_dashed(args[1]) {
                with_option(name, args[1], told_apart(args.skip(2), options, flags))
            } else {
                None
            },
        }
    }
}

pub fn dashed(s: &str) -> (r: bool)
    ensures
        r == is_dashed(s@),
{
    let v = chars(s);
    v.len() > 1 && v[0] == '-'
}

/// The name of an option, and its value where one is written behind a `=`.
pub fn split_option(s: &str) -> (r: (String, Option<String>))
    ensures
        r.0@ == parts_of_option(s@).0,
        match parts_of_option(s@).1 {
            Some(v) => r.1 matches Some(t) && t@ == v,
            None => r.1 is None,
        },
{
    let v = chars(s);
    let at = find_char(&v, 0, v.len(), '=');
    assert(v@.subrange(0, v@.len() as int) =~= s@);
    proof {
        lemma_first_index(s@, '=');
    }
    if at < v.len() {
        let name = span(&v, 0, at);
        let value = span(&v, at + 1, v.len());
        assert(name@ =~= s@.take(at as int));
        assert(value@ =~= s@.skip(at + 1));
        (name, Some(value))
    } else {
        (String::from_str(s), None)
    }
}

fn listed(v: &Vec<(String, String)>, name: &str) -> (r: bool)
    ensures
        r == has_option(option_pairs(v@), name@),
{
    let ghost p = option_pairs(v@);
    let mut k: usize = 0;
    while k < v.len()
        invariant
            k <= v@.len(),
            p == option_pairs(v@),
            forall|i: int| 0 <= i < k ==> (#[trigger] p[i]).0 != name@,
        decreases v@.len() - k,
    {
        assert(p[k as int].0 == v@[k as int].0@);
        if same(&v[k].0, name) {
            return true;
        }
        k += 1;
    }
    false
}

impl Taken {
    fn add_option(self, name: String, value: String) -> (r: Option<Taken>)
        ensures
            match with_option(name@, value@, Some(self@)) {
                Some(t) => r matches Some(u) && u@ == t,
                None => r is None,
            },
    {
        let mut t = self;
        if listed(&t.options, &name) {
            return None;
        }
        let ghost before = t.options@;
        t.options.insert(0, (name, value));
        assert(option_pairs(t.options@) =~= seq![(name@, value@)] + option_pairs(before));
        Some(t)
    }

    fn add_flag(self, name: String) -> (r: Option<Taken>)
        ensures
            match with_flag(name@, Some(self@)) {
                Some(t) => r matches Some(u) && u@ == t,
                None => r is None,
            },
    {
        let mut t = self;
        if holds(&t.flags, &name) {
            return None;
        }
        let ghost before = t.flags@;
        t.flags.insert(0, name);
        assert(texts(t.flags@) =~= seq![name@] + texts(before));
        Some(t)
    }

    fn add_word(self, word: String) -> (r: Taken)
        ensures
            Some(r@) == with_word(word@, Some(self@)),
    {
        let mut t = self;
        let ghost before = t.words@;
        t.words.insert(0, word);
        assert(texts(t.words@) =~= seq![word@] + texts(before));
        t
    }

    /// The value of an option.
    pub fn option(&self, name: &str) -> (r: Option<String>)
        ensures
            match option_in(self@.options, name@) {
                Some(v) => r matches Some(t) && t@ == v,
                None => r is None,
            },
    {
        let ghost p = option_pairs(self.options@);
        let mut k: usize = 0;
        assert(p.skip(0) =~= p);
        while k < self.options.len()
            invariant
                k <= self.options@.len(),
                p == option_pairs(self.options@),
                option_in(p.skip(k as int), name@) == option_in(p, name@),
            decreases self.options@.len() - k,
        {
            assert(p.skip(k as int)[0] == (self.options@[k as int].0@, self.options@[k as int].1@));
            if same(&self.options[k].0, name) {
                return Some(self.options[k].1.clone());
            }
            assert(p.skip(k as int).drop_first() =~= p.skip(k + 1));
            k += 1;
        }
        None
    }

    /// Whether a flag stands there.
    pub fn flag(&self, name: &str) -> (r: bool)
        ensures
            r == self@.flags.contains(name@),
    {
        holds(&self.flags, name)
    }
}

fn from_here(args: &Vec<String>, from: usize) -> (r: Vec<String>)
    requires
        from <= args@.len(),
    ensures
        texts(r@) == texts(args@).skip(from as int),
{
    let mut r: Vec<String> = Vec::new();
    crate::arguments::put_range(&mut r, args, from, args.len());
    assert(texts(r@) =~= texts(args@).skip(from as int));
    r
}

/// A command line told apart from a place on.
pub fn take(args: &Vec<String>, from: usize, options: &Vec<String>, flags: &Vec<String>) -> (r:
    Option<Taken>)
    requires
        from <= args@.len(),
    ensures
        match told_apart(texts(args@).skip(from as int), texts(options@), texts(flags@)) {
            Some(t) => r matches Some(u) && u@ == t,
            None => r is None,
        },
    decreases args@.len() - from,
{
    let ghost all = texts(args@).skip(from as int);
    if from == args.len() {
        let t = Taken {
            options: Vec::new(),
            flags: Vec::new(),
            words: Vec::new(),
            rest: Vec::new(),
        };
        assert(t@ =~= (TakenView {
            options: Seq::empty(),
            flags: Seq::empty(),
            words: Seq::empty(),
            rest: Seq::empty(),
        }));
        return Some(t);
    }
    assert(all[0] == args@[from as int]@);
    assert(all.skip(1) =~= texts(args@).skip(from + 1));
    if same(&args[from], "--") {
        let t = Taken {
            options: Vec::new(),
            flags: Vec::new(),
            words: Vec::new(),
            rest: from_here(args, from + 1),
        };
        assert(t@ =~= (TakenView {
            options: Seq::empty(),
            flags: Seq::empty(),
            words: Seq::empty(),
            rest: all.skip(1),
        }));
        return Some(t);
    }
    if !dashed(&args[from]) {
        let t = take(args, from + 1, options, flags)?;
        return Some(t.add_word(args[from].clone()));
    }
    let (name, value) = split_option(&args[from]);
    match value {
        Some(v) => {
            if !holds(options, &name) {
                return None;
            }
            let t = take(args, from + 1, options, flags)?;
            t.add_option(name, v)
        },
        None => {
            if holds(flags, &name) {
                let t = take(args, from + 1, options, flags)?;
                return t.add_flag(name);
            }
            if !holds(options, &name) || args.len() - from < 2 {
                return None;
            }
            assert(all[1] == args@[from + 1]@);
            assert(all.skip(2) =~= texts(args@).skip(from + 2));
            if dashed(&args[from + 1]) {
                return None;
            }
            let t = take(args, from + 2, options, flags)?;
            t.add_option(name, args[from + 1].clone())
        },
    }
}

/// The options in front of the first word of a command line, and where that word stands:
/// behind the end where there is none.
pub open spec fn leading(args: Seq<Seq<char>>, options: Seq<Seq<char>>) -> Option<
    (Seq<(Seq<char>, Seq<char>)>, int),
>
    decreases args.len(),
{
    if args.len() == 0 || !is_dashed(args[0]) {
        Some((Seq::empty(), 0))
    } else {
        let (name, value) = parts_of_option(args[0]);
        if !options.contains(name) {
            None
        } else {
            match value {
                Some(v) => led_by(name, v, leading(args.skip(1), options), 1),
                None => if args.len() > 1 && !is_dashed(args[1]) {
                    led_by(name, args[1], leading(args.skip(2), options), 2)
                } else {
                    None
                },
            }
        }
    }
}

pub open spec fn led_by(
    name: Seq<char>,
    value: Seq<char>,
    more: Option<(Seq<(Seq<char>, Seq<char>)>, int)>,
    n: int,
) -> Option<(Seq<(Seq<char>, Seq<char>)>, int)> {
    match more {
        None => None,
        Some((o, at)) => if has_option(o, name) {
            None
        } else {
            Some((seq![(name, value)] + o, at + n))
        },
    }
}

/// The options in front of the first word of a command line from a place on, and where
/// that word stands.
pub fn lead(args: &Vec<String>, from: usize, options: &Vec<String>) -> (r: Option<
    (Vec<(String, String)>, usize),
>)
    requires
        from <= args@.len(),
    ensures
        match leading(texts(args@).skip(from as int), texts(options@)) {
            Some((o, at)) => r matches Some((v, k)) && option_pairs(v@) == o && k == from + at
                && from <= k <= args@.len(),
            None => r is None,
        },
    decreases args@.len() - from,
{
    let ghost all = texts(args@).skip(from as int);
    if from < args.len() {
        assert(all[0] == args@[from as int]@);
    }
    if from == args.len() || !dashed(&args[from]) {
        let none: Vec<(String, String)> = Vec::new();
        assert(option_pairs(none@) =~= Seq::empty());
        return Some((none, from));
    }
    assert(all.skip(1) =~= texts(args@).skip(from + 1));
    let (name, value) = split_option(&args[from]);
    if !holds(options, &name) {
        return None;
    }
    let (text, more) = match value {
        Some(v) => (v, lead(args, from + 1, options)),
        None => {
            if args.len() - from < 2 {
                return None;
            }
            assert(all[1] == args@[from + 1]@);
            assert(all.skip(2) =~= texts(args@).skip(from + 2));
            if dashed(&args[from + 1]) {
                return None;
            }
            (args[from + 1].clone(), lead(args, from + 2, options))
        },
    };
    match more {
        None => None,
        Some((mut o, at)) => {
            if listed(&o, &name) {
                return None;
            }
            let ghost before = o@;
            o.insert(0, (name, text));
            assert(option_pairs(o@) =~= seq![(name@, text@)] + option_pairs(before));
            Some((o, at))
        },
    }
}

/// Words are taken in order, and what follows two dashes is left as it is.
pub proof fn words_are_taken_in_order(
    words: Seq<Seq<char>>,
    rest: Seq<Seq<char>>,
    options: Seq<Seq<char>>,
    flags: Seq<Seq<char>>,
)
    requires
        forall|i: int| 0 <= i < words.len() ==> !is_dashed(#[trigger] words[i]),
    ensures
        told_apart(words, options, flags) == Some(
            TakenView {
                options: Seq::empty(),
                flags: Seq::empty(),
                words,
                rest: Seq::empty(),
            },
        ),
        told_apart(words.push("--"@) + rest, options, flags) == Some(
            TakenView { options: Seq::empty(), flags: Seq::empty(), words, rest },
        ),
    decreases words.len(),
{
    reveal_strlit("--");
    assert(is_dashed("--"@));
    let all = words.push("--"@) + rest;
    if words.len() == 0 {
        assert(all[0] == "--"@);
        assert(all.skip(1) =~= rest);
    } else {
        let more = words.skip(1);
        assert forall|i: int| 0 <= i < more.len() implies !is_dashed(#[trigger] more[i]) by {
            assert(more[i] == words[i + 1]);
        }
        words_are_taken_in_order(more, rest, options, flags);
        assert(all[0] == words[0]);
        assert(all.skip(1) =~= more.push("--"@) + rest);
        assert(seq![words[0]] + more =~= words);
    }
}

/// The value of an option is the first that stands under its name.
pub proof fn the_first_option_counts(v: Seq<(Seq<char>, Seq<char>)>, name: Seq<char>)
    ensures
        match option_in(v, name) {
            Some(value) => exists|i: int|
                0 <= i < v.len() && #[trigger] v[i] == (name, value) && forall|j: int|
                    0 <= j < i ==> (#[trigger] v[j]).0 != name,
            None => forall|j: int| 0 <= j < v.len() ==> (#[trigger] v[j]).0 != name,
        },
    decreases v.len(),
{
    if v.len() > 0 {
        let rest = v.drop_first();
        if v[0].0 == name {
            assert(v[0] == (name, v[0].1));
        } else {
            the_first_option_counts(rest, name);
            match option_in(v, name) {
                Some(value) => {
                    let i = choose|i: int|
                        0 <= i < rest.len() && #[trigger] rest[i] == (name, value) && forall|j: int|
                            0 <= j < i ==> (#[trigger] rest[j]).0 != name;
                    assert(v[i + 1] == (name, value));
                    assert forall|j: int| 0 <= j < i + 1 implies (#[trigger] v[j]).0 != name by {
                        if j > 0 {
                            assert(rest[j - 1] == v[j]);
                        }
                    }
                },
                None => {
                    assert forall|j: int| 0 <= j < v.len() implies (#[trigger] v[j]).0 != name by {
                        if j > 0 {
                            assert(rest[j - 1] == v[j]);
                        }
                    }
                },
            }
        }
    }
}

proof fn lemma_no_mark(s: Seq<char>, c: char)
    requires
        !s.contains(c),
    ensures
        first_index(s, c) == s.len(),
    decreases s.len(),
{
    if s.len() > 0 {
        assert(s[0] != c);
        assert forall|i: int| 0 <= i < s.drop_first().len() implies s.drop_first()[i] != c by {
            assert(s.drop_first()[i] == s[i + 1]);
        }
        lemma_no_mark(s.drop_first(), c);
    }
}

proof fn lemma_mark_behind(s: Seq<char>, c: char, rest: Seq<char>)
    requires
        !s.contains(c),
    ensures
        first_index(s.push(c) + rest, c) == s.len(),
    decreases s.len(),
{
    let all = s.push(c) + rest;
    if s.len() == 0 {
        assert(all[0] == c);
    } else {
        assert(s[0] != c);
        assert(all[0] == s[0]);
        let more = s.drop_first();
        assert forall|i: int| 0 <= i < more.len() implies more[i] != c by {
            assert(more[i] == s[i + 1]);
        }
        lemma_mark_behind(more, c, rest);
        assert(all.drop_first() =~= more.push(c) + rest);
    }
}

/// An option has the value that stands behind it, or behind its equals sign; what else the line
/// holds stays as it is. A second value for one option is refused.
pub proof fn an_option_has_its_value(
    name: Seq<char>,
    value: Seq<char>,
    more: Seq<Seq<char>>,
    options: Seq<Seq<char>>,
    flags: Seq<Seq<char>>,
    t: TakenView,
)
    requires
        is_dashed(name),
        !name.contains('='),
        name != "--"@,
        options.contains(name),
        !flags.contains(name),
        !is_dashed(value),
        told_apart(more, options, flags) == Some(t),
    ensures
        told_apart(seq![name, value] + more, options, flags) == told_apart(
            seq![name + "="@ + value] + more,
            options,
            flags,
        ),
        has_option(t.options, name) ==> told_apart(seq![name, value] + more, options, flags)
            is None,
        !has_option(t.options, name) ==> (told_apart(seq![name, value] + more, options, flags)
            matches Some(u) && option_in(u.options, name) == Some(value) && u.words == t.words
            && u.flags == t.flags && u.rest == t.rest && forall|other: Seq<char>|
            other != name ==> #[trigger] option_in(u.options, other) == option_in(t.options, other)),
{
    reveal_strlit("=");
    reveal_strlit("--");
    let apart = seq![name, value] + more;
    let together = name + "="@ + value;
    assert(apart.skip(2) =~= more);
    lemma_no_mark(name, '=');
    assert(parts_of_option(name) == (name, None::<Seq<char>>));
    assert(together =~= name.push('=') + value);
    lemma_mark_behind(name, '=', value);
    assert(together.take(name.len() as int) =~= name);
    assert(together.skip(name.len() as int + 1) =~= value);
    assert(parts_of_option(together) == (name, Some(value)));
    assert(together[0] == name[0]);
    assert(is_dashed(together));
    assert(together[name.len() as int] == '=');
    assert(together != "--"@) by {
        assert(together.len() > 2);
        assert("--"@.len() == 2);
    }
    assert((seq![together] + more).skip(1) =~= more);
    assert((seq![together] + more)[0] == together);
    assert(apart[0] == name && apart[1] == value);
    if !has_option(t.options, name) {
        let now = seq![(name, value)] + t.options;
        assert(now.drop_first() =~= t.options);
        assert(now[0] == (name, value));
    }
}

/// A flag that is given is noted, and what else the line holds stays as it is. An option or a flag
/// that is not known is refused.
pub proof fn a_flag_is_noted(
    name: Seq<char>,
    more: Seq<Seq<char>>,
    options: Seq<Seq<char>>,
    flags: Seq<Seq<char>>,
    t: TakenView,
)
    requires
        is_dashed(name),
        !name.contains('='),
        name != "--"@,
        told_apart(more, options, flags) == Some(t),
    ensures
        flags.contains(name) && !t.flags.contains(name) ==> (told_apart(
            seq![name] + more,
            options,
            flags,
        ) matches Some(u) && u.flags == seq![name] + t.flags && u.options == t.options && u.words
            == t.words && u.rest == t.rest),
        flags.contains(name) && t.flags.contains(name) ==> told_apart(
            seq![name] + more,
            options,
            flags,
        ) is None,
        !flags.contains(name) && !options.contains(name) ==> told_apart(
            seq![name] + more,
            options,
            flags,
        ) is None,
{
    lemma_no_mark(name, '=');
    assert((seq![name] + more).skip(1) =~= more);
    assert((seq![name] + more)[0] == name);
}

} // verus!
