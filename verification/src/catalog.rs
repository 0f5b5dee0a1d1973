//! Packages of a pinned catalogue: how one is asked for, and what is estimated
//! of it before anyone approves it.
use vstd::prelude::*;

use crate::protocol::{is_package_name, package_name};
use crate::text::{
    alpha, chars, contains, cut, digit, has_part, holds, is_alpha, is_digit, lines, lines_of, same,
    split_once, texts, words, words_of,
};

verus! {

/// What is estimated of a package. The download is compressed: it is not the
/// size in the store.
pub struct Preview {
    pub in_store: bool,
    pub download: Option<String>,
    pub build_required: bool,
}

/// The output of a package that is used, and its path in the store.
pub struct Selection {
    pub output: String,
    pub path: String,
}

/// The attribute of a package in a flake.
pub fn attribute(flake: &str, name: &str) -> (r: String)
    ensures
        r@ == flake@ + "#legacyPackages.x86_64-linux."@ + name@,
{
    let mut r = String::from_str(flake);
    r.push_str("#legacyPackages.x86_64-linux.");
    r.push_str(name);
    r
}

/// What is evaluated of a package: its binary output where it has one.
pub open spec fn selection_expression() -> Seq<char> {
    "p: if builtins.isAttrs p && (p.type or null) == \"derivation\" then let q = p.bin or p; in { output = q.outputName; path = q.outPath; } else throw \"attribute is not a package derivation\""@
}

pub open spec fn selection_args(flake: Seq<char>, name: Seq<char>, allow_build: bool) -> Seq<
    Seq<char>,
> {
    seq![
        "eval"@,
        "--no-write-lock-file"@,
        "--option"@,
        "allow-import-from-derivation"@,
        if allow_build {
            "true"@
        } else {
            "false"@
        },
        "--json"@,
        flake + "#legacyPackages.x86_64-linux."@ + name,
        "--apply"@,
        selection_expression(),
    ]
}

/// The arguments that select the output of a package, unless its name is none.
pub fn select(flake: &str, name: &str, allow_build: bool) -> (r: Result<Vec<String>, String>)
    ensures
        match r {
            Ok(args) => is_package_name(name@) && texts(args@) == selection_args(
                flake@,
                name@,
                allow_build,
            ),
            Err(e) => !is_package_name(name@) && e@ == "invalid package attribute"@,
        },
{
    if !package_name(name) {
        return Err(String::from_str("invalid package attribute"));
    }
    let args = vec![
        String::from_str("eval"),
        String::from_str("--no-write-lock-file"),
        String::from_str("--option"),
        String::from_str("allow-import-from-derivation"),
        String::from_str(
            if allow_build {
                "true"
            } else {
                "false"
            },
        ),
        String::from_str("--json"),
        attribute(flake, name),
        String::from_str("--apply"),
        String::from_str(
            "p: if builtins.isAttrs p && (p.type or null) == \"derivation\" then let q = p.bin or p; in { output = q.outputName; path = q.outPath; } else throw \"attribute is not a package derivation\"",
        ),
    ];
    assert(texts(args@) =~= selection_args(flake@, name@, allow_build));
    Ok(args)
}

/// Letters, digits and underscores, without a digit at the start.
pub open spec fn is_output_name(s: Seq<char>) -> bool {
    s.len() > 0 && forall|i: int|
        0 <= i < s.len() ==> is_alpha(#[trigger] s[i]) || s[i] == '_' || (i > 0 && is_digit(s[i]))
}

/// Takes a selection whose output has a name that can be asked for.
pub fn selected(selection: Selection) -> (r: Result<Selection, String>)
    ensures
        if is_output_name(selection.output@) {
            r == Ok::<Selection, String>(selection)
        } else {
            r matches Err(e) && e@ == "package has an unsupported output name"@
        },
{
    let c = chars(selection.output.as_str());
    let mut fits: bool = c.len() > 0;
    let mut i: usize = 0;
    while fits && i < c.len()
        invariant
            c@ == selection.output@,
            i <= c@.len(),
            fits ==> c@.len() > 0 && forall|j: int|
                0 <= j < i ==> is_alpha(#[trigger] c@[j]) || c@[j] == '_' || (j > 0 && is_digit(
                    c@[j],
                )),
            !fits ==> !is_output_name(c@),
        decreases c@.len() - i, if fits { 1int } else { 0int },
    {
        if alpha(c[i]) || c[i] == '_' || (i > 0 && digit(c[i])) {
            i += 1;
        } else {
            fits = false;
        }
    }
    if fits {
        Ok(selection)
    } else {
        Err(String::from_str("package has an unsupported output name"))
    }
}

/// The preview of a package that is in the store already.
pub fn stored() -> (r: Preview)
    ensures
        r.in_store && !r.build_required,
        r.download matches Some(d) && d@ == "0 B"@,
{
    Preview { in_store: true, download: Some(String::from_str("0 B")), build_required: false }
}

/// The arguments that ask what getting an output would take.
pub fn estimate_args(flake: &str, name: &str, output: &str) -> (r: Vec<String>)
    ensures
        texts(r@) == seq![
            "build"@,
            "--dry-run"@,
            "--no-link"@,
            "--no-write-lock-file"@,
            "--log-format"@,
            "raw"@,
            "--option"@,
            "allow-import-from-derivation"@,
            "false"@,
            flake@ + "#legacyPackages.x86_64-linux."@ + name@ + "^"@ + output@,
        ],
{
    let mut target = attribute(flake, name);
    target.push_str("^");
    target.push_str(output);
    let r = vec![
        String::from_str("build"),
        String::from_str("--dry-run"),
        String::from_str("--no-link"),
        String::from_str("--no-write-lock-file"),
        String::from_str("--log-format"),
        String::from_str("raw"),
        String::from_str("--option"),
        String::from_str("allow-import-from-derivation"),
        String::from_str("false"),
        target,
    ];
    assert(texts(r@) =~= seq![
        "build"@,
        "--dry-run"@,
        "--no-link"@,
        "--no-write-lock-file"@,
        "--log-format"@,
        "raw"@,
        "--option"@,
        "allow-import-from-derivation"@,
        "false"@,
        flake@ + "#legacyPackages.x86_64-linux."@ + name@ + "^"@ + output@,
    ]);
    r
}

// ---------------------------------------------------------------------------
// The summary of an estimate
// ---------------------------------------------------------------------------

pub open spec fn is_unit(s: Seq<char>) -> bool {
    s == "B"@ || s == "KiB"@ || s == "MiB"@ || s == "GiB"@ || s == "TiB"@
}

/// The size that a line of the summary gives of the download: a number and a unit.
pub open spec fn size_in(line: Seq<char>) -> Option<Seq<char>> {
    match cut(line, "will be fetched ("@) {
        None => None,
        Some((before, rest)) => match cut(rest, " download,"@) {
            None => None,
            Some((size, after)) => {
                let parts = words_of(size);
                if parts.len() == 2 && is_unit(parts[1]) {
                    Some(size)
                } else {
                    None
                }
            },
        },
    }
}

/// The number of such a size.
pub open spec fn number_in(size: Seq<char>) -> Seq<char> {
    words_of(size)[0]
}

/// The last size, among the first `k` lines, whose number is one of those accepted.
pub open spec fn download_of(ls: Seq<Seq<char>>, accepted: Seq<Seq<char>>, k: nat) -> Option<
    Seq<char>,
>
    decreases k,
{
    if k == 0 {
        None
    } else {
        match size_in(ls[k - 1]) {
            Some(size) => if accepted.contains(number_in(size)) {
                Some(size)
            } else {
                download_of(ls, accepted, (k - 1) as nat)
            },
            None => download_of(ls, accepted, (k - 1) as nat),
        }
    }
}

pub open spec fn builds(ls: Seq<Seq<char>>) -> bool {
    exists|i: int| 0 <= i < ls.len() && #[trigger] has_part(ls[i], "will be built:"@)
}

fn find_size(line: &str) -> (r: Option<(String, String)>)
    ensures
        match r {
            Some((size, number)) => size_in(line@) == Some(size@) && number@ == number_in(size@),
            None => size_in(line@) is None,
        },
{
    match split_once(line, "will be fetched (") {
        None => None,
        Some((_, rest)) => match split_once(rest.as_str(), " download,") {
            None => None,
            Some((size, _)) => {
                let parts = words(size.as_str());
                assert(parts@.len() == texts(parts@).len());
                if parts.len() != 2 {
                    return None;
                }
                assert(texts(parts@)[1] == parts@[1]@);
                assert(texts(parts@)[0] == parts@[0]@);
                let unit = parts[1].as_str();
                if same(unit, "B") || same(unit, "KiB") || same(unit, "MiB") || same(unit, "GiB")
                    || same(unit, "TiB") {
                    let number = parts[0].clone();
                    Some((size, number))
                } else {
                    None
                }
            },
        },
    }
}

/// The numbers of the sizes that lines give, in order.
pub open spec fn numbers_in(ls: Seq<Seq<char>>) -> Seq<Seq<char>>
    decreases ls.len(),
{
    if ls.len() == 0 {
        Seq::empty()
    } else {
        match size_in(ls.last()) {
            Some(size) => numbers_in(ls.drop_last()).push(number_in(size)),
            None => numbers_in(ls.drop_last()),
        }
    }
}

/// The numbers of the sizes in a summary, one for each line that gives a size.
/// Whether one is a finite amount is for the caller to say.
pub fn summary_numbers(text: &str) -> (r: Vec<String>)
    ensures
        texts(r@) == numbers_in(lines_of(text@)),
{
    let ls = lines(text);
    let ghost all = lines_of(text@);
    let mut r: Vec<String> = Vec::new();
    let mut i: usize = 0;
    assert(texts(r@) =~= numbers_in(all.take(0)));
    while i < ls.len()
        invariant
            all == texts(ls@),
            i <= ls@.len() == all.len(),
            texts(r@) == numbers_in(all.take(i as int)),
        decreases ls@.len() - i,
    {
        assert(all[i as int] == ls@[i as int]@);
        assert(all.take(i + 1).drop_last() =~= all.take(i as int));
        if let Some((_, number)) = find_size(ls[i].as_str()) {
            let ghost before = r@;
            r.push(number);
            assert(texts(r@) =~= texts(before).push(number@));
        }
        i += 1;
    }
    assert(all.take(i as int) =~= all);
    r
}

/// Reads a summary. The download is that of the last line that gives one whose
/// number is accepted; a form of summary that is not known says nothing of it.
pub fn parse_summary(text: &str, accepted: &Vec<String>) -> (r: Preview)
    ensures
        !r.in_store,
        r.build_required == builds(lines_of(text@)),
        match r.download {
            Some(size) => download_of(lines_of(text@), texts(accepted@), lines_of(text@).len())
                == Some(size@),
            None => download_of(lines_of(text@), texts(accepted@), lines_of(text@).len()) is None,
        },
{
    let ls = lines(text);
    let ghost all = lines_of(text@);
    let mut download: Option<String> = None;
    let mut build_required: bool = false;
    let mut i: usize = 0;
    while i < ls.len()
        invariant
            all == texts(ls@),
            i <= ls@.len() == all.len(),
            build_required == exists|j: int|
                0 <= j < i && #[trigger] has_part(all[j], "will be built:"@),
            match download {
                Some(size) => download_of(all, texts(accepted@), i as nat) == Some(size@),
                None => download_of(all, texts(accepted@), i as nat) is None,
            },
        decreases ls@.len() - i,
    {
        assert(all[i as int] == ls@[i as int]@);
        if contains(ls[i].as_str(), "will be built:") {
            assert(has_part(all[i as int], "will be built:"@));
            build_required = true;
        }
        if let Some((size, number)) = find_size(ls[i].as_str()) {
            if holds(accepted, number.as_str()) {
                download = Some(size);
            }
        }
        i += 1;
    }
    Preview { in_store: false, download, build_required }
}

/// A download costs what the last line says that gives a size that is one.
pub proof fn the_last_size_counts(ls: Seq<Seq<char>>, accepted: Seq<Seq<char>>, k: nat, i: int)
    requires
        k <= ls.len(),
        0 <= i < k,
        size_in(ls[i]) matches Some(size) && accepted.contains(number_in(size)),
        forall|j: int|
            i < j < k ==> !(size_in(#[trigger] ls[j]) matches Some(size) && accepted.contains(
                number_in(size),
            )),
    ensures
        download_of(ls, accepted, k) == size_in(ls[i]),
    decreases k,
{
    if i < k - 1 {
        assert(!(size_in(ls[k - 1]) matches Some(size) && accepted.contains(number_in(size))));
        the_last_size_counts(ls, accepted, (k - 1) as nat, i);
    }
}

/// Where no line gives a size that is one, the cost is not known.
pub proof fn no_size_is_made_up(ls: Seq<Seq<char>>, accepted: Seq<Seq<char>>, k: nat)
    requires
        k <= ls.len(),
        forall|j: int|
            0 <= j < k ==> !(size_in(#[trigger] ls[j]) matches Some(size) && accepted.contains(
                number_in(size),
            )),
    ensures
        download_of(ls, accepted, k) is None,
    decreases k,
{
    if k > 0 {
        assert(!(size_in(ls[k - 1]) matches Some(size) && accepted.contains(number_in(size))));
        no_size_is_made_up(ls, accepted, (k - 1) as nat);
    }
}

} // verus!
