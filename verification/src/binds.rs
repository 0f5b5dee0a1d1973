//! What of the host a session is given at its start: ordinary mounts of declared paths,
//! never paths that a sandbox asked for.
use vstd::prelude::*;

use crate::arguments::{list, put, put_range, put_three, put_two, with_between};
use crate::paths::{
    absolute, add_path, components, components_of, in_order, is_absolute, join, joined, lies_under,
    normal, overlap, overlaps, place, rebuilt, same_path, same_paths, under,
};
use crate::store::{lemma_store_components, root_of, store_root, told};
use crate::text::{
    alnum, alpha, chars, decimal, decimal_of, digit, find_char, first_index, holds, is_alnum, is_alpha,
    is_digit, lemma_first_index, same, span, texts,
};

verus! {

/// What a configuration declares.
pub struct Declarations {
    pub rw_dirs: Vec<String>,
    pub rw_files: Vec<String>,
    pub ro_dirs: Vec<String>,
    pub ro_files: Vec<String>,
}

impl Default for Declarations {
    fn default() -> (r: Self)
        ensures
            r.rw_dirs@.len() == 0,
            r.rw_files@.len() == 0,
            r.ro_dirs@.len() == 0,
            r.ro_files@.len() == 0,
    {
        Declarations {
            rw_dirs: Vec::new(),
            rw_files: Vec::new(),
            ro_dirs: Vec::new(),
            ro_files: Vec::new(),
        }
    }
}

/// A declared path, and as what it is declared.
pub struct Wanted {
    pub path: String,
    pub directory: bool,
    pub readonly: bool,
}

/// What is mounted: the object that a descriptor holds open, under a path.
pub struct Mount {
    pub descriptor: u32,
    pub source: String,
    pub destination: String,
    pub readonly: bool,
}

/// What a session is given. Links into the store that lie in given directories are
/// given with what they lead to; they are kept in order, each once.
pub struct Plan {
    pub home: String,
    pub mounts: Vec<Mount>,
    pub landings: Vec<String>,
    pub targets: Vec<String>,
}

/// The value of a variable among others.
pub open spec fn value_in(vars: Seq<(String, String)>, name: Seq<char>) -> Option<Seq<char>>
    decreases vars.len(),
{
    if vars.len() == 0 {
        None
    } else if vars[0].0@ == name {
        Some(vars[0].1@)
    } else {
        value_in(vars.drop_first(), name)
    }
}

/// The value of a variable among others.
pub fn value<'a>(vars: &'a Vec<(String, String)>, name: &str) -> (r: Option<&'a String>)
    ensures
        match value_in(vars@, name@) {
            Some(v) => r matches Some(t) && t@ == v,
            None => r is None,
        },
{
    let mut k: usize = 0;
    assert(vars@.skip(0) =~= vars@);
    while k < vars.len()
        invariant
            k <= vars@.len(),
            value_in(vars@.skip(k as int), name@) == value_in(vars@, name@),
        decreases vars@.len() - k,
    {
        if same(&vars[k].0, name) {
            return Some(&vars[k].1);
        }
        assert(vars@.skip(k as int).drop_first() =~= vars@.skip(k + 1));
        k += 1;
    }
    None
}

/// The name of a variable.
pub open spec fn is_variable(s: Seq<char>) -> bool {
    s.len() > 0 && forall|i: int| 0 <= i < s.len() ==> variable_char(#[trigger] s[i], i)
}

pub open spec fn variable_char(c: char, i: int) -> bool {
    is_alpha(c) || c == '_' || (i > 0 && is_digit(c))
}

fn variable(s: &str) -> (r: bool)
    ensures
        r == is_variable(s@),
{
    let v = chars(s);
    let mut i: usize = 0;
    while i < v.len()
        invariant
            v@ == s@,
            i <= v@.len(),
            forall|k: int| 0 <= k < i ==> variable_char(#[trigger] v@[k], k),
        decreases v@.len() - i,
    {
        let c = v[i];
        if !alpha(c) && c != '_' && !(i > 0 && digit(c)) {
            assert(!variable_char(v@[i as int], i as int));
            return false;
        }
        i += 1;
    }
    v.len() > 0
}

/// How many characters at the start of a text can belong to a name.
pub open spec fn name_length(s: Seq<char>) -> int
    decreases s.len(),
{
    if s.len() > 0 && (is_alnum(s[0]) || s[0] == '_') {
        1 + name_length(s.drop_first())
    } else {
        0
    }
}

proof fn lemma_name_length(s: Seq<char>)
    ensures
        0 <= name_length(s) <= s.len(),
    decreases s.len(),
{
    if s.len() > 0 {
        lemma_name_length(s.drop_first());
    }
}

/// The name behind a `$`, bare or in braces, and what follows it.
pub open spec fn named(s: Seq<char>) -> Option<(Seq<char>, Seq<char>)> {
    if s.len() > 0 && s[0] == '{' {
        let end = first_index(s, '}');
        if 0 <= end < s.len() {
            Some((s.subrange(1, end), s.skip(end + 1)))
        } else {
            None
        }
    } else {
        Some((s.take(name_length(s)), s.skip(name_length(s))))
    }
}

/// What follows a name is no longer than where the name stands.
pub proof fn lemma_named(s: Seq<char>)
    ensures
        named(s) matches Some((_, tail)) ==> tail.len() <= s.len(),
{
    lemma_first_index(s, '}');
    lemma_name_length(s);
}

/// A text with more in front of it, unless it is an error.
pub open spec fn behind(front: Seq<char>, r: Result<Seq<char>, Seq<char>>) -> Result<
    Seq<char>,
    Seq<char>,
> {
    match r {
        Ok(t) => Ok(front + t),
        Err(e) => Err(e),
    }
}

/// A text with its variables replaced by their values. A value is taken as it is.
pub open spec fn replaced(s: Seq<char>, vars: Seq<(String, String)>) -> Result<
    Seq<char>,
    Seq<char>,
>
    decreases s.len(),
{
    let at = first_index(s, '$');
    if at < 0 || at >= s.len() {
        Ok(s)
    } else {
        let rest = s.skip(at + 1);
        match named(rest) {
            None => Err("unclosed variable in host bind path"@),
            Some((name, tail)) => if !is_variable(name) {
                Err("host bind paths accept $VAR or ${VAR}, not shell expressions"@)
            } else {
                proof {
                    lemma_named(rest);
                }
                match value_in(vars, name) {
                    None => Err("unset host bind variable: "@ + name),
                    Some(v) => behind(s.take(at) + v, replaced(tail, vars)),
                }
            },
        }
    }
}

/// A path with the home directory and the variables filled in.
pub open spec fn filled(s: Seq<char>, vars: Seq<(String, String)>) -> Result<
    Seq<char>,
    Seq<char>,
> {
    if s.len() > 0 && s[0] == '~' {
        if s.len() > 1 && s[1] != '/' {
            Err("host bind paths do not support ~user; use $HOME"@)
        } else {
            match value_in(vars, "HOME"@) {
                None => Err("HOME is unset"@),
                Some(home) => behind(home, replaced(s.skip(1), vars)),
            }
        }
    } else {
        replaced(s, vars)
    }
}

/// A path that a declaration can mean: it begins at the root and never goes up.
pub open spec fn is_bindable(path: Seq<char>) -> bool {
    is_absolute(path) && !components_of(path).contains(".."@) && !path.contains('\0')
}

/// The path that a declaration means.
pub open spec fn expansion(s: Seq<char>, vars: Seq<(String, String)>) -> Result<
    Seq<char>,
    Seq<char>,
> {
    match filled(s, vars) {
        Err(e) => Err(e),
        Ok(path) => if is_bindable(path) {
            Ok(normal(path))
        } else {
            Err("host bind path must be absolute without '..': "@ + s)
        },
    }
}

/// The name behind a `$` in a text, and where what follows it begins.
fn read_name(v: &Vec<char>, from: usize) -> (r: Option<(String, usize)>)
    requires
        from <= v@.len(),
    ensures
        match named(v@.skip(from as int)) {
            None => r is None,
            Some((name, tail)) => r matches Some((n, next)) && n@ == name && from <= next <= v@.len()
                && v@.skip(next as int) == tail,
        },
{
    let ghost s = v@.skip(from as int);
    if from < v.len() && v[from] == '{' {
        let end = find_char(v, from, v.len(), '}');
        assert(v@.subrange(from as int, v@.len() as int) =~= s);
        proof {
            lemma_first_index(s, '}');
        }
        if end == v.len() {
            return None;
        }
        let name = span(v, from + 1, end);
        assert(name@ =~= s.subrange(1, end - from));
        assert(v@.skip(end + 1) =~= s.skip(end - from + 1));
        return Some((name, end + 1));
    }
    let mut end: usize = from;
    assert(s.skip(0) =~= s);
    while end < v.len() && (alnum(v[end]) || v[end] == '_')
        invariant
            s == v@.skip(from as int),
            from <= end <= v@.len(),
            name_length(s) == end - from + name_length(s.skip(end - from)),
        decreases v@.len() - end,
    {
        assert(s.skip(end - from).drop_first() =~= s.skip(end - from + 1));
        end += 1;
    }
    let name = span(v, from, end);
    assert(name@ =~= s.take(end - from));
    assert(v@.skip(end as int) =~= s.skip(end - from));
    Some((name, end))
}

/// Fills in the variables of a text behind what was written already.
fn fill(v: &Vec<char>, start: usize, vars: &Vec<(String, String)>, output: &mut String) -> (r:
    Result<(), String>)
    requires
        start <= v@.len(),
    ensures
        match behind(old(output)@, replaced(v@.skip(start as int), vars@)) {
            Ok(t) => r is Ok && final(output)@ == t,
            Err(e) => r matches Err(t) && t@ == e,
        },
{
    let ghost all = behind(output@, replaced(v@.skip(start as int), vars@));
    let mut from: usize = start;
    loop
        invariant
            from <= v@.len(),
            behind(output@, replaced(v@.skip(from as int), vars@)) == all,
            all == behind(old(output)@, replaced(v@.skip(start as int), vars@)),
        decreases v@.len() - from,
    {
        let ghost s = v@.skip(from as int);
        let at = find_char(v, from, v.len(), '$');
        assert(v@.subrange(from as int, v@.len() as int) =~= s);
        proof {
            lemma_first_index(s, '$');
        }
        let front = span(v, from, at);
        assert(front@ =~= s.take(at - from));
        let ghost before = output@;
        output.push_str(&front);
        if at == v.len() {
            assert(s.take(at - from) =~= s);
            return Ok(());
        }
        assert(v@.skip(at + 1) =~= s.skip(at - from + 1));
        match read_name(v, at + 1) {
            None => {
                return Err(String::from_str("unclosed variable in host bind path"));
            },
            Some((name, next)) => {
                if !variable(&name) {
                    return Err(
                        String::from_str(
                            "host bind paths accept $VAR or ${VAR}, not shell expressions",
                        ),
                    );
                }
                match value(vars, &name) {
                    None => {
                        let mut e = String::from_str("unset host bind variable: ");
                        e.push_str(&name);
                        return Err(e);
                    },
                    Some(text) => {
                        output.push_str(text);
                        let ghost tail = v@.skip(next as int);
                        assert(match replaced(tail, vars@) {
                            Ok(t) => output@ + t =~= before + (s.take(at - from) + text@ + t),
                            Err(_) => true,
                        });
                    },
                }
                from = next;
            },
        }
    }
}

/// The path that a declaration means. Only the home directory and variables are filled
/// in, and nothing is evaluated.
pub fn expand(value_text: &str, vars: &Vec<(String, String)>) -> (r: Result<String, String>)
    ensures
        told(r) == expansion(value_text@, vars@),
{
    let v = chars(value_text);
    let mut output = String::new();
    let mut start: usize = 0;
    if v.len() > 0 && v[0] == '~' {
        if v.len() > 1 && v[1] != '/' {
            return Err(String::from_str("host bind paths do not support ~user; use $HOME"));
        }
        match value(vars, "HOME") {
            None => {
                return Err(String::from_str("HOME is unset"));
            },
            Some(home) => {
                output.push_str(home);
                assert(output@ =~= home@);
            },
        }
        start = 1;
    }
    assert(v@.skip(0) =~= v@);
    let ghost front = output@;
    fill(&v, start, vars, &mut output)?;
    proof {
        let r = replaced(v@.skip(start as int), vars@);
        if start == 0 {
            assert(r matches Ok(t) ==> front + t =~= t);
        }
    }
    let parts = components(&output);
    let bytes = chars(&output);
    let nul = find_char(&bytes, 0, bytes.len(), '\0');
    proof {
        assert(bytes@.subrange(0, bytes@.len() as int) =~= output@);
        lemma_first_index(output@, '\0');
    }
    if !absolute(&output) || holds(&parts, "..") || nul < bytes.len() {
        let mut e = String::from_str("host bind path must be absolute without '..': ");
        e.push_str(value_text);
        return Err(e);
    }
    assert(texts(parts@).len() == parts@.len());
    Ok(rebuilt(&parts))
}

/// The trees that make up the boundary of a sandbox: nothing of the host covers them or
/// is shown from inside them.
pub open spec fn reserved() -> Seq<Seq<char>> {
    seq!["/proc"@, "/sys"@, "/dev"@, "/nix"@, "/run"@, "/bin"@, "/workspace"@]
}

/// The first of some paths that overlaps another.
pub open spec fn first_overlap(path: Seq<char>, others: Seq<Seq<char>>) -> Option<Seq<char>>
    decreases others.len(),
{
    if others.len() == 0 {
        None
    } else if overlap(path, others[0]) {
        Some(others[0])
    } else {
        first_overlap(path, others.drop_first())
    }
}

pub open spec fn overlap_error(path: Seq<char>, other: Seq<char>) -> Seq<char> {
    "host bind "@ + path + " overlaps protected path "@ + other
}

/// Whether a path may be given, with other trees kept private.
pub fn validate(path: &str, private: &Vec<String>) -> (r: Result<(), String>)
    ensures
        match first_overlap(path@, reserved() + texts(private@)) {
            None => r is Ok,
            Some(other) => r matches Err(e) && e@ == overlap_error(path@, other),
        },
{
    let trees: [&str; 7] = ["/proc", "/sys", "/dev", "/nix", "/run", "/bin", "/workspace"];
    let ghost all = reserved() + texts(private@);
    let mut k: usize = 0;
    assert(all.skip(0) =~= all);
    while k < 7
        invariant
            k <= 7,
            trees@.len() == 7,
            forall|i: int| 0 <= i < 7 ==> #[trigger] trees@[i]@ == all[i],
            all.len() >= 7,
            all == reserved() + texts(private@),
            first_overlap(path@, all.skip(k as int)) == first_overlap(path@, all),
        decreases 7 - k,
    {
        assert(trees@[k as int]@ == all[k as int]);
        if overlaps(path, trees[k]) {
            return Err(overlapping(path, trees[k]));
        }
        assert(all.skip(k as int).drop_first() =~= all.skip(k + 1));
        k += 1;
    }
    let mut n: usize = 0;
    while n < private.len()
        invariant
            n <= private@.len(),
            all == reserved() + texts(private@),
            first_overlap(path@, all.skip(7 + n)) == first_overlap(path@, all),
        decreases private@.len() - n,
    {
        assert(all[7 + n] == private@[n as int]@);
        if overlaps(path, &private[n]) {
            return Err(overlapping(path, &private[n]));
        }
        assert(all.skip(7 + n).drop_first() =~= all.skip(8 + n));
        n += 1;
    }
    assert(all.skip(7 + n) =~= Seq::empty());
    Ok(())
}

fn overlapping(path: &str, other: &str) -> (r: String)
    ensures
        r@ == overlap_error(path@, other@),
{
    let mut e = String::from_str("host bind ");
    e.push_str(path);
    e.push_str(" overlaps protected path ");
    e.push_str(other);
    e
}

/// A declaration: its path, and whether it is a directory and is only read.
pub open spec fn as_wanted(paths: Seq<String>, directory: bool, readonly: bool) -> Seq<
    (Seq<char>, bool, bool),
> {
    texts(paths).map_values(|p: Seq<char>| (p, directory, readonly))
}

/// Everything that is declared, in the order in which it is mounted.
pub open spec fn declared(d: Declarations) -> Seq<(Seq<char>, bool, bool)> {
    as_wanted(d.rw_dirs@, true, false) + as_wanted(d.ro_dirs@, true, true) + as_wanted(
        d.rw_files@,
        false,
        false,
    ) + as_wanted(d.ro_files@, false, true)
}

pub open spec fn wanted_view(w: Wanted) -> (Seq<char>, bool, bool) {
    (w.path@, w.directory, w.readonly)
}

pub open spec fn all_wanted(v: Seq<Wanted>) -> Seq<(Seq<char>, bool, bool)> {
    v.map_values(|w: Wanted| wanted_view(w))
}

fn want(v: &mut Vec<Wanted>, paths: &Vec<String>, directory: bool, readonly: bool)
    ensures
        all_wanted(final(v)@) == all_wanted(old(v)@) + as_wanted(paths@, directory, readonly),
{
    let ghost all = as_wanted(paths@, directory, readonly);
    let mut k: usize = 0;
    assert(all_wanted(v@) =~= all_wanted(v@) + all.take(0));
    while k < paths.len()
        invariant
            k <= paths@.len(),
            all == as_wanted(paths@, directory, readonly),
            all_wanted(v@) == all_wanted(old(v)@) + all.take(k as int),
        decreases paths@.len() - k,
    {
        let ghost before = v@;
        let path = paths[k].clone();
        v.push(Wanted { path, directory, readonly });
        assert(all.take(k + 1) =~= all.take(k as int).push(all[k as int]));
        assert(all_wanted(v@) =~= all_wanted(before).push(all[k as int]));
        assert(all_wanted(v@) =~= all_wanted(old(v)@) + all.take(k + 1));
        k += 1;
    }
    assert(all.take(k as int) =~= all);
}

impl Declarations {
    /// Everything that is declared, in the order in which it is mounted.
    pub fn wanted(&self) -> (r: Vec<Wanted>)
        ensures
            all_wanted(r@) == declared(*self),
    {
        let mut v: Vec<Wanted> = Vec::new();
        want(&mut v, &self.rw_dirs, true, false);
        want(&mut v, &self.ro_dirs, true, true);
        want(&mut v, &self.rw_files, false, false);
        want(&mut v, &self.ro_files, false, true);
        assert(all_wanted(v@) =~= declared(*self));
        v
    }
}

/// The outcome of a test, by its text.
pub open spec fn refusal(r: Result<(), String>) -> Option<Seq<char>> {
    match r {
        Ok(_) => None,
        Err(e) => Some(e@),
    }
}

/// Why a path may not be given, if so.
pub open spec fn invalid(path: Seq<char>, private: Seq<Seq<char>>) -> Option<Seq<char>> {
    match first_overlap(path, reserved() + private) {
        None => None,
        Some(other) => Some(overlap_error(path, other)),
    }
}

/// Where a declaration is mounted.
pub open spec fn place_for(
    path: Seq<char>,
    vars: Seq<(String, String)>,
    private: Seq<Seq<char>>,
) -> Result<Seq<char>, Seq<char>> {
    match expansion(path, vars) {
        Err(e) => Err(e),
        Ok(p) => match invalid(p, private) {
            Some(e) => Err(e),
            None => Ok(p),
        },
    }
}

/// Where a declaration is mounted.
pub fn destination(path: &str, vars: &Vec<(String, String)>, private: &Vec<String>) -> (r: Result<
    String,
    String,
>)
    ensures
        told(r) == place_for(path@, vars@, texts(private@)),
{
    match expand(path, vars) {
        Err(e) => Err(e),
        Ok(p) => match validate(&p, private) {
            Err(e) => Err(e),
            Ok(_) => Ok(p),
        },
    }
}

/// Where some mounts stand.
pub open spec fn places(v: Seq<Mount>) -> Seq<Seq<char>> {
    v.map_values(|m: Mount| m.destination@)
}

/// A path overlaps one of others.
pub open spec fn overlaps_any(path: Seq<char>, others: Seq<Seq<char>>) -> bool {
    exists|i: int| 0 <= i < others.len() && overlap(path, #[trigger] others[i])
}

/// Why what was opened for a declaration is not mounted, if so.
pub open spec fn mount_error(
    p: Plan,
    w: Wanted,
    destination: Seq<char>,
    source: Seq<char>,
    directory: bool,
    file: bool,
    private: Seq<Seq<char>>,
) -> Option<Seq<char>> {
    if lies_under(source, "/nix/store"@) && root_of(source) is Err {
        Some(root_of(source)->Err_0)
    } else if lies_under(source, "/nix/store"@) && !w.readonly {
        Some("Nix store bind sources must be read-only"@)
    } else if !lies_under(source, "/nix/store"@) && invalid(source, private) is Some {
        invalid(source, private)
    } else if w.directory && !directory {
        Some("host bind "@ + destination + " must be a directory"@)
    } else if !w.directory && !file {
        Some("host bind "@ + destination + " must be a regular file"@)
    } else if overlaps_any(destination, places(p.mounts@)) {
        Some("overlapping host bind destinations are not supported: "@ + destination)
    } else {
        None
    }
}

impl Plan {
    /// Links are kept in order, each with what it leads to.
    pub open spec fn wf(&self) -> bool {
        self.landings@.len() == self.targets@.len() && in_order(texts(self.landings@))
    }

    /// A plan that gives nothing yet.
    pub fn new(vars: &Vec<(String, String)>) -> (r: Result<Plan, String>)
        ensures
            match place_for("$HOME"@, vars@, Seq::empty()) {
                Err(e) => r matches Err(t) && t@ == e,
                Ok(home) => r matches Ok(p) && p.wf() && p.home@ == home && p.mounts@.len() == 0
                    && p.landings@.len() == 0,
            },
    {
        let none: Vec<String> = Vec::new();
        assert(texts(none@) =~= Seq::empty());
        match destination("$HOME", vars, &none) {
            Err(e) => Err(e),
            Ok(home) => Ok(
                Plan { home, mounts: Vec::new(), landings: Vec::new(), targets: Vec::new() },
            ),
        }
    }

    fn taken(&self, destination: &str) -> (r: bool)
        ensures
            r == overlaps_any(destination@, places(self.mounts@)),
    {
        let ghost s = places(self.mounts@);
        let mut k: usize = 0;
        while k < self.mounts.len()
            invariant
                k <= self.mounts@.len(),
                s == places(self.mounts@),
                forall|i: int| 0 <= i < k ==> !overlap(destination@, #[trigger] s[i]),
            decreases self.mounts@.len() - k,
        {
            assert(s[k as int] == self.mounts@[k as int].destination@);
            if overlaps(destination, &self.mounts[k].destination) {
                return true;
            }
            k += 1;
        }
        false
    }

    /// Mounts what was opened for a declaration: the object's own path and kind decide,
    /// not the name by which it was found. What is in the store is only read.
    pub fn mount(
        &mut self,
        wanted: &Wanted,
        destination: &str,
        source: &str,
        descriptor: u32,
        directory: bool,
        file: bool,
        private: &Vec<String>,
    ) -> (r: Result<(), String>)
        ensures
            refusal(r) == mount_error(
                *old(self),
                *wanted,
                destination@,
                source@,
                directory,
                file,
                texts(private@),
            ),
            r is Err ==> *final(self) == *old(self),
            r is Ok ==> {
                &&& *final(self) == (Plan { mounts: final(self).mounts, ..*old(self) })
                &&& final(self).mounts@.len() == old(self).mounts@.len() + 1
                &&& final(self).mounts@.drop_last() == old(self).mounts@
                &&& final(self).mounts@.last().descriptor == descriptor
                &&& final(self).mounts@.last().source@ == source@
                &&& final(self).mounts@.last().destination@ == destination@
                &&& final(self).mounts@.last().readonly == wanted.readonly
            },
    {
        if under(source, "/nix/store") {
            match store_root(source) {
                Err(e) => {
                    return Err(e);
                },
                Ok(_) => {},
            }
            if !wanted.readonly {
                return Err(String::from_str("Nix store bind sources must be read-only"));
            }
        } else {
            validate(source, private)?;
        }
        if (wanted.directory && !directory) || (!wanted.directory && !file) {
            let mut e = String::from_str("host bind ");
            e.push_str(destination);
            if wanted.directory {
                e.push_str(" must be a directory");
            } else {
                e.push_str(" must be a regular file");
            }
            return Err(e);
        }
        if self.taken(destination) {
            let mut e = String::from_str("overlapping host bind destinations are not supported: ");
            e.push_str(destination);
            return Err(e);
        }
        self.mounts.push(
            Mount {
                descriptor,
                source: String::from_str(source),
                destination: String::from_str(destination),
                readonly: wanted.readonly,
            },
        );
        assert(self.mounts@.drop_last() =~= old(self).mounts@);
        Ok(())
    }

    /// Keeps a link into the store and what it leads to. What leads out of the store is
    /// passed over. Says whether it was kept.
    pub fn linked(&mut self, landing: &str, target: &str) -> (r: Result<bool, String>)
        requires
            old(self).wf(),
        ensures
            final(self).wf(),
            *final(self) == (Plan {
                landings: final(self).landings,
                targets: final(self).targets,
                ..*old(self)
            }),
            if !lies_under(target@, "/nix/store"@) {
                r matches Ok(false)
            } else if root_of(landing@) is Err {
                r matches Err(e) && e@ == root_of(landing@)->Err_0
            } else if root_of(target@) is Err {
                r matches Err(e) && e@ == root_of(target@)->Err_0
            } else {
                r matches Ok(true)
            },
            if r matches Ok(true) {
                leads_to(*final(self), landing@, target@) && forall|a: Seq<char>, t: Seq<char>|
                    !same_path(a, landing@) ==> (leads_to(*final(self), a, t) <==> leads_to(
                        *old(self),
                        a,
                        t,
                    ))
            } else {
                *final(self) == *old(self)
            },
    {
        if !under(target, "/nix/store") {
            return Ok(false);
        }
        match store_root(landing) {
            Err(e) => {
                return Err(e);
            },
            Ok(_) => {},
        }
        match store_root(target) {
            Err(e) => {
                return Err(e);
            },
            Ok(_) => {},
        }
        self.put_link(landing, target);
        Ok(true)
    }

    fn put_link(&mut self, landing: &str, target: &str)
        requires
            old(self).wf(),
        ensures
            final(self).wf(),
            *final(self) == (Plan {
                landings: final(self).landings,
                targets: final(self).targets,
                ..*old(self)
            }),
            leads_to(*final(self), landing@, target@),
            forall|a: Seq<char>, t: Seq<char>|
                !same_path(a, landing@) ==> (leads_to(*final(self), a, t) <==> leads_to(
                    *old(self),
                    a,
                    t,
                )),
    {
        let (k, found) = place(&self.landings, landing);
        let ghost s = texts(self.landings@);
        if found {
            self.targets.set(k, String::from_str(target));
            assert(is_link(*self, k as int, landing@, target@));
            assert forall|a: Seq<char>, t: Seq<char>| !same_path(a, landing@) implies (leads_to(
                *self,
                a,
                t,
            ) <==> leads_to(*old(self), a, t)) by {
                if leads_to(*self, a, t) {
                    let i = choose|i: int| is_link(*self, i, a, t);
                    assert(i != k);
                    assert(is_link(*old(self), i, a, t));
                }
                if leads_to(*old(self), a, t) {
                    let i = choose|i: int| is_link(*old(self), i, a, t);
                    assert(i != k);
                    assert(is_link(*self, i, a, t));
                }
            }
            return ;
        }
        self.landings.insert(k, String::from_str(landing));
        self.targets.insert(k, String::from_str(target));
        let ghost t2 = texts(self.landings@);
        assert(t2 =~= s.insert(k as int, landing@));
        assert forall|i: int, j: int| 0 <= i < j < t2.len() implies crate::paths::path_before(
            #[trigger] t2[i],
            #[trigger] t2[j],
        ) by {
            let a = if i < k { i } else { i - 1 };
            let b = if j < k { j } else { j - 1 };
            if i == k {
                assert(t2[j] == s[b]);
            } else if j == k {
                assert(t2[i] == s[a]);
            } else {
                assert(t2[i] == s[a] && t2[j] == s[b]);
            }
        }
        assert(is_link(*self, k as int, landing@, target@));
        assert forall|a: Seq<char>, t: Seq<char>| !same_path(a, landing@) implies (leads_to(
            *self,
            a,
            t,
        ) <==> leads_to(*old(self), a, t)) by {
            if leads_to(*self, a, t) {
                let i = choose|i: int| is_link(*self, i, a, t);
                assert(i != k);
                let j = if i < k { i } else { i - 1 };
                assert(is_link(*old(self), j, a, t));
            }
            if leads_to(*old(self), a, t) {
                let i = choose|i: int| is_link(*old(self), i, a, t);
                let j = if i < k { i } else { i + 1 };
                assert(is_link(*self, j, a, t));
            }
        }
    }

    /// Mounts the directory that the session works in, in front of everything else: what
    /// is declared inside it stays as it is declared.
    pub fn add_working_directory(
        &mut self,
        cwd: &str,
        source: &str,
        descriptor: u32,
        directory: bool,
        private: &Vec<String>,
    ) -> (r: Result<(), String>)
        ensures
            refusal(r) == if invalid(cwd@, texts(private@)) is Some {
                invalid(cwd@, texts(private@))
            } else if invalid(source@, texts(private@)) is Some {
                invalid(source@, texts(private@))
            } else if !directory {
                Some("working directory must be a directory"@)
            } else {
                None
            },
            r is Err ==> *final(self) == *old(self),
            r is Ok ==> {
                &&& *final(self) == (Plan { mounts: final(self).mounts, ..*old(self) })
                &&& final(self).mounts@.len() == old(self).mounts@.len() + 1
                &&& final(self).mounts@.drop_first() == old(self).mounts@
                &&& final(self).mounts@[0].descriptor == descriptor
                &&& final(self).mounts@[0].source@ == source@
                &&& final(self).mounts@[0].destination@ == cwd@
                &&& !final(self).mounts@[0].readonly
            },
    {
        validate(cwd, private)?;
        validate(source, private)?;
        if !directory {
            return Err(String::from_str("working directory must be a directory"));
        }
        self.mounts.insert(
            0,
            Mount {
                descriptor,
                source: String::from_str(source),
                destination: String::from_str(cwd),
                readonly: false,
            },
        );
        assert(self.mounts@.drop_first() =~= old(self).mounts@);
        Ok(())
    }

    /// The descriptors of what is mounted.
    pub fn source_fds(&self) -> (r: Vec<u32>)
        ensures
            r@ == descriptors(self.mounts@),
    {
        let mut r: Vec<u32> = Vec::new();
        let mut k: usize = 0;
        while k < self.mounts.len()
            invariant
                k <= self.mounts@.len(),
                r@ == descriptors(self.mounts@).take(k as int),
            decreases self.mounts@.len() - k,
        {
            r.push(self.mounts[k].descriptor);
            assert(r@ =~= descriptors(self.mounts@).take(k + 1));
            k += 1;
        }
        assert(r@ =~= descriptors(self.mounts@));
        r
    }
}

pub open spec fn descriptors(v: Seq<Mount>) -> Seq<u32> {
    v.map_values(|m: Mount| m.descriptor)
}

pub open spec fn is_link(p: Plan, i: int, landing: Seq<char>, target: Seq<char>) -> bool {
    0 <= i < p.landings@.len() && same_path(p.landings@[i]@, landing) && p.targets@[i]@ == target
}

/// A plan has a link that leads to something.
pub open spec fn leads_to(p: Plan, landing: Seq<char>, target: Seq<char>) -> bool {
    exists|i: int| is_link(p, i, landing, target)
}

/// Where a link of a given directory lands, if that is in the store and is looked up
/// without going up.
pub open spec fn landing_of(holder: Seq<char>, link: Seq<char>) -> Option<Seq<char>> {
    let landing = joined(holder, link);
    if lies_under(landing, "/nix/store"@) && !components_of(landing).contains(".."@) {
        Some(landing)
    } else {
        None
    }
}

/// Where a link of a given directory lands, if that is in the store.
pub fn landing(holder: &str, link: &str) -> (r: Option<String>)
    ensures
        match landing_of(holder@, link@) {
            Some(l) => r matches Some(t) && t@ == l,
            None => r is None,
        },
{
    let l = join(holder, link);
    let parts = components(&l);
    if under(&l, "/nix/store") && !holds(&parts, "..") {
        Some(l)
    } else {
        None
    }
}

/// The paths of some links and of what they lead to, in turn.
pub open spec fn both_ends(landings: Seq<String>, targets: Seq<String>, k: nat) -> Seq<Seq<char>>
    decreases k,
{
    if k == 0 {
        Seq::empty()
    } else {
        both_ends(landings, targets, (k - 1) as nat) + seq![landings[k - 1]@, targets[k - 1]@]
    }
}

/// The sources in the store, of what is mounted.
pub open spec fn stored_sources(v: Seq<Mount>) -> Seq<Seq<char>>
    decreases v.len(),
{
    if v.len() == 0 {
        Seq::empty()
    } else {
        let most = stored_sources(v.drop_last());
        if lies_under(v.last().source@, "/nix/store"@) {
            most.push(v.last().source@)
        } else {
            most
        }
    }
}

/// Every path into the store that a plan shows.
pub open spec fn shown_paths(p: Plan) -> Seq<Seq<char>> {
    both_ends(p.landings@, p.targets@, p.landings@.len()) + stored_sources(p.mounts@)
}

/// The first error among the store objects of some paths.
pub open spec fn roots_error(paths: Seq<Seq<char>>) -> Option<Seq<char>>
    decreases paths.len(),
{
    if paths.len() == 0 {
        None
    } else {
        match roots_error(paths.drop_last()) {
            Some(e) => Some(e),
            None => match root_of(paths.last()) {
                Err(e) => Some(e),
                Ok(_) => None,
            },
        }
    }
}

/// The store objects of some paths.
pub open spec fn objects_of(paths: Seq<Seq<char>>) -> Seq<Seq<char>> {
    paths.map_values(|p: Seq<char>| root_of(p)->Ok_0)
}

/// A list holds the store objects of some paths, and nothing else.
pub open spec fn are_roots(r: Seq<Seq<char>>, paths: Seq<Seq<char>>) -> bool {
    (forall|i: int| 0 <= i < paths.len() ==> root_of(#[trigger] paths[i]) is Ok) && same_paths(
        r,
        objects_of(paths),
    )
}

fn add_root(v: &mut Vec<String>, path: &str, Ghost(paths): Ghost<Seq<Seq<char>>>) -> (r: Result<
    (),
    String,
>)
    requires
        are_roots(texts(old(v)@), paths),
    ensures
        match root_of(path@) {
            Ok(_) => r is Ok && are_roots(texts(final(v)@), paths.push(path@)),
            Err(e) => r matches Err(t) && t@ == e,
        },
{
    match store_root(path) {
        Err(e) => Err(e),
        Ok(root) => {
            add_path(v, &root, Ghost(objects_of(paths)));
            assert(objects_of(paths.push(path@)) =~= objects_of(paths).push(root@));
            Ok(())
        },
    }
}

proof fn lemma_roots_error(paths: Seq<Seq<char>>, n: int)
    requires
        0 <= n < paths.len(),
        roots_error(paths.take(n)) is None,
        root_of(paths[n]) is Err,
    ensures
        roots_error(paths) == Some(root_of(paths[n])->Err_0),
    decreases paths.len(),
{
    let most = paths.drop_last();
    if n == paths.len() - 1 {
        assert(paths.take(n) =~= most);
    } else {
        assert(most.take(n) =~= paths.take(n));
        lemma_roots_error(most, n);
    }
}

fn roots(paths: &Vec<String>) -> (r: Result<Vec<String>, String>)
    ensures
        match roots_error(texts(paths@)) {
            Some(e) => r matches Err(t) && t@ == e,
            None => r matches Ok(v) && are_roots(texts(v@), texts(paths@)),
        },
{
    let mut v: Vec<String> = Vec::new();
    let ghost all = texts(paths@);
    let mut k: usize = 0;
    assert(all.take(0) =~= Seq::empty());
    while k < paths.len()
        invariant
            k <= paths@.len(),
            all == texts(paths@),
            are_roots(texts(v@), all.take(k as int)),
            roots_error(all.take(k as int)) is None,
        decreases paths@.len() - k,
    {
        let r = add_root(&mut v, &paths[k], Ghost(all.take(k as int)));
        proof {
            assert(all[k as int] == paths@[k as int]@);
            if r is Err {
                lemma_roots_error(all, k as int);
            }
            assert(all.take(k + 1) =~= all.take(k as int).push(all[k as int]));
            assert(all.take(k + 1).drop_last() =~= all.take(k as int));
        }
        r?;
        k += 1;
    }
    assert(all.take(k as int) =~= all);
    Ok(v)
}

/// The arguments that show a link's target, unless the store object that it lies in is
/// shown already.
pub open spec fn link_args(p: Plan, initial: Seq<Seq<char>>, k: nat) -> Seq<Seq<char>>
    decreases k,
{
    if k == 0 {
        Seq::empty()
    } else {
        let most = link_args(p, initial, (k - 1) as nat);
        if lies_in(p.landings@[k - 1]@, initial) {
            most
        } else {
            most + seq!["--ro-bind"@, p.targets@[k - 1]@, p.landings@[k - 1]@]
        }
    }
}

/// A path lies in one of others.
pub open spec fn lies_in(path: Seq<char>, others: Seq<Seq<char>>) -> bool {
    exists|i: int| 0 <= i < others.len() && lies_under(path, #[trigger] others[i])
}

/// The arguments that mount what descriptors hold open.
pub open spec fn mount_args(v: Seq<Mount>) -> Seq<Seq<char>>
    decreases v.len(),
{
    if v.len() == 0 {
        Seq::empty()
    } else {
        mount_args(v.drop_last()) + seq![
            if v.last().readonly {
                "--ro-bind-fd"@
            } else {
                "--bind-fd"@
            },
            decimal_of(v.last().descriptor as nat),
            v.last().destination@,
        ]
    }
}

/// Whether a path lies in one of others.
pub fn within(path: &str, others: &Vec<String>) -> (r: bool)
    ensures
        r == lies_in(path@, texts(others@)),
{
    let ghost s = texts(others@);
    let mut k: usize = 0;
    while k < others.len()
        invariant
            k <= others@.len(),
            s == texts(others@),
            forall|i: int| 0 <= i < k ==> !lies_under(path@, #[trigger] s[i]),
        decreases others@.len() - k,
    {
        assert(s[k as int] == others@[k as int]@);
        if under(path, &others[k]) {
            return true;
        }
        k += 1;
    }
    false
}

impl Plan {
    /// The store objects that a plan shows something of.
    pub fn store_roots(&self) -> (r: Result<Vec<String>, String>)
        requires
            self.wf(),
        ensures
            match roots_error(shown_paths(*self)) {
                Some(e) => r matches Err(t) && t@ == e,
                None => r matches Ok(v) && are_roots(texts(v@), shown_paths(*self)),
            },
    {
        roots(&self.shown())
    }

    fn shown(&self) -> (r: Vec<String>)
        requires
            self.wf(),
        ensures
            texts(r@) == shown_paths(*self),
    {
        let mut v: Vec<String> = Vec::new();
        let mut k: usize = 0;
        assert(texts(v@) =~= Seq::empty());
        while k < self.landings.len()
            invariant
                k <= self.landings@.len(),
                self.wf(),
                texts(v@) == both_ends(self.landings@, self.targets@, k as nat),
            decreases self.landings@.len() - k,
        {
            put_two(&mut v, &self.landings[k], &self.targets[k]);
            k += 1;
        }
        let ghost links = texts(v@);
        let mut m: usize = 0;
        assert(self.mounts@.take(0) =~= Seq::empty());
        assert(links + stored_sources(self.mounts@.take(0)) =~= links);
        while m < self.mounts.len()
            invariant
                m <= self.mounts@.len(),
                texts(v@) == links + stored_sources(self.mounts@.take(m as int)),
            decreases self.mounts@.len() - m,
        {
            let ghost some = self.mounts@.take(m + 1);
            assert(some.drop_last() =~= self.mounts@.take(m as int));
            if under(&self.mounts[m].source, "/nix/store") {
                put(&mut v, &self.mounts[m].source);
                assert(texts(v@) =~= links + stored_sources(some));
            }
            m += 1;
        }
        assert(self.mounts@.take(m as int) =~= self.mounts@);
        v
    }

    /// Adds the arguments that mount what is given. What a shown store object holds is
    /// not shown again.
    pub fn append_args(&self, args: &mut Vec<String>, initial: &Vec<String>)
        requires
            self.wf(),
        ensures
            texts(final(args)@) == texts(old(args)@) + link_args(
                *self,
                texts(initial@),
                self.landings@.len(),
            ) + mount_args(self.mounts@),
    {
        let ghost start = texts(args@);
        let mut k: usize = 0;
        assert(start + link_args(*self, texts(initial@), 0) =~= start);
        while k < self.landings.len()
            invariant
                k <= self.landings@.len(),
                self.wf(),
                texts(args@) == start + link_args(*self, texts(initial@), k as nat),
            decreases self.landings@.len() - k,
        {
            if !within(&self.landings[k], initial) {
                put_three(args, "--ro-bind", &self.targets[k], &self.landings[k]);
                assert(texts(args@) =~= start + link_args(*self, texts(initial@), (k + 1) as nat));
            }
            k += 1;
        }
        let ghost links = texts(args@);
        let mut m: usize = 0;
        assert(self.mounts@.take(0) =~= Seq::empty());
        assert(links + mount_args(self.mounts@.take(0)) =~= links);
        while m < self.mounts.len()
            invariant
                m <= self.mounts@.len(),
                texts(args@) == links + mount_args(self.mounts@.take(m as int)),
            decreases self.mounts@.len() - m,
        {
            let ghost some = self.mounts@.take(m + 1);
            assert(some.drop_last() =~= self.mounts@.take(m as int));
            let mount = &self.mounts[m];
            let flag = if mount.readonly {
                "--ro-bind-fd"
            } else {
                "--bind-fd"
            };
            put_three(args, flag, &decimal(mount.descriptor as u64), &mount.destination);
            assert(texts(args@) =~= links + mount_args(some));
            m += 1;
        }
        assert(self.mounts@.take(m as int) =~= self.mounts@);
    }
}

/// Whether a place lies below one of several.
pub open spec fn below_any(place: Seq<char>, all: Seq<Seq<char>>) -> bool {
    exists|i: int| 0 <= i < all.len() && lies_under(place, #[trigger] all[i])
}

/// The places, among the first `n`, that lie below none of those.
pub open spec fn outside(landings: Seq<Seq<char>>, all: Seq<Seq<char>>, n: nat) -> Seq<int>
    decreases n,
{
    if n == 0 {
        Seq::empty()
    } else if below_any(landings[n - 1], all) {
        outside(landings, all, (n - 1) as nat)
    } else {
        outside(landings, all, (n - 1) as nat).push(n - 1)
    }
}

impl Plan {
    /// The links' targets that something is to be prepared for: the session does not begin
    /// with what holds them.
    pub fn unprepared(&self, initial: &Vec<String>) -> (r: Vec<usize>)
        ensures
            crate::text::places(r@) == outside(texts(self.landings@), texts(initial@), self.landings@.len()),
            forall|k: int| 0 <= k < r@.len() ==> #[trigger] r@[k] < self.landings@.len(),
    {
        let ghost all = texts(initial@);
        let ghost landings = texts(self.landings@);
        let mut r: Vec<usize> = Vec::new();
        assert(crate::text::places(r@) =~= Seq::<int>::empty());
        let mut i: usize = 0;
        while i < self.landings.len()
            invariant
                i <= self.landings@.len(),
                all == texts(initial@),
                landings == texts(self.landings@),
                crate::text::places(r@) == outside(landings, all, i as nat),
                forall|k: int| 0 <= k < r@.len() ==> #[trigger] r@[k] < self.landings@.len(),
            decreases self.landings@.len() - i,
        {
            let mut below = false;
            let mut k: usize = 0;
            while k < initial.len()
                invariant
                    k <= initial@.len(),
                    i < self.landings@.len(),
                    all == texts(initial@),
                    landings == texts(self.landings@),
                    below == exists|j: int| 0 <= j < k && lies_under(landings[i as int], #[trigger] all[j]),
                decreases initial@.len() - k,
            {
                if under(self.landings[i].as_str(), initial[k].as_str()) {
                    assert(lies_under(landings[i as int], all[k as int]));
                    below = true;
                }
                k += 1;
            }
            assert(below == below_any(landings[i as int], all));
            if !below {
                let ghost before = crate::text::places(r@);
                r.push(i);
                assert(crate::text::places(r@) =~= before.push(i as int));
            }
            i += 1;
        }
        r
    }
}

/// Where the empty object is prepared that a link's target is mounted over.
pub open spec fn placeholder_of(staging: Seq<char>, landing: Seq<char>) -> Seq<char> {
    joined(staging, with_between(components_of(landing).skip(3), "/"@))
}

/// Where the empty object is prepared that a link's target is mounted over.
pub fn placeholder(staging: &str, landing: &str) -> (r: Result<String, String>)
    ensures
        told(r) == if lies_under(landing@, "/nix/store"@) {
            Ok(placeholder_of(staging@, landing@))
        } else {
            Err("prefix not found"@)
        },
{
    if !under(landing, "/nix/store") {
        return Err(String::from_str("prefix not found"));
    }
    proof {
        lemma_store_components();
    }
    let parts = components(landing);
    assert(texts(parts@).len() == parts@.len());
    let mut rest: Vec<String> = Vec::new();
    put_range(&mut rest, &parts, 3, parts.len());
    assert(texts(rest@) =~= components_of(landing@).skip(3));
    Ok(join(staging, &list(&rest, "/")))
}

proof fn lemma_first_overlap(path: Seq<char>, others: Seq<Seq<char>>)
    ensures
        first_overlap(path, others) is None <==> !overlaps_any(path, others),
    decreases others.len(),
{
    if others.len() > 0 {
        let rest = others.drop_first();
        lemma_first_overlap(path, rest);
        if overlaps_any(path, rest) {
            let i = choose|i: int| 0 <= i < rest.len() && overlap(path, #[trigger] rest[i]);
            assert(overlap(path, others[i + 1]));
        }
        if overlaps_any(path, others) && !overlap(path, others[0]) {
            let i = choose|i: int| 0 <= i < others.len() && overlap(path, #[trigger] others[i]);
            assert(overlap(path, rest[i - 1]));
        }
    }
}

/// No declaration covers a reserved or private tree, nor shows one, nor what one lies
/// in.
pub proof fn reserved_trees_stay_private(
    path: Seq<char>,
    vars: Seq<(String, String)>,
    private: Seq<Seq<char>>,
)
    ensures
        match place_for(path, vars, private) {
            Ok(p) => !overlaps_any(p, reserved()) && !overlaps_any(p, private),
            Err(_) => true,
        },
{
    if place_for(path, vars, private) is Ok {
        let p = place_for(path, vars, private)->Ok_0;
        let all = reserved() + private;
        lemma_first_overlap(p, all);
        if overlaps_any(p, reserved()) {
            let i = choose|i: int|
                0 <= i < reserved().len() && overlap(p, #[trigger] reserved()[i]);
            assert(overlap(p, all[i]));
        }
        if overlaps_any(p, private) {
            let i = choose|i: int| 0 <= i < private.len() && overlap(p, #[trigger] private[i]);
            assert(all[reserved().len() + i] == private[i]);
            assert(overlap(p, all[reserved().len() + i]));
        }
    }
}

/// What is mounted for a declaration is a reserved or private tree under no name: what
/// was opened is outside of them too, or it is in the store and only read.
pub proof fn an_opened_source_is_checked(
    p: Plan,
    w: Wanted,
    destination: Seq<char>,
    source: Seq<char>,
    directory: bool,
    file: bool,
    private: Seq<Seq<char>>,
)
    requires
        mount_error(p, w, destination, source, directory, file, private) is None,
    ensures
        lies_under(source, "/nix/store"@) ==> w.readonly && root_of(source) is Ok,
        !lies_under(source, "/nix/store"@) ==> !overlaps_any(source, reserved())
            && !overlaps_any(source, private),
        w.directory ==> directory,
        !w.directory ==> file,
        !overlaps_any(destination, places(p.mounts@)),
{
    if !lies_under(source, "/nix/store"@) {
        let all = reserved() + private;
        lemma_first_overlap(source, all);
        if overlaps_any(source, reserved()) {
            let i = choose|i: int|
                0 <= i < reserved().len() && overlap(source, #[trigger] reserved()[i]);
            assert(overlap(source, all[i]));
        }
        if overlaps_any(source, private) {
            let i = choose|i: int| 0 <= i < private.len() && overlap(source, #[trigger] private[i]);
            assert(all[reserved().len() + i] == private[i]);
            assert(overlap(source, all[reserved().len() + i]));
        }
    }
}

/// A variable has the first value that is noted of it.
pub proof fn the_first_value_counts(vars: Seq<(String, String)>, name: Seq<char>, i: int)
    requires
        0 <= i <= vars.len(),
        forall|j: int| 0 <= j < i ==> (#[trigger] vars[j]).0@ != name,
        i < vars.len() ==> vars[i].0@ == name,
    ensures
        value_in(vars, name) == if i < vars.len() {
            Some(vars[i].1@)
        } else {
            None
        },
    decreases vars.len(),
{
    if i > 0 {
        let rest = vars.drop_first();
        assert forall|j: int| 0 <= j < i - 1 implies (#[trigger] rest[j]).0@ != name by {
            assert(rest[j] == vars[j + 1]);
        }
        assert(vars[0].0@ != name);
        the_first_value_counts(rest, name, i - 1);
    }
}

/// A text without a variable stays as it is.
pub proof fn a_plain_path_stays_as_it_is(s: Seq<char>, vars: Seq<(String, String)>)
    requires
        !s.contains('$'),
    ensures
        replaced(s, vars) == Ok::<Seq<char>, Seq<char>>(s),
        (s.len() == 0 || s[0] != '~') ==> filled(s, vars) == Ok::<Seq<char>, Seq<char>>(s),
{
    crate::text::lemma_first_index(s, '$');
}

/// A variable in braces gives way to its value, and what follows is looked at on its own.
pub proof fn a_variable_gives_way_to_its_value(
    front: Seq<char>,
    name: Seq<char>,
    rest: Seq<char>,
    vars: Seq<(String, String)>,
    value: Seq<char>,
)
    requires
        !front.contains('$'),
        is_variable(name),
        value_in(vars, name) == Some(value),
    ensures
        replaced(front.push('$').push('{') + name.push('}') + rest, vars) == match replaced(
            rest,
            vars,
        ) {
            Ok(t) => Ok::<Seq<char>, Seq<char>>(front + value + t),
            Err(e) => Err::<Seq<char>, Seq<char>>(e),
        },
{
    let s = front.push('$').push('{') + name.push('}') + rest;
    crate::text::lemma_first_index(s, '$');
    let at = first_index(s, '$');
    assert(s[front.len() as int] == '$');
    if at < front.len() {
        assert(front[at] == '$');
        assert(front.contains('$'));
    }
    let tail = s.skip(at + 1);
    crate::text::lemma_first_index(tail, '}');
    let end = first_index(tail, '}');
    assert(tail[(name.len() + 1) as int] == '}');
    assert(tail.contains('}'));
    if end < name.len() + 1 {
        if end > 0 {
            assert(tail[end] == name[end - 1]);
            assert(variable_char(name[end - 1], end - 1));
        }
    }
    assert(end == name.len() + 1);
    assert(tail.subrange(1, end) =~= name);
    assert(tail.skip(end + 1) =~= rest);
    assert(s.take(at) =~= front);
}

/// A variable that is not set is an error, wherever it stands.
pub proof fn an_unset_variable_is_an_error(
    front: Seq<char>,
    name: Seq<char>,
    rest: Seq<char>,
    vars: Seq<(String, String)>,
)
    requires
        !front.contains('$'),
        is_variable(name),
        value_in(vars, name) is None,
    ensures
        replaced(front.push('$').push('{') + name.push('}') + rest, vars) == Err::<
            Seq<char>,
            Seq<char>,
        >("unset host bind variable: "@ + name),
{
    let s = front.push('$').push('{') + name.push('}') + rest;
    crate::text::lemma_first_index(s, '$');
    let at = first_index(s, '$');
    assert(s[front.len() as int] == '$');
    if at < front.len() {
        assert(front[at] == '$');
        assert(front.contains('$'));
    }
    let tail = s.skip(at + 1);
    crate::text::lemma_first_index(tail, '}');
    let end = first_index(tail, '}');
    assert(tail[(name.len() + 1) as int] == '}');
    assert(tail.contains('}'));
    if end < name.len() + 1 {
        if end > 0 {
            assert(tail[end] == name[end - 1]);
            assert(variable_char(name[end - 1], end - 1));
        }
    }
    assert(end == name.len() + 1);
    assert(tail.subrange(1, end) =~= name);
}

/// A tilde before a slash, or alone, is the home of the host's user.
pub proof fn a_tilde_is_home(rest: Seq<char>, vars: Seq<(String, String)>, home: Seq<char>)
    requires
        !rest.contains('$'),
        rest.len() > 0 ==> rest[0] == '/',
        value_in(vars, "HOME"@) == Some(home),
    ensures
        filled(seq!['~'] + rest, vars) == Ok::<Seq<char>, Seq<char>>(home + rest),
{
    let s = seq!['~'] + rest;
    assert(s.skip(1) =~= rest);
    a_plain_path_stays_as_it_is(rest, vars);
}

/// What is declared is wanted: each directory and each file, to be written or only to be read
/// as it stands, and nothing else.
pub proof fn what_is_declared_is_wanted(d: Declarations, i: int)
    ensures
        0 <= i < d.rw_dirs@.len() ==> declared(d).contains((d.rw_dirs@[i]@, true, false)),
        0 <= i < d.ro_dirs@.len() ==> declared(d).contains((d.ro_dirs@[i]@, true, true)),
        0 <= i < d.rw_files@.len() ==> declared(d).contains((d.rw_files@[i]@, false, false)),
        0 <= i < d.ro_files@.len() ==> declared(d).contains((d.ro_files@[i]@, false, true)),
        declared(d).len() == d.rw_dirs@.len() + d.ro_dirs@.len() + d.rw_files@.len()
            + d.ro_files@.len(),
{
    let a = d.rw_dirs@.len() as int;
    let b = a + d.ro_dirs@.len();
    let c = b + d.rw_files@.len();
    let all = declared(d);
    if 0 <= i < d.rw_dirs@.len() {
        assert(all[i] == (d.rw_dirs@[i]@, true, false));
    }
    if 0 <= i < d.ro_dirs@.len() {
        assert(all[a + i] == (d.ro_dirs@[i]@, true, true));
    }
    if 0 <= i < d.rw_files@.len() {
        assert(all[b + i] == (d.rw_files@[i]@, false, false));
    }
    if 0 <= i < d.ro_files@.len() {
        assert(all[c + i] == (d.ro_files@[i]@, false, true));
    }
}

/// A place that shares anything with a reserved tree, or with what is private, is refused; any
/// other is not.
pub proof fn protected_trees_are_refused(path: Seq<char>, private: Seq<Seq<char>>, i: int)
    ensures
        overlap(path, "/proc"@) ==> invalid(path, private) is Some,
        overlap(path, "/sys"@) ==> invalid(path, private) is Some,
        overlap(path, "/dev"@) ==> invalid(path, private) is Some,
        overlap(path, "/nix"@) ==> invalid(path, private) is Some,
        overlap(path, "/run"@) ==> invalid(path, private) is Some,
        overlap(path, "/bin"@) ==> invalid(path, private) is Some,
        overlap(path, "/workspace"@) ==> invalid(path, private) is Some,
        (0 <= i < private.len() && overlap(path, private[i])) ==> invalid(path, private) is Some,
        (!overlap(path, "/proc"@) && !overlap(path, "/sys"@) && !overlap(path, "/dev"@) && !overlap(
            path,
            "/nix"@,
        ) && !overlap(path, "/run"@) && !overlap(path, "/bin"@) && !overlap(path, "/workspace"@)
            && forall|j: int| 0 <= j < private.len() ==> !overlap(path, #[trigger] private[j]))
            ==> invalid(path, private) is None,
{
    let all = reserved() + private;
    lemma_first_overlap(path, all);
    assert(all[0] == "/proc"@ && all[1] == "/sys"@ && all[2] == "/dev"@ && all[3] == "/nix"@);
    assert(all[4] == "/run"@ && all[5] == "/bin"@ && all[6] == "/workspace"@);
    if 0 <= i < private.len() {
        assert(all[7 + i] == private[i]);
    }
    if first_overlap(path, all) is Some {
        let k = choose|k: int| 0 <= k < all.len() && overlap(path, #[trigger] all[k]);
        if k >= 7 {
            assert(all[k] == private[k - 7]);
        }
    }
}

/// What may be mounted: a directory or a file as declared, of the store only to be read and
/// only one object of it, of the rest nothing protected, and nothing where something is
/// mounted already.
pub proof fn a_proper_source_is_mounted(
    p: Plan,
    w: Wanted,
    destination: Seq<char>,
    source: Seq<char>,
    directory: bool,
    file: bool,
    private: Seq<Seq<char>>,
)
    ensures
        mount_error(p, w, destination, source, directory, file, private) is None <==> {
            &&& if lies_under(source, "/nix/store"@) {
                w.readonly && root_of(source) is Ok
            } else {
                invalid(source, private) is None
            }
            &&& if w.directory {
                directory
            } else {
                file
            }
            &&& forall|i: int|
                0 <= i < p.mounts@.len() ==> !overlap(
                    destination,
                    (#[trigger] p.mounts@[i]).destination@,
                )
        },
{
    let all = places(p.mounts@);
    if overlaps_any(destination, all) {
        let i = choose|i: int| 0 <= i < all.len() && overlap(destination, #[trigger] all[i]);
        assert(overlap(destination, p.mounts@[i].destination@));
    } else {
        assert forall|i: int| 0 <= i < p.mounts@.len() implies !overlap(
            destination,
            (#[trigger] p.mounts@[i]).destination@,
        ) by {
            assert(all[i] == p.mounts@[i].destination@);
        }
    }
}

/// The places that need a mount of their own are those below no other.
pub proof fn what_lies_below_nothing_is_outside(landings: Seq<Seq<char>>, all: Seq<Seq<char>>,
    k: nat)
    requires
        k <= landings.len(),
    ensures
        forall|i: int| #[trigger]
            outside(landings, all, k).contains(i) <==> 0 <= i < k
                && !(exists|m: int| 0 <= m < all.len()
                && lies_under(landings[i], #[trigger] all[m])),
        forall|a: int, b: int|
            0 <= a < b < outside(landings, all, k).len() ==> (#[trigger] outside(landings, all,
                k)[a])
                < #[trigger] outside(landings, all, k)[b],
    decreases k,
{
    if k > 0 {
        let less = (k - 1) as nat;
        what_lies_below_nothing_is_outside(landings, all, less);
        let before = outside(landings, all, less);
        let now = outside(landings, all, k);
        assert forall|a: int| 0 <= a < before.len() implies 0 <= #[trigger] before[a] < k - 1 by {
            assert(before.contains(before[a]));
        }
        assert forall|i: int| #[trigger] now.contains(i) <==> 0 <= i < k
            && !(exists|m: int| 0 <= m < all.len()
            && lies_under(landings[i], #[trigger] all[m])) by {
            if now.contains(i) {
                let a = choose|a: int| 0 <= a < now.len() && now[a] == i;
                if a < before.len() {
                    assert(before[a] == i);
                    assert(before.contains(i));
                }
            }
            if 0 <= i < k && !(exists|m: int| 0 <= m < all.len()
                && lies_under(landings[i], #[trigger] all[m])) {
                if i < k - 1 {
                    assert(before.contains(i));
                    let a = choose|a: int| 0 <= a < before.len() && before[a] == i;
                    assert(now[a] == i);
                } else {
                    assert(now[now.len() - 1] == i);
                }
            }
        }
    }
}

/// What is mounted out of the store is kept there, and nothing else is.
pub proof fn every_stored_source_is_kept(v: Seq<Mount>, source: Seq<char>)
    ensures
        stored_sources(v).contains(source) <==> lies_under(source, "/nix/store"@) && exists|i: int|
            0 <= i < v.len() && (#[trigger] v[i]).source@ == source,
    decreases v.len(),
{
    if v.len() > 0 {
        let most = v.drop_last();
        every_stored_source_is_kept(most, source);
        let before = stored_sources(most);
        let now = stored_sources(v);
        assert(forall|i: int| 0 <= i < most.len() ==> v[i] == #[trigger] most[i]);
        if now.contains(source) {
            let a = choose|a: int| 0 <= a < now.len() && now[a] == source;
            if a < before.len() {
                assert(before[a] == source);
                assert(before.contains(source));
                let i = choose|i: int| 0 <= i < most.len()
                    && (#[trigger] most[i]).source@ == source;
                assert(v[i].source@ == source);
            } else {
                assert(v[v.len() - 1].source@ == source);
            }
        }
        if lies_under(source, "/nix/store"@) && exists|i: int|
            0 <= i < v.len() && (#[trigger] v[i]).source@ == source {
            let i = choose|i: int| 0 <= i < v.len() && (#[trigger] v[i]).source@ == source;
            if i < most.len() {
                assert(most[i] == v[i]);
                assert(before.contains(source));
                let a = choose|a: int| 0 <= a < before.len() && before[a] == source;
                assert(now[a] == source);
            } else {
                assert(now[now.len() - 1] == source);
            }
        }
    }
}

/// Every mount is passed on by its descriptor, at its place, and read-only where it was declared
/// so.
pub proof fn every_mount_is_passed_on(v: Seq<Mount>, i: int)
    requires
        0 <= i < v.len(),
    ensures
        mount_args(v).len() == 3 * v.len(),
        mount_args(v)[3 * i] == if v[i].readonly {
            "--ro-bind-fd"@
        } else {
            "--bind-fd"@
        },
        mount_args(v)[3 * i + 1] == decimal_of(v[i].descriptor as nat),
        mount_args(v)[3 * i + 2] == v[i].destination@,
    decreases v.len(),
{
    let most = v.drop_last();
    if most.len() > 0 {
        every_mount_is_passed_on(
            most,
            if i < most.len() {
                i
            } else {
                0
            },
        );
    } else {
        assert(mount_args(most).len() == 0);
    }
    if i < most.len() {
        assert(most[i] == v[i]);
    } else {
        assert(v.last() == v[i]);
    }
}

/// A path is held against every other, and the first that it overlaps is named.
pub proof fn the_first_overlap_is_named(path: Seq<char>, others: Seq<Seq<char>>)
    ensures
        match first_overlap(path, others) {
            Some(o) => exists|i: int|
                0 <= i < others.len() && #[trigger] others[i] == o && overlap(path, o)
                    && forall|j: int| 0 <= j < i ==> !overlap(path, #[trigger] others[j]),
            None => forall|j: int| 0 <= j < others.len() ==> !overlap(path, #[trigger] others[j]),
        },
    decreases others.len(),
{
    if others.len() > 0 && !overlap(path, others[0]) {
        let rest = others.drop_first();
        the_first_overlap_is_named(path, rest);
        match first_overlap(path, others) {
            Some(o) => {
                let i = choose|i: int|
                    0 <= i < rest.len() && #[trigger] rest[i] == o && overlap(path, o)
                        && forall|j: int| 0 <= j < i ==> !overlap(path, #[trigger] rest[j]);
                assert(others[i + 1] == o);
                assert forall|j: int| 0 <= j < i + 1 implies !overlap(path,
                    #[trigger] others[j]) by {
                    if j > 0 {
                        assert(rest[j - 1] == others[j]);
                    }
                }
            },
            None => {
                assert forall|j: int| 0 <= j < others.len() implies !overlap(
                    path,
                    #[trigger] others[j],
                ) by {
                    if j > 0 {
                        assert(rest[j - 1] == others[j]);
                    }
                }
            },
        }
    } else if others.len() > 0 {
        assert(others[0] == others[0]);
    }
}

} // verus!
