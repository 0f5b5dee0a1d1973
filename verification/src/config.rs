//! Launch configurations: what a manifest offers, and what is run for one of them.
use vstd::prelude::*;
use vstd::utf8::{decode_utf8, valid_utf8};

use crate::arguments::{list, put, with_between};
use crate::binds::{value_in, Declarations};
use crate::json::{lookup, Json};
use crate::paths::{
    lemma_text_chain, lemma_text_order, parent, parent_of, text_before, text_precedes,
};
use crate::protocol::{docker_scope_name, is_scope_name};
use crate::sandbox_etc::pairs;
use crate::text::{
    chars, copy_option, decimal, decimal_of, from_utf8, holds, lines, lines_of, maybe, parts_of,
    same, split, texts, utf8_complaint,
};

verus! {

/// The most bytes of a manifest or of a build specification.
pub const MAX_MANIFEST_BYTES: u64 = 1_048_576;

/// The container engine of a configuration.
pub struct Docker {
    pub daemon: String,
    pub client: Option<String>,
    pub enabled: bool,
    pub default_scope: Option<String>,
    pub allowed_scopes: Vec<String>,
}

/// One of the configurations that a manifest offers.
pub struct Configuration {
    pub description: String,
    pub network: bool,
    pub build_spec: String,
    pub args: Vec<String>,
    pub env: Vec<(String, String)>,
    pub client_package: String,
    pub helper: String,
    pub flake: String,
    pub sandbox_etc: Vec<(String, String)>,
    pub integration: Option<String>,
    pub docker: Option<Docker>,
}

/// What a host offers to launch. No two configurations have one name.
pub struct Manifest {
    pub api: u32,
    pub helper_api: u32,
    pub goblins: Vec<(String, Configuration)>,
    pub docker_scopes: Vec<String>,
}

/// What is launched. It is never taken from a sandbox.
pub struct Launch {
    pub description: String,
    pub pasta: Option<String>,
    pub cwd: Option<String>,
    pub shell: String,
    pub shell_args: Vec<String>,
    pub posix_shell: String,
    pub helper: String,
    pub bwrap: String,
    pub flake: String,
    pub client_package: String,
    pub initial_packages: Vec<String>,
    pub initial_closure: Vec<String>,
    pub env: Vec<(String, String)>,
    pub binds: Declarations,
    pub protected_paths: Vec<String>,
    pub sandbox_etc: Vec<(String, String)>,
    pub integration: Option<String>,
    pub docker: Option<Docker>,
}

/// A container engine is started with the session unless its configuration says
/// otherwise.
pub fn docker_enabled() -> (r: bool)
    ensures
        r,
{
    true
}

/// The arguments of a shell that reads no files of its own.
pub fn default_args() -> (r: Vec<String>)
    ensures
        texts(r@) == seq!["--noprofile"@, "--norc"@],
{
    let mut r: Vec<String> = Vec::new();
    put(&mut r, "--noprofile");
    put(&mut r, "--norc");
    assert(texts(r@) =~= seq!["--noprofile"@, "--norc"@]);
    r
}

/// Whether a file that was read up to one byte behind its limit is within it.
pub fn check_size(length: u64, limit: u64) -> (r: Result<(), String>)
    ensures
        if length > limit {
            r matches Err(e) && e@ == "configuration exceeds "@ + decimal_of(
                (limit / 1_048_576) as nat,
            ) + " MiB"@
        } else {
            r is Ok
        },
{
    if length > limit {
        let mut e = String::from_str("configuration exceeds ");
        e.push_str(&decimal(limit / 1_048_576));
        e.push_str(" MiB");
        return Err(e);
    }
    Ok(())
}

/// Every scope has a name that can stand for one, and none is named twice.
pub open spec fn is_catalog(scopes: Seq<Seq<char>>) -> bool {
    scopes.no_duplicates() && forall|i: int|
        0 <= i < scopes.len() ==> is_scope_name(#[trigger] scopes[i])
}

fn catalog(scopes: &Vec<String>) -> (r: bool)
    ensures
        r == is_catalog(texts(scopes@)),
{
    let ghost s = texts(scopes@);
    let mut k: usize = 0;
    while k < scopes.len()
        invariant
            k <= scopes@.len(),
            s == texts(scopes@),
            forall|i: int| 0 <= i < k ==> is_scope_name(#[trigger] s[i]),
            forall|i: int, j: int| 0 <= i < j < k ==> #[trigger] s[i] != #[trigger] s[j],
        decreases scopes@.len() - k,
    {
        assert(s[k as int] == scopes@[k as int]@);
        if !docker_scope_name(&scopes[k]) {
            return false;
        }
        let mut n: usize = 0;
        while n < k
            invariant
                n <= k < scopes@.len(),
                s == texts(scopes@),
                forall|i: int| 0 <= i < n ==> #[trigger] s[i] != s[k as int],
            decreases k - n,
        {
            assert(s[n as int] == scopes@[n as int]@);
            assert(s[k as int] == scopes@[k as int]@);
            if same(&scopes[n], &scopes[k]) {
                return false;
            }
            n += 1;
        }
        k += 1;
    }
    true
}

impl Declarations {
    pub fn copy(&self) -> (r: Declarations)
        ensures
            r.rw_dirs@ == self.rw_dirs@ && r.rw_files@ == self.rw_files@,
            r.ro_dirs@ == self.ro_dirs@ && r.ro_files@ == self.ro_files@,
    {
        Declarations {
            rw_dirs: self.rw_dirs.clone(),
            rw_files: self.rw_files.clone(),
            ro_dirs: self.ro_dirs.clone(),
            ro_files: self.ro_files.clone(),
        }
    }
}

impl Launch {
    /// The same launch: the same in each of its fields.
    pub open spec fn same(&self, other: Launch) -> bool {
        &&& self.shell_args@ == other.shell_args@
        &&& self.initial_packages@ == other.initial_packages@
        &&& self.initial_closure@ == other.initial_closure@
        &&& pairs(self.env@) == pairs(other.env@)
        &&& pairs(self.sandbox_etc@) == pairs(other.sandbox_etc@)
        &&& self.binds.rw_dirs@ == other.binds.rw_dirs@
        &&& self.binds.rw_files@ == other.binds.rw_files@
        &&& self.binds.ro_dirs@ == other.binds.ro_dirs@
        &&& self.binds.ro_files@ == other.binds.ro_files@
        &&& self.protected_paths@ == other.protected_paths@
        &&& match (self.docker, other.docker) {
            (None, None) => true,
            (Some(a), Some(b)) => a.alike(b),
            _ => false,
        }
        &&& *self == (Launch {
            shell_args: self.shell_args,
            initial_packages: self.initial_packages,
            initial_closure: self.initial_closure,
            env: self.env,
            binds: self.binds,
            protected_paths: self.protected_paths,
            sandbox_etc: self.sandbox_etc,
            docker: self.docker,
            ..other
        })
    }

    pub fn copy(&self) -> (r: Launch)
        ensures
            r.same(*self),
    {
        Launch {
            description: self.description.clone(),
            pasta: copy_option(&self.pasta),
            cwd: copy_option(&self.cwd),
            shell: self.shell.clone(),
            shell_args: self.shell_args.clone(),
            posix_shell: self.posix_shell.clone(),
            helper: self.helper.clone(),
            bwrap: self.bwrap.clone(),
            flake: self.flake.clone(),
            client_package: self.client_package.clone(),
            initial_packages: self.initial_packages.clone(),
            initial_closure: self.initial_closure.clone(),
            env: copy_pairs(&self.env),
            binds: self.binds.copy(),
            protected_paths: self.protected_paths.clone(),
            sandbox_etc: copy_pairs(&self.sandbox_etc),
            integration: copy_option(&self.integration),
            docker: match &self.docker {
                Some(d) => Some(d.copy()),
                None => None,
            },
        }
    }
}

impl Docker {
    /// Every scope that is named is among those declared.
    pub open spec fn declares(self, scopes: Seq<Seq<char>>) -> bool {
        (forall|i: int|
            0 <= i < self.allowed_scopes@.len() ==> scopes.contains(
                #[trigger] self.allowed_scopes@[i]@,
            )) && (self.default_scope matches Some(s) ==> scopes.contains(s@))
    }

    fn declared(&self, scopes: &Vec<String>) -> (r: bool)
        ensures
            r == self.declares(texts(scopes@)),
    {
        let mut k: usize = 0;
        while k < self.allowed_scopes.len()
            invariant
                k <= self.allowed_scopes@.len(),
                forall|i: int|
                    0 <= i < k ==> texts(scopes@).contains(#[trigger] self.allowed_scopes@[i]@),
            decreases self.allowed_scopes@.len() - k,
        {
            if !holds(scopes, &self.allowed_scopes[k]) {
                return false;
            }
            k += 1;
        }
        match &self.default_scope {
            Some(s) => holds(scopes, s),
            None => true,
        }
    }

    /// The same engine.
    pub open spec fn alike(self, other: Docker) -> bool {
        self.daemon@ == other.daemon@ && maybe(self.client) == maybe(other.client) && self.enabled
            == other.enabled && maybe(self.default_scope) == maybe(other.default_scope) && texts(
            self.allowed_scopes@,
        ) == texts(other.allowed_scopes@)
    }

    pub fn copy(&self) -> (r: Docker)
        ensures
            r.alike(*self),
    {
        Docker {
            daemon: self.daemon.clone(),
            client: self.client.clone(),
            enabled: self.enabled,
            default_scope: self.default_scope.clone(),
            allowed_scopes: self.allowed_scopes.clone(),
        }
    }
}

/// The configurations name only scopes of the catalog.
pub open spec fn all_declared(goblins: Seq<(String, Configuration)>, scopes: Seq<Seq<char>>) -> bool {
    forall|i: int|
        0 <= i < goblins.len() ==> ((#[trigger] goblins[i]).1.docker matches Some(d)
            ==> d.declares(scopes))
}

/// Where the configuration of a name stands.
pub open spec fn position_of(goblins: Seq<(String, Configuration)>, name: Seq<char>) -> Option<int>
    decreases goblins.len(),
{
    if goblins.len() == 0 {
        None
    } else if goblins[0].0@ == name {
        Some(0)
    } else {
        match position_of(goblins.drop_first(), name) {
            Some(i) => Some(i + 1),
            None => None,
        }
    }
}

pub open spec fn goblin_names(goblins: Seq<(String, Configuration)>) -> Seq<Seq<char>> {
    goblins.map_values(|g: (String, Configuration)| g.0@)
}

/// What comes of selecting a configuration: its place, or the error.
pub open spec fn selection(m: Manifest, name: Seq<char>) -> Result<int, Seq<char>> {
    if m.api != 1 || m.helper_api != 4 {
        Err("incompatible manifest/helper API"@)
    } else if !is_catalog(texts(m.docker_scopes@)) {
        Err("invalid Docker scope catalog"@)
    } else if !all_declared(m.goblins@, texts(m.docker_scopes@)) {
        Err("configuration references an undeclared Docker scope"@)
    } else {
        match position_of(m.goblins@, name) {
            Some(i) => Ok(i),
            None => Err(
                "unknown goblin; available: "@ + with_between(goblin_names(m.goblins@), ", "@),
            ),
        }
    }
}

impl Manifest {
    fn check(&self) -> (r: bool)
        ensures
            r == all_declared(self.goblins@, texts(self.docker_scopes@)),
    {
        let mut k: usize = 0;
        while k < self.goblins.len()
            invariant
                k <= self.goblins@.len(),
                forall|i: int|
                    0 <= i < k ==> ((#[trigger] self.goblins@[i]).1.docker matches Some(d)
                        ==> d.declares(texts(self.docker_scopes@))),
            decreases self.goblins@.len() - k,
        {
            match &self.goblins[k].1.docker {
                Some(d) => {
                    if !d.declared(&self.docker_scopes) {
                        return false;
                    }
                },
                None => {},
            }
            k += 1;
        }
        true
    }

    fn find(&self, name: &str) -> (r: Option<usize>)
        ensures
            match position_of(self.goblins@, name@) {
                Some(i) => r matches Some(k) && k == i && k < self.goblins@.len(),
                None => r is None,
            },
    {
        let mut k: usize = 0;
        assert(self.goblins@.skip(0) =~= self.goblins@);
        while k < self.goblins.len()
            invariant
                k <= self.goblins@.len(),
                position_of(self.goblins@, name@) == match position_of(
                    self.goblins@.skip(k as int),
                    name@,
                ) {
                    Some(i) => Some(i + k),
                    None => None,
                },
            decreases self.goblins@.len() - k,
        {
            if same(&self.goblins[k].0, name) {
                return Some(k);
            }
            assert(self.goblins@.skip(k as int).drop_first() =~= self.goblins@.skip(k + 1));
            k += 1;
        }
        None
    }

    /// The configuration of a name, where the manifest can be used.
    pub fn select(self, name: &str) -> (r: Result<Configuration, String>)
        ensures
            match selection(self, name@) {
                Ok(i) => r matches Ok(c) && 0 <= i < self.goblins@.len() && c == self.goblins@[i].1,
                Err(text) => r matches Err(e) && e@ == text,
            },
    {
        if self.api != 1 || self.helper_api != 4 {
            return Err(String::from_str("incompatible manifest/helper API"));
        }
        if !catalog(&self.docker_scopes) {
            return Err(String::from_str("invalid Docker scope catalog"));
        }
        if !self.check() {
            return Err(String::from_str("configuration references an undeclared Docker scope"));
        }
        match self.find(name) {
            Some(k) => {
                let mut all = self.goblins;
                let (_, configuration) = all.remove(k);
                Ok(configuration)
            },
            None => {
                let mut names: Vec<String> = Vec::new();
                let mut k: usize = 0;
                let ghost all = goblin_names(self.goblins@);
                assert(texts(names@) =~= all.take(0));
                while k < self.goblins.len()
                    invariant
                        k <= self.goblins@.len(),
                        all == goblin_names(self.goblins@),
                        texts(names@) == all.take(k as int),
                    decreases self.goblins@.len() - k,
                {
                    put(&mut names, &self.goblins[k].0);
                    assert(texts(names@) =~= all.take(k + 1));
                    k += 1;
                }
                assert(all.take(k as int) =~= all);
                let mut e = String::from_str("unknown goblin; available: ");
                e.push_str(&list(&names, ", "));
                Err(e)
            },
        }
    }
}

/// A member of an object, or nothing where it has none.
pub open spec fn member(v: Json, key: Seq<char>) -> Json {
    match lookup(v.fields(), key) {
        Some(x) => x,
        None => Json::Null,
    }
}

/// The text of a member.
pub open spec fn text_at(v: Json, key: Seq<char>) -> Option<Seq<char>> {
    match member(v, key) {
        Json::Text(t) => Some(t@),
        _ => None,
    }
}

/// The text of a member.
pub fn text_member<'a>(v: &'a Json, key: &str) -> (r: Option<&'a str>)
    ensures
        match text_at(*v, key@) {
            Some(t) => r matches Some(s) && s@ == t,
            None => r is None,
        },
{
    match v.get(key) {
        Some(x) => x.as_str(),
        None => None,
    }
}

/// What a build specification has to say of the sandbox.
pub open spec fn is_supported(spec: Json) -> bool {
    text_at(spec, "platform"@) == Some("linux"@) && member(spec, "allow_nix"@) == Json::Bool(false)
        && member(spec, "allow_unix_sockets"@) == Json::Bool(true)
}

pub open spec fn is_empty_list(v: Json) -> bool {
    v matches Json::Array(items) && items@.len() == 0
}

fn bool_member(v: &Json, key: &str, wanted: bool) -> (r: bool)
    ensures
        r == (member(*v, key@) == Json::Bool(wanted)),
{
    match v.get(key) {
        Some(Json::Bool(b)) => *b == wanted,
        _ => false,
    }
}

fn empty_member(v: &Json, key: &str) -> (r: bool)
    ensures
        r == is_empty_list(member(*v, key@)),
{
    match v.get(key) {
        Some(Json::Array(items)) => items.len() == 0,
        _ => false,
    }
}

/// A list of texts.
pub open spec fn text_list(v: Json) -> Option<Seq<Seq<char>>> {
    match v {
        Json::Array(items) => if forall|i: int| 0 <= i < items@.len() ==> (#[trigger] items@[i]) is Text {
            Some(items@.map_values(|x: Json| x->Text_0@))
        } else {
            None
        },
        _ => None,
    }
}

fn list_member(v: &Json, key: &str) -> (r: Option<Vec<String>>)
    ensures
        match text_list(member(*v, key@)) {
            Some(l) => r matches Some(s) && texts(s@) == l,
            None => r is None,
        },
{
    match v.get(key) {
        Some(Json::Array(items)) => {
            let mut r: Vec<String> = Vec::new();
            let mut k: usize = 0;
            let ghost all = items@.map_values(|x: Json| x->Text_0@);
            assert(texts(r@) =~= all.take(0));
            while k < items.len()
                invariant
                    k <= items@.len(),
                    member(*v, key@) == Json::Array(*items),
                    all == items@.map_values(|x: Json| x->Text_0@),
                    texts(r@) == all.take(k as int),
                    forall|i: int| 0 <= i < k ==> (#[trigger] items@[i]) is Text,
                decreases items@.len() - k,
            {
                match items[k].as_str() {
                    Some(t) => {
                        put(&mut r, t);
                    },
                    None => {
                        assert(!(items@[k as int] is Text));
                        return None;
                    },
                }
                assert(texts(r@) =~= all.take(k + 1));
                k += 1;
            }
            assert(all.take(k as int) =~= all);
            Some(r)
        },
        _ => None,
    }
}

pub open spec fn missing(key: Seq<char>) -> Seq<char> {
    "missing build spec string: "@ + key
}

fn required(spec: &Json, key: &str) -> (r: Result<String, String>)
    ensures
        match text_at(*spec, key@) {
            Some(t) => r matches Ok(s) && s@ == t,
            None => r matches Err(e) && e@ == missing(key@),
        },
{
    match text_member(spec, key) {
        Some(t) => Ok(String::from_str(t)),
        None => {
            let mut e = String::from_str("missing build spec string: ");
            e.push_str(key);
            Err(e)
        },
    }
}

/// The packages that hold some directories: those that are not empty.
pub open spec fn holders(directories: Seq<Seq<char>>) -> Seq<Seq<char>>
    decreases directories.len(),
{
    if directories.len() == 0 {
        Seq::empty()
    } else {
        let most = holders(directories.drop_last());
        if directories.last().len() == 0 {
            most
        } else {
            most.push(parent_of(directories.last())->0)
        }
    }
}

/// Each directory of a search path lies in something.
pub open spec fn all_held(path: Seq<char>) -> bool {
    forall|i: int|
        0 <= i < parts_of(path, ':').len() ==> (#[trigger] parts_of(path, ':')[i]).len() > 0
            ==> parent_of(parts_of(path, ':')[i]) is Some
}

/// Whether each directory of the search path of a build specification lies in something.
fn search_path_fits(spec: &Json) -> (r: bool)
    ensures
        r == (text_at(*spec, "sandbox_path"@) matches Some(p) ==> all_held(p)),
{
    match text_member(spec, "sandbox_path") {
        None => true,
        Some(path) => {
            let parts = split(path, ':');
            let ghost t = parts_of(path@, ':');
            let mut k: usize = 0;
            while k < parts.len()
                invariant
                    k <= parts@.len(),
                    texts(parts@) == t,
                    t == parts_of(path@, ':'),
                    text_at(*spec, "sandbox_path"@) == Some(path@),
                    forall|i: int|
                        0 <= i < k ==> (#[trigger] t[i]).len() > 0 ==> parent_of(t[i]) is Some,
                decreases parts@.len() - k,
            {
                assert(t[k as int] == parts@[k as int]@);
                if chars(&parts[k]).len() > 0 && parent(&parts[k]).is_none() {
                    assert(parent_of(parts_of(path@, ':')[k as int]) is None);
                    return false;
                }
                k += 1;
            }
            true
        },
    }
}

fn packages(path: &str) -> (r: Vec<String>)
    requires
        all_held(path@),
    ensures
        texts(r@) == holders(parts_of(path@, ':')),
{
    let parts = split(path, ':');
    let ghost t = parts_of(path@, ':');
    let mut r: Vec<String> = Vec::new();
    let mut k: usize = 0;
    assert(t.take(0) =~= Seq::empty());
    assert(texts(r@) =~= holders(t.take(0)));
    while k < parts.len()
        invariant
            k <= parts@.len(),
            texts(parts@) == t,
            t == parts_of(path@, ':'),
            all_held(path@),
            texts(r@) == holders(t.take(k as int)),
        decreases parts@.len() - k,
    {
        assert(t[k as int] == parts@[k as int]@);
        assert(t.take(k + 1).drop_last() =~= t.take(k as int));
        if chars(&parts[k]).len() > 0 {
            match parent(&parts[k]) {
                Some(p) => {
                    put(&mut r, &p);
                },
                None => {},
            }
        }
        k += 1;
    }
    assert(t.take(k as int) =~= t);
    r
}

/// Variables in the order of their names, each once.
pub open spec fn ordered(v: Seq<(String, String)>) -> bool {
    forall|i: int, j: int|
        0 <= i < j < v.len() ==> text_before((#[trigger] v[i]).0@, (#[trigger] v[j]).0@)
}

proof fn lemma_value_in(v: Seq<(String, String)>, name: Seq<char>)
    requires
        ordered(v),
    ensures
        value_in(v, name) is None <==> forall|i: int|
            0 <= i < v.len() ==> (#[trigger] v[i]).0@ != name,
        forall|i: int|
            0 <= i < v.len() && (#[trigger] v[i]).0@ == name ==> value_in(v, name) == Some(v[i].1@),
    decreases v.len(),
{
    if v.len() > 0 {
        let rest = v.drop_first();
        assert forall|i: int, j: int| 0 <= i < j < rest.len() implies text_before(
            (#[trigger] rest[i]).0@,
            (#[trigger] rest[j]).0@,
        ) by {
            assert(rest[i] == v[i + 1] && rest[j] == v[j + 1]);
        }
        lemma_value_in(rest, name);
        assert forall|i: int| 0 <= i < v.len() && (#[trigger] v[i]).0@ == name implies value_in(
            v,
            name,
        ) == Some(v[i].1@) by {
            if i > 0 {
                assert(rest[i - 1] == v[i]);
                assert(text_before(v[0].0@, v[i].0@));
                lemma_text_order(v[0].0@, v[i].0@);
            }
        }
        if forall|i: int| 0 <= i < v.len() ==> (#[trigger] v[i]).0@ != name {
            assert forall|i: int| 0 <= i < rest.len() implies (#[trigger] rest[i]).0@ != name by {
                assert(rest[i] == v[i + 1]);
            }
        }
    }
}

/// Sets a variable among others.
pub fn put_var(v: &mut Vec<(String, String)>, name: &str, value: &str)
    requires
        ordered(old(v)@),
    ensures
        ordered(final(v)@),
        forall|n: Seq<char>|
            #[trigger] value_in(final(v)@, n) == if n == name@ {
                Some(value@)
            } else {
                value_in(old(v)@, n)
            },
{
    let mut k: usize = 0;
    while k < v.len() && text_precedes(&v[k].0, name)
        invariant
            k <= v@.len(),
            *v == *old(v),
            ordered(v@),
            forall|i: int| 0 <= i < k ==> text_before((#[trigger] v@[i]).0@, name@),
        decreases v@.len() - k,
    {
        k += 1;
    }
    let ghost before = v@;
    let item = (String::from_str(name), String::from_str(value));
    let found = k < v.len() && same(&v[k].0, name);
    if found {
        v.set(k, item);
    } else {
        proof {
            if k < before.len() {
                lemma_text_order(before[k as int].0@, name@);
            }
            assert forall|i: int| k <= i < before.len() implies text_before(
                name@,
                (#[trigger] before[i]).0@,
            ) by {
                if i > k {
                    assert(text_before(before[k as int].0@, before[i].0@));
                    lemma_text_chain(name@, before[k as int].0@, before[i].0@);
                }
            }
        }
        v.insert(k, item);
    }
    proof {
        let after = v@;
        assert forall|i: int, j: int| 0 <= i < j < after.len() implies text_before(
            (#[trigger] after[i]).0@,
            (#[trigger] after[j]).0@,
        ) by {
            if !found {
                let a = if i < k { i } else { i - 1 };
                let b = if j < k { j } else { j - 1 };
                if i == k {
                    assert(after[j] == before[b]);
                } else if j == k {
                    assert(after[i] == before[a]);
                } else {
                    assert(after[i] == before[a] && after[j] == before[b]);
                }
            } else {
                assert(text_before(before[i].0@, before[j].0@));
            }
        }
        assert forall|n: Seq<char>| #[trigger] value_in(after, n) == if n == name@ {
            Some(value@)
        } else {
            value_in(before, n)
        } by {
            lemma_value_in(after, n);
            lemma_value_in(before, n);
            assert(after[k as int].0@ == name@);
            if n != name@ {
                if value_in(before, n) is Some {
                    let i = choose|i: int| 0 <= i < before.len() && (#[trigger] before[i]).0@ == n;
                    let j = if found || i < k { i } else { i + 1 };
                    assert(after[j] == before[i]);
                } else {
                    assert forall|j: int| 0 <= j < after.len() implies (#[trigger] after[j]).0@
                        != n by {
                        if j != k {
                            let i = if found || j < k { j } else { j - 1 };
                            assert(after[j] == before[i]);
                        }
                    }
                }
            }
        }
    }
}

/// The variables of a session: some that every one has, unless the configuration sets
/// them, and those of the configuration.
pub open spec fn is_environment(env: Seq<(String, String)>, c: Configuration, spec: Json) -> bool {
    ordered(env) && forall|n: Seq<char>|
        #[trigger] value_in(env, n) == match value_in(c.env@, n) {
            Some(v) => Some(v),
            None => if n == "PKG_CONFIG_PATH"@ {
                text_at(spec, "pkg_config_path"@)
            } else if n == "SSL_CERT_DIR"@ {
                text_at(spec, "cacert_dir"@)
            } else if n == "SSL_CERT_FILE"@ {
                text_at(spec, "cacert_bundle"@)
            } else {
                None
            },
        }
}

/// Pairs of texts, again.
pub fn copy_pairs(v: &Vec<(String, String)>) -> (r: Vec<(String, String)>)
    ensures
        pairs(r@) == pairs(v@),
{
    let mut r: Vec<(String, String)> = Vec::new();
    let mut k: usize = 0;
    assert(pairs(r@) =~= pairs(v@).take(0));
    while k < v.len()
        invariant
            k <= v@.len(),
            r@.len() == k,
            pairs(r@) == pairs(v@).take(k as int),
        decreases v@.len() - k,
    {
        let ghost before = r@;
        r.push((v[k].0.clone(), v[k].1.clone()));
        assert(pairs(r@) =~= pairs(before).push(pairs(v@)[k as int]));
        assert(pairs(r@) =~= pairs(v@).take(k + 1));
        k += 1;
    }
    assert(pairs(v@).take(k as int) =~= pairs(v@));
    r
}

/// What is wrong before the search path of a build specification is looked at, if anything.
pub open spec fn early_error(c: Configuration, spec: Json) -> Option<Seq<char>> {
    let dependencies = member(spec, "dependencies"@);
    if !is_supported(spec) {
        Some("unsupported Goblin sandbox policy"@)
    } else if !is_empty_list(member(spec, "allowed_host_ports"@)) || !is_empty_list(
        member(spec, "published_ports"@),
    ) {
        Some("live launcher does not support network grants"@)
    } else if text_at(spec, "pkg_config_path"@) is None {
        Some(missing("pkg_config_path"@))
    } else if text_at(spec, "cacert_dir"@) is None {
        Some(missing("cacert_dir"@))
    } else if text_at(spec, "cacert_bundle"@) is None {
        Some(missing("cacert_bundle"@))
    } else if c.network && text_at(dependencies, "pasta"@) is None {
        Some("missing pasta"@)
    } else if text_at(spec, "sandboxed_binary"@) is None {
        Some(missing("sandboxed_binary"@))
    } else if text_at(spec, "shell"@) is None {
        Some(missing("shell"@))
    } else if text_at(dependencies, "bwrap"@) is None {
        Some("missing bwrap"@)
    } else {
        None
    }
}

/// Where nothing else is wrong, each directory of the search path lies in something.
pub open spec fn path_fits(c: Configuration, spec: Json) -> bool {
    early_error(c, spec) is None ==> (text_at(spec, "sandbox_path"@) matches Some(p) ==> all_held(
        p,
    ))
}

/// Why nothing is launched for a configuration, if so. The closure is what was read from
/// the file that lists the initial packages, or why it could not be read; the complaint is
/// that of what decodes the lists of paths.
pub open spec fn launch_error(
    c: Configuration,
    spec: Json,
    closure: Result<Vec<u8>, String>,
    complaint: Seq<char>,
) -> Option<Seq<char>> {
    if early_error(c, spec) is Some {
        early_error(c, spec)
    } else if text_at(spec, "sandbox_path"@) is None {
        Some(missing("sandbox_path"@))
    } else if text_at(spec, "closure_paths_file"@) is None {
        Some(missing("closure_paths_file"@))
    } else if closure is Err {
        Some(closure->Err_0@)
    } else if !valid_utf8(closure->Ok_0@) {
        Some(utf8_complaint(closure->Ok_0@))
    } else if text_list(member(spec, "rw_dirs"@)) is None || text_list(
        member(spec, "rw_files"@),
    ) is None || text_list(member(spec, "ro_dirs"@)) is None || text_list(
        member(spec, "ro_files"@),
    ) is None {
        Some(complaint)
    } else {
        None
    }
}

/// What is launched for a configuration that its build specification fits.
pub open spec fn is_launch(
    l: Launch,
    c: Configuration,
    spec: Json,
    closure: Seq<u8>,
) -> bool {
    let dependencies = member(spec, "dependencies"@);
    &&& l.description@ == c.description@
    &&& maybe(l.pasta) == if c.network {
        text_at(dependencies, "pasta"@)
    } else {
        None
    }
    &&& l.cwd is None
    &&& Some(l.shell@) == text_at(spec, "sandboxed_binary"@)
    &&& texts(l.shell_args@) == texts(c.args@)
    &&& Some(l.posix_shell@) == text_at(spec, "shell"@)
    &&& l.helper@ == c.helper@
    &&& Some(l.bwrap@) == text_at(dependencies, "bwrap"@)
    &&& l.flake@ == c.flake@
    &&& l.client_package@ == c.client_package@
    &&& texts(l.initial_packages@) == holders(parts_of(text_at(spec, "sandbox_path"@)->0, ':'))
    &&& texts(l.initial_closure@) == lines_of(decode_utf8(closure))
    &&& is_environment(l.env@, c, spec)
    &&& Some(texts(l.binds.rw_dirs@)) == text_list(member(spec, "rw_dirs"@))
    &&& Some(texts(l.binds.rw_files@)) == text_list(member(spec, "rw_files"@))
    &&& Some(texts(l.binds.ro_dirs@)) == text_list(member(spec, "ro_dirs"@))
    &&& Some(texts(l.binds.ro_files@)) == text_list(member(spec, "ro_files"@))
    &&& l.protected_paths@.len() == 0
    &&& pairs(l.sandbox_etc@) == pairs(c.sandbox_etc@)
    &&& maybe(l.integration) == maybe(c.integration)
    &&& (l.docker is Some) == (c.docker is Some)
    &&& l.docker matches Some(d) ==> d.alike(c.docker->0)
}

impl Configuration {
    fn environment(&self, a: &str, b: &str, c: &str, Ghost(spec): Ghost<Json>) -> (env: Vec<
        (String, String),
    >)
        requires
            ordered(self.env@),
            text_at(spec, "pkg_config_path"@) == Some(a@),
            text_at(spec, "cacert_dir"@) == Some(b@),
            text_at(spec, "cacert_bundle"@) == Some(c@),
        ensures
            is_environment(env@, *self, spec),
    {
        let mut env: Vec<(String, String)> = Vec::new();
        assert(forall|n: Seq<char>| value_in(env@, n) is None);
        proof {
            reveal_strlit("PKG_CONFIG_PATH");
            reveal_strlit("SSL_CERT_DIR");
            reveal_strlit("SSL_CERT_FILE");
            assert("PKG_CONFIG_PATH"@.len() == 15);
            assert("SSL_CERT_DIR"@.len() == 12);
            assert("SSL_CERT_FILE"@.len() == 13);
        }
        put_var(&mut env, "PKG_CONFIG_PATH", a);
        put_var(&mut env, "SSL_CERT_DIR", b);
        put_var(&mut env, "SSL_CERT_FILE", c);
        let ghost basis = env@;
        let mut k: usize = 0;
        assert(self.env@.take(0) =~= Seq::empty());
        while k < self.env.len()
            invariant
                k <= self.env@.len(),
                ordered(self.env@),
                ordered(env@),
                forall|n: Seq<char>|
                    #[trigger] value_in(env@, n) == match value_in(self.env@.take(k as int), n) {
                        Some(v) => Some(v),
                        None => value_in(basis, n),
                    },
            decreases self.env@.len() - k,
        {
            let ghost before = env@;
            put_var(&mut env, &self.env[k].0, &self.env[k].1);
            proof {
                let some = self.env@.take(k as int);
                let more = self.env@.take(k + 1);
                assert forall|n: Seq<char>| #[trigger] value_in(env@, n) == match value_in(
                    more,
                    n,
                ) {
                    Some(v) => Some(v),
                    None => value_in(basis, n),
                } by {
                    assert(value_in(before, n) == match value_in(some, n) {
                        Some(v) => Some(v),
                        None => value_in(basis, n),
                    });
                    lemma_value_in(some, n);
                    lemma_value_in(more, n);
                    assert(more[k as int] == self.env@[k as int]);
                    if n != self.env@[k as int].0@ {
                        if value_in(some, n) is Some {
                            let i = choose|i: int|
                                0 <= i < some.len() && (#[trigger] some[i]).0@ == n;
                            assert(more[i] == some[i]);
                        } else {
                            assert forall|j: int| 0 <= j < more.len() implies (
                                #[trigger] more[j]).0@ != n by {
                                if j < k {
                                    assert(more[j] == some[j]);
                                }
                            }
                        }
                    }
                }
            }
            k += 1;
        }
        assert(self.env@.take(k as int) =~= self.env@);
        env
    }

    /// The file that lists the initial packages, where the build specification names one.
    pub fn closure_file(spec: &Json) -> (r: Option<String>)
        ensures
            maybe(r) == text_at(*spec, "closure_paths_file"@),
    {
        match text_member(spec, "closure_paths_file") {
            Some(t) => Some(String::from_str(t)),
            None => None,
        }
    }

    /// What is wrong with a build specification before its search path is looked at.
    fn early(&self, spec: &Json) -> (r: Option<String>)
        ensures
            maybe(r) == early_error(*self, *spec),
    {
        let linux = match text_member(spec, "platform") {
            Some(t) => same(t, "linux"),
            None => false,
        };
        if !linux || !bool_member(spec, "allow_nix", false) || !bool_member(
            spec,
            "allow_unix_sockets",
            true,
        ) {
            return Some(String::from_str("unsupported Goblin sandbox policy"));
        }
        if !empty_member(spec, "allowed_host_ports") || !empty_member(spec, "published_ports") {
            return Some(String::from_str("live launcher does not support network grants"));
        }
        if let Err(e) = required(spec, "pkg_config_path") {
            return Some(e);
        }
        if let Err(e) = required(spec, "cacert_dir") {
            return Some(e);
        }
        if let Err(e) = required(spec, "cacert_bundle") {
            return Some(e);
        }
        let null = Json::Null;
        let dependencies = match spec.get("dependencies") {
            Some(d) => d,
            None => &null,
        };
        assert(*dependencies == member(*spec, "dependencies"@));
        if self.network && text_member(dependencies, "pasta").is_none() {
            return Some(String::from_str("missing pasta"));
        }
        if let Err(e) = required(spec, "sandboxed_binary") {
            return Some(e);
        }
        if let Err(e) = required(spec, "shell") {
            return Some(e);
        }
        if text_member(dependencies, "bwrap").is_none() {
            return Some(String::from_str("missing bwrap"));
        }
        None
    }

    /// Whether the search path of a build specification can be looked at, where that is done.
    pub fn path_fits(&self, spec: &Json) -> (r: bool)
        ensures
            r == path_fits(*self, *spec),
    {
        self.early(spec).is_some() || search_path_fits(spec)
    }

    /// What is launched for a configuration, by its build specification and what was
    /// read from the file that lists the initial packages. Where the lists of paths are
    /// none, the complaint of what decodes them tells why.
    pub fn launch(&self, spec: &Json, closure: &Result<Vec<u8>, String>, complaint: &str) -> (r:
        Result<Launch, String>)
        requires
            ordered(self.env@),
            path_fits(*self, *spec),
        ensures
            match launch_error(*self, *spec, *closure, complaint@) {
                Some(e) => r matches Err(t) && t@ == e,
                None => r matches Ok(l) && is_launch(l, *self, *spec, closure->Ok_0@),
            },
    {
        if let Some(e) = self.early(spec) {
            return Err(e);
        }
        let pkg_config = required(spec, "pkg_config_path")?;
        let cert_dir = required(spec, "cacert_dir")?;
        let cert_bundle = required(spec, "cacert_bundle")?;
        let env = self.environment(&pkg_config, &cert_dir, &cert_bundle, Ghost(*spec));
        let null = Json::Null;
        let dependencies = match spec.get("dependencies") {
            Some(d) => d,
            None => &null,
        };
        assert(*dependencies == member(*spec, "dependencies"@));
        let mut pasta: Option<String> = None;
        if self.network {
            match text_member(dependencies, "pasta") {
                Some(t) => {
                    pasta = Some(String::from_str(t));
                },
                None => {
                    return Err(String::from_str("missing pasta"));
                },
            }
        }
        let shell = required(spec, "sandboxed_binary")?;
        let posix_shell = required(spec, "shell")?;
        let bwrap = match text_member(dependencies, "bwrap") {
            Some(t) => String::from_str(t),
            None => {
                return Err(String::from_str("missing bwrap"));
            },
        };
        let path = required(spec, "sandbox_path")?;
        let initial_packages = packages(&path);
        required(spec, "closure_paths_file")?;
        let bytes: &Vec<u8> = match closure {
            Ok(b) => b,
            Err(e) => {
                return Err(e.clone());
            },
        };
        let listed = from_utf8(bytes.as_slice())?;
        let initial_closure = lines(&listed);
        let binds = match Self::declarations(spec) {
            Some(b) => b,
            None => {
                return Err(String::from_str(complaint));
            },
        };
        let docker = match &self.docker {
            Some(d) => Some(d.copy()),
            None => None,
        };
        Ok(
            Launch {
                description: self.description.clone(),
                pasta,
                cwd: None,
                shell,
                shell_args: self.args.clone(),
                posix_shell,
                helper: self.helper.clone(),
                bwrap,
                flake: self.flake.clone(),
                client_package: self.client_package.clone(),
                initial_packages,
                initial_closure,
                env,
                binds,
                protected_paths: Vec::new(),
                sandbox_etc: copy_pairs(&self.sandbox_etc),
                integration: self.integration.clone(),
                docker,
            },
        )
    }

    fn declarations(spec: &Json) -> (r: Option<Declarations>)
        ensures
            r is None <==> (text_list(member(*spec, "rw_dirs"@)) is None || text_list(
                member(*spec, "rw_files"@),
            ) is None || text_list(member(*spec, "ro_dirs"@)) is None || text_list(
                member(*spec, "ro_files"@),
            ) is None),
            r matches Some(d) ==> {
                &&& Some(texts(d.rw_dirs@)) == text_list(member(*spec, "rw_dirs"@))
                &&& Some(texts(d.rw_files@)) == text_list(member(*spec, "rw_files"@))
                &&& Some(texts(d.ro_dirs@)) == text_list(member(*spec, "ro_dirs"@))
                &&& Some(texts(d.ro_files@)) == text_list(member(*spec, "ro_files"@))
            },
    {
        let rw_dirs = list_member(spec, "rw_dirs")?;
        let rw_files = list_member(spec, "rw_files")?;
        let ro_dirs = list_member(spec, "ro_dirs")?;
        let ro_files = list_member(spec, "ro_files")?;
        Some(Declarations { rw_dirs, rw_files, ro_dirs, ro_files })
    }
}

/// A configuration names scopes of the host's catalog alone, whatever was selected.
pub proof fn a_selected_scope_is_declared(m: Manifest, name: Seq<char>, scope: Seq<char>)
    requires
        selection(m, name) is Ok,
        0 <= selection(m, name)->Ok_0 < m.goblins@.len(),
        m.goblins@[selection(m, name)->Ok_0].1.docker is Some,
        ({
            let d = m.goblins@[selection(m, name)->Ok_0].1.docker->0;
            maybe(d.default_scope) == Some(scope) || texts(d.allowed_scopes@).contains(scope)
        }),
    ensures
        texts(m.docker_scopes@).contains(scope),
        is_scope_name(scope),
{
    let scopes = texts(m.docker_scopes@);
    let d = m.goblins@[selection(m, name)->Ok_0].1.docker->0;
    assert(d.declares(scopes));
    if texts(d.allowed_scopes@).contains(scope) {
        let i = choose|i: int|
            0 <= i < d.allowed_scopes@.len() && texts(d.allowed_scopes@)[i] == scope;
        assert(d.allowed_scopes@[i]@ == scope);
    }
    let j = choose|j: int| 0 <= j < scopes.len() && scopes[j] == scope;
    assert(is_scope_name(scopes[j]));
}

/// A goblin is selected by its name: the first of it.
pub proof fn a_goblin_is_selected_by_its_name(m: Manifest, name: Seq<char>, i: int)
    requires
        m.api == 1 && m.helper_api == 4,
        is_catalog(texts(m.docker_scopes@)),
        all_declared(m.goblins@, texts(m.docker_scopes@)),
        0 <= i < m.goblins@.len(),
        m.goblins@[i].0@ == name,
        forall|j: int| 0 <= j < i ==> (#[trigger] m.goblins@[j]).0@ != name,
    ensures
        selection(m, name) == Ok::<int, Seq<char>>(i),
{
    lemma_position(m.goblins@, name, i);
}

proof fn lemma_position(goblins: Seq<(String, Configuration)>, name: Seq<char>, i: int)
    requires
        0 <= i < goblins.len(),
        goblins[i].0@ == name,
        forall|j: int| 0 <= j < i ==> (#[trigger] goblins[j]).0@ != name,
    ensures
        position_of(goblins, name) == Some(i),
    decreases goblins.len(),
{
    if i > 0 {
        let rest = goblins.drop_first();
        assert forall|j: int| 0 <= j < i - 1 implies (#[trigger] rest[j]).0@ != name by {
            assert(rest[j] == goblins[j + 1]);
        }
        assert(goblins[0].0@ != name);
        lemma_position(rest, name, i - 1);
    }
}

/// A variable that a configuration sets has the value that it sets, whatever the build
/// specification says; the certificates and the libraries of that are found where the
/// configuration does not say.
pub proof fn a_configuration_sets_its_variables(
    l: Launch,
    c: Configuration,
    spec: Json,
    closure: Seq<u8>,
    n: Seq<char>,
)
    requires
        is_launch(l, c, spec, closure),
    ensures
        value_in(c.env@, n) is Some ==> value_in(l.env@, n) == value_in(c.env@, n),
        value_in(c.env@, "SSL_CERT_DIR"@) is None ==> value_in(l.env@, "SSL_CERT_DIR"@) == text_at(
            spec,
            "cacert_dir"@,
        ),
        value_in(c.env@, "SSL_CERT_FILE"@) is None ==> value_in(l.env@, "SSL_CERT_FILE"@)
            == text_at(spec, "cacert_bundle"@),
        value_in(c.env@, "PKG_CONFIG_PATH"@) is None ==> value_in(l.env@, "PKG_CONFIG_PATH"@)
            == text_at(spec, "pkg_config_path"@),
        (value_in(c.env@, n) is None && n != "SSL_CERT_DIR"@ && n != "SSL_CERT_FILE"@ && n
            != "PKG_CONFIG_PATH"@) ==> value_in(l.env@, n) is None,
{
    reveal_strlit("SSL_CERT_DIR");
    reveal_strlit("SSL_CERT_FILE");
    reveal_strlit("PKG_CONFIG_PATH");
    assert("SSL_CERT_DIR"@.len() == 12 && "SSL_CERT_FILE"@.len() == 13 && "PKG_CONFIG_PATH"@.len()
        == 15);
}

/// A launch has a network exactly where its configuration does, and runs the programs of its
/// build specification with the arguments of its configuration.
pub proof fn a_launch_runs_what_was_built(l: Launch, c: Configuration, spec: Json, closure: Seq<u8>)
    requires
        is_launch(l, c, spec, closure),
        early_error(c, spec) is None,
    ensures
        l.pasta is Some <==> c.network,
        lookup(spec.fields(), "sandboxed_binary"@) matches Some(Json::Text(t)) && l.shell@ == t@,
        lookup(spec.fields(), "shell"@) matches Some(Json::Text(t)) && l.posix_shell@ == t@,
        texts(l.shell_args@) == texts(c.args@),
        l.helper@ == c.helper@ && l.flake@ == c.flake@ && l.client_package@ == c.client_package@,
        l.docker is Some <==> c.docker is Some,
        l.docker matches Some(d) ==> d.daemon@ == (c.docker->0).daemon@ && d.enabled == (
        c.docker->0).enabled && maybe(d.default_scope) == maybe((c.docker->0).default_scope)
            && texts(d.allowed_scopes@) == texts((c.docker->0).allowed_scopes@),
        maybe(l.integration) == maybe(c.integration),
{
}

/// Each directory of a search path is searched in the package that holds it.
pub proof fn every_directory_has_its_package(directories: Seq<Seq<char>>, i: int)
    requires
        0 <= i < directories.len(),
        directories[i].len() > 0,
        parent_of(directories[i]) is Some,
    ensures
        holders(directories).contains(parent_of(directories[i])->0),
        holders(directories).len() <= directories.len(),
    decreases directories.len(),
{
    let most = directories.drop_last();
    let all = holders(directories);
    if i < most.len() {
        every_directory_has_its_package(most, i);
        let x = parent_of(directories[i])->0;
        let k = choose|k: int| 0 <= k < holders(most).len() && holders(most)[k] == x;
        assert(all[k] == x);
    } else {
        assert(all[all.len() - 1] == parent_of(directories[i])->0);
    }
    lemma_holders(directories);
}

proof fn lemma_holders(directories: Seq<Seq<char>>)
    ensures
        holders(directories).len() <= directories.len(),
    decreases directories.len(),
{
    if directories.len() > 0 {
        lemma_holders(directories.drop_last());
    }
}

/// What a build specification lists is declared: every path of each list, and no other.
pub proof fn listed_paths_are_declared(v: Json, items: Vec<Json>, i: int)
    requires
        v == Json::Array(items),
        forall|j: int| 0 <= j < items@.len() ==> (#[trigger] items@[j]) is Text,
    ensures
        text_list(v) matches Some(l) && l.len() == items@.len() && (0 <= i < items@.len() ==> l[i]
            == items@[i]->Text_0@),
{
}

} // verus!
