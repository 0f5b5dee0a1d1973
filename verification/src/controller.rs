//! The authority of a host over its sessions: who owns whom, what a name means
//! to whom, what starts and stops, and what is permitted.
//!
//! A controller decides; it owns no process, no socket and no thread. Where an
//! entry says that a worker is cancelled, that an endpoint no longer listens or
//! that a pending request is gone, the caller makes it so.
use vstd::prelude::*;

use crate::connection::Connection;
use crate::directory::{
    descends, entry, fault, parent_of, put_all, Directory, Fault, Session, SessionView,
};
use crate::names::{
    drawn, goblin_names, goblin_pool, is_agent_name, lemma_drawn_in_range, random_name, said,
    valid_agent_name,
};
use crate::records::{PermissionRecord, SessionRecord, SessionState};
use crate::rpc::result;
use crate::terminal::Terminal;
use crate::text::{chars, copy_option, maybe, same, span, starts_with};

verus! {

/// The most connections of hosts.
pub const HOSTS: usize = 32;

/// The most sessions that have a worker.
pub const SESSIONS: usize = 16;

/// The most sessions that are remembered.
pub const RECORDS: usize = 128;

/// The most permissions that are remembered.
pub const PERMISSIONS: usize = 256;

/// The most launches that are remembered.
pub const LAUNCHES: usize = 4096;

pub open spec fn is_missing() -> (int, Seq<char>) {
    (-32004, "record absent or no longer retained"@)
}

pub open spec fn is_stale() -> (int, Seq<char>) {
    (-32009, "stale or conflicting operation"@)
}

pub open spec fn is_full() -> (int, Seq<char>) {
    (-32010, "resource limit reached"@)
}

/// Nothing is known under that name.
pub fn missing() -> (r: Fault)
    ensures
        fault(r) == is_missing(),
{
    (-32004, String::from_str("record absent or no longer retained"))
}

/// What is asked for no longer fits.
pub fn conflict() -> (r: Fault)
    ensures
        fault(r) == is_stale(),
{
    (-32009, String::from_str("stale or conflicting operation"))
}

/// There is no room.
pub fn capacity() -> (r: Fault)
    ensures
        fault(r) == is_full(),
{
    (-32010, String::from_str("resource limit reached"))
}

/// Whether a terminal may have that size.
pub fn dimensions(rows: u16, cols: u16) -> (r: bool)
    ensures
        r == (1 <= rows <= 1000 && 1 <= cols <= 1000),
{
    1 <= rows && rows <= 1000 && 1 <= cols && cols <= 1000
}

/// The first 512 characters of a text.
pub fn bounded(text: &str) -> (r: String)
    ensures
        r@ == first_of(text@, 512),
{
    let c = chars(text);
    let n: usize = if c.len() < 512 {
        c.len()
    } else {
        512
    };
    let r = span(&c, 0, n);
    assert(r@ =~= first_of(text@, 512));
    r
}

pub open spec fn first_of(s: Seq<char>, n: int) -> Seq<char> {
    if s.len() < n {
        s
    } else {
        s.take(n)
    }
}

/// A permission that a session waits for.
pub struct Pending {
    /// The path of the package, where it is one that the session began with.
    pub initial_output: Option<String>,
    pub id: String,
    pub serial: u64,
    pub connection: u64,
    /// Work on a preview is no longer wanted.
    pub cancelled: bool,
}

/// What a session passes on to the children that it starts, as far as the
/// controller decides by it.
pub struct Inheritance {
    pub description: String,
    pub integration: Option<String>,
    pub default_scope: Option<String>,
    pub allowed_scopes: Vec<String>,
    pub initial_packages: Vec<String>,
}

pub struct Active {
    pub created: u64,
    pub record: SessionRecord,
    /// A worker serves the session.
    pub worker: bool,
    /// The worker is to end.
    pub cancelled: bool,
    /// The session's own endpoint takes connections.
    pub listening: bool,
    pub pending: Option<Pending>,
    pub terminal: Terminal,
    pub inheritance: Option<Inheritance>,
    /// The payload's exit is watched.
    pub exit_watch: bool,
    pub granted_outputs: Vec<(String, String)>,
}

/// A request to start a session.
pub struct Start {
    pub key: String,
    pub configuration: String,
    pub name: String,
    pub agent_name: Option<String>,
    pub parent: Option<String>,
    pub cwd: Option<String>,
    pub rows: u16,
    pub cols: u16,
    pub detached: bool,
}

/// What a started session is announced as.
pub struct Started {
    pub session: String,
    pub agent_name: String,
    pub path: String,
    pub parent: Option<String>,
    pub terminal: String,
}

/// A launch that was made, under the caller's key.
pub struct Launched {
    pub key: String,
    pub start: Start,
    pub result: Started,
}

pub struct Controller {
    pub instance: String,
    pub next: u64,
    pub sequence: u64,
    pub connections: Vec<Connection>,
    pub sessions: Vec<Active>,
    pub permissions: Vec<PermissionRecord>,
    pub launches: Vec<Launched>,
    /// The connection that asked for the end, and when it is waited for no longer.
    pub shutdown: Option<(u64, u64)>,
    pub dirty: bool,
}

// ---------------------------------------------------------------------------
// Who owns whom
// ---------------------------------------------------------------------------

/// The sessions as a directory, where those with a worker run.
pub open spec fn tree(s: Seq<Active>) -> Seq<SessionView> {
    s.map_values(
        |a: Active|
            SessionView {
                id: a.record.id@,
                parent: maybe(a.record.parent),
                path: a.record.path@,
                running: a.worker,
            },
    )
}

/// Whether a session descends from another.
pub open spec fn below(s: Seq<Active>, id: Seq<char>, ancestor: Seq<char>) -> bool {
    descends(tree(s), id, ancestor, s.len())
}

/// The place of the session of that ID.
pub open spec fn place(s: Seq<Active>, id: Seq<char>) -> Option<int>
    decreases s.len(),
{
    if s.len() == 0 {
        None
    } else if s[0].record.id@ == id {
        Some(0)
    } else {
        match place(s.drop_first(), id) {
            Some(i) => Some(i + 1),
            None => None,
        }
    }
}

pub(crate) proof fn lemma_place(s: Seq<Active>, id: Seq<char>)
    ensures
        match place(s, id) {
            Some(i) => {
                &&& 0 <= i < s.len()
                &&& s[i].record.id@ == id
                &&& entry(tree(s), id) == Some(tree(s)[i])
                &&& forall|j: int| 0 <= j < i ==> (#[trigger] s[j]).record.id@ != id
            },
            None => {
                &&& entry(tree(s), id) is None
                &&& forall|j: int| 0 <= j < s.len() ==> (#[trigger] s[j]).record.id@ != id
            },
        },
    decreases s.len(),
{
    if s.len() > 0 {
        let rest = s.drop_first();
        assert(tree(s).drop_first() =~= tree(rest));
        lemma_place(rest, id);
        if s[0].record.id@ != id {
            assert forall|j: int|
                0 <= j < s.len() && (place(rest, id) matches Some(i) ==> j < i + 1) implies (
            #[trigger] s[j]).record.id@ != id by {
                if j > 0 {
                    assert(rest[j - 1] == s[j]);
                }
            }
        }
    }
}

/// A session that has a worker.
pub open spec fn is_live(a: Active) -> bool {
    a.worker
}

/// A name is in use among the children of a parent while a child of that name,
/// or anything below it, has a worker.
pub open spec fn name_in_use(s: Seq<Active>, parent: Option<Seq<char>>, name: Seq<char>) -> bool {
    exists|i: int| #[trigger] holds_name(s, i, parent, name)
}

pub open spec fn holds_name(
    s: Seq<Active>,
    i: int,
    parent: Option<Seq<char>>,
    name: Seq<char>,
) -> bool {
    &&& 0 <= i < s.len()
    &&& maybe(s[i].record.parent) == parent
    &&& s[i].record.agent_name@ == name
    &&& s[i].worker || has_live_below(s, s[i].record.id@)
}

pub open spec fn has_live_below(s: Seq<Active>, id: Seq<char>) -> bool {
    exists|k: int| 0 <= k < s.len() && (#[trigger] s[k]).worker && below(s, s[k].record.id@, id)
}

/// Those of the given names, in their order, that are not in use.
pub open spec fn free_names(
    s: Seq<Active>,
    parent: Option<Seq<char>>,
    names: Seq<Seq<char>>,
) -> Seq<Seq<char>>
    decreases names.len(),
{
    if names.len() == 0 {
        Seq::empty()
    } else {
        let before = free_names(s, parent, names.drop_last());
        if name_in_use(s, parent, names.last()) {
            before
        } else {
            before.push(names.last())
        }
    }
}

pub open spec fn maybe_bytes(b: Option<&[u8]>) -> Option<Seq<u8>> {
    match b {
        Some(b) => Some(b@),
        None => None,
    }
}

/// The name that a new child of a parent gets, or why it gets none.
pub open spec fn allocated(
    s: Seq<Active>,
    requested: Option<Seq<char>>,
    parent: Option<Seq<char>>,
    random: Option<Seq<u8>>,
) -> Result<Seq<char>, (int, Seq<char>)> {
    match requested {
        Some(name) => if !is_agent_name(name) {
            Err(
                (
                    -32602,
                    "agent_name must be 1..32 ASCII lowercase letters, digits or hyphens, starting with a letter"@,
                ),
            )
        } else if name_in_use(s, parent, name) {
            Err((-32009, "agent name '"@ + name + "' is already in use"@))
        } else {
            Ok(name)
        },
        None => match random {
            None => Err((-32010, "cannot open randomness source for agent name"@)),
            Some(bytes) => {
                let free = free_names(s, parent, goblin_pool());
                if free.len() == 0 {
                    Err((-32010, "automatic agent name pool exhausted"@))
                } else {
                    match drawn(free.len(), bytes, 0) {
                        Ok(k) => Ok(free[k as int]),
                        Err(e) => Err((-32010, e)),
                    }
                }
            },
        },
    }
}

/// The path of a session below another, or its whole path.
pub open spec fn relative(s: Seq<Active>, path: Seq<char>, scope: Option<Seq<char>>) -> Seq<char> {
    match scope {
        None => path,
        Some(id) => match place(s, id) {
            None => path,
            Some(i) => {
                let prefix = s[i].record.path@ + "/"@;
                if prefix.is_prefix_of(path) {
                    path.skip(prefix.len() as int)
                } else {
                    path
                }
            },
        },
    }
}

/// Whether a caller sees a session: the host every one, a session what descends from it.
pub open spec fn sees(s: Seq<Active>, scope: Option<Seq<char>>, i: int) -> bool {
    match scope {
        None => true,
        Some(root) => below(s, s[i].record.id@, root),
    }
}

/// The first session, from the place `i` on, that is seen and has that ID.
pub open spec fn seen_by_id(
    s: Seq<Active>,
    target: Seq<char>,
    scope: Option<Seq<char>>,
    i: int,
) -> Option<int>
    decreases s.len() - i,
{
    if i < 0 || i >= s.len() {
        None
    } else if sees(s, scope, i) && s[i].record.id@ == target {
        Some(i)
    } else {
        seen_by_id(s, target, scope, i + 1)
    }
}

/// The first live session, from the place `i` on, that is seen and has that path.
pub open spec fn seen_by_path(
    s: Seq<Active>,
    target: Seq<char>,
    scope: Option<Seq<char>>,
    i: int,
) -> Option<int>
    decreases s.len() - i,
{
    if i < 0 || i >= s.len() {
        None
    } else if sees(s, scope, i) && s[i].worker && relative(s, s[i].record.path@, scope) == target {
        Some(i)
    } else {
        seen_by_path(s, target, scope, i + 1)
    }
}

/// The live sessions, from the place `i` on, that are seen and have that name.
pub open spec fn seen_by_name(
    s: Seq<Active>,
    target: Seq<char>,
    scope: Option<Seq<char>>,
    i: int,
) -> Seq<int>
    decreases s.len() - i,
{
    if i < 0 || i >= s.len() {
        Seq::empty()
    } else if sees(s, scope, i) && s[i].worker && s[i].record.agent_name@ == target {
        seq![i] + seen_by_name(s, target, scope, i + 1)
    } else {
        seen_by_name(s, target, scope, i + 1)
    }
}

/// The session that a target means to a caller: by its ID, or, while it lives, by
/// its path or by a name that no other has.
pub open spec fn meant(s: Seq<Active>, target: Seq<char>, scope: Option<Seq<char>>) -> Result<
    int,
    (int, Seq<char>),
> {
    if seen_by_id(s, target, scope, 0) is Some {
        Ok(seen_by_id(s, target, scope, 0)->0)
    } else if seen_by_path(s, target, scope, 0) is Some {
        Ok(seen_by_path(s, target, scope, 0)->0)
    } else {
        let found = seen_by_name(s, target, scope, 0);
        if found.len() == 0 {
            Err(is_missing())
        } else if found.len() > 1 {
            Err((-32009, "ambiguous agent name; use its tree path or session ID"@))
        } else {
            Ok(found[0])
        }
    }
}

pub open spec fn maybe_str(s: Option<&str>) -> Option<Seq<char>> {
    match s {
        Some(t) => Some(t@),
        None => None,
    }
}

fn same_parent(a: &Option<String>, b: Option<&str>) -> (r: bool)
    ensures
        r == (maybe(*a) == maybe_str(b)),
{
    match (a, b) {
        (Some(x), Some(y)) => same(x.as_str(), y),
        (None, None) => true,
        _ => false,
    }
}

impl Controller {
    /// The place of the session of that ID.
    pub fn find(&self, id: &str) -> (r: Option<usize>)
        ensures
            match r {
                Some(i) => place(self.sessions@, id@) == Some(i as int) && i < self.sessions@.len(),
                None => place(self.sessions@, id@) is None,
            },
    {
        let ghost s = self.sessions@;
        let mut i: usize = 0;
        assert(s.skip(0) =~= s);
        while i < self.sessions.len()
            invariant
                s == self.sessions@,
                i <= s.len(),
                place(s, id@) == (match place(s.skip(i as int), id@) {
                    Some(k) => Some(k + i),
                    None => None,
                }),
            decreases s.len() - i,
        {
            if same(self.sessions[i].record.id.as_str(), id) {
                return Some(i);
            }
            assert(s.skip(i as int).drop_first() =~= s.skip(i + 1));
            i += 1;
        }
        None
    }

    fn parent(&self, id: &str) -> (r: Option<&String>)
        ensures
            match r {
                Some(p) => parent_of(tree(self.sessions@), id@) == Some(p@),
                None => parent_of(tree(self.sessions@), id@) is None,
            },
    {
        proof {
            lemma_place(self.sessions@, id@);
        }
        match self.find(id) {
            Some(i) => self.sessions[i].record.parent.as_ref(),
            None => None,
        }
    }

    /// Whether a session descends from another.
    pub fn descendant(&self, id: &str, ancestor: &str) -> (r: bool)
        ensures
            r == below(self.sessions@, id@, ancestor@),
    {
        let ghost t = tree(self.sessions@);
        let mut current: String = String::from_str(id);
        let mut steps: usize = self.sessions.len();
        while steps > 0
            invariant
                t == tree(self.sessions@),
                descends(t, id@, ancestor@, self.sessions@.len()) == descends(
                    t,
                    current@,
                    ancestor@,
                    steps as nat,
                ),
            decreases steps,
        {
            match self.parent(current.as_str()) {
                None => {
                    return false;
                },
                Some(p) => {
                    if same(p.as_str(), ancestor) {
                        return true;
                    }
                    current = p.clone();
                },
            }
            steps -= 1;
        }
        false
    }

    fn live_below(&self, id: &str) -> (r: bool)
        ensures
            r == has_live_below(self.sessions@, id@),
    {
        let ghost s = self.sessions@;
        let mut k: usize = 0;
        while k < self.sessions.len()
            invariant
                s == self.sessions@,
                k <= s.len(),
                forall|j: int|
                    0 <= j < k ==> !((#[trigger] s[j]).worker && below(s, s[j].record.id@, id@)),
            decreases s.len() - k,
        {
            if self.sessions[k].worker && self.descendant(
                self.sessions[k].record.id.as_str(),
                id,
            ) {
                return true;
            }
            k += 1;
        }
        false
    }

    /// Whether a name is in use among the children of a parent.
    pub fn name_taken(&self, parent: Option<&str>, name: &str) -> (r: bool)
        ensures
            r == name_in_use(self.sessions@, maybe_str(parent), name@),
    {
        let ghost s = self.sessions@;
        let mut i: usize = 0;
        while i < self.sessions.len()
            invariant
                s == self.sessions@,
                i <= s.len(),
                forall|j: int|
                    0 <= j < i ==> !#[trigger] holds_name(s, j, maybe_str(parent), name@),
            decreases s.len() - i,
        {
            let a = &self.sessions[i];
            if same_parent(&a.record.parent, parent) && same(a.record.agent_name.as_str(), name) && (
            a.worker || self.live_below(a.record.id.as_str())) {
                assert(holds_name(s, i as int, maybe_str(parent), name@));
                return true;
            }
            assert(!holds_name(s, i as int, maybe_str(parent), name@));
            i += 1;
        }
        false
    }

    /// A name for a new child of a parent: the one asked for, if it is a name and
    /// free, or a free one of the pool, chosen by random bytes.
    pub fn allocate_name(
        &self,
        requested: Option<&str>,
        parent: Option<&str>,
        random: Option<&[u8]>,
    ) -> (r: Result<String, Fault>)
        ensures
            match r {
                Ok(n) => {
                    &&& allocated(
                        self.sessions@,
                        maybe_str(requested),
                        maybe_str(parent),
                        maybe_bytes(random),
                    ) == Ok::<Seq<char>, (int, Seq<char>)>(n@)
                    &&& is_agent_name(n@)
                    &&& !name_in_use(self.sessions@, maybe_str(parent), n@)
                },
                Err(f) => allocated(
                    self.sessions@,
                    maybe_str(requested),
                    maybe_str(parent),
                    maybe_bytes(random),
                ) == Err::<Seq<char>, (int, Seq<char>)>(fault(f)),
            },
    {
        if let Some(name) = requested {
            if !valid_agent_name(name) {
                return Err(
                    (
                        -32602,
                        String::from_str(
                            "agent_name must be 1..32 ASCII lowercase letters, digits or hyphens, starting with a letter",
                        ),
                    ),
                );
            }
            if self.name_taken(parent, name) {
                let mut message = String::from_str("agent name '");
                message.push_str(name);
                message.push_str("' is already in use");
                return Err((-32009, message));
            }
            return Ok(String::from_str(name));
        }
        let bytes = match random {
            Some(bytes) => bytes,
            None => {
                return Err(
                    (-32010, String::from_str("cannot open randomness source for agent name")),
                );
            },
        };
        let pool = goblin_names();
        let mut free: Vec<&'static str> = Vec::new();
        let mut i: usize = 0;
        assert(said(pool@.take(0)) =~= Seq::<Seq<char>>::empty());
        assert(said(free@) =~= Seq::<Seq<char>>::empty());
        while i < pool.len()
            invariant
                i <= pool@.len(),
                forall|j: int| 0 <= j < pool@.len() ==> is_agent_name(#[trigger] pool@[j]@),
                said(free@) == free_names(
                    self.sessions@,
                    maybe_str(parent),
                    said(pool@.take(i as int)),
                ),
                forall|j: int|
                    0 <= j < free@.len() ==> is_agent_name(#[trigger] free@[j]@) && !name_in_use(
                        self.sessions@,
                        maybe_str(parent),
                        free@[j]@,
                    ),
            decreases pool@.len() - i,
        {
            assert(said(pool@.take(i + 1)).drop_last() =~= said(pool@.take(i as int)));
            if !self.name_taken(parent, pool[i]) {
                let ghost before = free@;
                free.push(pool[i]);
                assert(said(free@) =~= said(before).push(pool@[i as int]@));
            }
            i += 1;
        }
        assert(pool@.take(i as int) =~= pool@);
        proof {
            if free@.len() > 0 {
                lemma_drawn_in_range(free@.len(), bytes@, 0);
            }
        }
        match random_name(free.as_slice(), bytes) {
            Ok(name) => Ok(String::from_str(name)),
            Err(f) => Err(f),
        }
    }

    /// The path of a session as a caller sees it.
    fn relative_path(&self, path: &str, scope: Option<&str>) -> (r: String)
        ensures
            r@ == relative(self.sessions@, path@, maybe_str(scope)),
    {
        let id = match scope {
            Some(id) => id,
            None => {
                return String::from_str(path);
            },
        };
        match self.find(id) {
            None => String::from_str(path),
            Some(i) => {
                let mut prefix = self.sessions[i].record.path.clone();
                prefix.push_str("/");
                strip_prefix(path, prefix.as_str())
            },
        }
    }

    fn visible(&self, scope: Option<&str>, i: usize) -> (r: bool)
        requires
            i < self.sessions@.len(),
        ensures
            r == sees(self.sessions@, maybe_str(scope), i as int),
    {
        match scope {
            None => true,
            Some(root) => self.descendant(self.sessions[i].record.id.as_str(), root),
        }
    }

    /// The place of the session that a target means to a caller.
    pub fn resolve_scoped(&self, target: &str, scope: Option<&str>) -> (r: Result<usize, Fault>)
        ensures
            match r {
                Ok(i) => i < self.sessions@.len() && meant(
                    self.sessions@,
                    target@,
                    maybe_str(scope),
                ) == Ok::<int, (int, Seq<char>)>(i as int),
                Err(f) => meant(self.sessions@, target@, maybe_str(scope)) == Err::<
                    int,
                    (int, Seq<char>),
                >(fault(f)),
            },
    {
        let ghost s = self.sessions@;
        let ghost sc = maybe_str(scope);
        let mut i: usize = 0;
        while i < self.sessions.len()
            invariant
                s == self.sessions@,
                sc == maybe_str(scope),
                i <= s.len(),
                seen_by_id(s, target@, sc, 0) == seen_by_id(s, target@, sc, i as int),
            decreases s.len() - i,
        {
            if self.visible(scope, i) && same(self.sessions[i].record.id.as_str(), target) {
                return Ok(i);
            }
            i += 1;
        }
        i = 0;
        while i < self.sessions.len()
            invariant
                s == self.sessions@,
                sc == maybe_str(scope),
                i <= s.len(),
                seen_by_id(s, target@, sc, 0) is None,
                seen_by_path(s, target@, sc, 0) == seen_by_path(s, target@, sc, i as int),
            decreases s.len() - i,
        {
            if self.visible(scope, i) && self.sessions[i].worker && same(
                self.relative_path(self.sessions[i].record.path.as_str(), scope).as_str(),
                target,
            ) {
                return Ok(i);
            }
            i += 1;
        }
        let mut first: Option<usize> = None;
        let mut several: bool = false;
        i = 0;
        while i < self.sessions.len()
            invariant
                s == self.sessions@,
                sc == maybe_str(scope),
                i <= s.len(),
                ({
                    let all = seen_by_name(s, target@, sc, 0);
                    let rest = seen_by_name(s, target@, sc, i as int);
                    match first {
                        None => !several && all == rest,
                        Some(k) => {
                            &&& k < i
                            &&& all.len() >= 1 + rest.len()
                            &&& all[0] == k
                            &&& several ==> all.len() > 1
                            &&& !several ==> all.len() == 1 + rest.len()
                        },
                    }
                }),
            decreases s.len() - i,
        {
            if self.visible(scope, i) && self.sessions[i].worker && same(
                self.sessions[i].record.agent_name.as_str(),
                target,
            ) {
                if first.is_some() {
                    several = true;
                } else {
                    first = Some(i);
                }
            }
            i += 1;
        }
        match first {
            None => Err(missing()),
            Some(k) => {
                if several {
                    return Err(
                        (
                            -32009,
                            String::from_str(
                                "ambiguous agent name; use its tree path or session ID",
                            ),
                        ),
                    );
                }
                Ok(k)
            },
        }
    }

    /// The session that a target means to the host.
    pub fn resolve_session(&self, target: &str) -> (r: Result<usize, Fault>)
        ensures
            match r {
                Ok(i) => i < self.sessions@.len() && meant(self.sessions@, target@, None) == Ok::<
                    int,
                    (int, Seq<char>),
                >(i as int),
                Err(f) => meant(self.sessions@, target@, None) == Err::<int, (int, Seq<char>)>(
                    fault(f),
                ),
            },
    {
        self.resolve_scoped(target, None)
    }

    /// What a session is shown of another: no path of the host, no process, no
    /// socket and no diagnosis, and paths as below the caller.
    ///
    /// The owner is left out where it is the caller.
    pub fn sandbox_record(&self, i: usize, scope: &str) -> (r: SandboxRecord)
        requires
            i < self.sessions@.len(),
        ensures
            shows(r, self.sessions@, i as int, scope@),
    {
        let record = &self.sessions[i].record;
        let parent = match &record.parent {
            Some(p) => if same(p.as_str(), scope) {
                None
            } else {
                Some(p.clone())
            },
            None => None,
        };
        SandboxRecord {
            id: record.id.clone(),
            agent_name: record.agent_name.clone(),
            parent,
            path: self.relative_path(record.path.as_str(), Some(scope)),
            name: record.name.clone(),
            description: record.description.clone(),
            state: record.state,
            initial_packages: record.initial_packages.clone(),
            packages: record.packages.clone(),
            docker_scope: copy_option(&record.docker_scope),
            docker_enabled: record.docker_enabled,
            exit_code: record.exit_code,
            stop_reason: copy_option(&record.stop_reason),
            terminal_complete: record.terminal_complete,
            terminal_interrupted: record.terminal_interrupted,
            terminal_detached: record.terminal_detached,
            terminal_attached: record.terminal_attached,
        }
    }

    /// The directory by which messages are addressed: a session may be written to
    /// while it starts and while it runs.
    pub fn message_directory(&self) -> (r: Directory)
        ensures
            r@ == addressed(self.sessions@),
    {
        let ghost s = self.sessions@;
        let mut r = Directory { sessions: Vec::new() };
        let mut i: usize = 0;
        let ghost all = s.map_values(|a: Active| address_of(a));
        assert(all.take(0) =~= Seq::empty());
        assert(r@ =~= Seq::empty());
        while i < self.sessions.len()
            invariant
                s == self.sessions@,
                all == s.map_values(|a: Active| address_of(a)),
                i <= s.len(),
                r@ == put_all(Seq::empty(), all.take(i as int)),
            decreases s.len() - i,
        {
            let record = &self.sessions[i].record;
            assert(all.take(i + 1).drop_last() =~= all.take(i as int));
            assert(all.take(i + 1).last() == address_of(s[i as int]));
            r.insert(
                Session {
                    id: record.id.clone(),
                    parent: copy_option(&record.parent),
                    path: record.path.clone(),
                    running: record.state == SessionState::Starting || record.state
                        == SessionState::Running,
                },
            );
            i += 1;
        }
        assert(all.take(i as int) =~= all);
        r
    }

    /// Whether a package was granted to a session or to one that owns it: the path
    /// that was granted, which is used again as it is.
    pub fn inherits_package(&self, session: &str, package: &str) -> (r: Option<String>)
        ensures
            match r {
                Some(p) => granted_above(
                    self.sessions@,
                    session@,
                    package@,
                    (self.sessions@.len() + 1) as nat,
                ) == Some(p@),
                None => granted_above(
                    self.sessions@,
                    session@,
                    package@,
                    (self.sessions@.len() + 1) as nat,
                ) is None,
            },
    {
        let ghost s = self.sessions@;
        let mut current: String = String::from_str(session);
        let mut steps: usize = self.sessions.len();
        let mut more: bool = true;
        while more
            invariant
                s == self.sessions@,
                more ==> granted_above(s, session@, package@, (s.len() + 1) as nat)
                    == granted_above(s, current@, package@, (steps + 1) as nat),
                !more ==> granted_above(s, session@, package@, (s.len() + 1) as nat) is None,
            decreases steps, if more { 1int } else { 0int },
        {
            let i = match self.find(current.as_str()) {
                Some(i) => i,
                None => {
                    return None;
                },
            };
            proof {
                lemma_place(s, current@);
            }
            if let Some(output) = granted(&self.sessions[i].granted_outputs, package) {
                return Some(output);
            }
            match &self.sessions[i].record.parent {
                None => {
                    return None;
                },
                Some(p) => {
                    current = p.clone();
                },
            }
            if steps == 0 {
                assert(granted_above(s, current@, package@, 0) is None);
                more = false;
            } else {
                steps -= 1;
            }
        }
        None
    }
}

pub(crate) fn strip_prefix(s: &str, prefix: &str) -> (r: String)
    ensures
        r@ == if prefix@.is_prefix_of(s@) {
            s@.skip(prefix@.len() as int)
        } else {
            s@
        },
{
    if !starts_with(s, prefix) {
        return String::from_str(s);
    }
    let c = chars(s);
    let n: usize = chars(prefix).len();
    let r = span(&c, n, c.len());
    assert(r@ =~= s@.skip(prefix@.len() as int));
    r
}

fn granted(outputs: &Vec<(String, String)>, package: &str) -> (r: Option<String>)
    ensures
        match r {
            Some(p) => output_of(outputs@, package@) == Some(p@),
            None => output_of(outputs@, package@) is None,
        },
{
    let ghost o = outputs@;
    let mut i: usize = 0;
    assert(o.skip(0) =~= o);
    while i < outputs.len()
        invariant
            o == outputs@,
            i <= o.len(),
            output_of(o, package@) == output_of(o.skip(i as int), package@),
        decreases o.len() - i,
    {
        if same(outputs[i].0.as_str(), package) {
            return Some(outputs[i].1.clone());
        }
        assert(o.skip(i as int).drop_first() =~= o.skip(i + 1));
        i += 1;
    }
    None
}

/// The path that was granted of a package.
pub open spec fn output_of(o: Seq<(String, String)>, package: Seq<char>) -> Option<Seq<char>>
    decreases o.len(),
{
    if o.len() == 0 {
        None
    } else if o[0].0@ == package {
        Some(o[0].1@)
    } else {
        output_of(o.drop_first(), package)
    }
}

/// The path that was granted of a package to the nearest session on the way up,
/// within so many steps.
pub open spec fn granted_above(
    s: Seq<Active>,
    id: Seq<char>,
    package: Seq<char>,
    steps: nat,
) -> Option<Seq<char>>
    decreases steps,
{
    if steps == 0 {
        None
    } else {
        match place(s, id) {
            None => None,
            Some(i) => if output_of(s[i].granted_outputs@, package) is Some {
                output_of(s[i].granted_outputs@, package)
            } else {
                match maybe(s[i].record.parent) {
                    None => None,
                    Some(p) => granted_above(s, p, package, (steps - 1) as nat),
                }
            },
        }
    }
}

/// What a session is shown of another.
pub struct SandboxRecord {
    pub id: String,
    pub agent_name: String,
    pub parent: Option<String>,
    pub path: String,
    pub name: String,
    pub description: String,
    pub state: SessionState,
    pub initial_packages: Vec<String>,
    pub packages: Vec<String>,
    pub docker_scope: Option<String>,
    pub docker_enabled: bool,
    pub exit_code: Option<i32>,
    pub stop_reason: Option<String>,
    pub terminal_complete: bool,
    pub terminal_interrupted: bool,
    pub terminal_detached: bool,
    pub terminal_attached: bool,
}

pub open spec fn shows(r: SandboxRecord, s: Seq<Active>, i: int, scope: Seq<char>) -> bool {
    let record = s[i].record;
    &&& r.id@ == record.id@
    &&& r.agent_name@ == record.agent_name@
    &&& maybe(r.parent) == if maybe(record.parent) == Some(scope) {
        None
    } else {
        maybe(record.parent)
    }
    &&& r.path@ == relative(s, record.path@, Some(scope))
    &&& r.name@ == record.name@
    &&& r.description@ == record.description@
    &&& r.state == record.state
    &&& r.initial_packages@ == record.initial_packages@
    &&& r.packages@ == record.packages@
    &&& r.docker_scope == record.docker_scope
    &&& r.docker_enabled == record.docker_enabled
    &&& r.exit_code == record.exit_code
    &&& r.stop_reason == record.stop_reason
    &&& r.terminal_complete == record.terminal_complete
    &&& r.terminal_interrupted == record.terminal_interrupted
    &&& r.terminal_detached == record.terminal_detached
    &&& r.terminal_attached == record.terminal_attached
}

/// What messages are addressed by of a session.
pub open spec fn address_of(a: Active) -> SessionView {
    SessionView {
        id: a.record.id@,
        parent: maybe(a.record.parent),
        path: a.record.path@,
        running: a.record.state == SessionState::Starting || a.record.state
            == SessionState::Running,
    }
}

/// The sessions that messages are addressed by, in the order of their IDs.
pub open spec fn addressed(s: Seq<Active>) -> Seq<SessionView> {
    put_all(Seq::empty(), s.map_values(|a: Active| address_of(a)))
}

/// A session is found by its id.
pub proof fn a_session_is_found_by_its_id(s: Seq<Active>, id: Seq<char>)
    ensures
        match place(s, id) {
            Some(i) => {
                &&& 0 <= i < s.len()
                &&& s[i].record.id@ == id
                &&& forall|j: int| 0 <= j < i ==> !((#[trigger] s[j]).record.id@ == id)
            },
            None => forall|j: int|
                0 <= j < s.len() ==> !((#[trigger] s[j]).record.id@ == id),
        },
    decreases s.len(),
{
    if s.len() > 0 {
        let rest = s.drop_first();
        a_session_is_found_by_its_id(rest, id);
        match place(s, id) {
            Some(i) => {
                assert forall|j: int| 0 <= j < i implies !((#[trigger] s[j]).record.id@ == id) by {
                    if j > 0 {
                        assert(rest[j - 1] == s[j]);
                    }
                }
            },
            None => {
                assert forall|j: int| 0 <= j < s.len() implies !((#[trigger] s[j]).record.id@ == id) by {
                    if j > 0 {
                        assert(rest[j - 1] == s[j]);
                    }
                }
            },
        }
    }
}

/// The names that can be given are those that nobody uses yet.
pub proof fn free_names_are_not_in_use(
    s: Seq<Active>,
    parent: Option<Seq<char>>,
    names: Seq<Seq<char>>,
    name: Seq<char>,
)
    ensures
        free_names(s, parent, names).contains(name) <==> names.contains(name) && !name_in_use(
            s,
            parent,
            name,
        ),
    decreases names.len(),
{
    if names.len() > 0 {
        let most = names.drop_last();
        free_names_are_not_in_use(s, parent, most, name);
        let before = free_names(s, parent, most);
        let now = free_names(s, parent, names);
        if now.contains(name) {
            let a = choose|a: int| 0 <= a < now.len() && now[a] == name;
            if a < before.len() {
                assert(before[a] == name);
                assert(before.contains(name));
                let k = choose|k: int| 0 <= k < most.len() && most[k] == name;
                assert(names[k] == name);
            } else {
                assert(names[names.len() - 1] == name);
            }
        }
        if names.contains(name) && !name_in_use(s, parent, name) {
            let k = choose|k: int| 0 <= k < names.len() && names[k] == name;
            if k < most.len() {
                assert(most[k] == name);
                assert(before.contains(name));
                let a = choose|a: int| 0 <= a < before.len() && before[a] == name;
                assert(now[a] == name);
            } else {
                assert(now[now.len() - 1] == name);
            }
        }
    }
}

/// The output of a package is the first that was granted under its name.
pub proof fn the_first_granted_output_counts(o: Seq<(String, String)>, package: Seq<char>)
    ensures
        match output_of(o, package) {
            Some(path) => exists|i: int|
                0 <= i < o.len() && (#[trigger] o[i]).0@ == package && o[i].1@ == path
                    && forall|j: int| 0 <= j < i ==> (#[trigger] o[j]).0@ != package,
            None => forall|j: int| 0 <= j < o.len() ==> (#[trigger] o[j]).0@ != package,
        },
    decreases o.len(),
{
    if o.len() > 0 {
        let rest = o.drop_first();
        if o[0].0@ == package {
            assert(o[0].1@ == output_of(o, package)->0);
        } else {
            the_first_granted_output_counts(rest, package);
            match output_of(o, package) {
                Some(path) => {
                    let i = choose|i: int|
                        0 <= i < rest.len() && (#[trigger] rest[i]).0@ == package && rest[i].1@ == path
                            && forall|j: int| 0 <= j < i ==> (#[trigger] rest[j]).0@ != package;
                    assert(o[i + 1].0@ == package && o[i + 1].1@ == path);
                    assert forall|j: int| 0 <= j < i + 1 implies (#[trigger] o[j]).0@ != package by {
                        if j > 0 {
                            assert(rest[j - 1] == o[j]);
                        }
                    }
                },
                None => {
                    assert forall|j: int| 0 <= j < o.len() implies (#[trigger] o[j]).0@
                        != package by {
                        if j > 0 {
                            assert(rest[j - 1] == o[j]);
                        }
                    }
                },
            }
        }
    }
}

} // verus!
