//! How sessions begin, and how records that nobody needs make room.
use vstd::prelude::*;

use crate::control::{distinct_ids, kept, lemma_session_ids, live_count, numbered_at, session_id};
use crate::controller::{
    allocated, below, holds_name, is_full, is_stale, lemma_place, maybe_bytes, maybe_str, meant,
    name_in_use, place, tree, Active, Controller, LAUNCHES, Launched, RECORDS, SESSIONS, Start,
    Started,
};
use crate::directory::{descends, fault, is_fault, parent_of, Fault, SessionView};
use crate::names::is_agent_name;
use crate::paths::{equal, same_path};
use crate::protocol::{identifier, is_identifier};
use crate::records::{SessionRecord, SessionState};
use crate::terminal::{unattached, Terminal, TerminalView};
use crate::text::{chars, copy_option, decimal, maybe, same, same_option};

verus! {

// ---------------------------------------------------------------------------
// Room
// ---------------------------------------------------------------------------

/// Nobody needs the record of a session: it has no worker, its terminal has done
/// its part, and no session that is remembered belongs to it.
pub open spec fn evictable(s: Seq<Active>, i: int) -> bool {
    &&& !s[i].worker
    &&& s[i].terminal@.complete || s[i].terminal@.interrupted || (s[i].terminal@.detached
        && !s[i].terminal@.peer)
    &&& forall|j: int|
        0 <= j < s.len() ==> maybe((#[trigger] s[j]).record.parent) != Some(s[i].record.id@)
}

/// The oldest such record among the first `k`.
pub open spec fn oldest(s: Seq<Active>, k: nat) -> Option<int>
    decreases k,
{
    if k == 0 {
        None
    } else {
        let before = oldest(s, (k - 1) as nat);
        if !evictable(s, k - 1) {
            before
        } else {
            match before {
                Some(i) => if s[k - 1].created < s[i].created {
                    Some(k - 1)
                } else {
                    before
                },
                None => Some(k - 1),
            }
        }
    }
}

proof fn lemma_oldest(s: Seq<Active>, k: nat)
    requires
        k <= s.len(),
    ensures
        oldest(s, k) matches Some(i) ==> 0 <= i < k && evictable(s, i),
    decreases k,
{
    if k > 0 {
        lemma_oldest(s, (k - 1) as nat);
    }
}

proof fn lemma_remove_live(s: Seq<Active>, i: int)
    requires
        0 <= i < s.len(),
    ensures
        live_count(s.remove(i)) <= live_count(s),
    decreases s.len(),
{
    let t = s.remove(i);
    if i == s.len() - 1 {
        assert(t =~= s.drop_last());
    } else {
        lemma_remove_live(s.drop_last(), i);
        assert(t.drop_last() =~= s.drop_last().remove(i));
        assert(t.last() == s.last());
    }
}

proof fn lemma_remove_kept(c: Controller, d: Controller, i: int)
    requires
        kept(c),
        0 <= i < c.sessions@.len(),
        d.sessions@ == c.sessions@.remove(i),
        d == (Controller { sessions: d.sessions, ..c }),
    ensures
        kept(d),
{
    let s = c.sessions@;
    let t = d.sessions@;
    lemma_remove_live(s, i);
    assert forall|k: int| 0 <= k < t.len() implies #[trigger] t[k] == if k < i {
        s[k]
    } else {
        s[k + 1]
    } by {}
    assert forall|j: int, k: int| 0 <= j < k < t.len() implies (#[trigger] t[j]).record.id@ != (
    #[trigger] t[k]).record.id@ by {
        let a = if j < i { j } else { j + 1 };
        let b = if k < i { k } else { k + 1 };
        assert(s[a].record.id@ != s[b].record.id@);
    }
    assert forall|j: int, k: int|
        0 <= j < k < t.len() && (#[trigger] t[j]).worker && (#[trigger] t[k]).worker && maybe(
            t[j].record.parent,
        ) == maybe(t[k].record.parent) implies t[j].record.agent_name@
        != t[k].record.agent_name@ by {
        let a = if j < i { j } else { j + 1 };
        let b = if k < i { k } else { k + 1 };
        assert(s[a].worker && s[b].worker);
    }
    assert forall|j: int, k: int|
        0 <= j < t.len() && 0 <= k < t.len() && maybe((#[trigger] t[j]).record.parent) == Some(
            (#[trigger] t[k]).record.id@,
        ) implies t[k].created < t[j].created by {
        let a = if j < i { j } else { j + 1 };
        let b = if k < i { k } else { k + 1 };
        assert(maybe(s[a].record.parent) == Some(s[b].record.id@));
    }
    assert forall|j: int| 0 <= j < t.len() implies (#[trigger] t[j]).created <= c.next
        && numbered_at(t[j], c.instance@) && t[j].terminal.wf() by {
        let a = if j < i { j } else { j + 1 };
        assert(numbered_at(s[a], c.instance@));
        assert(s[a].terminal.wf());
    }
}

impl Controller {
    fn has_child(&self, id: &str) -> (r: bool)
        ensures
            r == exists|j: int|
                0 <= j < self.sessions@.len() && maybe((#[trigger] self.sessions@[j]).record.parent)
                    == Some(id@),
    {
        let mut j: usize = 0;
        while j < self.sessions.len()
            invariant
                j <= self.sessions@.len(),
                forall|k: int|
                    0 <= k < j ==> maybe((#[trigger] self.sessions@[k]).record.parent) != Some(id@),
            decreases self.sessions@.len() - j,
        {
            if let Some(p) = &self.sessions[j].record.parent {
                if same(p.as_str(), id) {
                    return true;
                }
            }
            j += 1;
        }
        false
    }

    fn find_oldest(&self) -> (r: Option<usize>)
        ensures
            match r {
                Some(i) => oldest(self.sessions@, self.sessions@.len()) == Some(i as int) && i
                    < self.sessions@.len(),
                None => oldest(self.sessions@, self.sessions@.len()) is None,
            },
    {
        let ghost s = self.sessions@;
        let mut best: Option<usize> = None;
        let mut k: usize = 0;
        while k < self.sessions.len()
            invariant
                s == self.sessions@,
                k <= s.len(),
                match best {
                    Some(i) => oldest(s, k as nat) == Some(i as int) && i < k,
                    None => oldest(s, k as nat) is None,
                },
            decreases s.len() - k,
        {
            let a = &self.sessions[k];
            if !a.worker && a.terminal.can_evict() && !self.has_child(a.record.id.as_str()) {
                assert(evictable(s, k as int));
                match best {
                    Some(i) => {
                        if a.created < self.sessions[i].created {
                            best = Some(k);
                        }
                    },
                    None => {
                        best = Some(k);
                    },
                }
            } else {
                assert(!evictable(s, k as int));
            }
            k += 1;
        }
        best
    }

    /// Forgets the oldest session that nobody needs; the caller removes its files.
    pub fn evict_session(&mut self) -> (r: Option<Active>)
        requires
            old(self).wf(),
        ensures
            final(self).wf(),
            match oldest(old(self).sessions@, old(self).sessions@.len()) {
                Some(i) => {
                    &&& r == Some(old(self).sessions@[i])
                    &&& final(self).sessions@ == old(self).sessions@.remove(i)
                    &&& *final(self) == (Controller { sessions: final(self).sessions, ..*old(self) })
                },
                None => r is None && *final(self) == *old(self),
            },
    {
        match self.find_oldest() {
            None => None,
            Some(i) => {
                let ghost before = *self;
                let a = self.sessions.remove(i);
                proof {
                    lemma_remove_kept(before, *self, i as int);
                }
                Some(a)
            },
        }
    }
}

// ---------------------------------------------------------------------------
// Launches
// ---------------------------------------------------------------------------

/// Two directories are the same path, or there is none in both places.
pub open spec fn same_directory(a: Option<Seq<char>>, b: Option<Seq<char>>) -> bool {
    match (a, b) {
        (Some(x), Some(y)) => same_path(x, y),
        (None, None) => true,
        _ => false,
    }
}

fn equal_directories(a: &Option<String>, b: &Option<String>) -> (r: bool)
    ensures
        r == same_directory(maybe(*a), maybe(*b)),
{
    match (a, b) {
        (Some(x), Some(y)) => equal(x.as_str(), y.as_str()),
        (None, None) => true,
        _ => false,
    }
}

/// What two requests to start say is the same.
pub open spec fn same_start(a: Start, b: Start) -> bool {
    &&& a.key@ == b.key@
    &&& a.configuration@ == b.configuration@
    &&& a.name@ == b.name@
    &&& maybe(a.agent_name) == maybe(b.agent_name)
    &&& maybe(a.parent) == maybe(b.parent)
    &&& same_directory(maybe(a.cwd), maybe(b.cwd))
    &&& a.rows == b.rows
    &&& a.cols == b.cols
    &&& a.detached == b.detached
}

fn equal_starts(a: &Start, b: &Start) -> (r: bool)
    ensures
        r == same_start(*a, *b),
{
    same(a.key.as_str(), b.key.as_str()) && same(
        a.configuration.as_str(),
        b.configuration.as_str(),
    ) && same(a.name.as_str(), b.name.as_str()) && same_option(&a.agent_name, &b.agent_name)
        && same_option(&a.parent, &b.parent) && equal_directories(&a.cwd, &b.cwd) && a.rows
        == b.rows && a.cols == b.cols && a.detached == b.detached
}

/// The key of a launch: callers do not share keys.
pub open spec fn launch_key(scope: Option<Seq<char>>, key: Seq<char>) -> Seq<char> {
    match scope {
        Some(id) => id + ":"@ + key,
        None => "host"@ + ":"@ + key,
    }
}

pub open spec fn launch_place(l: Seq<Launched>, key: Seq<char>) -> Option<int>
    decreases l.len(),
{
    if l.len() == 0 {
        None
    } else if l[0].key@ == key {
        Some(0)
    } else {
        match launch_place(l.drop_first(), key) {
            Some(i) => Some(i + 1),
            None => None,
        }
    }
}

pub open spec fn is_absolute(path: Seq<char>) -> bool {
    path.len() > 0 && path[0] == '/'
}

/// The place of the owner that a new session is to have: the caller itself where a
/// session names none, the host where the host names none.
pub open spec fn owner_place(
    s: Seq<Active>,
    parent: Option<Seq<char>>,
    scope: Option<Seq<char>>,
) -> Result<Option<int>, (int, Seq<char>)> {
    match parent {
        None => match scope {
            Some(root) => Ok(place(s, root)),
            None => Ok(None),
        },
        Some(target) => if scope is Some && target == "."@ {
            Ok(place(s, scope->0))
        } else {
            match meant(s, target, scope) {
                Ok(i) => Ok(Some(i)),
                Err(f) => Err(f),
            }
        },
    }
}

/// A request as its owner makes it: a child runs its owner's configuration.
pub open spec fn adapted(p: Start, owner: Option<Active>) -> Start {
    match owner {
        Some(a) => Start { configuration: a.record.configuration, cwd: None, ..p },
        None => p,
    }
}

pub open spec fn well_formed(p: Start) -> bool {
    &&& is_identifier(p.key@)
    &&& is_identifier(p.name@)
    &&& is_absolute(p.configuration@)
    &&& maybe(p.cwd) matches Some(d) ==> is_absolute(d)
    &&& 1 <= p.rows <= 1000
    &&& 1 <= p.cols <= 1000
}

/// What comes of a request to start.
pub enum StartView {
    Refuse(int, Seq<char>),
    /// The request was made before, at that place.
    Known(int),
    /// A new session of that owner and name, with that record forgotten for it.
    New { owner: Option<int>, agent_name: Seq<char>, evicted: Option<int> },
}

pub open spec fn started(
    c: Controller,
    p: Start,
    scope: Option<Seq<char>>,
    random: Option<Seq<u8>>,
) -> StartView {
    let s = c.sessions@;
    let owner = owner_place(s, maybe(p.parent), scope);
    let who = match owner {
        Ok(Some(i)) => Some(s[i]),
        _ => None,
    };
    let q = adapted(p, who);
    let known = launch_place(c.launches@, launch_key(scope, p.key@));
    let owner_id = match who {
        Some(a) => Some(a.record.id@),
        None => None,
    };
    let name = allocated(s, maybe(p.agent_name), owner_id, random);
    if c.shutdown is Some {
        StartView::Refuse(is_stale().0, is_stale().1)
    } else if owner is Err {
        StartView::Refuse((owner->Err_0).0, (owner->Err_0).1)
    } else if who matches Some(a) && (a.record.state != SessionState::Running || !a.worker) {
        StartView::Refuse(is_stale().0, is_stale().1)
    } else if who matches Some(a) && p.name@ != a.record.name@ {
        StartView::Refuse(-32602, "children must use their parent's configuration"@)
    } else if who matches Some(a) && a.inheritance is None {
        StartView::Refuse(is_stale().0, is_stale().1)
    } else if !well_formed(q) {
        StartView::Refuse(-32602, "invalid launch parameters"@)
    } else if known is Some {
        if same_start(c.launches@[known->0].start, q) {
            StartView::Known(known->0)
        } else {
            StartView::Refuse(is_stale().0, is_stale().1)
        }
    } else if name is Err {
        StartView::Refuse((name->Err_0).0, (name->Err_0).1)
    } else if c.launches@.len() >= LAUNCHES || live_count(s) >= SESSIONS {
        StartView::Refuse(is_full().0, is_full().1)
    } else if s.len() >= RECORDS && oldest(s, s.len()) is None {
        StartView::Refuse(is_full().0, is_full().1)
    } else {
        StartView::New {
            owner: owner->Ok_0,
            agent_name: name->Ok_0,
            evicted: if s.len() >= RECORDS {
                oldest(s, s.len())
            } else {
                None
            },
        }
    }
}

/// A session that is about to begin.
pub struct Launch {
    pub key: String,
    pub start: Start,
    pub id: String,
    pub agent_name: String,
    pub parent: Option<String>,
    pub path: String,
    /// The session whose record was forgotten for it.
    pub evicted: Option<Active>,
}

pub enum StartPlan {
    /// The launch was made before: the place of its result.
    Known(usize),
    New(Launch),
}

/// The path of a new session: below its owner's, or its name alone.
pub open spec fn new_path(owner: Option<Active>, name: Seq<char>) -> Seq<char> {
    match owner {
        Some(a) => a.record.path@ + "/"@ + name,
        None => name,
    }
}

pub open spec fn is_launch(
    l: Launch,
    c: Controller,
    p: Start,
    scope: Option<Seq<char>>,
    owner: Option<int>,
    agent_name: Seq<char>,
    evicted: Option<int>,
) -> bool {
    let who = match owner {
        Some(i) => Some(c.sessions@[i]),
        None => None,
    };
    &&& l.key@ == launch_key(scope, p.key@)
    &&& l.start == adapted(p, who)
    &&& l.id@ == session_id(c.instance@, (c.next + 1) as u64)
    &&& l.agent_name@ == agent_name
    &&& maybe(l.parent) == match who {
        Some(a) => Some(a.record.id@),
        None => None,
    }
    &&& l.path@ == new_path(who, agent_name)
    &&& l.evicted == match evicted {
        Some(i) => Some(c.sessions@[i]),
        None => None,
    }
}

fn absolute(path: &str) -> (r: bool)
    ensures
        r == is_absolute(path@),
{
    let c = chars(path);
    c.len() > 0 && c[0] == '/'
}

fn fits(p: &Start) -> (r: bool)
    ensures
        r == well_formed(*p),
{
    let placed = match &p.cwd {
        Some(d) => absolute(d.as_str()),
        None => true,
    };
    identifier(p.key.as_str()) && identifier(p.name.as_str()) && absolute(p.configuration.as_str())
        && placed && crate::controller::dimensions(p.rows, p.cols)
}

impl Controller {
    /// The next number, which is given out once.
    pub fn number(&mut self) -> (r: u64)
        requires
            old(self).next < u64::MAX,
        ensures
            r == old(self).next + 1,
            *final(self) == (Controller { next: r, ..*old(self) }),
    {
        self.next = self.next + 1;
        self.next
    }

    fn find_launch(&self, key: &str) -> (r: Option<usize>)
        ensures
            match r {
                Some(i) => launch_place(self.launches@, key@) == Some(i as int) && i
                    < self.launches@.len(),
                None => launch_place(self.launches@, key@) is None,
            },
    {
        let ghost l = self.launches@;
        let mut i: usize = 0;
        assert(l.skip(0) =~= l);
        while i < self.launches.len()
            invariant
                l == self.launches@,
                i <= l.len(),
                launch_place(l, key@) == (match launch_place(l.skip(i as int), key@) {
                    Some(k) => Some(k + i),
                    None => None,
                }),
            decreases l.len() - i,
        {
            if same(self.launches[i].key.as_str(), key) {
                return Some(i);
            }
            assert(l.skip(i as int).drop_first() =~= l.skip(i + 1));
            i += 1;
        }
        None
    }

    /// How many sessions have a worker.
    pub fn live(&self) -> (r: usize)
        ensures
            r == live_count(self.sessions@),
    {
        let ghost s = self.sessions@;
        let mut n: usize = 0;
        let mut i: usize = 0;
        assert(s.take(0) =~= Seq::<Active>::empty());
        while i < self.sessions.len()
            invariant
                s == self.sessions@,
                i <= s.len(),
                n == live_count(s.take(i as int)),
                n <= i,
            decreases s.len() - i,
        {
            if self.sessions[i].worker {
                n += 1;
            }
            i += 1;
            assert(s.take(i as int).drop_last() =~= s.take(i - 1));
        }
        assert(s.take(i as int) =~= s);
        n
    }

    fn owner(&self, parent: &Option<String>, scope: Option<&str>) -> (r: Result<
        Option<usize>,
        Fault,
    >)
        requires
            scope matches Some(root) ==> place(self.sessions@, root@) is Some,
        ensures
            match r {
                Ok(None) => owner_place(self.sessions@, maybe(*parent), maybe_str(scope)) == Ok::<
                    Option<int>,
                    (int, Seq<char>),
                >(None),
                Ok(Some(i)) => i < self.sessions@.len() && owner_place(
                    self.sessions@,
                    maybe(*parent),
                    maybe_str(scope),
                ) == Ok::<Option<int>, (int, Seq<char>)>(Some(i as int)),
                Err(f) => owner_place(self.sessions@, maybe(*parent), maybe_str(scope)) == Err::<
                    Option<int>,
                    (int, Seq<char>),
                >(fault(f)),
            },
    {
        match parent {
            None => match scope {
                Some(root) => Ok(self.find(root)),
                None => Ok(None),
            },
            Some(target) => {
                if let Some(root) = scope {
                    if same(target.as_str(), ".") {
                        return Ok(self.find(root));
                    }
                }
                match self.resolve_scoped(target.as_str(), scope) {
                    Ok(i) => Ok(Some(i)),
                    Err(f) => Err(f),
                }
            },
        }
    }

    /// Decides on a request to start, by the host or by a session. A request that
    /// was made before gives what it gave, before names or limits are looked at.
    pub fn plan_start(&mut self, p: Start, scope: Option<&str>, random: Option<&[u8]>) -> (r: Result<
        StartPlan,
        Fault,
    >)
        requires
            old(self).wf(),
            started(*old(self), p, maybe_str(scope), maybe_bytes(random)) is New ==> old(self).next
                < u64::MAX,
            scope matches Some(root) ==> place(old(self).sessions@, root@) is Some,
        ensures
            final(self).wf(),
            match started(*old(self), p, maybe_str(scope), maybe_bytes(random)) {
                StartView::Refuse(code, message) => {
                    &&& is_fault(r, (code, message))
                    &&& *final(self) == *old(self)
                },
                StartView::Known(k) => {
                    &&& r matches Ok(StartPlan::Known(i)) && i == k && i < old(
                        self).launches@.len()
                    &&& *final(self) == *old(self)
                },
                StartView::New { owner, agent_name, evicted } => {
                    &&& r matches Ok(StartPlan::New(l)) && is_launch(
                        l,
                        *old(self),
                        p,
                        maybe_str(scope),
                        owner,
                        agent_name,
                        evicted,
                    )
                    &&& is_agent_name(agent_name)
                    &&& !name_in_use(
                        old(self).sessions@,
                        match owner {
                            Some(i) => Some(old(self).sessions@[i].record.id@),
                            None => None,
                        },
                        agent_name,
                    )
                    &&& final(self).sessions@ == match evicted {
                        Some(i) => old(self).sessions@.remove(i),
                        None => old(self).sessions@,
                    }
                    &&& *final(self) == (Controller {
                        sessions: final(self).sessions,
                        next: (old(self).next + 1) as u64,
                        ..*old(self)
                    })
                    &&& ready_for(*final(self), r->Ok_0->New_0)
                },
            },
    {
        let ghost before = *self;
        if self.shutdown.is_some() {
            return Err((-32009, String::from_str("stale or conflicting operation")));
        }
        let mut key = match scope {
            Some(id) => String::from_str(id),
            None => String::from_str("host"),
        };
        key.push_str(":");
        key.push_str(p.key.as_str());
        let owner = match self.owner(&p.parent, scope) {
            Ok(owner) => owner,
            Err(f) => {
                return Err(f);
            },
        };
        let mut p = p;
        let mut parent: Option<String> = None;
        if let Some(i) = owner {
            let a = &self.sessions[i];
            if a.record.state != SessionState::Running || !a.worker {
                return Err((-32009, String::from_str("stale or conflicting operation")));
            }
            if !same(p.name.as_str(), a.record.name.as_str()) {
                return Err(
                    (-32602, String::from_str("children must use their parent's configuration")),
                );
            }
            if a.inheritance.is_none() {
                return Err((-32009, String::from_str("stale or conflicting operation")));
            }
            p.configuration = a.record.configuration.clone();
            p.cwd = None;
            parent = Some(a.record.id.clone());
        }
        if !fits(&p) {
            return Err((-32602, String::from_str("invalid launch parameters")));
        }
        if let Some(k) = self.find_launch(key.as_str()) {
            if equal_starts(&self.launches[k].start, &p) {
                return Ok(StartPlan::Known(k));
            }
            return Err((-32009, String::from_str("stale or conflicting operation")));
        }
        let requested = match &p.agent_name {
            Some(n) => Some(n.as_str()),
            None => None,
        };
        let owner_id = match &parent {
            Some(id) => Some(id.as_str()),
            None => None,
        };
        let agent_name = match self.allocate_name(requested, owner_id, random) {
            Ok(n) => n,
            Err(f) => {
                return Err(f);
            },
        };
        if self.launches.len() >= LAUNCHES || self.live() >= SESSIONS {
            return Err((-32010, String::from_str("resource limit reached")));
        }
        let path = match owner {
            Some(i) => {
                let mut path = self.sessions[i].record.path.clone();
                path.push_str("/");
                path.push_str(agent_name.as_str());
                path
            },
            None => agent_name.clone(),
        };
        let mut evicted: Option<Active> = None;
        if self.sessions.len() >= RECORDS {
            match self.evict_session() {
                Some(a) => {
                    evicted = Some(a);
                },
                None => {
                    return Err((-32010, String::from_str("resource limit reached")));
                },
            }
        }
        let ghost trimmed = *self;
        let n: u64 = self.number();
        proof {
            lemma_number_kept(trimmed, *self);
            if before.sessions@.len() >= RECORDS {
                let i = oldest(before.sessions@, before.sessions@.len())->0;
                lemma_oldest(before.sessions@, before.sessions@.len());
                lemma_remove_live(before.sessions@, i);
                lemma_remove_name(before.sessions@, i, maybe(parent), agent_name@);
            }
            assert forall|i: int| 0 <= i < self.sessions@.len() implies (
            #[trigger] self.sessions@[i]).created < self.next by {
                assert(trimmed.sessions@[i].created <= trimmed.next);
            }
            if let Some(i) = owner {
                let a = before.sessions@[i as int];
                assert(a.created <= before.next);
                assert(numbered_at(a, before.instance@));
                assert(session_id(before.instance@, a.created) == parent->0@);
            }
        }
        let mut id = self.instance.clone();
        id.push_str("-s");
        id.push_str(decimal(n).as_str());
        Ok(StartPlan::New(Launch { key, start: p, id, agent_name, parent, path, evicted }))
    }
}

proof fn lemma_more_steps(
    t: Seq<SessionView>,
    x: Seq<char>,
    ancestor: Seq<char>,
    n: nat,
)
    ensures
        descends(t, x, ancestor, n) ==> descends(t, x, ancestor, n + 1),
    decreases n,
{
    if n > 0 {
        if let Some(p) = parent_of(t, x) {
            lemma_more_steps(t, p, ancestor, (n - 1) as nat);
        }
    }
}

proof fn lemma_remove_below(
    s: Seq<Active>,
    i: int,
    x: Seq<char>,
    ancestor: Seq<char>,
    n: nat,
)
    requires
        distinct_ids(s),
        0 <= i < s.len(),
    ensures
        descends(tree(s.remove(i)), x, ancestor, n) ==> descends(tree(s), x, ancestor, n),
    decreases n,
{
    let t = s.remove(i);
    if n > 0 {
        lemma_place(s, x);
        lemma_place(t, x);
        if let Some(k) = place(t, x) {
            let j = if k < i { k } else { k + 1 };
            assert(t[k] == s[j]);
            let m = place(s, x)->0;
            if m < j {
                assert(s[m].record.id@ != s[j].record.id@);
            } else if j < m {
                assert(s[j].record.id@ != s[m].record.id@);
            }
            if let Some(p) = maybe(s[j].record.parent) {
                lemma_remove_below(s, i, p, ancestor, (n - 1) as nat);
            }
        }
    }
}

proof fn lemma_remove_name(s: Seq<Active>, i: int, parent: Option<Seq<char>>, name: Seq<char>)
    requires
        distinct_ids(s),
        0 <= i < s.len(),
        !name_in_use(s, parent, name),
    ensures
        !name_in_use(s.remove(i), parent, name),
{
    let t = s.remove(i);
    if name_in_use(t, parent, name) {
        let k = choose|k: int| #[trigger] holds_name(t, k, parent, name);
        let j = if k < i { k } else { k + 1 };
        assert(t[k] == s[j]);
        if !t[k].worker {
            let m = choose|m: int|
                0 <= m < t.len() && (#[trigger] t[m]).worker && below(
                    t,
                    t[m].record.id@,
                    t[k].record.id@,
                );
            let u = if m < i { m } else { m + 1 };
            assert(t[m] == s[u]);
            lemma_remove_below(s, i, s[u].record.id@, s[j].record.id@, t.len());
            lemma_more_steps(tree(s), s[u].record.id@, s[j].record.id@, t.len());
            assert(s[u].worker && below(s, s[u].record.id@, s[j].record.id@));
        }
        assert(holds_name(s, j, parent, name));
    }
}

/// There is room for a session that is about to begin, and its number and its name are free.
pub open spec fn ready_for(c: Controller, l: Launch) -> bool {
    &&& l.id@ == session_id(c.instance@, c.next)
    &&& forall|i: int| 0 <= i < c.sessions@.len() ==> (#[trigger] c.sessions@[i]).created < c.next
    &&& c.sessions@.len() < RECORDS
    &&& live_count(c.sessions@) < SESSIONS
    &&& c.launches@.len() < LAUNCHES
    &&& !name_in_use(c.sessions@, maybe(l.parent), l.agent_name@)
    &&& maybe(l.parent) matches Some(p) ==> exists|k: u64|
        k < c.next && p == #[trigger] session_id(c.instance@, k)
}

/// The entry of a session that begins.
pub open spec fn is_new_entry(
    a: Active,
    c: Controller,
    l: Launch,
    terminal: Seq<char>,
    now: u64,
) -> bool {
    &&& a.created == c.next
    &&& a.worker && !a.cancelled && !a.listening && !a.exit_watch
    &&& a.pending is None && a.inheritance is None && a.granted_outputs@.len() == 0
    &&& a.terminal.wf()
    &&& a.terminal@ == (TerminalView { detached: l.start.detached, ..unattached(now) })
    &&& a.record.id@ == l.id@
    &&& a.record.agent_name@ == l.agent_name@
    &&& maybe(a.record.parent) == maybe(l.parent)
    &&& a.record.path@ == l.path@
    &&& a.record.name@ == l.start.name@
    &&& a.record.configuration@ == l.start.configuration@
    &&& a.record.description@.len() == 0
    &&& a.record.state == SessionState::Starting
    &&& a.record.identity is None
    &&& a.record.initial_packages@.len() == 0 && a.record.packages@.len() == 0
    &&& a.record.terminal@ == terminal
    &&& !a.record.docker_enabled && a.record.docker_scope is None
    &&& !a.record.pty_eof && !a.record.terminal_complete && !a.record.terminal_interrupted
    &&& !a.record.terminal_attached && a.record.terminal_detached == l.start.detached
    &&& a.record.exit_code is None && a.record.stop_reason is None && a.record.detail is None
}

pub open spec fn announces(x: Started, l: Launch, terminal: Seq<char>) -> bool {
    &&& x.session@ == l.id@
    &&& x.agent_name@ == l.agent_name@
    &&& x.path@ == l.path@
    &&& maybe(x.parent) == maybe(l.parent)
    &&& x.terminal@ == terminal
}

impl Controller {
    /// A session begins: its terminal is at that path, and a worker serves it.
    pub fn finish_start(&mut self, l: Launch, terminal: String, now: u64)
        requires
            old(self).wf(),
            ready_for(*old(self), l),
        ensures
            final(self).wf(),
            final(self).sessions@.len() == old(self).sessions@.len() + 1,
            final(self).sessions@.drop_last() == old(self).sessions@,
            is_new_entry(final(self).sessions@.last(), *old(self), l, terminal@, now),
            final(self).launches@.len() == old(self).launches@.len() + 1,
            final(self).launches@.drop_last() == old(self).launches@,
            final(self).launches@.last().key@ == l.key@,
            final(self).launches@.last().start == l.start,
            announces(final(self).launches@.last().result, l, terminal@),
            *final(self) == (Controller {
                sessions: final(self).sessions,
                launches: final(self).launches,
                dirty: true,
                ..*old(self)
            }),
    {
        let ghost before = *self;
        let mut t = Terminal::new(now);
        t.launch_detached(l.start.detached);
        let result = Started {
            session: l.id.clone(),
            agent_name: l.agent_name.clone(),
            path: l.path.clone(),
            parent: copy_option(&l.parent),
            terminal: terminal.clone(),
        };
        let a = Active {
            created: self.next,
            record: SessionRecord {
                docker_enabled: false,
                docker_scope: None,
                id: l.id.clone(),
                agent_name: l.agent_name.clone(),
                parent: copy_option(&l.parent),
                path: l.path.clone(),
                name: l.start.name.clone(),
                description: String::new(),
                configuration: l.start.configuration.clone(),
                state: SessionState::Starting,
                identity: None,
                initial_packages: Vec::new(),
                packages: Vec::new(),
                terminal,
                pty_eof: false,
                terminal_complete: false,
                terminal_interrupted: false,
                terminal_attached: false,
                terminal_detached: l.start.detached,
                exit_code: None,
                stop_reason: None,
                detail: None,
            },
            worker: true,
            cancelled: false,
            listening: false,
            pending: None,
            terminal: t,
            inheritance: None,
            exit_watch: false,
            granted_outputs: Vec::new(),
        };
        let ghost entry = a;
        self.sessions.push(a);
        self.launches.push(Launched { key: l.key, start: l.start, result });
        self.dirty = true;
        proof {
            assert(self.sessions@.drop_last() =~= before.sessions@);
            assert(self.launches@.drop_last() =~= before.launches@);
            lemma_push_kept(before, *self, entry);
        }
    }
}

proof fn lemma_push_kept(c: Controller, d: Controller, a: Active)
    requires
        kept(c),
        d.sessions@ == c.sessions@.push(a),
        d.launches@.len() == c.launches@.len() + 1,
        c.launches@.len() < LAUNCHES,
        d == (Controller { sessions: d.sessions, launches: d.launches, dirty: true, ..c }),
        a.created == c.next,
        a.worker,
        a.terminal.wf(),
        a.record.id@ == session_id(c.instance@, c.next),
        forall|i: int|
            0 <= i < c.sessions@.len() ==> (#[trigger] c.sessions@[i]).created < c.next,
        c.sessions@.len() < RECORDS,
        live_count(c.sessions@) < SESSIONS,
        !name_in_use(c.sessions@, maybe(a.record.parent), a.record.agent_name@),
        maybe(a.record.parent) matches Some(p) ==> exists|k: u64|
            k < c.next && p == #[trigger] session_id(c.instance@, k),
    ensures
        kept(d),
{
    let s = c.sessions@;
    let t = d.sessions@;
    let n = s.len() as int;
    assert(t.drop_last() =~= s);
    assert forall|i: int| 0 <= i < n implies t[i] == s[i] by {}
    assert forall|i: int, j: int| 0 <= i < j < t.len() implies (#[trigger] t[i]).record.id@ != (
    #[trigger] t[j]).record.id@ by {
        if j == n {
            assert(numbered_at(s[i], c.instance@));
            lemma_session_ids(c.instance@, s[i].created, c.next);
        } else {
            assert(s[i].record.id@ != s[j].record.id@);
        }
    }
    assert forall|i: int, j: int|
        0 <= i < j < t.len() && (#[trigger] t[i]).worker && (#[trigger] t[j]).worker && maybe(
            t[i].record.parent,
        ) == maybe(t[j].record.parent) implies t[i].record.agent_name@
        != t[j].record.agent_name@ by {
        if j == n {
            if s[i].record.agent_name@ == a.record.agent_name@ {
                assert(holds_name(s, i, maybe(a.record.parent), a.record.agent_name@));
            }
        } else {
            assert(s[i].worker && s[j].worker);
        }
    }
    assert forall|i: int, j: int|
        0 <= i < t.len() && 0 <= j < t.len() && maybe((#[trigger] t[i]).record.parent) == Some(
            (#[trigger] t[j]).record.id@,
        ) implies t[j].created < t[i].created by {
        if i < n {
            assert(numbered_at(s[i], c.instance@));
            if j == n {
                let k = choose|k: u64|
                    k < s[i].created && s[i].record.parent->0@ == #[trigger] session_id(
                        c.instance@,
                        k,
                    );
                lemma_session_ids(c.instance@, k, c.next);
            } else {
                assert(maybe(s[i].record.parent) == Some(s[j].record.id@));
            }
        } else {
            let k = choose|k: u64|
                k < c.next && a.record.parent->0@ == #[trigger] session_id(c.instance@, k);
            if j == n {
                lemma_session_ids(c.instance@, k, c.next);
            }
        }
    }
    assert forall|i: int| 0 <= i < t.len() implies numbered_at(#[trigger] t[i], c.instance@) by {
        if i < n {
            assert(numbered_at(s[i], c.instance@));
        }
    }
    assert forall|i: int| 0 <= i < t.len() implies (#[trigger] t[i]).terminal.wf() by {
        if i < n {
            assert(s[i].terminal.wf());
        }
    }
}

/// A session that begins gets a name that no live session of its owner has, and
/// that nothing below such a name still uses.
pub proof fn names_are_not_shared(
    c: Controller,
    p: Start,
    scope: Option<Seq<char>>,
    random: Option<Seq<u8>>,
)
    requires
        started(c, p, scope, random) is New,
        p.agent_name is Some,
    ensures
        started(c, p, scope, random) matches StartView::New { owner, agent_name, .. }
            && is_agent_name(agent_name) && !name_in_use(
            c.sessions@,
            match owner {
                Some(i) => Some(c.sessions@[i].record.id@),
                None => None,
            },
            agent_name,
        ),
{
}

/// A launch that was made gives what it gave, whatever has become of the session,
/// of its name and of the limits; with anything changed it is refused.
pub proof fn a_launch_is_made_once(
    c: Controller,
    p: Start,
    random: Option<Seq<u8>>,
    k: int,
)
    requires
        launch_place(c.launches@, launch_key(None, p.key@)) == Some(k),
        c.shutdown is None,
        p.parent is None,
        well_formed(p),
    ensures
        same_start(c.launches@[k].start, p) ==> started(c, p, None, random) == StartView::Known(k),
        !same_start(c.launches@[k].start, p) ==> started(c, p, None, random) == StartView::Refuse(
            is_stale().0,
            is_stale().1,
        ),
{
}

proof fn lemma_launch_place(v: Seq<Launched>, w: Seq<Launched>, key: Seq<char>)
    requires
        v.is_prefix_of(w),
    ensures
        launch_place(v, key) is Some ==> launch_place(w, key) == launch_place(v, key),
    decreases v.len(),
{
    if v.len() > 0 {
        assert(v[0] == w[0]);
        assert(v.drop_first().is_prefix_of(w.drop_first()));
        lemma_launch_place(v.drop_first(), w.drop_first(), key);
    }
}

proof fn lemma_launch_pushed(v: Seq<Launched>, x: Launched)
    requires
        launch_place(v, x.key@) is None,
    ensures
        launch_place(v.push(x), x.key@) == Some(v.len() as int),
    decreases v.len(),
{
    let all = v.push(x);
    if v.len() > 0 {
        assert(all[0] == v[0]);
        assert(all.drop_first() =~= v.drop_first().push(x));
        lemma_launch_pushed(v.drop_first(), x);
    } else {
        assert(all[0] == x);
    }
}

/// A start that was answered is answered in the same way when it comes again, and nothing is
/// started for it, whatever has come of its session, its name and the limits since; one that
/// differs in anything is refused.
pub proof fn a_repeated_start_starts_nothing(
    c: Controller,
    p: Start,
    random: Option<Seq<u8>>,
    l: Launch,
    x: Launched,
    later: Controller,
    again: Start,
    chance: Option<Seq<u8>>,
)
    requires
        p.parent is None,
        started(c, p, None, random) matches StartView::New { owner, agent_name, evicted }
            && is_launch(l, c, p, None, owner, agent_name, evicted),
        x.key@ == l.key@,
        x.start == l.start,
        c.launches@.push(x).is_prefix_of(later.launches@),
        later.shutdown is None,
        again.key@ == p.key@,
        again.parent is None,
        well_formed(again),
    ensures
        later.launches@[c.launches@.len() as int] == x,
        started(later, again, None, chance) == if same_start(p, again) {
            StartView::Known(c.launches@.len() as int)
        } else {
            StartView::Refuse(is_stale().0, is_stale().1)
        },
{
    let v = c.launches@;
    lemma_launch_pushed(v, x);
    lemma_launch_place(v.push(x), later.launches@, x.key@);
    assert(v.push(x)[v.len() as int] == later.launches@[v.len() as int]);
    a_launch_is_made_once(later, again, chance, v.len() as int);
}

pub(crate) proof fn lemma_number_kept(c: Controller, d: Controller)
    requires
        kept(c),
        d == (Controller { next: d.next, ..c }),
        c.next <= d.next,
    ensures
        kept(d),
{
    assert forall|q: int| 0 <= q < d.permissions@.len() implies crate::control::request_numbered(
        #[trigger] d.permissions@[q],
        d.instance@,
        d.next,
    ) by {
        assert(crate::control::request_numbered(c.permissions@[q], c.instance@, c.next));
    }
}

// ---------------------------------------------------------------------------
// What a start gives
// ---------------------------------------------------------------------------

/// A start by the host that is well formed, under a new key and a free name, makes a new
/// session of no owner as long as there is room.
pub proof fn a_host_starts_what_it_asks_for(c: Controller, p: Start, name: String, random: Option<
    Seq<u8>,
>)
    requires
        c.shutdown is None,
        p.parent is None,
        p.agent_name == Some(name),
        is_agent_name(name@),
        is_identifier(p.key@),
        is_identifier(p.name@),
        p.configuration@.len() > 0 && p.configuration@[0] == '/',
        p.cwd matches Some(d) ==> d@.len() > 0 && d@[0] == '/',
        1 <= p.rows <= 1000 && 1 <= p.cols <= 1000,
        forall|k: int|
            0 <= k < c.launches@.len() ==> (#[trigger] c.launches@[k]).key@ != "host"@ + ":"@
                + p.key@,
        forall|i: int|
            0 <= i < c.sessions@.len() && (#[trigger] c.sessions@[i]).record.parent is None
                ==> c.sessions@[i].record.agent_name@ != name@,
        c.launches@.len() < 4096,
        c.sessions@.filter(|a: Active| a.worker).len() < 16,
        c.sessions@.len() < 128,
    ensures
        started(c, p, None, random) == (StartView::New {
            owner: None,
            agent_name: name@,
            evicted: None,
        }),
{
    let s = c.sessions@;
    crate::control::live_sessions_are_counted(s);
    lemma_launch_absent(c.launches@, launch_key(None, p.key@));
    assert(!name_in_use(s, None, name@)) by {
        if name_in_use(s, None, name@) {
            let i = choose|i: int| #[trigger] holds_name(s, i, None, name@);
            assert(s[i].record.parent is None);
            assert(s[i].record.agent_name@ == name@);
        }
    }
}

proof fn lemma_launch_absent(l: Seq<Launched>, key: Seq<char>)
    requires
        forall|k: int| 0 <= k < l.len() ==> (#[trigger] l[k]).key@ != key,
    ensures
        launch_place(l, key) is None,
    decreases l.len(),
{
    if l.len() > 0 {
        let rest = l.drop_first();
        assert forall|k: int| 0 <= k < rest.len() implies (#[trigger] rest[k]).key@ != key by {
            assert(rest[k] == l[k + 1]);
        }
        lemma_launch_absent(rest, key);
        assert(l[0].key@ != key);
    }
}

/// A session that starts another without naming an owner owns it: the new one stands below it,
/// with its configuration and in its place.
pub proof fn a_session_owns_what_it_starts(
    c: Controller,
    p: Start,
    i: int,
    random: Option<Seq<u8>>,
    l: Launch,
)
    requires
        kept(c),
        0 <= i < c.sessions@.len(),
        p.parent is None,
        started(c, p, Some(c.sessions@[i].record.id@), random) matches StartView::New {
            owner,
            agent_name,
            evicted,
        } && is_launch(l, c, p, Some(c.sessions@[i].record.id@), owner, agent_name, evicted),
    ensures
        maybe(l.parent) == Some(c.sessions@[i].record.id@),
        l.path@ == c.sessions@[i].record.path@ + "/"@ + l.agent_name@,
        l.start.configuration@ == c.sessions@[i].record.configuration@,
        l.start.cwd is None,
        l.start.name@ == c.sessions@[i].record.name@,
        c.sessions@[i].record.state == SessionState::Running && c.sessions@[i].worker,
        l.key@ == c.sessions@[i].record.id@ + ":"@ + p.key@,
        l.id@ == c.instance@ + "-s"@ + crate::text::decimal_of(((c.next + 1) as u64) as nat),
{
    lemma_own_place(c.sessions@, i);
}

proof fn lemma_own_place(s: Seq<Active>, i: int)
    requires
        distinct_ids(s),
        0 <= i < s.len(),
    ensures
        place(s, s[i].record.id@) == Some(i),
{
    lemma_place(s, s[i].record.id@);
    let k = place(s, s[i].record.id@)->0;
    if k < i {
        assert(s[k].record.id@ != s[i].record.id@);
    }
}

/// A new session starts, lives, was granted nothing, waits for nothing, and is what its launch
/// says: of that owner, at that path, with that configuration.
pub proof fn a_new_session_is_as_launched(
    a: Active,
    c: Controller,
    l: Launch,
    terminal: Seq<char>,
    now: u64,
)
    requires
        is_new_entry(a, c, l, terminal, now),
    ensures
        a.record.state == SessionState::Starting && a.worker && !a.cancelled,
        a.record.id@ == l.id@ && a.record.path@ == l.path@ && a.record.agent_name@ == l.agent_name@,
        maybe(a.record.parent) == maybe(l.parent),
        a.record.name@ == l.start.name@ && a.record.configuration@ == l.start.configuration@,
        a.granted_outputs@.len() == 0 && a.record.packages@.len() == 0 && a.pending is None,
        a.terminal@.detached == l.start.detached && a.terminal@.to_peer.len() == 0,
        a.record.terminal@ == terminal,
{
}

/// A record is forgotten only of a session that has ended, whose terminal nobody needs, and
/// that owns nothing; of those the oldest.
pub proof fn the_oldest_idle_record_makes_room(s: Seq<Active>, k: nat, j: int)
    requires
        k <= s.len(),
        0 <= j < k,
    ensures
        match oldest(s, k) {
            Some(i) => {
                &&& 0 <= i < k
                &&& !s[i].worker
                &&& s[i].terminal@.complete || s[i].terminal@.interrupted || (
                s[i].terminal@.detached && !s[i].terminal@.peer)
                &&& forall|n: int|
                    0 <= n < s.len() ==> maybe((#[trigger] s[n]).record.parent) != Some(
                        s[i].record.id@,
                    )
                &&& evictable(s, j) ==> s[i].created <= s[j].created
            },
            None => !evictable(s, j),
        },
    decreases k,
{
    if j < k - 1 {
        the_oldest_idle_record_makes_room(s, (k - 1) as nat, j);
    } else if k > 1 {
        the_oldest_idle_record_makes_room(s, (k - 1) as nat, 0);
    }
    lemma_oldest(s, k);
}

/// An ended session whose terminal nobody needs and that owns nothing can make room.
pub proof fn an_idle_record_can_make_room(s: Seq<Active>, i: int)
    requires
        0 <= i < s.len(),
        !s[i].worker,
        s[i].terminal@.complete || s[i].terminal@.interrupted || (s[i].terminal@.detached
            && !s[i].terminal@.peer),
        forall|j: int|
            0 <= j < s.len() ==> maybe((#[trigger] s[j]).record.parent) != Some(s[i].record.id@),
    ensures
        oldest(s, s.len()) is Some,
{
    the_oldest_idle_record_makes_room(s, s.len(), i);
}

/// A name that was asked for is given unless a session of that owner has it that lives, or of
/// which something lives.
pub proof fn a_free_name_is_given(
    s: Seq<Active>,
    name: Seq<char>,
    parent: Option<Seq<char>>,
    random: Option<Seq<u8>>,
)
    requires
        is_agent_name(name),
    ensures
        allocated(s, Some(name), parent, random) is Ok <==> forall|i: int|
            0 <= i < s.len() ==> !(maybe((#[trigger] s[i]).record.parent) == parent
                && s[i].record.agent_name@ == name && (s[i].worker || exists|k: int|
                0 <= k < s.len() && (#[trigger] s[k]).worker && below(
                    s,
                    s[k].record.id@,
                    s[i].record.id@,
                ))),
        allocated(s, Some(name), parent, random) matches Ok(n) ==> n == name,
        allocated(s, Some(name), parent, random) matches Err(f) ==> f.0 == -32009,
{
    if name_in_use(s, parent, name) {
        let i = choose|i: int| #[trigger] holds_name(s, i, parent, name);
        assert(maybe(s[i].record.parent) == parent);
    } else {
        assert forall|i: int| 0 <= i < s.len() implies !(maybe((#[trigger] s[i]).record.parent)
            == parent && s[i].record.agent_name@ == name && (s[i].worker || exists|k: int|
            0 <= k < s.len() && (#[trigger] s[k]).worker && below(
                s,
                s[k].record.id@,
                s[i].record.id@,
            ))) by {
            assert(!holds_name(s, i, parent, name));
        }
    }
}

/// A name that nobody asked for is one of the pool that is free.
pub proof fn a_drawn_name_is_free(
    s: Seq<Active>,
    parent: Option<Seq<char>>,
    bytes: Seq<u8>,
    name: Seq<char>,
)
    requires
        allocated(s, None, parent, Some(bytes)) == Ok::<Seq<char>, (int, Seq<char>)>(name),
    ensures
        crate::names::goblin_pool().contains(name),
        !name_in_use(s, parent, name),
{
    let pool = crate::names::goblin_pool();
    let free = crate::controller::free_names(s, parent, pool);
    lemma_free(s, parent, pool);
    crate::names::lemma_drawn_in_range(free.len(), bytes, 0);
    let k = crate::names::drawn(free.len(), bytes, 0)->Ok_0;
    assert(free.contains(free[k as int]));
}

proof fn lemma_free(s: Seq<Active>, parent: Option<Seq<char>>, names: Seq<Seq<char>>)
    ensures
        forall|x: Seq<char>| #[trigger]
            crate::controller::free_names(s, parent, names).contains(x) ==> names.contains(x)
                && !name_in_use(s, parent, x),
    decreases names.len(),
{
    if names.len() > 0 {
        let most = names.drop_last();
        lemma_free(s, parent, most);
        let all = crate::controller::free_names(s, parent, names);
        let some = crate::controller::free_names(s, parent, most);
        assert forall|x: Seq<char>| #[trigger] all.contains(x) implies names.contains(x)
            && !name_in_use(s, parent, x) by {
            let k = choose|k: int| 0 <= k < all.len() && all[k] == x;
            if k < some.len() {
                assert(some[k] == x);
                assert(some.contains(x));
                let j = choose|j: int| 0 <= j < most.len() && most[j] == x;
                assert(names[j] == x);
            } else {
                assert(names[names.len() - 1] == x);
            }
        }
    }
}

/// A launch is found by its key.
pub proof fn a_launch_is_found_by_its_key(l: Seq<Launched>, key: Seq<char>)
    ensures
        match launch_place(l, key) {
            Some(i) => {
                &&& 0 <= i < l.len()
                &&& l[i].key@ == key
                &&& forall|j: int| 0 <= j < i ==> !((#[trigger] l[j]).key@ == key)
            },
            None => forall|j: int|
                0 <= j < l.len() ==> !((#[trigger] l[j]).key@ == key),
        },
    decreases l.len(),
{
    if l.len() > 0 {
        let rest = l.drop_first();
        a_launch_is_found_by_its_key(rest, key);
        match launch_place(l, key) {
            Some(i) => {
                assert forall|j: int| 0 <= j < i implies !((#[trigger] l[j]).key@ == key) by {
                    if j > 0 {
                        assert(rest[j - 1] == l[j]);
                    }
                }
            },
            None => {
                assert forall|j: int| 0 <= j < l.len() implies !((#[trigger] l[j]).key@ == key) by {
                    if j > 0 {
                        assert(rest[j - 1] == l[j]);
                    }
                }
            },
        }
    }
}

/// What a session begins belongs to itself where it names no owner, and to the session that it
/// names otherwise; what the host begins belongs to nobody unless it names an owner.
pub proof fn what_begins_has_its_owner(
    s: Seq<Active>,
    own: Seq<char>,
    target: Seq<char>,
    i: int,
)
    ensures
        owner_place(s, None, None) == Ok::<Option<int>, (int, Seq<char>)>(None),
        owner_place(s, None, Some(own)) == Ok::<Option<int>, (int, Seq<char>)>(place(s, own)),
        owner_place(s, Some("."@), Some(own)) == Ok::<Option<int>, (int, Seq<char>)>(place(s, own)),
        meant(s, target, None) == Ok::<int, (int, Seq<char>)>(i) ==> owner_place(
            s,
            Some(target),
            None,
        ) == Ok::<Option<int>, (int, Seq<char>)>(Some(i)),
        target != "."@ && meant(s, target, Some(own)) == Ok::<int, (int, Seq<char>)>(i)
            ==> owner_place(s, Some(target), Some(own)) == Ok::<Option<int>, (int, Seq<char>)>(
            Some(i),
        ),
        target != "."@ && meant(s, target, Some(own)) is Err ==> owner_place(
            s,
            Some(target),
            Some(own),
        ) is Err,
{
}

} // verus!
