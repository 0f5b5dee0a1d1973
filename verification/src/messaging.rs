//! The log of a host's communications, and the service that keeps a mailbox in
//! step with the sessions of the host.
use vstd::prelude::*;
use vstd::slice::slice_subrange;

use crate::answers::{maybe_text, no_fields, shown, Fields, Shown};
use crate::directory::{
    directories_are_in_order, ends_with_part, entry, fault, in_id_order, is_fault, last_part,
    parent, parent_of, put, put_all, Directory, Fault, Session, SessionView,
};
use crate::integration::{Integrations, IntegrationsView, Names};
use crate::json::Json;
use crate::mailbox::{
    failed, failure_of, record_done, stop_done, Audit, AuditError, EventData, EventDataView,
    Handed, Limits, Mailbox, MailboxView,
};
use crate::messages::MessageView;
use crate::paths::text_before;
use crate::text::{maybe, places, same, starts_with, texts};

verus! {

/// The most bytes of a log.
pub const LOG_LIMIT: usize = 134_217_728;

/// The most bytes of events on one page.
pub const PAGE_LIMIT: usize = 524_288;

/// What the log remembers of one event: all that selects it, and its size.
pub struct Entry {
    pub instance: String,
    pub sequence: u64,
    pub kind: String,
    pub actor: String,
    pub sessions: Vec<String>,
    /// The parent and the path that the start of a session gives.
    pub parent: Option<String>,
    pub path: Option<String>,
    /// Serialized, without the line's end.
    pub size: usize,
}

/// The log: its size and its events, in the order in which they were written.
pub struct Ledger {
    pub bytes: usize,
    pub entries: Vec<Entry>,
}

impl Ledger {
    pub fn new() -> (r: Self)
        ensures
            r.bytes == 0,
            r.entries@.len() == 0,
    {
        Ledger { bytes: 0, entries: Vec::new() }
    }

    /// Whether a line of that many bytes has room beside what is reserved.
    pub fn room(&self, line: usize, reserved: usize) -> (r: Result<(), AuditError>)
        ensures
            match r {
                Ok(()) => self.bytes + line + reserved <= LOG_LIMIT,
                Err(e) => e == AuditError::Capacity && self.bytes + line + reserved > LOG_LIMIT,
            },
    {
        if self.bytes > LOG_LIMIT || line > LOG_LIMIT - self.bytes || reserved > LOG_LIMIT
            - self.bytes - line {
            return Err(AuditError::Capacity);
        }
        Ok(())
    }

    /// Counts a line that was written.
    pub fn wrote(&mut self, entry: Entry, line: usize)
        requires
            old(self).bytes + line <= LOG_LIMIT,
        ensures
            final(self).bytes == old(self).bytes + line,
            final(self).entries@ == old(self).entries@.push(entry),
    {
        self.bytes = self.bytes + line;
        self.entries.push(entry);
    }
}

// ---------------------------------------------------------------------------
// Pages
// ---------------------------------------------------------------------------

/// Which events to show: those after a sequence number, that many at most, and
/// only those of a session and what descends from it, where one is named.
pub struct List {
    pub after: u64,
    pub limit: usize,
    pub session: Option<String>,
}

/// The size of a page where none is asked for.
pub fn page_size() -> (r: usize)
    ensures
        r == 100,
{
    100
}

/// A page: the places of its events, how far it reaches, the session it is
/// limited to, and how far the log reaches.
pub struct Page {
    pub events: Vec<usize>,
    pub cursor: u64,
    pub session: Option<String>,
    pub latest: u64,
}

/// Whether a session is that one, or walking up from it meets that one within so many steps.
pub open spec fn within(
    dir: Seq<SessionView>,
    id: Seq<char>,
    scope: Seq<char>,
    steps: nat,
) -> bool
    decreases steps,
{
    steps > 0 && (id == scope || match parent_of(dir, id) {
        Some(p) => within(dir, p, scope, (steps - 1) as nat),
        None => false,
    })
}

pub open spec fn in_scope(dir: Seq<SessionView>, id: Seq<char>, scope: Option<Seq<char>>) -> bool {
    match scope {
        None => true,
        Some(s) => within(dir, id, s, dir.len() + 1),
    }
}

/// An event belongs to the session that caused it and to those that it concerns.
pub open spec fn on_page(e: Entry, dir: Seq<SessionView>, scope: Option<Seq<char>>) -> bool {
    in_scope(dir, e.actor@, scope) || exists|k: int|
        0 <= k < e.sessions@.len() && in_scope(dir, (#[trigger] e.sessions@[k])@, scope)
}

/// The places, among the first `k`, of the running sessions of that path or name.
pub open spec fn running_as(dir: Seq<SessionView>, target: Seq<char>, k: nat) -> Seq<int>
    decreases k,
{
    if k == 0 {
        Seq::empty()
    } else {
        let s = dir[k - 1];
        let before = running_as(dir, target, (k - 1) as nat);
        if s.running && (s.path == target || last_part(s.path) == target) {
            before.push(k - 1)
        } else {
            before
        }
    }
}

/// The session that a page is limited to.
pub open spec fn scope_of(dir: Seq<SessionView>, target: Option<Seq<char>>) -> Result<
    Option<Seq<char>>,
    (int, Seq<char>),
> {
    match target {
        None => Ok(None),
        Some(t) => if entry(dir, t) is Some {
            Ok(Some(t))
        } else {
            let found = running_as(dir, t, dir.len());
            if found.len() == 0 {
                Err((-32004, "session absent"@))
            } else if found.len() > 1 {
                Err((-32009, "ambiguous session; use path or ID"@))
            } else {
                Ok(Some(dir[found[0]].id))
            }
        },
    }
}

/// The events from the place `i` on that still fit a page, and how far it then reaches.
pub open spec fn paged(
    entries: Seq<Entry>,
    i: int,
    after: u64,
    dir: Seq<SessionView>,
    scope: Option<Seq<char>>,
    limit: nat,
    count: nat,
    bytes: nat,
    cursor: u64,
) -> (Seq<int>, u64)
    decreases entries.len() - i,
{
    if i < 0 || i >= entries.len() {
        (Seq::empty(), cursor)
    } else {
        let e = entries[i];
        if e.sequence <= after {
            paged(entries, i + 1, after, dir, scope, limit, count, bytes, cursor)
        } else if !on_page(e, dir, scope) {
            paged(entries, i + 1, after, dir, scope, limit, count, bytes, e.sequence)
        } else if count >= limit || bytes + e.size > PAGE_LIMIT {
            (Seq::empty(), cursor)
        } else {
            let (rest, end) = paged(
                entries,
                i + 1,
                after,
                dir,
                scope,
                limit,
                count + 1,
                (bytes + e.size) as nat,
                e.sequence,
            );
            (seq![i] + rest, end)
        }
    }
}

pub open spec fn latest_of(entries: Seq<Entry>) -> u64 {
    if entries.len() == 0 {
        0
    } else {
        entries.last().sequence
    }
}

pub open spec fn is_page(
    page: Page,
    entries: Seq<Entry>,
    dir: Seq<SessionView>,
    after: u64,
    limit: nat,
    scope: Option<Seq<char>>,
) -> bool {
    let (events, cursor) = paged(entries, 0, after, dir, scope, limit, 0, 0, after);
    &&& places(page.events@) == events
    &&& page.cursor == cursor
    &&& maybe(page.session) == scope
    &&& page.latest == latest_of(entries)
}

fn belongs(directory: &Directory, id: &str, scope: &Option<String>) -> (r: bool)
    ensures
        r == in_scope(directory@, id@, maybe(*scope)),
{
    let top = match scope {
        None => {
            return true;
        },
        Some(s) => s.as_str(),
    };
    let mut current: String = String::from_str(id);
    if same(current.as_str(), top) {
        return true;
    }
    let mut steps: usize = directory.sessions.len();
    while steps > 0
        invariant
            maybe(*scope) == Some(top@),
            within(directory@, id@, top@, directory@.len() + 1) == within(
                directory@,
                current@,
                top@,
                (steps + 1) as nat,
            ),
            current@ != top@,
        decreases steps,
    {
        match parent(directory, current.as_str()) {
            None => {
                return false;
            },
            Some(p) => {
                if same(p.as_str(), top) {
                    assert(within(directory@, p@, top@, steps as nat));
                    return true;
                }
                current = p.clone();
            },
        }
        steps -= 1;
    }
    assert(!within(directory@, current@, top@, 1)) by {
        reveal_with_fuel(within, 2);
    }
    false
}

fn selects(e: &Entry, directory: &Directory, scope: &Option<String>) -> (r: bool)
    ensures
        r == on_page(*e, directory@, maybe(*scope)),
{
    if belongs(directory, e.actor.as_str(), scope) {
        return true;
    }
    let mut k: usize = 0;
    while k < e.sessions.len()
        invariant
            k <= e.sessions@.len(),
            forall|j: int|
                0 <= j < k ==> !in_scope(directory@, (#[trigger] e.sessions@[j])@, maybe(*scope)),
        decreases e.sessions@.len() - k,
    {
        if belongs(directory, e.sessions[k].as_str(), scope) {
            return true;
        }
        k += 1;
    }
    false
}

fn find_scope(directory: &Directory, target: &Option<String>) -> (r: Result<Option<String>, Fault>)
    ensures
        match r {
            Ok(s) => scope_of(directory@, maybe(*target)) == Ok::<
                Option<Seq<char>>,
                (int, Seq<char>),
            >(maybe(s)),
            Err(f) => scope_of(directory@, maybe(*target)) == Err::<
                Option<Seq<char>>,
                (int, Seq<char>),
            >(fault(f)),
        },
{
    let target = match target {
        None => {
            return Ok(None);
        },
        Some(t) => t,
    };
    if directory.get(target.as_str()).is_some() {
        return Ok(Some(target.clone()));
    }
    let ghost dir = directory@;
    let mut first: Option<usize> = None;
    let mut several: bool = false;
    let mut i: usize = 0;
    while i < directory.sessions.len()
        invariant
            dir == directory@,
            i <= dir.len() == directory.sessions@.len(),
            ({
                let found = running_as(dir, target@, i as nat);
                &&& several == (found.len() > 1)
                &&& first is None <==> found.len() == 0
                &&& first matches Some(k) ==> found.len() >= 1 && found[0] == k && k < i
            }),
        decreases directory.sessions@.len() - i,
    {
        let s = &directory.sessions[i];
        assert(dir[i as int] == s@);
        if s.running && (same(s.path.as_str(), target.as_str()) || ends_with_part(
            s.path.as_str(),
            target.as_str(),
        )) {
            if first.is_some() {
                several = true;
            } else {
                first = Some(i);
            }
        }
        i += 1;
    }
    match first {
        None => Err((-32004, String::from_str("session absent"))),
        Some(k) => {
            if several {
                return Err((-32009, String::from_str("ambiguous session; use path or ID")));
            }
            assert(dir[k as int] == directory.sessions@[k as int]@);
            Ok(Some(directory.sessions[k].id.clone()))
        },
    }
}

/// One page of the log.
pub fn page(entries: &Vec<Entry>, directory: &Directory, p: &List) -> (r: Result<Page, Fault>)
    ensures
        if p.limit == 0 || p.limit > 100 {
            is_fault(r, (-32602int, "limit must be 1..100"@))
        } else {
            match scope_of(directory@, maybe(p.session)) {
                Err(f) => is_fault(r, f),
                Ok(scope) => r matches Ok(page) && is_page(
                    page,
                    entries@,
                    directory@,
                    p.after,
                    p.limit as nat,
                    scope,
                ),
            }
        },
{
    if p.limit == 0 || p.limit > 100 {
        return Err((-32602, String::from_str("limit must be 1..100")));
    }
    let scope = match find_scope(directory, &p.session) {
        Ok(s) => s,
        Err(f) => {
            return Err(f);
        },
    };
    let ghost es = entries@;
    let ghost dir = directory@;
    let ghost sc = maybe(scope);
    let ghost whole = paged(es, 0, p.after, dir, sc, p.limit as nat, 0, 0, p.after);
    let mut events: Vec<usize> = Vec::new();
    let mut bytes: usize = 0;
    let mut cursor: u64 = p.after;
    let mut i: usize = 0;
    let mut full: bool = false;
    assert(places(events@) =~= Seq::<int>::empty());
    assert(places(events@) + whole.0 =~= whole.0);
    while i < entries.len() && !full
        invariant
            es == entries@,
            dir == directory@,
            sc == maybe(scope),
            i <= es.len(),
            bytes <= PAGE_LIMIT,
            whole == paged(es, 0, p.after, dir, sc, p.limit as nat, 0, 0, p.after),
            full ==> whole.0 == places(events@) && whole.1 == cursor,
            !full ==> ({
                let rest = paged(
                    es,
                    i as int,
                    p.after,
                    dir,
                    sc,
                    p.limit as nat,
                    events@.len(),
                    bytes as nat,
                    cursor,
                );
                whole.0 == places(events@) + rest.0 && whole.1 == rest.1
            }),
        decreases es.len() - i, if full { 0int } else { 1int },
    {
        let e = &entries[i];
        if e.sequence > p.after {
            if selects(e, directory, &scope) {
                if events.len() >= p.limit || e.size > PAGE_LIMIT - bytes {
                    full = true;
                    assert(places(events@) + Seq::<int>::empty() =~= places(events@));
                } else {
                    let ghost before = places(events@);
                    let ghost rest = paged(
                        es,
                        i + 1,
                        p.after,
                        dir,
                        sc,
                        p.limit as nat,
                        (events@.len() + 1) as nat,
                        (bytes + e.size) as nat,
                        e.sequence,
                    );
                    bytes = bytes + e.size;
                    events.push(i);
                    cursor = e.sequence;
                    assert(places(events@) =~= before.push(i as int));
                    assert(before + (seq![i as int] + rest.0) =~= before.push(i as int) + rest.0);
                }
            } else {
                cursor = e.sequence;
            }
        }
        if !full {
            i += 1;
        }
    }
    assert(places(events@) + Seq::<int>::empty() =~= places(events@));
    let latest: u64 = if entries.len() == 0 {
        0
    } else {
        entries[entries.len() - 1].sequence
    };
    Ok(Page { events, cursor, session: scope, latest })
}

// ---------------------------------------------------------------------------
// A log that is read back
// ---------------------------------------------------------------------------

/// Numbered from one without a gap, and all of one instance.
pub open spec fn whole_log(es: Seq<Entry>) -> bool {
    forall|i: int|
        0 <= i < es.len() ==> (#[trigger] es[i]).sequence == i + 1 && es[i].instance@
            == es[0].instance@
}

/// The sessions that a log tells of, with the last start of each.
pub open spec fn told(es: Seq<Entry>) -> Seq<SessionView>
    decreases es.len(),
{
    if es.len() == 0 {
        Seq::empty()
    } else {
        let before = told(es.drop_last());
        let e = es.last();
        if e.kind@ == "session.started"@ {
            put(
                before,
                SessionView {
                    id: e.actor@,
                    parent: maybe(e.parent),
                    path: match maybe(e.path) {
                        Some(p) => p,
                        None => Seq::empty(),
                    },
                    running: true,
                },
            )
        } else {
            before
        }
    }
}

/// The places from `a` up to `b` of the events that are shown.
pub open spec fn selected(
    es: Seq<Entry>,
    dir: Seq<SessionView>,
    scope: Option<Seq<char>>,
    a: int,
    b: int,
) -> Seq<int>
    decreases b - a,
{
    if a >= b {
        Seq::empty()
    } else if on_page(es[a], dir, scope) {
        seq![a] + selected(es, dir, scope, a + 1, b)
    } else {
        selected(es, dir, scope, a + 1, b)
    }
}

/// Checks a log that is read back, and gathers the sessions that it tells of.
fn gather(entries: &Vec<Entry>) -> (r: Result<Directory, String>)
    ensures
        match r {
            Ok(dir) => whole_log(entries@) && dir@ == told(entries@),
            Err(e) => !whole_log(entries@) && e@
                == "communications log has a sequence gap or mixed instances"@,
        },
{
    let ghost es = entries@;
    let mut known = Directory { sessions: Vec::new() };
    let mut i: usize = 0;
    assert(known@ =~= told(es.take(0)));
    while i < entries.len()
        invariant
            es == entries@,
            i <= es.len(),
            known@ == told(es.take(i as int)),
            forall|j: int|
                0 <= j < i ==> (#[trigger] es[j]).sequence == j + 1 && es[j].instance@
                    == es[0].instance@,
        decreases es.len() - i,
    {
        let e = &entries[i];
        if e.sequence != i as u64 + 1 || !same(
            e.instance.as_str(),
            entries[0].instance.as_str(),
        ) {
            assert(es[i as int] == *e);
            return Err(
                String::from_str("communications log has a sequence gap or mixed instances"),
            );
        }
        assert(es.take(i + 1).drop_last() =~= es.take(i as int));
        if same(e.kind.as_str(), "session.started") {
            let path = match &e.path {
                Some(p) => p.clone(),
                None => String::new(),
            };
            let parent = match &e.parent {
                Some(p) => Some(p.clone()),
                None => None,
            };
            assert(path@ == match maybe(e.path) {
                Some(p) => p,
                None => Seq::empty(),
            });
            known.insert(Session { id: e.actor.clone(), parent, path, running: true });
        }
        i += 1;
    }
    assert(es.take(i as int) =~= es);
    Ok(known)
}

/// Whether a log tells of a session of that ID or path.
pub open spec fn tells_of(dir: Seq<SessionView>, session: Seq<char>) -> bool {
    entry(dir, session) is Some || exists|i: int|
        0 <= i < dir.len() && (#[trigger] dir[i]).path == session
}

fn has_path(directory: &Directory, path: &str) -> (r: bool)
    ensures
        r == exists|i: int| 0 <= i < directory@.len() && (#[trigger] directory@[i]).path == path@,
{
    let ghost dir = directory@;
    let mut i: usize = 0;
    while i < directory.sessions.len()
        invariant
            dir == directory@,
            i <= dir.len() == directory.sessions@.len(),
            forall|j: int| 0 <= j < i ==> (#[trigger] dir[j]).path != path@,
        decreases dir.len() - i,
    {
        assert(dir[i as int] == directory.sessions@[i as int]@);
        if same(directory.sessions[i].path.as_str(), path) {
            assert(directory@[i as int].path == path@);
            return true;
        }
        i += 1;
    }
    false
}

/// A page starts right behind what came before and, as long as no event is
/// larger than a page, gets on.
proof fn lemma_page_goes_on(
    es: Seq<Entry>,
    i: int,
    after: u64,
    dir: Seq<SessionView>,
    scope: Option<Seq<char>>,
    count: nat,
    bytes: nat,
    cursor: u64,
)
    requires
        whole_log(es),
        forall|k: int| 0 <= k < es.len() ==> (#[trigger] es[k]).size <= PAGE_LIMIT,
        0 <= i <= es.len(),
        after <= es.len(),
        i <= after ==> count == 0 && bytes == 0 && cursor == after,
        i > after ==> cursor == i,
    ensures
        ({
            let from = if i <= after { after as int } else { i };
            let (events, end) = paged(es, i, after, dir, scope, 100, count, bytes, cursor);
            &&& from <= end <= es.len()
            &&& events == selected(es, dir, scope, from, end as int)
            &&& i <= after < es.len() ==> end > after
        }),
    decreases es.len() - i,
{
    if i < es.len() {
        let e = es[i];
        assert(e.sequence == i + 1);
        assert(e.size <= PAGE_LIMIT);
        if e.sequence <= after {
            lemma_page_goes_on(es, i + 1, after, dir, scope, count, bytes, cursor);
        } else if !on_page(e, dir, scope) {
            lemma_page_goes_on(es, i + 1, after, dir, scope, count, bytes, e.sequence);
        } else if count >= 100 || bytes + e.size > PAGE_LIMIT {
        } else {
            lemma_page_goes_on(
                es,
                i + 1,
                after,
                dir,
                scope,
                count + 1,
                (bytes + e.size) as nat,
                e.sequence,
            );
        }
    }
}

proof fn lemma_selected_joins(
    es: Seq<Entry>,
    dir: Seq<SessionView>,
    scope: Option<Seq<char>>,
    a: int,
    b: int,
    c: int,
)
    requires
        a <= b <= c,
    ensures
        selected(es, dir, scope, a, b) + selected(es, dir, scope, b, c) == selected(
            es,
            dir,
            scope,
            a,
            c,
        ),
    decreases b - a,
{
    if a < b {
        lemma_selected_joins(es, dir, scope, a + 1, b, c);
        let left = selected(es, dir, scope, a + 1, b);
        let right = selected(es, dir, scope, b, c);
        assert((seq![a] + left) + right =~= seq![a] + (left + right));
    } else {
        assert(selected(es, dir, scope, a, b) + selected(es, dir, scope, b, c) =~= selected(
            es,
            dir,
            scope,
            a,
            c,
        ));
    }
}

/// Events are numbered from one on, and none twice.
pub open spec fn ascending(es: Seq<Entry>) -> bool {
    &&& forall|i: int| 0 <= i < es.len() ==> (#[trigger] es[i]).sequence > 0
    &&& forall|i: int, j: int|
        0 <= i < j < es.len() ==> (#[trigger] es[i]).sequence < (#[trigger] es[j]).sequence
}

/// Those before the place `n`, and no others, have been read up to that number.
pub open spec fn read_up_to(es: Seq<Entry>, n: int, after: u64) -> bool {
    &&& 0 <= n <= es.len()
    &&& forall|k: int| 0 <= k < n ==> (#[trigger] es[k]).sequence <= after
    &&& forall|k: int| n <= k < es.len() ==> (#[trigger] es[k]).sequence > after
}

/// A page from the place `i` on ends before the place `m`.
pub open spec fn page_ends(
    es: Seq<Entry>,
    dir: Seq<SessionView>,
    scope: Option<Seq<char>>,
    from: int,
    page: (Seq<int>, u64),
    m: int,
) -> bool {
    &&& from <= m <= es.len()
    &&& page.0 == selected(es, dir, scope, from, m)
    &&& read_up_to(es, m, page.1)
}

/// A page starts right behind what came before and, as long as no event is larger than a
/// page, gets on.
proof fn lemma_page_reaches(
    es: Seq<Entry>,
    n: int,
    i: int,
    after: u64,
    dir: Seq<SessionView>,
    scope: Option<Seq<char>>,
    limit: nat,
    count: nat,
    bytes: nat,
    cursor: u64,
) -> (m: int)
    requires
        ascending(es),
        forall|k: int| 0 <= k < es.len() ==> (#[trigger] es[k]).size <= PAGE_LIMIT,
        read_up_to(es, n, after),
        0 <= i <= es.len(),
        1 <= limit,
        count <= limit,
        i <= n ==> count == 0 && bytes == 0 && cursor == after,
        i > n ==> read_up_to(es, i, cursor),
    ensures
        ({
            let page = paged(es, i, after, dir, scope, limit, count, bytes, cursor);
            let from = if i <= n {
                n
            } else {
                i
            };
            &&& page_ends(es, dir, scope, from, page, m)
            &&& page.0.len() + count <= limit
            &&& i <= n < es.len() ==> m > n
        }),
    decreases es.len() - i,
{
    if i < es.len() {
        let e = es[i];
        assert(e.size <= PAGE_LIMIT);
        if e.sequence <= after {
            assert(i < n);
            lemma_page_reaches(es, n, i + 1, after, dir, scope, limit, count, bytes, cursor)
        } else {
            assert(i >= n);
            assert(read_up_to(es, i + 1, e.sequence)) by {
                assert forall|k: int| 0 <= k < i + 1 implies (#[trigger] es[k]).sequence
                    <= e.sequence by {
                    if k < i {
                        assert(es[k].sequence < es[i].sequence);
                    }
                }
                assert forall|k: int| i + 1 <= k < es.len() implies (#[trigger] es[k]).sequence
                    > e.sequence by {
                    assert(es[i].sequence < es[k].sequence);
                }
            }
            if !on_page(e, dir, scope) {
                lemma_page_reaches(es, n, i + 1, after, dir, scope, limit, count, bytes, e.sequence)
            } else if count >= limit || bytes + e.size > PAGE_LIMIT {
                i
            } else {
                lemma_page_reaches(
                    es,
                    n,
                    i + 1,
                    after,
                    dir,
                    scope,
                    limit,
                    count + 1,
                    (bytes + e.size) as nat,
                    e.sequence,
                )
            }
        }
    } else {
        i
    }
}

/// The number after which the page at a place is asked for: where the one before it ended.
pub open spec fn asked_after(pages: Seq<(Seq<int>, u64)>, k: int) -> u64 {
    if k == 0 {
        0
    } else {
        pages[k - 1].1
    }
}

/// Pages that were asked for in turn, as long as more was to come.
pub open spec fn pages_in_turn(
    pages: Seq<(Seq<int>, u64)>,
    es: Seq<Entry>,
    dir: Seq<SessionView>,
    scope: Option<Seq<char>>,
    limit: nat,
) -> bool {
    &&& pages.len() > 0
    &&& forall|k: int|
        0 <= k < pages.len() ==> #[trigger] page_at(pages, k, es, dir, scope, limit)
    &&& forall|k: int| 0 <= k < pages.len() - 1 ==> #[trigger] more_after(pages, k, es)
}

/// The page at a place begins where the one before it ended.
pub open spec fn page_at(
    pages: Seq<(Seq<int>, u64)>,
    k: int,
    es: Seq<Entry>,
    dir: Seq<SessionView>,
    scope: Option<Seq<char>>,
    limit: nat,
) -> bool {
    let after = asked_after(pages, k);
    pages[k] == paged(es, 0, after, dir, scope, limit, 0, 0, after)
}

/// More is to come behind the page at a place.
pub open spec fn more_after(pages: Seq<(Seq<int>, u64)>, k: int, es: Seq<Entry>) -> bool {
    pages[k].1 < latest_of(es)
}

/// The events of all pages, one page after the other.
pub open spec fn all_events(pages: Seq<(Seq<int>, u64)>) -> Seq<int>
    decreases pages.len(),
{
    if pages.len() == 0 {
        Seq::empty()
    } else {
        all_events(pages.drop_last()) + pages.last().0
    }
}

proof fn lemma_pages(
    pages: Seq<(Seq<int>, u64)>,
    es: Seq<Entry>,
    dir: Seq<SessionView>,
    scope: Option<Seq<char>>,
    limit: nat,
) -> (m: int)
    requires
        ascending(es),
        forall|k: int| 0 <= k < es.len() ==> (#[trigger] es[k]).size <= PAGE_LIMIT,
        1 <= limit,
        pages_in_turn(pages, es, dir, scope, limit),
    ensures
        read_up_to(es, m, pages.last().1),
        all_events(pages) == selected(es, dir, scope, 0, m),
        m >= pages.len() || m == es.len(),
        es.len() > 0 ==> pages.len() <= es.len(),
        es.len() == 0 ==> pages.len() == 1,
        forall|k: int| 0 <= k < pages.len() ==> (#[trigger] pages[k]).0.len() <= limit,
    decreases pages.len(),
{
    let last = pages.len() - 1;
    assert(page_at(pages, last, es, dir, scope, limit));
    if last == 0 {
        let m = lemma_page_reaches(es, 0, 0, 0, dir, scope, limit, 0, 0, 0);
        assert(pages.drop_last() =~= Seq::empty());
        assert(all_events(pages.drop_last()) =~= Seq::empty());
        assert(all_events(pages) =~= pages.last().0);
        m
    } else {
        let most = pages.drop_last();
        assert forall|k: int| 0 <= k < most.len() implies #[trigger] page_at(
            most,
            k,
            es,
            dir,
            scope,
            limit,
        ) by {
            assert(page_at(pages, k, es, dir, scope, limit));
            assert(asked_after(pages, k) == asked_after(most, k));
        }
        assert forall|k: int| 0 <= k < most.len() - 1 implies #[trigger] more_after(
            most,
            k,
            es,
        ) by {
            assert(more_after(pages, k, es));
        }
        let n = lemma_pages(most, es, dir, scope, limit);
        let after = asked_after(pages, last);
        assert(after == most.last().1);
        assert(more_after(pages, last - 1, es));
        if n == es.len() {
            assert(es[es.len() - 1].sequence <= after);
        }
        let m = lemma_page_reaches(es, n, 0, after, dir, scope, limit, 0, 0, after);
        lemma_selected_joins(es, dir, scope, 0, n, m);
        assert forall|k: int| 0 <= k < pages.len() implies (#[trigger] pages[k]).0.len()
            <= limit by {
            if k < last {
                assert(pages[k] == most[k]);
            }
        }
        m
    }
}

/// The pages of a log, put together, are the whole of it: every event of the session that
/// they are limited to and of what descends from it, in order and each once. No page holds
/// more than was asked for, and there is an end of them.
pub proof fn the_pages_are_the_log(
    pages: Seq<(Seq<int>, u64)>,
    es: Seq<Entry>,
    dir: Seq<SessionView>,
    scope: Option<Seq<char>>,
    limit: nat,
)
    requires
        ascending(es),
        forall|k: int| 0 <= k < es.len() ==> (#[trigger] es[k]).size <= PAGE_LIMIT,
        1 <= limit,
        pages_in_turn(pages, es, dir, scope, limit),
    ensures
        pages.last().1 >= latest_of(es) ==> all_events(pages) == selected(
            es,
            dir,
            scope,
            0,
            es.len() as int,
        ),
        forall|k: int| 0 <= k < pages.len() ==> (#[trigger] pages[k]).0.len() <= limit,
        pages.len() <= es.len() + 1,
        pages.len() >= es.len() && pages.len() > 0 ==> pages.last().1 >= latest_of(es),
{
    let m = lemma_pages(pages, es, dir, scope, limit);
    if es.len() > 0 {
        assert(es.last() == es[es.len() - 1]);
    }
}

/// How many bytes come before the first line feed, or all of them.
pub open spec fn line_length(b: Seq<u8>) -> nat
    decreases b.len(),
{
    if b.len() == 0 || b[0] == 10 {
        0
    } else {
        1 + line_length(b.skip(1))
    }
}

/// The lines of a log, without those that hold nothing.
pub open spec fn lines_in(b: Seq<u8>) -> Seq<Seq<u8>>
    decreases b.len(),
{
    let n = line_length(b) as int;
    if b.len() == 0 {
        Seq::empty()
    } else if n >= b.len() {
        seq![b]
    } else if n == 0 {
        lines_in(b.skip(1))
    } else {
        seq![b.take(n)] + lines_in(b.skip(n + 1))
    }
}

/// A log ends where one of its lines does.
pub open spec fn ended(b: Seq<u8>) -> bool {
    b.len() > 0 ==> b.last() == 10
}

pub open spec fn as_lines(v: Seq<Vec<u8>>) -> Seq<Seq<u8>> {
    v.map_values(|l: Vec<u8>| l@)
}

proof fn lemma_line_length(b: Seq<u8>, n: int)
    requires
        0 <= n < b.len(),
        b[n] == 10,
        forall|k: int| 0 <= k < n ==> b[k] != 10,
    ensures
        line_length(b) == n,
    decreases n,
{
    if n > 0 {
        lemma_line_length(b.skip(1), n - 1);
    }
}

/// The lines of a log that was kept. One that is too long, or that breaks off within a
/// line, is refused.
pub fn log_lines(bytes: &[u8]) -> (r: Result<Vec<Vec<u8>>, String>)
    ensures
        if bytes@.len() > LOG_LIMIT || !ended(bytes@) {
            r matches Err(e) && e@ == "oversized or incomplete communications log"@
        } else {
            r matches Ok(v) && as_lines(v@) == lines_in(bytes@)
        },
{
    let n: usize = bytes.len();
    if n > LOG_LIMIT || (n > 0 && bytes[n - 1] != 10) {
        return Err(String::from_str("oversized or incomplete communications log"));
    }
    let ghost whole = lines_in(bytes@);
    let mut r: Vec<Vec<u8>> = Vec::new();
    let mut start: usize = 0;
    let mut i: usize = 0;
    assert(bytes@.skip(0) =~= bytes@);
    assert(as_lines(r@) + whole =~= whole);
    while i < n
        invariant
            n == bytes@.len(),
            ended(bytes@),
            start <= i <= n,
            i == n ==> start == n,
            forall|k: int| start <= k < i ==> bytes@[k] != 10,
            whole == as_lines(r@) + lines_in(bytes@.skip(start as int)),
        decreases n - i,
    {
        if bytes[i] == 10 {
            let ghost rest = bytes@.skip(start as int);
            proof {
                lemma_line_length(rest, i - start);
                assert(rest.skip(i - start + 1) =~= bytes@.skip(i + 1));
            }
            if start < i {
                let mut line: Vec<u8> = Vec::new();
                line.extend_from_slice(slice_subrange(bytes, start, i));
                assert(line@ =~= rest.take(i - start));
                let ghost before = as_lines(r@);
                r.push(line);
                assert(as_lines(r@) =~= before.push(line@));
                assert(as_lines(r@) + lines_in(bytes@.skip(i + 1)) =~= before + (seq![line@]
                    + lines_in(bytes@.skip(i + 1))));
            }
            start = i + 1;
        }
        i += 1;
    }
    assert(bytes@.skip(start as int) =~= Seq::<u8>::empty());
    assert(as_lines(r@) + Seq::<Seq<u8>>::empty() =~= as_lines(r@));
    Ok(r)
}

/// Selects from a log that is read back all events of a session and what
/// descends from it, or all events, page by page: none is left out, none comes
/// twice, and they stay in order.
pub fn offline_log(entries: &Vec<Entry>, session: Option<String>) -> (r: Result<Vec<usize>, String>)
    requires
        forall|k: int| 0 <= k < entries@.len() ==> (#[trigger] entries@[k]).size <= PAGE_LIMIT,
    ensures
        ({
            let dir = told(entries@);
            if !whole_log(entries@) {
                r matches Err(e) && e@
                    == "communications log has a sequence gap or mixed instances"@
            } else if maybe(session) matches Some(s) && !tells_of(dir, s) {
                r matches Err(e) && e@
                    == "offline session selection requires a session ID or captured path from session.started"@
            } else {
                match scope_of(dir, maybe(session)) {
                    Err((code, message)) => r matches Err(e) && e@ == message,
                    Ok(scope) => r matches Ok(v) && places(v@) == selected(
                        entries@,
                        dir,
                        scope,
                        0,
                        entries@.len() as int,
                    ),
                }
            }
        }),
{
    let known = match gather(entries) {
        Ok(known) => known,
        Err(e) => {
            return Err(e);
        },
    };
    if let Some(s) = &session {
        if known.get(s.as_str()).is_none() && !has_path(&known, s.as_str()) {
            return Err(
                String::from_str(
                    "offline session selection requires a session ID or captured path from session.started",
                ),
            );
        }
    }
    let ghost es = entries@;
    let ghost dir = known@;
    let ghost goal = scope_of(dir, maybe(session));
    let mut p = List { after: 0, limit: 100, session };
    let mut result: Vec<usize> = Vec::new();
    assert(places(result@) =~= Seq::<int>::empty());
    loop
        invariant
            es == entries@,
            dir == known@,
            dir == told(es),
            maybe(session) matches Some(s) ==> tells_of(dir, s),
            whole_log(es),
            forall|k: int| 0 <= k < es.len() ==> (#[trigger] es[k]).size <= PAGE_LIMIT,
            p.limit == 100,
            p.session == session,
            p.after <= es.len(),
            goal == scope_of(dir, maybe(session)),
            goal matches Ok(scope) ==> places(result@) == selected(
                es,
                dir,
                scope,
                0,
                p.after as int,
            ),
        ensures
            goal matches Ok(scope) && places(result@) == selected(
                es,
                dir,
                scope,
                0,
                es.len() as int,
            ),
        decreases es.len() - p.after,
    {
        let shown_page = match page(entries, &known, &p) {
            Ok(page) => page,
            Err((_, e)) => {
                return Err(e);
            },
        };
        let ghost scope = goal->Ok_0;
        let ghost done = places(result@);
        proof {
            lemma_page_goes_on(es, 0, p.after, dir, scope, 0, 0, p.after);
            lemma_selected_joins(es, dir, scope, 0, p.after as int, shown_page.cursor as int);
        }
        let mut k: usize = 0;
        while k < shown_page.events.len()
            invariant
                k <= shown_page.events@.len(),
                places(result@) == done + places(shown_page.events@.take(k as int)),
            decreases shown_page.events@.len() - k,
        {
            let ghost before = places(result@);
            result.push(shown_page.events[k]);
            k += 1;
            proof {
                let last = shown_page.events@[k - 1] as int;
                assert(places(result@) =~= before.push(last));
                assert(places(shown_page.events@.take(k as int)) =~= places(
                    shown_page.events@.take(k - 1),
                ).push(last));
                assert(before.push(last) =~= done + places(shown_page.events@.take(k - 1)).push(
                    last,
                ));
            }
        }
        assert(shown_page.events@.take(k as int) =~= shown_page.events@);
        p.after = shown_page.cursor;
        if p.after >= shown_page.latest {
            assert(p.after == es.len()) by {
                if es.len() > 0 {
                    assert(es.last() == es[es.len() - 1]);
                }
            }
            break;
        }
    }
    Ok(result)
}

// ---------------------------------------------------------------------------
// The service
// ---------------------------------------------------------------------------

/// The host's mailbox with what is needed to keep it in step with its sessions.
pub struct Service {
    pub mailbox: Mailbox,
    pub integrations: Integrations,
    /// Every session the host has had, so that the log can be filtered after it is gone.
    pub known: Directory,
}

/// Who answers a call.
#[derive(Clone, Copy, Debug, PartialEq, Eq, Structural)]
pub enum Route {
    Integration,
    Message,
    Inbox,
    Log,
    Mutation,
}

pub open spec fn routed(host: bool, method: Seq<char>) -> Route {
    if "integration."@.is_prefix_of(method) {
        Route::Integration
    } else if method == "messages.get"@ {
        Route::Message
    } else if method == "inbox.status"@ {
        Route::Inbox
    } else if method == "communications.list"@ && host {
        Route::Log
    } else {
        Route::Mutation
    }
}

/// Which part of the service answers a call: the log is for the host alone.
pub fn route(actor: &str, method: &str) -> (r: Route)
    ensures
        r == routed(actor@ == "host"@, method@),
{
    if starts_with(method, "integration.") {
        Route::Integration
    } else if same(method, "messages.get") {
        Route::Message
    } else if same(method, "inbox.status") {
        Route::Inbox
    } else if same(method, "communications.list") && same(actor, "host") {
        Route::Log
    } else {
        Route::Mutation
    }
}

/// A session that was running and no longer is.
pub open spec fn has_stopped(s: SessionView, dir: Seq<SessionView>) -> bool {
    s.running && !(entry(dir, s.id) matches Some(now) && now.running)
}

/// The sessions, among the first `k`, that no longer run.
pub open spec fn newly_stopped(known: Seq<SessionView>, dir: Seq<SessionView>, k: nat) -> Seq<Seq<char>>
    decreases k,
{
    if k == 0 {
        Seq::empty()
    } else {
        let before = newly_stopped(known, dir, (k - 1) as nat);
        if has_stopped(known[k - 1], dir) {
            before.push(known[k - 1].id)
        } else {
            before
        }
    }
}

/// A known session as the directory has it now, or as one that is gone.
pub open spec fn renewed(s: SessionView, dir: Seq<SessionView>) -> SessionView {
    match entry(dir, s.id) {
        Some(now) => now,
        None => SessionView { running: false, ..s },
    }
}

/// The sessions, among the first `k` of a directory, that were not known.
pub open spec fn newly_started(known: Seq<SessionView>, dir: Seq<SessionView>, k: nat) -> Seq<SessionView>
    decreases k,
{
    if k == 0 {
        Seq::empty()
    } else {
        let before = newly_started(known, dir, (k - 1) as nat);
        if entry(known, dir[k - 1].id) is None {
            before.push(dir[k - 1])
        } else {
            before
        }
    }
}

/// What is known after a directory was seen.
pub open spec fn merged(known: Seq<SessionView>, dir: Seq<SessionView>) -> Seq<SessionView> {
    put_all(
        known.map_values(|s: SessionView| renewed(s, dir)),
        newly_started(known, dir, dir.len()),
    )
}

proof fn lemma_entry_id(dir: Seq<SessionView>, id: Seq<char>)
    ensures
        entry(dir, id) matches Some(s) ==> s.id == id,
    decreases dir.len(),
{
    if dir.len() > 0 {
        lemma_entry_id(dir.drop_first(), id);
    }
}

/// The sessions that a host has had stay in the order of their IDs, and so do the notes of
/// those that end together.
pub proof fn what_is_known_is_in_order(known: Seq<SessionView>, dir: Seq<SessionView>)
    requires
        in_id_order(known),
    ensures
        in_id_order(merged(known, dir)),
{
    let basis = known.map_values(|s: SessionView| renewed(s, dir));
    assert forall|i: int, j: int| 0 <= i < j < basis.len() implies text_before(
        (#[trigger] basis[i]).id,
        (#[trigger] basis[j]).id,
    ) by {
        lemma_entry_id(dir, known[i].id);
        lemma_entry_id(dir, known[j].id);
        assert(text_before(known[i].id, known[j].id));
    }
    directories_are_in_order(basis, newly_started(known, dir, dir.len()));
}

/// What the log says of a session that has started.
pub open spec fn start_shown(s: SessionView) -> Shown {
    Shown::Fields(
        no_fields().push(("parent"@, maybe_text(s.parent))).push(("path"@, Shown::Text(s.path))),
    )
}

fn start_value(s: &Session) -> (r: Json)
    ensures
        shown(r) == start_shown(s@),
{
    Fields::new().maybe("parent", &s.parent).text("path", &s.path).done()
}

/// Something was noted, and this is what is left of the mailbox and of the log.
pub open spec fn note_left(
    s: MailboxView,
    log: Seq<Handed>,
    actor: Seq<char>,
    kind: Seq<char>,
    said: Shown,
    now: u64,
    t: MailboxView,
    longer: Seq<Handed>,
) -> bool {
    exists|data: Json, failure: Option<(int, Seq<char>)>|
        shown(data) == said && #[trigger] record_done(
            s,
            t,
            log,
            longer,
            actor,
            kind,
            EventDataView::Note(data),
            now,
            failure,
        )
}

/// A mailbox and a log, at one moment.
pub ghost struct Moment {
    pub mailbox: MailboxView,
    pub log: Seq<Handed>,
}

/// Moments between which the starts of these sessions were noted, one after the other.
pub open spec fn notes_starts(h: Seq<Moment>, list: Seq<SessionView>, now: u64) -> bool {
    &&& h.len() == list.len() + 1
    &&& forall|k: int|
        0 <= k < list.len() ==> note_left(
            h[k].mailbox,
            h[k].log,
            (#[trigger] list[k]).id,
            "session.started"@,
            start_shown(list[k]),
            now,
            h[k + 1].mailbox,
            h[k + 1].log,
        )
}

/// The exit of a session is noted, where it is one.
pub open spec fn exit_left(
    s: MailboxView,
    log: Seq<Handed>,
    id: Seq<char>,
    exited: bool,
    now: u64,
    t: MailboxView,
    longer: Seq<Handed>,
) -> bool {
    if exited {
        note_left(s, log, id, "session.exited"@, Shown::Fields(no_fields()), now, t, longer)
    } else {
        t == s && longer == log
    }
}

/// A recipient has stopped, and this is what is left.
pub open spec fn end_left(
    s: MailboxView,
    log: Seq<Handed>,
    id: Seq<char>,
    now: u64,
    t: MailboxView,
    longer: Seq<Handed>,
) -> bool {
    exists|failure: Option<(int, Seq<char>)>| #[trigger]
        stop_done(s, t, log, longer, id, now, failure)
}

/// A recipient stops from one moment to the next, and its exit is noted first where it is one.
pub open spec fn ends_at(a: Moment, id: Seq<char>, exited: bool, now: u64, b: Moment) -> bool {
    exists|m: Moment| #[trigger]
        end_left(m.mailbox, m.log, id, now, b.mailbox, b.log) && exit_left(
            a.mailbox,
            a.log,
            id,
            exited,
            now,
            m.mailbox,
            m.log,
        )
}

/// Moments between which these recipients stop, one after the other.
pub open spec fn notes_ends(
    h: Seq<Moment>,
    list: Seq<Seq<char>>,
    exited: bool,
    now: u64,
) -> bool {
    &&& h.len() == list.len() + 1
    &&& forall|k: int|
        0 <= k < list.len() ==> ends_at(h[k], #[trigger] list[k], exited, now, h[k + 1])
}

/// These recipients have stopped.
pub open spec fn ends_left(
    before: Moment,
    list: Seq<Seq<char>>,
    exited: bool,
    now: u64,
    after: Moment,
) -> bool {
    exists|h: Seq<Moment>| #[trigger]
        notes_ends(h, list, exited, now) && h[0] == before && h.last() == after
}

/// The starts of these sessions were noted.
pub open spec fn starts_left(
    before: Moment,
    list: Seq<SessionView>,
    now: u64,
    after: Moment,
) -> bool {
    exists|h: Seq<Moment>| #[trigger]
        notes_starts(h, list, now) && h[0] == before && h.last() == after
}

fn stopped_since(known: &Directory, directory: &Directory) -> (r: Vec<String>)
    ensures
        texts(r@) == newly_stopped(known@, directory@, known@.len()),
{
    let ghost ks = known@;
    let mut r: Vec<String> = Vec::new();
    let mut i: usize = 0;
    assert(texts(r@) =~= Seq::<Seq<char>>::empty());
    while i < known.sessions.len()
        invariant
            ks == known@,
            i <= ks.len() == known.sessions@.len(),
            texts(r@) == newly_stopped(ks, directory@, i as nat),
        decreases ks.len() - i,
    {
        let s = &known.sessions[i];
        assert(ks[i as int] == s@);
        let runs = match directory.get(s.id.as_str()) {
            Some(now) => now.running,
            None => false,
        };
        if s.running && !runs {
            let ghost before = texts(r@);
            r.push(s.id.clone());
            assert(texts(r@) =~= before.push(s@.id));
        }
        i += 1;
    }
    r
}

fn started_since(known: &Directory, directory: &Directory) -> (r: Vec<Session>)
    ensures
        r@.map_values(|s: Session| s@) == newly_started(known@, directory@, directory@.len()),
{
    let ghost ds = directory@;
    let mut r: Vec<Session> = Vec::new();
    let mut i: usize = 0;
    assert(r@.map_values(|s: Session| s@) =~= Seq::<SessionView>::empty());
    while i < directory.sessions.len()
        invariant
            ds == directory@,
            i <= ds.len() == directory.sessions@.len(),
            r@.map_values(|s: Session| s@) == newly_started(known@, ds, i as nat),
        decreases ds.len() - i,
    {
        let s = &directory.sessions[i];
        assert(ds[i as int] == s@);
        if known.get(s.id.as_str()).is_none() {
            let ghost before = r@;
            r.push(s.copy());
            assert(r@.map_values(|s: Session| s@) =~= before.map_values(|s: Session| s@).push(s@));
        }
        i += 1;
    }
    r
}

impl Service {
    pub open spec fn wf(&self) -> bool {
        self.mailbox.wf() && self.integrations.wf()
    }

    pub fn new(instance: String, names: Names) -> (r: Result<Self, String>)
        ensures
            match r {
                Ok(s) => {
                    &&& s.wf()
                    &&& crate::mailbox::is_instance(instance@)
                    &&& s.mailbox@ == (MailboxView {
                        instance: instance@,
                        limits: Limits { messages: 4096, operations: 16384, inbox: 256 },
                        sequence: 0,
                        messages: Seq::empty(),
                        receipts: Seq::empty(),
                        audit_failed: false,
                        auxiliary_events: 0,
                    })
                    &&& s.integrations@ == (IntegrationsView {
                        names: names@,
                        states: Seq::empty(),
                        next_epoch: 0,
                    })
                    &&& s.known@.len() == 0
                },
                Err(e) => !crate::mailbox::is_instance(instance@) && e@
                    == "invalid daemon instance"@,
            },
    {
        match Mailbox::new(instance, Limits::default()) {
            Ok(mailbox) => Ok(
                Service {
                    mailbox,
                    integrations: Integrations::new(names),
                    known: Directory { sessions: Vec::new() },
                },
            ),
            Err((_, e)) => Err(e),
        }
    }

    /// Brings the mailbox in step with the sessions as they are now: notes those
    /// that have started, and fails what those that have stopped leave open.
    pub fn sync<A: Audit>(&mut self, directory: &Directory, now: u64, audit: &mut A)
        requires
            old(self).wf(),
        ensures
            final(self).wf(),
            final(self).known@ == merged(old(self).known@, directory@),
            final(self).integrations == old(self).integrations,
            final(self).mailbox@.receipts == old(self).mailbox@.receipts,
            final(self).mailbox@.messages.len() == old(self).mailbox@.messages.len(),
            forall|i: int|
                0 <= i < old(self).mailbox@.messages.len() ==> settled_at_most(
                    old(self).mailbox@.messages[i],
                    #[trigger] final(self).mailbox@.messages[i],
                    newly_stopped(old(self).known@, directory@, old(self).known@.len()),
                ),
            exists|mid: Moment| #[trigger]
                starts_left(
                    Moment { mailbox: old(self).mailbox@, log: old(audit).log() },
                    newly_started(old(self).known@, directory@, directory@.len()),
                    now,
                    mid,
                ) && ends_left(
                    mid,
                    newly_stopped(old(self).known@, directory@, old(self).known@.len()),
                    true,
                    now,
                    (Moment { mailbox: final(self).mailbox@, log: final(audit).log() }),
                ),
    {
        let stopped = stopped_since(&self.known, directory);
        let started = started_since(&self.known, directory);
        self.note_started(&started, now, audit);
        let ghost mid = Moment { mailbox: self.mailbox@, log: audit.log() };
        self.renew(directory, started);
        self.stop_all(&stopped, true, now, audit);
        assert(starts_left(
            Moment { mailbox: old(self).mailbox@, log: old(audit).log() },
            newly_started(old(self).known@, directory@, directory@.len()),
            now,
            mid,
        ));
    }

    /// The service ends: whatever is still open fails.
    pub fn finish<A: Audit>(&mut self, now: u64, audit: &mut A)
        requires
            old(self).wf(),
        ensures
            final(self).wf(),
            final(self).known == old(self).known,
            final(self).integrations == old(self).integrations,
            final(self).mailbox@.receipts == old(self).mailbox@.receipts,
            final(self).mailbox@.messages.len() == old(self).mailbox@.messages.len(),
            forall|i: int|
                0 <= i < old(self).mailbox@.messages.len() ==> settled_at_most(
                    old(self).mailbox@.messages[i],
                    #[trigger] final(self).mailbox@.messages[i],
                    names_of(old(self).known@).push("host"@),
                ),
            ends_left(
                Moment { mailbox: old(self).mailbox@, log: old(audit).log() },
                names_of(old(self).known@).push("host"@),
                false,
                now,
                Moment { mailbox: final(self).mailbox@, log: final(audit).log() },
            ),
    {
        let ghost ks = self.known@;
        let mut everyone: Vec<String> = Vec::new();
        let mut i: usize = 0;
        assert(texts(everyone@) =~= names_of(ks.take(0)));
        while i < self.known.sessions.len()
            invariant
                *self == *old(self),
                audit.log() == old(audit).log(),
                ks == self.known@,
                i <= ks.len() == self.known.sessions@.len(),
                texts(everyone@) == names_of(ks.take(i as int)),
            decreases ks.len() - i,
        {
            let ghost before = texts(everyone@);
            assert(ks[i as int] == self.known.sessions@[i as int]@);
            everyone.push(self.known.sessions[i].id.clone());
            i += 1;
            assert(texts(everyone@) =~= before.push(ks[i - 1].id));
            assert(names_of(ks.take(i as int)) =~= names_of(ks.take(i - 1)).push(ks[i - 1].id));
        }
        let ghost before = texts(everyone@);
        everyone.push(String::from_str("host"));
        assert(ks.take(i as int) =~= ks);
        assert(texts(everyone@) =~= before.push("host"@));
        self.stop_all(&everyone, false, now, audit);
    }

    fn note_started<A: Audit>(&mut self, started: &Vec<Session>, now: u64, audit: &mut A)
        requires
            old(self).wf(),
        ensures
            final(self).wf(),
            final(self).known == old(self).known,
            final(self).integrations == old(self).integrations,
            final(self).mailbox@.receipts == old(self).mailbox@.receipts,
            final(self).mailbox@.messages == old(self).mailbox@.messages,
            starts_left(
                Moment { mailbox: old(self).mailbox@, log: old(audit).log() },
                started@.map_values(|s: Session| s@),
                now,
                Moment { mailbox: final(self).mailbox@, log: final(audit).log() },
            ),
    {
        let ghost list = started@.map_values(|s: Session| s@);
        let ghost mut h = seq![Moment { mailbox: self.mailbox@, log: audit.log() }];
        let mut i: usize = 0;
        while i < started.len()
            invariant
                i <= started@.len() == list.len(),
                list == started@.map_values(|s: Session| s@),
                h.len() == i + 1,
                h[0] == (Moment { mailbox: old(self).mailbox@, log: old(audit).log() }),
                h.last() == (Moment { mailbox: self.mailbox@, log: audit.log() }),
                forall|k: int|
                    0 <= k < i ==> note_left(
                        h[k].mailbox,
                        h[k].log,
                        (#[trigger] list[k]).id,
                        "session.started"@,
                        start_shown(list[k]),
                        now,
                        h[k + 1].mailbox,
                        h[k + 1].log,
                    ),
                self.wf(),
                self.known == old(self).known,
                self.integrations == old(self).integrations,
                self.mailbox@.receipts == old(self).mailbox@.receipts,
                self.mailbox@.messages == old(self).mailbox@.messages,
            decreases started@.len() - i,
        {
            let s = &started[i];
            let data = start_value(s);
            let ghost said = data;
            let note = EventData::Note(data);
            let ghost noted = note@;
            let ghost mid = self.mailbox@;
            let ghost between = audit.log();
            let done = self.mailbox.record(s.id.as_str(), "session.started", note, now, audit);
            proof {
                assert(noted == EventDataView::Note(said));
                assert(list[i as int] == s@);
                assert(record_done(
                    mid,
                    self.mailbox@,
                    between,
                    audit.log(),
                    s@.id,
                    "session.started"@,
                    EventDataView::Note(said),
                    now,
                    failure_of(done),
                ));
                assert(note_left(
                    mid,
                    between,
                    s@.id,
                    "session.started"@,
                    start_shown(s@),
                    now,
                    self.mailbox@,
                    audit.log(),
                ));
                h = h.push(Moment { mailbox: self.mailbox@, log: audit.log() });
            }
            i += 1;
        }
        assert(notes_starts(h, list, now));
    }

    fn renew(&mut self, directory: &Directory, started: Vec<Session>)
        requires
            started@.map_values(|s: Session| s@) == newly_started(
                old(self).known@,
                directory@,
                directory@.len(),
            ),
        ensures
            final(self).known@ == merged(old(self).known@, directory@),
            final(self).mailbox == old(self).mailbox,
            final(self).integrations == old(self).integrations,
    {
        let ghost ks = self.known@;
        let mut i: usize = 0;
        while i < self.known.sessions.len()
            invariant
                ks == old(self).known@,
                i <= ks.len() == self.known.sessions@.len(),
                self.mailbox == old(self).mailbox,
                self.integrations == old(self).integrations,
                forall|j: int|
                    0 <= j < i ==> (#[trigger] self.known.sessions@[j])@ == renewed(
                        ks[j],
                        directory@,
                    ),
                forall|j: int|
                    i <= j < ks.len() ==> (#[trigger] self.known.sessions@[j])@ == ks[j],
            decreases ks.len() - i,
        {
            assert(self.known.sessions@[i as int]@ == ks[i as int]);
            let next = match directory.get(self.known.sessions[i].id.as_str()) {
                Some(now) => now.copy(),
                None => {
                    let mut gone = self.known.sessions[i].copy();
                    gone.running = false;
                    gone
                },
            };
            self.known.sessions.set(i, next);
            i += 1;
        }
        let ghost basis = ks.map_values(|s: SessionView| renewed(s, directory@));
        let ghost fresh = newly_started(ks, directory@, directory@.len());
        assert(self.known@ =~= basis);
        assert(fresh.take(0) =~= Seq::empty());
        assert(put_all(basis, fresh.take(0)) == basis);
        let mut k: usize = 0;
        while k < started.len()
            invariant
                k <= started@.len(),
                started@.map_values(|s: Session| s@) == fresh,
                self.known@ == put_all(basis, fresh.take(k as int)),
                self.mailbox == old(self).mailbox,
                self.integrations == old(self).integrations,
            decreases started@.len() - k,
        {
            assert(started@.map_values(|s: Session| s@)[k as int] == started@[k as int]@);
            assert(fresh.take(k + 1).drop_last() =~= fresh.take(k as int));
            self.known.insert(started[k].copy());
            k += 1;
        }
        assert(fresh.take(k as int) =~= fresh);
    }

    fn stop_all<A: Audit>(&mut self, stopped: &Vec<String>, exited: bool, now: u64, audit: &mut A)
        requires
            old(self).wf(),
        ensures
            final(self).wf(),
            final(self).known == old(self).known,
            final(self).integrations == old(self).integrations,
            final(self).mailbox@.receipts == old(self).mailbox@.receipts,
            final(self).mailbox@.messages.len() == old(self).mailbox@.messages.len(),
            forall|i: int|
                0 <= i < old(self).mailbox@.messages.len() ==> settled_at_most(
                    old(self).mailbox@.messages[i],
                    #[trigger] final(self).mailbox@.messages[i],
                    texts(stopped@),
                ),
            ends_left(
                Moment { mailbox: old(self).mailbox@, log: old(audit).log() },
                texts(stopped@),
                exited,
                now,
                Moment { mailbox: final(self).mailbox@, log: final(audit).log() },
            ),
    {
        let ghost first = self.mailbox@.messages;
        let ghost list = texts(stopped@);
        let ghost mut h = seq![Moment { mailbox: self.mailbox@, log: audit.log() }];
        let mut k: usize = 0;
        while k < stopped.len()
            invariant
                k <= stopped@.len(),
                list == texts(stopped@),
                first == old(self).mailbox@.messages,
                h.len() == k + 1,
                h[0] == (Moment { mailbox: old(self).mailbox@, log: old(audit).log() }),
                h.last() == (Moment { mailbox: self.mailbox@, log: audit.log() }),
                forall|j: int|
                    0 <= j < k ==> ends_at(h[j], #[trigger] list[j], exited, now, h[j + 1]),
                self.wf(),
                self.known == old(self).known,
                self.integrations == old(self).integrations,
                self.mailbox@.receipts == old(self).mailbox@.receipts,
                self.mailbox@.messages.len() == first.len(),
                forall|i: int|
                    0 <= i < first.len() ==> settled_at_most(
                        first[i],
                        #[trigger] self.mailbox@.messages[i],
                        list,
                    ),
            decreases stopped@.len() - k,
        {
            let id = stopped[k].as_str();
            assert(list[k as int] == id@);
            let ghost before = self.mailbox@.messages;
            let ghost mid = self.mailbox@;
            let ghost between = audit.log();
            if exited {
                let data = Fields::new().done();
                let ghost said = data;
                let note = EventData::Note(data);
                let ghost noted = note@;
                let done = self.mailbox.record(id, "session.exited", note, now, audit);
                proof {
                    assert(noted == EventDataView::Note(said));
                    assert(record_done(
                        mid,
                        self.mailbox@,
                        between,
                        audit.log(),
                        id@,
                        "session.exited"@,
                        EventDataView::Note(said),
                        now,
                        failure_of(done),
                    ));
                }
            }
            let ghost noted = self.mailbox@;
            let ghost further = audit.log();
            assert(exit_left(mid, between, id@, exited, now, noted, further));
            assert(self.mailbox@.messages == before);
            let ended = self.mailbox.stop_recipient(id, now, audit);
            proof {
                assert(stop_done(
                    noted,
                    self.mailbox@,
                    further,
                    audit.log(),
                    id@,
                    now,
                    failure_of(ended),
                ));
                assert(end_left(noted, further, id@, now, self.mailbox@, audit.log()));
                let m = Moment { mailbox: noted, log: further };
                let after = Moment { mailbox: self.mailbox@, log: audit.log() };
                assert(end_left(m.mailbox, m.log, id@, now, after.mailbox, after.log));
                assert(ends_at(h.last(), list[k as int], exited, now, after));
                h = h.push(after);
                assert forall|i: int| 0 <= i < first.len() implies settled_at_most(
                    first[i],
                    #[trigger] self.mailbox@.messages[i],
                    list,
                ) by {
                    assert(settled_at_most(first[i], before[i], list));
                    if self.mailbox@.messages != before {
                        assert(self.mailbox@.messages[i] == crate::mailbox::stopped(before, id@)[i]);
                    }
                }
            }
            k += 1;
        }
        assert(notes_ends(h, list, exited, now));
    }
}

/// The IDs of sessions.
pub open spec fn names_of(dir: Seq<SessionView>) -> Seq<Seq<char>> {
    dir.map_values(|s: SessionView| s.id)
}

/// A message is as it was, or it was open in the inbox of one of these and has failed.
pub open spec fn settled_at_most(
    before: MessageView,
    after: MessageView,
    recipients: Seq<Seq<char>>,
) -> bool {
    ||| after == before
    ||| recipients.contains(before.recipient) && before.state.is_unresolved() && after == failed(
        before,
    )
}

// ---------------------------------------------------------------------------
// What a log shows
// ---------------------------------------------------------------------------

/// A session is within its own scope, and so is what one owns that is.
pub proof fn a_scope_is_a_session_and_what_it_owns(
    dir: Seq<SessionView>,
    id: Seq<char>,
    scope: Seq<char>,
    steps: nat,
)
    ensures
        within(dir, scope, scope, steps + 1),
        (id != scope && (entry(dir, id) matches Some(s) && s.parent is Some)) ==> within(
            dir,
            id,
            scope,
            steps + 1,
        ) == within(dir, (entry(dir, id)->0).parent->0, scope, steps),
        (id != scope && !(entry(dir, id) matches Some(s) && s.parent is Some)) ==> !within(
            dir,
            id,
            scope,
            steps + 1,
        ),
{
}

/// An event is shown exactly where it is by, or concerns, a session within the scope; without
/// a scope every one is. They are shown in their order, each once.
pub proof fn every_event_in_scope_is_shown(
    es: Seq<Entry>,
    dir: Seq<SessionView>,
    scope: Option<Seq<char>>,
    a: int,
    b: int,
)
    requires
        0 <= a,
        b <= es.len(),
    ensures
        forall|k: int| #[trigger]
            selected(es, dir, scope, a, b).contains(k) <==> a <= k < b && (scope is None
                || in_scope(dir, es[k].actor@, scope) || exists|j: int|
                0 <= j < es[k].sessions@.len() && in_scope(
                    dir,
                    (#[trigger] es[k].sessions@[j])@,
                    scope,
                )),
        forall|x: int, y: int|
            0 <= x < y < selected(es, dir, scope, a, b).len() ==> (#[trigger] selected(
                es,
                dir,
                scope,
                a,
                b,
            )[x]) < (#[trigger] selected(es, dir, scope, a, b)[y]),
    decreases b - a,
{
    let all = selected(es, dir, scope, a, b);
    if a < b {
        let rest = selected(es, dir, scope, a + 1, b);
        every_event_in_scope_is_shown(es, dir, scope, a + 1, b);
        assert forall|k: int| #[trigger] all.contains(k) <==> a <= k < b && (scope is None
            || in_scope(dir, es[k].actor@, scope) || exists|j: int|
            0 <= j < es[k].sessions@.len() && in_scope(
                dir,
                (#[trigger] es[k].sessions@[j])@,
                scope,
            )) by {
            if on_page(es[a], dir, scope) {
                if rest.contains(k) {
                    let n = choose|n: int| 0 <= n < rest.len() && rest[n] == k;
                    assert(all[n + 1] == k);
                }
                if k == a {
                    assert(all[0] == k);
                }
                if all.contains(k) && k != a {
                    let n = choose|n: int| 0 <= n < all.len() && all[n] == k;
                    assert(rest[n - 1] == k);
                }
            }
        }
        assert forall|x: int, y: int| 0 <= x < y < all.len() implies (#[trigger] all[x]) < (
        #[trigger] all[y]) by {
            if on_page(es[a], dir, scope) {
                assert(rest.contains(rest[y - 1]));
            }
        }
    }
}

/// A line of a log ends at its newline, and what follows is read on its own.
pub proof fn a_line_ends_at_its_newline(line: Seq<u8>, rest: Seq<u8>)
    requires
        line.len() > 0,
        !line.contains(10),
    ensures
        lines_in(line.push(10) + rest) == seq![line] + lines_in(rest),
{
    let all = line.push(10) + rest;
    lemma_line_then(line, rest);
    assert(all.take(line.len() as int) =~= line);
    assert(all.skip(line.len() as int + 1) =~= rest);
    if rest.len() == 0 {
        assert(lines_in(rest) =~= Seq::<Seq<u8>>::empty());
    }
}

proof fn lemma_line_then(line: Seq<u8>, rest: Seq<u8>)
    requires
        !line.contains(10),
    ensures
        line_length(line.push(10) + rest) == line.len(),
    decreases line.len(),
{
    let all = line.push(10) + rest;
    if line.len() == 0 {
        assert(all[0] == 10);
    } else {
        let less = line.drop_first();
        assert(line.contains(line[0]));
        assert(!less.contains(10)) by {
            if less.contains(10) {
                let k = choose|k: int| 0 <= k < less.len() && less[k] == 10;
                assert(line[k + 1] == 10);
            }
        }
        lemma_line_then(less, rest);
        assert(all.skip(1) =~= less.push(10) + rest);
    }
}

/// The sessions that stopped are those that ran when they were seen last and that do not run,
/// or are not there, now.
pub proof fn a_session_that_is_gone_has_stopped(
    known: Seq<SessionView>,
    dir: Seq<SessionView>,
    k: nat,
    id: Seq<char>,
)
    requires
        k <= known.len(),
    ensures
        newly_stopped(known, dir, k).contains(id) <==> exists|i: int|
            0 <= i < k && (#[trigger] known[i]).id == id && known[i].running && !(entry(
                dir,
                id,
            ) matches Some(now) && now.running),
    decreases k,
{
    let all = newly_stopped(known, dir, k);
    if k > 0 {
        let some = newly_stopped(known, dir, (k - 1) as nat);
        a_session_that_is_gone_has_stopped(known, dir, (k - 1) as nat, id);
        let s = known[k - 1];
        if some.contains(id) {
            let n = choose|n: int| 0 <= n < some.len() && some[n] == id;
            assert(all[n] == id);
        }
        if has_stopped(s, dir) && s.id == id {
            assert(all[some.len() as int] == id);
        }
        if all.contains(id) && !some.contains(id) {
            let n = choose|n: int| 0 <= n < all.len() && all[n] == id;
            if n < some.len() {
                assert(some[n] == id);
            }
            assert(known[k - 1].id == id);
        }
    }
}

/// The sessions that started are those that were not known before.
pub proof fn a_session_that_is_new_has_started(
    known: Seq<SessionView>,
    dir: Seq<SessionView>,
    k: nat,
    s: SessionView,
)
    requires
        k <= dir.len(),
    ensures
        newly_started(known, dir, k).contains(s) <==> exists|i: int|
            0 <= i < k && (#[trigger] dir[i]) == s && entry(known, s.id) is None,
    decreases k,
{
    let all = newly_started(known, dir, k);
    if k > 0 {
        let some = newly_started(known, dir, (k - 1) as nat);
        a_session_that_is_new_has_started(known, dir, (k - 1) as nat, s);
        if some.contains(s) {
            let n = choose|n: int| 0 <= n < some.len() && some[n] == s;
            assert(all[n] == s);
        }
        if dir[k - 1] == s && entry(known, s.id) is None {
            assert(all[some.len() as int] == s);
        }
        if all.contains(s) && !some.contains(s) {
            let n = choose|n: int| 0 <= n < all.len() && all[n] == s;
            if n < some.len() {
                assert(some[n] == s);
            }
            assert(dir[k - 1] == s);
        }
    }
}

/// A session that is still there is known as it is now, and one that is gone as it was, but
/// not running.
pub proof fn what_is_known_is_brought_up_to_date(s: SessionView, dir: Seq<SessionView>)
    ensures
        entry(dir, s.id) matches Some(now) ==> renewed(s, dir) == now,
        entry(dir, s.id) is None ==> renewed(s, dir) == (SessionView { running: false, ..s }),
{
}

/// A call that belongs to a mailbox goes where its method says; only the host reads the log.
pub proof fn mail_goes_where_its_method_says(host: bool)
    ensures
        routed(host, "messages.get"@) == Route::Message,
        routed(host, "inbox.status"@) == Route::Inbox,
        routed(true, "communications.list"@) == Route::Log,
        routed(false, "communications.list"@) == Route::Mutation,
        routed(host, "messages.send"@) == Route::Mutation,
        routed(host, "inbox.next"@) == Route::Mutation,
{
    reveal_strlit("integration.");
    reveal_strlit("messages.get");
    reveal_strlit("inbox.status");
    reveal_strlit("communications.list");
    reveal_strlit("messages.send");
    reveal_strlit("inbox.next");
    assert("messages.get"@[0] == 'm');
    assert("messages.get"@.len() == 12);
    assert("inbox.status"@.len() == 12);
    assert("inbox.status"@[2] == 'b');
    assert("integration."@[2] == 't');
    assert("integration."@[0] == 'i');
    assert("integration."@.len() == 12);
    assert("inbox.next"@.len() == 10);
    assert("communications.list"@.len() == 19);
    assert("communications.list"@[0] == 'c');
    assert("messages.send"@.len() == 13);
    assert("messages.send"@[0] == 'm');
    assert("inbox.status"@.take(12)[2] == 'b');
    assert("communications.list"@.take(12)[0] == 'c');
    assert("messages.send"@.take(12)[0] == 'm');
}

/// A target means the running sessions that have it as their path or as its last part.
pub proof fn running_sessions_are_meant_by_name(dir: Seq<SessionView>, target: Seq<char>, k: nat)
    requires
        k <= dir.len(),
    ensures
        forall|i: int| #[trigger]
            running_as(dir, target, k).contains(i) <==> 0 <= i < k && dir[i].running
                && (dir[i].path == target || last_part(dir[i].path) == target),
        forall|a: int, b: int|
            0 <= a < b < running_as(dir, target, k).len() ==> (#[trigger] running_as(dir, target,
                k)[a])
                < #[trigger] running_as(dir, target, k)[b],
    decreases k,
{
    if k > 0 {
        let less = (k - 1) as nat;
        running_sessions_are_meant_by_name(dir, target, less);
        let before = running_as(dir, target, less);
        let now = running_as(dir, target, k);
        assert forall|a: int| 0 <= a < before.len() implies 0 <= #[trigger] before[a] < k - 1 by {
            assert(before.contains(before[a]));
        }
        assert forall|i: int| #[trigger] now.contains(i) <==> 0 <= i < k && dir[i].running
            && (dir[i].path == target || last_part(dir[i].path) == target) by {
            if now.contains(i) {
                let a = choose|a: int| 0 <= a < now.len() && now[a] == i;
                if a < before.len() {
                    assert(before[a] == i);
                    assert(before.contains(i));
                }
            }
            if 0 <= i < k && dir[i].running && (dir[i].path == target || last_part(dir[i].path)
                == target) {
                if i < k - 1 {
                    assert(before.contains(i));
                    let a = choose|a: int| 0 <= a < before.len() && before[a] == i;
                    assert(now[a] == i);
                } else {
                    assert(now[now.len() - 1] == i);
                }
            }
        }
    }
}

/// No event is lost between two pages: what is asked for lies on the page as far as its cursor
/// goes, in order, and nothing else does.
pub proof fn no_event_is_lost_between_pages(
    entries: Seq<Entry>,
    i: int,
    after: u64,
    dir: Seq<SessionView>,
    scope: Option<Seq<char>>,
    limit: nat,
    count: nat,
    bytes: nat,
    cursor: u64,
)
    requires
        0 <= i <= entries.len(),
        forall|a: int, b: int|
            0 <= a < b < entries.len() ==> (#[trigger] entries[a]).sequence < (
            #[trigger] entries[b]).sequence,
        cursor >= after,
        forall|a: int| i <= a < entries.len() && (#[trigger] entries[a]).sequence > after
            ==> entries[a].sequence > cursor,
    ensures
        ({
            let (list, end) = paged(entries, i, after, dir, scope, limit, count, bytes, cursor);
            &&& end >= cursor
            &&& count + list.len() <= limit || list.len() == 0
            &&& forall|a: int| #[trigger]
                list.contains(a) <==> i <= a < entries.len() && after < entries[a].sequence <= end
                    && on_page(entries[a], dir, scope)
            &&& forall|a: int, b: int|
                0 <= a < b < list.len() ==> (#[trigger] list[a]) < (#[trigger] list[b])
        }),
    decreases entries.len() - i,
{
    let (list, end) = paged(entries, i, after, dir, scope, limit, count, bytes, cursor);
    if i < entries.len() {
        let e = entries[i];
        if e.sequence <= after {
            no_event_is_lost_between_pages(
                entries,
                i + 1,
                after,
                dir,
                scope,
                limit,
                count,
                bytes,
                cursor,
            );
        } else if !on_page(e, dir, scope) {
            no_event_is_lost_between_pages(
                entries,
                i + 1,
                after,
                dir,
                scope,
                limit,
                count,
                bytes,
                e.sequence,
            );
        } else if count >= limit || bytes + e.size > PAGE_LIMIT {
            assert forall|a: int| #[trigger] list.contains(a) <==> i <= a < entries.len() && after
                < entries[a].sequence <= end && on_page(entries[a], dir, scope) by {
                if i <= a < entries.len() && after < entries[a].sequence {
                    assert(entries[a].sequence > cursor);
                }
            }
        } else {
            no_event_is_lost_between_pages(
                entries,
                i + 1,
                after,
                dir,
                scope,
                limit,
                count + 1,
                (bytes + e.size) as nat,
                e.sequence,
            );
            let (rest, stop) = paged(
                entries,
                i + 1,
                after,
                dir,
                scope,
                limit,
                count + 1,
                (bytes + e.size) as nat,
                e.sequence,
            );
            assert(list == seq![i] + rest);
            assert forall|a: int| 0 <= a < rest.len() implies i < #[trigger] rest[a] by {
                assert(rest.contains(rest[a]));
            }
            assert forall|a: int| #[trigger] list.contains(a) <==> i <= a < entries.len() && after
                < entries[a].sequence <= end && on_page(entries[a], dir, scope) by {
                if list.contains(a) {
                    let k = choose|k: int| 0 <= k < list.len() && list[k] == a;
                    if k > 0 {
                        assert(rest[k - 1] == a);
                        assert(rest.contains(a));
                    }
                }
                if i <= a < entries.len() && after < entries[a].sequence <= end && on_page(
                    entries[a],
                    dir,
                    scope,
                ) {
                    if a > i {
                        assert(rest.contains(a));
                        let k = choose|k: int| 0 <= k < rest.len() && rest[k] == a;
                        assert(list[k + 1] == a);
                    } else {
                        assert(list[0] == a);
                    }
                }
            }
        }
    }
}

/// Where there is room for all that is asked for, all of it lies on the page.
pub proof fn a_page_with_room_has_everything(
    entries: Seq<Entry>,
    i: int,
    after: u64,
    dir: Seq<SessionView>,
    scope: Option<Seq<char>>,
    limit: nat,
    count: nat,
    bytes: nat,
    cursor: u64,
    most: nat,
    j: int,
)
    requires
        0 <= i <= j < entries.len(),
        forall|a: int| i <= a < entries.len() ==> (#[trigger] entries[a]).size <= most,
        count + (entries.len() - i) <= limit,
        bytes + (entries.len() - i) * most <= PAGE_LIMIT,
        entries[j].sequence > after,
        on_page(entries[j], dir, scope),
    ensures
        paged(entries, i, after, dir, scope, limit, count, bytes, cursor).0.contains(j),
    decreases entries.len() - i,
{
    let e = entries[i];
    let left = entries.len() - i;
    assert(left * most == (left - 1) * most + most) by (nonlinear_arith)
        requires
            left >= 1,
    ;
    assert((left - 1) * most >= 0) by (nonlinear_arith)
        requires
            left >= 1,
    ;
    let list = paged(entries, i, after, dir, scope, limit, count, bytes, cursor).0;
    if e.sequence <= after {
        a_page_with_room_has_everything(
            entries,
            i + 1,
            after,
            dir,
            scope,
            limit,
            count,
            bytes,
            cursor,
            most,
            j,
        );
    } else if !on_page(e, dir, scope) {
        a_page_with_room_has_everything(
            entries,
            i + 1,
            after,
            dir,
            scope,
            limit,
            count,
            bytes,
            e.sequence,
            most,
            j,
        );
    } else if i == j {
        assert(list[0] == j);
    } else {
        a_page_with_room_has_everything(
            entries,
            i + 1,
            after,
            dir,
            scope,
            limit,
            count + 1,
            (bytes + e.size) as nat,
            e.sequence,
            most,
            j,
        );
        let rest = paged(
            entries,
            i + 1,
            after,
            dir,
            scope,
            limit,
            count + 1,
            (bytes + e.size) as nat,
            e.sequence,
        ).0;
        let k = choose|k: int| 0 <= k < rest.len() && rest[k] == j;
        assert(list[k + 1] == j);
    }
}

/// A session whose beginning was told is known from then on, under the owner and the path that were
/// told.
pub proof fn a_told_session_is_known(es: Seq<Entry>, e: Entry, path: Seq<char>)
    requires
        e.kind@ == "session.started"@,
        maybe(e.path) == Some(path),
    ensures
        told(es.push(e)).contains(
            SessionView { id: e.actor@, parent: maybe(e.parent), path, running: true },
        ),
        forall|t: SessionView|
            t.id != e.actor@ ==> (#[trigger] told(es.push(e)).contains(t)
                <==> told(es).contains(t)),
{
    let s = SessionView { id: e.actor@, parent: maybe(e.parent), path, running: true };
    assert(es.push(e).drop_last() =~= es);
    assert(es.push(e).last() == e);
    crate::directory::what_is_put_in_place_is_there(told(es), s, s);
    assert forall|t: SessionView| t.id != e.actor@ implies (#[trigger] told(es.push(e)).contains(t)
        <==> told(es).contains(t)) by {
        crate::directory::what_is_put_in_place_is_there(told(es), s, t);
    }
}

/// The log is asked for by the id of a session, or by the path or the name of the only running one
/// that has it; without either it is asked for as a whole.
pub proof fn a_log_is_asked_for_by_name(dir: Seq<SessionView>, target: Seq<char>, i: int)
    requires
        0 <= i < dir.len(),
    ensures
        scope_of(dir, None) == Ok::<Option<Seq<char>>, (int, Seq<char>)>(None),
        entry(dir, target) is Some ==> scope_of(dir, Some(target)) == Ok::<
            Option<Seq<char>>,
            (int, Seq<char>),
        >(Some(target)),
        entry(dir, target) is None && dir[i].running && (dir[i].path == target || last_part(
            dir[i].path,
        ) == target) && (forall|j: int|
            0 <= j < dir.len() && j != i && (#[trigger] dir[j]).running ==> dir[j].path != target
                && last_part(dir[j].path) != target) ==> scope_of(dir, Some(target)) == Ok::<
            Option<Seq<char>>,
            (int, Seq<char>),
        >(Some(dir[i].id)),
        entry(dir, target) is None && (forall|j: int|
            0 <= j < dir.len() && (#[trigger] dir[j]).running ==> dir[j].path != target && last_part(
                dir[j].path,
            ) != target) ==> scope_of(dir, Some(target)) is Err,
{
    running_sessions_are_meant_by_name(dir, target, dir.len());
    let found = running_as(dir, target, dir.len());
    if found.len() > 0 {
        assert(found.contains(found[0]));
    }
    if found.len() > 1 {
        assert(found.contains(found[1]));
        assert(found[0] < found[1]);
    }
    if dir[i].running && (dir[i].path == target || last_part(dir[i].path) == target) {
        assert(found.contains(i));
    }
}

} // verus!
