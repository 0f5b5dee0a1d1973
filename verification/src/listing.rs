//! What a host shows of its sessions, in the order of their IDs.
use vstd::prelude::*;

use crate::control::distinct_ids;
use crate::controller::{below, Active, Controller};
use crate::paths::{lemma_text_chain, lemma_text_order, text_before, text_precedes};
use crate::records::{PermissionRecord, PreviewShown, SessionRecord, Snapshot};
use crate::text::{copy_option, places};

verus! {

/// Places of sessions, none of them twice, by the IDs of the sessions.
pub open spec fn by_id(s: Seq<Active>, r: Seq<int>) -> bool {
    &&& forall|i: int| 0 <= i < r.len() ==> 0 <= #[trigger] r[i] < s.len()
    &&& forall|i: int, j: int|
        0 <= i < j < r.len() ==> r[i] != r[j] && !text_before(
            s[#[trigger] r[j]].record.id@,
            s[#[trigger] r[i]].record.id@,
        )
}

/// The places of the sessions below one, by their IDs.
pub open spec fn below_by_id(s: Seq<Active>, scope: Seq<char>, r: Seq<int>) -> bool {
    &&& by_id(s, r)
    &&& forall|i: int| #[trigger]
        r.contains(i) <==> 0 <= i < s.len() && below(s, s[i].record.id@, scope)
}

/// Puts one more session in its place.
fn put_place(sessions: &Vec<Active>, r: &mut Vec<usize>, k: usize)
    requires
        by_id(sessions@, places(old(r)@)),
        k < sessions@.len(),
        !places(old(r)@).contains(k as int),
    ensures
        by_id(sessions@, places(final(r)@)),
        forall|x: int| #[trigger]
            places(final(r)@).contains(x) <==> places(old(r)@).contains(x) || x == k,
        final(r)@.len() == old(r)@.len() + 1,
{
    let ghost s = sessions@;
    let ghost id = s[k as int].record.id@;
    let ghost before = places(r@);
    assert forall|q: int| 0 <= q < r@.len() implies 0 <= #[trigger] r@[q] < s.len() by {
        assert(before[q] == r@[q]);
    }
    let mut p: usize = 0;
    while p < r.len() && !text_precedes(
        sessions[k].record.id.as_str(),
        sessions[r[p]].record.id.as_str(),
    )
        invariant
            s == sessions@,
            k < s.len(),
            id == s[k as int].record.id@,
            before == places(r@),
            by_id(s, before),
            p <= r@.len(),
            forall|q: int| 0 <= q < p ==> !text_before(id, s[#[trigger] before[q]].record.id@),
            forall|q: int| 0 <= q < r@.len() ==> 0 <= #[trigger] r@[q] < s.len(),
        decreases r@.len() - p,
    {
        assert(before[p as int] == r@[p as int]);
        p += 1;
    }
    r.insert(p, k);
    proof {
        let after = places(r@);
        assert(after =~= before.insert(p as int, k as int));
        assert forall|q: int| p <= q < before.len() implies !text_before(
            s[#[trigger] before[q]].record.id@,
            id,
        ) by {
            let at = s[before[p as int]].record.id@;
            let other = s[before[q]].record.id@;
            lemma_text_order(id, at);
            if q > p && text_before(other, id) {
                lemma_text_chain(other, id, at);
            }
        }
        assert forall|i: int, j: int| 0 <= i < j < after.len() implies after[i] != after[j]
            && !text_before(
            s[#[trigger] after[j]].record.id@,
            s[#[trigger] after[i]].record.id@,
        ) by {
            let u = if i < p {
                i
            } else {
                i - 1
            };
            let w = if j < p {
                j
            } else {
                j - 1
            };
            if i != p {
                assert(after[i] == before[u]);
            }
            if j != p {
                assert(after[j] == before[w]);
            }
        }
        assert forall|i: int| 0 <= i < after.len() implies 0 <= #[trigger] after[i] < s.len() by {
            if i != p {
                assert(after[i] == before[if i < p {
                    i
                } else {
                    i - 1
                }]);
            }
        }
        assert forall|x: int| #[trigger] after.contains(x) <==> before.contains(x) || x == k by {
            if before.contains(x) {
                let q = choose|q: int| 0 <= q < before.len() && before[q] == x;
                assert(after[if q < p {
                    q
                } else {
                    q + 1
                }] == x);
            }
            if x == k {
                assert(after[p as int] == x);
            }
            if after.contains(x) && x != k {
                let q = choose|q: int| 0 <= q < after.len() && after[q] == x;
                assert(before[if q < p {
                    q
                } else {
                    q - 1
                }] == x);
            }
        }
    }
}

impl SessionRecord {
    /// The same record: the same in each of its fields.
    pub open spec fn same(&self, other: SessionRecord) -> bool {
        &&& self.initial_packages@ == other.initial_packages@
        &&& self.packages@ == other.packages@
        &&& *self == (SessionRecord {
            initial_packages: self.initial_packages,
            packages: self.packages,
            ..other
        })
    }

    pub fn copy(&self) -> (r: SessionRecord)
        ensures
            r.same(*self),
    {
        SessionRecord {
            docker_enabled: self.docker_enabled,
            docker_scope: copy_option(&self.docker_scope),
            id: self.id.clone(),
            agent_name: self.agent_name.clone(),
            parent: copy_option(&self.parent),
            path: self.path.clone(),
            name: self.name.clone(),
            description: self.description.clone(),
            configuration: self.configuration.clone(),
            state: self.state,
            identity: self.identity,
            initial_packages: self.initial_packages.clone(),
            packages: self.packages.clone(),
            terminal: self.terminal.clone(),
            pty_eof: self.pty_eof,
            terminal_complete: self.terminal_complete,
            terminal_interrupted: self.terminal_interrupted,
            terminal_attached: self.terminal_attached,
            terminal_detached: self.terminal_detached,
            exit_code: self.exit_code,
            stop_reason: copy_option(&self.stop_reason),
            detail: copy_option(&self.detail),
        }
    }
}

impl PreviewShown {
    pub fn copy(&self) -> (r: PreviewShown)
        ensures
            r == *self,
    {
        match self {
            PreviewShown::Package(p) => PreviewShown::Package(
                crate::catalog::Preview {
                    in_store: p.in_store,
                    download: copy_option(&p.download),
                    build_required: p.build_required,
                },
            ),
            PreviewShown::Description(t) => PreviewShown::Description(t.clone()),
            PreviewShown::Failed(t) => PreviewShown::Failed(t.clone()),
        }
    }
}

impl PermissionRecord {
    pub fn copy(&self) -> (r: PermissionRecord)
        ensures
            r == *self,
    {
        PermissionRecord {
            kind: self.kind.clone(),
            scope: copy_option(&self.scope),
            anonymous: self.anonymous,
            id: self.id.clone(),
            session: self.session.clone(),
            agent_name: self.agent_name.clone(),
            approval: self.approval.clone(),
            package: self.package.clone(),
            reason: self.reason.clone(),
            state: self.state,
            approved: self.approved,
            preview: match &self.preview {
                Some(p) => Some(p.copy()),
                None => None,
            },
            message: copy_option(&self.message),
        }
    }
}

/// A snapshot shows a host: every session by its ID, and the requests as they came.
pub open spec fn shows_host(n: Snapshot, c: Controller) -> bool {
    &&& n.instance@ == c.instance@
    &&& n.permissions@ == c.permissions@
    &&& n.sessions@.len() == c.sessions@.len()
    &&& exists|order: Seq<int>| #[trigger] all_by_id(c.sessions@, order) && follows(n, c, order)
}

/// Each session, and each once, by the IDs of the sessions.
pub open spec fn all_by_id(s: Seq<Active>, order: Seq<int>) -> bool {
    &&& by_id(s, order)
    &&& order.len() == s.len()
    &&& forall|i: int| 0 <= i < s.len() ==> order.contains(i)
}

/// The sessions of a snapshot are those at these places.
pub open spec fn follows(n: Snapshot, c: Controller, order: Seq<int>) -> bool {
    forall|k: int|
        0 <= k < order.len() ==> (#[trigger] n.sessions@[k]).same(c.sessions@[order[k]].record)
}

impl Controller {
    /// A host without a session, under a name of its own.
    pub fn new(instance: String) -> (r: Controller)
        ensures
            r.wf(),
            r.instance == instance,
            r.next == 0 && r.sequence == 0,
            r.connections@.len() == 0 && r.sessions@.len() == 0,
            r.permissions@.len() == 0 && r.launches@.len() == 0,
            r.shutdown is None,
            !r.dirty,
    {
        Controller {
            instance,
            next: 0,
            sequence: 0,
            connections: Vec::new(),
            sessions: Vec::new(),
            permissions: Vec::new(),
            launches: Vec::new(),
            shutdown: None,
            dirty: false,
        }
    }

    /// What a sandbox lists: all that it owns, directly or not, by their IDs.
    pub fn list_below(&self, scope: &str) -> (r: Vec<usize>)
        ensures
            below_by_id(self.sessions@, scope@, places(r@)),
    {
        let ghost s = self.sessions@;
        let mut r: Vec<usize> = Vec::new();
        let mut k: usize = 0;
        while k < self.sessions.len()
            invariant
                s == self.sessions@,
                k <= s.len(),
                by_id(s, places(r@)),
                forall|i: int| #[trigger]
                    places(r@).contains(i) <==> 0 <= i < k && below(s, s[i].record.id@, scope@),
            decreases s.len() - k,
        {
            if self.descendant(self.sessions[k].record.id.as_str(), scope) {
                put_place(&self.sessions, &mut r, k);
            }
            k += 1;
        }
        r
    }

    /// All that the host shows.
    pub fn snapshot(&self) -> (r: Snapshot)
        ensures
            shows_host(r, *self),
    {
        let ghost s = self.sessions@;
        let mut order: Vec<usize> = Vec::new();
        let mut k: usize = 0;
        while k < self.sessions.len()
            invariant
                s == self.sessions@,
                k <= s.len(),
                by_id(s, places(order@)),
                order@.len() == k,
                forall|i: int| #[trigger] places(order@).contains(i) <==> 0 <= i < k,
            decreases s.len() - k,
        {
            put_place(&self.sessions, &mut order, k);
            k += 1;
        }
        let mut sessions: Vec<SessionRecord> = Vec::new();
        let mut i: usize = 0;
        while i < order.len()
            invariant
                s == self.sessions@,
                by_id(s, places(order@)),
                i <= order@.len(),
                sessions@.len() == i,
                forall|j: int|
                    0 <= j < i ==> (#[trigger] sessions@[j]).same(s[places(order@)[j]].record),
            decreases order@.len() - i,
        {
            assert(places(order@)[i as int] == order@[i as int]);
            sessions.push(self.sessions[order[i]].record.copy());
            i += 1;
        }
        let mut permissions: Vec<PermissionRecord> = Vec::new();
        let mut j: usize = 0;
        while j < self.permissions.len()
            invariant
                j <= self.permissions@.len(),
                permissions@ =~= self.permissions@.take(j as int),
            decreases self.permissions@.len() - j,
        {
            permissions.push(self.permissions[j].copy());
            j += 1;
        }
        let r = Snapshot { instance: self.instance.clone(), sessions, permissions };
        assert(r.permissions@ =~= self.permissions@);
        proof {
            assert(all_by_id(s, places(order@)));
            assert(follows(r, *self, places(order@)));
        }
        r
    }
}

/// Two snapshots of one host show the same sessions in the same places: no place is left
/// to the order in which they began.
pub proof fn a_host_is_shown_in_one_way(c: Controller, a: Snapshot, b: Snapshot, k: int)
    requires
        c.wf(),
        shows_host(a, c),
        shows_host(b, c),
        0 <= k < c.sessions@.len(),
    ensures
        a.sessions@[k].id@ == b.sessions@[k].id@,
{
    let s = c.sessions@;
    let x = choose|order: Seq<int>| #[trigger] all_by_id(s, order) && follows(a, c, order);
    let y = choose|order: Seq<int>| #[trigger] all_by_id(s, order) && follows(b, c, order);
    lemma_one_order(s, x, y, k);
    assert(a.sessions@[k].same(s[x[k]].record));
    assert(b.sessions@[k].same(s[y[k]].record));
}

proof fn lemma_one_order(s: Seq<Active>, x: Seq<int>, y: Seq<int>, k: int)
    requires
        distinct_ids(s),
        all_by_id(s, x),
        all_by_id(s, y),
        0 <= k < s.len(),
    ensures
        x[k] == y[k],
    decreases k,
{
    assert forall|j: int| 0 <= j < k implies x[j] == y[j] by {
        lemma_one_order(s, x, y, j);
    }
    assert(y.contains(x[k]));
    assert(x.contains(y[k]));
    let m = choose|m: int| 0 <= m < y.len() && y[m] == x[k];
    let n = choose|n: int| 0 <= n < x.len() && x[n] == y[k];
    if x[k] != y[k] {
        assert(m > k && n > k);
        assert(!text_before(s[y[m]].record.id@, s[y[k]].record.id@));
        assert(!text_before(s[x[n]].record.id@, s[x[k]].record.id@));
        lemma_text_order(s[x[k]].record.id@, s[y[k]].record.id@);
        if x[k] < y[k] {
            assert(s[x[k]].record.id@ != s[y[k]].record.id@);
        } else {
            assert(s[y[k]].record.id@ != s[x[k]].record.id@);
        }
    }
}

} // verus!
