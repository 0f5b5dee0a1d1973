//! The sessions of a host, and whom an actor may write to.
use vstd::prelude::*;

use crate::paths::{lemma_text_chain, lemma_text_order, text_before, text_precedes};
use crate::text::{chars, maybe, same, span};

verus! {

/// A code and a message.
pub type Fault = (i32, String);

pub open spec fn fault(f: Fault) -> (int, Seq<char>) {
    (f.0 as int, f.1@)
}

/// It is that fault that comes back.
pub open spec fn is_fault<T>(r: Result<T, Fault>, f: (int, Seq<char>)) -> bool {
    r matches Err(e) && fault(e) == f
}

pub open spec fn is_absent() -> (int, Seq<char>) {
    (-32004, "record absent or unavailable"@)
}

pub(crate) fn absent() -> (r: Fault)
    ensures
        fault(r) == is_absent(),
{
    (-32004, String::from_str("record absent or unavailable"))
}

/// What the host knows of a session.
pub struct Session {
    pub id: String,
    pub parent: Option<String>,
    pub path: String,
    /// True while the session may accept messages.
    pub running: bool,
}

pub struct SessionView {
    pub id: Seq<char>,
    pub parent: Option<Seq<char>>,
    pub path: Seq<char>,
    pub running: bool,
}

impl View for Session {
    type V = SessionView;

    open spec fn view(&self) -> SessionView {
        SessionView {
            id: self.id@,
            parent: maybe(self.parent),
            path: self.path@,
            running: self.running,
        }
    }
}

impl Session {
    pub fn copy(&self) -> (r: Session)
        ensures
            r == *self,
    {
        Session {
            id: self.id.clone(),
            parent: match &self.parent {
                Some(p) => Some(p.clone()),
                None => None,
            },
            path: self.path.clone(),
            running: self.running,
        }
    }
}

/// The sessions of a host. The first entry of an ID counts.
pub struct Directory {
    pub sessions: Vec<Session>,
}

impl View for Directory {
    type V = Seq<SessionView>;

    open spec fn view(&self) -> Seq<SessionView> {
        self.sessions@.map_values(|s: Session| s@)
    }
}

/// The entry of that ID.
pub open spec fn entry(dir: Seq<SessionView>, id: Seq<char>) -> Option<SessionView>
    decreases dir.len(),
{
    if dir.len() == 0 {
        None
    } else if dir[0].id == id {
        Some(dir[0])
    } else {
        entry(dir.drop_first(), id)
    }
}

pub open spec fn parent_of(dir: Seq<SessionView>, id: Seq<char>) -> Option<Seq<char>> {
    match entry(dir, id) {
        Some(s) => s.parent,
        None => None,
    }
}

/// Whether walking up from `child` meets `ancestor` within that many steps.
pub open spec fn descends(
    dir: Seq<SessionView>,
    child: Seq<char>,
    ancestor: Seq<char>,
    steps: nat,
) -> bool
    decreases steps,
{
    steps > 0 && match parent_of(dir, child) {
        Some(parent) => parent == ancestor || descends(dir, parent, ancestor, (steps - 1) as nat),
        None => false,
    }
}

pub open spec fn is_live(dir: Seq<SessionView>, id: Seq<char>) -> bool {
    id == "host"@ || (entry(dir, id) matches Some(s) && s.running)
}

/// The last part of a path.
pub open spec fn last_part(path: Seq<char>) -> Seq<char>
    decreases path.len(),
{
    if path.len() == 0 {
        path
    } else if path.last() == '/' {
        Seq::empty()
    } else {
        last_part(path.drop_last()).push(path.last())
    }
}

/// Whether an actor may write to a session: the host to any, an agent to its
/// parent and to what descends from it, nobody to itself.
pub open spec fn may_write(dir: Seq<SessionView>, actor: Seq<char>, s: SessionView) -> bool {
    &&& s.running
    &&& s.id != actor
    &&& actor == "host"@ || parent_of(dir, actor) == Some(s.id) || descends(
        dir,
        s.id,
        actor,
        dir.len(),
    )
}

/// Whether a target names a session for that actor: its ID, the last part of
/// its path, its path below the actor's own, or for the host its whole path.
pub open spec fn names(
    dir: Seq<SessionView>,
    actor: Seq<char>,
    s: SessionView,
    target: Seq<char>,
) -> bool {
    ||| s.id == target
    ||| actor == "host"@ && s.path == target
    ||| last_part(s.path) == target
    ||| entry(dir, actor) matches Some(a) && s.path == a.path + "/"@ + target
}

/// The places, among the first `k`, of the sessions that a target can mean.
pub open spec fn candidates(
    dir: Seq<SessionView>,
    actor: Seq<char>,
    target: Seq<char>,
    k: nat,
) -> Seq<int>
    decreases k,
{
    if k == 0 {
        Seq::empty()
    } else {
        let before = candidates(dir, actor, target, (k - 1) as nat);
        let s = dir[k - 1];
        if may_write(dir, actor, s) && names(dir, actor, s, target) {
            before.push(k - 1)
        } else {
            before
        }
    }
}

/// The session that a target means to an actor, or why it means none.
pub open spec fn resolved(dir: Seq<SessionView>, actor: Seq<char>, target: Seq<char>) -> Result<
    Seq<char>,
    (int, Seq<char>),
> {
    if actor != "host"@ && target == "parent"@ {
        match parent_of(dir, actor) {
            Some(p) => if is_live(dir, p) {
                Ok(p)
            } else {
                Err(is_absent())
            },
            None => Err(is_absent()),
        }
    } else {
        let found = candidates(dir, actor, target, dir.len());
        if found.len() == 0 {
            Err(is_absent())
        } else if found.len() > 1 {
            Err((-32009, "ambiguous recipient; use a path or ID"@))
        } else {
            Ok(dir[found[0]].id)
        }
    }
}

/// A directory with an entry more, or in place of the one of its ID. Entries stand in the
/// order of their IDs.
pub open spec fn put(dir: Seq<SessionView>, s: SessionView) -> Seq<SessionView>
    decreases dir.len(),
{
    if dir.len() == 0 || text_before(s.id, dir[0].id) {
        seq![s] + dir
    } else if dir[0].id == s.id {
        seq![s] + dir.drop_first()
    } else {
        seq![dir[0]] + put(dir.drop_first(), s)
    }
}

/// A directory with several entries more.
pub open spec fn put_all(dir: Seq<SessionView>, more: Seq<SessionView>) -> Seq<SessionView>
    decreases more.len(),
{
    if more.len() == 0 {
        dir
    } else {
        put(put_all(dir, more.drop_last()), more.last())
    }
}

/// Each ID once, and in order.
pub open spec fn in_id_order(dir: Seq<SessionView>) -> bool {
    forall|i: int, j: int|
        0 <= i < j < dir.len() ==> text_before((#[trigger] dir[i]).id, (#[trigger] dir[j]).id)
}

proof fn lemma_put_in_order(dir: Seq<SessionView>, s: SessionView)
    requires
        in_id_order(dir),
    ensures
        in_id_order(put(dir, s)),
        put(dir, s).len() > 0,
        put(dir, s)[0] == s || (dir.len() > 0 && put(dir, s)[0] == dir[0]),
        forall|i: int|
            0 <= i < put(dir, s).len() ==> (#[trigger] put(dir, s)[i]) == s || dir.contains(
                put(dir, s)[i],
            ),
    decreases dir.len(),
{
    let all = put(dir, s);
    if dir.len() == 0 || text_before(s.id, dir[0].id) {
        assert forall|i: int, j: int| 0 <= i < j < all.len() implies text_before(
            (#[trigger] all[i]).id,
            (#[trigger] all[j]).id,
        ) by {
            assert(all[j] == dir[j - 1]);
            if i > 0 {
                assert(all[i] == dir[i - 1]);
            } else if j > 1 {
                assert(text_before(dir[0].id, dir[j - 1].id));
                lemma_text_chain(s.id, dir[0].id, dir[j - 1].id);
            }
        }
        assert forall|i: int| 0 <= i < all.len() implies (#[trigger] all[i]) == s || dir.contains(
            all[i],
        ) by {
            if i > 0 {
                assert(all[i] == dir[i - 1]);
            }
        }
    } else if dir[0].id == s.id {
        assert forall|i: int, j: int| 0 <= i < j < all.len() implies text_before(
            (#[trigger] all[i]).id,
            (#[trigger] all[j]).id,
        ) by {
            assert(all[j] == dir[j]);
            if i > 0 {
                assert(all[i] == dir[i]);
            } else {
                assert(text_before(dir[0].id, dir[j].id));
            }
        }
        assert forall|i: int| 0 <= i < all.len() implies (#[trigger] all[i]) == s || dir.contains(
            all[i],
        ) by {
            if i > 0 {
                assert(all[i] == dir[i]);
            }
        }
    } else {
        let rest = dir.drop_first();
        assert forall|i: int, j: int| 0 <= i < j < rest.len() implies text_before(
            (#[trigger] rest[i]).id,
            (#[trigger] rest[j]).id,
        ) by {
            assert(text_before(dir[i + 1].id, dir[j + 1].id));
        }
        lemma_put_in_order(rest, s);
        lemma_text_order(s.id, dir[0].id);
        let below = put(rest, s);
        assert forall|i: int| 0 <= i < below.len() implies text_before(
            dir[0].id,
            (#[trigger] below[i]).id,
        ) by {
            if below[i] != s {
                let k = choose|k: int| 0 <= k < rest.len() && rest[k] == below[i];
                assert(text_before(dir[0].id, dir[k + 1].id));
            }
        }
        assert forall|i: int, j: int| 0 <= i < j < all.len() implies text_before(
            (#[trigger] all[i]).id,
            (#[trigger] all[j]).id,
        ) by {
            assert(all[j] == below[j - 1]);
            if i > 0 {
                assert(all[i] == below[i - 1]);
            }
        }
        assert forall|i: int| 0 <= i < all.len() implies (#[trigger] all[i]) == s || dir.contains(
            all[i],
        ) by {
            if i > 0 {
                assert(all[i] == below[i - 1]);
                if below[i - 1] != s {
                    let k = choose|k: int| 0 <= k < rest.len() && rest[k] == below[i - 1];
                    assert(dir[k + 1] == below[i - 1]);
                }
            }
        }
    }
}

/// A directory stays in the order of its IDs, whatever is put into it.
pub proof fn directories_are_in_order(dir: Seq<SessionView>, more: Seq<SessionView>)
    requires
        in_id_order(dir),
    ensures
        in_id_order(put_all(dir, more)),
    decreases more.len(),
{
    if more.len() > 0 {
        directories_are_in_order(dir, more.drop_last());
        lemma_put_in_order(put_all(dir, more.drop_last()), more.last());
    }
}

impl Directory {
    /// Puts an entry where it belongs, in place of the one of its ID if there is one.
    pub fn insert(&mut self, s: Session)
        ensures
            final(self)@ == put(old(self)@, s@),
    {
        let ghost dir = self@;
        let ghost item = s@;
        let mut i: usize = 0;
        assert(dir.skip(0) =~= dir);
        assert(dir.take(0) + put(dir.skip(0), s@) =~= put(dir, s@));
        while i < self.sessions.len()
            invariant
                self@ == dir,
                dir == old(self)@,
                item == s@,
                i <= dir.len() == self.sessions@.len(),
                put(dir, s@) == dir.take(i as int) + put(dir.skip(i as int), s@),
            decreases dir.len() - i,
        {
            assert(dir[i as int] == self.sessions@[i as int]@);
            let ghost rest = dir.skip(i as int);
            assert(rest.drop_first() =~= dir.skip(i + 1));
            if text_precedes(s.id.as_str(), self.sessions[i].id.as_str()) {
                self.sessions.insert(i, s);
                proof {
                    assert(put(rest, item) == seq![item] + rest);
                    assert(self@ =~= dir.insert(i as int, item));
                    assert(dir.insert(i as int, item) =~= dir.take(i as int) + (seq![item] + rest));
                }
                return;
            }
            if same(self.sessions[i].id.as_str(), s.id.as_str()) {
                self.sessions.set(i, s);
                proof {
                    assert(put(rest, item) == seq![item] + rest.drop_first());
                    assert(self@ =~= dir.update(i as int, item));
                    assert(dir.update(i as int, item) =~= dir.take(i as int) + (seq![item]
                        + dir.skip(i + 1)));
                }
                return;
            }
            proof {
                assert(put(rest, s@) == seq![rest[0]] + put(rest.drop_first(), s@));
                assert(dir.take(i as int) + (seq![rest[0]] + put(dir.skip(i + 1), s@)) =~= dir.take(
                    i + 1,
                ) + put(dir.skip(i + 1), s@));
            }
            i += 1;
        }
        self.sessions.push(s);
        proof {
            assert(dir.skip(i as int) =~= Seq::<SessionView>::empty());
            assert(put(Seq::<SessionView>::empty(), item) =~= seq![item]);
            assert(dir.take(i as int) =~= dir);
            assert(self@ =~= dir.push(item));
            assert(dir.push(item) =~= dir + seq![item]);
        }
    }
}

impl Directory {
    /// The entry of that ID.
    pub fn get(&self, id: &str) -> (r: Option<&Session>)
        ensures
            match r {
                Some(s) => entry(self@, id@) == Some(s@),
                None => entry(self@, id@) is None,
            },
    {
        let mut i: usize = 0;
        assert(self@.skip(0) =~= self@);
        while i < self.sessions.len()
            invariant
                i <= self.sessions@.len(),
                self@.len() == self.sessions@.len(),
                entry(self@, id@) == entry(self@.skip(i as int), id@),
            decreases self.sessions@.len() - i,
        {
            assert(self@[i as int] == self.sessions@[i as int]@);
            if same(self.sessions[i].id.as_str(), id) {
                return Some(&self.sessions[i]);
            }
            i += 1;
            assert(self@.skip(i as int) =~= self@.skip(i - 1).drop_first());
        }
        None
    }
}

pub(crate) fn parent<'a>(directory: &'a Directory, id: &str) -> (r: Option<&'a String>)
    ensures
        match r {
            Some(p) => parent_of(directory@, id@) == Some(p@),
            None => parent_of(directory@, id@) is None,
        },
{
    match directory.get(id) {
        Some(s) => s.parent.as_ref(),
        None => None,
    }
}

pub(crate) fn live(directory: &Directory, id: &str) -> (r: bool)
    ensures
        r == is_live(directory@, id@),
{
    same(id, "host") || match directory.get(id) {
        Some(s) => s.running,
        None => false,
    }
}

fn descendant(directory: &Directory, child: &str, ancestor: &str) -> (r: bool)
    ensures
        r == descends(directory@, child@, ancestor@, directory@.len()),
{
    let mut current: String = String::from_str(child);
    let mut steps: usize = directory.sessions.len();
    while steps > 0
        invariant
            descends(directory@, child@, ancestor@, directory@.len()) == descends(
                directory@,
                current@,
                ancestor@,
                steps as nat,
            ),
        decreases steps,
    {
        match parent(directory, current.as_str()) {
            None => {
                return false;
            },
            Some(p) => {
                if same(p.as_str(), ancestor) {
                    return true;
                }
                current = p.clone();
            },
        }
        steps -= 1;
    }
    false
}

pub(crate) fn ends_with_part(path: &str, target: &str) -> (r: bool)
    ensures
        r == (last_part(path@) == target@),
{
    let c = chars(path);
    let mut k: usize = c.len();
    assert(c@.skip(k as int) =~= Seq::<char>::empty());
    assert(c@.take(k as int) =~= c@);
    assert(last_part(c@) =~= last_part(c@.take(k as int)) + c@.skip(k as int));
    while k > 0 && c[k - 1] != '/'
        invariant
            k <= c@.len(),
            last_part(c@) == last_part(c@.take(k as int)) + c@.skip(k as int),
        decreases k,
    {
        assert(c@.take(k as int).drop_last() =~= c@.take(k - 1));
        assert(c@.take(k as int).last() == c@[k - 1]);
        assert(last_part(c@.take(k - 1)).push(c@[k - 1]) + c@.skip(k as int) =~= last_part(
            c@.take(k - 1),
        ) + c@.skip(k - 1));
        k -= 1;
    }
    proof {
        assert(last_part(c@.take(k as int)) =~= Seq::<char>::empty()) by {
            if k > 0 {
                assert(c@.take(k as int).last() == '/');
            }
        }
        assert(last_part(c@) =~= c@.skip(k as int));
        assert(c@.skip(k as int) =~= c@.subrange(k as int, c@.len() as int));
    }
    let tail = span(&c, k, c.len());
    same(tail.as_str(), target)
}

fn permits(directory: &Directory, actor: &str, s: &Session) -> (r: bool)
    ensures
        r == may_write(directory@, actor@, s@),
{
    if !s.running || same(s.id.as_str(), actor) {
        return false;
    }
    if same(actor, "host") || descendant(directory, s.id.as_str(), actor) {
        return true;
    }
    match parent(directory, actor) {
        Some(p) => same(p.as_str(), s.id.as_str()),
        None => false,
    }
}

fn is_named(directory: &Directory, actor: &str, s: &Session, target: &str) -> (r: bool)
    ensures
        r == names(directory@, actor@, s@, target@),
{
    if same(s.id.as_str(), target) || ends_with_part(s.path.as_str(), target) {
        return true;
    }
    if same(actor, "host") && same(s.path.as_str(), target) {
        return true;
    }
    match directory.get(actor) {
        Some(a) => {
            let mut below = a.path.clone();
            below.push_str("/");
            below.push_str(target);
            same(s.path.as_str(), below.as_str())
        },
        None => false,
    }
}

/// The session that a target means to an actor.
pub fn resolve(directory: &Directory, actor: &str, target: &str) -> (r: Result<String, Fault>)
    ensures
        match r {
            Ok(id) => resolved(directory@, actor@, target@) == Ok::<Seq<char>, (int, Seq<char>)>(
                id@,
            ),
            Err(f) => resolved(directory@, actor@, target@) == Err::<Seq<char>, (int, Seq<char>)>(
                fault(f),
            ),
        },
{
    if !same(actor, "host") && same(target, "parent") {
        return match parent(directory, actor) {
            Some(p) => if live(directory, p.as_str()) {
                Ok(p.clone())
            } else {
                Err(absent())
            },
            None => Err(absent()),
        };
    }
    let ghost dir = directory@;
    let mut first: Option<usize> = None;
    let mut several: bool = false;
    let mut i: usize = 0;
    while i < directory.sessions.len()
        invariant
            dir == directory@,
            dir.len() == directory.sessions@.len(),
            i <= dir.len(),
            ({
                let found = candidates(dir, actor@, target@, i as nat);
                &&& several == (found.len() > 1)
                &&& first is None <==> found.len() == 0
                &&& first matches Some(k) ==> found.len() >= 1 && found[0] == k && k < i
            }),
        decreases directory.sessions@.len() - i,
    {
        let s = &directory.sessions[i];
        assert(dir[i as int] == s@);
        if permits(directory, actor, s) && is_named(directory, actor, s, target) {
            if first.is_some() {
                several = true;
            } else {
                first = Some(i);
            }
        }
        i += 1;
    }
    match first {
        None => Err(absent()),
        Some(k) => {
            if several {
                return Err((-32009, String::from_str("ambiguous recipient; use a path or ID")));
            }
            assert(dir[k as int] == directory.sessions@[k as int]@);
            Ok(directory.sessions[k].id.clone())
        },
    }
}

// ---------------------------------------------------------------------------
// What a directory says
// ---------------------------------------------------------------------------

/// An ID has the first entry that bears it, and none where no entry does.
pub proof fn the_first_entry_counts(dir: Seq<SessionView>, id: Seq<char>, i: int)
    requires
        0 <= i <= dir.len(),
        forall|j: int| 0 <= j < i ==> (#[trigger] dir[j]).id != id,
        i < dir.len() ==> dir[i].id == id,
    ensures
        entry(dir, id) == if i < dir.len() {
            Some(dir[i])
        } else {
            None
        },
    decreases dir.len(),
{
    if i > 0 {
        let rest = dir.drop_first();
        assert forall|j: int| 0 <= j < i - 1 implies (#[trigger] rest[j]).id != id by {
            assert(rest[j] == dir[j + 1]);
        }
        assert(dir[0].id != id);
        the_first_entry_counts(rest, id, i - 1);
    }
}

/// A session descends from its owner, and from whatever its owner descends from; one that
/// nobody owns descends from nobody.
pub proof fn sessions_descend_through_their_owners(
    dir: Seq<SessionView>,
    child: Seq<char>,
    ancestor: Seq<char>,
    steps: nat,
)
    ensures
        descends(dir, child, ancestor, steps + 1) == (entry(dir, child) matches Some(s)
            && s.parent matches Some(p) && (p == ancestor || descends(dir, p, ancestor, steps))),
        !descends(dir, child, ancestor, 0),
{
}

/// The last part of a path is what stands behind its last slash.
pub proof fn the_last_part_follows_the_last_slash(above: Seq<char>, name: Seq<char>)
    requires
        forall|k: int| 0 <= k < name.len() ==> (#[trigger] name[k]) != '/',
    ensures
        last_part(name) == name,
        last_part(above.push('/') + name) == name,
    decreases name.len(),
{
    if name.len() == 0 {
        assert(above.push('/') + name =~= above.push('/'));
    } else {
        let most = name.drop_last();
        assert forall|k: int| 0 <= k < most.len() implies (#[trigger] most[k]) != '/' by {
            assert(most[k] == name[k]);
        }
        the_last_part_follows_the_last_slash(above, most);
        assert(name[name.len() - 1] != '/');
        assert((above.push('/') + name).drop_last() =~= above.push('/') + most);
        assert(most.push(name.last()) =~= name);
    }
}

/// A running session that an actor may write to, and that the target names: to the host
/// every one, to an agent its owner and what descends from it, by ID, by path or by name.
pub open spec fn can_be_meant(
    dir: Seq<SessionView>,
    actor: Seq<char>,
    target: Seq<char>,
    s: SessionView,
) -> bool {
    &&& s.running && s.id != actor
    &&& {
        ||| actor == "host"@
        ||| entry(dir, actor) matches Some(a) && a.parent == Some(s.id)
        ||| descends(dir, s.id, actor, dir.len())
    }
    &&& {
        ||| s.id == target
        ||| actor == "host"@ && s.path == target
        ||| last_part(s.path) == target
        ||| entry(dir, actor) matches Some(a) && s.path == a.path + "/"@ + target
    }
}

proof fn lemma_found(dir: Seq<SessionView>, actor: Seq<char>, target: Seq<char>, k: nat)
    requires
        k <= dir.len(),
    ensures
        forall|c: int|
            #[trigger] candidates(dir, actor, target, k).contains(c) <==> 0 <= c < k
                && can_be_meant(dir, actor, target, dir[c]),
        forall|a: int, b: int|
            0 <= a < b < candidates(dir, actor, target, k).len() ==> (#[trigger] candidates(
                dir,
                actor,
                target,
                k,
            )[a]) < (#[trigger] candidates(dir, actor, target, k)[b]),
    decreases k,
{
    let all = candidates(dir, actor, target, k);
    if k > 0 {
        let before = candidates(dir, actor, target, (k - 1) as nat);
        lemma_found(dir, actor, target, (k - 1) as nat);
        assert forall|c: int| #[trigger] all.contains(c) <==> 0 <= c < k && can_be_meant(
            dir,
            actor,
            target,
            dir[c],
        ) by {
            if before.contains(c) {
                let x = choose|x: int| 0 <= x < before.len() && before[x] == c;
                assert(all[x] == c);
            }
            if all.contains(c) && c != k - 1 {
                let x = choose|x: int| 0 <= x < all.len() && all[x] == c;
                assert(before[x] == c);
            }
            if c == k - 1 && can_be_meant(dir, actor, target, dir[c]) {
                assert(all[before.len() as int] == c);
            }
            if c == k - 1 && all.contains(c) && !can_be_meant(dir, actor, target, dir[c]) {
                assert(before.contains(c));
            }
        }
        assert forall|a: int, b: int| 0 <= a < b < all.len() implies (#[trigger] all[a]) < (
        #[trigger] all[b]) by {
            assert(a < before.len() ==> before.contains(before[a]));
        }
    }
}

/// A target means the one session that can be meant by it; where there is none it means
/// nothing, and where there are several it is refused.
pub proof fn a_target_means_one_session(
    dir: Seq<SessionView>,
    actor: Seq<char>,
    target: Seq<char>,
    i: int,
    j: int,
)
    requires
        actor == "host"@ || target != "parent"@,
    ensures
        (0 <= i < dir.len() && can_be_meant(dir, actor, target, dir[i]) && forall|k: int|
            0 <= k < dir.len() && k != i ==> !can_be_meant(dir, actor, target, #[trigger] dir[k]))
            ==> resolved(dir, actor, target) == Ok::<Seq<char>, (int, Seq<char>)>(dir[i].id),
        (0 <= i < j < dir.len() && can_be_meant(dir, actor, target, dir[i]) && can_be_meant(
            dir,
            actor,
            target,
            dir[j],
        )) ==> (resolved(dir, actor, target) matches Err(f) && f.0 == -32009),
        (forall|k: int|
            0 <= k < dir.len() ==> !can_be_meant(dir, actor, target, #[trigger] dir[k]))
            ==> resolved(dir, actor, target) == Err::<Seq<char>, (int, Seq<char>)>(
            (-32004, "record absent or unavailable"@),
        ),
{
    let all = candidates(dir, actor, target, dir.len());
    lemma_found(dir, actor, target, dir.len());
    if all.len() > 0 {
        assert(all.contains(all[0]));
        assert(can_be_meant(dir, actor, target, dir[all[0]]));
    }
    if all.len() > 1 {
        assert(all.contains(all[1]));
        assert(can_be_meant(dir, actor, target, dir[all[1]]));
        assert(all[0] < all[1]);
    }
    if 0 <= i < dir.len() && can_be_meant(dir, actor, target, dir[i]) {
        assert(all.contains(i));
    }
    if 0 <= i < j < dir.len() && can_be_meant(dir, actor, target, dir[i]) && can_be_meant(
        dir,
        actor,
        target,
        dir[j],
    ) {
        assert(all.contains(i) && all.contains(j));
        let a = choose|a: int| 0 <= a < all.len() && all[a] == i;
        let b = choose|b: int| 0 <= b < all.len() && all[b] == j;
        assert(a != b);
    }
}

/// An agent reaches its owner by the word for it, as long as the owner runs.
pub proof fn an_agent_reaches_its_owner(
    dir: Seq<SessionView>,
    actor: Seq<char>,
    owner: Seq<char>,
)
    requires
        actor != "host"@,
        entry(dir, actor) matches Some(a) && a.parent == Some(owner),
    ensures
        resolved(dir, actor, "parent"@) is Ok <==> (owner == "host"@ || (entry(dir, owner) matches
            Some(o) && o.running)),
        resolved(dir, actor, "parent"@) matches Ok(r) ==> r == owner,
{
}

/// What is put in place is there, what was there under other ids stays, and nothing else comes.
pub proof fn what_is_put_in_place_is_there(dir: Seq<SessionView>, s: SessionView, t: SessionView)
    ensures
        put(dir, s).contains(s),
        t.id != s.id ==> (put(dir, s).contains(t) <==> dir.contains(t)),
        put(dir, s).contains(t) ==> t == s || dir.contains(t),
    decreases dir.len(),
{
    let now = put(dir, s);
    if dir.len() == 0 || text_before(s.id, dir[0].id) {
        assert(now[0] == s);
        if now.contains(t) {
            let i = choose|i: int| 0 <= i < now.len() && now[i] == t;
            if i > 0 {
                assert(dir[i - 1] == t);
            }
        }
        if dir.contains(t) {
            let i = choose|i: int| 0 <= i < dir.len() && dir[i] == t;
            assert(now[i + 1] == t);
        }
    } else if dir[0].id == s.id {
        assert(now[0] == s);
        if now.contains(t) {
            let i = choose|i: int| 0 <= i < now.len() && now[i] == t;
            if i > 0 {
                assert(dir[i] == t);
            }
        }
        if dir.contains(t) && t.id != s.id {
            let i = choose|i: int| 0 <= i < dir.len() && dir[i] == t;
            assert(now[i] == t);
        }
    } else {
        let rest = dir.drop_first();
        what_is_put_in_place_is_there(rest, s, t);
        let more = put(rest, s);
        let at = choose|i: int| 0 <= i < more.len() && more[i] == s;
        assert(now[at + 1] == s);
        if now.contains(t) {
            let i = choose|i: int| 0 <= i < now.len() && now[i] == t;
            if i > 0 {
                assert(more[i - 1] == t);
                assert(more.contains(t));
                if t != s {
                    let j = choose|j: int| 0 <= j < rest.len() && rest[j] == t;
                    assert(dir[j + 1] == t);
                }
            } else {
                assert(dir[0] == t);
            }
        }
        if dir.contains(t) && t.id != s.id {
            let i = choose|i: int| 0 <= i < dir.len() && dir[i] == t;
            if i > 0 {
                assert(rest[i - 1] == t);
                assert(more.contains(t));
                let j = choose|j: int| 0 <= j < more.len() && more[j] == t;
                assert(now[j + 1] == t);
            } else {
                assert(now[0] == t);
            }
        }
    }
}

} // verus!
