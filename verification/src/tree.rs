//! The sessions of a host as a tree, row by row.
use vstd::prelude::*;

use crate::records::SessionRecord;
use crate::text::{holds, maybe, places, same, texts};

verus! {

/// One row: the place of its session, what is drawn before it, and whether
/// anything belongs to it.
pub struct TreeRow {
    pub place: usize,
    pub prefix: String,
    pub branch: bool,
}

pub struct RowView {
    pub place: int,
    pub prefix: Seq<char>,
    pub branch: bool,
}

impl View for TreeRow {
    type V = RowView;

    open spec fn view(&self) -> RowView {
        RowView { place: self.place as int, prefix: self.prefix@, branch: self.branch }
    }
}

pub open spec fn rows_of(v: Seq<TreeRow>) -> Seq<RowView> {
    v.map_values(|r: TreeRow| r@)
}

/// A tree under way: the IDs that were met, and the rows so far.
pub struct TreeView {
    pub seen: Seq<Seq<char>>,
    pub rows: Seq<RowView>,
}

/// The places, among the first `k`, of the sessions of an owner that were not met.
pub open spec fn children(
    s: Seq<SessionRecord>,
    owner: Seq<char>,
    seen: Seq<Seq<char>>,
    k: nat,
) -> Seq<int>
    decreases k,
{
    if k == 0 {
        Seq::empty()
    } else {
        let before = children(s, owner, seen, (k - 1) as nat);
        if maybe(s[k - 1].parent) == Some(owner) && !seen.contains(s[k - 1].id@) {
            before.push(k - 1)
        } else {
            before
        }
    }
}

/// The places, among the first `k`, of the sessions whose owner is not there.
pub open spec fn roots(s: Seq<SessionRecord>, k: nat) -> Seq<int>
    decreases k,
{
    if k == 0 {
        Seq::empty()
    } else {
        let before = roots(s, (k - 1) as nat);
        if maybe(s[k - 1].parent) matches Some(p) && has_id(s, p) {
            before
        } else {
            before.push(k - 1)
        }
    }
}

pub open spec fn has_id(s: Seq<SessionRecord>, id: Seq<char>) -> bool {
    exists|i: int| 0 <= i < s.len() && (#[trigger] s[i]).id@ == id
}

pub open spec fn row_mark(last: bool) -> Seq<char> {
    if last {
        "\u{2514}\u{2500} "@
    } else {
        "\u{251c}\u{2500} "@
    }
}

pub open spec fn below_mark(last: bool) -> Seq<char> {
    if last {
        "   "@
    } else {
        "\u{2502}  "@
    }
}

/// A session, and all that belongs to it, below a prefix. One that was met before
/// is passed over, and what belongs to a folded one gets no row. It goes down as
/// many levels as `depth` says.
pub open spec fn visited(
    s: Seq<SessionRecord>,
    folded: Seq<Seq<char>>,
    t: TreeView,
    i: int,
    prefix: Seq<char>,
    last: bool,
    visible: bool,
    depth: nat,
) -> TreeView
    decreases depth, 0nat,
{
    let id = s[i].id@;
    if depth == 0 || t.seen.contains(id) {
        t
    } else {
        let seen = t.seen.push(id);
        let kids = children(s, id, seen, s.len());
        let rows = if visible {
            t.rows.push(
                RowView { place: i, prefix: prefix + row_mark(last), branch: kids.len() > 0 },
            )
        } else {
            t.rows
        };
        visited_all(
            s,
            folded,
            TreeView { seen, rows },
            kids,
            0,
            prefix + below_mark(last),
            visible && !folded.contains(id),
            (depth - 1) as nat,
        )
    }
}

/// Several sessions one after the other, from the `k`th on.
pub open spec fn visited_all(
    s: Seq<SessionRecord>,
    folded: Seq<Seq<char>>,
    t: TreeView,
    kids: Seq<int>,
    k: nat,
    prefix: Seq<char>,
    visible: bool,
    depth: nat,
) -> TreeView
    decreases depth, 1 + kids.len() - k,
{
    if k >= kids.len() {
        t
    } else {
        let next = visited(
            s,
            folded,
            t,
            kids[k as int],
            prefix,
            k + 1 == kids.len(),
            visible,
            depth,
        );
        visited_all(s, folded, next, kids, k + 1, prefix, visible, depth)
    }
}

/// Those that were not met, from the place `i` on, each as a root of its own.
pub open spec fn stragglers(
    s: Seq<SessionRecord>,
    folded: Seq<Seq<char>>,
    t: TreeView,
    i: int,
) -> TreeView
    decreases s.len() - i,
{
    if i < 0 || i >= s.len() {
        t
    } else {
        stragglers(
            s,
            folded,
            visited(s, folded, t, i, Seq::empty(), true, true, s.len() + 1),
            i + 1,
        )
    }
}

/// The tree below the roots, before anything that no root leads to.
pub open spec fn rooted_tree(s: Seq<SessionRecord>, folded: Seq<Seq<char>>) -> TreeView {
    visited_all(
        s,
        folded,
        TreeView { seen: Seq::empty(), rows: Seq::empty() },
        roots(s, s.len()),
        0,
        Seq::empty(),
        true,
        s.len() + 1,
    )
}

/// The whole tree: the roots in their order, each with what belongs to it, and
/// then whatever no root leads to.
pub open spec fn tree_of(s: Seq<SessionRecord>, folded: Seq<Seq<char>>) -> TreeView {
    stragglers(s, folded, rooted_tree(s, folded), 0)
}

struct Tree {
    seen: Vec<String>,
    rows: Vec<TreeRow>,
}

impl View for Tree {
    type V = TreeView;

    closed spec fn view(&self) -> TreeView {
        TreeView { seen: texts(self.seen@), rows: rows_of(self.rows@) }
    }
}

fn find_children(sessions: &Vec<SessionRecord>, owner: &str, seen: &Vec<String>) -> (r: Vec<usize>)
    ensures
        places(r@) == children(sessions@, owner@, texts(seen@), sessions@.len()),
        forall|k: int| 0 <= k < r@.len() ==> (#[trigger] r@[k]) < sessions@.len(),
{
    let ghost s = sessions@;
    let mut r: Vec<usize> = Vec::new();
    let mut k: usize = 0;
    assert(places(r@) =~= Seq::<int>::empty());
    while k < sessions.len()
        invariant
            s == sessions@,
            k <= s.len(),
            places(r@) == children(s, owner@, texts(seen@), k as nat),
            forall|j: int| 0 <= j < r@.len() ==> (#[trigger] r@[j]) < s.len(),
        decreases s.len() - k,
    {
        let mine = match &sessions[k].parent {
            Some(p) => same(p.as_str(), owner),
            None => false,
        };
        if mine && !holds(seen, sessions[k].id.as_str()) {
            let ghost before = places(r@);
            r.push(k);
            assert(places(r@) =~= before.push(k as int));
        }
        k += 1;
    }
    r
}

fn knows(sessions: &Vec<SessionRecord>, id: &str) -> (r: bool)
    ensures
        r == has_id(sessions@, id@),
{
    let mut k: usize = 0;
    while k < sessions.len()
        invariant
            k <= sessions@.len(),
            forall|j: int| 0 <= j < k ==> (#[trigger] sessions@[j]).id@ != id@,
        decreases sessions@.len() - k,
    {
        if same(sessions[k].id.as_str(), id) {
            return true;
        }
        k += 1;
    }
    false
}

fn find_roots(sessions: &Vec<SessionRecord>) -> (r: Vec<usize>)
    ensures
        places(r@) == roots(sessions@, sessions@.len()),
        forall|k: int| 0 <= k < r@.len() ==> (#[trigger] r@[k]) < sessions@.len(),
{
    let ghost s = sessions@;
    let mut r: Vec<usize> = Vec::new();
    let mut k: usize = 0;
    assert(places(r@) =~= Seq::<int>::empty());
    while k < sessions.len()
        invariant
            s == sessions@,
            k <= s.len(),
            places(r@) == roots(s, k as nat),
            forall|j: int| 0 <= j < r@.len() ==> (#[trigger] r@[j]) < s.len(),
        decreases s.len() - k,
    {
        let owned = match &sessions[k].parent {
            Some(p) => knows(sessions, p.as_str()),
            None => false,
        };
        if !owned {
            let ghost before = places(r@);
            r.push(k);
            assert(places(r@) =~= before.push(k as int));
        }
        k += 1;
    }
    r
}

proof fn lemma_no_levels(
    s: Seq<SessionRecord>,
    folded: Seq<Seq<char>>,
    t: TreeView,
    places: Seq<int>,
    k: nat,
    prefix: Seq<char>,
    visible: bool,
)
    ensures
        visited_all(s, folded, t, places, k, prefix, visible, 0) == t,
    decreases places.len() - k,
{
    if k < places.len() {
        let last = k + 1 == places.len();
        assert(visited(s, folded, t, places[k as int], prefix, last, visible, 0) == t);
        lemma_no_levels(s, folded, t, places, k + 1, prefix, visible);
    }
}

impl Tree {
    fn visit(
        &mut self,
        sessions: &Vec<SessionRecord>,
        folded: &Vec<String>,
        i: usize,
        prefix: &str,
        last: bool,
        visible: bool,
        levels: usize,
    )
        requires
            i < sessions@.len(),
        ensures
            final(self)@ == visited(
                sessions@,
                texts(folded@),
                old(self)@,
                i as int,
                prefix@,
                last,
                visible,
                levels as nat + 1,
            ),
        decreases levels,
    {
        let id = sessions[i].id.as_str();
        if holds(&self.seen, id) {
            return ;
        }
        let ghost before = self@;
        self.seen.push(sessions[i].id.clone());
        assert(texts(self.seen@) =~= before.seen.push(id@));
        let kids = find_children(sessions, id, &self.seen);
        assert(places(kids@).len() == kids@.len());
        if visible {
            let mut drawn = String::from_str(prefix);
            drawn.push_str(
                if last {
                    "\u{2514}\u{2500} "
                } else {
                    "\u{251c}\u{2500} "
                },
            );
            let ghost rows = self.rows@;
            self.rows.push(TreeRow { place: i, prefix: drawn, branch: kids.len() > 0 });
            assert(rows_of(self.rows@) =~= rows_of(rows).push(
                RowView {
                    place: i as int,
                    prefix: prefix@ + row_mark(last),
                    branch: kids@.len() > 0,
                },
            ));
        }
        let mut below = String::from_str(prefix);
        below.push_str(
            if last {
                "   "
            } else {
                "\u{2502}  "
            },
        );
        let open = visible && !holds(folded, id);
        let ghost start = self@;
        let ghost goal = visited_all(
            sessions@,
            texts(folded@),
            start,
            places(kids@),
            0,
            below@,
            open,
            levels as nat,
        );
        if levels == 0 {
            proof {
                lemma_no_levels(sessions@, texts(folded@), start, places(kids@), 0, below@, open);
            }
            return ;
        }
        let mut k: usize = 0;
        while k < kids.len()
            invariant
                k <= kids@.len(),
                levels > 0,
                forall|j: int| 0 <= j < kids@.len() ==> (#[trigger] kids@[j]) < sessions@.len(),
                goal == visited_all(
                    sessions@,
                    texts(folded@),
                    self@,
                    places(kids@),
                    k as nat,
                    below@,
                    open,
                    levels as nat,
                ),
            decreases kids@.len() - k,
        {
            assert(places(kids@)[k as int] == kids@[k as int] as int);
            self.visit(
                sessions,
                folded,
                kids[k],
                below.as_str(),
                k + 1 == kids.len(),
                open,
                levels - 1,
            );
            k += 1;
        }
    }
}

/// The sessions as a tree. Whatever the records say of their owners, every one is
/// met once, and none is met twice.
pub fn session_tree(sessions: &Vec<SessionRecord>, folded: &Vec<String>) -> (r: Vec<TreeRow>)
    ensures
        rows_of(r@) == tree_of(sessions@, texts(folded@)).rows,
        forall|k: int| 0 <= k < r@.len() ==> (#[trigger] r@[k]).place < sessions@.len(),
{
    let ghost s = sessions@;
    let ghost f = texts(folded@);
    let mut t = Tree { seen: Vec::new(), rows: Vec::new() };
    assert(t@.seen =~= Seq::<Seq<char>>::empty());
    assert(t@.rows =~= Seq::<RowView>::empty());
    let top = find_roots(sessions);
    assert(places(top@).len() == top@.len());
    let ghost depth = s.len() + 1;
    let ghost none = Seq::<char>::empty();
    let ghost rooted = visited_all(s, f, t@, places(top@), 0, none, true, depth);
    let empty = String::new();
    let mut k: usize = 0;
    while k < top.len()
        invariant
            s == sessions@,
            f == texts(folded@),
            empty@ == none,
            k <= top@.len(),
            forall|j: int| 0 <= j < top@.len() ==> (#[trigger] top@[j]) < sessions@.len(),
            depth == s.len() + 1,
            rooted == visited_all(s, f, t@, places(top@), k as nat, none, true, depth),
        decreases top@.len() - k,
    {
        assert(places(top@)[k as int] == top@[k as int] as int);
        t.visit(sessions, folded, top[k], empty.as_str(), k + 1 == top.len(), true, sessions.len());
        k += 1;
    }
    let mut i: usize = 0;
    while i < sessions.len()
        invariant
            s == sessions@,
            f == texts(folded@),
            empty@ == none,
            none == Seq::<char>::empty(),
            depth == s.len() + 1,
            i <= s.len(),
            stragglers(s, f, rooted, 0) == stragglers(s, f, t@, i as int),
        decreases s.len() - i,
    {
        t.visit(sessions, folded, i, empty.as_str(), true, true, sessions.len());
        i += 1;
    }
    proof {
        lemma_tree_places(s, f);
        assert forall|k: int| 0 <= k < t.rows@.len() implies (#[trigger] t.rows@[k]).place
            < s.len() by {
            assert(rows_of(t.rows@)[k].place == t.rows@[k].place);
        }
    }
    t.rows
}

// ---------------------------------------------------------------------------
// What holds of every tree
// ---------------------------------------------------------------------------

/// Every row is of a session; nothing that was met is forgotten; each ID was met
/// once and has at most one row, and, as long as nothing is hidden, exactly one.
pub open spec fn sound(s: Seq<SessionRecord>, t: TreeView) -> bool {
    &&& forall|k: int| 0 <= k < t.rows.len() ==> 0 <= (#[trigger] t.rows[k]).place < s.len()
    &&& forall|j: int, k: int|
        0 <= j < k < t.rows.len() ==> s[(#[trigger] t.rows[j]).place].id@ != s[(
        #[trigger] t.rows[k]).place].id@
    &&& forall|k: int|
        0 <= k < t.rows.len() ==> t.seen.contains(s[(#[trigger] t.rows[k]).place].id@)
}

/// Everything that was met has a row.
pub open spec fn complete(s: Seq<SessionRecord>, t: TreeView) -> bool {
    forall|x: Seq<char>|
        #[trigger] t.seen.contains(x) ==> exists|k: int|
            0 <= k < t.rows.len() && s[(#[trigger] t.rows[k]).place].id@ == x
}

pub open spec fn remembers(t: TreeView, u: TreeView) -> bool {
    forall|x: Seq<char>| #[trigger] t.seen.contains(x) ==> u.seen.contains(x)
}

proof fn lemma_seen_push(seen: Seq<Seq<char>>, id: Seq<char>)
    ensures
        seen.push(id).contains(id),
        forall|x: Seq<char>| seen.contains(x) ==> #[trigger] seen.push(id).contains(x),
        forall|x: Seq<char>| #[trigger] seen.push(id).contains(x) ==> seen.contains(x) || x == id,
{
    let all = seen.push(id);
    assert(all[seen.len() as int] == id);
    assert forall|x: Seq<char>| seen.contains(x) implies #[trigger] all.contains(x) by {
        let k = choose|k: int| 0 <= k < seen.len() && seen[k] == x;
        assert(all[k] == x);
    }
    assert forall|x: Seq<char>| #[trigger] all.contains(x) implies seen.contains(x) || x == id by {
        let k = choose|k: int| 0 <= k < all.len() && all[k] == x;
        if k < seen.len() {
            assert(seen[k] == x);
        }
    }
}

proof fn lemma_children_in_range(
    s: Seq<SessionRecord>,
    owner: Seq<char>,
    seen: Seq<Seq<char>>,
    k: nat,
)
    requires
        k <= s.len(),
    ensures
        forall|j: int|
            0 <= j < children(s, owner, seen, k).len() ==> 0 <= #[trigger] children(
                s,
                owner,
                seen,
                k,
            )[j] < s.len(),
    decreases k,
{
    if k > 0 {
        let before = children(s, owner, seen, (k - 1) as nat);
        lemma_children_in_range(s, owner, seen, (k - 1) as nat);
        assert forall|j: int| 0 <= j < children(s, owner, seen, k).len() implies 0
            <= #[trigger] children(s, owner, seen, k)[j] < s.len() by {
            if j < before.len() {
                assert(children(s, owner, seen, k)[j] == before[j]);
            }
        }
    }
}

proof fn lemma_roots_in_range(s: Seq<SessionRecord>, k: nat)
    requires
        k <= s.len(),
    ensures
        forall|j: int|
            0 <= j < roots(s, k).len() ==> 0 <= #[trigger] roots(s, k)[j] < s.len(),
    decreases k,
{
    if k > 0 {
        let before = roots(s, (k - 1) as nat);
        lemma_roots_in_range(s, (k - 1) as nat);
        assert forall|j: int| 0 <= j < roots(s, k).len() implies 0 <= #[trigger] roots(s, k)[j]
            < s.len() by {
            if j < before.len() {
                assert(roots(s, k)[j] == before[j]);
            }
        }
    }
}

proof fn lemma_visited(
    s: Seq<SessionRecord>,
    folded: Seq<Seq<char>>,
    t: TreeView,
    i: int,
    prefix: Seq<char>,
    last: bool,
    visible: bool,
    depth: nat,
)
    requires
        0 <= i < s.len(),
        sound(s, t),
    ensures
        ({
            let u = visited(s, folded, t, i, prefix, last, visible, depth);
            &&& sound(s, u)
            &&& remembers(t, u)
            &&& depth > 0 ==> u.seen.contains(s[i].id@)
            &&& visible && folded.len() == 0 && complete(s, t) ==> complete(s, u)
        }),
    decreases depth, 0nat,
{
    let id = s[i].id@;
    if depth > 0 && !t.seen.contains(id) {
        let seen = t.seen.push(id);
        lemma_seen_push(t.seen, id);
        let kids = children(s, id, seen, s.len());
        lemma_children_in_range(s, id, seen, s.len());
        let row = RowView { place: i, prefix: prefix + row_mark(last), branch: kids.len() > 0 };
        let rows = if visible {
            t.rows.push(row)
        } else {
            t.rows
        };
        let m = TreeView { seen, rows };
        assert forall|j: int, k: int| 0 <= j < k < rows.len() implies s[(
        #[trigger] rows[j]).place].id@ != s[(#[trigger] rows[k]).place].id@ by {
            if k < t.rows.len() {
                assert(rows[j] == t.rows[j] && rows[k] == t.rows[k]);
            } else {
                assert(rows[j] == t.rows[j]);
                assert(t.seen.contains(s[t.rows[j].place].id@));
            }
        }
        assert forall|k: int| 0 <= k < rows.len() implies seen.contains(
            s[(#[trigger] rows[k]).place].id@,
        ) && 0 <= rows[k].place < s.len() by {
            if k < t.rows.len() {
                assert(rows[k] == t.rows[k]);
                assert(t.seen.contains(s[t.rows[k].place].id@));
            }
        }
        if visible && complete(s, t) {
            assert forall|x: Seq<char>| #[trigger] seen.contains(x) implies exists|k: int|
                0 <= k < rows.len() && s[(#[trigger] rows[k]).place].id@ == x by {
                if x == id {
                    assert(rows[t.rows.len() as int].place == i);
                } else {
                    assert(t.seen.contains(x));
                    let k = choose|k: int|
                        0 <= k < t.rows.len() && s[(#[trigger] t.rows[k]).place].id@ == x;
                    assert(rows[k] == t.rows[k]);
                }
            }
        }
        assert(sound(s, m));
        let open = visible && !folded.contains(id);
        let below = prefix + below_mark(last);
        lemma_visited_all(s, folded, m, kids, 0, below, open, (depth - 1) as nat);
        let u = visited(s, folded, t, i, prefix, last, visible, depth);
        assert(u == visited_all(s, folded, m, kids, 0, below, open, (depth - 1) as nat));
        assert(m.seen.contains(id));
        assert forall|x: Seq<char>| #[trigger] t.seen.contains(x) implies u.seen.contains(x) by {
            assert(m.seen.contains(x));
        }
        if folded.len() == 0 {
            assert(!folded.contains(id));
        }
    }
}

proof fn lemma_visited_all(
    s: Seq<SessionRecord>,
    folded: Seq<Seq<char>>,
    t: TreeView,
    kids: Seq<int>,
    k: nat,
    prefix: Seq<char>,
    visible: bool,
    depth: nat,
)
    requires
        sound(s, t),
        forall|j: int| 0 <= j < kids.len() ==> 0 <= #[trigger] kids[j] < s.len(),
    ensures
        ({
            let u = visited_all(s, folded, t, kids, k, prefix, visible, depth);
            &&& sound(s, u)
            &&& remembers(t, u)
            &&& visible && folded.len() == 0 && complete(s, t) ==> complete(s, u)
        }),
    decreases depth, 1 + kids.len() - k,
{
    if k < kids.len() {
        let i = kids[k as int];
        let next = visited(s, folded, t, i, prefix, k + 1 == kids.len(), visible, depth);
        lemma_visited(s, folded, t, i, prefix, k + 1 == kids.len(), visible, depth);
        lemma_visited_all(s, folded, next, kids, k + 1, prefix, visible, depth);
    }
}

proof fn lemma_stragglers(s: Seq<SessionRecord>, folded: Seq<Seq<char>>, t: TreeView, i: int)
    requires
        0 <= i,
        sound(s, t),
    ensures
        ({
            let u = stragglers(s, folded, t, i);
            &&& sound(s, u)
            &&& remembers(t, u)
            &&& forall|j: int| i <= j < s.len() ==> u.seen.contains((#[trigger] s[j]).id@)
            &&& folded.len() == 0 && complete(s, t) ==> complete(s, u)
        }),
    decreases s.len() - i,
{
    if i < s.len() {
        let next = visited(s, folded, t, i, Seq::empty(), true, true, s.len() + 1);
        lemma_visited(s, folded, t, i, Seq::empty(), true, true, s.len() + 1);
        lemma_stragglers(s, folded, next, i + 1);
    }
}

proof fn lemma_tree_places(s: Seq<SessionRecord>, folded: Seq<Seq<char>>)
    ensures
        sound(s, tree_of(s, folded)),
        forall|j: int|
            0 <= j < s.len() ==> tree_of(s, folded).seen.contains((#[trigger] s[j]).id@),
        folded.len() == 0 ==> complete(s, tree_of(s, folded)),
{
    let empty = TreeView { seen: Seq::empty(), rows: Seq::empty() };
    assert forall|x: Seq<char>| #[trigger] empty.seen.contains(x) implies false by {}
    lemma_roots_in_range(s, s.len());
    lemma_visited_all(
        s,
        folded,
        empty,
        roots(s, s.len()),
        0,
        Seq::empty(),
        true,
        s.len() + 1,
    );
    let rooted = visited_all(
        s,
        folded,
        empty,
        roots(s, s.len()),
        0,
        Seq::empty(),
        true,
        s.len() + 1,
    );
    lemma_stragglers(s, folded, rooted, 0);
}

/// How many of the first `k` sessions were not met.
pub open spec fn unmet(s: Seq<SessionRecord>, seen: Seq<Seq<char>>, k: nat) -> nat
    decreases k,
{
    if k == 0 {
        0
    } else {
        unmet(s, seen, (k - 1) as nat) + if seen.contains(s[k - 1].id@) {
            0nat
        } else {
            1
        }
    }
}

proof fn lemma_unmet(
    s: Seq<SessionRecord>,
    a: Seq<Seq<char>>,
    b: Seq<Seq<char>>,
    i: int,
    k: nat,
)
    requires
        k <= s.len(),
        forall|x: Seq<char>| #[trigger] a.contains(x) ==> b.contains(x),
    ensures
        unmet(s, b, k) <= unmet(s, a, k) <= k,
        0 <= i < k && !a.contains(s[i].id@) && b.contains(s[i].id@) ==> unmet(s, b, k) < unmet(
            s,
            a,
            k,
        ),
    decreases k,
{
    if k > 0 {
        lemma_unmet(s, a, b, i, (k - 1) as nat);
        assert(a.contains(s[k - 1].id@) ==> b.contains(s[k - 1].id@));
    }
}

proof fn lemma_deeper(
    s: Seq<SessionRecord>,
    folded: Seq<Seq<char>>,
    t: TreeView,
    i: int,
    prefix: Seq<char>,
    last: bool,
    visible: bool,
    depth: nat,
)
    requires
        0 <= i < s.len(),
        sound(s, t),
        unmet(s, t.seen, s.len()) < depth,
    ensures
        visited(s, folded, t, i, prefix, last, visible, depth) == visited(
            s,
            folded,
            t,
            i,
            prefix,
            last,
            visible,
            depth + 1,
        ),
    decreases depth, 0nat,
{
    let id = s[i].id@;
    if depth > 0 && !t.seen.contains(id) {
        let seen = t.seen.push(id);
        lemma_seen_push(t.seen, id);
        lemma_unmet(s, t.seen, seen, i, s.len());
        let kids = children(s, id, seen, s.len());
        lemma_children_in_range(s, id, seen, s.len());
        let row = RowView { place: i, prefix: prefix + row_mark(last), branch: kids.len() > 0 };
        let m = TreeView {
            seen,
            rows: if visible {
                t.rows.push(row)
            } else {
                t.rows
            },
        };
        assert(t.rows.push(row).drop_last() =~= t.rows);
        lemma_one_more(s, t, i, m);
        lemma_deeper_all(
            s,
            folded,
            m,
            kids,
            0,
            prefix + below_mark(last),
            visible && !folded.contains(id),
            (depth - 1) as nat,
        );
    }
}

proof fn lemma_one_more(s: Seq<SessionRecord>, t: TreeView, i: int, m: TreeView)
    requires
        0 <= i < s.len(),
        sound(s, t),
        !t.seen.contains(s[i].id@),
        m.seen == t.seen.push(s[i].id@),
        m.rows == t.rows || (m.rows.len() == t.rows.len() + 1 && m.rows.drop_last() == t.rows
            && m.rows.last().place == i),
    ensures
        sound(s, m),
{
    lemma_seen_push(t.seen, s[i].id@);
    let rows = m.rows;
    assert forall|k: int| 0 <= k < t.rows.len() implies rows[k] == t.rows[k] by {
        if rows.len() > t.rows.len() {
            assert(rows.drop_last()[k] == rows[k]);
        }
    }
    assert forall|j: int, k: int| 0 <= j < k < rows.len() implies s[(
    #[trigger] rows[j]).place].id@ != s[(#[trigger] rows[k]).place].id@ by {
        assert(rows[j] == t.rows[j]);
        if k < t.rows.len() {
            assert(rows[k] == t.rows[k]);
        } else {
            assert(t.seen.contains(s[t.rows[j].place].id@));
        }
    }
    assert forall|k: int| 0 <= k < rows.len() implies m.seen.contains(
        s[(#[trigger] rows[k]).place].id@,
    ) && 0 <= rows[k].place < s.len() by {
        if k < t.rows.len() {
            assert(rows[k] == t.rows[k]);
            assert(t.seen.contains(s[t.rows[k].place].id@));
        }
    }
}

proof fn lemma_deeper_all(
    s: Seq<SessionRecord>,
    folded: Seq<Seq<char>>,
    t: TreeView,
    kids: Seq<int>,
    k: nat,
    prefix: Seq<char>,
    visible: bool,
    depth: nat,
)
    requires
        sound(s, t),
        forall|j: int| 0 <= j < kids.len() ==> 0 <= #[trigger] kids[j] < s.len(),
        unmet(s, t.seen, s.len()) < depth || kids.len() <= k || unmet(s, t.seen, s.len()) == 0,
    ensures
        visited_all(s, folded, t, kids, k, prefix, visible, depth) == visited_all(
            s,
            folded,
            t,
            kids,
            k,
            prefix,
            visible,
            depth + 1,
        ),
    decreases depth, 1 + kids.len() - k,
{
    if k < kids.len() {
        let i = kids[k as int];
        let last = k + 1 == kids.len();
        let next = visited(s, folded, t, i, prefix, last, visible, depth);
        if unmet(s, t.seen, s.len()) == 0 {
            lemma_all_met(s, t.seen, i, s.len());
            assert(next == t);
            assert(visited(s, folded, t, i, prefix, last, visible, depth + 1) == t);
        } else {
            lemma_deeper(s, folded, t, i, prefix, last, visible, depth);
        }
        lemma_visited(s, folded, t, i, prefix, last, visible, depth);
        lemma_unmet(s, t.seen, next.seen, i, s.len());
        lemma_deeper_all(s, folded, next, kids, k + 1, prefix, visible, depth);
    }
}

proof fn lemma_all_met(s: Seq<SessionRecord>, seen: Seq<Seq<char>>, i: int, k: nat)
    requires
        0 <= i < k <= s.len(),
        unmet(s, seen, k) == 0,
    ensures
        seen.contains(s[i].id@),
    decreases k,
{
    if i < k - 1 {
        lemma_all_met(s, seen, i, (k - 1) as nat);
    }
}

/// The tree goes as deep as the sessions do: to allow it more levels than there
/// are sessions changes nothing.
pub proof fn no_level_is_cut_off(
    s: Seq<SessionRecord>,
    folded: Seq<Seq<char>>,
    t: TreeView,
    i: int,
    prefix: Seq<char>,
    last: bool,
    visible: bool,
    more: nat,
)
    requires
        0 <= i < s.len(),
        sound(s, t),
    ensures
        visited(s, folded, t, i, prefix, last, visible, s.len() + 1) == visited(
            s,
            folded,
            t,
            i,
            prefix,
            last,
            visible,
            s.len() + 1 + more,
        ),
    decreases more,
{
    lemma_unmet(s, t.seen, t.seen, i, s.len());
    if more > 0 {
        no_level_is_cut_off(s, folded, t, i, prefix, last, visible, (more - 1) as nat);
        lemma_deeper(s, folded, t, i, prefix, last, visible, (s.len() + more) as nat);
    }
}

/// No session has two rows.
pub proof fn no_session_has_two_rows(
    s: Seq<SessionRecord>,
    folded: Seq<Seq<char>>,
    j: int,
    k: int,
)
    requires
        0 <= j < k < tree_of(s, folded).rows.len(),
    ensures
        s[tree_of(s, folded).rows[j].place].id@ != s[tree_of(s, folded).rows[k].place].id@,
{
    lemma_tree_places(s, folded);
}

/// With nothing folded every session has a row, however the records of their
/// owners are: missing, or in a circle.
pub proof fn no_session_is_hidden(s: Seq<SessionRecord>, i: int)
    requires
        0 <= i < s.len(),
    ensures
        exists|k: int|
            0 <= k < tree_of(s, Seq::empty()).rows.len() && s[(#[trigger] tree_of(
                s,
                Seq::empty(),
            ).rows[k]).place].id@ == s[i].id@,
{
    lemma_tree_places(s, Seq::empty());
}

// ---------------------------------------------------------------------------
// Owners and what they own
// ---------------------------------------------------------------------------

/// The session at the place `j` owns the one at the place `i`.
pub open spec fn owns(s: Seq<SessionRecord>, j: int, i: int) -> bool {
    0 <= i < s.len() && 0 <= j < s.len() && maybe(s[i].parent) == Some(s[j].id@)
}

pub open spec fn distinct_sessions(s: Seq<SessionRecord>) -> bool {
    forall|i: int, j: int|
        0 <= i < j < s.len() ==> (#[trigger] s[i]).id@ != (#[trigger] s[j]).id@
}

/// Sessions own each other in no circle: an owner ranks before what it owns.
pub open spec fn ranked(s: Seq<SessionRecord>, rank: spec_fn(int) -> nat) -> bool {
    forall|i: int, j: int| #[trigger] owns(s, j, i) ==> rank(j) < rank(i)
}

/// A way from a session up to an owner of it, over at least one step.
pub open spec fn leads_up(s: Seq<SessionRecord>, path: Seq<int>) -> bool {
    &&& path.len() >= 2
    &&& forall|k: int| 0 <= k < path.len() - 1 ==> owns(s, path[k + 1], #[trigger] path[k])
}

/// One of those that a session belongs to is folded.
pub open spec fn folded_above(s: Seq<SessionRecord>, folded: Seq<Seq<char>>, i: int) -> bool {
    exists|path: Seq<int>| #[trigger]
        leads_up(s, path) && path[0] == i && folded.contains(s[path.last()].id@)
}

/// Those rows that nothing folded stands above.
pub open spec fn unfolded(
    s: Seq<SessionRecord>,
    folded: Seq<Seq<char>>,
    rows: Seq<RowView>,
) -> Seq<RowView>
    decreases rows.len(),
{
    if rows.len() == 0 {
        Seq::empty()
    } else {
        let most = unfolded(s, folded, rows.drop_last());
        if folded_above(s, folded, rows.last().place) {
            most
        } else {
            most.push(rows.last())
        }
    }
}

/// What was met had its owner met before.
pub open spec fn led(s: Seq<SessionRecord>, t: TreeView) -> bool {
    forall|i: int, j: int| #[trigger]
        owns(s, j, i) && t.seen.contains(s[i].id@) ==> t.seen.contains(s[j].id@)
}

/// Owners come before what they own.
pub open spec fn owners_first(s: Seq<SessionRecord>, rows: Seq<RowView>) -> bool {
    forall|j: int, k: int|
        0 <= j < rows.len() && 0 <= k < rows.len() && owns(
            s,
            (#[trigger] rows[j]).place,
            (#[trigger] rows[k]).place,
        ) ==> j < k
}

/// What was met since then had all met that it owns.
pub open spec fn covered(s: Seq<SessionRecord>, t: TreeView, u: TreeView) -> bool {
    forall|a: int, b: int| #[trigger]
        owns(s, a, b) && u.seen.contains(s[a].id@) && !t.seen.contains(s[a].id@)
            ==> u.seen.contains(s[b].id@)
}

proof fn lemma_one_place(s: Seq<SessionRecord>, i: int, j: int)
    requires
        distinct_sessions(s),
        0 <= i < s.len(),
        0 <= j < s.len(),
        s[i].id@ == s[j].id@,
    ensures
        i == j,
{
    if i < j {
        assert(s[i].id@ != s[j].id@);
    } else if j < i {
        assert(s[j].id@ != s[i].id@);
    }
}

/// The children of an owner are those that it owns and that were not met.
proof fn lemma_children(s: Seq<SessionRecord>, owner: Seq<char>, seen: Seq<Seq<char>>, k: nat)
    requires
        k <= s.len(),
    ensures
        forall|j: int|
            0 <= j < children(s, owner, seen, k).len() ==> 0 <= (#[trigger] children(
                s,
                owner,
                seen,
                k,
            )[j]) < k && maybe(s[children(s, owner, seen, k)[j]].parent) == Some(owner),
        forall|i: int|
            0 <= i < k && maybe((#[trigger] s[i]).parent) == Some(owner) && !seen.contains(s[i].id@)
                ==> children(s, owner, seen, k).contains(i),
    decreases k,
{
    if k > 0 {
        let before = children(s, owner, seen, (k - 1) as nat);
        let all = children(s, owner, seen, k);
        lemma_children(s, owner, seen, (k - 1) as nat);
        assert forall|j: int| 0 <= j < all.len() implies 0 <= (#[trigger] all[j]) < k && maybe(
            s[all[j]].parent,
        ) == Some(owner) by {
            if j < before.len() {
                assert(all[j] == before[j]);
            }
        }
        assert forall|i: int|
            0 <= i < k && maybe((#[trigger] s[i]).parent) == Some(owner) && !seen.contains(
                s[i].id@,
            ) implies all.contains(i) by {
            if i < k - 1 {
                assert(before.contains(i));
                let j = choose|j: int| 0 <= j < before.len() && before[j] == i;
                assert(all[j] == i);
            } else {
                assert(all[before.len() as int] == i);
            }
        }
    }
}

/// The roots are those whose owner is not there.
proof fn lemma_roots(s: Seq<SessionRecord>, k: nat)
    requires
        k <= s.len(),
    ensures
        forall|j: int|
            0 <= j < roots(s, k).len() ==> 0 <= (#[trigger] roots(s, k)[j]) < k && !(maybe(
                s[roots(s, k)[j]].parent,
            ) matches Some(p) && has_id(s, p)),
        forall|i: int|
            0 <= i < k && !(maybe((#[trigger] s[i]).parent) matches Some(p) && has_id(s, p))
                ==> roots(s, k).contains(i),
    decreases k,
{
    if k > 0 {
        let before = roots(s, (k - 1) as nat);
        let all = roots(s, k);
        lemma_roots(s, (k - 1) as nat);
        assert forall|j: int| 0 <= j < all.len() implies 0 <= (#[trigger] all[j]) < k && !(maybe(
            s[all[j]].parent,
        ) matches Some(p) && has_id(s, p)) by {
            if j < before.len() {
                assert(all[j] == before[j]);
            }
        }
        assert forall|i: int|
            0 <= i < k && !(maybe((#[trigger] s[i]).parent) matches Some(p) && has_id(
                s,
                p,
            )) implies all.contains(i) by {
            if i < k - 1 {
                assert(before.contains(i));
                let j = choose|j: int| 0 <= j < before.len() && before[j] == i;
                assert(all[j] == i);
            } else {
                assert(all[before.len() as int] == i);
            }
        }
    }
}

proof fn lemma_covers(
    s: Seq<SessionRecord>,
    folded: Seq<Seq<char>>,
    t: TreeView,
    i: int,
    prefix: Seq<char>,
    last: bool,
    visible: bool,
    depth: nat,
)
    requires
        distinct_sessions(s),
        0 <= i < s.len(),
        sound(s, t),
        unmet(s, t.seen, s.len()) < depth,
    ensures
        covered(s, t, visited(s, folded, t, i, prefix, last, visible, depth)),
    decreases depth, 0nat,
{
    let id = s[i].id@;
    if !t.seen.contains(id) {
        let seen = t.seen.push(id);
        lemma_seen_push(t.seen, id);
        lemma_unmet(s, t.seen, seen, i, s.len());
        let kids = children(s, id, seen, s.len());
        lemma_children_in_range(s, id, seen, s.len());
        lemma_children(s, id, seen, s.len());
        let row = RowView { place: i, prefix: prefix + row_mark(last), branch: kids.len() > 0 };
        let m = TreeView {
            seen,
            rows: if visible {
                t.rows.push(row)
            } else {
                t.rows
            },
        };
        assert(t.rows.push(row).drop_last() =~= t.rows);
        lemma_one_more(s, t, i, m);
        let open = visible && !folded.contains(id);
        let below = prefix + below_mark(last);
        lemma_covers_all(s, folded, m, kids, 0, below, open, (depth - 1) as nat);
        lemma_visited_all(s, folded, m, kids, 0, below, open, (depth - 1) as nat);
        let u = visited_all(s, folded, m, kids, 0, below, open, (depth - 1) as nat);
        assert forall|a: int, b: int| #[trigger]
            owns(s, a, b) && u.seen.contains(s[a].id@) && !t.seen.contains(
                s[a].id@,
            ) implies u.seen.contains(s[b].id@) by {
            if s[a].id@ == id {
                if m.seen.contains(s[b].id@) {
                } else {
                    assert(kids.contains(b));
                    let j = choose|j: int| 0 <= j < kids.len() && kids[j] == b;
                    assert(u.seen.contains(s[kids[j]].id@));
                }
            } else {
                assert(!m.seen.contains(s[a].id@));
            }
        }
    }
}

proof fn lemma_covers_all(
    s: Seq<SessionRecord>,
    folded: Seq<Seq<char>>,
    t: TreeView,
    kids: Seq<int>,
    k: nat,
    prefix: Seq<char>,
    visible: bool,
    depth: nat,
)
    requires
        distinct_sessions(s),
        sound(s, t),
        forall|j: int| 0 <= j < kids.len() ==> 0 <= #[trigger] kids[j] < s.len(),
        unmet(s, t.seen, s.len()) < depth,
    ensures
        ({
            let u = visited_all(s, folded, t, kids, k, prefix, visible, depth);
            &&& covered(s, t, u)
            &&& forall|j: int| k <= j < kids.len() ==> u.seen.contains(s[#[trigger] kids[j]].id@)
        }),
    decreases depth, 1 + kids.len() - k,
{
    if k < kids.len() {
        let i = kids[k as int];
        let last = k + 1 == kids.len();
        let next = visited(s, folded, t, i, prefix, last, visible, depth);
        lemma_visited(s, folded, t, i, prefix, last, visible, depth);
        lemma_covers(s, folded, t, i, prefix, last, visible, depth);
        lemma_unmet(s, t.seen, next.seen, i, s.len());
        lemma_covers_all(s, folded, next, kids, k + 1, prefix, visible, depth);
        lemma_visited_all(s, folded, next, kids, k + 1, prefix, visible, depth);
        let u = visited_all(s, folded, next, kids, k + 1, prefix, visible, depth);
        assert forall|a: int, b: int| #[trigger]
            owns(s, a, b) && u.seen.contains(s[a].id@) && !t.seen.contains(
                s[a].id@,
            ) implies u.seen.contains(s[b].id@) by {
            if next.seen.contains(s[a].id@) {
                assert(next.seen.contains(s[b].id@));
            }
        }
        assert forall|j: int| k <= j < kids.len() implies u.seen.contains(
            s[#[trigger] kids[j]].id@,
        ) by {
            if j == k {
                assert(next.seen.contains(s[i].id@));
            }
        }
    }
}

/// Without circles every session is met from a root.
proof fn lemma_met(
    s: Seq<SessionRecord>,
    folded: Seq<Seq<char>>,
    rank: spec_fn(int) -> nat,
    i: int,
)
    requires
        distinct_sessions(s),
        ranked(s, rank),
        0 <= i < s.len(),
    ensures
        rooted_tree(s, folded).seen.contains(s[i].id@),
    decreases rank(i),
{
    let empty = TreeView { seen: Seq::empty(), rows: Seq::empty() };
    lemma_roots_in_range(s, s.len());
    lemma_roots(s, s.len());
    lemma_unmet(s, empty.seen, empty.seen, 0, s.len());
    lemma_covers_all(
        s,
        folded,
        empty,
        roots(s, s.len()),
        0,
        Seq::empty(),
        true,
        s.len() + 1,
    );
    if maybe(s[i].parent) matches Some(p) && has_id(s, p) {
        let p = maybe(s[i].parent)->0;
        let j = choose|j: int| 0 <= j < s.len() && (#[trigger] s[j]).id@ == p;
        assert(owns(s, j, i));
        lemma_met(s, folded, rank, j);
    } else {
        let top = roots(s, s.len());
        assert(top.contains(i));
        let k = choose|k: int| 0 <= k < top.len() && top[k] == i;
        assert(rooted_tree(s, folded).seen.contains(s[top[k]].id@));
    }
}

proof fn lemma_no_stragglers(s: Seq<SessionRecord>, folded: Seq<Seq<char>>, t: TreeView, i: int)
    requires
        0 <= i,
        forall|j: int| 0 <= j < s.len() ==> t.seen.contains((#[trigger] s[j]).id@),
    ensures
        stragglers(s, folded, t, i) == t,
    decreases s.len() - i,
{
    if i < s.len() {
        assert(t.seen.contains(s[i].id@));
        lemma_no_stragglers(s, folded, t, i + 1);
    }
}

proof fn lemma_rooted(s: Seq<SessionRecord>, folded: Seq<Seq<char>>, rank: spec_fn(int) -> nat)
    requires
        distinct_sessions(s),
        ranked(s, rank),
    ensures
        tree_of(s, folded) == rooted_tree(s, folded),
{
    assert forall|j: int| 0 <= j < s.len() implies rooted_tree(s, folded).seen.contains(
        (#[trigger] s[j]).id@,
    ) by {
        lemma_met(s, folded, rank, j);
    }
    lemma_no_stragglers(s, folded, rooted_tree(s, folded), 0);
}

proof fn lemma_owners_first(
    s: Seq<SessionRecord>,
    folded: Seq<Seq<char>>,
    rank: spec_fn(int) -> nat,
    t: TreeView,
    i: int,
    prefix: Seq<char>,
    last: bool,
    visible: bool,
    depth: nat,
)
    requires
        distinct_sessions(s),
        ranked(s, rank),
        0 <= i < s.len(),
        sound(s, t),
        led(s, t),
        owners_first(s, t.rows),
        forall|j: int| #[trigger] owns(s, j, i) ==> t.seen.contains(s[j].id@),
    ensures
        ({
            let u = visited(s, folded, t, i, prefix, last, visible, depth);
            led(s, u) && owners_first(s, u.rows)
        }),
    decreases depth, 0nat,
{
    let id = s[i].id@;
    if depth > 0 && !t.seen.contains(id) {
        let seen = t.seen.push(id);
        lemma_seen_push(t.seen, id);
        let kids = children(s, id, seen, s.len());
        lemma_children(s, id, seen, s.len());
        let row = RowView { place: i, prefix: prefix + row_mark(last), branch: kids.len() > 0 };
        let rows = if visible {
            t.rows.push(row)
        } else {
            t.rows
        };
        let m = TreeView { seen, rows };
        assert(t.rows.push(row).drop_last() =~= t.rows);
        lemma_one_more(s, t, i, m);
        assert forall|a: int, b: int| #[trigger]
            owns(s, b, a) && seen.contains(s[a].id@) implies seen.contains(s[b].id@) by {
            if s[a].id@ == id {
                lemma_one_place(s, a, i);
            }
        }
        assert forall|j: int, k: int|
            0 <= j < rows.len() && 0 <= k < rows.len() && owns(
                s,
                (#[trigger] rows[j]).place,
                (#[trigger] rows[k]).place,
            ) implies j < k by {
            if j < t.rows.len() && k < t.rows.len() {
                assert(rows[j] == t.rows[j] && rows[k] == t.rows[k]);
            } else if k < t.rows.len() {
                assert(rows[k] == t.rows[k]);
                assert(t.seen.contains(s[t.rows[k].place].id@));
                assert(t.seen.contains(s[i].id@));
            } else if j == k {
                assert(rank(i) < rank(i));
            }
        }
        assert forall|n: int| 0 <= n < kids.len() implies owned_by_met(
            s,
            m,
            #[trigger] kids[n],
        ) by {
            assert forall|j: int| #[trigger] owns(s, j, kids[n]) implies m.seen.contains(
                s[j].id@,
            ) by {
                assert(s[j].id@ == id);
            }
        }
        lemma_owners_first_all(
            s,
            folded,
            rank,
            m,
            kids,
            0,
            prefix + below_mark(last),
            visible && !folded.contains(id),
            (depth - 1) as nat,
        );
    }
}

/// The owner of a session was met, if it is there.
pub open spec fn owned_by_met(s: Seq<SessionRecord>, t: TreeView, i: int) -> bool {
    &&& 0 <= i < s.len()
    &&& forall|j: int| #[trigger] owns(s, j, i) ==> t.seen.contains(s[j].id@)
}

proof fn lemma_owners_first_all(
    s: Seq<SessionRecord>,
    folded: Seq<Seq<char>>,
    rank: spec_fn(int) -> nat,
    t: TreeView,
    kids: Seq<int>,
    k: nat,
    prefix: Seq<char>,
    visible: bool,
    depth: nat,
)
    requires
        distinct_sessions(s),
        ranked(s, rank),
        sound(s, t),
        led(s, t),
        owners_first(s, t.rows),
        forall|n: int| 0 <= n < kids.len() ==> owned_by_met(s, t, #[trigger] kids[n]),
    ensures
        ({
            let u = visited_all(s, folded, t, kids, k, prefix, visible, depth);
            led(s, u) && owners_first(s, u.rows)
        }),
    decreases depth, 1 + kids.len() - k,
{
    if k < kids.len() {
        let i = kids[k as int];
        let last = k + 1 == kids.len();
        assert(owned_by_met(s, t, i));
        let next = visited(s, folded, t, i, prefix, last, visible, depth);
        lemma_visited(s, folded, t, i, prefix, last, visible, depth);
        lemma_owners_first(s, folded, rank, t, i, prefix, last, visible, depth);
        assert forall|n: int| 0 <= n < kids.len() implies owned_by_met(
            s,
            next,
            #[trigger] kids[n],
        ) by {
            assert(owned_by_met(s, t, kids[n]));
        }
        lemma_owners_first_all(s, folded, rank, next, kids, k + 1, prefix, visible, depth);
    }
}

/// Where sessions own each other in no circle, an owner is listed before all that it owns.
pub proof fn owners_are_listed_first(
    s: Seq<SessionRecord>,
    folded: Seq<Seq<char>>,
    rank: spec_fn(int) -> nat,
)
    requires
        distinct_sessions(s),
        ranked(s, rank),
    ensures
        owners_first(s, tree_of(s, folded).rows),
{
    let empty = TreeView { seen: Seq::empty(), rows: Seq::empty() };
    let top = roots(s, s.len());
    lemma_rooted(s, folded, rank);
    lemma_roots(s, s.len());
    assert forall|n: int| 0 <= n < top.len() implies owned_by_met(s, empty, #[trigger] top[n]) by {
        assert forall|j: int| #[trigger] owns(s, j, top[n]) implies empty.seen.contains(s[j].id@) by {
            assert(has_id(s, s[j].id@));
        }
    }
    lemma_owners_first_all(s, folded, rank, empty, top, 0, Seq::empty(), true, s.len() + 1);
}

/// Something folded stands above a session where its owner is folded, or something stands
/// above that.
proof fn lemma_folded_above(s: Seq<SessionRecord>, folded: Seq<Seq<char>>, i: int, j: int)
    requires
        distinct_sessions(s),
        owns(s, j, i),
    ensures
        folded_above(s, folded, i) == (folded.contains(s[j].id@) || folded_above(s, folded, j)),
{
    if folded.contains(s[j].id@) {
        let path = seq![i, j];
        assert(leads_up(s, path));
        assert(path.last() == j);
    }
    if folded_above(s, folded, j) {
        let up = choose|path: Seq<int>| #[trigger]
            leads_up(s, path) && path[0] == j && folded.contains(s[path.last()].id@);
        let path = seq![i] + up;
        assert forall|k: int| 0 <= k < path.len() - 1 implies owns(
            s,
            path[k + 1],
            #[trigger] path[k],
        ) by {
            if k > 0 {
                assert(owns(s, up[k - 1 + 1], up[k - 1]));
            }
        }
        assert(leads_up(s, path));
        assert(path.last() == up.last());
    }
    if folded_above(s, folded, i) {
        let path = choose|path: Seq<int>| #[trigger]
            leads_up(s, path) && path[0] == i && folded.contains(s[path.last()].id@);
        assert(owns(s, path[0int + 1], path[0]));
        lemma_one_place(s, path[1], j);
        if path.len() > 2 {
            let up = path.drop_first();
            assert forall|k: int| 0 <= k < up.len() - 1 implies owns(
                s,
                up[k + 1],
                #[trigger] up[k],
            ) by {
                assert(owns(s, path[k + 1 + 1], path[k + 1]));
            }
            assert(leads_up(s, up));
            assert(up.last() == path.last());
        }
    }
}

proof fn lemma_folding(
    s: Seq<SessionRecord>,
    folded: Seq<Seq<char>>,
    t: TreeView,
    whole: TreeView,
    i: int,
    prefix: Seq<char>,
    last: bool,
    visible: bool,
    depth: nat,
)
    requires
        distinct_sessions(s),
        0 <= i < s.len(),
        t.seen == whole.seen,
        t.rows == unfolded(s, folded, whole.rows),
        visible == !folded_above(s, folded, i),
    ensures
        ({
            let u = visited(s, folded, t, i, prefix, last, visible, depth);
            let all = visited(s, Seq::empty(), whole, i, prefix, last, true, depth);
            u.seen == all.seen && u.rows == unfolded(s, folded, all.rows)
        }),
    decreases depth, 0nat,
{
    let id = s[i].id@;
    if depth > 0 && !t.seen.contains(id) {
        let seen = t.seen.push(id);
        let kids = children(s, id, seen, s.len());
        lemma_children(s, id, seen, s.len());
        let row = RowView { place: i, prefix: prefix + row_mark(last), branch: kids.len() > 0 };
        let m = TreeView {
            seen,
            rows: if visible {
                t.rows.push(row)
            } else {
                t.rows
            },
        };
        let n = TreeView { seen, rows: whole.rows.push(row) };
        assert(n.rows.drop_last() =~= whole.rows);
        let open = visible && !folded.contains(id);
        assert forall|k: int| 0 <= k < kids.len() implies 0 <= #[trigger] kids[k] < s.len() && open
            == !folded_above(s, folded, kids[k]) by {
            assert(owns(s, i, kids[k]));
            lemma_folded_above(s, folded, kids[k], i);
        }
        assert(!Seq::<Seq<char>>::empty().contains(id));
        lemma_folding_all(
            s,
            folded,
            m,
            n,
            kids,
            0,
            prefix + below_mark(last),
            open,
            (depth - 1) as nat,
        );
    }
}

proof fn lemma_folding_all(
    s: Seq<SessionRecord>,
    folded: Seq<Seq<char>>,
    t: TreeView,
    whole: TreeView,
    kids: Seq<int>,
    k: nat,
    prefix: Seq<char>,
    visible: bool,
    depth: nat,
)
    requires
        distinct_sessions(s),
        t.seen == whole.seen,
        t.rows == unfolded(s, folded, whole.rows),
        forall|n: int|
            0 <= n < kids.len() ==> 0 <= #[trigger] kids[n] < s.len() && visible == !folded_above(
                s,
                folded,
                kids[n],
            ),
    ensures
        ({
            let u = visited_all(s, folded, t, kids, k, prefix, visible, depth);
            let all = visited_all(s, Seq::empty(), whole, kids, k, prefix, true, depth);
            u.seen == all.seen && u.rows == unfolded(s, folded, all.rows)
        }),
    decreases depth, 1 + kids.len() - k,
{
    if k < kids.len() {
        let i = kids[k as int];
        let last = k + 1 == kids.len();
        lemma_folding(s, folded, t, whole, i, prefix, last, visible, depth);
        let next = visited(s, folded, t, i, prefix, last, visible, depth);
        let wide = visited(s, Seq::empty(), whole, i, prefix, last, true, depth);
        lemma_folding_all(s, folded, next, wide, kids, k + 1, prefix, visible, depth);
    }
}

/// Where sessions own each other in no circle, folding leaves rows out and changes nothing
/// else: what remains are the rows that nothing folded stands above, in the same order and
/// drawn in the same way.
pub proof fn folding_only_leaves_rows_out(
    s: Seq<SessionRecord>,
    folded: Seq<Seq<char>>,
    rank: spec_fn(int) -> nat,
)
    requires
        distinct_sessions(s),
        ranked(s, rank),
    ensures
        tree_of(s, folded).rows == unfolded(s, folded, tree_of(s, Seq::empty()).rows),
{
    let empty = TreeView { seen: Seq::empty(), rows: Seq::empty() };
    let top = roots(s, s.len());
    lemma_rooted(s, folded, rank);
    lemma_rooted(s, Seq::empty(), rank);
    lemma_roots(s, s.len());
    assert forall|n: int| 0 <= n < top.len() implies 0 <= #[trigger] top[n] < s.len()
        && !folded_above(s, folded, top[n]) by {
        if folded_above(s, folded, top[n]) {
            let path = choose|path: Seq<int>| #[trigger]
                leads_up(s, path) && path[0] == top[n] && folded.contains(s[path.last()].id@);
            assert(owns(s, path[0int + 1], path[0]));
            assert(has_id(s, s[path[1]].id@));
        }
    }
    assert(unfolded(s, folded, empty.rows) =~= empty.rows);
    lemma_folding_all(s, folded, empty, empty, top, 0, Seq::empty(), true, s.len() + 1);
}

} // verus!
