//! What the approval frontend draws: its tables, and the request that is shown in full.
use vstd::prelude::*;

use crate::board::{
    as_places, find_request, find_session, heights, is_heights, may_decide, open_place,
    package_cell, package_cell_of, package_count, package_title, package_title_of, presenting,
    request_label, request_label_of, request_text, request_text_of, rows_shown, session_cell,
    session_cell_of, session_place, synced, Board, Focus,
};
use crate::plain::{safe, shown};
use crate::records::{PermissionRecord, PermissionState, SessionRecord, Snapshot};
use crate::text::{decimal, decimal_of, maybe, texts};
use crate::tree::{rows_of, session_tree, RowView};

verus! {

/// A table under a title, with the row that is selected.
pub struct Table {
    pub title: String,
    pub rows: Vec<Vec<String>>,
    pub selected: Option<usize>,
}

/// The request that is shown in full.
pub enum Popup {
    /// None is shown.
    Closed,
    /// The one that was selected is no longer there.
    Gone,
    /// Nothing is left to decide.
    Finished(String),
    /// It waits; the button that a key would press is marked.
    Open(String, Option<bool>),
}

pub struct Picture {
    /// The sessions, or the packages of one.
    pub main: Table,
    pub requests: Table,
    pub popup: Popup,
    /// The heights of the list of requests and of the request in full.
    pub heights: (u16, u16),
}

pub open spec fn grid(rows: Seq<Vec<String>>) -> Seq<Seq<Seq<char>>> {
    rows.map_values(|r: Vec<String>| texts(r@))
}

pub open spec fn is_table(
    t: Table,
    title: Seq<char>,
    rows: Seq<Seq<Seq<char>>>,
    selected: Option<usize>,
) -> bool {
    t.title@ == title && grid(t.rows@) == rows && t.selected == selected
}

/// The packages of a session, and since when it has them.
pub open spec fn package_rows(packages: Seq<String>, access: Seq<char>) -> Seq<Seq<Seq<char>>> {
    Seq::new(packages.len(), |i: int| seq![shown(packages[i]@), access])
}

/// The session that is selected, if it is still there.
pub open spec fn session_of(b: Board, n: Snapshot) -> Option<SessionRecord> {
    match maybe(b.selected_session) {
        Some(id) => match session_place(n.sessions@, id, 0) {
            Some(i) => Some(n.sessions@[i]),
            None => None,
        },
        None => None,
    }
}

pub open spec fn all_packages(s: Option<SessionRecord>) -> Seq<Seq<Seq<char>>> {
    match s {
        Some(s) => package_rows(s.initial_packages@, "Startup"@) + package_rows(
            s.packages@,
            "Granted"@,
        ),
        None => Seq::empty(),
    }
}

pub open spec fn session_row(row: RowView, s: SessionRecord, collapsed: Seq<Seq<char>>) -> Seq<
    Seq<char>,
> {
    seq![
        session_cell_of(row, s, collapsed),
        match s.identity {
            Some(i) => decimal_of(i.pid as nat),
            None => ""@,
        },
        s.state.text(),
        package_cell_of(s),
    ]
}

pub open spec fn session_rows(b: Board, n: Snapshot) -> Seq<Seq<Seq<char>>> {
    let rows = rows_shown(b, n);
    Seq::new(
        rows.len(),
        |i: int| session_row(rows[i], n.sessions@[rows[i].place], texts(b.collapsed@)),
    )
}

pub open spec fn request_row(n: Snapshot, p: PermissionRecord) -> Seq<Seq<char>> {
    seq![request_label_of(n, p), shown(p.package@), shown(p.state.text())]
}

pub open spec fn request_rows(n: Snapshot) -> Seq<Seq<Seq<char>>> {
    Seq::new(n.permissions@.len(), |i: int| request_row(n, n.permissions@[i]))
}

pub open spec fn sessions_title(focus: Focus) -> Seq<char> {
    if focus == Focus::Sandboxes {
        " Sandboxes [focused] "@
    } else {
        " Sandboxes "@
    }
}

pub open spec fn requests_title(focus: Focus) -> Seq<char> {
    if focus == Focus::Requests {
        " Requests [focused] "@
    } else {
        " Requests "@
    }
}

/// The request that was selected, as long as it is open. Only one that waits has buttons.
pub open spec fn is_popup(p: Popup, b: Board, n: Snapshot) -> bool {
    if !b.popup_open || b.selected_request is None {
        p is Closed
    } else {
        match open_place(b, n) {
            None => p is Gone,
            Some(i) => {
                let r = n.permissions@[i];
                if r.state == PermissionState::Pending {
                    &&& p matches Popup::Open(text, marked)
                    &&& text@ == request_text_of(n, r)
                    &&& marked == if b.focus == Focus::Requests {
                        Some(b.yes)
                    } else {
                        None
                    }
                } else {
                    p matches Popup::Finished(text) && text@ == request_text_of(n, r)
                }
            },
        }
    }
}

/// A place in a list of that length: the last one where there are not so many, and none
/// where there is nothing.
pub open spec fn place_within(place: Option<usize>, count: nat) -> Option<int> {
    match place {
        Some(i) => if count == 0 {
            None
        } else if i >= count {
            Some(count - 1)
        } else {
            Some(i as int)
        },
        None => None,
    }
}

fn within(place: Option<usize>, count: usize) -> (r: Option<usize>)
    ensures
        as_places(r) == place_within(place, count as nat),
{
    match place {
        Some(i) => if count == 0 {
            None
        } else if i >= count {
            Some(count - 1)
        } else {
            Some(i)
        },
        None => None,
    }
}

/// A board whose place among the packages on the screen, where they are there, is one of them.
pub open spec fn settled(b: Board, c: Board, n: Snapshot) -> bool {
    &&& as_places(c.packages) == if b.details {
        place_within(b.packages, package_count(b, n))
    } else {
        as_places(b.packages)
    }
    &&& c == (Board { packages: c.packages, ..b })
}

/// What is drawn of a board that is in step with what the host shows.
pub open spec fn depicts(p: Picture, b: Board, n: Snapshot) -> bool {
    &&& if b.details {
        is_table(
            p.main,
            package_title_of(b.focus, session_of(b, n)),
            all_packages(session_of(b, n)),
            b.packages,
        )
    } else {
        is_table(p.main, sessions_title(b.focus), session_rows(b, n), b.sessions)
    }
    &&& is_table(p.requests, requests_title(b.focus), request_rows(n), b.requests)
    &&& is_popup(p.popup, b, n)
    &&& is_heights(
        p.heights,
        b.selected_request is Some,
        b.popup_open,
        n.permissions@.len() as int,
    )
}

fn push_packages(rows: &mut Vec<Vec<String>>, packages: &Vec<String>, access: &str)
    ensures
        grid(final(rows)@) == grid(old(rows)@) + package_rows(packages@, access@),
{
    let ghost before = grid(rows@);
    assert(before + package_rows(packages@, access@).take(0) =~= before);
    let mut i: usize = 0;
    while i < packages.len()
        invariant
            i <= packages@.len(),
            grid(rows@) == before + package_rows(packages@, access@).take(i as int),
        decreases packages@.len() - i,
    {
        let ghost done = grid(rows@);
        let mut row: Vec<String> = Vec::new();
        row.push(safe(packages[i].as_str()));
        row.push(String::from_str(access));
        assert(texts(row@) =~= package_rows(packages@, access@)[i as int]);
        rows.push(row);
        i += 1;
        assert(grid(rows@) =~= done.push(texts(row@)));
        assert(grid(rows@) =~= before + package_rows(packages@, access@).take(i as int));
    }
    assert(package_rows(packages@, access@).take(i as int) =~= package_rows(packages@, access@));
}

impl Board {
    fn packages_table(&self, n: &Snapshot) -> (r: Table)
        ensures
            is_table(
                r,
                package_title_of(self.focus, session_of(*self, *n)),
                all_packages(session_of(*self, *n)),
                self.packages,
            ),
    {
        let place = match &self.selected_session {
            Some(id) => find_session(&n.sessions, id.as_str()),
            None => None,
        };
        let mut rows: Vec<Vec<String>> = Vec::new();
        assert(grid(rows@) =~= Seq::<Seq<Seq<char>>>::empty());
        let title = match place {
            Some(i) => {
                let s = &n.sessions[i];
                assert(session_of(*self, *n) == Some(*s));
                push_packages(&mut rows, &s.initial_packages, "Startup");
                push_packages(&mut rows, &s.packages, "Granted");
                assert(grid(rows@) =~= all_packages(Some(*s)));
                package_title(self.focus, Some(s))
            },
            None => {
                assert(session_of(*self, *n) is None);
                package_title(self.focus, None)
            },
        };
        Table { title, rows, selected: self.packages }
    }

    fn sessions_table(&self, n: &Snapshot) -> (r: Table)
        ensures
            is_table(r, sessions_title(self.focus), session_rows(*self, *n), self.sessions),
    {
        let tree = session_tree(&n.sessions, &self.collapsed);
        let ghost all = session_rows(*self, *n);
        assert(rows_of(tree@).len() == tree@.len());
        let mut rows: Vec<Vec<String>> = Vec::new();
        assert(grid(rows@) =~= all.take(0));
        let mut i: usize = 0;
        while i < tree.len()
            invariant
                i <= tree@.len(),
                all == session_rows(*self, *n),
                all.len() == tree@.len(),
                rows_of(tree@) == rows_shown(*self, *n),
                forall|k: int|
                    0 <= k < tree@.len() ==> (#[trigger] tree@[k]).place < n.sessions@.len(),
                grid(rows@) == all.take(i as int),
            decreases tree@.len() - i,
        {
            let ghost done = grid(rows@);
            let s = &n.sessions[tree[i].place];
            let pid = match s.identity {
                Some(identity) => decimal(identity.pid as u64),
                None => String::from_str(""),
            };
            let mut row: Vec<String> = Vec::new();
            row.push(session_cell(&tree[i], s, &self.collapsed));
            row.push(pid);
            row.push(String::from_str(s.state.name()));
            row.push(package_cell(s));
            assert(rows_of(tree@)[i as int] == tree@[i as int]@);
            assert(texts(row@) =~= all[i as int]);
            rows.push(row);
            i += 1;
            assert(grid(rows@) =~= done.push(texts(row@)));
            assert(grid(rows@) =~= all.take(i as int));
        }
        assert(all.take(i as int) =~= all);
        let title = if self.focus == Focus::Sandboxes {
            " Sandboxes [focused] "
        } else {
            " Sandboxes "
        };
        Table { title: String::from_str(title), rows, selected: self.sessions }
    }

    fn requests_table(&self, n: &Snapshot) -> (r: Table)
        ensures
            is_table(r, requests_title(self.focus), request_rows(*n), self.requests),
    {
        let ghost all = request_rows(*n);
        let mut rows: Vec<Vec<String>> = Vec::new();
        assert(grid(rows@) =~= all.take(0));
        let mut i: usize = 0;
        while i < n.permissions.len()
            invariant
                i <= n.permissions@.len(),
                all == request_rows(*n),
                grid(rows@) == all.take(i as int),
            decreases n.permissions@.len() - i,
        {
            let ghost done = grid(rows@);
            let p = &n.permissions[i];
            let mut row: Vec<String> = Vec::new();
            row.push(request_label(n, p));
            row.push(safe(p.package.as_str()));
            row.push(safe(p.state.name()));
            assert(texts(row@) =~= all[i as int]);
            rows.push(row);
            i += 1;
            assert(grid(rows@) =~= done.push(texts(row@)));
            assert(grid(rows@) =~= all.take(i as int));
        }
        assert(all.take(i as int) =~= all);
        let title = if self.focus == Focus::Requests {
            " Requests [focused] "
        } else {
            " Requests "
        };
        Table { title: String::from_str(title), rows, selected: self.requests }
    }

    fn popup(&self, n: &Snapshot) -> (r: Popup)
        ensures
            is_popup(r, *self, *n),
    {
        let id = match &self.selected_request {
            Some(id) => id,
            None => {
                return Popup::Closed;
            },
        };
        if !self.popup_open {
            return Popup::Closed;
        }
        match find_request(&n.permissions, id.as_str()) {
            None => Popup::Gone,
            Some(i) => {
                let text = request_text(n, &n.permissions[i]);
                if n.permissions[i].state == PermissionState::Pending {
                    let marked = if self.focus == Focus::Requests {
                        Some(self.yes)
                    } else {
                        None
                    };
                    Popup::Open(text, marked)
                } else {
                    Popup::Finished(text)
                }
            },
        }
    }

    /// Draws what the host shows. What a key or a button decides on from now on is the
    /// request that is on the screen then. A place among packages that are not there any
    /// more becomes the last one.
    pub fn draw(&mut self, n: &Snapshot) -> (r: Picture)
        ensures
            exists|b: Board, c: Board|
                synced(*old(self), b, *n) && #[trigger] presenting(b, c, *n) && #[trigger] settled(
                    c,
                    *final(self),
                    *n,
                ),
            depicts(r, *final(self), *n),
    {
        self.sync(n);
        let ghost b = *self;
        self.present(n);
        let ghost c = *self;
        let main = if self.details {
            let table = self.packages_table(n);
            let count = table.rows.len();
            proof {
                assert(grid(table.rows@).len() == count);
                assert(count == package_count(c, *n));
            }
            self.packages = within(self.packages, count);
            Table { selected: self.packages, ..table }
        } else {
            self.sessions_table(n)
        };
        assert(presenting(b, c, *n) && settled(c, *self, *n));
        Picture {
            main,
            requests: self.requests_table(n),
            popup: self.popup(n),
            heights: heights(self.selected_request.is_some(), self.popup_open, n.permissions.len()),
        }
    }
}

/// Nobody decides on what they have not seen: a request can be decided on only where it was
/// drawn in full and with its buttons, and the decision bears the approval that was drawn.
pub proof fn what_is_decided_was_shown(b: Board, c: Board, d: Board, n: Snapshot, p: Picture)
    requires
        presenting(b, c, n),
        settled(c, d, n),
        depicts(p, d, n),
        may_decide(d),
    ensures
        p.popup is Open,
        open_place(d, n) matches Some(i) && n.permissions@[i].state == PermissionState::Pending
            && d.presented->0.approval@ == n.permissions@[i].approval@ && d.presented->0.id@
            == n.permissions@[i].id@,
{
}

/// Every package of the session that is looked at is shown, and since when it is there.
pub proof fn every_package_is_shown(s: SessionRecord, i: int)
    ensures
        all_packages(Some(s)).len() == s.initial_packages@.len() + s.packages@.len(),
        0 <= i < s.initial_packages@.len() ==> all_packages(Some(s))[i] == seq![
            shown(s.initial_packages@[i]@),
            "Startup"@,
        ],
        0 <= i < s.packages@.len() ==> all_packages(Some(s))[s.initial_packages@.len() + i] == seq![
            shown(s.packages@[i]@),
            "Granted"@,
        ],
{
}

/// Every request is shown: who asks, for what, and how it stands.
pub proof fn every_request_is_shown(n: Snapshot, i: int)
    ensures
        request_rows(n).len() == n.permissions@.len(),
        0 <= i < n.permissions@.len() ==> request_rows(n)[i] == seq![
            request_label_of(n, n.permissions@[i]),
            shown(n.permissions@[i].package@),
            shown(n.permissions@[i].state.text()),
        ],
{
}

/// Every row of the tree is shown with its session: how it is called, its process, how it
/// stands, and how many packages it has.
pub proof fn every_session_in_the_tree_is_shown(b: Board, n: Snapshot, i: int)
    ensures
        session_rows(b, n).len() == rows_shown(b, n).len(),
        0 <= i < rows_shown(b, n).len() ==> ({
            let s = n.sessions@[rows_shown(b, n)[i].place];
            let row = session_rows(b, n)[i];
            &&& row.len() == 4
            &&& row[0] == session_cell_of(rows_shown(b, n)[i], s, texts(b.collapsed@))
            &&& s.identity matches Some(p) ==> row[1] == decimal_of(p.pid as nat)
            &&& s.identity is None ==> row[1].len() == 0
            &&& row[2] == s.state.text()
            &&& row[3] == decimal_of(s.initial_packages@.len()) + " startup / "@ + decimal_of(
                s.packages@.len(),
            ) + " granted"@
        }),
{
    reveal_strlit("");
}

} // verus!
