//! The approval frontend: what is selected, what is shown, and which request a
//! key or a button decides on.
use vstd::prelude::*;

use crate::plain::{safe, shown};
use crate::records::{PermissionRecord, PermissionState, PreviewShown, SessionRecord, Snapshot};
use crate::text::{decimal, decimal_of, holds, maybe, same, texts};
use crate::tree::{rows_of, session_tree, tree_of, RowView, TreeRow};

verus! {

#[derive(Clone, Copy, Debug, PartialEq, Eq, Structural)]
pub enum Focus {
    Sandboxes,
    Requests,
}

/// The request that was on the screen when it was last drawn.
pub struct Presented {
    pub id: String,
    pub session: String,
    pub approval: String,
    pub state: PermissionState,
}

pub struct Board {
    pub sessions: Option<usize>,
    pub selected_session: Option<String>,
    pub collapsed: Vec<String>,
    pub packages: Option<usize>,
    pub requests: Option<usize>,
    pub selected_request: Option<String>,
    pub focus: Focus,
    pub details: bool,
    pub popup_open: bool,
    pub request_scroll: u16,
    pub yes: bool,
    pub notice: String,
    pub presented: Option<Presented>,
    pub pressed: Option<(String, bool)>,
}

/// What a human does.
#[derive(Clone, Copy, Debug, PartialEq, Eq)]
pub enum Input {
    Quit,
    Tab,
    Up,
    Down,
    Left,
    Right,
    Enter,
    Yes,
    No,
    Escape,
    Backspace,
    PageUp,
    PageDown,
    /// A press of the mouse, on the refusing button or on the approving one.
    Press(Option<bool>),
    Release(Option<bool>),
    /// Anything else; what is pasted is no input.
    Other,
}

/// What comes of it.
#[derive(Clone, Copy, Debug, PartialEq, Eq, Structural)]
pub enum Step {
    Quit,
    /// The request on the screen is decided on, if it may be.
    Decide(bool),
    Go,
}

// ---------------------------------------------------------------------------
// The model
// ---------------------------------------------------------------------------

pub open spec fn session_place(s: Seq<SessionRecord>, id: Seq<char>, i: int) -> Option<int>
    decreases s.len() - i,
{
    if i < 0 || i >= s.len() {
        None
    } else if s[i].id@ == id {
        Some(i)
    } else {
        session_place(s, id, i + 1)
    }
}

pub open spec fn request_at(p: Seq<PermissionRecord>, id: Seq<char>, i: int) -> Option<int>
    decreases p.len() - i,
{
    if i < 0 || i >= p.len() {
        None
    } else if p[i].id@ == id {
        Some(i)
    } else {
        request_at(p, id, i + 1)
    }
}

pub open spec fn pending_at(p: Seq<PermissionRecord>, i: int) -> Option<int>
    decreases p.len() - i,
{
    if i < 0 || i >= p.len() {
        None
    } else if p[i].state == PermissionState::Pending {
        Some(i)
    } else {
        pending_at(p, i + 1)
    }
}

/// The row of a session, from the row `k` on.
pub open spec fn row_at(
    s: Seq<SessionRecord>,
    rows: Seq<RowView>,
    id: Seq<char>,
    k: int,
) -> Option<int>
    decreases rows.len() - k,
{
    if k < 0 || k >= rows.len() {
        None
    } else if s[rows[k].place].id@ == id {
        Some(k)
    } else {
        row_at(s, rows, id, k + 1)
    }
}

pub open spec fn rows_shown(b: Board, n: Snapshot) -> Seq<RowView> {
    tree_of(n.sessions@, texts(b.collapsed@)).rows
}

/// The session that is selected: the first where none was. A selection stays
/// though its session is gone.
pub open spec fn chosen_session(b: Board, n: Snapshot) -> Option<Seq<char>> {
    match b.selected_session {
        Some(id) => Some(id@),
        None => if rows_shown(b, n).len() > 0 {
            Some(n.sessions@[rows_shown(b, n)[0].place].id@)
        } else {
            None
        },
    }
}

/// The request that is selected: the first that waits, or else the last, where
/// none was. A selection stays though its request is gone.
pub open spec fn chosen_request(b: Board, n: Snapshot) -> Option<Seq<char>> {
    match b.selected_request {
        Some(id) => Some(id@),
        None => match pending_at(n.permissions@, 0) {
            Some(i) => Some(n.permissions@[i].id@),
            None => if n.permissions@.len() > 0 {
                Some(n.permissions@.last().id@)
            } else {
                None
            },
        },
    }
}

/// The request on the screen waited, is still selected, and was decided on.
pub open spec fn was_decided(b: Board, n: Snapshot) -> bool {
    &&& b.presented matches Some(p) && p.state == PermissionState::Pending && Some(p.id@)
        == chosen_request(b, n)
    &&& exists|i: int|
        0 <= i < n.permissions@.len() && Some((#[trigger] n.permissions@[i]).id@) == chosen_request(
            b,
            n,
        ) && n.permissions@[i].approved is Some
}

pub open spec fn as_places(i: Option<usize>) -> Option<int> {
    match i {
        Some(i) => Some(i as int),
        None => None,
    }
}

/// A board that is in step with what the host shows.
pub open spec fn synced(b: Board, c: Board, n: Snapshot) -> bool {
    &&& maybe(c.selected_session) == chosen_session(b, n)
    &&& as_places(c.sessions) == match chosen_session(b, n) {
        Some(id) => row_at(n.sessions@, rows_shown(b, n), id, 0),
        None => None,
    }
    &&& maybe(c.selected_request) == chosen_request(b, n)
    &&& as_places(c.requests) == match chosen_request(b, n) {
        Some(id) => request_at(n.permissions@, id, 0),
        None => None,
    }
    &&& c.popup_open == (b.popup_open && !was_decided(b, n))
    &&& c == (Board {
        selected_session: c.selected_session,
        sessions: c.sessions,
        selected_request: c.selected_request,
        requests: c.requests,
        popup_open: c.popup_open,
        ..b
    })
}

/// A place moved by so many, within a list of that length.
pub open spec fn moved(i: int, delta: int, count: nat) -> int {
    let low = if i + delta < 0 {
        0
    } else {
        i + delta
    };
    let most = if count == 0 {
        0
    } else {
        count - 1
    };
    if low > most {
        most
    } else {
        low
    }
}

pub open spec fn or_first(i: Option<usize>) -> int {
    match i {
        Some(i) => i as int,
        None => 0,
    }
}

fn shift(i: Option<usize>, delta: i32, count: usize) -> (r: usize)
    ensures
        r == moved(or_first(i), delta as int, count as nat),
{
    let at: usize = match i {
        Some(i) => i,
        None => 0,
    };
    let most: usize = if count == 0 {
        0
    } else {
        count - 1
    };
    if delta < 0 {
        let back: usize = (0 - delta as i64) as usize;
        let low: usize = if at < back {
            0
        } else {
            at - back
        };
        if low > most {
            most
        } else {
            low
        }
    } else {
        let ahead: usize = delta as usize;
        if at > most || ahead > most - at {
            most
        } else {
            at + ahead
        }
    }
}

pub(crate) fn find_session(sessions: &Vec<SessionRecord>, id: &str) -> (r: Option<usize>)
    ensures
        as_places(r) == session_place(sessions@, id@, 0),
        r matches Some(i) ==> i < sessions@.len() && sessions@[i as int].id@ == id@,
{
    let ghost s = sessions@;
    let mut i: usize = 0;
    while i < sessions.len()
        invariant
            s == sessions@,
            i <= s.len(),
            session_place(s, id@, 0) == session_place(s, id@, i as int),
        decreases s.len() - i,
    {
        if same(sessions[i].id.as_str(), id) {
            return Some(i);
        }
        i += 1;
    }
    None
}

pub(crate) fn find_request(permissions: &Vec<PermissionRecord>, id: &str) -> (r: Option<usize>)
    ensures
        as_places(r) == request_at(permissions@, id@, 0),
        r matches Some(i) ==> i < permissions@.len() && permissions@[i as int].id@ == id@,
{
    let ghost p = permissions@;
    let mut i: usize = 0;
    while i < permissions.len()
        invariant
            p == permissions@,
            i <= p.len(),
            request_at(p, id@, 0) == request_at(p, id@, i as int),
        decreases p.len() - i,
    {
        if same(permissions[i].id.as_str(), id) {
            return Some(i);
        }
        i += 1;
    }
    None
}

fn find_pending(permissions: &Vec<PermissionRecord>) -> (r: Option<usize>)
    ensures
        as_places(r) == pending_at(permissions@, 0),
        r matches Some(i) ==> i < permissions@.len(),
{
    let ghost p = permissions@;
    let mut i: usize = 0;
    while i < permissions.len()
        invariant
            p == permissions@,
            i <= p.len(),
            pending_at(p, 0) == pending_at(p, i as int),
        decreases p.len() - i,
    {
        if permissions[i].state == PermissionState::Pending {
            return Some(i);
        }
        i += 1;
    }
    None
}

fn find_row(sessions: &Vec<SessionRecord>, rows: &Vec<TreeRow>, id: &str) -> (r: Option<usize>)
    requires
        forall|k: int| 0 <= k < rows@.len() ==> (#[trigger] rows@[k]).place < sessions@.len(),
    ensures
        as_places(r) == row_at(sessions@, rows_of(rows@), id@, 0),
{
    let ghost s = sessions@;
    let ghost v = rows_of(rows@);
    let mut k: usize = 0;
    while k < rows.len()
        invariant
            s == sessions@,
            v == rows_of(rows@),
            k <= rows@.len() == v.len(),
            forall|j: int| 0 <= j < rows@.len() ==> (#[trigger] rows@[j]).place < sessions@.len(),
            row_at(s, v, id@, 0) == row_at(s, v, id@, k as int),
        decreases v.len() - k,
    {
        assert(v[k as int].place == rows@[k as int].place);
        if same(sessions[rows[k].place].id.as_str(), id) {
            return Some(k);
        }
        k += 1;
    }
    None
}

fn has_decision(permissions: &Vec<PermissionRecord>, id: &str) -> (r: bool)
    ensures
        r == exists|i: int|
            0 <= i < permissions@.len() && (#[trigger] permissions@[i]).id@ == id@
                && permissions@[i].approved is Some,
{
    let mut i: usize = 0;
    while i < permissions.len()
        invariant
            i <= permissions@.len(),
            forall|j: int|
                0 <= j < i ==> !((#[trigger] permissions@[j]).id@ == id@
                    && permissions@[j].approved is Some),
        decreases permissions@.len() - i,
    {
        if same(permissions[i].id.as_str(), id) && permissions[i].approved.is_some() {
            return true;
        }
        i += 1;
    }
    false
}

fn has_child(sessions: &Vec<SessionRecord>, id: &str) -> (r: bool)
    ensures
        r == owns_any(sessions@, id@),
{
    let mut i: usize = 0;
    while i < sessions.len()
        invariant
            i <= sessions@.len(),
            forall|j: int| 0 <= j < i ==> maybe((#[trigger] sessions@[j]).parent) != Some(id@),
        decreases sessions@.len() - i,
    {
        if let Some(p) = &sessions[i].parent {
            if same(p.as_str(), id) {
                return true;
            }
        }
        i += 1;
    }
    false
}

pub open spec fn owns_any(s: Seq<SessionRecord>, id: Seq<char>) -> bool {
    exists|j: int| 0 <= j < s.len() && maybe((#[trigger] s[j]).parent) == Some(id)
}

/// A list without a text.
pub open spec fn without(list: Seq<Seq<char>>, id: Seq<char>) -> Seq<Seq<char>>
    decreases list.len(),
{
    if list.len() == 0 {
        list
    } else if list.last() == id {
        without(list.drop_last(), id)
    } else {
        without(list.drop_last(), id).push(list.last())
    }
}

fn remove_text(list: &Vec<String>, id: &str) -> (r: Vec<String>)
    ensures
        texts(r@) == without(texts(list@), id@),
{
    let ghost l = texts(list@);
    let mut r: Vec<String> = Vec::new();
    let mut i: usize = 0;
    assert(l.take(0) =~= Seq::<Seq<char>>::empty());
    assert(texts(r@) =~= Seq::<Seq<char>>::empty());
    while i < list.len()
        invariant
            l == texts(list@),
            i <= list@.len() == l.len(),
            texts(r@) == without(l.take(i as int), id@),
        decreases l.len() - i,
    {
        assert(l.take(i + 1).drop_last() =~= l.take(i as int));
        assert(l.take(i + 1).last() == list@[i as int]@);
        if !same(list[i].as_str(), id) {
            let ghost before = texts(r@);
            r.push(list[i].clone());
            assert(texts(r@) =~= before.push(list@[i as int]@));
        }
        i += 1;
    }
    assert(l.take(i as int) =~= l);
    r
}

/// Where the selected session stands.
pub open spec fn fold_place(b: Board, n: Snapshot) -> Option<int> {
    match b.selected_session {
        Some(id) => session_place(n.sessions@, id@, 0),
        None => None,
    }
}

/// What folding or unfolding the selected session makes of a board, before it is
/// brought in step: unfolding unfolds it; folding folds it if anything belongs to
/// it and it is unfolded, and else goes up to its owner.
pub open spec fn folded(b: Board, c: Board, expand: bool, n: Snapshot) -> bool {
    match fold_place(b, n) {
        None => c == b,
        Some(i) => {
            let s = n.sessions@[i];
            if expand {
                &&& texts(c.collapsed@) == without(texts(b.collapsed@), s.id@)
                &&& c == (Board { collapsed: c.collapsed, ..b })
            } else if owns_any(n.sessions@, s.id@) && !texts(b.collapsed@).contains(s.id@) {
                &&& texts(c.collapsed@) == texts(b.collapsed@).push(s.id@)
                &&& c == (Board { collapsed: c.collapsed, ..b })
            } else {
                &&& maybe(c.selected_session) == match maybe(s.parent) {
                    Some(p) => Some(p),
                    None => maybe(b.selected_session),
                }
                &&& c == (Board { selected_session: c.selected_session, ..b })
            }
        },
    }
}

/// How many packages a session has.
pub open spec fn package_count(b: Board, n: Snapshot) -> nat {
    match b.selected_session {
        Some(id) => match session_place(n.sessions@, id@, 0) {
            Some(i) => n.sessions@[i].initial_packages@.len() + n.sessions@[i].packages@.len(),
            None => 0,
        },
        None => 0,
    }
}

/// What moving the selection makes of a board.
pub open spec fn moved_board(b: Board, c: Board, delta: int, n: Snapshot) -> bool {
    if b.focus == Focus::Requests {
        if n.permissions@.len() == 0 {
            c == b
        } else {
            let i = moved(or_first(b.requests), delta, n.permissions@.len());
            &&& as_places(c.requests) == Some(i)
            &&& maybe(c.selected_request) == Some(n.permissions@[i].id@)
            &&& c == (Board {
                requests: c.requests,
                selected_request: c.selected_request,
                yes: false,
                popup_open: true,
                request_scroll: 0,
                ..b
            })
        }
    } else if b.details {
        &&& as_places(c.packages) == Some(moved(or_first(b.packages), delta, package_count(b, n)))
        &&& c == (Board { packages: c.packages, request_scroll: 0, ..b })
    } else {
        let rows = rows_shown(b, n);
        let k = moved(or_first(b.sessions), delta, rows.len());
        &&& as_places(c.sessions) == Some(k)
        &&& maybe(c.selected_session) == if k < rows.len() {
            Some(n.sessions@[rows[k].place].id@)
        } else {
            None
        }
        &&& c == (Board {
            sessions: c.sessions,
            selected_session: c.selected_session,
            request_scroll: 0,
            ..b
        })
    }
}

/// The request on the screen may be decided on: it waited when it was drawn, it is
/// still the selected one, and the requests have the focus.
pub open spec fn may_decide(b: Board) -> bool {
    &&& b.focus == Focus::Requests
    &&& b.presented matches Some(p) && p.state == PermissionState::Pending && Some(p.id@) == maybe(
        b.selected_request,
    )
}

impl Board {
    pub fn new() -> (r: Self)
        ensures
            r.sessions == Some(0usize) && r.packages == Some(0usize) && r.requests is None,
            r.selected_session is None && r.selected_request is None,
            r.collapsed@.len() == 0,
            r.focus == Focus::Sandboxes && !r.details && r.popup_open && !r.yes,
            r.request_scroll == 0 && r.notice@.len() == 0,
            r.presented is None && r.pressed is None,
    {
        Board {
            sessions: Some(0),
            selected_session: None,
            collapsed: Vec::new(),
            packages: Some(0),
            requests: None,
            selected_request: None,
            focus: Focus::Sandboxes,
            details: false,
            popup_open: true,
            request_scroll: 0,
            yes: false,
            notice: String::new(),
            presented: None,
            pressed: None,
        }
    }

    /// Brings a board in step with what the host shows. What was selected stays
    /// selected, so that no input meets a request that took another's place.
    pub fn sync(&mut self, n: &Snapshot)
        ensures
            synced(*old(self), *final(self), *n),
    {
        let ghost b = *self;
        let rows = session_tree(&n.sessions, &self.collapsed);
        assert(rows_of(rows@).len() == rows@.len());
        let session = match &self.selected_session {
            Some(id) => Some(id.clone()),
            None => if rows.len() > 0 {
                assert(rows_of(rows@)[0].place == rows@[0].place);
                Some(n.sessions[rows[0].place].id.clone())
            } else {
                None
            },
        };
        let row = match &session {
            Some(id) => find_row(&n.sessions, &rows, id.as_str()),
            None => None,
        };
        let request = match &self.selected_request {
            Some(id) => Some(id.clone()),
            None => match find_pending(&n.permissions) {
                Some(i) => Some(n.permissions[i].id.clone()),
                None => if n.permissions.len() > 0 {
                    Some(n.permissions[n.permissions.len() - 1].id.clone())
                } else {
                    None
                },
            },
        };
        let mut decided: bool = false;
        if let (Some(p), Some(id)) = (&self.presented, &request) {
            decided = p.state == PermissionState::Pending && same(p.id.as_str(), id.as_str())
                && has_decision(&n.permissions, id.as_str());
        }
        let place = match &request {
            Some(id) => find_request(&n.permissions, id.as_str()),
            None => None,
        };
        assert(decided == was_decided(b, *n));
        self.selected_session = session;
        self.sessions = row;
        self.selected_request = request;
        if decided {
            self.popup_open = false;
        }
        self.requests = place;
    }

    /// Folds or unfolds the selected session.
    pub fn fold(&mut self, expand: bool, n: &Snapshot)
        ensures
            refolded(*old(self), *final(self), expand, *n),
    {
        if self.details {
            return ;
        }
        let ghost b = *self;
        let place = match &self.selected_session {
            Some(id) => find_session(&n.sessions, id.as_str()),
            None => None,
        };
        let i = match place {
            Some(i) => i,
            None => {
                return ;
            },
        };
        let id = n.sessions[i].id.as_str();
        if expand {
            self.collapsed = remove_text(&self.collapsed, id);
        } else if has_child(&n.sessions, id) && !holds(&self.collapsed, id) {
            let ghost before = texts(self.collapsed@);
            self.collapsed.push(n.sessions[i].id.clone());
            assert(texts(self.collapsed@) =~= before.push(id@));
        } else if let Some(p) = &n.sessions[i].parent {
            self.selected_session = Some(p.clone());
        }
        assert(folded(b, *self, expand, *n));
        self.sync(n);
    }

    /// Moves the selection.
    pub fn move_selection(&mut self, delta: i32, n: &Snapshot)
        requires
            forall|i: int|
                0 <= i < n.sessions@.len() ==> (#[trigger] n.sessions@[i]).initial_packages@.len()
                    + n.sessions@[i].packages@.len() <= usize::MAX,
        ensures
            moved_board(*old(self), *final(self), delta as int, *n),
    {
        if self.focus == Focus::Requests {
            if n.permissions.len() > 0 {
                let i: usize = shift(self.requests, delta, n.permissions.len());
                self.requests = Some(i);
                self.selected_request = Some(n.permissions[i].id.clone());
                self.yes = false;
                self.popup_open = true;
                self.request_scroll = 0;
            }
            return ;
        }
        if self.details {
            let place = match &self.selected_session {
                Some(id) => find_session(&n.sessions, id.as_str()),
                None => None,
            };
            let count: usize = match place {
                Some(i) => n.sessions[i].initial_packages.len() + n.sessions[i].packages.len(),
                None => 0,
            };
            self.packages = Some(shift(self.packages, delta, count));
        } else {
            let rows = session_tree(&n.sessions, &self.collapsed);
            assert(rows_of(rows@).len() == rows@.len());
            let k: usize = shift(self.sessions, delta, rows.len());
            self.sessions = Some(k);
            self.selected_session = if k < rows.len() {
                assert(rows_of(rows@)[k as int].place == rows@[k as int].place);
                Some(n.sessions[rows[k].place].id.clone())
            } else {
                None
            };
        }
        self.request_scroll = 0;
    }

    /// The request that a decision would be on.
    pub fn decision(&self) -> (r: Option<&Presented>)
        ensures
            match r {
                Some(p) => may_decide(*self) && self.presented == Some(*p),
                None => !may_decide(*self),
            },
    {
        if self.focus != Focus::Requests {
            return None;
        }
        match (&self.presented, &self.selected_request) {
            (Some(p), Some(id)) => if p.state == PermissionState::Pending && same(
                p.id.as_str(),
                id.as_str(),
            ) {
                Some(p)
            } else {
                None
            },
            _ => None,
        }
    }

    /// What came of a decision. Nothing that was typed before the next drawing can
    /// decide again.
    pub fn decided(&mut self, yes: bool, outcome: Result<(), String>)
        ensures
            final(self).notice@ == match outcome {
                Ok(()) => if yes {
                    "Approved; waiting for package readiness"@
                } else {
                    "Denied"@
                },
                Err(e) => shown(e@),
            },
            *final(self) == (Board {
                notice: final(self).notice,
                popup_open: old(self).popup_open && outcome is Err,
                presented: None,
                ..*old(self)
            }),
    {
        match outcome {
            Ok(()) => {
                self.popup_open = false;
                self.notice = String::from_str(
                    if yes {
                        "Approved; waiting for package readiness"
                    } else {
                        "Denied"
                    },
                );
            },
            Err(e) => {
                self.notice = safe(e.as_str());
            },
        }
        self.presented = None;
    }

    /// The request that is now on the screen.
    pub fn present(&mut self, n: &Snapshot)
        ensures
            presenting(*old(self), *final(self), *n),
    {
        let place = match &self.selected_request {
            Some(id) => if self.popup_open {
                find_request(&n.permissions, id.as_str())
            } else {
                None
            },
            None => None,
        };
        self.presented = match place {
            Some(i) => Some(
                Presented {
                    id: n.permissions[i].id.clone(),
                    session: n.permissions[i].session.clone(),
                    approval: n.permissions[i].approval.clone(),
                    state: n.permissions[i].state,
                },
            ),
            None => None,
        };
    }
}

/// The place of the request that is shown in full.
pub open spec fn open_place(b: Board, n: Snapshot) -> Option<int> {
    match (b.popup_open, maybe(b.selected_request)) {
        (true, Some(id)) => request_at(n.permissions@, id, 0),
        _ => None,
    }
}

/// A board whose request is now on the screen.
pub open spec fn presenting(b: Board, c: Board, n: Snapshot) -> bool {
    &&& match open_place(b, n) {
        Some(i) => c.presented matches Some(p) && presents(p, n.permissions@[i]),
        None => c.presented is None,
    }
    &&& c == (Board { presented: c.presented, ..b })
}

pub open spec fn presents(p: Presented, r: PermissionRecord) -> bool {
    p.id@ == r.id@ && p.session@ == r.session@ && p.approval@ == r.approval@ && p.state == r.state
}

/// What a human's input makes of a board, and what is to be done then.
pub open spec fn reacts(b: Board, c: Board, input: Input, n: Snapshot, step: Step) -> bool {
    match input {
        Input::Quit => c == b && step == Step::Quit,
        Input::Tab => {
            &&& step == Step::Go
            &&& c == (Board {
                focus: if b.focus == Focus::Sandboxes {
                    Focus::Requests
                } else {
                    Focus::Sandboxes
                },
                yes: false,
                ..b
            })
        },
        Input::Up => step == Step::Go && moved_board(b, c, -1, n),
        Input::Down => step == Step::Go && moved_board(b, c, 1, n),
        Input::Left => step == Step::Go && if b.focus == Focus::Requests {
            c == (Board { yes: false, ..b })
        } else {
            refolded(b, c, false, n)
        },
        Input::Right => step == Step::Go && if b.focus == Focus::Requests {
            c == (Board { yes: true, ..b })
        } else {
            refolded(b, c, true, n)
        },
        Input::Enter => if b.focus == Focus::Requests {
            if b.popup_open {
                c == b && step == Step::Decide(b.yes)
            } else {
                c == (Board { popup_open: true, yes: false, ..b }) && step == Step::Go
            }
        } else {
            c == (Board { details: !b.details, ..b }) && step == Step::Go
        },
        Input::Yes => c == b && step == Step::Decide(true),
        Input::No => c == b && step == Step::Decide(false),
        Input::Escape => {
            &&& step == Step::Go
            &&& c == (Board {
                popup_open: false,
                presented: None,
                pressed: None,
                details: false,
                ..b
            })
        },
        Input::Backspace => step == Step::Go && c == (Board { details: false, ..b }),
        Input::PageUp => {
            &&& step == Step::Go
            &&& c == (Board {
                request_scroll: if b.request_scroll < 4 {
                    0
                } else {
                    (b.request_scroll - 4) as u16
                },
                ..b
            })
        },
        Input::PageDown => {
            &&& step == Step::Go
            &&& c == (Board {
                request_scroll: if b.request_scroll + 4 > 4096 {
                    4096
                } else {
                    (b.request_scroll + 4) as u16
                },
                ..b
            })
        },
        Input::Press(hit) => {
            &&& step == Step::Go
            &&& match (hit, b.presented) {
                (Some(yes), Some(p)) => if p.state == PermissionState::Pending {
                    c.pressed matches Some((id, y)) && id@ == p.id@ && y == yes
                } else {
                    c.pressed is None
                },
                _ => c.pressed is None,
            }
            &&& c == (Board { pressed: c.pressed, ..b })
        },
        Input::Release(hit) => if releases(b, hit) {
            &&& step == Step::Decide((b.pressed->0).1)
            &&& c == (Board { pressed: None, focus: Focus::Requests, ..b })
        } else {
            step == Step::Go && c == (Board { pressed: None, ..b })
        },
        Input::Other => c == b && step == Step::Go,
    }
}

/// A button is let go where it was pressed, over the request that it was pressed for.
pub open spec fn releases(b: Board, hit: Option<bool>) -> bool {
    b.pressed matches Some((id, yes)) && hit == Some(yes) && (b.presented matches Some(p) && p.id@
        == id@)
}

/// A board after its selected session was folded or unfolded, and brought in step. Where no
/// session is selected, or its packages are shown, nothing happens.
pub open spec fn refolded(b: Board, c: Board, expand: bool, n: Snapshot) -> bool {
    if b.details || fold_place(b, n) is None {
        c == b
    } else {
        exists|m: Board| #[trigger] folded(b, m, expand, n) && synced(m, c, n)
    }
}

impl Board {
    /// Takes what a human does. A decision is carried out by the caller, if
    /// `decision` gives a request to decide on.
    pub fn input(&mut self, input: Input, n: &Snapshot) -> (r: Step)
        requires
            forall|i: int|
                0 <= i < n.sessions@.len() ==> (#[trigger] n.sessions@[i]).initial_packages@.len()
                    + n.sessions@[i].packages@.len() <= usize::MAX,
        ensures
            reacts(*old(self), *final(self), input, *n, r),
    {
        match input {
            Input::Quit => {
                return Step::Quit;
            },
            Input::Tab => {
                self.focus = if self.focus == Focus::Sandboxes {
                    Focus::Requests
                } else {
                    Focus::Sandboxes
                };
                self.yes = false;
            },
            Input::Up => self.move_selection(-1, n),
            Input::Down => self.move_selection(1, n),
            Input::Left => if self.focus == Focus::Requests {
                self.yes = false;
            } else {
                self.fold(false, n);
            },
            Input::Right => if self.focus == Focus::Requests {
                self.yes = true;
            } else {
                self.fold(true, n);
            },
            Input::Enter => if self.focus == Focus::Requests {
                if self.popup_open {
                    return Step::Decide(self.yes);
                }
                self.popup_open = true;
                self.yes = false;
            } else {
                self.details = !self.details;
            },
            Input::Yes => {
                return Step::Decide(true);
            },
            Input::No => {
                return Step::Decide(false);
            },
            Input::Escape => {
                self.popup_open = false;
                self.presented = None;
                self.pressed = None;
                self.details = false;
            },
            Input::Backspace => {
                self.details = false;
            },
            Input::PageUp => {
                self.request_scroll = if self.request_scroll < 4 {
                    0
                } else {
                    self.request_scroll - 4
                };
            },
            Input::PageDown => {
                self.request_scroll = if self.request_scroll > 4092 {
                    4096
                } else {
                    self.request_scroll + 4
                };
            },
            Input::Press(hit) => {
                self.pressed = match (hit, &self.presented) {
                    (Some(yes), Some(p)) => if p.state == PermissionState::Pending {
                        Some((p.id.clone(), yes))
                    } else {
                        None
                    },
                    _ => None,
                };
            },
            Input::Release(hit) => {
                let choice = match (&self.pressed, &self.presented, hit) {
                    (Some((id, yes)), Some(p), Some(on)) => if on == *yes && same(
                        p.id.as_str(),
                        id.as_str(),
                    ) {
                        Some(*yes)
                    } else {
                        None
                    },
                    _ => None,
                };
                self.pressed = None;
                if let Some(yes) = choice {
                    self.focus = Focus::Requests;
                    return Step::Decide(yes);
                }
            },
            Input::Other => {},
        }
        Step::Go
    }
}

/// A decision can only be on the request that was on the screen, and only while it
/// waited there.
pub proof fn only_what_is_shown_is_decided(b: Board)
    requires
        may_decide(b),
    ensures
        b.presented matches Some(p) && p.state == PermissionState::Pending && maybe(
            b.selected_request,
        ) == Some(p.id@),
{
}

// ---------------------------------------------------------------------------
// What is drawn
// ---------------------------------------------------------------------------

/// A session by its path, or by its name where it has none.
pub open spec fn session_label_of(s: SessionRecord) -> Seq<char> {
    shown(
        if s.path@.len() == 0 {
            s.agent_name@
        } else {
            s.path@
        },
    )
}

pub fn session_label(s: &SessionRecord) -> (r: String)
    ensures
        r@ == session_label_of(*s),
{
    if s.path.as_str().is_empty() {
        safe(s.agent_name.as_str())
    } else {
        safe(s.path.as_str())
    }
}

/// Whose request it is: the session's label, or its name where it is gone.
pub open spec fn request_label_of(n: Snapshot, r: PermissionRecord) -> Seq<char> {
    match session_place(n.sessions@, r.session@, 0) {
        Some(i) => session_label_of(n.sessions@[i]),
        None => shown(r.agent_name@),
    }
}

pub fn request_label(n: &Snapshot, r: &PermissionRecord) -> (t: String)
    ensures
        t@ == request_label_of(*n, *r),
{
    match find_session(&n.sessions, r.session.as_str()) {
        Some(i) => session_label(&n.sessions[i]),
        None => safe(r.agent_name.as_str()),
    }
}

/// The first column of a session's row.
pub open spec fn session_cell_of(row: RowView, s: SessionRecord, collapsed: Seq<Seq<char>>) -> Seq<
    char,
> {
    row.prefix + (if row.branch {
        if collapsed.contains(s.id@) {
            "[+] "@
        } else {
            "[-] "@
        }
    } else {
        ""@
    }) + shown(s.agent_name@) + " ("@ + shown(s.name@) + ")"@
}

pub fn session_cell(row: &TreeRow, s: &SessionRecord, collapsed: &Vec<String>) -> (r: String)
    ensures
        r@ == session_cell_of(row@, *s, texts(collapsed@)),
{
    let mut r = row.prefix.clone();
    r.push_str(
        if row.branch {
            if holds(collapsed, s.id.as_str()) {
                "[+] "
            } else {
                "[-] "
            }
        } else {
            ""
        },
    );
    r.push_str(safe(s.agent_name.as_str()).as_str());
    r.push_str(" (");
    r.push_str(safe(s.name.as_str()).as_str());
    r.push_str(")");
    r
}

/// How many packages a session has, in words.
pub open spec fn package_cell_of(s: SessionRecord) -> Seq<char> {
    decimal_of(s.initial_packages@.len()) + " startup / "@ + decimal_of(s.packages@.len())
        + " granted"@
}

pub fn package_cell(s: &SessionRecord) -> (r: String)
    ensures
        r@ == package_cell_of(*s),
{
    let mut r = decimal(s.initial_packages.len() as u64);
    r.push_str(" startup / ");
    r.push_str(decimal(s.packages.len() as u64).as_str());
    r.push_str(" granted");
    r
}

/// The title above the packages of a session.
pub open spec fn package_title_of(focus: Focus, s: Option<SessionRecord>) -> Seq<char> {
    " Packages"@ + (if focus == Focus::Sandboxes {
        " [focused]"@
    } else {
        ""@
    }) + " \u{b7} "@ + (match s {
        Some(s) => session_label_of(s) + " ("@ + shown(s.name@) + ")"@,
        None => ""@,
    }) + " "@
}

pub fn package_title(focus: Focus, s: Option<&SessionRecord>) -> (r: String)
    ensures
        r@ == package_title_of(
            focus,
            match s {
                Some(s) => Some(*s),
                None => None,
            },
        ),
{
    let mut r = String::from_str(" Packages");
    r.push_str(
        if focus == Focus::Sandboxes {
            " [focused]"
        } else {
            ""
        },
    );
    r.push_str(" \u{b7} ");
    let mut name = String::from_str("");
    if let Some(s) = s {
        name = session_label(s);
        name.push_str(" (");
        name.push_str(safe(s.name.as_str()).as_str());
        name.push_str(")");
    }
    r.push_str(name.as_str());
    r.push_str(" ");
    r
}

/// What is known beforehand of what a request asks for. A description of a Docker
/// scope says nothing of a store, a download or a build.
pub open spec fn preview_of(p: Option<PreviewShown>) -> Seq<char> {
    match p {
        None => "Checking..."@,
        Some(PreviewShown::Failed(e)) => "Unknown: "@ + e@,
        Some(PreviewShown::Description(_)) => estimate_of(false, None, false),
        Some(PreviewShown::Package(v)) => estimate_of(
            v.in_store,
            maybe(v.download),
            v.build_required,
        ),
    }
}

pub open spec fn estimate_of(in_store: bool, download: Option<Seq<char>>, build: bool) -> Seq<
    char,
> {
    "Host store: "@ + (if in_store {
        "available"@
    } else {
        "missing"@
    }) + " \u{b7} Download: "@ + (match download {
        Some(d) => d,
        None => "Unknown"@,
    }) + " \u{b7} Build: "@ + (if build {
        "required (total cost unknown)"@
    } else {
        "not required"@
    })
}

fn estimate(in_store: bool, download: &Option<String>, build: bool) -> (r: String)
    ensures
        r@ == estimate_of(in_store, maybe(*download), build),
{
    let mut r = String::from_str("Host store: ");
    r.push_str(
        if in_store {
            "available"
        } else {
            "missing"
        },
    );
    r.push_str(" \u{b7} Download: ");
    match download {
        Some(d) => r.push_str(d.as_str()),
        None => r.push_str("Unknown"),
    }
    r.push_str(" \u{b7} Build: ");
    r.push_str(
        if build {
            "required (total cost unknown)"
        } else {
            "not required"
        },
    );
    r
}

fn preview_text(p: &Option<PreviewShown>) -> (r: String)
    ensures
        r@ == preview_of(*p),
{
    match p {
        None => String::from_str("Checking..."),
        Some(PreviewShown::Failed(e)) => {
            let mut r = String::from_str("Unknown: ");
            r.push_str(e.as_str());
            r
        },
        Some(PreviewShown::Description(_)) => estimate(false, &None, false),
        Some(PreviewShown::Package(v)) => estimate(v.in_store, &v.download, v.build_required),
    }
}

/// What the host reads before it decides.
pub open spec fn request_text_of(n: Snapshot, p: PermissionRecord) -> Seq<char> {
    "Sandbox: "@ + request_label_of(n, p) + "\nPackage: "@ + shown(p.package@) + "\n"@ + shown(
        preview_of(p.preview),
    ) + "\nReason: "@ + shown(p.reason@) + "\nStatus: "@ + shown(p.state.text()) + (
    match p.message {
        Some(m) => " \u{b7} "@ + shown(m@),
        None => ""@,
    })
}

pub fn request_text(n: &Snapshot, p: &PermissionRecord) -> (r: String)
    ensures
        r@ == request_text_of(*n, *p),
{
    let mut r = String::from_str("Sandbox: ");
    r.push_str(request_label(n, p).as_str());
    r.push_str("\nPackage: ");
    r.push_str(safe(p.package.as_str()).as_str());
    r.push_str("\n");
    r.push_str(safe(preview_text(&p.preview).as_str()).as_str());
    r.push_str("\nReason: ");
    r.push_str(safe(p.reason.as_str()).as_str());
    r.push_str("\nStatus: ");
    r.push_str(safe(p.state.name()).as_str());
    let mut more = String::from_str("");
    if let Some(m) = &p.message {
        more = String::from_str(" \u{b7} ");
        more.push_str(safe(m.as_str()).as_str());
    }
    r.push_str(more.as_str());
    r
}

/// The list of requests shows at most four of them within its frame, and takes no room
/// where there is none.
pub open spec fn is_heights(r: (u16, u16), has_request: bool, popup: bool, requests: int) -> bool {
    &&& r.0 == if !has_request {
        0
    } else if requests < 1 {
        3
    } else if requests > 4 {
        6
    } else {
        requests + 2
    }
    &&& r.1 == if has_request && popup {
        11int
    } else {
        0
    }
}

/// The heights of the list of requests and of the request itself.
pub fn heights(has_request: bool, popup: bool, requests: usize) -> (r: (u16, u16))
    ensures
        is_heights(r, has_request, popup, requests as int),
{
    let list: u16 = if !has_request {
        0
    } else if requests < 1 {
        3
    } else if requests > 4 {
        6
    } else {
        requests as u16 + 2
    };
    let open: u16 = if has_request && popup {
        11
    } else {
        0
    };
    (list, open)
}

// ---------------------------------------------------------------------------
// What a person sees and does
// ---------------------------------------------------------------------------

proof fn lemma_request_at(p: Seq<PermissionRecord>, id: Seq<char>, from: int)
    requires
        0 <= from <= p.len(),
    ensures
        match request_at(p, id, from) {
            Some(i) => from <= i < p.len() && p[i].id@ == id && forall|j: int|
                from <= j < i ==> (#[trigger] p[j]).id@ != id,
            None => forall|j: int| from <= j < p.len() ==> (#[trigger] p[j]).id@ != id,
        },
    decreases p.len() - from,
{
    if from < p.len() && p[from].id@ != id {
        lemma_request_at(p, id, from + 1);
    }
}

proof fn lemma_row_at(s: Seq<SessionRecord>, rows: Seq<RowView>, id: Seq<char>, from: int)
    requires
        0 <= from <= rows.len(),
    ensures
        match row_at(s, rows, id, from) {
            Some(k) => from <= k < rows.len() && s[rows[k].place].id@ == id,
            None => forall|j: int|
                from <= j < rows.len() ==> s[(#[trigger] rows[j]).place].id@ != id,
        },
    decreases rows.len() - from,
{
    if from < rows.len() && s[rows[from].place].id@ != id {
        lemma_row_at(s, rows, id, from + 1);
    }
}

proof fn lemma_pending_at(p: Seq<PermissionRecord>, from: int)
    requires
        0 <= from <= p.len(),
    ensures
        match pending_at(p, from) {
            Some(i) => from <= i < p.len() && p[i].state == PermissionState::Pending && forall|j: int|
                from <= j < i ==> (#[trigger] p[j]).state != PermissionState::Pending,
            None => forall|j: int|
                from <= j < p.len() ==> (#[trigger] p[j]).state != PermissionState::Pending,
        },
    decreases p.len() - from,
{
    if from < p.len() && p[from].state != PermissionState::Pending {
        lemma_pending_at(p, from + 1);
    }
}

/// What a person selected stays selected however the lists change: the same session and the
/// same request, wherever they stand now.
pub proof fn a_selection_stays_with_what_was_selected(b: Board, c: Board, n: Snapshot, i: int)
    requires
        synced(b, c, n),
    ensures
        b.selected_session matches Some(id) ==> maybe(c.selected_session) == Some(id@),
        b.selected_request matches Some(id) ==> maybe(c.selected_request) == Some(id@),
        c.requests matches Some(k) ==> k < n.permissions@.len() && maybe(c.selected_request)
            == Some(n.permissions@[k as int].id@),
        (0 <= i < n.permissions@.len() && maybe(c.selected_request) == Some(
            n.permissions@[i].id@,
        )) ==> c.requests is Some,
        c.sessions matches Some(k) ==> k < rows_shown(b, n).len() && maybe(c.selected_session)
            == Some(n.sessions@[rows_shown(b, n)[k as int].place].id@),
        (0 <= i < rows_shown(b, n).len() && maybe(c.selected_session) == Some(
            n.sessions@[rows_shown(b, n)[i].place].id@,
        )) ==> c.sessions is Some,
        c.focus == b.focus && c.details == b.details && c.yes == b.yes && c.presented
            == b.presented,
{
    if let Some(id) = chosen_request(b, n) {
        lemma_request_at(n.permissions@, id, 0);
    }
    if let Some(id) = chosen_session(b, n) {
        lemma_row_at(n.sessions@, rows_shown(b, n), id, 0);
    }
}

/// Where nothing was selected, the first request that waits is, and else the newest one.
pub proof fn the_first_waiting_request_is_selected(b: Board, c: Board, n: Snapshot, i: int)
    requires
        synced(b, c, n),
        b.selected_request is None,
        0 <= i < n.permissions@.len(),
    ensures
        (n.permissions@[i].state == PermissionState::Pending && forall|j: int|
            0 <= j < i ==> (#[trigger] n.permissions@[j]).state != PermissionState::Pending)
            ==> maybe(c.selected_request) == Some(n.permissions@[i].id@),
        (forall|j: int|
            0 <= j < n.permissions@.len() ==> (#[trigger] n.permissions@[j]).state
                != PermissionState::Pending) ==> maybe(c.selected_request) == Some(
            n.permissions@.last().id@,
        ),
{
    lemma_pending_at(n.permissions@, 0);
}

/// A key moves the selection by one, and not past the ends.
pub proof fn a_key_moves_by_one(b: Board, c: Board, n: Snapshot)
    requires
        b.focus == Focus::Requests,
        n.permissions@.len() > 0,
        b.requests matches Some(k) && k < n.permissions@.len(),
    ensures
        moved_board(b, c, 1, n) ==> (c.requests matches Some(k) && k == if (b.requests->0) + 1
            < n.permissions@.len() {
            (b.requests->0) + 1
        } else {
            (b.requests->0) as int
        } && maybe(c.selected_request) == Some(n.permissions@[k as int].id@)),
        moved_board(b, c, -1, n) ==> (c.requests matches Some(k) && k == if b.requests->0 > 0 {
            (b.requests->0) - 1
        } else {
            0
        } && maybe(c.selected_request) == Some(n.permissions@[k as int].id@)),
{
}

/// The keys say what is decided: yes approves, no refuses, and the return key does what is
/// marked, of a request that is open.
pub proof fn keys_decide_what_they_say(b: Board, c: Board, n: Snapshot, step: Step)
    ensures
        reacts(b, c, Input::Yes, n, step) ==> step == Step::Decide(true) && c == b,
        reacts(b, c, Input::No, n, step) ==> step == Step::Decide(false) && c == b,
        (reacts(b, c, Input::Enter, n, step) && b.focus == Focus::Requests && b.popup_open)
            ==> step == Step::Decide(b.yes),
        (reacts(b, c, Input::Enter, n, step) && b.focus == Focus::Requests && !b.popup_open)
            ==> step == Step::Go && c.popup_open && !c.yes,
        (reacts(b, c, Input::Enter, n, step) && b.focus == Focus::Sandboxes) ==> step == Step::Go
            && c.details == !b.details,
        (reacts(b, c, Input::Right, n, step) && b.focus == Focus::Requests) ==> c.yes && step
            == Step::Go,
        (reacts(b, c, Input::Left, n, step) && b.focus == Focus::Requests) ==> !c.yes && step
            == Step::Go,
        reacts(b, c, Input::Quit, n, step) ==> step == Step::Quit,
        reacts(b, c, Input::Tab, n, step) ==> c.focus != b.focus && !c.yes && step == Step::Go,
{
}

/// What was folded is unfolded by the same key's other, and nothing else is.
pub proof fn unfolding_undoes_folding(list: Seq<Seq<char>>, id: Seq<char>, other: Seq<char>)
    ensures
        without(list, id).contains(other) <==> list.contains(other) && other != id,
        !list.contains(id) ==> without(list.push(id), id) == list,
    decreases list.len(),
{
    if list.len() > 0 {
        let most = list.drop_last();
        unfolding_undoes_folding(most, id, other);
        let left = without(most, id);
        let all = without(list, id);
        if list.contains(other) && other != id {
            let k = choose|k: int| 0 <= k < list.len() && list[k] == other;
            if k < most.len() {
                assert(most[k] == other);
                let j = choose|j: int| 0 <= j < left.len() && left[j] == other;
                assert(all[j] == other);
            } else {
                assert(all[all.len() - 1] == other);
            }
        }
        if all.contains(other) {
            let k = choose|k: int| 0 <= k < all.len() && all[k] == other;
            if k < left.len() {
                assert(left[k] == other);
                assert(left.contains(other));
                let j = choose|j: int| 0 <= j < most.len() && most[j] == other;
                assert(list[j] == other);
            } else {
                assert(list[list.len() - 1] == other);
            }
        }
    }
    if !list.contains(id) {
        lemma_without_none(list, id);
        assert(list.push(id).drop_last() =~= list);
    }
}

proof fn lemma_without_none(list: Seq<Seq<char>>, id: Seq<char>)
    requires
        !list.contains(id),
    ensures
        without(list, id) == list,
    decreases list.len(),
{
    if list.len() > 0 {
        let most = list.drop_last();
        assert(!most.contains(id)) by {
            if most.contains(id) {
                let k = choose|k: int| 0 <= k < most.len() && most[k] == id;
                assert(list[k] == id);
            }
        }
        assert(list[list.len() - 1] != id);
        lemma_without_none(most, id);
        assert(most.push(list.last()) =~= list);
    }
}

/// A session is found by its id.
pub proof fn a_listed_session_is_found(s: Seq<SessionRecord>, id: Seq<char>, from: int)
    requires
        0 <= from,
    ensures
        match session_place(s, id, from) {
            Some(i) => {
                &&& from <= i < s.len()
                &&& s[i].id@ == id
                &&& forall|j: int| from <= j < i ==> !((#[trigger] s[j]).id@ == id)
            },
            None => forall|j: int|
                from <= j < s.len() ==> !((#[trigger] s[j]).id@ == id),
        },
    decreases s.len() - from,
{
    if from < s.len() {
        a_listed_session_is_found(s, id, from + 1);
    }
}

/// A request is found by its id.
pub proof fn a_listed_request_is_found(p: Seq<PermissionRecord>, id: Seq<char>, from: int)
    requires
        0 <= from,
    ensures
        match request_at(p, id, from) {
            Some(i) => {
                &&& from <= i < p.len()
                &&& p[i].id@ == id
                &&& forall|j: int| from <= j < i ==> !((#[trigger] p[j]).id@ == id)
            },
            None => forall|j: int|
                from <= j < p.len() ==> !((#[trigger] p[j]).id@ == id),
        },
    decreases p.len() - from,
{
    if from < p.len() {
        a_listed_request_is_found(p, id, from + 1);
    }
}

/// A move stays on the list, and goes as far as was asked for where the list goes on.
pub proof fn a_move_stays_on_the_list(i: int, delta: int, count: nat)
    ensures
        count > 0 ==> 0 <= moved(i, delta, count) < count,
        0 <= i + delta < count ==> moved(i, delta, count) == i + delta,
        count > 0 && i + delta < 0 ==> moved(i, delta, count) == 0,
        count > 0 && i + delta >= count ==> moved(i, delta, count) == count - 1,
        count == 0 ==> moved(i, delta, count) == 0,
{
}

/// A selection that was made is kept; where none was made, the first session and the first request
/// that waits are selected.
pub proof fn what_was_selected_counts(b: Board, n: Snapshot, i: int)
    ensures
        b.selected_session matches Some(id) ==> chosen_session(b, n) == Some(id@),
        b.selected_request matches Some(id) ==> chosen_request(b, n) == Some(id@),
        b.selected_request is None && 0 <= i < n.permissions@.len() && n.permissions@[i].state
            == PermissionState::Pending && (forall|j: int|
            0 <= j < i ==> (#[trigger] n.permissions@[j]).state != PermissionState::Pending)
            ==> chosen_request(b, n) == Some(n.permissions@[i].id@),
{
    if b.selected_request is None && 0 <= i < n.permissions@.len() && n.permissions@[i].state
        == PermissionState::Pending && (forall|j: int|
        0 <= j < i ==> (#[trigger] n.permissions@[j]).state != PermissionState::Pending) {
        lemma_first_waiting(n.permissions@, 0, i);
    }
}

proof fn lemma_first_waiting(p: Seq<PermissionRecord>, from: int, i: int)
    requires
        0 <= from <= i < p.len(),
        p[i].state == PermissionState::Pending,
        forall|j: int| from <= j < i ==> (#[trigger] p[j]).state != PermissionState::Pending,
    ensures
        pending_at(p, from) == Some(i),
    decreases i - from,
{
    if from < i {
        lemma_first_waiting(p, from + 1, i);
    }
}

} // verus!
