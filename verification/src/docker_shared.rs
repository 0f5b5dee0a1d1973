//! Container scopes that sessions share: who uses one, what its members put into it, and
//! when its engine ends.
use vstd::prelude::*;

use crate::arguments::put_range;
use crate::paths::{components_of, equal, join, joined, overlap, overlaps, same_path, under};
use crate::text::{same, texts};

verus! {

/// Something that a member shares: the object, where it stands, and whether it is only
/// read.
pub struct Grant {
    pub device: u64,
    pub inode: u64,
    pub destination: String,
    pub readonly: bool,
}

impl Grant {
    pub fn copy(&self) -> (r: Grant)
        ensures
            r == *self,
    {
        Grant {
            device: self.device,
            inode: self.inode,
            destination: self.destination.clone(),
            readonly: self.readonly,
        }
    }
}

/// A scope. History keeps no engine alive: it runs while it has users.
pub struct Shared {
    pub name: Option<String>,
    pub directory: String,
    pub online: bool,
    pub engine: bool,
    pub users: u64,
    pub grants: Vec<Grant>,
    /// Where the store of the first user stands.
    pub store: Option<String>,
}

pub open spec fn same_object(a: Grant, b: Grant) -> bool {
    a.device == b.device && a.inode == b.inode && a.readonly == b.readonly
}

/// Where the first grant of a place stands.
pub open spec fn first_at(v: Seq<Grant>, place: Seq<char>) -> Option<int>
    decreases v.len(),
{
    if v.len() == 0 {
        None
    } else if same_path(v[0].destination@, place) {
        Some(0)
    } else {
        match first_at(v.drop_first(), place) {
            Some(i) => Some(i + 1),
            None => None,
        }
    }
}

pub open spec fn conflict_at(place: Seq<char>) -> Seq<char> {
    "Docker scope mount conflict at "@ + place
        + ": one engine cannot give members different sources or access modes at the same path"@
}

pub open spec fn overlap_between(place: Seq<char>, other: Seq<char>) -> Seq<char> {
    "Docker scope has overlapping grants at "@ + place + " and "@ + other
}

/// Why a grant does not go together with one that stands, if so.
pub open spec fn clash(g: Grant, standing: Grant) -> Option<Seq<char>> {
    if same_path(g.destination@, standing.destination@) {
        if same_object(g, standing) {
            None
        } else {
            Some(conflict_at(g.destination@))
        }
    } else if overlap(g.destination@, standing.destination@) {
        Some(overlap_between(g.destination@, standing.destination@))
    } else {
        None
    }
}

/// The first of some standing grants that another does not go together with.
pub open spec fn first_clash(g: Grant, standing: Seq<Grant>) -> Option<Seq<char>>
    decreases standing.len(),
{
    if standing.len() == 0 {
        None
    } else {
        match clash(g, standing[0]) {
            Some(e) => Some(e),
            None => first_clash(g, standing.drop_first()),
        }
    }
}

/// Why a grant is refused, if so. What stands already as it is asked for is no matter.
pub open spec fn refused(g: Grant, standing: Seq<Grant>) -> Option<Seq<char>> {
    match first_at(standing, g.destination@) {
        Some(i) => if same_object(g, standing[i]) {
            None
        } else {
            first_clash(g, standing)
        },
        None => first_clash(g, standing),
    }
}

/// The first of some grants that is refused.
pub open spec fn first_refused(grants: Seq<Grant>, standing: Seq<Grant>) -> Option<Seq<char>>
    decreases grants.len(),
{
    if grants.len() == 0 {
        None
    } else {
        match refused(grants[0], standing) {
            Some(e) => Some(e),
            None => first_refused(grants.drop_first(), standing),
        }
    }
}

fn position(v: &Vec<Grant>, place: &str) -> (r: Option<usize>)
    ensures
        match first_at(v@, place@) {
            Some(i) => r matches Some(k) && k == i && k < v@.len(),
            None => r is None,
        },
{
    let mut k: usize = 0;
    assert(v@.skip(0) =~= v@);
    while k < v.len()
        invariant
            k <= v@.len(),
            first_at(v@, place@) == match first_at(v@.skip(k as int), place@) {
                Some(i) => Some(i + k),
                None => None,
            },
        decreases v@.len() - k,
    {
        if equal(&v[k].destination, place) {
            return Some(k);
        }
        assert(v@.skip(k as int).drop_first() =~= v@.skip(k + 1));
        k += 1;
    }
    None
}

fn alike(a: &Grant, b: &Grant) -> (r: bool)
    ensures
        r == same_object(*a, *b),
{
    a.device == b.device && a.inode == b.inode && a.readonly == b.readonly
}

fn check_pair(g: &Grant, standing: &Grant) -> (r: Result<(), String>)
    ensures
        match clash(*g, *standing) {
            Some(text) => r matches Err(e) && e@ == text,
            None => r is Ok,
        },
{
    if equal(&g.destination, &standing.destination) {
        if !alike(g, standing) {
            let mut e = String::from_str("Docker scope mount conflict at ");
            e.push_str(&g.destination);
            e.push_str(
                ": one engine cannot give members different sources or access modes at the same path",
            );
            return Err(e);
        }
    } else if overlaps(&g.destination, &standing.destination) {
        let mut e = String::from_str("Docker scope has overlapping grants at ");
        e.push_str(&g.destination);
        e.push_str(" and ");
        e.push_str(&standing.destination);
        return Err(e);
    }
    Ok(())
}

fn check_one(g: &Grant, standing: &Vec<Grant>) -> (r: Result<(), String>)
    ensures
        match refused(*g, standing@) {
            Some(text) => r matches Err(e) && e@ == text,
            None => r is Ok,
        },
{
    match position(standing, &g.destination) {
        Some(k) => {
            if alike(g, &standing[k]) {
                return Ok(());
            }
        },
        None => {},
    }
    let mut k: usize = 0;
    assert(standing@.skip(0) =~= standing@);
    while k < standing.len()
        invariant
            k <= standing@.len(),
            refused(*g, standing@) == first_clash(*g, standing@),
            first_clash(*g, standing@.skip(k as int)) == first_clash(*g, standing@),
        decreases standing@.len() - k,
    {
        match check_pair(g, &standing[k]) {
            Err(e) => {
                return Err(e);
            },
            Ok(_) => {},
        }
        assert(standing@.skip(k as int).drop_first() =~= standing@.skip(k + 1));
        k += 1;
    }
    Ok(())
}

/// How many arguments belong to one of what a file system is made of.
pub open spec fn span_of(flag: Seq<char>) -> int {
    if flag == "--setenv"@ || flag == "--symlink"@ || flag == "--bind-fd"@ || flag
        == "--ro-bind-fd"@ || flag == "--bind"@ || flag == "--ro-bind"@ {
        3
    } else {
        2
    }
}

/// What a session keeps to itself: its socket, its packages and the client.
pub open spec fn is_private(flag: Seq<char>, place: Seq<char>) -> bool {
    (flag == "--bind"@ || flag == "--ro-bind"@) && (place == "/run/goblins/request.sock"@ || place
        == "/run/goblins/packages"@ || place == "/run/goblins/bin"@)
}

/// What of a session's file system an engine sees, or nothing where the list breaks off.
pub open spec fn shared_view(args: Seq<Seq<char>>) -> Option<Seq<Seq<char>>>
    decreases args.len(),
{
    if args.len() == 0 {
        Some(Seq::empty())
    } else {
        let n = span_of(args[0]);
        if n > args.len() {
            None
        } else {
            match shared_view(args.skip(n)) {
                None => None,
                Some(rest) => if n == 3 && is_private(args[0], args[2]) {
                    Some(rest)
                } else {
                    Some(args.take(n) + rest)
                },
            }
        }
    }
}

fn span_length(flag: &str) -> (r: usize)
    ensures
        r == span_of(flag@),
{
    if same(flag, "--setenv") || same(flag, "--symlink") || same(flag, "--bind-fd") || same(
        flag,
        "--ro-bind-fd",
    ) || same(flag, "--bind") || same(flag, "--ro-bind") {
        3
    } else {
        2
    }
}

fn private(flag: &str, place: &str) -> (r: bool)
    ensures
        r == is_private(flag@, place@),
{
    (same(flag, "--bind") || same(flag, "--ro-bind")) && (same(place, "/run/goblins/request.sock")
        || same(place, "/run/goblins/packages") || same(place, "/run/goblins/bin"))
}

/// What of a session's file system its engine sees: the session's socket, packages and
/// client do not enter it.
pub fn engine_view(filesystem: &Vec<String>) -> (r: Result<Vec<String>, String>)
    ensures
        match shared_view(texts(filesystem@)) {
            Some(v) => r matches Ok(s) && texts(s@) == v,
            None => r matches Err(e) && e@ == "invalid engine filesystem plan"@,
        },
{
    let mut r: Vec<String> = Vec::new();
    let ghost all = texts(filesystem@);
    let mut i: usize = 0;
    assert(all.skip(0) =~= all);
    assert(texts(r@) =~= Seq::empty());
    assert(forall|s: Seq<Seq<char>>| #[trigger] (texts(r@) + s) =~= s);
    while i < filesystem.len()
        invariant
            i <= filesystem@.len(),
            all == texts(filesystem@),
            shared_view(all) == match shared_view(all.skip(i as int)) {
                Some(rest) => Some(texts(r@) + rest),
                None => None,
            },
        decreases filesystem@.len() - i,
    {
        let ghost rest = all.skip(i as int);
        assert(rest[0] == filesystem@[i as int]@);
        let n = span_length(&filesystem[i]);
        if n > filesystem.len() - i {
            return Err(String::from_str("invalid engine filesystem plan"));
        }
        if n == 3 {
            assert(rest[2] == filesystem@[i + 2]@);
        }
        let hidden = n == 3 && private(&filesystem[i], &filesystem[i + 2]);
        let ghost before = texts(r@);
        if !hidden {
            put_range(&mut r, filesystem, i, i + n);
            assert(all.subrange(i as int, i + n) =~= rest.take(n as int));
        }
        assert(rest.skip(n as int) =~= all.skip(i + n));
        assert(match shared_view(all.skip(i + n)) {
            Some(t) => before + (rest.take(n as int) + t) =~= before + rest.take(n as int) + t,
            None => true,
        });
        i += n;
    }
    assert(all.skip(i as int) =~= Seq::empty());
    assert(texts(r@) + Seq::<Seq<char>>::empty() =~= texts(r@));
    Ok(r)
}

/// Grants with those of others added that stand at new places.
pub open spec fn joined_grants(standing: Seq<Grant>, more: Seq<Grant>) -> Seq<Grant>
    decreases more.len(),
{
    if more.len() == 0 {
        standing
    } else if first_at(standing, more[0].destination@) is Some {
        joined_grants(standing, more.drop_first())
    } else {
        joined_grants(standing.push(more[0]), more.drop_first())
    }
}

impl Shared {
    /// A scope that nobody uses yet.
    pub fn new(name: Option<String>, directory: String, online: bool) -> (r: Shared)
        ensures
            r.name == name,
            r.directory == directory,
            r.online == online,
            !r.engine,
            r.users == 0,
            r.grants@.len() == 0,
            r.store is None,
    {
        Shared {
            name,
            directory,
            online,
            engine: false,
            users: 0,
            grants: Vec::new(),
            store: None,
        }
    }

    /// A session goes with a scope of the same kind of network.
    pub fn compatible(&self, online: bool) -> (r: Result<(), String>)
        ensures
            if self.online == online {
                r is Ok
            } else {
                r matches Err(e) && e@
                    == "Docker scope has a different network policy (online/offline)"@
            },
    {
        if self.online != online {
            return Err(
                String::from_str("Docker scope has a different network policy (online/offline)"),
            );
        }
        Ok(())
    }

    /// Whether the scope goes on, by whether its namespaces and its engine do.
    pub fn alive(&self, namespaces: bool, engine: bool) -> (r: bool)
        ensures
            r == (namespaces && (!self.engine || engine)),
    {
        namespaces && (!self.engine || engine)
    }

    /// The socket of the engine.
    pub fn socket(&self) -> (r: String)
        ensures
            r@ == joined(self.directory@, "docker-socket/docker.sock"@),
    {
        join(&self.directory, "docker-socket/docker.sock")
    }

    /// Whether a session can come to use the scope with what it shares. Nothing is
    /// changed before everything was looked at.
    pub fn check(&self, online: bool, grants: &Vec<Grant>) -> (r: Result<(), String>)
        ensures
            if self.online != online {
                r matches Err(e) && e@
                    == "Docker scope has a different network policy (online/offline)"@
            } else {
                match first_refused(grants@, self.grants@) {
                    Some(text) => r matches Err(e) && e@ == text,
                    None => r is Ok,
                }
            },
    {
        self.compatible(online)?;
        let mut k: usize = 0;
        assert(grants@.skip(0) =~= grants@);
        while k < grants.len()
            invariant
                k <= grants@.len(),
                self.online == online,
                first_refused(grants@.skip(k as int), self.grants@) == first_refused(
                    grants@,
                    self.grants@,
                ),
            decreases grants@.len() - k,
        {
            match check_one(&grants[k], &self.grants) {
                Err(e) => {
                    return Err(e);
                },
                Ok(_) => {},
            }
            assert(grants@.skip(k as int).drop_first() =~= grants@.skip(k + 1));
            k += 1;
        }
        Ok(())
    }

    /// Whether what a session shares has to be put into the engine that runs: what stands
    /// at its place already is not put there again.
    pub fn adds(&self, grant: &Grant) -> (r: bool)
        ensures
            r == (first_at(self.grants@, grant.destination@) is None),
    {
        position(&self.grants, &grant.destination).is_none()
    }

    /// Sets down that something was put into the engine.
    pub fn added(&mut self, grant: Grant)
        ensures
            *final(self) == (Shared { grants: final(self).grants, ..*old(self) }),
            final(self).grants@ == old(self).grants@.push(grant),
    {
        self.grants.push(grant);
    }

    /// A session uses the scope from now on. Its store is that of the engine where it is
    /// the one that started it.
    pub fn acquire(&mut self, grants: Vec<Grant>, store: String)
        requires
            old(self).users < u64::MAX,
        ensures
            *final(self) == (Shared {
                engine: true,
                users: (old(self).users + 1) as u64,
                grants: final(self).grants,
                store: if old(self).engine {
                    old(self).store
                } else {
                    Some(store)
                },
                ..*old(self)
            }),
            final(self).grants@ == joined_grants(old(self).grants@, grants@),
    {
        if !self.engine {
            self.engine = true;
            self.store = Some(store);
        }
        let mut rest = grants;
        let ghost all = grants@;
        let ghost start = self.grants@;
        assert(all.skip(0) =~= all);
        let ghost mut k: int = 0;
        while rest.len() > 0
            invariant
                0 <= k <= all.len(),
                rest@ == all.skip(k),
                joined_grants(self.grants@, all.skip(k)) == joined_grants(start, all),
                *self == (Shared {
                    engine: true,
                    grants: self.grants,
                    store: if old(self).engine {
                        old(self).store
                    } else {
                        Some(store)
                    },
                    ..*old(self)
                }),
            decreases rest@.len(),
        {
            let grant = rest.remove(0);
            assert(grant == all[k]);
            assert(rest@ =~= all.skip(k + 1));
            assert(all.skip(k).drop_first() =~= all.skip(k + 1));
            if self.adds(&grant) {
                self.grants.push(grant);
            }
            proof {
                k = k + 1;
            }
        }
        self.users = self.users + 1;
    }

    /// A session uses the scope no more. With the last one the engine ends, and what it
    /// was shared is forgotten. Says whether it ended.
    pub fn release(&mut self) -> (last: bool)
        requires
            old(self).users > 0,
        ensures
            last == (old(self).users == 1),
            if last {
                *final(self) == (Shared {
                    users: 0,
                    engine: false,
                    grants: final(self).grants,
                    store: None,
                    ..*old(self)
                }) && final(self).grants@.len() == 0
            } else {
                *final(self) == (Shared { users: (old(self).users - 1) as u64, ..*old(self) })
            },
    {
        self.users = self.users - 1;
        if self.users == 0 {
            self.engine = false;
            self.grants = Vec::new();
            self.store = None;
            true
        } else {
            false
        }
    }
}

/// Where a scope of a name belongs: to the daemon whose state is protected last, else to the
/// session.
pub fn realm(protected: &Vec<String>, directory: &str) -> (r: String)
    ensures
        r@ == if protected@.len() > 0 {
            protected@.last()@
        } else {
            directory@
        },
{
    if protected.len() > 0 {
        protected[protected.len() - 1].clone()
    } else {
        String::from_str(directory)
    }
}

/// Where something is prepared that is put into the store of an engine, if it is.
pub fn store_target(store: &str, place: &str) -> (r: Option<Result<String, String>>)
    ensures
        if !crate::paths::lies_under(place@, "/nix/store"@) {
            r is None
        } else {
            match crate::paths::name_of(place@) {
                Some(name) => r matches Some(Ok(t)) && t@ == joined(store@, name),
                None => r matches Some(Err(e)) && e@ == "invalid store grant"@,
            }
        },
{
    if !under(place, "/nix/store") {
        return None;
    }
    match crate::paths::file_name(place) {
        Some(name) => Some(Ok(join(store, &name))),
        None => Some(Err(String::from_str("invalid store grant"))),
    }
}

proof fn lemma_first_at(v: Seq<Grant>, place: Seq<char>)
    ensures
        match first_at(v, place) {
            Some(i) => 0 <= i < v.len() && same_path(v[i].destination@, place),
            None => forall|i: int|
                0 <= i < v.len() ==> !same_path((#[trigger] v[i]).destination@, place),
        },
    decreases v.len(),
{
    if v.len() > 0 {
        lemma_first_at(v.drop_first(), place);
        if first_at(v, place) is None {
            assert forall|i: int| 0 <= i < v.len() implies !same_path(
                (#[trigger] v[i]).destination@,
                place,
            ) by {
                if i > 0 {
                    assert(v[i] == v.drop_first()[i - 1]);
                }
            }
        }
    }
}

proof fn lemma_first_clash(g: Grant, standing: Seq<Grant>, i: int)
    requires
        0 <= i < standing.len(),
        first_clash(g, standing) is None,
    ensures
        clash(g, standing[i]) is None,
    decreases standing.len(),
{
    if i > 0 {
        assert(standing[i] == standing.drop_first()[i - 1]);
        lemma_first_clash(g, standing.drop_first(), i - 1);
    }
}

proof fn lemma_first_refused(grants: Seq<Grant>, standing: Seq<Grant>, i: int)
    requires
        0 <= i < grants.len(),
        first_refused(grants, standing) is None,
    ensures
        refused(grants[i], standing) is None,
    decreases grants.len(),
{
    if i > 0 {
        assert(grants[i] == grants.drop_first()[i - 1]);
        lemma_first_refused(grants.drop_first(), standing, i - 1);
    }
}

/// A scope shows its members one object at a place, in one way: what a session shares is
/// what stands there, or nothing stands there.
pub proof fn members_see_one_object(grants: Seq<Grant>, standing: Seq<Grant>, i: int)
    requires
        0 <= i < grants.len(),
        first_refused(grants, standing) is None,
    ensures
        match first_at(standing, grants[i].destination@) {
            Some(k) => same_object(grants[i], standing[k]),
            None => forall|k: int|
                0 <= k < standing.len() ==> !overlap(
                    grants[i].destination@,
                    (#[trigger] standing[k]).destination@,
                ),
        },
{
    let g = grants[i];
    lemma_first_refused(grants, standing, i);
    lemma_first_at(standing, g.destination@);
    match first_at(standing, g.destination@) {
        Some(k) => {
            if !same_object(g, standing[k]) {
                lemma_first_clash(g, standing, k);
            }
        },
        None => {
            assert forall|k: int| 0 <= k < standing.len() implies !overlap(
                g.destination@,
                (#[trigger] standing[k]).destination@,
            ) by {
                lemma_first_clash(g, standing, k);
            }
        },
    }
}

/// What stands in a scope goes on standing there, in its place, while it is used.
pub proof fn shared_grants_stay(standing: Seq<Grant>, more: Seq<Grant>)
    ensures
        joined_grants(standing, more).len() >= standing.len(),
        joined_grants(standing, more).take(standing.len() as int) == standing,
    decreases more.len(),
{
    if more.len() == 0 {
        assert(standing.take(standing.len() as int) =~= standing);
    } else if first_at(standing, more[0].destination@) is Some {
        shared_grants_stay(standing, more.drop_first());
    } else {
        let next = standing.push(more[0]);
        shared_grants_stay(next, more.drop_first());
        let all = joined_grants(next, more.drop_first());
        assert(all.take(standing.len() as int) =~= all.take(next.len() as int).take(
            standing.len() as int,
        ));
        assert(next.take(standing.len() as int) =~= standing);
    }
}

/// What an engine sees holds nothing more that a session keeps to itself.
pub proof fn an_engine_sees_nothing_private(args: Seq<Seq<char>>)
    ensures
        match shared_view(args) {
            Some(v) => shared_view(v) == Some(v),
            None => true,
        },
    decreases args.len(),
{
    if args.len() > 0 && span_of(args[0]) <= args.len() {
        let n = span_of(args[0]);
        an_engine_sees_nothing_private(args.skip(n));
        match shared_view(args.skip(n)) {
            Some(rest) => {
                if !(n == 3 && is_private(args[0], args[2])) {
                    let v = args.take(n) + rest;
                    assert(v[0] == args[0]);
                    assert(n == 3 ==> v[2] == args[2]);
                    assert(v.skip(n) =~= rest);
                    assert(v.take(n) =~= args.take(n));
                }
            },
            None => {},
        }
    }
}

/// A grant is refused exactly where the engine shows another object, or the same one with
/// other rights, at its place, or something else under or above it.
pub proof fn a_grant_is_refused_where_it_clashes(g: Grant, standing: Seq<Grant>, k: int)
    requires
        forall|i: int, j: int|
            0 <= i < j < standing.len() ==> !overlap(
                (#[trigger] standing[i]).destination@,
                (#[trigger] standing[j]).destination@,
            ),
    ensures
        (forall|i: int|
            0 <= i < standing.len() ==> !overlap(
                g.destination@,
                (#[trigger] standing[i]).destination@,
            )) ==> refused(g, standing) is None,
        (0 <= k < standing.len() && same_path(g.destination@, standing[k].destination@) && g.device
            == standing[k].device && g.inode == standing[k].inode && g.readonly
            == standing[k].readonly) ==> refused(g, standing) is None,
        (0 <= k < standing.len() && same_path(g.destination@, standing[k].destination@) && (g.device
            != standing[k].device || g.inode != standing[k].inode || g.readonly
            != standing[k].readonly)) ==> refused(g, standing) is Some,
        (0 <= k < standing.len() && !same_path(g.destination@, standing[k].destination@) && overlap(
            g.destination@,
            standing[k].destination@,
        ) && first_at(standing, g.destination@) is None) ==> refused(g, standing) is Some,
{
    lemma_some_clash(g, standing);
    lemma_standing_at(standing, g.destination@);
    if 0 <= k < standing.len() && same_path(g.destination@, standing[k].destination@) {
        let i = first_at(standing, g.destination@)->0;
        assert(components_of(standing[i].destination@) == components_of(standing[k].destination@));
        let path = components_of(standing[k].destination@);
        assert(path.take(path.len() as int) =~= path);
        if i < k {
            assert(overlap(standing[i].destination@, standing[k].destination@));
        }
        assert(clash(g, standing[k]) is Some == !same_object(g, standing[k]));
    }
    if 0 <= k < standing.len() && !same_path(g.destination@, standing[k].destination@) && overlap(
        g.destination@,
        standing[k].destination@,
    ) {
        assert(clash(g, standing[k]) is Some);
    }
    if forall|i: int|
        0 <= i < standing.len() ==> !overlap(g.destination@, (#[trigger] standing[i]).destination@) {
        let path = components_of(g.destination@);
        assert(path.take(path.len() as int) =~= path);
        if first_clash(g, standing) is Some {
            let i = choose|i: int| 0 <= i < standing.len() && clash(g, #[trigger] standing[i])
                is Some;
            assert(!overlap(g.destination@, standing[i].destination@));
            assert(!same_path(g.destination@, standing[i].destination@));
        }
    }
}

proof fn lemma_some_clash(g: Grant, standing: Seq<Grant>)
    ensures
        first_clash(g, standing) is Some <==> exists|i: int|
            0 <= i < standing.len() && clash(g, #[trigger] standing[i]) is Some,
    decreases standing.len(),
{
    if standing.len() > 0 {
        let rest = standing.drop_first();
        lemma_some_clash(g, rest);
        if first_clash(g, rest) is Some {
            let i = choose|i: int| 0 <= i < rest.len() && clash(g, #[trigger] rest[i]) is Some;
            assert(clash(g, standing[i + 1]) is Some);
        }
        if exists|i: int| 0 <= i < standing.len() && clash(g, #[trigger] standing[i]) is Some {
            let i = choose|i: int|
                0 <= i < standing.len() && clash(g, #[trigger] standing[i]) is Some;
            if i > 0 {
                assert(clash(g, rest[i - 1]) is Some);
            }
        }
    }
}

proof fn lemma_standing_at(v: Seq<Grant>, place: Seq<char>)
    ensures
        match first_at(v, place) {
            Some(i) => 0 <= i < v.len() && same_path(v[i].destination@, place) && forall|j: int|
                0 <= j < i ==> !same_path((#[trigger] v[j]).destination@, place),
            None => forall|j: int|
                0 <= j < v.len() ==> !same_path((#[trigger] v[j]).destination@, place),
        },
    decreases v.len(),
{
    if v.len() > 0 && !same_path(v[0].destination@, place) {
        let rest = v.drop_first();
        lemma_standing_at(rest, place);
        assert forall|j: int|
            0 <= j < v.len() && (first_at(rest, place) matches Some(i) ==> j < i + 1) implies !same_path(
            (#[trigger] v[j]).destination@,
            place,
        ) by {
            if j > 0 {
                assert(v[j] == rest[j - 1]);
            }
        }
    }
}

/// What a member brings is shown by the engine from then on, and nothing is shown that no
/// member brought.
pub proof fn what_a_member_brings_is_shown(standing: Seq<Grant>, more: Seq<Grant>)
    ensures
        forall|i: int|
            0 <= i < more.len() ==> first_at(
                joined_grants(standing, more),
                (#[trigger] more[i]).destination@,
            ) is Some,
        forall|k: int|
            0 <= k < joined_grants(standing, more).len() ==> standing.contains(
                #[trigger] joined_grants(standing, more)[k],
            ) || more.contains(joined_grants(standing, more)[k]),
    decreases more.len(),
{
    let all = joined_grants(standing, more);
    if more.len() == 0 {
        assert forall|k: int| 0 <= k < all.len() implies standing.contains(#[trigger] all[k])
            || more.contains(all[k]) by {
            assert(standing[k] == all[k]);
        }
    } else {
        let rest = more.drop_first();
        let next = if first_at(standing, more[0].destination@) is Some {
            standing
        } else {
            standing.push(more[0])
        };
        what_a_member_brings_is_shown(next, rest);
        shared_grants_stay(next, rest);
        lemma_standing_at(next, more[0].destination@);
        lemma_standing_at(all, more[0].destination@);
        if first_at(standing, more[0].destination@) is None {
            lemma_standing_at(standing, more[0].destination@);
            assert(next[standing.len() as int] == more[0]);
            assert(same_path(next[standing.len() as int].destination@, more[0].destination@));
        }
        let j = first_at(next, more[0].destination@)->0;
        assert(all.take(next.len() as int)[j] == all[j]);
        assert(same_path(all[j].destination@, more[0].destination@));
        assert forall|i: int| 0 <= i < more.len() implies first_at(
            all,
            (#[trigger] more[i]).destination@,
        ) is Some by {
            if i > 0 {
                assert(rest[i - 1] == more[i]);
            }
        }
        assert forall|k: int| 0 <= k < all.len() implies standing.contains(#[trigger] all[k])
            || more.contains(all[k]) by {
            if rest.contains(all[k]) {
                let n = choose|n: int| 0 <= n < rest.len() && rest[n] == all[k];
                assert(more[n + 1] == all[k]);
            } else {
                assert(next.contains(all[k]));
                let n = choose|n: int| 0 <= n < next.len() && next[n] == all[k];
                if n < standing.len() {
                    assert(standing[n] == all[k]);
                } else {
                    assert(more[0] == all[k]);
                }
            }
        }
    }
}

/// An engine is shown what a session is, but for the socket that the session asks by, its
/// packages and the client.
pub proof fn an_engine_is_shown_the_rest(
    flag: Seq<char>,
    source: Seq<char>,
    place: Seq<char>,
    rest: Seq<Seq<char>>,
)
    requires
        flag == "--ro-bind"@ || flag == "--bind"@,
        shared_view(rest) is Some,
    ensures
        shared_view(seq![flag, source, place] + rest) == Some(
            if place == "/run/goblins/request.sock"@ || place == "/run/goblins/packages"@ || place
                == "/run/goblins/bin"@ {
                shared_view(rest)->0
            } else {
                seq![flag, source, place] + shared_view(rest)->0
            },
        ),
{
    let args = seq![flag, source, place] + rest;
    assert(args.skip(3) =~= rest);
    assert(args.take(3) =~= seq![flag, source, place]);
}

} // verus!
