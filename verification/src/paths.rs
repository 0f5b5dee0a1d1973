//! Paths as texts: their steps, what lies below what, and the order in which they
//! are walked.
use vstd::prelude::*;

use crate::text::{
    a_part_ends_at_its_mark, chars, parts_are_put_together, parts_of, same, span, split, texts,
};

verus! {

pub open spec fn is_absolute(s: Seq<char>) -> bool {
    s.len() > 0 && s[0] == '/'
}

/// The parts of a path that lead somewhere.
pub open spec fn steps(parts: Seq<Seq<char>>) -> Seq<Seq<char>>
    decreases parts.len(),
{
    if parts.len() == 0 {
        Seq::empty()
    } else {
        let most = steps(parts.drop_last());
        if leads(parts.last()) {
            most.push(parts.last())
        } else {
            most
        }
    }
}

/// Whether a part of a path leads somewhere.
pub open spec fn leads(part: Seq<char>) -> bool {
    part.len() > 0 && part != "."@
}

/// What a path is made of: the root, where it begins there, a `.` that it begins with,
/// and its steps.
pub open spec fn components_of(s: Seq<char>) -> Seq<Seq<char>> {
    let parts = parts_of(s, '/');
    if is_absolute(s) {
        seq!["/"@] + steps(parts)
    } else if parts[0] == "."@ {
        seq!["."@] + steps(parts)
    } else {
        steps(parts)
    }
}

/// What a path is made of.
pub fn components(s: &str) -> (r: Vec<String>)
    ensures
        texts(r@) == components_of(s@),
{
    let parts = split(s, '/');
    let c = chars(s);
    let mut r: Vec<String> = Vec::new();
    if c.len() > 0 && c[0] == '/' {
        r.push(String::from_str("/"));
    } else if same(&parts[0], ".") {
        r.push(String::from_str("."));
    }
    let ghost first = texts(r@);
    assert(texts(parts@)[0] == parts@[0]@);
    assert(first =~= if is_absolute(s@) {
        seq!["/"@]
    } else if parts@[0]@ == "."@ {
        seq!["."@]
    } else {
        Seq::empty()
    });
    let mut k: usize = 0;
    assert(texts(parts@).take(0) =~= Seq::empty());
    assert(texts(r@) =~= first + steps(texts(parts@).take(0)));
    while k < parts.len()
        invariant
            k <= parts@.len(),
            texts(r@) == first + steps(texts(parts@).take(k as int)),
        decreases parts@.len() - k,
    {
        let ghost before = r@;
        let ghost all = texts(parts@);
        assert(all.take(k + 1).drop_last() =~= all.take(k as int));
        assert(all.take(k + 1).last() == parts@[k as int]@);
        let part = parts[k].clone();
        let empty = chars(&part).len() == 0;
        if !empty && !same(&part, ".") {
            r.push(part);
            assert(texts(r@) =~= texts(before).push(all[k as int]));
            assert(texts(r@) =~= first + steps(all.take(k + 1)));
        }
        k += 1;
    }
    assert(texts(parts@).take(k as int) =~= texts(parts@));
    r
}

/// One list of texts begins with another.
fn begins(a: &Vec<String>, b: &Vec<String>) -> (r: bool)
    ensures
        r == texts(b@).is_prefix_of(texts(a@)),
{
    if b.len() > a.len() {
        return false;
    }
    let mut k: usize = 0;
    while k < b.len()
        invariant
            k <= b@.len() <= a@.len(),
            forall|i: int| 0 <= i < k ==> #[trigger] texts(a@)[i] == texts(b@)[i],
        decreases b@.len() - k,
    {
        if !same(&a[k], &b[k]) {
            assert(texts(a@)[k as int] != texts(b@)[k as int]);
            assert(texts(a@).take(b@.len() as int)[k as int] == texts(a@)[k as int]);
            return false;
        }
        k += 1;
    }
    assert(texts(a@).take(b@.len() as int) =~= texts(b@));
    true
}

/// One path is another, or lies below it.
pub open spec fn lies_under(path: Seq<char>, base: Seq<char>) -> bool {
    components_of(base).is_prefix_of(components_of(path))
}

/// One path is another, or lies below it.
pub fn under(path: &str, base: &str) -> (r: bool)
    ensures
        r == lies_under(path@, base@),
{
    begins(&components(path), &components(base))
}

/// One of two paths lies below the other.
pub open spec fn overlap(a: Seq<char>, b: Seq<char>) -> bool {
    lies_under(a, b) || lies_under(b, a)
}

/// One of two paths lies below the other.
pub fn overlaps(a: &str, b: &str) -> (r: bool)
    ensures
        r == overlap(a@, b@),
{
    under(a, b) || under(b, a)
}

/// Two texts name one path.
pub open spec fn same_path(a: Seq<char>, b: Seq<char>) -> bool {
    components_of(a) == components_of(b)
}

/// Two texts name one path.
pub fn equal(a: &str, b: &str) -> (r: bool)
    ensures
        r == same_path(a@, b@),
{
    let x = components(a);
    let y = components(b);
    if x.len() != y.len() {
        assert(texts(x@).len() != texts(y@).len());
        return false;
    }
    let r = begins(&x, &y);
    assert(texts(x@).take(texts(x@).len() as int) =~= texts(x@));
    r
}

/// A path without what it ends in that leads nowhere.
pub open spec fn shortened(s: Seq<char>) -> Seq<char>
    decreases s.len(),
{
    if s.len() > 1 && s.last() == '/' {
        shortened(s.drop_last())
    } else if s.len() > 1 && s.last() == '.' && s[s.len() - 2] == '/' {
        shortened(s.drop_last())
    } else {
        s
    }
}

/// Where the last step of a path begins.
pub open spec fn last_step(s: Seq<char>) -> int
    decreases s.len(),
{
    if s.len() == 0 || s.last() == '/' {
        s.len() as int
    } else {
        last_step(s.drop_last())
    }
}

/// The path that another lies directly below.
pub open spec fn parent_of(s: Seq<char>) -> Option<Seq<char>> {
    let t = shortened(s);
    if t.len() == 0 || t == "/"@ {
        None
    } else {
        Some(shortened(t.take(last_step(t))))
    }
}

/// The name of what a path leads to.
pub open spec fn name_of(s: Seq<char>) -> Option<Seq<char>> {
    let t = shortened(s);
    let last = t.skip(last_step(t));
    if last.len() == 0 || last == "."@ || last == ".."@ {
        None
    } else {
        Some(last)
    }
}

fn shorten(v: &Vec<char>, to: usize) -> (r: usize)
    requires
        to <= v@.len(),
    ensures
        r <= to,
        v@.take(r as int) == shortened(v@.take(to as int)),
{
    let mut n: usize = to;
    while n > 1 && (v[n - 1] == '/' || (v[n - 1] == '.' && v[n - 2] == '/'))
        invariant
            n <= to <= v@.len(),
            shortened(v@.take(n as int)) == shortened(v@.take(to as int)),
        decreases n,
    {
        assert(v@.take(n as int).drop_last() =~= v@.take(n - 1));
        n -= 1;
    }
    n
}

fn step_start(v: &Vec<char>, to: usize) -> (r: usize)
    requires
        to <= v@.len(),
    ensures
        r <= to,
        r == last_step(v@.take(to as int)),
{
    let mut n: usize = to;
    while n > 0 && v[n - 1] != '/'
        invariant
            n <= to <= v@.len(),
            last_step(v@.take(n as int)) == last_step(v@.take(to as int)),
        decreases n,
    {
        assert(v@.take(n as int).drop_last() =~= v@.take(n - 1));
        n -= 1;
    }
    n
}

/// The path that another lies directly below.
pub fn parent(s: &str) -> (r: Option<String>)
    ensures
        match parent_of(s@) {
            Some(p) => r matches Some(t) && t@ == p,
            None => r is None,
        },
{
    let v = chars(s);
    assert(v@.take(v@.len() as int) =~= v@);
    let n = shorten(&v, v.len());
    let ghost t = v@.take(n as int);
    proof {
        reveal_strlit("/");
    }
    if n == 0 || (n == 1 && v[0] == '/') {
        assert(n == 0 || t =~= "/"@);
        return None;
    }
    assert(t != "/"@) by {
        if n == 1 {
            assert(t[0] == v@[0]);
            assert("/"@[0] == '/');
        } else {
            assert(t.len() != "/"@.len());
        }
    }
    let k = step_start(&v, n);
    let m = shorten(&v, k);
    assert(t.take(k as int) =~= v@.take(k as int));
    let r = span(&v, 0, m);
    assert(v@.subrange(0, m as int) =~= v@.take(m as int));
    Some(r)
}

/// The name of what a path leads to.
pub fn file_name(s: &str) -> (r: Option<String>)
    ensures
        match name_of(s@) {
            Some(p) => r matches Some(t) && t@ == p,
            None => r is None,
        },
{
    let v = chars(s);
    assert(v@.take(v@.len() as int) =~= v@);
    let n = shorten(&v, v.len());
    let ghost t = v@.take(n as int);
    let k = step_start(&v, n);
    let r = span(&v, k, n);
    assert(r@ =~= t.skip(k as int));
    if k == n || same(&r, ".") || same(&r, "..") {
        return None;
    }
    Some(r)
}

/// A path that is looked up from another.
pub open spec fn joined(base: Seq<char>, name: Seq<char>) -> Seq<char> {
    if is_absolute(name) {
        name
    } else if base.len() == 0 || base.last() == '/' {
        base + name
    } else {
        base + "/"@ + name
    }
}

/// A path that is looked up from another.
pub fn join(base: &str, name: &str) -> (r: String)
    ensures
        r@ == joined(base@, name@),
{
    let n = chars(name);
    if n.len() > 0 && n[0] == '/' {
        return String::from_str(name);
    }
    let b = chars(base);
    let mut r = String::from_str(base);
    if b.len() > 0 && b[b.len() - 1] != '/' {
        r.push_str("/");
    }
    r.push_str(name);
    r
}

pub fn absolute(s: &str) -> (r: bool)
    ensures
        r == is_absolute(s@),
{
    let v = chars(s);
    v.len() > 0 && v[0] == '/'
}

/// A path that begins at the root and takes these steps.
pub open spec fn from_root(steps: Seq<Seq<char>>) -> Seq<char>
    decreases steps.len(),
{
    if steps.len() == 0 {
        "/"@
    } else if steps.len() == 1 {
        "/"@ + steps[0]
    } else {
        from_root(steps.drop_last()) + "/"@ + steps.last()
    }
}

/// A path that begins at the root, without what leads nowhere.
pub open spec fn normal(s: Seq<char>) -> Seq<char> {
    from_root(components_of(s).skip(1))
}

/// The path that these components make, of which the first is the root.
pub fn rebuilt(components: &Vec<String>) -> (r: String)
    requires
        components@.len() > 0,
    ensures
        r@ == from_root(texts(components@).skip(1)),
{
    let mut r = String::from_str("/");
    let ghost all = texts(components@).skip(1);
    let mut k: usize = 1;
    assert(all.take(0) =~= Seq::empty());
    while k < components.len()
        invariant
            1 <= k <= components@.len(),
            all == texts(components@).skip(1),
            r@ == from_root(all.take(k - 1)),
        decreases components@.len() - k,
    {
        assert(all.take(k as int).drop_last() =~= all.take(k - 1));
        assert(all.take(k as int).last() == components@[k as int]@);
        if k > 1 {
            r.push_str("/");
        }
        r.push_str(&components[k]);
        k += 1;
    }
    assert(all.take(k - 1) =~= all);
    r
}

/// How early a component comes before what it is compared by: the root, then `.`, then
/// `..`, then names.
pub open spec fn rank_of(component: Seq<char>) -> int {
    if component == "/"@ {
        0
    } else if component == "."@ {
        1
    } else if component == ".."@ {
        2
    } else {
        3
    }
}

/// One text comes before another, by its characters.
pub open spec fn text_before(a: Seq<char>, b: Seq<char>) -> bool
    decreases a.len(),
{
    if b.len() == 0 {
        false
    } else if a.len() == 0 {
        true
    } else if a[0] != b[0] {
        a[0] < b[0]
    } else {
        text_before(a.drop_first(), b.drop_first())
    }
}

pub open spec fn component_before(a: Seq<char>, b: Seq<char>) -> bool {
    rank_of(a) < rank_of(b) || (rank_of(a) == rank_of(b) && text_before(a, b))
}

pub open spec fn list_before(a: Seq<Seq<char>>, b: Seq<Seq<char>>) -> bool
    decreases a.len(),
{
    if b.len() == 0 {
        false
    } else if a.len() == 0 {
        true
    } else if a[0] != b[0] {
        component_before(a[0], b[0])
    } else {
        list_before(a.drop_first(), b.drop_first())
    }
}

/// One path comes before another: component by component, and a path before what lies
/// below it.
pub open spec fn path_before(a: Seq<char>, b: Seq<char>) -> bool {
    list_before(components_of(a), components_of(b))
}

/// Texts are ordered.
pub proof fn lemma_text_order(a: Seq<char>, b: Seq<char>)
    ensures
        a == b || text_before(a, b) || text_before(b, a),
        !(text_before(a, b) && text_before(b, a)),
        !text_before(a, a),
    decreases a.len(),
{
    if a.len() == 0 {
        assert(b.len() == 0 ==> a =~= b);
    } else {
        lemma_text_order(a.drop_first(), b.drop_first());
        if b.len() > 0 && a[0] == b[0] && a.drop_first() == b.drop_first() {
            assert(a =~= seq![a[0]] + a.drop_first());
            assert(b =~= seq![b[0]] + b.drop_first());
        }
    }
}

pub proof fn lemma_text_chain(a: Seq<char>, b: Seq<char>, c: Seq<char>)
    requires
        text_before(a, b),
        text_before(b, c),
    ensures
        text_before(a, c),
    decreases a.len(),
{
    if a.len() > 0 && a[0] == b[0] && b[0] == c[0] {
        lemma_text_chain(a.drop_first(), b.drop_first(), c.drop_first());
    }
}

proof fn lemma_list_order(a: Seq<Seq<char>>, b: Seq<Seq<char>>)
    ensures
        a == b || list_before(a, b) || list_before(b, a),
        !(list_before(a, b) && list_before(b, a)),
        !list_before(a, a),
    decreases a.len(),
{
    if a.len() == 0 {
        assert(b.len() == 0 ==> a =~= b);
    } else {
        lemma_list_order(a.drop_first(), b.drop_first());
        if b.len() > 0 {
            lemma_text_order(a[0], b[0]);
            if a[0] == b[0] && a.drop_first() == b.drop_first() {
                assert(a =~= seq![a[0]] + a.drop_first());
                assert(b =~= seq![b[0]] + b.drop_first());
            }
        }
    }
}

proof fn lemma_list_chain(a: Seq<Seq<char>>, b: Seq<Seq<char>>, c: Seq<Seq<char>>)
    requires
        list_before(a, b),
        list_before(b, c),
    ensures
        list_before(a, c),
    decreases a.len(),
{
    if a.len() > 0 {
        if a[0] == b[0] && b[0] == c[0] {
            lemma_list_chain(a.drop_first(), b.drop_first(), c.drop_first());
        } else if a[0] != b[0] && b[0] != c[0] {
            if rank_of(a[0]) == rank_of(b[0]) && rank_of(b[0]) == rank_of(c[0]) {
                lemma_text_chain(a[0], b[0], c[0]);
            }
            lemma_text_order(a[0], c[0]);
        }
    }
}

/// A path comes before, at or behind another, and only one of these.
pub proof fn paths_are_ordered(a: Seq<char>, b: Seq<char>)
    ensures
        same_path(a, b) || path_before(a, b) || path_before(b, a),
        !(path_before(a, b) && path_before(b, a)),
        same_path(a, b) ==> !path_before(a, b),
{
    lemma_list_order(components_of(a), components_of(b));
}

pub proof fn lemma_path_chain(a: Seq<char>, b: Seq<char>, c: Seq<char>)
    requires
        path_before(a, b),
        path_before(b, c),
    ensures
        path_before(a, c),
{
    lemma_list_chain(components_of(a), components_of(b), components_of(c));
}

/// What lies below a path comes behind it: it is mounted over it, not under it.
pub proof fn what_lies_below_comes_later(path: Seq<char>, base: Seq<char>)
    requires
        lies_under(path, base),
    ensures
        same_path(path, base) || path_before(base, path),
{
    lemma_prefix_before(components_of(base), components_of(path));
}

proof fn lemma_prefix_before(a: Seq<Seq<char>>, b: Seq<Seq<char>>)
    requires
        a.is_prefix_of(b),
    ensures
        a == b || list_before(a, b),
    decreases a.len(),
{
    assert(a =~= b.take(a.len() as int));
    if a.len() == 0 {
        assert(b.len() == 0 ==> a =~= b);
    } else {
        assert(a.drop_first() =~= b.drop_first().take(a.len() - 1));
        lemma_prefix_before(a.drop_first(), b.drop_first());
        assert(a[0] == b[0]);
        assert(a =~= seq![a[0]] + a.drop_first());
        assert(b =~= seq![b[0]] + b.drop_first());
    }
}

/// One text comes before another, by its characters.
pub fn text_precedes(a: &str, b: &str) -> (r: bool)
    ensures
        r == text_before(a@, b@),
{
    let x = chars(a);
    let y = chars(b);
    let mut k: usize = 0;
    assert(x@.skip(0) =~= x@);
    assert(y@.skip(0) =~= y@);
    while k < x.len() && k < y.len() && x[k] == y[k]
        invariant
            k <= x@.len(),
            k <= y@.len(),
            text_before(x@.skip(k as int), y@.skip(k as int)) == text_before(x@, y@),
        decreases x@.len() - k,
    {
        assert(x@.skip(k as int).drop_first() =~= x@.skip(k + 1));
        assert(y@.skip(k as int).drop_first() =~= y@.skip(k + 1));
        k += 1;
    }
    if k >= y.len() {
        false
    } else if k >= x.len() {
        true
    } else {
        x[k] < y[k]
    }
}

fn rank(component: &str) -> (r: u8)
    ensures
        r == rank_of(component@),
{
    if same(component, "/") {
        0
    } else if same(component, ".") {
        1
    } else if same(component, "..") {
        2
    } else {
        3
    }
}

/// One path comes before another.
pub fn precedes(a: &str, b: &str) -> (r: bool)
    ensures
        r == path_before(a@, b@),
{
    let x = components(a);
    let y = components(b);
    let ghost s = texts(x@);
    let ghost t = texts(y@);
    let mut k: usize = 0;
    assert(s.skip(0) =~= s);
    assert(t.skip(0) =~= t);
    while k < x.len() && k < y.len() && same(&x[k], &y[k])
        invariant
            s == texts(x@),
            t == texts(y@),
            k <= x@.len(),
            k <= y@.len(),
            list_before(s.skip(k as int), t.skip(k as int)) == list_before(s, t),
        decreases x@.len() - k,
    {
        assert(s.skip(k as int)[0] == x@[k as int]@);
        assert(t.skip(k as int)[0] == y@[k as int]@);
        assert(s.skip(k as int).drop_first() =~= s.skip(k + 1));
        assert(t.skip(k as int).drop_first() =~= t.skip(k + 1));
        k += 1;
    }
    if k >= y.len() {
        false
    } else if k >= x.len() {
        true
    } else {
        assert(s.skip(k as int)[0] == x@[k as int]@);
        assert(t.skip(k as int)[0] == y@[k as int]@);
        let p = rank(&x[k]);
        let q = rank(&y[k]);
        p < q || (p == q && text_precedes(&x[k], &y[k]))
    }
}

/// Paths in order, each once.
pub open spec fn in_order(v: Seq<Seq<char>>) -> bool {
    forall|i: int, j: int|
        0 <= i < j < v.len() ==> path_before(#[trigger] v[i], #[trigger] v[j])
}

/// A list of paths has one that two texts name.
pub open spec fn has_path(v: Seq<Seq<char>>, path: Seq<char>) -> bool {
    exists|i: int| 0 <= i < v.len() && same_path(#[trigger] v[i], path)
}

/// Whether a list of paths has one that two texts name.
pub fn listed(v: &Vec<String>, path: &str) -> (r: bool)
    ensures
        r == has_path(texts(v@), path@),
{
    let ghost s = texts(v@);
    let mut k: usize = 0;
    while k < v.len()
        invariant
            k <= v@.len(),
            s == texts(v@),
            forall|i: int| 0 <= i < k ==> !same_path(#[trigger] s[i], path@),
        decreases v@.len() - k,
    {
        assert(s[k as int] == v@[k as int]@);
        if equal(&v[k], path) {
            return true;
        }
        k += 1;
    }
    false
}

/// Where a path stands among others, or belongs, and whether it stands there.
pub fn place(v: &Vec<String>, path: &str) -> (r: (usize, bool))
    requires
        in_order(texts(v@)),
    ensures
        r.0 <= v@.len(),
        forall|i: int| 0 <= i < r.0 ==> path_before(#[trigger] texts(v@)[i], path@),
        r.1 == has_path(texts(v@), path@),
        r.1 ==> r.0 < v@.len() && same_path(texts(v@)[r.0 as int], path@),
        !r.1 ==> forall|i: int| r.0 <= i < v@.len() ==> path_before(path@, #[trigger] texts(v@)[i]),
{
    let ghost s = texts(v@);
    let mut k: usize = 0;
    while k < v.len() && precedes(&v[k], path)
        invariant
            s == texts(v@),
            in_order(s),
            k <= v@.len(),
            forall|i: int| 0 <= i < k ==> path_before(#[trigger] s[i], path@),
        decreases v@.len() - k,
    {
        assert(s[k as int] == v@[k as int]@);
        k += 1;
    }
    if k < v.len() {
        assert(s[k as int] == v@[k as int]@);
    }
    let found = k < v.len() && equal(&v[k], path);
    proof {
        assert forall|i: int| 0 <= i < k implies !same_path(#[trigger] s[i], path@) by {
            paths_are_ordered(s[i], path@);
        }
        if k < s.len() {
            paths_are_ordered(s[k as int], path@);
            if !found {
                assert forall|i: int| k <= i < s.len() implies path_before(path@, #[trigger] s[i])
                    && !same_path(s[i], path@) by {
                    if i > k {
                        assert(path_before(s[k as int], s[i]));
                        lemma_path_chain(path@, s[k as int], s[i]);
                    }
                    paths_are_ordered(path@, s[i]);
                }
            }
        }
    }
    (k, found)
}

/// Puts a path among others, unless it stands there. Says whether it is new.
pub fn insert(v: &mut Vec<String>, path: &str) -> (fresh: bool)
    requires
        in_order(texts(old(v)@)),
    ensures
        in_order(texts(final(v)@)),
        fresh == !has_path(texts(old(v)@), path@),
        if fresh {
            exists|k: int|
                0 <= k <= old(v)@.len() && texts(final(v)@) == #[trigger] texts(old(v)@).insert(
                    k,
                    path@,
                )
        } else {
            final(v)@ == old(v)@
        },
{
    let (k, found) = place(v, path);
    if found {
        return false;
    }
    let ghost s = texts(v@);
    v.insert(k, String::from_str(path));
    let ghost t = texts(v@);
    assert(t =~= s.insert(k as int, path@));
    assert forall|i: int, j: int| 0 <= i < j < t.len() implies path_before(
        #[trigger] t[i],
        #[trigger] t[j],
    ) by {
        let a = if i < k { i } else { i - 1 };
        let b = if j < k { j } else { j - 1 };
        if i == k {
            assert(t[j] == s[b]);
        } else if j == k {
            assert(t[i] == s[a]);
        } else {
            assert(t[i] == s[a] && t[j] == s[b]);
        }
    }
    true
}

/// A list names the same paths as another, in order and each once.
pub open spec fn same_paths(v: Seq<Seq<char>>, all: Seq<Seq<char>>) -> bool {
    &&& in_order(v)
    &&& forall|i: int| 0 <= i < all.len() ==> has_path(v, #[trigger] all[i])
    &&& forall|k: int| 0 <= k < v.len() ==> all.contains(#[trigger] v[k])
}

/// Adds a path to those of a list.
pub fn add_path(v: &mut Vec<String>, path: &str, Ghost(all): Ghost<Seq<Seq<char>>>)
    requires
        same_paths(texts(old(v)@), all),
    ensures
        same_paths(texts(final(v)@), all.push(path@)),
{
    let ghost before = texts(v@);
    let ghost more = all.push(path@);
    let fresh = insert(v, path);
    let ghost after = texts(v@);
    proof {
        assert(more[all.len() as int] == path@);
        if fresh {
            let k = choose|k: int|
                0 <= k <= before.len() && after == #[trigger] before.insert(k, path@);
            assert(after[k] == path@);
            assert forall|i: int| 0 <= i < more.len() implies has_path(
                after,
                #[trigger] more[i],
            ) by {
                if i < all.len() {
                    assert(more[i] == all[i]);
                    let j = choose|j: int|
                        0 <= j < before.len() && same_path(#[trigger] before[j], all[i]);
                    let m = if j < k { j } else { j + 1 };
                    assert(after[m] == before[j]);
                } else {
                    assert(same_path(after[k], path@));
                }
            }
            assert forall|m: int| 0 <= m < after.len() implies more.contains(
                #[trigger] after[m],
            ) by {
                if m != k {
                    let j = if m < k { m } else { m - 1 };
                    assert(after[m] == before[j]);
                    let i = choose|i: int| 0 <= i < all.len() && all[i] == before[j];
                    assert(more[i] == after[m]);
                }
            }
        } else {
            assert forall|i: int| 0 <= i < more.len() implies has_path(
                after,
                #[trigger] more[i],
            ) by {
                if i < all.len() {
                    assert(more[i] == all[i]);
                }
            }
            assert forall|m: int| 0 <= m < after.len() implies more.contains(
                #[trigger] after[m],
            ) by {
                let i = choose|i: int| 0 <= i < all.len() && all[i] == before[m];
                assert(more[i] == after[m]);
            }
        }
    }
}

// ---------------------------------------------------------------------------
// What paths are made of
// ---------------------------------------------------------------------------

proof fn lemma_steps_joined(a: Seq<Seq<char>>, b: Seq<Seq<char>>)
    ensures
        steps(a + b) == steps(a) + steps(b),
    decreases b.len(),
{
    if b.len() == 0 {
        assert(a + b =~= a);
        assert(steps(a) + steps(b) =~= steps(a));
    } else {
        assert((a + b).drop_last() =~= a + b.drop_last());
        lemma_steps_joined(a, b.drop_last());
        assert(steps(a + b) =~= steps(a) + steps(b));
    }
}

/// A name behind a path is one component more; a slash or a dot behind it is none.
pub proof fn a_name_is_one_component(base: Seq<char>, name: Seq<char>)
    requires
        is_absolute(base),
        !name.contains('/'),
    ensures
        components_of(base + "/"@ + name) == if name.len() == 0 || name == "."@ {
            components_of(base)
        } else {
            components_of(base).push(name)
        },
{
    reveal_strlit("/");
    let all = base + "/"@ + name;
    assert(all =~= base.push('/') + name);
    parts_are_put_together(base, name, '/');
    a_part_ends_at_its_mark(name, Seq::empty(), '/');
    assert(parts_of(name, '/') == seq![name]);
    lemma_steps_joined(parts_of(base, '/'), seq![name]);
    let none = Seq::<Seq<char>>::empty();
    assert(seq![name].drop_last() =~= none);
    assert(steps(none) =~= none);
    assert(seq![name].last() == name);
    assert(leads(name) == !(name.len() == 0 || name == "."@));
    assert(none.push(name) =~= seq![name]);
    assert(steps(seq![name]) == if name.len() == 0 || name == "."@ {
        Seq::empty()
    } else {
        seq![name]
    });
    assert(components_of(all) =~= if name.len() == 0 || name == "."@ {
        components_of(base)
    } else {
        components_of(base).push(name)
    });
}

/// What stands behind a path and a slash lies under that path; a path lies under itself.
pub proof fn what_stands_behind_a_path_lies_under_it(base: Seq<char>, rest: Seq<char>)
    requires
        is_absolute(base),
    ensures
        lies_under(base + "/"@ + rest, base),
        lies_under(base, base),
        lies_under(base, "/"@),
{
    reveal_strlit("/");
    let all = base + "/"@ + rest;
    assert(all =~= base.push('/') + rest);
    parts_are_put_together(base, rest, '/');
    lemma_steps_joined(parts_of(base, '/'), parts_of(rest, '/'));
    let n = components_of(base).len() as int;
    assert(components_of(all).take(n) =~= components_of(base));
    assert(components_of(base).take(n) =~= components_of(base));
    let none = Seq::<char>::empty();
    assert("/"@ =~= none.push('/') + none);
    a_part_ends_at_its_mark(none, none, '/');
    assert(parts_of("/"@, '/') =~= seq![none, none]);
    assert(seq![none, none].drop_last() =~= seq![none]);
    assert(seq![none].drop_last() =~= Seq::<Seq<char>>::empty());
    reveal_with_fuel(steps, 3);
    assert(steps(seq![none, none]) =~= Seq::<Seq<char>>::empty());
    assert(components_of("/"@) =~= seq!["/"@]);
    assert(components_of(base).take(1) =~= seq!["/"@]);
}

/// Of two paths that share a place one lies under the other: so it is whichever comes first.
pub proof fn overlapping_is_mutual(a: Seq<char>, b: Seq<char>)
    ensures
        overlap(a, b) == overlap(b, a),
        overlap(a, b) <==> (components_of(a).is_prefix_of(components_of(b)) || components_of(
            b,
        ).is_prefix_of(components_of(a))),
{
}

/// A text comes before another where the first character in which they differ does, or where it is
/// the beginning of the other.
pub proof fn the_first_difference_decides(common: Seq<char>, a: Seq<char>, b: Seq<char>)
    requires
        a.len() == 0 || b.len() == 0 || a[0] != b[0],
    ensures
        text_before(common + a, common + b) <==> b.len() > 0 && (a.len() == 0 || a[0] < b[0]),
    decreases common.len(),
{
    if common.len() == 0 {
        assert(common + a =~= a);
        assert(common + b =~= b);
    } else {
        let rest = common.drop_first();
        the_first_difference_decides(rest, a, b);
        assert((common + a).drop_first() =~= rest + a);
        assert((common + b).drop_first() =~= rest + b);
    }
}

proof fn lemma_last_name(base: Seq<char>, name: Seq<char>)
    requires
        !name.contains('/'),
    ensures
        last_step(base + "/"@ + name) == base.len() + 1,
    decreases name.len(),
{
    reveal_strlit("/");
    let all = base + "/"@ + name;
    if name.len() == 0 {
        assert(all.last() == '/');
    } else {
        let most = name.drop_last();
        assert forall|i: int| 0 <= i < most.len() implies most[i] != '/' by {
            assert(most[i] == name[i]);
        }
        assert(name[name.len() - 1] != '/');
        lemma_last_name(base, most);
        assert(all.drop_last() =~= base + "/"@ + most);
        assert(all.last() == name.last());
    }
}

/// A path ends in its name, and what stands before the name is its parent.
pub proof fn a_path_ends_in_its_name(base: Seq<char>, name: Seq<char>)
    requires
        name.len() > 0,
        !name.contains('/'),
        name != "."@,
        name != ".."@,
    ensures
        name_of(base + "/"@ + name) == Some(name),
        parent_of(base + "/"@ + name) == Some(shortened(base + "/"@)),
{
    reveal_strlit("/");
    reveal_strlit(".");
    reveal_strlit("..");
    let all = base + "/"@ + name;
    assert(name[name.len() - 1] != '/');
    assert(all.last() == name.last());
    if name.last() == '.' && all[all.len() - 2] == '/' {
        if name.len() > 1 {
            assert(all[all.len() - 2] == name[name.len() - 2]);
        } else {
            assert(name =~= "."@);
        }
    }
    assert(shortened(all) == all);
    lemma_last_name(base, name);
    assert(all.skip(base.len() as int + 1) =~= name);
    assert(all.take(base.len() as int + 1) =~= base + "/"@);
    assert(all.len() > 1);
    assert(all != "/"@);
}

/// Slashes at the end of a path do not count.
pub proof fn slashes_at_the_end_do_not_count(path: Seq<char>)
    requires
        path.len() > 0,
        path.last() != '/',
        path.last() != '.',
    ensures
        shortened(path) == path,
        shortened(path + "/"@) == path,
        name_of(path + "/"@) == name_of(path),
        parent_of(path + "/"@) == parent_of(path),
{
    reveal_strlit("/");
    let more = path + "/"@;
    assert(more.drop_last() =~= path);
    assert(more.last() == '/');
    assert(shortened(path) == path);
}

/// A relative path is looked up from the base, an absolute one stands alone.
pub proof fn a_relative_path_is_looked_up(base: Seq<char>, name: Seq<char>)
    requires
        base.len() > 0,
        base.last() != '/',
    ensures
        name.len() > 0 && name[0] == '/' ==> joined(base, name) == name,
        name.len() == 0 || name[0] != '/' ==> joined(base, name) == base + "/"@ + name,
{
}

} // verus!
