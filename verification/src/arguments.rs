//! Lists of arguments for the programs that are run.
use vstd::prelude::*;

use crate::text::texts;

verus! {

/// Adds one argument.
pub fn put(args: &mut Vec<String>, a: &str)
    ensures
        texts(final(args)@) == texts(old(args)@).push(a@),
{
    args.push(String::from_str(a));
    assert(texts(args@) =~= texts(old(args)@).push(a@));
}

/// Adds two arguments.
pub fn put_two(args: &mut Vec<String>, a: &str, b: &str)
    ensures
        texts(final(args)@) == texts(old(args)@) + seq![a@, b@],
{
    put(args, a);
    put(args, b);
    assert(texts(args@) =~= texts(old(args)@) + seq![a@, b@]);
}

/// Adds three arguments.
pub fn put_three(args: &mut Vec<String>, a: &str, b: &str, c: &str)
    ensures
        texts(final(args)@) == texts(old(args)@) + seq![a@, b@, c@],
{
    put(args, a);
    put(args, b);
    put(args, c);
    assert(texts(args@) =~= texts(old(args)@) + seq![a@, b@, c@]);
}

/// Adds some of another list's texts.
pub fn put_range(args: &mut Vec<String>, more: &Vec<String>, from: usize, to: usize)
    requires
        from <= to <= more@.len(),
    ensures
        texts(final(args)@) == texts(old(args)@) + texts(more@).subrange(from as int, to as int),
{
    let mut k: usize = from;
    let ghost t = texts(more@);
    assert(texts(args@) =~= texts(args@) + t.subrange(from as int, from as int));
    while k < to
        invariant
            from <= k <= to <= more@.len(),
            t == texts(more@),
            texts(args@) == texts(old(args)@) + t.subrange(from as int, k as int),
        decreases to - k,
    {
        put(args, &more[k]);
        assert(t.subrange(from as int, k + 1) =~= t.subrange(from as int, k as int).push(
            more@[k as int]@,
        ));
        assert(texts(args@) =~= texts(old(args)@) + t.subrange(from as int, k + 1));
        k += 1;
    }
}

/// Adds another list.
pub fn put_all(args: &mut Vec<String>, more: &Vec<String>)
    ensures
        texts(final(args)@) == texts(old(args)@) + texts(more@),
{
    put_range(args, more, 0, more.len());
    assert(texts(more@).subrange(0, more@.len() as int) =~= texts(more@));
}

/// Adds the texts of an array.
pub fn put_each<const N: usize>(args: &mut Vec<String>, more: [&str; N])
    ensures
        texts(final(args)@) == texts(old(args)@) + each(more@),
{
    let mut k: usize = 0;
    assert(texts(args@) =~= texts(args@) + each(more@).take(0));
    while k < N
        invariant
            k <= N,
            more@.len() == N,
            texts(args@) == texts(old(args)@) + each(more@).take(k as int),
        decreases N - k,
    {
        put(args, more[k]);
        assert(each(more@).take(k + 1) =~= each(more@).take(k as int).push(more@[k as int]@));
        assert(texts(args@) =~= texts(old(args)@) + each(more@).take(k + 1));
        k += 1;
    }
    assert(each(more@).take(k as int) =~= each(more@));
}

/// What some texts hold.
pub open spec fn each(v: Seq<&str>) -> Seq<Seq<char>> {
    v.map_values(|t: &str| t@)
}

/// Texts with a separator between them.
pub open spec fn with_between(v: Seq<Seq<char>>, separator: Seq<char>) -> Seq<char>
    decreases v.len(),
{
    if v.len() == 0 {
        Seq::empty()
    } else if v.len() == 1 {
        v[0]
    } else {
        with_between(v.drop_last(), separator) + separator + v.last()
    }
}

/// Texts with a separator between them.
pub fn list(v: &Vec<String>, separator: &str) -> (r: String)
    ensures
        r@ == with_between(texts(v@), separator@),
{
    let mut r = String::new();
    let mut k: usize = 0;
    let ghost t = texts(v@);
    assert(t.take(0) =~= Seq::empty());
    while k < v.len()
        invariant
            k <= v@.len(),
            t == texts(v@),
            r@ == with_between(t.take(k as int), separator@),
        decreases v@.len() - k,
    {
        assert(t.take(k + 1).drop_last() =~= t.take(k as int));
        assert(t.take(k + 1).last() == v@[k as int]@);
        if k > 0 {
            r.push_str(separator);
            r.push_str(&v[k]);
        } else {
            r.push_str(&v[k]);
            assert(r@ =~= t.take(1)[0]);
        }
        k += 1;
    }
    assert(t.take(k as int) =~= t);
    r
}

} // verus!
