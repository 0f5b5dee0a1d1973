//! Files of `/etc` that a configuration supplies. They are mounted inside the sandbox
//! alone.
use vstd::prelude::*;

use crate::binds::{overlaps_any, refusal};
use crate::paths::{join, joined, name_of, overlap, overlaps};
use crate::store::{is_store_path, store_object, store_path};
use crate::text::{alnum, chars, is_alnum, parts_of, split, texts};

verus! {

/// What stands at a path.
pub enum Kind {
    File,
    Directory,
    Other,
    /// Nothing that could be looked at, and why.
    Unknown(String),
}

/// A file to supply: its name below `/etc`, where it comes from, and what stands there.
pub struct EtcFile {
    pub name: String,
    pub source: String,
    pub kind: Kind,
}

/// A part of a name below `/etc`.
pub open spec fn is_etc_part(s: Seq<char>) -> bool {
    s.len() > 0 && forall|i: int| 0 <= i < s.len() ==> etc_char(#[trigger] s[i], i)
}

pub open spec fn etc_char(c: char, i: int) -> bool {
    is_alnum(c) || c == '_' || c == '-' || (i > 0 && c == '.')
}

/// A name below `/etc`: parts that lead downwards.
pub open spec fn is_etc_name(s: Seq<char>) -> bool {
    s.len() <= 512 && forall|i: int|
        0 <= i < parts_of(s, '/').len() ==> is_etc_part(#[trigger] parts_of(s, '/')[i])
}

fn etc_part(s: &str) -> (r: bool)
    ensures
        r == is_etc_part(s@),
{
    let v = chars(s);
    let mut i: usize = 0;
    while i < v.len()
        invariant
            v@ == s@,
            i <= v@.len(),
            forall|k: int| 0 <= k < i ==> etc_char(#[trigger] v@[k], k),
        decreases v@.len() - i,
    {
        let c = v[i];
        if !alnum(c) && c != '_' && c != '-' && !(i > 0 && c == '.') {
            assert(!etc_char(v@[i as int], i as int));
            return false;
        }
        i += 1;
    }
    v.len() > 0
}

/// Whether a name leads to something below `/etc`.
pub fn etc_name(s: &str) -> (r: bool)
    ensures
        r == is_etc_name(s@),
{
    if chars(s).len() > 512 {
        return false;
    }
    let parts = split(s, '/');
    let ghost t = texts(parts@);
    let mut k: usize = 0;
    while k < parts.len()
        invariant
            k <= parts@.len(),
            t == texts(parts@),
            t == parts_of(s@, '/'),
            forall|i: int| 0 <= i < k ==> is_etc_part(#[trigger] t[i]),
        decreases parts@.len() - k,
    {
        assert(t[k as int] == parts@[k as int]@);
        if !etc_part(&parts[k]) {
            assert(!is_etc_part(parts_of(s@, '/')[k as int]));
            return false;
        }
        k += 1;
    }
    true
}

/// Where a file is mounted.
pub open spec fn etc_path(name: Seq<char>) -> Seq<char> {
    joined("/etc"@, name)
}

/// Why a file is not supplied beside others, if so.
pub open spec fn etc_error(f: EtcFile, others: Seq<Seq<char>>) -> Option<Seq<char>> {
    if !is_etc_name(f.name@) {
        Some("sandboxEtc names must be relative /etc file paths"@)
    } else if name_of(f.source@) is None {
        Some("invalid store path"@)
    } else if !is_store_path(f.source@) {
        Some("not a canonical store output"@)
    } else if f.kind is Unknown {
        Some(f.kind->Unknown_0@)
    } else if f.kind is Other {
        Some("store output must be a regular file or directory"@)
    } else if f.kind is Directory {
        Some("sandboxEtc sources must be regular Nix store files"@)
    } else if overlaps_any(etc_path(f.name@), others) {
        Some("sandboxEtc file destinations overlap"@)
    } else {
        None
    }
}

/// Where the first so many files are mounted.
pub open spec fn etc_paths(files: Seq<EtcFile>) -> Seq<Seq<char>> {
    files.map_values(|f: EtcFile| etc_path(f.name@))
}

/// The first error among some files, each beside those before it.
pub open spec fn first_etc_error(files: Seq<EtcFile>) -> Option<Seq<char>>
    decreases files.len(),
{
    if files.len() == 0 {
        None
    } else {
        match first_etc_error(files.drop_last()) {
            Some(e) => Some(e),
            None => etc_error(files.last(), etc_paths(files.drop_last())),
        }
    }
}

/// What is mounted for some files: each source at its place.
pub open spec fn etc_mounts(files: Seq<EtcFile>) -> Seq<(Seq<char>, Seq<char>)> {
    files.map_values(|f: EtcFile| (f.source@, etc_path(f.name@)))
}

pub open spec fn pairs(v: Seq<(String, String)>) -> Seq<(Seq<char>, Seq<char>)> {
    v.map_values(|p: (String, String)| (p.0@, p.1@))
}

fn check(f: &EtcFile) -> (r: Result<(), String>)
    ensures
        refusal(r) == etc_error(*f, Seq::empty()),
{
    assert(!overlaps_any(etc_path(f.name@), Seq::empty()));
    if !etc_name(&f.name) {
        return Err(String::from_str("sandboxEtc names must be relative /etc file paths"));
    }
    match store_path(&f.source) {
        Err(e) => {
            return Err(e);
        },
        Ok(_) => {},
    }
    match &f.kind {
        Kind::Unknown(e) => Err(e.clone()),
        Kind::Other => {
            store_object(false, false)?;
            Ok(())
        },
        Kind::Directory => Err(
            String::from_str("sandboxEtc sources must be regular Nix store files"),
        ),
        Kind::File => Ok(()),
    }
}

proof fn lemma_first_etc_error(files: Seq<EtcFile>, n: int)
    requires
        0 <= n < files.len(),
        first_etc_error(files.take(n)) is None,
        etc_error(files[n], etc_paths(files.take(n))) is Some,
    ensures
        first_etc_error(files) == etc_error(files[n], etc_paths(files.take(n))),
    decreases files.len(),
{
    let most = files.drop_last();
    if n == files.len() - 1 {
        assert(files.take(n) =~= most);
    } else {
        assert(most.take(n) =~= files.take(n));
        lemma_first_etc_error(most, n);
    }
}

fn overlaps_mount(place: &str, mounts: &Vec<(String, String)>) -> (r: bool)
    ensures
        r == overlaps_any(place@, pairs(mounts@).map_values(|p: (Seq<char>, Seq<char>)| p.1)),
{
    let ghost s = pairs(mounts@).map_values(|p: (Seq<char>, Seq<char>)| p.1);
    let mut k: usize = 0;
    while k < mounts.len()
        invariant
            k <= mounts@.len(),
            s == pairs(mounts@).map_values(|p: (Seq<char>, Seq<char>)| p.1),
            forall|i: int| 0 <= i < k ==> !overlap(place@, #[trigger] s[i]),
        decreases mounts@.len() - k,
    {
        assert(s[k as int] == mounts@[k as int].1@);
        if overlaps(place, &mounts[k].1) {
            return true;
        }
        k += 1;
    }
    false
}

/// What is mounted for the files of a configuration: whole objects of the store, at
/// places that do not overlap.
pub fn mounts(files: &Vec<EtcFile>) -> (r: Result<Vec<(String, String)>, String>)
    ensures
        if files@.len() > 128 {
            r matches Err(e) && e@ == "at most 128 sandboxEtc files are supported"@
        } else {
            match first_etc_error(files@) {
                Some(text) => r matches Err(e) && e@ == text,
                None => r matches Ok(v) && pairs(v@) == etc_mounts(files@),
            }
        },
{
    if files.len() > 128 {
        return Err(String::from_str("at most 128 sandboxEtc files are supported"));
    }
    let mut r: Vec<(String, String)> = Vec::new();
    let mut k: usize = 0;
    assert(pairs(r@) =~= etc_mounts(files@.take(0)));
    while k < files.len()
        invariant
            k <= files@.len(),
            files@.len() <= 128,
            first_etc_error(files@.take(k as int)) is None,
            pairs(r@) == etc_mounts(files@.take(k as int)),
        decreases files@.len() - k,
    {
        let f = &files[k];
        let ghost some = files@.take(k as int);
        assert(files@.take(k + 1).drop_last() =~= some);
        assert(pairs(r@).map_values(|p: (Seq<char>, Seq<char>)| p.1) =~= etc_paths(some));
        let checked = check(f);
        if checked.is_err() {
            proof {
                lemma_first_etc_error(files@, k as int);
            }
            checked?;
        }
        let place = join("/etc", &f.name);
        if overlaps_mount(&place, &r) {
            proof {
                lemma_first_etc_error(files@, k as int);
            }
            return Err(String::from_str("sandboxEtc file destinations overlap"));
        }
        let ghost before = r@;
        r.push((f.source.clone(), place));
        let ghost one = (f.source@, etc_path(f.name@));
        assert(r@[k as int].0@ == f.source@);
        assert(pairs(r@) =~= pairs(before).push(one));
        assert(etc_mounts(files@.take(k + 1)) =~= etc_mounts(some).push(one));
        k += 1;
    }
    assert(files@.take(k as int) =~= files@);
    Ok(r)
}

/// Files are mounted below `/etc` exactly where each of them is a file of the store under a proper
/// name, and no two of them share a place.
pub proof fn proper_files_are_mounted(files: Seq<EtcFile>)
    ensures
        first_etc_error(files) is None <==> {
            &&& forall|i: int|
                0 <= i < files.len() ==> is_etc_name((#[trigger] files[i]).name@) && name_of(
                    files[i].source@,
                ) is Some && is_store_path(files[i].source@) && files[i].kind is File
            &&& forall|i: int, j: int|
                0 <= i < j < files.len() ==> !overlap(
                    joined("/etc"@, (#[trigger] files[j]).name@),
                    joined("/etc"@, (#[trigger] files[i]).name@),
                )
        },
    decreases files.len(),
{
    if files.len() > 0 {
        let most = files.drop_last();
        let last = files.last();
        proper_files_are_mounted(most);
        assert(forall|i: int| 0 <= i < most.len() ==> files[i] == #[trigger] most[i]);
        let others = etc_paths(most);
        assert(forall|i: int|
            0 <= i < most.len() ==> #[trigger] others[i] == joined("/etc"@, most[i].name@));
        if first_etc_error(files) is None {
            assert(etc_error(last, others) is None);
            assert forall|i: int| 0 <= i < files.len() implies is_etc_name(
                (#[trigger] files[i]).name@,
            ) && name_of(files[i].source@) is Some && is_store_path(files[i].source@)
                && files[i].kind is File by {
                if i < most.len() {
                    assert(most[i] == files[i]);
                }
            }
            assert forall|i: int, j: int| 0 <= i < j < files.len() implies !overlap(
                joined("/etc"@, (#[trigger] files[j]).name@),
                joined("/etc"@, (#[trigger] files[i]).name@),
            ) by {
                assert(most[i] == files[i]);
                if j < most.len() {
                    assert(most[j] == files[j]);
                } else {
                    assert(!overlap(joined("/etc"@, last.name@), others[i]));
                }
            }
        }
        if (forall|i: int|
            0 <= i < files.len() ==> is_etc_name((#[trigger] files[i]).name@) && name_of(
                files[i].source@,
            ) is Some && is_store_path(files[i].source@) && files[i].kind is File) && (forall|
            i: int,
            j: int,
        |
            0 <= i < j < files.len() ==> !overlap(
                joined("/etc"@, (#[trigger] files[j]).name@),
                joined("/etc"@, (#[trigger] files[i]).name@),
            )) {
            assert forall|i: int| 0 <= i < most.len() implies is_etc_name(
                (#[trigger] most[i]).name@,
            ) && name_of(most[i].source@) is Some && is_store_path(most[i].source@)
                && most[i].kind is File by {
                assert(most[i] == files[i]);
            }
            assert forall|i: int, j: int| 0 <= i < j < most.len() implies !overlap(
                joined("/etc"@, (#[trigger] most[j]).name@),
                joined("/etc"@, (#[trigger] most[i]).name@),
            ) by {
                assert(most[i] == files[i]);
                assert(most[j] == files[j]);
            }
            assert(last == files[files.len() - 1]);
            assert forall|i: int| 0 <= i < others.len() implies !overlap(
                etc_path(last.name@),
                #[trigger] others[i],
            ) by {
                assert(most[i] == files[i]);
                assert(others[i] == joined("/etc"@, files[i].name@));
            }
        }
    }
}

/// Each file stands below `/etc` under its own name.
pub proof fn a_file_stands_below_etc(files: Seq<EtcFile>, i: int)
    requires
        0 <= i < files.len(),
        files[i].name@.len() > 0,
        files[i].name@[0] != '/',
    ensures
        etc_mounts(files).len() == files.len(),
        etc_mounts(files)[i] == (files[i].source@, "/etc/"@ + files[i].name@),
{
    reveal_strlit("/etc");
    reveal_strlit("/etc/");
    reveal_strlit("/");
    assert("/etc"@ + "/"@ + files[i].name@ =~= "/etc/"@ + files[i].name@);
}

} // verus!
