//! Published ports of containers: which there are, and which are passed on to a session
//! that stands in another network.
use vstd::prelude::*;
use vstd::utf8::{decode_utf8, valid_utf8};

use crate::config::{member, text_at};
use crate::json::{lookup, Json};
use crate::text::{
    a_part_ends_at_its_mark, chars, cut, from_utf8, parts_of, same, split, split_once, texts, utf8_complaint,
};

verus! {

/// The most bytes of an engine's answer.
pub const ANSWER: usize = 1_048_576;

/// The most ports that are passed on.
pub const PORTS: usize = 128;

/// A number from 0 to 255, as it is written in an address.
pub open spec fn is_octet(s: Seq<char>) -> bool {
    1 <= s.len() <= 3 && (forall|i: int| 0 <= i < s.len() ==> '0' <= #[trigger] s[i] <= '9') && (
    s.len() > 1 ==> s[0] != '0') && crate::text::value_of(s) <= 255
}

/// An address of four such numbers.
pub open spec fn is_address(s: Seq<char>) -> bool {
    let parts = parts_of(s, '.');
    parts.len() == 4 && forall|i: int| 0 <= i < 4 ==> is_octet(#[trigger] parts[i])
}

fn octet(s: &str) -> (r: bool)
    ensures
        r == is_octet(s@),
{
    let v = chars(s);
    if v.len() == 0 || v.len() > 3 || (v.len() > 1 && v[0] == '0') {
        return false;
    }
    let mut n: u32 = 0;
    let mut k: usize = 0;
    assert(v@.take(0) =~= Seq::empty());
    while k < v.len()
        invariant
            v@ == s@,
            k <= v@.len() <= 3,
            n == crate::text::value_of(v@.take(k as int)),
            k == 0 ==> n == 0,
            k == 1 ==> n <= 9,
            k == 2 ==> n <= 99,
            k == 3 ==> n <= 999,
            forall|i: int| 0 <= i < k ==> '0' <= #[trigger] v@[i] <= '9',
        decreases v@.len() - k,
    {
        let c = v[k];
        if !('0' <= c && c <= '9') {
            return false;
        }
        assert(v@.take(k + 1).drop_last() =~= v@.take(k as int));
        n = n * 10 + (c as u32 - '0' as u32);
        k += 1;
    }
    assert(v@.take(k as int) =~= v@);
    n <= 255
}

/// Whether a text writes an address.
pub fn address(s: &str) -> (r: bool)
    ensures
        r == is_address(s@),
{
    let parts = split(s, '.');
    let ghost t = parts_of(s@, '.');
    assert(texts(parts@).len() == parts@.len());
    if parts.len() != 4 {
        return false;
    }
    assert(forall|i: int| 0 <= i < 4 ==> #[trigger] t[i] == parts@[i]@);
    let r = octet(&parts[0]) && octet(&parts[1]) && octet(&parts[2]) && octet(&parts[3]);
    if !r {
        assert(!(is_octet(t[0]) && is_octet(t[1]) && is_octet(t[2]) && is_octet(t[3])));
    }
    r
}

/// The body of an engine's answer.
pub fn body(response: &Vec<u8>) -> (r: Result<String, String>)
    ensures
        if !valid_utf8(response@) {
            r matches Err(e) && e@ == utf8_complaint(response@)
        } else {
            match cut(decode_utf8(response@), "\r\n\r\n"@) {
                Some((_, b)) => r matches Ok(t) && t@ == b,
                None => r matches Err(e) && e@ == "invalid Docker response"@,
            }
        },
{
    let text = from_utf8(response.as_slice())?;
    match split_once(&text, "\r\n\r\n") {
        Some((_, b)) => Ok(b),
        None => Err(String::from_str("invalid Docker response")),
    }
}

/// Takes in more of an answer, up to a limit.
pub fn receive(response: &mut Vec<u8>, bytes: &[u8]) -> (r: Result<(), String>)
    requires
        old(response)@.len() <= ANSWER,
    ensures
        final(response)@.len() <= ANSWER,
        if old(response)@.len() + bytes@.len() > ANSWER {
            r matches Err(e) && e@ == "Docker port response too large"@ && *final(response) == *old(
                response,
            )
        } else {
            r is Ok && final(response)@ == old(response)@ + bytes@
        },
{
    if bytes.len() > ANSWER - response.len() {
        return Err(String::from_str("Docker port response too large"));
    }
    let mut k: usize = 0;
    assert(bytes@.take(0) =~= Seq::empty());
    assert(response@ =~= response@ + bytes@.take(0));
    while k < bytes.len()
        invariant
            k <= bytes@.len(),
            response@ == old(response)@ + bytes@.take(k as int),
        decreases bytes@.len() - k,
    {
        response.push(bytes[k]);
        assert(response@ =~= old(response)@ + bytes@.take(k + 1));
        k += 1;
    }
    assert(bytes@.take(k as int) =~= bytes@);
    Ok(())
}

/// The port that an entry publishes and the address that it is reached at, if it is one
/// of those that are passed on. An entry for every address is reached at the local one.
pub open spec fn published(entry: Json) -> Option<(u16, Seq<char>)> {
    if text_at(entry, "Type"@) != Some("tcp"@) {
        None
    } else {
        match member(entry, "PublicPort"@) {
            Json::Unsigned(n) => {
                let ip = match text_at(entry, "IP"@) {
                    Some(t) => t,
                    None => "0.0.0.0"@,
                };
                if 1 <= n <= 65535 && is_address(ip) {
                    Some(
                        (
                            n as u16,
                            if ip == "0.0.0.0"@ {
                                "127.0.0.1"@
                            } else {
                                ip
                            },
                        ),
                    )
                } else {
                    None
                }
            },
            _ => None,
        }
    }
}

fn publication(entry: &Json) -> (r: Option<(u16, String)>)
    ensures
        match published(*entry) {
            Some((p, ip)) => r matches Some((q, t)) && q == p && t@ == ip,
            None => r is None,
        },
{
    let tcp = match entry.get("Type") {
        Some(t) => match t.as_str() {
            Some(s) => same(s, "tcp"),
            None => false,
        },
        None => false,
    };
    if !tcp {
        return None;
    }
    let port: u64 = match entry.get("PublicPort") {
        Some(p) => match p.as_u64() {
            Some(n) => n,
            None => {
                return None;
            },
        },
        None => {
            return None;
        },
    };
    let ip: String = match entry.get("IP") {
        Some(t) => match t.as_str() {
            Some(s) => String::from_str(s),
            None => String::from_str("0.0.0.0"),
        },
        None => String::from_str("0.0.0.0"),
    };
    if port < 1 || port > 65535 || !address(&ip) {
        return None;
    }
    if same(&ip, "0.0.0.0") {
        Some((port as u16, String::from_str("127.0.0.1")))
    } else {
        Some((port as u16, ip))
    }
}

/// A table of ports: in order, each once.
pub open spec fn is_table(v: Seq<(u16, String)>) -> bool {
    forall|i: int, j: int| 0 <= i < j < v.len() ==> (#[trigger] v[i]).0 < (#[trigger] v[j]).0
}

pub open spec fn has_port(v: Seq<(u16, String)>, port: u16) -> bool {
    exists|i: int| 0 <= i < v.len() && (#[trigger] v[i]).0 == port
}

/// Where a port is reached, by a table.
pub open spec fn reached_at(v: Seq<(u16, String)>, port: u16, ip: Seq<char>) -> bool {
    exists|i: int| 0 <= i < v.len() && (#[trigger] v[i]).0 == port && v[i].1@ == ip
}

/// Where a port stands in a table, or belongs.
fn seat(v: &Vec<(u16, String)>, port: u16) -> (r: (usize, bool))
    requires
        is_table(v@),
    ensures
        r.0 <= v@.len(),
        forall|i: int| 0 <= i < r.0 ==> (#[trigger] v@[i]).0 < port,
        r.1 == has_port(v@, port),
        r.1 ==> r.0 < v@.len() && v@[r.0 as int].0 == port,
        !r.1 ==> forall|i: int| r.0 <= i < v@.len() ==> port < (#[trigger] v@[i]).0,
{
    let mut k: usize = 0;
    while k < v.len() && v[k].0 < port
        invariant
            k <= v@.len(),
            forall|i: int| 0 <= i < k ==> (#[trigger] v@[i]).0 < port,
        decreases v@.len() - k,
    {
        k += 1;
    }
    let found = k < v.len() && v[k].0 == port;
    proof {
        if !found && k < v@.len() {
            assert forall|i: int| k <= i < v@.len() implies port < (#[trigger] v@[i]).0 by {
                if i > k {
                    assert(v@[k as int].0 < v@[i].0);
                }
            }
        }
    }
    (k, found)
}

/// The entries of a list of containers, one after the other.
pub open spec fn entries_of(containers: Seq<Json>) -> Seq<Json>
    decreases containers.len(),
{
    if containers.len() == 0 {
        Seq::empty()
    } else {
        entries_of(containers.drop_last()) + (match member(containers.last(), "Ports"@) {
            Json::Array(items) => items@,
            _ => Seq::empty(),
        })
    }
}

/// The ports that the first of some entries publish: the first entry of a port counts,
/// and once there are as many as are passed on, no more are looked at.
pub open spec fn table_of(entries: Seq<Json>) -> Map<u16, Seq<char>>
    decreases entries.len(),
{
    if entries.len() == 0 {
        Map::empty()
    } else {
        let most = table_of(entries.drop_last());
        match published(entries.last()) {
            None => most,
            Some((port, ip)) => if most.dom().contains(port) || most.dom().len() >= PORTS {
                most
            } else {
                most.insert(port, ip)
            },
        }
    }
}

/// A table holds what a map does.
pub open spec fn tells(v: Seq<(u16, String)>, m: Map<u16, Seq<char>>) -> bool {
    &&& is_table(v)
    &&& m.dom().finite()
    &&& v.len() == m.dom().len()
    &&& forall|p: u16| #[trigger] m.dom().contains(p) ==> has_port(v, p)
    &&& forall|i: int|
        0 <= i < v.len() ==> m.dom().contains((#[trigger] v[i]).0) && m[v[i].0] == v[i].1@
}

/// Adds a port that a table does not have.
fn note(v: &mut Vec<(u16, String)>, k: usize, port: u16, ip: String, Ghost(m): Ghost<
    Map<u16, Seq<char>>,
>)
    requires
        tells(old(v)@, m),
        !m.dom().contains(port),
        k <= old(v)@.len(),
        forall|i: int| 0 <= i < k ==> (#[trigger] old(v)@[i]).0 < port,
        forall|i: int| k <= i < old(v)@.len() ==> port < (#[trigger] old(v)@[i]).0,
    ensures
        tells(final(v)@, m.insert(port, ip@)),
{
    let ghost before = v@;
    v.insert(k, (port, ip));
    proof {
        let after = v@;
        let n = m.insert(port, ip@);
        assert(n.dom() =~= m.dom().insert(port));
        assert forall|i: int, j: int| 0 <= i < j < after.len() implies (#[trigger] after[i]).0 < (
        #[trigger] after[j]).0 by {
            let a = if i < k { i } else { i - 1 };
            let b = if j < k { j } else { j - 1 };
            if i == k {
                assert(after[j] == before[b]);
            } else if j == k {
                assert(after[i] == before[a]);
            } else {
                assert(after[i] == before[a] && after[j] == before[b]);
            }
        }
        assert forall|p: u16| #[trigger] n.dom().contains(p) implies has_port(after, p) by {
            if p == port {
                assert(after[k as int].0 == p);
            } else {
                assert(m.dom().contains(p));
                let j = choose|j: int| 0 <= j < before.len() && (#[trigger] before[j]).0 == p;
                let i = if j < k { j } else { j + 1 };
                assert(after[i] == before[j]);
            }
        }
        assert forall|i: int| 0 <= i < after.len() implies n.dom().contains((#[trigger] after[i]).0)
            && n[after[i].0] == after[i].1@ by {
            if i != k {
                let j = if i < k { i } else { i - 1 };
                assert(after[i] == before[j]);
            }
        }
    }
}

/// The entries of one container, added to a table.
fn add_entries(v: &mut Vec<(u16, String)>, items: &Vec<Json>, Ghost(done): Ghost<Seq<Json>>)
    requires
        tells(old(v)@, table_of(done)),
    ensures
        tells(final(v)@, table_of(done + items@)),
{
    let mut k: usize = 0;
    assert(done + items@.take(0) =~= done);
    while k < items.len()
        invariant
            k <= items@.len(),
            tells(v@, table_of(done + items@.take(k as int))),
        decreases items@.len() - k,
    {
        let ghost some = done + items@.take(k as int);
        let ghost more = done + items@.take(k + 1);
        assert(more.drop_last() =~= some);
        assert(more.last() == items@[k as int]);
        match publication(&items[k]) {
            None => {},
            Some((port, ip)) => {
                let (at, found) = seat(v, port);
                assert(found == table_of(some).dom().contains(port));
                if !found && v.len() < PORTS {
                    note(v, at, port, ip, Ghost(table_of(some)));
                }
            },
        }
        k += 1;
    }
    assert(items@.take(k as int) =~= items@);
}

/// The ports that containers publish, and where they are reached.
pub fn ports(containers: &Json) -> (r: Result<Vec<(u16, String)>, String>)
    ensures
        match *containers {
            Json::Array(items) => r matches Ok(v) && tells(v@, table_of(entries_of(items@))),
            _ => r matches Err(e) && e@ == "invalid container list"@,
        },
{
    match containers {
        Json::Array(items) => {
            let mut v: Vec<(u16, String)> = Vec::new();
            let mut k: usize = 0;
            assert(items@.take(0) =~= Seq::empty());
            assert(tells(v@, table_of(entries_of(items@.take(0)))));
            while k < items.len()
                invariant
                    k <= items@.len(),
                    *containers == Json::Array(*items),
                    tells(v@, table_of(entries_of(items@.take(k as int)))),
                decreases items@.len() - k,
            {
                let ghost done = entries_of(items@.take(k as int));
                assert(items@.take(k + 1).drop_last() =~= items@.take(k as int));
                let none: Vec<Json> = Vec::new();
                let ports: &Vec<Json> = match items[k].get("Ports") {
                    Some(Json::Array(entries)) => entries,
                    _ => &none,
                };
                assert(entries_of(items@.take(k + 1)) =~= done + ports@);
                add_entries(&mut v, ports, Ghost(done));
                k += 1;
            }
            assert(items@.take(k as int) =~= items@);
            Ok(v)
        },
        _ => Err(String::from_str("invalid container list")),
    }
}

/// What passes a port on: the port, the address that it was made for, and whether it
/// runs.
pub struct Forwarder {
    pub port: u16,
    pub address: String,
    pub running: bool,
}

/// A forwarder goes on while it runs and its port is reached where it was.
pub open spec fn stays(f: Forwarder, ports: Seq<(u16, String)>) -> bool {
    f.running && reached_at(ports, f.port, f.address@)
}

/// Some forwarder of a port goes on.
pub open spec fn served(fs: Seq<Forwarder>, ports: Seq<(u16, String)>, port: u16) -> bool {
    exists|i: int| 0 <= i < fs.len() && (#[trigger] fs[i]).port == port && stays(fs[i], ports)
}

/// Which forwarders go on, and which ports get a new one.
pub fn settle(fs: &Vec<Forwarder>, ports: &Vec<(u16, String)>) -> (r: (Vec<bool>, Vec<bool>))
    requires
        is_table(ports@),
    ensures
        r.0@.len() == fs@.len(),
        forall|i: int| 0 <= i < fs@.len() ==> #[trigger] r.0@[i] == stays(fs@[i], ports@),
        r.1@.len() == ports@.len(),
        forall|j: int|
            0 <= j < ports@.len() ==> #[trigger] r.1@[j] == !served(fs@, ports@, ports@[j].0),
{
    let mut keep: Vec<bool> = Vec::new();
    let mut k: usize = 0;
    while k < fs.len()
        invariant
            k <= fs@.len(),
            is_table(ports@),
            keep@.len() == k,
            forall|i: int| 0 <= i < k ==> #[trigger] keep@[i] == stays(fs@[i], ports@),
        decreases fs@.len() - k,
    {
        let (at, found) = seat(ports, fs[k].port);
        let there = found && same(&ports[at].1, &fs[k].address);
        proof {
            if reached_at(ports@, fs@[k as int].port, fs@[k as int].address@) {
                let i = choose|i: int|
                    0 <= i < ports@.len() && (#[trigger] ports@[i]).0 == fs@[k as int].port
                        && ports@[i].1@ == fs@[k as int].address@;
                assert(has_port(ports@, fs@[k as int].port));
                if i < at {
                    assert(ports@[i].0 < fs@[k as int].port);
                } else if i > at {
                    assert(ports@[at as int].0 < ports@[i].0);
                }
            }
        }
        keep.push(fs[k].running && there);
        k += 1;
    }
    let mut fresh: Vec<bool> = Vec::new();
    let mut j: usize = 0;
    while j < ports.len()
        invariant
            j <= ports@.len(),
            keep@.len() == fs@.len(),
            forall|i: int| 0 <= i < fs@.len() ==> #[trigger] keep@[i] == stays(fs@[i], ports@),
            fresh@.len() == j,
            forall|i: int|
                0 <= i < j ==> #[trigger] fresh@[i] == !served(fs@, ports@, ports@[i].0),
        decreases ports@.len() - j,
    {
        let port = ports[j].0;
        let mut found: bool = false;
        let mut m: usize = 0;
        while m < fs.len()
            invariant
                m <= fs@.len(),
                keep@.len() == fs@.len(),
                forall|i: int| 0 <= i < fs@.len() ==> #[trigger] keep@[i] == stays(fs@[i], ports@),
                found == exists|i: int|
                    0 <= i < m && (#[trigger] fs@[i]).port == port && stays(fs@[i], ports@),
            decreases fs@.len() - m,
        {
            assert(keep@[m as int] == stays(fs@[m as int], ports@));
            if keep[m] && fs[m].port == port {
                found = true;
            }
            m += 1;
        }
        fresh.push(!found);
        j += 1;
    }
    (keep, fresh)
}

/// No more ports are passed on than the limit, whatever containers publish, and each is
/// one that a container publishes.
pub proof fn forwarding_is_bounded(entries: Seq<Json>)
    ensures
        table_of(entries).dom().finite(),
        table_of(entries).dom().len() <= PORTS,
        forall|p: u16| #[trigger]
            table_of(entries).dom().contains(p) ==> exists|i: int|
                0 <= i < entries.len() && #[trigger] published(entries[i]) == Some(
                    (p, table_of(entries)[p]),
                ),
    decreases entries.len(),
{
    if entries.len() > 0 {
        let most = entries.drop_last();
        forwarding_is_bounded(most);
        let m = table_of(entries);
        let n = table_of(most);
        assert forall|p: u16| #[trigger] m.dom().contains(p) implies exists|i: int|
            0 <= i < entries.len() && #[trigger] published(entries[i]) == Some((p, m[p])) by {
            if n.dom().contains(p) {
                let i = choose|i: int|
                    0 <= i < most.len() && #[trigger] published(most[i]) == Some((p, n[p]));
                assert(entries[i] == most[i]);
                assert(published(entries[i]) == Some((p, m[p])));
            } else {
                assert(published(entries[entries.len() - 1]) == Some((p, m[p])));
            }
        }
        match published(entries.last()) {
            Some((port, ip)) => {
                if !(n.dom().contains(port) || n.dom().len() >= PORTS) {
                    assert(m.dom() =~= n.dom().insert(port));
                }
            },
            None => {},
        }
    }
}

/// An entry publishes a port to others: it is one of TCP, and the address that it is for, if
/// it names any, is one.
pub open spec fn publishes(entry: Json, port: u16) -> bool {
    &&& lookup(entry.fields(), "Type"@) matches Some(Json::Text(t)) && t@ == "tcp"@
    &&& lookup(entry.fields(), "PublicPort"@) == Some(Json::Unsigned(port as u64))
    &&& port >= 1
    &&& lookup(entry.fields(), "IP"@) matches Some(Json::Text(ip)) ==> is_address(ip@)
}

/// Where a port that an entry publishes is reached: at the address that it names, and locally
/// where that is none or every one.
pub open spec fn address_in(entry: Json) -> Seq<char> {
    match lookup(entry.fields(), "IP"@) {
        Some(Json::Text(ip)) => if ip@ == "0.0.0.0"@ {
            "127.0.0.1"@
        } else {
            ip@
        },
        _ => "127.0.0.1"@,
    }
}

proof fn lemma_publishes(entry: Json, port: u16)
    ensures
        publishes(entry, port) ==> published(entry) == Some((port, address_in(entry))),
        published(entry) matches Some((p, ip)) ==> publishes(entry, p) && ip == address_in(entry),
{
    lemma_everywhere();
}

/// The address that stands for every one is an address.
proof fn lemma_everywhere()
    ensures
        is_address("0.0.0.0"@),
{
    reveal_strlit("0.0.0.0");
    let s = "0.0.0.0"@;
    lemma_four_parts(seq!['0'], seq!['0'], seq!['0'], seq!['0']);
    assert(s =~= seq!['0'].push('.') + seq!['0'].push('.') + seq!['0'].push('.') + seq!['0']);
    assert(crate::text::value_of(seq!['0']) == 0) by {
        assert(seq!['0'].drop_last() =~= Seq::<char>::empty());
        reveal_with_fuel(crate::text::value_of, 2);
    }
}

/// Four texts without a dot, with dots between them, are the parts of what they make.
proof fn lemma_four_parts(a: Seq<char>, b: Seq<char>, c: Seq<char>, d: Seq<char>)
    requires
        !a.contains('.'),
        !b.contains('.'),
        !c.contains('.'),
        !d.contains('.'),
    ensures
        parts_of(a.push('.') + b.push('.') + c.push('.') + d, '.') == seq![a, b, c, d],
{
    let cd = c.push('.') + d;
    let bcd = b.push('.') + cd;
    let abcd = a.push('.') + bcd;
    a_part_ends_at_its_mark(d, Seq::empty(), '.');
    a_part_ends_at_its_mark(c, d, '.');
    a_part_ends_at_its_mark(b, cd, '.');
    a_part_ends_at_its_mark(a, bcd, '.');
    assert(abcd =~= a.push('.') + b.push('.') + c.push('.') + d);
    assert(parts_of(abcd, '.') =~= seq![a, b, c, d]);
}

/// What containers publish is looked for in the list of each, one after the other.
pub proof fn every_container_is_looked_at(containers: Seq<Json>)
    ensures
        entries_of(containers) == Seq::new(
            containers.len(),
            |k: int|
                match lookup(containers[k].fields(), "Ports"@) {
                    Some(Json::Array(items)) => items@,
                    _ => Seq::<Json>::empty(),
                },
        ).flatten(),
    decreases containers.len(),
{
    let f = |k: int|
        match lookup(containers[k].fields(), "Ports"@) {
            Some(Json::Array(items)) => items@,
            _ => Seq::<Json>::empty(),
        };
    let all = Seq::new(containers.len(), f);
    if containers.len() > 0 {
        let most = containers.drop_last();
        every_container_is_looked_at(most);
        let some = Seq::new(
            most.len(),
            |k: int|
                match lookup(most[k].fields(), "Ports"@) {
                    Some(Json::Array(items)) => items@,
                    _ => Seq::<Json>::empty(),
                },
        );
        assert(all.drop_last() =~= some);
        all.lemma_flatten_and_flatten_alt_are_equivalent();
        some.lemma_flatten_and_flatten_alt_are_equivalent();
        assert(all.flatten_alt() == all.drop_last().flatten_alt() + all.last());
    } else {
        assert(all =~= Seq::empty());
    }
}

proof fn lemma_entry_found(containers: Seq<Json>, k: int, items: Vec<Json>, e: int) -> (j: int)
    requires
        0 <= k < containers.len(),
        lookup(containers[k].fields(), "Ports"@) == Some(Json::Array(items)),
        0 <= e < items@.len(),
    ensures
        0 <= j < entries_of(containers).len(),
        entries_of(containers)[j] == items@[e],
    decreases containers.len(),
{
    let most = containers.drop_last();
    if k < most.len() {
        lemma_entry_found(most, k, items, e)
    } else {
        entries_of(most).len() + e
    }
}

proof fn lemma_entry_from(containers: Seq<Json>, j: int) -> (r: (int, Vec<Json>, int))
    requires
        0 <= j < entries_of(containers).len(),
    ensures
        0 <= r.0 < containers.len(),
        lookup(containers[r.0].fields(), "Ports"@) == Some(Json::Array(r.1)),
        0 <= r.2 < r.1@.len(),
        r.1@[r.2] == entries_of(containers)[j],
    decreases containers.len(),
{
    let most = containers.drop_last();
    if j < entries_of(most).len() {
        let r = lemma_entry_from(most, j);
        assert(most[r.0] == containers[r.0]);
        r
    } else {
        let items = match member(containers.last(), "Ports"@) {
            Json::Array(items) => items,
            _ => arbitrary(),
        };
        (containers.len() - 1, items, j - entries_of(most).len())
    }
}

/// A table has every port that one of the entries publishes, unless it is full, and it has
/// what the first of them says.
pub proof fn the_first_entry_of_a_port_counts(entries: Seq<Json>, j: int, port: u16)
    requires
        0 <= j < entries.len(),
        publishes(entries[j], port),
        forall|i: int| 0 <= i < j ==> !publishes(#[trigger] entries[i], port),
    ensures
        table_of(entries).dom().contains(port) || table_of(entries).dom().len() == 128,
        table_of(entries).dom().contains(port) ==> table_of(entries)[port] == address_in(
            entries[j],
        ),
    decreases entries.len(),
{
    let most = entries.drop_last();
    lemma_publishes(entries.last(), port);
    forwarding_is_bounded(most);
    forwarding_is_bounded(entries);
    if j < most.len() {
        assert forall|i: int| 0 <= i < j implies !publishes(#[trigger] most[i], port) by {
            assert(most[i] == entries[i]);
        }
        the_first_entry_of_a_port_counts(most, j, port);
        let m = table_of(entries);
        match published(entries.last()) {
            Some((p, ip)) => {
                if !(table_of(most).dom().contains(p) || table_of(most).dom().len() >= PORTS) {
                    assert(m.dom() =~= table_of(most).dom().insert(p));
                    if p == port {
                        assert(table_of(most).dom().contains(port));
                    }
                }
            },
            None => {},
        }
    } else {
        if table_of(most).dom().contains(port) {
            let i = choose|i: int|
                0 <= i < most.len() && #[trigger] published(most[i]) == Some(
                    (port, table_of(most)[port]),
                );
            lemma_publishes(most[i], port);
            assert(entries[i] == most[i]);
            assert(false);
        }
    }
}

/// Every port that some container publishes is passed on, unless as many are as may be.
pub proof fn published_ports_are_passed_on(
    containers: Seq<Json>,
    v: Seq<(u16, String)>,
    k: int,
    items: Vec<Json>,
    e: int,
    port: u16,
)
    requires
        tells(v, table_of(entries_of(containers))),
        0 <= k < containers.len(),
        lookup(containers[k].fields(), "Ports"@) == Some(Json::Array(items)),
        0 <= e < items@.len(),
        publishes(items@[e], port),
    ensures
        v.len() == 128 || exists|i: int| 0 <= i < v.len() && (#[trigger] v[i]).0 == port,
{
    let all = entries_of(containers);
    let j = lemma_entry_found(containers, k, items, e);
    let first = lemma_first_entry(all, j, port);
    the_first_entry_of_a_port_counts(all, first, port);
    if table_of(all).dom().contains(port) {
        assert(has_port(v, port));
    }
}

proof fn lemma_first_entry(entries: Seq<Json>, j: int, port: u16) -> (i: int)
    requires
        0 <= j < entries.len(),
        publishes(entries[j], port),
    ensures
        0 <= i <= j,
        publishes(entries[i], port),
        forall|h: int| 0 <= h < i ==> !publishes(#[trigger] entries[h], port),
    decreases j,
{
    if exists|h: int| 0 <= h < j && publishes(#[trigger] entries[h], port) {
        let h = choose|h: int| 0 <= h < j && publishes(#[trigger] entries[h], port);
        lemma_first_entry(entries, h, port)
    } else {
        j
    }
}

/// Every port that is passed on is one that some container publishes, reached where that says;
/// they stand in order, each once, and are no more than may be.
pub proof fn passed_on_ports_are_published(
    containers: Seq<Json>,
    v: Seq<(u16, String)>,
    i: int,
) -> (r: (int, Vec<Json>, int))
    requires
        tells(v, table_of(entries_of(containers))),
        0 <= i < v.len(),
    ensures
        0 <= r.0 < containers.len(),
        lookup(containers[r.0].fields(), "Ports"@) == Some(Json::Array(r.1)),
        0 <= r.2 < r.1@.len(),
        publishes(r.1@[r.2], v[i].0),
        v[i].1@ == address_in(r.1@[r.2]),
        v.len() <= 128,
        forall|h: int| 0 <= h < i ==> (#[trigger] v[h]).0 < v[i].0,
{
    let all = entries_of(containers);
    let m = table_of(all);
    forwarding_is_bounded(all);
    assert(m.dom().contains(v[i].0) && m[v[i].0] == v[i].1@);
    let j = choose|j: int| 0 <= j < all.len() && #[trigger] published(all[j]) == Some(
        (v[i].0, m[v[i].0]),
    );
    lemma_publishes(all[j], v[i].0);
    lemma_entry_from(containers, j)
}

/// A forwarder goes on exactly where it runs and its port is still passed on to where it was
/// made for; every port that is passed on has one that goes on, or gets a new one.
pub proof fn every_port_is_forwarded(fs: Seq<Forwarder>, ports: Seq<(u16, String)>, i: int, j: int)
    requires
        is_table(ports),
        0 <= i < fs.len(),
        0 <= j < ports.len(),
    ensures
        stays(fs[i], ports) <==> fs[i].running && exists|k: int|
            0 <= k < ports.len() && (#[trigger] ports[k]).0 == fs[i].port && ports[k].1@
                == fs[i].address@,
        served(fs, ports, ports[j].0) <==> exists|k: int|
            0 <= k < fs.len() && (#[trigger] fs[k]).running && fs[k].port == ports[j].0
                && fs[k].address@ == ports[j].1@,
{
    if served(fs, ports, ports[j].0) {
        let k = choose|k: int|
            0 <= k < fs.len() && (#[trigger] fs[k]).port == ports[j].0 && stays(fs[k], ports);
        let n = choose|n: int|
            0 <= n < ports.len() && (#[trigger] ports[n]).0 == fs[k].port && ports[n].1@
                == fs[k].address@;
        if n < j {
            assert(ports[n].0 < ports[j].0);
        } else if j < n {
            assert(ports[j].0 < ports[n].0);
        }
        assert(fs[k].running);
    }
    if exists|k: int|
        0 <= k < fs.len() && (#[trigger] fs[k]).running && fs[k].port == ports[j].0 && fs[k].address@
            == ports[j].1@ {
        let k = choose|k: int|
            0 <= k < fs.len() && (#[trigger] fs[k]).running && fs[k].port == ports[j].0
                && fs[k].address@ == ports[j].1@;
        assert(ports[j].0 == fs[k].port);
        assert(reached_at(ports, fs[k].port, fs[k].address@));
        assert(fs[k].port == ports[j].0 && stays(fs[k], ports));
    }
}

} // verus!
