//! The names of agents.
use vstd::bytes::{spec_u64_from_le_bytes, u64_from_le_bytes};
use vstd::prelude::*;
use vstd::slice::slice_subrange;

use crate::directory::{fault, Fault};
use crate::text::{chars, digit, is_digit};

verus! {

pub open spec fn is_lower(c: char) -> bool {
    'a' <= c && c <= 'z'
}

/// One to 32 lower-case letters, digits and hyphens, with a letter at the start.
pub open spec fn is_agent_name(s: Seq<char>) -> bool {
    &&& 1 <= s.len() <= 32
    &&& is_lower(s[0])
    &&& forall|i: int|
        0 <= i < s.len() ==> is_lower(#[trigger] s[i]) || is_digit(s[i]) || s[i] == '-'
}

/// Whether a session may be given that name.
pub fn valid_agent_name(name: &str) -> (r: bool)
    ensures
        r == is_agent_name(name@),
{
    let c = chars(name);
    if c.len() == 0 || c.len() > 32 || !('a' <= c[0] && c[0] <= 'z') {
        return false;
    }
    let mut i: usize = 0;
    while i < c.len()
        invariant
            i <= c@.len(),
            c@ == name@,
            forall|j: int|
                0 <= j < i ==> is_lower(#[trigger] c@[j]) || is_digit(c@[j]) || c@[j] == '-',
        decreases c@.len() - i,
    {
        if !(('a' <= c[i] && c[i] <= 'z') || digit(c[i]) || c[i] == '-') {
            return false;
        }
        i += 1;
    }
    true
}

/// What some strings say.
pub open spec fn said(v: Seq<&'static str>) -> Seq<Seq<char>> {
    v.map_values(|s: &'static str| s@)
}

/// The names that are given where none is asked for.
pub open spec fn goblin_pool() -> Seq<Seq<char>> {
    seq![
        "azgrub"@, "blikk"@, "crumt"@, "drazz"@, "ekkit"@, "fnarg"@,
        "grib"@, "hobnok"@, "irkle"@, "jabbit"@, "krunk"@, "lurt"@,
        "mogwik"@, "nibb"@, "ogrit"@, "pikkle"@, "quazz"@, "rukk"@,
        "snikk"@, "trogg"@, "urk"@, "vexit"@, "wort"@, "xarn"@,
        "yabbo"@, "zoggit"@,
    ]
}

/// The names that are given where none is asked for. No two begin alike.
pub fn goblin_names() -> (r: Vec<&'static str>)
    ensures
        r@.len() == 26,
        said(r@) == goblin_pool(),
        forall|i: int| 0 <= i < r@.len() ==> is_agent_name(#[trigger] r@[i]@),
        forall|i: int, j: int|
            0 <= i < j < r@.len() ==> #[trigger] r@[i]@ != #[trigger] r@[j]@,
{
    let r: Vec<&'static str> = vec![
        "azgrub", "blikk", "crumt", "drazz", "ekkit", "fnarg", "grib", "hobnok", "irkle", "jabbit",
        "krunk", "lurt", "mogwik", "nibb", "ogrit", "pikkle", "quazz", "rukk", "snikk", "trogg",
        "urk", "vexit", "wort", "xarn", "yabbo", "zoggit",
    ];
    assert(said(r@) =~= goblin_pool());
    proof {
        reveal_strlit("azgrub");
        reveal_strlit("blikk");
        reveal_strlit("crumt");
        reveal_strlit("drazz");
        reveal_strlit("ekkit");
        reveal_strlit("fnarg");
        reveal_strlit("grib");
        reveal_strlit("hobnok");
        reveal_strlit("irkle");
        reveal_strlit("jabbit");
        reveal_strlit("krunk");
        reveal_strlit("lurt");
        reveal_strlit("mogwik");
        reveal_strlit("nibb");
        reveal_strlit("ogrit");
        reveal_strlit("pikkle");
        reveal_strlit("quazz");
        reveal_strlit("rukk");
        reveal_strlit("snikk");
        reveal_strlit("trogg");
        reveal_strlit("urk");
        reveal_strlit("vexit");
        reveal_strlit("wort");
        reveal_strlit("xarn");
        reveal_strlit("yabbo");
        reveal_strlit("zoggit");
        assert forall|i: int| 0 <= i < r@.len() implies is_agent_name(#[trigger] r@[i]@) && r@[i]@[0]
            as u32 == 'a' as u32 + i by {}
        assert forall|i: int, j: int| 0 <= i < j < r@.len() implies #[trigger] r@[i]@
            != #[trigger] r@[j]@ by {
            assert(r@[i]@[0] as u32 == 'a' as u32 + i);
            assert(r@[j]@[0] as u32 == 'a' as u32 + j);
        }
    }
    r
}

/// The samples that are used: as many for each of `n` candidates.
pub open spec fn sample_limit(n: nat) -> nat {
    (u64::MAX as nat - u64::MAX as nat % n) as nat
}

pub open spec fn sample(random: Seq<u8>, i: nat) -> u64 {
    spec_u64_from_le_bytes(random.subrange(8 * i as int, 8 * i as int + 8))
}

/// Which of `n` candidates random bytes choose from the attempt `i` on, of at most eight.
pub open spec fn drawn(n: nat, random: Seq<u8>, i: nat) -> Result<nat, Seq<char>>
    decreases 8 - i,
{
    if i >= 8 {
        Err("cannot select random agent name after 8 attempts"@)
    } else if random.len() < 8 * (i + 1) {
        Err("cannot read randomness for agent name"@)
    } else if sample(random, i) < sample_limit(n) {
        Ok(sample(random, i) as nat % n)
    } else {
        drawn(n, random, i + 1)
    }
}

/// What is chosen is one of the candidates.
pub proof fn lemma_drawn_in_range(n: nat, random: Seq<u8>, i: nat)
    requires
        n > 0,
    ensures
        drawn(n, random, i) matches Ok(k) ==> k < n,
    decreases 8 - i,
{
    if i < 8 {
        lemma_drawn_in_range(n, random, i + 1);
    }
}

/// Chooses one of the candidates by random bytes, eight for each attempt. Samples
/// that would favour some candidates are passed over.
pub fn random_name<'a>(available: &[&'a str], random: &[u8]) -> (r: Result<&'a str, Fault>)
    ensures
        if available@.len() == 0 {
            r matches Err(f) && fault(f) == (-32010int, "automatic agent name pool exhausted"@)
        } else {
            match drawn(available@.len(), random@, 0) {
                Ok(k) => r matches Ok(name) && name == available@[k as int],
                Err(e) => r matches Err(f) && fault(f) == (-32010int, e),
            }
        },
{
    if available.len() == 0 {
        return Err((-32010, String::from_str("automatic agent name pool exhausted")));
    }
    let count: u64 = available.len() as u64;
    let limit: u64 = u64::MAX - u64::MAX % count;
    let mut i: usize = 0;
    while i < 8
        invariant
            i <= 8,
            count == available@.len(),
            count > 0,
            limit == sample_limit(count as nat),
            drawn(available@.len(), random@, 0) == drawn(available@.len(), random@, i as nat),
        decreases 8 - i,
    {
        if random.len() < 8 * (i + 1) {
            return Err((-32010, String::from_str("cannot read randomness for agent name")));
        }
        let bytes = slice_subrange(random, 8 * i, 8 * i + 8);
        let value: u64 = u64_from_le_bytes(bytes);
        assert(value == sample(random@, i as nat));
        if value < limit {
            let k: usize = (value % count) as usize;
            return Ok(available[k]);
        }
        i += 1;
    }
    Err((-32010, String::from_str("cannot select random agent name after 8 attempts")))
}

/// Every candidate is chosen by as many samples as any other: the samples in use
/// are whole rounds of all candidates.
pub proof fn no_candidate_is_favoured(n: nat, k: nat)
    requires
        0 < n <= u64::MAX,
        k < n,
    ensures
        sample_limit(n) % n == 0,
        sample_limit(n) > 0,
        forall|round: nat| round < sample_limit(n) / n ==> {
            let s = #[trigger] (round * n) + k;
            s < sample_limit(n) && s % n == k
        },
{
    let m = u64::MAX as nat;
    vstd::arithmetic::div_mod::lemma_fundamental_div_mod(m as int, n as int);
    let q = m / n;
    assert(sample_limit(n) == n * q);
    vstd::arithmetic::div_mod::lemma_mod_multiples_basic(q as int, n as int);
    assert(n * q == q * n) by (nonlinear_arith);
    vstd::arithmetic::div_mod::lemma_div_multiples_vanish(q as int, n as int);
    assert(q >= 1) by (nonlinear_arith)
        requires
            n <= m,
            m == n * q + m % n,
            m % n < n,
            m > 0,
            n > 0,
    ;
    assert(n * q >= 1) by (nonlinear_arith)
        requires
            q >= 1,
            n >= 1,
    ;
    assert forall|round: nat| round < sample_limit(n) / n implies ({
        let s = #[trigger] (round * n) + k;
        s < sample_limit(n) && s % n == k
    }) by {
        assert(round * n + k < q * n) by (nonlinear_arith)
            requires
                round < q,
                k < n,
        ;
        vstd::arithmetic::div_mod::lemma_mod_multiples_vanish(round as int, k as int, n as int);
        vstd::arithmetic::div_mod::lemma_small_mod(k, n);
        assert(n * round + k == round * n + k) by (nonlinear_arith);
    }
}

} // verus!
