//! Numbers that are read from texts, and what is said of texts that hold none.
use vstd::prelude::*;

use crate::text::{chars, decimal_of};

verus! {

pub open spec fn digit_of(c: char) -> Option<nat> {
    if '0' <= c <= '9' {
        Some((c as u32 - '0' as u32) as nat)
    } else {
        None
    }
}

/// What digits write, as long as it is no more than a bound: the first character that is
/// no digit, or that leads past the bound, decides.
pub open spec fn scanned(s: Seq<char>, bound: nat) -> Result<nat, Seq<char>>
    decreases s.len(),
{
    if s.len() == 0 {
        Ok(0)
    } else {
        match scanned(s.drop_last(), bound) {
            Err(e) => Err(e),
            Ok(n) => match digit_of(s.last()) {
                None => Err("invalid digit found in string"@),
                Some(d) => if n * 10 + d > bound {
                    Err("number too large to fit in target type"@)
                } else {
                    Ok(n * 10 + d)
                },
            },
        }
    }
}

/// The number that a text writes, up to a bound. A sign in front is allowed where it
/// changes nothing.
pub open spec fn number_in(s: Seq<char>, bound: nat) -> Result<nat, Seq<char>> {
    if s.len() == 0 {
        Err("cannot parse integer from empty string"@)
    } else if s.len() > 1 && s[0] == '+' {
        scanned(s.skip(1), bound)
    } else {
        scanned(s, bound)
    }
}

/// What a number is read as.
pub open spec fn read_as(r: Result<u64, String>) -> Result<nat, Seq<char>> {
    match r {
        Ok(n) => Ok(n as nat),
        Err(e) => Err(e@),
    }
}

proof fn lemma_scan_stops(s: Seq<char>, bound: nat, n: int)
    requires
        0 <= n <= s.len(),
        scanned(s.take(n), bound) is Err,
    ensures
        scanned(s, bound) == scanned(s.take(n), bound),
    decreases s.len(),
{
    if n == s.len() {
        assert(s.take(n) =~= s);
    } else {
        assert(s.drop_last().take(n) =~= s.take(n));
        lemma_scan_stops(s.drop_last(), bound, n);
    }
}

fn scan(v: &Vec<char>, from: usize, bound: u64) -> (r: Result<u64, String>)
    requires
        from <= v@.len(),
    ensures
        read_as(r) == scanned(v@.skip(from as int), bound as nat),
        r matches Ok(n) ==> n <= bound,
{
    let ghost s = v@.skip(from as int);
    let mut n: u64 = 0;
    let mut k: usize = from;
    assert(s.take(0) =~= Seq::empty());
    while k < v.len()
        invariant
            from <= k <= v@.len(),
            s == v@.skip(from as int),
            n <= bound,
            scanned(s.take(k - from), bound as nat) == Ok::<nat, Seq<char>>(n as nat),
        decreases v@.len() - k,
    {
        let c = v[k];
        let ghost more = s.take(k - from + 1);
        assert(more.drop_last() =~= s.take(k - from));
        assert(more.last() == c);
        if !('0' <= c && c <= '9') {
            proof {
                lemma_scan_stops(s, bound as nat, k - from + 1);
            }
            return Err(String::from_str("invalid digit found in string"));
        }
        let d = (c as u32 - '0' as u32) as u64;
        let next: u128 = (n as u128) * 10 + (d as u128);
        if next > bound as u128 {
            proof {
                lemma_scan_stops(s, bound as nat, k - from + 1);
            }
            return Err(String::from_str("number too large to fit in target type"));
        }
        n = next as u64;
        k += 1;
    }
    assert(s.take(k - from) =~= s);
    Ok(n)
}

/// The number that a text writes, up to a bound.
pub fn parse_up_to(s: &str, bound: u64) -> (r: Result<u64, String>)
    ensures
        read_as(r) == number_in(s@, bound as nat),
        r matches Ok(n) ==> n <= bound,
{
    let v = chars(s);
    if v.len() == 0 {
        return Err(String::from_str("cannot parse integer from empty string"));
    }
    assert(v@.skip(0) =~= v@);
    if v.len() > 1 && v[0] == '+' {
        scan(&v, 1, bound)
    } else {
        scan(&v, 0, bound)
    }
}

/// The number that a text writes, in the range of 32 bits with a sign. A number below
/// the range is told apart from one above it.
pub open spec fn signed_in(s: Seq<char>) -> Result<int, Seq<char>> {
    if s.len() > 1 && s[0] == '-' {
        match scanned(s.skip(1), 0x8000_0000) {
            Ok(n) => Ok(-(n as int)),
            Err(e) => if e == "number too large to fit in target type"@ {
                Err("number too small to fit in target type"@)
            } else {
                Err(e)
            },
        }
    } else {
        match number_in(s, 0x7FFF_FFFF) {
            Ok(n) => Ok(n as int),
            Err(e) => Err(e),
        }
    }
}

/// The number that a text writes, in the range of 32 bits with a sign.
pub fn parse_signed(s: &str) -> (r: Result<i32, String>)
    ensures
        match signed_in(s@) {
            Ok(n) => r matches Ok(m) && m == n,
            Err(e) => r matches Err(t) && t@ == e,
        },
{
    let v = chars(s);
    if v.len() > 1 && v[0] == '-' {
        match scan(&v, 1, 0x8000_0000) {
            Ok(n) => {
                let m: i64 = -(n as i64);
                Ok(m as i32)
            },
            Err(e) => if crate::text::same(&e, "number too large to fit in target type") {
                Err(String::from_str("number too small to fit in target type"))
            } else {
                Err(e)
            },
        }
    } else {
        match parse_up_to(s, 0x7FFF_FFFF) {
            Ok(n) => Ok(n as i32),
            Err(e) => Err(e),
        }
    }
}

/// A number is read back from its digits, as far as it fits.
pub proof fn a_number_is_read_back(n: nat, bound: nat)
    ensures
        scanned(decimal_of(n), bound) == if n <= bound {
            Ok::<nat, Seq<char>>(n)
        } else {
            Err("number too large to fit in target type"@)
        },
    decreases n,
{
    let s = decimal_of(n);
    if n < 10 {
        assert(s.drop_last() =~= Seq::empty());
        assert(scanned(s.drop_last(), bound) == Ok::<nat, Seq<char>>(0));
        assert(digit_of(s.last()) == Some(n));
    } else {
        a_number_is_read_back(n / 10, bound);
        assert(s.drop_last() =~= decimal_of(n / 10));
        assert(digit_of(s.last()) == Some(n % 10));
    }
}

proof fn lemma_digits(n: nat)
    ensures
        decimal_of(n).len() > 0,
        '0' <= decimal_of(n)[0] <= '9',
    decreases n,
{
    if n >= 10 {
        lemma_digits(n / 10);
    }
}

/// A number with a sign is read back from its digits, as far as 32 bits hold it.
pub proof fn a_signed_number_is_read_back(n: nat)
    ensures
        n <= i32::MAX ==> signed_in(decimal_of(n)) == Ok::<int, Seq<char>>(n as int),
        n <= 0x8000_0000 ==> signed_in("-"@ + decimal_of(n)) == Ok::<int, Seq<char>>(-(n as int)),
        n > i32::MAX ==> signed_in(decimal_of(n)) is Err,
        forall|bound: nat| n <= bound ==> #[trigger] number_in(decimal_of(n), bound) == Ok::<
            nat,
            Seq<char>,
        >(n),
        forall|bound: nat| n > bound ==> #[trigger] number_in(decimal_of(n), bound) is Err,
{
    reveal_strlit("-");
    lemma_digits(n);
    let s = decimal_of(n);
    a_number_is_read_back(n, i32::MAX as nat);
    a_number_is_read_back(n, 0x8000_0000);
    let below = "-"@ + s;
    assert(below[0] == '-');
    assert(below.skip(1) =~= s);
    assert forall|bound: nat| n <= bound implies #[trigger] number_in(s, bound) == Ok::<
        nat,
        Seq<char>,
    >(n) by {
        a_number_is_read_back(n, bound);
    }
    assert forall|bound: nat| n > bound implies #[trigger] number_in(s, bound) is Err by {
        a_number_is_read_back(n, bound);
    }
}

/// What is no digit writes no number.
pub proof fn only_digits_write_numbers(s: Seq<char>, bound: nat)
    ensures
        scanned(s, bound) matches Ok(n) ==> n <= bound,
        scanned(s, bound) is Ok ==> forall|i: int| 0 <= i < s.len() ==> '0' <= #[trigger] s[i] <= '9',
    decreases s.len(),
{
    if s.len() > 0 {
        let most = s.drop_last();
        only_digits_write_numbers(most, bound);
        if scanned(s, bound) is Ok {
            assert forall|i: int| 0 <= i < s.len() implies '0' <= #[trigger] s[i] <= '9' by {
                if i < most.len() {
                    assert(most[i] == s[i]);
                }
            }
        }
    }
}

} // verus!
