//! Text that is shown on a terminal, as plain ASCII that says exactly what it is.
use vstd::prelude::*;

use crate::host::{decided_by, decision};
use crate::messages::{a_digit_gives_back_its_number, digit_value, hex_digit};
use crate::records::Snapshot;
use crate::text::{chars, same, span, trim, trimmed};

verus! {

/// A character inside a JSON string.
pub open spec fn json_char(c: char) -> Seq<char> {
    if c == '"' {
        seq!['\\', '"']
    } else if c == '\\' {
        seq!['\\', '\\']
    } else if c == '\u{8}' {
        seq!['\\', 'b']
    } else if c == '\u{9}' {
        seq!['\\', 't']
    } else if c == '\u{a}' {
        seq!['\\', 'n']
    } else if c == '\u{c}' {
        seq!['\\', 'f']
    } else if c == '\u{d}' {
        seq!['\\', 'r']
    } else if ' ' > c {
        seq!['\\', 'u', '0', '0', hex_digit(c as u32 as int / 16), hex_digit(c as u32 as int % 16)]
    } else {
        seq![c]
    }
}

/// The characters of a text inside a JSON string.
pub open spec fn json_chars(s: Seq<char>) -> Seq<char>
    decreases s.len(),
{
    if s.len() == 0 {
        Seq::empty()
    } else {
        json_chars(s.drop_last()) + json_char(s.last())
    }
}

/// A text as a JSON string.
pub open spec fn json_quoted(s: Seq<char>) -> Seq<char> {
    seq!['"'] + json_chars(s) + seq!['"']
}

/// `serde_json::to_string` writes a string between quotes, with quotes,
/// backslashes and the control characters below the space escaped, those that
/// have a short escape by it, and every other character as it is.
#[verifier::external_body]
fn quote(text: &str) -> (r: String)
    ensures
        r@ == json_quoted(text@),
{
    serde_json::to_string(text).unwrap_or_default()
}

/// A UTF-16 unit in the way that JSON writes one.
pub open spec fn unit_escape(u: int) -> Seq<char> {
    seq![
        '\\',
        'u',
        hex_digit(u / 4096),
        hex_digit(u / 256 % 16),
        hex_digit(u / 16 % 16),
        hex_digit(u % 16),
    ]
}

/// A character in ASCII: itself, or its UTF-16 units.
pub open spec fn ascii_char(c: char) -> Seq<char> {
    let n = c as u32 as int;
    if n < 0x80 {
        seq![c]
    } else if n < 0x10000 {
        unit_escape(n)
    } else {
        unit_escape(0xd800 + (n - 0x10000) / 0x400) + unit_escape(0xdc00 + (n - 0x10000) % 0x400)
    }
}

pub open spec fn ascii_chars(s: Seq<char>) -> Seq<char>
    decreases s.len(),
{
    if s.len() == 0 {
        Seq::empty()
    } else {
        ascii_chars(s.drop_last()) + ascii_char(s.last())
    }
}

fn nibble(n: u32) -> (c: char)
    requires
        n < 16,
    ensures
        c == hex_digit(n as int),
{
    if n < 10 {
        (48u8 + n as u8) as char
    } else {
        (87u8 + n as u8) as char
    }
}

fn push_unit(r: &mut String, u: u32)
    requires
        u < 0x10000,
    ensures
        final(r)@ == old(r)@ + unit_escape(u as int),
{
    let ghost before = r@;
    r.push('\\');
    r.push('u');
    r.push(nibble(u / 4096));
    r.push(nibble(u / 256 % 16));
    r.push(nibble(u / 16 % 16));
    r.push(nibble(u % 16));
    assert(r@ =~= before + unit_escape(u as int));
}

/// Serialized JSON in ASCII.
pub fn escaped_json(json: &str) -> (r: String)
    ensures
        r@ == ascii_chars(json@),
{
    let c = chars(json);
    let mut r: String = String::new();
    let mut i: usize = 0;
    assert(c@.take(0) =~= Seq::<char>::empty());
    while i < c.len()
        invariant
            i <= c@.len(),
            r@ == ascii_chars(c@.take(i as int)),
        decreases c@.len() - i,
    {
        let n: u32 = c[i] as u32;
        proof {
            vstd::utf8::char_is_scalar(c@[i as int]);
        }
        let ghost before = r@;
        if n < 0x80 {
            r.push(c[i]);
            assert(r@ =~= before + ascii_char(c@[i as int]));
        } else if n < 0x10000 {
            push_unit(&mut r, n);
        } else {
            push_unit(&mut r, 0xd800 + (n - 0x10000) / 0x400);
            push_unit(&mut r, 0xdc00 + (n - 0x10000) % 0x400);
            assert(r@ =~= before + ascii_char(c@[i as int]));
        }
        assert(c@.take(i + 1).drop_last() =~= c@.take(i as int));
        i += 1;
    }
    assert(c@.take(i as int) =~= c@);
    r
}

/// A text as a JSON string in ASCII.
pub fn escaped_text(text: &str) -> (r: String)
    ensures
        r@ == ascii_chars(json_quoted(text@)),
{
    escaped_json(quote(text).as_str())
}

/// A text as it is shown: what would stand between the quotes.
pub open spec fn shown(s: Seq<char>) -> Seq<char> {
    ascii_chars(json_chars(s))
}

proof fn lemma_ascii_joins(a: Seq<char>, b: Seq<char>)
    ensures
        ascii_chars(a + b) == ascii_chars(a) + ascii_chars(b),
    decreases b.len(),
{
    if b.len() == 0 {
        assert(a + b =~= a);
        assert(ascii_chars(a) + ascii_chars(b) =~= ascii_chars(a));
    } else {
        lemma_ascii_joins(a, b.drop_last());
        assert((a + b).drop_last() =~= a + b.drop_last());
        assert((a + b).last() == b.last());
        assert(ascii_chars(a) + (ascii_chars(b.drop_last()) + ascii_char(b.last())) =~= (
        ascii_chars(a) + ascii_chars(b.drop_last())) + ascii_char(b.last()));
    }
}

/// A text as it is shown.
pub fn safe(s: &str) -> (r: String)
    ensures
        r@ == shown(s@),
{
    let quoted = escaped_text(s);
    proof {
        let inner = json_chars(s@);
        let q = seq!['"'];
        lemma_ascii_joins(q + inner, q);
        lemma_ascii_joins(q, inner);
        assert(q.drop_last() =~= Seq::<char>::empty());
        assert(ascii_chars(Seq::<char>::empty()) =~= Seq::<char>::empty());
        assert(ascii_chars(q) =~= q);
    }
    let c = chars(quoted.as_str());
    let r = span(c.as_slice(), 1, c.len() - 1);
    assert(r@ =~= shown(s@));
    r
}

proof fn lemma_char_is_plain(c: char)
    ensures
        forall|i: int|
            0 <= i < json_char(c).len() ==> (#[trigger] json_char(c)[i]) >= ' ',
        forall|i: int|
            0 <= i < ascii_char(c).len() ==> (#[trigger] ascii_char(c)[i]) <= '\u{7f}',
        c >= ' ' ==> forall|i: int|
            0 <= i < ascii_char(c).len() ==> (#[trigger] ascii_char(c)[i]) >= ' ',
{
    vstd::utf8::char_is_scalar(c);
}

proof fn lemma_json_is_plain(s: Seq<char>)
    ensures
        forall|i: int| 0 <= i < json_chars(s).len() ==> (#[trigger] json_chars(s)[i]) >= ' ',
    decreases s.len(),
{
    if s.len() > 0 {
        lemma_json_is_plain(s.drop_last());
        lemma_char_is_plain(s.last());
        let a = json_chars(s.drop_last());
        let b = json_char(s.last());
        assert forall|i: int| 0 <= i < json_chars(s).len() implies (
        #[trigger] json_chars(s)[i]) >= ' ' by {
            if i < a.len() {
                assert(json_chars(s)[i] == a[i]);
            } else {
                assert(json_chars(s)[i] == b[i - a.len()]);
            }
        }
    }
}

proof fn lemma_ascii_is_plain(s: Seq<char>)
    ensures
        forall|i: int| 0 <= i < ascii_chars(s).len() ==> (#[trigger] ascii_chars(s)[i]) <= '\u{7f}',
        (forall|i: int| 0 <= i < s.len() ==> (#[trigger] s[i]) >= ' ') ==> forall|i: int|
            0 <= i < ascii_chars(s).len() ==> (#[trigger] ascii_chars(s)[i]) >= ' ',
    decreases s.len(),
{
    if s.len() > 0 {
        let t = s.drop_last();
        lemma_ascii_is_plain(t);
        lemma_char_is_plain(s.last());
        let a = ascii_chars(t);
        let b = ascii_char(s.last());
        let plain = forall|i: int| 0 <= i < s.len() ==> (#[trigger] s[i]) >= ' ';
        if plain {
            assert forall|i: int| 0 <= i < t.len() implies (#[trigger] t[i]) >= ' ' by {
                assert(s[i] >= ' ');
            }
            assert(s[s.len() - 1] >= ' ');
        }
        assert forall|i: int| 0 <= i < ascii_chars(s).len() implies (
        #[trigger] ascii_chars(s)[i]) <= '\u{7f}' && (plain ==> ascii_chars(s)[i] >= ' ') by {
            if i < a.len() {
                assert(ascii_chars(s)[i] == a[i]);
            } else {
                assert(ascii_chars(s)[i] == b[i - a.len()]);
            }
        }
    }
}

/// What is shown holds no control character below the space and nothing beyond
/// ASCII, whatever the text holds: it cannot move a cursor or hide itself.
pub proof fn shown_text_is_inert(s: Seq<char>)
    ensures
        forall|i: int|
            0 <= i < shown(s).len() ==> ' ' <= (#[trigger] shown(s)[i]) && shown(s)[i] <= '\u{7f}',
{
    lemma_json_is_plain(s);
    lemma_ascii_is_plain(json_chars(s));
}

/// The most bytes of a line that are kept.
pub const LINE: usize = 4096;

/// Takes a byte that was typed: whether it ends the line. What goes past the limit is
/// dropped.
pub fn typed(line: &mut Vec<u8>, byte: u8) -> (ends: bool)
    ensures
        ends == (byte == 10),
        final(line)@ == if byte != 10 && old(line)@.len() < LINE {
            old(line)@.push(byte)
        } else {
            old(line)@
        },
{
    if byte == 10 {
        return true;
    }
    if line.len() < LINE {
        line.push(byte);
    }
    false
}

/// What a line says.
pub enum Said {
    Quit,
    Status,
    /// The request at that place is approved or denied.
    Decide(usize, bool),
    Nothing,
}

/// What a line says to those requests.
pub open spec fn is_said(r: Said, line: Seq<char>, snapshot: Snapshot) -> bool {
    let text = trimmed(line);
    if text == "quit"@ || text == ":quit"@ {
        r is Quit
    } else if text == "status"@ || text == ":status"@ {
        r is Status
    } else {
        match decided_by(text, snapshot) {
            Some((i, yes)) => r matches Said::Decide(k, y) && k == i && y == yes,
            None => r is Nothing,
        }
    }
}

/// What a line says to those requests.
pub fn said(line: &str, snapshot: &Snapshot) -> (r: Said)
    ensures
        is_said(r, line@, *snapshot),
{
    let v = chars(line);
    let (from, to) = trim(&v, 0, v.len());
    let text = span(&v, from, to);
    assert(v@.subrange(0, v@.len() as int) =~= line@);
    if same(&text, "quit") || same(&text, ":quit") {
        Said::Quit
    } else if same(&text, "status") || same(&text, ":status") {
        Said::Status
    } else {
        match decision(&text, snapshot) {
            Some((k, yes)) => Said::Decide(k, yes),
            None => Said::Nothing,
        }
    }
}

/// How a request is shown: its record in plain characters, and what decides it.
pub fn request_lines(json: &str, approval: &str) -> (r: String)
    ensures
        r@ == "REQUEST "@ + ascii_chars(json@) + "\nType approve "@ + approval@ + " or deny "@
            + approval@,
{
    let mut r = String::from_str("REQUEST ");
    r.push_str(&escaped_json(json));
    r.push_str("\nType approve ");
    r.push_str(approval);
    r.push_str(" or deny ");
    r.push_str(approval);
    r
}

/// What is shown of two texts, one behind the other, is what is shown of each.
pub proof fn texts_are_shown_in_order(a: Seq<char>, b: Seq<char>)
    ensures
        json_chars(a + b) == json_chars(a) + json_chars(b),
        ascii_chars(a + b) == ascii_chars(a) + ascii_chars(b),
    decreases b.len(),
{
    if b.len() == 0 {
        assert(a + b =~= a);
        assert(json_chars(a) + json_chars(b) =~= json_chars(a));
        assert(ascii_chars(a) + ascii_chars(b) =~= ascii_chars(a));
    } else {
        let most = b.drop_last();
        texts_are_shown_in_order(a, most);
        assert((a + b).drop_last() =~= a + most);
        assert((a + b).last() == b.last());
        assert(json_chars(a + b) =~= json_chars(a) + json_chars(b));
        assert(ascii_chars(a + b) =~= ascii_chars(a) + ascii_chars(b));
    }
}

/// Plain text is shown as it is.
pub proof fn plain_text_is_shown_as_it_is(s: Seq<char>)
    requires
        forall|i: int|
            0 <= i < s.len() ==> ' ' <= #[trigger] s[i] && s[i] <= '~' && s[i] != '"' && s[i]
                != '\\',
    ensures
        shown(s) == s,
    decreases s.len(),
{
    lemma_plain(s);
    assert(json_chars(s) == s);
}

proof fn lemma_plain(s: Seq<char>)
    requires
        forall|i: int|
            0 <= i < s.len() ==> ' ' <= #[trigger] s[i] && s[i] <= '~' && s[i] != '"' && s[i]
                != '\\',
    ensures
        json_chars(s) == s,
        ascii_chars(s) == s,
    decreases s.len(),
{
    if s.len() > 0 {
        let most = s.drop_last();
        assert forall|i: int| 0 <= i < most.len() implies ' ' <= #[trigger] most[i] && most[i] <= '~'
            && most[i] != '"' && most[i] != '\\' by {
            assert(most[i] == s[i]);
        }
        lemma_plain(most);
        assert(s.last() == s[s.len() - 1]);
        assert(json_char(s.last()) == seq![s.last()]);
        assert(ascii_char(s.last()) == seq![s.last()]);
        assert(most + seq![s.last()] =~= s);
    } else {
        assert(json_chars(s) =~= s);
        assert(ascii_chars(s) =~= s);
    }
}

/// The unit that an escape stands for.
pub open spec fn unit_of(e: Seq<char>) -> int {
    4096 * digit_value(e[2]) + 256 * digit_value(e[3]) + 16 * digit_value(e[4]) + digit_value(e[5])
}

/// A character beyond ASCII is given back by its escape: by one unit, or by the two halves of a
/// pair.
pub proof fn an_escape_gives_back_its_character(c: char)
    requires
        c >= '\u{80}',
    ensures
        c <= '\u{ffff}' ==> ascii_char(c).len() == 6 && unit_of(ascii_char(c)) == c as u32,
        c > '\u{ffff}' ==> {
            let high = unit_of(ascii_char(c).take(6));
            let low = unit_of(ascii_char(c).skip(6));
            &&& ascii_char(c).len() == 12
            &&& 0xd800 <= high < 0xdc00
            &&& 0xdc00 <= low < 0xe000
            &&& 0x10000 + (high - 0xd800) * 0x400 + (low - 0xdc00) == c as u32
        },
{
    let n = c as u32 as int;
    if n < 0x10000 {
        lemma_unit(n);
    } else {
        let high = 0xd800 + (n - 0x10000) / 0x400;
        let low = 0xdc00 + (n - 0x10000) % 0x400;
        assert(n <= 0x10ffff);
        lemma_unit(high);
        lemma_unit(low);
        assert(ascii_char(c).take(6) =~= unit_escape(high));
        assert(ascii_char(c).skip(6) =~= unit_escape(low));
    }
}

proof fn lemma_unit(u: int)
    requires
        0 <= u < 0x10000,
    ensures
        unit_of(unit_escape(u)) == u,
{
    a_digit_gives_back_its_number(u / 4096);
    a_digit_gives_back_its_number(u / 256 % 16);
    a_digit_gives_back_its_number(u / 16 % 16);
    a_digit_gives_back_its_number(u % 16);
}

/// A quote or a backslash is shown behind a backslash, and what controls a terminal as an escape
/// that says which character it is.
pub proof fn control_characters_are_spelled_out(c: char)
    ensures
        c == '"' || c == '\\' ==> json_char(c) == seq!['\\', c],
        ' ' <= c && c != '"' && c != '\\' ==> json_char(c) == seq![c],
        ' ' > c ==> json_char(c)[0] == '\\' && (json_char(c).len() == 2 || (json_char(c).len() == 6
            && unit_of(json_char(c)) == c as u32)),
{
    if ' ' > c {
        let n = c as u32 as int;
        a_digit_gives_back_its_number(n / 16);
        a_digit_gives_back_its_number(n % 16);
        a_digit_gives_back_its_number(0);
        assert(hex_digit(0) == '0');
    }
}

/// A line approves or denies the request that it names, and `quit` and `status` say what they say.
pub proof fn a_line_says_what_it_says(r: Said, line: Seq<char>, snapshot: Snapshot)
    requires
        is_said(r, line, snapshot),
    ensures
        trimmed(line) == "quit"@ ==> r is Quit,
        trimmed(line) == "status"@ ==> r is Status,
        r matches Said::Decide(k, yes) ==> (decided_by(trimmed(line), snapshot) == Some(
            (k as int, yes),
        )),
{
    reveal_strlit("quit");
    reveal_strlit("status");
    reveal_strlit(":quit");
    reveal_strlit(":status");
    assert("quit"@.len() == 4);
    assert("status"@.len() == 6);
    assert(":quit"@.len() == 5);
    assert(":status"@.len() == 7);
}

} // verus!
