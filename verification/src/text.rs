//! Characters and text: what the rest of the library says about strings.
use vstd::prelude::*;
use vstd::utf8::{decode_utf8, encode_utf8, valid_utf8};

verus! {

/// `String::push` appends one character to the string and changes nothing else.
pub assume_specification[ String::push ](s: &mut String, c: char)
    ensures
        final(s)@ == old(s)@.push(c),
;

/// `String::push_str` appends the whole of another string.
pub assume_specification[ String::push_str ](s: &mut String, t: &str)
    ensures
        final(s)@ == old(s)@ + t@,
;

/// The message in which `std::str::from_utf8` says what is wrong with the bytes.
pub uninterp spec fn utf8_complaint(bytes: Seq<u8>) -> Seq<char>;

/// `std::str::from_utf8` takes exactly the bytes that are valid UTF-8 and gives
/// the text that they encode; of any others its error has one message.
#[verifier::external_body]
pub(crate) fn from_utf8(bytes: &[u8]) -> (r: Result<String, String>)
    ensures
        r is Ok <==> valid_utf8(bytes@),
        r matches Ok(s) ==> s@ == decode_utf8(bytes@) && encode_utf8(s@) == bytes@,
        r matches Err(e) ==> e@ == utf8_complaint(bytes@),
{
    std::str::from_utf8(bytes).map(|s| s.to_string()).map_err(|e| e.to_string())
}

pub open spec fn is_alpha(c: char) -> bool {
    ('a' <= c && c <= 'z') || ('A' <= c && c <= 'Z')
}

pub open spec fn is_digit(c: char) -> bool {
    '0' <= c && c <= '9'
}

pub open spec fn is_alnum(c: char) -> bool {
    is_alpha(c) || is_digit(c)
}

/// The number of bytes of a text in UTF-8.
pub open spec fn size(s: Seq<char>) -> nat {
    encode_utf8(s).len()
}

/// The texts that a sequence of strings holds.
pub open spec fn texts(v: Seq<String>) -> Seq<Seq<char>> {
    v.map_values(|s: String| s@)
}

/// The text of an optional string.
pub open spec fn maybe(v: Option<String>) -> Option<Seq<char>> {
    match v {
        Some(s) => Some(s@),
        None => None,
    }
}

pub fn alpha(c: char) -> (r: bool)
    ensures
        r == is_alpha(c),
{
    ('a' <= c && c <= 'z') || ('A' <= c && c <= 'Z')
}

pub fn digit(c: char) -> (r: bool)
    ensures
        r == is_digit(c),
{
    '0' <= c && c <= '9'
}

pub fn alnum(c: char) -> (r: bool)
    ensures
        r == is_alnum(c),
{
    alpha(c) || digit(c)
}

/// The characters of a string, one by one.
pub fn chars(s: &str) -> (r: Vec<char>)
    ensures
        r@ == s@,
{
    let mut r: Vec<char> = Vec::new();
    for c in it: s.chars()
        invariant
            r@ == s@.take(it.index() as int),
            it.seq() == s@,
    {
        r.push(c);
    }
    r
}

/// The number of bytes of a string.
pub fn byte_len(s: &str) -> (r: usize)
    ensures
        r == size(s@),
{
    s.as_bytes().len()
}

/// The text made of `from..to` of a sequence of characters.
pub fn span(v: &[char], from: usize, to: usize) -> (r: String)
    requires
        from <= to <= v@.len(),
    ensures
        r@ == v@.subrange(from as int, to as int),
{
    let mut r: String = String::new();
    let mut i: usize = from;
    while i < to
        invariant
            from <= i <= to <= v@.len(),
            r@ == v@.subrange(from as int, i as int),
        decreases to - i,
    {
        r.push(v[i]);
        i += 1;
        assert(v@.subrange(from as int, i as int) =~= v@.subrange(from as int, i - 1).push(v@[i - 1]));
    }
    r
}

/// Distinct texts have distinct bytes.
pub proof fn lemma_bytes_tell_texts_apart(a: Seq<char>, b: Seq<char>)
    ensures
        encode_utf8(a) == encode_utf8(b) <==> a == b,
{
    vstd::utf8::encode_utf8_decode_utf8(a);
    vstd::utf8::encode_utf8_decode_utf8(b);
}

/// Whether two strings hold the same text.
pub fn same(a: &str, b: &str) -> (r: bool)
    ensures
        r == (a@ == b@),
{
    let x = a.as_bytes();
    let y = b.as_bytes();
    proof {
        lemma_bytes_tell_texts_apart(a@, b@);
    }
    same_bytes(x, y)
}

pub fn same_bytes(x: &[u8], y: &[u8]) -> (r: bool)
    ensures
        r == (x@ == y@),
{
    if x.len() != y.len() {
        return false;
    }
    let mut i: usize = 0;
    while i < x.len()
        invariant
            i <= x@.len() == y@.len(),
            x@.take(i as int) == y@.take(i as int),
        decreases x@.len() - i,
    {
        if x[i] != y[i] {
            return false;
        }
        i += 1;
        assert(x@.take(i as int) =~= x@.take(i - 1).push(x@[i - 1]));
        assert(y@.take(i as int) =~= y@.take(i - 1).push(y@[i - 1]));
    }
    assert(x@.take(i as int) =~= x@);
    assert(y@.take(i as int) =~= y@);
    true
}

/// Whether a string begins with a text.
pub fn starts_with(s: &str, prefix: &str) -> (r: bool)
    ensures
        r == prefix@.is_prefix_of(s@),
{
    let c = chars(s);
    let p = chars(prefix);
    if p.len() > c.len() {
        return false;
    }
    let r = equals(c.as_slice(), 0, p.len(), prefix);
    proof {
        if r {
            assert forall|i: int| 0 <= i < prefix@.len() implies prefix@[i] == s@[i] by {
                assert(c@.subrange(0, p@.len() as int)[i] == s@[i]);
            }
        } else if prefix@.is_prefix_of(s@) {
            assert(c@.subrange(0, p@.len() as int) =~= prefix@);
        }
    }
    r
}

/// The text occurs somewhere in the other.
pub open spec fn has_part(s: Seq<char>, part: Seq<char>) -> bool {
    exists|i: int| 0 <= i <= s.len() - part.len() && #[trigger] occurs_at(s, part, i)
}

pub open spec fn occurs_at(s: Seq<char>, part: Seq<char>, i: int) -> bool {
    s.subrange(i, i + part.len()) == part
}

/// Whether a string contains a text.
pub fn contains(s: &str, part: &str) -> (r: bool)
    ensures
        r == has_part(s@, part@),
{
    let c = chars(s);
    let n: usize = chars(part).len();
    if n > c.len() {
        return false;
    }
    let last: usize = c.len() - n;
    let mut i: usize = 0;
    while i < last
        invariant
            c@ == s@,
            n == part@.len(),
            c.len() == last + n,
            i <= last,
            forall|k: int| 0 <= k < i ==> !#[trigger] occurs_at(s@, part@, k),
        decreases last - i,
    {
        if equals(c.as_slice(), i, i + n, part) {
            assert(occurs_at(s@, part@, i as int));
            return true;
        }
        i += 1;
    }
    let r = equals(c.as_slice(), last, last + n, part);
    assert(r == occurs_at(s@, part@, last as int));
    r
}

/// Whether two optional strings hold the same text, or both hold none.
pub fn same_option(a: &Option<String>, b: &Option<String>) -> (r: bool)
    ensures
        r == (maybe(*a) == maybe(*b)),
{
    match (a, b) {
        (Some(x), Some(y)) => same(x.as_str(), y.as_str()),
        (None, None) => true,
        _ => false,
    }
}

/// Whether a list of strings holds a text.
pub fn holds(v: &Vec<String>, s: &str) -> (r: bool)
    ensures
        r == texts(v@).contains(s@),
{
    let mut i: usize = 0;
    while i < v.len()
        invariant
            i <= v@.len(),
            forall|j: int| 0 <= j < i ==> texts(v@)[j] != s@,
        decreases v@.len() - i,
    {
        if same(v[i].as_str(), s) {
            assert(texts(v@)[i as int] == s@);
            return true;
        }
        i += 1;
    }
    false
}

/// The white space of Unicode, which `str::trim` removes.
pub open spec fn is_space(c: char) -> bool {
    ||| '\u{9}' <= c && c <= '\u{d}'
    ||| c == ' '
    ||| c == '\u{85}'
    ||| c == '\u{a0}'
    ||| c == '\u{1680}'
    ||| '\u{2000}' <= c && c <= '\u{200a}'
    ||| c == '\u{2028}'
    ||| c == '\u{2029}'
    ||| c == '\u{202f}'
    ||| c == '\u{205f}'
    ||| c == '\u{3000}'
}

pub fn space(c: char) -> (r: bool)
    ensures
        r == is_space(c),
{
    ('\u{9}' <= c && c <= '\u{d}') || c == ' ' || c == '\u{85}' || c == '\u{a0}' || c == '\u{1680}'
        || ('\u{2000}' <= c && c <= '\u{200a}') || c == '\u{2028}' || c == '\u{2029}' || c
        == '\u{202f}' || c == '\u{205f}' || c == '\u{3000}'
}

/// A text without the white space at its two ends.
pub open spec fn trimmed(s: Seq<char>) -> Seq<char>
    decreases s.len(),
{
    if s.len() == 0 {
        s
    } else if is_space(s[0]) {
        trimmed(s.drop_first())
    } else if is_space(s.last()) {
        trimmed(s.drop_last())
    } else {
        s
    }
}

/// The bounds of what is left of `from..to` without the white space at its ends.
pub fn trim(v: &[char], from: usize, to: usize) -> (r: (usize, usize))
    requires
        from <= to <= v@.len(),
    ensures
        from <= r.0 <= r.1 <= to,
        v@.subrange(r.0 as int, r.1 as int) == trimmed(v@.subrange(from as int, to as int)),
    decreases to - from,
{
    if from == to {
        return (from, to);
    }
    let ghost s = v@.subrange(from as int, to as int);
    if space(v[from]) {
        assert(s.drop_first() =~= v@.subrange(from + 1, to as int));
        return trim(v, from + 1, to);
    }
    if space(v[to - 1]) {
        assert(s.drop_last() =~= v@.subrange(from as int, to - 1));
        return trim(v, from, to - 1);
    }
    (from, to)
}

/// Lower case for the letters of ASCII; any other character as it is.
pub open spec fn lower(c: char) -> char {
    if 'A' <= c && c <= 'Z' {
        (c as u32 + 32) as char
    } else {
        c
    }
}

/// Two texts that differ at most in the case of ASCII letters.
pub open spec fn same_but_case(a: Seq<char>, b: Seq<char>) -> bool {
    &&& a.len() == b.len()
    &&& forall|i: int| 0 <= i < a.len() ==> lower(#[trigger] a[i]) == lower(b[i])
}

fn lower_char(c: char) -> (r: char)
    ensures
        r == lower(c),
{
    if 'A' <= c && c <= 'Z' {
        ((c as u8) + 32) as char
    } else {
        c
    }
}

/// Whether `from..to` is that text, whatever the case of ASCII letters.
pub fn equals_ignoring_case(v: &[char], from: usize, to: usize, text: &str) -> (r: bool)
    requires
        from <= to <= v@.len(),
    ensures
        r == same_but_case(v@.subrange(from as int, to as int), text@),
{
    let t = chars(text);
    if t.len() != to - from {
        return false;
    }
    let ghost s = v@.subrange(from as int, to as int);
    let mut i: usize = 0;
    while i < t.len()
        invariant
            i <= t@.len() == to - from,
            from <= to <= v@.len(),
            s == v@.subrange(from as int, to as int),
            t@ == text@,
            forall|j: int| 0 <= j < i ==> lower(#[trigger] s[j]) == lower(t@[j]),
        decreases t@.len() - i,
    {
        assert(s[i as int] == v@[from + i]);
        if lower_char(v[from + i]) != lower_char(t[i]) {
            return false;
        }
        i += 1;
    }
    true
}

/// Whether `from..to` is that text.
pub fn equals(v: &[char], from: usize, to: usize, text: &str) -> (r: bool)
    requires
        from <= to <= v@.len(),
    ensures
        r == (v@.subrange(from as int, to as int) == text@),
{
    let t = chars(text);
    if t.len() != to - from {
        return false;
    }
    let ghost s = v@.subrange(from as int, to as int);
    let mut i: usize = 0;
    while i < t.len()
        invariant
            i <= t@.len() == to - from,
            from <= to <= v@.len(),
            s == v@.subrange(from as int, to as int),
            t@ == text@,
            forall|j: int| 0 <= j < i ==> #[trigger] s[j] == t@[j],
        decreases t@.len() - i,
    {
        assert(s[i as int] == v@[from + i]);
        if v[from + i] != t[i] {
            return false;
        }
        i += 1;
    }
    assert(s =~= text@);
    true
}

/// The place of the first such character, or the length where there is none.
pub open spec fn first_index(s: Seq<char>, c: char) -> int
    decreases s.len(),
{
    if s.len() == 0 {
        0
    } else if s[0] == c {
        0
    } else {
        1 + first_index(s.drop_first(), c)
    }
}

pub proof fn lemma_first_index(s: Seq<char>, c: char)
    ensures
        0 <= first_index(s, c) <= s.len(),
        first_index(s, c) < s.len() ==> s[first_index(s, c)] == c,
        forall|i: int| 0 <= i < first_index(s, c) ==> #[trigger] s[i] != c,
        first_index(s, c) < s.len() <==> s.contains(c),
    decreases s.len(),
{
    if s.len() > 0 && s[0] != c {
        let rest = s.drop_first();
        lemma_first_index(rest, c);
        assert forall|i: int| 0 <= i < first_index(s, c) implies #[trigger] s[i] != c by {
            if i > 0 {
                assert(rest[i - 1] == s[i]);
            }
        }
        if s.contains(c) {
            let i = choose|i: int| 0 <= i < s.len() && s[i] == c;
            assert(rest[i - 1] == c);
        }
    }
}

/// The place of the first such character in `from..to`, or `to`.
pub fn find_char(v: &[char], from: usize, to: usize, c: char) -> (r: usize)
    requires
        from <= to <= v@.len(),
    ensures
        from <= r <= to,
        r - from == first_index(v@.subrange(from as int, to as int), c),
{
    let mut i: usize = from;
    let ghost s = v@.subrange(from as int, to as int);
    assert(s.skip(0) =~= s);
    while i < to
        invariant
            from <= i <= to <= v@.len(),
            s == v@.subrange(from as int, to as int),
            first_index(s, c) == i - from + first_index(s.skip(i - from), c),
        decreases to - i,
    {
        if v[i] == c {
            return i;
        }
        i += 1;
        assert(s.skip(i - from) =~= s.skip(i - 1 - from).drop_first());
    }
    i
}

/// A line without the carriage return before its end.
pub open spec fn chomped(s: Seq<char>) -> Seq<char> {
    if s.len() > 0 && s.last() == '\r' {
        s.drop_last()
    } else {
        s
    }
}

/// The lines of a text. A line feed ends a line; nothing behind the last one is no line.
pub open spec fn lines_of(s: Seq<char>) -> Seq<Seq<char>>
    decreases s.len(),
{
    let end = first_index(s, '\n');
    if s.len() == 0 {
        Seq::empty()
    } else if 0 <= end < s.len() {
        seq![chomped(s.take(end))] + lines_of(s.skip(end + 1))
    } else {
        seq![s]
    }
}

/// The lines of a text.
pub fn lines(s: &str) -> (r: Vec<String>)
    ensures
        texts(r@) == lines_of(s@),
{
    let c = chars(s);
    let mut r: Vec<String> = Vec::new();
    let mut from: usize = 0;
    assert(c@.skip(0) =~= c@);
    assert(texts(r@) + lines_of(c@) =~= lines_of(c@));
    while from < c.len()
        invariant
            from <= c@.len(),
            texts(r@) + lines_of(c@.skip(from as int)) == lines_of(c@),
        decreases c@.len() - from,
    {
        let ghost rest = c@.skip(from as int);
        let ghost before = texts(r@);
        proof {
            lemma_first_index(rest, '\n');
            assert(c@.subrange(from as int, c@.len() as int) =~= rest);
        }
        let end: usize = find_char(c.as_slice(), from, c.len(), '\n');
        if end < c.len() {
            let ghost line = rest.take(end - from);
            assert(c@.subrange(from as int, end as int) =~= line);
            let to: usize = if end > from && c[end - 1] == '\r' {
                end - 1
            } else {
                end
            };
            assert(c@.subrange(from as int, to as int) =~= chomped(line));
            r.push(span(c.as_slice(), from, to));
            assert(texts(r@) =~= before.push(chomped(line)));
            assert(rest.skip(end - from + 1) =~= c@.skip(end + 1));
            assert(before + (seq![chomped(line)] + lines_of(c@.skip(end + 1))) =~= before.push(
                chomped(line),
            ) + lines_of(c@.skip(end + 1)));
            from = end + 1;
        } else {
            r.push(span(c.as_slice(), from, end));
            assert(texts(r@) =~= before.push(rest));
            assert(before + seq![rest] =~= before.push(rest));
            assert(c@.skip(end as int) =~= Seq::<char>::empty());
            assert(lines_of(Seq::<char>::empty()) =~= Seq::<Seq<char>>::empty());
            assert(before.push(rest) + Seq::<Seq<char>>::empty() =~= before.push(rest));
            from = end;
        }
    }
    assert(c@.skip(from as int) =~= Seq::<char>::empty());
    assert(texts(r@) + lines_of(Seq::<char>::empty()) =~= texts(r@));
    r
}

/// How long the word at the start of a text is.
pub open spec fn word_end(s: Seq<char>) -> int
    decreases s.len(),
{
    if s.len() == 0 || is_space(s[0]) {
        0
    } else {
        1 + word_end(s.drop_first())
    }
}

/// The words of a text, which white space sets apart.
pub open spec fn words_of(s: Seq<char>) -> Seq<Seq<char>>
    decreases s.len(),
{
    let end = word_end(s);
    if s.len() == 0 {
        Seq::empty()
    } else if 0 < end <= s.len() {
        seq![s.take(end)] + words_of(s.skip(end))
    } else {
        words_of(s.drop_first())
    }
}

proof fn lemma_word_end(s: Seq<char>)
    ensures
        0 <= word_end(s) <= s.len(),
        s.len() > 0 && !is_space(s[0]) ==> word_end(s) > 0,
    decreases s.len(),
{
    if s.len() > 0 && !is_space(s[0]) {
        lemma_word_end(s.drop_first());
    }
}

/// The words of a text.
pub fn words(s: &str) -> (r: Vec<String>)
    ensures
        texts(r@) == words_of(s@),
{
    let c = chars(s);
    let mut r: Vec<String> = Vec::new();
    let mut from: usize = 0;
    assert(c@.skip(0) =~= c@);
    assert(texts(r@) + words_of(c@) =~= words_of(c@));
    while from < c.len()
        invariant
            from <= c@.len(),
            texts(r@) + words_of(c@.skip(from as int)) == words_of(c@),
        decreases c@.len() - from,
    {
        let ghost rest = c@.skip(from as int);
        let ghost before = texts(r@);
        proof {
            lemma_word_end(rest);
        }
        if space(c[from]) {
            assert(rest.drop_first() =~= c@.skip(from + 1));
            from += 1;
        } else {
            let mut end: usize = from;
            assert(rest.skip(0) =~= rest);
            while end < c.len() && !space(c[end])
                invariant
                    from <= end <= c@.len(),
                    rest == c@.skip(from as int),
                    word_end(rest) == end - from + word_end(rest.skip(end - from)),
                decreases c@.len() - end,
            {
                end += 1;
                assert(rest.skip(end - from) =~= rest.skip(end - 1 - from).drop_first());
            }
            assert(word_end(rest) == end - from) by {
                lemma_word_end(rest.skip(end - from));
            }
            let ghost word = rest.take(end - from);
            assert(c@.subrange(from as int, end as int) =~= word);
            r.push(span(c.as_slice(), from, end));
            assert(texts(r@) =~= before.push(word));
            assert(rest.skip(end - from) =~= c@.skip(end as int));
            assert(before + (seq![word] + words_of(c@.skip(end as int))) =~= before.push(word)
                + words_of(c@.skip(end as int)));
            from = end;
        }
    }
    assert(c@.skip(from as int) =~= Seq::<char>::empty());
    assert(texts(r@) + words_of(Seq::<char>::empty()) =~= texts(r@));
    r
}

/// Where a text first occurs in another.
pub open spec fn find_part(s: Seq<char>, part: Seq<char>) -> Option<int>
    decreases s.len(),
{
    if part.len() > s.len() {
        None
    } else if occurs_at(s, part, 0) {
        Some(0)
    } else if s.len() == 0 {
        None
    } else {
        match find_part(s.drop_first(), part) {
            Some(i) => Some(i + 1),
            None => None,
        }
    }
}

pub proof fn lemma_find_part(s: Seq<char>, part: Seq<char>)
    ensures
        find_part(s, part) matches Some(i) ==> 0 <= i <= s.len() - part.len() && occurs_at(
            s,
            part,
            i,
        ),
    decreases s.len(),
{
    if part.len() <= s.len() && !occurs_at(s, part, 0) && s.len() > 0 {
        lemma_find_part(s.drop_first(), part);
        if let Some(i) = find_part(s.drop_first(), part) {
            assert(s.subrange(i + 1, i + 1 + part.len()) =~= s.drop_first().subrange(
                i,
                i + part.len(),
            ));
        }
    }
}

/// A text before and after the first occurrence of another, where it occurs.
pub open spec fn cut(s: Seq<char>, part: Seq<char>) -> Option<(Seq<char>, Seq<char>)> {
    match find_part(s, part) {
        Some(i) => Some((s.take(i), s.skip(i + part.len()))),
        None => None,
    }
}

/// Cuts a text at the first occurrence of another.
pub fn split_once(s: &str, part: &str) -> (r: Option<(String, String)>)
    ensures
        match r {
            Some((a, b)) => cut(s@, part@) == Some((a@, b@)),
            None => cut(s@, part@) is None,
        },
{
    let c = chars(s);
    let n: usize = chars(part).len();
    let mut i: usize = 0;
    assert(c@.skip(0) =~= c@);
    proof {
        lemma_find_part(c@, part@);
    }
    while i <= c.len() && n <= c.len() - i
        invariant
            c@ == s@,
            n == part@.len(),
            i <= c@.len(),
            find_part(s@, part@) == (match find_part(s@.skip(i as int), part@) {
                Some(k) => Some(k + i),
                None => None,
            }),
        decreases c@.len() - i,
    {
        let ghost rest = s@.skip(i as int);
        let here = equals(c.as_slice(), i, i + n, part);
        assert(c@.subrange(i as int, i + n) =~= rest.subrange(0, n as int));
        if here {
            let a = span(c.as_slice(), 0, i);
            let b = span(c.as_slice(), i + n, c.len());
            assert(a@ =~= s@.take(i as int));
            assert(b@ =~= s@.skip(i + n));
            return Some((a, b));
        }
        if i == c.len() {
            assert(rest.len() == 0);
            return None;
        }
        assert(rest.drop_first() =~= s@.skip(i + 1));
        i += 1;
    }
    None
}

/// The parts of a text between occurrences of a character.
pub open spec fn parts_of(s: Seq<char>, c: char) -> Seq<Seq<char>>
    decreases s.len(),
{
    let end = first_index(s, c);
    if 0 <= end < s.len() {
        seq![s.take(end)] + parts_of(s.skip(end + 1), c)
    } else {
        seq![s]
    }
}

/// What stands before the first mark is a part, and the rest is parted on its own; a text
/// without the mark is one part.
pub proof fn a_part_ends_at_its_mark(part: Seq<char>, rest: Seq<char>, c: char)
    requires
        !part.contains(c),
    ensures
        parts_of(part, c) == seq![part],
        parts_of(part.push(c) + rest, c) == seq![part] + parts_of(rest, c),
{
    let all = part.push(c) + rest;
    lemma_first_index(part, c);
    lemma_first_index(all, c);
    let i = first_index(part, c);
    if i < part.len() {
        assert(part[i] == c);
        assert(part.contains(c));
    }
    let j = first_index(all, c);
    if j < part.len() {
        assert(all[j] == part[j]);
        assert(part.contains(c));
    } else if j > part.len() {
        assert(all[part.len() as int] == c);
    }
    assert(all.take(j) =~= part);
    assert(all.skip(j + 1) =~= rest);
}

/// The parts of two texts with a mark between them are the parts of the one and of the other.
pub proof fn parts_are_put_together(first: Seq<char>, second: Seq<char>, c: char)
    ensures
        parts_of(first.push(c) + second, c) == parts_of(first, c) + parts_of(second, c),
    decreases first.len(),
{
    lemma_first_index(first, c);
    let end = first_index(first, c);
    if end < first.len() {
        let part = first.take(end);
        let rest = first.skip(end + 1);
        assert(!part.contains(c)) by {
            if part.contains(c) {
                let k = choose|k: int| 0 <= k < part.len() && part[k] == c;
                assert(first[k] == c);
            }
        }
        assert(part.push(c) + rest =~= first);
        a_part_ends_at_its_mark(part, rest, c);
        parts_are_put_together(rest, second, c);
        let behind = rest.push(c) + second;
        a_part_ends_at_its_mark(part, behind, c);
        assert(part.push(c) + behind =~= first.push(c) + second);
        assert(seq![part] + (parts_of(rest, c) + parts_of(second, c)) =~= seq![part] + parts_of(
            rest,
            c,
        ) + parts_of(second, c));
    } else {
        a_part_ends_at_its_mark(first, second, c);
    }
}

/// The parts of a text between occurrences of a character.
pub fn split(s: &str, mark: char) -> (r: Vec<String>)
    ensures
        texts(r@) == parts_of(s@, mark),
        r@.len() > 0,
{
    let c = chars(s);
    let mut r: Vec<String> = Vec::new();
    let mut from: usize = 0;
    assert(c@.skip(0) =~= c@);
    assert(texts(r@) + parts_of(c@, mark) =~= parts_of(c@, mark));
    loop
        invariant
            from <= c@.len(),
            c@ == s@,
            texts(r@) + parts_of(c@.skip(from as int), mark) == parts_of(c@, mark),
        decreases c@.len() - from,
    {
        let ghost rest = c@.skip(from as int);
        let ghost before = texts(r@);
        proof {
            lemma_first_index(rest, mark);
            assert(c@.subrange(from as int, c@.len() as int) =~= rest);
        }
        let end: usize = find_char(c.as_slice(), from, c.len(), mark);
        let ghost part = rest.take(end - from);
        assert(c@.subrange(from as int, end as int) =~= part);
        r.push(span(c.as_slice(), from, end));
        assert(texts(r@) =~= before.push(part));
        if end < c.len() {
            assert(rest.skip(end - from + 1) =~= c@.skip(end + 1));
            assert(before + (seq![part] + parts_of(c@.skip(end + 1), mark)) =~= before.push(part)
                + parts_of(c@.skip(end + 1), mark));
            from = end + 1;
        } else {
            assert(part =~= rest);
            assert(before + seq![rest] =~= before.push(rest));
            return r;
        }
    }
}

/// The decimal digits of a number, without leading zeros.
pub open spec fn decimal_of(n: nat) -> Seq<char>
    decreases n,
{
    if n < 10 {
        seq![digit_char(n)]
    } else {
        decimal_of(n / 10).push(digit_char(n % 10))
    }
}

pub open spec fn digit_char(d: nat) -> char {
    (('0' as u32) + d) as char
}

/// The number that a sequence of decimal digits writes.
pub open spec fn value_of(s: Seq<char>) -> nat
    decreases s.len(),
{
    if s.len() == 0 {
        0
    } else {
        value_of(s.drop_last()) * 10 + (s.last() as u32 - '0' as u32) as nat
    }
}

fn one_digit(d: u64) -> (c: char)
    requires
        d < 10,
    ensures
        c == digit_char(d as nat),
{
    if d == 0 { '0' } else if d == 1 { '1' } else if d == 2 { '2' } else if d == 3 { '3' }
    else if d == 4 { '4' } else if d == 5 { '5' } else if d == 6 { '6' } else if d == 7 { '7' }
    else if d == 8 { '8' } else { '9' }
}

/// A number in decimal.
pub fn decimal(n: u64) -> (r: String)
    ensures
        r@ == decimal_of(n as nat),
    decreases n,
{
    if n < 10 {
        let mut r: String = String::new();
        r.push(one_digit(n));
        assert(r@ =~= decimal_of(n as nat));
        r
    } else {
        let mut r: String = decimal(n / 10);
        r.push(one_digit(n % 10));
        r
    }
}

/// Reading a number back from its decimal digits gives the number.
pub proof fn lemma_decimal_round_trip(n: nat)
    ensures
        value_of(decimal_of(n)) == n,
        decimal_of(n).len() >= 1,
        forall|i: int| 0 <= i < decimal_of(n).len() ==> is_digit(#[trigger] decimal_of(n)[i]),
    decreases n,
{
    let d = decimal_of(n);
    if n < 10 {
        assert(d.drop_last() =~= Seq::<char>::empty());
        assert(value_of(Seq::<char>::empty()) == 0);
    } else {
        lemma_decimal_round_trip(n / 10);
        assert(d.drop_last() =~= decimal_of(n / 10));
    }
}

/// Two numbers written alike are the same number.
pub proof fn lemma_decimal_injective(a: nat, b: nat)
    ensures
        decimal_of(a) == decimal_of(b) <==> a == b,
{
    lemma_decimal_round_trip(a);
    lemma_decimal_round_trip(b);
}

/// Places as numbers.
pub open spec fn places(v: Seq<usize>) -> Seq<int> {
    v.map_values(|i: usize| i as int)
}

/// A copy of a text that may be absent.
pub fn copy_option(s: &Option<String>) -> (r: Option<String>)
    ensures
        r == *s,
{
    match s {
        Some(s) => Some(s.clone()),
        None => None,
    }
}

// ---------------------------------------------------------------------------
// What texts are made of
// ---------------------------------------------------------------------------

/// A line ends at its newline, with or without a return before it, and what follows is read on
/// its own; the last line needs no newline.
pub proof fn a_line_ends_at_the_newline(line: Seq<char>, rest: Seq<char>)
    requires
        !line.contains('\n'),
    ensures
        lines_of(line.push('\n') + rest) == seq![
            if line.len() > 0 && line.last() == '\r' {
                line.drop_last()
            } else {
                line
            },
        ] + lines_of(rest),
        line.len() > 0 ==> lines_of(line) == seq![line],
        lines_of(Seq::empty()) == Seq::<Seq<char>>::empty(),
{
    let all = line.push('\n') + rest;
    lemma_first_index(line, '\n');
    lemma_first_index(all, '\n');
    assert(all[line.len() as int] == '\n');
    let end = first_index(all, '\n');
    if end < line.len() {
        assert(line[end] == '\n');
        assert(line.contains('\n'));
    }
    assert(all.take(end) =~= line);
    assert(all.skip(end + 1) =~= rest);
}

/// A word ends at the space behind it, spaces before a word count for nothing, and what follows
/// is read on its own.
pub proof fn a_word_ends_at_the_space(word: Seq<char>, space: char, rest: Seq<char>)
    requires
        word.len() > 0,
        forall|i: int| 0 <= i < word.len() ==> !is_space(#[trigger] word[i]),
        is_space(space),
    ensures
        words_of(word) == seq![word],
        words_of(word.push(space) + rest) == seq![word] + words_of(rest),
        words_of(seq![space] + rest) == words_of(rest),
{
    lemma_word_stands(word, Seq::empty());
    lemma_word_stands(word, seq![space] + rest);
    let all = word + (seq![space] + rest);
    assert(all =~= word.push(space) + rest);
    assert(word + Seq::<char>::empty() =~= word);
    assert(word.take(word.len() as int) =~= word);
    assert(word.skip(word.len() as int) =~= Seq::<char>::empty());
    assert(words_of(Seq::<char>::empty()) =~= Seq::<Seq<char>>::empty());
    assert(all.take(word.len() as int) =~= word);
    let behind = seq![space] + rest;
    assert(all.skip(word.len() as int) =~= behind);
    assert(behind.drop_first() =~= rest);
    assert(word_end(behind) == 0);
    assert(words_of(behind) == words_of(rest));
    assert(seq![word] + words_of(Seq::<char>::empty()) =~= seq![word]);
}

proof fn lemma_word_stands(word: Seq<char>, rest: Seq<char>)
    requires
        forall|i: int| 0 <= i < word.len() ==> !is_space(#[trigger] word[i]),
        rest.len() > 0 ==> is_space(rest[0]),
    ensures
        word_end(word + rest) == word.len(),
    decreases word.len(),
{
    let all = word + rest;
    if word.len() > 0 {
        let less = word.drop_first();
        assert(!is_space(word[0]));
        assert forall|i: int| 0 <= i < less.len() implies !is_space(#[trigger] less[i]) by {
            assert(less[i] == word[i + 1]);
        }
        lemma_word_stands(less, rest);
        assert(all.drop_first() =~= less + rest);
    } else {
        assert(all =~= rest);
    }
}

/// What is trimmed off at both ends is space, and none is left there.
pub proof fn trimming_takes_the_space_off(s: Seq<char>) -> (r: (int, int))
    ensures
        0 <= r.0 <= r.1 <= s.len(),
        trimmed(s) == s.subrange(r.0, r.1),
        forall|i: int| 0 <= i < r.0 || r.1 <= i < s.len() ==> is_space(#[trigger] s[i]),
        trimmed(s).len() > 0 ==> !is_space(trimmed(s)[0]) && !is_space(trimmed(s).last()),
    decreases s.len(),
{
    if s.len() == 0 {
        assert(s.subrange(0, 0) =~= s);
        (0, 0)
    } else if is_space(s[0]) {
        let less = s.drop_first();
        let r = trimming_takes_the_space_off(less);
        assert(s.subrange(r.0 + 1, r.1 + 1) =~= less.subrange(r.0, r.1));
        assert forall|i: int| 0 <= i < r.0 + 1 || r.1 + 1 <= i < s.len() implies is_space(
            #[trigger] s[i],
        ) by {
            if i > 0 {
                assert(less[i - 1] == s[i]);
            }
        }
        (r.0 + 1, r.1 + 1)
    } else if is_space(s.last()) {
        let less = s.drop_last();
        let r = trimming_takes_the_space_off(less);
        assert(s.subrange(r.0, r.1) =~= less.subrange(r.0, r.1));
        assert forall|i: int| 0 <= i < r.0 || r.1 <= i < s.len() implies is_space(#[trigger] s[i]) by {
            if i < less.len() {
                assert(less[i] == s[i]);
            }
        }
        r
    } else {
        assert(s.subrange(0, s.len() as int) =~= s);
        (0, s.len() as int)
    }
}

/// A text is cut at the first place where a part stands, and not at all where it stands
/// nowhere.
pub proof fn a_text_is_cut_at_the_first_part(s: Seq<char>, part: Seq<char>)
    requires
        part.len() > 0,
    ensures
        match cut(s, part) {
            Some((a, b)) => s == a + part + b && forall|i: int|
                0 <= i < a.len() ==> !#[trigger] occurs_at(s, part, i),
            None => !has_part(s, part),
        },
{
    lemma_find_part(s, part);
    lemma_found_first(s, part);
    if let Some(i) = find_part(s, part) {
        assert(s =~= s.take(i) + part + s.skip(i + part.len())) by {
            assert(s.subrange(i, i + part.len()) == part);
            assert forall|k: int| 0 <= k < s.len() implies s[k] == (s.take(i) + part + s.skip(
                i + part.len(),
            ))[k] by {
                if i <= k < i + part.len() {
                    assert(s.subrange(i, i + part.len())[k - i] == s[k]);
                }
            }
        }
    }
}

proof fn lemma_found_first(s: Seq<char>, part: Seq<char>)
    requires
        part.len() > 0,
    ensures
        match find_part(s, part) {
            Some(i) => forall|j: int| 0 <= j < i ==> !#[trigger] occurs_at(s, part, j),
            None => !has_part(s, part),
        },
    decreases s.len(),
{
    if part.len() <= s.len() && !occurs_at(s, part, 0) && s.len() > 0 {
        let rest = s.drop_first();
        lemma_found_first(rest, part);
        assert forall|j: int| 0 < j <= s.len() - part.len() implies occurs_at(
            rest,
            part,
            j - 1,
        ) == #[trigger] occurs_at(s, part, j) by {
            assert(rest.subrange(j - 1, j - 1 + part.len()) =~= s.subrange(j, j + part.len()));
        }
        lemma_find_part(rest, part);
        match find_part(rest, part) {
            Some(i) => {
                assert forall|j: int| 0 <= j < i + 1 implies !#[trigger] occurs_at(s, part, j) by {
                    if j > 0 {
                        assert(!occurs_at(rest, part, j - 1));
                    }
                }
            },
            None => {
                if has_part(s, part) {
                    let j = choose|j: int|
                        0 <= j <= s.len() - part.len() && #[trigger] occurs_at(s, part, j);
                    assert(occurs_at(rest, part, j - 1));
                }
            },
        }
    }
}

} // verus!
