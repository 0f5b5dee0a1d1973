//! JSON-RPC envelopes and bounded `Content-Length` framing, without host policy.
use vstd::prelude::*;
use vstd::utf8::{decode_utf8, encode_utf8, valid_utf8};

use crate::json::{alike, lookup, unambiguous, Json};
use crate::protocol::{identifier, is_identifier, is_package_name, package_name};
use crate::text::{
    byte_len, chars, decimal, decimal_of, digit, equals, equals_ignoring_case, find_char, first_index,
    from_utf8, is_digit, lemma_decimal_round_trip, lemma_first_index, same, same_but_case, size, trim, trimmed,
    utf8_complaint, value_of,
};

verus! {

/// The most bytes a frame's header may have, its blank line included.
pub const MAX_HEADER: usize = 256;

/// The most bytes a frame's body may have.
pub const MAX_BODY: usize = 1_048_576;

/// How long a whole frame may take, in nanoseconds.
pub const TIMEOUT: u64 = 3_000_000_000;

/// Why a frame was refused.
#[derive(Debug)]
pub struct FrameError {
    pub timed_out: bool,
    pub message: String,
}

impl View for FrameError {
    type V = (bool, Seq<char>);

    open spec fn view(&self) -> (bool, Seq<char>) {
        (self.timed_out, self.message@)
    }
}

// ---------------------------------------------------------------------------
// Headers
// ---------------------------------------------------------------------------

/// The place of the first line break, or the length where there is none.
pub open spec fn line_end(s: Seq<char>) -> int
    decreases s.len(),
{
    if s.len() < 2 {
        s.len() as int
    } else if s[0] == '\r' && s[1] == '\n' {
        0
    } else {
        1 + line_end(s.drop_first())
    }
}

/// The lines of a header.
pub open spec fn header_lines(s: Seq<char>) -> Seq<Seq<char>>
    decreases s.len(),
{
    let end = line_end(s);
    if 0 <= end < s.len() - 1 {
        seq![s.take(end)] + header_lines(s.skip(end + 2))
    } else {
        seq![s]
    }
}

pub open spec fn is_number(s: Seq<char>) -> bool {
    s.len() > 0 && forall|i: int| 0 <= i < s.len() ==> is_digit(#[trigger] s[i])
}

pub open spec fn is_json_type(value: Seq<char>) -> bool {
    value == "application/json"@ || value == "application/vscode-jsonrpc; charset=utf-8"@
}

/// What the lines of a header say of the body's length: each of the two known
/// fields at most once, with a value that it admits, and no other field.
pub open spec fn declared_length(lines: Seq<Seq<char>>, length: Option<nat>, typed: bool) -> Result<
    Option<nat>,
    Seq<char>,
>
    decreases lines.len(),
{
    if lines.len() == 0 {
        Ok(length)
    } else {
        let line = lines[0];
        let rest = lines.drop_first();
        let colon = first_index(line, ':');
        if colon == line.len() {
            Err("invalid header"@)
        } else {
            let key = line.take(colon);
            let value = trimmed(line.skip(colon + 1));
            if same_but_case(key, "Content-Length"@) && length is None && is_number(value) {
                if value_of(value) > usize::MAX {
                    Err("number too large to fit in target type"@)
                } else {
                    declared_length(rest, Some(value_of(value)), typed)
                }
            } else if same_but_case(key, "Content-Type"@) && !typed && is_json_type(value) {
                declared_length(rest, length, true)
            } else {
                Err("invalid or duplicate header"@)
            }
        }
    }
}

/// The length of the body that follows a complete header.
pub open spec fn body_length(header: Seq<u8>, limit: nat) -> Result<nat, Seq<char>> {
    if !valid_utf8(header) {
        Err(utf8_complaint(header))
    } else {
        let text = decode_utf8(header);
        match declared_length(header_lines(text.take(text.len() - 4)), None, false) {
            Err(e) => Err(e),
            Ok(length) => match length {
                Some(n) => if 0 < n <= limit {
                    Ok(n)
                } else {
                    Err("invalid body length"@)
                },
                None => Err("invalid body length"@),
            },
        }
    }
}

proof fn lemma_line_end(s: Seq<char>)
    ensures
        0 <= line_end(s) <= s.len(),
        line_end(s) < s.len() ==> line_end(s) < s.len() - 1,
    decreases s.len(),
{
    if s.len() >= 2 && !(s[0] == '\r' && s[1] == '\n') {
        lemma_line_end(s.drop_first());
    }
}

fn find_line_end(c: &Vec<char>, from: usize, to: usize) -> (r: usize)
    requires
        from <= to <= c@.len(),
    ensures
        from <= r <= to,
        r - from == line_end(c@.subrange(from as int, to as int)),
        r < to ==> r + 1 < to,
{
    let ghost s = c@.subrange(from as int, to as int);
    proof {
        lemma_line_end(s);
    }
    assert(s.skip(0) =~= s);
    let mut i: usize = from;
    while i < to && to - i >= 2
        invariant
            from <= i <= to <= c@.len(),
            s == c@.subrange(from as int, to as int),
            line_end(s) == i - from + line_end(s.skip(i - from)),
        decreases to - i,
    {
        if c[i] == '\r' && c[i + 1] == '\n' {
            return i;
        }
        i += 1;
        assert(s.skip(i - from) =~= s.skip(i - 1 - from).drop_first());
    }
    to
}

/// The number that decimal digits write, where it fits a machine word.
fn parse_number(c: &Vec<char>, from: usize, to: usize) -> (r: Option<usize>)
    requires
        from <= to <= c@.len(),
        forall|i: int| from <= i < to ==> is_digit(#[trigger] c@[i]),
    ensures
        match r {
            Some(n) => n == value_of(c@.subrange(from as int, to as int)),
            None => value_of(c@.subrange(from as int, to as int)) > usize::MAX,
        },
{
    let mut n: usize = 0;
    let mut i: usize = from;
    let ghost whole = c@.subrange(from as int, to as int);
    assert(c@.subrange(from as int, from as int) =~= Seq::<char>::empty());
    while i < to
        invariant
            from <= i <= to <= c@.len(),
            whole == c@.subrange(from as int, to as int),
            forall|j: int| from <= j < to ==> is_digit(#[trigger] c@[j]),
            n == value_of(c@.subrange(from as int, i as int)),
        decreases to - i,
    {
        let d: usize = ((c[i] as u32) - ('0' as u32)) as usize;
        let ghost next = c@.subrange(from as int, i + 1);
        assert(next.drop_last() =~= c@.subrange(from as int, i as int));
        assert(value_of(next) == n * 10 + d);
        if n > (usize::MAX - d) / 10 {
            proof {
                assert(n * 10 + d > usize::MAX) by (nonlinear_arith)
                    requires
                        n > (usize::MAX - d) / 10,
                        d <= 9,
                ;
                lemma_value_grows(whole, i + 1 - from);
                assert(whole.take(i + 1 - from) =~= next);
            }
            return None;
        }
        assert(n * 10 + d <= usize::MAX) by (nonlinear_arith)
            requires
                n <= (usize::MAX - d) / 10,
                d <= 9,
        ;
        n = n * 10 + d;
        i += 1;
    }
    Some(n)
}

proof fn lemma_value_grows(s: Seq<char>, k: int)
    requires
        0 <= k <= s.len(),
    ensures
        value_of(s.take(k)) <= value_of(s),
    decreases s.len(),
{
    if k < s.len() {
        lemma_value_grows(s.drop_last(), k);
        assert(s.drop_last().take(k) =~= s.take(k));
        assert(value_of(s) >= value_of(s.drop_last()) * 10);
    } else {
        assert(s.take(k) =~= s);
    }
}

/// The value of one header line, which ends at `to`: the place of its colon and
/// the bounds of its value, or nothing where it has no colon.
fn split_line(c: &Vec<char>, from: usize, to: usize) -> (r: Option<(usize, usize, usize)>)
    requires
        from <= to <= c@.len(),
    ensures
        ({
            let line = c@.subrange(from as int, to as int);
            let colon = first_index(line, ':');
            match r {
                None => colon == line.len(),
                Some((k, a, b)) => {
                    &&& from <= k < a <= b <= to
                    &&& colon == k - from
                    &&& colon < line.len()
                    &&& c@.subrange(from as int, k as int) == line.take(colon)
                    &&& c@.subrange(a as int, b as int) == trimmed(line.skip(colon + 1))
                },
            }
        }),
{
    let ghost line = c@.subrange(from as int, to as int);
    let k: usize = find_char(c, from, to, ':');
    if k == to {
        return None;
    }
    let (a, b) = trim(c, k + 1, to);
    assert(c@.subrange(k + 1, to as int) =~= line.skip(k - from + 1));
    assert(c@.subrange(from as int, k as int) =~= line.take(k - from));
    Some((k, a, b))
}

fn all_digits(c: &Vec<char>, from: usize, to: usize) -> (r: bool)
    requires
        from <= to <= c@.len(),
    ensures
        r == is_number(c@.subrange(from as int, to as int)),
{
    if from == to {
        return false;
    }
    let ghost s = c@.subrange(from as int, to as int);
    let mut i: usize = from;
    while i < to
        invariant
            from <= i <= to <= c@.len(),
            s == c@.subrange(from as int, to as int),
            forall|j: int| 0 <= j < i - from ==> is_digit(#[trigger] s[j]),
        decreases to - i,
    {
        assert(s[i - from] == c@[i as int]);
        if !digit(c[i]) {
            return false;
        }
        i += 1;
    }
    true
}

/// Bytes of ASCII are UTF-8 and stand for themselves.
pub proof fn lemma_ascii_text(bytes: Seq<u8>)
    requires
        forall|i: int| 0 <= i < bytes.len() ==> #[trigger] bytes[i] < 0x80,
    ensures
        valid_utf8(bytes),
        decode_utf8(bytes) == Seq::new(bytes.len(), |i: int| bytes[i] as char),
{
    let s = Seq::new(bytes.len(), |i: int| bytes[i] as char);
    assert(vstd::utf8::is_ascii_chars(s)) by {
        assert forall|i: int| 0 <= i < s.len() implies '\0' <= #[trigger] s[i] <= '\u{7f}' by {
            assert(bytes[i] < 0x80);
        }
    }
    vstd::utf8::is_ascii_chars_encode_utf8(s);
    vstd::utf8::encode_utf8_valid_utf8(s);
    vstd::utf8::encode_utf8_decode_utf8(s);
    assert(vstd::utf8::encode_utf8(s) =~= bytes);
}

/// The length of the body that a complete header announces.
fn read_header(data: &Vec<u8>, limit: usize) -> (r: Result<usize, String>)
    requires
        ends_header(data@),
    ensures
        match r {
            Ok(n) => body_length(data@, limit as nat) == Ok::<nat, Seq<char>>(n as nat),
            Err(e) => body_length(data@, limit as nat) == Err::<nat, Seq<char>>(e@),
        },
{
    let text = match from_utf8(data.as_slice()) {
        Ok(text) => text,
        Err(e) => {
            return Err(e);
        },
    };
    let c = chars(text.as_str());
    proof {
        lemma_header_tail(data@);
    }
    let to: usize = c.len() - 4;
    let ghost head = c@.take(c@.len() - 4);
    let ghost all = declared_length(header_lines(head), None, false);
    let mut from: usize = 0;
    let mut length: Option<usize> = None;
    let mut typed: bool = false;
    let mut done: bool = false;
    assert(head.skip(0) =~= head);
    while !done
        invariant
            to == c@.len() - 4,
            head == c@.take(c@.len() - 4),
            from <= to,
            c@ == decode_utf8(data@),
            valid_utf8(data@),
            all == declared_length(header_lines(head), None, false),
            !done ==> all == declared_length(
                header_lines(head.skip(from as int)),
                match length {
                    Some(n) => Some(n as nat),
                    None => None,
                },
                typed,
            ),
            done ==> all == Ok::<Option<nat>, Seq<char>>(
                match length {
                    Some(n) => Some(n as nat),
                    None => None,
                },
            ),
        decreases to - from, if done { 0int } else { 1int },
    {
        let end: usize = find_line_end(&c, from, to);
        let ghost rest = head.skip(from as int);
        let ghost lines = header_lines(rest);
        proof {
            assert(c@.subrange(from as int, to as int) =~= rest);
            lemma_line_end(rest);
            assert(c@.subrange(from as int, end as int) =~= rest.take(end - from));
            if end < to {
                assert(lines[0] == rest.take(end - from));
                assert(lines.drop_first() =~= header_lines(rest.skip(end - from + 2)));
                assert(rest.skip(end - from + 2) =~= head.skip(end + 2));
            } else {
                assert(rest.take(end - from) =~= rest);
                assert(lines[0] == rest);
                assert(lines.drop_first() =~= Seq::<Seq<char>>::empty());
            }
        }
        match split_line(&c, from, end) {
            None => {
                return Err(String::from_str("invalid header"));
            },
            Some((colon, a, b)) => {
                if equals_ignoring_case(&c, from, colon, "Content-Length") && length.is_none()
                    && all_digits(&c, a, b) {
                    proof {
                        let value = c@.subrange(a as int, b as int);
                        assert forall|i: int| a <= i < b implies is_digit(#[trigger] c@[i]) by {
                            assert(value[i - a] == c@[i]);
                        }
                    }
                    match parse_number(&c, a, b) {
                        Some(n) => {
                            length = Some(n);
                        },
                        None => {
                            return Err(String::from_str("number too large to fit in target type"));
                        },
                    }
                } else if equals_ignoring_case(&c, from, colon, "Content-Type") && !typed && (
                equals(&c, a, b, "application/json") || equals(
                    &c,
                    a,
                    b,
                    "application/vscode-jsonrpc; charset=utf-8",
                )) {
                    typed = true;
                } else {
                    return Err(String::from_str("invalid or duplicate header"));
                }
            },
        }
        if end < to {
            from = end + 2;
        } else {
            proof {
                let found = match length {
                    Some(n) => Some(n as nat),
                    None => None,
                };
                assert(lines.drop_first().len() == 0);
                assert(declared_length(lines.drop_first(), found, typed) == Ok::<
                    Option<nat>,
                    Seq<char>,
                >(found));
            }
            done = true;
        }
    }
    match length {
        Some(n) => {
            if 0 < n && n <= limit {
                Ok(n)
            } else {
                Err(String::from_str("invalid body length"))
            }
        },
        None => Err(String::from_str("invalid body length")),
    }
}

proof fn lemma_header_tail(data: Seq<u8>)
    requires
        valid_utf8(data),
        ends_header(data),
    ensures
        decode_utf8(data).len() >= 4,
{
    let k = data.len() - 4;
    let tail = data.subrange(k, data.len() as int);
    assert(tail =~= seq![13u8, 10u8, 13u8, 10u8]);
    vstd::utf8::is_char_boundary_iff_not_is_continuation_byte(data, k);
    vstd::utf8::decode_utf8_split(data, k);
    lemma_ascii_text(tail);
}

// ---------------------------------------------------------------------------
// Frames
// ---------------------------------------------------------------------------

/// The bytes end in a blank line.
pub open spec fn ends_header(data: Seq<u8>) -> bool {
    let n = data.len() as int;
    n >= 4 && data[n - 4] == 13 && data[n - 3] == 10 && data[n - 2] == 13 && data[n - 1] == 10
}

/// How far a frame has come: its bytes so far and, once its header is
/// complete, where its body begins and how long it is.
pub struct Progress {
    pub data: Seq<u8>,
    pub body: Option<(nat, nat)>,
}

/// What became of some bytes of a frame: how many were used and, where they
/// decided it, the body or the reason to refuse it.
pub struct Fed {
    pub progress: Progress,
    pub used: nat,
    pub outcome: Option<Result<Seq<u8>, Seq<char>>>,
}

pub open spec fn start() -> Progress {
    Progress { data: Seq::empty(), body: None }
}

/// The body, once its last byte has come.
pub open spec fn completed(p: Progress) -> Option<Result<Seq<u8>, Seq<char>>> {
    match p.body {
        Some((offset, length)) => if p.data.len() == offset + length {
            Some(Ok(p.data.skip(offset as int)))
        } else {
            None
        },
        None => None,
    }
}

/// One byte more.
pub open spec fn feed_byte(p: Progress, b: u8, limit: nat) -> Fed {
    let data = p.data.push(b);
    if p.body is None && data.len() > MAX_HEADER {
        Fed { progress: Progress { data, body: None }, used: 1, outcome: Some(Err("header too large"@)) }
    } else if p.body is None && ends_header(data) {
        match body_length(data, limit) {
            Ok(n) => {
                let q = Progress { data, body: Some((data.len(), n)) };
                Fed { progress: q, used: 1, outcome: completed(q) }
            },
            Err(e) => Fed {
                progress: Progress { data, body: None },
                used: 1,
                outcome: Some(Err(e)),
            },
        }
    } else {
        let q = Progress { data, body: p.body };
        Fed { progress: q, used: 1, outcome: completed(q) }
    }
}

/// Bytes one after the other, until one of them decides the frame.
pub open spec fn feed(p: Progress, bytes: Seq<u8>, limit: nat) -> Fed
    decreases bytes.len(),
{
    if bytes.len() == 0 {
        Fed { progress: p, used: 0, outcome: None }
    } else {
        let first = feed_byte(p, bytes[0], limit);
        if first.outcome is Some {
            first
        } else {
            let rest = feed(first.progress, bytes.drop_first(), limit);
            Fed { progress: rest.progress, used: rest.used + 1, outcome: rest.outcome }
        }
    }
}

/// No more bytes are used than there are, and all of them unless one decides the frame.
pub proof fn lemma_feed_used(p: Progress, bytes: Seq<u8>, limit: nat)
    ensures
        feed(p, bytes, limit).used <= bytes.len(),
        feed(p, bytes, limit).outcome is None ==> feed(p, bytes, limit).used == bytes.len(),
    decreases bytes.len(),
{
    if bytes.len() > 0 {
        lemma_feed_used(feed_byte(p, bytes[0], limit).progress, bytes.drop_first(), limit);
    }
}

/// How many bytes a frame still lacks, as far as that is known: one at least until its header
/// is complete.
pub open spec fn missing(p: Progress) -> int {
    match p.body {
        Some((offset, length)) => offset + length - p.data.len(),
        None => 1,
    }
}

/// When a frame must be complete, by when its clock started.
pub open spec fn first_deadline(start: Option<u64>) -> Option<int> {
    match start {
        Some(n) => Some(n + TIMEOUT),
        None => None,
    }
}

/// When a frame must be complete once some bytes more have come.
pub open spec fn deadline_then(deadline: Option<int>, bytes: Seq<u8>, now: u64) -> Option<int> {
    if deadline is None && bytes.len() > 0 {
        Some(now + TIMEOUT)
    } else {
        deadline
    }
}

/// Takes one frame apart as its bytes come in. Bytes behind the frame are left
/// to the caller.
pub struct Decoder {
    data: Vec<u8>,
    body: Option<(usize, usize)>,
    started: Option<u64>,
    limit: usize,
}

impl Decoder {
    pub closed spec fn progress(&self) -> Progress {
        Progress {
            data: self.data@,
            body: match self.body {
                Some((offset, length)) => Some((offset as nat, length as nat)),
                None => None,
            },
        }
    }

    /// When the frame must be complete, in nanoseconds of the caller's clock.
    pub closed spec fn deadline(&self) -> Option<int> {
        first_deadline(self.started)
    }

    /// The most bytes that the body may have.
    pub closed spec fn limit(&self) -> usize {
        self.limit
    }

    /// The body begins where the header ended.
    pub closed spec fn wf(&self) -> bool {
        self.body matches Some((offset, _)) ==> offset <= self.data@.len()
    }

    pub fn new(limit: usize, start: Option<u64>) -> (r: Self)
        ensures
            r.wf(),
            r.progress() == self::start(),
            r.limit() == limit,
            r.deadline() == first_deadline(start),
    {
        let r = Decoder { data: Vec::new(), body: None, started: start, limit };
        assert(r.progress().data =~= Seq::<u8>::empty());
        r
    }

    /// How many bytes the frame still lacks, as far as that is known: at least one
    /// until its header is complete.
    pub fn remaining(&self) -> (r: usize)
        requires
            self.wf(),
            self.progress().body matches Some((offset, length)) ==> self.progress().data.len()
                <= offset + length,
        ensures
            r == missing(self.progress()),
    {
        match self.body {
            Some((offset, length)) => length - (self.data.len() - offset),
            None => 1,
        }
    }

    pub fn expired(&self, now: u64) -> (r: bool)
        ensures
            r == (self.deadline() matches Some(d) && now >= d),
    {
        match self.started {
            Some(t) => now >= t && now - t >= TIMEOUT,
            None => false,
        }
    }

    /// Takes bytes as they come. The clock starts with the first of them.
    pub fn push(&mut self, bytes: &[u8], now: u64) -> (r: Result<
        (usize, Option<Vec<u8>>),
        FrameError,
    >)
        requires
            old(self).wf(),
        ensures
            final(self).wf(),
            final(self).limit() == old(self).limit(),
            final(self).deadline() == deadline_then(old(self).deadline(), bytes@, now),
            (final(self).deadline() matches Some(d) && now >= d) ==> {
                &&& final(self).progress() == old(self).progress()
                &&& r matches Err(e)
                &&& e@ == (true, "whole-frame deadline exceeded"@)
            },
            !(final(self).deadline() matches Some(d) && now >= d) ==> {
                let fed = feed(old(self).progress(), bytes@, old(self).limit() as nat);
                &&& final(self).progress() == fed.progress
                &&& match fed.outcome {
                    None => r matches Ok((n, None)) && n == bytes@.len(),
                    Some(Ok(body)) => r matches Ok((n, Some(b))) && n == fed.used && b@ == body,
                    Some(Err(message)) => r matches Err(e) && e@ == (false, message),
                }
            },
    {
        if self.started.is_none() && bytes.len() > 0 {
            self.started = Some(now);
        }
        if self.expired(now) {
            return Err(
                FrameError {
                    timed_out: true,
                    message: String::from_str("whole-frame deadline exceeded"),
                },
            );
        }
        let ghost whole = feed(self.progress(), bytes@, self.limit as nat);
        let mut i: usize = 0;
        assert(bytes@.skip(0) =~= bytes@);
        while i < bytes.len()
            invariant
                i <= bytes@.len(),
                self.limit == old(self).limit,
                self.wf(),
                self.deadline() == deadline_then(old(self).deadline(), bytes@, now),
                !(self.deadline() matches Some(d) && now >= d),
                whole == feed(old(self).progress(), bytes@, old(self).limit as nat),
                ({
                    let rest = feed(self.progress(), bytes@.skip(i as int), self.limit as nat);
                    &&& whole.progress == rest.progress
                    &&& whole.used == i + rest.used
                    &&& whole.outcome == rest.outcome
                }),
            decreases bytes@.len() - i,
        {
            let b: u8 = bytes[i];
            let ghost before = self.progress();
            let ghost step = feed_byte(before, b, self.limit as nat);
            proof {
                assert(bytes@.skip(i as int)[0] == b);
                assert(bytes@.skip(i as int).drop_first() =~= bytes@.skip(i + 1));
            }
            self.data.push(b);
            if self.body.is_none() {
                if self.data.len() > MAX_HEADER {
                    return Err(
                        FrameError {
                            timed_out: false,
                            message: String::from_str("header too large"),
                        },
                    );
                }
                let n: usize = self.data.len();
                if n >= 4 && self.data[n - 4] == 13 && self.data[n - 3] == 10 && self.data[n - 2]
                    == 13 && self.data[n - 1] == 10 {
                    match read_header(&self.data, self.limit) {
                        Ok(length) => {
                            self.body = Some((n, length));
                        },
                        Err(message) => {
                            return Err(FrameError { timed_out: false, message });
                        },
                    }
                }
            }
            assert(self.progress() == step.progress);
            if let Some((offset, length)) = self.body {
                if self.data.len() - offset == length {
                    let body = tail(&self.data, offset);
                    return Ok((i + 1, Some(body)));
                }
            }
            i += 1;
        }
        assert(bytes@.skip(i as int) =~= Seq::<u8>::empty());
        Ok((bytes.len(), None))
    }
}

fn tail(data: &Vec<u8>, from: usize) -> (r: Vec<u8>)
    requires
        from <= data@.len(),
    ensures
        r@ == data@.skip(from as int),
{
    let mut r: Vec<u8> = Vec::new();
    let mut i: usize = from;
    while i < data.len()
        invariant
            from <= i <= data@.len(),
            r@ == data@.subrange(from as int, i as int),
        decreases data@.len() - i,
    {
        r.push(data[i]);
        i += 1;
        assert(data@.subrange(from as int, i as int) =~= data@.subrange(from as int, i - 1).push(
            data@[i - 1],
        ));
    }
    assert(r@ =~= data@.skip(from as int));
    r
}

// ---------------------------------------------------------------------------
// Frames that are sent
// ---------------------------------------------------------------------------

/// The header of a body of that many bytes.
pub open spec fn frame_header(length: nat) -> Seq<char> {
    "Content-Length: "@ + decimal_of(length) + "\r\n\r\n"@
}

/// A body with its header before it.
pub open spec fn frame(body: Seq<u8>) -> Seq<u8> {
    encode_utf8(frame_header(body.len())) + body
}

/// A serialized value as a frame, unless it is too large for any reader.
pub fn encode(body: &[u8]) -> (r: Result<Vec<u8>, String>)
    ensures
        match r {
            Ok(data) => body@.len() <= MAX_BODY && data@ == frame(body@),
            Err(e) => body@.len() > MAX_BODY && e@ == "output too large"@,
        },
{
    if body.len() > MAX_BODY {
        return Err(String::from_str("output too large"));
    }
    let mut header: String = String::from_str("Content-Length: ");
    header.push_str(decimal(body.len() as u64).as_str());
    header.push_str("\r\n\r\n");
    let mut data: Vec<u8> = Vec::new();
    data.extend_from_slice(header.as_str().as_bytes());
    data.extend_from_slice(body);
    assert(data@ =~= frame(body@));
    Ok(data)
}

/// Bytes that come in two reads have the effect that they have in one: as long
/// as the first read decides nothing the second goes on from there, and what
/// the first decides stands whatever follows.
pub proof fn frames_do_not_depend_on_read_boundaries(p: Progress, a: Seq<u8>, b: Seq<u8>, limit: nat)
    ensures
        ({
            let first = feed(p, a, limit);
            let second = feed(first.progress, b, limit);
            let both = feed(p, a + b, limit);
            if first.outcome is Some {
                both == first
            } else {
                &&& first.used == a.len()
                &&& both.progress == second.progress
                &&& both.used == a.len() + second.used
                &&& both.outcome == second.outcome
            }
        }),
    decreases a.len(),
{
    if a.len() == 0 {
        assert(a + b =~= b);
    } else {
        assert((a + b)[0] == a[0]);
        assert((a + b).drop_first() =~= a.drop_first() + b);
        frames_do_not_depend_on_read_boundaries(
            feed_byte(p, a[0], limit).progress,
            a.drop_first(),
            b,
            limit,
        );
    }
}

/// Bytes that do not yet end a header only gather.
proof fn lemma_header_gathers(p: Progress, bytes: Seq<u8>, limit: nat)
    requires
        p.body is None,
        p.data.len() + bytes.len() <= MAX_HEADER,
        forall|k: int|
            0 < k <= bytes.len() ==> !ends_header(p.data + #[trigger] bytes.take(k)),
    ensures
        feed(p, bytes, limit) == (Fed {
            progress: Progress { data: p.data + bytes, body: None },
            used: bytes.len(),
            outcome: None,
        }),
    decreases bytes.len(),
{
    if bytes.len() == 0 {
        assert(p.data + bytes =~= p.data);
    } else {
        let q = Progress { data: p.data.push(bytes[0]), body: None };
        let rest = bytes.drop_first();
        assert(p.data + bytes.take(1) =~= q.data);
        assert forall|k: int| 0 < k <= rest.len() implies !ends_header(
            q.data + #[trigger] rest.take(k),
        ) by {
            assert(q.data + rest.take(k) =~= p.data + bytes.take(k + 1));
        }
        lemma_header_gathers(q, rest, limit);
        assert(q.data + rest =~= p.data + bytes);
    }
}

/// A body gathers until its last byte, which completes the frame.
proof fn lemma_body_completes(p: Progress, bytes: Seq<u8>, limit: nat)
    requires
        p.body matches Some((offset, length)) && offset <= p.data.len() && p.data.len()
            + bytes.len() == offset + length,
        bytes.len() > 0,
    ensures
        ({
            let fed = feed(p, bytes, limit);
            &&& fed.used == bytes.len()
            &&& fed.outcome == Some(Ok::<Seq<u8>, Seq<char>>((p.data + bytes).skip((p.body->0).0 as int)))
        }),
    decreases bytes.len(),
{
    let q = Progress { data: p.data.push(bytes[0]), body: p.body };
    let rest = bytes.drop_first();
    if rest.len() == 0 {
        assert(q.data =~= p.data + bytes);
    } else {
        lemma_body_completes(q, rest, limit);
        assert(q.data + rest =~= p.data + bytes);
    }
}

proof fn lemma_header_announces(length: nat, limit: nat)
    requires
        0 < length <= limit,
        length <= MAX_BODY,
    ensures
        ({
            let header = encode_utf8(frame_header(length));
            &&& 4 <= header.len() <= MAX_HEADER
            &&& ends_header(header)
            &&& forall|k: int| 0 <= k < header.len() ==> !ends_header(#[trigger] header.take(k))
            &&& body_length(header, limit) == Ok::<nat, Seq<char>>(length)
        }),
{
    let digits = decimal_of(length);
    let text = frame_header(length);
    lemma_decimal_round_trip(length);
    assert(digits.len() <= 7) by {
        reveal_with_fuel(decimal_of, 8);
    }
    reveal_strlit("Content-Length: ");
    reveal_strlit("Content-Length");
    reveal_strlit("\r\n\r\n");
    let d = digits.len() as int;
    assert(text.len() == 16 + d + 4);
    assert forall|i: int| 0 <= i < text.len() implies '\0' <= #[trigger] text[i] <= '\u{7f}' by {
        if 16 <= i < 16 + d {
            assert(is_digit(digits[i - 16]));
        }
    }
    let header = encode_utf8(text);
    vstd::utf8::is_ascii_chars_encode_utf8(text);
    vstd::utf8::encode_utf8_valid_utf8(text);
    vstd::utf8::encode_utf8_decode_utf8(text);
    assert(header.len() == text.len());
    assert forall|k: int| 0 <= k < header.len() implies !ends_header(#[trigger] header.take(k)) by {
        if ends_header(header.take(k)) {
            assert(header.take(k)[k - 4] == header[k - 4]);
            assert(header[k - 4] == text[k - 4] as u8);
            if 16 <= k - 4 < 16 + d {
                assert(is_digit(digits[k - 4 - 16]));
            }
        }
    }
    let line = text.take(text.len() - 4);
    assert(line =~= "Content-Length: "@ + digits);
    assert forall|i: int| 0 <= i < line.len() implies #[trigger] line[i] != '\r' by {
        if 16 <= i {
            assert(is_digit(digits[i - 16]));
        }
    }
    lemma_one_line(line);
    lemma_first_index(line, ':');
    assert(line[14] == ':');
    let colon = first_index(line, ':');
    assert(colon == 14) by {
        if colon > 14 {
            assert(line[14] != ':');
        }
    }
    assert(line.take(14) =~= "Content-Length"@);
    let padded = line.skip(15);
    assert(padded.drop_first() =~= digits);
    assert(padded[0] == ' ');
    assert(is_digit(digits[0]) && is_digit(digits[d - 1]));
    assert(trimmed(digits) == digits);
    assert(trimmed(padded) == digits);
    assert(seq![line].drop_first() =~= Seq::<Seq<char>>::empty());
    assert(declared_length(Seq::<Seq<char>>::empty(), Some(length), false) == Ok::<
        Option<nat>,
        Seq<char>,
    >(Some(length)));
}

proof fn lemma_one_line(s: Seq<char>)
    requires
        forall|i: int| 0 <= i < s.len() ==> #[trigger] s[i] != '\r',
    ensures
        header_lines(s) == seq![s],
{
    lemma_no_line_end(s);
}

proof fn lemma_no_line_end(s: Seq<char>)
    requires
        forall|i: int| 0 <= i < s.len() ==> #[trigger] s[i] != '\r',
    ensures
        line_end(s) == s.len(),
    decreases s.len(),
{
    if s.len() >= 2 {
        lemma_no_line_end(s.drop_first());
    }
}

/// A reader that admits bodies of that size gets back from a frame the body
/// that was put in, and uses exactly the bytes of the frame, whatever follows.
pub proof fn a_frame_gives_back_its_body(body: Seq<u8>, surplus: Seq<u8>, limit: nat)
    requires
        0 < body.len() <= limit,
        body.len() <= MAX_BODY,
    ensures
        ({
            let fed = feed(start(), frame(body) + surplus, limit);
            &&& fed.outcome == Some(Ok::<Seq<u8>, Seq<char>>(body))
            &&& fed.used == frame(body).len()
        }),
{
    let header = encode_utf8(frame_header(body.len()));
    lemma_header_announces(body.len(), limit);
    let most = header.drop_last();
    assert forall|k: int| 0 < k <= most.len() implies !ends_header(
        start().data + #[trigger] most.take(k),
    ) by {
        assert(start().data + most.take(k) =~= header.take(k));
    }
    lemma_header_gathers(start(), most, limit);
    assert(start().data + most =~= most);
    let p = Progress { data: most, body: None };
    let last = seq![header.last()];
    assert(most.push(header.last()) =~= header);
    let q = Progress { data: header, body: Some((header.len(), body.len())) };
    let closing = feed(p, last, limit);
    assert(last.drop_first() =~= Seq::<u8>::empty());
    assert(feed(q, Seq::<u8>::empty(), limit).progress == q);
    assert(closing.progress == q && closing.outcome is None && closing.used == 1);
    frames_do_not_depend_on_read_boundaries(start(), most, last, limit);
    assert(most + last =~= header);
    lemma_body_completes(q, body, limit);
    assert((header + body).skip(header.len() as int) =~= body);
    frames_do_not_depend_on_read_boundaries(start(), header, body, limit);
    frames_do_not_depend_on_read_boundaries(start(), frame(body), surplus, limit);
}

/// All bytes of some reads, one after the other.
pub open spec fn joined(chunks: Seq<Seq<u8>>) -> Seq<u8>
    decreases chunks.len(),
{
    if chunks.len() == 0 {
        Seq::empty()
    } else {
        joined(chunks.drop_last()) + chunks.last()
    }
}

/// How far a frame has come after some reads, as long as none of them decides it.
pub open spec fn fed_in_turn(chunks: Seq<Seq<u8>>, limit: nat) -> Option<Progress>
    decreases chunks.len(),
{
    if chunks.len() == 0 {
        Some(start())
    } else {
        match fed_in_turn(chunks.drop_last(), limit) {
            None => None,
            Some(p) => {
                let fed = feed(p, chunks.last(), limit);
                if fed.outcome is None {
                    Some(fed.progress)
                } else {
                    None
                }
            },
        }
    }
}

/// How far a frame has come, by its bytes so far: its header ends at the first blank line
/// and says how much follows, and the last byte of that is still to come.
pub open spec fn under_way(p: Progress, limit: nat) -> bool {
    match p.body {
        None => forall|h: int| 0 <= h <= p.data.len() ==> !ends_header(#[trigger] p.data.take(h)),
        Some((h, n)) => {
            &&& h <= p.data.len() < h + n
            &&& ends_header(p.data.take(h as int))
            &&& forall|k: int| 0 <= k < h ==> !ends_header(#[trigger] p.data.take(k))
            &&& body_length(p.data.take(h as int), limit) == Ok::<nat, Seq<char>>(n)
        },
    }
}

proof fn lemma_under_way(p: Progress, bytes: Seq<u8>, limit: nat)
    requires
        under_way(p, limit),
        feed(p, bytes, limit).outcome is None,
    ensures
        under_way(feed(p, bytes, limit).progress, limit),
        feed(p, bytes, limit).progress.data == p.data + bytes,
    decreases bytes.len(),
{
    if bytes.len() == 0 {
        assert(p.data + bytes =~= p.data);
    } else {
        let first = feed_byte(p, bytes[0], limit);
        let q = first.progress;
        let data = p.data.push(bytes[0]);
        assert(forall|k: int| 0 <= k <= p.data.len() ==> #[trigger] data.take(k) =~= p.data.take(k));
        assert(data.take(data.len() as int) =~= data);
        assert(under_way(q, limit)) by {
            if p.body is None && q.body is Some {
                assert(body_length(data, limit) == Ok::<nat, Seq<char>>((q.body->0).1));
            }
        }
        lemma_under_way(q, bytes.drop_first(), limit);
        assert(q.data + bytes.drop_first() =~= p.data + bytes);
    }
}

proof fn lemma_fed_in_turn(chunks: Seq<Seq<u8>>, limit: nat)
    ensures
        match fed_in_turn(chunks, limit) {
            Some(p) => under_way(p, limit) && p.data == joined(chunks),
            None => true,
        },
        ({
            let fed = feed(start(), joined(chunks), limit);
            fed_in_turn(chunks, limit) == if fed.outcome is None {
                Some(fed.progress)
            } else {
                None
            }
        }),
    decreases chunks.len(),
{
    if chunks.len() == 0 {
    } else {
        let most = chunks.drop_last();
        lemma_fed_in_turn(most, limit);
        frames_do_not_depend_on_read_boundaries(start(), joined(most), chunks.last(), limit);
        if let Some(p) = fed_in_turn(most, limit) {
            if feed(p, chunks.last(), limit).outcome is None {
                lemma_under_way(p, chunks.last(), limit);
            }
        }
    }
}

/// What a frame still lacks is known after any reads: one byte at least until its header is
/// complete, and then what the header announces less what has come of it. A read of no more
/// than that never passes the end of the frame.
pub proof fn what_is_missing_is_known(chunks: Seq<Seq<u8>>, next: Seq<u8>, limit: nat)
    requires
        fed_in_turn(chunks, limit) is Some,
    ensures
        ({
            let p = fed_in_turn(chunks, limit)->0;
            &&& p.data == joined(chunks)
            &&& under_way(p, limit)
            &&& missing(p) >= 1
            &&& next.len() <= missing(p) ==> feed(p, next, limit).used == next.len() || feed(
                p,
                next,
                limit,
            ).outcome matches Some(Err(_))
        }),
{
    lemma_fed_in_turn(chunks, limit);
    let p = fed_in_turn(chunks, limit)->0;
    if next.len() <= missing(p) {
        lemma_stays_within(p, next, limit);
    }
}

proof fn lemma_stays_within(p: Progress, next: Seq<u8>, limit: nat)
    requires
        next.len() <= missing(p),
    ensures
        feed(p, next, limit).used == next.len() || feed(p, next, limit).outcome matches Some(
            Err(_),
        ),
    decreases next.len(),
{
    if next.len() > 0 {
        let first = feed_byte(p, next[0], limit);
        if p.body is None {
            assert(next.drop_first() =~= Seq::<u8>::empty());
            assert(feed(first.progress, next.drop_first(), limit).used == 0);
        } else if first.outcome is None {
            lemma_stays_within(first.progress, next.drop_first(), limit);
        }
    }
}

/// However a frame is cut into reads, none of them decides it but the last, which gives back
/// the body that was put in and uses every byte.
pub proof fn a_frame_may_come_in_pieces(chunks: Seq<Seq<u8>>, body: Seq<u8>, limit: nat)
    requires
        0 < body.len() <= limit,
        body.len() <= MAX_BODY,
        chunks.len() > 0,
        chunks.last().len() > 0,
        joined(chunks) == frame(body),
    ensures
        fed_in_turn(chunks.drop_last(), limit) matches Some(p) && ({
            let fed = feed(p, chunks.last(), limit);
            &&& fed.outcome == Some(Ok::<Seq<u8>, Seq<char>>(body))
            &&& fed.used == chunks.last().len()
        }),
{
    let most = joined(chunks.drop_last());
    a_frame_gives_back_its_body(body, Seq::empty(), limit);
    assert(frame(body) + Seq::<u8>::empty() =~= frame(body));
    lemma_feed_used(start(), most, limit);
    frames_do_not_depend_on_read_boundaries(start(), most, chunks.last(), limit);
    lemma_fed_in_turn(chunks.drop_last(), limit);
}

/// When a frame must be complete after some reads, each with its time.
pub open spec fn deadline_after(start: Option<u64>, reads: Seq<(Seq<u8>, u64)>) -> Option<int>
    decreases reads.len(),
{
    if reads.len() == 0 {
        first_deadline(start)
    } else {
        deadline_then(deadline_after(start, reads.drop_last()), reads.last().0, reads.last().1)
    }
}

/// The clock of a frame starts once, with the decoder or with the first byte, and no later
/// read moves the deadline.
pub proof fn a_deadline_does_not_move(start: Option<u64>, reads: Seq<(Seq<u8>, u64)>, k: int)
    requires
        0 <= k <= reads.len(),
        forall|i: int| 0 <= i < k ==> (#[trigger] reads[i]).0.len() == 0,
        k < reads.len() ==> reads[k].0.len() > 0,
    ensures
        deadline_after(start, reads) == match start {
            Some(n) => Some(n + TIMEOUT),
            None => if k < reads.len() {
                Some(reads[k].1 + TIMEOUT)
            } else {
                None
            },
        },
    decreases reads.len(),
{
    if reads.len() > 0 {
        let most = reads.drop_last();
        let n = if k < most.len() {
            k
        } else {
            most.len() as int
        };
        assert forall|i: int| 0 <= i < n implies (#[trigger] most[i]).0.len() == 0 by {
            assert(most[i] == reads[i]);
        }
        a_deadline_does_not_move(start, most, n);
    }
}

// ---------------------------------------------------------------------------
// Values
// ---------------------------------------------------------------------------

/// How deep the brackets outside quoted strings stand open.
pub struct Nesting {
    pub depth: nat,
    pub quoted: bool,
    pub escaped: bool,
    pub too_deep: bool,
}

pub open spec fn nest(n: Nesting, b: u8) -> Nesting {
    if n.too_deep {
        n
    } else if n.quoted {
        if n.escaped {
            Nesting { escaped: false, ..n }
        } else if b == 0x5c {
            Nesting { escaped: true, ..n }
        } else if b == 0x22 {
            Nesting { quoted: false, ..n }
        } else {
            n
        }
    } else if b == 0x22 {
        Nesting { quoted: true, ..n }
    } else if b == 0x5b || b == 0x7b {
        Nesting { depth: n.depth + 1, too_deep: n.depth + 1 > 32, ..n }
    } else if b == 0x5d || b == 0x7d {
        Nesting { depth: if n.depth > 0 { (n.depth - 1) as nat } else { 0 }, ..n }
    } else {
        n
    }
}

/// The nesting behind a sequence of bytes. Once more than 32 brackets stood
/// open at a time, that stays noted.
pub open spec fn nesting(bytes: Seq<u8>) -> Nesting
    decreases bytes.len(),
{
    if bytes.len() == 0 {
        Nesting { depth: 0, quoted: false, escaped: false, too_deep: false }
    } else {
        nest(nesting(bytes.drop_last()), bytes.last())
    }
}

/// Why bytes are refused before they are decoded, if they are.
pub open spec fn refusal(bytes: Seq<u8>) -> Option<Seq<char>> {
    if bytes.len() > MAX_BODY {
        Some("body too large"@)
    } else if nesting(bytes).too_deep {
        Some("JSON nesting exceeds 32"@)
    } else {
        None
    }
}

proof fn lemma_too_deep_stays(bytes: Seq<u8>, k: int)
    requires
        0 <= k <= bytes.len(),
        nesting(bytes.take(k)).too_deep,
    ensures
        nesting(bytes).too_deep,
    decreases bytes.len(),
{
    if k < bytes.len() {
        assert(bytes.drop_last().take(k) =~= bytes.take(k));
        lemma_too_deep_stays(bytes.drop_last(), k);
    } else {
        assert(bytes.take(k) =~= bytes);
    }
}

/// Whether bytes may be decoded: neither too many nor nested too deep.
pub fn decodable(bytes: &[u8]) -> (r: Result<(), String>)
    ensures
        match r {
            Ok(()) => refusal(bytes@) is None,
            Err(e) => refusal(bytes@) == Some(e@),
        },
{
    if bytes.len() > MAX_BODY {
        return Err(String::from_str("body too large"));
    }
    let mut depth: usize = 0;
    let mut quoted: bool = false;
    let mut escaped: bool = false;
    let mut i: usize = 0;
    assert(bytes@.take(0) =~= Seq::<u8>::empty());
    while i < bytes.len()
        invariant
            i <= bytes@.len() <= MAX_BODY,
            depth <= 32,
            nesting(bytes@.take(i as int)) == (Nesting {
                depth: depth as nat,
                quoted,
                escaped,
                too_deep: false,
            }),
        decreases bytes@.len() - i,
    {
        let b: u8 = bytes[i];
        let ghost next = bytes@.take(i + 1);
        assert(next.drop_last() =~= bytes@.take(i as int));
        assert(next.last() == b);
        if quoted {
            if escaped {
                escaped = false;
            } else if b == 0x5c {
                escaped = true;
            } else if b == 0x22 {
                quoted = false;
            }
        } else if b == 0x22 {
            quoted = true;
        } else if b == 0x5b || b == 0x7b {
            depth += 1;
            if depth > 32 {
                proof {
                    lemma_too_deep_stays(bytes@, i + 1);
                }
                return Err(String::from_str("JSON nesting exceeds 32"));
            }
        } else if b == 0x5d || b == 0x7d {
            if depth > 0 {
                depth -= 1;
            }
        }
        i += 1;
    }
    assert(bytes@.take(i as int) =~= bytes@);
    Ok(())
}

/// What was decoded, unless a member of it occurs twice.
pub open spec fn is_checked(r: Result<Json, String>, parsed: Result<Json, String>) -> bool {
    if parsed matches Ok(v) && !unambiguous(v) {
        r matches Err(m) && m@ == "duplicate field"@
    } else {
        r == parsed
    }
}

/// Decodes bytes that may be decoded; `decode` sees no others. A value in which a member
/// occurs twice is refused.
pub fn parse<F: FnOnce(&[u8]) -> Result<Json, String>>(bytes: &[u8], decode: F) -> (r: Result<
    Json,
    String,
>)
    requires
        decode.requires((bytes,)),
    ensures
        match refusal(bytes@) {
            Some(e) => r matches Err(m) && m@ == e,
            None => exists|parsed: Result<Json, String>|
                decode.ensures((bytes,), parsed) && #[trigger] is_checked(r, parsed),
        },
        r matches Ok(v) ==> unambiguous(v),
{
    match decodable(bytes) {
        Ok(()) => {
            let parsed = decode(bytes);
            let ghost outcome = parsed;
            let r = match parsed {
                Ok(v) => if v.is_unambiguous() {
                    Ok(v)
                } else {
                    Err(String::from_str("duplicate field"))
                },
                Err(e) => Err(e),
            };
            assert(is_checked(r, outcome));
            r
        },
        Err(e) => Err(e),
    }
}

/// A request or a notification.
pub struct Call {
    pub jsonrpc: String,
    pub id: Option<Json>,
    pub method: String,
    pub params: Json,
}

/// A string that is an identifier, or an integer that every reader can hold.
pub open spec fn is_id(id: Json) -> bool {
    match id {
        Json::Text(s) => is_identifier(s@),
        Json::Unsigned(n) => n <= 9_007_199_254_740_991,
        _ => false,
    }
}

/// The ID of a call, as answers are given under it.
pub enum RpcId {
    Text(String),
    Number(u64),
}

/// The ID as a value.
pub open spec fn is_id_value(v: Json, id: RpcId) -> bool {
    match id {
        RpcId::Text(s) => is_text(v, s@),
        RpcId::Number(n) => v == Json::Unsigned(n),
    }
}

impl RpcId {
    pub fn copy(&self) -> (r: RpcId)
        ensures
            r == *self,
    {
        match self {
            RpcId::Text(s) => RpcId::Text(s.clone()),
            RpcId::Number(n) => RpcId::Number(*n),
        }
    }

    pub fn value(&self) -> (r: Json)
        ensures
            is_id_value(r, *self),
    {
        match self {
            RpcId::Text(s) => Json::Text(s.clone()),
            RpcId::Number(n) => Json::Unsigned(*n),
        }
    }

    /// Reads an ID that a call may have.
    pub fn read(id: &Json) -> (r: Option<RpcId>)
        ensures
            r is Some <==> is_id(*id),
            r matches Some(x) ==> is_id_value(*id, x),
    {
        if !valid_id(id) {
            return None;
        }
        match id {
            Json::Text(s) => Some(RpcId::Text(s.clone())),
            Json::Unsigned(n) => Some(RpcId::Number(*n)),
            _ => None,
        }
    }
}

pub fn valid_id(id: &Json) -> (r: bool)
    ensures
        r == is_id(*id),
{
    match id {
        Json::Text(s) => identifier(s.as_str()),
        Json::Unsigned(n) => *n <= 9_007_199_254_740_991,
        _ => false,
    }
}

fn member(name: &str, value: Json) -> (r: (String, Json))
    ensures
        r.0@ == name@,
        r.1 == value,
{
    (String::from_str(name), value)
}

fn text(s: &str) -> (r: Json)
    ensures
        is_text(r, s@),
{
    Json::Text(String::from_str(s))
}

pub open spec fn is_text(v: Json, s: Seq<char>) -> bool {
    v matches Json::Text(t) && t@ == s
}

/// An object with exactly these members, in this order.
pub open spec fn has_names(v: Json, names: Seq<Seq<char>>) -> bool {
    v matches Json::Object(f) && f@.len() == names.len() && forall|i: int|
        0 <= i < names.len() ==> (#[trigger] f@[i]).0@ == names[i]
}

pub open spec fn is_request(v: Json, id: Json, method: Seq<char>, params: Json) -> bool {
    &&& has_names(v, seq!["jsonrpc"@, "id"@, "method"@, "params"@])
    &&& is_text(v.fields()[0].1, "2.0"@)
    &&& v.fields()[1].1 == id
    &&& is_text(v.fields()[2].1, method)
    &&& v.fields()[3].1 == params
}

pub open spec fn is_result(v: Json, id: Json, result: Json) -> bool {
    &&& has_names(v, seq!["jsonrpc"@, "id"@, "result"@])
    &&& is_text(v.fields()[0].1, "2.0"@)
    &&& v.fields()[1].1 == id
    &&& v.fields()[2].1 == result
}

pub open spec fn is_code(v: Json, code: int) -> bool {
    match v {
        Json::Unsigned(n) => n == code,
        Json::Negative(n) => n == code && n < 0,
        _ => false,
    }
}

pub open spec fn is_error(v: Json, id: Json, code: int, message: Seq<char>) -> bool {
    &&& has_names(v, seq!["jsonrpc"@, "id"@, "error"@])
    &&& is_text(v.fields()[0].1, "2.0"@)
    &&& v.fields()[1].1 == id
    &&& has_names(v.fields()[2].1, seq!["code"@, "message"@])
    &&& is_code(v.fields()[2].1.fields()[0].1, code)
    &&& is_text(v.fields()[2].1.fields()[1].1, message)
}

pub fn request(id: Json, method: &str, params: Json) -> (r: Json)
    ensures
        is_request(r, id, method@, params),
{
    Json::Object(
        vec![
            member("jsonrpc", text("2.0")),
            member("id", id),
            member("method", text(method)),
            member("params", params),
        ],
    )
}

pub fn result(id: Json, value: Json) -> (r: Json)
    ensures
        is_result(r, id, value),
{
    Json::Object(vec![member("jsonrpc", text("2.0")), member("id", id), member("result", value)])
}

pub fn error(id: Json, code: i32, message: &str) -> (r: Json)
    ensures
        is_error(r, id, code as int, message@),
{
    let number = if code < 0 {
        Json::Negative(code as i64)
    } else {
        Json::Unsigned(code as u64)
    };
    Json::Object(
        vec![
            member("jsonrpc", text("2.0")),
            member("id", id),
            member(
                "error",
                Json::Object(vec![member("code", number), member("message", text(message))]),
            ),
        ],
    )
}

/// An object with a version, a method, and at most an ID and parameters beside them.
pub open spec fn is_envelope(v: Json) -> bool {
    &&& v is Object
    &&& forall|i: int|
        0 <= i < v.fields().len() ==> {
            let name = (#[trigger] v.fields()[i]).0@;
            name == "jsonrpc"@ || name == "id"@ || name == "method"@ || name == "params"@
        }
    &&& lookup(v.fields(), "jsonrpc"@) matches Some(j) && j is Text
    &&& lookup(v.fields(), "method"@) matches Some(m) && m is Text
}

/// What a list is as a call, whose parts stand in order without their names: the code and
/// message of its refusal, or none. The parameters may be left out, and the ID may be null.
pub open spec fn positional_refusal(items: Seq<Json>) -> Option<(int, Seq<char>)> {
    if !(3 <= items.len() <= 4) || !(items[0] is Text) || !(items[2] is Text) {
        Some((-32600, "invalid request envelope"@))
    } else if !is_text(items[0], "2.0"@) || size(items[2]->Text_0@) > 64 || (items[1] != Json::Null
        && !is_id(items[1])) {
        Some((-32600, "invalid JSON-RPC version or ID"@))
    } else {
        None
    }
}

/// The call that the parts of an accepted list make.
pub open spec fn is_positional_call(c: Call, items: Seq<Json>) -> bool {
    &&& items[0] == Json::Text(c.jsonrpc)
    &&& c.id == if items[1] == Json::Null {
        None
    } else {
        Some(items[1])
    }
    &&& items[2] == Json::Text(c.method)
    &&& if items.len() == 4 {
        c.params == items[3]
    } else {
        c.params matches Json::Object(f) && f@.len() == 0
    }
}

/// What a decoded value is as a call: the code and message of its refusal, or none.
pub open spec fn call_refusal(parsed: Result<Json, String>) -> Option<(int, Seq<char>)> {
    match parsed {
        Err(_) => Some((-32700, "invalid JSON"@)),
        Ok(Json::Array(items)) => positional_refusal(items@),
        Ok(v) => {
            let id = lookup(v.fields(), "id"@);
            if id == Some(Json::Null) {
                Some((-32600, "null IDs are unsupported"@))
            } else if !is_envelope(v) {
                Some((-32600, "invalid request envelope"@))
            } else if !is_text(lookup(v.fields(), "jsonrpc"@)->0, "2.0"@) || size(
                (lookup(v.fields(), "method"@)->0)->Text_0@,
            ) > 64 || (id matches Some(i) && !is_id(i)) {
                Some((-32600, "invalid JSON-RPC version or ID"@))
            } else {
                None
            }
        },
    }
}

/// The call that an accepted value makes.
pub open spec fn is_call(c: Call, v: Json) -> bool {
    match v {
        Json::Array(items) => is_positional_call(c, items@),
        _ => is_named_call(c, v),
    }
}

pub open spec fn is_named_call(c: Call, v: Json) -> bool {
    &&& lookup(v.fields(), "jsonrpc"@) == Some(Json::Text(c.jsonrpc))
    &&& lookup(v.fields(), "id"@) == c.id
    &&& lookup(v.fields(), "method"@) == Some(Json::Text(c.method))
    &&& match lookup(v.fields(), "params"@) {
        Some(p) => c.params == p,
        None => c.params matches Json::Object(f) && f@.len() == 0,
    }
}

/// Reads a decoded value as a call, or says with which error it is answered.
pub fn envelope(parsed: Result<Json, String>) -> (r: Result<Call, Json>)
    ensures
        match call_refusal(parsed) {
            Some((code, message)) => r matches Err(e) && is_error(e, Json::Null, code, message),
            None => r matches Ok(c) && parsed matches Ok(v) && is_call(c, v),
        },
{
    let v = match parsed {
        Ok(v) => v,
        Err(_) => {
            return Err(error(Json::Null, -32700, "invalid JSON"));
        },
    };
    let v = match v {
        Json::Array(items) => {
            return positional(items);
        },
        v => v,
    };
    if let Some(Json::Null) = v.get("id") {
        return Err(error(Json::Null, -32600, "null IDs are unsupported"));
    }
    if !envelope_fits(&v) {
        return Err(error(Json::Null, -32600, "invalid request envelope"));
    }
    let id_fits = match v.get("id") {
        Some(id) => valid_id(id),
        None => true,
    };
    let version_fits = match v.get("jsonrpc") {
        Some(Json::Text(s)) => same(s.as_str(), "2.0"),
        _ => false,
    };
    let method_fits = match v.get("method") {
        Some(Json::Text(s)) => byte_len(s.as_str()) <= 64,
        _ => false,
    };
    if !version_fits || !method_fits || !id_fits {
        return Err(error(Json::Null, -32600, "invalid JSON-RPC version or ID"));
    }
    match v {
        Json::Object(fields) => Ok(take_call(fields)),
        _ => Err(error(Json::Null, -32600, "invalid request envelope")),
    }
}

/// Reads a list as a call.
fn positional(items: Vec<Json>) -> (r: Result<Call, Json>)
    ensures
        match positional_refusal(items@) {
            Some((code, message)) => r matches Err(e) && is_error(e, Json::Null, code, message),
            None => r matches Ok(c) && is_positional_call(c, items@),
        },
{
    let mut rest = items;
    let n: usize = rest.len();
    if n < 3 || n > 4 {
        return Err(error(Json::Null, -32600, "invalid request envelope"));
    }
    let params = if n == 4 {
        rest.pop()
    } else {
        None
    };
    let (method, id, jsonrpc) = (rest.pop(), rest.pop(), rest.pop());
    match (jsonrpc, id, method) {
        (Some(Json::Text(jsonrpc)), Some(id), Some(Json::Text(method))) => {
            let id = match id {
                Json::Null => None,
                id => Some(id),
            };
            let id_fits = match &id {
                Some(id) => valid_id(id),
                None => true,
            };
            if !same(jsonrpc.as_str(), "2.0") || byte_len(method.as_str()) > 64 || !id_fits {
                return Err(error(Json::Null, -32600, "invalid JSON-RPC version or ID"));
            }
            let params = match params {
                Some(p) => p,
                None => Json::Object(Vec::new()),
            };
            Ok(Call { jsonrpc, id, method, params })
        },
        _ => Err(error(Json::Null, -32600, "invalid request envelope")),
    }
}

fn envelope_fits(v: &Json) -> (r: bool)
    ensures
        r == is_envelope(*v),
{
    match v {
        Json::Object(fields) => {
            let mut i: usize = 0;
            while i < fields.len()
                invariant
                    *v == Json::Object(*fields),
                    i <= fields@.len(),
                    forall|j: int|
                        0 <= j < i ==> {
                            let name = (#[trigger] fields@[j]).0@;
                            name == "jsonrpc"@ || name == "id"@ || name == "method"@ || name
                                == "params"@
                        },
                decreases fields@.len() - i,
            {
                let name = fields[i].0.as_str();
                if !(same(name, "jsonrpc") || same(name, "id") || same(name, "method") || same(
                    name,
                    "params",
                )) {
                    assert(v.fields()[i as int] == fields@[i as int]);
                    return false;
                }
                i += 1;
            }
            let versioned = match v.get("jsonrpc") {
                Some(Json::Text(_)) => true,
                _ => false,
            };
            let named = match v.get("method") {
                Some(Json::Text(_)) => true,
                _ => false,
            };
            versioned && named
        },
        _ => false,
    }
}

/// Moves the first member of that name out of the fields.
fn take(fields: &mut Vec<(String, Json)>, key: &str) -> (r: Option<Json>)
    ensures
        r == lookup(old(fields)@, key@),
        forall|other: Seq<char>|
            other != key@ ==> #[trigger] lookup(final(fields)@, other) == lookup(
                old(fields)@,
                other,
            ),
{
    let mut i: usize = 0;
    assert(fields@.skip(0) =~= fields@);
    while i < fields.len()
        invariant
            i <= fields@.len(),
            fields@ == old(fields)@,
            lookup(fields@, key@) == lookup(fields@.skip(i as int), key@),
        decreases fields@.len() - i,
    {
        if same(fields[i].0.as_str(), key) {
            proof {
                assert forall|other: Seq<char>| other != key@ implies #[trigger] lookup(
                    fields@.remove(i as int),
                    other,
                ) == lookup(fields@, other) by {
                    lemma_lookup_remove(fields@, i as int, other);
                }
            }
            let (_, value) = fields.remove(i);
            return Some(value);
        }
        i += 1;
        assert(fields@.skip(i as int) =~= fields@.skip(i - 1).drop_first());
    }
    None
}

proof fn lemma_lookup_remove(f: Seq<(String, Json)>, i: int, key: Seq<char>)
    requires
        0 <= i < f.len(),
        f[i].0@ != key,
    ensures
        lookup(f.remove(i), key) == lookup(f, key),
    decreases f.len(),
{
    if i == 0 {
        assert(f.remove(0) =~= f.drop_first());
    } else {
        assert(f.remove(i)[0] == f[0]);
        assert(f.remove(i).drop_first() =~= f.drop_first().remove(i - 1));
        lemma_lookup_remove(f.drop_first(), i - 1, key);
    }
}

fn take_text(fields: &mut Vec<(String, Json)>, key: &str) -> (r: String)
    requires
        lookup(old(fields)@, key@) matches Some(v) && v is Text,
    ensures
        lookup(old(fields)@, key@) == Some(Json::Text(r)),
        forall|other: Seq<char>|
            other != key@ ==> #[trigger] lookup(final(fields)@, other) == lookup(
                old(fields)@,
                other,
            ),
{
    match take(fields, key) {
        Some(Json::Text(s)) => s,
        _ => String::new(),
    }
}

fn take_call(fields: Vec<(String, Json)>) -> (c: Call)
    requires
        lookup(fields@, "jsonrpc"@) matches Some(j) && j is Text,
        lookup(fields@, "method"@) matches Some(m) && m is Text,
    ensures
        is_call(c, Json::Object(fields)),
{
    let mut rest = fields;
    proof {
        lemma_names_differ();
    }
    let jsonrpc = take_text(&mut rest, "jsonrpc");
    let id = take(&mut rest, "id");
    let method = take_text(&mut rest, "method");
    let params = match take(&mut rest, "params") {
        Some(p) => p,
        None => Json::Object(Vec::new()),
    };
    Call { jsonrpc, id, method, params }
}

proof fn lemma_names_differ()
    ensures
        "jsonrpc"@ != "id"@,
        "jsonrpc"@ != "method"@,
        "jsonrpc"@ != "params"@,
        "id"@ != "method"@,
        "id"@ != "params"@,
        "method"@ != "params"@,
{
    reveal_strlit("jsonrpc");
    reveal_strlit("id");
    reveal_strlit("method");
    reveal_strlit("params");
    assert("jsonrpc"@.len() == 7 && "id"@.len() == 2 && "method"@.len() == 6 && "params"@.len()
        == 6);
    assert("method"@[0] == 'm');
    assert("params"@[0] == 'p');
}

/// Decodes bytes and reads them as a call; `decode` sees only bytes that may be decoded.
pub fn call<F: FnOnce(&[u8]) -> Result<Json, String>>(bytes: &[u8], decode: F) -> (r: Result<
    Call,
    Json,
>)
    requires
        decode.requires((bytes,)),
    ensures
        refusal(bytes@) is Some ==> (r matches Err(e) && is_error(
            e,
            Json::Null,
            -32700,
            "invalid JSON"@,
        )),
        refusal(bytes@) is None ==> exists|parsed: Result<Json, String>|
            decode.ensures((bytes,), parsed) && #[trigger] answers_call(r, parsed),
{
    let checked = parse(bytes, decode);
    let ghost taken = checked;
    let r = envelope(checked);
    proof {
        if refusal(bytes@) is None {
            let parsed = choose|parsed: Result<Json, String>|
                decode.ensures((bytes,), parsed) && #[trigger] is_checked(taken, parsed);
            assert(answers_call(r, parsed));
        }
    }
    r
}

/// The call of a decoded value, or the error with which it is answered. One in which a
/// member occurs twice is no JSON.
pub open spec fn answers_call(r: Result<Call, Json>, parsed: Result<Json, String>) -> bool {
    if parsed matches Ok(v) && !unambiguous(v) {
        r matches Err(e) && is_error(e, Json::Null, -32700, "invalid JSON"@)
    } else {
        match call_refusal(parsed) {
            Some((code, message)) => r matches Err(e) && is_error(e, Json::Null, code, message),
            None => r matches Ok(c) && parsed matches Ok(v) && is_call(c, v),
        }
    }
}

// ---------------------------------------------------------------------------
// Responses
// ---------------------------------------------------------------------------

pub open spec fn fits_i64(v: Json) -> bool {
    match v {
        Json::Unsigned(n) => n <= i64::MAX,
        Json::Negative(_) => true,
        _ => false,
    }
}

/// The member of that name, or null.
pub open spec fn at(v: Json, key: Seq<char>) -> Json {
    match lookup(v.fields(), key) {
        Some(x) => x,
        None => Json::Null,
    }
}

pub open spec fn is_error_name(name: Seq<char>) -> bool {
    name == "code"@ || name == "message"@ || name == "data"@
}

/// Why a value is no answer to the call with that ID, if it is none.
pub open spec fn response_refusal(reply: Json, id: Json) -> Option<Seq<char>> {
    let f = reply.fields();
    if !(reply is Object) {
        Some("invalid response"@)
    } else if f.len() != 3 || !is_text(at(reply, "jsonrpc"@), "2.0"@) || !alike(
        at(reply, "id"@),
        id,
    ) || (lookup(f, "result"@) is Some) == (lookup(f, "error"@) is Some) {
        Some("invalid correlated response"@)
    } else {
        match lookup(f, "error"@) {
            None => None,
            Some(e) => if !(e is Object) {
                Some("invalid error"@)
            } else if !fits_i64(at(e, "code"@)) || !(at(e, "message"@) is Text) || exists|i: int|
                0 <= i < e.fields().len() && !is_error_name((#[trigger] e.fields()[i]).0@) {
                Some("invalid RPC error"@)
            } else {
                None
            },
        }
    }
}

/// Validates the envelope of an answer before its content is looked at.
pub fn validate_response(reply: &Json, id: &Json) -> (r: Result<(), String>)
    ensures
        match r {
            Ok(()) => response_refusal(*reply, *id) is None,
            Err(e) => response_refusal(*reply, *id) == Some(e@),
        },
{
    let count = match reply {
        Json::Object(fields) => fields.len(),
        _ => {
            return Err(String::from_str("invalid response"));
        },
    };
    let versioned = match reply.get("jsonrpc") {
        Some(Json::Text(s)) => same(s.as_str(), "2.0"),
        _ => false,
    };
    let correlated = match reply.get("id") {
        Some(i) => i.same(id),
        None => Json::Null.same(id),
    };
    let failed = reply.get("error");
    if count != 3 || !versioned || !correlated || reply.get("result").is_some()
        == failed.is_some() {
        return Err(String::from_str("invalid correlated response"));
    }
    if let Some(e) = failed {
        let fields = match e {
            Json::Object(fields) => fields,
            _ => {
                return Err(String::from_str("invalid error"));
            },
        };
        let coded = match e.get("code") {
            Some(Json::Unsigned(n)) => *n <= i64::MAX as u64,
            Some(Json::Negative(_)) => true,
            _ => false,
        };
        let worded = match e.get("message") {
            Some(Json::Text(_)) => true,
            _ => false,
        };
        if !coded || !worded || !error_names(fields) {
            return Err(String::from_str("invalid RPC error"));
        }
    }
    Ok(())
}

fn error_names(fields: &Vec<(String, Json)>) -> (r: bool)
    ensures
        r == !(exists|i: int| 0 <= i < fields@.len() && !is_error_name((#[trigger] fields@[i]).0@)),
{
    let mut i: usize = 0;
    while i < fields.len()
        invariant
            i <= fields@.len(),
            forall|j: int| 0 <= j < i ==> is_error_name((#[trigger] fields@[j]).0@),
        decreases fields@.len() - i,
    {
        let name = fields[i].0.as_str();
        if !(same(name, "code") || same(name, "message") || same(name, "data")) {
            return false;
        }
        i += 1;
    }
    true
}

/// What a validated answer says: its result, or the error of a known refusal.
pub fn outcome<'a>(reply: &'a Json, id: &Json) -> (r: Result<Result<&'a Json, &'a Json>, String>)
    ensures
        match response_refusal(*reply, *id) {
            Some(e) => r matches Err(m) && m@ == e,
            None => match lookup(reply.fields(), "error"@) {
                Some(e) => r matches Ok(Err(x)) && *x == e,
                None => r matches Ok(Ok(x)) && Some(*x) == lookup(reply.fields(), "result"@),
            },
        },
{
    match validate_response(reply, id) {
        Err(e) => Err(e),
        Ok(()) => match reply.get("error") {
            Some(e) => Ok(Err(e)),
            None => match reply.get("result") {
                Some(x) => Ok(Ok(x)),
                None => Err(String::from_str("invalid correlated response")),
            },
        },
    }
}

/// An answer built for a call is accepted by the caller and says what it was built from.
pub proof fn answers_are_accepted(reply: Json, id: Json, value: Json)
    requires
        is_result(reply, id, value),
        alike(id, id),
    ensures
        response_refusal(reply, id) is None,
        lookup(reply.fields(), "result"@) == Some(value),
        lookup(reply.fields(), "error"@) is None,
{
    let f = reply.fields();
    lemma_reply_names();
    assert(f[0].0@ == seq!["jsonrpc"@, "id"@, "result"@][0]);
    assert(f[1].0@ == seq!["jsonrpc"@, "id"@, "result"@][1]);
    assert(f[2].0@ == seq!["jsonrpc"@, "id"@, "result"@][2]);
    reveal_with_fuel(lookup, 4);
}

/// An error built for a call is accepted by the caller as a refusal with that code.
pub proof fn errors_are_accepted(reply: Json, id: Json, code: i32, message: Seq<char>)
    requires
        is_error(reply, id, code as int, message),
        alike(id, id),
    ensures
        response_refusal(reply, id) is None,
        lookup(reply.fields(), "result"@) is None,
        lookup(reply.fields(), "error"@) matches Some(e) && is_code(at(e, "code"@), code as int)
            && is_text(at(e, "message"@), message),
{
    let f = reply.fields();
    lemma_reply_names();
    assert(f[0].0@ == seq!["jsonrpc"@, "id"@, "error"@][0]);
    assert(f[1].0@ == seq!["jsonrpc"@, "id"@, "error"@][1]);
    assert(f[2].0@ == seq!["jsonrpc"@, "id"@, "error"@][2]);
    let e = f[2].1;
    assert(e.fields()[0].0@ == seq!["code"@, "message"@][0]);
    assert(e.fields()[1].0@ == seq!["code"@, "message"@][1]);
    reveal_with_fuel(lookup, 4);
}

proof fn lemma_reply_names()
    ensures
        "jsonrpc"@ != "id"@,
        "jsonrpc"@ != "result"@,
        "jsonrpc"@ != "error"@,
        "id"@ != "result"@,
        "id"@ != "error"@,
        "result"@ != "error"@,
        "code"@ != "message"@,
{
    reveal_strlit("jsonrpc");
    reveal_strlit("id");
    reveal_strlit("result");
    reveal_strlit("error");
    reveal_strlit("code");
    reveal_strlit("message");
    assert("jsonrpc"@.len() == 7 && "id"@.len() == 2 && "result"@.len() == 6 && "error"@.len()
        == 5 && "code"@.len() == 4 && "message"@.len() == 7);
}

// ---------------------------------------------------------------------------
// Permissions
// ---------------------------------------------------------------------------

pub struct PermissionResult {
    pub request: String,
    pub status: String,
    pub message: Option<String>,
}

pub struct PermissionParams {
    pub kind: String,
    pub package: String,
    pub reason: String,
}

impl PermissionParams {
    /// A request for a package of the catalogue, with a reason of at most 1024 characters.
    pub fn validate(&self) -> (r: bool)
        ensures
            r == (self.kind@ == "package"@ && is_package_name(self.package@) && 1
                <= self.reason@.len() <= 1024),
    {
        let n: usize = chars(self.reason.as_str()).len();
        same(self.kind.as_str(), "package") && package_name(self.package.as_str()) && 1 <= n && n
            <= 1024
    }
}

/// Brackets that are opened and closed again do not count; what stays open does, up to 32 at a
/// time.
pub proof fn open_brackets_are_counted(bytes: Seq<u8>)
    requires
        forall|i: int| 0 <= i < bytes.len() ==> #[trigger] bytes[i] == 0x5b || bytes[i] == 0x7b,
    ensures
        nesting(bytes).too_deep <==> bytes.len() > 32,
        bytes.len() <= 32 ==> nesting(bytes).depth == bytes.len() && !nesting(bytes).quoted,
    decreases bytes.len(),
{
    if bytes.len() > 0 {
        let most = bytes.drop_last();
        assert forall|i: int| 0 <= i < most.len() implies #[trigger] most[i] == 0x5b || most[i]
            == 0x7b by {
            assert(most[i] == bytes[i]);
        }
        open_brackets_are_counted(most);
        assert(bytes.last() == bytes[bytes.len() - 1]);
    }
}

/// A bracket that is closed does not count any more, and what stands in a string never does.
pub proof fn closed_brackets_do_not_count(bytes: Seq<u8>, open: u8, close: u8, text: Seq<u8>)
    requires
        !nesting(bytes).too_deep,
        !nesting(bytes).quoted,
        !nesting(bytes).escaped,
        open == 0x5b || open == 0x7b,
        close == 0x5d || close == 0x7d,
        forall|i: int| 0 <= i < text.len() ==> #[trigger] text[i] != 0x22 && text[i] != 0x5c,
    ensures
        nesting(bytes).depth < 32 ==> nesting(bytes.push(open).push(close)) == nesting(bytes),
        nesting(bytes).depth == 32 ==> nesting(bytes.push(open)).too_deep,
        nesting((bytes.push(0x22) + text).push(0x22)) == nesting(bytes),
{
    assert(bytes.push(open).drop_last() =~= bytes);
    let opened = bytes.push(open);
    assert(opened.push(close).drop_last() =~= opened);
    assert(opened.last() == open && opened.push(close).last() == close);
    assert(nesting(opened) == nest(nesting(bytes), open));
    assert(nesting(opened.push(close)) == nest(nesting(opened), close));
    lemma_in_string(bytes, text);
    let within = bytes.push(0x22) + text;
    assert(within.push(0x22).drop_last() =~= within);
}

proof fn lemma_in_string(bytes: Seq<u8>, text: Seq<u8>)
    requires
        !nesting(bytes).too_deep,
        !nesting(bytes).quoted,
        !nesting(bytes).escaped,
        forall|i: int| 0 <= i < text.len() ==> #[trigger] text[i] != 0x22 && text[i] != 0x5c,
    ensures
        nesting(bytes.push(0x22) + text) == (Nesting { quoted: true, ..nesting(bytes) }),
    decreases text.len(),
{
    let all = bytes.push(0x22) + text;
    if text.len() == 0 {
        assert(all =~= bytes.push(0x22));
        assert(bytes.push(0x22).drop_last() =~= bytes);
    } else {
        let most = text.drop_last();
        assert forall|i: int| 0 <= i < most.len() implies #[trigger] most[i] != 0x22 && most[i]
            != 0x5c by {
            assert(most[i] == text[i]);
        }
        lemma_in_string(bytes, most);
        assert(all.drop_last() =~= bytes.push(0x22) + most);
        assert(all.last() == text[text.len() - 1]);
    }
}

} // verus!
