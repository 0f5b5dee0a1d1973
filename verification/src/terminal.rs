//! A payload's terminal with one consumer at a time: what is kept for whom, when
//! the consumer counts as gone, and when a notice may be typed in its place.
//!
//! The caller reads and writes; a terminal says how much it may read, and takes
//! what came of it.
use vstd::prelude::*;
use vstd::utf8::encode_utf8;

use crate::integration::{elapsed, Observation};
use crate::screen::{awaits_input, drawn, sized, Screen};

verus! {

/// The most bytes that wait in one direction.
pub const CAP: usize = 65536;

/// The most bytes that are read at once.
pub const CHUNK: usize = 8192;

/// How long, in nanoseconds, an escape may be the start of a report.
pub const INPUT_ESCAPE_TIMEOUT: u64 = 100_000_000;

/// How long, in nanoseconds, a screen must rest before it counts as settled.
pub const SETTLED: u64 = 300_000_000;

// ---------------------------------------------------------------------------
// Input
// ---------------------------------------------------------------------------

/// A report under way, and when it began.
pub struct Watch {
    pub pending: Seq<u8>,
    pub since: Option<u64>,
}

pub open spec fn no_report() -> Watch {
    Watch { pending: Seq::empty(), since: None }
}

/// A digit, or a mark between the parameters of a report.
pub open spec fn is_param(b: u8) -> bool {
    (0x30 <= b && b <= 0x39) || b == 0x3b || b == 0x3f || b == 0x3e
}

pub open spec fn begins_report(p: Seq<u8>) -> bool {
    p.len() >= 2 && p[0] == 0x1b && p[1] == 0x5b
}

/// A report of the terminal itself: focus gained or lost, the place of the
/// cursor, or the terminal's kind.
pub open spec fn is_report(p: Seq<u8>) -> bool {
    ||| p == seq![0x1bu8, 0x5bu8, 0x49u8]
    ||| p == seq![0x1bu8, 0x5bu8, 0x4fu8]
    ||| {
        &&& begins_report(p)
        &&& p.len() > 3
        &&& p.last() == 0x52 || p.last() == 0x63
        &&& forall|i: int| 2 <= i < p.len() - 1 ==> is_param(#[trigger] p[i])
    }
}

/// Bytes that may still become a report.
pub open spec fn may_become_report(p: Seq<u8>) -> bool {
    ||| p == seq![0x1bu8, 0x5bu8]
    ||| {
        &&& begins_report(p)
        &&& p.len() < 64
        &&& forall|i: int| 2 <= i < p.len() ==> is_param(#[trigger] p[i])
    }
}

/// One byte of input: what is under way after it and, where a human typed,
/// whether it interrupts.
pub open spec fn watch_byte(w: Watch, b: u8, now: u64) -> (Watch, Option<bool>) {
    if w.pending.len() == 0 {
        if b == 0x1b {
            (Watch { pending: seq![b], since: Some(now) }, None)
        } else {
            (w, Some(b == 3))
        }
    } else {
        let p = w.pending.push(b);
        if is_report(p) {
            (no_report(), None)
        } else if may_become_report(p) {
            (Watch { pending: p, since: w.since }, None)
        } else {
            (no_report(), Some(b == 3))
        }
    }
}

/// What two stretches of input say of a human together.
pub open spec fn both(a: Option<bool>, b: Option<bool>) -> Option<bool> {
    match b {
        None => a,
        Some(x) => Some(a == Some(true) || x),
    }
}

pub open spec fn watch_bytes(w: Watch, bytes: Seq<u8>, now: u64) -> (Watch, Option<bool>)
    decreases bytes.len(),
{
    if bytes.len() == 0 {
        (w, None)
    } else {
        let (before, human) = watch_bytes(w, bytes.drop_last(), now);
        let (after, more) = watch_byte(before, bytes.last(), now);
        (after, both(human, more))
    }
}

/// A report that took too long was typed by a human; a lone escape interrupts.
pub open spec fn watch_expiry(w: Watch, now: u64) -> (Watch, Option<bool>) {
    if w.since matches Some(t) && elapsed(now, t) >= INPUT_ESCAPE_TIMEOUT {
        (no_report(), Some(w.pending == seq![0x1bu8]))
    } else {
        (w, None)
    }
}

/// What some input says of a human: nothing where it holds reports only.
pub open spec fn watched(w: Watch, bytes: Seq<u8>, now: u64) -> (Watch, Option<bool>) {
    let (fresh, expired) = watch_expiry(w, now);
    let (after, human) = watch_bytes(fresh, bytes, now);
    (after, both(expired, human))
}

/// A report under way began with an escape, began at some time, and is short.
pub open spec fn watch_inv(w: Watch) -> bool {
    &&& w.pending.len() < 64
    &&& w.pending.len() > 0 <==> w.since is Some
    &&& w.pending.len() > 0 ==> w.pending[0] == 0x1b
}

/// Tells the reports of a terminal from what a human types, without changing
/// the bytes. A read may end anywhere in a report.
pub struct InputEvents {
    pending: Vec<u8>,
    since: Option<u64>,
}

impl View for InputEvents {
    type V = Watch;

    closed spec fn view(&self) -> Watch {
        Watch { pending: self.pending@, since: self.since }
    }
}

fn param(b: u8) -> (r: bool)
    ensures
        r == is_param(b),
{
    (0x30 <= b && b <= 0x39) || b == 0x3b || b == 0x3f || b == 0x3e
}

fn params(p: &Vec<u8>, to: usize) -> (r: bool)
    requires
        to <= p@.len(),
    ensures
        r == forall|i: int| 2 <= i < to ==> is_param(#[trigger] p@[i]),
{
    let mut i: usize = 2;
    while i < to
        invariant
            2 <= i,
            to <= p@.len(),
            forall|j: int| 2 <= j < i ==> is_param(#[trigger] p@[j]),
        decreases to - i,
    {
        if !param(p[i]) {
            return false;
        }
        i += 1;
    }
    true
}

fn report(p: &Vec<u8>) -> (r: bool)
    ensures
        r == is_report(p@),
{
    let n: usize = p.len();
    if n < 3 || p[0] != 0x1b || p[1] != 0x5b {
        return false;
    }
    if n == 3 {
        let r = p[2] == 0x49 || p[2] == 0x4f;
        proof {
            if p@[2] == 0x49 {
                assert(p@ =~= seq![0x1bu8, 0x5bu8, 0x49u8]);
            }
            if p@[2] == 0x4f {
                assert(p@ =~= seq![0x1bu8, 0x5bu8, 0x4fu8]);
            }
        }
        return r;
    }
    (p[n - 1] == 0x52 || p[n - 1] == 0x63) && params(p, n - 1)
}

fn prefix(p: &Vec<u8>) -> (r: bool)
    ensures
        r == may_become_report(p@),
{
    let n: usize = p.len();
    if n < 2 || p[0] != 0x1b || p[1] != 0x5b {
        return false;
    }
    if n == 2 {
        assert(p@ =~= seq![0x1bu8, 0x5bu8]);
        return true;
    }
    n < 64 && params(p, n)
}

impl InputEvents {
    pub open spec fn wf(&self) -> bool {
        watch_inv(self@)
    }

    pub fn new() -> (r: Self)
        ensures
            r.wf(),
            r@ == no_report(),
    {
        let r = InputEvents { pending: Vec::new(), since: None };
        assert(r@.pending =~= Seq::<u8>::empty());
        r
    }

    /// Whether bytes are held that may still become a report.
    pub fn is_pending(&self) -> (r: bool)
        ensures
            r == (self@.pending.len() > 0),
    {
        self.pending.len() > 0
    }

    /// Takes some input. Nothing comes back where it holds reports only; otherwise
    /// whether a human interrupts.
    pub fn observe(&mut self, bytes: &[u8], now: u64) -> (r: Option<bool>)
        requires
            old(self).wf(),
        ensures
            final(self).wf(),
            (final(self)@, r) == watched(old(self)@, bytes@, now),
    {
        let mut human: Option<bool> = None;
        let ghost (fresh, expired) = watch_expiry(self@, now);
        let late = match self.since {
            Some(t) => now >= t && now - t >= INPUT_ESCAPE_TIMEOUT,
            None => false,
        };
        if late {
            let lone = self.pending.len() == 1 && self.pending[0] == 0x1b;
            proof {
                if lone {
                    assert(self.pending@ =~= seq![0x1bu8]);
                }
            }
            human = Some(lone);
            self.pending = Vec::new();
            self.since = None;
            assert(self@.pending =~= Seq::<u8>::empty());
        }
        assert(self@ == fresh && human == expired);
        let mut i: usize = 0;
        assert(bytes@.take(0) =~= Seq::<u8>::empty());
        while i < bytes.len()
            invariant
                i <= bytes@.len(),
                watch_inv(self@),
                self@ == watch_bytes(fresh, bytes@.take(i as int), now).0,
                human == both(expired, watch_bytes(fresh, bytes@.take(i as int), now).1),
            decreases bytes@.len() - i,
        {
            let b: u8 = bytes[i];
            let ghost before = self@;
            let ghost step = watch_byte(before, b, now);
            proof {
                assert(bytes@.take(i + 1).drop_last() =~= bytes@.take(i as int));
                assert(bytes@.take(i + 1).last() == b);
            }
            let interrupts = b == 3;
            let already = match human {
                Some(x) => x,
                None => false,
            };
            if self.pending.len() == 0 {
                if b == 0x1b {
                    self.pending.push(b);
                    self.since = Some(now);
                    assert(self@.pending =~= seq![b]);
                } else {
                    human = Some(already || interrupts);
                        }
            } else {
                self.pending.push(b);
                let done = report(&self.pending);
                let held = prefix(&self.pending);
                if done || !held {
                    if !done {
                        human = Some(already || interrupts);
                    }
                    self.pending = Vec::new();
                    self.since = None;
                    assert(self@.pending =~= Seq::<u8>::empty());
                }
            }
            assert(self@ == step.0);
            i += 1;
        }
        assert(bytes@.take(i as int) =~= bytes@);
        human
    }
}

proof fn lemma_watch_joins(w: Watch, a: Seq<u8>, b: Seq<u8>, now: u64)
    ensures
        ({
            let (middle, first) = watch_bytes(w, a, now);
            let (end, second) = watch_bytes(middle, b, now);
            watch_bytes(w, a + b, now) == (end, both(first, second))
        }),
    decreases b.len(),
{
    if b.len() == 0 {
        assert(a + b =~= a);
    } else {
        lemma_watch_joins(w, a, b.drop_last(), now);
        assert((a + b).drop_last() =~= a + b.drop_last());
        assert((a + b).last() == b.last());
    }
}

proof fn lemma_began_now(w: Watch, bytes: Seq<u8>, now: u64)
    requires
        watch_inv(w),
        watch_expiry(w, now).0 == w,
    ensures
        ({
            let end = watch_bytes(w, bytes, now).0;
            watch_inv(end) && watch_expiry(end, now) == (end, None::<bool>)
        }),
    decreases bytes.len(),
{
    if bytes.len() > 0 {
        lemma_began_now(w, bytes.drop_last(), now);
    } else {
        lemma_no_report_is_not_late(w, now);
    }
}

proof fn lemma_no_report_is_not_late(w: Watch, now: u64)
    requires
        watch_inv(w),
        watch_expiry(w, now).0 == w,
    ensures
        watch_expiry(w, now) == (w, None::<bool>),
{
    if w.since is Some && elapsed(now, w.since->0) >= INPUT_ESCAPE_TIMEOUT {
        assert(w.since is None);
    }
}

/// Input that comes in two reads at one time says what it says in one.
pub proof fn input_does_not_depend_on_read_boundaries(w: Watch, a: Seq<u8>, b: Seq<u8>, now: u64)
    requires
        watch_inv(w),
    ensures
        ({
            let (middle, first) = watched(w, a, now);
            let (end, second) = watched(middle, b, now);
            &&& watched(w, a + b, now).0 == end
            &&& watched(w, a + b, now).1 == both(first, second)
        }),
{
    let (fresh, expired) = watch_expiry(w, now);
    let (middle, first) = watch_bytes(fresh, a, now);
    assert(watch_inv(fresh));
    assert(watch_expiry(fresh, now).0 == fresh);
    lemma_began_now(fresh, a, now);
    lemma_watch_joins(fresh, a, b, now);
}

// ---------------------------------------------------------------------------
// The terminal
// ---------------------------------------------------------------------------

pub struct TerminalView {
    /// A consumer is connected.
    pub peer: bool,
    /// The payload's side is open.
    pub master: bool,
    /// Some consumer has been connected.
    pub connected: bool,
    pub dimensions: Option<(u16, u16)>,
    pub detached: bool,
    pub eof: bool,
    pub interrupted: bool,
    pub complete: bool,
    /// The acceptance of the consumer, as far as it is not sent.
    pub hello: Seq<u8>,
    pub to_peer: Seq<u8>,
    pub to_pty: Seq<u8>,
    pub revision: u64,
    pub input_revision: u64,
    pub input_interrupted: bool,
    pub watch: Watch,
    pub last_output: u64,
    /// What the screen behind the payload's output went through.
    pub screen: Seq<(int, int, Seq<u8>)>,
}

pub struct Terminal {
    peer: bool,
    master: bool,
    connected: bool,
    dimensions: Option<(u16, u16)>,
    detached: bool,
    eof: bool,
    interrupted: bool,
    complete: bool,
    hello: Vec<u8>,
    to_peer: Vec<u8>,
    to_pty: Vec<u8>,
    display: Screen,
    revision: u64,
    input_revision: u64,
    input_interrupted: bool,
    input_events: InputEvents,
    last_output: u64,
}

impl View for Terminal {
    type V = TerminalView;

    closed spec fn view(&self) -> TerminalView {
        TerminalView {
            peer: self.peer,
            master: self.master,
            connected: self.connected,
            dimensions: self.dimensions,
            detached: self.detached,
            eof: self.eof,
            interrupted: self.interrupted,
            complete: self.complete,
            hello: self.hello@,
            to_peer: self.to_peer@,
            to_pty: self.to_pty@,
            revision: self.revision,
            input_revision: self.input_revision,
            input_interrupted: self.input_interrupted,
            watch: self.input_events@,
            last_output: self.last_output,
            screen: self.display@,
        }
    }
}

/// What came of reading from the consumer.
pub enum PeerRead {
    /// The consumer hung up, or reading failed.
    Closed,
    /// There was nothing to read, or no room.
    Nothing,
    /// Bytes; none at the end of the stream.
    Bytes(Vec<u8>),
}

/// What came of reading from the payload.
pub enum PayloadRead {
    /// There was nothing to read, or no room.
    Blocked,
    /// Bytes; none at the end of the stream.
    Bytes(Vec<u8>),
    /// The payload has closed its side.
    Hangup,
    Failed,
}

/// What came of writing.
pub enum Wrote {
    Blocked,
    Bytes(usize),
    Failed,
}

pub open spec fn end_of<T>(s: Seq<T>, most: int) -> Seq<T> {
    if s.len() > most {
        s.skip(s.len() - most)
    } else {
        s
    }
}

/// What is kept within bounds.
pub open spec fn term_inv(t: TerminalView) -> bool {
    &&& t.to_peer.len() <= CAP
    &&& t.to_pty.len() <= CAP
    &&& t.dimensions matches Some((rows, cols)) ==> rows > 0 && cols > 0
    &&& watch_inv(t.watch)
}

/// Room for the counters of another round.
pub open spec fn countable(t: TerminalView) -> bool {
    t.revision <= u64::MAX - 4 && t.input_revision <= u64::MAX - 4
}

/// The payload's output is drained without a consumer: while detached, and
/// after a consumer was lost.
pub open spec fn drains(t: TerminalView) -> bool {
    t.detached || (t.connected && !t.peer)
}

/// Notes what input says of a human.
pub open spec fn noticed(t: TerminalView, watch: Watch, human: Option<bool>) -> TerminalView {
    match human {
        Some(interrupted) => TerminalView {
            watch,
            input_revision: (t.input_revision + 1) as u64,
            input_interrupted: interrupted,
            ..t
        },
        None => TerminalView { watch, ..t },
    }
}

pub open spec fn after_expiry(t: TerminalView, now: u64) -> TerminalView {
    let (watch, human) = watched(t.watch, Seq::empty(), now);
    let seen = noticed(t, watch, human);
    if human is Some {
        TerminalView { revision: (t.revision + 1) as u64, ..seen }
    } else {
        seen
    }
}

/// A consumer that is gone takes its unsent acceptance and its input with it.
/// Unless it had been sent away, or had got everything, that is an interruption.
pub open spec fn without_peer(t: TerminalView) -> TerminalView {
    TerminalView {
        peer: false,
        hello: Seq::empty(),
        to_pty: Seq::empty(),
        interrupted: t.interrupted || (!t.complete && !t.detached),
        ..t
    }
}

pub open spec fn with_input(t: TerminalView, bytes: Seq<u8>, now: u64) -> TerminalView {
    let (watch, human) = watched(t.watch, bytes, now);
    TerminalView {
        revision: (t.revision + 1) as u64,
        to_pty: if t.detached {
            Seq::empty()
        } else {
            t.to_pty + bytes
        },
        ..noticed(t, watch, human)
    }
}

pub open spec fn after_peer_read(t: TerminalView, read: PeerRead, now: u64) -> TerminalView {
    if !t.peer {
        t
    } else {
        match read {
            PeerRead::Closed => without_peer(t),
            PeerRead::Nothing => if t.detached {
                TerminalView { to_pty: Seq::empty(), ..t }
            } else {
                t
            },
            PeerRead::Bytes(v) => if v@.len() == 0 {
                without_peer(t)
            } else {
                with_input(t, v@, now)
            },
        }
    }
}

pub open spec fn with_output(t: TerminalView, bytes: Seq<u8>, now: u64) -> TerminalView {
    TerminalView {
        revision: (t.revision + 1) as u64,
        last_output: now,
        to_peer: end_of(t.to_peer + bytes, CAP as int),
        screen: drawn(t.screen, bytes),
        ..t
    }
}

pub open spec fn after_payload_read(t: TerminalView, read: PayloadRead, now: u64) -> TerminalView {
    if !t.master || t.eof {
        t
    } else {
        match read {
            PayloadRead::Blocked => t,
            PayloadRead::Bytes(v) => if v@.len() == 0 {
                TerminalView { eof: true, ..t }
            } else {
                with_output(t, v@, now)
            },
            PayloadRead::Hangup => TerminalView { eof: true, ..t },
            PayloadRead::Failed => TerminalView { eof: true, interrupted: true, ..t },
        }
    }
}

/// Bytes that were sent are no longer waiting.
pub open spec fn less(s: Seq<u8>, w: Wrote) -> Seq<u8> {
    match w {
        Wrote::Bytes(n) => s.skip(n as int),
        _ => s,
    }
}

/// A write of nothing is a failure.
pub open spec fn is_failure(w: Wrote) -> bool {
    w matches Wrote::Failed || w matches Wrote::Bytes(0)
}

pub open spec fn after_pty_write(t: TerminalView, w: Wrote) -> TerminalView {
    TerminalView {
        to_pty: if is_failure(w) {
            Seq::empty()
        } else {
            less(t.to_pty, w)
        },
        ..t
    }
}

/// Delivery failed: the consumer is gone.
pub open spec fn broken(t: TerminalView) -> TerminalView {
    TerminalView {
        interrupted: true,
        peer: false,
        hello: Seq::empty(),
        to_pty: Seq::empty(),
        ..t
    }
}

/// The next bytes for the consumer: its acceptance first, and output only
/// behind the whole of it.
pub open spec fn to_deliver(t: TerminalView) -> Seq<u8> {
    if !t.peer || t.detached {
        Seq::empty()
    } else if t.hello.len() > 0 {
        t.hello
    } else {
        t.to_peer
    }
}

pub open spec fn after_delivery(t: TerminalView, w: Wrote) -> TerminalView {
    if is_failure(w) {
        broken(t)
    } else if t.hello.len() > 0 {
        TerminalView { hello: less(t.hello, w), ..t }
    } else {
        TerminalView { to_peer: less(t.to_peer, w), ..t }
    }
}

/// Everything has been delivered that there will be.
pub open spec fn is_done(t: TerminalView) -> bool {
    t.peer && !t.detached && t.eof && t.hello.len() == 0 && t.to_peer.len() == 0 && !t.complete
}

/// What is typed to tell an agent of its inbox: a paste, and a return.
pub open spec fn notice() -> Seq<u8> {
    encode_utf8(
        "\x1b[200~"@ + "Check your Goblins inbox and process the next item."@ + "\x1b[201~\r"@,
    )
}

/// The terminal is ready for a notice: its screen has settled on an empty
/// composer, and no input is on its way.
pub open spec fn is_ready(t: TerminalView, now: u64) -> bool {
    &&& awaits_input(t.screen)
    &&& elapsed(now, t.last_output) >= SETTLED
    &&& t.to_pty.len() == 0
    &&& t.watch.pending.len() == 0
    &&& !t.eof
}

fn drop_front(v: &mut Vec<u8>, n: usize)
    requires
        n <= old(v)@.len(),
    ensures
        final(v)@ == old(v)@.skip(n as int),
{
    let rest = v.split_off(n);
    *v = rest;
}

/// A terminal that nothing has happened to.
pub open spec fn unattached(now: u64) -> TerminalView {
    TerminalView {
        peer: false,
        master: false,
        connected: false,
        dimensions: None,
        detached: false,
        eof: false,
        interrupted: false,
        complete: false,
        hello: Seq::empty(),
        to_peer: Seq::empty(),
        to_pty: Seq::empty(),
        revision: 0,
        input_revision: 0,
        input_interrupted: false,
        watch: no_report(),
        last_output: now,
        screen: seq![sized(24, 80)],
    }
}

/// What the terminal of an agent shows of its readiness for input.
pub open spec fn observed(t: Terminal, now: u64) -> Observation {
    Observation {
        revision: t@.revision,
        ready: is_ready(t@, now),
        input: t@.input_revision,
        interrupted: t@.input_interrupted,
        input_pending: t@.watch.pending.len() > 0,
    }
}

impl Terminal {
    pub closed spec fn screened(&self) -> bool {
        self.display.wf()
    }

    pub open spec fn wf(&self) -> bool {
        term_inv(self@) && self.screened()
    }

    pub fn new(now: u64) -> (r: Self)
        ensures
            r.wf(),
            r@ == unattached(now),
    {
        let r = Terminal {
            peer: false,
            master: false,
            connected: false,
            dimensions: None,
            detached: false,
            eof: false,
            interrupted: false,
            complete: false,
            hello: Vec::new(),
            to_peer: Vec::new(),
            to_pty: Vec::new(),
            display: Screen::new(24, 80),
            revision: 0,
            input_revision: 0,
            input_interrupted: false,
            input_events: InputEvents::new(),
            last_output: now,
        };
        assert(r@.hello =~= Seq::<u8>::empty());
        assert(r@.to_peer =~= Seq::<u8>::empty());
        assert(r@.to_pty =~= Seq::<u8>::empty());
        r
    }

    /// The payload's side is open. A size that was asked for before is to be set now.
    pub fn master(&mut self) -> (r: Option<(u16, u16)>)
        requires
            old(self).wf(),
            countable(old(self)@),
        ensures
            final(self).wf(),
            r == old(self)@.dimensions,
            final(self)@ == (TerminalView {
                master: true,
                revision: if old(self)@.dimensions is Some {
                    (old(self)@.revision + 1) as u64
                } else {
                    old(self)@.revision
                },
                screen: match old(self)@.dimensions {
                    Some((rows, cols)) => old(self)@.screen.push(kept_size(rows, cols)),
                    None => old(self)@.screen,
                },
                ..old(self)@
            }),
    {
        self.master = true;
        if let Some((rows, cols)) = self.dimensions {
            self.resize(rows, cols)
        } else {
            None
        }
    }

    /// Gives the terminal a size, which the payload's side, where it is open, is to get.
    pub fn resize(&mut self, rows: u16, cols: u16) -> (r: Option<(u16, u16)>)
        requires
            old(self).wf(),
            countable(old(self)@),
            rows > 0,
            cols > 0,
        ensures
            final(self).wf(),
            r == if old(self)@.master {
                Some((rows, cols))
            } else {
                None
            },
            final(self)@ == (TerminalView {
                dimensions: Some((rows, cols)),
                revision: (old(self)@.revision + 1) as u64,
                screen: old(self)@.screen.push(kept_size(rows, cols)),
                ..old(self)@
            }),
    {
        self.dimensions = Some((rows, cols));
        self.display.resize(bounded_size(rows, 200), bounded_size(cols, 500));
        self.revision = self.revision + 1;
        if self.master {
            Some((rows, cols))
        } else {
            None
        }
    }

    pub fn failed_start(&mut self)
        requires
            old(self).wf(),
        ensures
            final(self).wf(),
            final(self)@ == (TerminalView { eof: true, interrupted: true, ..old(self)@ }),
    {
        self.eof = true;
        self.interrupted = true;
    }

    pub fn attached(&self) -> (r: bool)
        ensures
            r == (self@.peer && !self@.detached),
    {
        self.peer && !self.detached
    }

    pub fn detached(&self) -> (r: bool)
        ensures
            r == self@.detached,
    {
        self.detached
    }

    pub fn eof(&self) -> (r: bool)
        ensures
            r == self@.eof,
    {
        self.eof
    }

    pub fn interrupted(&self) -> (r: bool)
        ensures
            r == self@.interrupted,
    {
        self.interrupted
    }

    pub fn complete(&self) -> (r: bool)
        ensures
            r == self@.complete,
    {
        self.complete
    }

    /// Starts without a consumer: output is drained until one comes.
    pub fn launch_detached(&mut self, detached: bool)
        requires
            old(self).wf(),
        ensures
            final(self).wf(),
            final(self)@ == (TerminalView { detached, ..old(self)@ }),
    {
        self.detached = detached;
    }

    /// Something went wrong with the terminal itself.
    pub fn interrupt(&mut self)
        requires
            old(self).wf(),
        ensures
            final(self).wf(),
            final(self)@ == (TerminalView { interrupted: true, ..old(self)@ }),
    {
        self.interrupted = true;
    }

    /// Whether nobody needs the terminal any more.
    pub fn can_evict(&self) -> (r: bool)
        ensures
            r == (self@.complete || self@.interrupted || (self@.detached && !self@.peer)),
    {
        self.complete || self.interrupted || (self.detached && !self.peer)
    }

    /// Sends the consumer away. The caller closes the stream towards it; until the
    /// consumer has closed the other half no other one is taken.
    pub fn detach(&mut self) -> (r: Result<(), String>)
        requires
            old(self).wf(),
        ensures
            final(self).wf(),
            if old(self)@.peer && !old(self)@.detached && !old(self)@.complete {
                r is Ok && final(self)@ == (TerminalView {
                    detached: true,
                    to_pty: Seq::empty(),
                    ..old(self)@
                })
            } else {
                final(self)@ == old(self)@ && (r matches Err(e) && e@ == "terminal is not attached"@)
            },
    {
        if !self.peer || self.detached || self.complete {
            return Err(String::from_str("terminal is not attached"));
        }
        self.detached = true;
        self.to_pty = Vec::new();
        assert(self@.to_pty =~= Seq::<u8>::empty());
        Ok(())
    }

    /// Takes a consumer, whose acceptance goes before all output.
    pub fn attach(&mut self, hello: Vec<u8>) -> (r: Result<(), String>)
        requires
            old(self).wf(),
        ensures
            final(self).wf(),
            if old(self)@.complete {
                final(self)@ == old(self)@ && (r matches Err(e) && e@
                    == "terminal already completed"@)
            } else if old(self)@.peer {
                final(self)@ == old(self)@ && (r matches Err(e) && e@
                    == "terminal is already attached"@)
            } else {
                r is Ok && final(self)@ == (TerminalView {
                    peer: true,
                    connected: true,
                    detached: false,
                    interrupted: false,
                    hello: hello@,
                    ..old(self)@
                })
            },
    {
        if self.complete {
            return Err(String::from_str("terminal already completed"));
        }
        if self.peer {
            return Err(String::from_str("terminal is already attached"));
        }
        self.hello = hello;
        self.peer = true;
        self.connected = true;
        self.detached = false;
        self.interrupted = false;
        Ok(())
    }

    /// What the terminal shows of an agent's readiness for input.
    pub fn integration_view(&self, now: u64) -> (r: Observation)
        ensures
            r == observed(*self, now),
    {
        let rested = now >= self.last_output && now - self.last_output >= SETTLED;
        let held = self.input_events.is_pending();
        let ready = self.display.awaits() && rested && self.to_pty.len() == 0 && !held && !self.eof;
        Observation {
            revision: self.revision,
            ready,
            input: self.input_revision,
            interrupted: self.input_interrupted,
            input_pending: held,
        }
    }

    /// The bytes that tell the agent of its inbox, as long as the terminal is as it
    /// was seen and nobody is typing.
    pub fn notify(&self, revision: u64, typing: bool, now: u64) -> (r: Result<Vec<u8>, String>)
        ensures
            if revision != self@.revision || typing || !is_ready(self@, now) {
                r matches Err(e) && e@ == "terminal changed; notification deferred"@
            } else if !self@.master {
                r matches Err(e) && e@ == "terminal unavailable"@
            } else {
                r matches Ok(bytes) && bytes@ == notice()
            },
    {
        if revision != self.revision || typing || !self.integration_view(now).ready {
            return Err(String::from_str("terminal changed; notification deferred"));
        }
        if !self.master {
            return Err(String::from_str("terminal unavailable"));
        }
        let mut text = String::from_str("\x1b[200~");
        text.push_str("Check your Goblins inbox and process the next item.");
        text.push_str("\x1b[201~\r");
        let mut bytes: Vec<u8> = Vec::new();
        bytes.extend_from_slice(text.as_str().as_bytes());
        assert(bytes@ =~= notice());
        Ok(bytes)
    }

    /// The notice was written.
    pub fn notified(&mut self)
        requires
            old(self).wf(),
            countable(old(self)@),
        ensures
            final(self).wf(),
            final(self)@ == (TerminalView {
                revision: (old(self)@.revision + 1) as u64,
                ..old(self)@
            }),
    {
        self.revision = self.revision + 1;
    }

    /// Time passes: a report that took too long counts as typed.
    pub fn expire(&mut self, now: u64)
        requires
            old(self).wf(),
            countable(old(self)@),
        ensures
            final(self).wf(),
            final(self)@ == after_expiry(old(self)@, now),
    {
        let nothing: Vec<u8> = Vec::new();
        assert(nothing@ =~= Seq::<u8>::empty());
        if let Some(interrupted) = self.input_events.observe(nothing.as_slice(), now) {
            self.input_revision = self.input_revision + 1;
            self.input_interrupted = interrupted;
            self.revision = self.revision + 1;
        }
    }

    /// How many bytes may be read from the consumer.
    pub fn input_room(&self) -> (r: usize)
        requires
            self.wf(),
        ensures
            r == if !self@.peer {
                0
            } else {
                let free = CAP - if self@.detached {
                    0
                } else {
                    self@.to_pty.len() as int
                };
                if free < CHUNK {
                    free
                } else {
                    CHUNK as int
                }
            },
    {
        if !self.peer {
            return 0;
        }
        let free: usize = if self.detached {
            CAP
        } else {
            CAP - self.to_pty.len()
        };
        if free < CHUNK {
            free
        } else {
            CHUNK
        }
    }

    /// Takes what came of reading from the consumer.
    pub fn peer_read(&mut self, read: PeerRead, now: u64)
        requires
            old(self).wf(),
            countable(old(self)@),
            read matches PeerRead::Bytes(v) ==> v@.len() <= CAP - if old(self)@.detached {
                0
            } else {
                old(self)@.to_pty.len() as int
            },
        ensures
            final(self).wf(),
            final(self)@ == after_peer_read(old(self)@, read, now),
    {
        if !self.peer {
            return;
        }
        let mut closed: bool = false;
        match read {
            PeerRead::Closed => {
                closed = true;
            },
            PeerRead::Nothing => {
                if self.detached {
                    self.to_pty = Vec::new();
                    assert(self@.to_pty =~= Seq::<u8>::empty());
                }
            },
            PeerRead::Bytes(v) => {
                if v.len() == 0 {
                    closed = true;
                } else {
                    self.revision = self.revision + 1;
                    if let Some(interrupted) = self.input_events.observe(v.as_slice(), now) {
                        self.input_revision = self.input_revision + 1;
                        self.input_interrupted = interrupted;
                    }
                    if self.detached {
                        self.to_pty = Vec::new();
                        assert(self@.to_pty =~= Seq::<u8>::empty());
                    } else {
                        self.to_pty.extend_from_slice(v.as_slice());
                        assert(self@.to_pty =~= old(self)@.to_pty + v@);
                    }
                }
            },
        }
        if closed {
            self.peer = false;
            self.hello = Vec::new();
            self.to_pty = Vec::new();
            if !self.complete && !self.detached {
                self.interrupted = true;
            }
            assert(self@.hello =~= Seq::<u8>::empty());
            assert(self@.to_pty =~= Seq::<u8>::empty());
        }
    }

    /// How many bytes may be read from the payload: without a consumer to wait for
    /// as many as come, otherwise only what can be kept for it.
    pub fn output_room(&self) -> (r: usize)
        requires
            self.wf(),
        ensures
            r == if !self@.master || self@.eof {
                0
            } else if drains(self@) {
                CHUNK as int
            } else if CAP - self@.to_peer.len() < CHUNK {
                CAP - self@.to_peer.len()
            } else {
                CHUNK as int
            },
    {
        if !self.master || self.eof {
            return 0;
        }
        if self.detached || (self.connected && !self.peer) {
            return CHUNK;
        }
        let free: usize = CAP - self.to_peer.len();
        if free < CHUNK {
            free
        } else {
            CHUNK
        }
    }

    /// Takes what came of reading from the payload.
    pub fn payload_read(&mut self, read: PayloadRead, now: u64)
        requires
            old(self).wf(),
            countable(old(self)@),
            read matches PayloadRead::Bytes(v) ==> v@.len() <= CHUNK,
        ensures
            final(self).wf(),
            final(self)@ == after_payload_read(old(self)@, read, now),
    {
        if !self.master || self.eof {
            return;
        }
        match read {
            PayloadRead::Blocked => {},
            PayloadRead::Bytes(v) => {
                if v.len() == 0 {
                    self.eof = true;
                } else {
                    self.display.draw(v.as_slice());
                    self.revision = self.revision + 1;
                    self.last_output = now;
                    let total: usize = self.to_peer.len() + v.len();
                    let ghost all = self.to_peer@ + v@;
                    if total > CAP {
                        drop_front(&mut self.to_peer, total - CAP);
                    }
                    self.to_peer.extend_from_slice(v.as_slice());
                    assert(self@.to_peer =~= end_of(all, CAP as int));
                }
            },
            PayloadRead::Hangup => {
                self.eof = true;
            },
            PayloadRead::Failed => {
                self.eof = true;
                self.interrupted = true;
            },
        }
    }

    /// The input that waits for the payload.
    pub fn pty_pending(&self) -> (r: &[u8])
        ensures
            r@ == if self@.master && !self@.eof {
                self@.to_pty
            } else {
                Seq::empty()
            },
    {
        if self.master && !self.eof {
            self.to_pty.as_slice()
        } else {
            no_bytes()
        }
    }

    /// Takes what came of writing that input.
    pub fn pty_wrote(&mut self, w: Wrote)
        requires
            old(self).wf(),
            w matches Wrote::Bytes(n) ==> n <= old(self)@.to_pty.len(),
        ensures
            final(self).wf(),
            final(self)@ == after_pty_write(old(self)@, w),
    {
        match w {
            Wrote::Blocked => {},
            Wrote::Failed => {
                self.to_pty = Vec::new();
            },
            Wrote::Bytes(n) => {
                if n == 0 {
                    self.to_pty = Vec::new();
                } else {
                    drop_front(&mut self.to_pty, n);
                }
            },
        }
        assert(self@.to_pty =~= after_pty_write(old(self)@, w).to_pty);
    }

    /// The next bytes for the consumer.
    pub fn peer_pending(&self) -> (r: &[u8])
        ensures
            r@ == to_deliver(self@),
    {
        if !self.peer || self.detached {
            no_bytes()
        } else if self.hello.len() > 0 {
            self.hello.as_slice()
        } else {
            self.to_peer.as_slice()
        }
    }

    /// Takes what came of writing them.
    pub fn peer_wrote(&mut self, w: Wrote)
        requires
            old(self).wf(),
            w matches Wrote::Bytes(n) ==> n <= to_deliver(old(self)@).len(),
            to_deliver(old(self)@).len() > 0,
        ensures
            final(self).wf(),
            final(self)@ == after_delivery(old(self)@, w),
    {
        let failed = match w {
            Wrote::Blocked => false,
            Wrote::Failed => true,
            Wrote::Bytes(n) => n == 0,
        };
        if failed {
            self.interrupted = true;
            self.peer = false;
            self.hello = Vec::new();
            self.to_pty = Vec::new();
            assert(self@.hello =~= Seq::<u8>::empty());
            assert(self@.to_pty =~= Seq::<u8>::empty());
        } else if let Wrote::Bytes(n) = w {
            if self.hello.len() > 0 {
                drop_front(&mut self.hello, n);
            } else {
                drop_front(&mut self.to_peer, n);
            }
        }
    }

    /// Ends a round. Where everything has been delivered that there will be, the
    /// caller closes the stream towards the consumer.
    pub fn settle(&mut self) -> (close: bool)
        requires
            old(self).wf(),
        ensures
            final(self).wf(),
            close == is_done(old(self)@),
            final(self)@ == (TerminalView {
                complete: old(self)@.complete || close,
                master: old(self)@.master && !old(self)@.eof,
                ..old(self)@
            }),
    {
        let close = self.peer && !self.detached && self.eof && self.hello.len() == 0
            && self.to_peer.len() == 0 && !self.complete;
        if close {
            self.complete = true;
        }
        if self.eof {
            self.master = false;
        }
        close
    }
}
/// The size that is kept of one that a terminal is given: not too large.
pub open spec fn kept_size(rows: u16, cols: u16) -> (int, int, Seq<u8>) {
    sized(bounded(rows, 200), bounded(cols, 500))
}

pub open spec fn bounded(n: u16, most: u16) -> u16 {
    if n < most {
        n
    } else {
        most
    }
}

fn bounded_size(n: u16, most: u16) -> (r: u16)
    ensures
        r == bounded(n, most),
{
    if n < most {
        n
    } else {
        most
    }
}

fn no_bytes() -> (r: &'static [u8])
    ensures
        r@ == Seq::<u8>::empty(),
{
    let r: &'static [u8] = &[];
    assert(r@ =~= Seq::<u8>::empty());
    r
}

/// While a consumer is connected, and before the first one is, nothing of the
/// payload's output is lost: no more is read than can be kept.
pub proof fn output_for_a_consumer_is_kept(t: TerminalView, bytes: Seq<u8>, now: u64)
    requires
        !drains(t),
        bytes.len() <= CAP - t.to_peer.len(),
    ensures
        with_output(t, bytes, now).to_peer == t.to_peer + bytes,
{
}

/// Without a consumer the newest output is kept, up to the bound.
pub proof fn the_newest_output_is_kept(t: TerminalView, bytes: Seq<u8>, now: u64)
    requires
        bytes.len() <= CHUNK,
    ensures
        bytes.is_suffix_of(with_output(t, bytes, now).to_peer),
        with_output(t, bytes, now).to_peer.len() <= CAP,
{
    let kept = with_output(t, bytes, now).to_peer;
    assert(kept.skip(kept.len() - bytes.len()) =~= bytes);
}

/// A consumer that leaves before it got its acceptance leaves no trace of it in
/// what a later one gets: the output that waits is the payload's alone.
pub proof fn an_abandoned_acceptance_is_never_output(t: TerminalView)
    ensures
        without_peer(t).hello.len() == 0,
        without_peer(t).to_peer == t.to_peer,
        broken(t).hello.len() == 0,
        broken(t).to_peer == t.to_peer,
{
}

/// A consumer that was sent away types nothing into the payload.
pub proof fn a_detached_consumer_types_nothing(t: TerminalView, read: PeerRead, now: u64)
    requires
        t.detached,
        t.peer,
    ensures
        after_peer_read(t, read, now).to_pty.len() == 0,
        after_peer_read(t, read, now).interrupted == t.interrupted,
{
}

// ---------------------------------------------------------------------------
// What is passed on
// ---------------------------------------------------------------------------

/// What waits for a consumer is its acceptance and then the output of the payload; as long as
/// it is there some of that is offered to it, and else nothing.
pub proof fn a_consumer_is_offered_what_waits(t: TerminalView)
    ensures
        t.peer && !t.detached ==> {
            &&& to_deliver(t).is_prefix_of(t.hello + t.to_peer)
            &&& t.hello.len() > 0 ==> to_deliver(t) == t.hello
            &&& t.hello.len() == 0 ==> to_deliver(t) == t.to_peer
        },
        !(t.peer && !t.detached) ==> to_deliver(t).len() == 0,
{
    if t.peer && !t.detached {
        let all = t.hello + t.to_peer;
        if t.hello.len() == 0 {
            assert(all =~= t.to_peer);
        }
        assert(all.take(to_deliver(t).len() as int) =~= to_deliver(t));
    }
}

/// Delivery loses nothing: what was written, and what waits behind it, is what waited. Only a
/// write that fails loses the consumer, and then its acceptance and its input, but none of the
/// output.
pub proof fn delivery_loses_nothing(t: TerminalView, w: Wrote)
    requires
        to_deliver(t).len() > 0,
        w matches Wrote::Bytes(n) ==> n <= to_deliver(t).len(),
    ensures
        ({
            let u = after_delivery(t, w);
            match w {
                Wrote::Blocked => u == t,
                Wrote::Bytes(n) => if n > 0 {
                    &&& to_deliver(t).take(n as int) + u.hello + u.to_peer == t.hello + t.to_peer
                    &&& u == (TerminalView { hello: u.hello, to_peer: u.to_peer, ..t })
                } else {
                    u == (TerminalView {
                        peer: false,
                        interrupted: true,
                        hello: Seq::empty(),
                        to_pty: Seq::empty(),
                        ..t
                    })
                },
                Wrote::Failed => u == (TerminalView {
                    peer: false,
                    interrupted: true,
                    hello: Seq::empty(),
                    to_pty: Seq::empty(),
                    ..t
                }),
            }
        }),
{
    if let Wrote::Bytes(n) = w {
        if n > 0 {
            let u = after_delivery(t, w);
            assert(to_deliver(t).take(n as int) + u.hello + u.to_peer =~= t.hello + t.to_peer);
        }
    }
}

/// What a consumer got over a run of writes, and the terminal afterwards.
pub open spec fn delivered(t: TerminalView, sizes: Seq<usize>) -> (Seq<u8>, TerminalView)
    decreases sizes.len(),
{
    if sizes.len() == 0 {
        (Seq::empty(), t)
    } else {
        let (got, u) = delivered(t, sizes.drop_last());
        (
            got + to_deliver(u).take(sizes.last() as int),
            after_delivery(u, Wrote::Bytes(sizes.last())),
        )
    }
}

/// A run of writes of which each takes some of what was offered.
pub open spec fn takes_some(t: TerminalView, sizes: Seq<usize>) -> bool
    decreases sizes.len(),
{
    sizes.len() == 0 || {
        &&& takes_some(t, sizes.drop_last())
        &&& 0 < sizes.last() <= to_deliver(delivered(t, sizes.drop_last()).1).len()
    }
}

/// Over any run of writes a consumer gets its acceptance and the output in order, and what it
/// did not get yet still waits.
pub proof fn a_consumer_gets_everything_in_order(t: TerminalView, sizes: Seq<usize>)
    requires
        takes_some(t, sizes),
    ensures
        ({
            let (got, u) = delivered(t, sizes);
            &&& got + u.hello + u.to_peer == t.hello + t.to_peer
            &&& got.is_prefix_of(t.hello + t.to_peer)
            &&& u == (TerminalView { hello: u.hello, to_peer: u.to_peer, ..t })
        }),
    decreases sizes.len(),
{
    let (got, u) = delivered(t, sizes);
    if sizes.len() > 0 {
        let (before, v) = delivered(t, sizes.drop_last());
        a_consumer_gets_everything_in_order(t, sizes.drop_last());
        delivery_loses_nothing(v, Wrote::Bytes(sizes.last()));
        let some = to_deliver(v).take(sizes.last() as int);
        assert(got + u.hello + u.to_peer =~= before + (some + u.hello + u.to_peer));
        assert(before + (v.hello + v.to_peer) =~= before + v.hello + v.to_peer);
    } else {
        assert(got + u.hello + u.to_peer =~= t.hello + t.to_peer);
    }
    let all = t.hello + t.to_peer;
    assert(got + u.hello + u.to_peer =~= got + (u.hello + u.to_peer));
    assert(all.take(got.len() as int) =~= got);
}

/// What a consumer types goes to the payload, behind what it typed before; what one types that
/// was sent away goes nowhere. One that leaves takes what it typed with it.
pub proof fn what_is_typed_reaches_the_payload(t: TerminalView, read: PeerRead, now: u64)
    ensures
        ({
            let u = after_peer_read(t, read, now);
            &&& u.to_peer == t.to_peer && u.eof == t.eof && u.master == t.master && u.complete
                == t.complete && u.detached == t.detached && u.screen == t.screen
            &&& !t.peer ==> u == t
            &&& t.peer ==> match read {
                PeerRead::Nothing => u.peer && u.hello == t.hello && u.interrupted == t.interrupted
                    && (!t.detached ==> u.to_pty == t.to_pty),
                PeerRead::Closed => !u.peer && u.hello.len() == 0 && u.to_pty.len() == 0
                    && u.interrupted == (t.interrupted || (!t.complete && !t.detached)),
                PeerRead::Bytes(v) => if v@.len() == 0 {
                    !u.peer && u.hello.len() == 0 && u.to_pty.len() == 0 && u.interrupted == (
                    t.interrupted || (!t.complete && !t.detached))
                } else {
                    &&& u.peer && u.hello == t.hello && u.interrupted == t.interrupted
                    &&& u.revision != t.revision || t.revision == u64::MAX
                    &&& !t.detached ==> u.to_pty == t.to_pty + v@
                    &&& t.detached ==> u.to_pty.len() == 0
                },
            }
        }),
{
}

/// What was written to the payload, and what waits behind it, is what waited for it; where
/// writing fails nothing waits any more.
pub proof fn input_is_passed_on_in_order(t: TerminalView, w: Wrote)
    requires
        w matches Wrote::Bytes(n) ==> n <= t.to_pty.len(),
    ensures
        ({
            let u = after_pty_write(t, w);
            &&& u == (TerminalView { to_pty: u.to_pty, ..t })
            &&& match w {
                Wrote::Blocked => u.to_pty == t.to_pty,
                Wrote::Failed => u.to_pty.len() == 0,
                Wrote::Bytes(n) => if n > 0 {
                    t.to_pty.take(n as int) + u.to_pty == t.to_pty
                } else {
                    u.to_pty.len() == 0
                },
            }
        }),
{
    if let Wrote::Bytes(n) = w {
        assert(t.to_pty.take(n as int) + t.to_pty.skip(n as int) =~= t.to_pty);
    }
}

/// What the payload writes waits for the consumer behind what it wrote before, without a gap:
/// all of it as far as there is room, and else the newest. It is drawn, and the terminal has
/// changed. After its end nothing is taken.
pub proof fn what_a_payload_writes_waits(t: TerminalView, read: PayloadRead, now: u64)
    ensures
        ({
            let u = after_payload_read(t, read, now);
            &&& u.hello == t.hello && u.to_pty == t.to_pty && u.peer == t.peer && u.master
                == t.master && u.complete == t.complete && u.detached == t.detached
            &&& !t.master || t.eof ==> u == t
            &&& t.master && !t.eof ==> match read {
                PayloadRead::Blocked => u == t,
                PayloadRead::Hangup => u == (TerminalView { eof: true, ..t }),
                PayloadRead::Failed => u == (TerminalView { eof: true, interrupted: true, ..t }),
                PayloadRead::Bytes(v) => if v@.len() == 0 {
                    u == (TerminalView { eof: true, ..t })
                } else {
                    &&& u.to_peer.is_suffix_of(t.to_peer + v@)
                    &&& t.to_peer.len() + v@.len() <= CAP ==> u.to_peer == t.to_peer + v@
                    &&& t.to_peer.len() + v@.len() > CAP ==> u.to_peer.len() == CAP
                    &&& u.screen == drawn(t.screen, v@)
                    &&& u.last_output == now
                    &&& !u.eof && u.interrupted == t.interrupted
                    &&& u.revision == (t.revision + 1) as u64
                },
            }
        }),
{
    if let PayloadRead::Bytes(v) = read {
        if t.master && !t.eof && v@.len() > 0 {
            let u = after_payload_read(t, read, now);
            let all = t.to_peer + v@;
            assert(all.skip(all.len() - u.to_peer.len()) =~= u.to_peer);
        }
    }
}

/// A stream towards a consumer is ended once the payload has ended and the consumer has got
/// its acceptance and all output.
pub proof fn a_stream_ends_with_the_output(t: TerminalView)
    ensures
        is_done(t) <==> (t.peer && !t.detached && !t.complete && t.eof && t.hello + t.to_peer
            == Seq::<u8>::empty()),
{
    if t.hello + t.to_peer == Seq::<u8>::empty() {
        assert((t.hello + t.to_peer).len() == 0);
    }
    if is_done(t) {
        assert(t.hello + t.to_peer =~= Seq::<u8>::empty());
    }
}

/// A notice is typed into a composer that waits for input, that has rested, into which nothing
/// is being typed, and whose payload runs.
pub proof fn a_notice_waits_for_rest(t: TerminalView, now: u64)
    ensures
        is_ready(t, now) <==> (awaits_input(t.screen) && now - t.last_output >= 300_000_000
            && t.to_pty.len() == 0 && t.watch.pending.len() == 0 && !t.eof),
{
}

/// Input without an escape, where no report is under way, was typed by a human, who interrupts
/// where one of the bytes does.
pub proof fn plain_input_is_typed(bytes: Seq<u8>, now: u64)
    requires
        bytes.len() > 0,
        !bytes.contains(0x1b),
    ensures
        watched(no_report(), bytes, now) == (no_report(), Some(bytes.contains(3))),
{
    lemma_plain_input(bytes, now);
}

proof fn lemma_plain_input(bytes: Seq<u8>, now: u64)
    requires
        !bytes.contains(0x1b),
    ensures
        watch_bytes(no_report(), bytes, now) == (
            no_report(),
            if bytes.len() == 0 {
                None
            } else {
                Some(bytes.contains(3))
            },
        ),
    decreases bytes.len(),
{
    if bytes.len() > 0 {
        let most = bytes.drop_last();
        assert(bytes[bytes.len() - 1] == bytes.last());
        assert(bytes.contains(bytes.last()));
        assert forall|b: u8| most.contains(b) implies #[trigger] bytes.contains(b) by {
            let k = choose|k: int| 0 <= k < most.len() && most[k] == b;
            assert(bytes[k] == b);
        }
        lemma_plain_input(most, now);
        if bytes.contains(3) && !most.contains(3) {
            let k = choose|k: int| 0 <= k < bytes.len() && bytes[k] == 3;
            if k < most.len() {
                assert(most[k] == 3);
            }
        }
        assert(most.len() == 0 ==> !most.contains(3));
    }
}

/// A report of the terminal itself is not typed by a human: that the focus came or went, where
/// the cursor stands, or of what kind the terminal is.
pub proof fn a_report_is_not_typed(params: Seq<u8>, last: u8, now: u64)
    requires
        params.len() < 60,
        forall|i: int| 0 <= i < params.len() ==> is_param(#[trigger] params[i]),
        (params.len() == 0 && (last == 0x49 || last == 0x4f)) || (params.len() > 0 && (last == 0x52
            || last == 0x63)),
    ensures
        watched(no_report(), seq![0x1bu8, 0x5bu8] + params + seq![last], now) == (
            no_report(),
            None::<bool>,
        ),
{
    let begun = seq![0x1bu8, 0x5bu8] + params;
    lemma_report_begun(params, now);
    let all = begun + seq![last];
    assert(all.drop_last() =~= begun);
    assert(begun.push(last) =~= all);
    if params.len() == 0 {
        if last == 0x49 {
            assert(all =~= seq![0x1bu8, 0x5bu8, 0x49u8]);
        } else {
            assert(all =~= seq![0x1bu8, 0x5bu8, 0x4fu8]);
        }
    } else {
        assert forall|i: int| 2 <= i < all.len() - 1 implies is_param(#[trigger] all[i]) by {
            assert(all[i] == params[i - 2]);
        }
    }
}

proof fn lemma_report_begun(params: Seq<u8>, now: u64)
    requires
        params.len() < 60,
        forall|i: int| 0 <= i < params.len() ==> is_param(#[trigger] params[i]),
    ensures
        watch_bytes(no_report(), seq![0x1bu8, 0x5bu8] + params, now) == (
            Watch { pending: seq![0x1bu8, 0x5bu8] + params, since: Some(now) },
            None::<bool>,
        ),
    decreases params.len(),
{
    let all = seq![0x1bu8, 0x5bu8] + params;
    if params.len() == 0 {
        let one = seq![0x1bu8];
        let none = Seq::<u8>::empty();
        assert(watch_bytes(no_report(), none, now) == (no_report(), None::<bool>));
        assert(one.drop_last() =~= none);
        assert(watch_bytes(no_report(), one, now) == (
            Watch { pending: one, since: Some(now) },
            None::<bool>,
        ));
        assert(all.drop_last() =~= one);
        assert(one.push(0x5b) =~= all);
        assert(all =~= seq![0x1bu8, 0x5bu8]);
        assert(!is_report(all));
    } else {
        let most = params.drop_last();
        lemma_report_begun(most, now);
        assert(all.drop_last() =~= seq![0x1bu8, 0x5bu8] + most);
        assert((seq![0x1bu8, 0x5bu8] + most).push(params.last()) =~= all);
        assert(is_param(params[params.len() - 1]));
        assert forall|i: int| 2 <= i < all.len() implies is_param(#[trigger] all[i]) by {
            assert(all[i] == params[i - 2]);
        }
        assert(!is_report(all)) by {
            assert(all.len() >= 3);
            assert(is_param(all[all.len() - 1]));
            if all == seq![0x1bu8, 0x5bu8, 0x49u8] {
                assert(all[2] == 0x49);
            }
            if all == seq![0x1bu8, 0x5bu8, 0x4fu8] {
                assert(all[2] == 0x4f);
            }
        }
    }
}

/// An escape that nothing follows in time was typed, and interrupts.
pub proof fn a_lone_escape_interrupts(now: u64, later: u64)
    requires
        later - now >= 100_000_000,
    ensures
        ({
            let (pressed, human) = watched(no_report(), seq![0x1bu8], now);
            &&& human is None
            &&& watched(pressed, Seq::empty(), later) == (no_report(), Some(true))
        }),
{
    let none = Seq::<u8>::empty();
    assert(seq![0x1bu8].drop_last() =~= none);
    assert(watch_bytes(no_report(), none, now) == (no_report(), None::<bool>));
    assert(watch_bytes(no_report(), none, later) == (no_report(), None::<bool>));
}

} // verus!
