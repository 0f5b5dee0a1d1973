//! The consumer's side of a terminal: what is read and written when, and how the
//! end of a stream becomes an exit status.
use vstd::prelude::*;

use crate::json::Json;
use crate::rpc::at;
use crate::terminal::{PeerRead, CAP, CHUNK};
use crate::text::same;

verus! {

/// The most bytes that are written to the screen at once.
pub const SCREEN_CHUNK: usize = 1024;

/// Bytes on their way between a screen and a session's terminal.
pub struct Relay {
    to_terminal: Vec<u8>,
    to_shell: Vec<u8>,
    eof: bool,
}

pub struct RelayView {
    pub to_terminal: Seq<u8>,
    pub to_shell: Seq<u8>,
    pub eof: bool,
}

impl View for Relay {
    type V = RelayView;

    closed spec fn view(&self) -> RelayView {
        RelayView {
            to_terminal: self.to_terminal@,
            to_shell: self.to_shell@,
            eof: self.eof,
        }
    }
}

/// What to wait for.
#[derive(Clone, Copy, Debug, PartialEq, Eq, Structural)]
pub struct Interest {
    /// Keys.
    pub keys: bool,
    /// The stream at all; not once it has ended.
    pub stream: bool,
    /// Output that comes over the stream.
    pub output: bool,
    /// Room on the stream for keys.
    pub send: bool,
    /// Room on the screen.
    pub screen: bool,
}

pub open spec fn interest_of(r: RelayView) -> Interest {
    Interest {
        keys: !r.eof && r.to_shell.len() < CAP,
        stream: !r.eof,
        output: r.to_terminal.len() < CAP,
        send: r.to_shell.len() > 0,
        screen: r.to_terminal.len() > 0,
    }
}

pub open spec fn room(waiting: nat) -> int {
    if CAP - waiting < CHUNK {
        CAP - waiting
    } else {
        CHUNK as int
    }
}

impl Relay {
    /// Both directions are bounded.
    pub open spec fn wf(&self) -> bool {
        self@.to_terminal.len() <= CAP && self@.to_shell.len() <= CAP
    }

    pub fn new() -> (r: Self)
        ensures
            r.wf(),
            r@ == (RelayView { to_terminal: Seq::empty(), to_shell: Seq::empty(), eof: false }),
    {
        let r = Relay { to_terminal: Vec::new(), to_shell: Vec::new(), eof: false };
        assert(r@.to_terminal =~= Seq::<u8>::empty());
        assert(r@.to_shell =~= Seq::<u8>::empty());
        r
    }

    pub fn eof(&self) -> (r: bool)
        ensures
            r == self@.eof,
    {
        self.eof
    }

    /// The stream has ended and everything is on the screen.
    pub fn done(&self) -> (r: bool)
        ensures
            r == (self@.eof && self@.to_terminal.len() == 0),
    {
        self.eof && self.to_terminal.len() == 0
    }

    pub fn interest(&self) -> (r: Interest)
        ensures
            r == interest_of(self@),
    {
        Interest {
            keys: !self.eof && self.to_shell.len() < CAP,
            stream: !self.eof,
            output: self.to_terminal.len() < CAP,
            send: self.to_shell.len() > 0,
            screen: self.to_terminal.len() > 0,
        }
    }

    /// How many keys may be read.
    pub fn key_room(&self) -> (r: usize)
        requires
            self.wf(),
        ensures
            r == room(self@.to_shell.len()),
    {
        let free: usize = CAP - self.to_shell.len();
        if free < CHUNK {
            free
        } else {
            CHUNK
        }
    }

    /// Takes keys that were read; none at the end of input.
    pub fn typed(&mut self, keys: Vec<u8>) -> (r: Result<(), String>)
        requires
            old(self).wf(),
            old(self)@.to_shell.len() + keys@.len() <= CAP,
        ensures
            final(self).wf(),
            if keys@.len() == 0 {
                &&& r matches Err(e) && e@
                    == "terminal input disconnected; session remains daemon-owned"@
                &&& final(self)@ == old(self)@
            } else {
                r is Ok && final(self)@ == (RelayView {
                    to_shell: old(self)@.to_shell + keys@,
                    ..old(self)@
                })
            },
    {
        if keys.len() == 0 {
            return Err(
                String::from_str("terminal input disconnected; session remains daemon-owned"),
            );
        }
        self.to_shell.extend_from_slice(keys.as_slice());
        assert(self@.to_shell =~= old(self)@.to_shell + keys@);
        Ok(())
    }

    /// How many bytes may be read from the stream: none once it has ended.
    pub fn stream_room(&self) -> (r: usize)
        requires
            self.wf(),
        ensures
            r == if self@.eof {
                0
            } else {
                room(self@.to_terminal.len())
            },
    {
        if self.eof {
            return 0;
        }
        let free: usize = CAP - self.to_terminal.len();
        if free < CHUNK {
            free
        } else {
            CHUNK
        }
    }

    /// Takes what was read from the stream. At its end keys are no longer wanted.
    pub fn received(&mut self, read: PeerRead)
        requires
            old(self).wf(),
            read matches PeerRead::Bytes(v) ==> old(self)@.to_terminal.len() + v@.len() <= CAP,
        ensures
            final(self).wf(),
            final(self)@ == match read {
                PeerRead::Nothing => old(self)@,
                PeerRead::Closed => RelayView { eof: true, to_shell: Seq::empty(), ..old(self)@ },
                PeerRead::Bytes(v) => if v@.len() == 0 {
                    RelayView { eof: true, to_shell: Seq::empty(), ..old(self)@ }
                } else {
                    RelayView { to_terminal: old(self)@.to_terminal + v@, ..old(self)@ }
                },
            },
    {
        let ended = match read {
            PeerRead::Nothing => false,
            PeerRead::Closed => true,
            PeerRead::Bytes(v) => {
                self.to_terminal.extend_from_slice(v.as_slice());
                assert(self@.to_terminal =~= old(self)@.to_terminal + v@);
                v.len() == 0
            },
        };
        if ended {
            self.eof = true;
            self.to_shell = Vec::new();
            assert(self@.to_shell =~= Seq::<u8>::empty());
            assert(self@.to_terminal =~= old(self)@.to_terminal);
        }
    }

    /// The keys that wait.
    pub fn keys(&self) -> (r: &[u8])
        ensures
            r@ == self@.to_shell,
    {
        self.to_shell.as_slice()
    }

    /// Keys were sent.
    pub fn sent(&mut self, n: usize)
        requires
            old(self).wf(),
            n <= old(self)@.to_shell.len(),
        ensures
            final(self).wf(),
            final(self)@ == (RelayView {
                to_shell: old(self)@.to_shell.skip(n as int),
                ..old(self)@
            }),
    {
        let rest = self.to_shell.split_off(n);
        self.to_shell = rest;
        assert(self@.to_shell =~= old(self)@.to_shell.skip(n as int));
    }

    /// The output that waits.
    pub fn output(&self) -> (r: &[u8])
        ensures
            r@ == self@.to_terminal,
    {
        self.to_terminal.as_slice()
    }

    /// Output was written to the screen; where none could be, it never will be.
    pub fn shown(&mut self, n: usize) -> (r: Result<(), String>)
        requires
            old(self).wf(),
            n <= old(self)@.to_terminal.len(),
        ensures
            final(self).wf(),
            if n == 0 {
                (r matches Err(e) && e@ == "terminal output incomplete"@) && final(self)@ == old(
                    self)@
            } else {
                r is Ok && final(self)@ == (RelayView {
                    to_terminal: old(self)@.to_terminal.skip(n as int),
                    ..old(self)@
                })
            },
    {
        if n == 0 {
            return Err(String::from_str("terminal output incomplete"));
        }
        let rest = self.to_terminal.split_off(n);
        self.to_terminal = rest;
        assert(self@.to_terminal =~= old(self)@.to_terminal.skip(n as int));
        Ok(())
    }
}

/// The text of a member, where it is one.
pub open spec fn text_of(v: Json) -> Option<Seq<char>> {
    match v {
        Json::Text(s) => Some(s@),
        _ => None,
    }
}

/// The number of a member, where it fits 64 bits with a sign.
pub open spec fn signed_of(v: Json) -> Option<i64> {
    match v {
        Json::Unsigned(n) => if n <= i64::MAX {
            Some(n as i64)
        } else {
            None
        },
        Json::Negative(n) => Some(n),
        _ => None,
    }
}

/// What the record of a session says of the end of its terminal's stream: an exit
/// status, an error, or nothing yet. A consumer that was sent away leaves with 0.
/// A session that failed is an error, and so is output that was lost.
pub open spec fn verdict(record: Json) -> Option<Result<i64, Seq<char>>> {
    let state = text_of(at(record, "state"@));
    let detail = text_of(at(record, "detail"@));
    let reason = text_of(at(record, "stop_reason"@));
    if at(record, "terminal_detached"@) == Json::Bool(true) {
        Some(Ok(0))
    } else if state == Some("failed"@) {
        Some(
            Err(
                match detail {
                    Some(d) => d,
                    None => "launch failed"@,
                },
            ),
        )
    } else if state == Some("stopped"@) {
        if at(record, "terminal_complete"@) != Json::Bool(true) || at(
            record,
            "terminal_interrupted"@,
        ) == Json::Bool(true) {
            Some(Err("terminal output incomplete"@))
        } else {
            match signed_of(at(record, "exit_code"@)) {
                Some(code) => Some(Ok(code)),
                None => Some(
                    Err(
                        match reason {
                            Some(r) => r,
                            None => match detail {
                                Some(d) => d,
                                None => "payload exit status unknown"@,
                            },
                        },
                    ),
                ),
            }
        }
    } else {
        None
    }
}

fn is_true(record: &Json, name: &str) -> (r: bool)
    ensures
        r == (at(*record, name@) == Json::Bool(true)),
{
    match record.get(name) {
        Some(Json::Bool(b)) => *b,
        _ => false,
    }
}

fn text_in(record: &Json, name: &str) -> (r: Option<String>)
    ensures
        crate::text::maybe(r) == text_of(at(*record, name@)),
{
    match record.get(name) {
        Some(Json::Text(s)) => Some(s.clone()),
        _ => None,
    }
}

fn signed_in(record: &Json, name: &str) -> (r: Option<i64>)
    ensures
        r == signed_of(at(*record, name@)),
{
    match record.get(name) {
        Some(Json::Unsigned(n)) => if *n <= i64::MAX as u64 {
            Some(*n as i64)
        } else {
            None
        },
        Some(Json::Negative(n)) => Some(*n),
        _ => None,
    }
}

/// What the record of a session says once its stream has ended.
pub fn outcome(record: &Json) -> (r: Option<Result<i64, String>>)
    ensures
        match verdict(*record) {
            None => r is None,
            Some(Ok(code)) => r matches Some(Ok(c)) && c == code,
            Some(Err(why)) => r matches Some(Err(e)) && e@ == why,
        },
{
    if is_true(record, "terminal_detached") {
        return Some(Ok(0));
    }
    let state = match text_in(record, "state") {
        Some(s) => s,
        None => {
            return None;
        },
    };
    if same(state.as_str(), "failed") {
        return Some(
            Err(
                match text_in(record, "detail") {
                    Some(d) => d,
                    None => String::from_str("launch failed"),
                },
            ),
        );
    }
    if !same(state.as_str(), "stopped") {
        return None;
    }
    if !is_true(record, "terminal_complete") || is_true(record, "terminal_interrupted") {
        return Some(Err(String::from_str("terminal output incomplete")));
    }
    match signed_in(record, "exit_code") {
        Some(code) => Some(Ok(code)),
        None => Some(
            Err(
                match text_in(record, "stop_reason") {
                    Some(r) => r,
                    None => match text_in(record, "detail") {
                        Some(d) => d,
                        None => String::from_str("payload exit status unknown"),
                    },
                },
            ),
        ),
    }
}

/// A normal exit is reported only of a session that stopped and whose output
/// came through whole.
pub proof fn lost_output_is_no_exit(record: Json)
    requires
        verdict(record) matches Some(Ok(_)),
        at(record, "terminal_detached"@) != Json::Bool(true),
    ensures
        text_of(at(record, "state"@)) == Some("stopped"@),
        at(record, "terminal_complete"@) == Json::Bool(true),
        at(record, "terminal_interrupted"@) != Json::Bool(true),
{
}

/// There is always room for what may be read, and none is asked for when there is none.
pub proof fn what_is_read_has_room(waiting: nat)
    requires
        waiting <= CAP,
    ensures
        0 <= room(waiting) <= CHUNK,
        waiting + room(waiting) <= CAP,
        room(waiting) == 0 <==> waiting == CAP,
        waiting + CHUNK <= CAP ==> room(waiting) == CHUNK,
{
}

/// What waits is sent and shown; keys are read as long as the session takes them and there is room.
pub proof fn what_waits_is_passed_on(r: RelayView)
    requires
        r.to_shell.len() <= CAP,
        r.to_terminal.len() <= CAP,
    ensures
        interest_of(r).send <==> r.to_shell.len() > 0,
        interest_of(r).screen <==> r.to_terminal.len() > 0,
        interest_of(r).stream <==> !r.eof,
        interest_of(r).keys <==> !r.eof && room(r.to_shell.len()) > 0,
        interest_of(r).output <==> room(r.to_terminal.len()) > 0,
{
}

/// A payload that has ended, with all of its output shown, gives its exit code.
pub proof fn a_payload_gives_its_code(record: Json, code: i64)
    requires
        at(record, "terminal_detached"@) != Json::Bool(true),
        text_of(at(record, "state"@)) == Some("stopped"@),
        at(record, "terminal_complete"@) == Json::Bool(true),
        at(record, "terminal_interrupted"@) != Json::Bool(true),
        at(record, "exit_code"@) == if code < 0 {
            Json::Negative(code)
        } else {
            Json::Unsigned(code as u64)
        },
    ensures
        verdict(record) == Some(Ok::<i64, Seq<char>>(code)),
{
    reveal_strlit("failed");
    reveal_strlit("stopped");
    assert("failed"@.len() != "stopped"@.len());
}

/// A launch that failed tells why.
pub proof fn a_failed_launch_tells_why(record: Json, why: Seq<char>)
    requires
        at(record, "terminal_detached"@) != Json::Bool(true),
        text_of(at(record, "state"@)) == Some("failed"@),
        text_of(at(record, "detail"@)) == Some(why),
    ensures
        verdict(record) == Some(Err::<i64, Seq<char>>(why)),
{
}

/// Of a session that has neither ended nor been left nothing is said yet.
pub proof fn a_session_that_goes_on_has_no_verdict(record: Json)
    requires
        at(record, "terminal_detached"@) != Json::Bool(true),
        text_of(at(record, "state"@)) == Some("running"@) || text_of(at(record, "state"@)) == Some(
            "starting"@,
        ) || text_of(at(record, "state"@)) == Some("stopping"@),
    ensures
        verdict(record) is None,
{
    reveal_strlit("failed");
    reveal_strlit("stopped");
    reveal_strlit("running");
    reveal_strlit("starting");
    reveal_strlit("stopping");
    assert("running"@[0] != "stopped"@[0]);
    assert("failed"@.len() == 6);
    assert("running"@.len() == 7);
    assert("stopped"@.len() == 7);
    assert("starting"@.len() == 8);
    assert("stopping"@.len() == 8);
}

/// A session that is left goes on without its consumer, which has ended well.
pub proof fn a_session_that_is_left_is_no_failure(record: Json)
    requires
        at(record, "terminal_detached"@) == Json::Bool(true),
    ensures
        verdict(record) == Some(Ok::<i64, Seq<char>>(0)),
{
}

} // verus!
