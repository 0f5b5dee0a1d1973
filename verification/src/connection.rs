//! A connection to the host's endpoint or to that of a sandbox: what is read,
//! what is queued, and when it ends.
use vstd::prelude::*;
use vstd::slice::slice_subrange;

use crate::json::Json;
use crate::messages::MAX_REQUEST;
use crate::rpc::{error, feed, is_error, lemma_feed_used, start, Decoder, RpcId, TIMEOUT};
use crate::terminal::{is_failure, PeerRead, Wrote};

verus! {

/// The most bytes that wait to be sent.
pub const QUEUE: usize = 2_097_152;

/// The most bytes that wait to be taken apart.
pub const INPUT: usize = 32768;

/// Whom a connection speaks for.
pub enum Role {
    Host,
    Sandbox(String),
}

impl Role {
    pub fn copy(&self) -> (r: Role)
        ensures
            r == *self,
    {
        match self {
            Role::Host => Role::Host,
            Role::Sandbox(s) => Role::Sandbox(s.clone()),
        }
    }

    pub fn is_host(&self) -> (r: bool)
        ensures
            r == (self is Host),
    {
        match self {
            Role::Host => true,
            Role::Sandbox(_) => false,
        }
    }
}

pub struct Connection {
    pub id: u64,
    pub role: Role,
    pub decoder: Decoder,
    pub input: Vec<u8>,
    /// Values that are to be serialized and queued.
    pub outbox: Vec<Json>,
    /// Frames that wait to be sent, the first of them sent up to `offset`.
    pub output: Vec<Vec<u8>>,
    pub offset: usize,
    pub queued: usize,
    pub initialized: bool,
    /// What an answer is awaited of, and the ID to give it under.
    pub waiting: Option<(String, RpcId)>,
    pub close: bool,
    pub dead: bool,
    pub calls: usize,
    pub body_bytes: usize,
    pub subscription: Option<String>,
}

/// The bytes of some frames together.
pub open spec fn total(frames: Seq<Vec<u8>>) -> nat
    decreases frames.len(),
{
    if frames.len() == 0 {
        0
    } else {
        total(frames.drop_last()) + frames.last()@.len()
    }
}

/// How many calls a connection may make.
pub open spec fn call_limit(role: Role) -> nat {
    match role {
        Role::Host => 4096,
        Role::Sandbox(_) => 2,
    }
}

proof fn lemma_total_front(frames: Seq<Vec<u8>>)
    requires
        frames.len() > 0,
    ensures
        total(frames) == frames[0]@.len() + total(frames.drop_first()),
    decreases frames.len(),
{
    if frames.len() == 1 {
        assert(frames.drop_last() =~= frames.drop_first());
    } else {
        lemma_total_front(frames.drop_last());
        assert(frames.drop_first().drop_last() =~= frames.drop_last().drop_first());
        assert(frames.drop_first().last() == frames.last());
    }
}

/// The bytes that are sent next.
pub open spec fn next_bytes(c: Connection) -> Seq<u8> {
    if c.output@.len() == 0 {
        Seq::empty()
    } else {
        c.output@[0]@.skip(c.offset as int)
    }
}

impl Connection {
    /// What is queued is counted, and bounded.
    pub open spec fn wf(&self) -> bool {
        &&& self.decoder.wf()
        &&& self.queued + self.offset == total(self.output@)
        &&& self.queued <= QUEUE
        &&& self.input@.len() <= INPUT
        &&& self.calls <= call_limit(self.role) + 1
        &&& if self.output@.len() == 0 {
            self.offset == 0
        } else {
            self.offset <= self.output@[0]@.len()
        }
    }

    pub fn new(id: u64, role: Role, now: u64) -> (r: Self)
        ensures
            r.wf(),
            r.id == id,
            r.role == role,
            r.decoder.progress() == start(),
            r.decoder.limit() == MAX_REQUEST,
            r.decoder.deadline() == Some(now + TIMEOUT),
            r.input@.len() == 0 && r.outbox@.len() == 0 && r.output@.len() == 0,
            r.offset == 0 && r.queued == 0 && r.calls == 0 && r.body_bytes == 0,
            !r.initialized && !r.close && !r.dead,
            r.waiting is None && r.subscription is None,
    {
        Connection {
            id,
            role,
            decoder: Decoder::new(MAX_REQUEST, Some(now)),
            input: Vec::new(),
            outbox: Vec::new(),
            output: Vec::new(),
            offset: 0,
            queued: 0,
            initialized: false,
            waiting: None,
            close: false,
            dead: false,
            calls: 0,
            body_bytes: 0,
            subscription: None,
        }
    }

    /// A value to be sent.
    pub fn queue(&mut self, value: Json)
        requires
            old(self).wf(),
        ensures
            final(self).wf(),
            final(self).outbox@ == old(self).outbox@.push(value),
            *final(self) == (Connection { outbox: final(self).outbox, ..*old(self) }),
    {
        self.outbox.push(value);
    }

    /// Queues a frame. A connection that cannot take it is given up.
    pub fn enqueue(&mut self, frame: Result<Vec<u8>, String>)
        requires
            old(self).wf(),
        ensures
            final(self).wf(),
            match frame {
                Ok(data) => if old(self).queued + data@.len() <= QUEUE {
                    &&& final(self).output@ == old(self).output@.push(data)
                    &&& final(self).queued == old(self).queued + data@.len()
                    &&& *final(self) == (Connection {
                        output: final(self).output,
                        queued: final(self).queued,
                        ..*old(self)
                    })
                } else {
                    *final(self) == (Connection { dead: true, ..*old(self) })
                },
                Err(_) => *final(self) == (Connection { dead: true, ..*old(self) }),
            },
    {
        match frame {
            Ok(data) => {
                if data.len() <= QUEUE - self.queued {
                    self.queued = self.queued + data.len();
                    self.output.push(data);
                    assert(self.output@.drop_last() =~= old(self).output@);
                } else {
                    self.dead = true;
                }
            },
            Err(_) => {
                self.dead = true;
            },
        }
    }

    /// The bytes to be sent next.
    pub fn unsent(&self) -> (r: Option<&[u8]>)
        requires
            self.wf(),
        ensures
            match r {
                Some(bytes) => self.output@.len() > 0 && bytes@ == next_bytes(*self),
                None => self.output@.len() == 0,
            },
    {
        if self.output.len() == 0 {
            return None;
        }
        let front = &self.output[0];
        let rest = slice_subrange(front.as_slice(), self.offset, front.len());
        assert(rest@ =~= next_bytes(*self));
        Some(rest)
    }

    /// Takes what came of sending them, where there were any. A connection that is
    /// to be closed ends with the last of what is queued.
    pub fn flushed(&mut self, w: Option<Wrote>)
        requires
            old(self).wf(),
            w is Some <==> old(self).output@.len() > 0,
            w matches Some(Wrote::Bytes(n)) ==> n <= next_bytes(*old(self)).len(),
        ensures
            final(self).wf(),
            ({
                let c = *old(self);
                let sent = match w {
                    Some(Wrote::Bytes(n)) => n as int,
                    _ => 0,
                };
                let whole = sent > 0 && sent == next_bytes(c).len();
                &&& final(self).output@ == if whole {
                    c.output@.drop_first()
                } else {
                    c.output@
                }
                &&& final(self).queued == c.queued - sent
                &&& final(self).offset == if whole {
                    0
                } else {
                    c.offset + sent
                }
                &&& final(self).dead == (c.dead || (w matches Some(x) && is_failure(x)) || (c.close
                    && final(self).output@.len() == 0))
                &&& *final(self) == (Connection {
                    output: final(self).output,
                    queued: final(self).queued,
                    offset: final(self).offset,
                    dead: final(self).dead,
                    ..c
                })
            }),
    {
        if let Some(w) = w {
            match w {
                Wrote::Blocked => {},
                Wrote::Failed => {
                    self.dead = true;
                },
                Wrote::Bytes(n) => {
                    if n == 0 {
                        self.dead = true;
                    } else {
                        proof {
                            lemma_total_front(self.output@);
                        }
                        let whole: usize = self.output[0].len();
                        self.offset = self.offset + n;
                        self.queued = self.queued - n;
                        if self.offset == whole {
                            let _ = self.output.remove(0);
                            assert(self.output@ =~= old(self).output@.drop_first());
                            self.offset = 0;
                        }
                    }
                },
            }
        }
        if self.close && self.output.len() == 0 {
            self.dead = true;
        }
    }

    /// Takes what was read. Input while an answer is awaited, or too much of it,
    /// ends the connection. Says whether what came may be taken apart.
    pub fn received(&mut self, read: PeerRead) -> (r: bool)
        requires
            old(self).wf(),
            !old(self).close,
            !old(self).dead,
            read matches PeerRead::Bytes(v) ==> v@.len() <= 16384,
        ensures
            final(self).wf(),
            match read {
                PeerRead::Nothing => {
                    &&& *final(self) == *old(self)
                    &&& r == (old(self).waiting is None)
                },
                PeerRead::Bytes(v) => if v@.len() == 0 || old(self).waiting is Some || old(
                    self,
                ).input@.len() + v@.len() > INPUT {
                    !r && *final(self) == (Connection { dead: true, ..*old(self) })
                } else {
                    &&& r
                    &&& final(self).input@ == old(self).input@ + v@
                    &&& *final(self) == (Connection { input: final(self).input, ..*old(self) })
                },
                PeerRead::Closed => !r && *final(self) == (Connection { dead: true, ..*old(self) }),
            },
    {
        match read {
            PeerRead::Nothing => self.waiting.is_none(),
            PeerRead::Closed => {
                self.dead = true;
                false
            },
            PeerRead::Bytes(v) => {
                if v.len() == 0 || self.waiting.is_some() || self.input.len() + v.len() > INPUT {
                    self.dead = true;
                    false
                } else {
                    self.input.extend_from_slice(v.as_slice());
                    assert(self.input@ =~= old(self).input@ + v@);
                    true
                }
            },
        }
    }

    /// The body of the next call, once the whole of its frame is there. A frame that
    /// is refused is answered, and the connection closed; too many calls end it.
    pub fn next_body(&mut self, now: u64) -> (r: Option<Vec<u8>>)
        requires
            old(self).wf(),
            old(self).calls <= call_limit(old(self).role),
        ensures
            final(self).wf(),
            final(self).id == old(self).id && final(self).role == old(self).role,
            final(self).output == old(self).output && final(self).offset == old(self).offset,
            final(self).queued == old(self).queued,
            final(self).initialized == old(self).initialized,
            final(self).waiting == old(self).waiting,
            final(self).subscription == old(self).subscription,
            ({
                let c = *old(self);
                let late = match c.decoder.deadline() {
                    Some(d) => now >= d,
                    None => false,
                };
                let fed = feed(c.decoder.progress(), c.input@, c.decoder.limit() as nat);
                let deadline = if c.decoder.deadline() is None && c.input@.len() > 0 {
                    Some(now + TIMEOUT)
                } else {
                    c.decoder.deadline()
                };
                if late || fed.outcome matches Some(Err(_)) {
                    &&& r is None
                    &&& final(self).input == c.input
                    &&& final(self).decoder.limit() == c.decoder.limit()
                    &&& final(self).decoder.deadline() == deadline
                    &&& final(self).decoder.progress() == if late {
                        c.decoder.progress()
                    } else {
                        fed.progress
                    }
                    &&& final(self).close
                    &&& final(self).dead == c.dead
                    &&& final(self).calls == c.calls && final(self).body_bytes == c.body_bytes
                    &&& final(self).outbox@.len() == c.outbox@.len() + 1
                    &&& final(self).outbox@.drop_last() == c.outbox@
                    &&& is_error(
                        final(self).outbox@.last(),
                        Json::Null,
                        -32600,
                        if late {
                            "whole-frame deadline exceeded"@
                        } else {
                            (fed.outcome->0)->Err_0
                        },
                    )
                } else {
                    &&& final(self).outbox == c.outbox
                    &&& final(self).close == c.close
                    &&& match fed.outcome {
                        None => {
                            &&& r is None
                            &&& final(self).input@.len() == 0
                            &&& final(self).dead == c.dead
                            &&& final(self).calls == c.calls && final(self).body_bytes
                                == c.body_bytes
                            &&& final(self).decoder.progress() == fed.progress
                            &&& final(self).decoder.limit() == c.decoder.limit()
                            &&& final(self).decoder.deadline() == deadline
                        },
                        Some(Ok(body)) => {
                            &&& final(self).input@ == c.input@.skip(fed.used as int)
                            &&& final(self).calls == c.calls + 1
                            &&& final(self).body_bytes == body.len()
                            &&& if c.calls + 1 > call_limit(c.role) {
                                &&& r is None && final(self).dead
                                &&& final(self).decoder.progress() == fed.progress
                                &&& final(self).decoder.limit() == c.decoder.limit()
                                &&& final(self).decoder.deadline() == deadline
                            } else {
                                &&& r matches Some(b) && b@ == body
                                &&& final(self).dead == c.dead
                                &&& final(self).decoder.progress() == start()
                                &&& final(self).decoder.limit() == MAX_REQUEST
                                &&& final(self).decoder.deadline() == if c.role is Sandbox
                                    || !c.initialized {
                                    Some(now + TIMEOUT)
                                } else {
                                    None
                                }
                            }
                        },
                        Some(Err(_)) => false,
                    }
                }
            }),
    {
        let ghost c = *self;
        proof {
            lemma_feed_used(c.decoder.progress(), c.input@, c.decoder.limit() as nat);
        }
        match self.decoder.push(self.input.as_slice(), now) {
            Err(e) => {
                self.outbox.push(error(Json::Null, -32600, e.message.as_str()));
                assert(self.outbox@.drop_last() =~= c.outbox@);
                self.close = true;
                None
            },
            Ok((n, body)) => {
                let rest = self.input.split_off(n);
                self.input = rest;
                assert(self.input@ =~= c.input@.skip(n as int));
                match body {
                    None => None,
                    Some(body) => {
                        self.body_bytes = body.len();
                        self.calls = self.calls + 1;
                        let limit: usize = if self.role.is_host() {
                            4096
                        } else {
                            2
                        };
                        if self.calls > limit {
                            self.dead = true;
                            return None;
                        }
                        let timed = !self.role.is_host() || !self.initialized;
                        self.decoder =
                        Decoder::new(
                            MAX_REQUEST,
                            if timed {
                                Some(now)
                            } else {
                                None
                            },
                        );
                        Some(body)
                    },
                }
            },
        }
    }
}

/// What waits is all that was queued.
pub proof fn what_waits_is_all_that_was_queued(frames: Seq<Vec<u8>>)
    ensures
        total(frames) == frames.map_values(|f: Vec<u8>| f@).flatten().len(),
    decreases frames.len(),
{
    let all = frames.map_values(|f: Vec<u8>| f@);
    if frames.len() == 0 {
        assert(all =~= Seq::empty());
        assert(all.flatten().len() == 0);
    } else {
        let most = frames.drop_last();
        what_waits_is_all_that_was_queued(most);
        assert(all.drop_last() =~= most.map_values(|f: Vec<u8>| f@));
        assert(all.last() == frames.last()@);
        all.lemma_flatten_and_flatten_alt_are_equivalent();
        all.drop_last().lemma_flatten_and_flatten_alt_are_equivalent();
    }
}

/// A frame that was sent in part goes on where it stopped.
pub proof fn a_frame_goes_on_where_it_stopped(c: Connection, d: Connection, n: int)
    requires
        c.output@.len() > 0,
        c.offset <= c.output@[0]@.len(),
        0 <= n <= c.output@[0]@.len() - c.offset,
        d.output == c.output,
        d.offset == c.offset + n,
    ensures
        next_bytes(c) == c.output@[0]@.subrange(c.offset as int, c.output@[0]@.len() as int),
        next_bytes(d) == next_bytes(c).skip(n),
        next_bytes(c).take(n) + next_bytes(d) == next_bytes(c),
{
    assert(next_bytes(c) =~= c.output@[0]@.subrange(c.offset as int, c.output@[0]@.len() as int));
    assert(next_bytes(d) =~= next_bytes(c).skip(n));
    assert(next_bytes(c).take(n) + next_bytes(d) =~= next_bytes(c));
}

} // verus!
