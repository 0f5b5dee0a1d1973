//! Host commands: how they are cancelled, how much of what they say is kept, and
//! the lines that a helper answers with.
use std::sync::atomic::AtomicBool;
use std::sync::Arc;

use vstd::prelude::*;
use vstd::utf8::{decode_utf8, valid_utf8};

use crate::terminal::end_of;
use crate::text::{from_utf8, utf8_complaint};

verus! {

/// The most bytes of a command's output.
pub const OUTPUT_LIMIT: usize = 8_388_608;

/// The most bytes of a command's diagnostics that are kept.
pub const ERROR_LIMIT: usize = 1_048_576;

/// How much of the end of the diagnostics is shown.
pub const DIAGNOSTIC: u64 = 12000;

/// The most bytes of a helper's answer.
pub const HELPER_LINE: usize = 256;

/// A flag that work looks at, and that of the work it belongs to.
pub struct Cancellation {
    cancelled: Arc<AtomicBool>,
    parent: Option<Arc<AtomicBool>>,
}

/// Work goes on unless it, or what it belongs to, was cancelled.
pub fn go_on(own: bool, parent: bool) -> (r: Result<(), String>)
    ensures
        if own || parent {
            r matches Err(e) && e@ == "session cancelled"@
        } else {
            r is Ok
        },
{
    if own || parent {
        Err(String::from_str("session cancelled"))
    } else {
        Ok(())
    }
}

/// What looking at a flag gives; `load` is `AtomicBool::load`.
fn look<F: Fn(&AtomicBool, std::sync::atomic::Ordering) -> bool>(load: F, flag: &AtomicBool) -> (r:
    bool)
    requires
        load.requires((flag, std::sync::atomic::Ordering::Relaxed)),
    ensures
        load.ensures((flag, std::sync::atomic::Ordering::Relaxed), r),
{
    load(flag, std::sync::atomic::Ordering::Relaxed)
}

/// Raises a flag; `store` is `AtomicBool::store`.
fn raise<F: Fn(&AtomicBool, bool, std::sync::atomic::Ordering)>(store: F, flag: &AtomicBool)
    requires
        store.requires((flag, true, std::sync::atomic::Ordering::Relaxed)),
    ensures
        store.ensures((flag, true, std::sync::atomic::Ordering::Relaxed), ()),
{
    store(flag, true, std::sync::atomic::Ordering::Relaxed)
}

/// A new flag that is down; `make` is `AtomicBool::new`.
fn fresh<F: Fn(bool) -> AtomicBool>(make: F) -> (r: AtomicBool)
    requires
        make.requires((false,)),
    ensures
        make.ensures((false,), r),
{
    make(false)
}

/// A flag as it is made: down.
pub open spec fn made_down(flag: AtomicBool) -> bool {
    call_ensures(AtomicBool::new, (false,), flag)
}

/// Looking at a flag may show that.
pub open spec fn shows(flag: AtomicBool, raised: bool) -> bool {
    call_ensures(AtomicBool::load, (&flag, std::sync::atomic::Ordering::Relaxed), raised)
}

/// A flag was raised.
pub open spec fn raised(flag: AtomicBool) -> bool {
    call_ensures(AtomicBool::store, (&flag, true, std::sync::atomic::Ordering::Relaxed), ())
}

impl Cancellation {
    /// The flag of this work.
    pub closed spec fn own(&self) -> Arc<AtomicBool> {
        self.cancelled
    }

    /// The flag of the work that this one belongs to.
    pub closed spec fn above(&self) -> Option<Arc<AtomicBool>> {
        self.parent
    }

    /// What looking at the flags may show: its own, and that of the work it belongs to.
    pub open spec fn looked(&self, own: bool, parent: bool) -> bool {
        &&& shows(*self.own(), own)
        &&& match self.above() {
            Some(p) => shows(*p, parent),
            None => !parent,
        }
    }

    /// Work that belongs to no other. Its flag is down.
    pub fn new() -> (r: Self)
        ensures
            made_down(*r.own()),
            r.above() is None,
    {
        Cancellation { cancelled: Arc::new(fresh(AtomicBool::new)), parent: None }
    }

    /// Cancels the work, and what belongs to it.
    pub fn cancel(&self)
        ensures
            raised(*self.own()),
    {
        raise(AtomicBool::store, &*self.cancelled)
    }

    /// A flag for work that belongs to this one, and that can be cancelled alone.
    pub fn child(&self) -> (r: Self)
        ensures
            made_down(*r.own()),
            r.above() == Some(self.own()),
    {
        Cancellation {
            cancelled: Arc::new(fresh(AtomicBool::new)),
            parent: Some(self.cancelled.clone()),
        }
    }

    /// Whether work goes on, by what the flags show now. They may change at any time.
    pub fn check(&self) -> (r: Result<(), String>)
        ensures
            exists|own: bool, parent: bool| #[trigger]
                self.looked(own, parent) && (r is Err <==> own || parent),
            r matches Err(e) ==> e@ == "session cancelled"@,
    {
        let own = look(AtomicBool::load, &*self.cancelled);
        let parent = match &self.parent {
            Some(p) => look(AtomicBool::load, &**p),
            None => false,
        };
        assert(self.looked(own, parent));
        go_on(own, parent)
    }
}

/// Takes some of a command's output. Too much of it is an error; of diagnostics
/// the end is kept.
pub fn gather(buffer: &mut Vec<u8>, bytes: &[u8], limit: usize, tail: bool) -> (r: Result<
    (),
    String,
>)
    requires
        old(buffer)@.len() <= limit,
        limit + bytes@.len() <= usize::MAX,
    ensures
        ({
            let all = old(buffer)@ + bytes@;
            if all.len() <= limit {
                r is Ok && final(buffer)@ == all
            } else if tail {
                r is Ok && final(buffer)@ == end_of(all, limit as int)
            } else {
                &&& r matches Err(e) && e@ == "host command output exceeds 8 MiB"@
                &&& final(buffer)@ == all
            }
        }),
{
    let ghost all = buffer@ + bytes@;
    buffer.extend_from_slice(bytes);
    assert(buffer@ =~= all);
    let n: usize = buffer.len();
    if n > limit {
        if !tail {
            return Err(String::from_str("host command output exceeds 8 MiB"));
        }
        let rest = buffer.split_off(n - limit);
        *buffer = rest;
        assert(buffer@ =~= end_of(all, limit as int));
    }
    Ok(())
}

/// Where the end of the diagnostics begins that is shown.
pub fn diagnostic_start(length: u64) -> (r: u64)
    ensures
        r == if length >= DIAGNOSTIC {
            length - DIAGNOSTIC
        } else {
            0
        },
{
    if length >= DIAGNOSTIC {
        length - DIAGNOSTIC
    } else {
        0
    }
}

/// What comes of one more byte of a helper's answer.
pub enum Line {
    More,
    Done(String),
    Failed(String),
}

/// Takes one byte of a helper's answer, which a line feed ends.
pub fn helper_byte(data: &mut Vec<u8>, b: u8) -> (r: Line)
    requires
        old(data)@.len() <= HELPER_LINE,
    ensures
        if b == 10 {
            &&& final(data)@ == old(data)@
            &&& if valid_utf8(old(data)@) {
                r matches Line::Done(s) && s@ == decode_utf8(old(data)@)
            } else {
                r matches Line::Failed(e) && e@ == utf8_complaint(old(data)@)
            }
        } else {
            &&& final(data)@ == old(data)@.push(b)
            &&& if old(data)@.len() + 1 > HELPER_LINE {
                r matches Line::Failed(e) && e@ == "oversized helper response"@
            } else {
                r is More
            }
        },
{
    if b == 10 {
        return match from_utf8(data.as_slice()) {
            Ok(s) => Line::Done(s),
            Err(e) => Line::Failed(e),
        };
    }
    data.push(b);
    if data.len() > HELPER_LINE {
        Line::Failed(String::from_str("oversized helper response"))
    } else {
        Line::More
    }
}

} // verus!
