//! What system calls return, and what is made of it.
use vstd::prelude::*;

use crate::config::{member, text_at, text_member};
use crate::json::Json;
use crate::protocol::MAX_FRAME;
use crate::text::same;

verus! {

/// `std::io::Error`, as it is handed on.
#[verifier::external_type_specification]
#[verifier::external_body]
pub struct ExIoError(std::io::Error);

/// `std::io::Error::last_os_error` gives the error of the last system call of the
/// thread; which one that is depends on the system.
pub assume_specification[ std::io::Error::last_os_error ]() -> std::io::Error;

/// The result of a system call: a negative number stands for an error.
pub fn cvt(n: i32) -> (r: std::io::Result<i32>)
    ensures
        if n < 0 {
            r is Err
        } else {
            r matches Ok(m) && m == n
        },
{
    if n < 0 {
        Err(std::io::Error::last_os_error())
    } else {
        Ok(n)
    }
}

/// A control directory is the user's own and closed to everyone else. A link is no directory.
pub fn check_private(directory: bool, owner: u32, user: u32, mode: u32) -> (r: Result<(), String>)
    ensures
        if directory && owner == user && mode & 0o7777 == 0o700 {
            r is Ok
        } else {
            r matches Err(e) && e@
                == "control directory must be a non-symlink directory owned by you with mode 0700"@
        },
{
    if !directory || owner != user || mode & 0o7777 != 0o700 {
        return Err(
            String::from_str(
                "control directory must be a non-symlink directory owned by you with mode 0700",
            ),
        );
    }
    Ok(())
}

/// The answer to a request for a terminal accepts it.
pub open spec fn accepts(reply: Json) -> bool {
    (member(reply, "v"@) matches Json::Unsigned(n) && n == 1) && text_at(reply, "status"@) == Some(
        "attached"@,
    )
}

/// Why a terminal does not come with an answer: one that was cut short or does not read,
/// one that refuses, and one that does not hold exactly one descriptor.
pub open spec fn attachment_refused(
    cut: bool,
    length: nat,
    reply: Result<Json, String>,
    descriptors: nat,
) -> Option<Seq<char>> {
    if cut || length > MAX_FRAME {
        Some("truncated attachment response"@)
    } else {
        match reply {
            Err(e) => Some(e@),
            Ok(v) => if !accepts(v) {
                match text_at(v, "message"@) {
                    Some(m) => Some(m),
                    None => Some("attachment failed"@),
                }
            } else if descriptors != 1 {
                Some("attachment did not provide exactly one terminal"@)
            } else {
                None
            },
        }
    }
}

/// Whether a terminal came with an answer of that length.
pub fn attached(cut: bool, length: usize, reply: &Result<Json, String>, descriptors: usize) -> (r:
    Result<(), String>)
    ensures
        match attachment_refused(cut, length as nat, *reply, descriptors as nat) {
            Some(e) => r matches Err(s) && s@ == e,
            None => r is Ok,
        },
{
    if cut || length > MAX_FRAME {
        return Err(String::from_str("truncated attachment response"));
    }
    let v: &Json = match reply {
        Err(e) => {
            return Err(e.clone());
        },
        Ok(v) => v,
    };
    let first = match v.get("v") {
        Some(n) => n.as_u64(),
        None => None,
    };
    let status = match text_member(v, "status") {
        Some(s) => same(s, "attached"),
        None => false,
    };
    let accepted = match first {
        Some(n) => n == 1 && status,
        None => false,
    };
    assert(accepted == accepts(*v));
    if !accepted {
        return match text_member(v, "message") {
            Some(m) => Err(String::from_str(m)),
            None => Err(String::from_str("attachment failed")),
        };
    }
    if descriptors != 1 {
        return Err(String::from_str("attachment did not provide exactly one terminal"));
    }
    Ok(())
}

/// A terminal is attached exactly where the whole answer came, says so, and brought one descriptor.
pub proof fn one_terminal_is_attached(
    cut: bool,
    length: nat,
    reply: Result<Json, String>,
    descriptors: nat,
)
    ensures
        attachment_refused(cut, length, reply, descriptors) is None <==> {
            &&& !cut
            &&& length <= MAX_FRAME
            &&& reply is Ok && accepts(reply->Ok_0)
            &&& descriptors == 1
        },
{
}

} // verus!
