//! The system calls that a payload may make, as the programs that the kernel runs to
//! decide: classic filter programs for x86_64, written out as bytes.
//!
//! Sockets of the local family stay allowed. What they can reach is limited by the
//! mounts and by the private network namespace.
use vstd::prelude::*;

use crate::text::same;

verus! {

/// One instruction of a filter program: what to do, how many instructions to pass
/// over where a test holds and where it does not, and its operand.
#[derive(Clone, Copy, Debug, PartialEq, Eq, Structural)]
pub struct Instruction {
    pub op: u16,
    pub yes: u8,
    pub no: u8,
    pub k: u32,
}

/// Load a word of the description of the system call.
pub const LOAD: u16 = 0x20;

/// Test whether the loaded word is the operand.
pub const EQUAL: u16 = 0x15;

/// Test whether the loaded word is at least the operand.
pub const AT_LEAST: u16 = 0x35;

/// Test whether the loaded word has a bit in common with the operand.
pub const COMMON: u16 = 0x45;

/// Decide by the operand.
pub const DECIDE: u16 = 0x06;

pub const X86_64: u32 = 0xC000_003E;

/// From here on the numbers belong to the other calling convention of the machine.
pub const X32: u32 = 0x4000_0000;

pub const KILL: u32 = 0x8000_0000;

/// The call fails with "operation not permitted".
pub const DENY: u32 = 0x0005_0001;

/// The call fails with "function not implemented".
pub const MISSING: u32 = 0x0005_0026;

pub const ALLOW: u32 = 0x7FFF_0000;

pub const CLONE: u32 = 56;

pub const UNSHARE: u32 = 272;

pub const CLONE3: u32 = 435;

/// The flags of `clone` that make a namespace.
pub const NAMESPACES: u32 = 0x7E02_0000;

/// The flag of `clone` and `unshare` that makes a namespace of control groups.
pub const CONTROL_GROUPS: u32 = 0x0200_0000;

/// A system call as a filter sees it.
pub struct Call {
    pub arch: u32,
    pub nr: u32,
    /// The low half of the first argument.
    pub flags: u32,
}

/// The word of a call's description that stands at an offset, of those that the
/// programs load.
pub open spec fn word(c: Call, offset: u32) -> Option<u32> {
    if offset == 0 {
        Some(c.nr)
    } else if offset == 4 {
        Some(c.arch)
    } else if offset == 16 {
        Some(c.flags)
    } else {
        None
    }
}

/// What a program decides about a call, from an instruction on and with a loaded
/// word. Nothing where the program runs out, loads another word or does anything
/// else.
pub open spec fn decides(code: Seq<Instruction>, pc: nat, loaded: u32, c: Call) -> Option<u32>
    decreases
            if pc < code.len() {
                code.len() - pc
            } else {
                0
            },
{
    if pc >= code.len() {
        None
    } else {
        let i = code[pc as int];
        if i.op == LOAD {
            match word(c, i.k) {
                Some(w) => decides(code, pc + 1, w, c),
                None => None,
            }
        } else if i.op == DECIDE {
            Some(i.k)
        } else if i.op == EQUAL || i.op == AT_LEAST || i.op == COMMON {
            if holds(i, loaded) {
                decides(code, pc + 1 + i.yes as nat, loaded, c)
            } else {
                decides(code, pc + 1 + i.no as nat, loaded, c)
            }
        } else {
            None
        }
    }
}

/// Whether an instruction's test holds of the loaded word.
pub open spec fn holds(i: Instruction, loaded: u32) -> bool {
    if i.op == EQUAL {
        loaded == i.k
    } else if i.op == AT_LEAST {
        loaded >= i.k
    } else {
        loaded & i.k != 0
    }
}

pub open spec fn ins(op: u16, yes: u8, no: u8, k: u32) -> Instruction {
    Instruction { op, yes, no, k }
}

/// The calls that no payload makes: those that change mounts, enter namespaces,
/// look into other processes or open files by handle.
pub open spec fn denied() -> Seq<u32> {
    seq![165, 166, 155, 272, 308, 428, 429, 430, 431, 432, 442, 101, 304]
}

/// What a payload's call is answered.
pub open spec fn payload_answer(c: Call) -> u32 {
    if c.arch != X86_64 {
        KILL
    } else if c.nr >= X32 {
        DENY
    } else if denied().contains(c.nr) {
        DENY
    } else if c.nr == CLONE3 {
        MISSING
    } else if c.nr == CLONE && c.flags & NAMESPACES != 0 {
        DENY
    } else {
        ALLOW
    }
}

/// What a call of the container engine is answered.
pub open spec fn docker_answer(c: Call) -> u32 {
    if c.arch != X86_64 {
        KILL
    } else if c.nr >= X32 {
        DENY
    } else if c.nr == CLONE3 {
        MISSING
    } else if (c.nr == CLONE || c.nr == UNSHARE) && c.flags & CONTROL_GROUPS != 0 {
        DENY
    } else {
        ALLOW
    }
}

/// The head of each program: other machines and conventions are turned away, and the
/// number of the call is loaded.
pub open spec fn head() -> Seq<Instruction> {
    seq![
        ins(LOAD, 0, 0, 4),
        ins(EQUAL, 1, 0, X86_64),
        ins(DECIDE, 0, 0, KILL),
        ins(LOAD, 0, 0, 0),
        ins(AT_LEAST, 0, 1, X32),
        ins(DECIDE, 0, 0, DENY),
    ]
}

/// Two instructions that answer one call.
pub open spec fn answered(nr: u32, answer: u32) -> Seq<Instruction> {
    seq![ins(EQUAL, 0, 1, nr), ins(DECIDE, 0, 0, answer)]
}

pub open spec fn all_denied(calls: Seq<u32>) -> Seq<Instruction>
    decreases calls.len(),
{
    if calls.len() == 0 {
        Seq::empty()
    } else {
        all_denied(calls.drop_last()) + answered(calls.last(), DENY)
    }
}

/// Five instructions that deny one call where its flags share a bit with some, and
/// allow it where they do not.
pub open spec fn by_flags(nr: u32, flags: u32) -> Seq<Instruction> {
    seq![
        ins(EQUAL, 0, 4, nr),
        ins(LOAD, 0, 0, 16),
        ins(COMMON, 0, 1, flags),
        ins(DECIDE, 0, 0, DENY),
        ins(DECIDE, 0, 0, ALLOW),
    ]
}

/// The program for a payload. `clone3` looks as if it did not exist: the caller falls
/// back on `clone`, whose flags can be seen.
pub open spec fn payload_program() -> Seq<Instruction> {
    head() + all_denied(denied()) + answered(CLONE3, MISSING) + by_flags(CLONE, NAMESPACES) + seq![
        ins(DECIDE, 0, 0, ALLOW),
    ]
}

/// The program for the container engine, which makes namespaces and mounts of its own.
/// It keeps the namespace of control groups that it was given.
pub open spec fn docker_program() -> Seq<Instruction> {
    head() + answered(CLONE3, MISSING) + by_flags(CLONE, CONTROL_GROUPS) + by_flags(
        UNSHARE,
        CONTROL_GROUPS,
    ) + seq![ins(DECIDE, 0, 0, ALLOW)]
}

/// An instruction as the kernel reads it: eight bytes, the least of each number first.
pub open spec fn bytes_of(i: Instruction) -> Seq<u8> {
    seq![
        (i.op % 256) as u8,
        (i.op / 256) as u8,
        i.yes,
        i.no,
        (i.k % 256) as u8,
        (i.k / 256 % 256) as u8,
        (i.k / 65536 % 256) as u8,
        (i.k / 16777216) as u8,
    ]
}

pub open spec fn encoded(code: Seq<Instruction>) -> Seq<u8>
    decreases code.len(),
{
    if code.len() == 0 {
        Seq::empty()
    } else {
        encoded(code.drop_last()) + bytes_of(code.last())
    }
}

/// The instruction that eight bytes hold.
pub open spec fn instruction_in(b: Seq<u8>) -> Instruction {
    Instruction {
        op: (b[0] + 256 * b[1]) as u16,
        yes: b[2],
        no: b[3],
        k: (b[4] + 256 * b[5] + 65536 * b[6] + 16777216 * b[7]) as u32,
    }
}

fn put(code: &mut Vec<Instruction>, op: u16, yes: u8, no: u8, k: u32)
    ensures
        final(code)@ == old(code)@.push(ins(op, yes, no, k)),
{
    code.push(Instruction { op, yes, no, k });
}

fn header(arch: &str) -> (r: Result<Vec<Instruction>, String>)
    ensures
        if arch@ == "x86_64"@ {
            r matches Ok(code) && code@ == head()
        } else {
            r matches Err(e) && e@ == "the syscall filter currently supports x86_64 only"@
        },
{
    if !same(arch, "x86_64") {
        return Err(String::from_str("the syscall filter currently supports x86_64 only"));
    }
    let mut code: Vec<Instruction> = Vec::new();
    put(&mut code, LOAD, 0, 0, 4);
    put(&mut code, EQUAL, 1, 0, X86_64);
    put(&mut code, DECIDE, 0, 0, KILL);
    put(&mut code, LOAD, 0, 0, 0);
    put(&mut code, AT_LEAST, 0, 1, X32);
    put(&mut code, DECIDE, 0, 0, DENY);
    assert(code@ =~= head());
    Ok(code)
}

fn put_answer(code: &mut Vec<Instruction>, nr: u32, answer: u32)
    ensures
        final(code)@ == old(code)@ + answered(nr, answer),
{
    put(code, EQUAL, 0, 1, nr);
    put(code, DECIDE, 0, 0, answer);
    assert(code@ =~= old(code)@ + answered(nr, answer));
}

fn put_by_flags(code: &mut Vec<Instruction>, nr: u32, flags: u32)
    ensures
        final(code)@ == old(code)@ + by_flags(nr, flags),
{
    put(code, EQUAL, 0, 4, nr);
    put(code, LOAD, 0, 0, 16);
    put(code, COMMON, 0, 1, flags);
    put(code, DECIDE, 0, 0, DENY);
    put(code, DECIDE, 0, 0, ALLOW);
    assert(code@ =~= old(code)@ + by_flags(nr, flags));
}

fn write_filter(code: &Vec<Instruction>) -> (r: Vec<u8>)
    ensures
        r@ == encoded(code@),
{
    let mut r: Vec<u8> = Vec::new();
    let mut n: usize = 0;
    while n < code.len()
        invariant
            n <= code@.len(),
            r@ == encoded(code@.take(n as int)),
        decreases code@.len() - n,
    {
        let i = code[n];
        let ghost before = r@;
        r.push((i.op % 256) as u8);
        r.push((i.op / 256) as u8);
        r.push(i.yes);
        r.push(i.no);
        r.push((i.k % 256) as u8);
        r.push((i.k / 256 % 256) as u8);
        r.push((i.k / 65536 % 256) as u8);
        r.push((i.k / 16777216) as u8);
        assert(r@ =~= before + bytes_of(i));
        assert(code@.take(n + 1).drop_last() =~= code@.take(n as int));
        n += 1;
    }
    assert(code@.take(n as int) =~= code@);
    r
}

/// The filter of a payload, for a machine.
pub fn filter(arch: &str) -> (r: Result<Vec<u8>, String>)
    ensures
        if arch@ == "x86_64"@ {
            r matches Ok(bytes) && bytes@ == encoded(payload_program())
        } else {
            r matches Err(e) && e@ == "the syscall filter currently supports x86_64 only"@
        },
{
    let mut code = header(arch)?;
    let calls: [u32; 13] = [165, 166, 155, 272, 308, 428, 429, 430, 431, 432, 442, 101, 304];
    let mut n: usize = 0;
    assert(calls@.take(0).len() == 0);
    assert(code@ =~= head() + all_denied(calls@.take(0)));
    while n < 13
        invariant
            n <= 13,
            calls@.len() == 13,
            code@ == head() + all_denied(calls@.take(n as int)),
        decreases 13 - n,
    {
        put_answer(&mut code, calls[n], DENY);
        assert(calls@.take(n + 1).drop_last() =~= calls@.take(n as int));
        assert(code@ =~= head() + all_denied(calls@.take(n + 1)));
        n += 1;
    }
    assert(calls@.take(13) =~= denied());
    put_answer(&mut code, CLONE3, MISSING);
    put_by_flags(&mut code, CLONE, NAMESPACES);
    put(&mut code, DECIDE, 0, 0, ALLOW);
    assert(code@ =~= payload_program());
    Ok(write_filter(&code))
}

/// The filter of the container engine, for a machine.
pub fn docker_filter(arch: &str) -> (r: Result<Vec<u8>, String>)
    ensures
        if arch@ == "x86_64"@ {
            r matches Ok(bytes) && bytes@ == encoded(docker_program())
        } else {
            r matches Err(e) && e@ == "the syscall filter currently supports x86_64 only"@
        },
{
    let mut code = header(arch)?;
    put_answer(&mut code, CLONE3, MISSING);
    put_by_flags(&mut code, CLONE, CONTROL_GROUPS);
    put_by_flags(&mut code, UNSHARE, CONTROL_GROUPS);
    put(&mut code, DECIDE, 0, 0, ALLOW);
    assert(code@ =~= docker_program());
    Ok(write_filter(&code))
}

/// A program stands at a place of another.
spec fn stands(code: Seq<Instruction>, at: int, part: Seq<Instruction>) -> bool {
    0 <= at && at + part.len() <= code.len() && forall|i: int|
        0 <= i < part.len() ==> #[trigger] code[at + i] == part[i]
}

proof fn lemma_head(code: Seq<Instruction>, c: Call)
    requires
        stands(code, 0, head()),
    ensures
        decides(code, 0, 0, c) == if c.arch != X86_64 {
            Some(KILL)
        } else if c.nr >= X32 {
            Some(DENY)
        } else {
            decides(code, 6, c.nr, c)
        },
{
    assert forall|i: int| 0 <= i < 6 implies #[trigger] code[i] == head()[i] by {
        assert(code[0 + i] == head()[i]);
    }
    assert(code[0] == head()[0]);
    assert(code[1] == head()[1]);
    assert(code[2] == head()[2]);
    assert(code[3] == head()[3]);
    assert(code[4] == head()[4]);
    assert(code[5] == head()[5]);
    reveal_with_fuel(decides, 7);
}

proof fn lemma_answered(code: Seq<Instruction>, at: nat, nr: u32, answer: u32, c: Call)
    requires
        stands(code, at as int, answered(nr, answer)),
    ensures
        decides(code, at, c.nr, c) == if c.nr == nr {
            Some(answer)
        } else {
            decides(code, at + 2, c.nr, c)
        },
{
    assert(code[at as int + 0] == answered(nr, answer)[0]);
    assert(code[at as int + 1] == answered(nr, answer)[1]);
    reveal_with_fuel(decides, 3);
}

proof fn lemma_by_flags(code: Seq<Instruction>, at: nat, nr: u32, flags: u32, c: Call)
    requires
        stands(code, at as int, by_flags(nr, flags)),
    ensures
        decides(code, at, c.nr, c) == if c.nr == nr {
            if c.flags & flags != 0 {
                Some(DENY)
            } else {
                Some(ALLOW)
            }
        } else {
            decides(code, at + 5, c.nr, c)
        },
{
    let part = by_flags(nr, flags);
    assert(code[at as int + 0] == part[0]);
    assert(code[at as int + 1] == part[1]);
    assert(code[at as int + 2] == part[2]);
    assert(code[at as int + 3] == part[3]);
    assert(code[at as int + 4] == part[4]);
    reveal_with_fuel(decides, 5);
}

proof fn lemma_all_denied(code: Seq<Instruction>, at: nat, calls: Seq<u32>, c: Call)
    requires
        stands(code, at as int, all_denied(calls)),
    ensures
        all_denied(calls).len() == 2 * calls.len(),
        decides(code, at, c.nr, c) == if calls.contains(c.nr) {
            Some(DENY)
        } else {
            decides(code, at + 2 * calls.len(), c.nr, c)
        },
    decreases calls.len(),
{
    if calls.len() > 0 {
        let some = calls.drop_last();
        assert forall|i: int| 0 <= i < all_denied(some).len() implies #[trigger] code[at + i]
            == all_denied(some)[i] by {
            assert(code[at + i] == all_denied(calls)[i]);
        }
        lemma_all_denied(code, at, some, c);
        let k = 2 * some.len();
        assert forall|i: int| 0 <= i < 2 implies #[trigger] code[at + k + i] == answered(
            calls.last(),
            DENY,
        )[i] by {
            assert(code[at + (k + i)] == all_denied(calls)[k + i]);
        }
        lemma_answered(code, at + k, calls.last(), DENY, c);
        assert(calls =~= some.push(calls.last()));
        if some.contains(c.nr) {
            let i = choose|i: int| 0 <= i < some.len() && some[i] == c.nr;
            assert(calls[i] == c.nr);
        } else if c.nr == calls.last() {
            assert(calls[calls.len() - 1] == c.nr);
        } else if calls.contains(c.nr) {
            let i = choose|i: int| 0 <= i < calls.len() && calls[i] == c.nr;
            assert(some[i] == c.nr);
        }
    }
}

/// A payload runs on one machine and by one convention, changes no mounts, enters and
/// makes no namespaces; everything else it may do.
pub proof fn a_payload_is_confined(c: Call)
    ensures
        decides(payload_program(), 0, 0, c) == Some(payload_answer(c)),
{
    let code = payload_program();
    lemma_denied_length(denied());
    assert(stands(code, 0, head()));
    lemma_head(code, c);
    assert forall|i: int| 0 <= i < 26 implies #[trigger] code[6 + i] == all_denied(denied())[i] by {}
    lemma_all_denied(code, 6, denied(), c);
    assert forall|i: int| 0 <= i < 2 implies #[trigger] code[32 + i] == answered(CLONE3, MISSING)[i] by {}
    lemma_answered(code, 32, CLONE3, MISSING, c);
    assert forall|i: int| 0 <= i < 5 implies #[trigger] code[34 + i] == by_flags(CLONE, NAMESPACES)[i] by {}
    lemma_by_flags(code, 34, CLONE, NAMESPACES, c);
    assert(code[39] == ins(DECIDE, 0, 0, ALLOW));
    assert(decides(code, 39, c.nr, c) == Some(ALLOW));
}

/// The container engine keeps the namespace of control groups that it was given: a
/// call that would make another is denied, in either form, and the form whose flags
/// cannot be seen does not exist.
pub proof fn docker_keeps_its_control_groups(c: Call)
    ensures
        decides(docker_program(), 0, 0, c) == Some(docker_answer(c)),
{
    let code = docker_program();
    assert(stands(code, 0, head()));
    lemma_head(code, c);
    assert forall|i: int| 0 <= i < 2 implies #[trigger] code[6 + i] == answered(CLONE3, MISSING)[i] by {}
    lemma_answered(code, 6, CLONE3, MISSING, c);
    assert forall|i: int| 0 <= i < 5 implies #[trigger] code[8 + i] == by_flags(CLONE, CONTROL_GROUPS)[i] by {}
    lemma_by_flags(code, 8, CLONE, CONTROL_GROUPS, c);
    assert forall|i: int| 0 <= i < 5 implies #[trigger] code[13 + i] == by_flags(UNSHARE, CONTROL_GROUPS)[i] by {}
    lemma_by_flags(code, 13, UNSHARE, CONTROL_GROUPS, c);
    assert(code[18] == ins(DECIDE, 0, 0, ALLOW));
    assert(decides(code, 18, c.nr, c) == Some(ALLOW));
}

proof fn lemma_denied_length(calls: Seq<u32>)
    ensures
        all_denied(calls).len() == 2 * calls.len(),
    decreases calls.len(),
{
    if calls.len() > 0 {
        lemma_denied_length(calls.drop_last());
    }
}

/// A payload's filter is the stricter one: what it allows, the container engine's
/// allows too.
pub proof fn the_payload_has_the_stricter_filter(c: Call)
    ensures
        payload_answer(c) == ALLOW ==> docker_answer(c) == ALLOW,
{
    let flags = c.flags;
    assert(flags & NAMESPACES == 0 ==> flags & CONTROL_GROUPS == 0) by {
        assert(flags & 0x7E02_0000 == 0 ==> flags & 0x0200_0000 == 0) by (bit_vector);
    }
    assert(denied()[3] == UNSHARE);
}

/// The kernel reads back each instruction of a program that was written out.
pub proof fn a_program_reads_back(code: Seq<Instruction>, n: int)
    requires
        0 <= n < code.len(),
    ensures
        encoded(code).len() == 8 * code.len(),
        instruction_in(encoded(code).subrange(8 * n, 8 * n + 8)) == code[n],
    decreases code.len(),
{
    let most = code.drop_last();
    if most.len() == 0 {
        assert(encoded(most).len() == 0);
    } else {
        a_program_reads_back(most, if n < most.len() { n } else { 0 });
    }
    if n < most.len() {
        assert(encoded(code).subrange(8 * n, 8 * n + 8) =~= encoded(most).subrange(
            8 * n,
            8 * n + 8,
        ));
    } else {
        let i = code.last();
        assert(encoded(code).subrange(8 * n, 8 * n + 8) =~= bytes_of(i));
        assert(i.op == i.op % 256 + 256 * (i.op / 256));
        let k = i.k;
        assert(k == k % 256 + 256 * (k / 256 % 256) + 65536 * (k / 65536 % 256) + 16777216 * (k
            / 16777216)) by {
            assert(k / 256 / 256 == k / 65536);
            assert(k / 65536 / 256 == k / 16777216);
        }
    }
}

} // verus!
