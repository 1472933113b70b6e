//! Passes over compiled bytecode: the opcode table, register allocation for
//! the counters and saved positions that loops use, and the analysis that
//! decides whether a quantified body needs an advance check.
use vstd::prelude::*;
use crate::opcodes::{RE_HEADER_LEN, read_u16, get_u16};

verus! {

/// Most registers a program may use: the count is one header byte.
pub const REGISTER_COUNT_MAX: i32 = 255;

/// Number of opcodes in the opcode table.
pub const REOP_COUNT: u8 = 45;

/// An entry of the opcode table: the size of the fixed part of an instruction.
#[derive(Clone, Copy, Debug, PartialEq, Eq, Structural)]
pub struct REOpCode {
    pub size: u8,
}

/// Size in bytes of the fixed part of instruction `op` (opcode and operands
/// of fixed width).
pub open spec fn base_size(op: u8) -> int {
    if op == 1 || op == 2 {
        3
    } else if op == 3 || op == 4 || 13 <= op <= 15 || op == 40 || op == 41 {
        5
    } else if op == 19 || op == 20 || 32 <= op <= 35 || op == 42 || op == 43 {
        2
    } else if op == 21 || 36 <= op <= 39 {
        3
    } else if op == 22 || op == 27 {
        6
    } else if 23 <= op <= 26 {
        10
    } else {
        1
    }
}

/// The opcode table entry of `op`.
pub fn reopcode_info(op: u8) -> (r: REOpCode)
    requires
        op < REOP_COUNT,
    ensures
        r.size == base_size(op),
{
    let size: u8 = if op == 1 || op == 2 {
        3
    } else if op == 3 || op == 4 || (13 <= op && op <= 15) || op == 40 || op == 41 {
        5
    } else if op == 19 || op == 20 || (32 <= op && op <= 35) || op == 42 || op == 43 {
        2
    } else if op == 21 || (36 <= op && op <= 39) {
        3
    } else if op == 22 || op == 27 {
        6
    } else if 23 <= op && op <= 26 {
        10
    } else {
        1
    };
    REOpCode { size }
}

/// Size of the whole instruction at `pos`: back references carry one byte
/// per group after their count, ranges 4 or 8 bytes per interval after theirs.
pub open spec fn full_size(code: Seq<u8>, pos: int) -> int {
    let op = code[pos];
    if 32 <= op <= 35 {
        2 + code[pos + 1]
    } else if op == 36 || op == 37 {
        3 + 4 * read_u16(code, pos + 1)
    } else if op == 38 || op == 39 {
        3 + 8 * read_u16(code, pos + 1)
    } else {
        base_size(op)
    }
}

/// Instructions that allocate a register: `set_i32` and `set_char_pos`.
pub open spec fn allocates(op: u8) -> bool {
    op == 27 || op == 42
}

/// Instructions that release one register: the plain loops and `check_advance`.
pub open spec fn releases_one(op: u8) -> bool {
    22 <= op <= 24 || op == 43
}

/// Instructions that release two registers: the loops with an advance check.
pub open spec fn releases_two(op: u8) -> bool {
    op == 25 || op == 26
}

/// Register allocation over a bytecode body from `pos`, with `stack`
/// registers in use and `max` the most in use so far. Each allocating or
/// releasing instruction gets the register index it uses in its first
/// operand byte. The result is the rewritten body and the number of
/// registers needed, or -1 when more than `REGISTER_COUNT_MAX` would be;
/// `None` where the walk meets an unknown opcode, an instruction cut short
/// by the end of the body, or a release with too few registers in use.
pub open spec fn reg_walk(body: Seq<u8>, pos: int, stack: int, max: int) -> Option<(Seq<u8>, int)>
    decreases body.len() - pos,
{
    if pos < 0 || pos >= body.len() {
        Some((body, max))
    } else if body[pos] >= REOP_COUNT || pos + base_size(body[pos]) > body.len() {
        None
    } else {
        let op = body[pos];
        let next = if pos + full_size(body, pos) >= body.len() {
            body.len() as int
        } else {
            pos + full_size(body, pos)
        };
        proof {
            lemma_full_size_positive(body, pos);
        }
        if allocates(op) {
            let b = body.update(pos + 1, stack as u8);
            if stack + 1 > max && stack + 1 > REGISTER_COUNT_MAX {
                Some((b, -1))
            } else {
                reg_walk(b, next, stack + 1, if stack + 1 > max { stack + 1 } else { max })
            }
        } else if releases_one(op) {
            if stack < 1 {
                None
            } else {
                reg_walk(body.update(pos + 1, (stack - 1) as u8), next, stack - 1, max)
            }
        } else if releases_two(op) {
            if stack < 2 {
                None
            } else {
                reg_walk(body.update(pos + 1, (stack - 2) as u8), next, stack - 2, max)
            }
        } else {
            reg_walk(body, next, stack, max)
        }
    }
}

/// Every instruction whose fixed part fits takes at least one byte.
pub proof fn lemma_full_size_positive(body: Seq<u8>, pos: int)
    requires
        0 <= pos < body.len(),
        pos + base_size(body[pos]) <= body.len(),
    ensures
        full_size(body, pos) >= 1,
{
}

/// The register count covers what allocation assigns: every byte the walk
/// rewrites holds a register index below the count it returns, and the
/// count is at least the most registers in use before.
pub proof fn lemma_reg_walk_indices_below_count(body: Seq<u8>, pos: int, stack: int, max: int)
    requires
        0 <= stack <= max <= REGISTER_COUNT_MAX,
        reg_walk(body, pos, stack, max) is Some,
        reg_walk(body, pos, stack, max).unwrap().1 >= 0,
    ensures
        ({
            let (b2, r) = reg_walk(body, pos, stack, max).unwrap();
            &&& b2.len() == body.len()
            &&& r >= max
            &&& forall|k: int| 0 <= k < body.len() && b2[k] != body[k] ==> b2[k] < r
        }),
    decreases body.len() - pos,
{
    if 0 <= pos < body.len() && body[pos] < REOP_COUNT && pos + base_size(body[pos]) <= body.len() {
        let op = body[pos];
        lemma_full_size_positive(body, pos);
        let next = if pos + full_size(body, pos) >= body.len() {
            body.len() as int
        } else {
            pos + full_size(body, pos)
        };
        if allocates(op) {
            let b = body.update(pos + 1, stack as u8);
            if !(stack + 1 > max && stack + 1 > REGISTER_COUNT_MAX) {
                let m2 = if stack + 1 > max { stack + 1 } else { max };
                lemma_reg_walk_indices_below_count(b, next, stack + 1, m2);
            }
        } else if releases_one(op) {
            if stack >= 1 {
                let b = body.update(pos + 1, (stack - 1) as u8);
                lemma_reg_walk_indices_below_count(b, next, stack - 1, max);
            }
        } else if releases_two(op) {
            if stack >= 2 {
                let b = body.update(pos + 1, (stack - 2) as u8);
                lemma_reg_walk_indices_below_count(b, next, stack - 2, max);
            }
        } else {
            lemma_reg_walk_indices_below_count(body, next, stack, max);
        }
    }
}

/// Register allocation over a whole program (header, then body): the program
/// with its register operands filled in and the register count (-1 when too
/// many), or `None` when the body is malformed. A buffer shorter than the
/// header has no body and needs no register.
pub open spec fn register_allocation(bc: Seq<u8>) -> Option<(Seq<u8>, int)> {
    if bc.len() < RE_HEADER_LEN {
        Some((bc, 0))
    } else {
        match reg_walk(bc.subrange(RE_HEADER_LEN as int, bc.len() as int), 0, 0, 0) {
            Some((body, r)) => Some((bc.subrange(0, RE_HEADER_LEN as int) + body, r)),
            None => None,
        }
    }
}

/// At the level of a whole program: allocation keeps the header and the
/// length, and every byte it rewrites is a register index below the count.
pub proof fn lemma_register_allocation_indices(bc: Seq<u8>)
    requires
        register_allocation(bc) is Some,
        register_allocation(bc).unwrap().1 >= 0,
    ensures
        ({
            let (b2, r) = register_allocation(bc).unwrap();
            &&& b2.len() == bc.len()
            &&& bc.len() >= RE_HEADER_LEN ==> b2.subrange(0, RE_HEADER_LEN as int) == bc.subrange(0, RE_HEADER_LEN as int)
            &&& forall|k: int| 0 <= k < bc.len() && b2[k] != bc[k] ==> b2[k] < r
        }),
{
    if bc.len() >= RE_HEADER_LEN {
        let body = bc.subrange(RE_HEADER_LEN as int, bc.len() as int);
        lemma_reg_walk_indices_below_count(body, 0, 0, 0);
        let (b2, r) = register_allocation(bc).unwrap();
        let (nb, _) = reg_walk(body, 0, 0, 0).unwrap();
        assert(b2 == bc.subrange(0, RE_HEADER_LEN as int) + nb);
        assert(b2.subrange(0, RE_HEADER_LEN as int) =~= bc.subrange(0, RE_HEADER_LEN as int));
        assert forall|k: int| 0 <= k < bc.len() && b2[k] != bc[k] implies b2[k] < r by {
            if k >= RE_HEADER_LEN {
                assert(b2[k] == nb[k - RE_HEADER_LEN]);
                assert(bc[k] == body[k - RE_HEADER_LEN]);
            }
        }
    }
}

/// Size of the whole instruction at `pos` of the body that starts at `start`
/// in `code`, whose fixed part lies in that body.
fn instruction_len(code: &[u8], start: usize, pos: usize) -> (r: usize)
    requires
        start <= code@.len(),
        pos < code@.len() - start,
        code@[start + pos] < REOP_COUNT,
        pos + base_size(code@[start + pos]) <= code@.len() - start,
    ensures
        r == full_size(code@.subrange(start as int, code@.len() as int), pos as int),
{
    let ghost body = code@.subrange(start as int, code@.len() as int);
    let n = code.len();
    assert(start + pos < n);
    let at = start + pos;
    let op = code[at];
    let base = reopcode_info(op).size as usize;
    assert(body[pos as int] == op);
    if 32 <= op && op <= 35 {
        assert(body[pos + 1] == code@[at + 1]);
        base + code[at + 1] as usize
    } else if op == 36 || op == 37 {
        assert(body[pos + 1] == code@[at + 1] && body[pos + 2] == code@[at + 2]);
        base + 4 * (get_u16(code, at + 1) as usize)
    } else if op == 38 || op == 39 {
        assert(body[pos + 1] == code@[at + 1] && body[pos + 2] == code@[at + 2]);
        base + 8 * (get_u16(code, at + 1) as usize)
    } else {
        base
    }
}

/// Allocate the registers of a compiled program: fill in the register
/// operand of each allocating and releasing instruction and return the
/// number of registers the program needs, or -1 when it needs more than
/// `REGISTER_COUNT_MAX`.
pub fn compute_register_count(bc: &mut Vec<u8>) -> (r: i32)
    requires
        register_allocation(old(bc)@) is Some,
    ensures
        register_allocation(old(bc)@) == Some((final(bc)@, r as int)),
{
    let n = bc.len();
    if n < RE_HEADER_LEN {
        return 0;
    }
    let ghost hdr = old(bc)@.subrange(0, RE_HEADER_LEN as int);
    let ghost body0 = old(bc)@.subrange(RE_HEADER_LEN as int, n as int);
    let blen = n - RE_HEADER_LEN;
    let mut pos: usize = 0;
    let mut stack: i32 = 0;
    let mut max: i32 = 0;
    while pos < blen
        invariant
            bc@.len() == n,
            old(bc)@.len() == n,
            n >= RE_HEADER_LEN,
            blen == n - RE_HEADER_LEN,
            pos <= blen,
            bc@.subrange(0, RE_HEADER_LEN as int) == hdr,
            body0 == old(bc)@.subrange(RE_HEADER_LEN as int, n as int),
            hdr == old(bc)@.subrange(0, RE_HEADER_LEN as int),
            0 <= stack <= max <= REGISTER_COUNT_MAX,
            reg_walk(body0, 0, 0, 0) is Some,
            reg_walk(bc@.subrange(RE_HEADER_LEN as int, n as int), pos as int, stack as int, max as int)
                == reg_walk(body0, 0, 0, 0),
        decreases blen - pos,
    {
        let ghost cur = bc@.subrange(RE_HEADER_LEN as int, n as int);
        let ghost (s0, m0) = (stack as int, max as int);
        let len = instruction_len(bc.as_slice(), RE_HEADER_LEN, pos);
        let op = bc[RE_HEADER_LEN + pos];
        assert(op == cur[pos as int]);
        if op == 27 || op == 42 {
            bc.set(RE_HEADER_LEN + pos + 1, stack as u8);
            assert(bc@.subrange(RE_HEADER_LEN as int, n as int) =~= cur.update(pos + 1, stack as u8));
            assert(bc@.subrange(0, RE_HEADER_LEN as int) =~= hdr);
            stack = stack + 1;
            if stack > max {
                if stack > REGISTER_COUNT_MAX {
                    assert(reg_walk(cur, pos as int, s0, m0) == Some(
                        (bc@.subrange(RE_HEADER_LEN as int, n as int), -1int),
                    ));
                    assert(bc@ =~= hdr + bc@.subrange(RE_HEADER_LEN as int, n as int));
                    return -1;
                }
                max = stack;
            }
        } else if (22 <= op && op <= 24) || op == 43 {
            stack = stack - 1;
            bc.set(RE_HEADER_LEN + pos + 1, stack as u8);
            assert(bc@.subrange(RE_HEADER_LEN as int, n as int) =~= cur.update(pos + 1, stack as u8));
            assert(bc@.subrange(0, RE_HEADER_LEN as int) =~= hdr);
        } else if op == 25 || op == 26 {
            stack = stack - 2;
            bc.set(RE_HEADER_LEN + pos + 1, stack as u8);
            assert(bc@.subrange(RE_HEADER_LEN as int, n as int) =~= cur.update(pos + 1, stack as u8));
            assert(bc@.subrange(0, RE_HEADER_LEN as int) =~= hdr);
        }
        if len >= blen - pos {
            pos = blen;
        } else {
            pos = pos + len;
        }
    }
    assert(bc@ =~= hdr + bc@.subrange(RE_HEADER_LEN as int, n as int));
    max
}

/// Instructions that consume a character: the character tests, `dot`,
/// `any` and the space classes.
pub open spec fn consumes(op: u8) -> bool {
    1 <= op <= 8
}

/// Instructions that neither consume a character nor change the control
/// flow: the anchors, the capture saves, `set_i32`, `set_char_pos`, the
/// word-boundary tests and `prev`.
pub open spec fn transparent(op: u8) -> bool {
    9 <= op <= 12 || 19 <= op <= 21 || 27 <= op <= 31 || op == 42 || op == 44
}

/// The advance and capture analysis of the body of a quantified atom, from
/// `pos`, with `adv` and `init` the answers so far: `adv` stays true until an
/// instruction that consumes a character (a test, a class or a range) is
/// met; `init` becomes true at a back reference, and at any other
/// instruction (a jump, a split, a loop, a lookahead), where the walk stops.
/// `None` where the walk meets an unknown opcode or a back reference or range
/// whose count lies past the end.
pub open spec fn adv_walk(code: Seq<u8>, pos: int, adv: bool, init: bool) -> Option<(bool, bool)>
    decreases code.len() - pos,
{
    if pos < 0 || pos >= code.len() {
        Some((adv, init))
    } else {
        let op = code[pos];
        let next = if pos + full_size(code, pos) >= code.len() {
            code.len() as int
        } else {
            pos + full_size(code, pos)
        };
        if op >= REOP_COUNT || pos + base_size(op) > code.len() {
            None
        } else if 36 <= op <= 39 {
            adv_walk(code, next, false, init)
        } else if consumes(op) {
            adv_walk(code, next, false, init)
        } else if transparent(op) {
            adv_walk(code, next, adv, init)
        } else if 32 <= op <= 35 {
            adv_walk(code, next, adv, true)
        } else {
            Some((adv, true))
        }
    }
}

/// Analyse the body of a quantified atom: the result says whether the body
/// may match without consuming a character (so a loop around it must check
/// that each iteration advances), and `pneed_capture_init` whether the
/// captures inside it must be reset at each iteration.
pub fn re_need_check_adv_and_capture_init(pneed_capture_init: &mut bool, bc_buf: &[u8]) -> (r: bool)
    requires
        adv_walk(bc_buf@, 0, true, false) is Some,
    ensures
        adv_walk(bc_buf@, 0, true, false) == Some((r, *final(pneed_capture_init))),
{
    let n = bc_buf.len();
    let mut need_check_adv = true;
    let mut need_capture_init = false;
    let mut pos: usize = 0;
    while pos < n
        invariant_except_break
            adv_walk(bc_buf@, pos as int, need_check_adv, need_capture_init)
                == adv_walk(bc_buf@, 0, true, false),
        invariant
            n == bc_buf@.len(),
            pos <= n,
            adv_walk(bc_buf@, 0, true, false) is Some,
        ensures
            adv_walk(bc_buf@, 0, true, false) == Some((need_check_adv, need_capture_init)),
        decreases n - pos,
    {
        let op = bc_buf[pos];
        proof {
            lemma_full_size_positive(bc_buf@, pos as int);
        }
        let len = instruction_len(bc_buf, 0, pos);
        assert(bc_buf@.subrange(0, n as int) =~= bc_buf@);
        if 36 <= op && op <= 39 {
            need_check_adv = false;
        } else if 1 <= op && op <= 8 {
            need_check_adv = false;
        } else if (9 <= op && op <= 12) || (19 <= op && op <= 21) || (27 <= op && op <= 31) || op == 42
            || op == 44 {
        } else if 32 <= op && op <= 35 {
            need_capture_init = true;
        } else {
            need_capture_init = true;
            break;
        }
        if len >= n - pos {
            pos = n;
        } else {
            pos = pos + len;
        }
    }
    *pneed_capture_init = need_capture_init;
    need_check_adv
}

} // verus!
