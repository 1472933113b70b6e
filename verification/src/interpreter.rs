//! A backtracking interpreter for QuickJS regex bytecode over UTF-8 text.
//!
//! `run` is the meaning of a program: what running it from a given
//! instruction, text position and capture state gives, within a budget of
//! steps. The executable interpreter is proved to compute exactly that.
use vstd::prelude::*;
use crate::charclass::{in_iv, space_iv};
use crate::opcodes::{read_u16, read_u32, read_i32, RE_HEADER_LEN, get_u16, get_u32};

verus! {

/// What running a program from some state gives.
pub ghost enum Outcome {
    /// A `match` was reached, at this text position with these captures.
    Success { pos: int, caps: Seq<Option<usize>> },
    /// Every alternative failed.
    Failure,
    /// The step budget ran out first.
    OutOfSteps,
}

/// Whether `b` continues a UTF-8 sequence.
pub open spec fn is_cont(b: u8) -> bool {
    0x80 <= b < 0xC0
}

/// The character at byte position `pos` of UTF-8 text, and its length in
/// bytes. A byte that does not start a well-formed sequence is read as the
/// character with its own value.
pub open spec fn decode(t: Seq<u8>, pos: int) -> Option<(u32, int)> {
    if !(0 <= pos < t.len()) {
        None
    } else {
        let b0 = t[pos];
        if b0 < 0x80 {
            Some((b0 as u32, 1))
        } else if 0xC0 <= b0 < 0xE0 && pos + 1 < t.len() && is_cont(t[pos + 1]) {
            Some((((b0 - 0xC0) * 64 + (t[pos + 1] - 0x80)) as u32, 2))
        } else if 0xE0 <= b0 < 0xF0 && pos + 2 < t.len() && is_cont(t[pos + 1]) && is_cont(
            t[pos + 2],
        ) {
            Some(
                (((b0 - 0xE0) * 4096 + (t[pos + 1] - 0x80) * 64 + (t[pos + 2] - 0x80)) as u32, 3),
            )
        } else if 0xF0 <= b0 < 0xF8 && pos + 3 < t.len() && is_cont(t[pos + 1]) && is_cont(
            t[pos + 2],
        ) && is_cont(t[pos + 3]) {
            Some(
                (
                    ((b0 - 0xF0) * 262144 + (t[pos + 1] - 0x80) * 4096 + (t[pos + 2] - 0x80) * 64
                        + (t[pos + 3] - 0x80)) as u32,
                    4,
                ),
            )
        } else {
            Some((b0 as u32, 1))
        }
    }
}

/// Line terminators: `\n`, `\r`, U+2028 and U+2029.
pub open spec fn is_line_terminator(c: u32) -> bool {
    c == 10 || c == 13 || c == 0x2028 || c == 0x2029
}

/// Whether a line terminator ends just before byte position `pos`.
pub open spec fn line_terminator_before(t: Seq<u8>, pos: int) -> bool {
    ||| (1 <= pos <= t.len() && (t[pos - 1] == 10 || t[pos - 1] == 13))
    ||| (3 <= pos <= t.len() && t[pos - 3] == 0xE2 && t[pos - 2] == 0x80 && (t[pos - 1] == 0xA8
        || t[pos - 1] == 0xA9))
}

/// ASCII lower case.
pub open spec fn to_lower(c: u32) -> u32 {
    if 65 <= c <= 90 {
        (c + 32) as u32
    } else {
        c
    }
}

/// ASCII upper case.
pub open spec fn to_upper(c: u32) -> u32 {
    if 97 <= c <= 122 {
        (c - 32) as u32
    } else {
        c
    }
}

/// ASCII word bytes `[0-9A-Za-z_]`.
pub open spec fn is_word_byte(b: u8) -> bool {
    (48 <= b <= 57) || (65 <= b <= 90) || (97 <= b <= 122) || b == 95
}

/// Whether byte position `pos` is at a word boundary.
pub open spec fn at_word_boundary(t: Seq<u8>, pos: int) -> bool {
    let before = 1 <= pos <= t.len() && is_word_byte(t[pos - 1]);
    let after = 0 <= pos < t.len() && is_word_byte(t[pos]);
    before != after
}

/// Whether `c` lies in one of the `n` intervals stored from `start` on,
/// with bounds of `w` bytes (2 or 4).
pub open spec fn in_stored_ranges(bc: Seq<u8>, start: int, n: int, w: int, c: u32) -> bool {
    exists|k: int|
        0 <= k < n && #[trigger] read_bound(bc, start + 2 * w * k, w) <= c && c <= read_bound(
            bc,
            start + 2 * w * k + w,
            w,
        )
}

/// An interval bound of `w` bytes.
pub open spec fn read_bound(bc: Seq<u8>, p: int, w: int) -> int {
    if w == 2 {
        read_u16(bc, p)
    } else {
        read_u32(bc, p)
    }
}

/// Case-insensitive class membership: the character or one of its ASCII
/// case variants is in the class.
pub open spec fn in_stored_ranges_i(bc: Seq<u8>, start: int, n: int, w: int, c: u32) -> bool {
    in_stored_ranges(bc, start, n, w, c) || in_stored_ranges(bc, start, n, w, to_lower(c))
        || in_stored_ranges(bc, start, n, w, to_upper(c))
}

/// Whether the `len` bytes at `a` equal those at `b` (ASCII case folded when
/// `ic`).
pub open spec fn same_bytes(t: Seq<u8>, a: int, b: int, len: int, ic: bool) -> bool {
    forall|k: int|
        0 <= k < len ==> if ic {
            to_lower(#[trigger] t[a + k] as u32) == to_lower(t[b + k] as u32)
        } else {
            #[trigger] t[a + k] == t[b + k]
        }
}

/// Where a back reference to capture slots `s`..`e` leads from `pos`: the
/// position after the repeated text, or `None` when the text does not
/// repeat there. An unset or empty group matches the empty string.
pub open spec fn backref_end(
    t: Seq<u8>,
    caps: Seq<Option<usize>>,
    g: int,
    pos: int,
    ic: bool,
) -> Option<int> {
    match (caps[2 * g], caps[2 * g + 1]) {
        (Some(s), Some(e)) => if s >= e {
            Some(pos)
        } else if e <= t.len() && 0 <= pos && pos + (e - s) <= t.len() && same_bytes(
            t,
            s as int,
            pos,
            e - s,
            ic,
        ) {
            Some(pos + (e - s))
        } else {
            None
        },
        _ => Some(pos),
    }
}

/// Where a back reference to the `n` groups listed at `first` leads from
/// `pos`, looking from the `i`-th on: the first of them that is set is
/// repeated; when none is set the empty string matches. A group number that
/// the program does not declare fails.
pub open spec fn backref_groups(
    bc: Seq<u8>,
    t: Seq<u8>,
    caps: Seq<Option<usize>>,
    first: int,
    n: int,
    i: int,
    pos: int,
    ic: bool,
    back: bool,
) -> Option<int>
    decreases n - i,
{
    if i >= n {
        Some(pos)
    } else {
        let g = bc[first + i] as int;
        if g >= bc[2] || 2 * g + 1 >= caps.len() {
            None
        } else {
            match (caps[2 * g], caps[2 * g + 1]) {
                (Some(_), Some(_)) => if back {
                    backref_start(t, caps, g, pos, ic)
                } else {
                    backref_end(t, caps, g, pos, ic)
                },
                _ => backref_groups(bc, t, caps, first, n, i + 1, pos, ic, back),
            }
        }
    }
}

/// Where a backward back reference to group `g` leads from `pos`: the
/// position before the repeated text when the text just before `pos`
/// repeats the group, else `None`. An unset or empty group matches the
/// empty string.
pub open spec fn backref_start(
    t: Seq<u8>,
    caps: Seq<Option<usize>>,
    g: int,
    pos: int,
    ic: bool,
) -> Option<int> {
    match (caps[2 * g], caps[2 * g + 1]) {
        (Some(s), Some(e)) => if s >= e {
            Some(pos)
        } else if e <= t.len() && pos <= t.len() && e - s <= pos && same_bytes(
            t,
            s as int,
            pos - (e - s),
            e - s,
            ic,
        ) {
            Some(pos - (e - s))
        } else {
            None
        },
        _ => Some(pos),
    }
}

/// Whether the character read at `q` is `l` bytes long.
pub open spec fn decodes_with_len(t: Seq<u8>, q: int, l: int) -> bool {
    match decode(t, q) {
        Some((_, m)) => m == l,
        None => false,
    }
}

/// Where the character that ends at `pos` starts: the farthest of the four
/// bytes before `pos` whose character ends exactly there, else one byte
/// back.
pub open spec fn prev_char_start(t: Seq<u8>, pos: int) -> int {
    if pos >= 4 && decodes_with_len(t, pos - 4, 4) {
        pos - 4
    } else if pos >= 3 && decodes_with_len(t, pos - 3, 3) {
        pos - 3
    } else if pos >= 2 && decodes_with_len(t, pos - 2, 2) {
        pos - 2
    } else {
        pos - 1
    }
}

/// One step of an instruction that does not branch: the next instruction,
/// text position and captures, or `None` when the instruction fails here.
pub open spec fn step(bc: Seq<u8>, t: Seq<u8>, pc: int, pos: int, caps: Seq<Option<usize>>) -> Option<
    (int, int, Seq<Option<usize>>),
> {
    let op = bc[pc];
    let len = bc.len();
    if op == 1 || op == 2 || op == 3 || op == 4 {
        // char, char_i, char32, char32_i
        let w = if op <= 2 {
            2int
        } else {
            4int
        };
        if pc + 1 + w > len {
            None
        } else {
            let v = read_bound(bc, pc + 1, w);
            match decode(t, pos) {
                Some((c, l)) => if (op == 1 || op == 3) && c == v || (op == 2 || op == 4) && to_lower(
                    c,
                ) == to_lower(v as u32) {
                    Some((pc + 1 + w, pos + l, caps))
                } else {
                    None
                },
                None => None,
            }
        }
    } else if op == 5 || op == 6 || op == 7 || op == 8 {
        // dot, any, space, not_space
        match decode(t, pos) {
            Some((c, l)) => if op == 6 || op == 5 && !is_line_terminator(c) || op == 7 && in_iv(
                space_iv(),
                c as int,
            ) || op == 8 && !in_iv(space_iv(), c as int) {
                Some((pc + 1, pos + l, caps))
            } else {
                None
            },
            None => None,
        }
    } else if op == 9 || op == 10 || op == 11 || op == 12 {
        // line_start, line_start_m, line_end, line_end_m
        let ok = if op == 9 {
            pos == 0
        } else if op == 10 {
            pos == 0 || line_terminator_before(t, pos)
        } else if op == 11 {
            pos == t.len()
        } else {
            pos == t.len() || match decode(t, pos) {
                Some((c, _)) => is_line_terminator(c),
                None => false,
            }
        };
        if ok {
            Some((pc + 1, pos, caps))
        } else {
            None
        }
    } else if op == 13 {
        // goto
        if pc + 5 > len {
            None
        } else {
            Some((pc + 5 + read_i32(bc, pc + 1), pos, caps))
        }
    } else if op == 19 || op == 20 {
        // save_start, save_end
        if pc + 2 > len {
            None
        } else {
            let slot = 2 * bc[pc + 1] + if op == 19 {
                0int
            } else {
                1int
            };
            if slot < caps.len() {
                Some((pc + 2, pos, caps.update(slot, Some(pos as usize))))
            } else {
                None
            }
        }
    } else if op == 28 || op == 29 || op == 30 || op == 31 {
        // word_boundary(_i), not_word_boundary(_i)
        if at_word_boundary(t, pos) == (op <= 29) {
            Some((pc + 1, pos, caps))
        } else {
            None
        }
    } else if op == 32 || op == 33 {
        // back_reference(_i) to the groups listed after the count
        if pc + 2 > len || pc + 2 + bc[pc + 1] > len || bc.len() < RE_HEADER_LEN {
            None
        } else {
            match backref_groups(bc, t, caps, pc + 2, bc[pc + 1] as int, 0, pos, op == 33, false) {
                Some(q) => Some((pc + 2 + bc[pc + 1], q, caps)),
                None => None,
            }
        }
    } else if op == 34 || op == 35 {
        // backward_back_reference(_i): the same, matching backward
        if pc + 2 > len || pc + 2 + bc[pc + 1] > len || bc.len() < RE_HEADER_LEN {
            None
        } else {
            match backref_groups(bc, t, caps, pc + 2, bc[pc + 1] as int, 0, pos, op == 35, true) {
                Some(q) => Some((pc + 2 + bc[pc + 1], q, caps)),
                None => None,
            }
        }
    } else if op == 44 {
        // prev: step back over one character
        if pos <= 0 || pos > t.len() {
            None
        } else {
            Some((pc + 1, prev_char_start(t, pos), caps))
        }
    } else if op == 36 || op == 37 || op == 38 || op == 39 {
        // range(_i), range32(_i)
        let w = if op <= 37 {
            2int
        } else {
            4int
        };
        if pc + 3 > len {
            None
        } else {
            let n = read_u16(bc, pc + 1);
            let end = pc + 3 + 2 * w * n;
            if end > len {
                None
            } else {
                match decode(t, pos) {
                    Some((c, l)) => if (op == 36 || op == 38) && in_stored_ranges(bc, pc + 3, n, w, c)
                        || (op == 37 || op == 39) && in_stored_ranges_i(bc, pc + 3, n, w, c) {
                        Some((end, pos + l, caps))
                    } else {
                        None
                    },
                    None => None,
                }
            }
        }
    } else if op == 21 {
        // save_reset: unset the groups from bc[pc+1] to bc[pc+2]
        if pc + 3 > len || bc.len() < RE_HEADER_LEN || bc[pc + 2] >= bc[2] || 2 * bc[pc + 2] + 1
            >= caps.len() {
            None
        } else {
            Some((pc + 3, pos, reset_groups(caps, bc[pc + 1] as int, bc[pc + 2] as int)))
        }
    } else if op == 27 || op == 42 || op == 43 || op == 22 {
        // set_i32, set_char_pos, check_advance, loop: on register bc[pc+1]
        let size = if op == 27 || op == 22 {
            6int
        } else {
            2int
        };
        if pc + size > len || bc.len() < RE_HEADER_LEN || reg_slot(bc, bc[pc + 1] as int)
            >= caps.len() {
            None
        } else {
            let idx = reg_slot(bc, bc[pc + 1] as int);
            if op == 27 {
                Some((pc + 6, pos, caps.update(idx, Some(read_u32(bc, pc + 2) as usize))))
            } else if op == 42 {
                Some((pc + 2, pos, caps.update(idx, Some(pos as usize))))
            } else if op == 43 {
                if caps[idx] == Some(pos as usize) {
                    None
                } else {
                    Some((pc + 2, pos, caps))
                }
            } else {
                let v = counter_dec(caps[idx]);
                let caps1 = caps.update(idx, Some(v as usize));
                if v != 0 {
                    Some((pc + 6 + read_i32(bc, pc + 2), pos, caps1))
                } else {
                    Some((pc + 6, pos, caps1))
                }
            }
        }
    } else {
        // instructions this interpreter does not run
        None
    }
}

/// The slot of register `r`: registers follow the two slots of each group.
pub open spec fn reg_slot(bc: Seq<u8>, r: int) -> int {
    2 * bc[2] + r
}

/// The captures with groups `a` to `b` unset.
pub open spec fn reset_groups(caps: Seq<Option<usize>>, a: int, b: int) -> Seq<Option<usize>> {
    Seq::new(caps.len(), |k: int| if 2 * a <= k <= 2 * b + 1 { None } else { caps[k] })
}

/// A loop counter decremented: the register's low 32 bits minus one,
/// wrapping (an unset register counts as 0).
pub open spec fn counter_dec(o: Option<usize>) -> u32 {
    let v: u32 = match o {
        Some(x) => x as u32,
        None => 0,
    };
    if v == 0 {
        0xffff_ffff
    } else {
        (v - 1) as u32
    }
}

/// The outcome of running `bc` on text `t` from instruction `pc`, text
/// position `pos` and captures `caps`, with at most `fuel` steps, and the
/// steps left over. Every instruction executed takes one step; running out
/// of them gives up. Splits try their ways depth first in their order.
pub open spec fn run(
    bc: Seq<u8>,
    t: Seq<u8>,
    pc: int,
    pos: int,
    caps: Seq<Option<usize>>,
    fuel: nat,
) -> (Outcome, nat)
    decreases fuel,
{
    if fuel == 0 {
        (Outcome::OutOfSteps, 0)
    } else if !(0 <= pc < bc.len()) {
        (Outcome::Failure, (fuel - 1) as nat)
    } else {
        let f = (fuel - 1) as nat;
        let op = bc[pc];
        if op == 14 || op == 15 {
            // split_goto_first, split_next_first: try one branch, then the other
            if pc + 5 > bc.len() {
                (Outcome::Failure, f)
            } else {
                let jump = pc + 5 + read_i32(bc, pc + 1);
                let next = pc + 5;
                let (first, second) = if op == 14 {
                    (jump, next)
                } else {
                    (next, jump)
                };
                let (r1, f1) = run(bc, t, first, pos, caps, f);
                match r1 {
                    Outcome::Failure => run(
                        bc,
                        t,
                        second,
                        pos,
                        caps,
                        if f1 <= f {
                            f1
                        } else {
                            f
                        },
                    ),
                    _ => (r1, f1),
                }
            }
        } else if op == 16 || op == 17 || op == 18 {
            // match, lookahead_match, negative_lookahead_match
            (Outcome::Success { pos, caps }, f)
        } else if op == 40 || op == 41 {
            // lookahead, negative_lookahead: run the body on its own, then
            // go on after it at the same position
            if pc + 5 > bc.len() {
                (Outcome::Failure, f)
            } else {
                let after = pc + 5 + read_i32(bc, pc + 1);
                let (r1, f1) = run(bc, t, pc + 5, pos, caps, f);
                let f2 = if f1 <= f {
                    f1
                } else {
                    f
                };
                match r1 {
                    Outcome::OutOfSteps => (Outcome::OutOfSteps, f1),
                    Outcome::Success { caps: caps1, .. } => if op == 40 {
                        run(bc, t, after, pos, caps1, f2)
                    } else {
                        (Outcome::Failure, f2)
                    },
                    Outcome::Failure => if op == 40 {
                        (Outcome::Failure, f2)
                    } else {
                        run(bc, t, after, pos, caps, f2)
                    },
                }
            }
        } else if 23 <= op <= 26 {
            // loop_split_goto_first, loop_split_next_first and their forms
            // with an advance check: count down register bc[pc+1]; above the
            // limit jump back, at zero go on, else try both ways
            if !loop_split_ok(bc, pc, caps) {
                (Outcome::Failure, f)
            } else {
                let idx = reg_slot(bc, bc[pc + 1] as int);
                let limit = read_u32(bc, pc + 2);
                let next = pc + 10;
                let jump = pc + 10 + read_i32(bc, pc + 6);
                let v = counter_dec(caps[idx]);
                let caps1 = caps.update(idx, Some(v as usize));
                if v > limit {
                    run(bc, t, jump, pos, caps1, f)
                } else if (op == 25 || op == 26) && caps[idx + 1] == Some(pos as usize) && v != limit {
                    (Outcome::Failure, f)
                } else if v == 0 {
                    run(bc, t, next, pos, caps1, f)
                } else {
                    let (first, second) = if op == 23 || op == 25 {
                        (jump, next)
                    } else {
                        (next, jump)
                    };
                    let (r1, f1) = run(bc, t, first, pos, caps1, f);
                    match r1 {
                        Outcome::Failure => run(
                            bc,
                            t,
                            second,
                            pos,
                            caps1,
                            if f1 <= f {
                                f1
                            } else {
                                f
                            },
                        ),
                        _ => (r1, f1),
                    }
                }
            }
        } else {
            match step(bc, t, pc, pos, caps) {
                Some((pc2, pos2, caps2)) => run(bc, t, pc2, pos2, caps2, f),
                None => (Outcome::Failure, f),
            }
        }
    }
}

/// A loop-split instruction at `pc` fits in the program, and its register
/// (and, for the forms with an advance check, the register after it) exists.
pub open spec fn loop_split_ok(bc: Seq<u8>, pc: int, caps: Seq<Option<usize>>) -> bool {
    &&& pc + 10 <= bc.len()
    &&& bc.len() >= RE_HEADER_LEN
    &&& reg_slot(bc, bc[pc + 1] as int) < caps.len()
    &&& (bc[pc] == 25 || bc[pc] == 26) ==> reg_slot(bc, bc[pc + 1] as int) + 1 < caps.len()
}

/// Running from outside the program fails the same way wherever outside.
pub proof fn lemma_run_outside(
    bc: Seq<u8>,
    t: Seq<u8>,
    p1: int,
    p2: int,
    pos: int,
    caps: Seq<Option<usize>>,
    fuel: nat,
)
    requires
        !(0 <= p1 < bc.len()),
        !(0 <= p2 < bc.len()),
    ensures
        run(bc, t, p1, pos, caps, fuel) == run(bc, t, p2, pos, caps, fuel),
{
}

/// Captures with every slot unset.
pub open spec fn no_caps(n: nat) -> Seq<Option<usize>> {
    Seq::new(n, |i: int| None)
}

/// The number of slots a program declares: two per group, then one per
/// register.
pub open spec fn slot_count(bc: Seq<u8>) -> nat {
    if bc.len() >= RE_HEADER_LEN {
        (2 * bc[2] + bc[3]) as nat
    } else {
        0
    }
}

/// The result of one attempt to match.
#[derive(Debug, Clone, Copy, PartialEq, Eq, Structural)]
pub enum ExecResult {
    /// The program reached `match`; the captures hold the groups.
    Match,
    /// No alternative matched.
    NoMatch,
    /// The attempt did not end within the steps it was given (or, for
    /// `spec_exec`, never ends).
    ResourceLimit,
}

/// The character at `pos` and its length in bytes.
fn decode_at(t: &Vec<u8>, pos: usize) -> (r: Option<(u32, usize)>)
    ensures
        match decode(t@, pos as int) {
            Some((c, l)) => r == Some((c, l as usize)) && pos + l <= t.len(),
            None => r is None,
        },
{
    let n = t.len();
    if pos >= n {
        return None;
    }
    let b0 = t[pos] as u32;
    if b0 < 0x80 {
        return Some((b0, 1));
    }
    if 0xC0 <= b0 && b0 < 0xE0 && n - pos > 1 && 0x80 <= t[pos + 1] && t[pos + 1] < 0xC0 {
        return Some(((b0 - 0xC0) * 64 + (t[pos + 1] as u32 - 0x80), 2));
    }
    if 0xE0 <= b0 && b0 < 0xF0 && n - pos > 2 && 0x80 <= t[pos + 1] && t[pos + 1] < 0xC0 && 0x80
        <= t[pos + 2] && t[pos + 2] < 0xC0 {
        return Some(
            ((b0 - 0xE0) * 4096 + (t[pos + 1] as u32 - 0x80) * 64 + (t[pos + 2] as u32 - 0x80), 3),
        );
    }
    if 0xF0 <= b0 && b0 < 0xF8 && n - pos > 3 && 0x80 <= t[pos + 1] && t[pos + 1] < 0xC0 && 0x80
        <= t[pos + 2] && t[pos + 2] < 0xC0 && 0x80 <= t[pos + 3] && t[pos + 3] < 0xC0 {
        return Some(
            (
                (b0 - 0xF0) * 262144 + (t[pos + 1] as u32 - 0x80) * 4096 + (t[pos + 2] as u32 - 0x80)
                    * 64 + (t[pos + 3] as u32 - 0x80),
                4,
            ),
        );
    }
    Some((b0, 1))
}

/// Whether `c` is ECMAScript white space or a line terminator.
fn is_space_char(c: u32) -> (r: bool)
    ensures
        r == in_iv(space_iv(), c as int),
{
    let r = (0x09 <= c && c <= 0x0D) || c == 0x20 || c == 0xA0 || c == 0x1680 || (0x2000 <= c && c
        <= 0x200A) || c == 0x2028 || c == 0x2029 || c == 0x202F || c == 0x205F || c == 0x3000 || c
        == 0xFEFF;
    proof {
        let v = space_iv();
        if r {
            if 0x09 <= c <= 0x0D {
                assert(v[0].0 <= c && c <= v[0].1);
            } else if c == 0x20 {
                assert(v[1].0 <= c && c <= v[1].1);
            } else if c == 0xA0 {
                assert(v[2].0 <= c && c <= v[2].1);
            } else if c == 0x1680 {
                assert(v[3].0 <= c && c <= v[3].1);
            } else if 0x2000 <= c <= 0x200A {
                assert(v[4].0 <= c && c <= v[4].1);
            } else if c == 0x2028 || c == 0x2029 {
                assert(v[5].0 <= c && c <= v[5].1);
            } else if c == 0x202F {
                assert(v[6].0 <= c && c <= v[6].1);
            } else if c == 0x205F {
                assert(v[7].0 <= c && c <= v[7].1);
            } else if c == 0x3000 {
                assert(v[8].0 <= c && c <= v[8].1);
            } else {
                assert(v[9].0 <= c && c <= v[9].1);
            }
        } else {
            if in_iv(v, c as int) {
                let k = choose|k: int| 0 <= k < v.len() && (#[trigger] v[k]).0 <= c && c <= v[k].1;
            }
        }
    }
    r
}

/// ASCII lower case.
fn lower(c: u32) -> (r: u32)
    ensures
        r == to_lower(c),
{
    if 65 <= c && c <= 90 {
        c + 32
    } else {
        c
    }
}

/// ASCII upper case.
fn upper(c: u32) -> (r: u32)
    ensures
        r == to_upper(c),
{
    if 97 <= c && c <= 122 {
        c - 32
    } else {
        c
    }
}

/// Whether a byte is an ASCII word character.
fn word_byte(b: u8) -> (r: bool)
    ensures
        r == is_word_byte(b),
{
    (48 <= b && b <= 57) || (65 <= b && b <= 90) || (97 <= b && b <= 122) || b == 95
}

/// Whether `c` lies in one of the `n` intervals of `w`-byte bounds stored at
/// `start`.
fn in_ranges(bc: &Vec<u8>, start: usize, n: usize, w: usize, c: u32) -> (r: bool)
    requires
        w == 2 || w == 4,
        start + 2 * w * n <= bc@.len(),
    ensures
        r == in_stored_ranges(bc@, start as int, n as int, w as int, c),
{
    let mut k: usize = 0;
    let mut p: usize = start;
    while k < n
        invariant
            w == 2 || w == 4,
            start + 2 * w * n <= bc@.len(),
            k <= n,
            p == start + 2 * w * k,
            forall|j: int| 0 <= j < k ==> !(#[trigger] read_bound(bc@, start + 2 * w * j, w as int) <= c
                && c <= read_bound(bc@, start + 2 * w * j + w, w as int)),
        decreases n - k,
    {
        proof {
            assert(2 * w * k + 2 * w <= 2 * w * n) by (nonlinear_arith)
                requires
                    k < n,
                    w >= 0,
            ;
            assert(2 * w * (k + 1) == 2 * w * k + 2 * w) by (nonlinear_arith);
            assert(p + 2 * w <= bc.len());
        }
        let (lo, hi) = if w == 2 {
            (get_u16(bc.as_slice(), p) as u32, get_u16(bc.as_slice(), p + 2) as u32)
        } else {
            (get_u32(bc.as_slice(), p), get_u32(bc.as_slice(), p + 4))
        };
        assert(lo == read_bound(bc@, start + 2 * w * k, w as int));
        assert(hi == read_bound(bc@, start + 2 * w * k + w, w as int));
        if lo <= c && c <= hi {
            return true;
        }
        k = k + 1;
        p = p + 2 * w;
    }
    false
}

/// Whether the `len` bytes at `a` equal those at `b`.
fn same_bytes_at(t: &Vec<u8>, a: usize, b: usize, len: usize, ic: bool) -> (r: bool)
    requires
        a + len <= t@.len(),
        b + len <= t@.len(),
    ensures
        r == same_bytes(t@, a as int, b as int, len as int, ic),
{
    let mut k: usize = 0;
    while k < len
        invariant
            a + len <= t.len(),
            b + len <= t.len(),
            k <= len,
            same_bytes(t@, a as int, b as int, k as int, ic),
        decreases len - k,
    {
        let x = t[a + k];
        let y = t[b + k];
        let eq = if ic {
            lower(x as u32) == lower(y as u32)
        } else {
            x == y
        };
        if !eq {
            return false;
        }
        k = k + 1;
    }
    true
}

/// Where a jump lands: `from + off`, or `len` (outside the program) when that
/// is outside `[0, len)`.
fn jump_target(len: usize, from: usize, off: u32) -> (r: usize)
    requires
        from <= len,
    ensures
        ({
            let t = from + (if off >= 0x8000_0000 { off - 0x1_0000_0000 } else { off as int });
            if 0 <= t < len {
                r == t
            } else {
                r == len
            }
        }),
{
    if off >= 0x8000_0000 {
        let back = (0x1_0000_0000u64 - off as u64) as usize;
        if back > from {
            len
        } else {
            from - back
        }
    } else {
        let fwd = off as usize;
        if fwd >= len - from {
            len
        } else {
            from + fwd
        }
    }
}

/// A copy of the captures.
fn copy_caps(v: &Vec<Option<usize>>) -> (r: Vec<Option<usize>>)
    ensures
        r@ == v@,
{
    let mut r: Vec<Option<usize>> = Vec::new();
    let mut i: usize = 0;
    while i < v.len()
        invariant
            i <= v@.len(),
            r@ == v@.take(i as int),
        decreases v@.len() - i,
    {
        r.push(v[i]);
        assert(r@ =~= v@.take(i + 1));
        i = i + 1;
    }
    assert(v@.take(v@.len() as int) =~= v@);
    r
}

/// Captures with `n` unset slots.
fn unset_caps(n: usize) -> (r: Vec<Option<usize>>)
    ensures
        r@ == no_caps(n as nat),
{
    let mut r: Vec<Option<usize>> = Vec::new();
    let mut i: usize = 0;
    while i < n
        invariant
            i <= n,
            r@ == no_caps(i as nat),
        decreases n - i,
    {
        r.push(None);
        assert(r@ =~= no_caps((i + 1) as nat));
        i = i + 1;
    }
    r
}

/// Execute one instruction that does not branch: the next instruction (or
/// the program length when it lies outside) and text position, with the
/// captures updated, or `None` when the instruction fails here.
#[verifier::rlimit(30)]
fn exec_step(bc: &Vec<u8>, t: &Vec<u8>, pc: usize, pos: usize, caps: &mut Vec<Option<usize>>) -> (r:
    Option<(usize, usize)>)
    requires
        pc < bc@.len(),
    ensures
        match step(bc@, t@, pc as int, pos as int, old(caps)@) {
            Some((pc2, pos2, caps2)) => r matches Some((npc, npos)) && final(caps)@ == caps2 && npos
                == pos2 && if 0 <= pc2 < bc@.len() {
                npc == pc2
            } else {
                npc == bc@.len()
            },
            None => r is None,
        },
{
    let op = bc[pc];
    let len = bc.len();
    if op == 1 || op == 2 || op == 3 || op == 4 {
        let w: usize = if op <= 2 { 2 } else { 4 };
        if w + 1 > len - pc {
            return None;
        }
        let v: u32 = if w == 2 {
            get_u16(bc.as_slice(), pc + 1) as u32
        } else {
            get_u32(bc.as_slice(), pc + 1)
        };
        match decode_at(t, pos) {
            Some((c, l)) => {
                let ok = if op == 1 || op == 3 {
                    c == v
                } else {
                    lower(c) == lower(v)
                };
                if ok {
                    Some((pc + 1 + w, pos + l))
                } else {
                    None
                }
            },
            None => None,
        }
    } else if op == 5 || op == 6 || op == 7 || op == 8 {
        match decode_at(t, pos) {
            Some((c, l)) => {
                let ok = if op == 6 {
                    true
                } else if op == 5 {
                    !(c == 10 || c == 13 || c == 0x2028 || c == 0x2029)
                } else if op == 7 {
                    is_space_char(c)
                } else {
                    !is_space_char(c)
                };
                if ok {
                    Some((pc + 1, pos + l))
                } else {
                    None
                }
            },
            None => None,
        }
    } else if op == 9 || op == 10 || op == 11 || op == 12 {
        let n = t.len();
        let ok = if op == 9 {
            pos == 0
        } else if op == 10 {
            pos == 0 || (1 <= pos && pos <= n && (t[pos - 1] == 10 || t[pos - 1] == 13)) || (3 <= pos
                && pos <= n && t[pos - 3] == 0xE2 && t[pos - 2] == 0x80 && (t[pos - 1] == 0xA8 || t[pos
                - 1] == 0xA9))
        } else if op == 11 {
            pos == n
        } else {
            pos == n || match decode_at(t, pos) {
                Some((c, _)) => c == 10 || c == 13 || c == 0x2028 || c == 0x2029,
                None => false,
            }
        };
        if ok {
            Some((pc + 1, pos))
        } else {
            None
        }
    } else if op == 13 {
        if 5 > len - pc {
            return None;
        }
        let off = get_u32(bc.as_slice(), pc + 1);
        Some((jump_target(len, pc + 5, off), pos))
    } else if op == 19 || op == 20 {
        if 2 > len - pc {
            return None;
        }
        let slot = 2 * (bc[pc + 1] as usize) + if op == 19 { 0 } else { 1 };
        if slot < caps.len() {
            caps.set(slot, Some(pos));
            Some((pc + 2, pos))
        } else {
            None
        }
    } else if op == 28 || op == 29 || op == 30 || op == 31 {
        let n = t.len();
        let before = 1 <= pos && pos <= n && word_byte(t[pos - 1]);
        let after = pos < n && word_byte(t[pos]);
        if (before != after) == (op <= 29) {
            Some((pc + 1, pos))
        } else {
            None
        }
    } else if op == 44 {
        let n = t.len();
        if pos == 0 || pos > n {
            return None;
        }
        Some((pc + 1, prev_start(t, pos)))
    } else if 32 <= op && op <= 35 {
        if 2 > len - pc || bc[pc + 1] as usize > len - pc - 2 || len < RE_HEADER_LEN {
            return None;
        }
        let count = bc[pc + 1] as usize;
        let cc = bc[2] as usize;
        let n = t.len();
        let ic = op == 33 || op == 35;
        let back = op == 34 || op == 35;
        let mut i: usize = 0;
        while i < count
            invariant
                pc + 2 + count <= bc@.len(),
                len == bc@.len(),
                op == bc@[pc as int],
                32 <= op <= 35,
                count == bc@[pc + 1],
                cc == bc@[2],
                bc@.len() >= RE_HEADER_LEN,
                n == t@.len(),
                ic == (op == 33 || op == 35),
                back == (op == 34 || op == 35),
                i <= count,
                caps@ == old(caps)@,
                backref_groups(bc@, t@, caps@, pc + 2, count as int, i as int, pos as int, ic, back)
                    == backref_groups(bc@, t@, caps@, pc + 2, count as int, 0, pos as int, ic, back),
            decreases count - i,
        {
            let g = bc[pc + 2 + i] as usize;
            if g >= cc || 2 * g + 1 >= caps.len() {
                return None;
            }
            match (caps[2 * g], caps[2 * g + 1]) {
                (Some(s), Some(e)) => {
                    if s >= e {
                        return Some((pc + 2 + count, pos));
                    } else if back {
                        if e <= n && pos <= n && e - s <= pos && same_bytes_at(
                            t,
                            s,
                            pos - (e - s),
                            e - s,
                            ic,
                        ) {
                            return Some((pc + 2 + count, pos - (e - s)));
                        } else {
                            return None;
                        }
                    } else if e <= n && pos <= n && e - s <= n - pos && same_bytes_at(
                        t,
                        s,
                        pos,
                        e - s,
                        ic,
                    ) {
                        return Some((pc + 2 + count, pos + (e - s)));
                    } else {
                        return None;
                    }
                },
                _ => {},
            }
            i = i + 1;
        }
        Some((pc + 2 + count, pos))
    } else if op == 36 || op == 37 || op == 38 || op == 39 {
        let w: usize = if op <= 37 { 2 } else { 4 };
        if 3 > len - pc {
            return None;
        }
        let n = get_u16(bc.as_slice(), pc + 1) as usize;
        assert(2 * w * n <= 8 * 65535) by (nonlinear_arith)
            requires
                w <= 4,
                n <= 65535,
        ;
        if 2 * w * n > len - pc - 3 {
            return None;
        }
        let end = pc + 3 + 2 * w * n;
        match decode_at(t, pos) {
            Some((c, l)) => {
                let ok = if op == 36 || op == 38 {
                    in_ranges(bc, pc + 3, n, w, c)
                } else {
                    in_ranges(bc, pc + 3, n, w, c) || in_ranges(bc, pc + 3, n, w, lower(c))
                        || in_ranges(bc, pc + 3, n, w, upper(c))
                };
                if ok {
                    Some((end, pos + l))
                } else {
                    None
                }
            },
            None => None,
        }
    } else if op == 21 {
        if 3 > len - pc || len < RE_HEADER_LEN || bc[pc + 2] >= bc[2] || 2 * (bc[pc + 2] as usize)
            + 1 >= caps.len() {
            return None;
        }
        let a = bc[pc + 1] as usize;
        let b = bc[pc + 2] as usize;
        let ghost c0 = caps@;
        let mut k = 2 * a;
        while k <= 2 * b + 1
            invariant
                caps@.len() == c0.len(),
                2 * b + 1 < c0.len(),
                b < 256,
                k >= 2 * a,
                k == 2 * a || k <= 2 * b + 2,
                forall|j: int|
                    0 <= j < c0.len() ==> caps@[j] == if 2 * a <= j < k {
                        None
                    } else {
                        c0[j]
                    },
            decreases 2 * b + 2 - k,
        {
            caps.set(k, None);
            k = k + 1;
        }
        assert(caps@ =~= reset_groups(c0, a as int, b as int));
        Some((pc + 3, pos))
    } else if op == 27 || op == 42 || op == 43 || op == 22 {
        let size: usize = if op == 27 || op == 22 { 6 } else { 2 };
        if size > len - pc || len < RE_HEADER_LEN {
            return None;
        }
        let idx = 2 * (bc[2] as usize) + bc[pc + 1] as usize;
        if idx >= caps.len() {
            return None;
        }
        if op == 27 {
            let v = get_u32(bc.as_slice(), pc + 2);
            caps.set(idx, Some(v as usize));
            Some((pc + 6, pos))
        } else if op == 42 {
            caps.set(idx, Some(pos));
            Some((pc + 2, pos))
        } else if op == 43 {
            let here = match caps[idx] {
                Some(x) => x == pos,
                None => false,
            };
            if here {
                None
            } else {
                Some((pc + 2, pos))
            }
        } else {
            let v = dec_counter(caps[idx]);
            caps.set(idx, Some(v as usize));
            if v != 0 {
                let off = get_u32(bc.as_slice(), pc + 2);
                Some((jump_target(len, pc + 6, off), pos))
            } else {
                Some((pc + 6, pos))
            }
        }
    } else {
        None
    }
}

/// Where the character that ends at `pos` starts.
fn prev_start(t: &Vec<u8>, pos: usize) -> (r: usize)
    requires
        0 < pos <= t@.len(),
    ensures
        r == prev_char_start(t@, pos as int),
{
    if pos >= 4 {
        match decode_at(t, pos - 4) {
            Some((_, l)) => {
                if l == 4 {
                    return pos - 4;
                }
            },
            None => {},
        }
    }
    if pos >= 3 {
        match decode_at(t, pos - 3) {
            Some((_, l)) => {
                if l == 3 {
                    return pos - 3;
                }
            },
            None => {},
        }
    }
    if pos >= 2 {
        match decode_at(t, pos - 2) {
            Some((_, l)) => {
                if l == 2 {
                    return pos - 2;
                }
            },
            None => {},
        }
    }
    pos - 1
}

/// A loop counter decremented.
fn dec_counter(o: Option<usize>) -> (r: u32)
    ensures
        r == counter_dec(o),
{
    let v: u32 = match o {
        Some(x) => x as u32,
        None => 0,
    };
    if v == 0 {
        0xffff_ffff
    } else {
        v - 1
    }
}

/// How a run of the program from some state ended.
enum RunEnd {
    Success(usize),
    Failure,
    OutOfSteps,
}

/// A point the matcher may come back to, kept on its own stack (the
/// backtracking stack), so that any number of alternatives may stay open.
enum Frame {
    /// The other way of a split, tried when the current way fails.
    Alt { pc: usize, pos: usize, caps: Vec<Option<usize>> },
    /// A lookahead whose body is running: where to go on after it, the
    /// position it began at and the captures from before it.
    Look { negative: bool, after: usize, pos: usize, caps: Vec<Option<usize>> },
}

/// What a run that ended with `r` gives once frame `f` is taken back: a
/// failed way goes on with the other one; a lookahead body that ended goes
/// on after the lookahead, or fails it.
spec fn unwind_one(bc: Seq<u8>, t: Seq<u8>, f: Frame, r: (Outcome, nat)) -> (Outcome, nat) {
    match f {
        Frame::Alt { pc, pos, caps } => match r.0 {
            Outcome::Failure => run(bc, t, pc as int, pos as int, caps@, r.1),
            _ => r,
        },
        Frame::Look { negative, after, pos, caps } => match r.0 {
            Outcome::OutOfSteps => r,
            Outcome::Success { caps: c1, .. } => if !negative {
                run(bc, t, after as int, pos as int, c1, r.1)
            } else {
                (Outcome::Failure, r.1)
            },
            Outcome::Failure => if !negative {
                r
            } else {
                run(bc, t, after as int, pos as int, caps@, r.1)
            },
        },
    }
}

/// What a run that ended with `r` gives once every frame of `frames` is
/// taken back, the last first.
spec fn unwind(bc: Seq<u8>, t: Seq<u8>, frames: Seq<Frame>, r: (Outcome, nat)) -> (Outcome, nat)
    decreases frames.len(),
{
    if frames.len() == 0 {
        r
    } else {
        unwind(bc, t, frames.drop_last(), unwind_one(bc, t, frames.last(), r))
    }
}

/// Every frame points into the program or just past it.
spec fn frames_ok(frames: Seq<Frame>, len: int) -> bool {
    forall|i: int| 0 <= i < frames.len() ==> match #[trigger] frames[i] {
        Frame::Alt { pc, .. } => pc <= len,
        Frame::Look { after, .. } => after <= len,
    }
}

/// How a run that ended as `e` with captures `caps` looks as an outcome.
spec fn end_outcome(e: RunEnd, caps: Seq<Option<usize>>) -> Outcome {
    match e {
        RunEnd::Success(p) => Outcome::Success { pos: p as int, caps },
        RunEnd::Failure => Outcome::Failure,
        RunEnd::OutOfSteps => Outcome::OutOfSteps,
    }
}

/// Running out of steps is what every frame hands on.
proof fn lemma_unwind_out(bc: Seq<u8>, t: Seq<u8>, frames: Seq<Frame>, x: nat)
    ensures
        unwind(bc, t, frames, (Outcome::OutOfSteps, x)) == (Outcome::OutOfSteps, x),
    decreases frames.len(),
{
    if frames.len() > 0 {
        lemma_unwind_out(bc, t, frames.drop_last(), x);
    }
}

/// Taking back a pushed frame is taking it back first.
proof fn lemma_unwind_push(bc: Seq<u8>, t: Seq<u8>, frames: Seq<Frame>, x: Frame, r: (Outcome, nat))
    ensures
        unwind(bc, t, frames.push(x), r) == unwind(bc, t, frames, unwind_one(bc, t, x, r)),
{
    assert(frames.push(x).drop_last() =~= frames);
}

/// Running from any position outside the program is the same.
proof fn lemma_outside_all(bc: Seq<u8>, t: Seq<u8>, j: int)
    requires
        !(0 <= j < bc.len()),
    ensures
        forall|q: int, c: Seq<Option<usize>>, fu: nat| #[trigger] run(bc, t, j, q, c, fu) == run(bc, t, bc.len() as int, q, c, fu),
{
    assert forall|q: int, c: Seq<Option<usize>>, fu: nat| #[trigger] run(bc, t, j, q, c, fu) == run(bc, t, bc.len() as int, q, c, fu) by {
        lemma_run_outside(bc, t, j, bc.len() as int, q, c, fu);
    }
}

/// The state of matching one program against one text.
pub struct ExecContext {
    bytecode: Vec<u8>,
    text: Vec<u8>,
    /// Capture slots: the start and end byte positions of each group, group
    /// 0 (the whole match) first; then the registers that loops use.
    pub captures: Vec<Option<usize>>,
    steps: u64,
}

impl ExecContext {
    /// The program being run.
    pub closed spec fn program(&self) -> Seq<u8> {
        self.bytecode@
    }

    /// The text being matched, as UTF-8 bytes.
    pub closed spec fn input(&self) -> Seq<u8> {
        self.text@
    }

    /// The capture slots.
    pub closed spec fn caps(&self) -> Seq<Option<usize>> {
        self.captures@
    }

    /// Take frames back after the current way ended in `res` (a success
    /// leaves its captures in `self.captures`): either the whole run ends,
    /// or a way is found to go on with, from `*pc` at `*pos`.
    #[verifier::rlimit(30)]
    fn unwind_frames(&mut self, frames: &mut Vec<Frame>, res: RunEnd, pc: &mut usize, pos: &mut usize) -> (done: Option<RunEnd>)
        requires
            !(res is OutOfSteps),
            frames_ok(old(frames)@, old(self).bytecode@.len() as int),
        ensures
            final(self).bytecode@ == old(self).bytecode@,
            final(self).text@ == old(self).text@,
            final(self).steps == old(self).steps,
            ({
                let bc = old(self).bytecode@;
                let t = old(self).text@;
                let whole = unwind(bc, t, old(frames)@, (end_outcome(res, old(self).captures@), old(self).steps as nat));
                match done {
                    Some(e) => !(e is OutOfSteps) && whole.0 == end_outcome(e, final(self).captures@),
                    None => *final(pc) <= bc.len() && frames_ok(final(frames)@, bc.len() as int) && whole
                        == unwind(bc, t, final(frames)@, run(bc, t, *final(pc) as int, *final(pos) as int, final(self).captures@, final(self).steps as nat)),
                }
            }),
    {
        let ghost bc = self.bytecode@;
        let ghost t = self.text@;
        let ghost whole = unwind(bc, t, frames@, (end_outcome(res, self.captures@), self.steps as nat));
        let (mut succeeded, end_pos) = match res {
            RunEnd::Success(p) => (true, p),
            _ => (false, 0),
        };
        loop
            invariant
                self.bytecode@ == bc,
                self.text@ == t,
                bc == old(self).bytecode@,
                t == old(self).text@,
                self.steps == old(self).steps,
                whole == unwind(bc, t, old(frames)@, (end_outcome(res, old(self).captures@), old(self).steps as nat)),
                frames_ok(frames@, bc.len() as int),
                whole == unwind(bc, t, frames@, (
                    if succeeded { Outcome::Success { pos: end_pos as int, caps: self.captures@ } } else { Outcome::Failure },
                    self.steps as nat,
                )),
            decreases frames@.len(),
        {
            let ghost before = frames@;
            let ghost cur = (
                if succeeded { Outcome::Success { pos: end_pos as int, caps: self.captures@ } } else { Outcome::Failure },
                self.steps as nat,
            );
            match frames.pop() {
                None => {
                    return Some(if succeeded { RunEnd::Success(end_pos) } else { RunEnd::Failure });
                },
                Some(f) => {
                    proof {
                        assert(before.drop_last() =~= frames@);
                        assert(frames_ok(frames@, bc.len() as int)) by {
                            assert forall|i: int| 0 <= i < frames@.len() implies match #[trigger] frames@[i] {
                                Frame::Alt { pc, .. } => pc <= bc.len(),
                                Frame::Look { after, .. } => after <= bc.len(),
                            } by {
                                assert(frames@[i] == before[i]);
                            }
                        }
                        assert(before[before.len() - 1] == f);
                        assert(whole == unwind(bc, t, frames@, unwind_one(bc, t, f, cur)));
                    }
                    match f {
                        Frame::Alt { pc: p2, pos: q2, caps } => {
                            if !succeeded {
                                self.captures = caps;
                                *pc = p2;
                                *pos = q2;
                                return None;
                            }
                        },
                        Frame::Look { negative, after, pos: q2, caps } => {
                            if succeeded {
                                if !negative {
                                    *pc = after;
                                    *pos = q2;
                                    return None;
                                } else {
                                    succeeded = false;
                                }
                            } else if negative {
                                self.captures = caps;
                                *pc = after;
                                *pos = q2;
                                return None;
                            }
                        },
                    }
                },
            }
        }
    }

    /// One loop-split instruction at `pc`, the step for it already taken:
    /// count its register down, then jump back, go on, or open both ways.
    #[verifier::rlimit(60)]
    fn loop_split_op(&mut self, frames: &mut Vec<Frame>, pc: usize, pos: usize) -> (r: (Option<RunEnd>, usize))
        requires
            pc < old(self).bytecode@.len(),
            23 <= old(self).bytecode@[pc as int] <= 26,
            frames_ok(old(frames)@, old(self).bytecode@.len() as int),
        ensures
            final(self).bytecode@ == old(self).bytecode@,
            final(self).text@ == old(self).text@,
            final(self).steps == old(self).steps,
            ({
                let bc = old(self).bytecode@;
                let t = old(self).text@;
                let whole = run(bc, t, pc as int, pos as int, old(self).captures@, (old(self).steps + 1) as nat);
                match r.0 {
                    Some(res) => !(res is OutOfSteps) && whole == (end_outcome(res, final(self).captures@), old(self).steps as nat)
                        && final(frames)@ == old(frames)@,
                    None => r.1 <= bc.len() && frames_ok(final(frames)@, bc.len() as int) && unwind(bc, t, old(frames)@, whole)
                        == unwind(bc, t, final(frames)@, run(bc, t, r.1 as int, pos as int, final(self).captures@, final(self).steps as nat)),
                }
            }),
    {
        let ghost bc = self.bytecode@;
        let ghost t = self.text@;
        let ghost f = self.steps as nat;
        let ghost caps0 = self.captures@;
        let ghost fr0 = frames@;
        let ghost whole = run(bc, t, pc as int, pos as int, caps0, f + 1);
        let len = self.bytecode.len();
        let op = self.bytecode[pc];
        if 10 > len - pc || len < RE_HEADER_LEN {
            return (Some(RunEnd::Failure), pc);
        }
        let idx = 2 * (self.bytecode[2] as usize) + self.bytecode[pc + 1] as usize;
        if idx >= self.captures.len() || ((op == 25 || op == 26) && idx + 1 >= self.captures.len()) {
            return (Some(RunEnd::Failure), pc);
        }
        let limit = get_u32(self.bytecode.as_slice(), pc + 2);
        let off = get_u32(self.bytecode.as_slice(), pc + 6);
        let jump = jump_target(len, pc + 10, off);
        let v = dec_counter(self.captures[idx]);
        let stuck = (op == 25 || op == 26) && v != limit && match self.captures[idx + 1] {
            Some(x) => x == pos,
            None => false,
        };
        self.captures.set(idx, Some(v as usize));
        let ghost j = pc + 10 + read_i32(bc, pc + 6);
        let ghost caps1 = self.captures@;
        proof {
            if !(0 <= j < len) {
                lemma_outside_all(bc, t, j);
            }
            assert(forall|q: int, c: Seq<Option<usize>>, fu: nat| run(bc, t, j, q, c, fu) == run(bc, t, jump as int, q, c, fu));
            assert(loop_split_ok(bc, pc as int, caps0));
            assert(idx == reg_slot(bc, bc[pc + 1] as int));
            assert(caps1 == caps0.update(idx as int, Some(v as usize)));
            assert(whole == if v > limit {
                run(bc, t, j, pos as int, caps1, f)
            } else if (op == 25 || op == 26) && caps0[idx + 1] == Some(pos as usize) && v != limit {
                (Outcome::Failure, f)
            } else if v == 0 {
                run(bc, t, pc + 10, pos as int, caps1, f)
            } else {
                let (first, second) = if op == 23 || op == 25 { (j, pc + 10) } else { (pc + 10, j) };
                let (r1, f1) = run(bc, t, first, pos as int, caps1, f);
                match r1 {
                    Outcome::Failure => run(bc, t, second, pos as int, caps1, if f1 <= f { f1 } else { f }),
                    _ => (r1, f1),
                }
            });
        }
        if v > limit {
            return (None, jump);
        } else if stuck {
            return (Some(RunEnd::Failure), pc);
        } else if v == 0 {
            return (None, pc + 10);
        }
        let (first, second) = if op == 23 || op == 25 {
            (jump, pc + 10)
        } else {
            (pc + 10, jump)
        };
        proof {
            lemma_run_steps_le(bc, t, first as int, pos as int, self.captures@, f);
        }
        let saved = copy_caps(&self.captures);
        let ghost fr = Frame::Alt { pc: second, pos, caps: saved };
        proof {
            lemma_unwind_push(bc, t, fr0, fr, run(bc, t, first as int, pos as int, self.captures@, f));
        }
        frames.push(Frame::Alt { pc: second, pos, caps: saved });
        proof {
            assert(frames@ == fr0.push(fr));
            assert(frames_ok(frames@, bc.len() as int)) by {
                assert forall|i: int| 0 <= i < frames@.len() implies match #[trigger] frames@[i] {
                    Frame::Alt { pc, .. } => pc <= bc.len(),
                    Frame::Look { after, .. } => after <= bc.len(),
                } by {
                    if i < fr0.len() {
                        assert(frames@[i] == fr0[i]);
                    }
                }
            }
        }
        (None, first)
    }

    /// Run the program from `pc0` at `pos0` with the current captures and
    /// step budget. The alternatives still open are kept on a stack of
    /// frames, which grows as far as the run needs.
    #[verifier::rlimit(100)]
    fn run_from(&mut self, pc0: usize, pos0: usize) -> (r: RunEnd)
        requires
            pc0 <= old(self).bytecode@.len(),
        ensures
            final(self).bytecode@ == old(self).bytecode@,
            final(self).text@ == old(self).text@,
            match run(old(self).bytecode@, old(self).text@, pc0 as int, pos0 as int, old(self).captures@, old(self).steps as nat).0 {
                Outcome::Success { pos, caps } => r matches RunEnd::Success(p) && p == pos
                    && final(self).captures@ == caps,
                Outcome::Failure => r is Failure,
                Outcome::OutOfSteps => r is OutOfSteps,
            },
    {
        let ghost bc = self.bytecode@;
        let ghost t = self.text@;
        let ghost target = run(bc, t, pc0 as int, pos0 as int, self.captures@, self.steps as nat);
        let mut frames: Vec<Frame> = Vec::new();
        let mut pc = pc0;
        let mut pos = pos0;
        loop
            invariant
                self.bytecode@ == bc,
                self.text@ == t,
                bc == old(self).bytecode@,
                t == old(self).text@,
                target == run(bc, t, pc0 as int, pos0 as int, old(self).captures@, old(self).steps as nat),
                pc <= bc.len(),
                frames_ok(frames@, bc.len() as int),
                unwind(bc, t, frames@, run(bc, t, pc as int, pos as int, self.captures@, self.steps as nat)) == target,
            decreases self.steps,
        {
            if self.steps == 0 {
                proof {
                    lemma_unwind_out(bc, t, frames@, 0);
                }
                return RunEnd::OutOfSteps;
            }
            self.steps = self.steps - 1;
            let ghost f = self.steps as nat;
            let ghost caps0 = self.captures@;
            let ghost fr0 = frames@;
            let ghost whole0 = run(bc, t, pc as int, pos as int, caps0, (f + 1) as nat);
            assert(unwind(bc, t, fr0, whole0) == target);
            let len = self.bytecode.len();
            // how this instruction ends the current way, if it does
            let mut ended: Option<RunEnd> = None;
            if pc >= len {
                ended = Some(RunEnd::Failure);
            } else {
                let op = self.bytecode[pc];
                if op == 14 || op == 15 {
                    if 5 > len - pc {
                        ended = Some(RunEnd::Failure);
                    } else {
                        let off = get_u32(self.bytecode.as_slice(), pc + 1);
                        let jump = jump_target(len, pc + 5, off);
                        let (first, second) = if op == 14 {
                            (jump, pc + 5)
                        } else {
                            (pc + 5, jump)
                        };
                        proof {
                            let j = pc + 5 + read_i32(bc, pc + 1);
                            if !(0 <= j < len) {
                                lemma_outside_all(bc, t, j);
                            }
                            lemma_run_steps_le(bc, t, first as int, pos as int, caps0, f);
                        }
                        let saved = copy_caps(&self.captures);
                        let ghost fr = Frame::Alt { pc: second, pos, caps: saved };
                        proof {
                            lemma_unwind_push(bc, t, fr0, fr, run(bc, t, first as int, pos as int, caps0, f));
                            let j = pc + 5 + read_i32(bc, pc + 1);
                            let sf = if op == 14 { j } else { pc + 5 };
                            let ss = if op == 14 { pc + 5 } else { j };
                            assert(run(bc, t, sf, pos as int, caps0, f) == run(bc, t, first as int, pos as int, caps0, f));
                            assert(forall|q: int, c: Seq<Option<usize>>, fu: nat| run(bc, t, ss, q, c, fu) == run(bc, t, second as int, q, c, fu));
                            assert(whole0 == ({
                                let (r1, f1) = run(bc, t, sf, pos as int, caps0, f);
                                match r1 {
                                    Outcome::Failure => run(bc, t, ss, pos as int, caps0, if f1 <= f { f1 } else { f }),
                                    _ => (r1, f1),
                                }
                            }));
                            assert(whole0 == unwind_one(bc, t, fr, run(bc, t, first as int, pos as int, caps0, f)));
                        }
                        frames.push(Frame::Alt { pc: second, pos, caps: saved });
                        assert(frames@ == fr0.push(fr));
                        proof {
                            assert(frames@.drop_last() =~= fr0);
                            assert(frames_ok(frames@, bc.len() as int)) by {
                                assert forall|i: int| 0 <= i < frames@.len() implies match #[trigger] frames@[i] {
                                    Frame::Alt { pc, .. } => pc <= bc.len(),
                                    Frame::Look { after, .. } => after <= bc.len(),
                                } by {
                                    if i < fr0.len() {
                                        assert(frames@[i] == fr0[i]);
                                    }
                                }
                            }
                        }
                        pc = first;
                    }
                } else if 23 <= op && op <= 26 {
                    let (e, npc) = self.loop_split_op(&mut frames, pc, pos);
                    ended = e;
                    pc = npc;
                } else if op == 16 || op == 17 || op == 18 {
                    ended = Some(RunEnd::Success(pos));
                } else if op == 40 || op == 41 {
                    if 5 > len - pc {
                        ended = Some(RunEnd::Failure);
                    } else {
                        let off = get_u32(self.bytecode.as_slice(), pc + 1);
                        let after = jump_target(len, pc + 5, off);
                        proof {
                            let j = pc + 5 + read_i32(bc, pc + 1);
                            if !(0 <= j < len) {
                                lemma_outside_all(bc, t, j);
                            }
                            lemma_run_steps_le(bc, t, pc + 5, pos as int, caps0, f);
                        }
                        let saved = copy_caps(&self.captures);
                        let ghost fr = Frame::Look { negative: op == 41, after, pos, caps: saved };
                        proof {
                            lemma_unwind_push(bc, t, fr0, fr, run(bc, t, pc + 5, pos as int, caps0, f));
                            let j = pc + 5 + read_i32(bc, pc + 1);
                            assert(forall|q: int, c: Seq<Option<usize>>, fu: nat| run(bc, t, j, q, c, fu) == run(bc, t, after as int, q, c, fu));
                            assert(whole0 == ({
                                let (r1, f1) = run(bc, t, pc + 5, pos as int, caps0, f);
                                let f2 = if f1 <= f { f1 } else { f };
                                match r1 {
                                    Outcome::OutOfSteps => (Outcome::OutOfSteps, f1),
                                    Outcome::Success { caps: caps1, .. } => if op == 40 {
                                        run(bc, t, j, pos as int, caps1, f2)
                                    } else {
                                        (Outcome::Failure, f2)
                                    },
                                    Outcome::Failure => if op == 40 {
                                        (Outcome::Failure, f2)
                                    } else {
                                        run(bc, t, j, pos as int, caps0, f2)
                                    },
                                }
                            }));
                            assert(whole0 == unwind_one(bc, t, fr, run(bc, t, pc + 5, pos as int, caps0, f)));
                        }
                        frames.push(Frame::Look { negative: op == 41, after, pos, caps: saved });
                        assert(frames@ == fr0.push(fr));
                        proof {
                            assert(frames@.drop_last() =~= fr0);
                            assert(frames_ok(frames@, bc.len() as int)) by {
                                assert forall|i: int| 0 <= i < frames@.len() implies match #[trigger] frames@[i] {
                                    Frame::Alt { pc, .. } => pc <= bc.len(),
                                    Frame::Look { after, .. } => after <= bc.len(),
                                } by {
                                    if i < fr0.len() {
                                        assert(frames@[i] == fr0[i]);
                                    }
                                }
                            }
                        }
                        pc = pc + 5;
                    }
                } else {
                    match exec_step(&self.bytecode, &self.text, pc, pos, &mut self.captures) {
                        Some((npc, npos)) => {
                            proof {
                                let (pc2, pos2, caps2) = step(bc, t, pc as int, pos as int, caps0)->0;
                                if !(0 <= pc2 < len) {
                                    lemma_run_outside(bc, t, pc2, len as int, npos as int, caps2, f);
                                }
                            }
                            pc = npc;
                            pos = npos;
                        },
                        None => {
                            ended = Some(RunEnd::Failure);
                        },
                    }
                }
            }
            assert(ended matches Some(res) ==> whole0 == (end_outcome(res, self.captures@), f) && frames@ == fr0);
            assert(ended is None ==> unwind(bc, t, frames@, run(bc, t, pc as int, pos as int, self.captures@, f)) == target);
            match ended {
                None => {},
                Some(res) => {
                    match self.unwind_frames(&mut frames, res, &mut pc, &mut pos) {
                        Some(e) => {
                            return e;
                        },
                        None => {},
                    }
                },
            }
        }
    }
}

/// A run of `bc` on `t` from the start of its code at `pos`, every capture
/// slot unset, with `fuel` steps.
pub open spec fn start_run(bc: Seq<u8>, t: Seq<u8>, pos: int, fuel: nat) -> (Outcome, nat) {
    run(bc, t, RE_HEADER_LEN as int, pos, no_caps(slot_count(bc)), fuel)
}

/// Whether a run from the start ends, with a match or without one, after
/// some number of steps.
pub open spec fn ends(bc: Seq<u8>, t: Seq<u8>, pos: int) -> bool {
    exists|fuel: nat| !(#[trigger] start_run(bc, t, pos, fuel).0 is OutOfSteps)
}

/// What one attempt to match the program against the text from byte
/// position `pos` gives: the result and the captures it leaves. A run that
/// never ends (a loop that takes no step forward, in a program without the
/// checks that stop it) gives `ResourceLimit`.
pub open spec fn spec_exec(bc: Seq<u8>, t: Seq<u8>, pos: int) -> (ExecResult, Seq<Option<usize>>) {
    let n = slot_count(bc);
    if ends(bc, t, pos) {
        let fuel = choose|fuel: nat| !(#[trigger] start_run(bc, t, pos, fuel).0 is OutOfSteps);
        budget_result(start_run(bc, t, pos, fuel).0, n)
    } else {
        (ExecResult::ResourceLimit, no_caps(n))
    }
}

/// What an attempt gives when the run has the outcome `o`.
pub open spec fn budget_result(o: Outcome, n: nat) -> (ExecResult, Seq<Option<usize>>) {
    match o {
        Outcome::Success { caps, .. } => (ExecResult::Match, caps),
        Outcome::Failure => (ExecResult::NoMatch, no_caps(n)),
        Outcome::OutOfSteps => (ExecResult::ResourceLimit, no_caps(n)),
    }
}

/// Two budgets under which a run ends give the same outcome.
pub proof fn lemma_budgets_agree(bc: Seq<u8>, t: Seq<u8>, pos: int, f1: nat, f2: nat)
    requires
        !(start_run(bc, t, pos, f1).0 is OutOfSteps),
        !(start_run(bc, t, pos, f2).0 is OutOfSteps),
    ensures
        start_run(bc, t, pos, f1).0 == start_run(bc, t, pos, f2).0,
{
    let c = no_caps(slot_count(bc));
    let s = RE_HEADER_LEN as int;
    if f1 <= f2 {
        lemma_run_more_steps(bc, t, s, pos, c, f1, (f2 - f1) as nat);
    } else {
        lemma_run_more_steps(bc, t, s, pos, c, f2, (f1 - f2) as nat);
    }
}

impl ExecContext {
    /// A context that matches `bytecode` against `text`, with every capture
    /// slot unset.
    pub fn new(bytecode: &[u8], text: &[u8]) -> (c: Self)
        ensures
            c.program() == bytecode@,
            c.input() == text@,
            c.caps() == no_caps(slot_count(bytecode@)),
    {
        let mut bc: Vec<u8> = Vec::new();
        let mut i: usize = 0;
        while i < bytecode.len()
            invariant
                i <= bytecode@.len(),
                bc@ == bytecode@.take(i as int),
            decreases bytecode@.len() - i,
        {
            bc.push(bytecode[i]);
            assert(bc@ =~= bytecode@.take(i + 1));
            i = i + 1;
        }
        assert(bytecode@.take(bytecode@.len() as int) =~= bytecode@);
        let mut tx: Vec<u8> = Vec::new();
        let mut j: usize = 0;
        while j < text.len()
            invariant
                j <= text@.len(),
                tx@ == text@.take(j as int),
            decreases text@.len() - j,
        {
            tx.push(text[j]);
            assert(tx@ =~= text@.take(j + 1));
            j = j + 1;
        }
        assert(text@.take(text@.len() as int) =~= text@);
        let n = Self::slots(&bc);
        ExecContext { bytecode: bc, text: tx, captures: unset_caps(n), steps: 0 }
    }

    /// The number of capture slots and registers the program declares.
    fn slots(bc: &Vec<u8>) -> (n: usize)
        ensures
            n == slot_count(bc@),
    {
        if bc.len() >= RE_HEADER_LEN {
            2 * (bc[2] as usize) + bc[3] as usize
        } else {
            0
        }
    }

    /// Unset every capture slot.
    pub fn reset(&mut self)
        ensures
            final(self).program() == old(self).program(),
            final(self).input() == old(self).input(),
            final(self).caps() == no_caps(slot_count(old(self).program())),
    {
        let n = Self::slots(&self.bytecode);
        self.captures = unset_caps(n);
    }

    /// Try to match the program at byte position `pos` of the text, giving
    /// up after `max_steps` instructions (the caller's interrupt). On a
    /// match the captures hold the groups; otherwise they are all unset.
    pub fn exec_with_budget(&mut self, pos: usize, max_steps: u64) -> (r: ExecResult)
        ensures
            final(self).program() == old(self).program(),
            final(self).input() == old(self).input(),
            (r, final(self).caps()) == budget_result(
                start_run(old(self).program(), old(self).input(), pos as int, max_steps as nat).0,
                slot_count(old(self).program()),
            ),
            !(r is ResourceLimit) ==> (r, final(self).caps()) == spec_exec(old(self).program(), old(self).input(), pos as int),
    {
        let ghost bc = self.bytecode@;
        let ghost t = self.text@;
        let n = Self::slots(&self.bytecode);
        self.captures = unset_caps(n);
        self.steps = max_steps;
        let start = if self.bytecode.len() < RE_HEADER_LEN {
            self.bytecode.len()
        } else {
            RE_HEADER_LEN
        };
        proof {
            if self.bytecode@.len() < RE_HEADER_LEN {
                lemma_run_outside(self.bytecode@, self.text@, RE_HEADER_LEN as int, start as int, pos as int, self.captures@, max_steps as nat);
            }
        }
        let r = match self.run_from(start, pos) {
            RunEnd::Success(_) => ExecResult::Match,
            RunEnd::Failure => {
                self.captures = unset_caps(n);
                ExecResult::NoMatch
            },
            RunEnd::OutOfSteps => {
                self.captures = unset_caps(n);
                ExecResult::ResourceLimit
            },
        };
        proof {
            let o = start_run(bc, t, pos as int, max_steps as nat).0;
            if !(o is OutOfSteps) {
                assert(ends(bc, t, pos as int));
                let fuel = choose|fuel: nat| !(#[trigger] start_run(bc, t, pos as int, fuel).0 is OutOfSteps);
                lemma_budgets_agree(bc, t, pos as int, fuel, max_steps as nat);
            }
        }
        r
    }

    /// Try to match the program at byte position `pos` of the text, with no
    /// budget but the 64-bit step counter. On a match the captures hold the
    /// groups; otherwise they are all unset.
    pub fn exec(&mut self, pos: usize) -> (r: ExecResult)
        ensures
            final(self).program() == old(self).program(),
            final(self).input() == old(self).input(),
            !(r is ResourceLimit) ==> (r, final(self).caps()) == spec_exec(old(self).program(), old(self).input(), pos as int),
            r is ResourceLimit ==> start_run(old(self).program(), old(self).input(), pos as int, u64::MAX as nat).0 is OutOfSteps
                && final(self).caps() == no_caps(slot_count(old(self).program())),
    {
        self.exec_with_budget(pos, u64::MAX)
    }
}

/// What `lre_exec` returns when the run does not end within the 64-bit step
/// counter.
pub const LRE_RET_TIMEOUT: i32 = -2;

/// Match the program `bc_buf` against the text `cbuf` from byte position
/// `cindex`: 1 on a match, with the capture slots in `capture`; 0 when
/// there is none, with every slot unset. `LRE_RET_TIMEOUT` comes only from
/// a run that has not ended after 2^64 - 1 instructions.
pub fn lre_exec(capture: &mut Vec<Option<usize>>, bc_buf: &[u8], cbuf: &[u8], cindex: usize) -> (r: i32)
    ensures
        r != LRE_RET_TIMEOUT ==> r == match spec_exec(bc_buf@, cbuf@, cindex as int).0 {
            ExecResult::Match => 1i32,
            ExecResult::NoMatch => 0i32,
            ExecResult::ResourceLimit => LRE_RET_TIMEOUT,
        } && final(capture)@ == spec_exec(bc_buf@, cbuf@, cindex as int).1,
        r == LRE_RET_TIMEOUT ==> start_run(bc_buf@, cbuf@, cindex as int, u64::MAX as nat).0 is OutOfSteps
            && final(capture)@ == no_caps(slot_count(bc_buf@)),
        r == 1 || r == 0 || r == LRE_RET_TIMEOUT,
{
    let mut ctx = ExecContext::new(bc_buf, cbuf);
    let res = ctx.exec(cindex);
    *capture = ctx.captures;
    match res {
        ExecResult::Match => 1,
        ExecResult::NoMatch => 0,
        ExecResult::ResourceLimit => LRE_RET_TIMEOUT,
    }
}

/// A run never hands back more steps than it was given.
pub proof fn lemma_run_steps_le(
    bc: Seq<u8>,
    t: Seq<u8>,
    pc: int,
    pos: int,
    caps: Seq<Option<usize>>,
    fuel: nat,
)
    ensures
        run(bc, t, pc, pos, caps, fuel).1 <= fuel,
    decreases fuel,
{
    if fuel > 0 && 0 <= pc < bc.len() {
        let f = (fuel - 1) as nat;
        let op = bc[pc];
        if op == 14 || op == 15 {
            if pc + 5 <= bc.len() {
                let jump = pc + 5 + read_i32(bc, pc + 1);
                let next = pc + 5;
                let (first, second) = if op == 14 { (jump, next) } else { (next, jump) };
                lemma_run_steps_le(bc, t, first, pos, caps, f);
                let (r1, f1) = run(bc, t, first, pos, caps, f);
                if r1 is Failure {
                    lemma_run_steps_le(bc, t, second, pos, caps, f1);
                }
            }
        } else if op == 40 || op == 41 {
            if pc + 5 <= bc.len() {
                let after = pc + 5 + read_i32(bc, pc + 1);
                lemma_run_steps_le(bc, t, pc + 5, pos, caps, f);
                let (r1, f1) = run(bc, t, pc + 5, pos, caps, f);
                match r1 {
                    Outcome::Success { caps: caps1, .. } => {
                        lemma_run_steps_le(bc, t, after, pos, caps1, f1);
                    },
                    Outcome::Failure => {
                        lemma_run_steps_le(bc, t, after, pos, caps, f1);
                    },
                    _ => {},
                }
            }
        } else if 23 <= op <= 26 {
            if loop_split_ok(bc, pc, caps) {
                let idx = reg_slot(bc, bc[pc + 1] as int);
                let next = pc + 10;
                let jump = pc + 10 + read_i32(bc, pc + 6);
                let v = counter_dec(caps[idx]);
                let caps1 = caps.update(idx, Some(v as usize));
                lemma_run_steps_le(bc, t, jump, pos, caps1, f);
                lemma_run_steps_le(bc, t, next, pos, caps1, f);
                {
                    let (first, second) = if op == 23 || op == 25 { (jump, next) } else { (next, jump) };
                    lemma_run_steps_le(bc, t, first, pos, caps1, f);
                    let (r1, f1) = run(bc, t, first, pos, caps1, f);
                    if r1 is Failure {
                        lemma_run_steps_le(bc, t, second, pos, caps1, f1);
                    }
                }
            }
        } else if !(op == 16 || op == 17 || op == 18) {
            match step(bc, t, pc, pos, caps) {
                Some((pc2, pos2, caps2)) => {
                    lemma_run_steps_le(bc, t, pc2, pos2, caps2, f);
                },
                None => {},
            }
        }
    }
}

/// The step budget only cuts a run short: a run that decides within some
/// budget decides the same way with any larger one, and hands back the
/// extra steps unused.
pub proof fn lemma_run_more_steps(
    bc: Seq<u8>,
    t: Seq<u8>,
    pc: int,
    pos: int,
    caps: Seq<Option<usize>>,
    fuel: nat,
    extra: nat,
)
    requires
        !(run(bc, t, pc, pos, caps, fuel).0 is OutOfSteps),
    ensures
        run(bc, t, pc, pos, caps, fuel + extra) == (
            run(bc, t, pc, pos, caps, fuel).0,
            run(bc, t, pc, pos, caps, fuel).1 + extra,
        ),
    decreases fuel,
{
    let big = (fuel + extra) as nat;
    if fuel > 0 && 0 <= pc < bc.len() {
        let f = (fuel - 1) as nat;
        let g = (big - 1) as nat;
        assert(g == f + extra);
        let op = bc[pc];
        if op == 14 || op == 15 {
            if pc + 5 <= bc.len() {
                let jump = pc + 5 + read_i32(bc, pc + 1);
                let next = pc + 5;
                let (first, second) = if op == 14 { (jump, next) } else { (next, jump) };
                let (r1, f1) = run(bc, t, first, pos, caps, f);
                lemma_run_steps_le(bc, t, first, pos, caps, f);
                if !(r1 is OutOfSteps) {
                    lemma_run_more_steps(bc, t, first, pos, caps, f, extra);
                    if r1 is Failure {
                        lemma_run_more_steps(bc, t, second, pos, caps, f1, extra);
                    }
                }
            }
        } else if op == 40 || op == 41 {
            if pc + 5 <= bc.len() {
                let after = pc + 5 + read_i32(bc, pc + 1);
                let (r1, f1) = run(bc, t, pc + 5, pos, caps, f);
                lemma_run_steps_le(bc, t, pc + 5, pos, caps, f);
                if !(r1 is OutOfSteps) {
                    lemma_run_more_steps(bc, t, pc + 5, pos, caps, f, extra);
                    match r1 {
                        Outcome::Success { caps: caps1, .. } => {
                            if op == 40 {
                                lemma_run_more_steps(bc, t, after, pos, caps1, f1, extra);
                            }
                        },
                        Outcome::Failure => {
                            if op == 41 {
                                lemma_run_more_steps(bc, t, after, pos, caps, f1, extra);
                            }
                        },
                        _ => {},
                    }
                }
            }
        } else if 23 <= op <= 26 {
            if loop_split_ok(bc, pc, caps) {
                let idx = reg_slot(bc, bc[pc + 1] as int);
                let limit = read_u32(bc, pc + 2);
                let next = pc + 10;
                let jump = pc + 10 + read_i32(bc, pc + 6);
                let v = counter_dec(caps[idx]);
                let caps1 = caps.update(idx, Some(v as usize));
                if v > limit {
                    lemma_run_more_steps(bc, t, jump, pos, caps1, f, extra);
                } else if (op == 25 || op == 26) && caps[idx + 1] == Some(pos as usize) && v != limit {
                } else if v == 0 {
                    lemma_run_more_steps(bc, t, next, pos, caps1, f, extra);
                } else {
                    let (first, second) = if op == 23 || op == 25 { (jump, next) } else { (next, jump) };
                    let (r1, f1) = run(bc, t, first, pos, caps1, f);
                    lemma_run_steps_le(bc, t, first, pos, caps1, f);
                    if !(r1 is OutOfSteps) {
                        lemma_run_more_steps(bc, t, first, pos, caps1, f, extra);
                        if r1 is Failure {
                            lemma_run_more_steps(bc, t, second, pos, caps1, f1, extra);
                        }
                    }
                }
            }
        } else if !(op == 16 || op == 17 || op == 18) {
            match step(bc, t, pc, pos, caps) {
                Some((pc2, pos2, caps2)) => {
                    lemma_run_more_steps(bc, t, pc2, pos2, caps2, f, extra);
                },
                None => {},
            }
        }
    }
}

} // verus!
