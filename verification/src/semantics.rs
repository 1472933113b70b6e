//! What a pattern matches, stated over its syntax tree, and the proof that
//! the compiled program, run by the interpreter, finds exactly that.
//!
//! A node denotes the ordered list of ways it can match from a position:
//! each way is the position where the node's match ends and the captures it
//! leaves, in the order a backtracking matcher tries them. The code of a
//! node, placed anywhere in a program, ends the way the code after it ends
//! on the first of these ways on which that does not fail.
use vstd::prelude::*;
use crate::ast::SNode;
use crate::codegen::{pairs16, pairs32, fits16, class_code, lemma_pairs_len, sgen, sgen_seq, sgen_alt, jmp, op1, repeat, opt_code, opt_prefix, opt_segment, rep_code, max_cap, max_cap_seq, program, header, search_prefix};
use crate::compiler::{spec_compile, promoted_flags};
use crate::parser::{spec_parse, spec_count_captures, caps_of, caps_seq, numbered, lemma_captures_numbered_in_order};
use crate::interpreter::{ExecResult, spec_exec, start_run, ends, budget_result, no_caps, slot_count};
use crate::flags::Flags;
use crate::interpreter::{run, step, decode, is_line_terminator, line_terminator_before, at_word_boundary, Outcome};
use crate::ast::AnchorKind;
use crate::opcodes::{OpCode, opcode_byte, le16, le32, read_u16, read_u32, read_i32, lemma_le16_roundtrip, lemma_le32_roundtrip};
use crate::bytecode_builder::goto_offset;
use crate::interpreter::{lemma_run_more_steps, in_stored_ranges, read_bound, to_lower, to_upper, backref_end, backref_groups};
use crate::charclass::{canonical, in_iv, class_has, class_intervals, builtin_has, item_has, space_iv, digit_iv, word_iv, lemma_class_intervals};
use crate::ast::{BuiltinClass, ClassRange};

verus! {

/// How a run from some state ends when it is given as many steps as it
/// needs: with a match, without one, or (`OutOfSteps`) never.
pub open spec fn eventual(bc: Seq<u8>, t: Seq<u8>, pc: int, pos: int, caps: Seq<Option<usize>>) -> Outcome {
    if exists|f: nat| !(#[trigger] run(bc, t, pc, pos, caps, f).0 is OutOfSteps) {
        run(bc, t, pc, pos, caps, choose|f: nat| !(#[trigger] run(bc, t, pc, pos, caps, f).0 is OutOfSteps)).0
    } else {
        Outcome::OutOfSteps
    }
}

/// A run that ends within some budget ends the way it eventually does.
pub proof fn lemma_eventual_at(bc: Seq<u8>, t: Seq<u8>, pc: int, pos: int, caps: Seq<Option<usize>>, f: nat)
    requires
        !(run(bc, t, pc, pos, caps, f).0 is OutOfSteps),
    ensures
        eventual(bc, t, pc, pos, caps) == run(bc, t, pc, pos, caps, f).0,
{
    let g = choose|g: nat| !(#[trigger] run(bc, t, pc, pos, caps, g).0 is OutOfSteps);
    assert(!(run(bc, t, pc, pos, caps, g).0 is OutOfSteps));
    if f <= g {
        lemma_run_more_steps(bc, t, pc, pos, caps, f, (g - f) as nat);
    } else {
        lemma_run_more_steps(bc, t, pc, pos, caps, g, (f - g) as nat);
    }
}

/// A run that never ends runs out of every budget.
pub proof fn lemma_eventual_never(bc: Seq<u8>, t: Seq<u8>, pc: int, pos: int, caps: Seq<Option<usize>>, f: nat)
    requires
        eventual(bc, t, pc, pos, caps) is OutOfSteps,
    ensures
        run(bc, t, pc, pos, caps, f).0 is OutOfSteps,
{
    if !(run(bc, t, pc, pos, caps, f).0 is OutOfSteps) {
        lemma_eventual_at(bc, t, pc, pos, caps, f);
    }
}

/// An instruction that does not branch ends as the run after it, or fails.
pub proof fn lemma_eventual_step(bc: Seq<u8>, t: Seq<u8>, pc: int, pos: int, caps: Seq<Option<usize>>)
    requires
        0 <= pc < bc.len(),
        !(bc[pc] == 14 || bc[pc] == 15 || bc[pc] == 16 || bc[pc] == 17 || bc[pc] == 18 || bc[pc] == 40
            || bc[pc] == 41 || (23 <= bc[pc] <= 26)),
    ensures
        eventual(bc, t, pc, pos, caps) == match step(bc, t, pc, pos, caps) {
            Some((pc2, pos2, caps2)) => eventual(bc, t, pc2, pos2, caps2),
            None => Outcome::Failure,
        },
{
    match step(bc, t, pc, pos, caps) {
        None => {
            lemma_eventual_at(bc, t, pc, pos, caps, 1);
        },
        Some((pc2, pos2, caps2)) => {
            let e2 = eventual(bc, t, pc2, pos2, caps2);
            if e2 is OutOfSteps {
                assert forall|f: nat| !!(#[trigger] run(bc, t, pc, pos, caps, f).0 is OutOfSteps) by {
                    if f > 0 {
                        lemma_eventual_never(bc, t, pc2, pos2, caps2, (f - 1) as nat);
                    }
                }
            } else {
                let f2 = choose|f: nat| !(#[trigger] run(bc, t, pc2, pos2, caps2, f).0 is OutOfSteps);
                lemma_eventual_at(bc, t, pc2, pos2, caps2, f2);
                lemma_eventual_at(bc, t, pc, pos, caps, f2 + 1);
            }
        },
    }
}

/// A `match` ends the run with a match here.
pub proof fn lemma_eventual_match(bc: Seq<u8>, t: Seq<u8>, pc: int, pos: int, caps: Seq<Option<usize>>)
    requires
        0 <= pc < bc.len(),
        bc[pc] == 16,
    ensures
        eventual(bc, t, pc, pos, caps) == (Outcome::Success { pos, caps }),
{
    lemma_eventual_at(bc, t, pc, pos, caps, 1);
}

/// A `match` of any kind ends the current run with a match here.
pub proof fn lemma_eventual_any_match(bc: Seq<u8>, t: Seq<u8>, pc: int, pos: int, caps: Seq<Option<usize>>)
    requires
        0 <= pc < bc.len(),
        bc[pc] == 16 || bc[pc] == 17 || bc[pc] == 18,
    ensures
        eventual(bc, t, pc, pos, caps) == (Outcome::Success { pos, caps }),
{
    lemma_eventual_at(bc, t, pc, pos, caps, 1);
}

/// A lookahead runs its body on its own; a positive one goes on after it
/// with the body's captures when the body matches, a negative one with the
/// captures from before when it does not.
pub proof fn lemma_eventual_look(bc: Seq<u8>, t: Seq<u8>, pc: int, pos: int, caps: Seq<Option<usize>>, after: int)
    requires
        0 <= pc,
        pc + 5 <= bc.len(),
        bc[pc] == 40 || bc[pc] == 41,
        after == pc + 5 + read_i32(bc, pc + 1),
    ensures
        eventual(bc, t, pc, pos, caps) == match eventual(bc, t, pc + 5, pos, caps) {
            Outcome::OutOfSteps => Outcome::OutOfSteps,
            Outcome::Success { caps: c1, .. } => if bc[pc] == 40 {
                eventual(bc, t, after, pos, c1)
            } else {
                Outcome::Failure
            },
            Outcome::Failure => if bc[pc] == 40 {
                Outcome::Failure
            } else {
                eventual(bc, t, after, pos, caps)
            },
        },
{
    let e1 = eventual(bc, t, pc + 5, pos, caps);
    if e1 is OutOfSteps {
        assert forall|f: nat| !!(#[trigger] run(bc, t, pc, pos, caps, f).0 is OutOfSteps) by {
            if f > 0 {
                lemma_eventual_never(bc, t, pc + 5, pos, caps, (f - 1) as nat);
            }
        }
    } else {
        let f1 = choose|f: nat| !(#[trigger] run(bc, t, pc + 5, pos, caps, f).0 is OutOfSteps);
        lemma_eventual_at(bc, t, pc + 5, pos, caps, f1);
        let (r1, l1) = run(bc, t, pc + 5, pos, caps, f1);
        crate::interpreter::lemma_run_steps_le(bc, t, pc + 5, pos, caps, f1);
        let cont = match r1 {
            Outcome::Success { caps: c1, .. } => c1,
            _ => caps,
        };
        let goes_on = (r1 is Success && bc[pc] == 40) || (r1 is Failure && bc[pc] == 41);
        if !goes_on {
            lemma_eventual_at(bc, t, pc, pos, caps, f1 + 1);
        } else {
            let e2 = eventual(bc, t, after, pos, cont);
            if e2 is OutOfSteps {
                assert forall|f: nat| !!(#[trigger] run(bc, t, pc, pos, caps, f).0 is OutOfSteps) by {
                    if f > 0 {
                        let g = (f - 1) as nat;
                        let (q1, m1) = run(bc, t, pc + 5, pos, caps, g);
                        crate::interpreter::lemma_run_steps_le(bc, t, pc + 5, pos, caps, g);
                        if !(q1 is OutOfSteps) {
                            lemma_eventual_at(bc, t, pc + 5, pos, caps, g);
                            lemma_eventual_never(bc, t, after, pos, cont, m1);
                        }
                    }
                }
            } else {
                let f2 = choose|f: nat| !(#[trigger] run(bc, t, after, pos, cont, f).0 is OutOfSteps);
                lemma_eventual_at(bc, t, after, pos, cont, f2);
                lemma_run_more_steps(bc, t, pc + 5, pos, caps, f1, f2);
                lemma_run_more_steps(bc, t, after, pos, cont, f2, l1);
                lemma_eventual_at(bc, t, pc, pos, caps, f1 + f2 + 1);
            }
        }
    }
}

/// A split ends as its first way, or, when that fails, as its second.
pub proof fn lemma_eventual_split(
    bc: Seq<u8>,
    t: Seq<u8>,
    pc: int,
    pos: int,
    caps: Seq<Option<usize>>,
    first: int,
    second: int,
)
    requires
        0 <= pc,
        pc + 5 <= bc.len(),
        bc[pc] == 14 || bc[pc] == 15,
        first == (if bc[pc] == 14 { pc + 5 + read_i32(bc, pc + 1) } else { pc + 5 }),
        second == (if bc[pc] == 14 { pc + 5 } else { pc + 5 + read_i32(bc, pc + 1) }),
    ensures
        eventual(bc, t, pc, pos, caps) == match eventual(bc, t, first, pos, caps) {
            Outcome::Failure => eventual(bc, t, second, pos, caps),
            o => o,
        },
{
    let e1 = eventual(bc, t, first, pos, caps);
    if e1 is OutOfSteps {
        assert forall|f: nat| !!(#[trigger] run(bc, t, pc, pos, caps, f).0 is OutOfSteps) by {
            if f > 0 {
                lemma_eventual_never(bc, t, first, pos, caps, (f - 1) as nat);
            }
        }
    } else {
        let f1 = choose|f: nat| !(#[trigger] run(bc, t, first, pos, caps, f).0 is OutOfSteps);
        lemma_eventual_at(bc, t, first, pos, caps, f1);
        let (r1, l1) = run(bc, t, first, pos, caps, f1);
        crate::interpreter::lemma_run_steps_le(bc, t, first, pos, caps, f1);
        if !(r1 is Failure) {
            lemma_eventual_at(bc, t, pc, pos, caps, f1 + 1);
        } else {
            let e2 = eventual(bc, t, second, pos, caps);
            if e2 is OutOfSteps {
                assert forall|f: nat| !!(#[trigger] run(bc, t, pc, pos, caps, f).0 is OutOfSteps) by {
                    if f > 0 {
                        let g = (f - 1) as nat;
                        let (q1, m1) = run(bc, t, first, pos, caps, g);
                        crate::interpreter::lemma_run_steps_le(bc, t, first, pos, caps, g);
                        if !(q1 is OutOfSteps) {
                            lemma_eventual_at(bc, t, first, pos, caps, g);
                            lemma_eventual_never(bc, t, second, pos, caps, m1);
                        }
                    }
                }
            } else {
                let f2 = choose|f: nat| !(#[trigger] run(bc, t, second, pos, caps, f).0 is OutOfSteps);
                lemma_eventual_at(bc, t, second, pos, caps, f2);
                lemma_run_more_steps(bc, t, first, pos, caps, f1, f2);
                lemma_run_more_steps(bc, t, second, pos, caps, f2, l1);
                assert(l1 + f2 <= f1 + f2);
                lemma_eventual_at(bc, t, pc, pos, caps, f1 + f2 + 1);
            }
        }
    }
}

/// The capture slots a run carries.
pub type Caps = Seq<Option<usize>>;

/// The nodes whose matching is stated here: every kind but lookbehinds; a
/// repetition without an upper bound only of a node that always takes a
/// character (the compiled loop of one that can match the empty string
/// never ends).
pub open spec fn plain(n: SNode) -> bool
    decreases n, 0int,
{
    match n {
        SNode::Empty => true,
        SNode::Literal(_) => true,
        SNode::Dot => true,
        SNode::Class { .. } => true,
        SNode::Builtin(_) => true,
        SNode::BackRef(_) => true,
        SNode::Anchor(_) => true,
        SNode::WordBoundary { .. } => true,
        SNode::Lookahead { sub, .. } => plain(*sub),
        SNode::Repeat { sub, max, .. } => plain(*sub) && (max is Some || advances(*sub)),
        SNode::Group(sub) => plain(*sub),
        SNode::Capture { sub, .. } => plain(*sub),
        SNode::Concat(v) => plain_all(v),
        SNode::Alternation(v) => plain_all(v),
        _ => false,
    }
}

/// Every node of `v` is plain.
pub open spec fn plain_all(v: Seq<SNode>) -> bool
    decreases v, 0int,
{
    if v.len() == 0 {
        true
    } else {
        plain_all(v.subrange(0, v.len() - 1)) && plain(v[v.len() - 1])
    }
}

/// Whether every way of `n` takes at least one character.
pub open spec fn advances(n: SNode) -> bool
    decreases n, 0int,
{
    match n {
        SNode::Literal(_) => true,
        SNode::Dot => true,
        SNode::Class { .. } => true,
        SNode::Builtin(_) => true,
        SNode::Group(sub) => advances(*sub),
        SNode::Capture { sub, .. } => advances(*sub),
        SNode::Repeat { sub, min, .. } => min >= 1 && advances(*sub),
        SNode::Concat(v) => advances_some(v),
        SNode::Alternation(v) => v.len() > 0 && advances_each(v),
        _ => false,
    }
}

/// Some node of `v` always takes a character.
pub open spec fn advances_some(v: Seq<SNode>) -> bool
    decreases v, 0int,
{
    if v.len() == 0 {
        false
    } else {
        advances_some(v.subrange(0, v.len() - 1)) || advances(v[v.len() - 1])
    }
}

/// Every node of `v` always takes a character.
pub open spec fn advances_each(v: Seq<SNode>) -> bool
    decreases v, 0int,
{
    if v.len() == 0 {
        true
    } else {
        advances(v[0]) && advances_each(v.subrange(1, v.len() as int))
    }
}

/// How far `pos` lies from the end of `t` (zero outside the text).
pub open spec fn dist(t: Seq<u8>, pos: int) -> int {
    if 0 <= pos <= t.len() {
        t.len() - pos
    } else {
        0
    }
}

/// Whether a built-in class takes the decoded value `c`: `\s` and `\S` by
/// the white space list alone (so `\S` takes any value outside it), the
/// others by their code points.
pub open spec fn builtin_takes(b: BuiltinClass, c: int) -> bool {
    match b {
        BuiltinClass::Space => in_iv(space_iv(), c),
        BuiltinClass::NotSpace => !in_iv(space_iv(), c),
        _ => builtin_has(b, c),
    }
}

/// Whether an anchor holds at `pos`: `^` at the start of the text (or, in
/// multiline mode, after a line terminator), `$` at its end (or before a
/// line terminator).
pub open spec fn at_anchor(k: AnchorKind, fl: Flags, t: Seq<u8>, pos: int) -> bool {
    match k {
        AnchorKind::Start => pos == 0 || fl.has(Flags::MULTILINE) && line_terminator_before(t, pos),
        AnchorKind::End => pos == t.len() || fl.has(Flags::MULTILINE) && match decode(t, pos) {
            Some((c, _)) => is_line_terminator(c),
            None => false,
        },
    }
}

/// The ways node `n` matches the text `t` from byte position `pos` with
/// captures `caps`, in the order they are tried: for each, the position
/// where the match ends and the captures after it. `.` takes any character
/// when `fl` has `DOT_ALL`, else any but a line terminator; with
/// `IGNORE_CASE`, characters and classes also take the other ASCII case.
pub open spec fn ways(n: SNode, fl: Flags, t: Seq<u8>, pos: int, caps: Caps) -> Seq<(int, Caps)>
    decreases n, 0int, 0int,
{
    match n {
        SNode::Empty => seq![(pos, caps)],
        SNode::Literal(ch) => match decode(t, pos) {
            Some((d, l)) => if d == ch as u32 || fl.has(Flags::IGNORE_CASE) && to_lower(d) == to_lower(ch as u32) {
                seq![(pos + l, caps)]
            } else {
                Seq::empty()
            },
            None => Seq::empty(),
        },
        SNode::Dot => match decode(t, pos) {
            Some((d, l)) => if fl.has(Flags::DOT_ALL) || !is_line_terminator(d) {
                seq![(pos + l, caps)]
            } else {
                Seq::empty()
            },
            None => Seq::empty(),
        },
        SNode::Class { ranges, negated } => match decode(t, pos) {
            Some((d, l)) => if class_has(ranges, negated, d as int) || fl.has(Flags::IGNORE_CASE) && (class_has(
                ranges,
                negated,
                to_lower(d) as int,
            ) || class_has(ranges, negated, to_upper(d) as int)) {
                seq![(pos + l, caps)]
            } else {
                Seq::empty()
            },
            None => Seq::empty(),
        },
        SNode::Builtin(b) => match decode(t, pos) {
            Some((d, l)) => if builtin_takes(b, d as int) {
                seq![(pos + l, caps)]
            } else {
                Seq::empty()
            },
            None => Seq::empty(),
        },
        SNode::BackRef(i) => match backref_end(t, caps, i as int, pos, fl.has(Flags::IGNORE_CASE)) {
            Some(q) => seq![(q, caps)],
            None => Seq::empty(),
        },
        SNode::Anchor(k) => if at_anchor(k, fl, t, pos) {
            seq![(pos, caps)]
        } else {
            Seq::empty()
        },
        SNode::WordBoundary { negated } => if at_word_boundary(t, pos) != negated {
            seq![(pos, caps)]
        } else {
            Seq::empty()
        },
        SNode::Lookahead { sub, negative } => {
            let ws = ways(*sub, fl, t, pos, caps);
            if !negative && ws.len() > 0 {
                seq![(pos, ws[0].1)]
            } else if negative && ws.len() == 0 {
                seq![(pos, caps)]
            } else {
                Seq::empty()
            }
        },
        SNode::Repeat { sub, min, max, greedy } => match max {
            Some(mx) => if min <= mx {
                ways_opt_after(ways_rep(*sub, min as nat, fl, t, pos, caps), *sub, (mx - min) as nat, greedy, fl, t)
            } else {
                Seq::empty()
            },
            None => ways_stars(ways_rep(*sub, min as nat, fl, t, pos, caps), *sub, greedy, fl, t),
        },
        SNode::Group(sub) => ways(*sub, fl, t, pos, caps),
        SNode::Capture { index, sub, .. } => ways(
            *sub,
            fl,
            t,
            pos,
            caps.update(2 * index, Some(pos as usize)),
        ).map_values(|w: (int, Caps)| (w.0, w.1.update(2 * index + 1, Some(w.0 as usize)))),
        SNode::Concat(v) => ways_seq(v, fl, t, pos, caps),
        SNode::Alternation(v) => ways_alt(v, fl, t, pos, caps),
        _ => Seq::empty(),
    }
}

/// The ways a sequence of nodes matches: each way of all but the last,
/// followed by each way of the last from where it ends.
pub open spec fn ways_seq(v: Seq<SNode>, fl: Flags, t: Seq<u8>, pos: int, caps: Caps) -> Seq<(int, Caps)>
    decreases v, 0int, 0int,
{
    if v.len() == 0 {
        seq![(pos, caps)]
    } else {
        ways_after(ways_seq(v.subrange(0, v.len() - 1), fl, t, pos, caps), v[v.len() - 1], fl, t)
    }
}

/// The ways node `n` matches from the end of each way of `xs`, in turn.
pub open spec fn ways_after(xs: Seq<(int, Caps)>, n: SNode, fl: Flags, t: Seq<u8>) -> Seq<(int, Caps)>
    decreases n, 0int, xs.len(),
{
    if xs.len() == 0 {
        Seq::empty()
    } else {
        ways(n, fl, t, xs[0].0, xs[0].1) + ways_after(xs.subrange(1, xs.len() as int), n, fl, t)
    }
}

/// The ways `k` copies of `sub` match, one after another.
pub open spec fn ways_rep(sub: SNode, k: nat, fl: Flags, t: Seq<u8>, pos: int, caps: Caps) -> Seq<(int, Caps)>
    decreases sub, k + 1, 0int,
{
    if k == 0 {
        seq![(pos, caps)]
    } else {
        ways_after(ways_rep(sub, (k - 1) as nat, fl, t, pos, caps), sub, fl, t)
    }
}

/// The ways up to `k` more copies of `sub` match: a greedy repetition tries
/// one more copy (and then up to `k - 1` more) before stopping here, a lazy
/// one stops here first.
pub open spec fn ways_opt(sub: SNode, k: nat, greedy: bool, fl: Flags, t: Seq<u8>, pos: int, caps: Caps) -> Seq<(int, Caps)>
    decreases sub, k + 1, 0int,
{
    if k == 0 {
        seq![(pos, caps)]
    } else {
        let more = ways_opt_after(ways(sub, fl, t, pos, caps), sub, (k - 1) as nat, greedy, fl, t);
        if greedy {
            more + seq![(pos, caps)]
        } else {
            seq![(pos, caps)] + more
        }
    }
}

/// The ways up to `k` more copies of `sub` match from the end of each way of
/// `xs`, in turn.
pub open spec fn ways_opt_after(xs: Seq<(int, Caps)>, sub: SNode, k: nat, greedy: bool, fl: Flags, t: Seq<u8>) -> Seq<(int, Caps)>
    decreases sub, k + 1, xs.len(),
{
    if xs.len() == 0 {
        Seq::empty()
    } else {
        ways_opt(sub, k, greedy, fl, t, xs[0].0, xs[0].1) + ways_opt_after(xs.subrange(1, xs.len() as int), sub, k, greedy, fl, t)
    }
}

/// The ways any number of copies of `sub` match, for a `sub` that always
/// takes a character: a greedy repetition tries one more copy (and then any
/// number more) before stopping here, a lazy one stops here first.
pub open spec fn ways_star(sub: SNode, greedy: bool, fl: Flags, t: Seq<u8>, pos: int, caps: Caps) -> Seq<(int, Caps)>
    decreases sub, 2 * dist(t, pos) + 2, 0int,
{
    let more = ways_star_after(ways(sub, fl, t, pos, caps), sub, greedy, fl, t, pos);
    if greedy {
        more + seq![(pos, caps)]
    } else {
        seq![(pos, caps)] + more
    }
}

/// The ways any number of copies of `sub` match from the end of each way
/// of `xs`, in turn, where each way of `xs` has taken a character of the
/// text after `lo`.
pub open spec fn ways_star_after(xs: Seq<(int, Caps)>, sub: SNode, greedy: bool, fl: Flags, t: Seq<u8>, lo: int) -> Seq<(int, Caps)>
    decreases sub, 2 * dist(t, lo) + 1, xs.len(),
{
    if xs.len() == 0 {
        Seq::empty()
    } else {
        (if 0 <= lo < xs[0].0 <= t.len() {
            ways_star(sub, greedy, fl, t, xs[0].0, xs[0].1)
        } else {
            Seq::empty()
        }) + ways_star_after(xs.subrange(1, xs.len() as int), sub, greedy, fl, t, lo)
    }
}

/// The ways any number of copies of `sub` match from the end of each way of
/// `xs`, in turn.
pub open spec fn ways_stars(xs: Seq<(int, Caps)>, sub: SNode, greedy: bool, fl: Flags, t: Seq<u8>) -> Seq<(int, Caps)>
    decreases sub, 2 * t.len() + 3, xs.len(),
{
    if xs.len() == 0 {
        Seq::empty()
    } else {
        ways_star(sub, greedy, fl, t, xs[0].0, xs[0].1) + ways_stars(xs.subrange(1, xs.len() as int), sub, greedy, fl, t)
    }
}

/// The ways an alternation matches: those of its first alternative, then
/// those of the rest. With no alternative it matches the empty string.
pub open spec fn ways_alt(v: Seq<SNode>, fl: Flags, t: Seq<u8>, pos: int, caps: Caps) -> Seq<(int, Caps)>
    decreases v, 0int, 0int,
{
    if v.len() == 0 {
        seq![(pos, caps)]
    } else if v.len() == 1 {
        ways(v[0], fl, t, pos, caps)
    } else {
        ways(v[0], fl, t, pos, caps) + ways_alt(v.subrange(1, v.len() as int), fl, t, pos, caps)
    }
}

/// How the code at `b` ends, tried on the ways of `xs` in turn: the first
/// outcome that is not a failure.
pub open spec fn first_of(bc: Seq<u8>, t: Seq<u8>, b: int, xs: Seq<(int, Caps)>) -> Outcome
    decreases xs.len(),
{
    if xs.len() == 0 {
        Outcome::Failure
    } else {
        match eventual(bc, t, b, xs[0].0, xs[0].1) {
            Outcome::Failure => first_of(bc, t, b, xs.subrange(1, xs.len() as int)),
            o => o,
        }
    }
}

/// Trying two lists in turn is trying the first, then, if all its ways
/// fail, the second.
pub proof fn lemma_first_of_concat(bc: Seq<u8>, t: Seq<u8>, b: int, xs: Seq<(int, Caps)>, ys: Seq<(int, Caps)>)
    ensures
        first_of(bc, t, b, xs + ys) == match first_of(bc, t, b, xs) {
            Outcome::Failure => first_of(bc, t, b, ys),
            o => o,
        },
    decreases xs.len(),
{
    if xs.len() > 0 {
        assert((xs + ys).subrange(1, (xs + ys).len() as int) =~= xs.subrange(1, xs.len() as int) + ys);
        lemma_first_of_concat(bc, t, b, xs.subrange(1, xs.len() as int), ys);
    } else {
        assert(xs + ys =~= ys);
    }
}

/// Code at `m` that ends on each way as the code at `b` on its image under
/// `g`: trying the ways at `m` is trying their images at `b`.
pub proof fn lemma_first_of_map(bc: Seq<u8>, t: Seq<u8>, m: int, b: int, xs: Seq<(int, Caps)>, g: spec_fn((int, Caps)) -> (int, Caps))
    requires
        forall|i: int| 0 <= i < xs.len() ==> eventual(bc, t, m, xs[i].0, xs[i].1) == eventual(bc, t, b, #[trigger] g(xs[i]).0, g(xs[i]).1),
    ensures
        first_of(bc, t, m, xs) == first_of(bc, t, b, xs.map_values(g)),
    decreases xs.len(),
{
    if xs.len() > 0 {
        let rest = xs.subrange(1, xs.len() as int);
        assert(xs.map_values(g).subrange(1, xs.len() as int) =~= rest.map_values(g));
        assert(g(xs[0]) == xs.map_values(g)[0]);
        assert forall|i: int| 0 <= i < rest.len() implies eventual(bc, t, m, rest[i].0, rest[i].1) == eventual(bc, t, b, #[trigger] g(rest[i]).0, g(rest[i]).1) by {
            assert(rest[i] == xs[i + 1]);
        }
        lemma_first_of_map(bc, t, m, b, rest, g);
    }
}

/// Code at `m` that ends on each way of `xs` as the code at `b` on the ways
/// of `n` from there: trying `xs` at `m` is trying the ways of `n` after
/// them at `b`.
pub proof fn lemma_first_of_after(bc: Seq<u8>, t: Seq<u8>, m: int, b: int, xs: Seq<(int, Caps)>, n: SNode, fl: Flags)
    requires
        forall|i: int| 0 <= i < xs.len() ==> #[trigger] eventual(bc, t, m, xs[i].0, xs[i].1) == first_of(bc, t, b, ways(n, fl, t, xs[i].0, xs[i].1)),
    ensures
        first_of(bc, t, m, xs) == first_of(bc, t, b, ways_after(xs, n, fl, t)),
    decreases xs.len(),
{
    if xs.len() > 0 {
        let rest = xs.subrange(1, xs.len() as int);
        assert forall|i: int| 0 <= i < rest.len() implies #[trigger] eventual(bc, t, m, rest[i].0, rest[i].1) == first_of(bc, t, b, ways(n, fl, t, rest[i].0, rest[i].1)) by {
            assert(rest[i] == xs[i + 1]);
            assert(eventual(bc, t, m, xs[i + 1].0, xs[i + 1].1) == first_of(bc, t, b, ways(n, fl, t, xs[i + 1].0, xs[i + 1].1)));
        }
        lemma_first_of_after(bc, t, m, b, rest, n, fl);
        assert(eventual(bc, t, m, xs[0].0, xs[0].1) == first_of(bc, t, b, ways(n, fl, t, xs[0].0, xs[0].1)));
        lemma_first_of_concat(bc, t, b, ways(n, fl, t, xs[0].0, xs[0].1), ways_after(rest, n, fl, t));
    }
}


/// The same as `lemma_first_of_after`, for up to `k` more copies of `sub`
/// after each way.
pub proof fn lemma_first_of_opt_after(bc: Seq<u8>, t: Seq<u8>, m: int, b: int, xs: Seq<(int, Caps)>, sub: SNode, k: nat, greedy: bool, fl: Flags)
    requires
        forall|i: int| 0 <= i < xs.len() ==> #[trigger] eventual(bc, t, m, xs[i].0, xs[i].1) == first_of(bc, t, b, ways_opt(sub, k, greedy, fl, t, xs[i].0, xs[i].1)),
    ensures
        first_of(bc, t, m, xs) == first_of(bc, t, b, ways_opt_after(xs, sub, k, greedy, fl, t)),
    decreases xs.len(),
{
    if xs.len() > 0 {
        let rest = xs.subrange(1, xs.len() as int);
        assert forall|i: int| 0 <= i < rest.len() implies #[trigger] eventual(bc, t, m, rest[i].0, rest[i].1) == first_of(bc, t, b, ways_opt(sub, k, greedy, fl, t, rest[i].0, rest[i].1)) by {
            assert(rest[i] == xs[i + 1]);
            assert(eventual(bc, t, m, xs[i + 1].0, xs[i + 1].1) == first_of(bc, t, b, ways_opt(sub, k, greedy, fl, t, xs[i + 1].0, xs[i + 1].1)));
        }
        lemma_first_of_opt_after(bc, t, m, b, rest, sub, k, greedy, fl);
        assert(eventual(bc, t, m, xs[0].0, xs[0].1) == first_of(bc, t, b, ways_opt(sub, k, greedy, fl, t, xs[0].0, xs[0].1)));
        lemma_first_of_concat(bc, t, b, ways_opt(sub, k, greedy, fl, t, xs[0].0, xs[0].1), ways_opt_after(rest, sub, k, greedy, fl, t));
    }
}

/// The same as `lemma_after_len`, for up to `k` more copies.
proof fn lemma_opt_after_len(xs: Seq<(int, Caps)>, sub: SNode, k: nat, greedy: bool, fl: Flags, t: Seq<u8>, l: nat)
    requires
        forall|i: int| 0 <= i < xs.len() ==> all_len(#[trigger] ways_opt(sub, k, greedy, fl, t, xs[i].0, xs[i].1), l),
    ensures
        all_len(ways_opt_after(xs, sub, k, greedy, fl, t), l),
    decreases xs.len(),
{
    if xs.len() > 0 {
        let rest = xs.subrange(1, xs.len() as int);
        assert forall|i: int| 0 <= i < rest.len() implies all_len(#[trigger] ways_opt(sub, k, greedy, fl, t, rest[i].0, rest[i].1), l) by {
            assert(rest[i] == xs[i + 1]);
            assert(all_len(ways_opt(sub, k, greedy, fl, t, xs[i + 1].0, xs[i + 1].1), l));
        }
        lemma_opt_after_len(rest, sub, k, greedy, fl, t, l);
        let w0 = ways_opt(sub, k, greedy, fl, t, xs[0].0, xs[0].1);
        assert(all_len(w0, l));
        let wa = ways_opt_after(xs, sub, k, greedy, fl, t);
        assert forall|j: int| 0 <= j < wa.len() implies (#[trigger] wa[j]).1.len() == l by {
            if j < w0.len() {
                assert(w0[j].1.len() == l);
            } else {
                assert(wa[j] == ways_opt_after(rest, sub, k, greedy, fl, t)[j - w0.len()]);
            }
        }
    }
}

/// Trying one way is how the code ends on it.
proof fn lemma_first_of_one(bc: Seq<u8>, t: Seq<u8>, b: int, x: (int, Caps))
    ensures
        first_of(bc, t, b, seq![x]) == eventual(bc, t, b, x.0, x.1),
{
    assert(first_of(bc, t, b, seq![x].subrange(1, 1)) == Outcome::Failure);
}

/// The optional copies from the `i`-th on, as the code lays them out one
/// after another.
pub open spec fn opt_suffix(s: Seq<u8>, k: nat, i: nat, greedy: bool) -> Seq<u8>
    decreases k - i,
{
    if i >= k {
        Seq::empty()
    } else {
        opt_segment(s, k, i as int, greedy) + opt_suffix(s, k, i + 1, greedy)
    }
}

/// The optional copies, laid out from the first: the code of `k` optional
/// copies; each takes five bytes more than the copy itself.
proof fn lemma_opt_suffix(s: Seq<u8>, k: nat, i: nat, greedy: bool)
    requires
        i <= k,
    ensures
        opt_prefix(s, k, i, greedy) + opt_suffix(s, k, i, greedy) == opt_code(s, k, greedy),
        opt_suffix(s, k, i, greedy).len() == (k - i) * (s.len() + 5),
    decreases k - i,
{
    if i < k {
        lemma_opt_suffix(s, k, i + 1, greedy);
        assert(opt_prefix(s, k, i + 1, greedy) == opt_prefix(s, k, i, greedy) + opt_segment(s, k, i as int, greedy));
        assert(opt_prefix(s, k, i, greedy) + opt_suffix(s, k, i, greedy) =~= opt_prefix(s, k, i + 1, greedy) + opt_suffix(s, k, i + 1, greedy));
        let l = s.len() + 5;
        assert((k - i) * l == l + (k - (i + 1)) * l) by (nonlinear_arith)
            requires i < k;
    } else {
        assert(opt_prefix(s, k, i, greedy) + opt_suffix(s, k, i, greedy) =~= opt_prefix(s, k, k, greedy));
    }
}

/// Code `c` stands in `bc` from position `a` on.
pub open spec fn placed(bc: Seq<u8>, a: int, c: Seq<u8>) -> bool {
    0 <= a && a + c.len() <= bc.len() && bc.subrange(a, a + c.len()) == c
}

/// Code placed as a whole has each of its parts placed.
proof fn lemma_placed_split(bc: Seq<u8>, a: int, x: Seq<u8>, y: Seq<u8>)
    requires
        placed(bc, a, x + y),
    ensures
        placed(bc, a, x),
        placed(bc, a + x.len(), y),
{
    assert(bc.subrange(a, a + x.len()) =~= (x + y).subrange(0, x.len() as int));
    assert((x + y).subrange(0, x.len() as int) =~= x);
    assert(bc.subrange(a + x.len(), a + x.len() + y.len()) =~= (x + y).subrange(x.len() as int, (x + y).len() as int));
    assert((x + y).subrange(x.len() as int, (x + y).len() as int) =~= y);
}

/// A jump placed at `a` jumps `delta` bytes past its end.
proof fn lemma_jmp_read(bc: Seq<u8>, a: int, op: OpCode, delta: int)
    requires
        placed(bc, a, jmp(op, delta)),
        -0x8000_0000 <= delta < 0x8000_0000,
    ensures
        bc[a] == opcode_byte(op),
        read_i32(bc, a + 1) == delta,
{
    let c = jmp(op, delta);
    let u = goto_offset(0, delta);
    if delta >= 0 {
        assert(u == delta);
    } else {
        assert(u == delta + 0x1_0000_0000);
    }
    lemma_le32_roundtrip(u);
    assert(bc[a] == c[0]);
    assert(bc[a + 1] == c[1] && bc[a + 2] == c[2] && bc[a + 3] == c[3] && bc[a + 4] == c[4]);
    assert(read_u32(bc, a + 1) == read_u32(le32(u), 0));
}

/// The largest capture index of a sequence bounds those of its first node
/// and of the rest.
proof fn lemma_max_cap_first(v: Seq<SNode>)
    requires
        v.len() > 0,
    ensures
        max_cap(v[0]) <= max_cap_seq(v),
        max_cap_seq(v.subrange(1, v.len() as int)) <= max_cap_seq(v),
    decreases v.len(),
{
    if v.len() > 1 {
        let d = v.drop_last();
        lemma_max_cap_first(d);
        assert(d[0] == v[0]);
        assert(d.subrange(1, d.len() as int) =~= v.subrange(1, v.len() as int).drop_last());
        assert(v.subrange(1, v.len() as int).last() == v.last());
    } else {
        assert(v.drop_last() =~= Seq::<SNode>::empty());
        assert(v.subrange(1, v.len() as int) =~= Seq::<SNode>::empty());
    }
}

/// Plain sequences have a plain first node and a plain rest.
proof fn lemma_plain_first(v: Seq<SNode>)
    requires
        v.len() > 0,
        plain_all(v),
    ensures
        plain(v[0]),
        plain_all(v.subrange(1, v.len() as int)),
    decreases v.len(),
{
    let d = v.subrange(0, v.len() - 1);
    if v.len() > 1 {
        lemma_plain_first(d);
        assert(d[0] == v[0]);
        let r = v.subrange(1, v.len() as int);
        assert(r.subrange(0, r.len() - 1) =~= d.subrange(1, d.len() as int));
        assert(r[r.len() - 1] == v[v.len() - 1]);
    } else {
        assert(v.subrange(1, v.len() as int) =~= Seq::<SNode>::empty());
    }
}

/// What a back reference needs of the program and the captures: the
/// header is there, it counts more groups than the highest index `ncap` a
/// back reference can name, and the captures have slots for all of them.
pub open spec fn refs_fit(bc: Seq<u8>, ncap: nat, l: nat) -> bool {
    bc.len() >= 8 && ncap < bc[2] && 2 * ncap + 1 < l
}

/// Every way of `ws` carries `l` capture slots.
pub open spec fn all_len(ws: Seq<(int, Caps)>, l: nat) -> bool {
    forall|j: int| 0 <= j < ws.len() ==> (#[trigger] ws[j]).1.len() == l
}

/// The ways after a list keep the length of the captures when each way of
/// the node does.
proof fn lemma_after_len(xs: Seq<(int, Caps)>, n: SNode, fl: Flags, t: Seq<u8>, l: nat)
    requires
        forall|i: int| 0 <= i < xs.len() ==> all_len(#[trigger] ways(n, fl, t, xs[i].0, xs[i].1), l),
    ensures
        all_len(ways_after(xs, n, fl, t), l),
    decreases xs.len(),
{
    if xs.len() > 0 {
        let rest = xs.subrange(1, xs.len() as int);
        assert forall|i: int| 0 <= i < rest.len() implies all_len(#[trigger] ways(n, fl, t, rest[i].0, rest[i].1), l) by {
            assert(rest[i] == xs[i + 1]);
            assert(all_len(ways(n, fl, t, xs[i + 1].0, xs[i + 1].1), l));
        }
        lemma_after_len(rest, n, fl, t, l);
        let w0 = ways(n, fl, t, xs[0].0, xs[0].1);
        assert(all_len(w0, l));
        let wa = ways_after(xs, n, fl, t);
        assert forall|j: int| 0 <= j < wa.len() implies (#[trigger] wa[j]).1.len() == l by {
            if j < w0.len() {
                assert(w0[j].1.len() == l);
            } else {
                assert(wa[j] == ways_after(rest, n, fl, t)[j - w0.len()]);
            }
        }
    }
}

/// The interval pairs of a list, 16 bits per bound, placed at `start`, read
/// back as the list's bounds.
proof fn lemma_pairs16_read(iv: Seq<(u32, u32)>, bc: Seq<u8>, start: int)
    requires
        placed(bc, start, pairs16(iv)),
        forall|i: int| 0 <= i < iv.len() ==> (#[trigger] iv[i]).0 <= 0xFFFF && iv[i].1 <= 0xFFFF,
    ensures
        forall|k: int| 0 <= k < iv.len() ==> read_bound(bc, #[trigger] (start + 4 * k), 2) == iv[k].0 && read_bound(bc, start + 4 * k + 2, 2) == iv[k].1,
    decreases iv.len(),
{
    if iv.len() > 0 {
        let d = iv.drop_last();
        let lo = le16(iv.last().0 as u16);
        let hi = le16(iv.last().1 as u16);
        assert(pairs16(iv) == pairs16(d) + lo + hi);
        lemma_placed_split(bc, start, pairs16(d) + lo, hi);
        lemma_placed_split(bc, start, pairs16(d), lo);
        assert forall|i: int| 0 <= i < d.len() implies (#[trigger] d[i]).0 <= 0xFFFF && d[i].1 <= 0xFFFF by {
            assert(d[i] == iv[i]);
        }
        lemma_pairs16_read(d, bc, start);
        lemma_pairs_len(d);
        let p = start + 4 * d.len();
        lemma_le16_roundtrip(iv.last().0 as u16);
        lemma_le16_roundtrip(iv.last().1 as u16);
        assert(bc[p] == lo[0] && bc[p + 1] == lo[1]);
        assert(read_u16(bc, p) == read_u16(lo, 0));
        assert(bc[p + 2] == hi[0] && bc[p + 3] == hi[1]);
        assert(read_u16(bc, p + 2) == read_u16(hi, 0));
        assert forall|k: int| 0 <= k < iv.len() implies read_bound(bc, #[trigger] (start + 4 * k), 2) == iv[k].0 && read_bound(bc, start + 4 * k + 2, 2) == iv[k].1 by {
            if k < d.len() {
                assert(d[k] == iv[k]);
            }
        }
    }
}

/// The same, 32 bits per bound.
proof fn lemma_pairs32_read(iv: Seq<(u32, u32)>, bc: Seq<u8>, start: int)
    requires
        placed(bc, start, pairs32(iv)),
    ensures
        forall|k: int| 0 <= k < iv.len() ==> read_bound(bc, #[trigger] (start + 8 * k), 4) == iv[k].0 && read_bound(bc, start + 8 * k + 4, 4) == iv[k].1,
    decreases iv.len(),
{
    if iv.len() > 0 {
        let d = iv.drop_last();
        let lo = le32(iv.last().0);
        let hi = le32(iv.last().1);
        assert(pairs32(iv) == pairs32(d) + lo + hi);
        lemma_placed_split(bc, start, pairs32(d) + lo, hi);
        lemma_placed_split(bc, start, pairs32(d), lo);
        lemma_pairs32_read(d, bc, start);
        lemma_pairs_len(d);
        let p = start + 8 * d.len();
        lemma_le32_roundtrip(iv.last().0);
        lemma_le32_roundtrip(iv.last().1);
        assert(bc[p] == lo[0] && bc[p + 1] == lo[1] && bc[p + 2] == lo[2] && bc[p + 3] == lo[3]);
        assert(read_u32(bc, p) == read_u32(lo, 0));
        assert(bc[p + 4] == hi[0] && bc[p + 5] == hi[1] && bc[p + 6] == hi[2] && bc[p + 7] == hi[3]);
        assert(read_u32(bc, p + 4) == read_u32(hi, 0));
        assert forall|k: int| 0 <= k < iv.len() implies read_bound(bc, #[trigger] (start + 8 * k), 4) == iv[k].0 && read_bound(bc, start + 8 * k + 4, 4) == iv[k].1 by {
            if k < d.len() {
                assert(d[k] == iv[k]);
            }
        }
    }
}

/// Bounds stored `w` bytes wide from `start` that read back as the
/// intervals of `iv` hold exactly the values that `iv` holds.
proof fn lemma_stored_is_iv(iv: Seq<(u32, u32)>, bc: Seq<u8>, start: int, w: int, x: u32)
    requires
        w == 2 || w == 4,
        forall|k: int| 0 <= k < iv.len() ==> read_bound(bc, #[trigger] (start + 2 * w * k), w) == iv[k].0 && read_bound(bc, start + 2 * w * k + w, w) == iv[k].1,
    ensures
        in_stored_ranges(bc, start, iv.len() as int, w, x) == in_iv(iv, x as int),
{
    if in_iv(iv, x as int) {
        let k = choose|k: int| 0 <= k < iv.len() && (#[trigger] iv[k]).0 <= x as int && x as int <= iv[k].1;
        assert(read_bound(bc, start + 2 * w * k, w) == iv[k].0);
    }
    if in_stored_ranges(bc, start, iv.len() as int, w, x) {
        let k = choose|k: int| 0 <= k < iv.len() && #[trigger] read_bound(bc, start + 2 * w * k, w) <= x && x <= read_bound(bc, start + 2 * w * k + w, w);
        assert(read_bound(bc, start + 2 * w * k, w) == iv[k].0);
        assert(iv[k].0 <= x as int && x as int <= iv[k].1);
    }
}

/// Whether a class with intervals `iv` takes the character `d`: when
/// matching without case, also when it holds the character's lower or upper
/// case form.
pub open spec fn iv_takes(iv: Seq<(u32, u32)>, ic: bool, d: u32) -> bool {
    in_iv(iv, d as int) || ic && (in_iv(iv, to_lower(d) as int) || in_iv(iv, to_upper(d) as int))
}

/// The code of a class, placed at `a`: one instruction of that length,
/// which takes a character exactly when the intervals do.
#[verifier::rlimit(40)]
proof fn lemma_class_code(iv: Seq<(u32, u32)>, ic: bool, bc: Seq<u8>, t: Seq<u8>, a: int, pos: int, caps: Caps)
    requires
        canonical(iv),
        iv.len() <= 0xFFFF,
        placed(bc, a, class_code(iv, ic)),
    ensures
        eventual(bc, t, a, pos, caps) == match decode(t, pos) {
            Some((d, l)) => if iv_takes(iv, ic, d) {
                eventual(bc, t, a + class_code(iv, ic).len(), pos + l, caps)
            } else {
                Outcome::Failure
            },
            None => Outcome::Failure,
        },
{
    let c = class_code(iv, ic);
    let n = iv.len();
    lemma_pairs_len(iv);
    lemma_le16_roundtrip(n as u16);
    let w: int = if fits16(iv) { 2 } else { 4 };
    let op = if fits16(iv) {
        if ic { OpCode::RangeI } else { OpCode::Range }
    } else {
        if ic { OpCode::Range32I } else { OpCode::Range32 }
    };
    let head = op1(op) + le16(n as u16);
    let body = if fits16(iv) { pairs16(iv) } else { pairs32(iv) };
    assert(c == head + body);
    lemma_placed_split(bc, a, head, body);
    assert(bc[a] == c[0]);
    assert(bc[a + 1] == head[1] && bc[a + 2] == head[2]);
    assert(read_u16(bc, a + 1) == read_u16(le16(n as u16), 0));
    if fits16(iv) {
        assert forall|i: int| 0 <= i < iv.len() implies (#[trigger] iv[i]).0 <= 0xFFFF && iv[i].1 <= 0xFFFF by {
            assert(iv[i].1 <= 0xFFFF);
        }
        lemma_pairs16_read(iv, bc, a + 3);
        assert forall|k: int| 0 <= k < iv.len() implies read_bound(bc, #[trigger] (a + 3 + 2 * w * k), w) == iv[k].0 && read_bound(bc, a + 3 + 2 * w * k + w, w) == iv[k].1 by {
            assert(a + 3 + 2 * w * k == a + 3 + 4 * k);
        }
    } else {
        lemma_pairs32_read(iv, bc, a + 3);
        assert forall|k: int| 0 <= k < iv.len() implies read_bound(bc, #[trigger] (a + 3 + 2 * w * k), w) == iv[k].0 && read_bound(bc, a + 3 + 2 * w * k + w, w) == iv[k].1 by {
            assert(a + 3 + 2 * w * k == a + 3 + 8 * k);
        }
    }
    assert(a + 3 + 2 * w * n == a + c.len());
    lemma_eventual_step(bc, t, a, pos, caps);
    match decode(t, pos) {
        Some((d, l)) => {
            lemma_stored_is_iv(iv, bc, a + 3, w, d);
            lemma_stored_is_iv(iv, bc, a + 3, w, to_lower(d));
            lemma_stored_is_iv(iv, bc, a + 3, w, to_upper(d));
        },
        None => {},
    }
}

/// The code of a character or `.` at `a`: one instruction, which takes the
/// character when the node does.
proof fn lemma_code_leaf(n: SNode, fl: Flags, ncap: nat, bc: Seq<u8>, t: Seq<u8>, a: int, pos: int, caps: Caps)
    requires
        n is Literal || n is Dot || n is Anchor || n is WordBoundary,
        sgen(n, fl, ncap, false) is Ok,
        placed(bc, a, sgen(n, fl, ncap, false)->Ok_0),
    ensures
        eventual(bc, t, a, pos, caps) == first_of(
            bc,
            t,
            a + sgen(n, fl, ncap, false)->Ok_0.len(),
            ways(n, fl, t, pos, caps),
        ),
        all_len(ways(n, fl, t, pos, caps), caps.len()),
{
    let c = sgen(n, fl, ncap, false)->Ok_0;
    let b = a + c.len();
    match n {
        SNode::Literal(ch) => {
            let v = ch as u32;
            if v <= 0xFFFF {
                lemma_le16_roundtrip(v as u16);
                assert(bc[a] == c[0] && bc[a + 1] == c[1] && bc[a + 2] == c[2]);
                assert(read_u16(bc, a + 1) == read_u16(le16(v as u16), 0));
            } else {
                lemma_le32_roundtrip(v);
                assert(bc[a] == c[0] && bc[a + 1] == c[1] && bc[a + 2] == c[2] && bc[a + 3] == c[3] && bc[a + 4] == c[4]);
                assert(read_u32(bc, a + 1) == read_u32(le32(v), 0));
            }
        },
        _ => {
            assert(bc[a] == c[0]);
        },
    }
    lemma_eventual_step(bc, t, a, pos, caps);
    if n is Literal || n is Dot {
        match decode(t, pos) {
            Some((d, l)) => {
                assert(first_of(bc, t, b, seq![(pos + l, caps)].subrange(1, 1)) == Outcome::Failure);
            },
            None => {},
        }
    } else {
        assert(first_of(bc, t, b, seq![(pos, caps)].subrange(1, 1)) == Outcome::Failure);
    }
}

/// The intervals of a built-in class other than `\s` and `\S`, written out.
pub open spec fn builtin_list(b: BuiltinClass) -> Seq<(u32, u32)> {
    match b {
        BuiltinClass::Digit => digit_iv(),
        BuiltinClass::NotDigit => seq![(0u32, 0x2Fu32), (0x3Au32, 0x10FFFFu32)],
        BuiltinClass::Word => word_iv(),
        _ => seq![(0u32, 0x2Fu32), (0x3Au32, 0x40u32), (0x5Bu32, 0x5Eu32), (0x60u32, 0x60u32), (0x7Bu32, 0x10FFFFu32)],
    }
}

/// The canonical intervals of a built-in class other than `\s` and `\S`
/// are the ones written out, so there are few of them.
#[verifier::rlimit(60)]
proof fn lemma_builtin_list(b: BuiltinClass)
    requires
        !(b is Space || b is NotSpace),
    ensures
        class_intervals(seq![ClassRange::Builtin(b)], false) == builtin_list(b),
        builtin_list(b).len() <= 5,
{
    let items = seq![ClassRange::Builtin(b)];
    let e = builtin_list(b);
    lemma_class_intervals(items, false);
    assert(canonical(e));
    assert forall|c: int| in_iv(e, c) == class_has(items, false, c) by {
        if builtin_has(b, c) {
            assert(item_has(items[0], c));
        }
        if class_has(items, false, c) {
            let i = choose|i: int| 0 <= i < items.len() && #[trigger] item_has(items[i], c);
            assert(i == 0);
        }
        let w = word_iv();
        let d = digit_iv();
        if in_iv(e, c) {
            let i = choose|i: int| 0 <= i < e.len() && (#[trigger] e[i]).0 <= c && c <= e[i].1;
            if in_iv(w, c) {
                let j = choose|j: int| 0 <= j < w.len() && (#[trigger] w[j]).0 <= c && c <= w[j].1;
            }
            if in_iv(d, c) {
                let j = choose|j: int| 0 <= j < d.len() && (#[trigger] d[j]).0 <= c && c <= d[j].1;
            }
        } else if builtin_has(b, c) {
            if b is Digit {
                let j = choose|j: int| 0 <= j < d.len() && (#[trigger] d[j]).0 <= c && c <= d[j].1;
            } else if b is Word {
                let j = choose|j: int| 0 <= j < w.len() && (#[trigger] w[j]).0 <= c && c <= w[j].1;
                assert(e[j].0 <= c && c <= e[j].1);
            } else if b is NotDigit {
                if c <= 0x2F {
                    assert(e[0].0 <= c && c <= e[0].1);
                } else if c >= 0x3A {
                    assert(e[1].0 <= c && c <= e[1].1);
                } else {
                    assert(d[0].0 <= c && c <= d[0].1);
                }
            } else {
                if c <= 0x2F {
                    assert(e[0].0 <= c && c <= e[0].1);
                } else if c <= 0x39 {
                    assert(w[0].0 <= c && c <= w[0].1);
                } else if c <= 0x40 {
                    assert(e[1].0 <= c && c <= e[1].1);
                } else if c <= 0x5A {
                    assert(w[1].0 <= c && c <= w[1].1);
                } else if c <= 0x5E {
                    assert(e[2].0 <= c && c <= e[2].1);
                } else if c == 0x5F {
                    assert(w[2].0 <= c && c <= w[2].1);
                } else if c == 0x60 {
                    assert(e[3].0 <= c && c <= e[3].1);
                } else if c <= 0x7A {
                    assert(w[3].0 <= c && c <= w[3].1);
                } else {
                    assert(e[4].0 <= c && c <= e[4].1);
                }
            }
        }
    }
    crate::charclass::lemma_canonical_unique(class_intervals(items, false), e);
}

/// The same for a class or a built-in class: one instruction, which takes
/// the character when the class does.
#[verifier::rlimit(40)]
proof fn lemma_code_class(n: SNode, fl: Flags, ncap: nat, bc: Seq<u8>, t: Seq<u8>, a: int, pos: int, caps: Caps)
    requires
        n is Class || n is Builtin,
        sgen(n, fl, ncap, false) is Ok,
        placed(bc, a, sgen(n, fl, ncap, false)->Ok_0),
    ensures
        eventual(bc, t, a, pos, caps) == first_of(
            bc,
            t,
            a + sgen(n, fl, ncap, false)->Ok_0.len(),
            ways(n, fl, t, pos, caps),
        ),
        all_len(ways(n, fl, t, pos, caps), caps.len()),
{
    let c = sgen(n, fl, ncap, false)->Ok_0;
    let b = a + c.len();
    match n {
        SNode::Class { ranges, negated } => {
            let iv = class_intervals(ranges, negated);
            lemma_class_intervals(ranges, negated);
            assert(c == class_code(iv, fl.has(Flags::IGNORE_CASE)));
            lemma_class_code(iv, fl.has(Flags::IGNORE_CASE), bc, t, a, pos, caps);
        },
        SNode::Builtin(bb) => {
            if bb is Space || bb is NotSpace {
                assert(bc[a] == c[0]);
                lemma_eventual_step(bc, t, a, pos, caps);
            } else {
                let items = seq![ClassRange::Builtin(bb)];
                let iv = class_intervals(items, false);
                lemma_class_intervals(items, false);
                lemma_builtin_list(bb);
                assert(c == class_code(iv, false));
                lemma_class_code(iv, false, bc, t, a, pos, caps);
                assert forall|x: int| class_has(items, false, x) == builtin_has(bb, x) by {
                    if builtin_has(bb, x) {
                        assert(item_has(items[0], x));
                    }
                    if class_has(items, false, x) {
                        let i = choose|i: int| 0 <= i < items.len() && #[trigger] item_has(items[i], x);
                        assert(i == 0);
                    }
                }
            }
        },
        _ => {},
    }
    match decode(t, pos) {
        Some((d, l)) => {
            assert(first_of(bc, t, b, seq![(pos + l, caps)].subrange(1, 1)) == Outcome::Failure);
        },
        None => {},
    }
}

/// The same for a back reference: one instruction, which takes the text of
/// the group again, or nothing when the group is unset or empty.
proof fn lemma_code_backref(n: SNode, fl: Flags, ncap: nat, bc: Seq<u8>, t: Seq<u8>, a: int, pos: int, caps: Caps)
    requires
        n is BackRef,
        sgen(n, fl, ncap, false) is Ok,
        placed(bc, a, sgen(n, fl, ncap, false)->Ok_0),
        refs_fit(bc, ncap, caps.len()),
    ensures
        eventual(bc, t, a, pos, caps) == first_of(
            bc,
            t,
            a + sgen(n, fl, ncap, false)->Ok_0.len(),
            ways(n, fl, t, pos, caps),
        ),
        all_len(ways(n, fl, t, pos, caps), caps.len()),
{
    let c = sgen(n, fl, ncap, false)->Ok_0;
    let b = a + c.len();
    match n {
        SNode::BackRef(i) => {
            assert(bc[a] == c[0] && bc[a + 1] == c[1] && bc[a + 2] == c[2]);
            assert(bc[a + 2] == i);
            let ic = fl.has(Flags::IGNORE_CASE);
            reveal_with_fuel(backref_groups, 3);
            assert(backref_groups(bc, t, caps, a + 2, 1, 0, pos, ic, false) == backref_end(t, caps, i as int, pos, ic));
            lemma_eventual_step(bc, t, a, pos, caps);
            match backref_end(t, caps, i as int, pos, ic) {
                Some(q) => {
                    assert(first_of(bc, t, b, seq![(q, caps)].subrange(1, 1)) == Outcome::Failure);
                },
                None => {},
            }
        },
        _ => {},
    }
}

/// The code of a plain node, placed at `a`, ends as the code after it ends
/// on the first of the node's ways on which that does not fail; each way
/// keeps the number of capture slots.
#[verifier::rlimit(50)]
pub proof fn lemma_code(n: SNode, fl: Flags, ncap: nat, bc: Seq<u8>, t: Seq<u8>, a: int, pos: int, caps: Caps)
    requires
        plain(n),
        sgen(n, fl, ncap, false) is Ok,
        placed(bc, a, sgen(n, fl, ncap, false)->Ok_0),
        sgen(n, fl, ncap, false)->Ok_0.len() < 0x8000_0000,
        2 * max_cap(n) + 1 < caps.len(),
        refs_fit(bc, ncap, caps.len()),
    ensures
        eventual(bc, t, a, pos, caps) == first_of(
            bc,
            t,
            a + sgen(n, fl, ncap, false)->Ok_0.len(),
            ways(n, fl, t, pos, caps),
        ),
        all_len(ways(n, fl, t, pos, caps), caps.len()),
    decreases n, 1int,
{
    match n {
        SNode::Empty => {
            assert(first_of(bc, t, a, seq![(pos, caps)].subrange(1, 1)) == Outcome::Failure);
        },
        SNode::Literal(_) => {
            lemma_code_leaf(n, fl, ncap, bc, t, a, pos, caps);
        },
        SNode::Dot => {
            lemma_code_leaf(n, fl, ncap, bc, t, a, pos, caps);
        },
        SNode::Class { .. } => {
            lemma_code_class(n, fl, ncap, bc, t, a, pos, caps);
        },
        SNode::Builtin(_) => {
            lemma_code_class(n, fl, ncap, bc, t, a, pos, caps);
        },
        SNode::BackRef(_) => {
            lemma_code_backref(n, fl, ncap, bc, t, a, pos, caps);
        },
        SNode::Anchor(_) => {
            lemma_code_leaf(n, fl, ncap, bc, t, a, pos, caps);
        },
        SNode::WordBoundary { .. } => {
            lemma_code_leaf(n, fl, ncap, bc, t, a, pos, caps);
        },
        SNode::Group(sub) => {
            lemma_code(*sub, fl, ncap, bc, t, a, pos, caps);
        },
        SNode::Capture { .. } => {
            lemma_code_capture(n, fl, ncap, bc, t, a, pos, caps);
        },
        SNode::Lookahead { .. } => {
            lemma_code_look(n, fl, ncap, bc, t, a, pos, caps);
        },
        SNode::Repeat { .. } => {
            lemma_code_repeat(n, fl, ncap, bc, t, a, pos, caps);
        },
        SNode::Concat(v) => {
            lemma_code_seq(v, fl, ncap, bc, t, a, pos, caps);
        },
        SNode::Alternation(v) => {
            lemma_code_alt(v, fl, ncap, bc, t, a, pos, caps);
        },
        _ => {},
    }
}

/// The same for a capture group: its start is saved, its body runs, then
/// its end is saved.
#[verifier::rlimit(50)]
proof fn lemma_code_capture(n: SNode, fl: Flags, ncap: nat, bc: Seq<u8>, t: Seq<u8>, a: int, pos: int, caps: Caps)
    requires
        n is Capture,
        plain(n),
        sgen(n, fl, ncap, false) is Ok,
        placed(bc, a, sgen(n, fl, ncap, false)->Ok_0),
        sgen(n, fl, ncap, false)->Ok_0.len() < 0x8000_0000,
        2 * max_cap(n) + 1 < caps.len(),
        refs_fit(bc, ncap, caps.len()),
    ensures
        eventual(bc, t, a, pos, caps) == first_of(
            bc,
            t,
            a + sgen(n, fl, ncap, false)->Ok_0.len(),
            ways(n, fl, t, pos, caps),
        ),
        all_len(ways(n, fl, t, pos, caps), caps.len()),
    decreases n, 0int,
{
    let da = fl;
    let c = sgen(n, fl, ncap, false)->Ok_0;
    let b = a + c.len();
    match n {
        SNode::Capture { index, sub, .. } => {
            let s = sgen(*sub, fl, ncap, false)->Ok_0;
            let open = seq![opcode_byte(OpCode::SaveStart), index as u8];
            let close = seq![opcode_byte(OpCode::SaveEnd), index as u8];
            assert(c == open + s + close);
            lemma_placed_split(bc, a, open + s, close);
            lemma_placed_split(bc, a, open, s);
            assert(bc[a] == 19 && bc[a + 1] == index as u8);
            let caps1 = caps.update(2 * index, Some(pos as usize));
            lemma_eventual_step(bc, t, a, pos, caps);
            lemma_code(*sub, fl, ncap, bc, t, a + 2, pos, caps1);
            let m = a + 2 + s.len();
            assert(bc[m] == 20 && bc[m + 1] == index as u8) by {
                assert(bc[m] == close[0] && bc[m + 1] == close[1]);
            }
            let xs = ways(*sub, da, t, pos, caps1);
            let g = |w: (int, Caps)| (w.0, w.1.update(2 * index + 1, Some(w.0 as usize)));
            assert forall|i: int| 0 <= i < xs.len() implies eventual(bc, t, m, xs[i].0, xs[i].1) == eventual(bc, t, b, #[trigger] g(xs[i]).0, g(xs[i]).1) by {
                assert(xs[i].1.len() == caps1.len());
                lemma_eventual_step(bc, t, m, xs[i].0, xs[i].1);
            }
            lemma_first_of_map(bc, t, m, b, xs, g);
            assert(ways(n, da, t, pos, caps) == xs.map_values(g));
            assert forall|j: int| 0 <= j < xs.map_values(g).len() implies (#[trigger] xs.map_values(g)[j]).1.len() == caps.len() by {
                assert(xs[j].1.len() == caps1.len());
            }
                },
        _ => {},
    }
}

/// The same for a lookahead: its body runs on its own up to its own
/// `match`, then the run goes on after the lookahead, or fails.
#[verifier::rlimit(60)]
proof fn lemma_code_look(n: SNode, fl: Flags, ncap: nat, bc: Seq<u8>, t: Seq<u8>, a: int, pos: int, caps: Caps)
    requires
        n is Lookahead,
        plain(n),
        sgen(n, fl, ncap, false) is Ok,
        placed(bc, a, sgen(n, fl, ncap, false)->Ok_0),
        sgen(n, fl, ncap, false)->Ok_0.len() < 0x8000_0000,
        2 * max_cap(n) + 1 < caps.len(),
        refs_fit(bc, ncap, caps.len()),
    ensures
        eventual(bc, t, a, pos, caps) == first_of(
            bc,
            t,
            a + sgen(n, fl, ncap, false)->Ok_0.len(),
            ways(n, fl, t, pos, caps),
        ),
        all_len(ways(n, fl, t, pos, caps), caps.len()),
    decreases n, 0int,
{
    let c = sgen(n, fl, ncap, false)->Ok_0;
    let b = a + c.len();
    match n {
        SNode::Lookahead { sub, negative } => {
            let s = sgen(*sub, fl, ncap, false)->Ok_0;
            let j = jmp(if negative { OpCode::NegativeLookahead } else { OpCode::Lookahead }, s.len() + 1int);
            let e = op1(if negative { OpCode::NegativeLookaheadMatch } else { OpCode::LookaheadMatch });
            assert(c == j + s + e);
            lemma_placed_split(bc, a, j + s, e);
            lemma_placed_split(bc, a, j, s);
            lemma_jmp_read(bc, a, if negative { OpCode::NegativeLookahead } else { OpCode::Lookahead }, s.len() + 1int);
            let m: int = a + 5 + s.len() as int;
            assert(bc[m] == 17 || bc[m] == 18) by {
                assert(bc[m] == e[0]);
            }
            lemma_eventual_look(bc, t, a, pos, caps, b);
            lemma_code(*sub, fl, ncap, bc, t, a + 5, pos, caps);
            let ws = ways(*sub, fl, t, pos, caps);
            if ws.len() > 0 {
                lemma_eventual_any_match(bc, t, m, ws[0].0, ws[0].1);
                assert(ws[0].1.len() == caps.len());
                assert(first_of(bc, t, b, seq![(pos, ws[0].1)].subrange(1, 1)) == Outcome::Failure);
            } else {
                assert(first_of(bc, t, b, seq![(pos, caps)].subrange(1, 1)) == Outcome::Failure);
            }
        },
        _ => {},
    }
}

/// The same for `k` copies of a plain node, one after another.
proof fn lemma_code_rep(sub: SNode, k: nat, fl: Flags, ncap: nat, bc: Seq<u8>, t: Seq<u8>, a: int, pos: int, caps: Caps)
    requires
        plain(sub),
        sgen(sub, fl, ncap, false) is Ok,
        placed(bc, a, repeat(sgen(sub, fl, ncap, false)->Ok_0, k)),
        repeat(sgen(sub, fl, ncap, false)->Ok_0, k).len() < 0x8000_0000,
        2 * max_cap(sub) + 1 < caps.len(),
        refs_fit(bc, ncap, caps.len()),
    ensures
        eventual(bc, t, a, pos, caps) == first_of(
            bc,
            t,
            a + repeat(sgen(sub, fl, ncap, false)->Ok_0, k).len(),
            ways_rep(sub, k, fl, t, pos, caps),
        ),
        all_len(ways_rep(sub, k, fl, t, pos, caps), caps.len()),
    decreases sub, k + 2,
{
    let s = sgen(sub, fl, ncap, false)->Ok_0;
    if k == 0 {
        lemma_first_of_one(bc, t, a, (pos, caps));
    } else {
        let p = repeat(s, (k - 1) as nat);
        assert(repeat(s, k) == p + s);
        lemma_placed_split(bc, a, p, s);
        lemma_code_rep(sub, (k - 1) as nat, fl, ncap, bc, t, a, pos, caps);
        let m = a + p.len();
        let b = m + s.len();
        let xs = ways_rep(sub, (k - 1) as nat, fl, t, pos, caps);
        assert forall|i: int|
            #![trigger eventual(bc, t, m, xs[i].0, xs[i].1)]
            #![trigger ways(sub, fl, t, xs[i].0, xs[i].1)]
            0 <= i < xs.len() implies eventual(bc, t, m, xs[i].0, xs[i].1) == first_of(bc, t, b, ways(sub, fl, t, xs[i].0, xs[i].1))
            && all_len(ways(sub, fl, t, xs[i].0, xs[i].1), caps.len()) by {
            assert(xs[i].1.len() == caps.len());
            lemma_code(sub, fl, ncap, bc, t, m, xs[i].0, xs[i].1);
        }
        lemma_first_of_after(bc, t, m, b, xs, sub, fl);
        lemma_after_len(xs, sub, fl, t, caps.len());
    }
}

/// Where the parts of the optional copies from the `i`-th on stand: the
/// split, the copy after it, the copies after that, and the end, which the
/// split's jump reaches.
proof fn lemma_opt_layout(s: Seq<u8>, k: nat, i: nat, greedy: bool, bc: Seq<u8>, a: int)
    requires
        i < k,
        placed(bc, a, opt_suffix(s, k, i, greedy)),
        opt_suffix(s, k, i, greedy).len() < 0x8000_0000,
    ensures
        placed(bc, a + 5, s),
        placed(bc, a + 5 + s.len(), opt_suffix(s, k, i + 1, greedy)),
        a + 5 + s.len() + opt_suffix(s, k, i + 1, greedy).len() == a + opt_suffix(s, k, i, greedy).len(),
        bc[a] == (if greedy { 15u8 } else { 14u8 }),
        a + 5 + read_i32(bc, a + 1) == a + opt_suffix(s, k, i, greedy).len(),
        a + 5 <= bc.len(),
{
    lemma_opt_suffix(s, k, i, greedy);
    lemma_opt_suffix(s, k, i + 1, greedy);
    let l = s.len();
    let off = (k - 1 - i) * (l + 5) + l;
    let op = if greedy { OpCode::SplitNextFirst } else { OpCode::SplitGotoFirst };
    let sp = jmp(op, off);
    let rest = opt_suffix(s, k, i + 1, greedy);
    assert(opt_suffix(s, k, i, greedy) == sp + s + rest);
    lemma_placed_split(bc, a, sp + s, rest);
    lemma_placed_split(bc, a, sp, s);
    assert(off == rest.len() + l) by (nonlinear_arith)
        requires off == (k - 1 - i) * (l + 5) + l, rest.len() == (k - (i + 1)) * (l + 5);
    lemma_jmp_read(bc, a, op, off);
}

/// One optional copy and the ones after it: tried before (greedy) or after
/// (lazy) stopping here.
proof fn lemma_opt_combine(bc: Seq<u8>, t: Seq<u8>, a: int, b: int, pos: int, caps: Caps, sub: SNode, kk: nat, greedy: bool, fl: Flags)
    requires
        eventual(bc, t, a, pos, caps) == if greedy {
            match eventual(bc, t, a + 5, pos, caps) {
                Outcome::Failure => eventual(bc, t, b, pos, caps),
                o => o,
            }
        } else {
            match eventual(bc, t, b, pos, caps) {
                Outcome::Failure => eventual(bc, t, a + 5, pos, caps),
                o => o,
            }
        },
        eventual(bc, t, a + 5, pos, caps) == first_of(bc, t, b, ways_opt_after(ways(sub, fl, t, pos, caps), sub, kk, greedy, fl, t)),
        all_len(ways_opt_after(ways(sub, fl, t, pos, caps), sub, kk, greedy, fl, t), caps.len()),
    ensures
        eventual(bc, t, a, pos, caps) == first_of(bc, t, b, ways_opt(sub, kk + 1, greedy, fl, t, pos, caps)),
        all_len(ways_opt(sub, kk + 1, greedy, fl, t, pos, caps), caps.len()),
{
    let more = ways_opt_after(ways(sub, fl, t, pos, caps), sub, kk, greedy, fl, t);
    lemma_first_of_one(bc, t, b, (pos, caps));
    assert((kk + 1) as nat - 1 == kk);
    if greedy {
        lemma_first_of_concat(bc, t, b, more, seq![(pos, caps)]);
        assert forall|j: int| 0 <= j < (more + seq![(pos, caps)]).len() implies (#[trigger] (more + seq![(pos, caps)])[j]).1.len() == caps.len() by {
            if j < more.len() {
                assert(more[j].1.len() == caps.len());
            }
        }
    } else {
        lemma_first_of_concat(bc, t, b, seq![(pos, caps)], more);
        assert forall|j: int| 0 <= j < (seq![(pos, caps)] + more).len() implies (#[trigger] (seq![(pos, caps)] + more)[j]).1.len() == caps.len() by {
            if j >= 1 {
                assert((seq![(pos, caps)] + more)[j] == more[j - 1]);
            }
        }
    }
}

/// The same for the optional copies from the `i`-th on: each one is tried
/// (first when greedy, last when lazy) before skipping all the rest.
#[verifier::rlimit(60)]
proof fn lemma_code_opt(sub: SNode, k: nat, i: nat, greedy: bool, fl: Flags, ncap: nat, bc: Seq<u8>, t: Seq<u8>, a: int, pos: int, caps: Caps)
    requires
        plain(sub),
        sgen(sub, fl, ncap, false) is Ok,
        i <= k,
        placed(bc, a, opt_suffix(sgen(sub, fl, ncap, false)->Ok_0, k, i, greedy)),
        opt_suffix(sgen(sub, fl, ncap, false)->Ok_0, k, i, greedy).len() < 0x8000_0000,
        2 * max_cap(sub) + 1 < caps.len(),
        refs_fit(bc, ncap, caps.len()),
    ensures
        eventual(bc, t, a, pos, caps) == first_of(
            bc,
            t,
            a + opt_suffix(sgen(sub, fl, ncap, false)->Ok_0, k, i, greedy).len(),
            ways_opt(sub, (k - i) as nat, greedy, fl, t, pos, caps),
        ),
        all_len(ways_opt(sub, (k - i) as nat, greedy, fl, t, pos, caps), caps.len()),
    decreases sub, k - i + 2,
{
    let s = sgen(sub, fl, ncap, false)->Ok_0;
    if i == k {
        lemma_first_of_one(bc, t, a, (pos, caps));
    } else {
        lemma_opt_layout(s, k, i, greedy, bc, a);
        let rest = opt_suffix(s, k, i + 1, greedy);
        let r0 = a + 5 + s.len();
        let b = r0 + rest.len();
        if greedy {
            lemma_eventual_split(bc, t, a, pos, caps, a + 5, b);
        } else {
            lemma_eventual_split(bc, t, a, pos, caps, b, a + 5);
        }
        lemma_code(sub, fl, ncap, bc, t, a + 5, pos, caps);
        let xs = ways(sub, fl, t, pos, caps);
        let kk = (k - (i + 1)) as nat;
        assert forall|j: int|
            #![trigger eventual(bc, t, r0, xs[j].0, xs[j].1)]
            #![trigger ways_opt(sub, kk, greedy, fl, t, xs[j].0, xs[j].1)]
            0 <= j < xs.len() implies eventual(bc, t, r0, xs[j].0, xs[j].1) == first_of(bc, t, b, ways_opt(sub, kk, greedy, fl, t, xs[j].0, xs[j].1))
            && all_len(ways_opt(sub, kk, greedy, fl, t, xs[j].0, xs[j].1), caps.len()) by {
            assert(xs[j].1.len() == caps.len());
            lemma_code_opt(sub, k, i + 1, greedy, fl, ncap, bc, t, r0, xs[j].0, xs[j].1);
        }
        lemma_first_of_opt_after(bc, t, r0, b, xs, sub, kk, greedy, fl);
        lemma_opt_after_len(xs, sub, kk, greedy, fl, t, caps.len());
        assert((k - i) as nat == kk + 1);
        lemma_opt_combine(bc, t, a, b, pos, caps, sub, kk, greedy, fl);
    }
}

/// The same for a repetition: its least number of copies, then the
/// optional ones, or the loop over any number more.
proof fn lemma_code_repeat(n: SNode, fl: Flags, ncap: nat, bc: Seq<u8>, t: Seq<u8>, a: int, pos: int, caps: Caps)
    requires
        n is Repeat,
        plain(n),
        sgen(n, fl, ncap, false) is Ok,
        placed(bc, a, sgen(n, fl, ncap, false)->Ok_0),
        sgen(n, fl, ncap, false)->Ok_0.len() < 0x8000_0000,
        2 * max_cap(n) + 1 < caps.len(),
        refs_fit(bc, ncap, caps.len()),
    ensures
        eventual(bc, t, a, pos, caps) == first_of(
            bc,
            t,
            a + sgen(n, fl, ncap, false)->Ok_0.len(),
            ways(n, fl, t, pos, caps),
        ),
        all_len(ways(n, fl, t, pos, caps), caps.len()),
    decreases n, 0int,
{
    match n {
        SNode::Repeat { sub, min, max, greedy } => {
            match max {
                Some(mx) => {
                    lemma_code_repeat_upto(*sub, min, mx, greedy, fl, ncap, bc, t, a, pos, caps);
                },
                None => {
                    lemma_code_repeat_loop(*sub, min, greedy, fl, ncap, bc, t, a, pos, caps);
                },
            }
        },
        _ => {},
    }
}

/// The same for a repetition with an upper bound.
#[verifier::rlimit(60)]
proof fn lemma_code_repeat_upto(sub: SNode, min: u32, mx: u32, greedy: bool, fl: Flags, ncap: nat, bc: Seq<u8>, t: Seq<u8>, a: int, pos: int, caps: Caps)
    requires
        plain(sub),
        min <= mx,
        sgen(sub, fl, ncap, false) is Ok,
        placed(bc, a, rep_code(sgen(sub, fl, ncap, false)->Ok_0, min, Some(mx), greedy)),
        rep_code(sgen(sub, fl, ncap, false)->Ok_0, min, Some(mx), greedy).len() < 0x8000_0000,
        2 * max_cap(sub) + 1 < caps.len(),
        refs_fit(bc, ncap, caps.len()),
    ensures
        eventual(bc, t, a, pos, caps) == first_of(
            bc,
            t,
            a + rep_code(sgen(sub, fl, ncap, false)->Ok_0, min, Some(mx), greedy).len(),
            ways_opt_after(ways_rep(sub, min as nat, fl, t, pos, caps), sub, (mx - min) as nat, greedy, fl, t),
        ),
        all_len(ways_opt_after(ways_rep(sub, min as nat, fl, t, pos, caps), sub, (mx - min) as nat, greedy, fl, t), caps.len()),
    decreases sub, min + mx + 5,
{
    let s = sgen(sub, fl, ncap, false)->Ok_0;
    let k = (mx - min) as nat;
    let rp = repeat(s, min as nat);
    let oc = opt_code(s, k, greedy);
    assert(rep_code(s, min, Some(mx), greedy) == rp + oc);
    lemma_opt_suffix(s, k, 0, greedy);
    assert(opt_prefix(s, k, 0, greedy) =~= Seq::<u8>::empty());
    assert(oc =~= opt_suffix(s, k, 0, greedy));
    lemma_placed_split(bc, a, rp, oc);
    lemma_code_rep(sub, min as nat, fl, ncap, bc, t, a, pos, caps);
    let m = a + rp.len();
    let b = m + oc.len();
    let xs = ways_rep(sub, min as nat, fl, t, pos, caps);
    assert forall|j: int|
        #![trigger eventual(bc, t, m, xs[j].0, xs[j].1)]
        #![trigger ways_opt(sub, k, greedy, fl, t, xs[j].0, xs[j].1)]
        0 <= j < xs.len() implies eventual(bc, t, m, xs[j].0, xs[j].1) == first_of(bc, t, b, ways_opt(sub, k, greedy, fl, t, xs[j].0, xs[j].1))
        && all_len(ways_opt(sub, k, greedy, fl, t, xs[j].0, xs[j].1), caps.len()) by {
        assert(xs[j].1.len() == caps.len());
        lemma_code_opt(sub, k, 0, greedy, fl, ncap, bc, t, m, xs[j].0, xs[j].1);
    }
    lemma_first_of_opt_after(bc, t, m, b, xs, sub, k, greedy, fl);
    lemma_opt_after_len(xs, sub, k, greedy, fl, t, caps.len());
}

/// Where the loop of a repetition without an upper bound stands, after its
/// least number of copies at `a`: the split at the end of those copies, the
/// copy it tries (returned), which leads back to the split, and the end of
/// the code, where the split leaves to. With one least copy, the loop jumps
/// back over that copy itself.
proof fn lemma_loop_layout(s: Seq<u8>, min: u32, greedy: bool, bc: Seq<u8>, t: Seq<u8>, a: int) -> (bs: int)
    requires
        placed(bc, a, rep_code(s, min, None, greedy)),
        rep_code(s, min, None, greedy).len() < 0x8000_0000,
    ensures
        placed(bc, a, repeat(s, min as nat)),
        repeat(s, min as nat).len() <= rep_code(s, min, None, greedy).len(),
        s.len() <= rep_code(s, min, None, greedy).len(),
        placed(bc, bs, s),
        forall|p: int, cc: Caps| #[trigger] eventual(bc, t, bs + s.len(), p, cc) == eventual(bc, t, a + repeat(s, min as nat).len(), p, cc),
        forall|p: int, cc: Caps| #[trigger] eventual(bc, t, a + repeat(s, min as nat).len(), p, cc) == loop_split(bc, t, greedy, bs, a + rep_code(s, min, None, greedy).len(), p, cc),
{
    if min == 1 {
        lemma_plus_layout(s, greedy, bc, t, a)
    } else {
        lemma_star_layout(s, min, greedy, bc, t, a)
    }
}

/// How the split of a loop ends: trying the copy at `bs` first (greedy) or
/// leaving to `b` first (lazy).
pub open spec fn loop_split(bc: Seq<u8>, t: Seq<u8>, greedy: bool, bs: int, b: int, p: int, cc: Caps) -> Outcome {
    if greedy {
        match eventual(bc, t, bs, p, cc) {
            Outcome::Failure => eventual(bc, t, b, p, cc),
            o => o,
        }
    } else {
        match eventual(bc, t, b, p, cc) {
            Outcome::Failure => eventual(bc, t, bs, p, cc),
            o => o,
        }
    }
}

/// The loop of a repetition with one least copy.
#[verifier::rlimit(40)]
proof fn lemma_plus_layout(s: Seq<u8>, greedy: bool, bc: Seq<u8>, t: Seq<u8>, a: int) -> (bs: int)
    requires
        placed(bc, a, rep_code(s, 1, None, greedy)),
        rep_code(s, 1, None, greedy).len() < 0x8000_0000,
    ensures
        placed(bc, a, repeat(s, 1)),
        repeat(s, 1).len() <= rep_code(s, 1, None, greedy).len(),
        s.len() <= rep_code(s, 1, None, greedy).len(),
        placed(bc, bs, s),
        forall|p: int, cc: Caps| #[trigger] eventual(bc, t, bs + s.len(), p, cc) == eventual(bc, t, a + repeat(s, 1).len(), p, cc),
        forall|p: int, cc: Caps| #[trigger] eventual(bc, t, a + repeat(s, 1).len(), p, cc) == loop_split(bc, t, greedy, bs, a + rep_code(s, 1, None, greedy).len(), p, cc),
{
    let c = rep_code(s, 1, None, greedy);
    let m = a + s.len();
    let b = a + c.len();
    let op = if greedy { OpCode::SplitGotoFirst } else { OpCode::SplitNextFirst };
    let sp = jmp(op, -(s.len() + 5));
    assert(c == s + sp);
    assert(repeat(s, 1) =~= s) by {
        assert(repeat(s, 0) =~= Seq::<u8>::empty());
    }
    lemma_placed_split(bc, a, s, sp);
    lemma_jmp_read(bc, m, op, -(s.len() + 5));
    assert forall|p: int, cc: Caps| #[trigger] eventual(bc, t, m, p, cc) == loop_split(bc, t, greedy, a, b, p, cc) by {
        if greedy {
            lemma_eventual_split(bc, t, m, p, cc, a, b);
        } else {
            lemma_eventual_split(bc, t, m, p, cc, b, a);
        }
    }
    a
}

/// The loop of a repetition with another least number of copies.
#[verifier::rlimit(40)]
proof fn lemma_star_layout(s: Seq<u8>, min: u32, greedy: bool, bc: Seq<u8>, t: Seq<u8>, a: int) -> (bs: int)
    requires
        min != 1,
        placed(bc, a, rep_code(s, min, None, greedy)),
        rep_code(s, min, None, greedy).len() < 0x8000_0000,
    ensures
        placed(bc, a, repeat(s, min as nat)),
        repeat(s, min as nat).len() <= rep_code(s, min, None, greedy).len(),
        s.len() <= rep_code(s, min, None, greedy).len(),
        placed(bc, bs, s),
        forall|p: int, cc: Caps| #[trigger] eventual(bc, t, bs + s.len(), p, cc) == eventual(bc, t, a + repeat(s, min as nat).len(), p, cc),
        forall|p: int, cc: Caps| #[trigger] eventual(bc, t, a + repeat(s, min as nat).len(), p, cc) == loop_split(bc, t, greedy, bs, a + rep_code(s, min, None, greedy).len(), p, cc),
{
    let c = rep_code(s, min, None, greedy);
    let rp = repeat(s, min as nat);
    let m = a + rp.len();
    let b = a + c.len();
    let op = if greedy { OpCode::SplitNextFirst } else { OpCode::SplitGotoFirst };
    let sp = jmp(op, s.len() + 5int);
    let back = jmp(OpCode::Goto, -(s.len() + 10));
    assert(c == rp + (sp + s + back));
    lemma_placed_split(bc, a, rp, sp + s + back);
    lemma_placed_split(bc, m, sp + s, back);
    lemma_placed_split(bc, m, sp, s);
    let g = m + 5 + s.len();
    lemma_jmp_read(bc, m, op, s.len() + 5int);
    lemma_jmp_read(bc, g, OpCode::Goto, -(s.len() + 10));
    assert(b == g + 5);
    assert forall|p: int, cc: Caps| #[trigger] eventual(bc, t, g, p, cc) == eventual(bc, t, m, p, cc) by {
        lemma_eventual_step(bc, t, g, p, cc);
    }
    assert forall|p: int, cc: Caps| #[trigger] eventual(bc, t, m, p, cc) == loop_split(bc, t, greedy, m + 5, b, p, cc) by {
        if greedy {
            lemma_eventual_split(bc, t, m, p, cc, m + 5, b);
        } else {
            lemma_eventual_split(bc, t, m, p, cc, b, m + 5);
        }
    }
    m + 5
}

/// The same for a repetition without an upper bound: its least number of
/// copies, then the loop.
#[verifier::rlimit(60)]
proof fn lemma_code_repeat_loop(sub: SNode, min: u32, greedy: bool, fl: Flags, ncap: nat, bc: Seq<u8>, t: Seq<u8>, a: int, pos: int, caps: Caps)
    requires
        plain(sub),
        advances(sub),
        sgen(sub, fl, ncap, false) is Ok,
        placed(bc, a, rep_code(sgen(sub, fl, ncap, false)->Ok_0, min, None, greedy)),
        rep_code(sgen(sub, fl, ncap, false)->Ok_0, min, None, greedy).len() < 0x8000_0000,
        2 * max_cap(sub) + 1 < caps.len(),
        refs_fit(bc, ncap, caps.len()),
    ensures
        eventual(bc, t, a, pos, caps) == first_of(
            bc,
            t,
            a + rep_code(sgen(sub, fl, ncap, false)->Ok_0, min, None, greedy).len(),
            ways_stars(ways_rep(sub, min as nat, fl, t, pos, caps), sub, greedy, fl, t),
        ),
        all_len(ways_stars(ways_rep(sub, min as nat, fl, t, pos, caps), sub, greedy, fl, t), caps.len()),
    decreases sub, 2 * t.len() + min + 5,
{
    let s = sgen(sub, fl, ncap, false)->Ok_0;
    let c = rep_code(s, min, None, greedy);
    let rp = repeat(s, min as nat);
    let m = a + rp.len();
    let b = a + c.len();
    let bs = lemma_loop_layout(s, min, greedy, bc, t, a);
    lemma_code_rep(sub, min as nat, fl, ncap, bc, t, a, pos, caps);
    let xs = ways_rep(sub, min as nat, fl, t, pos, caps);
    assert forall|j: int|
        #![trigger eventual(bc, t, m, xs[j].0, xs[j].1)]
        #![trigger ways_star(sub, greedy, fl, t, xs[j].0, xs[j].1)]
        0 <= j < xs.len() implies eventual(bc, t, m, xs[j].0, xs[j].1) == first_of(bc, t, b, ways_star(sub, greedy, fl, t, xs[j].0, xs[j].1))
        && all_len(ways_star(sub, greedy, fl, t, xs[j].0, xs[j].1), caps.len()) by {
        assert(xs[j].1.len() == caps.len());
        lemma_loop_at(sub, greedy, fl, ncap, bc, t, bs, m, b, xs[j].0, xs[j].1);
    }
    lemma_first_of_stars(bc, t, m, b, xs, sub, greedy, fl);
    lemma_stars_len(xs, sub, greedy, fl, t, caps.len());
}

/// The same as `lemma_first_of_after`, for any number of copies after each
/// way of `xs`, each of which has taken a character after `lo`.
proof fn lemma_first_of_star_after(bc: Seq<u8>, t: Seq<u8>, m: int, b: int, xs: Seq<(int, Caps)>, sub: SNode, greedy: bool, fl: Flags, lo: int)
    requires
        bounded(xs, lo, t, true),
        forall|i: int| 0 <= i < xs.len() ==> #[trigger] eventual(bc, t, m, xs[i].0, xs[i].1) == first_of(bc, t, b, ways_star(sub, greedy, fl, t, xs[i].0, xs[i].1)),
    ensures
        first_of(bc, t, m, xs) == first_of(bc, t, b, ways_star_after(xs, sub, greedy, fl, t, lo)),
    decreases xs.len(),
{
    if xs.len() > 0 {
        let rest = xs.subrange(1, xs.len() as int);
        assert forall|i: int| 0 <= i < rest.len() implies ends_within(#[trigger] rest[i].0, lo, t, true) by {
            assert(rest[i] == xs[i + 1]);
        }
        assert forall|i: int| 0 <= i < rest.len() implies #[trigger] eventual(bc, t, m, rest[i].0, rest[i].1) == first_of(bc, t, b, ways_star(sub, greedy, fl, t, rest[i].0, rest[i].1)) by {
            assert(rest[i] == xs[i + 1]);
            assert(eventual(bc, t, m, xs[i + 1].0, xs[i + 1].1) == first_of(bc, t, b, ways_star(sub, greedy, fl, t, xs[i + 1].0, xs[i + 1].1)));
        }
        lemma_first_of_star_after(bc, t, m, b, rest, sub, greedy, fl, lo);
        assert(ends_within(xs[0].0, lo, t, true));
        assert(eventual(bc, t, m, xs[0].0, xs[0].1) == first_of(bc, t, b, ways_star(sub, greedy, fl, t, xs[0].0, xs[0].1)));
        lemma_first_of_concat(bc, t, b, ways_star(sub, greedy, fl, t, xs[0].0, xs[0].1), ways_star_after(rest, sub, greedy, fl, t, lo));
    }
}

/// The same as `lemma_first_of_after`, for any number of copies after each
/// way of `xs`.
proof fn lemma_first_of_stars(bc: Seq<u8>, t: Seq<u8>, m: int, b: int, xs: Seq<(int, Caps)>, sub: SNode, greedy: bool, fl: Flags)
    requires
        forall|i: int| 0 <= i < xs.len() ==> #[trigger] eventual(bc, t, m, xs[i].0, xs[i].1) == first_of(bc, t, b, ways_star(sub, greedy, fl, t, xs[i].0, xs[i].1)),
    ensures
        first_of(bc, t, m, xs) == first_of(bc, t, b, ways_stars(xs, sub, greedy, fl, t)),
    decreases xs.len(),
{
    if xs.len() > 0 {
        let rest = xs.subrange(1, xs.len() as int);
        assert forall|i: int| 0 <= i < rest.len() implies #[trigger] eventual(bc, t, m, rest[i].0, rest[i].1) == first_of(bc, t, b, ways_star(sub, greedy, fl, t, rest[i].0, rest[i].1)) by {
            assert(rest[i] == xs[i + 1]);
            assert(eventual(bc, t, m, xs[i + 1].0, xs[i + 1].1) == first_of(bc, t, b, ways_star(sub, greedy, fl, t, xs[i + 1].0, xs[i + 1].1)));
        }
        lemma_first_of_stars(bc, t, m, b, rest, sub, greedy, fl);
        assert(eventual(bc, t, m, xs[0].0, xs[0].1) == first_of(bc, t, b, ways_star(sub, greedy, fl, t, xs[0].0, xs[0].1)));
        lemma_first_of_concat(bc, t, b, ways_star(sub, greedy, fl, t, xs[0].0, xs[0].1), ways_stars(rest, sub, greedy, fl, t));
    }
}

/// Two lists that keep the number of capture slots, one after the other,
/// keep it.
proof fn lemma_all_len_concat(x: Seq<(int, Caps)>, y: Seq<(int, Caps)>, l: nat)
    requires
        all_len(x, l),
        all_len(y, l),
    ensures
        all_len(x + y, l),
{
    let z = x + y;
    assert forall|j: int| 0 <= j < z.len() implies (#[trigger] z[j]).1.len() == l by {
        if j < x.len() {
            assert(z[j] == x[j]);
        } else {
            assert(z[j] == y[j - x.len()]);
        }
    }
}

/// The same as `lemma_after_len`, for any number of copies after each way
/// that has taken a character after `lo`.
proof fn lemma_star_after_len(xs: Seq<(int, Caps)>, sub: SNode, greedy: bool, fl: Flags, t: Seq<u8>, lo: int, l: nat)
    requires
        forall|i: int| 0 <= i < xs.len() && 0 <= lo < xs[i].0 <= t.len() ==> all_len(#[trigger] ways_star(sub, greedy, fl, t, xs[i].0, xs[i].1), l),
    ensures
        all_len(ways_star_after(xs, sub, greedy, fl, t, lo), l),
    decreases xs.len(),
{
    if xs.len() > 0 {
        let rest = xs.subrange(1, xs.len() as int);
        assert forall|i: int| 0 <= i < rest.len() && 0 <= lo < rest[i].0 <= t.len() implies all_len(#[trigger] ways_star(sub, greedy, fl, t, rest[i].0, rest[i].1), l) by {
            assert(rest[i] == xs[i + 1]);
            assert(all_len(ways_star(sub, greedy, fl, t, xs[i + 1].0, xs[i + 1].1), l));
        }
        lemma_star_after_len(rest, sub, greedy, fl, t, lo, l);
        let x0 = xs[0];
        let w0: Seq<(int, Caps)> = if 0 <= lo < x0.0 <= t.len() {
            ways_star(sub, greedy, fl, t, x0.0, x0.1)
        } else {
            Seq::empty()
        };
        if 0 <= lo < x0.0 <= t.len() {
            assert(all_len(ways_star(sub, greedy, fl, t, xs[0].0, xs[0].1), l));
        }
        lemma_all_len_concat(w0, ways_star_after(rest, sub, greedy, fl, t, lo), l);
    }
}

/// The same as `lemma_after_len`, for any number of copies after each way.
proof fn lemma_stars_len(xs: Seq<(int, Caps)>, sub: SNode, greedy: bool, fl: Flags, t: Seq<u8>, l: nat)
    requires
        forall|i: int| 0 <= i < xs.len() ==> all_len(#[trigger] ways_star(sub, greedy, fl, t, xs[i].0, xs[i].1), l),
    ensures
        all_len(ways_stars(xs, sub, greedy, fl, t), l),
    decreases xs.len(),
{
    if xs.len() > 0 {
        let rest = xs.subrange(1, xs.len() as int);
        assert forall|i: int| 0 <= i < rest.len() implies all_len(#[trigger] ways_star(sub, greedy, fl, t, rest[i].0, rest[i].1), l) by {
            assert(rest[i] == xs[i + 1]);
            assert(all_len(ways_star(sub, greedy, fl, t, xs[i + 1].0, xs[i + 1].1), l));
        }
        lemma_stars_len(rest, sub, greedy, fl, t, l);
        assert(all_len(ways_star(sub, greedy, fl, t, xs[0].0, xs[0].1), l));
        lemma_all_len_concat(ways_star(sub, greedy, fl, t, xs[0].0, xs[0].1), ways_stars(rest, sub, greedy, fl, t), l);
    }
}

/// The loop of a repetition without an upper bound: a split at `sp` that
/// tries the copy of `sub` at `bs` (first when greedy, last when lazy)
/// before leaving to `b`, and the copy leads back to the split. From the
/// split, the run ends as the code at `b` on the first of the ways of any
/// number of copies on which that does not fail.
#[verifier::rlimit(60)]
proof fn lemma_loop_at(sub: SNode, greedy: bool, fl: Flags, ncap: nat, bc: Seq<u8>, t: Seq<u8>, bs: int, sp: int, b: int, pos: int, caps: Caps)
    requires
        plain(sub),
        advances(sub),
        sgen(sub, fl, ncap, false) is Ok,
        placed(bc, bs, sgen(sub, fl, ncap, false)->Ok_0),
        sgen(sub, fl, ncap, false)->Ok_0.len() < 0x8000_0000,
        2 * max_cap(sub) + 1 < caps.len(),
        refs_fit(bc, ncap, caps.len()),
        forall|p: int, cc: Caps| #[trigger] eventual(bc, t, bs + sgen(sub, fl, ncap, false)->Ok_0.len(), p, cc) == eventual(bc, t, sp, p, cc),
        forall|p: int, cc: Caps| #[trigger] eventual(bc, t, sp, p, cc) == loop_split(bc, t, greedy, bs, b, p, cc),
    ensures
        eventual(bc, t, sp, pos, caps) == first_of(bc, t, b, ways_star(sub, greedy, fl, t, pos, caps)),
        all_len(ways_star(sub, greedy, fl, t, pos, caps), caps.len()),
    decreases sub, 2 * dist(t, pos) + 2,
{
    let s = sgen(sub, fl, ncap, false)->Ok_0;
    let e = bs + s.len();
    lemma_code(sub, fl, ncap, bc, t, bs, pos, caps);
    lemma_ways_bounded(sub, fl, t, pos, caps);
    let xs = ways(sub, fl, t, pos, caps);
    assert forall|i: int|
        #![trigger eventual(bc, t, e, xs[i].0, xs[i].1)]
        #![trigger ways_star(sub, greedy, fl, t, xs[i].0, xs[i].1)]
        0 <= i < xs.len() implies eventual(bc, t, e, xs[i].0, xs[i].1) == first_of(bc, t, b, ways_star(sub, greedy, fl, t, xs[i].0, xs[i].1))
        && all_len(ways_star(sub, greedy, fl, t, xs[i].0, xs[i].1), caps.len()) by {
        assert(xs[i].1.len() == caps.len());
        assert(ends_within(xs[i].0, pos, t, true));
        assert(eventual(bc, t, e, xs[i].0, xs[i].1) == eventual(bc, t, sp, xs[i].0, xs[i].1));
        lemma_loop_at(sub, greedy, fl, ncap, bc, t, bs, sp, b, xs[i].0, xs[i].1);
    }
    lemma_first_of_star_after(bc, t, e, b, xs, sub, greedy, fl, pos);
    lemma_star_after_len(xs, sub, greedy, fl, t, pos, caps.len());
    let more = ways_star_after(xs, sub, greedy, fl, t, pos);
    lemma_first_of_one(bc, t, b, (pos, caps));
    assert(eventual(bc, t, sp, pos, caps) == loop_split(bc, t, greedy, bs, b, pos, caps));
    assert(all_len(seq![(pos, caps)], caps.len()));
    if greedy {
        lemma_first_of_concat(bc, t, b, more, seq![(pos, caps)]);
        lemma_all_len_concat(more, seq![(pos, caps)], caps.len());
    } else {
        lemma_first_of_concat(bc, t, b, seq![(pos, caps)], more);
        lemma_all_len_concat(seq![(pos, caps)], more, caps.len());
    }
}

/// The same for a sequence of plain nodes.
pub proof fn lemma_code_seq(v: Seq<SNode>, fl: Flags, ncap: nat, bc: Seq<u8>, t: Seq<u8>, a: int, pos: int, caps: Caps)
    requires
        plain_all(v),
        sgen_seq(v, fl, ncap, false) is Ok,
        placed(bc, a, sgen_seq(v, fl, ncap, false)->Ok_0),
        sgen_seq(v, fl, ncap, false)->Ok_0.len() < 0x8000_0000,
        2 * max_cap_seq(v) + 1 < caps.len(),
        refs_fit(bc, ncap, caps.len()),
    ensures
        eventual(bc, t, a, pos, caps) == first_of(
            bc,
            t,
            a + sgen_seq(v, fl, ncap, false)->Ok_0.len(),
            ways_seq(v, fl, t, pos, caps),
        ),
        all_len(ways_seq(v, fl, t, pos, caps), caps.len()),
    decreases v, 1int,
{
    let da = fl;
    if v.len() == 0 {
        assert(first_of(bc, t, a, seq![(pos, caps)].subrange(1, 1)) == Outcome::Failure);
    } else {
        let d = v.subrange(0, v.len() - 1);
        let last = v[v.len() - 1];
        assert(d == v.drop_last());
        let p = sgen_seq(d, fl, ncap, false)->Ok_0;
        let cl = sgen(last, fl, ncap, false)->Ok_0;
        assert(sgen_seq(v, fl, ncap, false)->Ok_0 == p + cl);
        lemma_placed_split(bc, a, p, cl);
        lemma_code_seq(d, fl, ncap, bc, t, a, pos, caps);
        let m = a + p.len();
        let b = m + cl.len();
        let xs = ways_seq(d, da, t, pos, caps);
        assert forall|i: int|
            #![trigger eventual(bc, t, m, xs[i].0, xs[i].1)]
            #![trigger ways(last, da, t, xs[i].0, xs[i].1)]
            0 <= i < xs.len() implies eventual(bc, t, m, xs[i].0, xs[i].1) == first_of(bc, t, b, ways(last, da, t, xs[i].0, xs[i].1))
            && all_len(ways(last, da, t, xs[i].0, xs[i].1), caps.len()) by {
            assert(xs[i].1.len() == caps.len());
            lemma_code(last, fl, ncap, bc, t, m, xs[i].0, xs[i].1);
        }
        lemma_first_of_after(bc, t, m, b, xs, last, da);
        lemma_after_len(xs, last, da, t, caps.len());
    }
}

/// The same for the alternatives of an alternation.
#[verifier::rlimit(100)]
#[verifier::spinoff_prover]
pub proof fn lemma_code_alt(v: Seq<SNode>, fl: Flags, ncap: nat, bc: Seq<u8>, t: Seq<u8>, a: int, pos: int, caps: Caps)
    requires
        plain_all(v),
        sgen_alt(v, fl, ncap, false) is Ok,
        placed(bc, a, sgen_alt(v, fl, ncap, false)->Ok_0),
        sgen_alt(v, fl, ncap, false)->Ok_0.len() < 0x8000_0000,
        2 * max_cap_seq(v) + 1 < caps.len(),
        refs_fit(bc, ncap, caps.len()),
    ensures
        eventual(bc, t, a, pos, caps) == first_of(
            bc,
            t,
            a + sgen_alt(v, fl, ncap, false)->Ok_0.len(),
            ways_alt(v, fl, t, pos, caps),
        ),
        all_len(ways_alt(v, fl, t, pos, caps), caps.len()),
    decreases v, 1int,
{
    let da = fl;
    if v.len() == 0 {
        assert(first_of(bc, t, a, seq![(pos, caps)].subrange(1, 1)) == Outcome::Failure);
    } else {
        lemma_plain_first(v);
        lemma_max_cap_first(v);
        if v.len() == 1 {
            lemma_code(v[0], fl, ncap, bc, t, a, pos, caps);
        } else {
            let rest = v.subrange(1, v.len() as int);
            assert(rest == v.drop_first());
            let c0 = sgen(v[0], fl, ncap, false)->Ok_0;
            let r = sgen_alt(rest, fl, ncap, false)->Ok_0;
            let sp = jmp(OpCode::SplitNextFirst, c0.len() + 5int);
            let gt = jmp(OpCode::Goto, r.len() as int);
            let c = sgen_alt(v, fl, ncap, false)->Ok_0;
            assert(c == sp + c0 + gt + r);
            lemma_placed_split(bc, a, sp + c0 + gt, r);
            lemma_placed_split(bc, a, sp + c0, gt);
            lemma_placed_split(bc, a, sp, c0);
            let g = a + 5 + c0.len();
            let b = g + 5 + r.len();
            lemma_jmp_read(bc, a, OpCode::SplitNextFirst, c0.len() + 5int);
            lemma_jmp_read(bc, g, OpCode::Goto, r.len() as int);
            lemma_eventual_split(bc, t, a, pos, caps, a + 5, g + 5);
            lemma_code(v[0], fl, ncap, bc, t, a + 5, pos, caps);
            lemma_code_alt(rest, fl, ncap, bc, t, g + 5, pos, caps);
            let xs = ways(v[0], da, t, pos, caps);
            let id = |w: (int, Caps)| w;
            assert forall|i: int| 0 <= i < xs.len() implies eventual(bc, t, g, xs[i].0, xs[i].1) == eventual(bc, t, b, #[trigger] id(xs[i]).0, id(xs[i]).1) by {
                lemma_eventual_step(bc, t, g, xs[i].0, xs[i].1);
            }
            lemma_first_of_map(bc, t, g, b, xs, id);
            assert(xs.map_values(id) =~= xs);
            lemma_first_of_concat(bc, t, b, xs, ways_alt(rest, da, t, pos, caps));
            let ys = ways_alt(rest, da, t, pos, caps);
            assert forall|j: int| 0 <= j < (xs + ys).len() implies (#[trigger] (xs + ys)[j]).1.len() == caps.len() by {
                if j < xs.len() {
                    assert(xs[j].1.len() == caps.len());
                } else {
                    assert((xs + ys)[j] == ys[j - xs.len()]);
                }
            }
        }
    }
}

/// Each way of `ws` ends at `pos` without taking a character (never when
/// `adv`), or after taking characters of the text from `pos` on.
pub open spec fn bounded(ws: Seq<(int, Caps)>, pos: int, t: Seq<u8>, adv: bool) -> bool {
    forall|j: int| 0 <= j < ws.len() ==> ends_within(#[trigger] ws[j].0, pos, t, adv)
}

/// A way that starts at `pos` ends at `e`: there without taking a character
/// (never when `adv`), or further on in the text.
pub open spec fn ends_within(e: int, pos: int, t: Seq<u8>, adv: bool) -> bool {
    (e == pos && !adv) || (0 <= pos && pos < e && e <= t.len())
}

/// Two bounded lists, one after the other, are bounded.
proof fn lemma_bounded_concat(x: Seq<(int, Caps)>, y: Seq<(int, Caps)>, pos: int, t: Seq<u8>, adv: bool)
    requires
        bounded(x, pos, t, adv),
        bounded(y, pos, t, adv),
    ensures
        bounded(x + y, pos, t, adv),
{
    let z = x + y;
    assert forall|j: int| 0 <= j < z.len() implies ends_within(#[trigger] z[j].0, pos, t, adv) by {
        if j < x.len() {
            assert(z[j] == x[j]);
            assert(ends_within(x[j].0, pos, t, adv));
        } else {
            let i = j - x.len();
            assert(z[j] == y[i]);
            assert(0 <= i < y.len());
            assert(ends_within(y[i].0, pos, t, adv));
        }
    }
    assert(bounded(z, pos, t, adv));
}

/// The ways of `n` after bounded ways, each bounded from where it starts,
/// are bounded from the start; they take a character when either part
/// always does.
proof fn lemma_after_bounded(xs: Seq<(int, Caps)>, n: SNode, fl: Flags, t: Seq<u8>, pos: int, adv1: bool, adv2: bool)
    requires
        bounded(xs, pos, t, adv1),
        forall|i: int| 0 <= i < xs.len() ==> bounded(#[trigger] ways(n, fl, t, xs[i].0, xs[i].1), xs[i].0, t, adv2),
    ensures
        bounded(ways_after(xs, n, fl, t), pos, t, adv1 || adv2),
    decreases xs.len(),
{
    if xs.len() > 0 {
        let rest = xs.subrange(1, xs.len() as int);
        assert forall|i: int| 0 <= i < rest.len() implies bounded(#[trigger] ways(n, fl, t, rest[i].0, rest[i].1), rest[i].0, t, adv2) by {
            assert(rest[i] == xs[i + 1]);
            assert(bounded(ways(n, fl, t, xs[i + 1].0, xs[i + 1].1), xs[i + 1].0, t, adv2));
        }
        assert forall|j: int| 0 <= j < rest.len() implies ends_within(#[trigger] rest[j].0, pos, t, adv1) by {
            assert(rest[j] == xs[j + 1]);
        }
        lemma_after_bounded(rest, n, fl, t, pos, adv1, adv2);
        let w0 = ways(n, fl, t, xs[0].0, xs[0].1);
        assert(bounded(w0, xs[0].0, t, adv2));
        let x0 = xs[0];
        assert(ends_within(x0.0, pos, t, adv1));
        assert(bounded(w0, pos, t, adv1 || adv2)) by {
            assert forall|j: int| 0 <= j < w0.len() implies ends_within(#[trigger] w0[j].0, pos, t, adv1 || adv2) by {
                assert(ends_within(w0[j].0, x0.0, t, adv2));
            }
        }
        lemma_bounded_concat(w0, ways_after(rest, n, fl, t), pos, t, adv1 || adv2);
    }
}

/// The same for up to `k` more copies after each way.
proof fn lemma_opt_after_bounded(xs: Seq<(int, Caps)>, sub: SNode, k: nat, greedy: bool, fl: Flags, t: Seq<u8>, pos: int, adv1: bool)
    requires
        bounded(xs, pos, t, adv1),
        forall|i: int| 0 <= i < xs.len() ==> bounded(#[trigger] ways_opt(sub, k, greedy, fl, t, xs[i].0, xs[i].1), xs[i].0, t, false),
    ensures
        bounded(ways_opt_after(xs, sub, k, greedy, fl, t), pos, t, adv1),
    decreases xs.len(),
{
    if xs.len() > 0 {
        let rest = xs.subrange(1, xs.len() as int);
        assert forall|i: int| 0 <= i < rest.len() implies bounded(#[trigger] ways_opt(sub, k, greedy, fl, t, rest[i].0, rest[i].1), rest[i].0, t, false) by {
            assert(rest[i] == xs[i + 1]);
            assert(bounded(ways_opt(sub, k, greedy, fl, t, xs[i + 1].0, xs[i + 1].1), xs[i + 1].0, t, false));
        }
        assert forall|j: int| 0 <= j < rest.len() implies ends_within(#[trigger] rest[j].0, pos, t, adv1) by {
            assert(rest[j] == xs[j + 1]);
        }
        lemma_opt_after_bounded(rest, sub, k, greedy, fl, t, pos, adv1);
        let w0 = ways_opt(sub, k, greedy, fl, t, xs[0].0, xs[0].1);
        assert(bounded(w0, xs[0].0, t, false));
        let x0 = xs[0];
        assert(ends_within(x0.0, pos, t, adv1));
        assert(bounded(w0, pos, t, adv1)) by {
            assert forall|j: int| 0 <= j < w0.len() implies ends_within(#[trigger] w0[j].0, pos, t, adv1) by {
                assert(ends_within(w0[j].0, x0.0, t, false));
            }
        }
        lemma_bounded_concat(w0, ways_opt_after(rest, sub, k, greedy, fl, t), pos, t, adv1);
    }
}

/// The same for any number of copies after each way.
proof fn lemma_stars_bounded(xs: Seq<(int, Caps)>, sub: SNode, greedy: bool, fl: Flags, t: Seq<u8>, pos: int, adv1: bool)
    requires
        bounded(xs, pos, t, adv1),
        forall|i: int| 0 <= i < xs.len() ==> bounded(#[trigger] ways_star(sub, greedy, fl, t, xs[i].0, xs[i].1), xs[i].0, t, false),
    ensures
        bounded(ways_stars(xs, sub, greedy, fl, t), pos, t, adv1),
    decreases xs.len(),
{
    if xs.len() > 0 {
        let rest = xs.subrange(1, xs.len() as int);
        assert forall|i: int| 0 <= i < rest.len() implies bounded(#[trigger] ways_star(sub, greedy, fl, t, rest[i].0, rest[i].1), rest[i].0, t, false) by {
            assert(rest[i] == xs[i + 1]);
            assert(bounded(ways_star(sub, greedy, fl, t, xs[i + 1].0, xs[i + 1].1), xs[i + 1].0, t, false));
        }
        assert forall|j: int| 0 <= j < rest.len() implies ends_within(#[trigger] rest[j].0, pos, t, adv1) by {
            assert(rest[j] == xs[j + 1]);
        }
        lemma_stars_bounded(rest, sub, greedy, fl, t, pos, adv1);
        let w0 = ways_star(sub, greedy, fl, t, xs[0].0, xs[0].1);
        assert(bounded(w0, xs[0].0, t, false));
        let x0 = xs[0];
        assert(ends_within(x0.0, pos, t, adv1));
        assert(bounded(w0, pos, t, adv1)) by {
            assert forall|j: int| 0 <= j < w0.len() implies ends_within(#[trigger] w0[j].0, pos, t, adv1) by {
                assert(ends_within(w0[j].0, x0.0, t, false));
            }
        }
        lemma_bounded_concat(w0, ways_stars(rest, sub, greedy, fl, t), pos, t, adv1);
    }
}

/// The ways any number of copies match after the ways of `xs` that have
/// taken a character after `lo` have each taken one.
proof fn lemma_star_after_bounded(xs: Seq<(int, Caps)>, sub: SNode, greedy: bool, fl: Flags, t: Seq<u8>, lo: int)
    requires
        forall|i: int| 0 <= i < xs.len() && 0 <= lo < xs[i].0 <= t.len() ==> bounded(#[trigger] ways_star(sub, greedy, fl, t, xs[i].0, xs[i].1), xs[i].0, t, false),
    ensures
        bounded(ways_star_after(xs, sub, greedy, fl, t, lo), lo, t, true),
    decreases xs.len(),
{
    if xs.len() > 0 {
        let rest = xs.subrange(1, xs.len() as int);
        assert forall|i: int| 0 <= i < rest.len() && 0 <= lo < rest[i].0 <= t.len() implies bounded(#[trigger] ways_star(sub, greedy, fl, t, rest[i].0, rest[i].1), rest[i].0, t, false) by {
            assert(rest[i] == xs[i + 1]);
            assert(bounded(ways_star(sub, greedy, fl, t, xs[i + 1].0, xs[i + 1].1), xs[i + 1].0, t, false));
        }
        lemma_star_after_bounded(rest, sub, greedy, fl, t, lo);
        let x0 = xs[0];
        let w0: Seq<(int, Caps)> = if 0 <= lo < x0.0 <= t.len() {
            ways_star(sub, greedy, fl, t, x0.0, x0.1)
        } else {
            Seq::empty()
        };
        assert(bounded(w0, lo, t, true)) by {
            if 0 <= lo < x0.0 <= t.len() {
                assert(bounded(ways_star(sub, greedy, fl, t, xs[0].0, xs[0].1), xs[0].0, t, false));
                assert forall|j: int| 0 <= j < w0.len() implies ends_within(#[trigger] w0[j].0, lo, t, true) by {
                    assert(ends_within(w0[j].0, x0.0, t, false));
                }
            }
        }
        lemma_bounded_concat(w0, ways_star_after(rest, sub, greedy, fl, t, lo), lo, t, true);
    }
}

/// Where the ways of a plain node end: at `pos`, or further on in the text;
/// never at `pos` when the node always takes a character.
pub proof fn lemma_ways_bounded(n: SNode, fl: Flags, t: Seq<u8>, pos: int, caps: Caps)
    requires
        plain(n),
    ensures
        bounded(ways(n, fl, t, pos, caps), pos, t, advances(n)),
    decreases n, 0int,
{
    match n {
        SNode::Literal(_) => {
            lemma_decode_len(t, pos);
        },
        SNode::Dot => {
            lemma_decode_len(t, pos);
        },
        SNode::Group(sub) => {
            lemma_ways_bounded(*sub, fl, t, pos, caps);
        },
        SNode::Capture { index, sub, .. } => {
            let caps1 = caps.update(2 * index, Some(pos as usize));
            lemma_ways_bounded(*sub, fl, t, pos, caps1);
            let xs = ways(*sub, fl, t, pos, caps1);
            let g = |w: (int, Caps)| (w.0, w.1.update(2 * index + 1, Some(w.0 as usize)));
            let ys = xs.map_values(g);
            assert(ways(n, fl, t, pos, caps) == ys);
            let adv = advances(*sub);
            assert forall|j: int| 0 <= j < ys.len() implies ends_within(#[trigger] ys[j].0, pos, t, adv) by {
                assert(ys[j].0 == xs[j].0);
                assert(ends_within(xs[j].0, pos, t, adv));
            }
        },
        SNode::Concat(v) => {
            lemma_seq_bounded(v, fl, t, pos, caps);
        },
        SNode::Alternation(v) => {
            lemma_alt_bounded(v, fl, t, pos, caps);
        },
        SNode::Repeat { sub, min, max, greedy } => {
            lemma_rep_bounded(*sub, min as nat, fl, t, pos, caps);
            let xs = ways_rep(*sub, min as nat, fl, t, pos, caps);
            let adv1 = min as nat >= 1 && advances(*sub);
            match max {
                Some(mx) => {
                    if min <= mx {
                        let k = (mx - min) as nat;
                        assert forall|i: int| 0 <= i < xs.len() implies bounded(#[trigger] ways_opt(*sub, k, greedy, fl, t, xs[i].0, xs[i].1), xs[i].0, t, false) by {
                            lemma_opt_bounded(*sub, k, greedy, fl, t, xs[i].0, xs[i].1);
                        }
                        lemma_opt_after_bounded(xs, *sub, k, greedy, fl, t, pos, adv1);
                    }
                },
                None => {
                    assert forall|i: int| 0 <= i < xs.len() implies bounded(#[trigger] ways_star(*sub, greedy, fl, t, xs[i].0, xs[i].1), xs[i].0, t, false) by {
                        lemma_star_bounded(*sub, greedy, fl, t, xs[i].0, xs[i].1);
                    }
                    lemma_stars_bounded(xs, *sub, greedy, fl, t, pos, adv1);
                },
            }
        },
        _ => {},
    }
}

/// The same for a sequence: it takes a character when some node of it does.
proof fn lemma_seq_bounded(v: Seq<SNode>, fl: Flags, t: Seq<u8>, pos: int, caps: Caps)
    requires
        plain_all(v),
    ensures
        bounded(ways_seq(v, fl, t, pos, caps), pos, t, advances_some(v)),
    decreases v, 0int,
{
    if v.len() > 0 {
        let d = v.subrange(0, v.len() - 1);
        let last = v[v.len() - 1];
        lemma_seq_bounded(d, fl, t, pos, caps);
        let xs = ways_seq(d, fl, t, pos, caps);
        assert forall|i: int| 0 <= i < xs.len() implies bounded(#[trigger] ways(last, fl, t, xs[i].0, xs[i].1), xs[i].0, t, advances(last)) by {
            lemma_ways_bounded(last, fl, t, xs[i].0, xs[i].1);
        }
        lemma_after_bounded(xs, last, fl, t, pos, advances_some(d), advances(last));
    }
}

/// The same for an alternation: it takes a character when each of its
/// alternatives does.
proof fn lemma_alt_bounded(v: Seq<SNode>, fl: Flags, t: Seq<u8>, pos: int, caps: Caps)
    requires
        plain_all(v),
    ensures
        bounded(ways_alt(v, fl, t, pos, caps), pos, t, v.len() > 0 && advances_each(v)),
    decreases v, 0int,
{
    if v.len() > 0 {
        lemma_plain_first(v);
        let rest = v.subrange(1, v.len() as int);
        lemma_ways_bounded(v[0], fl, t, pos, caps);
        if v.len() > 1 {
            lemma_alt_bounded(rest, fl, t, pos, caps);
            lemma_bounded_concat(ways(v[0], fl, t, pos, caps), ways_alt(rest, fl, t, pos, caps), pos, t, v.len() > 0 && advances_each(v));
        } else {
            assert(rest.len() == 0);
        }
    }
}

/// The same for `k` copies one after another.
proof fn lemma_rep_bounded(sub: SNode, k: nat, fl: Flags, t: Seq<u8>, pos: int, caps: Caps)
    requires
        plain(sub),
    ensures
        bounded(ways_rep(sub, k, fl, t, pos, caps), pos, t, k >= 1 && advances(sub)),
    decreases sub, k + 1,
{
    if k > 0 {
        lemma_rep_bounded(sub, (k - 1) as nat, fl, t, pos, caps);
        let xs = ways_rep(sub, (k - 1) as nat, fl, t, pos, caps);
        assert forall|i: int| 0 <= i < xs.len() implies bounded(#[trigger] ways(sub, fl, t, xs[i].0, xs[i].1), xs[i].0, t, advances(sub)) by {
            lemma_ways_bounded(sub, fl, t, xs[i].0, xs[i].1);
        }
        lemma_after_bounded(xs, sub, fl, t, pos, k - 1 >= 1 && advances(sub), advances(sub));
    }
}

/// The same for up to `k` optional copies.
proof fn lemma_opt_bounded(sub: SNode, k: nat, greedy: bool, fl: Flags, t: Seq<u8>, pos: int, caps: Caps)
    requires
        plain(sub),
    ensures
        bounded(ways_opt(sub, k, greedy, fl, t, pos, caps), pos, t, false),
    decreases sub, k + 1,
{
    if k > 0 {
        lemma_ways_bounded(sub, fl, t, pos, caps);
        let xs = ways(sub, fl, t, pos, caps);
        assert forall|i: int| 0 <= i < xs.len() implies bounded(#[trigger] ways_opt(sub, (k - 1) as nat, greedy, fl, t, xs[i].0, xs[i].1), xs[i].0, t, false) by {
            lemma_opt_bounded(sub, (k - 1) as nat, greedy, fl, t, xs[i].0, xs[i].1);
        }
        lemma_opt_after_bounded(xs, sub, (k - 1) as nat, greedy, fl, t, pos, advances(sub));
        let more = ways_opt_after(xs, sub, (k - 1) as nat, greedy, fl, t);
        if greedy {
            lemma_bounded_concat(more, seq![(pos, caps)], pos, t, false);
        } else {
            lemma_bounded_concat(seq![(pos, caps)], more, pos, t, false);
        }
    }
}

/// The same for any number of copies of a node that always takes a
/// character.
proof fn lemma_star_bounded(sub: SNode, greedy: bool, fl: Flags, t: Seq<u8>, pos: int, caps: Caps)
    requires
        plain(sub),
        advances(sub),
    ensures
        bounded(ways_star(sub, greedy, fl, t, pos, caps), pos, t, false),
    decreases sub, 2 * dist(t, pos) + 2,
{
    lemma_ways_bounded(sub, fl, t, pos, caps);
    let xs = ways(sub, fl, t, pos, caps);
    assert forall|i: int| 0 <= i < xs.len() && 0 <= pos < xs[i].0 <= t.len() implies bounded(#[trigger] ways_star(sub, greedy, fl, t, xs[i].0, xs[i].1), xs[i].0, t, false) by {
        lemma_star_bounded(sub, greedy, fl, t, xs[i].0, xs[i].1);
    }
    lemma_star_after_bounded(xs, sub, greedy, fl, t, pos);
    let more = ways_star_after(xs, sub, greedy, fl, t, pos);
    if greedy {
        lemma_bounded_concat(more, seq![(pos, caps)], pos, t, false);
    } else {
        lemma_bounded_concat(seq![(pos, caps)], more, pos, t, false);
    }
}

/// A capture slot that is set holds a position within the text.
pub open spec fn slot_within(o: Option<usize>, t: Seq<u8>) -> bool {
    match o {
        Some(x) => x <= t.len(),
        None => true,
    }
}

/// Captures with `l` slots, each set one within the text.
pub open spec fn caps_ok(c: Caps, t: Seq<u8>, l: nat) -> bool {
    c.len() == l && forall|i: int| 0 <= i < c.len() ==> slot_within(#[trigger] c[i], t)
}

/// Every way of `ws` leaves such captures.
pub open spec fn ways_ok(ws: Seq<(int, Caps)>, t: Seq<u8>, l: nat) -> bool {
    forall|j: int| 0 <= j < ws.len() ==> caps_ok(#[trigger] ws[j].1, t, l)
}

/// Two such lists, one after the other, are one.
proof fn lemma_ways_ok_concat(x: Seq<(int, Caps)>, y: Seq<(int, Caps)>, t: Seq<u8>, l: nat)
    requires
        ways_ok(x, t, l),
        ways_ok(y, t, l),
    ensures
        ways_ok(x + y, t, l),
{
    let z = x + y;
    assert forall|j: int| 0 <= j < z.len() implies caps_ok(#[trigger] z[j].1, t, l) by {
        if j < x.len() {
            assert(z[j] == x[j]);
        } else {
            assert(z[j] == y[j - x.len()]);
        }
    }
}

/// The ways of `n` after each way of `xs` leave captures within the text
/// when each of those does.
proof fn lemma_after_ok(xs: Seq<(int, Caps)>, n: SNode, fl: Flags, t: Seq<u8>, l: nat)
    requires
        forall|i: int| 0 <= i < xs.len() ==> ways_ok(#[trigger] ways(n, fl, t, xs[i].0, xs[i].1), t, l),
    ensures
        ways_ok(ways_after(xs, n, fl, t), t, l),
    decreases xs.len(),
{
    if xs.len() > 0 {
        let rest = xs.subrange(1, xs.len() as int);
        assert forall|i: int| 0 <= i < rest.len() implies ways_ok(#[trigger] ways(n, fl, t, rest[i].0, rest[i].1), t, l) by {
            assert(rest[i] == xs[i + 1]);
            assert(ways_ok(ways(n, fl, t, xs[i + 1].0, xs[i + 1].1), t, l));
        }
        lemma_after_ok(rest, n, fl, t, l);
        assert(ways_ok(ways(n, fl, t, xs[0].0, xs[0].1), t, l));
        lemma_ways_ok_concat(ways(n, fl, t, xs[0].0, xs[0].1), ways_after(rest, n, fl, t), t, l);
    }
}

/// The same for up to `k` more copies after each way.
proof fn lemma_opt_after_ok(xs: Seq<(int, Caps)>, sub: SNode, k: nat, greedy: bool, fl: Flags, t: Seq<u8>, l: nat)
    requires
        forall|i: int| 0 <= i < xs.len() ==> ways_ok(#[trigger] ways_opt(sub, k, greedy, fl, t, xs[i].0, xs[i].1), t, l),
    ensures
        ways_ok(ways_opt_after(xs, sub, k, greedy, fl, t), t, l),
    decreases xs.len(),
{
    if xs.len() > 0 {
        let rest = xs.subrange(1, xs.len() as int);
        assert forall|i: int| 0 <= i < rest.len() implies ways_ok(#[trigger] ways_opt(sub, k, greedy, fl, t, rest[i].0, rest[i].1), t, l) by {
            assert(rest[i] == xs[i + 1]);
            assert(ways_ok(ways_opt(sub, k, greedy, fl, t, xs[i + 1].0, xs[i + 1].1), t, l));
        }
        lemma_opt_after_ok(rest, sub, k, greedy, fl, t, l);
        assert(ways_ok(ways_opt(sub, k, greedy, fl, t, xs[0].0, xs[0].1), t, l));
        lemma_ways_ok_concat(ways_opt(sub, k, greedy, fl, t, xs[0].0, xs[0].1), ways_opt_after(rest, sub, k, greedy, fl, t), t, l);
    }
}

/// The same for any number of copies after each way.
proof fn lemma_stars_ok(xs: Seq<(int, Caps)>, sub: SNode, greedy: bool, fl: Flags, t: Seq<u8>, l: nat)
    requires
        forall|i: int| 0 <= i < xs.len() ==> ways_ok(#[trigger] ways_star(sub, greedy, fl, t, xs[i].0, xs[i].1), t, l),
    ensures
        ways_ok(ways_stars(xs, sub, greedy, fl, t), t, l),
    decreases xs.len(),
{
    if xs.len() > 0 {
        let rest = xs.subrange(1, xs.len() as int);
        assert forall|i: int| 0 <= i < rest.len() implies ways_ok(#[trigger] ways_star(sub, greedy, fl, t, rest[i].0, rest[i].1), t, l) by {
            assert(rest[i] == xs[i + 1]);
            assert(ways_ok(ways_star(sub, greedy, fl, t, xs[i + 1].0, xs[i + 1].1), t, l));
        }
        lemma_stars_ok(rest, sub, greedy, fl, t, l);
        assert(ways_ok(ways_star(sub, greedy, fl, t, xs[0].0, xs[0].1), t, l));
        lemma_ways_ok_concat(ways_star(sub, greedy, fl, t, xs[0].0, xs[0].1), ways_stars(rest, sub, greedy, fl, t), t, l);
    }
}

/// The same for any number of copies after each way that has taken a
/// character after `lo`.
proof fn lemma_star_after_ok(xs: Seq<(int, Caps)>, sub: SNode, greedy: bool, fl: Flags, t: Seq<u8>, lo: int, l: nat)
    requires
        forall|i: int| 0 <= i < xs.len() && 0 <= lo < xs[i].0 <= t.len() ==> ways_ok(#[trigger] ways_star(sub, greedy, fl, t, xs[i].0, xs[i].1), t, l),
    ensures
        ways_ok(ways_star_after(xs, sub, greedy, fl, t, lo), t, l),
    decreases xs.len(),
{
    if xs.len() > 0 {
        let rest = xs.subrange(1, xs.len() as int);
        assert forall|i: int| 0 <= i < rest.len() && 0 <= lo < rest[i].0 <= t.len() implies ways_ok(#[trigger] ways_star(sub, greedy, fl, t, rest[i].0, rest[i].1), t, l) by {
            assert(rest[i] == xs[i + 1]);
            assert(ways_ok(ways_star(sub, greedy, fl, t, xs[i + 1].0, xs[i + 1].1), t, l));
        }
        lemma_star_after_ok(rest, sub, greedy, fl, t, lo, l);
        let x0 = xs[0];
        let w0: Seq<(int, Caps)> = if 0 <= lo < x0.0 <= t.len() {
            ways_star(sub, greedy, fl, t, x0.0, x0.1)
        } else {
            Seq::empty()
        };
        if 0 <= lo < x0.0 <= t.len() {
            assert(ways_ok(ways_star(sub, greedy, fl, t, xs[0].0, xs[0].1), t, l));
        }
        lemma_ways_ok_concat(w0, ways_star_after(rest, sub, greedy, fl, t, lo), t, l);
    }
}

/// The ways of a plain node, from a position within the text and captures
/// within it, leave captures within the text, with as many slots.
pub proof fn lemma_ways_ok(n: SNode, fl: Flags, t: Seq<u8>, pos: int, caps: Caps)
    requires
        plain(n),
        0 <= pos <= t.len() <= usize::MAX,
        2 * max_cap(n) + 1 < caps.len(),
        caps_ok(caps, t, caps.len()),
    ensures
        ways_ok(ways(n, fl, t, pos, caps), t, caps.len()),
    decreases n, 0int,
{
    let l = caps.len();
    match n {
        SNode::Group(sub) => {
            lemma_ways_ok(*sub, fl, t, pos, caps);
        },
        SNode::Lookahead { sub, .. } => {
            lemma_ways_ok(*sub, fl, t, pos, caps);
        },
        SNode::Capture { index, sub, .. } => {
            let caps1 = caps.update(2 * index, Some(pos as usize));
            assert(caps_ok(caps1, t, l)) by {
                assert forall|i: int| 0 <= i < caps1.len() implies slot_within(#[trigger] caps1[i], t) by {
                    if i != 2 * index {
                        assert(caps1[i] == caps[i]);
                    }
                }
            }
            lemma_ways_ok(*sub, fl, t, pos, caps1);
            lemma_ways_bounded(*sub, fl, t, pos, caps1);
            let xs = ways(*sub, fl, t, pos, caps1);
            let g = |w: (int, Caps)| (w.0, w.1.update(2 * index + 1, Some(w.0 as usize)));
            let ys = xs.map_values(g);
            assert(ways(n, fl, t, pos, caps) == ys);
            assert forall|j: int| 0 <= j < ys.len() implies caps_ok(#[trigger] ys[j].1, t, l) by {
                assert(caps_ok(xs[j].1, t, l));
                assert(ends_within(xs[j].0, pos, t, advances(*sub)));
                let c2 = ys[j].1;
                assert(c2 == xs[j].1.update(2 * index + 1, Some(xs[j].0 as usize)));
                assert forall|i: int| 0 <= i < c2.len() implies slot_within(#[trigger] c2[i], t) by {
                    if i != 2 * index + 1 {
                        assert(c2[i] == xs[j].1[i]);
                    }
                }
            }
        },
        SNode::Concat(v) => {
            lemma_seq_ok(v, fl, t, pos, caps);
        },
        SNode::Alternation(v) => {
            lemma_alt_ok(v, fl, t, pos, caps);
        },
        SNode::Repeat { sub, min, max, greedy } => {
            lemma_rep_ok(*sub, min as nat, fl, t, pos, caps);
            lemma_rep_bounded(*sub, min as nat, fl, t, pos, caps);
            let xs = ways_rep(*sub, min as nat, fl, t, pos, caps);
            match max {
                Some(mx) => {
                    if min <= mx {
                        let k = (mx - min) as nat;
                        assert forall|i: int| 0 <= i < xs.len() implies ways_ok(#[trigger] ways_opt(*sub, k, greedy, fl, t, xs[i].0, xs[i].1), t, l) by {
                            assert(caps_ok(xs[i].1, t, l));
                            assert(ends_within(xs[i].0, pos, t, min as nat >= 1 && advances(*sub)));
                            lemma_opt_ok(*sub, k, greedy, fl, t, xs[i].0, xs[i].1);
                        }
                        lemma_opt_after_ok(xs, *sub, k, greedy, fl, t, l);
                    }
                },
                None => {
                    assert forall|i: int| 0 <= i < xs.len() implies ways_ok(#[trigger] ways_star(*sub, greedy, fl, t, xs[i].0, xs[i].1), t, l) by {
                        assert(caps_ok(xs[i].1, t, l));
                        assert(ends_within(xs[i].0, pos, t, min as nat >= 1 && advances(*sub)));
                        lemma_star_ok(*sub, greedy, fl, t, xs[i].0, xs[i].1);
                    }
                    lemma_stars_ok(xs, *sub, greedy, fl, t, l);
                },
            }
        },
        _ => {},
    }
}

/// The same for a sequence.
proof fn lemma_seq_ok(v: Seq<SNode>, fl: Flags, t: Seq<u8>, pos: int, caps: Caps)
    requires
        plain_all(v),
        0 <= pos <= t.len() <= usize::MAX,
        2 * max_cap_seq(v) + 1 < caps.len(),
        caps_ok(caps, t, caps.len()),
    ensures
        ways_ok(ways_seq(v, fl, t, pos, caps), t, caps.len()),
    decreases v, 0int,
{
    if v.len() > 0 {
        let d = v.subrange(0, v.len() - 1);
        let last = v[v.len() - 1];
        assert(d == v.drop_last());
        assert(max_cap_seq(d) <= max_cap_seq(v) && max_cap(last) <= max_cap_seq(v));
        lemma_seq_ok(d, fl, t, pos, caps);
        lemma_seq_bounded(d, fl, t, pos, caps);
        let xs = ways_seq(d, fl, t, pos, caps);
        assert forall|i: int| 0 <= i < xs.len() implies ways_ok(#[trigger] ways(last, fl, t, xs[i].0, xs[i].1), t, caps.len()) by {
            assert(caps_ok(xs[i].1, t, caps.len()));
            assert(ends_within(xs[i].0, pos, t, advances_some(d)));
            lemma_ways_ok(last, fl, t, xs[i].0, xs[i].1);
        }
        lemma_after_ok(xs, last, fl, t, caps.len());
    }
}

/// The same for an alternation.
proof fn lemma_alt_ok(v: Seq<SNode>, fl: Flags, t: Seq<u8>, pos: int, caps: Caps)
    requires
        plain_all(v),
        0 <= pos <= t.len() <= usize::MAX,
        2 * max_cap_seq(v) + 1 < caps.len(),
        caps_ok(caps, t, caps.len()),
    ensures
        ways_ok(ways_alt(v, fl, t, pos, caps), t, caps.len()),
    decreases v, 0int,
{
    if v.len() > 0 {
        lemma_plain_first(v);
        lemma_max_cap_first(v);
        let rest = v.subrange(1, v.len() as int);
        lemma_ways_ok(v[0], fl, t, pos, caps);
        if v.len() > 1 {
            lemma_alt_ok(rest, fl, t, pos, caps);
            lemma_ways_ok_concat(ways(v[0], fl, t, pos, caps), ways_alt(rest, fl, t, pos, caps), t, caps.len());
        }
    }
}

/// The same for `k` copies one after another.
proof fn lemma_rep_ok(sub: SNode, k: nat, fl: Flags, t: Seq<u8>, pos: int, caps: Caps)
    requires
        plain(sub),
        0 <= pos <= t.len() <= usize::MAX,
        2 * max_cap(sub) + 1 < caps.len(),
        caps_ok(caps, t, caps.len()),
    ensures
        ways_ok(ways_rep(sub, k, fl, t, pos, caps), t, caps.len()),
    decreases sub, k + 1,
{
    if k > 0 {
        lemma_rep_ok(sub, (k - 1) as nat, fl, t, pos, caps);
        lemma_rep_bounded(sub, (k - 1) as nat, fl, t, pos, caps);
        let xs = ways_rep(sub, (k - 1) as nat, fl, t, pos, caps);
        assert forall|i: int| 0 <= i < xs.len() implies ways_ok(#[trigger] ways(sub, fl, t, xs[i].0, xs[i].1), t, caps.len()) by {
            assert(caps_ok(xs[i].1, t, caps.len()));
            assert(ends_within(xs[i].0, pos, t, k - 1 >= 1 && advances(sub)));
            lemma_ways_ok(sub, fl, t, xs[i].0, xs[i].1);
        }
        lemma_after_ok(xs, sub, fl, t, caps.len());
    }
}

/// The same for up to `k` optional copies.
proof fn lemma_opt_ok(sub: SNode, k: nat, greedy: bool, fl: Flags, t: Seq<u8>, pos: int, caps: Caps)
    requires
        plain(sub),
        0 <= pos <= t.len() <= usize::MAX,
        2 * max_cap(sub) + 1 < caps.len(),
        caps_ok(caps, t, caps.len()),
    ensures
        ways_ok(ways_opt(sub, k, greedy, fl, t, pos, caps), t, caps.len()),
    decreases sub, k + 1,
{
    let one = seq![(pos, caps)];
    assert(ways_ok(one, t, caps.len()));
    if k > 0 {
        lemma_ways_ok(sub, fl, t, pos, caps);
        lemma_ways_bounded(sub, fl, t, pos, caps);
        let xs = ways(sub, fl, t, pos, caps);
        assert forall|i: int| 0 <= i < xs.len() implies ways_ok(#[trigger] ways_opt(sub, (k - 1) as nat, greedy, fl, t, xs[i].0, xs[i].1), t, caps.len()) by {
            assert(caps_ok(xs[i].1, t, caps.len()));
            assert(ends_within(xs[i].0, pos, t, advances(sub)));
            lemma_opt_ok(sub, (k - 1) as nat, greedy, fl, t, xs[i].0, xs[i].1);
        }
        lemma_opt_after_ok(xs, sub, (k - 1) as nat, greedy, fl, t, caps.len());
        let more = ways_opt_after(xs, sub, (k - 1) as nat, greedy, fl, t);
        if greedy {
            lemma_ways_ok_concat(more, one, t, caps.len());
        } else {
            lemma_ways_ok_concat(one, more, t, caps.len());
        }
    }
}

/// The same for any number of copies of a node that always takes a
/// character.
proof fn lemma_star_ok(sub: SNode, greedy: bool, fl: Flags, t: Seq<u8>, pos: int, caps: Caps)
    requires
        plain(sub),
        advances(sub),
        0 <= pos <= t.len() <= usize::MAX,
        2 * max_cap(sub) + 1 < caps.len(),
        caps_ok(caps, t, caps.len()),
    ensures
        ways_ok(ways_star(sub, greedy, fl, t, pos, caps), t, caps.len()),
    decreases sub, 2 * dist(t, pos) + 2,
{
    let one = seq![(pos, caps)];
    assert(ways_ok(one, t, caps.len()));
    lemma_ways_ok(sub, fl, t, pos, caps);
    lemma_ways_bounded(sub, fl, t, pos, caps);
    let xs = ways(sub, fl, t, pos, caps);
    assert forall|i: int| 0 <= i < xs.len() && 0 <= pos < xs[i].0 <= t.len() implies ways_ok(#[trigger] ways_star(sub, greedy, fl, t, xs[i].0, xs[i].1), t, caps.len()) by {
        assert(caps_ok(xs[i].1, t, caps.len()));
        lemma_star_ok(sub, greedy, fl, t, xs[i].0, xs[i].1);
    }
    lemma_star_after_ok(xs, sub, greedy, fl, t, pos, caps.len());
    let more = ways_star_after(xs, sub, greedy, fl, t, pos);
    if greedy {
        lemma_ways_ok_concat(more, one, t, caps.len());
    } else {
        lemma_ways_ok_concat(one, more, t, caps.len());
    }
}

/// What a plain pattern `n` matches at byte position `pos` of `t`, with
/// `nslots` capture slots: its first way, group 0 spanning it, or nothing.
pub open spec fn pattern_result(n: SNode, fl: Flags, t: Seq<u8>, pos: int, nslots: nat) -> (ExecResult, Caps) {
    let ws = ways(n, fl, t, pos, no_caps(nslots).update(0, Some(pos as usize)));
    if ws.len() == 0 {
        (ExecResult::NoMatch, no_caps(nslots))
    } else {
        (ExecResult::Match, ws[0].1.update(1, Some(ws[0].0 as usize)))
    }
}

/// A run that eventually ends gives what `spec_exec` says from the start.
proof fn lemma_spec_exec_eventual(bc: Seq<u8>, t: Seq<u8>, pos: int)
    requires
        bc.len() >= 8,
        !(eventual(bc, t, 8, pos, no_caps(slot_count(bc))) is OutOfSteps),
    ensures
        spec_exec(bc, t, pos) == budget_result(eventual(bc, t, 8, pos, no_caps(slot_count(bc))), slot_count(bc)),
{
    let c = no_caps(slot_count(bc));
    let f = choose|f: nat| !(#[trigger] run(bc, t, 8, pos, c, f).0 is OutOfSteps);
    assert(!(start_run(bc, t, pos, f).0 is OutOfSteps));
    assert(ends(bc, t, pos));
    let g = choose|g: nat| !(#[trigger] start_run(bc, t, pos, g).0 is OutOfSteps);
    lemma_eventual_at(bc, t, 8, pos, c, g);
}

/// The code of a whole pattern: group 0 around the node's code, then `match`.
pub open spec fn body_code(c: Seq<u8>) -> Seq<u8> {
    seq![opcode_byte(OpCode::SaveStart), 0u8] + c + seq![opcode_byte(OpCode::SaveEnd), 0u8] + seq![
        opcode_byte(OpCode::Match),
    ]
}

/// How the code of a whole pattern ends from `pos`: with the first way of
/// the node, group 0 spanning it, or without a match when it has none.
pub open spec fn body_outcome(n: SNode, fl: Flags, t: Seq<u8>, pos: int, nslots: nat) -> Outcome {
    let ws = ways(n, fl, t, pos, no_caps(nslots).update(0, Some(pos as usize)));
    if ws.len() == 0 {
        Outcome::Failure
    } else {
        Outcome::Success { pos: ws[0].0, caps: ws[0].1.update(1, Some(ws[0].0 as usize)) }
    }
}

/// The code of a whole plain pattern, placed at `a`, ends as its first way
/// says.
proof fn lemma_body(n: SNode, fl: Flags, ncap: nat, bc: Seq<u8>, t: Seq<u8>, a: int, pos: int)
    requires
        plain(n),
        sgen(n, fl, ncap, false) is Ok,
        sgen(n, fl, ncap, false)->Ok_0.len() < 0x8000_0000,
        placed(bc, a, body_code(sgen(n, fl, ncap, false)->Ok_0)),
        refs_fit(bc, ncap, 2 * (1 + max_cap(n))),
    ensures
        eventual(bc, t, a, pos, no_caps(2 * (1 + max_cap(n)))) == body_outcome(n, fl, t, pos, 2 * (1 + max_cap(n))),
{
    let c = sgen(n, fl, ncap, false)->Ok_0;
    let open = seq![opcode_byte(OpCode::SaveStart), 0u8];
    let close = seq![opcode_byte(OpCode::SaveEnd), 0u8];
    let fin = seq![opcode_byte(OpCode::Match)];
    lemma_placed_split(bc, a, open + c + close, fin);
    lemma_placed_split(bc, a, open + c, close);
    lemma_placed_split(bc, a, open, c);
    let m: int = a + 2 + c.len() as int;
    assert(bc[a] == 19 && bc[a + 1] == 0) by {
        assert(bc[a] == open[0] && bc[a + 1] == open[1]);
    }
    assert(bc[m] == 20 && bc[m + 1] == 0) by {
        assert(bc[m] == close[0] && bc[m + 1] == close[1]);
    }
    assert(bc[m + 2] == 16) by {
        assert(bc[m + 2] == fin[0]);
    }
    let ns: nat = 2 * (1 + max_cap(n));
    let caps0 = no_caps(ns);
    let caps1 = caps0.update(0, Some(pos as usize));
    lemma_eventual_step(bc, t, a, pos, caps0);
    lemma_code(n, fl, ncap, bc, t, a + 2, pos, caps1);
    let ws = ways(n, fl, t, pos, caps1);
    if ws.len() > 0 {
        let w = ws[0];
        assert(w.1.len() == ns);
        lemma_eventual_step(bc, t, m, w.0, w.1);
        lemma_eventual_match(bc, t, m + 2, w.0, w.1.update(1, Some(w.0 as usize)));
    }
}

/// The header and program of a plain pattern: the whole pattern's code
/// stands after the search loop.
proof fn lemma_program_layout(n: SNode, fl: Flags, ncap: nat)
    requires
        program(n, fl, ncap) is Ok,
        max_cap(n) < 255,
    ensures
        ({
            let p = program(n, fl, ncap)->Ok_0;
            let bc = header(fl, 1 + max_cap(n), 0, p.len()) + p;
            &&& p == search_prefix(fl) + body_code(sgen(n, fl, ncap, false)->Ok_0)
            &&& bc.len() >= 8
            &&& bc[2] == 1 + max_cap(n)
            &&& slot_count(bc) == 2 * (1 + max_cap(n))
            &&& placed(bc, 8, p)
            &&& placed(bc, 8 + search_prefix(fl).len() as int, body_code(sgen(n, fl, ncap, false)->Ok_0))
        }),
{
    let p = program(n, fl, ncap)->Ok_0;
    let h = header(fl, 1 + max_cap(n), 0, p.len());
    let bc = h + p;
    let c = sgen(n, fl, ncap, false)->Ok_0;
    assert(p =~= search_prefix(fl) + body_code(c));
    assert(h.len() == 8);
    assert(bc[2] == (1 + max_cap(n)) as u8 && bc[3] == 0);
    assert(bc.subrange(8, 8 + p.len() as int) =~= p);
    lemma_placed_split(bc, 8, search_prefix(fl), body_code(c));
}

/// A plain sticky pattern, compiled into a program with its header, matches
/// what its ways say: run at `pos`, the program gives the first way of the
/// pattern from `pos`, with group 0 spanning it, and no match when there is
/// none.
pub proof fn lemma_sticky_program_matches(n: SNode, fl: Flags, ncap: nat, t: Seq<u8>, pos: int)
    requires
        plain(n),
        fl.has(Flags::STICKY),
        program(n, fl, ncap) is Ok,
        program(n, fl, ncap)->Ok_0.len() < 0x8000_0000,
        max_cap(n) < 255,
        ncap <= max_cap(n),
    ensures
        ({
            let p = program(n, fl, ncap)->Ok_0;
            spec_exec(header(fl, 1 + max_cap(n), 0, p.len()) + p, t, pos) == pattern_result(
                n,
                fl,
                t,
                pos,
                2 * (1 + max_cap(n)),
            )
        }),
{
    let p = program(n, fl, ncap)->Ok_0;
    let bc = header(fl, 1 + max_cap(n), 0, p.len()) + p;
    lemma_program_layout(n, fl, ncap);
    assert(search_prefix(fl).len() == 0);
    lemma_body(n, fl, ncap, bc, t, 8, pos);
    lemma_spec_exec_eventual(bc, t, pos);
}

/// What a plain pattern compiled without the sticky flag matches from
/// `pos`: its first way at the first position from `pos` on, character by
/// character, where it has one.
pub open spec fn search_result(n: SNode, fl: Flags, t: Seq<u8>, pos: int, nslots: nat) -> (ExecResult, Caps)
    decreases t.len() - pos,
{
    let r = pattern_result(n, fl, t, pos, nslots);
    if r.0 is Match {
        r
    } else {
        match decode(t, pos) {
            Some((_, l)) => if pos < pos + l <= t.len() {
                search_result(n, fl, t, pos + l, nslots)
            } else {
                r
            },
            None => r,
        }
    }
}

/// A decoded character takes one to four bytes of the text.
proof fn lemma_decode_len(t: Seq<u8>, pos: int)
    ensures
        match decode(t, pos) {
            Some((_, l)) => 1 <= l <= 4 && pos + l <= t.len(),
            None => !(0 <= pos < t.len()),
        },
{
}

/// The search loop of a plain pattern without the sticky flag: it tries the
/// pattern at `pos`, and when that fails, one character further.
proof fn lemma_search_loop(n: SNode, fl: Flags, ncap: nat, bc: Seq<u8>, t: Seq<u8>, pos: int)
    requires
        plain(n),
        !fl.has(Flags::STICKY),
        sgen(n, fl, ncap, false) is Ok,
        sgen(n, fl, ncap, false)->Ok_0.len() < 0x8000_0000,
        placed(bc, 8, search_prefix(fl) + body_code(sgen(n, fl, ncap, false)->Ok_0)),
        refs_fit(bc, ncap, 2 * (1 + max_cap(n))),
    ensures
        !(eventual(bc, t, 8, pos, no_caps(2 * (1 + max_cap(n)))) is OutOfSteps),
        budget_result(eventual(bc, t, 8, pos, no_caps(2 * (1 + max_cap(n)))), 2 * (1 + max_cap(n)))
            == search_result(n, fl, t, pos, 2 * (1 + max_cap(n))),
    decreases t.len() - pos,
{
    let ns: nat = 2 * (1 + max_cap(n));
    let caps0 = no_caps(ns);
    let da = fl;
    let pre = search_prefix(fl);
    let sp = jmp(OpCode::SplitGotoFirst, 6);
    let any = seq![opcode_byte(OpCode::Any)];
    let gt = jmp(OpCode::Goto, -11);
    assert(pre == sp + any + gt);
    lemma_placed_split(bc, 8, pre, body_code(sgen(n, fl, ncap, false)->Ok_0));
    lemma_placed_split(bc, 8, sp + any, gt);
    lemma_placed_split(bc, 8, sp, any);
    lemma_jmp_read(bc, 8, OpCode::SplitGotoFirst, 6);
    assert(bc[13] == 6) by {
        assert(bc[13] == any[0]);
    }
    assert(bc[14] == 13 && read_i32(bc, 15) == -11) by {
        assert(goto_offset(0, -11) == 0xFFFF_FFF5u32);
        let v: u32 = 0xFFFF_FFF5;
        assert(v % 256 == 0xF5 && (v / 256) % 256 == 0xFF && (v / 65536) % 256 == 0xFF && v / 16777216 == 0xFF);
        assert(bc[14] == gt[0] && bc[15] == gt[1] && bc[16] == gt[2] && bc[17] == gt[3] && bc[18] == gt[4]);
    }
    lemma_body(n, fl, ncap, bc, t, 19, pos);
    lemma_eventual_split(bc, t, 8, pos, caps0, 19, 13);
    lemma_eventual_step(bc, t, 13, pos, caps0);
    lemma_decode_len(t, pos);
    match decode(t, pos) {
        Some((_, l)) => {
            lemma_eventual_step(bc, t, 14, pos + l, caps0);
            lemma_search_loop(n, fl, ncap, bc, t, pos + l);
        },
        None => {},
    }
}

/// A plain pattern compiled without the sticky flag matches what it means:
/// run at `pos`, the program gives the first way of the pattern at the first
/// position from `pos` on where it has one.
pub proof fn lemma_search_program_matches(n: SNode, fl: Flags, ncap: nat, t: Seq<u8>, pos: int)
    requires
        plain(n),
        !fl.has(Flags::STICKY),
        program(n, fl, ncap) is Ok,
        program(n, fl, ncap)->Ok_0.len() < 0x8000_0000,
        max_cap(n) < 255,
        ncap <= max_cap(n),
    ensures
        ({
            let p = program(n, fl, ncap)->Ok_0;
            spec_exec(header(fl, 1 + max_cap(n), 0, p.len()) + p, t, pos) == search_result(
                n,
                fl,
                t,
                pos,
                2 * (1 + max_cap(n)),
            )
        }),
{
    let p = program(n, fl, ncap)->Ok_0;
    let bc = header(fl, 1 + max_cap(n), 0, p.len()) + p;
    lemma_program_layout(n, fl, ncap);
    lemma_search_loop(n, fl, ncap, bc, t, pos);
    lemma_spec_exec_eventual(bc, t, pos);
}

/// What a plain pattern gives at a position within the text sets capture
/// slots only to positions within the text.
pub proof fn lemma_pattern_result_ok(n: SNode, fl: Flags, t: Seq<u8>, pos: int)
    requires
        plain(n),
        0 <= pos <= t.len() <= usize::MAX,
    ensures
        caps_ok(pattern_result(n, fl, t, pos, 2 * (1 + max_cap(n))).1, t, 2 * (1 + max_cap(n))),
{
    let ns: nat = 2 * (1 + max_cap(n));
    let c0 = no_caps(ns).update(0, Some(pos as usize));
    assert(caps_ok(c0, t, ns)) by {
        assert forall|i: int| 0 <= i < c0.len() implies slot_within(#[trigger] c0[i], t) by {
            if i != 0 {
                assert(c0[i] == no_caps(ns)[i]);
            }
        }
    }
    assert(caps_ok(no_caps(ns), t, ns)) by {
        assert forall|i: int| 0 <= i < no_caps(ns).len() implies slot_within(#[trigger] no_caps(ns)[i], t) by {}
    }
    lemma_ways_ok(n, fl, t, pos, c0);
    lemma_ways_bounded(n, fl, t, pos, c0);
    let ws = ways(n, fl, t, pos, c0);
    if ws.len() > 0 {
        assert(caps_ok(ws[0].1, t, ns));
        assert(ends_within(ws[0].0, pos, t, advances(n)));
        let c1 = ws[0].1.update(1, Some(ws[0].0 as usize));
        assert forall|i: int| 0 <= i < c1.len() implies slot_within(#[trigger] c1[i], t) by {
            if i != 1 {
                assert(c1[i] == ws[0].1[i]);
            }
        }
    }
}

/// The same for what a plain pattern finds searching from a position within
/// the text.
pub proof fn lemma_search_result_ok(n: SNode, fl: Flags, t: Seq<u8>, pos: int)
    requires
        plain(n),
        0 <= pos <= t.len() <= usize::MAX,
    ensures
        caps_ok(search_result(n, fl, t, pos, 2 * (1 + max_cap(n))).1, t, 2 * (1 + max_cap(n))),
    decreases t.len() - pos,
{
    lemma_pattern_result_ok(n, fl, t, pos);
    if !(pattern_result(n, fl, t, pos, 2 * (1 + max_cap(n))).0 is Match) {
        match decode(t, pos) {
            Some((_, l)) => {
                if pos < pos + l <= t.len() {
                    lemma_search_result_ok(n, fl, t, pos + l);
                }
            },
            None => {},
        }
    }
}

/// What a pattern means, and what its compiled program finds: for a plain
/// pattern, `spec_exec` on the program gives at `pos` the first way of the
/// parsed pattern, group 0 spanning it; with the sticky flag at `pos`
/// itself, otherwise at the first position from `pos` on, character by
/// character, where the pattern has a way. From a position within the text,
/// every capture slot it sets lies within the text.
pub proof fn lemma_compiled_pattern_matches(s: Seq<char>, flags: Flags, t: Seq<u8>, pos: int)
    requires
        spec_compile(s, flags) is Ok,
        plain(spec_parse(s)->Ok_0),
    ensures
        spec_parse(s) is Ok,
        spec_exec(spec_compile(s, flags)->Ok_0, t, pos) == if promoted_flags(s, flags).has(Flags::STICKY) {
            pattern_result(
                spec_parse(s)->Ok_0,
                promoted_flags(s, flags),
                t,
                pos,
                2 * (1 + max_cap(spec_parse(s)->Ok_0)),
            )
        } else {
            search_result(
                spec_parse(s)->Ok_0,
                promoted_flags(s, flags),
                t,
                pos,
                2 * (1 + max_cap(spec_parse(s)->Ok_0)),
            )
        },
        0 <= pos <= t.len() <= usize::MAX ==> caps_ok(
            spec_exec(spec_compile(s, flags)->Ok_0, t, pos).1,
            t,
            2 * (1 + max_cap(spec_parse(s)->Ok_0)),
        ),
{
    lemma_compiled_max_cap(s, flags);
    if 0 <= pos <= t.len() <= usize::MAX {
        lemma_pattern_result_ok(spec_parse(s)->Ok_0, promoted_flags(s, flags), t, pos);
        lemma_search_result_ok(spec_parse(s)->Ok_0, promoted_flags(s, flags), t, pos);
    }
    let n = spec_parse(s)->Ok_0;
    let fl = promoted_flags(s, flags);
    let cc = spec_count_captures(s)->Ok_0;
    if fl.has(Flags::STICKY) {
        lemma_sticky_program_matches(n, fl, cc, t, pos);
    } else {
        lemma_search_program_matches(n, fl, cc, t, pos);
    }
}

/// The largest capture index of a node is one of its capture indices (or 0
/// when it has none).
proof fn lemma_max_cap_listed(n: SNode)
    ensures
        max_cap(n) == 0 || exists|i: int| #![trigger caps_of(n)[i]] 0 <= i < caps_of(n).len() && caps_of(n)[i] == max_cap(n),
    decreases n, 1int,
{
    match n {
        SNode::Capture { index, sub, .. } => {
            lemma_max_cap_listed(*sub);
            assert(caps_of(n) == seq![index] + caps_of(*sub));
            assert(max_cap(n) == if index >= max_cap(*sub) { index as nat } else { max_cap(*sub) });
            assert(caps_of(n)[0] == index);
            if index < max_cap(*sub) {
                let i = choose|i: int| 0 <= i < caps_of(*sub).len() && caps_of(*sub)[i] == max_cap(*sub);
                assert(caps_of(n)[i + 1] == caps_of(*sub)[i]);
                assert(0 <= i + 1 < caps_of(n).len() && caps_of(n)[i + 1] == max_cap(n));
            } else {
                assert(0 <= 0 < caps_of(n).len() && caps_of(n)[0] == max_cap(n));
            }
            assert(max_cap(n) == 0 || exists|i: int| #![trigger caps_of(n)[i]] 0 <= i < caps_of(n).len() && caps_of(n)[i] == max_cap(n));
        },
        SNode::Group(sub) => {
            lemma_max_cap_listed(*sub);
            assert(max_cap(n) == 0 || exists|i: int| #![trigger caps_of(n)[i]] 0 <= i < caps_of(n).len() && caps_of(n)[i] == max_cap(n));
        },
        SNode::Lookahead { sub, .. } => lemma_max_cap_listed(*sub),
        SNode::Lookbehind { sub, .. } => lemma_max_cap_listed(*sub),
        SNode::Repeat { sub, .. } => lemma_max_cap_listed(*sub),
        SNode::Concat(v) => lemma_max_cap_seq_listed(v),
        SNode::Alternation(v) => lemma_max_cap_seq_listed(v),
        _ => {},
    }
}

proof fn lemma_max_cap_seq_listed(v: Seq<SNode>)
    ensures
        max_cap_seq(v) == 0 || exists|i: int| #![trigger caps_seq(v)[i]] 0 <= i < caps_seq(v).len() && caps_seq(v)[i] == max_cap_seq(v),
    decreases v, 1int,
{
    if v.len() > 0 {
        let d = v.drop_last();
        let l = v.last();
        assert(d == v.subrange(0, v.len() - 1));
        lemma_max_cap_seq_listed(d);
        lemma_max_cap_listed(l);
        let cd = caps_seq(d);
        let cl = caps_of(l);
        assert(caps_seq(v) == cd + cl);
        if max_cap_seq(d) >= max_cap(l) {
            if max_cap_seq(d) > 0 {
                let i = choose|i: int| 0 <= i < cd.len() && cd[i] == max_cap_seq(d);
                assert((cd + cl)[i] == cd[i]);
            }
        } else {
            let i = choose|i: int| 0 <= i < cl.len() && cl[i] == max_cap(l);
            assert((cd + cl)[cd.len() + i] == cl[i]);
        }
    }
}

/// A pattern that compiles has fewer than 255 groups, so its largest capture
/// index is below 255.
proof fn lemma_compiled_max_cap(s: Seq<char>, flags: Flags)
    requires
        spec_compile(s, flags) is Ok,
    ensures
        spec_parse(s) is Ok,
        spec_count_captures(s) is Ok,
        max_cap(spec_parse(s)->Ok_0) < 255,
        spec_count_captures(s)->Ok_0 == max_cap(spec_parse(s)->Ok_0),
{
    let n = spec_parse(s)->Ok_0;
    let k = spec_count_captures(s)->Ok_0;
    lemma_captures_numbered_in_order(s);
    lemma_max_cap_listed(n);
    lemma_caps_below(n);
    assert(k <= 254);
    if max_cap(n) > 0 {
        let i = choose|i: int| 0 <= i < caps_of(n).len() && caps_of(n)[i] == max_cap(n);
        assert(caps_of(n)[i] == numbered(0, k)[i]);
        assert(numbered(0, k)[i] == (1 + i) as u32);
    }
    if k > 0 {
        assert(caps_of(n)[k - 1] == numbered(0, k)[k - 1]);
        assert(caps_of(n)[k - 1] <= max_cap(n));
    } else {
        assert(caps_of(n).len() == 0);
    }
}

/// Every index of `ix` is at most `m`.
pub open spec fn all_at_most(ix: Seq<u32>, m: nat) -> bool {
    forall|j: int| 0 <= j < ix.len() ==> #[trigger] ix[j] <= m
}

/// Every capture index of a node is at most its largest one.
proof fn lemma_caps_below(n: SNode)
    ensures
        all_at_most(caps_of(n), max_cap(n)),
    decreases n, 1int,
{
    match n {
        SNode::Capture { index, sub, .. } => {
            lemma_caps_below(*sub);
            assert(caps_of(n) == seq![index] + caps_of(*sub));
            assert(max_cap(n) >= max_cap(*sub) && max_cap(n) >= index);
            assert forall|j: int| 0 <= j < caps_of(n).len() implies caps_of(n)[j] <= max_cap(n) by {
                if j > 0 {
                    assert(caps_of(n)[j] == caps_of(*sub)[j - 1]);
                    assert(caps_of(*sub)[j - 1] <= max_cap(*sub));
                } else {
                    assert(caps_of(n)[0] == index);
                }
            }
        },
        SNode::Group(sub) => lemma_caps_below(*sub),
        SNode::Lookahead { sub, .. } => lemma_caps_below(*sub),
        SNode::Lookbehind { sub, .. } => lemma_caps_below(*sub),
        SNode::Repeat { sub, .. } => lemma_caps_below(*sub),
        SNode::Concat(v) => lemma_caps_seq_below(v),
        SNode::Alternation(v) => lemma_caps_seq_below(v),
        _ => {},
    }
}

/// The same for a sequence of nodes.
proof fn lemma_caps_seq_below(v: Seq<SNode>)
    ensures
        all_at_most(caps_seq(v), max_cap_seq(v)),
    decreases v, 1int,
{
    if v.len() > 0 {
        let d = v.drop_last();
        let l = v.last();
        assert(d == v.subrange(0, v.len() - 1));
        lemma_caps_seq_below(d);
        lemma_caps_below(l);
        let cd = caps_seq(d);
        let cl = caps_of(l);
        assert(caps_seq(v) == cd + cl);
        assert forall|j: int| 0 <= j < caps_seq(v).len() implies caps_seq(v)[j] <= max_cap_seq(v) by {
            if j < cd.len() {
                assert((cd + cl)[j] == cd[j]);
            } else {
                assert((cd + cl)[j] == cl[j - cd.len()]);
            }
        }
    }
}

} // verus!
