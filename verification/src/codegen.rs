//! Code generation from the parsed AST to QuickJS regex bytecode.
//!
//! `sgen` states, node by node, the bytes that a node compiles to (or the
//! error it is refused with); the executable generator is proved to emit
//! exactly those bytes.
use vstd::prelude::*;
use crate::ast::{AnchorKind, BuiltinClass, ClassRange, Node, SNode, node_view, nodes_view, lemma_nodes_view};
use crate::bytecode_builder::{BytecodeBuilder, goto_offset};
use crate::charclass::{class_intervals, class_ranges, canonical, item_ok};
use crate::error::{CompilerError, ErrorKind};
use crate::flags::Flags;
use crate::opcodes::{OpCode, opcode_byte, le16, le32};

verus! {

/// The largest bytecode body the generator produces; jump offsets between
/// any two positions of such a body fit in 32 bits.
pub const MAX_CODE_LEN: usize = 0x7fff_ffff;

/// A one-byte instruction.
pub open spec fn op1(op: OpCode) -> Seq<u8> {
    seq![opcode_byte(op)]
}

/// A jump instruction whose target lies `delta` bytes after its own end.
pub open spec fn jmp(op: OpCode, delta: int) -> Seq<u8> {
    op1(op) + le32(goto_offset(0, delta))
}

/// `x` written `k` times.
pub open spec fn repeat(x: Seq<u8>, k: nat) -> Seq<u8>
    decreases k,
{
    if k == 0 {
        Seq::empty()
    } else {
        repeat(x, (k - 1) as nat) + x
    }
}

/// Match a single character, case-folded when `ic`.
pub open spec fn lit_code(c: char, ic: bool) -> Seq<u8> {
    let v = c as u32;
    if v <= 0xFFFF {
        op1(if ic { OpCode::CharI } else { OpCode::Char }) + le16(v as u16)
    } else {
        op1(if ic { OpCode::Char32I } else { OpCode::Char32 }) + le32(v)
    }
}

/// The interval pairs of a class, 16 bits per bound.
pub open spec fn pairs16(iv: Seq<(u32, u32)>) -> Seq<u8>
    decreases iv.len(),
{
    if iv.len() == 0 {
        Seq::empty()
    } else {
        pairs16(iv.drop_last()) + le16(iv.last().0 as u16) + le16(iv.last().1 as u16)
    }
}

/// The interval pairs of a class, 32 bits per bound.
pub open spec fn pairs32(iv: Seq<(u32, u32)>) -> Seq<u8>
    decreases iv.len(),
{
    if iv.len() == 0 {
        Seq::empty()
    } else {
        pairs32(iv.drop_last()) + le32(iv.last().0) + le32(iv.last().1)
    }
}

/// Whether every interval lies in the basic multilingual plane.
pub open spec fn fits16(iv: Seq<(u32, u32)>) -> bool {
    forall|i: int| 0 <= i < iv.len() ==> (#[trigger] iv[i]).1 <= 0xFFFF
}

/// Match one character of a class given by its canonical intervals.
pub open spec fn class_code(iv: Seq<(u32, u32)>, ic: bool) -> Seq<u8> {
    if fits16(iv) {
        op1(if ic { OpCode::RangeI } else { OpCode::Range }) + le16(iv.len() as u16) + pairs16(iv)
    } else {
        op1(if ic { OpCode::Range32I } else { OpCode::Range32 }) + le16(iv.len() as u16) + pairs32(
            iv,
        )
    }
}

/// Match one character of a built-in class.
pub open spec fn builtin_code(b: BuiltinClass) -> Seq<u8> {
    match b {
        BuiltinClass::Space => op1(OpCode::Space),
        BuiltinClass::NotSpace => op1(OpCode::NotSpace),
        _ => class_code(class_intervals(seq![ClassRange::Builtin(b)], false), false),
    }
}

/// The `i`-th of `k` optional copies of `s`: a split whose other branch
/// skips every remaining copy, then the copy.
pub open spec fn opt_segment(s: Seq<u8>, k: nat, i: int, greedy: bool) -> Seq<u8> {
    jmp(
        if greedy { OpCode::SplitNextFirst } else { OpCode::SplitGotoFirst },
        (k - 1 - i) * (s.len() + 5) + s.len(),
    ) + s
}

/// The first `i` of `k` nested optional copies of `s`.
pub open spec fn opt_prefix(s: Seq<u8>, k: nat, i: nat, greedy: bool) -> Seq<u8>
    decreases i,
{
    if i == 0 {
        Seq::empty()
    } else {
        opt_prefix(s, k, (i - 1) as nat, greedy) + opt_segment(s, k, i - 1, greedy)
    }
}

/// Up to `k` copies of `s`, nested: once a copy is skipped, so are all the
/// ones after it.
pub open spec fn opt_code(s: Seq<u8>, k: nat, greedy: bool) -> Seq<u8> {
    opt_prefix(s, k, k, greedy)
}

/// Any number of copies of `s`.
pub open spec fn star_code(s: Seq<u8>, greedy: bool) -> Seq<u8> {
    jmp(if greedy { OpCode::SplitNextFirst } else { OpCode::SplitGotoFirst }, s.len() + 5int) + s
        + jmp(OpCode::Goto, -(s.len() + 10))
}

/// One or more copies of `s`.
pub open spec fn plus_code(s: Seq<u8>, greedy: bool) -> Seq<u8> {
    s + jmp(if greedy { OpCode::SplitGotoFirst } else { OpCode::SplitNextFirst }, -(s.len() + 5))
}

/// Between `min` and `max` copies of `s` (no upper bound when `max` is `None`).
pub open spec fn rep_code(s: Seq<u8>, min: u32, max: Option<u32>, greedy: bool) -> Seq<u8> {
    match max {
        None => if min == 1 {
            plus_code(s, greedy)
        } else {
            repeat(s, min as nat) + star_code(s, greedy)
        },
        Some(m) => repeat(s, min as nat) + opt_code(s, (m - min) as nat, greedy),
    }
}

/// The code that matches one character, in the direction of matching: when
/// matching backward (inside a lookbehind), step back over the character,
/// match it forward, and step back again.
pub open spec fn dir_code(c: Seq<u8>, back: bool) -> Seq<u8> {
    if back {
        op1(OpCode::Prev) + c + op1(OpCode::Prev)
    } else {
        c
    }
}

/// The code of a node, or the error it is refused with; `ncap` is the
/// number of capture groups of the pattern, `back` whether the node is
/// matched backward (it lies inside a lookbehind).
pub open spec fn sgen(n: SNode, fl: Flags, ncap: nat, back: bool) -> Result<Seq<u8>, ErrorKind>
    decreases n,
{
    let ic = fl.has(Flags::IGNORE_CASE);
    match n {
        SNode::Empty => Ok(Seq::empty()),
        SNode::Literal(c) => Ok(dir_code(lit_code(c, ic), back)),
        SNode::Dot => Ok(
            dir_code(op1(if fl.has(Flags::DOT_ALL) { OpCode::Any } else { OpCode::Dot }), back),
        ),
        SNode::Class { ranges, negated } => if exists|i: int|
            0 <= i < ranges.len() && !item_ok(#[trigger] ranges[i]) {
            Err(ErrorKind::InvalidClassRange)
        } else if class_intervals(ranges, negated).len() > 0xFFFF {
            Err(ErrorKind::ClassTooLarge)
        } else {
            Ok(dir_code(class_code(class_intervals(ranges, negated), ic), back))
        },
        SNode::Builtin(b) => Ok(dir_code(builtin_code(b), back)),
        SNode::Anchor(a) => Ok(
            op1(
                match a {
                    AnchorKind::Start => if fl.has(Flags::MULTILINE) {
                        OpCode::LineStartM
                    } else {
                        OpCode::LineStart
                    },
                    AnchorKind::End => if fl.has(Flags::MULTILINE) {
                        OpCode::LineEndM
                    } else {
                        OpCode::LineEnd
                    },
                },
            ),
        ),
        SNode::WordBoundary { negated } => Ok(
            op1(if negated { OpCode::NotWordBoundary } else { OpCode::WordBoundary }),
        ),
        SNode::BackRef(i) => if 1 <= i <= ncap {
            Ok(
                seq![
                    opcode_byte(
                        if back {
                            if ic {
                                OpCode::BackwardBackReferenceI
                            } else {
                                OpCode::BackwardBackReference
                            }
                        } else if ic {
                            OpCode::BackReferenceI
                        } else {
                            OpCode::BackReference
                        },
                    ),
                    1u8,
                    i as u8,
                ],
            )
        } else {
            Err(ErrorKind::InvalidBackReference { index: i })
        },
        SNode::Lookahead { sub, negative } => match sgen(*sub, fl, ncap, false) {
            Err(e) => Err(e),
            Ok(s) => Ok(
                jmp(
                    if negative { OpCode::NegativeLookahead } else { OpCode::Lookahead },
                    s.len() + 1int,
                ) + s + op1(
                    if negative { OpCode::NegativeLookaheadMatch } else { OpCode::LookaheadMatch },
                ),
            ),
        },
        SNode::Lookbehind { sub, negative } => match sgen(*sub, fl, ncap, true) {
            Err(e) => Err(e),
            Ok(s) => Ok(
                jmp(
                    if negative { OpCode::NegativeLookahead } else { OpCode::Lookahead },
                    s.len() + 1int,
                ) + s + op1(
                    if negative { OpCode::NegativeLookaheadMatch } else { OpCode::LookaheadMatch },
                ),
            ),
        },
        SNode::Capture { index, sub, .. } => if index > 255 {
            Err(ErrorKind::TooManyCaptures)
        } else {
            match sgen(*sub, fl, ncap, back) {
                Err(e) => Err(e),
                Ok(s) => Ok(
                    seq![
                        opcode_byte(if back { OpCode::SaveEnd } else { OpCode::SaveStart }),
                        index as u8,
                    ] + s + seq![
                        opcode_byte(if back { OpCode::SaveStart } else { OpCode::SaveEnd }),
                        index as u8,
                    ],
                ),
            }
        },
        SNode::Group(sub) => sgen(*sub, fl, ncap, back),
        SNode::Repeat { sub, min, max, greedy } => if max is Some && max->0 < min {
            Err(ErrorKind::QuantifierOutOfOrder)
        } else {
            match sgen(*sub, fl, ncap, back) {
                Err(e) => Err(e),
                Ok(s) => Ok(rep_code(s, min, max, greedy)),
            }
        },
        SNode::Concat(v) => sgen_seq(v, fl, ncap, back),
        SNode::Alternation(v) => sgen_alt(v, fl, ncap, back),
    }
}

/// The codes of a sequence of nodes one after the other (in reverse order
/// when matching backward); the first error in order wins.
pub open spec fn sgen_seq(v: Seq<SNode>, fl: Flags, ncap: nat, back: bool) -> Result<Seq<u8>, ErrorKind>
    decreases v,
{
    if v.len() == 0 {
        Ok(Seq::empty())
    } else {
        match sgen_seq(v.drop_last(), fl, ncap, back) {
            Err(e) => Err(e),
            Ok(p) => match sgen(v.last(), fl, ncap, back) {
                Err(e) => Err(e),
                Ok(c) => Ok(
                    if back {
                        c + p
                    } else {
                        p + c
                    },
                ),
            },
        }
    }
}

/// The code of an alternation of the nodes of `v`: each but the last is
/// tried first and, when it fails, the rest; a success jumps to the end.
pub open spec fn sgen_alt(v: Seq<SNode>, fl: Flags, ncap: nat, back: bool) -> Result<Seq<u8>, ErrorKind>
    decreases v,
{
    if v.len() == 0 {
        Ok(Seq::empty())
    } else if v.len() == 1 {
        sgen(v[0], fl, ncap, back)
    } else {
        match sgen(v[0], fl, ncap, back) {
            Err(e) => Err(e),
            Ok(c) => match sgen_alt(v.drop_first(), fl, ncap, back) {
                Err(e) => Err(e),
                Ok(r) => Ok(
                    jmp(OpCode::SplitNextFirst, c.len() + 5int) + c + jmp(OpCode::Goto, r.len() as int)
                        + r,
                ),
            },
        }
    }
}

/// The loop that lets an unanchored pattern start at any later position.
pub open spec fn search_prefix(fl: Flags) -> Seq<u8> {
    if fl.has(Flags::STICKY) {
        Seq::empty()
    } else {
        jmp(OpCode::SplitGotoFirst, 6) + op1(OpCode::Any) + jmp(OpCode::Goto, -11)
    }
}

/// The whole program body for a pattern: the search loop, the pattern
/// between the saves of group 0, and `match`.
pub open spec fn program(n: SNode, fl: Flags, ncap: nat) -> Result<Seq<u8>, ErrorKind> {
    if ncap > 254 {
        Err(ErrorKind::TooManyCaptures)
    } else {
        match sgen(n, fl, ncap, false) {
            Err(e) => Err(e),
            Ok(c) => Ok(
                search_prefix(fl) + seq![opcode_byte(OpCode::SaveStart), 0u8] + c + seq![
                    opcode_byte(OpCode::SaveEnd),
                    0u8,
                ] + op1(OpCode::Match),
            ),
        }
    }
}

/// The 8-byte header: flags, number of capture groups (group 0 included),
/// number of registers, and the body length.
pub open spec fn header(fl: Flags, groups: nat, regs: u8, body_len: nat) -> Seq<u8> {
    le16(fl.bits) + seq![groups as u8, regs] + le32(body_len as u32)
}

/// The largest capture index in a node (0 when it has no capture group).
pub open spec fn max_cap(n: SNode) -> nat
    decreases n,
{
    match n {
        SNode::Capture { index, sub, .. } => if index >= max_cap(*sub) {
            index as nat
        } else {
            max_cap(*sub)
        },
        SNode::Group(sub) => max_cap(*sub),
        SNode::Lookahead { sub, .. } => max_cap(*sub),
        SNode::Lookbehind { sub, .. } => max_cap(*sub),
        SNode::Repeat { sub, .. } => max_cap(*sub),
        SNode::Concat(v) => max_cap_seq(v),
        SNode::Alternation(v) => max_cap_seq(v),
        _ => 0,
    }
}

/// The largest capture index in a sequence of nodes.
pub open spec fn max_cap_seq(v: Seq<SNode>) -> nat
    decreases v,
{
    if v.len() == 0 {
        0
    } else if max_cap_seq(v.drop_last()) >= max_cap(v.last()) {
        max_cap_seq(v.drop_last())
    } else {
        max_cap(v.last())
    }
}

/// The largest capture index in a node.
pub fn max_capture_index(node: &Node) -> (r: u32)
    ensures
        r == max_cap(node@),
    decreases node,
{
    match node {
        Node::Capture { index, sub, .. } => {
            let m = max_capture_index(sub);
            if *index >= m {
                *index
            } else {
                m
            }
        },
        Node::Group(sub) => max_capture_index(sub),
        Node::Lookahead { sub, .. } => max_capture_index(sub),
        Node::Lookbehind { sub, .. } => max_capture_index(sub),
        Node::Repeat { sub, .. } => max_capture_index(sub),
        Node::Concat(v) => max_capture_index_seq(v),
        Node::Alternation(v) => max_capture_index_seq(v),
        _ => 0,
    }
}

/// The largest capture index in a sequence of nodes.
fn max_capture_index_seq(v: &Vec<Node>) -> (r: u32)
    ensures
        r == max_cap_seq(nodes_view(v@)),
    decreases v@,
{
    let ghost vw = nodes_view(v@);
    proof {
        lemma_nodes_view(v@);
        assert(vw.take(0) =~= Seq::<SNode>::empty());
    }
    let mut m: u32 = 0;
    let mut i: usize = 0;
    while i < v.len()
        invariant
            vw == nodes_view(v@),
            vw.len() == v@.len(),
            forall|k: int| 0 <= k < v@.len() ==> #[trigger] vw[k] == node_view(v@[k]),
            i <= v@.len(),
            m == max_cap_seq(vw.take(i as int)),
        decreases v@.len() - i,
    {
        let x = max_capture_index(&v[i]);
        proof {
            assert(vw.take(i + 1).drop_last() =~= vw.take(i as int));
            assert(vw.take(i + 1).last() == vw[i as int]);
        }
        if x > m {
            m = x;
        }
        i = i + 1;
    }
    proof {
        assert(vw.take(v@.len() as int) =~= vw);
    }
    m
}

/// Saturation of a code length: lengths past `2^31` are all told apart only
/// as too large.
pub open spec fn sat(x: int) -> int {
    if x > 0x8000_0000 {
        0x8000_0000
    } else {
        x
    }
}

/// The length of `k` copies.
pub proof fn lemma_repeat_len(x: Seq<u8>, k: nat)
    ensures
        repeat(x, k).len() == x.len() * k,
    decreases k,
{
    if k > 0 {
        let km = (k - 1) as nat;
        lemma_repeat_len(x, km);
        assert(repeat(x, k) == repeat(x, km) + x);
        let l = x.len();
        assert(l * km + l == l * k) by (nonlinear_arith)
            requires
                km + 1 == k,
        ;
    } else {
        assert(x.len() * k == 0) by (nonlinear_arith)
            requires
                k == 0,
        ;
    }
}

/// The lengths of the interval pairs.
pub proof fn lemma_pairs_len(iv: Seq<(u32, u32)>)
    ensures
        pairs16(iv).len() == 4 * iv.len(),
        pairs32(iv).len() == 8 * iv.len(),
    decreases iv.len(),
{
    if iv.len() > 0 {
        lemma_pairs_len(iv.drop_last());
    }
}

/// In a canonical list, every interval fits in 16 bits exactly when the
/// last one does.
pub proof fn lemma_fits16_last(iv: Seq<(u32, u32)>)
    requires
        canonical(iv),
    ensures
        fits16(iv) == (iv.len() == 0 || iv.last().1 <= 0xFFFF),
{
    if iv.len() > 0 && iv.last().1 <= 0xFFFF {
        assert forall|i: int| 0 <= i < iv.len() implies (#[trigger] iv[i]).1 <= 0xFFFF by {
            if i < iv.len() - 1 {
                assert(iv[i].1 + 1 < iv[iv.len() - 1].0);
            }
        }
    }
}

/// A prefix of a sequence that compiles compiles too, no longer.
pub proof fn lemma_seq_take_ok(v: Seq<SNode>, fl: Flags, ncap: nat, back: bool, j: int)
    requires
        sgen_seq(v, fl, ncap, back) is Ok,
        0 <= j <= v.len(),
    ensures
        sgen_seq(v.take(j), fl, ncap, back) is Ok,
        sgen_seq(v.take(j), fl, ncap, back)->Ok_0.len() <= sgen_seq(v, fl, ncap, back)->Ok_0.len(),
    decreases v.len() - j,
{
    if j < v.len() {
        assert(v.drop_last().take(j) =~= v.take(j));
        lemma_seq_take_ok(v.drop_last(), fl, ncap, back, j);
    } else {
        assert(v.take(j) =~= v);
    }
}

/// An error in a prefix of a sequence is the error of the whole sequence.
pub proof fn lemma_seq_err_extends(v: Seq<SNode>, fl: Flags, ncap: nat, back: bool, j: int)
    requires
        0 <= j <= v.len(),
        sgen_seq(v.take(j), fl, ncap, back) is Err,
    ensures
        sgen_seq(v, fl, ncap, back) == sgen_seq(v.take(j), fl, ncap, back),
    decreases v.len() - j,
{
    if j < v.len() {
        assert(v.drop_last().take(j) =~= v.take(j));
        lemma_seq_err_extends(v.drop_last(), fl, ncap, back, j);
    } else {
        assert(v.take(j) =~= v);
    }
}

/// One more element of a sequence: its code follows the code of the prefix
/// (precedes it when matching backward).
pub proof fn lemma_seq_step(v: Seq<SNode>, fl: Flags, ncap: nat, back: bool, j: int)
    requires
        0 <= j < v.len(),
    ensures
        sgen_seq(v.take(j + 1), fl, ncap, back) == match sgen_seq(v.take(j), fl, ncap, back) {
            Err(e) => Err(e),
            Ok(p) => match sgen(v[j], fl, ncap, back) {
                Err(e) => Err(e),
                Ok(c) => Ok(
                    if back {
                        c + p
                    } else {
                        p + c
                    },
                ),
            },
        },
{
    assert(v.take(j + 1).drop_last() =~= v.take(j));
}

/// The code of a sequence read from its first element.
pub proof fn lemma_seq_head(v: Seq<SNode>, fl: Flags, ncap: nat, back: bool)
    requires
        v.len() > 0,
    ensures
        sgen_seq(v, fl, ncap, back) == match sgen(v[0], fl, ncap, back) {
            Err(e) => Err(e),
            Ok(c) => match sgen_seq(v.drop_first(), fl, ncap, back) {
                Err(e) => Err(e),
                Ok(r) => Ok(
                    if back {
                        r + c
                    } else {
                        c + r
                    },
                ),
            },
        },
    decreases v.len(),
{
    if v.len() == 1 {
        assert(v.drop_last() =~= Seq::<SNode>::empty());
        assert(v.drop_first() =~= Seq::<SNode>::empty());
        match sgen(v[0], fl, ncap, back) {
            Err(e) => {},
            Ok(c) => {
                assert(c + Seq::<u8>::empty() =~= c);
                assert(Seq::<u8>::empty() + c =~= c);
            },
        }
    } else {
        lemma_seq_head(v.drop_last(), fl, ncap, back);
        assert(v.drop_last().drop_first() =~= v.drop_first().drop_last());
        assert(v.drop_first().last() == v.last());
        match sgen(v[0], fl, ncap, back) {
            Err(e) => {},
            Ok(c) => {
                match sgen_seq(v.drop_first().drop_last(), fl, ncap, back) {
                    Err(e) => {},
                    Ok(r0) => {
                        match sgen(v.last(), fl, ncap, back) {
                            Err(e) => {},
                            Ok(l) => {
                                assert(c + r0 + l =~= c + (r0 + l));
                                assert(l + (r0 + c) =~= l + r0 + c);
                            },
                        }
                    },
                }
            },
        }
    }
}

/// An alternation compiles exactly when the sequence of its parts does, to
/// ten more bytes per part after the first.
pub proof fn lemma_alt_seq(v: Seq<SNode>, fl: Flags, ncap: nat, back: bool)
    ensures
        sgen_alt(v, fl, ncap, back) is Err ==> sgen_alt(v, fl, ncap, back) == sgen_seq(v, fl, ncap, back),
        sgen_alt(v, fl, ncap, back) is Ok <==> sgen_seq(v, fl, ncap, back) is Ok,
        v.len() > 0 && sgen_alt(v, fl, ncap, back) is Ok ==> sgen_alt(v, fl, ncap, back)->Ok_0.len()
            == sgen_seq(v, fl, ncap, back)->Ok_0.len() + 10 * (v.len() - 1),
    decreases v.len(),
{
    if v.len() == 0 {
    } else {
        lemma_seq_head(v, fl, ncap, back);
        if v.len() == 1 {
            assert(v.drop_first() =~= Seq::<SNode>::empty());
        } else {
            lemma_alt_seq(v.drop_first(), fl, ncap, back);
        }
    }
}

/// The length of the code of a class.
pub proof fn lemma_class_code_len(iv: Seq<(u32, u32)>, ic: bool)
    ensures
        class_code(iv, ic).len() == if fits16(iv) {
            3 + 4 * iv.len()
        } else {
            3 + 8 * iv.len()
        },
{
    lemma_pairs_len(iv);
}

/// The saturated length of the code of a class with these canonical
/// intervals.
fn intervals_size(iv: &Vec<(u32, u32)>) -> (r: u64)
    requires
        canonical(iv@),
    ensures
        forall|ic: bool| r == sat(#[trigger] class_code(iv@, ic).len() as int),
{
    proof {
        lemma_fits16_last(iv@);
        assert forall|ic: bool| #[trigger] class_code(iv@, ic).len() == class_code(iv@, false).len() by {
            lemma_class_code_len(iv@, ic);
            lemma_class_code_len(iv@, false);
        }
        lemma_class_code_len(iv@, false);
    }
    if iv.len() > 0x2000_0000 {
        return 0x8000_0000;
    }
    let n = iv.len() as u64;
    let s = if iv.len() == 0 || iv[iv.len() - 1].1 <= 0xFFFF {
        3 + 4 * n
    } else {
        3 + 8 * n
    };
    if s > 0x8000_0000 {
        0x8000_0000
    } else {
        s
    }
}

/// The length of the code of `min` to `max` copies of a code of length `l`.
pub open spec fn rep_len(l: int, min: u32, max: Option<u32>) -> int {
    match max {
        None => if min == 1 {
            l + 5
        } else {
            l * min + l + 10
        },
        Some(m) => l * min + (l + 5) * (m - min),
    }
}

/// The length of the first `i` nested optional copies.
pub proof fn lemma_opt_prefix_len(s: Seq<u8>, k: nat, i: nat, greedy: bool)
    ensures
        opt_prefix(s, k, i, greedy).len() == (s.len() + 5) * i,
    decreases i,
{
    let l = s.len() as int;
    if i > 0 {
        lemma_opt_prefix_len(s, k, (i - 1) as nat, greedy);
        assert(opt_segment(s, k, i - 1, greedy).len() == l + 5);
        assert((l + 5) * (i - 1) + (l + 5) == (l + 5) * i) by (nonlinear_arith);
    } else {
        assert((l + 5) * i == 0) by (nonlinear_arith)
            requires
                i == 0,
        ;
    }
}

/// The length of a repetition's code in terms of the length of its body.
proof fn lemma_rep_len(s: Seq<u8>, min: u32, max: Option<u32>, greedy: bool)
    requires
        max is Some ==> min <= max->0,
    ensures
        rep_code(s, min, max, greedy).len() == rep_len(s.len() as int, min, max),
{
    lemma_repeat_len(s, min as nat);
    let l = s.len() as int;
    assert(repeat(s, min as nat).len() == l * min);
    match max {
        Some(m) => {
            lemma_opt_prefix_len(s, (m - min) as nat, (m - min) as nat, greedy);
        },
        None => {
            if min == 1 {
                assert(plus_code(s, greedy).len() == l + 5);
            } else {
                assert(star_code(s, greedy).len() == l + 10);
            }
        },
    }
}

/// The saturated length of a repetition's code, from the saturated length
/// of its body.
fn rep_size(s: u64, min: u32, max: Option<u32>, Ghost(l): Ghost<int>) -> (r: u64)
    requires
        l >= 0,
        s == sat(l),
        max is Some ==> min <= max->0,
    ensures
        r == sat(rep_len(l, min, max)),
{
    proof {
        lemma_sat_ops(l, 0, min as int);
        lemma_sat_ops(l, 10, 0);
        lemma_sat_ops(l, 5, 0);
        assert(l * min >= 0) by (nonlinear_arith)
            requires
                l >= 0,
        ;
        lemma_sat_ops(l * min, l + 10, 0);
        lemma_sat_ops(l + 5, 0, 0);
        match max {
            Some(m) => {
                lemma_sat_ops(l + 5, 0, (m - min) as int);
                assert((l + 5) * (m - min) >= 0) by (nonlinear_arith)
                    requires
                        l >= 0,
                        m >= min,
                ;
                lemma_sat_ops(l * min, (l + 5) * (m - min), 0);
            },
            None => {},
        }
    }
    match max {
        None => {
            if min == 1 {
                sat_add(s, 5)
            } else {
                let a = sat_mul(s, min);
                let b = sat_add(s, 10);
                sat_add(a, b)
            }
        },
        Some(m) => {
            let a = sat_mul(s, min);
            let b = sat_mul(sat_add(s, 5), m - min);
            sat_add(a, b)
        },
    }
}

/// Add two saturated sizes.
fn sat_add(a: u64, b: u64) -> (r: u64)
    requires
        a <= 0x8000_0000,
        b <= 0x8000_0000,
    ensures
        r == sat(a + b),
{
    let s = a + b;
    if s > 0x8000_0000 {
        0x8000_0000
    } else {
        s
    }
}

/// Multiply a saturated size by a count.
fn sat_mul(a: u64, k: u32) -> (r: u64)
    requires
        a <= 0x8000_0010,
    ensures
        r == sat(a * k),
{
    assert(a * k <= 0x8000_0010 * 0xFFFF_FFFF) by (nonlinear_arith)
        requires
            a <= 0x8000_0010,
            k <= 0xFFFF_FFFF,
    ;
    let s = a * (k as u64);
    if s > 0x8000_0000 {
        0x8000_0000
    } else {
        s
    }
}

/// Saturation passes through sums and products.
proof fn lemma_sat_ops(a: int, b: int, k: int)
    requires
        a >= 0,
        b >= 0,
        k >= 0,
    ensures
        sat(sat(a) + sat(b)) == sat(a + b),
        sat(sat(a) * k) == sat(a * k),
        sat(sat(a) + b) == sat(a + b),
{
    if a > 0x8000_0000 && k > 0 {
        assert(a * k >= a) by (nonlinear_arith)
            requires
                a >= 0,
                k >= 1,
        ;
        assert(0x8000_0000 * k >= 0x8000_0000) by (nonlinear_arith)
            requires
                k >= 1,
        ;
    }
    if k == 0 {
        assert(sat(a) * k == 0 && a * k == 0) by (nonlinear_arith)
            requires
                k == 0,
        ;
    }
}

/// The saturated length of the code of a node, or the error that refuses it.
#[verifier::spinoff_prover]
#[verifier::rlimit(40)]
pub fn code_size(node: &Node, fl: Flags, ncap: u32, back: bool) -> (r: Result<u64, ErrorKind>)
    ensures
        match sgen(node@, fl, ncap as nat, back) {
            Err(e) => r == Err::<u64, ErrorKind>(e),
            Ok(c) => r is Ok && r->Ok_0 == sat(c.len() as int),
        },
    decreases node,
{
    let ic = fl.contains(Flags::IGNORE_CASE);
    let wrap: u64 = if back { 2 } else { 0 };
    match node {
        Node::Empty => Ok(0),
        Node::Literal(c) => {
            if (*c as u32) <= 0xFFFF {
                Ok(3 + wrap)
            } else {
                Ok(5 + wrap)
            }
        },
        Node::Dot => Ok(1 + wrap),
        Node::Class { ranges, negated } => {
            match class_ranges(ranges, *negated) {
                Err(_) => Err(ErrorKind::InvalidClassRange),
                Ok(iv) => {
                    if iv.len() > 0xFFFF {
                        Err(ErrorKind::ClassTooLarge)
                    } else {
                        let n = intervals_size(&iv);
                        proof {
                            lemma_sat_ops(class_code(iv@, ic).len() as int, wrap as int, 0);
                        }
                        Ok(sat_add(n, wrap))
                    }
                },
            }
        },
        Node::Builtin(b) => {
            match b {
                BuiltinClass::Space | BuiltinClass::NotSpace => Ok(1 + wrap),
                _ => {
                    let items = vec![ClassRange::Builtin(*b)];
                    assert(items@ =~= seq![ClassRange::Builtin(*b)]);
                    match class_ranges(&items, false) {
                        Err(_) => {
                            assert(item_ok(items@[0]));
                            Err(ErrorKind::Other)
                        },
                        Ok(iv) => {
                            let n = intervals_size(&iv);
                            proof {
                                lemma_sat_ops(class_code(iv@, false).len() as int, wrap as int, 0);
                            }
                            Ok(sat_add(n, wrap))
                        },
                    }
                },
            }
        },
        Node::Anchor(_) => Ok(1),
        Node::WordBoundary { .. } => Ok(1),
        Node::BackRef(i) => {
            if 1 <= *i && *i <= ncap {
                Ok(3)
            } else {
                Err(ErrorKind::InvalidBackReference { index: *i })
            }
        },
        Node::Lookahead { sub, .. } => {
            let s = code_size(sub, fl, ncap, false)?;
            Ok(sat_add(s, 6))
        },
        Node::Lookbehind { sub, .. } => {
            let s = code_size(sub, fl, ncap, true)?;
            Ok(sat_add(s, 6))
        },
        Node::Capture { index, sub, .. } => {
            if *index > 255 {
                return Err(ErrorKind::TooManyCaptures);
            }
            let s = code_size(sub, fl, ncap, back)?;
            Ok(sat_add(s, 4))
        },
        Node::Group(sub) => code_size(sub, fl, ncap, back),
        Node::Repeat { sub, min, max, greedy } => {
            match max {
                Some(m) => {
                    if *m < *min {
                        return Err(ErrorKind::QuantifierOutOfOrder);
                    }
                },
                None => {},
            }
            let s = code_size(sub, fl, ncap, back)?;
            proof {
                lemma_rep_len(sgen(sub@, fl, ncap as nat, back)->Ok_0, *min, *max, *greedy);
            }
            Ok(rep_size(s, *min, *max, Ghost(sgen(sub@, fl, ncap as nat, back)->Ok_0.len() as int)))
        },
        Node::Concat(v) => {
            let ghost vw = nodes_view(v@);
            proof {
                lemma_nodes_view(v@);
            }
            let total = seq_size(v, fl, ncap, back)?;
            Ok(total)
        },
        Node::Alternation(v) => {
            let ghost vw = nodes_view(v@);
            proof {
                lemma_nodes_view(v@);
                lemma_alt_seq(vw, fl, ncap as nat, back);
            }
            let total = seq_size(v, fl, ncap, back)?;
            if v.len() == 0 {
                Ok(total)
            } else {
                let extra = if v.len() - 1 > 0x1000_0000 {
                    0x8000_0000
                } else {
                    sat_mul(10, (v.len() - 1) as u32)
                };
                proof {
                    lemma_sat_ops(sgen_seq(vw, fl, ncap as nat, back)->Ok_0.len() as int, 10 * (v.len() - 1), 0);
                }
                Ok(sat_add(total, extra))
            }
        },
    }
}

/// The saturated length of the codes of a sequence of nodes, one after the
/// other, or the first error.
fn seq_size(v: &Vec<Node>, fl: Flags, ncap: u32, back: bool) -> (r: Result<u64, ErrorKind>)
    ensures
        match sgen_seq(nodes_view(v@), fl, ncap as nat, back) {
            Err(e) => r == Err::<u64, ErrorKind>(e),
            Ok(c) => r is Ok && r->Ok_0 == sat(c.len() as int),
        },
    decreases v@,
{
    let ghost vw = nodes_view(v@);
    proof {
        lemma_nodes_view(v@);
    }
    let mut total: u64 = 0;
    let mut i: usize = 0;
    while i < v.len()
        invariant
            vw == nodes_view(v@),
            vw.len() == v@.len(),
            forall|k: int| 0 <= k < v@.len() ==> #[trigger] vw[k] == node_view(v@[k]),
            i <= v@.len(),
            sgen_seq(vw.take(i as int), fl, ncap as nat, back) is Ok,
            total == sat(sgen_seq(vw.take(i as int), fl, ncap as nat, back)->Ok_0.len() as int),
        decreases v@.len() - i,
    {
        proof {
            lemma_seq_step(vw, fl, ncap as nat, back, i as int);
        }
        let s = match code_size(&v[i], fl, ncap, back) {
            Ok(s) => s,
            Err(e) => {
                proof {
                    lemma_seq_err_extends(vw, fl, ncap as nat, back, i + 1);
                }
                return Err(e);
            },
        };
        proof {
            let p = sgen_seq(vw.take(i as int), fl, ncap as nat, back)->Ok_0;
            let c = sgen(vw[i as int], fl, ncap as nat, back)->Ok_0;
            lemma_sat_ops(p.len() as int, c.len() as int, 0);
        }
        total = sat_add(total, s);
        i = i + 1;
    }
    proof {
        assert(vw.take(v@.len() as int) =~= vw);
    }
    Ok(total)
}

/// Writing a jump offset over a placeholder in the middle of the code.
proof fn lemma_patch(a: Seq<u8>, op: u8, b: Seq<u8>, v: u32)
    ensures
        ({
            let code = a + seq![op] + le32(0) + b;
            code.subrange(0, a.len() + 1int) + le32(v) + code.subrange(a.len() + 5int, code.len() as int)
        }) == a + seq![op] + le32(v) + b,
{
    let code = a + seq![op] + le32(0) + b;
    assert(code.subrange(0, a.len() + 1int) =~= a + seq![op]);
    assert(code.subrange(a.len() + 5int, code.len() as int) =~= b);
    assert(a + seq![op] + le32(v) + b =~= (a + seq![op]) + le32(v) + b);
}

/// A jump offset depends only on the distance between the jump's end and
/// its target.
proof fn lemma_goto_offset_rel(after: int, target: int)
    ensures
        goto_offset(after, target) == goto_offset(0, target - after),
{
}

/// Generates QuickJS regex bytecode from a parsed pattern.
pub struct CodeGenerator {
    builder: BytecodeBuilder,
    flags: Flags,
    capture_count: u32,
    /// The capture count the header gets: 0 until a pattern is compiled,
    /// then one more than its largest capture index
    header_captures: u64,
}

impl CodeGenerator {
    /// The bytecode body emitted so far.
    pub closed spec fn code(&self) -> Seq<u8> {
        self.builder@
    }

    /// The flags the pattern is compiled with.
    pub closed spec fn spec_flags(&self) -> Flags {
        self.flags
    }

    /// The number of capture groups of the pattern (group 0 not counted).
    pub closed spec fn ncap(&self) -> nat {
        self.capture_count as nat
    }

    /// The capture count (group 0 included) that the header records.
    pub closed spec fn header_captures(&self) -> nat {
        self.header_captures as nat
    }

    /// A generator for a pattern with these flags and capture groups.
    pub fn new(flags: Flags, capture_count: u32) -> (g: Self)
        ensures
            g.code() == Seq::<u8>::empty(),
            g.spec_flags() == flags,
            g.ncap() == capture_count,
            g.header_captures() == 0,
    {
        CodeGenerator { builder: BytecodeBuilder::new(), flags, capture_count, header_captures: 0 }
    }

    /// Emit a jump to an already known target.
    fn emit_jump_to(&mut self, op: OpCode, target: usize)
        requires
            old(self).code().len() + 5 <= MAX_CODE_LEN,
            target <= MAX_CODE_LEN,
        ensures
            final(self).code() == old(self).code() + jmp(op, target - (old(self).code().len() + 5)),
            final(self).spec_flags() == old(self).spec_flags(),
            final(self).ncap() == old(self).ncap(),
    {
        let ghost a = self.builder@;
        let p = self.builder.emit_goto(op, 0);
        self.builder.patch_goto(p, target);
        proof {
            lemma_patch(a, opcode_byte(op), Seq::empty(), goto_offset(p + 4, target as int));
            assert(a + seq![opcode_byte(op)] + le32(0) + Seq::<u8>::empty() =~= a + seq![opcode_byte(op)] + le32(0));
            lemma_goto_offset_rel(p + 4, target as int);
            assert(a + seq![opcode_byte(op)] + le32(goto_offset(p + 4, target as int)) + Seq::<u8>::empty()
                =~= a + jmp(op, target - (a.len() + 5)));
        }
    }

    /// Emit the match of one character of a class with these intervals.
    fn emit_class(&mut self, iv: &Vec<(u32, u32)>, ic: bool)
        requires
            canonical(iv@),
            old(self).code().len() + class_code(iv@, ic).len() <= MAX_CODE_LEN,
        ensures
            final(self).code() == old(self).code() + class_code(iv@, ic),
            final(self).spec_flags() == old(self).spec_flags(),
            final(self).ncap() == old(self).ncap(),
    {
        proof {
            lemma_fits16_last(iv@);
        }
        let wide = !(iv.len() == 0 || iv[iv.len() - 1].1 <= 0xFFFF);
        let op = if wide {
            if ic { OpCode::Range32I } else { OpCode::Range32 }
        } else {
            if ic { OpCode::RangeI } else { OpCode::Range }
        };
        let ghost start = self.builder@ + op1(op) + le16(iv@.len() as u16);
        self.builder.emit_op(op);
        self.builder.push_u16(iv.len() as u16);
        assert(self.builder@ =~= start);
        let mut i: usize = 0;
        while i < iv.len()
            invariant
                canonical(iv@),
                i <= iv@.len(),
                wide == !fits16(iv@),
                self.builder@ == start + if wide {
                    pairs32(iv@.take(i as int))
                } else {
                    pairs16(iv@.take(i as int))
                },
                self.flags == old(self).flags,
                self.capture_count == old(self).capture_count,
            decreases iv@.len() - i,
        {
            let (lo, hi) = iv[i];
            proof {
                assert(iv@.take(i + 1).drop_last() =~= iv@.take(i as int));
                assert(iv@.take(i + 1).last() == (lo, hi));
            }
            if wide {
                self.builder.push_u32(lo);
                self.builder.push_u32(hi);
            } else {
                proof {
                    assert((#[trigger] iv@[i as int]).1 <= 0xFFFF);
                }
                self.builder.push_u16(lo as u16);
                self.builder.push_u16(hi as u16);
            }
            i = i + 1;
        }
        proof {
            assert(iv@.take(iv@.len() as int) =~= iv@);
        }
    }

    /// Emit the code of a node.
    #[verifier::spinoff_prover]
    #[verifier::rlimit(40)]
    fn emit_node(&mut self, node: &Node, back: bool)
        requires
            sgen(node@, old(self).spec_flags(), old(self).ncap(), back) is Ok,
            old(self).code().len() + sgen(node@, old(self).spec_flags(), old(self).ncap(), back)->Ok_0.len()
                <= MAX_CODE_LEN,
        ensures
            final(self).code() == old(self).code() + sgen(
                node@,
                old(self).spec_flags(),
                old(self).ncap(),
                back,
            )->Ok_0,
            final(self).spec_flags() == old(self).spec_flags(),
            final(self).ncap() == old(self).ncap(),
        decreases node, 0int,
    {
        let fl = self.flags;
        let ncap = self.capture_count;
        let ic = fl.contains(Flags::IGNORE_CASE);
        let ghost a = self.builder@;
        let consumes = match node {
            Node::Literal(_) | Node::Dot | Node::Class { .. } | Node::Builtin(_) => true,
            _ => false,
        };
        if back && consumes {
            self.builder.emit_op(OpCode::Prev);
        }
        let ghost a1 = self.builder@;
        match node {
            Node::Empty => {
                assert(a + Seq::<u8>::empty() =~= a);
            },
            Node::Literal(c) => {
                let v = *c as u32;
                if v <= 0xFFFF {
                    self.builder.emit_op_u16(if ic { OpCode::CharI } else { OpCode::Char }, v as u16);
                } else {
                    self.builder.emit_op_u32(if ic { OpCode::Char32I } else { OpCode::Char32 }, v);
                }
            },
            Node::Dot => {
                self.builder.emit_op(
                    if fl.contains(Flags::DOT_ALL) {
                        OpCode::Any
                    } else {
                        OpCode::Dot
                    },
                );
            },
            Node::Class { ranges, negated } => {
                match class_ranges(ranges, *negated) {
                    Err(_) => {
                        assert(false);
                    },
                    Ok(iv) => {
                        proof {
                            lemma_class_code_len(iv@, ic);
                        }
                        self.emit_class(&iv, ic);
                    },
                }
            },
            Node::Builtin(b) => {
                match b {
                    BuiltinClass::Space => self.builder.emit_op(OpCode::Space),
                    BuiltinClass::NotSpace => self.builder.emit_op(OpCode::NotSpace),
                    _ => {
                        let items = vec![ClassRange::Builtin(*b)];
                        assert(items@ =~= seq![ClassRange::Builtin(*b)]);
                        match class_ranges(&items, false) {
                            Err(_) => {
                                assert(item_ok(items@[0]));
                            },
                            Ok(iv) => {
                                self.emit_class(&iv, false);
                            },
                        }
                    },
                }
            },
            Node::Anchor(k) => {
                let ml = fl.contains(Flags::MULTILINE);
                let op = match k {
                    AnchorKind::Start => if ml { OpCode::LineStartM } else { OpCode::LineStart },
                    AnchorKind::End => if ml { OpCode::LineEndM } else { OpCode::LineEnd },
                };
                self.builder.emit_op(op);
            },
            Node::WordBoundary { negated } => {
                self.builder.emit_op(
                    if *negated {
                        OpCode::NotWordBoundary
                    } else {
                        OpCode::WordBoundary
                    },
                );
            },
            Node::BackRef(i) => {
                self.builder.emit_op(
                    if back {
                        if ic {
                            OpCode::BackwardBackReferenceI
                        } else {
                            OpCode::BackwardBackReference
                        }
                    } else if ic {
                        OpCode::BackReferenceI
                    } else {
                        OpCode::BackReference
                    },
                );
                self.builder.push(1);
                self.builder.push(*i as u8);
                assert(self.builder@ =~= a + sgen(node@, fl, ncap as nat, back)->Ok_0);
            },
            Node::Lookahead { sub, negative } => {
                self.emit_look(sub, *negative, false);
            },
            Node::Lookbehind { sub, negative } => {
                self.emit_look(sub, *negative, true);
            },
            Node::Capture { index, sub, .. } => {
                self.builder.emit_op_u8(if back { OpCode::SaveEnd } else { OpCode::SaveStart }, *index as u8);
                self.emit_node(sub, back);
                self.builder.emit_op_u8(if back { OpCode::SaveStart } else { OpCode::SaveEnd }, *index as u8);
                assert(self.builder@ =~= a + sgen(node@, fl, ncap as nat, back)->Ok_0);
            },
            Node::Group(sub) => {
                self.emit_node(sub, back);
            },
            Node::Repeat { sub, min, max, greedy } => {
                self.emit_repeat(sub, *min, *max, *greedy, back);
            },
            Node::Concat(v) => {
                self.emit_seq(v, back);
            },
            Node::Alternation(v) => {
                proof {
                    lemma_nodes_view(v@);
                    assert(nodes_view(v@).subrange(0, v@.len() as int) =~= nodes_view(v@));
                }
                self.emit_alt(v, 0, back);
            },
        }
        if back && consumes {
            self.builder.emit_op(OpCode::Prev);
            proof {
                let c = sgen(node@, fl, ncap as nat, false)->Ok_0;
                assert(self.builder@ =~= a + (op1(OpCode::Prev) + c + op1(OpCode::Prev)));
            }
        }
    }

    /// Emit a lookahead (`behind` false) or a lookbehind around `sub`: the
    /// body is matched forward in the first, backward in the second.
    fn emit_look(&mut self, sub: &Node, negative: bool, behind: bool)
        requires
            sgen(sub@, old(self).spec_flags(), old(self).ncap(), behind) is Ok,
            old(self).code().len() + sgen(sub@, old(self).spec_flags(), old(self).ncap(), behind)->Ok_0.len()
                + 6 <= MAX_CODE_LEN,
        ensures
            final(self).code() == old(self).code() + jmp(
                if negative { OpCode::NegativeLookahead } else { OpCode::Lookahead },
                sgen(sub@, old(self).spec_flags(), old(self).ncap(), behind)->Ok_0.len() + 1int,
            ) + sgen(sub@, old(self).spec_flags(), old(self).ncap(), behind)->Ok_0 + op1(
                if negative { OpCode::NegativeLookaheadMatch } else { OpCode::LookaheadMatch },
            ),
            final(self).spec_flags() == old(self).spec_flags(),
            final(self).ncap() == old(self).ncap(),
        decreases sub, 3int,
    {
        let ghost fl = self.flags;
        let ghost ncap = self.capture_count;
        let ghost a = self.builder@;
        let op = if negative { OpCode::NegativeLookahead } else { OpCode::Lookahead };
        let end_op = if negative {
            OpCode::NegativeLookaheadMatch
        } else {
            OpCode::LookaheadMatch
        };
        let p = self.builder.emit_goto(op, 0);
        self.emit_node(sub, behind);
        self.builder.emit_op(end_op);
        let ghost s = sgen(sub@, fl, ncap as nat, behind)->Ok_0;
        let ghost b = s + op1(end_op);
        assert(self.builder@ =~= a + seq![opcode_byte(op)] + le32(0) + b);
        let t = self.builder.pc();
        self.builder.patch_goto(p, t);
        proof {
            lemma_patch(a, opcode_byte(op), b, goto_offset(p + 4, t as int));
            lemma_goto_offset_rel(p + 4, t as int);
            assert(self.builder@ =~= a + jmp(op, s.len() + 1int) + s + op1(end_op));
        }
    }
}

impl CodeGenerator {
    /// Emit the code of `min` to `max` copies of a node.
    #[verifier::spinoff_prover]
    fn emit_repeat(&mut self, sub: &Node, min: u32, max: Option<u32>, greedy: bool, back: bool)
        requires
            sgen(sub@, old(self).spec_flags(), old(self).ncap(), back) is Ok,
            max is Some ==> min <= max->0,
            old(self).code().len() + rep_code(
                sgen(sub@, old(self).spec_flags(), old(self).ncap(), back)->Ok_0,
                min,
                max,
                greedy,
            ).len() <= MAX_CODE_LEN,
        ensures
            final(self).code() == old(self).code() + rep_code(
                sgen(sub@, old(self).spec_flags(), old(self).ncap(), back)->Ok_0,
                min,
                max,
                greedy,
            ),
            final(self).spec_flags() == old(self).spec_flags(),
            final(self).ncap() == old(self).ncap(),
        decreases sub, 2int,
    {
        let ghost fl = self.flags;
        let ghost nc = self.capture_count as nat;
        let ghost a = self.builder@;
        let ghost s = sgen(sub@, fl, nc, back)->Ok_0;
        let ghost l = s.len() as int;
        proof {
            lemma_rep_len(s, min, max, greedy);
        }
        if max.is_none() && min == 1 {
            let start = self.builder.pc();
            self.emit_node(sub, back);
            self.emit_jump_to(
                if greedy {
                    OpCode::SplitGotoFirst
                } else {
                    OpCode::SplitNextFirst
                },
                start,
            );
            assert(self.builder@ =~= a + plus_code(s, greedy));
            return;
        }
        let mut i: u32 = 0;
        while i < min
            invariant
                self.flags == fl,
                self.capture_count as nat == nc,
                sgen(sub@, fl, nc, back) is Ok,
                s == sgen(sub@, fl, nc, back)->Ok_0,
                l == s.len(),
                i <= min,
                self.builder@ == a + repeat(s, i as nat),
                a.len() + l * min <= MAX_CODE_LEN,
            decreases min - i,
        {
            proof {
                lemma_repeat_len(s, i as nat);
                assert(l * i + l <= l * min) by (nonlinear_arith)
                    requires
                        i < min,
                        l >= 0,
                ;
            }
            self.emit_node(sub, back);
            assert(self.builder@ =~= a + repeat(s, (i + 1) as nat));
            i = i + 1;
        }
        proof {
            lemma_repeat_len(s, min as nat);
        }
        match max {
            None => {
                self.emit_star(sub, greedy, back);
            },
            Some(m) => {
                proof {
                    lemma_opt_prefix_len(s, (m - min) as nat, (m - min) as nat, greedy);
                }
                self.emit_opts(sub, m - min, greedy, back);
            },
        }
        assert(self.builder@ =~= a + rep_code(s, min, max, greedy));
    }

    /// Emit any number of copies of a node.
    #[verifier::spinoff_prover]
    fn emit_star(&mut self, sub: &Node, greedy: bool, back: bool)
        requires
            sgen(sub@, old(self).spec_flags(), old(self).ncap(), back) is Ok,
            old(self).code().len() + star_code(sgen(sub@, old(self).spec_flags(), old(self).ncap(), back)->Ok_0, greedy).len() <= MAX_CODE_LEN,
        ensures
            final(self).code() == old(self).code() + star_code(sgen(sub@, old(self).spec_flags(), old(self).ncap(), back)->Ok_0, greedy),
            final(self).spec_flags() == old(self).spec_flags(),
            final(self).ncap() == old(self).ncap(),
        decreases sub, 1int,
    {
        let ghost fl = self.flags;
        let ghost nc = self.capture_count as nat;
        let ghost s = sgen(sub@, fl, nc, back)->Ok_0;
        let ghost l = s.len() as int;
        let ghost mid = self.builder@;
        let ls = self.builder.pc();
        let op = if greedy { OpCode::SplitNextFirst } else { OpCode::SplitGotoFirst };
        let p = self.builder.emit_goto(op, 0);
        self.emit_node(sub, back);
        self.emit_jump_to(OpCode::Goto, ls);
        let ghost b = s + jmp(OpCode::Goto, ls - (mid.len() + 5 + l + 5));
        assert(self.builder@ =~= mid + seq![opcode_byte(op)] + le32(0) + b);
        let t = self.builder.pc();
        self.builder.patch_goto(p, t);
        proof {
            lemma_patch(mid, opcode_byte(op), b, goto_offset(p + 4, t as int));
            lemma_goto_offset_rel(p + 4, t as int);
            assert(self.builder@ =~= mid + star_code(s, greedy));
        }
    }

    /// Emit `count` nested optional copies of a node.
    #[verifier::spinoff_prover]
    fn emit_opts(&mut self, sub: &Node, count: u32, greedy: bool, back: bool)
        requires
            sgen(sub@, old(self).spec_flags(), old(self).ncap(), back) is Ok,
            old(self).code().len() + (sgen(sub@, old(self).spec_flags(), old(self).ncap(), back)->Ok_0.len() + 5) * count <= MAX_CODE_LEN,
        ensures
            final(self).code() == old(self).code() + opt_code(sgen(sub@, old(self).spec_flags(), old(self).ncap(), back)->Ok_0, count as nat, greedy),
            final(self).spec_flags() == old(self).spec_flags(),
            final(self).ncap() == old(self).ncap(),
        decreases sub, 1int,
    {
        let ghost fl = self.flags;
        let ghost nc = self.capture_count as nat;
        let ghost s = sgen(sub@, fl, nc, back)->Ok_0;
        let ghost mid = self.builder@;
        let op = if greedy { OpCode::SplitNextFirst } else { OpCode::SplitGotoFirst };
        assert(mid + Seq::<u8>::empty() =~= mid);
        let l: u64 = match code_size(sub, self.flags, self.capture_count, back) {
            Ok(x) => x,
            Err(_) => {
                assert(false);
                0
            },
        };
        proof {
            assert((s.len() + 5) * count >= s.len() * count) by (nonlinear_arith);
            if count > 0 {
                assert((s.len() + 5) * count >= s.len() + 5) by (nonlinear_arith)
                    requires
                        count >= 1,
                ;
            }
        }
        let mut j: u32 = 0;
        while j < count
            invariant
                self.flags == fl,
                self.capture_count as nat == nc,
                sgen(sub@, fl, nc, back) is Ok,
                s == sgen(sub@, fl, nc, back)->Ok_0,
                count > 0 ==> l == s.len(),
                op == (if greedy { OpCode::SplitNextFirst } else { OpCode::SplitGotoFirst }),
                j <= count,
                self.builder@ == mid + opt_prefix(s, count as nat, j as nat, greedy),
                mid.len() + (s.len() + 5) * count <= MAX_CODE_LEN,
            decreases count - j,
        {
            proof {
                lemma_opt_prefix_len(s, count as nat, j as nat, greedy);
                assert((s.len() + 5) * j + (s.len() + 5) <= (s.len() + 5) * count) by (nonlinear_arith)
                    requires
                        j < count,
                ;
                assert((count - 1 - j) * (s.len() + 5) + s.len() < (s.len() + 5) * count) by (nonlinear_arith)
                    requires
                        j < count,
                ;
            }
            let delta: u64 = ((count - 1 - j) as u64) * (l + 5) + l;
            let ghost c0 = self.builder@;
            self.builder.emit_op(op);
            self.builder.push_u32(delta as u32);
            self.emit_node(sub, back);
            proof {
                assert(goto_offset(0, delta as int) == delta as u32);
                assert(self.builder@ =~= c0 + opt_segment(s, count as nat, j as int, greedy));
                assert(self.builder@ =~= mid + opt_prefix(s, count as nat, (j + 1) as nat, greedy));
            }
            j = j + 1;
        }
    }

    /// Emit the codes of a sequence of nodes, one after the other.
    fn emit_seq(&mut self, v: &Vec<Node>, back: bool)
        requires
            sgen_seq(nodes_view(v@), old(self).spec_flags(), old(self).ncap(), back) is Ok,
            old(self).code().len() + sgen_seq(nodes_view(v@), old(self).spec_flags(), old(self).ncap(), back)->Ok_0.len() <= MAX_CODE_LEN,
        ensures
            final(self).code() == old(self).code() + sgen_seq(nodes_view(v@), old(self).spec_flags(), old(self).ncap(), back)->Ok_0,
            final(self).spec_flags() == old(self).spec_flags(),
            final(self).ncap() == old(self).ncap(),
        decreases v@, 0int,
    {
        let ghost fl = self.flags;
        let ghost nc = self.capture_count as nat;
        let ghost a = self.builder@;
        let ghost vw = nodes_view(v@);
        proof {
            lemma_nodes_view(v@);
            assert(vw.take(0) =~= Seq::<SNode>::empty());
            assert(a + Seq::<u8>::empty() =~= a);
        }
        if back {
            let mut i: usize = v.len();
            proof {
                assert(vw.take(v@.len() as int) =~= vw);
            }
            while i > 0
                invariant
                    self.flags == fl,
                    self.capture_count as nat == nc,
                    vw == nodes_view(v@),
                    vw.len() == v@.len(),
                    forall|k: int| 0 <= k < v@.len() ==> #[trigger] vw[k] == node_view(v@[k]),
                    i <= v@.len(),
                    back,
                    sgen_seq(vw, fl, nc, back) is Ok,
                    a.len() + sgen_seq(vw, fl, nc, back)->Ok_0.len() <= MAX_CODE_LEN,
                    sgen_seq(vw.take(i as int), fl, nc, back) is Ok,
                    self.builder@ + sgen_seq(vw.take(i as int), fl, nc, back)->Ok_0 == a + sgen_seq(
                        vw,
                        fl,
                        nc,
                        back,
                    )->Ok_0,
                decreases i,
            {
                proof {
                    lemma_seq_step(vw, fl, nc, back, i - 1);
                    lemma_seq_take_ok(vw, fl, nc, back, i - 1);
                    let p = sgen_seq(vw.take(i - 1), fl, nc, back)->Ok_0;
                    let c = sgen(vw[i - 1], fl, nc, back)->Ok_0;
                    assert(self.builder@ + (c + p) =~= (self.builder@ + c) + p);
                }
                self.emit_node(&v[i - 1], back);
                i = i - 1;
            }
            proof {
                assert(vw.take(0) =~= Seq::<SNode>::empty());
                assert(self.builder@ + Seq::<u8>::empty() =~= self.builder@);
            }
            return;
        }
        let mut i: usize = 0;
        while i < v.len()
            invariant
                self.flags == fl,
                self.capture_count as nat == nc,
                vw == nodes_view(v@),
                vw.len() == v@.len(),
                forall|k: int| 0 <= k < v@.len() ==> #[trigger] vw[k] == node_view(v@[k]),
                i <= v@.len(),
                !back,
                sgen_seq(vw, fl, nc, back) is Ok,
                a.len() + sgen_seq(vw, fl, nc, back)->Ok_0.len() <= MAX_CODE_LEN,
                sgen_seq(vw.take(i as int), fl, nc, back) is Ok,
                self.builder@ == a + sgen_seq(vw.take(i as int), fl, nc, back)->Ok_0,
            decreases v@.len() - i,
        {
            proof {
                lemma_seq_step(vw, fl, nc, back, i as int);
                lemma_seq_take_ok(vw, fl, nc, back, i + 1);
            }
            self.emit_node(&v[i], back);
            proof {
                assert(self.builder@ =~= a + sgen_seq(vw.take(i + 1), fl, nc, back)->Ok_0);
            }
            i = i + 1;
        }
        proof {
            assert(vw.take(v@.len() as int) =~= vw);
        }
    }

    /// Emit the code of the alternation of the nodes of `v` from `i` on.
    #[verifier::spinoff_prover]
    #[verifier::rlimit(40)]
    fn emit_alt(&mut self, v: &Vec<Node>, i: usize, back: bool)
        requires
            i <= v@.len(),
            sgen_alt(nodes_view(v@).subrange(i as int, v@.len() as int), old(self).spec_flags(), old(self).ncap(), back) is Ok,
            old(self).code().len() + sgen_alt(nodes_view(v@).subrange(i as int, v@.len() as int), old(self).spec_flags(), old(self).ncap(), back)->Ok_0.len() <= MAX_CODE_LEN,
        ensures
            final(self).code() == old(self).code() + sgen_alt(nodes_view(v@).subrange(i as int, v@.len() as int), old(self).spec_flags(), old(self).ncap(), back)->Ok_0,
            final(self).spec_flags() == old(self).spec_flags(),
            final(self).ncap() == old(self).ncap(),
        decreases v@, v@.len() - i,
    {
        let ghost fl = self.flags;
        let ghost nc = self.capture_count as nat;
        let ghost a = self.builder@;
        let ghost vw = nodes_view(v@);
        let ghost rest = vw.subrange(i as int, v@.len() as int);
        proof {
            lemma_nodes_view(v@);
        }
        if i == v.len() {
            assert(a + Seq::<u8>::empty() =~= a);
            return;
        }
        proof {
            assert(rest[0] == vw[i as int]);
            assert(rest.drop_first() =~= vw.subrange(i + 1, v@.len() as int));
        }
        if i + 1 == v.len() {
            self.emit_node(&v[i], back);
            return;
        }
        let p = self.builder.emit_goto(OpCode::SplitNextFirst, 0);
        self.emit_node(&v[i], back);
        let ghost c = sgen(vw[i as int], fl, nc, back)->Ok_0;
        let ghost r = sgen_alt(vw.subrange(i + 1, v@.len() as int), fl, nc, back)->Ok_0;
        let g = self.builder.emit_goto(OpCode::Goto, 0);
        let t = self.builder.pc();
        assert(self.builder@ =~= a + seq![opcode_byte(OpCode::SplitNextFirst)] + le32(0) + (c + seq![opcode_byte(OpCode::Goto)] + le32(0)));
        self.builder.patch_goto(p, t);
        let ghost b0 = self.builder@;
        proof {
            lemma_patch(a, opcode_byte(OpCode::SplitNextFirst), c + seq![opcode_byte(OpCode::Goto)] + le32(0), goto_offset(p + 4, t as int));
            lemma_goto_offset_rel(p + 4, t as int);
            assert(b0 =~= (a + jmp(OpCode::SplitNextFirst, c.len() + 5int) + c) + seq![opcode_byte(OpCode::Goto)] + le32(0));
        }
        self.emit_alt(v, i + 1, back);
        let e = self.builder.pc();
        let ghost pre = a + jmp(OpCode::SplitNextFirst, c.len() + 5int) + c;
        assert(self.builder@ =~= pre + seq![opcode_byte(OpCode::Goto)] + le32(0) + r);
        self.builder.patch_goto(g, e);
        proof {
            lemma_patch(pre, opcode_byte(OpCode::Goto), r, goto_offset(g + 4, e as int));
            lemma_goto_offset_rel(g + 4, e as int);
            assert(self.builder@ =~= a + sgen_alt(rest, fl, nc, back)->Ok_0);
        }
    }
}

impl CodeGenerator {
    /// Compile a whole pattern: the search loop (unless sticky), the pattern
    /// between the saves of group 0, and `match`.
    pub fn compile(&mut self, node: &Node) -> (r: Result<(), CompilerError>)
        ensures
            final(self).spec_flags() == old(self).spec_flags(),
            final(self).ncap() == old(self).ncap(),
            match program(node@, old(self).spec_flags(), old(self).ncap()) {
                Err(e) => r is Err && r->Err_0@.0 == e && final(self).code() == old(self).code(),
                Ok(p) => if old(self).code().len() + p.len() > MAX_CODE_LEN {
                    r is Err && r->Err_0@.0 == ErrorKind::PatternTooLarge && final(self).code()
                        == old(self).code()
                } else {
                    r is Ok && final(self).code() == old(self).code() + p
                },
            },
            r is Ok ==> final(self).header_captures() == 1 + max_cap(node@),
            r is Err ==> final(self).header_captures() == old(self).header_captures(),
    {
        let fl = self.flags;
        let ghost nc = self.capture_count as nat;
        if self.capture_count > 254 {
            return Err(CompilerError::from_kind(ErrorKind::TooManyCaptures));
        }
        let size = match code_size(node, fl, self.capture_count, false) {
            Ok(s) => s,
            Err(e) => return Err(CompilerError::from_kind(e)),
        };
        let ghost c = sgen(node@, fl, nc, false)->Ok_0;
        let sticky = fl.contains(Flags::STICKY);
        let prefix_len: u64 = if sticky { 0 } else { 11 };
        let ghost a = self.builder@;
        proof {
            assert(search_prefix(fl).len() == prefix_len);
            assert(program(node@, fl, nc)->Ok_0.len() == prefix_len + c.len() + 5);
        }
        if self.builder.pc() > MAX_CODE_LEN || self.builder.pc() as u64 + prefix_len + size + 5
            > MAX_CODE_LEN as u64 {
            return Err(CompilerError::from_kind(ErrorKind::PatternTooLarge));
        }
        if !sticky {
            let start = self.builder.pc();
            let p = self.builder.emit_goto(OpCode::SplitGotoFirst, 0);
            self.builder.emit_op(OpCode::Any);
            self.emit_jump_to(OpCode::Goto, start);
            let t = self.builder.pc();
            let ghost b = op1(OpCode::Any) + jmp(OpCode::Goto, -11);
            assert(self.builder@ =~= a + seq![opcode_byte(OpCode::SplitGotoFirst)] + le32(0) + b);
            self.builder.patch_goto(p, t);
            proof {
                lemma_patch(a, opcode_byte(OpCode::SplitGotoFirst), b, goto_offset(p + 4, t as int));
                lemma_goto_offset_rel(p + 4, t as int);
                assert(self.builder@ =~= a + search_prefix(fl));
            }
        } else {
            assert(a + search_prefix(fl) =~= a);
        }
        self.builder.emit_op_u8(OpCode::SaveStart, 0);
        self.emit_node(node, false);
        self.builder.emit_op_u8(OpCode::SaveEnd, 0);
        self.builder.emit_op(OpCode::Match);
        assert(self.builder@ =~= a + program(node@, fl, nc)->Ok_0);
        self.header_captures = 1 + max_capture_index(node) as u64;
        Ok(())
    }

    /// The bytecode: the 8-byte header followed by the body.
    pub fn into_bytecode(self) -> (r: Vec<u8>)
        ensures
            r@ == header(self.spec_flags(), self.header_captures(), 0, self.code().len()) + self.code(),
    {
        let body = self.builder.into_vec();
        let mut result: Vec<u8> = Vec::new();
        let bits = self.flags.bits();
        result.push((bits % 256) as u8);
        result.push((bits / 256) as u8);
        result.push(self.header_captures as u8);
        // no registers: the generator emits no counted loops
        result.push(0);
        let n = body.len() as u32;
        result.push((n % 256) as u8);
        result.push(((n / 256) % 256) as u8);
        result.push(((n / 65536) % 256) as u8);
        result.push((n / 16777216) as u8);
        let ghost h = result@;
        let mut i: usize = 0;
        while i < body.len()
            invariant
                i <= body@.len(),
                result@ == h + body@.take(i as int),
            decreases body@.len() - i,
        {
            result.push(body[i]);
            assert(result@ =~= h + body@.take(i + 1));
            i = i + 1;
        }
        assert(body@.take(body@.len() as int) =~= body@);
        assert(h =~= header(self.spec_flags(), self.header_captures(), 0, self.code().len()));
        result
    }
}

} // verus!
