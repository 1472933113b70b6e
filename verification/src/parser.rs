//! JavaScript regex parser (ECMAScript 2018+).
//!
//! Recursive descent parser that produces a simple AST from JS regex syntax.
//! Supports: literals, character classes, escapes, backreferences, lookahead,
//! lookbehind, capture groups, non-capturing groups, quantifiers, alternation.
//!
//! The grammar is given twice: once as spec functions over the pattern's
//! chars (`sp_*`), which define what each parsing step returns, and once as
//! the executable parser, each method of which is proved to return exactly
//! what its spec function says.
use vstd::prelude::*;
use crate::ast::{AnchorKind, BuiltinClass, ClassRange, Node, SNode, node_view, nodes_view, name_view, lemma_nodes_view, lemma_nodes_view_push, lemma_view_literal};
use crate::error::{ErrorKind, CompilerError};
use crate::flags::Flags;
use crate::unicode_props::{property_ranges, property_ranges_of};
use crate::support::{lemma_char_of_code, is_scalar, dec_val, hex_val, std_is_alphanumeric, dec_digit, hex_digit, char_is_alphanumeric, char_from_u32, string_push, str_chars};

verus! {

/// Result of a spec parsing step: the node, the position after it and the
/// capture count after it.
pub type SpecRes = Result<(SNode, int, nat), ErrorKind>;

/// The char at `p`, if any.
pub open spec fn peek_at(s: Seq<char>, p: int) -> Option<char> {
    if 0 <= p < s.len() {
        Some(s[p])
    } else {
        None
    }
}

/// Whether a later position was reached without passing the end.
pub open spec fn advanced(s: Seq<char>, p: int, q: int) -> bool {
    p < q <= s.len()
}

/// `expect(ch)` at `p`: the position after it, or the error and the position
/// the parser is left at.
pub open spec fn sp_expect(s: Seq<char>, p: int, ch: char) -> Result<int, (ErrorKind, int)> {
    match peek_at(s, p) {
        Some(c) => if c == ch {
            Ok(p + 1)
        } else {
            Err((ErrorKind::ExpectedChar { expected: ch, got: c, pos: p as usize }, p + 1))
        },
        None => Err((ErrorKind::ExpectedCharAtEnd { expected: ch }, p)),
    }
}

/// Decimal digits from `p` on, accumulated onto `n`; `None` on overflow or
/// when no digit was read since `start`.
pub open spec fn sp_decimal_from(s: Seq<char>, start: int, p: int, n: u32) -> Option<(u32, int)>
    decreases s.len() - p,
{
    match peek_at(s, p) {
        Some(c) => match dec_val(c) {
            Some(d) => if n * 10 + d > u32::MAX {
                None
            } else {
                sp_decimal_from(s, start, p + 1, (n * 10 + d) as u32)
            },
            None => if p == start {
                None
            } else {
                Some((n, p))
            },
        },
        None => if p == start {
            None
        } else {
            Some((n, p))
        },
    }
}

/// A decimal number at `p` that fits in a `u32`.
pub open spec fn sp_decimal(s: Seq<char>, p: int) -> Option<(u32, int)> {
    sp_decimal_from(s, p, p, 0)
}

/// `{n}`, `{n,}` or `{n,m}` at `p` (which holds `{`): the bounds and the
/// position after, or the error and the position the parser is left at.
#[verifier::opaque]
pub open spec fn sp_braces(s: Seq<char>, p: int) -> Result<((u32, Option<u32>), int), (ErrorKind, int)> {
    match sp_decimal(s, p + 1) {
        None => Err((ErrorKind::LiteralBrace, p)),
        Some((min, p2)) => match peek_at(s, p2) {
            Some(c) => if c == '}' {
                Ok(((min, Some(min)), p2 + 1))
            } else if c == ',' {
                if peek_at(s, p2 + 1) == Some('}') {
                    Ok(((min, None), p2 + 2))
                } else {
                    match sp_decimal(s, p2 + 1) {
                        Some((max, p3)) => match sp_expect(s, p3, '}') {
                            Ok(p4) => Ok(((min, Some(max)), p4)),
                            Err(e) => Err(e),
                        },
                        None => Err((ErrorKind::LiteralBrace, p)),
                    }
                }
            } else {
                Err((ErrorKind::LiteralBrace, p))
            },
            None => Err((ErrorKind::LiteralBrace, p)),
        },
    }
}

/// The sequence of nodes a concatenation stands for.
pub open spec fn concat_of(acc: Seq<SNode>) -> SNode {
    if acc.len() == 0 {
        SNode::Empty
    } else if acc.len() == 1 {
        acc[0]
    } else {
        SNode::Concat(acc)
    }
}

/// `n * 10 + d`, saturated at `u32::MAX`.
pub open spec fn sat_dec(n: u32, d: u32) -> u32 {
    if n * 10 + d > u32::MAX {
        u32::MAX
    } else {
        (n * 10 + d) as u32
    }
}

/// The digits of a back reference from `p` on, accumulated onto `n`.
pub open spec fn sp_backref_digits(s: Seq<char>, p: int, n: u32) -> (u32, int)
    decreases s.len() - p,
{
    match peek_at(s, p) {
        Some(c) => match dec_val(c) {
            Some(d) => sp_backref_digits(s, p + 1, sat_dec(n, d)),
            None => (n, p),
        },
        None => (n, p),
    }
}

/// `code * 16 + d`, saturated just above the largest code point.
pub open spec fn sat_hex(code: u32, d: u32) -> u32 {
    if code > 0x10FFFF {
        0x110000
    } else {
        (code * 16 + d) as u32
    }
}

/// Hex digits of `\u{...}` from `p` up to `}` or the end: the code, the
/// number of digits and the position reached.
pub open spec fn sp_ubrace_digits(s: Seq<char>, p: int, code: u32, digits: nat) -> Result<(u32, nat, int), ErrorKind>
    decreases s.len() - p,
{
    match peek_at(s, p) {
        Some(c) => if c == '}' {
            Ok((code, digits, p))
        } else {
            match hex_val(c) {
                Some(d) => sp_ubrace_digits(s, p + 1, sat_hex(code, d), digits + 1),
                None => Err(ErrorKind::InvalidUnicodeEscape),
            }
        },
        None => Ok((code, digits, p)),
    }
}

/// The value of the hex digit at `p`, if there is one.
pub open spec fn hex_at(s: Seq<char>, p: int) -> Option<u32> {
    match peek_at(s, p) {
        Some(c) => hex_val(c),
        None => None,
    }
}

/// A `\u` escape after the `u` (at `p`): the char and the position after it.
#[verifier::opaque]
pub open spec fn sp_unicode_escape(s: Seq<char>, p: int) -> Result<(char, int), ErrorKind> {
    if peek_at(s, p) == Some('{') {
        match sp_ubrace_digits(s, p + 1, 0, 0) {
            Err(e) => Err(e),
            Ok((code, digits, q)) => match sp_expect(s, q, '}') {
                Err((e, _)) => Err(e),
                Ok(q2) => if digits == 0 || code > 0x10FFFF {
                    Err(ErrorKind::InvalidUnicodeEscape)
                } else if is_scalar(code) {
                    Ok((code as char, q2))
                } else {
                    Err(ErrorKind::InvalidUnicodeCodepoint)
                },
            },
        }
    } else {
        match (hex_at(s, p), hex_at(s, p + 1), hex_at(s, p + 2), hex_at(s, p + 3)) {
            (Some(d1), Some(d2), Some(d3), Some(d4)) => {
                let code = (((d1 * 16 + d2) * 16 + d3) * 16 + d4) as u32;
                if is_scalar(code) {
                    Ok((code as char, p + 4))
                } else {
                    Err(ErrorKind::InvalidUnicodeCodepoint)
                }
            },
            _ => Err(ErrorKind::InvalidUnicodeEscape),
        }
    }
}

/// Two hex digits at `p`: their value and the position after them.
pub open spec fn sp_hex2(s: Seq<char>, p: int) -> Option<(u32, int)> {
    match (hex_at(s, p), hex_at(s, p + 1)) {
        (Some(h1), Some(h2)) => Some(((h1 * 16 + h2) as u32, p + 2)),
        _ => None,
    }
}

/// The name of a `\p{...}` property from `p` up to `}` or the end.
pub open spec fn sp_property_name(s: Seq<char>, p: int, acc: Seq<char>) -> (Seq<char>, int)
    decreases s.len() - p,
{
    match peek_at(s, p) {
        Some(c) => if c == '}' {
            (acc, p + 1)
        } else {
            sp_property_name(s, p + 1, acc.push(c))
        },
        None => (acc, p),
    }
}

/// Class items for a list of char ranges.
pub open spec fn ranges_to_items(r: Seq<(char, char)>) -> Seq<ClassRange>
    decreases r.len(),
{
    if r.len() == 0 {
        Seq::empty()
    } else {
        ranges_to_items(r.drop_last()).push(ClassRange::Range(r.last().0, r.last().1))
    }
}

/// `\p` or `\P` after the letter (at `p`).
#[verifier::opaque]
pub open spec fn sp_property(s: Seq<char>, p: int, negated: bool) -> Result<(SNode, int), ErrorKind> {
    let named = if peek_at(s, p) == Some('{') {
        Ok(sp_property_name(s, p + 1, Seq::empty()))
    } else {
        match peek_at(s, p) {
            Some(c) => Ok((seq![c], p + 1)),
            None => Err(ErrorKind::IncompleteUnicodeProperty),
        }
    };
    match named {
        Err(e) => Err(e),
        Ok((name, q)) => Ok(
            (SNode::Class { ranges: ranges_to_items(property_ranges(name)), negated }, q),
        ),
    }
}

/// An escape at `p` (which holds the backslash) outside a class.
#[verifier::opaque]
pub open spec fn sp_escape(s: Seq<char>, p: int) -> Result<(SNode, int), ErrorKind> {
    match peek_at(s, p + 1) {
        None => Err(ErrorKind::TrailingBackslash),
        Some(c) => {
            let q = p + 2;
            if c == 'd' {
                Ok((SNode::Builtin(BuiltinClass::Digit), q))
            } else if c == 'D' {
                Ok((SNode::Builtin(BuiltinClass::NotDigit), q))
            } else if c == 'w' {
                Ok((SNode::Builtin(BuiltinClass::Word), q))
            } else if c == 'W' {
                Ok((SNode::Builtin(BuiltinClass::NotWord), q))
            } else if c == 's' {
                Ok((SNode::Builtin(BuiltinClass::Space), q))
            } else if c == 'S' {
                Ok((SNode::Builtin(BuiltinClass::NotSpace), q))
            } else if c == 'b' {
                Ok((SNode::WordBoundary { negated: false }, q))
            } else if c == 'B' {
                Ok((SNode::WordBoundary { negated: true }, q))
            } else if c == 'n' {
                Ok((SNode::Literal('\n'), q))
            } else if c == 'r' {
                Ok((SNode::Literal('\r'), q))
            } else if c == 't' {
                Ok((SNode::Literal('\t'), q))
            } else if c == 'v' {
                Ok((SNode::Literal('\x0B'), q))
            } else if c == 'f' {
                Ok((SNode::Literal('\x0C'), q))
            } else if c == '0' && !(match peek_at(s, q) {
                Some(n) => dec_val(n) is Some,
                None => false,
            }) {
                Ok((SNode::Literal('\0'), q))
            } else if '1' <= c && c <= '9' {
                let (n, q2) = sp_backref_digits(s, q, (c as u32 - 48) as u32);
                Ok((SNode::BackRef(n), q2))
            } else if c == 'x' {
                match sp_hex2(s, q) {
                    Some((code, q2)) => Ok((SNode::Literal(code as char), q2)),
                    None => Err(ErrorKind::InvalidHexEscape),
                }
            } else if c == 'u' {
                match sp_unicode_escape(s, q) {
                    Ok((ch, q2)) => Ok((SNode::Literal(ch), q2)),
                    Err(e) => Err(e),
                }
            } else if c == 'p' || c == 'P' {
                sp_property(s, q, c == 'P')
            } else {
                Ok((SNode::Literal(c), q))
            }
        },
    }
}

/// One item of a character class at `p`.
#[verifier::opaque]
pub open spec fn sp_class_atom(s: Seq<char>, p: int) -> Result<(ClassRange, int), ErrorKind> {
    match peek_at(s, p) {
        None => Err(ErrorKind::UnterminatedClass),
        Some(c0) => if c0 != '\\' {
            Ok((ClassRange::Single(c0), p + 1))
        } else {
            match peek_at(s, p + 1) {
                None => Err(ErrorKind::TrailingBackslashInClass),
                Some(c) => {
                    let q = p + 2;
                    if c == 'd' {
                        Ok((ClassRange::Builtin(BuiltinClass::Digit), q))
                    } else if c == 'D' {
                        Ok((ClassRange::Builtin(BuiltinClass::NotDigit), q))
                    } else if c == 'w' {
                        Ok((ClassRange::Builtin(BuiltinClass::Word), q))
                    } else if c == 'W' {
                        Ok((ClassRange::Builtin(BuiltinClass::NotWord), q))
                    } else if c == 's' {
                        Ok((ClassRange::Builtin(BuiltinClass::Space), q))
                    } else if c == 'S' {
                        Ok((ClassRange::Builtin(BuiltinClass::NotSpace), q))
                    } else if c == 'n' {
                        Ok((ClassRange::Single('\n'), q))
                    } else if c == 'r' {
                        Ok((ClassRange::Single('\r'), q))
                    } else if c == 't' {
                        Ok((ClassRange::Single('\t'), q))
                    } else if c == 'v' {
                        Ok((ClassRange::Single('\x0B'), q))
                    } else if c == 'f' {
                        Ok((ClassRange::Single('\x0C'), q))
                    } else if c == '0' {
                        Ok((ClassRange::Single('\0'), q))
                    } else if c == 'x' {
                        match sp_hex2(s, q) {
                            Some((code, q2)) => Ok((ClassRange::Single(code as char), q2)),
                            None => Err(ErrorKind::InvalidHexEscapeInClass),
                        }
                    } else if c == 'u' {
                        match sp_unicode_escape(s, q) {
                            Ok((ch, q2)) => Ok((ClassRange::Single(ch), q2)),
                            Err(e) => Err(e),
                        }
                    } else if c == 'b' {
                        Ok((ClassRange::Single('\x08'), q))
                    } else {
                        Ok((ClassRange::Single(c), q))
                    }
                },
            }
        },
    }
}

/// The items of a class from `p` on, after those already in `acc`, up to and
/// including the closing `]`.
#[verifier::opaque]
pub open spec fn sp_class_items(s: Seq<char>, p: int, acc: Seq<ClassRange>, negated: bool) -> Result<(SNode, int), ErrorKind>
    decreases s.len() - p,
{
    match peek_at(s, p) {
        None => Err(ErrorKind::UnterminatedClass),
        Some(c) => if c == ']' {
            Ok((SNode::Class { ranges: acc, negated }, p + 1))
        } else {
            match sp_class_atom(s, p) {
                Err(e) => Err(e),
                Ok((item, q)) => if !advanced(s, p, q) {
                    Err(ErrorKind::Other)
                } else if peek_at(s, q) == Some('-') {
                    if peek_at(s, q + 1) == Some(']') {
                        sp_class_items(
                            s,
                            q + 1,
                            acc.push(item).push(ClassRange::Single('-')),
                            negated,
                        )
                    } else {
                        match sp_class_atom(s, q + 1) {
                            Err(e) => Err(e),
                            Ok((end_item, q2)) => match (item, end_item) {
                                (ClassRange::Single(lo), ClassRange::Single(hi)) => if (lo as u32)
                                    > (hi as u32) {
                                    Err(ErrorKind::InvalidClassRange)
                                } else if advanced(
                                    s,
                                    p,
                                    q2,
                                ) {
                                    sp_class_items(
                                        s,
                                        q2,
                                        acc.push(ClassRange::Range(lo, hi)),
                                        negated,
                                    )
                                } else {
                                    Err(ErrorKind::Other)
                                },
                                _ => sp_class_items(
                                    s,
                                    q,
                                    acc.push(item).push(ClassRange::Single('-')),
                                    negated,
                                ),
                            },
                        }
                    }
                } else {
                    sp_class_items(s, q, acc.push(item), negated)
                },
            }
        },
    }
}

/// A character class at `p` (which holds `[`).
pub open spec fn sp_class(s: Seq<char>, p: int) -> Result<(SNode, int), ErrorKind> {
    let negated = peek_at(s, p + 1) == Some('^');
    let p2 = if negated {
        p + 2
    } else {
        p + 1
    };
    if peek_at(s, p2) == Some(']') {
        sp_class_items(s, p2 + 1, seq![ClassRange::Single(']')], negated)
    } else {
        sp_class_items(s, p2, Seq::empty(), negated)
    }
}

/// Whether a char may appear in a group name: an ASCII letter or digit,
/// `_` or `$`, or a non-ASCII alphanumeric char.
pub open spec fn is_name_char(c: char) -> bool {
    if (c as u32) < 128 {
        ('a' <= c <= 'z') || ('A' <= c <= 'Z') || ('0' <= c <= '9') || c == '_' || c == '$'
    } else {
        std_is_alphanumeric(c)
    }
}

/// A group name from `p` on, after the chars in `acc`, up to and including `>`.
pub open spec fn sp_group_name(s: Seq<char>, p: int, acc: Seq<char>) -> Result<(Seq<char>, int), ErrorKind>
    decreases s.len() - p,
{
    match peek_at(s, p) {
        None => Err(ErrorKind::UnterminatedGroupName),
        Some(c) => if c == '>' {
            if acc.len() == 0 {
                Err(ErrorKind::EmptyGroupName)
            } else {
                Ok((acc, p + 1))
            }
        } else if is_name_char(c) {
            sp_group_name(s, p + 1, acc.push(c))
        } else {
            Err(ErrorKind::InvalidGroupNameChar { c })
        },
    }
}

/// Whether a char may appear in an inline flag group.
pub open spec fn is_flag_char(c: char) -> bool {
    c == 'i' || c == 'm' || c == 's' || c == 'u' || c == 'x' || c == '-'
}

/// The position after the flag chars from `p` on.
pub open spec fn sp_flag_chars(s: Seq<char>, p: int) -> int
    decreases s.len() - p,
{
    match peek_at(s, p) {
        Some(c) => if is_flag_char(c) {
            sp_flag_chars(s, p + 1)
        } else {
            p
        },
        None => p,
    }
}

/// alternation = concat ('|' concat)*
pub open spec fn sp_alternation(s: Seq<char>, p: int, cc: nat) -> SpecRes
    decreases s.len() - p, 7int,
{
    match sp_concat(s, p, cc) {
        Err(e) => Err(e),
        Ok((first, p1, c1)) => if peek_at(s, p1) != Some('|') {
            Ok((first, p1, c1))
        } else if p <= p1 <= s.len() {
            sp_alternation_rest(s, p1, c1, seq![first])
        } else {
            Err(ErrorKind::Other)
        },
    }
}

/// The remaining `'|' concat` parts of an alternation after those in `acc`.
pub open spec fn sp_alternation_rest(s: Seq<char>, p: int, cc: nat, acc: Seq<SNode>) -> SpecRes
    decreases s.len() - p, 6int,
{
    if peek_at(s, p) == Some('|') {
        match sp_concat(s, p + 1, cc) {
            Err(e) => Err(e),
            Ok((n, p2, c2)) => if advanced(s, p, p2) {
                sp_alternation_rest(s, p2, c2, acc.push(n))
            } else {
                Err(ErrorKind::Other)
            },
        }
    } else {
        Ok((SNode::Alternation(acc), p, cc))
    }
}

/// concat = quantifier*
pub open spec fn sp_concat(s: Seq<char>, p: int, cc: nat) -> SpecRes
    decreases s.len() - p, 5int,
{
    sp_concat_rest(s, p, cc, Seq::empty())
}

/// The remaining quantified atoms of a concatenation after those in `acc`.
pub open spec fn sp_concat_rest(s: Seq<char>, p: int, cc: nat, acc: Seq<SNode>) -> SpecRes
    decreases s.len() - p, 4int,
{
    match peek_at(s, p) {
        Some(c) => if c == '|' || c == ')' {
            Ok((concat_of(acc), p, cc))
        } else {
            match sp_quantifier(s, p, cc) {
                Err(e) => Err(e),
                Ok((n, p2, c2)) => if advanced(s, p, p2) {
                    sp_concat_rest(s, p2, c2, acc.push(n))
                } else {
                    Err(ErrorKind::Other)
                },
            }
        },
        None => Ok((concat_of(acc), p, cc)),
    }
}

/// quantifier = atom ('*' | '+' | '?' | '{n,m}') '?'?
#[verifier::opaque]
pub open spec fn sp_quantifier(s: Seq<char>, p: int, cc: nat) -> SpecRes
    decreases s.len() - p, 3int,
{
    match sp_atom(s, p, cc) {
        Err(e) => Err(e),
        Ok((atom, p1, c1)) => {
            let bounds: Option<Result<(u32, Option<u32>, int), ErrorKind>> = match peek_at(s, p1) {
                Some(c) => if c == '*' {
                    Some(Ok((0u32, None, p1 + 1)))
                } else if c == '+' {
                    Some(Ok((1u32, None, p1 + 1)))
                } else if c == '?' {
                    Some(Ok((0u32, Some(1u32), p1 + 1)))
                } else if c == '{' {
                    match sp_braces(s, p1) {
                        Ok(((min, max), q)) => Some(Ok((min, max, q))),
                        Err((e, _)) => if e is LiteralBrace {
                            None
                        } else {
                            Some(Err(e))
                        },
                    }
                } else {
                    None
                },
                None => None,
            };
            match bounds {
                None => Ok((atom, p1, c1)),
                Some(Err(e)) => Err(e),
                Some(Ok((min, max, q))) => if peek_at(s, q) == Some('?') {
                    Ok((SNode::Repeat { sub: Box::new(atom), min, max, greedy: false }, q + 1, c1))
                } else {
                    Ok((SNode::Repeat { sub: Box::new(atom), min, max, greedy: true }, q, c1))
                },
            }
        },
    }
}

/// atom = literal | '.' | escape | class | group
#[verifier::opaque]
pub open spec fn sp_atom(s: Seq<char>, p: int, cc: nat) -> SpecRes
    decreases s.len() - p, 2int,
{
    match peek_at(s, p) {
        None => Err(ErrorKind::UnexpectedEnd),
        Some(c) => if c == '.' {
            Ok((SNode::Dot, p + 1, cc))
        } else if c == '^' {
            Ok((SNode::Anchor(AnchorKind::Start), p + 1, cc))
        } else if c == '$' {
            Ok((SNode::Anchor(AnchorKind::End), p + 1, cc))
        } else if c == '\\' {
            match sp_escape(s, p) {
                Ok((n, q)) => Ok((n, q, cc)),
                Err(e) => Err(e),
            }
        } else if c == '[' {
            match sp_class(s, p) {
                Ok((n, q)) => Ok((n, q, cc)),
                Err(e) => Err(e),
            }
        } else if c == '(' {
            sp_group(s, p, cc)
        } else if c == '*' || c == '+' || c == '?' {
            Err(ErrorKind::NothingToRepeatAt { pos: p as usize })
        } else if c == '{' {
            match sp_braces(s, p) {
                Err((_, q)) => Ok(
                    (SNode::Literal('{'), if q < s.len() {
                        q + 1
                    } else {
                        q
                    }, cc),
                ),
                Ok(_) => Err(ErrorKind::NothingToRepeat),
            }
        } else {
            Ok((SNode::Literal(c), p + 1, cc))
        },
    }
}

/// A sub-pattern at `p` (inside a group) followed by `)`.
pub open spec fn sp_group_body(s: Seq<char>, p: int, cc: nat) -> SpecRes
    decreases s.len() - p, 8int,
{
    match sp_alternation(s, p, cc) {
        Err(e) => Err(e),
        Ok((sub, q, c2)) => match sp_expect(s, q, ')') {
            Err((e, _)) => Err(e),
            Ok(q2) => Ok((sub, q2, c2)),
        },
    }
}

/// groups: (...), (?:...), (?=...), (?!...), (?<=...), (?<!...), (?<name>...)
/// at `p` (which holds `(`).
#[verifier::opaque]
pub open spec fn sp_group(s: Seq<char>, p: int, cc: nat) -> SpecRes
    decreases s.len() - p, 1int,
{
    if !(0 <= p < s.len()) {
        Err(ErrorKind::Other)
    } else if peek_at(s, p + 1) == Some('?') {
        let p2 = p + 2;
        match peek_at(s, p2) {
            Some(c) => if c == ':' {
                match sp_group_body(s, p2 + 1, cc) {
                    Err(e) => Err(e),
                    Ok((sub, q, c2)) => Ok((SNode::Group(Box::new(sub)), q, c2)),
                }
            } else if c == '=' || c == '!' {
                match sp_group_body(s, p2 + 1, cc) {
                    Err(e) => Err(e),
                    Ok((sub, q, c2)) => Ok(
                        (SNode::Lookahead { sub: Box::new(sub), negative: c == '!' }, q, c2),
                    ),
                }
            } else if c == '<' {
                let p3 = p2 + 1;
                if peek_at(s, p3) == Some('=') || peek_at(s, p3) == Some('!') {
                    match sp_group_body(s, p3 + 1, cc) {
                        Err(e) => Err(e),
                        Ok((sub, q, c2)) => Ok(
                            (
                                SNode::Lookbehind {
                                    sub: Box::new(sub),
                                    negative: peek_at(s, p3) == Some('!'),
                                },
                                q,
                                c2,
                            ),
                        ),
                    }
                } else {
                    match sp_group_name(s, p3, Seq::empty()) {
                        Err(e) => Err(e),
                        Ok((name, q)) => if advanced(s, p, q) {
                            match sp_group_body(s, q, cc + 1) {
                                Err(e) => Err(e),
                                Ok((sub, q2, c2)) => Ok(
                                    (
                                        SNode::Capture {
                                            index: (cc + 1) as u32,
                                            name: Some(name),
                                            sub: Box::new(sub),
                                        },
                                        q2,
                                        c2,
                                    ),
                                ),
                            }
                        } else {
                            Err(ErrorKind::Other)
                        },
                    }
                }
            } else if c == 'i' || c == 'm' || c == 's' || c == 'u' || c == '-' {
                let pf = sp_flag_chars(s, p2);
                if peek_at(s, pf) == Some(':') {
                    if advanced(s, p, pf + 1) {
                        match sp_group_body(s, pf + 1, cc) {
                            Err(e) => Err(e),
                            Ok((sub, q, c2)) => Ok((SNode::Group(Box::new(sub)), q, c2)),
                        }
                    } else {
                        Err(ErrorKind::Other)
                    }
                } else if peek_at(s, pf) == Some(')') {
                    Ok((SNode::Empty, pf + 1, cc))
                } else {
                    Err(ErrorKind::InvalidGroupSyntax { pos: pf as usize })
                }
            } else {
                Err(ErrorKind::InvalidGroupSyntax { pos: p2 as usize })
            },
            None => Err(ErrorKind::InvalidGroupSyntax { pos: p2 as usize }),
        }
    } else {
        match sp_group_body(s, p + 1, cc + 1) {
            Err(e) => Err(e),
            Ok((sub, q, c2)) => Ok(
                (SNode::Capture { index: (cc + 1) as u32, name: None, sub: Box::new(sub) }, q, c2),
            ),
        }
    }
}

/// The whole pattern: an alternation that uses up every char.
pub open spec fn spec_parse(s: Seq<char>) -> Result<SNode, ErrorKind> {
    match sp_alternation(s, 0, 0) {
        Err(e) => Err(e),
        Ok((n, p, _)) => if p < s.len() {
            Err(ErrorKind::UnexpectedChar { c: s[p], pos: p as usize })
        } else {
            Ok(n)
        },
    }
}

/// The number of capture groups of the leading alternation of the pattern.
pub open spec fn spec_count_captures(s: Seq<char>) -> Result<nat, ErrorKind> {
    match sp_alternation(s, 0, 0) {
        Err(e) => Err(e),
        Ok((_, _, cc)) => Ok(cc),
    }
}



/// The capture indices of a node, in the order their groups open.
pub open spec fn caps_of(n: SNode) -> Seq<u32>
    decreases n,
{
    match n {
        SNode::Capture { index, sub, .. } => seq![index] + caps_of(*sub),
        SNode::Group(sub) => caps_of(*sub),
        SNode::Lookahead { sub, .. } => caps_of(*sub),
        SNode::Lookbehind { sub, .. } => caps_of(*sub),
        SNode::Repeat { sub, .. } => caps_of(*sub),
        SNode::Concat(v) => caps_seq(v),
        SNode::Alternation(v) => caps_seq(v),
        _ => Seq::empty(),
    }
}

/// The capture indices of a sequence of nodes, in the order their groups
/// open.
pub open spec fn caps_seq(v: Seq<SNode>) -> Seq<u32>
    decreases v,
{
    if v.len() == 0 {
        Seq::empty()
    } else {
        caps_seq(v.drop_last()) + caps_of(v.last())
    }
}

/// The indices after `from` up to `to`, one by one, as 32-bit numbers.
pub open spec fn numbered(from: nat, to: nat) -> Seq<u32> {
    Seq::new((to - from) as nat, |i: int| (from + 1 + i) as u32)
}

/// What a parse from capture count `cc` holds: the groups it opens are
/// numbered on from `cc`, and the count after it is the last of them.
pub open spec fn caps_follow(r: SpecRes, cc: nat, before: Seq<u32>) -> bool {
    match r {
        Ok((n, _, c2)) => cc <= c2 && caps_of(n) == before + numbered(cc, c2),
        Err(_) => true,
    }
}

proof fn lemma_numbered_join(a: nat, b: nat, c: nat)
    requires
        a <= b <= c,
    ensures
        numbered(a, b) + numbered(b, c) =~= numbered(a, c),
{
}

proof fn lemma_caps_push(v: Seq<SNode>, n: SNode)
    ensures
        caps_seq(v.push(n)) == caps_seq(v) + caps_of(n),
{
    assert(v.push(n).drop_last() =~= v);
}

proof fn lemma_caps_concat_of(v: Seq<SNode>)
    ensures
        caps_of(concat_of(v)) == caps_seq(v),
{
    if v.len() == 1 {
        assert(v.drop_last() =~= Seq::<SNode>::empty());
        assert(caps_seq(v.drop_last()) =~= Seq::<u32>::empty());
        assert(caps_seq(v) =~= caps_of(v[0]));
    }
}

/// A class holds no group.
proof fn lemma_class_items_node(s: Seq<char>, p: int, acc: Seq<ClassRange>, negated: bool)
    ensures
        match sp_class_items(s, p, acc, negated) {
            Ok((n, _)) => n is Class,
            Err(_) => true,
        },
    decreases s.len() - p,
{
    reveal_with_fuel(sp_class_items, 1);
    match peek_at(s, p) {
        None => {},
        Some(c) => if c != ']' {
            match sp_class_atom(s, p) {
                Err(_) => {},
                Ok((item, q)) => if advanced(s, p, q) {
                    if peek_at(s, q) == Some('-') {
                        if peek_at(s, q + 1) == Some(']') {
                            lemma_class_items_node(s, q + 1, acc.push(item).push(ClassRange::Single('-')), negated);
                        } else {
                            match sp_class_atom(s, q + 1) {
                                Err(_) => {},
                                Ok((end_item, q2)) => match (item, end_item) {
                                    (ClassRange::Single(lo), ClassRange::Single(hi)) => if !((lo as u32) > (hi as u32))
                                        && advanced(s, p, q2) {
                                        lemma_class_items_node(s, q2, acc.push(ClassRange::Range(lo, hi)), negated);
                                    },
                                    _ => {
                                        lemma_class_items_node(s, q, acc.push(item).push(ClassRange::Single('-')), negated);
                                    },
                                },
                            }
                        }
                    } else {
                        lemma_class_items_node(s, q, acc.push(item), negated);
                    }
                },
            }
        },
    }
}

/// An escape holds no group.
proof fn lemma_escape_node(s: Seq<char>, p: int)
    ensures
        match sp_escape(s, p) {
            Ok((n, _)) => caps_of(n) == Seq::<u32>::empty(),
            Err(_) => true,
        },
{
    reveal(sp_escape);
    reveal(sp_property);
}

proof fn lemma_caps_alternation(s: Seq<char>, p: int, cc: nat)
    ensures
        caps_follow(sp_alternation(s, p, cc), cc, Seq::empty()),
    decreases s.len() - p, 7int,
{
    lemma_caps_concat(s, p, cc);
    match sp_concat(s, p, cc) {
        Err(_) => {},
        Ok((first, p1, c1)) => if peek_at(s, p1) == Some('|') && p <= p1 <= s.len() {
            lemma_caps_alternation_rest(s, p1, c1, seq![first]);
            lemma_caps_push(Seq::empty(), first);
            assert(Seq::<SNode>::empty().push(first) =~= seq![first]);
            match sp_alternation_rest(s, p1, c1, seq![first]) {
                Err(_) => {},
                Ok((_, _, c2)) => {
                    lemma_numbered_join(cc, c1, c2);
                    assert(Seq::<u32>::empty() + numbered(cc, c1) =~= numbered(cc, c1));
                },
            }
        } else {
            assert(Seq::<u32>::empty() + numbered(cc, c1) =~= numbered(cc, c1));
        },
    }
}

proof fn lemma_caps_alternation_rest(s: Seq<char>, p: int, cc: nat, acc: Seq<SNode>)
    ensures
        caps_follow(sp_alternation_rest(s, p, cc, acc), cc, caps_seq(acc)),
    decreases s.len() - p, 6int,
{
    if peek_at(s, p) == Some('|') {
        lemma_caps_concat(s, p + 1, cc);
        match sp_concat(s, p + 1, cc) {
            Err(_) => {},
            Ok((n, p2, c2)) => if advanced(s, p, p2) {
                lemma_caps_alternation_rest(s, p2, c2, acc.push(n));
                lemma_caps_push(acc, n);
                match sp_alternation_rest(s, p2, c2, acc.push(n)) {
                    Err(_) => {},
                    Ok((_, _, c3)) => {
                        lemma_numbered_join(cc, c2, c3);
                        assert(caps_seq(acc) + caps_of(n) + numbered(c2, c3) =~= caps_seq(acc) + numbered(cc, c3));
                    },
                }
            },
        }
    } else {
        assert(caps_seq(acc) + numbered(cc, cc) =~= caps_seq(acc));
    }
}

proof fn lemma_caps_concat(s: Seq<char>, p: int, cc: nat)
    ensures
        caps_follow(sp_concat(s, p, cc), cc, Seq::empty()),
    decreases s.len() - p, 5int,
{
    lemma_caps_concat_rest(s, p, cc, Seq::empty());
}

proof fn lemma_caps_concat_rest(s: Seq<char>, p: int, cc: nat, acc: Seq<SNode>)
    ensures
        caps_follow(sp_concat_rest(s, p, cc, acc), cc, caps_seq(acc)),
    decreases s.len() - p, 4int,
{
    match peek_at(s, p) {
        Some(c) => if c == '|' || c == ')' {
            lemma_caps_concat_of(acc);
            assert(caps_seq(acc) + numbered(cc, cc) =~= caps_seq(acc));
        } else {
            lemma_caps_quantifier(s, p, cc);
            reveal_with_fuel(sp_quantifier, 1);
            match sp_quantifier(s, p, cc) {
                Err(_) => {},
                Ok((n, p2, c2)) => if advanced(s, p, p2) {
                    lemma_caps_concat_rest(s, p2, c2, acc.push(n));
                    lemma_caps_push(acc, n);
                    match sp_concat_rest(s, p2, c2, acc.push(n)) {
                        Err(_) => {},
                        Ok((_, _, c3)) => {
                            lemma_numbered_join(cc, c2, c3);
                            assert(caps_seq(acc) + caps_of(n) + numbered(c2, c3) =~= caps_seq(acc) + numbered(cc, c3));
                        },
                    }
                },
            }
        },
        None => {
            lemma_caps_concat_of(acc);
            assert(caps_seq(acc) + numbered(cc, cc) =~= caps_seq(acc));
        },
    }
}

proof fn lemma_caps_quantifier(s: Seq<char>, p: int, cc: nat)
    ensures
        caps_follow(sp_quantifier(s, p, cc), cc, Seq::empty()),
    decreases s.len() - p, 3int,
{
    reveal_with_fuel(sp_quantifier, 1);
    reveal_with_fuel(sp_atom, 1);
    lemma_caps_atom(s, p, cc);
    match sp_atom(s, p, cc) {
        Err(_) => {},
        Ok((atom, p1, c1)) => {
            assert(caps_of(atom) == Seq::<u32>::empty() + numbered(cc, c1));
            assert forall|min: u32, max: Option<u32>, greedy: bool| #[trigger] caps_of(
                SNode::Repeat { sub: Box::new(atom), min, max, greedy },
            ) == caps_of(atom) by {}
        },
    }
}

proof fn lemma_caps_atom(s: Seq<char>, p: int, cc: nat)
    ensures
        caps_follow(sp_atom(s, p, cc), cc, Seq::empty()),
    decreases s.len() - p, 2int,
{
    reveal_with_fuel(sp_atom, 1);
    assert(Seq::<u32>::empty() + numbered(cc, cc) =~= Seq::<u32>::empty());
    match peek_at(s, p) {
        None => {},
        Some(c) => if c == '\\' {
            lemma_escape_node(s, p);
        } else if c == '[' {
            let negated = peek_at(s, p + 1) == Some('^');
            let p2 = if negated { p + 2 } else { p + 1 };
            lemma_class_items_node(s, p2 + 1, seq![ClassRange::Single(']')], negated);
            lemma_class_items_node(s, p2, Seq::empty(), negated);
        } else if c == '(' {
            lemma_caps_group(s, p, cc);
            reveal_with_fuel(sp_group, 1);
        },
    }
}

proof fn lemma_caps_group_body(s: Seq<char>, p: int, cc: nat)
    ensures
        caps_follow(sp_group_body(s, p, cc), cc, Seq::empty()),
    decreases s.len() - p, 8int,
{
    lemma_caps_alternation(s, p, cc);
}

#[verifier::rlimit(50)]
proof fn lemma_caps_group(s: Seq<char>, p: int, cc: nat)
    ensures
        caps_follow(sp_group(s, p, cc), cc, Seq::empty()),
    decreases s.len() - p, 1int,
{
    reveal_with_fuel(sp_group, 1);
    if 0 <= p < s.len() {
        if peek_at(s, p + 1) == Some('?') {
            let p2 = p + 2;
            match peek_at(s, p2) {
                Some(c) => if c == ':' || c == '=' || c == '!' {
                    lemma_caps_group_body(s, p2 + 1, cc);
                } else if c == '<' {
                    let p3 = p2 + 1;
                    if peek_at(s, p3) == Some('=') || peek_at(s, p3) == Some('!') {
                        lemma_caps_group_body(s, p3 + 1, cc);
                    } else {
                        match sp_group_name(s, p3, Seq::empty()) {
                            Err(_) => {},
                            Ok((name, q)) => if advanced(s, p, q) {
                                lemma_caps_group_body(s, q, cc + 1);
                                match sp_group_body(s, q, cc + 1) {
                                    Err(_) => {},
                                    Ok((_, _, c2)) => {
                                        assert(seq![(cc + 1) as u32] + numbered(cc + 1, c2) =~= numbered(cc, c2));
                                    },
                                }
                            },
                        }
                    }
                } else if c == 'i' || c == 'm' || c == 's' || c == 'u' || c == '-' {
                    let pf = sp_flag_chars(s, p2);
                    if peek_at(s, pf) == Some(':') && advanced(s, p, pf + 1) {
                        lemma_caps_group_body(s, pf + 1, cc);
                    } else {
                        assert(Seq::<u32>::empty() + numbered(cc, cc) =~= Seq::<u32>::empty());
                    }
                },
                None => {},
            }
        } else {
            lemma_caps_group_body(s, p + 1, cc + 1);
            match sp_group_body(s, p + 1, cc + 1) {
                Err(_) => {},
                Ok((_, _, c2)) => {
                    assert(seq![(cc + 1) as u32] + numbered(cc + 1, c2) =~= numbered(cc, c2));
                },
            }
        }
    }
}

/// The groups of a pattern are numbered 1, 2, ... in the order they open,
/// and `count_captures` counts them: when the pattern parses, the capture
/// indices of its tree, in the order their groups open, are 1 up to the
/// count (as 32-bit numbers).
pub proof fn lemma_captures_numbered_in_order(s: Seq<char>)
    ensures
        match (spec_parse(s), spec_count_captures(s)) {
            (Ok(n), Ok(k)) => caps_of(n) == numbered(0, k),
            _ => true,
        },
        spec_parse(s) is Ok ==> spec_count_captures(s) is Ok,
{
    lemma_caps_alternation(s, 0, 0);
    assert(Seq::<u32>::empty() + numbered(0, 0) =~= numbered(0, 0));
    match sp_alternation(s, 0, 0) {
        Ok((n, _, k)) => {
            assert(Seq::<u32>::empty() + numbered(0, k) =~= numbered(0, k));
        },
        Err(_) => {},
    }
}

/// Whether the first `n` chars from `p` on are hex digits.
pub open spec fn hex_prefix_ok(s: Seq<char>, p: int, n: nat) -> bool
    decreases n,
{
    if n == 0 {
        true
    } else {
        hex_prefix_ok(s, p, (n - 1) as nat) && hex_at(s, p + n - 1) is Some
    }
}

/// The value of the first `n` hex digits from `p` on.
pub open spec fn hex_prefix(s: Seq<char>, p: int, n: nat) -> u32
    decreases n,
{
    if n == 0 {
        0
    } else {
        (hex_prefix(s, p, (n - 1) as nat) * 16 + match hex_at(s, p + n - 1) {
            Some(d) => d,
            None => 0,
        }) as u32
    }
}

/// Whether an executable parsing result is the spec result `sr`, with the
/// parser `fin` left where the spec says.
pub open spec fn agrees(r: Result<Node, CompilerError>, sr: SpecRes, fin_pos: usize, fin_cc: u32) -> bool {
    match sr {
        Ok((n, p, c)) => match r {
            Ok(node) => node_view(node) == n && fin_pos == p && fin_cc == c,
            Err(_) => false,
        },
        Err(e) => match r {
            Ok(_) => false,
            Err(err) => err@.0 == e,
        },
    }
}

/// Whether an executable result matches a spec result that carries the
/// node and the position after it.
pub open spec fn agrees_at(r: Result<Node, CompilerError>, sr: Result<(SNode, int), ErrorKind>, fin_pos: usize) -> bool {
    match sr {
        Ok((n, p)) => match r {
            Ok(node) => node_view(node) == n && fin_pos == p,
            Err(_) => false,
        },
        Err(e) => match r {
            Ok(_) => false,
            Err(err) => err@.0 == e,
        },
    }
}

struct Parser {
    chars: Vec<char>,
    pos: usize,
    flags: Flags,
    capture_count: u32,
}

/// The error value for a spec error kind.
fn fail<T>(kind: ErrorKind) -> (r: Result<T, CompilerError>)
    ensures
        r matches Err(e) && e@.0 == kind,
{
    Err(CompilerError::from_kind(kind))
}

impl Parser {
    spec fn wf(&self) -> bool {
        &&& self.pos <= self.chars@.len()
        &&& self.capture_count <= self.pos
        &&& self.chars@.len() < u32::MAX
    }

    #[verifier::spinoff_prover]
    fn peek(&self) -> (r: Option<char>)
        ensures
            r == peek_at(self.chars@, self.pos as int),
    {
        if self.pos < self.chars.len() {
            Some(self.chars[self.pos])
        } else {
            None
        }
    }

    #[verifier::spinoff_prover]
    fn advance(&mut self) -> (r: Option<char>)
        requires
            old(self).wf(),
        ensures
            final(self).wf(),
            final(self).chars@ == old(self).chars@,
            final(self).capture_count == old(self).capture_count,
            r == peek_at(old(self).chars@, old(self).pos as int),
            final(self).pos == if r is Some {
                old(self).pos + 1
            } else {
                old(self).pos as int
            },
    {
        let c = self.peek();
        if c.is_some() {
            self.pos = self.pos + 1;
        }
        c
    }

    #[verifier::spinoff_prover]
    fn expect(&mut self, expected: char) -> (r: Result<(), CompilerError>)
        requires
            old(self).wf(),
        ensures
            final(self).wf(),
            final(self).chars@ == old(self).chars@,
            final(self).capture_count == old(self).capture_count,
            final(self).pos >= old(self).pos,
            match sp_expect(old(self).chars@, old(self).pos as int, expected) {
                Ok(q) => r is Ok && final(self).pos == q,
                Err((e, q)) => (r matches Err(err) && err@.0 == e) && final(self).pos == q,
            },
    {
        let p = self.pos;
        match self.advance() {
            Some(c) => if c == expected {
                Ok(())
            } else {
                fail(ErrorKind::ExpectedChar { expected, got: c, pos: p })
            },
            None => fail(ErrorKind::ExpectedCharAtEnd { expected }),
        }
    }

    // ====================================================================
    // alternation = concat ('|' concat)*
    // ====================================================================
    #[verifier::spinoff_prover]
    fn parse_alternation(&mut self) -> (r: Result<Node, CompilerError>)
        requires
            old(self).wf(),
        ensures
            final(self).wf(),
            final(self).chars@ == old(self).chars@,
            r is Ok ==> final(self).pos >= old(self).pos,
            agrees(
                r,
                sp_alternation(old(self).chars@, old(self).pos as int, old(self).capture_count as nat),
                final(self).pos,
                final(self).capture_count,
            ),
        decreases old(self).chars@.len() - old(self).pos, 7int,
    {
        let ghost s = self.chars@;
        let ghost p0 = self.pos as int;
        let ghost c0 = self.capture_count as nat;
        let first = match self.parse_concat() {
            Ok(n) => n,
            Err(e) => return Err(e),
        };
        if self.peek() != Some('|') {
            return Ok(first);
        }
        let mut alts: Vec<Node> = Vec::new();
        alts.push(first);
        proof {
            lemma_nodes_view_push(Seq::<Node>::empty(), alts@[0]);
            assert(Seq::<Node>::empty().push(alts@[0]) =~= alts@);
            assert(nodes_view(alts@) =~= seq![node_view(alts@[0])]);
        }
        loop
            invariant
                self.wf(),
                self.chars@ == s,
                s == old(self).chars@,
                p0 == old(self).pos,
                c0 == old(self).capture_count,
                self.pos >= p0,
                sp_alternation(s, p0, c0) == sp_alternation_rest(
                    s,
                    self.pos as int,
                    self.capture_count as nat,
                    nodes_view(alts@),
                ),
            ensures
                peek_at(s, self.pos as int) != Some('|'),
            decreases s.len() - self.pos,
        {
            if self.peek() != Some('|') {
                break;
            }
            self.advance();
            let n = match self.parse_concat() {
                Ok(n) => n,
                Err(e) => return Err(e),
            };
            proof {
                lemma_nodes_view_push(alts@, n);
            }
            alts.push(n);
        }
        Ok(Node::Alternation(alts))
    }

    // ====================================================================
    // concat = quantifier*
    // ====================================================================
    #[verifier::spinoff_prover]
    fn parse_concat(&mut self) -> (r: Result<Node, CompilerError>)
        requires
            old(self).wf(),
        ensures
            final(self).wf(),
            final(self).chars@ == old(self).chars@,
            r is Ok ==> final(self).pos >= old(self).pos,
            agrees(
                r,
                sp_concat(old(self).chars@, old(self).pos as int, old(self).capture_count as nat),
                final(self).pos,
                final(self).capture_count,
            ),
        decreases old(self).chars@.len() - old(self).pos, 5int,
    {
        let ghost s = self.chars@;
        let ghost p0 = self.pos as int;
        let ghost c0 = self.capture_count as nat;
        let mut nodes: Vec<Node> = Vec::new();
        proof {
            lemma_nodes_view_push(nodes@, Node::Empty);
            assert(nodes@ =~= Seq::<Node>::empty());
        }
        loop
            invariant
                self.wf(),
                self.chars@ == s,
                s == old(self).chars@,
                p0 == old(self).pos,
                c0 == old(self).capture_count,
                self.pos >= p0,
                sp_concat(s, p0, c0) == sp_concat_rest(
                    s,
                    self.pos as int,
                    self.capture_count as nat,
                    nodes_view(nodes@),
                ),
            ensures
                match peek_at(s, self.pos as int) { Some(c) => c == '|' || c == ')', None => true },
            decreases s.len() - self.pos,
        {
            match self.peek() {
                Some(c) => {
                    if c == '|' || c == ')' {
                        break;
                    }
                },
                None => break,
            }
            let n = match self.parse_quantifier() {
                Ok(n) => n,
                Err(e) => return Err(e),
            };
            proof {
                lemma_nodes_view_push(nodes@, n);
            }
            nodes.push(n);
        }
        proof {
            lemma_nodes_view(nodes@);
        }
        if nodes.len() == 0 {
            Ok(Node::Empty)
        } else if nodes.len() == 1 {
            let n = nodes.pop().unwrap();
            Ok(n)
        } else {
            Ok(Node::Concat(nodes))
        }
    }

    // ====================================================================
    // quantifier = atom ('*' | '+' | '?' | '{n,m}') '?'?
    // ====================================================================
    #[verifier::spinoff_prover]
    fn parse_quantifier(&mut self) -> (r: Result<Node, CompilerError>)
        requires
            old(self).wf(),
            old(self).pos < old(self).chars@.len(),
        ensures
            final(self).wf(),
            final(self).chars@ == old(self).chars@,
            r is Ok ==> final(self).pos > old(self).pos,
            agrees(
                r,
                sp_quantifier(old(self).chars@, old(self).pos as int, old(self).capture_count as nat),
                final(self).pos,
                final(self).capture_count,
            ),
        decreases old(self).chars@.len() - old(self).pos, 3int,
    {
        proof {
            reveal_with_fuel(sp_quantifier, 1);
        }
        let atom = match self.parse_atom() {
            Ok(n) => n,
            Err(e) => return Err(e),
        };
        let (min, max): (u32, Option<u32>) = match self.peek() {
            Some(c) => {
                if c == '*' {
                    self.advance();
                    (0, None)
                } else if c == '+' {
                    self.advance();
                    (1, None)
                } else if c == '?' {
                    self.advance();
                    (0, Some(1))
                } else if c == '{' {
                    // a `{` that starts no valid quantifier is a literal
                    // `{`, read as the next atom
                    match self.parse_braces() {
                        Ok(b) => b,
                        Err(e) => match e.kind() {
                            ErrorKind::LiteralBrace => {
                                proof {
                                    reveal(sp_braces);
                                }
                                return Ok(atom);
                            },
                            _ => return Err(e),
                        },
                    }
                } else {
                    return Ok(atom);
                }
            },
            None => return Ok(atom),
        };
        let greedy = if self.peek() == Some('?') {
            self.advance();
            false
        } else {
            true
        };
        Ok(Node::Repeat { sub: Box::new(atom), min, max, greedy })
    }

    /// Parse {n}, {n,}, {n,m}
    #[verifier::spinoff_prover]
    fn parse_braces(&mut self) -> (r: Result<(u32, Option<u32>), CompilerError>)
        requires
            old(self).wf(),
            old(self).pos < old(self).chars@.len(),
        ensures
            final(self).wf(),
            final(self).chars@ == old(self).chars@,
            final(self).capture_count == old(self).capture_count,
            final(self).pos >= old(self).pos,
            match sp_braces(old(self).chars@, old(self).pos as int) {
                Ok((b, q)) => r == Ok::<(u32, Option<u32>), CompilerError>(b) && final(self).pos == q,
                Err((e, q)) => (r matches Err(err) && err@.0 == e) && final(self).pos == q,
            },
    {
        proof {
            reveal(sp_braces);
        }
        let save = self.pos;
        self.advance();
        let min = match self.parse_decimal() {
            Some(n) => n,
            None => {
                self.pos = save;
                return fail(ErrorKind::LiteralBrace);
            },
        };
        match self.peek() {
            Some(c) => {
                if c == '}' {
                    self.advance();
                    Ok((min, Some(min)))
                } else if c == ',' {
                    self.advance();
                    if self.peek() == Some('}') {
                        self.advance();
                        Ok((min, None))
                    } else {
                        match self.parse_decimal() {
                            Some(max) => {
                                match self.expect('}') {
                                    Ok(()) => Ok((min, Some(max))),
                                    Err(e) => Err(e),
                                }
                            },
                            None => {
                                self.pos = save;
                                fail(ErrorKind::LiteralBrace)
                            },
                        }
                    }
                } else {
                    self.pos = save;
                    fail(ErrorKind::LiteralBrace)
                }
            },
            None => {
                self.pos = save;
                fail(ErrorKind::LiteralBrace)
            },
        }
    }

    #[verifier::spinoff_prover]
    fn parse_decimal(&mut self) -> (r: Option<u32>)
        requires
            old(self).wf(),
        ensures
            final(self).wf(),
            final(self).chars@ == old(self).chars@,
            final(self).capture_count == old(self).capture_count,
            final(self).pos >= old(self).pos,
            match sp_decimal(old(self).chars@, old(self).pos as int) {
                Some((n, q)) => r == Some(n) && final(self).pos == q,
                None => r is None,
            },
    {
        let ghost s = self.chars@;
        let start = self.pos;
        let mut n: u32 = 0;
        loop
            invariant
                self.wf(),
                self.chars@ == s,
                s == old(self).chars@,
                self.capture_count == old(self).capture_count,
                self.pos >= start,
                start == old(self).pos,
                sp_decimal(s, start as int) == sp_decimal_from(s, start as int, self.pos as int, n),
            ensures
                match peek_at(s, self.pos as int) { Some(c) => dec_val(c) is None, None => true },
            decreases s.len() - self.pos,
        {
            match self.peek() {
                Some(c) => match dec_digit(c) {
                    Some(d) => {
                        if n > (u32::MAX - d) / 10 {
                            return None;
                        }
                        n = n * 10 + d;
                        self.advance();
                    },
                    None => break,
                },
                None => break,
            }
        }
        if self.pos == start {
            None
        } else {
            Some(n)
        }
    }


    // ====================================================================
    // atom = literal | '.' | escape | class | group
    // ====================================================================
    #[verifier::spinoff_prover]
    fn parse_atom(&mut self) -> (r: Result<Node, CompilerError>)
        requires
            old(self).wf(),
        ensures
            final(self).wf(),
            final(self).chars@ == old(self).chars@,
            r is Ok ==> final(self).pos > old(self).pos,
            agrees(
                r,
                sp_atom(old(self).chars@, old(self).pos as int, old(self).capture_count as nat),
                final(self).pos,
                final(self).capture_count,
            ),
        decreases old(self).chars@.len() - old(self).pos, 2int,
    {
        proof {
            reveal_with_fuel(sp_atom, 1);
        }
        match self.peek() {
            None => fail(ErrorKind::UnexpectedEnd),
            Some(c) => {
                if c == '.' {
                    self.advance();
                    Ok(Node::Dot)
                } else if c == '^' {
                    self.advance();
                    Ok(Node::Anchor(AnchorKind::Start))
                } else if c == '$' {
                    self.advance();
                    Ok(Node::Anchor(AnchorKind::End))
                } else if c == '\\' {
                    self.parse_escape()
                } else if c == '[' {
                    self.parse_class()
                } else if c == '(' {
                    self.parse_group()
                } else if c == '*' || c == '+' || c == '?' {
                    fail(ErrorKind::NothingToRepeatAt { pos: self.pos })
                } else if c == '{' {
                    match self.parse_braces() {
                        Err(_) => {
                            self.advance();
                            proof { lemma_view_literal('{'); }
                            Ok(Node::Literal('{'))
                        },
                        Ok(_) => fail(ErrorKind::NothingToRepeat),
                    }
                } else {
                    self.advance();
                    proof { lemma_view_literal(c); }
                    Ok(Node::Literal(c))
                }
            },
        }
    }

    // ====================================================================
    // escape sequences
    // ====================================================================
    #[verifier::spinoff_prover]
    fn parse_escape(&mut self) -> (r: Result<Node, CompilerError>)
        requires
            old(self).wf(),
            old(self).pos < old(self).chars@.len(),
        ensures
            final(self).wf(),
            final(self).chars@ == old(self).chars@,
            final(self).capture_count == old(self).capture_count,
            r is Ok ==> final(self).pos > old(self).pos,
            agrees_at(r, sp_escape(old(self).chars@, old(self).pos as int), final(self).pos),
    {
        proof {
            reveal(sp_escape);
        }
        let ghost s = self.chars@;
        let ghost p = self.pos as int;
        self.advance();
        match self.advance() {
            None => {
                let res = fail(ErrorKind::TrailingBackslash);
                assert(agrees_at(res, sp_escape(s, p), self.pos));
                res
            },
            Some(c) => {
                if c == 'd' {
                    Ok(Node::Builtin(BuiltinClass::Digit))
                } else if c == 'D' {
                    Ok(Node::Builtin(BuiltinClass::NotDigit))
                } else if c == 'w' {
                    Ok(Node::Builtin(BuiltinClass::Word))
                } else if c == 'W' {
                    Ok(Node::Builtin(BuiltinClass::NotWord))
                } else if c == 's' {
                    Ok(Node::Builtin(BuiltinClass::Space))
                } else if c == 'S' {
                    Ok(Node::Builtin(BuiltinClass::NotSpace))
                } else if c == 'b' {
                    Ok(Node::WordBoundary { negated: false })
                } else if c == 'B' {
                    Ok(Node::WordBoundary { negated: true })
                } else if c == 'n' {
                    Ok(Node::Literal('\n'))
                } else if c == 'r' {
                    Ok(Node::Literal('\r'))
                } else if c == 't' {
                    Ok(Node::Literal('\t'))
                } else if c == 'v' {
                    Ok(Node::Literal('\x0B'))
                } else if c == 'f' {
                    Ok(Node::Literal('\x0C'))
                } else if c == '0' && !(match self.peek() {
                    Some(n) => dec_digit(n).is_some(),
                    None => false,
                }) {
                    Ok(Node::Literal('\0'))
                } else if '1' <= c && c <= '9' {
                    // Backreference \1 - \9 (or multi-digit), saturating at u32::MAX
                    let mut n: u32 = c as u32 - 48;
                    loop
                        invariant
                            self.wf(),
                            self.chars@ == s,
                        s == old(self).chars@,
                        p == old(self).pos,
                            self.capture_count == old(self).capture_count,
                            self.pos >= p + 2,
                            sp_backref_digits(s, p + 2, (c as u32 - 48) as u32)
                                == sp_backref_digits(s, self.pos as int, n),
                        ensures
                            match peek_at(s, self.pos as int) { Some(c) => dec_val(c) is None, None => true },
                        decreases s.len() - self.pos,
                    {
                        proof {
                            reveal(sp_escape);
                        }
                        let d = match self.peek() {
                            Some(ch) => match dec_digit(ch) {
                                Some(d) => d,
                                None => break,
                            },
                            None => break,
                        };
                        if n > (u32::MAX - d) / 10 {
                            n = u32::MAX;
                        } else {
                            n = n * 10 + d;
                        }
                        self.advance();
                    }
                    Ok(Node::BackRef(n))
                } else if c == 'x' {
                    let h1 = match self.advance() {
                        Some(ch) => hex_digit(ch),
                        None => None,
                    };
                    let h2 = match self.advance() {
                        Some(ch) => hex_digit(ch),
                        None => None,
                    };
                    match (h1, h2) {
                        (Some(a), Some(b)) => {
                            let code = a * 16 + b;
                            match char_from_u32(code) {
                                Some(ch) => {
                                    proof {
                                        lemma_char_of_code(ch, code);
                                    }
                                    Ok(Node::Literal(ch))
                                },
                                None => { assert(false); fail(ErrorKind::InvalidHexEscape) },
                            }
                        },
                        _ => { assert(sp_escape(s, p) == Err::<(SNode, int), ErrorKind>(ErrorKind::InvalidHexEscape)); fail(ErrorKind::InvalidHexEscape) },
                    }
                } else if c == 'u' {
                    match self.parse_unicode_escape() {
                        Ok(ch) => {
                            proof { lemma_view_literal(ch); }
                            Ok(Node::Literal(ch))
                        },
                        Err(e) => {
                            let res: Result<Node, CompilerError> = Err(e);
                            assert(agrees_at(res, sp_escape(s, p), self.pos));
                            res
                        },
                    }
                } else if c == 'p' || c == 'P' {
                    assert(sp_escape(s, p) == sp_property(s, p + 2, c == 'P'));
                    let res = self.parse_unicode_property(c == 'P');
                    assert(agrees_at(res, sp_escape(s, p), self.pos));
                    res
                } else {
                    proof { lemma_view_literal(c); }
                    Ok(Node::Literal(c))
                }
            },
        }
    }

    #[verifier::spinoff_prover]
    fn parse_unicode_escape(&mut self) -> (r: Result<char, CompilerError>)
        requires
            old(self).wf(),
        ensures
            final(self).wf(),
            final(self).chars@ == old(self).chars@,
            final(self).capture_count == old(self).capture_count,
            r is Ok ==> final(self).pos >= old(self).pos,
            match sp_unicode_escape(old(self).chars@, old(self).pos as int) {
                Ok((ch, q)) => r == Ok::<char, CompilerError>(ch) && final(self).pos == q,
                Err(e) => r matches Err(err) && err@.0 == e,
            },
    {
        proof {
            reveal(sp_unicode_escape);
        }
        let ghost s = self.chars@;
        let ghost p = self.pos as int;
        if self.peek() == Some('{') {
            // \u{HHHH} or \u{HHHHH}
            self.advance();
            let mut code: u32 = 0;
            let mut digits: usize = 0;
            loop
                invariant
                    self.wf(),
                    self.chars@ == s,
                    s == old(self).chars@,
                    p == old(self).pos,
                    self.capture_count == old(self).capture_count,
                    self.pos >= p + 1,
                    peek_at(s, p) == Some('{'),
                    digits <= self.pos - (p + 1),
                    code <= 0x10FFFFF,
                    sp_ubrace_digits(s, p + 1, 0, 0) == sp_ubrace_digits(
                        s,
                        self.pos as int,
                        code,
                        digits as nat,
                    ),
                ensures
                    match peek_at(s, self.pos as int) { Some(c) => c == '}', None => true },
                decreases s.len() - self.pos,
            {
                proof {
                    reveal(sp_unicode_escape);
                }
                match self.peek() {
                    Some(c) => {
                        if c == '}' {
                            break;
                        }
                        match hex_digit(c) {
                            Some(d) => {
                                if code > 0x10FFFF {
                                    code = 0x110000;
                                } else {
                                    code = code * 16 + d;
                                }
                                digits = digits + 1;
                                self.advance();
                            },
                            None => return fail(ErrorKind::InvalidUnicodeEscape),
                        }
                    },
                    None => break,
                }
            }
            match self.expect('}') {
                Ok(()) => {},
                Err(e) => return Err(e),
            }
            if digits == 0 || code > 0x10FFFF {
                return fail(ErrorKind::InvalidUnicodeEscape);
            }
            match char_from_u32(code) {
                Some(ch) => {
                    proof {
                        lemma_char_of_code(ch, code);
                    }
                    Ok(ch)
                },
                None => fail(ErrorKind::InvalidUnicodeCodepoint),
            }
        } else {
            // \uHHHH
            let mut code: u32 = 0;
            let mut i: usize = 0;
            while i < 4
                invariant
                    self.wf(),
                    self.chars@ == s,
                    s == old(self).chars@,
                    p == old(self).pos,
                    self.capture_count == old(self).capture_count,
                    0 <= i <= 4,
                    self.pos == p + i,
                    peek_at(s, p) != Some('{'),
                    i == 0 ==> code == 0,
                    i == 1 ==> code < 16,
                    i == 2 ==> code < 256,
                    i == 3 ==> code < 4096,
                    i == 4 ==> code < 65536,
                    hex_prefix_ok(s, p, i as nat),
                    code == hex_prefix(s, p, i as nat),
                decreases 4 - i,
            {
                proof {
                    reveal(sp_unicode_escape);
                }
                let d = match self.advance() {
                    Some(ch) => match hex_digit(ch) {
                        Some(d) => d,
                        None => return fail(ErrorKind::InvalidUnicodeEscape),
                    },
                    None => return fail(ErrorKind::InvalidUnicodeEscape),
                };
                proof {
                    assert(hex_at(s, p + i) == Some(d));
                    assert(hex_prefix(s, p, (i + 1) as nat) == hex_prefix(s, p, i as nat) * 16 + d);
                    assert(hex_prefix_ok(s, p, (i + 1) as nat));
                }
                code = code * 16 + d;
                i = i + 1;
            }
            proof {
                reveal_with_fuel(hex_prefix_ok, 5);
                reveal_with_fuel(hex_prefix, 5);
                assert(hex_at(s, p) is Some && hex_at(s, p + 1) is Some && hex_at(s, p + 2) is Some
                    && hex_at(s, p + 3) is Some);
                assert(code == (((hex_at(s, p).unwrap() * 16 + hex_at(s, p + 1).unwrap()) * 16
                    + hex_at(s, p + 2).unwrap()) * 16 + hex_at(s, p + 3).unwrap()));
            }
            match char_from_u32(code) {
                Some(ch) => {
                    proof {
                        lemma_char_of_code(ch, code);
                    }
                    Ok(ch)
                },
                None => fail(ErrorKind::InvalidUnicodeCodepoint),
            }
        }
    }

    /// Parse \p{...} or \P{...} Unicode property escapes
    #[verifier::spinoff_prover]
    fn parse_unicode_property(&mut self, negated: bool) -> (r: Result<Node, CompilerError>)
        requires
            old(self).wf(),
            old(self).pos >= 1,
        ensures
            final(self).wf(),
            final(self).chars@ == old(self).chars@,
            final(self).capture_count == old(self).capture_count,
            r is Ok ==> final(self).pos >= old(self).pos,
            agrees_at(r, sp_property(old(self).chars@, old(self).pos as int, negated), final(self).pos),
    {
        proof {
            reveal(sp_property);
        }
        let ghost s = self.chars@;
        let ghost p = self.pos as int;
        let mut name: Vec<char> = Vec::new();
        if self.peek() == Some('{') {
            self.advance();
            loop
                invariant
                    self.wf(),
                    self.chars@ == s,
                    s == old(self).chars@,
                    p == old(self).pos,
                    self.capture_count == old(self).capture_count,
                    self.pos >= p + 1,
                    peek_at(s, p) == Some('{'),
                    sp_property_name(s, p + 1, Seq::empty()) == sp_property_name(
                        s,
                        self.pos as int,
                        name@,
                    ),
                ensures
                    match peek_at(s, self.pos as int) { Some(c) => c == '}', None => true },
                decreases s.len() - self.pos,
            {
                proof {
                    reveal(sp_property);
                }
                match self.peek() {
                    Some(c) => {
                        if c == '}' {
                            break;
                        }
                        name.push(c);
                        self.advance();
                    },
                    None => break,
                }
            }
            if self.peek() == Some('}') {
                self.advance();
            }
        } else {
            match self.advance() {
                Some(c) => name.push(c),
                None => return fail(ErrorKind::IncompleteUnicodeProperty),
            }
            proof {
                assert(name@ =~= seq![s[p]]);
            }
        }
        let ranges = property_ranges_of(&name);
        let mut class_ranges: Vec<ClassRange> = Vec::new();
        let mut i: usize = 0;
        proof {
            assert(ranges@.subrange(0, 0) =~= Seq::<(char, char)>::empty());
        }
        while i < ranges.len()
            invariant
                0 <= i <= ranges@.len(),
                class_ranges@ == ranges_to_items(ranges@.subrange(0, i as int)),
            decreases ranges@.len() - i,
        {
            proof {
                reveal(sp_property);
            }
            let (lo, hi) = ranges[i];
            class_ranges.push(ClassRange::Range(lo, hi));
            proof {
                let prev = ranges@.subrange(0, i as int);
                let next = ranges@.subrange(0, i + 1);
                assert(next.drop_last() =~= prev);
            }
            i = i + 1;
        }
        proof {
            assert(ranges@.subrange(0, ranges@.len() as int) =~= ranges@);
        }
        assert(class_ranges@ == ranges_to_items(ranges@));
        Ok(Node::Class { ranges: class_ranges, negated })
    }


    // ====================================================================
    // character class [...]
    // ====================================================================
    #[verifier::spinoff_prover]
    fn parse_class(&mut self) -> (r: Result<Node, CompilerError>)
        requires
            old(self).wf(),
            old(self).pos < old(self).chars@.len(),
        ensures
            final(self).wf(),
            final(self).chars@ == old(self).chars@,
            final(self).capture_count == old(self).capture_count,
            r is Ok ==> final(self).pos > old(self).pos,
            match sp_class(old(self).chars@, old(self).pos as int) {
                Ok((n, q)) => (r matches Ok(node) && node_view(node) == n) && final(self).pos == q,
                Err(e) => r matches Err(err) && err@.0 == e,
            },
    {
        proof {
            reveal_with_fuel(sp_class_items, 1);
        }
        let ghost s = self.chars@;
        let ghost p = self.pos as int;
        self.advance();
        let negated = if self.peek() == Some('^') {
            self.advance();
            true
        } else {
            false
        };
        let mut ranges: Vec<ClassRange> = Vec::new();
        if self.peek() == Some(']') {
            ranges.push(ClassRange::Single(']'));
            self.advance();
        }
        proof {
            if ranges@.len() == 1 {
                assert(ranges@ =~= seq![ClassRange::Single(']')]);
            } else {
                assert(ranges@ =~= Seq::<ClassRange>::empty());
            }
        }
        loop
            invariant
                self.wf(),
                self.chars@ == s,
                s == old(self).chars@,
                p == old(self).pos,
                self.capture_count == old(self).capture_count,
                self.pos > p,
                sp_class(s, p) == sp_class_items(s, self.pos as int, ranges@, negated),
            decreases s.len() - self.pos,
        {
            proof {
                reveal_with_fuel(sp_class_items, 1);
            }
            let c = match self.peek() {
                Some(c) => c,
                None => return fail(ErrorKind::UnterminatedClass),
            };
            if c == ']' {
                self.advance();
                return Ok(Node::Class { ranges, negated });
            }
            let item = match self.parse_class_atom() {
                Ok(it) => it,
                Err(e) => return Err(e),
            };
            // Check for range a-b
            if self.peek() == Some('-') {
                let save = self.pos;
                self.advance();
                if self.peek() == Some(']') {
                    // Trailing '-' is literal
                    ranges.push(item);
                    ranges.push(ClassRange::Single('-'));
                } else {
                    let end_item = match self.parse_class_atom() {
                        Ok(it) => it,
                        Err(e) => return Err(e),
                    };
                    match (item, end_item) {
                        (ClassRange::Single(lo), ClassRange::Single(hi)) => {
                            if (lo as u32) > (hi as u32) {
                                return fail(ErrorKind::InvalidClassRange);
                            }
                            ranges.push(ClassRange::Range(lo, hi));
                        },
                        _ => {
                            // Can't form range with builtins, revert
                            self.pos = save;
                            ranges.push(item);
                            ranges.push(ClassRange::Single('-'));
                        },
                    }
                }
            } else {
                ranges.push(item);
            }
        }
    }

    #[verifier::spinoff_prover]
    fn parse_class_atom(&mut self) -> (r: Result<ClassRange, CompilerError>)
        requires
            old(self).wf(),
        ensures
            final(self).wf(),
            final(self).chars@ == old(self).chars@,
            final(self).capture_count == old(self).capture_count,
            r is Ok ==> final(self).pos > old(self).pos,
            match sp_class_atom(old(self).chars@, old(self).pos as int) {
                Ok((it, q)) => r == Ok::<ClassRange, CompilerError>(it) && final(self).pos == q,
                Err(e) => r matches Err(err) && err@.0 == e,
            },
    {
        proof {
            reveal(sp_class_atom);
        }
        let ghost s = self.chars@;
        let ghost p = self.pos as int;
        let c0 = match self.peek() {
            None => return fail(ErrorKind::UnterminatedClass),
            Some(c0) => c0,
        };
        if c0 != '\\' {
            self.advance();
            return Ok(ClassRange::Single(c0));
        }
        self.advance();
        match self.advance() {
            None => fail(ErrorKind::TrailingBackslashInClass),
            Some(c) => {
                if c == 'd' {
                    Ok(ClassRange::Builtin(BuiltinClass::Digit))
                } else if c == 'D' {
                    Ok(ClassRange::Builtin(BuiltinClass::NotDigit))
                } else if c == 'w' {
                    Ok(ClassRange::Builtin(BuiltinClass::Word))
                } else if c == 'W' {
                    Ok(ClassRange::Builtin(BuiltinClass::NotWord))
                } else if c == 's' {
                    Ok(ClassRange::Builtin(BuiltinClass::Space))
                } else if c == 'S' {
                    Ok(ClassRange::Builtin(BuiltinClass::NotSpace))
                } else if c == 'n' {
                    Ok(ClassRange::Single('\n'))
                } else if c == 'r' {
                    Ok(ClassRange::Single('\r'))
                } else if c == 't' {
                    Ok(ClassRange::Single('\t'))
                } else if c == 'v' {
                    Ok(ClassRange::Single('\x0B'))
                } else if c == 'f' {
                    Ok(ClassRange::Single('\x0C'))
                } else if c == '0' {
                    Ok(ClassRange::Single('\0'))
                } else if c == 'x' {
                    let h1 = match self.advance() {
                        Some(ch) => hex_digit(ch),
                        None => None,
                    };
                    let h2 = match self.advance() {
                        Some(ch) => hex_digit(ch),
                        None => None,
                    };
                    match (h1, h2) {
                        (Some(a), Some(b)) => match char_from_u32(a * 16 + b) {
                            Some(ch) => {
                                proof {
                                    lemma_char_of_code(ch, (a * 16 + b) as u32);
                                }
                                Ok(ClassRange::Single(ch))
                            },
                            None => fail(ErrorKind::InvalidHexEscapeInClass),
                        },
                        _ => fail(ErrorKind::InvalidHexEscapeInClass),
                    }
                } else if c == 'u' {
                    match self.parse_unicode_escape() {
                        Ok(ch) => Ok(ClassRange::Single(ch)),
                        Err(e) => Err(e),
                    }
                } else if c == 'b' {
                    Ok(ClassRange::Single('\x08'))
                } else {
                    Ok(ClassRange::Single(c))
                }
            },
        }
    }

    /// A sub-pattern followed by `)`.
    #[verifier::spinoff_prover]
    fn parse_group_body(&mut self) -> (r: Result<Node, CompilerError>)
        requires
            old(self).wf(),
        ensures
            final(self).wf(),
            final(self).chars@ == old(self).chars@,
            r is Ok ==> final(self).pos > old(self).pos,
            agrees(
                r,
                sp_group_body(old(self).chars@, old(self).pos as int, old(self).capture_count as nat),
                final(self).pos,
                final(self).capture_count,
            ),
        decreases old(self).chars@.len() - old(self).pos, 8int,
    {
        let sub = match self.parse_alternation() {
            Ok(n) => n,
            Err(e) => return Err(e),
        };
        match self.expect(')') {
            Ok(()) => Ok(sub),
            Err(e) => Err(e),
        }
    }

    // ====================================================================
    // groups: (...), (?:...), (?=...), (?!...), (?<=...), (?<!...), (?<name>...)
    // ====================================================================
    #[verifier::spinoff_prover]
    fn parse_group(&mut self) -> (r: Result<Node, CompilerError>)
        requires
            old(self).wf(),
            old(self).pos < old(self).chars@.len(),
        ensures
            final(self).wf(),
            final(self).chars@ == old(self).chars@,
            r is Ok ==> final(self).pos > old(self).pos,
            agrees(
                r,
                sp_group(old(self).chars@, old(self).pos as int, old(self).capture_count as nat),
                final(self).pos,
                final(self).capture_count,
            ),
        decreases old(self).chars@.len() - old(self).pos, 1int,
    {
        proof {
            reveal_with_fuel(sp_group, 1);
        }
        let ghost s = self.chars@;
        let ghost p = self.pos as int;
        self.advance();
        if self.peek() == Some('?') {
            self.advance();
            let c = match self.peek() {
                Some(c) => c,
                None => return fail(ErrorKind::InvalidGroupSyntax { pos: self.pos }),
            };
            if c == ':' {
                self.advance();
                match self.parse_group_body() {
                    Ok(sub) => Ok(Node::Group(Box::new(sub))),
                    Err(e) => Err(e),
                }
            } else if c == '=' || c == '!' {
                self.advance();
                match self.parse_group_body() {
                    Ok(sub) => Ok(Node::Lookahead { sub: Box::new(sub), negative: c == '!' }),
                    Err(e) => Err(e),
                }
            } else if c == '<' {
                self.advance();
                let c2 = self.peek();
                if c2 == Some('=') || c2 == Some('!') {
                    self.advance();
                    match self.parse_group_body() {
                        Ok(sub) => Ok(
                            Node::Lookbehind { sub: Box::new(sub), negative: c2 == Some('!') },
                        ),
                        Err(e) => Err(e),
                    }
                } else {
                    // Named capture group (?<name>...)
                    let name = match self.parse_group_name() {
                        Ok(name) => name,
                        Err(e) => return Err(e),
                    };
                    self.capture_count = self.capture_count + 1;
                    let index = self.capture_count;
                    match self.parse_group_body() {
                        Ok(sub) => Ok(Node::Capture { index, name: Some(name), sub: Box::new(sub) }),
                        Err(e) => Err(e),
                    }
                }
            } else if c == 'i' || c == 'm' || c == 's' || c == 'u' || c == '-' {
                // Inline flag groups: (?i:...), (?im:...), (?i), (?-i:...), etc.
                loop
                    invariant
                        self.wf(),
                        self.chars@ == s,
                        s == old(self).chars@,
                        p == old(self).pos,
                        self.capture_count == old(self).capture_count,
                        self.pos >= p + 2,
                        sp_flag_chars(s, p + 2) == sp_flag_chars(s, self.pos as int),
                    ensures
                        match peek_at(s, self.pos as int) { Some(c) => !is_flag_char(c), None => true },
                    decreases s.len() - self.pos,
                {
                    proof {
                        reveal_with_fuel(sp_group, 1);
                    }
                    match self.peek() {
                        Some(fc) => {
                            if fc == 'i' || fc == 'm' || fc == 's' || fc == 'u' || fc == 'x' || fc
                                == '-' {
                                self.advance();
                            } else {
                                break;
                            }
                        },
                        None => break,
                    }
                }
                match self.peek() {
                    Some(fc) => {
                        if fc == ':' {
                            // (?i:...) — scoped flags, parse as non-capturing group
                            self.advance();
                            match self.parse_group_body() {
                                Ok(sub) => Ok(Node::Group(Box::new(sub))),
                                Err(e) => Err(e),
                            }
                        } else if fc == ')' {
                            // (?i) — flag-only group, no content
                            self.advance();
                            Ok(Node::Empty)
                        } else {
                            fail(ErrorKind::InvalidGroupSyntax { pos: self.pos })
                        }
                    },
                    None => fail(ErrorKind::InvalidGroupSyntax { pos: self.pos }),
                }
            } else {
                fail(ErrorKind::InvalidGroupSyntax { pos: self.pos })
            }
        } else {
            // Capturing group
            self.capture_count = self.capture_count + 1;
            let index = self.capture_count;
            match self.parse_group_body() {
                Ok(sub) => Ok(Node::Capture { index, name: None, sub: Box::new(sub) }),
                Err(e) => Err(e),
            }
        }
    }

    #[verifier::spinoff_prover]
    fn parse_group_name(&mut self) -> (r: Result<String, CompilerError>)
        requires
            old(self).wf(),
        ensures
            final(self).wf(),
            final(self).chars@ == old(self).chars@,
            final(self).capture_count == old(self).capture_count,
            r is Ok ==> final(self).pos > old(self).pos,
            match sp_group_name(old(self).chars@, old(self).pos as int, Seq::empty()) {
                Ok((name, q)) => (r matches Ok(n) && n@ == name) && final(self).pos == q,
                Err(e) => r matches Err(err) && err@.0 == e,
            },
    {
        let ghost s = self.chars@;
        let ghost p = self.pos as int;
        let mut name = String::new();
        let mut name_len: usize = 0;
        loop
            invariant
                name_len == name@.len(),
                name_len <= self.pos - p,
                self.wf(),
                self.chars@ == s,
                s == old(self).chars@,
                p == old(self).pos,
                self.capture_count == old(self).capture_count,
                self.pos >= p,
                sp_group_name(s, p, Seq::empty()) == sp_group_name(s, self.pos as int, name@),
            decreases s.len() - self.pos,
        {
            let c = match self.peek() {
                Some(c) => c,
                None => return fail(ErrorKind::UnterminatedGroupName),
            };
            if c == '>' {
                self.advance();
                if name_len == 0 {
                    return fail(ErrorKind::EmptyGroupName);
                }
                return Ok(name);
            }
            if char_is_alphanumeric(c) || c == '_' || c == '$' {
                string_push(&mut name, c);
                name_len = name_len + 1;
                self.advance();
            } else {
                return fail(ErrorKind::InvalidGroupNameChar { c });
            }
        }
    }
}

/// Parse a JavaScript regex pattern into an AST.
pub fn parse(pattern: &str, flags: Flags) -> (r: Result<Node, CompilerError>)
    requires
        pattern@.len() < u32::MAX,
    ensures
        match spec_parse(pattern@) {
            Ok(n) => r matches Ok(node) && node_view(node) == n,
            Err(e) => r matches Err(err) && err@.0 == e,
        },
{
    let mut parser = Parser { chars: str_chars(pattern), pos: 0, flags, capture_count: 0 };
    let node = match parser.parse_alternation() {
        Ok(n) => n,
        Err(e) => return Err(e),
    };
    if parser.pos < parser.chars.len() {
        return fail(ErrorKind::UnexpectedChar { c: parser.chars[parser.pos], pos: parser.pos });
    }
    Ok(node)
}

/// Get the total number of capture groups of the leading alternation.
pub fn count_captures(pattern: &str, flags: Flags) -> (r: Result<u32, CompilerError>)
    requires
        pattern@.len() < u32::MAX,
    ensures
        match spec_count_captures(pattern@) {
            Ok(n) => r matches Ok(c) && c == n,
            Err(e) => r matches Err(err) && err@.0 == e,
        },
{
    let mut parser = Parser { chars: str_chars(pattern), pos: 0, flags, capture_count: 0 };
    match parser.parse_alternation() {
        Ok(_) => Ok(parser.capture_count),
        Err(e) => Err(e),
    }
}

/// The number of capture groups of a pattern that parses is the number of
/// capture groups in its tree.
pub proof fn lemma_count_is_groups(s: Seq<char>)
    requires
        spec_parse(s) is Ok,
    ensures
        spec_count_captures(s) is Ok,
        spec_count_captures(s)->Ok_0 == caps_of(spec_parse(s)->Ok_0).len(),
{
    lemma_captures_numbered_in_order(s);
}

} // verus!
