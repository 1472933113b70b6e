//! The character sets and escape values that ECMAScript fixes, written out
//! from the standard, and the laws that tie the parser, the escape parser,
//! the interpreter and the bit-parallel matcher to them.
use vstd::prelude::*;
use crate::ast::{BuiltinClass, ClassRange, SNode};
use crate::charclass::{builtin_has, item_has, in_iv, digit_iv, word_iv, space_iv};
use crate::escape::{at, spec_parse_escape, hex_value};
use crate::support::{hex_val, dec_val};
use crate::interpreter::{at_word_boundary, is_word_byte, step, decode, in_stored_ranges, read_bound, to_lower, to_upper, is_line_terminator};
use crate::bitvm::{accepts, in_interval};
use crate::opcodes::{read_u16, read_u32};
use crate::parser::{peek_at, sp_escape, sp_class_atom};

verus! {

/// The decimal digits `0`-`9`.
pub open spec fn ecma_digit(c: int) -> bool {
    0x30 <= c <= 0x39
}

/// The word characters `[0-9A-Za-z_]`.
pub open spec fn ecma_word(c: int) -> bool {
    ecma_digit(c) || 0x41 <= c <= 0x5A || c == 0x5F || 0x61 <= c <= 0x7A
}

/// The white space and line terminator code points: TAB, LF, VT, FF, CR,
/// SPACE, NBSP, the other space separators, LS, PS and the byte order mark.
pub open spec fn ecma_space(c: int) -> bool {
    ||| 0x09 <= c <= 0x0D
    ||| c == 0x20
    ||| c == 0xA0
    ||| c == 0x1680
    ||| 0x2000 <= c <= 0x200A
    ||| c == 0x2028
    ||| c == 0x2029
    ||| c == 0x202F
    ||| c == 0x205F
    ||| c == 0x3000
    ||| c == 0xFEFF
}

/// Whether `letter` is one of the class escapes `\d \D \w \W \s \S`.
pub open spec fn is_class_letter(letter: char) -> bool {
    letter == 'd' || letter == 'D' || letter == 'w' || letter == 'W' || letter == 's' || letter == 'S'
}

/// The code points the class escape `\letter` stands for: its set, or,
/// for the upper case letter, every other code point.
pub open spec fn class_escape_has(letter: char, c: int) -> bool {
    &&& 0 <= c <= 0x10FFFF
    &&& if letter == 'd' {
        ecma_digit(c)
    } else if letter == 'D' {
        !ecma_digit(c)
    } else if letter == 'w' {
        ecma_word(c)
    } else if letter == 'W' {
        !ecma_word(c)
    } else if letter == 's' {
        ecma_space(c)
    } else if letter == 'S' {
        !ecma_space(c)
    } else {
        false
    }
}

/// The character a control escape `\t \n \v \f \r` stands for: TAB, LF,
/// VT, FF, CR.
pub open spec fn control_escape(letter: char) -> Option<u32> {
    if letter == 't' {
        Some(0x09u32)
    } else if letter == 'n' {
        Some(0x0Au32)
    } else if letter == 'v' {
        Some(0x0Bu32)
    } else if letter == 'f' {
        Some(0x0Cu32)
    } else if letter == 'r' {
        Some(0x0Du32)
    } else {
        None
    }
}

/// A word boundary holds at a byte position exactly when one of the bytes
/// on either side of it is a word character and the other is not (or is
/// missing).
pub proof fn lemma_word_boundary(t: Seq<u8>, pos: int)
    ensures
        at_word_boundary(t, pos) == ((1 <= pos <= t.len() && ecma_word(t[pos - 1] as int)) != (0 <= pos
            < t.len() && ecma_word(t[pos] as int))),
{
}

/// The bytes the word boundary tests are the word characters.
pub proof fn lemma_word_byte(b: u8)
    ensures
        is_word_byte(b) == ecma_word(b as int),
{
}

/// The single-letter escapes of the escape parser: `\b` backspace, `\f`
/// form feed, `\n` line feed, `\r` carriage return, `\t` tab and `\v`
/// vertical tab, each one byte long.
pub proof fn lemma_escape_letters(buf: Seq<u8>, p: int, allow_utf16: int)
    requires
        at(buf, p) == 'b' as int || control_escape(at(buf, p) as char) is Some,
        0 <= at(buf, p) < 0x80,
    ensures
        spec_parse_escape(buf, p, allow_utf16) == (
            if at(buf, p) == 'b' as int {
                0x08int
            } else {
                control_escape(at(buf, p) as char)->Some_0 as int
            },
            p + 1,
        ),
{
}

/// The built-in classes hold exactly the code points of their class
/// escapes.
pub proof fn lemma_builtin_sets(c: int)
    ensures
        builtin_has(BuiltinClass::Digit, c) == class_escape_has('d', c),
        builtin_has(BuiltinClass::NotDigit, c) == class_escape_has('D', c),
        builtin_has(BuiltinClass::Word, c) == class_escape_has('w', c),
        builtin_has(BuiltinClass::NotWord, c) == class_escape_has('W', c),
        builtin_has(BuiltinClass::Space, c) == class_escape_has('s', c),
        builtin_has(BuiltinClass::NotSpace, c) == class_escape_has('S', c),
{
    let d = digit_iv();
    let w = word_iv();
    let sp = space_iv();
    if in_iv(d, c) {
        let j = choose|j: int| 0 <= j < d.len() && (#[trigger] d[j]).0 <= c && c <= d[j].1;
    }
    if ecma_digit(c) {
        assert(d[0].0 <= c && c <= d[0].1);
    }
    if in_iv(w, c) {
        let j = choose|j: int| 0 <= j < w.len() && (#[trigger] w[j]).0 <= c && c <= w[j].1;
    }
    if ecma_word(c) {
        if c <= 0x39 {
            assert(w[0].0 <= c && c <= w[0].1);
        } else if c <= 0x5A {
            assert(w[1].0 <= c && c <= w[1].1);
        } else if c == 0x5F {
            assert(w[2].0 <= c && c <= w[2].1);
        } else {
            assert(w[3].0 <= c && c <= w[3].1);
        }
    }
    if in_iv(sp, c) {
        let j = choose|j: int| 0 <= j < sp.len() && (#[trigger] sp[j]).0 <= c && c <= sp[j].1;
    }
    if ecma_space(c) {
        if 0x09 <= c <= 0x0D {
            assert(sp[0].0 <= c && c <= sp[0].1);
        } else if c == 0x20 {
            assert(sp[1].0 <= c && c <= sp[1].1);
        } else if c == 0xA0 {
            assert(sp[2].0 <= c && c <= sp[2].1);
        } else if c == 0x1680 {
            assert(sp[3].0 <= c && c <= sp[3].1);
        } else if 0x2000 <= c <= 0x200A {
            assert(sp[4].0 <= c && c <= sp[4].1);
        } else if c == 0x2028 || c == 0x2029 {
            assert(sp[5].0 <= c && c <= sp[5].1);
        } else if c == 0x202F {
            assert(sp[6].0 <= c && c <= sp[6].1);
        } else if c == 0x205F {
            assert(sp[7].0 <= c && c <= sp[7].1);
        } else if c == 0x3000 {
            assert(sp[8].0 <= c && c <= sp[8].1);
        } else {
            assert(sp[9].0 <= c && c <= sp[9].1);
        }
    }
}

/// A class escape outside a class, `\d \D \w \W \s \S`, parses to a
/// built-in class whose code points are exactly the ones the escape stands
/// for, so `\W` takes exactly what `\w` does not.
pub proof fn lemma_class_escape(s: Seq<char>, p: int, letter: char)
    requires
        peek_at(s, p + 1) == Some(letter),
        is_class_letter(letter),
    ensures
        sp_escape(s, p) matches Ok((SNode::Builtin(b), q)) && q == p + 2 && forall|c: int|
            #[trigger] builtin_has(b, c) == class_escape_has(letter, c),
{
    reveal(sp_escape);
    match sp_escape(s, p) {
        Ok((SNode::Builtin(b), q)) => {
            assert forall|c: int| #[trigger] builtin_has(b, c) == class_escape_has(letter, c) by {
                lemma_builtin_sets(c);
            }
        },
        _ => {},
    }
}

/// A control escape outside a class, `\t \n \v \f \r`, parses to the
/// character it stands for; `\b` and `\B` parse to a word boundary and its
/// negation.
pub proof fn lemma_control_escape(s: Seq<char>, p: int, letter: char)
    requires
        peek_at(s, p + 1) == Some(letter),
        control_escape(letter) is Some || letter == 'b' || letter == 'B',
    ensures
        control_escape(letter) is Some ==> (sp_escape(s, p) matches Ok((SNode::Literal(ch), q)) && q == p + 2
            && ch as u32 == control_escape(letter)->Some_0),
        letter == 'b' ==> sp_escape(s, p) == Ok::<(SNode, int), crate::error::ErrorKind>((SNode::WordBoundary { negated: false }, p + 2)),
        letter == 'B' ==> sp_escape(s, p) == Ok::<(SNode, int), crate::error::ErrorKind>((SNode::WordBoundary { negated: true }, p + 2)),
{
    reveal(sp_escape);
}

/// Inside a class, a class escape is an item with the same code points as
/// outside, a control escape the character it stands for, and `\b` the
/// backspace.
pub proof fn lemma_class_atom_escape(s: Seq<char>, p: int, letter: char)
    requires
        peek_at(s, p) == Some('\\'),
        peek_at(s, p + 1) == Some(letter),
        is_class_letter(letter) || control_escape(letter) is Some || letter == 'b',
    ensures
        is_class_letter(letter) ==> (sp_class_atom(s, p) matches Ok((item, q)) && q == p + 2 && item is Builtin
            && forall|c: int| #[trigger] item_has(item, c) == class_escape_has(letter, c)),
        control_escape(letter) is Some ==> (sp_class_atom(s, p) matches Ok((ClassRange::Single(ch), q)) && q == p
            + 2 && ch as u32 == control_escape(letter)->Some_0),
        letter == 'b' ==> (sp_class_atom(s, p) matches Ok((ClassRange::Single(ch), q)) && q == p + 2 && ch as u32
            == 0x08),
{
    reveal(sp_class_atom);
    if is_class_letter(letter) {
        match sp_class_atom(s, p) {
            Ok((item, q)) => {
                assert forall|c: int| #[trigger] item_has(item, c) == class_escape_has(letter, c) by {
                    lemma_builtin_sets(c);
                }
            },
            _ => {},
        }
    }
}

/// The byte-level matcher takes an ASCII byte at a consuming instruction
/// (a character, `.`, any, `\s`, `\S` or a class, with or without case
/// folding) exactly when the backtracking interpreter's step of that
/// instruction takes the byte as the one character of a text.
pub proof fn lemma_accepts_agrees(bc: Seq<u8>, pc: int, b: int, caps: Seq<Option<usize>>)
    requires
        0 <= pc < bc.len(),
        0 <= b < 0x80,
        bc[pc] == 1 || bc[pc] == 2 || (5 <= bc[pc] <= 8) || (36 <= bc[pc] <= 38),
        (bc[pc] == 1 || bc[pc] == 2) ==> pc + 3 <= bc.len(),
        (bc[pc] == 36 || bc[pc] == 37) ==> pc + 3 + 4 * read_u16(bc, pc + 1) <= bc.len(),
        bc[pc] == 38 ==> pc + 3 + 8 * read_u16(bc, pc + 1) <= bc.len(),
    ensures
        accepts(bc, pc, b) == (step(bc, seq![b as u8], pc, 0, caps) is Some),
{
    let t = seq![b as u8];
    let op = bc[pc];
    let c = b as u32;
    assert(decode(t, 0) == Some((c, 1int)));
    if op == 7 || op == 8 {
        lemma_builtin_sets(b);
        assert(in_iv(space_iv(), b) == ecma_space(b));
    } else if op == 36 || op == 37 {
        let n = read_u16(bc, pc + 1) as int;
        let st = pc + 3;
        if accepts(bc, pc, b) {
            let (k, x) = choose|k: int, x: int|
                0 <= k < n && #[trigger] in_interval(bc, pc, 2, k, x) && 0 <= x <= 255 && (b == x || op == 37 && (
                b == to_lower(x as u32) || b == to_upper(x as u32)));
            assert(st + 2 * 2 * k == pc + 3 + 4 * k);
            assert(read_bound(bc, st + 2 * 2 * k, 2) == read_u16(bc, pc + 3 + 4 * k));
            assert(read_bound(bc, st + 2 * 2 * k + 2, 2) == read_u16(bc, pc + 5 + 4 * k));
            if b == x {
                assert(in_stored_ranges(bc, st, n, 2, c));
            } else if b == to_lower(x as u32) {
                assert(to_upper(c) == x);
                assert(in_stored_ranges(bc, st, n, 2, to_upper(c)));
            } else {
                assert(to_lower(c) == x);
                assert(in_stored_ranges(bc, st, n, 2, to_lower(c)));
            }
        }
        if step(bc, t, pc, 0, caps) is Some {
            if in_stored_ranges(bc, st, n, 2, c) {
                let k = choose|k: int| 0 <= k < n && #[trigger] read_bound(bc, st + 2 * 2 * k, 2) <= c && c <= read_bound(bc, st + 2 * 2 * k + 2, 2);
                assert(st + 2 * 2 * k == pc + 3 + 4 * k);
                assert(in_interval(bc, pc, 2, k, b));
            } else if in_stored_ranges(bc, st, n, 2, to_lower(c)) {
                let x = to_lower(c);
                let k = choose|k: int| 0 <= k < n && #[trigger] read_bound(bc, st + 2 * 2 * k, 2) <= x && x <= read_bound(bc, st + 2 * 2 * k + 2, 2);
                assert(st + 2 * 2 * k == pc + 3 + 4 * k);
                assert(in_interval(bc, pc, 2, k, x as int));
                assert(b == x || b == to_upper(x));
            } else {
                let x = to_upper(c);
                let k = choose|k: int| 0 <= k < n && #[trigger] read_bound(bc, st + 2 * 2 * k, 2) <= x && x <= read_bound(bc, st + 2 * 2 * k + 2, 2);
                assert(st + 2 * 2 * k == pc + 3 + 4 * k);
                assert(in_interval(bc, pc, 2, k, x as int));
                assert(b == x || b == to_lower(x));
            }
        }
    } else if op == 38 {
        let n = read_u16(bc, pc + 1) as int;
        let st = pc + 3;
        if accepts(bc, pc, b) {
            let k = choose|k: int|
                0 <= k < n && read_u32(bc, pc + 3 + 8 * k) < 256 && #[trigger] in_interval(bc, pc, 4, k, b);
            assert(st + 2 * 4 * k == pc + 3 + 8 * k);
            assert(read_bound(bc, st + 2 * 4 * k, 4) == read_u32(bc, pc + 3 + 8 * k));
            assert(read_bound(bc, st + 2 * 4 * k + 4, 4) == read_u32(bc, pc + 7 + 8 * k));
            assert(in_stored_ranges(bc, st, n, 4, c));
        }
        if step(bc, t, pc, 0, caps) is Some {
            let k = choose|k: int| 0 <= k < n && #[trigger] read_bound(bc, st + 2 * 4 * k, 4) <= c && c <= read_bound(bc, st + 2 * 4 * k + 4, 4);
            assert(st + 2 * 4 * k == pc + 3 + 8 * k);
            assert(in_interval(bc, pc, 4, k, b));
        }
    }
}

/// Whether `c` is a hexadecimal digit of value `v`: `0`-`9` for 0 to 9,
/// `a`-`f` or `A`-`F` for 10 to 15.
pub open spec fn is_hex_digit_of(c: int, v: int) -> bool {
    ||| 0 <= v < 10 && c == 0x30 + v
    ||| 10 <= v < 16 && (c == 0x61 + (v - 10) || c == 0x41 + (v - 10))
}

/// The hexadecimal digit values of the escape parser: a digit gives its
/// value, anything else -1.
pub proof fn lemma_hex_value(c: int)
    ensures
        (hex_value(c) >= 0 && is_hex_digit_of(c, hex_value(c))) || (hex_value(c) == -1 && forall|v: int|
            !#[trigger] is_hex_digit_of(c, v)),
{
}

/// The hexadecimal digit values of the pattern parser: a digit gives its
/// value, anything else nothing.
pub proof fn lemma_hex_val(c: char)
    ensures
        match hex_val(c) {
            Some(v) => is_hex_digit_of(c as int, v as int),
            None => forall|v: int| !#[trigger] is_hex_digit_of(c as int, v),
        },
{
}

/// The decimal digit values of the pattern parser: `0`-`9` give 0 to 9,
/// anything else nothing.
pub proof fn lemma_dec_val(c: char)
    ensures
        match dec_val(c) {
            Some(v) => v < 10 && c as int == 0x30 + v,
            None => !(0x30 <= c as int <= 0x39),
        },
{
}

/// `\x` with two hexadecimal digits in the escape parser stands for the
/// code unit they spell, and takes three bytes.
pub proof fn lemma_escape_hex(buf: Seq<u8>, p: int, allow_utf16: int, h0: int, h1: int)
    requires
        at(buf, p) == 0x78,
        is_hex_digit_of(at(buf, p + 1), h0),
        is_hex_digit_of(at(buf, p + 2), h1),
    ensures
        spec_parse_escape(buf, p, allow_utf16) == (16 * h0 + h1, p + 3),
{
}

/// `\u` with four hexadecimal digits in the escape parser stands for the
/// code unit they spell, unless it is a high surrogate followed by a `\u`
/// escape of a low one in Unicode mode.
pub proof fn lemma_escape_u4(buf: Seq<u8>, p: int, h: Seq<int>)
    requires
        at(buf, p) == 0x75,
        at(buf, p + 1) != 0x7B,
        h.len() == 4,
        forall|i: int| 0 <= i < 4 ==> is_hex_digit_of(at(buf, p + 1 + i), #[trigger] h[i]),
    ensures
        spec_parse_escape(buf, p, 0) == (((h[0] * 16 + h[1]) * 16 + h[2]) * 16 + h[3], p + 5),
{
    assert(is_hex_digit_of(at(buf, p + 1), h[0]));
    assert(is_hex_digit_of(at(buf, p + 2), h[1]));
    assert(is_hex_digit_of(at(buf, p + 3), h[2]));
    assert(is_hex_digit_of(at(buf, p + 4), h[3]));
}

/// `\x` with two hexadecimal digits outside a class stands for the
/// character they spell, and takes four characters with the backslash.
pub proof fn lemma_pattern_hex_escape(s: Seq<char>, p: int, h0: int, h1: int)
    requires
        peek_at(s, p + 1) == Some('x'),
        0 <= p + 3 < s.len(),
        is_hex_digit_of(s[p + 2] as int, h0),
        is_hex_digit_of(s[p + 3] as int, h1),
    ensures
        sp_escape(s, p) matches Ok((SNode::Literal(ch), q)) && q == p + 4 && ch as u32 == 16 * h0 + h1,
{
    reveal(sp_escape);
    lemma_hex_val(s[p + 2]);
    lemma_hex_val(s[p + 3]);
    assert(hex_val(s[p + 2]) == Some(h0 as u32)) by {
        if hex_val(s[p + 2]) is Some {
            let v = hex_val(s[p + 2])->Some_0;
            assert(is_hex_digit_of(s[p + 2] as int, v as int));
        }
    }
    assert(hex_val(s[p + 3]) == Some(h1 as u32)) by {
        if hex_val(s[p + 3]) is Some {
            let v = hex_val(s[p + 3])->Some_0;
            assert(is_hex_digit_of(s[p + 3] as int, v as int));
        }
    }
}

/// `\0` not followed by a decimal digit outside a class stands for NUL.
pub proof fn lemma_pattern_nul_escape(s: Seq<char>, p: int)
    requires
        peek_at(s, p + 1) == Some('0'),
        !(p + 2 < s.len() && 0x30 <= s[p + 2] as int <= 0x39),
    ensures
        sp_escape(s, p) matches Ok((SNode::Literal(ch), q)) && q == p + 2 && ch as u32 == 0,
{
    reveal(sp_escape);
    if 0 <= p + 2 < s.len() {
        lemma_dec_val(s[p + 2]);
    }
}

/// The ASCII case mapping of case-insensitive matching: `A`-`Z` and
/// `a`-`z` correspond letter by letter, and every other value is its own
/// case.
pub proof fn lemma_ascii_case(c: u32)
    ensures
        0x41 <= c <= 0x5A ==> to_lower(c) == c + 0x20 && to_upper(c) == c,
        0x61 <= c <= 0x7A ==> to_upper(c) == c - 0x20 && to_lower(c) == c,
        !(0x41 <= c <= 0x5A || 0x61 <= c <= 0x7A) ==> to_lower(c) == c && to_upper(c) == c,
{
}

/// The line terminators, which `.` does not take and multiline anchors
/// stop at: LF, CR, LS and PS.
pub proof fn lemma_line_terminators(c: u32)
    ensures
        is_line_terminator(c) == (c == 0x0A || c == 0x0D || c == 0x2028 || c == 0x2029),
{
}

/// A word boundary holds exactly where `\w` takes one of the bytes on
/// either side of the position and not the other.
pub proof fn lemma_word_boundary_is_w(t: Seq<u8>, pos: int)
    ensures
        at_word_boundary(t, pos) == ((1 <= pos <= t.len() && builtin_has(BuiltinClass::Word, t[pos - 1] as int)) != (
        0 <= pos < t.len() && builtin_has(BuiltinClass::Word, t[pos] as int))),
{
    if 1 <= pos <= t.len() {
        lemma_builtin_sets(t[pos - 1] as int);
    }
    if 0 <= pos < t.len() {
        lemma_builtin_sets(t[pos] as int);
    }
}

/// The value of the octal digits of `buf` from `p` up to `q`.
pub open spec fn octal_of(buf: Seq<u8>, p: int, q: int) -> int
    decreases q - p,
{
    if q <= p {
        0
    } else {
        octal_of(buf, p, q - 1) * 8 + (at(buf, q - 1) - 0x30)
    }
}

/// Whether the byte at `i` is an octal digit.
pub open spec fn is_octal_at(buf: Seq<u8>, i: int) -> bool {
    0x30 <= at(buf, i) <= 0x37
}

/// Outside Unicode mode, an escape that starts with an octal digit takes
/// the longest run of at most three octal digits whose value stays below
/// 256, and stands for that value.
pub proof fn lemma_escape_octal(buf: Seq<u8>, p: int, allow_utf16: int)
    requires
        is_octal_at(buf, p),
        allow_utf16 != 2,
    ensures
        ({
            let (v, q) = spec_parse_escape(buf, p, allow_utf16);
            &&& p + 1 <= q <= p + 3
            &&& forall|i: int| p <= i < q ==> #[trigger] is_octal_at(buf, i)
            &&& v == octal_of(buf, p, q)
            &&& 0 <= v <= 255
            &&& q < p + 3 ==> !(is_octal_at(buf, q) && octal_of(buf, p, q) * 8 + (at(buf, q) - 0x30) <= 255)
        }),
{
    let q = spec_parse_escape(buf, p, allow_utf16).1;
    assert(octal_of(buf, p, p + 1) == at(buf, p) - 0x30) by {
        assert(octal_of(buf, p, p) == 0);
    }
    assert(octal_of(buf, p, p + 2) == octal_of(buf, p, p + 1) * 8 + (at(buf, p + 1) - 0x30));
    assert(octal_of(buf, p, p + 3) == octal_of(buf, p, p + 2) * 8 + (at(buf, p + 2) - 0x30));
    assert forall|i: int| p <= i < q implies #[trigger] is_octal_at(buf, i) by {}
}

/// Whether an escape letter has a meaning of its own outside a class.
pub open spec fn is_special_escape(letter: char) -> bool {
    is_class_letter(letter) || control_escape(letter) is Some || letter == 'b' || letter == 'B' || ('0' <= letter
        && letter <= '9') || letter == 'x' || letter == 'u' || letter == 'p' || letter == 'P'
}

/// Any other escaped character outside a class stands for itself.
pub proof fn lemma_identity_escape(s: Seq<char>, p: int, letter: char)
    requires
        peek_at(s, p + 1) == Some(letter),
        !is_special_escape(letter),
    ensures
        sp_escape(s, p) == Ok::<(SNode, int), crate::error::ErrorKind>((SNode::Literal(letter), p + 2)),
{
    reveal(sp_escape);
}

/// The UTF-8 encoding of a code point: one byte below 0x80, then two,
/// three or four, the first marking the length and the others carrying six
/// bits each under `10`.
pub open spec fn utf8_encode(c: int) -> Seq<u8> {
    if c < 0x80 {
        seq![c as u8]
    } else if c < 0x800 {
        seq![(0xC0 + c / 64) as u8, (0x80 + c % 64) as u8]
    } else if c < 0x10000 {
        seq![(0xE0 + c / 4096) as u8, (0x80 + (c / 64) % 64) as u8, (0x80 + c % 64) as u8]
    } else {
        seq![
            (0xF0 + c / 262144) as u8,
            (0x80 + (c / 4096) % 64) as u8,
            (0x80 + (c / 64) % 64) as u8,
            (0x80 + c % 64) as u8,
        ]
    }
}

/// The text is read as UTF-8: the encoding of a code point, whatever
/// follows it, is read back as that code point, with its length.
pub proof fn lemma_decode_utf8(c: int, rest: Seq<u8>)
    requires
        0 <= c <= 0x10FFFF,
    ensures
        decode(utf8_encode(c) + rest, 0) == Some((c as u32, utf8_encode(c).len() as int)),
{
    let e = utf8_encode(c);
    let t = e + rest;
    assert(t[0] == e[0]);
    if c >= 0x80 {
        assert(t[1] == e[1]);
    }
    if c >= 0x800 {
        assert(t[2] == e[2]);
    }
    if c >= 0x10000 {
        assert(t[3] == e[3]);
    }
    if 0x80 <= c < 0x800 {
        assert(c == 64 * (c / 64) + c % 64 && 2 <= c / 64 < 32) by (nonlinear_arith)
            requires 0x80 <= c < 0x800;
    } else if 0x800 <= c < 0x10000 {
        assert(c == 4096 * (c / 4096) + 64 * ((c / 64) % 64) + c % 64 && c / 4096 < 16) by (nonlinear_arith)
            requires 0x800 <= c < 0x10000;
    } else if 0x10000 <= c {
        assert(c == 262144 * (c / 262144) + 4096 * ((c / 4096) % 64) + 64 * ((c / 64) % 64) + c % 64 && c / 262144
            < 8) by (nonlinear_arith)
            requires 0x10000 <= c <= 0x10FFFF;
    }
}

} // verus!
