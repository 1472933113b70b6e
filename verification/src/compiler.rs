//! The regex compiler: pattern text to QuickJS regex bytecode.
//!
//! Inline flag groups `(?i`, `(?m` and `(?s` anywhere in the pattern are
//! promoted to flags of the whole pattern, so that PCRE-style patterns such
//! as `(?i)foo|(?i)bar` compile as intended.
use vstd::prelude::*;
use crate::codegen::{CodeGenerator, MAX_CODE_LEN, program, header, max_cap};
use crate::error::{CompilerError, ErrorKind};
use crate::flags::Flags;
use crate::parser::{parse, count_captures, spec_parse, spec_count_captures, sp_alternation};
use crate::support::str_chars;

verus! {

/// Whether `t` occurs in `s` as a contiguous run.
pub open spec fn has_infix(s: Seq<char>, t: Seq<char>) -> bool {
    exists|i: int| 0 <= i && i + t.len() <= s.len() && #[trigger] s.subrange(i, i + t.len()) == t
}

/// The flags a pattern is compiled with: the given ones, plus those whose
/// inline group opens somewhere in the pattern.
pub open spec fn promoted_flags(s: Seq<char>, flags: Flags) -> Flags {
    Flags {
        bits: flags.bits | (if has_infix(s, seq!['(', '?', 'i']) {
            Flags::IGNORE_CASE
        } else {
            0
        }) | (if has_infix(s, seq!['(', '?', 'm']) {
            Flags::MULTILINE
        } else {
            0
        }) | (if has_infix(s, seq!['(', '?', 's']) {
            Flags::DOT_ALL
        } else {
            0
        }),
    }
}

/// What compiling a pattern gives: the bytecode (header and body) or the
/// error that refuses the pattern.
pub open spec fn spec_compile(s: Seq<char>, flags: Flags) -> Result<Seq<u8>, ErrorKind> {
    let fl = promoted_flags(s, flags);
    match spec_parse(s) {
        Err(e) => Err(e),
        Ok(n) => match spec_count_captures(s) {
            Err(e) => Err(e),
            Ok(cc) => match program(n, fl, cc) {
                Err(e) => Err(e),
                Ok(p) => if p.len() > MAX_CODE_LEN {
                    Err(ErrorKind::PatternTooLarge)
                } else {
                    Ok(header(fl, 1 + max_cap(n), 0, p.len()) + p)
                },
            },
        },
    }
}

/// Whether the three chars `a`, `b`, `c` occur in a row in `s`.
fn contains3(s: &Vec<char>, a: char, b: char, c: char) -> (r: bool)
    ensures
        r == has_infix(s@, seq![a, b, c]),
{
    let ghost t = seq![a, b, c];
    let mut i: usize = 0;
    while i < s.len() && s.len() - i >= 3
        invariant
            t == seq![a, b, c],
            i <= s@.len(),
            forall|j: int| 0 <= j < i && j + 3 <= s@.len() ==> #[trigger] s@.subrange(j, j + 3) != t,
        decreases s@.len() - i,
    {
        if s[i] == a && s[i + 1] == b && s[i + 2] == c {
            assert(s@.subrange(i as int, i + 3) =~= t);
            return true;
        }
        assert(s@.subrange(i as int, i + 3)[0] == s@[i as int]);
        assert(s@.subrange(i as int, i + 3)[1] == s@[i + 1]);
        assert(s@.subrange(i as int, i + 3)[2] == s@[i + 2]);
        i = i + 1;
    }
    proof {
        if has_infix(s@, t) {
            let j = choose|j: int| 0 <= j && j + t.len() <= s@.len() && #[trigger] s@.subrange(j, j + t.len()) == t;
            assert(t.len() == 3);
        }
    }
    false
}

/// Compile a regex pattern to bytecode (pure Rust, full JS syntax).
pub fn compile_regex(pattern: &str, flags: Flags) -> (r: Result<Vec<u8>, CompilerError>)
    requires
        pattern@.len() < u32::MAX,
    ensures
        match spec_compile(pattern@, flags) {
            Ok(b) => r is Ok && r->Ok_0@ == b,
            Err(e) => r is Err && r->Err_0@.0 == e,
        },
{
    let chars = str_chars(pattern);
    let mut final_flags = flags;
    if contains3(&chars, '(', '?', 'i') {
        final_flags.insert(Flags::IGNORE_CASE);
    }
    if contains3(&chars, '(', '?', 'm') {
        final_flags.insert(Flags::MULTILINE);
    }
    if contains3(&chars, '(', '?', 's') {
        final_flags.insert(Flags::DOT_ALL);
    }
    proof {
        let s = pattern@;
        let b = flags.bits;
        let i = if has_infix(s, seq!['(', '?', 'i']) { 2u16 } else { 0u16 };
        let m = if has_infix(s, seq!['(', '?', 'm']) { 4u16 } else { 0u16 };
        let d = if has_infix(s, seq!['(', '?', 's']) { 8u16 } else { 0u16 };
        assert(((b | i) | m) | d == b | i | m | d);
        assert(final_flags == promoted_flags(s, flags)) by {
            assert((b | 0u16) == b) by (bit_vector);
            assert(forall|x: u16| #[trigger] (x | 0u16) == x) by (bit_vector);
        }
    }
    let ast = parse(pattern, final_flags)?;
    let capture_count = count_captures(pattern, final_flags)?;
    let mut codegen = CodeGenerator::new(final_flags, capture_count);
    codegen.compile(&ast)?;
    proof {
        assert(codegen.code().len() <= MAX_CODE_LEN);
    }
    Ok(codegen.into_bytecode())
}

/// An inline flag group in the pattern has the effect of the flag given
/// from outside: with `(?i` in the pattern, compiling with or without
/// `IGNORE_CASE` gives the same; likewise `(?m` with `MULTILINE` and `(?s`
/// with `DOT_ALL`.
pub proof fn lemma_inline_flag_promotion(s: Seq<char>, flags: Flags, flag: u16)
    requires
        (flag == Flags::IGNORE_CASE && has_infix(s, seq!['(', '?', 'i']))
            || (flag == Flags::MULTILINE && has_infix(s, seq!['(', '?', 'm']))
            || (flag == Flags::DOT_ALL && has_infix(s, seq!['(', '?', 's'])),
    ensures
        spec_compile(s, flags) == spec_compile(s, Flags { bits: flags.bits | flag }),
{
    let f = flags.bits;
    let i: u16 = if has_infix(s, seq!['(', '?', 'i']) { Flags::IGNORE_CASE } else { 0 };
    let m: u16 = if has_infix(s, seq!['(', '?', 'm']) { Flags::MULTILINE } else { 0 };
    let d: u16 = if has_infix(s, seq!['(', '?', 's']) { Flags::DOT_ALL } else { 0 };
    assert(f | i | m | d == (f | flag) | i | m | d) by (bit_vector)
        requires
            flag == i || flag == m || flag == d;
    assert(promoted_flags(s, flags) == promoted_flags(s, Flags { bits: f | flag }));
}

/// A pattern that does not parse does not compile: compiling it gives the
/// parse error, whatever the flags.
pub proof fn lemma_parse_error_refuses(s: Seq<char>, flags: Flags)
    requires
        spec_parse(s) is Err,
    ensures
        spec_compile(s, flags) == Err::<Seq<u8>, ErrorKind>(spec_parse(s)->Err_0),
{
}

} // verus!
