//! Small pieces of the pattern compiler: emitting a character test and a
//! range of intervals, reading a decimal number, and the `(?ims-ims:...)`
//! modifier letters.
use vstd::prelude::*;
use crate::bytecode_builder::BytecodeBuilder;
use crate::error::ErrorKind;
use crate::opcodes::{OpCode, opcode_byte, le16, le32};
use crate::group_names::byte_or_nul;

verus! {

/// Largest value `parse_digits` returns.
pub const INT32_MAX: i32 = 0x7fff_ffff;

/// Most intervals one range instruction may hold.
pub const RANGE_COUNT_MAX: usize = 65535;

/// The instruction that tests for character `c`: a 16-bit test when `c` fits
/// in 16 bits, a 32-bit one otherwise, case-insensitive when `ignore_case`.
pub open spec fn char_insn(ignore_case: bool, c: u32) -> Seq<u8> {
    if c <= 0xffff {
        seq![opcode_byte(if ignore_case { OpCode::CharI } else { OpCode::Char })] + le16(c as u16)
    } else {
        seq![opcode_byte(if ignore_case { OpCode::Char32I } else { OpCode::Char32 })] + le32(c)
    }
}

/// Append the test for character `c`.
pub fn re_emit_char(byte_code: &mut BytecodeBuilder, ignore_case: bool, c: u32)
    ensures
        final(byte_code)@ == old(byte_code)@ + char_insn(ignore_case, c),
{
    if c <= 0xffff {
        let op = if ignore_case { OpCode::CharI } else { OpCode::Char };
        byte_code.emit_op_u16(op, c as u16);
    } else {
        let op = if ignore_case { OpCode::Char32I } else { OpCode::Char32 };
        byte_code.emit_op_u32(op, c);
    }
}

/// Last character of the interval that ends before `p`, in 16 bits: an
/// interval that runs to the end of the code space (`p` is the all-ones
/// sentinel) ends at 0xffff.
pub open spec fn hi16(p: u32) -> u16 {
    if p == 0 || p == 0xffff_ffff {
        0xffff
    } else {
        ((p - 1) as u32) as u16
    }
}

/// Last character of the interval that ends before `p`, in 32 bits.
pub open spec fn hi32(p: u32) -> u32 {
    if p == 0 {
        0xffff_ffff
    } else {
        (p - 1) as u32
    }
}

/// The intervals `[points[i], points[i+1])`, `[points[i+2], points[i+3])`, ...
/// written as pairs of inclusive 16-bit bounds.
pub open spec fn pairs16(points: Seq<u32>, i: int) -> Seq<u8>
    decreases points.len() - i,
{
    if i < 0 || i + 1 >= points.len() {
        Seq::empty()
    } else {
        le16(points[i] as u16) + le16(hi16(points[i + 1])) + pairs16(points, i + 2)
    }
}

/// The same intervals written as pairs of inclusive 32-bit bounds.
pub open spec fn pairs32(points: Seq<u32>, i: int) -> Seq<u8>
    decreases points.len() - i,
{
    if i < 0 || i + 1 >= points.len() {
        Seq::empty()
    } else {
        le32(points[i]) + le32(hi32(points[i + 1])) + pairs32(points, i + 2)
    }
}

/// The point that bounds the code the intervals reach: the last point, or
/// the one before it when the last is the all-ones sentinel.
pub open spec fn range_high(points: Seq<u32>) -> u32 {
    if points[points.len() - 1] == 0xffff_ffff {
        points[points.len() - 2]
    } else {
        points[points.len() - 1]
    }
}

/// The instruction that tests membership in the intervals given by
/// `points` (each interval is a start and an exclusive end): a test that no
/// character passes when there are none, a 16-bit range when every bound
/// fits in 16 bits, a 32-bit range otherwise.
pub open spec fn range_insn(ignore_case: bool, points: Seq<u32>) -> Seq<u8> {
    let n = points.len() / 2;
    if n == 0 {
        seq![opcode_byte(OpCode::Char32)] + le32(0xffff_ffff)
    } else if range_high(points) <= 0xffff {
        seq![opcode_byte(if ignore_case { OpCode::RangeI } else { OpCode::Range })] + le16(
            n as u16,
        ) + pairs16(points, 0)
    } else {
        seq![opcode_byte(if ignore_case { OpCode::Range32I } else { OpCode::Range32 })] + le16(
            n as u16,
        ) + pairs32(points, 0)
    }
}

/// A set of code points as a list of interval bounds: each interval is a
/// start point and an exclusive end point (the all-ones value for an
/// interval that runs to the end of the code space).
pub struct CharRange {
    pub points: Vec<u32>,
}

impl CharRange {
    /// The empty set.
    pub fn new() -> (r: CharRange)
        ensures
            r.points@ == Seq::<u32>::empty(),
    {
        CharRange { points: Vec::new() }
    }
}

/// Append one bound.
pub fn cr_add_point(cr: &mut CharRange, v: u32) -> (r: i32)
    ensures
        final(cr).points@ == old(cr).points@.push(v),
        r == 0,
{
    cr.points.push(v);
    0
}

/// Append the interval from `c1` up to `c2` (exclusive).
pub fn cr_add_interval(cr: &mut CharRange, c1: u32, c2: u32) -> (r: i32)
    ensures
        final(cr).points@ == old(cr).points@.push(c1).push(c2),
        r == 0,
{
    cr.points.push(c1);
    cr.points.push(c2);
    0
}

/// Append the range instruction for the intervals of `cr`, or fail with
/// `TooManyRanges` (and append nothing) when there are 65535 or more of
/// them.
pub fn re_emit_range(byte_code: &mut BytecodeBuilder, ignore_case: bool, cr: &CharRange) -> (r: Result<(), ErrorKind>)
    requires
        cr.points@.len() % 2 == 0,
    ensures
        cr.points@.len() / 2 >= RANGE_COUNT_MAX ==> r == Err::<(), ErrorKind>(ErrorKind::TooManyRanges)
            && final(byte_code)@ == old(byte_code)@,
        cr.points@.len() / 2 < RANGE_COUNT_MAX ==> r is Ok && final(byte_code)@ == old(byte_code)@
            + range_insn(ignore_case, cr.points@),
{
    let points = cr.points.as_slice();
    let len = points.len() / 2;
    if len >= RANGE_COUNT_MAX {
        return Err(ErrorKind::TooManyRanges);
    }
    if len == 0 {
        byte_code.emit_op_u32(OpCode::Char32, 0xffff_ffff);
        return Ok(());
    }
    let mut high = points[points.len() - 1];
    if high == 0xffff_ffff {
        high = points[points.len() - 2];
    }
    let ghost start = old(byte_code)@;
    if high <= 0xffff {
        let op = if ignore_case { OpCode::RangeI } else { OpCode::Range };
        byte_code.emit_op_u16(op, len as u16);
        let ghost head = byte_code@;
        let mut i: usize = 0;
        while i < points.len()
            invariant
                points@.len() % 2 == 0,
                i % 2 == 0,
                i <= points@.len(),
                head + pairs16(points@, 0) == byte_code@ + pairs16(points@, i as int),
            decreases points.len() - i,
        {
            let lo = points[i] as u16;
            let p = points[i + 1];
            let h: u32 = if p == 0 || p == 0xffff_ffff { 0xffff } else { p - 1 };
            let ghost before = byte_code@;
            byte_code.push_u16(lo);
            byte_code.push_u16(h as u16);
            assert(pairs16(points@, i as int) == le16(lo) + le16(h as u16) + pairs16(
                points@,
                i + 2,
            ));
            assert(before + pairs16(points@, i as int) =~= byte_code@ + pairs16(points@, i + 2));
            i = i + 2;
        }
        assert(byte_code@ =~= head + pairs16(points@, 0));
    } else {
        let op = if ignore_case { OpCode::Range32I } else { OpCode::Range32 };
        byte_code.emit_op_u16(op, len as u16);
        let ghost head = byte_code@;
        let mut i: usize = 0;
        while i < points.len()
            invariant
                points@.len() % 2 == 0,
                i % 2 == 0,
                i <= points@.len(),
                head + pairs32(points@, 0) == byte_code@ + pairs32(points@, i as int),
            decreases points.len() - i,
        {
            let lo = points[i];
            let p = points[i + 1];
            let h: u32 = if p == 0 { 0xffff_ffff } else { p - 1 };
            let ghost before = byte_code@;
            byte_code.push_u32(lo);
            byte_code.push_u32(h);
            assert(pairs32(points@, i as int) == le32(lo) + le32(h) + pairs32(points@, i + 2));
            assert(before + pairs32(points@, i as int) =~= byte_code@ + pairs32(points@, i + 2));
            i = i + 2;
        }
        assert(byte_code@ =~= head + pairs32(points@, 0));
    }
    Ok(())
}

/// Reading of decimal digits from `p` with `v` the value so far: the value
/// and the position after the last digit, or `None` when the value reaches
/// `INT32_MAX` and overflow is not allowed (with overflow allowed, the value
/// stays at `INT32_MAX`).
pub open spec fn digits_scan(s: Seq<u8>, p: int, v: int, allow_overflow: bool) -> Option<(int, int)>
    decreases s.len() - p,
{
    let c = byte_or_nul(s, p);
    if c < 48 || c > 57 {
        Some((v, p))
    } else {
        let v2 = v * 10 + (c - 48);
        if v2 >= INT32_MAX {
            if allow_overflow {
                digits_scan(s, p + 1, INT32_MAX as int, allow_overflow)
            } else {
                None
            }
        } else {
            digits_scan(s, p + 1, v2, allow_overflow)
        }
    }
}

/// Read the decimal number at `*pp` and move `*pp` past it. On overflow it
/// returns `INT32_MAX` when `allow_overflow`, else -1 with `*pp` unchanged.
pub fn parse_digits(buf: &[u8], pp: &mut usize, allow_overflow: bool) -> (r: i32)
    requires
        *old(pp) <= buf@.len(),
    ensures
        match digits_scan(buf@, *old(pp) as int, 0, allow_overflow) {
            Some((v, q)) => r == v && *final(pp) == q,
            None => r == -1 && *final(pp) == *old(pp),
        },
{
    let n = buf.len();
    let mut p = *pp;
    let mut v: u64 = 0;
    while p < n && 48 <= buf[p] && buf[p] <= 57
        invariant
            n == buf@.len(),
            *old(pp) <= p <= n,
            v <= INT32_MAX,
            *pp == *old(pp),
            digits_scan(buf@, p as int, v as int, allow_overflow) == digits_scan(
                buf@,
                *old(pp) as int,
                0,
                allow_overflow,
            ),
        decreases n - p,
    {
        v = v * 10 + (buf[p] - 48) as u64;
        if v >= INT32_MAX as u64 {
            if allow_overflow {
                v = INT32_MAX as u64;
            } else {
                return -1;
            }
        }
        p = p + 1;
    }
    *pp = p;
    v as i32
}

/// The flag bit of a modifier letter: `i` (ignore case), `m` (multiline),
/// `s` (dot matches all); 0 for any other byte.
pub open spec fn modifier_bit(c: u8) -> int {
    if c == 105 {
        2
    } else if c == 109 {
        4
    } else if c == 115 {
        8
    } else {
        0
    }
}

/// The letter of a modifier byte.
pub open spec fn modifier_char(c: u8) -> char {
    if c == 105 {
        'i'
    } else if c == 109 {
        'm'
    } else {
        's'
    }
}

/// Reading of modifier letters from `p`, with `seen_i`, `seen_m`, `seen_s`
/// the letters read so far: the mask of those letters and the position after
/// them, or the letter read twice.
pub open spec fn modifiers_scan(s: Seq<u8>, p: int, seen_i: bool, seen_m: bool, seen_s: bool) -> Result<(int, int), u8>
    decreases s.len() - p,
{
    let c = byte_or_nul(s, p);
    if c == 105 {
        if seen_i {
            Err(c)
        } else {
            modifiers_scan(s, p + 1, true, seen_m, seen_s)
        }
    } else if c == 109 {
        if seen_m {
            Err(c)
        } else {
            modifiers_scan(s, p + 1, seen_i, true, seen_s)
        }
    } else if c == 115 {
        if seen_s {
            Err(c)
        } else {
            modifiers_scan(s, p + 1, seen_i, seen_m, true)
        }
    } else {
        Ok(
            (
                (if seen_i { 2int } else { 0int }) + (if seen_m { 4int } else { 0int }) + (if seen_s {
                    8int
                } else {
                    0int
                }),
                p,
            ),
        )
    }
}

/// Read the modifier letters at `*pp` (as in `(?ims-s:...)`): the mask of the
/// flags they name, with `*pp` moved past them; a letter given twice is an
/// error and leaves `*pp` unchanged.
pub fn re_parse_modifiers(buf: &[u8], pp: &mut usize) -> (r: Result<i32, ErrorKind>)
    requires
        *old(pp) <= buf@.len(),
    ensures
        match modifiers_scan(buf@, *old(pp) as int, false, false, false) {
            Ok((mask, q)) => r == Ok::<i32, ErrorKind>(mask as i32) && *final(pp) == q,
            Err(c) => r == Err::<i32, ErrorKind>(ErrorKind::DuplicateModifier { c: modifier_char(c) })
                && *final(pp) == *old(pp),
        },
{
    let n = buf.len();
    let mut p = *pp;
    let mut seen_i = false;
    let mut seen_m = false;
    let mut seen_s = false;
    while p < n && (buf[p] == 105 || buf[p] == 109 || buf[p] == 115)
        invariant
            n == buf@.len(),
            *old(pp) <= p <= n,
            *pp == *old(pp),
            modifiers_scan(buf@, p as int, seen_i, seen_m, seen_s) == modifiers_scan(
                buf@,
                *old(pp) as int,
                false,
                false,
                false,
            ),
        decreases n - p,
    {
        let c = buf[p];
        if c == 105 {
            if seen_i {
                return Err(ErrorKind::DuplicateModifier { c: 'i' });
            }
            seen_i = true;
        } else if c == 109 {
            if seen_m {
                return Err(ErrorKind::DuplicateModifier { c: 'm' });
            }
            seen_m = true;
        } else {
            if seen_s {
                return Err(ErrorKind::DuplicateModifier { c: 's' });
            }
            seen_s = true;
        }
        p = p + 1;
    }
    *pp = p;
    let mask: i32 = (if seen_i { 2 } else { 0 }) + (if seen_m { 4 } else { 0 }) + (if seen_s {
        8
    } else {
        0
    });
    Ok(mask)
}

/// A flag after a modifier group: set when `mask` is among the added flags,
/// cleared when it is among the removed ones (removal wins), else `val`.
pub fn update_modifier(val: bool, add_mask: i32, remove_mask: i32, mask: i32) -> (r: bool)
    ensures
        r == if remove_mask & mask != 0 {
            false
        } else if add_mask & mask != 0 {
            true
        } else {
            val
        },
{
    let mut v = val;
    if add_mask & mask != 0 {
        v = true;
    }
    if remove_mask & mask != 0 {
        v = false;
    }
    v
}


/// A set of strings and single characters, as a class that holds strings
/// (`[\q{ab|c}x]`) denotes it: the strings in the order the set keeps them,
/// and the single characters as intervals.
pub struct StringList {
    pub strings: Vec<Vec<u32>>,
    pub cr: CharRange,
}

impl View for StringList {
    type V = (Seq<Seq<u32>>, Seq<u32>);

    open spec fn view(&self) -> (Seq<Seq<u32>>, Seq<u32>) {
        (self.strings@.map_values(|s: Vec<u32>| s@), self.cr.points@)
    }
}

/// The tests for the characters of `s`, one after another.
pub open spec fn str_code(ignore_case: bool, s: Seq<u32>) -> Seq<u8>
    decreases s.len(),
{
    if s.len() == 0 {
        Seq::empty()
    } else {
        str_code(ignore_case, s.drop_last()) + char_insn(ignore_case, s.last())
    }
}

/// The longest of the strings of `v`.
pub open spec fn max_len(v: Seq<Seq<u32>>) -> int
    decreases v.len(),
{
    if v.len() == 0 {
        0
    } else if v.last().len() > max_len(v.drop_last()) {
        v.last().len() as int
    } else {
        max_len(v.drop_last())
    }
}

/// The positions below `k` of the strings of `v` that have length `len`,
/// in order.
pub open spec fn of_len(v: Seq<Seq<u32>>, len: int, k: int) -> Seq<usize>
    decreases k,
{
    if k <= 0 {
        Seq::empty()
    } else if v[k - 1].len() == len {
        of_len(v, len, k - 1).push((k - 1) as usize)
    } else {
        of_len(v, len, k - 1)
    }
}

/// The positions of the strings of `v` longer than `lo` and at most `hi`
/// long: the longest first, those of one length in order.
pub open spec fn longer_than(v: Seq<Seq<u32>>, hi: int, lo: int) -> Seq<usize>
    decreases hi - lo,
{
    if lo >= hi {
        Seq::empty()
    } else {
        longer_than(v, hi, lo + 1) + of_len(v, lo + 1, v.len() as int)
    }
}

/// The positions of the non-empty strings of `v`, longest first, those of
/// one length in the order of `v`.
pub open spec fn longest_first(v: Seq<Seq<u32>>) -> Seq<usize> {
    longer_than(v, max_len(v), 0)
}

/// Whether the empty string is one of the strings of `v`.
pub open spec fn has_empty(v: Seq<Seq<u32>>) -> bool {
    exists|k: int| 0 <= k < v.len() && #[trigger] v[k].len() == 0
}

/// A split that tries the next instruction first, else jumps `off` bytes on.
pub open spec fn split_insn(off: int) -> Seq<u8> {
    seq![opcode_byte(OpCode::SplitNextFirst)] + le32(off as u32)
}

/// A jump `off` bytes on.
pub open spec fn goto_insn(off: int) -> Seq<u8> {
    seq![opcode_byte(OpCode::Goto)] + le32(off as u32)
}

/// The single characters as the last alternative: their range, behind a
/// split to the end when the empty string is an alternative too; nothing
/// when there are none.
pub open spec fn chars_part(ignore_case: bool, points: Seq<u32>, empty_too: bool) -> Seq<u8> {
    if points.len() == 0 {
        Seq::empty()
    } else if empty_too {
        split_insn(range_insn(ignore_case, points).len() as int) + range_insn(ignore_case, points)
    } else {
        range_insn(ignore_case, points)
    }
}

/// The alternatives from the `i`-th string of `order` on, then `tail`: each
/// string behind a split to the next alternative and followed by a jump to
/// the end, but for a last string that is the last alternative.
pub open spec fn alts_from(
    ignore_case: bool,
    v: Seq<Seq<u32>>,
    order: Seq<usize>,
    i: int,
    tail: Seq<u8>,
    last_alone: bool,
) -> Seq<u8>
    decreases order.len() - i,
{
    if i >= order.len() || i < 0 {
        tail
    } else {
        let sc = str_code(ignore_case, v[order[i] as int]);
        if last_alone && i == order.len() - 1 {
            sc + tail
        } else {
            let rest = alts_from(ignore_case, v, order, i + 1, tail, last_alone);
            split_insn(sc.len() + 5int) + sc + goto_insn(rest.len() as int) + rest
        }
    }
}

/// The code that matches one of the strings or characters of a string
/// list: the strings longest first, then the characters, then the empty
/// string, each tried in turn. With no string, the range of the characters.
pub open spec fn string_list_code(ignore_case: bool, v: Seq<Seq<u32>>, points: Seq<u32>) -> Seq<u8> {
    if v.len() == 0 {
        range_insn(ignore_case, points)
    } else {
        alts_from(
            ignore_case,
            v,
            longest_first(v),
            0,
            chars_part(ignore_case, points, has_empty(v)),
            !has_empty(v) && points.len() == 0,
        )
    }
}

/// The alternatives from `i` on are no longer than all of them.
proof fn lemma_alts_suffix(
    ignore_case: bool,
    v: Seq<Seq<u32>>,
    order: Seq<usize>,
    i: int,
    tail: Seq<u8>,
    last_alone: bool,
)
    requires
        0 <= i <= order.len(),
    ensures
        alts_from(ignore_case, v, order, i, tail, last_alone).len() <= alts_from(
            ignore_case,
            v,
            order,
            0,
            tail,
            last_alone,
        ).len(),
    decreases i,
{
    if i > 0 {
        lemma_alts_suffix(ignore_case, v, order, i - 1, tail, last_alone);
        if !(last_alone && i - 1 == order.len() - 1) {
            assert(alts_from(ignore_case, v, order, i - 1, tail, last_alone).len() >= alts_from(
                ignore_case,
                v,
                order,
                i,
                tail,
                last_alone,
            ).len());
        }
    }
}

/// Append the bytes of `bytes`.
fn append_bytes(b: &mut BytecodeBuilder, bytes: &Vec<u8>)
    ensures
        final(b)@ == old(b)@ + bytes@,
{
    let mut i: usize = 0;
    while i < bytes.len()
        invariant
            i <= bytes@.len(),
            b@ == old(b)@ + bytes@.take(i as int),
        decreases bytes@.len() - i,
    {
        b.push(bytes[i]);
        assert(bytes@.take(i + 1) =~= bytes@.take(i as int).push(bytes@[i as int]));
        i = i + 1;
    }
    assert(bytes@.take(bytes@.len() as int) =~= bytes@);
}

/// The tests for the characters of `s`.
fn str_insns(ignore_case: bool, s: &Vec<u32>) -> (r: Vec<u8>)
    ensures
        r@ == str_code(ignore_case, s@),
{
    let mut b = BytecodeBuilder::new();
    let mut j: usize = 0;
    while j < s.len()
        invariant
            j <= s@.len(),
            b@ == str_code(ignore_case, s@.take(j as int)),
        decreases s@.len() - j,
    {
        re_emit_char(&mut b, ignore_case, s[j]);
        assert(s@.take(j + 1).drop_last() =~= s@.take(j as int));
        j = j + 1;
    }
    assert(s@.take(s@.len() as int) =~= s@);
    b.into_vec()
}

/// The positions of the non-empty strings, longest first, those of one
/// length in order.
fn longest_first_order(strings: &Vec<Vec<u32>>) -> (r: Vec<usize>)
    ensures
        r@ == longest_first(strings@.map_values(|s: Vec<u32>| s@)),
        forall|j: int| 0 <= j < r@.len() ==> r@[j] < strings@.len(),
{
    let ghost v = strings@.map_values(|s: Vec<u32>| s@);
    let n = strings.len();
    let mut hi: usize = 0;
    let mut k: usize = 0;
    while k < n
        invariant
            n == strings@.len(),
            v == strings@.map_values(|s: Vec<u32>| s@),
            k <= n,
            hi as int == max_len(v.take(k as int)),
        decreases n - k,
    {
        assert(v.take(k + 1).drop_last() =~= v.take(k as int));
        if strings[k].len() > hi {
            hi = strings[k].len();
        }
        k = k + 1;
    }
    assert(v.take(n as int) =~= v);
    let mut order: Vec<usize> = Vec::new();
    let mut l: usize = hi;
    while l > 0
        invariant
            n == strings@.len(),
            v == strings@.map_values(|s: Vec<u32>| s@),
            l <= hi,
            order@ == longer_than(v, hi as int, l as int),
            forall|j: int| 0 <= j < order@.len() ==> order@[j] < n,
        decreases l,
    {
        let ghost base = order@;
        let mut k: usize = 0;
        while k < n
            invariant
                n == strings@.len(),
                v == strings@.map_values(|s: Vec<u32>| s@),
                k <= n,
                order@ == base + of_len(v, l as int, k as int),
                forall|j: int| 0 <= j < order@.len() ==> order@[j] < n,
            decreases n - k,
        {
            if strings[k].len() == l {
                order.push(k);
            }
            proof {
                assert(order@ =~= base + of_len(v, l as int, k + 1));
            }
            k = k + 1;
        }
        l = l - 1;
    }
    order
}

/// Whether the empty string is one of the strings.
fn any_empty(strings: &Vec<Vec<u32>>) -> (r: bool)
    ensures
        r == has_empty(strings@.map_values(|s: Vec<u32>| s@)),
{
    let ghost v = strings@.map_values(|s: Vec<u32>| s@);
    let mut k: usize = 0;
    while k < strings.len()
        invariant
            k <= strings@.len(),
            v == strings@.map_values(|s: Vec<u32>| s@),
            forall|j: int| 0 <= j < k ==> v[j].len() != 0,
        decreases strings@.len() - k,
    {
        if strings[k].len() == 0 {
            assert(v[k as int].len() == 0);
            return true;
        }
        k = k + 1;
    }
    false
}

/// One alternative, then `rest`: the tests for `s`, behind a split to
/// `rest` and followed by a jump over it, unless it is the last one.
fn alt_piece(ignore_case: bool, s: &Vec<u32>, last: bool, rest: &Vec<u8>) -> (r: Vec<u8>)
    requires
        last || str_code(ignore_case, s@).len() + 10 + rest@.len() <= i32::MAX,
    ensures
        r@ == if last {
            str_code(ignore_case, s@) + rest@
        } else {
            split_insn(str_code(ignore_case, s@).len() + 5int) + str_code(ignore_case, s@) + goto_insn(
                rest@.len() as int,
            ) + rest@
        },
{
    let sc = str_insns(ignore_case, s);
    let mut piece = BytecodeBuilder::new();
    if !last {
        piece.emit_op_u32(OpCode::SplitNextFirst, (sc.len() + 5) as u32);
    }
    append_bytes(&mut piece, &sc);
    if !last {
        piece.emit_op_u32(OpCode::Goto, rest.len() as u32);
    }
    append_bytes(&mut piece, rest);
    let r = piece.into_vec();
    proof {
        if last {
            assert(r@ =~= str_code(ignore_case, s@) + rest@);
        } else {
            assert(r@ =~= split_insn(str_code(ignore_case, s@).len() + 5int) + str_code(ignore_case, s@)
                + goto_insn(rest@.len() as int) + rest@);
        }
    }
    r
}

/// Append the code that matches one of the strings or characters of `sl`
/// (see `string_list_code`), or fail with `TooManyRanges`, appending
/// nothing, when its characters hold 65535 intervals or more and a range of
/// them is emitted.
pub fn re_emit_string_list(byte_code: &mut BytecodeBuilder, ignore_case: bool, sl: &StringList) -> (r: Result<(), ErrorKind>)
    requires
        sl@.1.len() % 2 == 0,
        string_list_code(ignore_case, sl@.0, sl@.1).len() <= i32::MAX,
    ensures
        ({
            let (v, points) = sl@;
            if (v.len() == 0 || points.len() > 0) && points.len() / 2 >= RANGE_COUNT_MAX {
                r == Err::<(), ErrorKind>(ErrorKind::TooManyRanges) && final(byte_code)@ == old(byte_code)@
            } else {
                r is Ok && final(byte_code)@ == old(byte_code)@ + string_list_code(ignore_case, v, points)
            }
        }),
{
    let ghost v = sl@.0;
    let ghost points = sl@.1;
    let n = sl.strings.len();
    if n == 0 {
        return re_emit_range(byte_code, ignore_case, &sl.cr);
    }
    let np = sl.cr.points.len();
    if np > 0 && np / 2 >= RANGE_COUNT_MAX {
        return Err(ErrorKind::TooManyRanges);
    }
    let order = longest_first_order(&sl.strings);
    let empty_too = any_empty(&sl.strings);
    let last_alone = !empty_too && np == 0;
    let ghost tail = chars_part(ignore_case, points, empty_too);
    let ghost ord = order@;
    proof {
        lemma_alts_suffix(ignore_case, v, ord, ord.len() as int, tail, last_alone);
    }
    // the characters, as the last alternative but for the empty string
    let mut tail_b = BytecodeBuilder::new();
    if np > 0 {
        let mut range = BytecodeBuilder::new();
        let _ = re_emit_range(&mut range, ignore_case, &sl.cr);
        let range_v = range.into_vec();
        if empty_too {
            tail_b.emit_op_u32(OpCode::SplitNextFirst, range_v.len() as u32);
        }
        append_bytes(&mut tail_b, &range_v);
    }
    let mut cur = tail_b.into_vec();
    proof {
        assert(cur@ =~= tail);
    }
    // the strings, built from the last alternative back
    let mut i = order.len();
    while i > 0
        invariant
            n == sl.strings@.len(),
            v == sl@.0,
            ord == order@,
            i <= ord.len(),
            forall|j: int| 0 <= j < ord.len() ==> ord[j] < n,
            last_alone == (!has_empty(v) && points.len() == 0),
            tail == chars_part(ignore_case, points, has_empty(v)),
            alts_from(ignore_case, v, ord, 0, tail, last_alone).len() <= i32::MAX,
            cur@ == alts_from(ignore_case, v, ord, i as int, tail, last_alone),
        decreases i,
    {
        i = i - 1;
        proof {
            lemma_alts_suffix(ignore_case, v, ord, i as int, tail, last_alone);
        }
        let ghost k = ord[i as int] as int;
        let ghost rest = cur@;
        let is_last = last_alone && i == order.len() - 1;
        proof {
            assert(v[k] == sl.strings@[k]@);
            let sc = str_code(ignore_case, v[k]);
            if !is_last {
                assert(alts_from(ignore_case, v, ord, i as int, tail, last_alone) == split_insn(sc.len() + 5int) + sc
                    + goto_insn(rest.len() as int) + rest);
            }
        }
        cur = alt_piece(ignore_case, &sl.strings[order[i]], is_last, &cur);
        proof {
            assert(cur@ =~= alts_from(ignore_case, v, ord, i as int, tail, last_alone));
        }
    }
    append_bytes(byte_code, &cur);
    Ok(())
}

} // verus!
