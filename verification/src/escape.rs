//! Parsing of the escape sequences shared by string and regex literals:
//! the byte after a backslash and what follows it.
use vstd::prelude::*;

verus! {

/// The byte at `i`; the buffer reads as NUL-terminated, so 0 past its end.
pub open spec fn at(buf: Seq<u8>, i: int) -> int {
    if 0 <= i < buf.len() {
        buf[i] as int
    } else {
        0
    }
}

/// The value of a hexadecimal digit, or -1.
pub open spec fn hex_value(c: int) -> int {
    if 48 <= c <= 57 {
        c - 48
    } else if 65 <= c <= 70 {
        c - 55
    } else if 97 <= c <= 102 {
        c - 87
    } else {
        -1
    }
}

/// The value of the four hex digits at `q`, or -1 when one is not a digit.
pub open spec fn hex4(buf: Seq<u8>, q: int) -> int {
    let a = hex_value(at(buf, q));
    let b = hex_value(at(buf, q + 1));
    let c = hex_value(at(buf, q + 2));
    let d = hex_value(at(buf, q + 3));
    if a < 0 || b < 0 || c < 0 || d < 0 {
        -1
    } else {
        ((a * 16 + b) * 16 + c) * 16 + d
    }
}

/// The digits of a `\u{...}` escape from `q` on, after the value `c` read so
/// far: the code point and the position after `}`, or -1.
pub open spec fn brace_digits(buf: Seq<u8>, q: int, c: int) -> (int, int)
    decreases buf.len() + 1 - q,
{
    let h = hex_value(at(buf, q));
    if h < 0 || q < 0 || q > buf.len() {
        (-1, q)
    } else if c * 16 + h > 0x10FFFF {
        (-1, q)
    } else if at(buf, q + 1) == 125 {
        (c * 16 + h, q + 2)
    } else {
        brace_digits(buf, q + 1, c * 16 + h)
    }
}

/// The escape at `p` (the byte after the backslash): its value and the
/// position after it; -1 for a malformed escape, -2 for a byte that does not
/// start one of these escapes. `allow_utf16` is 0, 1 (allow `\u{...}`) or 2
/// (Unicode mode: also surrogate pairs of `\u` escapes, and no octal).
pub open spec fn spec_parse_escape(buf: Seq<u8>, p: int, allow_utf16: int) -> (int, int) {
    let c = at(buf, p);
    let p1 = p + 1;
    if c == 98 {
        (8, p1)
    } else if c == 102 {
        (12, p1)
    } else if c == 110 {
        (10, p1)
    } else if c == 114 {
        (13, p1)
    } else if c == 116 {
        (9, p1)
    } else if c == 118 {
        (11, p1)
    } else if c == 120 {
        let h0 = hex_value(at(buf, p1));
        let h1 = hex_value(at(buf, p1 + 1));
        if h0 < 0 || h1 < 0 {
            (-1, p)
        } else {
            (h0 * 16 + h1, p1 + 2)
        }
    } else if c == 117 {
        if at(buf, p1) == 123 && allow_utf16 != 0 {
            brace_digits(buf, p1 + 1, 0)
        } else {
            let v = hex4(buf, p1);
            if v < 0 {
                (-1, p)
            } else {
                let q = p1 + 4;
                let c1 = hex4(buf, q + 2);
                if 0xD800 <= v <= 0xDBFF && allow_utf16 == 2 && at(buf, q) == 92 && at(buf, q + 1)
                    == 117 && 0xDC00 <= c1 <= 0xDFFF {
                    (0x10000 + 0x400 * (v - 0xD800) + (c1 - 0xDC00), q + 6)
                } else {
                    (v, q)
                }
            }
        }
    } else if 48 <= c <= 55 {
        let d = c - 48;
        if allow_utf16 == 2 {
            if d != 0 || (48 <= at(buf, p1) <= 57) {
                (-1, p)
            } else {
                (0, p1)
            }
        } else {
            let v = at(buf, p1) - 48;
            if 0 <= v <= 7 {
                let d2 = d * 8 + v;
                if d2 >= 32 {
                    (d2, p1 + 1)
                } else {
                    let v2 = at(buf, p1 + 1) - 48;
                    if 0 <= v2 <= 7 {
                        (d2 * 8 + v2, p1 + 2)
                    } else {
                        (d2, p1 + 1)
                    }
                }
            } else {
                (d, p1)
            }
        }
    } else {
        (-2, p)
    }
}

/// The byte at `i`, or 0 past the end.
fn byte(buf: &[u8], i: usize) -> (r: i32)
    ensures
        r == at(buf@, i as int),
{
    if i < buf.len() {
        buf[i] as i32
    } else {
        0
    }
}

/// Whether `c` is a high (leading) surrogate code unit.
pub fn is_hi_surrogate(c: i32) -> (r: bool)
    ensures
        r == (0xD800 <= c <= 0xDBFF),
{
    0xD800 <= c && c <= 0xDBFF
}

/// Whether `c` is a low (trailing) surrogate code unit.
pub fn is_lo_surrogate(c: i32) -> (r: bool)
    ensures
        r == (0xDC00 <= c <= 0xDFFF),
{
    0xDC00 <= c && c <= 0xDFFF
}

/// The code point that a surrogate pair stands for.
pub fn from_surrogate(hi: i32, lo: i32) -> (r: i32)
    requires
        0xD800 <= hi <= 0xDBFF,
        0xDC00 <= lo <= 0xDFFF,
    ensures
        r == 0x10000 + 0x400 * (hi - 0xD800) + (lo - 0xDC00),
        0x10000 <= r <= 0x10FFFF,
{
    0x10000 + 0x400 * (hi - 0xD800) + (lo - 0xDC00)
}

/// The value of a hexadecimal digit, or -1.
fn from_hex(c: i32) -> (r: i32)
    ensures
        r == hex_value(c as int),
{
    if c >= 48 && c <= 57 {
        c - 48
    } else if c >= 65 && c <= 70 {
        c - 55
    } else if c >= 97 && c <= 102 {
        c - 87
    } else {
        -1
    }
}

/// The value of the four hex digits at `q`, or -1.
fn read_hex4(buf: &[u8], q: usize) -> (r: i32)
    requires
        q + 4 <= usize::MAX,
    ensures
        r == hex4(buf@, q as int),
{
    let a = from_hex(byte(buf, q));
    let b = from_hex(byte(buf, q + 1));
    let c = from_hex(byte(buf, q + 2));
    let d = from_hex(byte(buf, q + 3));
    if a < 0 || b < 0 || c < 0 || d < 0 {
        -1
    } else {
        ((a * 16 + b) * 16 + c) * 16 + d
    }
}

/// Parse the escape whose letter is at `*pos`. On success (a result of at
/// least 0) the value is returned and `*pos` moves past the escape; -1
/// reports a malformed escape and -2 a letter that starts none of these
/// escapes, with `*pos` unchanged.
pub fn lre_parse_escape(buf: &[u8], pos: &mut usize, allow_utf16: i32) -> (r: i32)
    requires
        buf@.len() + 16 <= usize::MAX,
        *old(pos) <= buf@.len(),
    ensures
        r == spec_parse_escape(buf@, *old(pos) as int, allow_utf16 as int).0,
        r >= 0 ==> *final(pos) == spec_parse_escape(buf@, *old(pos) as int, allow_utf16 as int).1,
        r < 0 ==> *final(pos) == *old(pos),
{
    let p = *pos;
    let c = byte(buf, p);
    let p1 = p + 1;
    if c == 98 {
        *pos = p1;
        8
    } else if c == 102 {
        *pos = p1;
        12
    } else if c == 110 {
        *pos = p1;
        10
    } else if c == 114 {
        *pos = p1;
        13
    } else if c == 116 {
        *pos = p1;
        9
    } else if c == 118 {
        *pos = p1;
        11
    } else if c == 120 {
        let h0 = from_hex(byte(buf, p1));
        let h1 = from_hex(byte(buf, p1 + 1));
        if h0 < 0 || h1 < 0 {
            -1
        } else {
            *pos = p1 + 2;
            h0 * 16 + h1
        }
    } else if c == 117 {
        if byte(buf, p1) == 123 && allow_utf16 != 0 {
            let mut q = p1 + 1;
            let mut v: i32 = 0;
            loop
                invariant
                    buf@.len() + 16 <= usize::MAX,
                    0 <= v <= 0x10FFFF,
                    p + 2 <= q <= buf@.len() + 1,
                    brace_digits(buf@, q as int, v as int) == spec_parse_escape(
                        buf@,
                        p as int,
                        allow_utf16 as int,
                    ),
                    *pos == p,
                p == *old(pos),
                allow_utf16 != 0,
                at(buf@, p + 1) == 123,
                at(buf@, p as int) == 117,
                decreases buf@.len() + 1 - q,
            {
                let h = from_hex(byte(buf, q));
                if h < 0 {
                    return -1;
                }
                if v * 16 + h > 0x10FFFF {
                    return -1;
                }
                v = v * 16 + h;
                if byte(buf, q + 1) == 125 {
                    *pos = q + 2;
                    return v;
                }
                q = q + 1;
            }
        } else {
            let v = read_hex4(buf, p1);
            if v < 0 {
                return -1;
            }
            let q = p1 + 4;
            if is_hi_surrogate(v) && allow_utf16 == 2 && byte(buf, q) == 92 && byte(buf, q + 1)
                == 117 {
                let c1 = read_hex4(buf, q + 2);
                if is_lo_surrogate(c1) {
                    *pos = q + 6;
                    return from_surrogate(v, c1);
                }
            }
            *pos = q;
            v
        }
    } else if 48 <= c && c <= 55 {
        let d = c - 48;
        if allow_utf16 == 2 {
            let nx = byte(buf, p1);
            if d != 0 || (48 <= nx && nx <= 57) {
                -1
            } else {
                *pos = p1;
                0
            }
        } else {
            let v = byte(buf, p1) - 48;
            if 0 <= v && v <= 7 {
                let d2 = d * 8 + v;
                if d2 >= 32 {
                    *pos = p1 + 1;
                    d2
                } else {
                    let v2 = byte(buf, p1 + 1) - 48;
                    if 0 <= v2 && v2 <= 7 {
                        *pos = p1 + 2;
                        d2 * 8 + v2
                    } else {
                        *pos = p1 + 1;
                        d2
                    }
                }
            } else {
                *pos = p1;
                d
            }
        }
    } else {
        -2
    }
}

} // verus!
