//! Small helpers over `char` and `String` that the parser and the error
//! messages share.
use vstd::prelude::*;

verus! {

/// Whether `v` is a Unicode scalar value, i.e. the code of some `char`.
pub open spec fn is_scalar(v: u32) -> bool {
    v <= 0xD7FF || (0xE000 <= v && v <= 0x10FFFF)
}

/// A char is the char of its code.
pub proof fn lemma_char_of_code(c: char, v: u32)
    requires
        c as u32 == v,
    ensures
        c == v as char,
{
}

/// The value of an ASCII decimal digit.
pub open spec fn dec_val(c: char) -> Option<u32> {
    if '0' <= c && c <= '9' {
        Some((c as u32 - 48) as u32)
    } else {
        None
    }
}

/// The value of an ASCII hexadecimal digit.
pub open spec fn hex_val(c: char) -> Option<u32> {
    if '0' <= c && c <= '9' {
        Some((c as u32 - 48) as u32)
    } else if 'a' <= c && c <= 'f' {
        Some((c as u32 - 87) as u32)
    } else if 'A' <= c && c <= 'F' {
        Some((c as u32 - 55) as u32)
    } else {
        None
    }
}

/// The value of a decimal digit, if `c` is one.
pub fn dec_digit(c: char) -> (r: Option<u32>)
    ensures
        r == dec_val(c),
{
    if '0' <= c && c <= '9' {
        Some(c as u32 - 48)
    } else {
        None
    }
}

/// The value of a hexadecimal digit, if `c` is one.
pub fn hex_digit(c: char) -> (r: Option<u32>)
    ensures
        r == hex_val(c),
{
    if '0' <= c && c <= '9' {
        Some(c as u32 - 48)
    } else if 'a' <= c && c <= 'f' {
        Some(c as u32 - 87)
    } else if 'A' <= c && c <= 'F' {
        Some(c as u32 - 55)
    } else {
        None
    }
}

/// Whether a char is alphabetic or numeric by the Unicode tables of
/// `char::is_alphanumeric`.
pub uninterp spec fn std_is_alphanumeric(c: char) -> bool;

/// Calls `char::is_alphanumeric`: true if the char is alphabetic or numeric
/// in Unicode. The contract states what its documentation gives for ASCII
/// (letters and digits are, other ASCII chars are not); beyond ASCII the
/// result is only named.
#[verifier::external_body]
pub(crate) fn char_is_alphanumeric(c: char) -> (r: bool)
    ensures
        r == std_is_alphanumeric(c),
        ('a' <= c <= 'z') || ('A' <= c <= 'Z') || ('0' <= c <= '9') ==> r,
        (c as u32) < 128 && !(('a' <= c <= 'z') || ('A' <= c <= 'Z') || ('0' <= c <= '9')) ==> !r,
{
    c.is_alphanumeric()
}

/// Calls `char::from_u32`: `Some` exactly for Unicode scalar values, and
/// then the char with that code.
#[verifier::external_body]
pub(crate) fn char_from_u32(v: u32) -> (r: Option<char>)
    ensures
        r is Some <==> is_scalar(v),
        r matches Some(c) ==> c as u32 == v,
{
    char::from_u32(v)
}

/// Calls `String::push`: appends the char at the end.
#[verifier::external_body]
pub(crate) fn string_push(s: &mut String, c: char)
    ensures
        final(s)@ == old(s)@.push(c),
{
    s.push(c)
}

/// Whether a vector of chars spells exactly the given chars.
pub fn chars_equal(a: &Vec<char>, b: &[char]) -> (r: bool)
    ensures
        r == (a@ == b@),
{
    if a.len() != b.len() {
        return false;
    }
    let mut i: usize = 0;
    while i < a.len()
        invariant
            a@.len() == b@.len(),
            0 <= i <= a@.len(),
            forall|j: int| 0 <= j < i ==> a@[j] == b@[j],
        decreases a@.len() - i,
    {
        if a[i] != b[i] {
            return false;
        }
        i = i + 1;
    }
    assert(a@ =~= b@);
    true
}

/// The chars of a string, in order.
pub fn str_chars(s: &str) -> (v: Vec<char>)
    ensures
        v@ == s@,
{
    let mut v: Vec<char> = Vec::new();
    for c in it: s.chars()
        invariant
            v@ == it.seq().take(it.index() as int),
    {
        v.push(c);
        assert(v@ =~= it.seq().take(it.index() + 1));
    }
    v
}

} // verus!
