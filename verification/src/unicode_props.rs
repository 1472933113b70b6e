//! The character ranges that `\p{..}` property names stand for.
use vstd::prelude::*;
use crate::support::chars_equal;

verus! {

/// Common Unicode letter ranges (Latin, Greek, Cyrillic, Arabic, CJK, ...).
pub open spec fn letter_ranges() -> Seq<(char, char)> {
    seq![
        ('A', 'Z'), ('a', 'z'),
        ('\u{00C0}', '\u{00D6}'), ('\u{00D8}', '\u{00F6}'), ('\u{00F8}', '\u{024F}'),
        ('\u{0370}', '\u{03FF}'),
        ('\u{0400}', '\u{04FF}'),
        ('\u{0500}', '\u{052F}'),
        ('\u{0530}', '\u{058F}'),
        ('\u{0590}', '\u{05FF}'),
        ('\u{0600}', '\u{06FF}'),
        ('\u{0900}', '\u{097F}'),
        ('\u{0980}', '\u{09FF}'),
        ('\u{0E00}', '\u{0E7F}'),
        ('\u{1000}', '\u{109F}'),
        ('\u{1100}', '\u{11FF}'),
        ('\u{3040}', '\u{309F}'),
        ('\u{30A0}', '\u{30FF}'),
        ('\u{3400}', '\u{4DBF}'),
        ('\u{4E00}', '\u{9FFF}'),
        ('\u{AC00}', '\u{D7AF}'),
        ('\u{F900}', '\u{FAFF}'),
        ('\u{10000}', '\u{1007F}'),
        ('\u{1F000}', '\u{1F02F}'),
    ]
}

/// The char ranges a Unicode property name stands for; an unknown name
/// stands for every code point.
pub open spec fn property_ranges(name: Seq<char>) -> Seq<(char, char)> {
    if name == seq!['L'] || name == seq!['L', 'e', 't', 't', 'e', 'r'] {
        letter_ranges()
    } else if name == seq!['L', 'u'] || name == seq![
        'U', 'p', 'p', 'e', 'r', 'c', 'a', 's', 'e', '_', 'L', 'e', 't', 't', 'e', 'r'
    ] {
        seq![('A', 'Z'), ('\u{00C0}', '\u{00D6}'), ('\u{00D8}', '\u{00DE}'), ('\u{0100}', '\u{0100}')]
    } else if name == seq!['L', 'l'] || name == seq![
        'L', 'o', 'w', 'e', 'r', 'c', 'a', 's', 'e', '_', 'L', 'e', 't', 't', 'e', 'r'
    ] {
        seq![('a', 'z'), ('\u{00DF}', '\u{00F6}'), ('\u{00F8}', '\u{00FF}')]
    } else if name == seq!['N'] || name == seq!['N', 'u', 'm', 'b', 'e', 'r'] || name == seq![
        'N', 'd'
    ] || name == seq!['D', 'e', 'c', 'i', 'm', 'a', 'l', '_', 'N', 'u', 'm', 'b', 'e', 'r'] {
        seq![('0', '9'), ('\u{0660}', '\u{0669}'), ('\u{06F0}', '\u{06F9}')]
    } else if name == seq!['P'] || name == seq![
        'P', 'u', 'n', 'c', 't', 'u', 'a', 't', 'i', 'o', 'n'
    ] {
        seq![('!', '/'), (':', '@'), ('[', '`'), ('{', '~'), ('\u{00A1}', '\u{00BF}')]
    } else if name == seq!['S'] || name == seq!['S', 'y', 'm', 'b', 'o', 'l'] {
        seq![('$', '$'), ('+', '+'), ('<', '>'), ('^', '^'), ('`', '`'), ('|', '|'), ('~', '~')]
    } else if name == seq!['Z'] || name == seq!['S', 'e', 'p', 'a', 'r', 'a', 't', 'o', 'r']
        || name == seq!['Z', 's'] || name == seq![
        'S', 'p', 'a', 'c', 'e', '_', 'S', 'e', 'p', 'a', 'r', 'a', 't', 'o', 'r'
    ] {
        seq![(' ', ' '), ('\u{00A0}', '\u{00A0}'), ('\u{2000}', '\u{200A}')]
    } else if name == seq!['A', 'S', 'C', 'I', 'I'] {
        seq![('\0', '\x7F')]
    } else {
        seq![('\0', '\u{10FFFF}')]
    }
}

/// The char ranges of a Unicode property name.
pub fn property_ranges_of(name: &Vec<char>) -> (r: Vec<(char, char)>)
    ensures
        r@ == property_ranges(name@),
{
    let n0: &[char] = &['L'];
    proof {
        assert(n0@ =~= seq!['L']);
    }
    let n1: &[char] = &['L', 'e', 't', 't', 'e', 'r'];
    proof {
        assert(n1@ =~= seq!['L', 'e', 't', 't', 'e', 'r']);
    }
    if chars_equal(name, n0) || chars_equal(name, n1) {
        return unicode_letter_ranges();
    }
    let n2: &[char] = &['L', 'u'];
    proof {
        assert(n2@ =~= seq!['L', 'u']);
    }
    let n3: &[char] = &['U', 'p', 'p', 'e', 'r', 'c', 'a', 's', 'e', '_', 'L', 'e', 't', 't', 'e', 'r'];
    proof {
        assert(n3@ =~= seq!['U', 'p', 'p', 'e', 'r', 'c', 'a', 's', 'e', '_', 'L', 'e', 't', 't', 'e', 'r']);
    }
    if chars_equal(name, n2) || chars_equal(name, n3) {
        return vec![('A', 'Z'), ('\u{00C0}', '\u{00D6}'), ('\u{00D8}', '\u{00DE}'), ('\u{0100}', '\u{0100}')];
    }
    let n4: &[char] = &['L', 'l'];
    proof {
        assert(n4@ =~= seq!['L', 'l']);
    }
    let n5: &[char] = &['L', 'o', 'w', 'e', 'r', 'c', 'a', 's', 'e', '_', 'L', 'e', 't', 't', 'e', 'r'];
    proof {
        assert(n5@ =~= seq!['L', 'o', 'w', 'e', 'r', 'c', 'a', 's', 'e', '_', 'L', 'e', 't', 't', 'e', 'r']);
    }
    if chars_equal(name, n4) || chars_equal(name, n5) {
        return vec![('a', 'z'), ('\u{00DF}', '\u{00F6}'), ('\u{00F8}', '\u{00FF}')];
    }
    let n6: &[char] = &['N'];
    proof {
        assert(n6@ =~= seq!['N']);
    }
    let n7: &[char] = &['N', 'u', 'm', 'b', 'e', 'r'];
    proof {
        assert(n7@ =~= seq!['N', 'u', 'm', 'b', 'e', 'r']);
    }
    let n8: &[char] = &['N', 'd'];
    proof {
        assert(n8@ =~= seq!['N', 'd']);
    }
    let n9: &[char] = &['D', 'e', 'c', 'i', 'm', 'a', 'l', '_', 'N', 'u', 'm', 'b', 'e', 'r'];
    proof {
        assert(n9@ =~= seq!['D', 'e', 'c', 'i', 'm', 'a', 'l', '_', 'N', 'u', 'm', 'b', 'e', 'r']);
    }
    if chars_equal(name, n6) || chars_equal(name, n7) || chars_equal(name, n8) || chars_equal(name, n9) {
        return vec![('0', '9'), ('\u{0660}', '\u{0669}'), ('\u{06F0}', '\u{06F9}')];
    }
    let n10: &[char] = &['P'];
    proof {
        assert(n10@ =~= seq!['P']);
    }
    let n11: &[char] = &['P', 'u', 'n', 'c', 't', 'u', 'a', 't', 'i', 'o', 'n'];
    proof {
        assert(n11@ =~= seq!['P', 'u', 'n', 'c', 't', 'u', 'a', 't', 'i', 'o', 'n']);
    }
    if chars_equal(name, n10) || chars_equal(name, n11) {
        return vec![('!', '/'), (':', '@'), ('[', '`'), ('{', '~'), ('\u{00A1}', '\u{00BF}')];
    }
    let n12: &[char] = &['S'];
    proof {
        assert(n12@ =~= seq!['S']);
    }
    let n13: &[char] = &['S', 'y', 'm', 'b', 'o', 'l'];
    proof {
        assert(n13@ =~= seq!['S', 'y', 'm', 'b', 'o', 'l']);
    }
    if chars_equal(name, n12) || chars_equal(name, n13) {
        return vec![('$', '$'), ('+', '+'), ('<', '>'), ('^', '^'), ('`', '`'), ('|', '|'), ('~', '~')];
    }
    let n14: &[char] = &['Z'];
    proof {
        assert(n14@ =~= seq!['Z']);
    }
    let n15: &[char] = &['S', 'e', 'p', 'a', 'r', 'a', 't', 'o', 'r'];
    proof {
        assert(n15@ =~= seq!['S', 'e', 'p', 'a', 'r', 'a', 't', 'o', 'r']);
    }
    let n16: &[char] = &['Z', 's'];
    proof {
        assert(n16@ =~= seq!['Z', 's']);
    }
    let n17: &[char] = &['S', 'p', 'a', 'c', 'e', '_', 'S', 'e', 'p', 'a', 'r', 'a', 't', 'o', 'r'];
    proof {
        assert(n17@ =~= seq!['S', 'p', 'a', 'c', 'e', '_', 'S', 'e', 'p', 'a', 'r', 'a', 't', 'o', 'r']);
    }
    if chars_equal(name, n14) || chars_equal(name, n15) || chars_equal(name, n16) || chars_equal(name, n17) {
        return vec![(' ', ' '), ('\u{00A0}', '\u{00A0}'), ('\u{2000}', '\u{200A}')];
    }
    let n18: &[char] = &['A', 'S', 'C', 'I', 'I'];
    proof {
        assert(n18@ =~= seq!['A', 'S', 'C', 'I', 'I']);
    }
    if chars_equal(name, n18) {
        return vec![('\0', '\x7F')];
    }
    // Unknown property: every code point
    vec![('\0', '\u{10FFFF}')]
}

/// Common Unicode letter ranges (covers Latin, Cyrillic, Greek, Arabic, CJK, etc.)
pub fn unicode_letter_ranges() -> (r: Vec<(char, char)>)
    ensures
        r@ == letter_ranges(),
{
    vec![
        ('A', 'Z'), ('a', 'z'),
        ('\u{00C0}', '\u{00D6}'), ('\u{00D8}', '\u{00F6}'), ('\u{00F8}', '\u{024F}'),
        ('\u{0370}', '\u{03FF}'),
        ('\u{0400}', '\u{04FF}'),
        ('\u{0500}', '\u{052F}'),
        ('\u{0530}', '\u{058F}'),
        ('\u{0590}', '\u{05FF}'),
        ('\u{0600}', '\u{06FF}'),
        ('\u{0900}', '\u{097F}'),
        ('\u{0980}', '\u{09FF}'),
        ('\u{0E00}', '\u{0E7F}'),
        ('\u{1000}', '\u{109F}'),
        ('\u{1100}', '\u{11FF}'),
        ('\u{3040}', '\u{309F}'),
        ('\u{30A0}', '\u{30FF}'),
        ('\u{3400}', '\u{4DBF}'),
        ('\u{4E00}', '\u{9FFF}'),
        ('\u{AC00}', '\u{D7AF}'),
        ('\u{F900}', '\u{FAFF}'),
        ('\u{10000}', '\u{1007F}'),
        ('\u{1F000}', '\u{1F02F}'),
    ]
}

} // verus!
