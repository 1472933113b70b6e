//! Capture groups seen from the pattern text and from the table of group
//! names: a quick scan that counts the groups of a pattern, and lookups of a
//! name in the table, where each group has an entry made of its name, a NUL
//! byte and the scope byte of the alternative that declared it.
use vstd::prelude::*;

verus! {

/// Most capture groups a program may have, group 0 included.
pub const CAPTURE_COUNT_MAX: i32 = 255;

/// Bytes that follow the name in an entry of the group-name table: the NUL
/// terminator and the scope byte.
pub const LRE_GROUP_NAME_TRAILER_LEN: usize = 2;

/// Byte `i` of the pattern, or 0 past its end (pattern text is read as if
/// NUL-terminated).
pub open spec fn byte_or_nul(s: Seq<u8>, i: int) -> u8 {
    if 0 <= i < s.len() {
        s[i]
    } else {
        0
    }
}

/// Position of the `]` that closes a class whose contents start at `q`,
/// skipping escaped bytes; the end of the text when there is none.
pub open spec fn class_end(s: Seq<u8>, q: int) -> int
    decreases s.len() - q,
{
    if q < 0 || q >= s.len() {
        s.len() as int
    } else if s[q] == 93 {
        q
    } else if s[q] == 92 {
        class_end(s, if q + 2 >= s.len() { s.len() as int } else { q + 2 })
    } else {
        class_end(s, q + 1)
    }
}

/// Counting scan of the pattern from `p`, with `idx` groups counted so far
/// and `named` whether one of them was named: a `(` not followed by `?`
/// opens a group, as does `(?<` not followed by `=` or `!` (a named group);
/// an escaped byte and the contents of a class are skipped; the scan stops as
/// soon as the count reaches `CAPTURE_COUNT_MAX`.
pub open spec fn cap_scan(s: Seq<u8>, p: int, idx: int, named: bool) -> (int, bool)
    decreases s.len() - p,
{
    if p < 0 || p >= s.len() {
        (idx, named)
    } else if s[p] == 40 {
        if byte_or_nul(s, p + 1) == 63 {
            if byte_or_nul(s, p + 2) == 60 && byte_or_nul(s, p + 3) != 61 && byte_or_nul(s, p + 3)
                != 33 {
                if idx + 1 >= CAPTURE_COUNT_MAX {
                    (idx + 1, true)
                } else {
                    cap_scan(s, p + 1, idx + 1, true)
                }
            } else {
                cap_scan(s, p + 1, idx, named)
            }
        } else if idx + 1 >= CAPTURE_COUNT_MAX {
            (idx + 1, named)
        } else {
            cap_scan(s, p + 1, idx + 1, named)
        }
    } else if s[p] == 92 {
        cap_scan(s, if p + 2 >= s.len() { s.len() as int } else { p + 2 }, idx, named)
    } else if s[p] == 91 {
        let e = class_end(s, p + 1);
        proof {
            lemma_class_end_bounds(s, p + 1);
        }
        cap_scan(s, if e + 1 >= s.len() { s.len() as int } else { e + 1 }, idx, named)
    } else {
        cap_scan(s, p + 1, idx, named)
    }
}

/// The closing position found from `q` lies between `q` and the end.
pub proof fn lemma_class_end_bounds(s: Seq<u8>, q: int)
    requires
        0 <= q,
    ensures
        q <= class_end(s, q) || q > s.len(),
        class_end(s, q) <= s.len(),
    decreases s.len() - q,
{
    if q < s.len() && s[q] != 93 {
        if s[q] == 92 {
            lemma_class_end_bounds(s, if q + 2 >= s.len() { s.len() as int } else { q + 2 });
        } else {
            lemma_class_end_bounds(s, q + 1);
        }
    }
}

/// Every count the scan returns lies between the count it starts from and
/// `CAPTURE_COUNT_MAX`.
proof fn lemma_cap_scan_bounds(s: Seq<u8>, p: int, idx: int, named: bool)
    requires
        1 <= idx < CAPTURE_COUNT_MAX,
    ensures
        idx <= cap_scan(s, p, idx, named).0 <= CAPTURE_COUNT_MAX,
        named ==> cap_scan(s, p, idx, named).1,
    decreases s.len() - p,
{
    if 0 <= p < s.len() {
        if s[p] == 40 {
            if byte_or_nul(s, p + 1) == 63 {
                if byte_or_nul(s, p + 2) == 60 && byte_or_nul(s, p + 3) != 61 && byte_or_nul(
                    s,
                    p + 3,
                ) != 33 {
                    if idx + 1 < CAPTURE_COUNT_MAX {
                        lemma_cap_scan_bounds(s, p + 1, idx + 1, true);
                    }
                } else {
                    lemma_cap_scan_bounds(s, p + 1, idx, named);
                }
            } else if idx + 1 < CAPTURE_COUNT_MAX {
                lemma_cap_scan_bounds(s, p + 1, idx + 1, named);
            }
        } else if s[p] == 92 {
            lemma_cap_scan_bounds(s, if p + 2 >= s.len() { s.len() as int } else { p + 2 }, idx, named);
        } else if s[p] == 91 {
            let e = class_end(s, p + 1);
            lemma_class_end_bounds(s, p + 1);
            lemma_cap_scan_bounds(s, if e + 1 >= s.len() { s.len() as int } else { e + 1 }, idx, named);
        } else {
            lemma_cap_scan_bounds(s, p + 1, idx, named);
        }
    }
}

/// Count the capture groups of a pattern, group 0 included, by the quick
/// scan that runs before parsing (so that back references may name groups
/// that come later), and say whether one of them is named.
pub fn re_count_captures(buf: &[u8]) -> (r: (i32, bool))
    ensures
        r.0 == cap_scan(buf@, 0, 1, false).0,
        r.1 == cap_scan(buf@, 0, 1, false).1,
        1 <= r.0 <= CAPTURE_COUNT_MAX,
{
    proof {
        lemma_cap_scan_bounds(buf@, 0, 1, false);
    }
    let n = buf.len();
    let mut capture_index: i32 = 1;
    let mut has_named = false;
    let mut p: usize = 0;
    while p < n
        invariant_except_break
            cap_scan(buf@, p as int, capture_index as int, has_named) == cap_scan(buf@, 0, 1, false),
            1 <= capture_index < CAPTURE_COUNT_MAX,
        invariant
            n == buf@.len(),
            p <= n,
        ensures
            cap_scan(buf@, 0, 1, false) == (capture_index as int, has_named),
        decreases n - p,
    {
        let c = buf[p];
        if c == 40 {
            let c1 = if p + 1 < n { buf[p + 1] } else { 0 };
            if c1 == 63 {
                let c2 = if n - p > 2 { buf[p + 2] } else { 0 };
                let c3 = if n - p > 3 { buf[p + 3] } else { 0 };
                if c2 == 60 && c3 != 61 && c3 != 33 {
                    has_named = true;
                    capture_index = capture_index + 1;
                    if capture_index >= CAPTURE_COUNT_MAX {
                        break;
                    }
                }
            } else {
                capture_index = capture_index + 1;
                if capture_index >= CAPTURE_COUNT_MAX {
                    break;
                }
            }
            p = p + 1;
        } else if c == 92 {
            if n - p <= 2 {
                p = n;
            } else {
                p = p + 2;
            }
        } else if c == 91 {
            let mut q: usize = p + 1;
            while q < n && buf[q] != 93
                invariant
                    n == buf@.len(),
                    p < q,
                    q <= n,
                    class_end(buf@, q as int) == class_end(buf@, p + 1),
                decreases n - q,
            {
                if buf[q] == 92 {
                    if n - q <= 2 {
                        q = n;
                    } else {
                        q = q + 2;
                    }
                } else {
                    q = q + 1;
                }
            }
            proof {
                lemma_class_end_bounds(buf@, p + 1);
            }
            if q >= n {
                p = n;
            } else {
                p = q + 1;
            }
        } else {
            p = p + 1;
        }
    }
    (capture_index, has_named)
}

/// Length of the NUL-terminated name at `p` of the table (it stops at the end
/// of the table when no NUL follows).
pub open spec fn name_len(b: Seq<u8>, p: int) -> nat
    decreases b.len() - p,
{
    if p < 0 || p >= b.len() || b[p] == 0 {
        0
    } else {
        1 + name_len(b, p + 1)
    }
}

/// The entry of the table at `p` holds exactly `name`.
pub open spec fn entry_is(b: Seq<u8>, p: int, name: Seq<u8>) -> bool {
    name_len(b, p) == name.len() && b.subrange(p, p + name.len()) == name
}

/// Start of the entry that follows the one at `p`.
pub open spec fn next_entry(b: Seq<u8>, p: int) -> int {
    if p + name_len(b, p) + LRE_GROUP_NAME_TRAILER_LEN >= b.len() {
        b.len() as int
    } else {
        p + name_len(b, p) + LRE_GROUP_NAME_TRAILER_LEN
    }
}

/// The capture indices of the entries from `p` on that hold `name`, the entry
/// at `p` having index `idx`.
pub open spec fn name_hits(b: Seq<u8>, p: int, idx: int, name: Seq<u8>) -> Seq<int>
    decreases b.len() - p,
{
    if p < 0 || p >= b.len() {
        Seq::empty()
    } else {
        let rest = name_hits(b, next_entry(b, p), idx + 1, name);
        if entry_is(b, p, name) {
            seq![idx] + rest
        } else {
            rest
        }
    }
}

/// Some entry from `p` on holds `name` with scope byte `scope`.
pub open spec fn has_scoped_entry(b: Seq<u8>, p: int, name: Seq<u8>, scope: u8) -> bool
    decreases b.len() - p,
{
    if p < 0 || p >= b.len() {
        false
    } else if entry_is(b, p, name) && byte_or_nul(b, p + name.len() + 1) == scope {
        true
    } else {
        has_scoped_entry(b, next_entry(b, p), name, scope)
    }
}

/// Bounds of a name: it ends within the table.
proof fn lemma_name_len_bounds(b: Seq<u8>, p: int)
    requires
        0 <= p <= b.len(),
    ensures
        0 <= name_len(b, p) <= b.len() - p,
        forall|k: int| p <= k < p + name_len(b, p) ==> b[k] != 0,
    decreases b.len() - p,
{
    if p < b.len() && b[p] != 0 {
        lemma_name_len_bounds(b, p + 1);
    }
}

/// Length of the name at `p`: the bytes up to the first NUL or the end.
fn entry_name_len(b: &[u8], p: usize) -> (r: usize)
    requires
        p <= b@.len(),
    ensures
        r == name_len(b@, p as int),
        p + r <= b@.len(),
{
    proof {
        lemma_name_len_bounds(b@, p as int);
    }
    let n = b.len();
    let mut q = p;
    while q < n && b[q] != 0
        invariant
            n == b@.len(),
            p <= q <= n,
            name_len(b@, p as int) == (q - p) + name_len(b@, q as int),
        decreases n - q,
    {
        q = q + 1;
    }
    q - p
}

/// Whether the entry at `p`, of name length `len`, holds `name`.
fn entry_matches(b: &[u8], p: usize, len: usize, name: &[u8]) -> (r: bool)
    requires
        len == name_len(b@, p as int),
        p + len <= b@.len(),
    ensures
        r == entry_is(b@, p as int, name@),
{
    let n = b.len();
    if len != name.len() {
        return false;
    }
    let mut k: usize = 0;
    while k < len
        invariant
            n == b@.len(),
            len == name@.len(),
            p + len <= b@.len(),
            k <= len,
            forall|j: int| 0 <= j < k ==> b@[p + j] == name@[j],
        decreases len - k,
    {
        if b[p + k] != name[k] {
            assert(b@.subrange(p as int, p + len)[k as int] != name@[k as int]);
            return false;
        }
        k = k + 1;
    }
    assert(b@.subrange(p as int, p + len) =~= name@);
    true
}

/// Find the groups called `name` in the table of group names: their count,
/// and, when `emit_group_index` is set, their capture indices (the first
/// entry is group 1) appended to `byte_code`.
pub fn find_group_name(group_names: &[u8], name: &[u8], emit_group_index: bool, byte_code: &mut Vec<u8>) -> (r: usize)
    requires
        group_names@.len() < usize::MAX,
    ensures
        r == name_hits(group_names@, 0, 1, name@).len(),
        final(byte_code)@ == if emit_group_index {
            old(byte_code)@ + name_hits(group_names@, 0, 1, name@).map_values(|i: int| i as u8)
        } else {
            old(byte_code)@
        },
{
    let n = group_names.len();
    let mut p: usize = 0;
    let mut capture_index: usize = 1;
    let mut count: usize = 0;
    let ghost all = name_hits(group_names@, 0, 1, name@);
    while p < n
        invariant
            n == group_names@.len(),
            n < usize::MAX,
            p <= n,
            1 <= capture_index <= p + 1,
            count < capture_index,
            count + name_hits(group_names@, p as int, capture_index as int, name@).len() == all.len(),
            all == name_hits(group_names@, 0, 1, name@),
            emit_group_index ==> old(byte_code)@ + all.map_values(|i: int| i as u8) == byte_code@
                + name_hits(group_names@, p as int, capture_index as int, name@).map_values(
                |i: int| i as u8,
            ),
            !emit_group_index ==> byte_code@ == old(byte_code)@,
        decreases n - p,
    {
        let ghost rest0 = name_hits(group_names@, p as int, capture_index as int, name@);
        let len = entry_name_len(group_names, p);
        let hit = entry_matches(group_names, p, len, name);
        let ghost rest1 = name_hits(
            group_names@,
            next_entry(group_names@, p as int),
            capture_index + 1,
            name@,
        );
        if hit {
            if emit_group_index {
                let ghost before = byte_code@;
                byte_code.push(capture_index as u8);
                assert(rest0 == seq![capture_index as int] + rest1);
                assert(rest0.map_values(|i: int| i as u8) =~= seq![capture_index as u8]
                    + rest1.map_values(|i: int| i as u8));
                assert(before + rest0.map_values(|i: int| i as u8) =~= byte_code@
                    + rest1.map_values(|i: int| i as u8));
            }
            count = count + 1;
        }
        if n - p - len <= LRE_GROUP_NAME_TRAILER_LEN {
            p = n;
        } else {
            p = p + len + LRE_GROUP_NAME_TRAILER_LEN;
        }
        capture_index = capture_index + 1;
    }
    count
}

/// Whether the table of group names already has a group called `name`
/// declared in scope `scope`.
pub fn is_duplicate_group_name(group_names: &[u8], name: &[u8], scope: u8) -> (r: bool)
    ensures
        r == has_scoped_entry(group_names@, 0, name@, scope),
{
    let n = group_names.len();
    let mut p: usize = 0;
    while p < n
        invariant
            n == group_names@.len(),
            p <= n,
            has_scoped_entry(group_names@, p as int, name@, scope) == has_scoped_entry(
                group_names@,
                0,
                name@,
                scope,
            ),
        decreases n - p,
    {
        let len = entry_name_len(group_names, p);
        if entry_matches(group_names, p, len, name) {
            let scope1 = if n - p - len > 1 { group_names[p + len + 1] } else { 0 };
            if scope1 == scope {
                return true;
            }
        }
        if n - p - len <= LRE_GROUP_NAME_TRAILER_LEN {
            p = n;
        } else {
            p = p + len + LRE_GROUP_NAME_TRAILER_LEN;
        }
    }
    false
}

} // verus!
