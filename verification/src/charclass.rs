//! Character classes as sets of code points, and their canonical form: a
//! sorted list of disjoint, non-adjacent inclusive intervals.
use vstd::prelude::*;
use crate::ast::{BuiltinClass, ClassRange};

verus! {

/// The largest Unicode code point.
pub const MAX_CODE_POINT: u32 = 0x10FFFF;

/// Whether `c` lies in one of the intervals of `v`.
pub open spec fn in_iv(v: Seq<(u32, u32)>, c: int) -> bool {
    exists|i: int| 0 <= i < v.len() && (#[trigger] v[i]).0 <= c && c <= v[i].1
}

/// Sorted, disjoint, non-adjacent intervals within the code point range.
pub open spec fn canonical(v: Seq<(u32, u32)>) -> bool {
    &&& forall|i: int| 0 <= i < v.len() ==> (#[trigger] v[i]).0 <= v[i].1 && v[i].1 <= MAX_CODE_POINT
    &&& forall|i: int, j: int| #![trigger v[i], v[j]] 0 <= i < j < v.len() ==> v[i].1 + 1 < v[j].0
}

/// The decimal digits.
pub open spec fn digit_iv() -> Seq<(u32, u32)> {
    seq![(0x30u32, 0x39u32)]
}

/// The ASCII word characters `[0-9A-Z_a-z]`.
pub open spec fn word_iv() -> Seq<(u32, u32)> {
    seq![(0x30u32, 0x39u32), (0x41u32, 0x5Au32), (0x5Fu32, 0x5Fu32), (0x61u32, 0x7Au32)]
}

/// The ECMAScript white space and line terminator characters.
pub open spec fn space_iv() -> Seq<(u32, u32)> {
    seq![
        (0x09u32, 0x0Du32),
        (0x20u32, 0x20u32),
        (0xA0u32, 0xA0u32),
        (0x1680u32, 0x1680u32),
        (0x2000u32, 0x200Au32),
        (0x2028u32, 0x2029u32),
        (0x202Fu32, 0x202Fu32),
        (0x205Fu32, 0x205Fu32),
        (0x3000u32, 0x3000u32),
        (0xFEFFu32, 0xFEFFu32),
    ]
}

/// Whether a code point belongs to a built-in class.
pub open spec fn builtin_has(b: BuiltinClass, c: int) -> bool {
    0 <= c <= MAX_CODE_POINT && match b {
        BuiltinClass::Digit => in_iv(digit_iv(), c),
        BuiltinClass::NotDigit => !in_iv(digit_iv(), c),
        BuiltinClass::Word => in_iv(word_iv(), c),
        BuiltinClass::NotWord => !in_iv(word_iv(), c),
        BuiltinClass::Space => in_iv(space_iv(), c),
        BuiltinClass::NotSpace => !in_iv(space_iv(), c),
    }
}

/// Whether a code point belongs to one item of a class.
pub open spec fn item_has(item: ClassRange, c: int) -> bool {
    match item {
        ClassRange::Single(x) => c == x as int,
        ClassRange::Range(lo, hi) => lo as int <= c <= hi as int,
        ClassRange::Builtin(b) => builtin_has(b, c),
    }
}

/// Whether a code point belongs to the class with these items.
pub open spec fn class_has(items: Seq<ClassRange>, negated: bool, c: int) -> bool {
    &&& 0 <= c <= MAX_CODE_POINT
    &&& (exists|i: int| 0 <= i < items.len() && #[trigger] item_has(items[i], c)) != negated
}

/// Whether a class item is well formed: a range does not run backwards.
pub open spec fn item_ok(item: ClassRange) -> bool {
    match item {
        ClassRange::Range(lo, hi) => lo <= hi,
        _ => true,
    }
}

/// The canonical interval list of a class: the one canonical list that
/// covers exactly the class's code points.
pub open spec fn class_intervals(items: Seq<ClassRange>, negated: bool) -> Seq<(u32, u32)> {
    choose|v: Seq<(u32, u32)>| canonical(v) && forall|c: int| in_iv(v, c) == class_has(items, negated, c)
}

/// Two canonical interval lists that cover the same code points are equal.
pub proof fn lemma_canonical_unique(a: Seq<(u32, u32)>, b: Seq<(u32, u32)>)
    requires
        canonical(a),
        canonical(b),
        forall|c: int| in_iv(a, c) == in_iv(b, c),
    ensures
        a == b,
    decreases a.len() + b.len(),
{
    if a.len() == 0 {
        if b.len() > 0 {
            assert(in_iv(b, b[0].0 as int));
        }
        assert(a =~= b);
    } else if b.len() == 0 {
        assert(in_iv(a, a[0].0 as int));
    } else {
        // The first interval of each starts at the least covered point.
        assert(in_iv(a, a[0].0 as int));
        assert(in_iv(b, b[0].0 as int));
        lemma_first_is_least(a, b[0].0 as int);
        lemma_first_is_least(b, a[0].0 as int);
        // ... and ends just before the first uncovered point after it.
        lemma_first_end(a, b);
        lemma_first_end(b, a);
        assert(a[0] == b[0]);
        let a1 = a.drop_first();
        let b1 = b.drop_first();
        assert(canonical(a1)) by {
            assert forall|i: int, j: int| 0 <= i < j < a1.len() implies #[trigger] a1[i].1 + 1
                < #[trigger] a1[j].0 by {
                assert(a[i + 1].1 + 1 < a[j + 1].0);
            }
        }
        assert(canonical(b1)) by {
            assert forall|i: int, j: int| 0 <= i < j < b1.len() implies #[trigger] b1[i].1 + 1
                < #[trigger] b1[j].0 by {
                assert(b[i + 1].1 + 1 < b[j + 1].0);
            }
        }
        assert forall|c: int| in_iv(a1, c) == in_iv(b1, c) by {
            lemma_tail_cover(a, c);
            lemma_tail_cover(b, c);
        }
        lemma_canonical_unique(a1, b1);
        assert(a =~= seq![a[0]] + a1);
        assert(b =~= seq![b[0]] + b1);
    }
}

/// No covered point lies below the start of the first interval.
proof fn lemma_first_is_least(a: Seq<(u32, u32)>, c: int)
    requires
        canonical(a),
        a.len() > 0,
        in_iv(a, c),
    ensures
        a[0].0 <= c,
{
    let i = choose|i: int| 0 <= i < a.len() && #[trigger] a[i].0 <= c && c <= a[i].1;
    if i > 0 {
        assert(a[0].1 + 1 < a[i].0);
    }
}

/// When both lists cover the same points and start alike, their first
/// intervals end alike.
proof fn lemma_first_end(a: Seq<(u32, u32)>, b: Seq<(u32, u32)>)
    requires
        canonical(a),
        canonical(b),
        a.len() > 0,
        b.len() > 0,
        forall|c: int| in_iv(a, c) == in_iv(b, c),
    ensures
        a[0].1 <= b[0].1,
{
    // a[0].1 is covered by b; the first interval of b ends at the first gap.
    assert(a[0].0 <= a[0].1);
    assert(in_iv(a, a[0].1 as int));
    let c = a[0].1 as int;
    assert(in_iv(b, c));
    let i = choose|i: int| 0 <= i < b.len() && #[trigger] b[i].0 <= c && c <= b[i].1;
    if i > 0 {
        // The point just after b[0] is not covered by b, but lies in a[0].
        let g = b[0].1 + 1;
        assert(b[0].1 + 1 < b[i].0);
        assert(!in_iv(b, g)) by {
            if in_iv(b, g) {
                let k = choose|k: int| 0 <= k < b.len() && #[trigger] b[k].0 <= g && g <= b[k].1;
                if k > 0 {
                    assert(b[0].1 + 1 < b[k].0);
                }
            }
        }
        lemma_first_is_least(a, b[0].0 as int);
        assert(in_iv(b, b[0].0 as int));
        assert(in_iv(a, b[0].0 as int));
        lemma_first_is_least(b, a[0].0 as int);
        assert(in_iv(a, a[0].0 as int));
        assert(a[0].0 <= g <= a[0].1);
        assert(in_iv(a, g));
    }
}

/// Coverage of the tail: the points covered after dropping the first interval
/// are the covered points above its end.
proof fn lemma_tail_cover(a: Seq<(u32, u32)>, c: int)
    requires
        canonical(a),
        a.len() > 0,
    ensures
        in_iv(a.drop_first(), c) == (in_iv(a, c) && c > a[0].1),
{
    let t = a.drop_first();
    if in_iv(t, c) {
        let i = choose|i: int| 0 <= i < t.len() && #[trigger] t[i].0 <= c && c <= t[i].1;
        assert(a[i + 1].0 <= c && c <= a[i + 1].1);
        assert(a[0].1 + 1 < a[i + 1].0);
    }
    if in_iv(a, c) && c > a[0].1 {
        let i = choose|i: int| 0 <= i < a.len() && #[trigger] a[i].0 <= c && c <= a[i].1;
        assert(i > 0);
        assert(t[i - 1].0 <= c && c <= t[i - 1].1);
    }
}

/// Add the interval `[lo, hi]` to a canonical list, merging it with the
/// intervals it overlaps or touches.
pub fn insert_interval(v: &Vec<(u32, u32)>, lo: u32, hi: u32) -> (r: Vec<(u32, u32)>)
    requires
        canonical(v@),
        lo <= hi <= MAX_CODE_POINT,
    ensures
        canonical(r@),
        forall|c: int| in_iv(r@, c) == (in_iv(v@, c) || (lo <= c <= hi)),
{
    let n = v.len();
    let mut out: Vec<(u32, u32)> = Vec::new();
    // the intervals wholly below `lo`, not touching it
    let mut a: usize = 0;
    while a < n && v[a].1 + 1 < lo
        invariant
            canonical(v@),
            n == v@.len(),
            a <= n,
            out@ == v@.take(a as int),
            lo <= hi <= MAX_CODE_POINT,
            forall|k: int| 0 <= k < a ==> #[trigger] v@[k].1 + 1 < lo,
        decreases n - a,
    {
        out.push(v[a]);
        a = a + 1;
        assert(out@ =~= v@.take(a as int));
    }
    // the intervals that overlap or touch [lo, hi]
    let mut b: usize = a;
    while b < n && v[b].0 <= hi + 1
        invariant
            canonical(v@),
            n == v@.len(),
            a <= b <= n,
            lo <= hi <= MAX_CODE_POINT,
            forall|k: int| 0 <= k < a ==> #[trigger] v@[k].1 + 1 < lo,
            a < n ==> v@[a as int].1 + 1 >= lo,
            forall|k: int| a <= k < b ==> #[trigger] v@[k].0 <= hi + 1,
        decreases n - b,
    {
        b = b + 1;
    }
    let new_lo = if a < b && v[a].0 < lo {
        v[a].0
    } else {
        lo
    };
    let new_hi = if a < b && v[b - 1].1 > hi {
        v[b - 1].1
    } else {
        hi
    };
    let ghost before = out@;
    out.push((new_lo, new_hi));
    let mut k: usize = b;
    while k < n
        invariant
            canonical(v@),
            n == v@.len(),
            a <= b <= k <= n,
            lo <= hi <= MAX_CODE_POINT,
            forall|k2: int| 0 <= k2 < a ==> #[trigger] v@[k2].1 + 1 < lo,
            a < n ==> v@[a as int].1 + 1 >= lo,
            forall|k2: int| a <= k2 < b ==> #[trigger] v@[k2].0 <= hi + 1,
            b < n ==> v@[b as int].0 > hi + 1,
            new_lo == (if a < b && v@[a as int].0 < lo { v@[a as int].0 } else { lo }),
            new_hi == (if a < b && v@[b - 1].1 > hi { v@[b - 1].1 } else { hi }),
            before == v@.take(a as int),
            out@ == before.push((new_lo, new_hi)) + v@.subrange(b as int, k as int),
        decreases n - k,
    {
        out.push(v[k]);
        k = k + 1;
        assert(out@ =~= before.push((new_lo, new_hi)) + v@.subrange(b as int, k as int));
    }
    proof {
        lemma_insert_result(v@, out@, a as int, b as int, lo, hi, new_lo, new_hi);
    }
    out
}

/// The list built by `insert_interval` from its three parts is canonical and
/// covers the old points and the new interval.
proof fn lemma_insert_result(
    vv: Seq<(u32, u32)>,
    r: Seq<(u32, u32)>,
    a: int,
    b: int,
    lo: u32,
    hi: u32,
    new_lo: u32,
    new_hi: u32,
)
    requires
        canonical(vv),
        lo <= hi <= MAX_CODE_POINT,
        0 <= a <= b <= vv.len(),
        forall|k: int| 0 <= k < a ==> #[trigger] vv[k].1 + 1 < lo,
        a < vv.len() ==> vv[a].1 + 1 >= lo,
        forall|k: int| a <= k < b ==> #[trigger] vv[k].0 <= hi + 1,
        b < vv.len() ==> vv[b].0 > hi + 1,
        new_lo == (if a < b && vv[a].0 < lo { vv[a].0 } else { lo }),
        new_hi == (if a < b && vv[b - 1].1 > hi { vv[b - 1].1 } else { hi }),
        r == vv.take(a).push((new_lo, new_hi)) + vv.subrange(b, vv.len() as int),
    ensures
        canonical(r),
        forall|c: int| in_iv(r, c) == (in_iv(vv, c) || (lo <= c <= hi)),
{
    let n = vv.len() as int;
    let before = vv.take(a);
    assert(r.len() == a + 1 + (n - b));
    assert forall|i: int| 0 <= i < r.len() implies (i < a ==> r[i] == vv[i]) && (i == a ==> r[i]
        == (new_lo, new_hi)) && (i > a ==> r[i] == vv[i - a - 1 + b]) by {
        if i < a {
            assert(r[i] == before[i]);
        } else if i > a {
            assert(r[i] == vv.subrange(b as int, n as int)[i - a - 1]);
        }
    }
    // every merged interval lies inside [new_lo, new_hi]
    assert forall|k2: int| a <= k2 < b implies new_lo <= #[trigger] vv[k2].0 && vv[k2].1
        <= new_hi by {
        if k2 > a {
            assert(vv[a].1 + 1 < vv[k2].0);
        }
        if k2 < b - 1 {
            assert(vv[k2].1 + 1 < vv[b - 1].0);
        }
    }
    // the ones before end below `lo - 1`, the ones after start above `hi + 1`
    if b < n {
        assert(vv[b as int].0 > hi + 1);
    }
    assert(canonical(r)) by {
        assert forall|i: int| 0 <= i < r.len() implies #[trigger] r[i].0 <= r[i].1 && r[i].1
            <= MAX_CODE_POINT by {
            if i > a {
                assert(r[i] == vv[i - a - 1 + b]);
            }
        }
        assert forall|i: int, j: int| 0 <= i < j < r.len() implies #[trigger] r[i].1 + 1
            < #[trigger] r[j].0 by {
            if j < a {
                assert(vv[i].1 + 1 < vv[j].0);
            } else if j == a {
                assert(vv[i].1 + 1 < lo);
                if a < b && vv[a as int].0 < lo {
                    assert(vv[i].1 + 1 < vv[a as int].0);
                }
            } else if i > a {
                assert(vv[i - a - 1 + b].1 + 1 < vv[j - a - 1 + b].0);
            } else if i == a {
                let jj = j - a - 1 + b;
                assert(vv[jj].0 > hi + 1) by {
                    if jj > b {
                        assert(vv[b as int].1 + 1 < vv[jj].0);
                    }
                }
                if a < b && vv[b - 1].1 > hi {
                    assert(vv[b - 1].1 + 1 < vv[jj].0);
                }
            } else {
                // i < a < j
                let jj = j - a - 1 + b;
                assert(vv[i].1 + 1 < vv[jj].0);
            }
        }
    }
    assert forall|c: int| in_iv(r, c) == (in_iv(vv, c) || (lo <= c <= hi)) by {
        if in_iv(r, c) {
            let i = choose|i: int| 0 <= i < r.len() && #[trigger] r[i].0 <= c && c <= r[i].1;
            if i < a {
                assert(vv[i].0 <= c <= vv[i].1);
            } else if i > a {
                assert(vv[i - a - 1 + b].0 <= c <= vv[i - a - 1 + b].1);
            } else if !(lo <= c <= hi) {
                if c < lo {
                    assert(vv[a as int].0 <= c <= vv[a as int].1) by {
                        assert(a < b && vv[a as int].0 < lo);
                        if a + 1 < b {
                            assert(vv[a as int].1 + 1 < vv[a + 1].0);
                        }
                        assert(vv[a as int].1 + 1 >= lo) by {
                            if vv[a as int].1 + 1 < lo {
                                // then the first loop would have gone on
                                assert(false);
                            }
                        }
                    }
                } else {
                    assert(vv[b - 1].0 <= c <= vv[b - 1].1);
                }
            }
        }
        if in_iv(vv, c) {
            let i = choose|i: int| 0 <= i < vv.len() && #[trigger] vv[i].0 <= c && c <= vv[i].1;
            if i < a {
                assert(r[i].0 <= c <= r[i].1);
            } else if i < b {
                assert(r[a as int].0 <= c <= r[a as int].1);
            } else {
                assert(r[i - b + a + 1].0 <= c <= r[i - b + a + 1].1);
            }
        }
        if lo <= c <= hi {
            assert(r[a as int].0 <= c <= r[a as int].1);
        }
    }
}

/// The code points of `[0, MAX_CODE_POINT]` that a canonical list leaves out,
/// as a canonical list.
pub fn complement(v: &Vec<(u32, u32)>) -> (r: Vec<(u32, u32)>)
    requires
        canonical(v@),
    ensures
        canonical(r@),
        forall|c: int| in_iv(r@, c) == (0 <= c <= MAX_CODE_POINT && !in_iv(v@, c)),
{
    let n = v.len();
    let mut out: Vec<(u32, u32)> = Vec::new();
    // `next` is the least code point above every interval seen so far
    let mut next: u32 = 0;
    let mut i: usize = 0;
    while i < n
        invariant
            canonical(v@),
            n == v@.len(),
            i <= n,
            canonical(out@),
            next <= MAX_CODE_POINT + 1,
            i == 0 ==> next == 0,
            i > 0 ==> next == v@[i - 1].1 + 1,
            forall|k: int| 0 <= k < out@.len() ==> (#[trigger] out@[k]).1 + 1 < next,
            forall|c: int| c < next ==> (in_iv(out@, c) == (0 <= c && !in_iv(v@.take(i as int), c))),
            forall|c: int| c >= next ==> !in_iv(v@.take(i as int), c),
        decreases n - i,
    {
        let (lo, hi) = v[i];
        proof {
            if i > 0 {
                assert(v@[i - 1].1 + 1 < v@[i as int].0);
            }
        }
        let ghost out0 = out@;
        if lo > next {
            out.push((next, lo - 1));
        }
        proof {
            let t0 = v@.take(i as int);
            let t1 = v@.take(i + 1);
            assert forall|c: int| in_iv(t1, c) == (in_iv(t0, c) || (lo <= c <= hi)) by {
                if in_iv(t1, c) {
                    let k = choose|k: int| 0 <= k < t1.len() && (#[trigger] t1[k]).0 <= c && c <= t1[k].1;
                    if k < i {
                        assert(t0[k] == t1[k]);
                    }
                }
                if in_iv(t0, c) {
                    let k = choose|k: int| 0 <= k < t0.len() && (#[trigger] t0[k]).0 <= c && c <= t0[k].1;
                    assert(t1[k] == t0[k]);
                }
                if lo <= c <= hi {
                    assert(t1[i as int] == (lo, hi));
                }
            }
            assert(canonical(out@)) by {
                if lo > next {
                    assert forall|a: int, b: int| #![trigger out@[a], out@[b]] 0 <= a < b < out@.len()
                        implies out@[a].1 + 1 < out@[b].0 by {
                        if b == out@.len() - 1 {
                            assert(out@[a] == out0[a]);
                        } else {
                            assert(out@[a] == out0[a] && out@[b] == out0[b]);
                        }
                    }
                    assert forall|a: int| 0 <= a < out@.len() implies (#[trigger] out@[a]).0
                        <= out@[a].1 && out@[a].1 <= MAX_CODE_POINT by {
                        if a < out0.len() {
                            assert(out@[a] == out0[a]);
                        }
                    }
                }
            }
            assert forall|c: int| c < hi + 1 implies (in_iv(out@, c) == (0 <= c && !in_iv(t1, c))) by {
                if lo > next {
                    if in_iv(out@, c) {
                        let k = choose|k: int| 0 <= k < out@.len() && (#[trigger] out@[k]).0 <= c && c <= out@[k].1;
                        if k < out0.len() {
                            assert(out@[k] == out0[k]);
                            assert(in_iv(out0, c));
                        }
                    }
                    if c < next && in_iv(out0, c) {
                        let k = choose|k: int| 0 <= k < out0.len() && (#[trigger] out0[k]).0 <= c && c <= out0[k].1;
                        assert(out@[k] == out0[k]);
                    }
                    if next <= c < lo {
                        assert(out@[out@.len() - 1] == (next, (lo - 1) as u32));
                    }
                } else {
                    assert(out@ == out0);
                }
            }
            assert forall|k: int| 0 <= k < out@.len() implies (#[trigger] out@[k]).1 + 1 < hi + 1 by {
                if k < out0.len() {
                    assert(out@[k] == out0[k]);
                }
            }
            assert forall|c: int| c >= hi + 1 implies !in_iv(t1, c) by {}
        }
        next = hi + 1;
        i = i + 1;
    }
    if next <= MAX_CODE_POINT {
        let ghost out0 = out@;
        out.push((next, MAX_CODE_POINT));
        proof {
            assert(canonical(out@)) by {
                assert forall|a: int, b: int| #![trigger out@[a], out@[b]] 0 <= a < b < out@.len()
                    implies out@[a].1 + 1 < out@[b].0 by {
                    if b == out@.len() - 1 {
                        assert(out@[a] == out0[a]);
                    } else {
                        assert(out@[a] == out0[a] && out@[b] == out0[b]);
                    }
                }
                assert forall|a: int| 0 <= a < out@.len() implies (#[trigger] out@[a]).0 <= out@[a].1
                    && out@[a].1 <= MAX_CODE_POINT by {
                    if a < out0.len() {
                        assert(out@[a] == out0[a]);
                    }
                }
            }
            assert(v@.take(n as int) =~= v@);
            assert forall|c: int| in_iv(out@, c) == (0 <= c <= MAX_CODE_POINT && !in_iv(v@, c)) by {
                if in_iv(out@, c) {
                    let k = choose|k: int| 0 <= k < out@.len() && (#[trigger] out@[k]).0 <= c && c <= out@[k].1;
                    if k < out0.len() {
                        assert(out@[k] == out0[k]);
                        assert(in_iv(out0, c));
                    }
                }
                if c < next && in_iv(out0, c) {
                    let k = choose|k: int| 0 <= k < out0.len() && (#[trigger] out0[k]).0 <= c && c <= out0[k].1;
                    assert(out@[k] == out0[k]);
                }
                if next <= c <= MAX_CODE_POINT {
                    assert(out@[out@.len() - 1] == (next, MAX_CODE_POINT));
                }
            }
        }
    } else {
        proof {
            assert(v@.take(n as int) =~= v@);
            assert forall|c: int| in_iv(out@, c) == (0 <= c <= MAX_CODE_POINT && !in_iv(v@, c)) by {
                if in_iv(out@, c) {
                    let k = choose|k: int| 0 <= k < out@.len() && (#[trigger] out@[k]).0 <= c && c <= out@[k].1;
                    assert(out@[k].1 <= MAX_CODE_POINT);
                }
            }
        }
    }
    out
}

/// The canonical intervals of the built-in classes that are not negations.
fn base_intervals(b: BuiltinClass) -> (r: Vec<(u32, u32)>)
    ensures
        canonical(r@),
        r@ == match b {
            BuiltinClass::Digit | BuiltinClass::NotDigit => digit_iv(),
            BuiltinClass::Word | BuiltinClass::NotWord => word_iv(),
            BuiltinClass::Space | BuiltinClass::NotSpace => space_iv(),
        },
{
    match b {
        BuiltinClass::Digit | BuiltinClass::NotDigit => {
            let r = vec![(0x30u32, 0x39u32)];
            assert(r@ =~= digit_iv());
            r
        },
        BuiltinClass::Word | BuiltinClass::NotWord => {
            let r = vec![(0x30u32, 0x39u32), (0x41u32, 0x5Au32), (0x5Fu32, 0x5Fu32), (0x61u32, 0x7Au32)];
            assert(r@ =~= word_iv());
            r
        },
        BuiltinClass::Space | BuiltinClass::NotSpace => {
            let r = vec![
                (0x09u32, 0x0Du32),
                (0x20u32, 0x20u32),
                (0xA0u32, 0xA0u32),
                (0x1680u32, 0x1680u32),
                (0x2000u32, 0x200Au32),
                (0x2028u32, 0x2029u32),
                (0x202Fu32, 0x202Fu32),
                (0x205Fu32, 0x205Fu32),
                (0x3000u32, 0x3000u32),
                (0xFEFFu32, 0xFEFFu32),
            ];
            assert(r@ =~= space_iv());
            r
        },
    }
}

/// The canonical intervals of a built-in class.
pub fn builtin_intervals(b: BuiltinClass) -> (r: Vec<(u32, u32)>)
    ensures
        canonical(r@),
        forall|c: int| in_iv(r@, c) == builtin_has(b, c),
{
    let base = base_intervals(b);
    proof {
        assert forall|c: int| in_iv(base@, c) implies 0 <= c <= MAX_CODE_POINT by {
            let k = choose|k: int| 0 <= k < base@.len() && (#[trigger] base@[k]).0 <= c && c <= base@[k].1;
        }
    }
    match b {
        BuiltinClass::NotDigit | BuiltinClass::NotWord | BuiltinClass::NotSpace => complement(&base),
        _ => base,
    }
}

/// The canonical intervals of a class given by its items, or the error of a
/// range that runs backwards.
pub fn class_ranges(items: &Vec<ClassRange>, negated: bool) -> (r: Result<Vec<(u32, u32)>, ()>)
    ensures
        match r {
            Ok(v) => (forall|i: int| 0 <= i < items@.len() ==> item_ok(#[trigger] items@[i])) && v@
                == class_intervals(items@, negated) && canonical(v@),
            Err(_) => exists|i: int| 0 <= i < items@.len() && !item_ok(#[trigger] items@[i]),
        },
{
    let mut acc: Vec<(u32, u32)> = Vec::new();
    let mut k: usize = 0;
    while k < items.len()
        invariant
            k <= items@.len(),
            canonical(acc@),
            forall|i: int| 0 <= i < k ==> item_ok(#[trigger] items@[i]),
            forall|c: int| in_iv(acc@, c) == (exists|i: int| 0 <= i < k && #[trigger] item_has(items@[i], c)),
        decreases items@.len() - k,
    {
        let item = items[k];
        let ghost acc0 = acc@;
        match item {
            ClassRange::Single(ch) => {
                acc = insert_interval(&acc, ch as u32, ch as u32);
            },
            ClassRange::Range(lo, hi) => {
                if (lo as u32) > (hi as u32) {
                    return Err(());
                }
                acc = insert_interval(&acc, lo as u32, hi as u32);
            },
            ClassRange::Builtin(b) => {
                let bi = builtin_intervals(b);
                let mut j: usize = 0;
                while j < bi.len()
                    invariant
                        j <= bi@.len(),
                        canonical(acc@),
                        canonical(bi@),
                        forall|c: int| in_iv(acc@, c) == (in_iv(acc0, c) || in_iv(bi@.take(j as int), c)),
                    decreases bi@.len() - j,
                {
                    let (lo, hi) = bi[j];
                    let ghost accj = acc@;
                    acc = insert_interval(&acc, lo, hi);
                    assert(forall|c: int| in_iv(acc@, c) == (in_iv(accj, c) || (lo <= c <= hi)));
                    proof {
                        let t0 = bi@.take(j as int);
                        let t1 = bi@.take(j + 1);
                        assert forall|c: int| in_iv(t1, c) == (in_iv(t0, c) || (lo <= c <= hi)) by {
                            if in_iv(t1, c) {
                                let q = choose|q: int| 0 <= q < t1.len() && (#[trigger] t1[q]).0 <= c && c <= t1[q].1;
                                if q < j {
                                    assert(t0[q] == t1[q]);
                                }
                            }
                            if in_iv(t0, c) {
                                let q = choose|q: int| 0 <= q < t0.len() && (#[trigger] t0[q]).0 <= c && c <= t0[q].1;
                                assert(t1[q] == t0[q]);
                            }
                            if lo <= c <= hi {
                                assert(t1[j as int] == (lo, hi));
                            }
                        }
                        assert forall|c: int| in_iv(acc@, c) == (in_iv(acc0, c) || in_iv(t1, c)) by {
                            assert(in_iv(acc@, c) == (in_iv(accj, c) || (lo <= c <= hi)));
                            assert(in_iv(accj, c) == (in_iv(acc0, c) || in_iv(t0, c)));
                            assert(in_iv(t1, c) == (in_iv(t0, c) || (lo <= c <= hi)));
                        }
                    }
                    j = j + 1;
                }
                assert(bi@.take(bi@.len() as int) =~= bi@);
                assert forall|c: int| in_iv(acc@, c) == (in_iv(acc0, c) || item_has(item, c)) by {
                    assert(in_iv(acc@, c) == (in_iv(acc0, c) || in_iv(bi@.take(bi@.len() as int), c)));
                    assert(in_iv(bi@, c) == builtin_has(b, c));
                }
            },
        }
        assert(item == items@[k as int]);
        assert(forall|c: int| in_iv(acc@, c) == (in_iv(acc0, c) || item_has(item, c)));
        proof {
            assert forall|c: int| in_iv(acc@, c) == (exists|i: int| 0 <= i < k + 1 && #[trigger] item_has(items@[i], c)) by {
                if item_has(items@[k as int], c) {
                    assert(exists|i: int| 0 <= i < k + 1 && #[trigger] item_has(items@[i], c));
                }
                if exists|i: int| 0 <= i < k + 1 && #[trigger] item_has(items@[i], c) {
                    let i = choose|i: int| 0 <= i < k + 1 && #[trigger] item_has(items@[i], c);
                    if i < k {
                        assert(exists|i2: int| 0 <= i2 < k && #[trigger] item_has(items@[i2], c));
                    }
                }
            }
        }
        k = k + 1;
    }
    let res = if negated {
        complement(&acc)
    } else {
        acc
    };
    proof {
        assert forall|c: int| in_iv(res@, c) == class_has(items@, negated, c) by {
            if !negated && in_iv(res@, c) {
                let q = choose|q: int| 0 <= q < res@.len() && (#[trigger] res@[q]).0 <= c && c <= res@[q].1;
            }
        }
        let chosen = class_intervals(items@, negated);
        assert(canonical(chosen) && forall|c: int| in_iv(chosen, c) == class_has(items@, negated, c));
        lemma_canonical_unique(res@, chosen);
    }
    Ok(res)
}

/// The code points of a class below `m` have a canonical interval list,
/// whose last interval ends below `m`.
proof fn lemma_listed_below(items: Seq<ClassRange>, negated: bool, m: int) -> (v: Seq<(u32, u32)>)
    requires
        0 <= m <= MAX_CODE_POINT + 1,
    ensures
        canonical(v),
        forall|c: int| in_iv(v, c) == (c < m && class_has(items, negated, c)),
        v.len() > 0 ==> v[v.len() - 1].1 < m,
    decreases m,
{
    if m == 0 {
        Seq::empty()
    } else {
        let u = lemma_listed_below(items, negated, m - 1);
        let x = m - 1;
        if !class_has(items, negated, x) {
            assert forall|c: int| in_iv(u, c) == (c < m && class_has(items, negated, c)) by {
                if in_iv(u, c) {
                    assert(c < m - 1 && class_has(items, negated, c));
                }
            }
            u
        } else if u.len() > 0 && u[u.len() - 1].1 + 1 == x {
            let l = u[u.len() - 1];
            let v = u.drop_last().push((l.0, x as u32));
            assert(canonical(v)) by {
                assert forall|i: int, j: int| #![trigger v[i], v[j]] 0 <= i < j < v.len() implies v[i].1 + 1 < v[j].0 by {
                    if j == v.len() - 1 {
                        assert(u[i] == v[i]);
                        assert(u[i].1 + 1 < u[u.len() - 1].0);
                    } else {
                        assert(u[i] == v[i] && u[j] == v[j]);
                    }
                }
                assert forall|i: int| 0 <= i < v.len() implies (#[trigger] v[i]).0 <= v[i].1 && v[i].1 <= MAX_CODE_POINT by {
                    if i < v.len() - 1 {
                        assert(u[i] == v[i]);
                    }
                }
            }
            assert forall|c: int| in_iv(v, c) == (c < m && class_has(items, negated, c)) by {
                if in_iv(v, c) {
                    let i = choose|i: int| 0 <= i < v.len() && (#[trigger] v[i]).0 <= c && c <= v[i].1;
                    if i < v.len() - 1 {
                        assert(u[i] == v[i]);
                        assert(in_iv(u, c));
                    } else if c < x {
                        assert(u[u.len() - 1].0 <= c && c <= u[u.len() - 1].1);
                        assert(in_iv(u, c));
                    }
                }
                if c < m && class_has(items, negated, c) && c < x {
                    assert(in_iv(u, c));
                    let i = choose|i: int| 0 <= i < u.len() && (#[trigger] u[i]).0 <= c && c <= u[i].1;
                    if i < u.len() - 1 {
                        assert(v[i] == u[i]);
                    } else {
                        assert(v[v.len() - 1].0 <= c && c <= v[v.len() - 1].1);
                    }
                }
                if c == x {
                    assert(v[v.len() - 1].0 <= c && c <= v[v.len() - 1].1);
                }
            }
            v
        } else {
            let v = u.push((x as u32, x as u32));
            assert(canonical(v)) by {
                assert forall|i: int, j: int| #![trigger v[i], v[j]] 0 <= i < j < v.len() implies v[i].1 + 1 < v[j].0 by {
                    assert(u[i] == v[i]);
                    if j < v.len() - 1 {
                        assert(u[j] == v[j]);
                    } else if i < u.len() - 1 {
                        assert(u[i].1 + 1 < u[u.len() - 1].0);
                    }
                }
                assert forall|i: int| 0 <= i < v.len() implies (#[trigger] v[i]).0 <= v[i].1 && v[i].1 <= MAX_CODE_POINT by {
                    if i < v.len() - 1 {
                        assert(u[i] == v[i]);
                    }
                }
            }
            assert forall|c: int| in_iv(v, c) == (c < m && class_has(items, negated, c)) by {
                if in_iv(v, c) {
                    let i = choose|i: int| 0 <= i < v.len() && (#[trigger] v[i]).0 <= c && c <= v[i].1;
                    if i < v.len() - 1 {
                        assert(u[i] == v[i]);
                        assert(in_iv(u, c));
                    }
                }
                if c < m && class_has(items, negated, c) {
                    if c < x {
                        assert(in_iv(u, c));
                        let i = choose|i: int| 0 <= i < u.len() && (#[trigger] u[i]).0 <= c && c <= u[i].1;
                        assert(v[i] == u[i]);
                    } else {
                        assert(v[v.len() - 1].0 <= c && c <= v[v.len() - 1].1);
                    }
                }
            }
            v
        }
    }
}

/// Every class has its canonical interval list: it is canonical and covers
/// exactly the class's code points.
pub proof fn lemma_class_intervals(items: Seq<ClassRange>, negated: bool)
    ensures
        canonical(class_intervals(items, negated)),
        forall|c: int| in_iv(class_intervals(items, negated), c) == class_has(items, negated, c),
{
    let v = lemma_listed_below(items, negated, MAX_CODE_POINT + 1);
    assert(canonical(v) && forall|c: int| in_iv(v, c) == class_has(items, negated, c));
}

} // verus!
