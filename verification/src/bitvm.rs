//! Bit-parallel VM: a wide-word NFA simulator for the same bytecode.
//!
//! Instead of one thread per alternative, the state is a bit set with bit
//! `i` meaning "the consuming instruction number `i` is active". All
//! threads advance together through bitwise operations on the words:
//! a byte keeps the active states that accept it, and each kept state
//! contributes its epsilon closure to the next set.
//!
//! Only byte-level patterns fit: a literal character above 255 makes the
//! program refuse the pattern.
use vstd::prelude::*;
use crate::opcodes::{RE_HEADER_LEN, read_u16, read_u32, read_i32, get_u16, get_u32};

verus! {

/// Whether bit `i` is set in a sequence of 64-bit words.
pub open spec fn bit_of(words: Seq<u64>, i: int) -> bool {
    0 <= i < 64 * words.len() && (words[i / 64] >> ((i % 64) as u64)) & 1u64 == 1u64
}

proof fn lemma_bit_set(w: u64, p: u64, q: u64)
    requires
        p < 64,
        q < 64,
    ensures
        ((w | (1u64 << p)) >> q) & 1u64 == 1u64 <==> ((w >> q) & 1u64 == 1u64 || p == q),
{
    assert(((w | (1u64 << p)) >> q) & 1u64 == 1u64 <==> ((w >> q) & 1u64 == 1u64 || p == q))
        by (bit_vector)
        requires
            p < 64,
            q < 64,
    ;
}

proof fn lemma_bit_or(a: u64, b: u64, q: u64)
    requires
        q < 64,
    ensures
        ((a | b) >> q) & 1u64 == 1u64 <==> ((a >> q) & 1u64 == 1u64 || (b >> q) & 1u64 == 1u64),
{
    assert(((a | b) >> q) & 1u64 == 1u64 <==> ((a >> q) & 1u64 == 1u64 || (b >> q) & 1u64 == 1u64))
        by (bit_vector)
        requires
            q < 64,
    ;
}

proof fn lemma_bit_and(a: u64, b: u64, q: u64)
    requires
        q < 64,
    ensures
        ((a & b) >> q) & 1u64 == 1u64 <==> ((a >> q) & 1u64 == 1u64 && (b >> q) & 1u64 == 1u64),
{
    assert(((a & b) >> q) & 1u64 == 1u64 <==> ((a >> q) & 1u64 == 1u64 && (b >> q) & 1u64 == 1u64))
        by (bit_vector)
        requires
            q < 64,
    ;
}

proof fn lemma_bit_zero(q: u64)
    requires
        q < 64,
    ensures
        (0u64 >> q) & 1u64 != 1u64,
{
    assert((0u64 >> q) & 1u64 != 1u64) by (bit_vector);
}

proof fn lemma_bit_not(w: u64, q: u64)
    requires
        q < 64,
    ensures
        ((!w) >> q) & 1u64 == 1u64 <==> !((w >> q) & 1u64 == 1u64),
{
    assert(((!w) >> q) & 1u64 == 1u64 <==> !((w >> q) & 1u64 == 1u64)) by (bit_vector)
        requires
            q < 64,
    ;
}

proof fn lemma_bit_test(w: u64, p: u64)
    requires
        p < 64,
    ensures
        (w & (1u64 << p)) != 0 <==> (w >> p) & 1u64 == 1u64,
{
    assert((w & (1u64 << p)) != 0 <==> (w >> p) & 1u64 == 1u64) by (bit_vector)
        requires
            p < 64,
    ;
}

/// Dynamic-width bit set for NFA state tracking.
#[derive(Clone)]
pub struct BitState {
    pub words: Vec<u64>,
}

impl BitState {
    /// Whether bit `i` is set.
    pub open spec fn has(&self, i: int) -> bool {
        bit_of(self.words@, i)
    }

    /// An empty set with room for `num_states` bits.
    pub fn new(num_states: usize) -> (r: Self)
        ensures
            r.words@.len() == (num_states + 63) / 64,
            forall|i: int| !r.has(i),
    {
        let num_words = num_states / 64 + if num_states % 64 == 0 { 0 } else { 1 };
        let mut words: Vec<u64> = Vec::new();
        let mut k: usize = 0;
        while k < num_words
            invariant
                k <= num_words,
                words@.len() == k,
                forall|j: int| 0 <= j < k ==> words@[j] == 0,
            decreases num_words - k,
        {
            words.push(0);
            k = k + 1;
        }
        let r = BitState { words };
        proof {
            assert forall|i: int| !r.has(i) by {
                if 0 <= i < 64 * r.words@.len() {
                    lemma_bit_zero((i % 64) as u64);
                }
            }
        }
        r
    }

    #[inline(always)]
    fn num_words(&self) -> (n: usize)
        ensures
            n == self.words@.len(),
    {
        self.words.len()
    }

    /// Set bit `bit`, when it is in range.
    #[inline(always)]
    fn set(&mut self, bit: usize)
        ensures
            final(self).words@.len() == old(self).words@.len(),
            forall|i: int| #[trigger] final(self).has(i) == (old(self).has(i) || (i == bit && bit < 64
                * old(self).words@.len())),
    {
        let word = bit / 64;
        let pos = bit % 64;
        if word < self.words.len() {
            let ghost old_words = self.words@;
            let w = self.words[word];
            self.words.set(word, w | (1u64 << (pos as u64)));
            proof {
                assert forall|i: int| #[trigger] self.has(i) == (bit_of(old_words, i) || (i == bit
                    && bit < 64 * old_words.len())) by {
                    if 0 <= i < 64 * old_words.len() {
                        if i / 64 == word {
                            lemma_bit_set(w, pos as u64, (i % 64) as u64);
                        }
                    }
                }
            }
        }
    }

    /// Whether bit `bit` is set.
    #[inline(always)]
    fn get(&self, bit: usize) -> (r: bool)
        ensures
            r == self.has(bit as int),
    {
        let word = bit / 64;
        let pos = bit % 64;
        if word < self.words.len() {
            proof {
                lemma_bit_test(self.words@[word as int], pos as u64);
            }
            (self.words[word] & (1u64 << (pos as u64))) != 0
        } else {
            false
        }
    }

    /// Whether some bit is set in both sets.
    #[inline(always)]
    fn any_set(&self, other: &BitState) -> (r: bool)
        requires
            self.words@.len() == other.words@.len(),
        ensures
            r == exists|i: int| self.has(i) && other.has(i),
    {
        let n = self.words.len();
        let mut i: usize = 0;
        while i < n
            invariant
                n == self.words@.len(),
                self.words@.len() == other.words@.len(),
                i <= n,
                forall|b: int| 0 <= b < 64 * i ==> !(#[trigger] self.has(b) && other.has(b)),
            decreases n - i,
        {
            let w = self.words[i] & other.words[i];
            let mut q: u64 = 0;
            while q < 64
                invariant
                    n == self.words@.len(),
                    self.words@.len() == other.words@.len(),
                    i < n,
                    q <= 64,
                    w == self.words@[i as int] & other.words@[i as int],
                    forall|b: int| 0 <= b < 64 * i + q ==> !(#[trigger] self.has(b) && other.has(b)),
                decreases 64 - q,
            {
                proof {
                    lemma_bit_and(self.words@[i as int], other.words@[i as int], q);
                    let b = 64 * i + q;
                    assert(b / 64 == i && b % 64 == q);
                }
                if (w >> q) & 1 == 1 {
                    proof {
                        let b = 64 * i + q;
                        assert(self.has(b) && other.has(b));
                    }
                    return true;
                }
                q = q + 1;
            }
            i = i + 1;
        }
        proof {
            assert forall|b: int| !(self.has(b) && other.has(b)) by {
                if 0 <= b < 64 * n {
                    assert(!(#[trigger] self.has(b) && other.has(b)));
                }
            }
        }
        false
    }

    /// Whether no bit is set.
    #[inline(always)]
    fn is_empty(&self) -> (r: bool)
        ensures
            r == forall|i: int| !self.has(i),
    {
        let n = self.words.len();
        let mut i: usize = 0;
        while i < n
            invariant
                n == self.words@.len(),
                i <= n,
                forall|b: int| 0 <= b < 64 * i ==> !#[trigger] self.has(b),
            decreases n - i,
        {
            let w = self.words[i];
            let mut q: u64 = 0;
            while q < 64
                invariant
                    n == self.words@.len(),
                    i < n,
                    q <= 64,
                    w == self.words@[i as int],
                    forall|b: int| 0 <= b < 64 * i + q ==> !#[trigger] self.has(b),
                decreases 64 - q,
            {
                proof {
                    let b = 64 * i + q;
                    assert(b / 64 == i && b % 64 == q);
                }
                if (w >> q) & 1 == 1 {
                    proof {
                        let b = 64 * i + q;
                        assert(self.has(b));
                    }
                    return false;
                }
                q = q + 1;
            }
            i = i + 1;
        }
        proof {
            assert forall|b: int| !self.has(b) by {
                if 0 <= b < 64 * n {
                    assert(!#[trigger] self.has(b));
                }
            }
        }
        true
    }

    /// Keep only the bits also set in `other`.
    #[inline(always)]
    fn and_assign(&mut self, other: &BitState)
        requires
            old(self).words@.len() == other.words@.len(),
        ensures
            final(self).words@.len() == old(self).words@.len(),
            forall|b: int| #[trigger] final(self).has(b) == (old(self).has(b) && other.has(b)),
    {
        let n = self.words.len();
        let ghost old_words = self.words@;
        let mut i: usize = 0;
        while i < n
            invariant
                n == self.words@.len(),
                old_words.len() == n,
                other.words@.len() == n,
                i <= n,
                forall|j: int| 0 <= j < i ==> self.words@[j] == old_words[j] & other.words@[j],
                forall|j: int| i <= j < n ==> self.words@[j] == old_words[j],
            decreases n - i,
        {
            let w = self.words[i] & other.words[i];
            self.words.set(i, w);
            i = i + 1;
        }
        proof {
            assert forall|b: int| #[trigger] self.has(b) == (bit_of(old_words, b) && other.has(b)) by {
                if 0 <= b < 64 * n {
                    lemma_bit_and(old_words[b / 64], other.words@[b / 64], (b % 64) as u64);
                }
            }
        }
    }

    /// Add the bits set in `other`.
    #[inline(always)]
    fn or_assign(&mut self, other: &BitState)
        requires
            old(self).words@.len() == other.words@.len(),
        ensures
            final(self).words@.len() == old(self).words@.len(),
            forall|b: int| #[trigger] final(self).has(b) == (old(self).has(b) || other.has(b)),
    {
        let n = self.words.len();
        let ghost old_words = self.words@;
        let mut i: usize = 0;
        while i < n
            invariant
                n == self.words@.len(),
                old_words.len() == n,
                other.words@.len() == n,
                i <= n,
                forall|j: int| 0 <= j < i ==> self.words@[j] == old_words[j] | other.words@[j],
                forall|j: int| i <= j < n ==> self.words@[j] == old_words[j],
            decreases n - i,
        {
            let w = self.words[i] | other.words[i];
            self.words.set(i, w);
            i = i + 1;
        }
        proof {
            assert forall|b: int| #[trigger] self.has(b) == (bit_of(old_words, b) || other.has(b)) by {
                if 0 <= b < 64 * n {
                    lemma_bit_or(old_words[b / 64], other.words@[b / 64], (b % 64) as u64);
                }
            }
        }
    }

    /// Clear every bit.
    #[inline(always)]
    fn clear(&mut self)
        ensures
            final(self).words@.len() == old(self).words@.len(),
            forall|b: int| !#[trigger] final(self).has(b),
    {
        let n = self.words.len();
        let mut i: usize = 0;
        while i < n
            invariant
                n == self.words@.len(),
                i <= n,
                forall|j: int| 0 <= j < i ==> self.words@[j] == 0,
            decreases n - i,
        {
            self.words.set(i, 0);
            i = i + 1;
        }
        proof {
            assert forall|b: int| !#[trigger] self.has(b) by {
                if 0 <= b < 64 * n {
                    lemma_bit_zero((b % 64) as u64);
                }
            }
        }
    }
}

/// The byte at `i`, or 0 outside the code.
pub open spec fn byte_or0(bc: Seq<u8>, i: int) -> int {
    if 0 <= i < bc.len() {
        bc[i] as int
    } else {
        0
    }
}

/// The 16-bit little-endian value at `i`, missing bytes read as 0.
pub open spec fn u16_or0(bc: Seq<u8>, i: int) -> int {
    byte_or0(bc, i) + 256 * byte_or0(bc, i + 1)
}

/// The size in bytes of the instruction at `pc` (1 outside the code).
pub open spec fn instr_size(bc: Seq<u8>, pc: int) -> int {
    if !(0 <= pc < bc.len()) {
        1
    } else {
        let op = bc[pc];
        if op == 1 || op == 2 {
            3
        } else if op == 3 || op == 4 {
            5
        } else if 5 <= op <= 12 {
            1
        } else if 13 <= op <= 15 {
            5
        } else if 16 <= op <= 18 {
            1
        } else if op == 19 || op == 20 {
            2
        } else if op == 21 {
            3
        } else if op == 22 {
            6
        } else if 23 <= op <= 26 {
            10
        } else if op == 27 {
            6
        } else if 28 <= op <= 31 {
            1
        } else if 32 <= op <= 35 {
            2 + byte_or0(bc, pc + 1)
        } else if op == 36 || op == 37 {
            3 + u16_or0(bc, pc + 1) * 4
        } else if op == 38 || op == 39 {
            3 + u16_or0(bc, pc + 1) * 8
        } else if op == 40 || op == 41 {
            5
        } else if op == 42 || op == 43 {
            2
        } else if op == 44 {
            1
        } else if op == 45 || op == 46 {
            9
        } else if op == 47 {
            11 + u16_or0(bc, pc + 9) * 4
        } else {
            1
        }
    }
}

/// The byte `k` places after `pc`, or 0 outside the code.
fn byte_at(bc: &[u8], pc: usize, k: usize) -> (r: usize)
    ensures
        r == byte_or0(bc@, pc + k),
        r < 256,
{
    if pc < bc.len() && k < bc.len() - pc {
        bc[pc + k] as usize
    } else {
        0
    }
}

/// Get the size of an instruction at the given PC
pub fn instruction_size(bytecode: &[u8], pc: usize) -> (r: usize)
    ensures
        r == instr_size(bytecode@, pc as int),
{
    if pc >= bytecode.len() {
        return 1;
    }
    let op = bytecode[pc];
    if op == 1 || op == 2 {
        3
    } else if op == 3 || op == 4 {
        5
    } else if 5 <= op && op <= 12 {
        1
    } else if 13 <= op && op <= 15 {
        5
    } else if 16 <= op && op <= 18 {
        1
    } else if op == 19 || op == 20 {
        2
    } else if op == 21 {
        3
    } else if op == 22 {
        6
    } else if 23 <= op && op <= 26 {
        10
    } else if op == 27 {
        6
    } else if 28 <= op && op <= 31 {
        1
    } else if 32 <= op && op <= 35 {
        2 + byte_at(bytecode, pc, 1)
    } else if op == 36 || op == 37 {
        3 + (byte_at(bytecode, pc, 1) + 256 * byte_at(bytecode, pc, 2)) * 4
    } else if op == 38 || op == 39 {
        3 + (byte_at(bytecode, pc, 1) + 256 * byte_at(bytecode, pc, 2)) * 8
    } else if op == 40 || op == 41 {
        5
    } else if op == 42 || op == 43 {
        2
    } else if op == 44 {
        1
    } else if op == 45 || op == 46 {
        9
    } else if op == 47 {
        11 + (byte_at(bytecode, pc, 9) + 256 * byte_at(bytecode, pc, 10)) * 4
    } else {
        1
    }
}

/// Every instruction takes at least one byte.
pub proof fn lemma_instr_size_pos(bc: Seq<u8>, pc: int)
    ensures
        instr_size(bc, pc) >= 1,
{
    assert(byte_or0(bc, pc + 1) >= 0);
    assert(u16_or0(bc, pc + 1) >= 0);
    assert(u16_or0(bc, pc + 9) >= 0);
}

/// Instructions that consume a character (or end the match): the states of
/// the NFA.
pub open spec fn is_consuming(op: u8) -> bool {
    op == 1 || op == 2 || op == 3 || op == 5 || op == 6 || op == 7 || op == 8 || op == 36 || op
        == 37 || op == 38 || op == 16
}

/// The consuming instructions met walking the code from `pc` up to `total`,
/// instruction by instruction.
pub open spec fn walk_states(bc: Seq<u8>, pc: int, total: int) -> Seq<int>
    decreases if pc < total { total - pc } else { 0 },
{
    if pc >= total || pc < 0 {
        Seq::empty()
    } else {
        proof {
            lemma_instr_size_pos(bc, pc);
        }
        let rest = walk_states(bc, pc + instr_size(bc, pc), total);
        if 0 <= pc < bc.len() && is_consuming(bc[pc]) {
            seq![pc] + rest
        } else {
            rest
        }
    }
}

/// Whether the instruction at `pc` can be simulated byte by byte: it lies
/// within the code, and a literal character it matches is a byte.
pub open spec fn instr_ok(bc: Seq<u8>, pc: int) -> bool {
    &&& 0 <= pc
    &&& pc + instr_size(bc, pc) <= bc.len()
    &&& (bc[pc] == 1 || bc[pc] == 2) ==> read_u16(bc, pc + 1) <= 255
    &&& (bc[pc] == 3 || bc[pc] == 4) ==> read_u32(bc, pc + 1) <= 255
}

/// Whether every instruction walked from `pc` up to `total` can be
/// simulated.
pub open spec fn walk_ok(bc: Seq<u8>, pc: int, total: int) -> bool
    decreases if pc < total { total - pc } else { 0 },
{
    if pc >= total || pc < 0 {
        true
    } else {
        proof {
            lemma_instr_size_pos(bc, pc);
        }
        instr_ok(bc, pc) && walk_ok(bc, pc + instr_size(bc, pc), total)
    }
}

/// The end of the code: the header length plus the body length it declares.
pub open spec fn code_end(bc: Seq<u8>) -> int {
    RE_HEADER_LEN + read_u32(bc, 4)
}

/// Whether the code opens with the search loop of an unanchored pattern:
/// `split_goto_first +6; any; goto -11`, which lets a match begin at any
/// position.
pub open spec fn opens_with_search_loop(bc: Seq<u8>) -> bool {
    &&& code_end(bc) >= RE_HEADER_LEN + 11
    &&& bc.len() >= RE_HEADER_LEN + 11
    &&& bc[8] == 14 && bc[9] == 6 && bc[10] == 0 && bc[11] == 0 && bc[12] == 0
    &&& bc[13] == 6
    &&& bc[14] == 13 && bc[15] == 0xF5 && bc[16] == 0xFF && bc[17] == 0xFF && bc[18] == 0xFF
}

/// Where a match attempt begins: after the search loop where the code has
/// one, else at the start of the code. The simulator begins an attempt at
/// every position itself.
pub open spec fn anchor_pc(bc: Seq<u8>) -> int {
    if opens_with_search_loop(bc) {
        RE_HEADER_LEN + 11
    } else {
        RE_HEADER_LEN as int
    }
}

/// The position where a match attempt begins (see `anchor_pc`).
fn anchor_of(bc: &[u8], total: usize) -> (r: usize)
    requires
        total == code_end(bc@),
    ensures
        r == anchor_pc(bc@),
{
    if total >= RE_HEADER_LEN + 11 && bc.len() >= RE_HEADER_LEN + 11 && bc[8] == 14 && bc[9] == 6
        && bc[10] == 0 && bc[11] == 0 && bc[12] == 0 && bc[13] == 6 && bc[14] == 13 && bc[15] == 0xF5
        && bc[16] == 0xFF && bc[17] == 0xFF && bc[18] == 0xFF {
        RE_HEADER_LEN + 11
    } else {
        RE_HEADER_LEN
    }
}

/// The states of the NFA of a program.
pub open spec fn nfa_states(bc: Seq<u8>) -> Seq<int> {
    walk_states(bc, RE_HEADER_LEN as int, code_end(bc))
}

/// Whether the bit-parallel simulator takes the program: a whole header, a
/// body within the code, every instruction simulable, and some state.
pub open spec fn supported(bc: Seq<u8>) -> bool {
    &&& bc.len() >= RE_HEADER_LEN
    &&& code_end(bc) <= bc.len()
    &&& code_end(bc) < usize::MAX
    &&& walk_ok(bc, RE_HEADER_LEN as int, code_end(bc))
    &&& nfa_states(bc).len() > 0
}

/// The walked states are increasing and lie in `[pc, total)`.
proof fn lemma_walk_sorted(bc: Seq<u8>, pc: int, total: int)
    ensures
        forall|i: int, j: int| #![trigger walk_states(bc, pc, total)[i], walk_states(bc, pc, total)[j]]
            0 <= i < j < walk_states(bc, pc, total).len() ==> walk_states(bc, pc, total)[i]
            < walk_states(bc, pc, total)[j],
        forall|i: int| 0 <= i < walk_states(bc, pc, total).len() ==> pc <= #[trigger] walk_states(
            bc,
            pc,
            total,
        )[i] < total,
        forall|i: int| 0 <= i < walk_states(bc, pc, total).len() ==> 0 <= #[trigger] walk_states(
            bc,
            pc,
            total,
        )[i] < bc.len() && is_consuming(bc[walk_states(bc, pc, total)[i]]),
        walk_ok(bc, pc, total) ==> forall|i: int| 0 <= i < walk_states(bc, pc, total).len() ==> instr_ok(
            bc,
            #[trigger] walk_states(bc, pc, total)[i],
        ),
    decreases if pc < total { total - pc } else { 0 },
{
    if pc >= total || pc < 0 {
    } else {
        let nxt = pc + instr_size(bc, pc);
        lemma_instr_size_pos(bc, pc);
        lemma_walk_sorted(bc, nxt, total);
        let rest = walk_states(bc, nxt, total);
        if 0 <= pc < bc.len() && is_consuming(bc[pc]) {
            let w = seq![pc] + rest;
            assert forall|i: int| 0 <= i < w.len() implies pc <= #[trigger] w[i] < total by {
                if i > 0 {
                    assert(w[i] == rest[i - 1]);
                }
            }
            assert forall|i: int, j: int| #![trigger w[i], w[j]] 0 <= i < j < w.len() implies w[i]
                < w[j] by {
                assert(w[j] == rest[j - 1]);
                if i > 0 {
                    assert(w[i] == rest[i - 1]);
                }
            }
            assert forall|i: int| 0 <= i < w.len() implies 0 <= #[trigger] w[i] < bc.len()
                && is_consuming(bc[w[i]]) by {
                if i > 0 {
                    assert(w[i] == rest[i - 1]);
                }
            }
            if walk_ok(bc, pc, total) {
                assert forall|i: int| 0 <= i < w.len() implies instr_ok(bc, #[trigger] w[i]) by {
                    if i > 0 {
                        assert(w[i] == rest[i - 1]);
                    }
                }
            }
        }
    }
}

/// Walk the code from `pc` to `total`: the consuming instructions met, or
/// `None` when some instruction cannot be simulated.
fn walk(bc: &[u8], total: usize) -> (r: Option<Vec<usize>>)
    requires
        RE_HEADER_LEN <= total <= bc@.len(),
    ensures
        match r {
            Some(v) => walk_ok(bc@, RE_HEADER_LEN as int, total as int) && v@.len() == walk_states(
                bc@,
                RE_HEADER_LEN as int,
                total as int,
            ).len() && forall|i: int| 0 <= i < v@.len() ==> #[trigger] v@[i] == walk_states(
                bc@,
                RE_HEADER_LEN as int,
                total as int,
            )[i],
            None => !walk_ok(bc@, RE_HEADER_LEN as int, total as int),
        },
{
    let mut states: Vec<usize> = Vec::new();
    let mut pc: usize = RE_HEADER_LEN;
    while pc < total
        invariant
            RE_HEADER_LEN <= pc,
            total <= bc@.len(),
            walk_ok(bc@, RE_HEADER_LEN as int, total as int) == walk_ok(bc@, pc as int, total as int),
            forall|i: int| 0 <= i < states@.len() ==> 0 <= #[trigger] states@[i],
            walk_states(bc@, RE_HEADER_LEN as int, total as int) == states@.map_values(|x: usize| x as int)
                + walk_states(bc@, pc as int, total as int),
        decreases if pc < total { total - pc } else { 0 },
    {
        let size = instruction_size(bc, pc);
        proof {
            lemma_instr_size_pos(bc@, pc as int);
        }
        if size > bc.len() - pc {
            assert(!instr_ok(bc@, pc as int));
            assert(!walk_ok(bc@, pc as int, total as int));
            return None;
        }
        let op = bc[pc];
        if op == 1 || op == 2 {
            if get_u16(bc, pc + 1) > 255 {
                assert(!instr_ok(bc@, pc as int));
                assert(!walk_ok(bc@, pc as int, total as int));
                return None;
            }
        }
        if op == 3 || op == 4 {
            if get_u32(bc, pc + 1) > 255 {
                assert(!instr_ok(bc@, pc as int));
                assert(!walk_ok(bc@, pc as int, total as int));
                return None;
            }
        }
        let ghost old_states = states@;
        if op == 1 || op == 2 || op == 3 || op == 5 || op == 6 || op == 7 || op == 8 || op == 36
            || op == 37 || op == 38 || op == 16 {
            states.push(pc);
            proof {
                assert(states@.map_values(|x: usize| x as int) =~= old_states.map_values(
                    |x: usize| x as int,
                ) + seq![pc as int]);
            }
        }
        pc = pc + size;
    }
    proof {
        assert(walk_states(bc@, pc as int, total as int) =~= Seq::<int>::empty());
    }
    Some(states)
}

/// Whether `st` lists the NFA states (their code positions, below `total`)
/// and `pc_to_state` maps each position back to its state, or to a value
/// past the last state for a position that is not one.
pub open spec fn index_maps(bc: Seq<u8>, total: int, st: Seq<usize>, pc_to_state: Seq<usize>) -> bool {
    &&& pc_to_state.len() == total + 1
    &&& total <= bc.len()
    &&& forall|s: int|
        0 <= s < st.len() ==> #[trigger] st[s] < total && pc_to_state[st[s] as int] == s
            && is_consuming(bc[st[s] as int])
    &&& forall|p: int|
        0 <= p <= total && #[trigger] pc_to_state[p] < st.len() ==> st[pc_to_state[p] as int] == p
}

/// The states reachable from `start` through pass-through instructions.
#[verifier::spinoff_prover]
#[verifier::rlimit(100)]
fn closure_from(bc: &[u8], total: usize, st: &Vec<usize>, pc_to_state: &Vec<usize>, start: usize) -> (r:
    BitState)
    requires
        index_maps(bc@, total as int, st@, pc_to_state@),
    ensures
        r.words@.len() == (st@.len() + 63) / 64,
        forall|t: int| #[trigger] r.has(t) == (0 <= t < st@.len() && eps_reaches(bc@, total as int, start as int, st@[t] as int)),
{
    let n = st.len();
    let mut result = BitState::new(n);
    let mut visited: Vec<bool> = Vec::new();
    let mut k: usize = 0;
    while k <= total
        invariant
            k <= total + 1,
            pc_to_state.len() == total + 1,
            index_maps(bc@, total as int, st@, pc_to_state@),
            visited@.len() == k,
            forall|j: int| 0 <= j < k ==> !visited@[j],
        decreases total + 1 - k,
    {
        visited.push(false);
        k = k + 1;
    }
    proof {
        assert(count_true(visited@) == 0) by {
            lemma_count_zero(visited@);
        }
    }
    let mut stack: Vec<usize> = Vec::new();
    stack.push(start);
    proof {
        assert(stack@[0] == start);
        if start < total {
            lemma_path_start(bc@, total as int, start as int);
        }
    }
    let ghost mut nv: int = 0;
    let ghost b = bc@;
    let ghost tot = total as int;
    while stack.len() > 0
        invariant
            b == bc@,
            tot == total,
            n == st@.len(),
            index_maps(b, tot, st@, pc_to_state@),
            visited@.len() == total + 1,
            result.words@.len() == (n + 63) / 64,
            nv == count_true(visited@),
            0 <= nv <= total + 1,
            forall|e: int| 0 <= e <= total && #[trigger] visited@[e] ==> e < total && eps_reaches(b, tot, start as int, e),
            forall|i: int| 0 <= i < stack@.len() && #[trigger] stack@[i] < total ==> eps_reaches(b, tot, start as int, stack@[i] as int),
            forall|t: int| #[trigger] result.has(t) == (0 <= t < n && visited@[st@[t] as int]),
            forall|e: int, y: int|
                0 <= e < tot && #[trigger] visited@[e] && is_eps(b[e]) && #[trigger] eps_succ(b, e, y) && 0 <= y < tot
                    ==> visited@[y] || stack@.contains(y as usize),
            start < total ==> visited@[start as int] || stack@.contains(start),
        decreases 3 * (total + 1 - nv) + stack@.len(),
    {
        proof {
            lemma_count_true_bound(visited@);
        }
        let ghost stack0 = stack@;
        let epc = stack.pop().unwrap();
        proof {
            assert(stack0 == stack@.push(epc));
            assert forall|y: usize| #[trigger] stack0.contains(y) && y != epc implies stack@.contains(y) by {
                let i = choose|i: int| 0 <= i < stack0.len() && stack0[i] == y;
                assert(stack@[i] == y);
            }
        }
        if epc >= total || visited[epc] {
            continue;
        }
        let ghost vis0 = visited@;
        proof {
            assert(stack0[stack0.len() - 1] == epc);
            lemma_count_true_set(visited@, epc as int);
        }
        visited.set(epc, true);
        proof {
            nv = nv + 1;
            lemma_count_true_bound(visited@);
        }
        let op = bc[epc];
        let ghost stack1 = stack@;
        // push the pass-through successors below `total`
        if op == 13 || op == 14 || op == 15 {
            if bc.len() - epc >= 5 {
                let off = get_u32(bc, epc + 1);
                let target = jump_to(total, epc + 5, off);
                if target < total {
                    stack.push(target);
                }
                if op != 13 && total - epc > 5 {
                    stack.push(epc + 5);
                }
                proof {
                    assert forall|y: int| #[trigger] eps_succ(b, epc as int, y) && 0 <= y < tot implies stack@.contains(y as usize) by {
                        if y == epc + 5 + read_i32(b, epc + 1) {
                            assert(stack@[stack1.len() as int] == y as usize);
                        } else {
                            assert(stack@[stack@.len() - 1] == y as usize);
                        }
                    }
                }
            }
        } else if op == 23 || op == 24 {
            if bc.len() - epc >= 10 {
                let off = get_u32(bc, epc + 6);
                let target = jump_to(total, epc + 10, off);
                if target < total {
                    stack.push(target);
                }
                if total - epc > 10 {
                    stack.push(epc + 10);
                }
                proof {
                    assert forall|y: int| #[trigger] eps_succ(b, epc as int, y) && 0 <= y < tot implies stack@.contains(y as usize) by {
                        if y == epc + 10 + read_i32(b, epc + 6) {
                            assert(stack@[stack1.len() as int] == y as usize);
                        } else {
                            assert(stack@[stack@.len() - 1] == y as usize);
                        }
                    }
                }
            }
        } else if op == 19 || op == 20 || op == 21 || op == 27 || (9 <= op && op <= 12) || op == 28
            || op == 30 {
            let step: usize = if op == 19 || op == 20 {
                2
            } else if op == 21 {
                3
            } else if op == 27 {
                6
            } else {
                1
            };
            if total - epc > step {
                stack.push(epc + step);
                proof {
                    assert(stack@[stack@.len() - 1] == epc + step);
                }
            }
        } else {
            let s = pc_to_state[epc];
            if s < n {
                result.set(s);
            }
        }
        proof {
            let e0 = epc as int;
            assert(eps_reaches(b, tot, start as int, e0));
            // the new stack entries are reached from `start`
            assert forall|i: int| 0 <= i < stack@.len() && #[trigger] stack@[i] < total implies eps_reaches(b, tot, start as int, stack@[i] as int) by {
                if i >= stack1.len() {
                    let y = stack@[i] as int;
                    assert(is_eps(b[e0]) && eps_succ(b, e0, y));
                    lemma_path_step(b, tot, start as int, e0, y);
                } else {
                    assert(stack@[i] == stack1[i]);
                }
            }
            assert forall|y: usize| #[trigger] stack1.contains(y) implies stack@.contains(y) by {
                let i = choose|i: int| 0 <= i < stack1.len() && stack1[i] == y;
                assert(stack@[i] == y);
            }
            // the successors of the new node are on the stack
            assert forall|y: int| is_eps(b[e0]) && #[trigger] eps_succ(b, e0, y) && 0 <= y < tot implies visited@[y] || stack@.contains(y as usize) by {
            }
            // the other nodes keep their successors
            assert forall|e: int, y: int|
                0 <= e < tot && #[trigger] visited@[e] && is_eps(b[e]) && #[trigger] eps_succ(b, e, y) && 0 <= y < tot
                    implies visited@[y] || stack@.contains(y as usize) by {
                if e != e0 {
                    assert(vis0[e]);
                    if !vis0[y] {
                        assert(stack0.contains(y as usize));
                        if y as usize != epc {
                            assert(stack@.contains(y as usize));
                        }
                    }
                }
            }
            // the result tracks the visited states
            assert forall|t: int| #[trigger] result.has(t) == (0 <= t < n && visited@[st@[t] as int]) by {
                if 0 <= t < n && st@[t] as int == e0 {
                    assert(is_consuming(b[e0]));
                    assert(pc_to_state@[e0] == t);
                }
            }
            if start < total && !visited@[start as int] {
                assert(stack0.contains(start));
                assert(stack@.contains(start));
            }
        }
    }
    proof {
        assert forall|t: int| #[trigger] result.has(t) == (0 <= t < n && eps_reaches(b, tot, start as int, st@[t] as int)) by {
            if 0 <= t < n && eps_reaches(b, tot, start as int, st@[t] as int) {
                assert forall|e: int, y: int|
                    0 <= e < tot && #[trigger] visited@[e] && is_eps(b[e]) && #[trigger] eps_succ(b, e, y) && 0 <= y < tot
                        implies visited@[y] by {
                    assert(!stack@.contains(y as usize));
                }
                if start < total {
                    assert(!stack@.contains(start));
                }
                lemma_closed_holds_reach(b, tot, start as int, visited@, st@[t] as int);
            }
        }
    }
    result
}

/// No flag set in an all-false sequence.
proof fn lemma_count_zero(v: Seq<bool>)
    requires
        forall|j: int| 0 <= j < v.len() ==> !v[j],
    ensures
        count_true(v) == 0,
    decreases v.len(),
{
    if v.len() > 0 {
        lemma_count_zero(v.drop_last());
    }
}

/// ASCII lower case.
fn to_lower(c: u32) -> (r: u32)
    ensures
        r == crate::interpreter::to_lower(c),
{
    if c >= 65 && c <= 90 {
        c + 32
    } else {
        c
    }
}

/// ASCII upper case.
fn to_upper(c: u32) -> (r: u32)
    ensures
        r == crate::interpreter::to_upper(c),
{
    if c >= 97 && c <= 122 {
        c - 32
    } else {
        c
    }
}

/// The bytes the `space` instruction takes at the byte level.
pub open spec fn is_space_byte(b: int) -> bool {
    (9 <= b <= 13) || b == 32
}

/// Whether the interval `k` of the class at `pc` (bounds of `w` bytes)
/// holds `x`.
pub open spec fn in_interval(bc: Seq<u8>, pc: int, w: int, k: int, x: int) -> bool {
    if w == 2 {
        read_u16(bc, pc + 3 + 4 * k) <= x <= read_u16(bc, pc + 5 + 4 * k)
    } else {
        read_u32(bc, pc + 3 + 8 * k) <= x <= read_u32(bc, pc + 7 + 8 * k)
    }
}

/// Whether the consuming instruction at `pc` takes byte `b`.
pub open spec fn accepts(bc: Seq<u8>, pc: int, b: int) -> bool {
    let op = bc[pc];
    &&& 0 <= b < 256
    &&& if op == 6 {
        true
    } else if op == 5 {
        b != 10 && b != 13
    } else if op == 1 || op == 2 {
        let v = read_u16(bc, pc + 1);
        v < 256 && (b == v || op == 2 && (b == crate::interpreter::to_lower(v as u32)
            || b == crate::interpreter::to_upper(v as u32)))
    } else if op == 7 {
        is_space_byte(b)
    } else if op == 8 {
        !is_space_byte(b)
    } else if op == 36 || op == 37 {
        exists|k: int, x: int|
            0 <= k < read_u16(bc, pc + 1) && #[trigger] in_interval(bc, pc, 2, k, x) && 0 <= x <= 255 && (
            b == x || op == 37 && (b == crate::interpreter::to_lower(x as u32)
                || b == crate::interpreter::to_upper(x as u32)))
    } else if op == 38 {
        exists|k: int|
            0 <= k < read_u16(bc, pc + 1) && read_u32(bc, pc + 3 + 8 * k) < 256 && #[trigger] in_interval(
                bc,
                pc,
                4,
                k,
                b,
            )
    } else {
        false
    }
}

/// Whether a list of masks has 256 entries of `nw` words each, with no bit
/// from `n` on.
pub open spec fn masks_ok(m: Seq<BitState>, nw: int, n: int) -> bool {
    &&& m.len() == 256
    &&& forall|b: int| 0 <= b < 256 ==> (#[trigger] m[b]).words@.len() == nw
    &&& forall|b: int, t: int| 0 <= b < 256 && t >= n ==> !#[trigger] m[b].has(t)
}

/// Set state `s` in the mask of byte `b`, when `b` is a byte.
fn mark(masks: &mut Vec<BitState>, b: u32, s: usize, Ghost(nw): Ghost<int>, Ghost(n): Ghost<int>)
    requires
        masks_ok(old(masks)@, nw, n),
        s < n,
        n <= 64 * nw,
    ensures
        masks_ok(final(masks)@, nw, n),
        forall|c: int, t: int| 0 <= c < 256 ==> #[trigger] final(masks)@[c].has(t) == (old(masks)@[c].has(t) || (c == b && t == s)),
{
    if b < 256 {
        set_in(masks, b as usize, s);
        proof {
            assert forall|c: int, t: int| 0 <= c < 256 && t >= n implies !#[trigger] masks@[c].has(t) by {
                if c == b {
                } else {
                    assert(masks@[c] == old(masks)@[c]);
                }
            }
            assert forall|c: int, t: int| 0 <= c < 256 implies #[trigger] masks@[c].has(t) == (old(masks)@[c].has(t) || (c == b && t == s)) by {
                if c != b {
                    assert(masks@[c] == old(masks)@[c]);
                }
            }
        }
    }
}

/// Whether `c` is `x` or, folding case, one of its ASCII case variants.
pub open spec fn hits(c: int, x: int, ic: bool) -> bool {
    c == x || ic && (c == crate::interpreter::to_lower(x as u32) || c == crate::interpreter::to_upper(
        x as u32,
    ))
}

/// Mark state `s` for every byte of the 16-bit intervals of the class at
/// `pc` (and their case variants when `ic`).
fn mark_ranges16(
    masks: &mut Vec<BitState>,
    bc: &[u8],
    pc: usize,
    s: usize,
    ic: bool,
    Ghost(nw): Ghost<int>,
    Ghost(n): Ghost<int>,
)
    requires
        masks_ok(old(masks)@, nw, n),
        s < n,
        n <= 64 * nw,
        pc + 3 <= bc.len(),
        pc + 3 + 4 * read_u16(bc@, pc + 1) <= bc.len(),
    ensures
        masks_ok(final(masks)@, nw, n),
        forall|c: int, t: int| 0 <= c < 256 ==> #[trigger] final(masks)@[c].has(t) == (old(masks)@[c].has(t)
            || (t == s && exists|k: int, x: int|
            0 <= k < read_u16(bc@, pc + 1) && #[trigger] in_interval(bc@, pc as int, 2, k, x) && 0 <= x
                <= 255 && hits(c, x, ic))),
{
    let count = get_u16(bc, pc + 1) as usize;
    let ghost m0 = masks@;
    let mut k: usize = 0;
    while k < count
        invariant
            count == read_u16(bc@, pc + 1),
            pc + 3 + 4 * count <= bc.len(),
            masks_ok(masks@, nw, n),
            s < n,
            n <= 64 * nw,
            k <= count,
            forall|c: int, t: int| 0 <= c < 256 ==> #[trigger] masks@[c].has(t) == (m0[c].has(t) || (t == s
                && exists|k2: int, x: int|
                0 <= k2 < k && #[trigger] in_interval(bc@, pc as int, 2, k2, x) && 0 <= x <= 255
                    && hits(c, x, ic))),
        decreases count - k,
    {
        let lo = get_u16(bc, pc + 3 + 4 * k) as u32;
        let hi = get_u16(bc, pc + 5 + 4 * k) as u32;
        let top: u32 = if hi < 255 { hi } else { 255 };
        let ghost m1 = masks@;
        let mut x: u32 = lo;
        while x <= top && lo <= top
            invariant
                lo == read_u16(bc@, pc + 3 + 4 * k),
                hi == read_u16(bc@, pc + 5 + 4 * k),
                top == (if hi < 255 { hi } else { 255 }),
                lo <= x,
                lo <= top ==> x <= top + 1,
                lo > top ==> x == lo,
                masks_ok(masks@, nw, n),
                s < n,
                n <= 64 * nw,
                forall|c: int, t: int| 0 <= c < 256 ==> #[trigger] masks@[c].has(t) == (m1[c].has(t) || (t == s
                    && exists|y: int| lo <= y < x && y <= top && #[trigger] hits(c, y, ic))),
            decreases 257 - x,
        {
            let ghost m2 = masks@;
            mark(masks, x, s, Ghost(nw), Ghost(n));
            if ic {
                mark(masks, to_lower(x), s, Ghost(nw), Ghost(n));
                mark(masks, to_upper(x), s, Ghost(nw), Ghost(n));
            }
            proof {
                assert forall|c: int, t: int| 0 <= c < 256 implies #[trigger] masks@[c].has(t) == (m1[c].has(t) || (t == s
                    && exists|y: int| lo <= y < x + 1 && y <= top && #[trigger] hits(c, y, ic))) by {
                    if t == s && hits(c, x as int, ic) {
                        assert(hits(c, x as int, ic));
                    }
                    if t == s && exists|y: int| lo <= y < x + 1 && y <= top && #[trigger] hits(c, y, ic) {
                        let y = choose|y: int| lo <= y < x + 1 && y <= top && #[trigger] hits(c, y, ic);
                        if y < x {
                            assert(exists|y2: int| lo <= y2 < x && y2 <= top && #[trigger] hits(c, y2, ic));
                        }
                    }
                }
            }
            x = x + 1;
        }
        proof {
            assert forall|c: int, t: int| 0 <= c < 256 implies #[trigger] masks@[c].has(t) == (m0[c].has(t) || (t == s
                && exists|k2: int, x2: int|
                0 <= k2 < k + 1 && #[trigger] in_interval(bc@, pc as int, 2, k2, x2) && 0 <= x2 <= 255
                    && hits(c, x2, ic))) by {
                if t == s && exists|y: int| lo <= y < x && y <= top && #[trigger] hits(c, y, ic) {
                    let y = choose|y: int| lo <= y < x && y <= top && #[trigger] hits(c, y, ic);
                    assert(in_interval(bc@, pc as int, 2, k as int, y));
                }
                if t == s && exists|k2: int, x2: int|
                    0 <= k2 < k + 1 && #[trigger] in_interval(bc@, pc as int, 2, k2, x2) && 0 <= x2 <= 255
                        && hits(c, x2, ic) {
                    let (k2, x2) = choose|k2: int, x2: int|
                        0 <= k2 < k + 1 && #[trigger] in_interval(bc@, pc as int, 2, k2, x2) && 0 <= x2 <= 255
                            && hits(c, x2, ic);
                    if k2 == k {
                        assert(lo <= x2 && x2 <= top);
                        assert(hits(c, x2, ic));
                    } else {
                        assert(exists|k3: int, x3: int|
                            0 <= k3 < k && #[trigger] in_interval(bc@, pc as int, 2, k3, x3) && 0 <= x3 <= 255
                                && hits(c, x3, ic));
                    }
                }
            }
        }
        k = k + 1;
    }
}

/// Mark state `s` for every byte of the 32-bit intervals of the class at
/// `pc` that start below 256.
fn mark_ranges32(
    masks: &mut Vec<BitState>,
    bc: &[u8],
    pc: usize,
    s: usize,
    Ghost(nw): Ghost<int>,
    Ghost(n): Ghost<int>,
)
    requires
        masks_ok(old(masks)@, nw, n),
        s < n,
        n <= 64 * nw,
        pc + 3 <= bc.len(),
        pc + 3 + 8 * read_u16(bc@, pc + 1) <= bc.len(),
    ensures
        masks_ok(final(masks)@, nw, n),
        forall|c: int, t: int| 0 <= c < 256 ==> #[trigger] final(masks)@[c].has(t) == (old(masks)@[c].has(t)
            || (t == s && exists|k: int|
            0 <= k < read_u16(bc@, pc + 1) && read_u32(bc@, pc + 3 + 8 * k) < 256 && #[trigger] in_interval(
                bc@,
                pc as int,
                4,
                k,
                c,
            ))),
{
    let count = get_u16(bc, pc + 1) as usize;
    let ghost m0 = masks@;
    let mut k: usize = 0;
    while k < count
        invariant
            count == read_u16(bc@, pc + 1),
            pc + 3 + 8 * count <= bc.len(),
            masks_ok(masks@, nw, n),
            s < n,
            n <= 64 * nw,
            k <= count,
            forall|c: int, t: int| 0 <= c < 256 ==> #[trigger] masks@[c].has(t) == (m0[c].has(t) || (t == s
                && exists|k2: int|
                0 <= k2 < k && read_u32(bc@, pc + 3 + 8 * k2) < 256 && #[trigger] in_interval(
                    bc@,
                    pc as int,
                    4,
                    k2,
                    c,
                ))),
        decreases count - k,
    {
        let lo = get_u32(bc, pc + 3 + 8 * k);
        let hi = get_u32(bc, pc + 7 + 8 * k);
        let top: u32 = if hi < 255 { hi } else { 255 };
        let ghost m1 = masks@;
        let mut x: u32 = lo;
        while lo < 256 && x <= top && lo <= top
            invariant
                lo == read_u32(bc@, pc + 3 + 8 * k),
                hi == read_u32(bc@, pc + 7 + 8 * k),
                top == (if hi < 255 { hi } else { 255 }),
                lo <= x,
                lo <= top ==> x <= top + 1,
                lo > top ==> x == lo,
                masks_ok(masks@, nw, n),
                s < n,
                n <= 64 * nw,
                forall|c: int, t: int| 0 <= c < 256 ==> #[trigger] masks@[c].has(t) == (m1[c].has(t) || (t == s
                    && lo < 256 && lo <= c < x && c <= top)),
            decreases 257 - x,
        {
            mark(masks, x, s, Ghost(nw), Ghost(n));
            x = x + 1;
        }
        proof {
            assert forall|c: int, t: int| 0 <= c < 256 implies #[trigger] masks@[c].has(t) == (m0[c].has(t) || (t == s
                && exists|k2: int|
                0 <= k2 < k + 1 && read_u32(bc@, pc + 3 + 8 * k2) < 256 && #[trigger] in_interval(
                    bc@,
                    pc as int,
                    4,
                    k2,
                    c,
                ))) by {
                if t == s && lo < 256 && lo <= c < x && c <= top {
                    assert(in_interval(bc@, pc as int, 4, k as int, c));
                }
                if t == s && exists|k2: int|
                    0 <= k2 < k + 1 && read_u32(bc@, pc + 3 + 8 * k2) < 256 && #[trigger] in_interval(
                        bc@,
                        pc as int,
                        4,
                        k2,
                        c,
                    ) {
                    let k2 = choose|k2: int|
                        0 <= k2 < k + 1 && read_u32(bc@, pc + 3 + 8 * k2) < 256 && #[trigger] in_interval(
                            bc@,
                            pc as int,
                            4,
                            k2,
                            c,
                        );
                    if k2 < k {
                        assert(exists|k3: int|
                            0 <= k3 < k && read_u32(bc@, pc + 3 + 8 * k3) < 256 && #[trigger] in_interval(
                                bc@,
                                pc as int,
                                4,
                                k3,
                                c,
                            ));
                    }
                }
            }
        }
        k = k + 1;
    }
}

/// Mark state `s` for every byte the consuming instruction at `pc` takes.
#[verifier::rlimit(40)]
fn mark_state(
    masks: &mut Vec<BitState>,
    bc: &[u8],
    pc: usize,
    s: usize,
    Ghost(nw): Ghost<int>,
    Ghost(n): Ghost<int>,
)
    requires
        masks_ok(old(masks)@, nw, n),
        s < n,
        n <= 64 * nw,
        instr_ok(bc@, pc as int),
        is_consuming(bc@[pc as int]),
    ensures
        masks_ok(final(masks)@, nw, n),
        forall|c: int, t: int| 0 <= c < 256 ==> #[trigger] final(masks)@[c].has(t) == (old(masks)@[c].has(t)
            || (t == s && accepts(bc@, pc as int, c))),
{
    let op = bc[pc];
    let ghost m0 = masks@;
    if op == 6 || op == 5 || op == 8 {
        let mut b: u32 = 0;
        while b < 256
            invariant
                op == bc@[pc as int],
                op == 6 || op == 5 || op == 8,
                masks_ok(masks@, nw, n),
                s < n,
                n <= 64 * nw,
                b <= 256,
                forall|c: int, t: int| 0 <= c < 256 ==> #[trigger] masks@[c].has(t) == (m0[c].has(t) || (t == s
                    && c < b && accepts(bc@, pc as int, c))),
            decreases 256 - b,
        {
            let take = if op == 6 {
                true
            } else if op == 5 {
                b != 10 && b != 13
            } else {
                !((9 <= b && b <= 13) || b == 32)
            };
            if take {
                mark(masks, b, s, Ghost(nw), Ghost(n));
            }
            b = b + 1;
        }
    } else if op == 7 {
        mark(masks, 9, s, Ghost(nw), Ghost(n));
        mark(masks, 10, s, Ghost(nw), Ghost(n));
        mark(masks, 11, s, Ghost(nw), Ghost(n));
        mark(masks, 12, s, Ghost(nw), Ghost(n));
        mark(masks, 13, s, Ghost(nw), Ghost(n));
        mark(masks, 32, s, Ghost(nw), Ghost(n));
    } else if op == 1 || op == 2 {
        let v = get_u16(bc, pc + 1) as u32;
        if v < 256 {
            mark(masks, v, s, Ghost(nw), Ghost(n));
            if op == 2 {
                mark(masks, to_lower(v), s, Ghost(nw), Ghost(n));
                mark(masks, to_upper(v), s, Ghost(nw), Ghost(n));
            }
        }
    } else if op == 36 || op == 37 {
        mark_ranges16(masks, bc, pc, s, op == 37, Ghost(nw), Ghost(n));
        proof {
            assert forall|c: int, t: int| 0 <= c < 256 implies #[trigger] masks@[c].has(t) == (m0[c].has(t) || (t == s
                && accepts(bc@, pc as int, c))) by {
                if t == s {
                    if accepts(bc@, pc as int, c) {
                        let (k, x) = choose|k: int, x: int|
                            0 <= k < read_u16(bc@, pc + 1) && #[trigger] in_interval(bc@, pc as int, 2, k, x) && 0 <= x <= 255 && (
                            c == x || op == 37 && (c == crate::interpreter::to_lower(x as u32)
                                || c == crate::interpreter::to_upper(x as u32)));
                        assert(hits(c, x, op == 37));
                    }
                    if exists|k: int, x: int|
                        0 <= k < read_u16(bc@, pc + 1) && #[trigger] in_interval(bc@, pc as int, 2, k, x) && 0 <= x
                            <= 255 && hits(c, x, op == 37) {
                        let (k, x) = choose|k: int, x: int|
                            0 <= k < read_u16(bc@, pc + 1) && #[trigger] in_interval(bc@, pc as int, 2, k, x) && 0 <= x
                                <= 255 && hits(c, x, op == 37);
                        assert(accepts(bc@, pc as int, c));
                    }
                }
            }
        }
    } else if op == 38 {
        mark_ranges32(masks, bc, pc, s, Ghost(nw), Ghost(n));
    }
}

/// Most followers a closure lists one by one.
pub const MAX_FEW: usize = 8;

/// How the followers of one state are stored: no follower, one, a few
/// listed one by one, or a reference to a shared dense set (states with the
/// same many followers share one set).
pub enum SparseClosure {
    /// No reachable consuming state (dead end)
    Empty,
    /// Exactly one reachable consuming state
    Single(usize),
    /// Two to `MAX_FEW` reachable states: the first `len` of `indices`
    Few { indices: [usize; 8], len: u8 },
    /// More: the dense set at this index of the shared table
    DenseRef(usize),
}

/// Whether `t` is among the followers a closure stands for.
pub open spec fn sparse_has(c: SparseClosure, dense: Seq<BitState>, t: int) -> bool {
    match c {
        SparseClosure::Empty => false,
        SparseClosure::Single(i) => t == i,
        SparseClosure::Few { indices, len } => exists|k: int| 0 <= k < len && k < MAX_FEW && #[trigger] indices@[k] == t,
        SparseClosure::DenseRef(id) => id < dense.len() && dense[id as int].has(t),
    }
}

/// Whether two sets have the same words.
fn same_words(a: &BitState, b: &BitState) -> (r: bool)
    ensures
        r == (a.words@ == b.words@),
{
    if a.words.len() != b.words.len() {
        return false;
    }
    let mut i: usize = 0;
    while i < a.words.len()
        invariant
            a.words@.len() == b.words@.len(),
            i <= a.words@.len(),
            forall|j: int| 0 <= j < i ==> a.words@[j] == b.words@[j],
        decreases a.words@.len() - i,
    {
        if a.words[i] != b.words[i] {
            return false;
        }
        i = i + 1;
    }
    assert(a.words@ =~= b.words@);
    true
}

/// A closure refers to an entry of a dense table of `len` entries, if any.
pub open spec fn ref_ok(c: SparseClosure, len: int) -> bool {
    match c {
        SparseClosure::DenseRef(id) => id < len,
        _ => true,
    }
}

/// The sparse form of each closure of `eps`, and the table of distinct
/// dense sets that the closures with many followers share.
fn build_closures(eps: &Vec<BitState>, n: usize, Ghost(nw): Ghost<int>) -> (r: (Vec<SparseClosure>, Vec<BitState>))
    requires
        eps@.len() == n,
        forall|s: int| 0 <= s < n ==> (#[trigger] eps@[s]).words@.len() == nw,
        forall|s: int, t: int| 0 <= s < n && t >= n ==> !#[trigger] eps@[s].has(t),
    ensures
        r.0@.len() == n,
        forall|d: int| 0 <= d < r.1@.len() ==> (#[trigger] r.1@[d]).words@.len() == nw,
        forall|s: int| 0 <= s < n ==> ref_ok(#[trigger] r.0@[s], r.1@.len() as int),
        forall|s: int, t: int| 0 <= s < n ==> #[trigger] sparse_has(r.0@[s], r.1@, t) == eps@[s].has(t),
{
    let mut closures: Vec<SparseClosure> = Vec::new();
    let mut dense: Vec<BitState> = Vec::new();
    let mut s: usize = 0;
    while s < n
        invariant
            eps@.len() == n,
            forall|s2: int| 0 <= s2 < n ==> (#[trigger] eps@[s2]).words@.len() == nw,
            forall|s2: int, t: int| 0 <= s2 < n && t >= n ==> !#[trigger] eps@[s2].has(t),
            s <= n,
            closures@.len() == s,
            forall|d: int| 0 <= d < dense@.len() ==> (#[trigger] dense@[d]).words@.len() == nw,
            forall|s2: int| 0 <= s2 < s ==> ref_ok(#[trigger] closures@[s2], dense@.len() as int),
            forall|s2: int, t: int| 0 <= s2 < s ==> #[trigger] sparse_has(closures@[s2], dense@, t) == eps@[s2].has(t),
        decreases n - s,
    {
        let c = &eps[s];
        let mut indices: [usize; 8] = [0; 8];
        let mut count: usize = 0;
        let mut t: usize = 0;
        while t < n
            invariant
                *c == eps@[s as int],
                t <= n,
                count <= MAX_FEW + 1,
                count <= t,
                forall|k: int| 0 <= k < count && k < MAX_FEW ==> #[trigger] indices@[k] < t,
                count <= MAX_FEW ==> forall|u: int| 0 <= u < t ==> (c.has(u) <==> exists|k: int|
                    0 <= k < count && k < MAX_FEW && #[trigger] indices@[k] == u),
            decreases n - t,
        {
            let ghost old_idx = indices@;
            let ghost old_count = count;
            let hit = c.get(t);
            if hit {
                if count < MAX_FEW {
                    indices[count] = t;
                }
                if count <= MAX_FEW {
                    count = count + 1;
                }
            }
            proof {
                assert forall|k: int| 0 <= k < count && k < MAX_FEW implies #[trigger] indices@[k] < t + 1 by {
                    if k < old_count {
                        assert(indices@[k] == old_idx[k]);
                    }
                }
                if count <= MAX_FEW {
                    assert forall|u: int| 0 <= u < t + 1 implies (c.has(u) <==> exists|k: int|
                        0 <= k < count && k < MAX_FEW && #[trigger] indices@[k] == u) by {
                        if u < t {
                            if c.has(u) {
                                let k = choose|k: int| 0 <= k < old_count && k < MAX_FEW && #[trigger] old_idx[k] == u;
                                assert(indices@[k] == u);
                            }
                            if exists|k: int| 0 <= k < count && k < MAX_FEW && #[trigger] indices@[k] == u {
                                let k = choose|k: int| 0 <= k < count && k < MAX_FEW && #[trigger] indices@[k] == u;
                                if k < old_count {
                                    assert(old_idx[k] == u);
                                } else {
                                    assert(indices@[k] == t);
                                }
                            }
                        } else {
                            if hit {
                                assert(indices@[old_count as int] == t);
                            } else {
                                if exists|k: int| 0 <= k < count && k < MAX_FEW && #[trigger] indices@[k] == u {
                                    let k = choose|k: int| 0 <= k < count && k < MAX_FEW && #[trigger] indices@[k] == u;
                                    assert(old_idx[k] < t);
                                }
                            }
                        }
                    }
                }
            }
            t = t + 1;
        }
        let ghost cs = closures@;
        let ghost ds = dense@;
        let sc = if count == 0 {
            SparseClosure::Empty
        } else if count == 1 {
            SparseClosure::Single(indices[0])
        } else if count <= MAX_FEW {
            SparseClosure::Few { indices, len: count as u8 }
        } else {
            let mut d: usize = 0;
            let mut found = false;
            while !found && d < dense.len()
                invariant
                    d <= dense@.len(),
                    found ==> d < dense@.len() && dense@[d as int].words@ == c.words@,
                decreases dense@.len() - d + (if found { 0int } else { 1int }),
            {
                if same_words(&dense[d], c) {
                    found = true;
                } else {
                    d = d + 1;
                }
            }
            if !found {
                dense.push(c.copy());
            }
            assert(d < dense@.len() && dense@[d as int].words@ == c.words@);
            SparseClosure::DenseRef(d)
        };
        proof {
            assert(dense@.len() >= ds.len());
            assert forall|i: int| 0 <= i < ds.len() implies dense@[i] == ds[i] by {}
            if count == 0 {
                assert forall|t: int| #[trigger] sparse_has(sc, dense@, t) == c.has(t) by {
                    if 0 <= t < n {
                        assert(c.has(t) <==> exists|k: int| 0 <= k < count && k < MAX_FEW && #[trigger] indices@[k] == t);
                    }
                }
            } else if count == 1 {
                assert forall|t: int| #[trigger] sparse_has(sc, dense@, t) == c.has(t) by {
                    if 0 <= t < n {
                        assert(c.has(t) <==> exists|k: int| 0 <= k < count && k < MAX_FEW && #[trigger] indices@[k] == t);
                        if indices@[0] == t {
                            assert(exists|k: int| 0 <= k < count && k < MAX_FEW && #[trigger] indices@[k] == t);
                        }
                        if c.has(t) {
                            let k = choose|k: int| 0 <= k < count && k < MAX_FEW && #[trigger] indices@[k] == t;
                            assert(k == 0);
                        }
                    } else if t >= n {
                        assert(indices@[0] < n);
                    }
                }
            } else if count <= MAX_FEW {
                assert((count as u8) as int == count);
                assert(sc == SparseClosure::Few { indices, len: count as u8 });
                assert forall|t: int| #[trigger] sparse_has(sc, dense@, t) == c.has(t) by {
                    if 0 <= t < n {
                        assert(c.has(t) <==> exists|k: int| 0 <= k < count && k < MAX_FEW && #[trigger] indices@[k] == t);
                        if c.has(t) {
                            let k = choose|k: int| 0 <= k < count && k < MAX_FEW && #[trigger] indices@[k] == t;
                            assert(sc->indices == indices && sc->len == count as u8);
                            assert(0 <= k < sc->len && k < MAX_FEW && sc->indices@[k] == t);
                        }
                        if sparse_has(sc, dense@, t) {
                            let k = choose|k: int| 0 <= k < (count as u8) && k < MAX_FEW && #[trigger] indices@[k] == t;
                            assert(0 <= k < count && k < MAX_FEW && indices@[k] == t);
                        }
                        assert(sparse_has(sc, dense@, t) == c.has(t));
                    } else {
                        if sparse_has(sc, dense@, t) {
                            let k = choose|k: int| 0 <= k < (count as u8) && k < MAX_FEW && #[trigger] indices@[k] == t;
                            assert(0 <= indices@[k] < n);
                        }
                        assert(sparse_has(sc, dense@, t) == c.has(t));
                    }
                }
            } else {
                assert forall|t: int| #[trigger] sparse_has(sc, dense@, t) == c.has(t) by {
                    match sc {
                        SparseClosure::DenseRef(id) => {
                            assert(dense@[id as int].has(t) == c.has(t));
                        },
                        _ => {},
                    }
                }
            }
            assert forall|s2: int| 0 <= s2 < s implies ref_ok(#[trigger] cs[s2], dense@.len() as int) by {
                assert(ref_ok(cs[s2], ds.len() as int));
            }
            assert forall|s2: int, t: int| 0 <= s2 < s implies #[trigger] sparse_has(cs[s2], dense@, t) == eps@[s2].has(t) by {
                assert(sparse_has(cs[s2], ds, t) == eps@[s2].has(t));
                assert(ref_ok(cs[s2], ds.len() as int));
            }
            assert(ref_ok(sc, dense@.len() as int));
        }
        closures.push(sc);
        proof {
            assert(closures@[s as int] == sc);
            assert forall|s2: int| 0 <= s2 < s implies closures@[s2] == cs[s2] by {}
        }
        s = s + 1;
    }
    (closures, dense)
}

/// Pre-compiled masks for the bit-parallel VM.
/// Created once from the bytecode, reused for every match.
pub struct BitVmProgram {
    /// For each byte value (0-255), which consuming states accept it
    char_masks: Vec<BitState>,
    /// Which states are the MATCH state
    match_mask: BitState,
    /// Epsilon closure from each state, sparse where it has few states
    closures: Vec<SparseClosure>,
    /// The distinct dense closures that `closures` refers to
    dense_closures: Vec<BitState>,
    /// Epsilon closure from each state: the states reached after it (dense,
    /// for the simulations that step whole sets)
    epsilon_closure: Vec<BitState>,
    /// Number of NFA states (bytecode PCs that are consuming instructions)
    num_states: usize,
    /// Mapping: NFA state index to bytecode PC
    state_to_pc: Vec<usize>,
    /// Mapping: bytecode PC to NFA state index (`usize::MAX` where no state)
    pc_to_state: Vec<usize>,
    /// Number of words of each state set
    num_words: usize,
    /// The initial state set (epsilon closure from where a match attempt begins)
    initial_state: BitState,
    /// For each byte, the states after it when only the initial states are
    /// active: their followers for that byte, plus the initial states again.
    /// One copy replaces the closures of every initial state per byte.
    initial_contribution: Vec<BitState>,
    /// The states that are not initial (for filtering mid-match states)
    non_initial_mask: BitState,
}

impl BitVmProgram {
    /// Every set has `num_words` words and no bit from `num_states` on; the
    /// per-byte initial contributions and the non-initial mask are what they
    /// stand for.
    pub closed spec fn wf(&self) -> bool {
        let n = self.num_states as int;
        let nw = self.num_words as int;
        &&& self.core_wf()
        &&& self.initial_contribution@.len() == 256
        &&& forall|b: int| 0 <= b < 256 ==> (#[trigger] self.initial_contribution@[b]).words@.len() == nw
        &&& forall|b: int, t: int| 0 <= b < 256 ==> #[trigger] self.initial_contribution@[b].has(t)
            == step_set(*self, start_set(*self), b).contains(t)
        &&& self.non_initial_mask.words@.len() == nw
        &&& forall|t: int| 0 <= t < n ==> #[trigger] self.non_initial_mask.has(t) == !self.initial_state.has(t)
        &&& self.closures@.len() == n
        &&& forall|d: int| 0 <= d < self.dense_closures@.len() ==> (#[trigger] self.dense_closures@[d]).words@.len() == nw
        &&& forall|s: int| 0 <= s < n ==> ref_ok(#[trigger] self.closures@[s], self.dense_closures@.len() as int)
        &&& forall|s: int, t: int| 0 <= s < n ==> #[trigger] sparse_has(self.closures@[s], self.dense_closures@, t)
            == self.epsilon_closure@[s].has(t)
    }

    /// The sets that describe the automaton have `num_words` words and no bit
    /// from `num_states` on.
    closed spec fn core_wf(&self) -> bool {
        let n = self.num_states as int;
        let nw = self.num_words as int;
        &&& nw == (n + 63) / 64
        &&& self.state_to_pc@.len() == n
        &&& masks_ok(self.char_masks@, nw, n)
        &&& self.match_mask.words@.len() == nw
        &&& self.initial_state.words@.len() == nw
        &&& self.epsilon_closure@.len() == n
        &&& forall|s: int| 0 <= s < n ==> (#[trigger] self.epsilon_closure@[s]).words@.len() == nw
        &&& forall|t: int| t >= n ==> !self.match_mask.has(t) && !self.initial_state.has(t)
        &&& forall|s: int, t: int| 0 <= s < n && t >= n ==> !#[trigger] self.epsilon_closure@[s].has(t)
    }

    /// The number of states.
    pub closed spec fn nstates(&self) -> nat {
        self.num_states as nat
    }

    /// The code position of state `s`.
    pub closed spec fn state_pc(&self, s: int) -> int {
        self.state_to_pc@[s] as int
    }

    /// Whether state `s` takes byte `b`.
    pub closed spec fn takes(&self, s: int, b: int) -> bool {
        self.char_masks@[b].has(s)
    }

    /// Whether state `s` is a `match`.
    pub closed spec fn is_final(&self, s: int) -> bool {
        self.match_mask.has(s)
    }

    /// Whether state `t` follows state `s` once `s` has taken its byte.
    pub closed spec fn follows(&self, s: int, t: int) -> bool {
        self.epsilon_closure@[s].has(t)
    }

    /// Whether state `t` is active when a match attempt begins.
    pub closed spec fn starts(&self, t: int) -> bool {
        self.initial_state.has(t)
    }

    /// Whether the program is the NFA of the bytecode `bc`.
    pub open spec fn models(&self, bc: Seq<u8>) -> bool {
        let st = nfa_states(bc);
        let total = code_end(bc);
        &&& self.nstates() == st.len()
        &&& forall|s: int| 0 <= s < st.len() ==> #[trigger] self.state_pc(s) == st[s]
        &&& forall|s: int, b: int|
            0 <= s < st.len() && 0 <= b < 256 ==> #[trigger] self.takes(s, b) == accepts(bc, st[s], b)
        &&& forall|s: int| 0 <= s < st.len() ==> #[trigger] self.is_final(s) == (bc[st[s]] == 16)
        &&& forall|s: int, t: int|
            0 <= s < st.len() && 0 <= t < st.len() ==> #[trigger] self.follows(s, t) == eps_reaches(
                bc,
                total,
                st[s] + instr_size(bc, st[s]),
                st[t],
            )
        &&& forall|t: int|
            0 <= t < st.len() ==> #[trigger] self.starts(t) == eps_reaches(
                bc,
                total,
                anchor_pc(bc),
                st[t],
            )
    }

    /// Compile bytecode into bit masks. Returns None if the pattern does not
    /// fit the byte-level simulation.
    pub fn compile(bytecode: &[u8]) -> (r: Option<Self>)
        ensures
            match r {
                None => !supported(bytecode@),
                Some(p) => supported(bytecode@) && p.wf() && p.models(bytecode@),
            },
    {
        if bytecode.len() < RE_HEADER_LEN {
            return None;
        }
        let bc_len = get_u32(bytecode, 4) as usize;
        if bc_len > bytecode.len() - RE_HEADER_LEN {
            return None;
        }
        let total = RE_HEADER_LEN + bc_len;
        if total == usize::MAX {
            return None;
        }
        let st = match walk(bytecode, total) {
            Some(v) => v,
            None => return None,
        };
        let n = st.len();
        if n == 0 {
            return None;
        }
        let ghost ws = nfa_states(bytecode@);
        proof {
            lemma_walk_sorted(bytecode@, RE_HEADER_LEN as int, total as int);
        }
        // pc -> state index
        let mut pc_to_state: Vec<usize> = Vec::new();
        let mut k: usize = 0;
        while k <= total
            invariant
                k <= total + 1,
                total < usize::MAX,
                pc_to_state@.len() == k,
                forall|j: int| 0 <= j < k ==> pc_to_state@[j] == usize::MAX,
            decreases total + 1 - k,
        {
            pc_to_state.push(usize::MAX);
            k = k + 1;
        }
        let mut s: usize = 0;
        while s < n
            invariant
                n == st@.len(),
                n == ws.len(),
                forall|i: int| 0 <= i < n ==> #[trigger] st@[i] == ws[i],
                forall|i: int, j: int| #![trigger ws[i], ws[j]] 0 <= i < j < ws.len() ==> ws[i] < ws[j],
                forall|i: int| 0 <= i < ws.len() ==> RE_HEADER_LEN <= #[trigger] ws[i] < total,
                s <= n,
                pc_to_state@.len() == total + 1,
                forall|i: int| 0 <= i < s ==> pc_to_state@[#[trigger] st@[i] as int] == i,
                forall|p: int| 0 <= p <= total && #[trigger] pc_to_state@[p] != usize::MAX ==> pc_to_state@[p] < s && st@[pc_to_state@[p] as int] == p,
            decreases n - s,
        {
            let p = st[s];
            proof {
                assert forall|i: int| 0 <= i < s implies st@[i] != p by {
                    assert(ws[i] < ws[s as int]);
                }
            }
            pc_to_state.set(p, s);
            s = s + 1;
        }
        proof {
            assert(index_maps(bytecode@, total as int, st@, pc_to_state@)) by {
                assert forall|p: int| 0 <= p <= total && #[trigger] pc_to_state@[p] < st@.len() implies st@[pc_to_state@[p] as int] == p by {
                    assert(pc_to_state@[p] != usize::MAX);
                }
            }
        }
        // character masks
        let num_words = n / 64 + if n % 64 == 0 { 0 } else { 1 };
        let ghost nw = num_words as int;
        let mut char_masks: Vec<BitState> = Vec::new();
        let mut b: usize = 0;
        while b < 256
            invariant
                b <= 256,
                nw == (n + 63) / 64,
                char_masks@.len() == b,
                forall|c: int| 0 <= c < b ==> (#[trigger] char_masks@[c]).words@.len() == nw,
                forall|c: int, t: int| 0 <= c < b ==> !#[trigger] char_masks@[c].has(t),
            decreases 256 - b,
        {
            char_masks.push(BitState::new(n));
            b = b + 1;
        }
        let mut match_mask = BitState::new(n);
        let mut s: usize = 0;
        while s < n
            invariant
                n == st@.len(),
                n == ws.len(),
                forall|i: int| 0 <= i < n ==> #[trigger] st@[i] == ws[i],
                forall|i: int| 0 <= i < ws.len() ==> 0 <= #[trigger] ws[i] < bytecode@.len() && is_consuming(bytecode@[ws[i]]),
                walk_ok(bytecode@, RE_HEADER_LEN as int, total as int) ==> forall|i: int| 0 <= i < ws.len() ==> instr_ok(bytecode@, #[trigger] ws[i]),
                walk_ok(bytecode@, RE_HEADER_LEN as int, total as int),
                s <= n,
                nw == (n + 63) / 64,
                masks_ok(char_masks@, nw, n as int),
                match_mask.words@.len() == nw,
                forall|c: int, t: int| 0 <= c < 256 ==> #[trigger] char_masks@[c].has(t) == (0 <= t < s && accepts(bytecode@, ws[t], c)),
                forall|t: int| #[trigger] match_mask.has(t) == (0 <= t < s && bytecode@[ws[t]] == 16),
            decreases n - s,
        {
            let p = st[s];
            proof {
                assert(instr_ok(bytecode@, ws[s as int]));
                assert(n <= 64 * nw);
            }
            mark_state(&mut char_masks, bytecode, p, s, Ghost(nw), Ghost(n as int));
            if bytecode[p] == 16 {
                match_mask.set(s);
            }
            s = s + 1;
        }
        // epsilon closures
        let mut epsilon_closure: Vec<BitState> = Vec::new();
        let mut s: usize = 0;
        while s < n
            invariant
                n == st@.len(),
                n == ws.len(),
                forall|i: int| 0 <= i < n ==> #[trigger] st@[i] == ws[i],
                forall|i: int| 0 <= i < ws.len() ==> 0 <= #[trigger] ws[i] < bytecode@.len(),
                forall|i: int| 0 <= i < ws.len() ==> instr_ok(bytecode@, #[trigger] ws[i]),
                index_maps(bytecode@, total as int, st@, pc_to_state@),
                s <= n,
                nw == (n + 63) / 64,
                epsilon_closure@.len() == s,
                forall|i: int| 0 <= i < s ==> (#[trigger] epsilon_closure@[i]).words@.len() == nw,
                forall|i: int, t: int| 0 <= i < s ==> #[trigger] epsilon_closure@[i].has(t) == (0 <= t < n && eps_reaches(bytecode@, total as int, ws[i] + instr_size(bytecode@, ws[i]), ws[t])),
            decreases n - s,
        {
            let p = st[s];
            proof {
                assert(instr_ok(bytecode@, ws[s as int]));
                assert(p + instr_size(bytecode@, p as int) <= bytecode.len());
            }
            let next = p + instruction_size(bytecode, p);
            let c = closure_from(bytecode, total, &st, &pc_to_state, next);
            epsilon_closure.push(c);
            s = s + 1;
        }
        let anchor = anchor_of(bytecode, total);
        let initial_state = closure_from(bytecode, total, &st, &pc_to_state, anchor);
        let (closures, dense_closures) = build_closures(&epsilon_closure, n, Ghost(nw));
        let mut non_initial_mask = BitState::new(n);
        let mut prog = BitVmProgram {
            char_masks,
            match_mask,
            closures,
            dense_closures,
            epsilon_closure,
            num_states: n,
            state_to_pc: st,
            pc_to_state,
            num_words,
            initial_state,
            initial_contribution: Vec::new(),
            non_initial_mask: BitState::new(n),
        };
        proof {
            assert(prog.core_wf());
            assert(prog.models(bytecode@));
            assert(supported(bytecode@));
        }
        // initial contributions: the step from the initial states, per byte
        let mut contribution: Vec<BitState> = Vec::new();
        let mut b: usize = 0;
        while b < 256
            invariant
                prog.core_wf(),
                b <= 256,
                contribution@.len() == b,
                forall|c: int| 0 <= c < b ==> (#[trigger] contribution@[c]).words@.len() == prog.num_words,
                forall|c: int, t: int| 0 <= c < b ==> #[trigger] contribution@[c].has(t) == step_set(prog, start_set(prog), c).contains(t),
            decreases 256 - b,
        {
            let next = prog.step(&prog.initial_state, b as u8);
            contribution.push(next);
            b = b + 1;
        }
        // non-initial mask: the complement of the initial states
        let mut i: usize = 0;
        while i < non_initial_mask.words.len()
            invariant
                prog.core_wf(),
                non_initial_mask.words@.len() == prog.num_words,
                i <= prog.num_words,
                forall|t: int| 0 <= t < 64 * i ==> #[trigger] non_initial_mask.has(t) == !prog.initial_state.has(t),
            decreases prog.num_words - i,
        {
            let w = !prog.initial_state.words[i];
            let ghost before = non_initial_mask;
            non_initial_mask.words.set(i, w);
            proof {
                assert forall|t: int| 0 <= t < 64 * (i + 1) implies #[trigger] non_initial_mask.has(t) == !prog.initial_state.has(t) by {
                    if t >= 64 * i {
                        assert(t / 64 == i);
                        lemma_bit_not(prog.initial_state.words@[i as int], (t % 64) as u64);
                    } else {
                        assert(t / 64 < i);
                        assert(non_initial_mask.words@[t / 64] == before.words@[t / 64]);
                        assert(before.has(t) == !prog.initial_state.has(t));
                    }
                }
            }
            i = i + 1;
        }
        let ghost p0 = prog;
        prog.initial_contribution = contribution;
        prog.non_initial_mask = non_initial_mask;
        proof {
            assert forall|c: int, t: int| 0 <= c < 256 implies #[trigger] prog.initial_contribution@[c].has(t)
                == step_set(prog, start_set(prog), c).contains(t) by {
                lemma_step_set_same(prog, p0, c);
            }
            assert(prog.wf());
        }
        Some(prog)
    }
}

/// The step from the start states depends only on the automaton.
proof fn lemma_step_set_same(p: BitVmProgram, q: BitVmProgram, b: int)
    requires
        p.char_masks == q.char_masks,
        p.epsilon_closure == q.epsilon_closure,
        p.initial_state == q.initial_state,
        p.num_states == q.num_states,
    ensures
        step_set(p, start_set(p), b) == step_set(q, start_set(q), b),
{
    assert(start_set(p) =~= start_set(q));
    assert forall|t: int| #[trigger] after_byte(p, start_set(p), b).contains(t) == after_byte(q, start_set(q), b).contains(t) by {
        if after_byte(p, start_set(p), b).contains(t) {
            let s = choose|s: int| 0 <= s < p.nstates() && start_set(p).contains(s) && p.takes(s, b) && #[trigger] p.follows(s, t);
            assert(q.follows(s, t));
        }
        if after_byte(q, start_set(q), b).contains(t) {
            let s = choose|s: int| 0 <= s < q.nstates() && start_set(q).contains(s) && q.takes(s, b) && #[trigger] q.follows(s, t);
            assert(p.follows(s, t));
        }
    }
    assert(after_byte(p, start_set(p), b) =~= after_byte(q, start_set(q), b));
}

/// The bits set in a state.
pub open spec fn bits(x: BitState) -> Set<int> {
    Set::new(|i: int| x.has(i))
}

/// Whether a set holds a final state of the program.
pub open spec fn has_final(p: BitVmProgram, cur: Set<int>) -> bool {
    exists|t: int| cur.contains(t) && #[trigger] p.is_final(t)
}

/// The states active before any byte.
pub open spec fn start_set(p: BitVmProgram) -> Set<int> {
    Set::new(|t: int| 0 <= t < p.nstates() && p.starts(t))
}

/// The states of `cur` that are not start states.
pub open spec fn non_start(p: BitVmProgram, cur: Set<int>) -> Set<int> {
    Set::new(|s: int| cur.contains(s) && !p.starts(s))
}

/// The states that follow the states of `cur` that take byte `b`.
pub open spec fn after_byte(p: BitVmProgram, cur: Set<int>, b: int) -> Set<int> {
    Set::new(
        |t: int|
            0 <= t < p.nstates() && exists|s: int|
                0 <= s < p.nstates() && cur.contains(s) && p.takes(s, b) && #[trigger] p.follows(s, t),
    )
}

/// One byte of the unanchored simulation: the followers of the states that
/// take it, and the start states again (a match may begin anywhere).
pub open spec fn step_set(p: BitVmProgram, cur: Set<int>, b: int) -> Set<int> {
    after_byte(p, cur, b) + start_set(p)
}

/// The states of a search begun at `from`, after the bytes `input[from..e]`:
/// at each byte the followers of the states that take it, and the start
/// states again (a match may begin at every position).
pub open spec fn search_set(p: BitVmProgram, input: Seq<u8>, from: int, e: int) -> Set<int>
    decreases e - from,
{
    if e <= from {
        start_set(p)
    } else {
        step_set(p, search_set(p, input, from, e - 1), input[e - 1] as int)
    }
}

/// The states of a run begun at `s`, after the bytes `input[s..e]`: the
/// start states, then at each byte the followers of the states that take it.
pub open spec fn run_set(p: BitVmProgram, input: Seq<u8>, s: int, e: int) -> Set<int>
    decreases e - s,
{
    if e <= s {
        start_set(p)
    } else {
        after_byte(p, run_set(p, input, s, e - 1), input[e - 1] as int)
    }
}

/// Whether the pattern matches `input[s..e]`: a run begun at `s` holds a
/// final state after the byte before `e`.
pub open spec fn matches_at(p: BitVmProgram, input: Seq<u8>, s: int, e: int) -> bool {
    0 <= s <= e <= input.len() && has_final(p, run_set(p, input, s, e))
}

/// The last end, up to `e`, of a match that begins at `s`.
pub open spec fn last_end(p: BitVmProgram, input: Seq<u8>, s: int, e: int) -> Option<int>
    decreases e - s + 1,
{
    if e < s {
        None
    } else if has_final(p, run_set(p, input, s, e)) {
        Some(e)
    } else {
        last_end(p, input, s, e - 1)
    }
}

/// The end of the longest match that begins at `s`.
pub open spec fn longest_end(p: BitVmProgram, input: Seq<u8>, s: int) -> Option<int> {
    last_end(p, input, s, input.len() as int)
}

/// The leftmost-longest match that begins at or after `from`: the first
/// start at which some match begins, and the longest end from there.
pub open spec fn leftmost_from(p: BitVmProgram, input: Seq<u8>, from: int) -> Option<(int, int)>
    decreases input.len() + 1 - from,
{
    if from < 0 || from > input.len() {
        None
    } else {
        match longest_end(p, input, from) {
            Some(e) => Some((from, e)),
            None => leftmost_from(p, input, from + 1),
        }
    }
}

/// Where the search goes on after the match `(s, e)`: at its end, or one
/// byte further after an empty match.
pub open spec fn resume_at(s: int, e: int) -> int {
    if e > s {
        e
    } else {
        s + 1
    }
}

/// The number of non-overlapping matches from `pos` on: each leftmost-longest
/// match, the search going on after it.
pub open spec fn count_from(p: BitVmProgram, input: Seq<u8>, pos: int) -> nat
    decreases input.len() + 1 - pos,
{
    if pos < 0 || pos > input.len() {
        0
    } else {
        match leftmost_from(p, input, pos) {
            None => 0,
            Some((s, e)) => {
                proof {
                    lemma_leftmost_bounds(p, input, pos);
                }
                1 + count_from(p, input, resume_at(s, e))
            },
        }
    }
}

/// The leftmost match begins at or after `from` and ends within the input,
/// no earlier than it begins.
pub proof fn lemma_leftmost_bounds(p: BitVmProgram, input: Seq<u8>, from: int)
    ensures
        match leftmost_from(p, input, from) {
            Some((s, e)) => from <= s <= e <= input.len() && matches_at(p, input, s, e),
            None => true,
        },
    decreases input.len() + 1 - from,
{
    if 0 <= from <= input.len() {
        lemma_last_end(p, input, from, input.len() as int);
        if longest_end(p, input, from) is None {
            lemma_leftmost_bounds(p, input, from + 1);
        }
    }
}

impl BitState {
    /// A copy with the same words.
    fn copy(&self) -> (r: BitState)
        ensures
            r.words@ == self.words@,
    {
        let mut words: Vec<u64> = Vec::new();
        let mut i: usize = 0;
        while i < self.words.len()
            invariant
                i <= self.words@.len(),
                words@ == self.words@.take(i as int),
            decreases self.words@.len() - i,
        {
            words.push(self.words[i]);
            assert(words@ =~= self.words@.take(i + 1));
            i = i + 1;
        }
        assert(self.words@.take(self.words@.len() as int) =~= self.words@);
        BitState { words }
    }
}

impl BitVmProgram {
    /// Write into `out` the followers of the states of `state` that take
    /// `byte`.
    fn after_into(&self, state: &BitState, byte: u8, out: &mut BitState)
        requires
            self.core_wf(),
            state.words@.len() == self.num_words,
            old(out).words@.len() == self.num_words,
        ensures
            final(out).words@.len() == self.num_words,
            forall|t: int| #[trigger] final(out).has(t) == after_byte(*self, bits(*state), byte as int).contains(t),
    {
        out.clear();
        let n = self.num_states;
        let mask = &self.char_masks[byte as usize];
        let mut s: usize = 0;
        while s < n
            invariant
                self.core_wf(),
                n == self.num_states,
                *mask == self.char_masks@[byte as int],
                state.words@.len() == self.num_words,
                out.words@.len() == self.num_words,
                s <= n,
                forall|t: int| #[trigger] out.has(t) == (0 <= t < n && exists|s2: int|
                    0 <= s2 < s && state.has(s2) && self.takes(s2, byte as int) && #[trigger] self.follows(s2, t)),
            decreases n - s,
        {
            if state.get(s) && mask.get(s) {
                out.or_assign(&self.epsilon_closure[s]);
                proof {
                    assert forall|t: int| #[trigger] out.has(t) == (0 <= t < n && exists|s2: int|
                        0 <= s2 < s + 1 && state.has(s2) && self.takes(s2, byte as int) && #[trigger] self.follows(s2, t)) by {
                        if self.follows(s as int, t) {
                            assert(0 <= t < n);
                        }
                        if exists|s2: int| 0 <= s2 < s + 1 && state.has(s2) && self.takes(s2, byte as int) && #[trigger] self.follows(s2, t) {
                            let s2 = choose|s2: int| 0 <= s2 < s + 1 && state.has(s2) && self.takes(s2, byte as int) && #[trigger] self.follows(s2, t);
                            if s2 < s {
                                assert(exists|s3: int| 0 <= s3 < s && state.has(s3) && self.takes(s3, byte as int) && #[trigger] self.follows(s3, t));
                            }
                        }
                    }
                }
            } else {
                proof {
                    assert forall|t: int| #[trigger] out.has(t) == (0 <= t < n && exists|s2: int|
                        0 <= s2 < s + 1 && state.has(s2) && self.takes(s2, byte as int) && #[trigger] self.follows(s2, t)) by {
                        if exists|s2: int| 0 <= s2 < s + 1 && state.has(s2) && self.takes(s2, byte as int) && #[trigger] self.follows(s2, t) {
                            let s2 = choose|s2: int| 0 <= s2 < s + 1 && state.has(s2) && self.takes(s2, byte as int) && #[trigger] self.follows(s2, t);
                            if s2 < s {
                                assert(exists|s3: int| 0 <= s3 < s && state.has(s3) && self.takes(s3, byte as int) && #[trigger] self.follows(s3, t));
                            }
                        }
                    }
                }
            }
            s = s + 1;
        }
        proof {
            assert forall|t: int| #[trigger] out.has(t) == after_byte(*self, bits(*state), byte as int).contains(t) by {
                if exists|s2: int| 0 <= s2 < n && bits(*state).contains(s2) && self.takes(s2, byte as int) && #[trigger] self.follows(s2, t) {
                    let s2 = choose|s2: int| 0 <= s2 < n && bits(*state).contains(s2) && self.takes(s2, byte as int) && #[trigger] self.follows(s2, t);
                    assert(state.has(s2));
                }
            }
        }
    }

    /// Some marked dense closure from index `lo` on holds `t`.
    closed spec fn seen_has(&self, seen: Seq<bool>, lo: int, t: int) -> bool {
        exists|d: int| lo <= d < seen.len() && seen[d] && #[trigger] self.dense_closures@[d].has(t)
    }

    /// `t` follows one of the states below `s` of `src` that take `b`.
    closed spec fn reach_before(&self, src: Set<int>, b: int, s: int, t: int) -> bool {
        0 <= t < self.num_states && exists|s2: int|
            0 <= s2 < s && src.contains(s2) && self.takes(s2, b) && #[trigger] self.follows(s2, t)
    }

    /// Add to `out` the followers of the states of `state` that take `byte`,
    /// leaving out the initial states when `skip_initial`. Small closures
    /// set their bits one by one; each shared dense closure is added once,
    /// after all states are seen.
    #[verifier::rlimit(40)]
    fn add_followers(&self, state: &BitState, byte: u8, skip_initial: bool, out: &mut BitState)
        requires
            self.wf(),
            state.words@.len() == self.num_words,
            old(out).words@.len() == self.num_words,
        ensures
            final(out).words@.len() == self.num_words,
            forall|t: int| #[trigger] final(out).has(t) == (old(out).has(t) || after_byte(
                *self,
                if skip_initial { non_start(*self, bits(*state)) } else { bits(*state) },
                byte as int,
            ).contains(t)),
    {
        let ghost src = if skip_initial { non_start(*self, bits(*state)) } else { bits(*state) };
        let ghost b = byte as int;
        let n = self.num_states;
        let mask = &self.char_masks[byte as usize];
        let nd = self.dense_closures.len();
        let mut seen: Vec<bool> = Vec::new();
        while seen.len() < nd
            invariant
                seen@.len() <= nd,
                forall|d: int| 0 <= d < seen@.len() ==> !seen@[d],
            decreases nd - seen@.len(),
        {
            seen.push(false);
        }
        proof {
            assert forall|t: int| !self.seen_has(seen@, 0, t) by {}
            assert forall|t: int| !self.reach_before(src, b, 0, t) by {}
        }
        let mut s: usize = 0;
        while s < n
            invariant
                self.wf(),
                n == self.num_states,
                nd == self.dense_closures@.len(),
                *mask == self.char_masks@[byte as int],
                b == byte as int,
                state.words@.len() == self.num_words,
                out.words@.len() == self.num_words,
                seen@.len() == nd,
                src == (if skip_initial { non_start(*self, bits(*state)) } else { bits(*state) }),
                s <= n,
                forall|t: int| #[trigger] out.has(t) ==> (old(out).has(t) || self.reach_before(src, b, s as int, t)),
                forall|t: int| self.seen_has(seen@, 0, t) ==> self.reach_before(src, b, s as int, t),
                forall|t: int| old(out).has(t) ==> #[trigger] out.has(t),
                forall|t: int| self.reach_before(src, b, s as int, t) ==> #[trigger] out.has(t) || self.seen_has(seen@, 0, t),
            decreases n - s,
        {
            let keep = state.get(s) && (!skip_initial || self.non_initial_mask.get(s)) && mask.get(s);
            proof {
                assert(keep == (src.contains(s as int) && self.takes(s as int, b)));
            }
            let ghost out0 = *out;
            let ghost seen0 = seen@;
            if keep {
                match &self.closures[s] {
                    SparseClosure::Empty => {},
                    SparseClosure::Single(i) => {
                        proof {
                            assert(sparse_has(self.closures@[s as int], self.dense_closures@, *i as int));
                            assert(self.epsilon_closure@[s as int].has(*i as int));
                        }
                        out.set(*i);
                    },
                    SparseClosure::Few { indices, len } => {
                        let mut k: usize = 0;
                        while k < *len as usize && k < MAX_FEW
                            invariant
                                self.wf(),
                                n == self.num_states,
                                0 <= s < n,
                                self.closures@[s as int] == (SparseClosure::Few { indices: *indices, len: *len }),
                                out.words@.len() == self.num_words,
                                forall|t: int| #[trigger] out.has(t) == (out0.has(t) || exists|k2: int|
                                    0 <= k2 < k && k2 < *len && k2 < MAX_FEW && indices@[k2] == t),
                            decreases MAX_FEW - k,
                        {
                            let i = indices[k];
                            proof {
                                assert(self.closures@[s as int]->indices == *indices);
                                assert(self.closures@[s as int]->len == *len);
                                assert(0 <= k < self.closures@[s as int]->len && k < MAX_FEW
                                    && self.closures@[s as int]->indices@[k as int] == i);
                                assert(sparse_has(self.closures@[s as int], self.dense_closures@, i as int));
                                assert(self.epsilon_closure@[s as int].has(i as int));
                            }
                            out.set(i);
                            proof {
                                assert forall|t: int| #[trigger] out.has(t) == (out0.has(t) || exists|k2: int|
                                    0 <= k2 < k + 1 && k2 < *len && k2 < MAX_FEW && indices@[k2] == t) by {
                                    if t == i {
                                        assert(indices@[k as int] == t);
                                    }
                                    if exists|k2: int| 0 <= k2 < k + 1 && k2 < *len && k2 < MAX_FEW && indices@[k2] == t {
                                        let k2 = choose|k2: int| 0 <= k2 < k + 1 && k2 < *len && k2 < MAX_FEW && indices@[k2] == t;
                                        if k2 < k {
                                            assert(exists|k3: int| 0 <= k3 < k && k3 < *len && k3 < MAX_FEW && indices@[k3] == t);
                                        }
                                    }
                                }
                            }
                            k = k + 1;
                        }
                        proof {
                            assert forall|t: int| #[trigger] out.has(t) == (out0.has(t) || sparse_has(self.closures@[s as int], self.dense_closures@, t)) by {
                                if exists|k2: int| 0 <= k2 < k && k2 < *len && k2 < MAX_FEW && indices@[k2] == t {
                                    let k2 = choose|k2: int| 0 <= k2 < k && k2 < *len && k2 < MAX_FEW && indices@[k2] == t;
                                    assert(indices@[k2] == t);
                                }
                                if sparse_has(self.closures@[s as int], self.dense_closures@, t) {
                                    let k2 = choose|k2: int| 0 <= k2 < *len && k2 < MAX_FEW && #[trigger] indices@[k2] == t;
                                    assert(exists|k3: int| 0 <= k3 < k && k3 < *len && k3 < MAX_FEW && indices@[k3] == t);
                                }
                            }
                        }
                    },
                    SparseClosure::DenseRef(id) => {
                        proof {
                            assert(ref_ok(self.closures@[s as int], nd as int));
                        }
                        seen.set(*id, true);
                    },
                }
            }
            proof {
                let s1 = (s + 1) as int;
                assert forall|t: int| #[trigger] out.has(t) implies (old(out).has(t) || self.reach_before(src, b, s1, t)) by {
                    if out0.has(t) {
                        if !old(out).has(t) {
                            let s2 = choose|s2: int| 0 <= s2 < s && src.contains(s2) && self.takes(s2, b) && #[trigger] self.follows(s2, t);
                            assert(self.reach_before(src, b, s1, t));
                        }
                    } else {
                        assert(keep);
                        assert(sparse_has(self.closures@[s as int], self.dense_closures@, t));
                        assert(self.follows(s as int, t));
                        assert(self.reach_before(src, b, s1, t));
                    }
                }
                assert forall|t: int| self.seen_has(seen@, 0, t) implies self.reach_before(src, b, s1, t) by {
                    let d = choose|d: int| 0 <= d < seen@.len() && seen@[d] && #[trigger] self.dense_closures@[d].has(t);
                    if seen0[d] {
                        assert(self.seen_has(seen0, 0, t));
                        let s2 = choose|s2: int| 0 <= s2 < s && src.contains(s2) && self.takes(s2, b) && #[trigger] self.follows(s2, t);
                        assert(self.reach_before(src, b, s1, t));
                    } else {
                        assert(keep);
                        assert(sparse_has(self.closures@[s as int], self.dense_closures@, t));
                        assert(self.follows(s as int, t));
                        assert(self.reach_before(src, b, s1, t));
                    }
                }
                assert forall|t: int| self.reach_before(src, b, s1, t) implies #[trigger] out.has(t) || self.seen_has(seen@, 0, t) by {
                    let s2 = choose|s2: int| 0 <= s2 < s1 && src.contains(s2) && self.takes(s2, b) && #[trigger] self.follows(s2, t);
                    if s2 < s {
                        assert(self.reach_before(src, b, s as int, t));
                        if self.seen_has(seen0, 0, t) {
                            let d = choose|d: int| 0 <= d < seen0.len() && seen0[d] && #[trigger] self.dense_closures@[d].has(t);
                            assert(seen@[d]);
                            assert(self.seen_has(seen@, 0, t));
                        }
                    } else {
                        assert(sparse_has(self.closures@[s as int], self.dense_closures@, t));
                        match self.closures@[s as int] {
                            SparseClosure::DenseRef(id) => {
                                assert(seen@[id as int]);
                                assert(self.seen_has(seen@, 0, t));
                            },
                            _ => {},
                        }
                    }
                }
            }
            s = s + 1;
        }
        let mut d: usize = 0;
        while d < nd
            invariant
                self.wf(),
                n == self.num_states,
                nd == self.dense_closures@.len(),
                b == byte as int,
                out.words@.len() == self.num_words,
                seen@.len() == nd,
                d <= nd,
                forall|t: int| #[trigger] out.has(t) ==> (old(out).has(t) || self.reach_before(src, b, n as int, t)),
                forall|t: int| self.seen_has(seen@, 0, t) ==> self.reach_before(src, b, n as int, t),
                forall|t: int| old(out).has(t) ==> #[trigger] out.has(t),
                forall|t: int| self.reach_before(src, b, n as int, t) ==> #[trigger] out.has(t) || self.seen_has(seen@, d as int, t),
            decreases nd - d,
        {
            let ghost out0 = *out;
            if seen[d] {
                out.or_assign(&self.dense_closures[d]);
            }
            proof {
                assert forall|t: int| #[trigger] out.has(t) implies (old(out).has(t) || self.reach_before(src, b, n as int, t)) by {
                    if !out0.has(t) {
                        assert(self.seen_has(seen@, 0, t));
                    }
                }
                assert forall|t: int| self.reach_before(src, b, n as int, t) implies #[trigger] out.has(t) || self.seen_has(seen@, d + 1, t) by {
                    if self.seen_has(seen@, d as int, t) {
                        let d2 = choose|d2: int| d <= d2 < seen@.len() && seen@[d2] && #[trigger] self.dense_closures@[d2].has(t);
                        if d2 > d {
                            assert(self.seen_has(seen@, d + 1, t));
                        }
                    }
                }
            }
            d = d + 1;
        }
        proof {
            assert forall|t: int| #[trigger] out.has(t) == (old(out).has(t) || after_byte(*self, src, b).contains(t)) by {
                assert(self.reach_before(src, b, n as int, t) == after_byte(*self, src, b).contains(t));
                if self.seen_has(seen@, nd as int, t) {
                    let d2 = choose|d2: int| nd <= d2 < seen@.len() && seen@[d2] && #[trigger] self.dense_closures@[d2].has(t);
                }
            }
        }
    }

    /// Advance a state through one byte: filter by char mask, compute epsilon closure, add prefix loop.
    #[inline]
    fn step(&self, state: &BitState, byte: u8) -> (r: BitState)
        requires
            self.core_wf(),
            state.words@.len() == self.num_words,
        ensures
            r.words@.len() == self.num_words,
            forall|t: int| #[trigger] r.has(t) == step_set(*self, bits(*state), byte as int).contains(t),
    {
        let mut next = BitState::new(self.num_states);
        self.after_into(state, byte, &mut next);
        next.or_assign(&self.initial_state);
        proof {
            assert forall|t: int| #[trigger] next.has(t) == step_set(*self, bits(*state), byte as int).contains(t) by {
                if self.starts(t) {
                    assert(0 <= t < self.num_states);
                }
            }
        }
        next
    }

    /// Whether a state holds a final state.
    fn is_matching(&self, state: &BitState) -> (r: bool)
        requires
            self.wf(),
            state.words@.len() == self.num_words,
        ensures
            r == has_final(*self, bits(*state)),
    {
        let r = state.any_set(&self.match_mask);
        proof {
            if r {
                let t = choose|t: int| state.has(t) && self.match_mask.has(t);
                assert(bits(*state).contains(t) && self.is_final(t));
            }
            if has_final(*self, bits(*state)) {
                let t = choose|t: int| bits(*state).contains(t) && #[trigger] self.is_final(t);
                assert(state.has(t) && self.match_mask.has(t));
            }
        }
        r
    }

    /// Check if any match exists in the input.
    pub fn has_match(&self, input: &[u8]) -> (r: bool)
        requires
            self.wf(),
        ensures
            r == exists|s: int, e: int| #[trigger] matches_at(*self, input@, s, e),
    {
        let mut state = self.initial_state.copy();
        proof {
            assert(bits(state) =~= search_set(*self, input@, 0, 0)) by {
                assert forall|t: int| #[trigger] bits(state).contains(t) == search_set(*self, input@, 0, 0).contains(t) by {
                    if self.starts(t) {
                        assert(0 <= t < self.num_states);
                    }
                }
            }
        }
        if self.is_matching(&state) {
            proof {
                lemma_final_union(*self, input@, 0, 0);
            }
            return true;
        }
        let mut i: usize = 0;
        while i < input.len()
            invariant
                self.wf(),
                i <= input@.len(),
                state.words@.len() == self.num_words,
                bits(state) == search_set(*self, input@, 0, i as int),
                forall|j: int| 0 <= j <= i ==> !#[trigger] has_final(*self, search_set(*self, input@, 0, j)),
            decreases input@.len() - i,
        {
            state = self.step(&state, input[i]);
            proof {
                assert(bits(state) =~= search_set(*self, input@, 0, i + 1));
            }
            if self.is_matching(&state) {
                proof {
                    lemma_final_union(*self, input@, 0, i + 1);
                }
                return true;
            }
            i = i + 1;
        }
        proof {
            assert forall|s: int, e: int| !#[trigger] matches_at(*self, input@, s, e) by {
                if matches_at(*self, input@, s, e) {
                    lemma_final_union(*self, input@, 0, e);
                }
            }
        }
        false
    }

    /// Count all non-overlapping matches in the input: each leftmost-longest
    /// match, the search going on at its end (one byte further after an
    /// empty match).
    pub fn count_matches(&self, input: &[u8]) -> (r: usize)
        requires
            self.wf(),
            input@.len() < usize::MAX,
        ensures
            r == count_from(*self, input@, 0),
    {
        let mut curr = BitState::new(self.num_states);
        let mut next = BitState::new(self.num_states);
        let mut count: usize = 0;
        let mut pos: usize = 0;
        while pos <= input.len()
            invariant
                self.wf(),
                input@.len() < usize::MAX,
                pos <= input@.len() + 1,
                count <= pos,
                curr.words@.len() == self.num_words,
                next.words@.len() == self.num_words,
                count + count_from(*self, input@, pos as int) == count_from(*self, input@, 0),
            decreases input@.len() + 1 - pos,
        {
            match self.leftmost_inner(input, pos, &mut curr, &mut next) {
                None => {
                    return count;
                },
                Some((s, e)) => {
                    proof {
                        lemma_leftmost_bounds(*self, input@, pos as int);
                    }
                    count = count + 1;
                    pos = if e > s { e } else { s + 1 };
                },
            }
        }
        count
    }
}

impl BitVmProgram {
    /// Give a state buffer `w` words.
    fn fit_words(x: &mut BitState, w: usize)
        ensures
            final(x).words@.len() == w,
    {
        while x.words.len() > w
            invariant
                true,
            decreases x.words@.len(),
        {
            x.words.pop();
        }
        while x.words.len() < w
            invariant
                x.words@.len() <= w,
            decreases w - x.words@.len(),
        {
            x.words.push(0);
        }
    }

    /// Find match end, reusing pre-allocated buffers (zero allocation per call).
    /// The buffers are resized to the program's set size first.
    pub fn find_match_end_reuse(&self, input: &[u8], start_pos: usize, curr: &mut BitState, next: &mut BitState) -> (r: Option<usize>)
        requires
            self.wf(),
        ensures
            final(curr).words@.len() == (self.nstates() + 63) / 64,
            final(next).words@.len() == (self.nstates() + 63) / 64,
            match leftmost_from(*self, input@, start_pos as int) {
                Some((s, e)) => r == Some(e as usize),
                None => r is None,
            },
    {
        let w = self.num_words;
        // Ensure buffers are the right size (resize once, reuse forever)
        Self::fit_words(curr, w);
        Self::fit_words(next, w);
        match self.leftmost_inner(input, start_pos, curr, next) {
            Some((_, e)) => Some(e),
            None => None,
        }
    }

    /// Find the end position of the leftmost match starting at or after `start_pos`.
    /// Allocating version (for callers without pre-allocated buffers).
    pub fn find_match_end(&self, input: &[u8], start_pos: usize) -> (r: Option<usize>)
        requires
            self.wf(),
        ensures
            match leftmost_from(*self, input@, start_pos as int) {
                Some((s, e)) => r == Some(e as usize),
                None => r is None,
            },
    {
        let mut curr = BitState::new(self.num_states);
        let mut next = BitState::new(self.num_states);
        match self.leftmost_inner(input, start_pos, &mut curr, &mut next) {
            Some((_, e)) => Some(e),
            None => None,
        }
    }

    /// Whether some match begins at or after `from`: one search over the
    /// input in which every position may begin a match. Each byte starts
    /// from its precomputed step from the initial states, to which the
    /// followers of the other states are added.
    #[verifier::rlimit(40)]
    fn any_match_from(&self, input: &[u8], from: usize, curr: &mut BitState, next: &mut BitState) -> (r: bool)
        requires
            self.wf(),
            from <= input@.len(),
            old(curr).words@.len() == self.num_words,
            old(next).words@.len() == self.num_words,
        ensures
            final(curr).words@.len() == self.num_words,
            final(next).words@.len() == self.num_words,
            r == exists|s: int, e: int| from <= s && #[trigger] matches_at(*self, input@, s, e),
    {
        let w = self.num_words;
        let mut i: usize = 0;
        while i < w
            invariant
                self.wf(),
                w == self.num_words,
                curr.words@.len() == w,
                i <= w,
                forall|j: int| 0 <= j < i ==> curr.words@[j] == self.initial_state.words@[j],
            decreases w - i,
        {
            curr.words.set(i, self.initial_state.words[i]);
            i = i + 1;
        }
        proof {
            assert(curr.words@ =~= self.initial_state.words@);
            assert(bits(*curr) =~= search_set(*self, input@, from as int, from as int)) by {
                assert forall|t: int| #[trigger] bits(*curr).contains(t) == start_set(*self).contains(t) by {
                    assert(curr.has(t) == self.initial_state.has(t));
                    if self.starts(t) {
                        assert(0 <= t < self.num_states);
                    }
                }
            }
        }
        if self.is_matching(curr) {
            proof {
                lemma_final_union(*self, input@, from as int, from as int);
            }
            return true;
        }
        let mut at = from;
        while at < input.len()
            invariant
                self.wf(),
                from <= at <= input@.len(),
                curr.words@.len() == self.num_words,
                next.words@.len() == self.num_words,
                bits(*curr) == search_set(*self, input@, from as int, at as int),
                start_set(*self).subset_of(bits(*curr)),
                forall|j: int| from <= j <= at ==> !#[trigger] has_final(*self, search_set(*self, input@, from as int, j)),
            decreases input@.len() - at,
        {
            let byte = input[at];
            let contribution = &self.initial_contribution[byte as usize];
            let mut i: usize = 0;
            while i < self.num_words
                invariant
                    self.wf(),
                    *contribution == self.initial_contribution@[byte as int],
                    next.words@.len() == self.num_words,
                    i <= self.num_words,
                    forall|j: int| 0 <= j < i ==> next.words@[j] == contribution.words@[j],
                decreases self.num_words - i,
            {
                next.words.set(i, contribution.words[i]);
                i = i + 1;
            }
            proof {
                assert(next.words@ =~= contribution.words@);
            }
            let ghost pre = *next;
            self.add_followers(curr, byte, true, next);
            proof {
                let b = byte as int;
                let cur = bits(*curr);
                let nxt = step_set(*self, cur, b);
                assert forall|t: int| #[trigger] bits(*next).contains(t) == nxt.contains(t) by {
                    assert(pre.has(t) == self.initial_contribution@[b].has(t));
                    assert(self.initial_contribution@[b].has(t) == step_set(*self, start_set(*self), b).contains(t));
                    if after_byte(*self, cur, b).contains(t) {
                        let s2 = choose|s2: int| 0 <= s2 < self.nstates() && cur.contains(s2) && self.takes(s2, b) && #[trigger] self.follows(s2, t);
                        if self.starts(s2) {
                            assert(start_set(*self).contains(s2));
                            assert(after_byte(*self, start_set(*self), b).contains(t));
                        } else {
                            assert(non_start(*self, cur).contains(s2));
                            assert(after_byte(*self, non_start(*self, cur), b).contains(t));
                        }
                    }
                    if after_byte(*self, start_set(*self), b).contains(t) {
                        let s2 = choose|s2: int| 0 <= s2 < self.nstates() && start_set(*self).contains(s2) && self.takes(s2, b) && #[trigger] self.follows(s2, t);
                        assert(cur.contains(s2));
                        assert(after_byte(*self, cur, b).contains(t));
                    }
                    if after_byte(*self, non_start(*self, cur), b).contains(t) {
                        let s2 = choose|s2: int| 0 <= s2 < self.nstates() && non_start(*self, cur).contains(s2) && self.takes(s2, b) && #[trigger] self.follows(s2, t);
                        assert(cur.contains(s2));
                        assert(after_byte(*self, cur, b).contains(t));
                    }
                }
                assert(bits(*next) =~= search_set(*self, input@, from as int, at + 1));
                assert(start_set(*self).subset_of(bits(*next)));
            }
            if self.is_matching(next) {
                proof {
                    lemma_final_union(*self, input@, from as int, at + 1);
                }
                return true;
            }
            core::mem::swap(curr, next);
            at = at + 1;
        }
        proof {
            assert forall|s: int, e: int| from <= s implies !#[trigger] matches_at(*self, input@, s, e) by {
                if matches_at(*self, input@, s, e) {
                    lemma_final_union(*self, input@, from as int, e);
                }
            }
        }
        false
    }

    /// The end of the longest match that begins at `s`: one match attempt,
    /// its states run in `curr` and `next`, until none is left or the input
    /// ends.
    #[verifier::rlimit(20)]
    fn longest_at(&self, input: &[u8], s: usize, curr: &mut BitState, next: &mut BitState) -> (r: Option<usize>)
        requires
            self.wf(),
            s <= input@.len(),
            old(curr).words@.len() == self.num_words,
            old(next).words@.len() == self.num_words,
        ensures
            final(curr).words@.len() == self.num_words,
            final(next).words@.len() == self.num_words,
            match longest_end(*self, input@, s as int) {
                Some(e) => r == Some(e as usize),
                None => r is None,
            },
    {
        let w = self.num_words;
        let mut i: usize = 0;
        while i < w
            invariant
                self.wf(),
                w == self.num_words,
                curr.words@.len() == w,
                i <= w,
                forall|j: int| 0 <= j < i ==> curr.words@[j] == self.initial_state.words@[j],
            decreases w - i,
        {
            curr.words.set(i, self.initial_state.words[i]);
            i = i + 1;
        }
        proof {
            assert(curr.words@ =~= self.initial_state.words@);
            assert(bits(*curr) =~= run_set(*self, input@, s as int, s as int)) by {
                assert forall|t: int| #[trigger] bits(*curr).contains(t) == start_set(*self).contains(t) by {
                    assert(curr.has(t) == self.initial_state.has(t));
                    if self.starts(t) {
                        assert(0 <= t < self.num_states);
                    }
                }
            }
        }
        let mut best: Option<usize> = if self.is_matching(curr) { Some(s) } else { None };
        proof {
            assert(last_end(*self, input@, s as int, s as int - 1) is None);
        }
        let mut at = s;
        while at < input.len()
            invariant
                self.wf(),
                s <= at <= input@.len(),
                curr.words@.len() == self.num_words,
                next.words@.len() == self.num_words,
                bits(*curr) == run_set(*self, input@, s as int, at as int),
                match last_end(*self, input@, s as int, at as int) {
                    Some(e) => best == Some(e as usize),
                    None => best is None,
                },
            decreases input@.len() - at,
        {
            let byte = input[at];
            next.clear();
            self.add_followers(curr, byte, false, next);
            proof {
                assert(bits(*next) =~= run_set(*self, input@, s as int, at + 1));
            }
            if self.is_matching(next) {
                best = Some(at + 1);
            }
            if next.is_empty() {
                proof {
                    assert(run_set(*self, input@, s as int, at + 1) =~= Set::<int>::empty()) by {
                        assert forall|t: int| !#[trigger] run_set(*self, input@, s as int, at + 1).contains(t) by {
                            assert(!next.has(t));
                        }
                    }
                    lemma_run_stays_empty(*self, input@, s as int, at + 1, input@.len() as int);
                }
                return best;
            }
            core::mem::swap(curr, next);
            at = at + 1;
        }
        best
    }

    /// The leftmost-longest match from `start_pos` on: match attempts begin
    /// at each position in turn until one matches.
    fn leftmost_inner(&self, input: &[u8], start_pos: usize, curr: &mut BitState, next: &mut BitState) -> (r: Option<(usize, usize)>)
        requires
            self.wf(),
            old(curr).words@.len() == self.num_words,
            old(next).words@.len() == self.num_words,
        ensures
            final(curr).words@.len() == self.num_words,
            final(next).words@.len() == self.num_words,
            match leftmost_from(*self, input@, start_pos as int) {
                Some((a, b)) => r == Some((a as usize, b as usize)),
                None => r is None,
            },
    {
        if start_pos > input.len() {
            return None;
        }
        // one linear search first: with no match at all, no attempt is run
        if !self.any_match_from(input, start_pos, curr, next) {
            proof {
                lemma_leftmost_longest(*self, input@, start_pos as int);
            }
            return None;
        }
        let mut s = start_pos;
        loop
            invariant
                self.wf(),
                start_pos <= s <= input@.len(),
                curr.words@.len() == self.num_words,
                next.words@.len() == self.num_words,
                leftmost_from(*self, input@, start_pos as int) == leftmost_from(*self, input@, s as int),
            decreases input@.len() - s,
        {
            match self.longest_at(input, s, curr, next) {
                Some(e) => {
                    return Some((s, e));
                },
                None => {},
            }
            if s == input.len() {
                proof {
                    assert(leftmost_from(*self, input@, s as int + 1) is None);
                }
                return None;
            }
            s = s + 1;
        }
    }

    /// Find the leftmost-longest match: returns (start, end). No exec needed.
    ///
    /// Semantics: find the earliest position where a match can START, then
    /// extend as far as possible (longest match from that start).
    pub fn find_match(&self, input: &[u8], start_pos: usize) -> (r: Option<(usize, usize)>)
        requires
            self.wf(),
        ensures
            match leftmost_from(*self, input@, start_pos as int) {
                Some((a, b)) => r == Some((a as usize, b as usize)),
                None => r is None,
            },
    {
        let mut curr = BitState::new(self.num_states);
        let mut next = BitState::new(self.num_states);
        self.leftmost_inner(input, start_pos, &mut curr, &mut next)
    }
}

/// A run that has no state left keeps none, and ends no match further on.
proof fn lemma_run_stays_empty(p: BitVmProgram, input: Seq<u8>, s: int, e: int, e2: int)
    requires
        s <= e <= e2,
        run_set(p, input, s, e) =~= Set::<int>::empty(),
    ensures
        run_set(p, input, s, e2) =~= Set::<int>::empty(),
        last_end(p, input, s, e2) == last_end(p, input, s, e),
    decreases e2 - e,
{
    if e2 > e {
        lemma_run_stays_empty(p, input, s, e, e2 - 1);
        assert forall|t: int| !#[trigger] run_set(p, input, s, e2).contains(t) by {
            if run_set(p, input, s, e2).contains(t) {
                let b = input[e2 - 1] as int;
                let u = choose|u: int| 0 <= u < p.nstates() && run_set(p, input, s, e2 - 1).contains(u) && p.takes(u, b) && #[trigger] p.follows(u, t);
            }
        }
        assert(!has_final(p, run_set(p, input, s, e2)));
    }
}

/// The states of a search begun at `from`, after the bytes up to `e`, are
/// those of the runs begun at each position from `from` to `e`.
proof fn lemma_search_union(p: BitVmProgram, input: Seq<u8>, from: int, e: int)
    requires
        0 <= from <= e <= input.len(),
    ensures
        forall|t: int| #[trigger] search_set(p, input, from, e).contains(t) == exists|s: int|
            from <= s <= e && #[trigger] run_set(p, input, s, e).contains(t),
    decreases e - from,
{
    if e == from {
        assert forall|t: int| #[trigger] search_set(p, input, from, e).contains(t) == exists|s: int|
            from <= s <= e && #[trigger] run_set(p, input, s, e).contains(t) by {
            if search_set(p, input, from, e).contains(t) {
                assert(run_set(p, input, e, e).contains(t));
            }
        }
    } else {
        lemma_search_union(p, input, from, e - 1);
        let b = input[e - 1] as int;
        let prev = search_set(p, input, from, e - 1);
        assert forall|t: int| #[trigger] search_set(p, input, from, e).contains(t) == exists|s: int|
            from <= s <= e && #[trigger] run_set(p, input, s, e).contains(t) by {
            if search_set(p, input, from, e).contains(t) {
                if start_set(p).contains(t) {
                    assert(run_set(p, input, e, e).contains(t));
                } else {
                    assert(after_byte(p, prev, b).contains(t));
                    let u = choose|u: int| 0 <= u < p.nstates() && prev.contains(u) && p.takes(u, b) && #[trigger] p.follows(u, t);
                    assert(prev.contains(u));
                    let s = choose|s: int| from <= s <= e - 1 && #[trigger] run_set(p, input, s, e - 1).contains(u);
                    assert(after_byte(p, run_set(p, input, s, e - 1), b).contains(t));
                    assert(run_set(p, input, s, e).contains(t));
                }
            }
            if exists|s: int| from <= s <= e && #[trigger] run_set(p, input, s, e).contains(t) {
                let s = choose|s: int| from <= s <= e && #[trigger] run_set(p, input, s, e).contains(t);
                if s == e {
                    assert(start_set(p).contains(t));
                } else {
                    let u = choose|u: int| 0 <= u < p.nstates() && run_set(p, input, s, e - 1).contains(u) && p.takes(u, b) && #[trigger] p.follows(u, t);
                    assert(run_set(p, input, s, e - 1).contains(u));
                    assert(prev.contains(u));
                    assert(after_byte(p, prev, b).contains(t));
                }
            }
        }
    }
}

/// A search begun at `from` holds a final state after the bytes up to `e`
/// exactly when a match that begins at or after `from` ends at `e`.
proof fn lemma_final_union(p: BitVmProgram, input: Seq<u8>, from: int, e: int)
    requires
        0 <= from <= e <= input.len(),
    ensures
        has_final(p, search_set(p, input, from, e)) == exists|s: int| from <= s && #[trigger] matches_at(p, input, s, e),
{
    lemma_search_union(p, input, from, e);
    if has_final(p, search_set(p, input, from, e)) {
        let t = choose|t: int| search_set(p, input, from, e).contains(t) && #[trigger] p.is_final(t);
        let s = choose|s: int| from <= s <= e && #[trigger] run_set(p, input, s, e).contains(t);
        assert(matches_at(p, input, s, e));
    }
    if exists|s: int| from <= s && #[trigger] matches_at(p, input, s, e) {
        let s = choose|s: int| from <= s && #[trigger] matches_at(p, input, s, e);
        let t = choose|t: int| run_set(p, input, s, e).contains(t) && #[trigger] p.is_final(t);
        assert(search_set(p, input, from, e).contains(t));
    }
}

/// What a last end says of the run: a final state there and at no later
/// position up to the bound; with no last end, at no position.
proof fn lemma_last_end(p: BitVmProgram, input: Seq<u8>, s: int, e: int)
    ensures
        match last_end(p, input, s, e) {
            Some(x) => s <= x <= e && has_final(p, run_set(p, input, s, x)) && forall|y: int|
                x < y <= e ==> !#[trigger] has_final(p, run_set(p, input, s, y)),
            None => forall|y: int| s <= y <= e ==> !#[trigger] has_final(p, run_set(p, input, s, y)),
        },
    decreases e - s + 1,
{
    if e >= s && !has_final(p, run_set(p, input, s, e)) {
        lemma_last_end(p, input, s, e - 1);
    }
}

/// The leftmost-longest match from `from` on is a match; no match begins
/// between `from` and its start, and none that begins at its start ends
/// later. With none, no match begins at or after `from`.
pub proof fn lemma_leftmost_longest(p: BitVmProgram, input: Seq<u8>, from: int)
    requires
        0 <= from,
    ensures
        match leftmost_from(p, input, from) {
            Some((s, e)) => {
                &&& matches_at(p, input, s, e)
                &&& from <= s
                &&& forall|s2: int, e2: int| from <= s2 < s ==> !#[trigger] matches_at(p, input, s2, e2)
                &&& forall|e2: int| e < e2 ==> !#[trigger] matches_at(p, input, s, e2)
            },
            None => forall|s2: int, e2: int| from <= s2 ==> !#[trigger] matches_at(p, input, s2, e2),
        },
    decreases input.len() + 1 - from,
{
    if from <= input.len() {
        lemma_last_end(p, input, from, input.len() as int);
        if longest_end(p, input, from) is None {
            lemma_leftmost_longest(p, input, from + 1);
            assert forall|e2: int| !#[trigger] matches_at(p, input, from, e2) by {
                if from <= e2 <= input.len() {
                    assert(!has_final(p, run_set(p, input, from, e2)));
                }
            }
        }
    }
}

/// A run over the input is the same run over the input from `from` on,
/// its positions shifted by `from`.
proof fn lemma_run_shift(p: BitVmProgram, input: Seq<u8>, from: int, s: int, e: int)
    requires
        0 <= from <= s <= e <= input.len(),
    ensures
        run_set(p, input, s, e) == run_set(p, input.subrange(from, input.len() as int), s - from, e - from),
    decreases e - s,
{
    if e > s {
        lemma_run_shift(p, input, from, s, e - 1);
        assert(input.subrange(from, input.len() as int)[e - from - 1] == input[e - 1]);
    }
}

/// The last end of a match that begins at `s` is that over the input from
/// `from` on, shifted by `from`.
proof fn lemma_last_end_shift(p: BitVmProgram, input: Seq<u8>, from: int, s: int, e: int)
    requires
        0 <= from <= s,
        e <= input.len(),
    ensures
        last_end(p, input, s, e) == match last_end(p, input.subrange(from, input.len() as int), s - from, e - from) {
            Some(x) => Some(x + from),
            None => None::<int>,
        },
    decreases e - s + 1,
{
    if e >= s {
        lemma_run_shift(p, input, from, s, e);
        lemma_last_end_shift(p, input, from, s, e - 1);
    }
}

/// The leftmost match from `k` on is that over the input from `from` on,
/// from `k - from` on, shifted by `from`.
proof fn lemma_leftmost_shift(p: BitVmProgram, input: Seq<u8>, from: int, k: int)
    requires
        0 <= from <= k,
        from <= input.len(),
    ensures
        leftmost_from(p, input, k) == match leftmost_from(p, input.subrange(from, input.len() as int), k - from) {
            Some((s, e)) => Some((s + from, e + from)),
            None => None::<(int, int)>,
        },
    decreases input.len() + 1 - k,
{
    if k <= input.len() {
        lemma_last_end_shift(p, input, from, k, input.len() as int);
        lemma_leftmost_shift(p, input, from, k + 1);
    }
}

/// A search from `from` finds what a search of the input from `from` on
/// finds from its start, shifted by `from`.
pub proof fn lemma_match_from_suffix(p: BitVmProgram, input: Seq<u8>, from: int)
    requires
        0 <= from <= input.len(),
    ensures
        leftmost_from(p, input, from) == match leftmost_from(p, input.subrange(from, input.len() as int), 0) {
            Some((s, e)) => Some((s + from, e + from)),
            None => None::<(int, int)>,
        },
{
    lemma_leftmost_shift(p, input, from, from);
}

/// Step `k` of a path of states over the input from `s`: the state there
/// takes the byte `input[s + k]` and is followed by the next state.
pub open spec fn path_step(p: BitVmProgram, input: Seq<u8>, s: int, path: Seq<int>, k: int) -> bool {
    &&& p.takes(path[k], input[s + k] as int)
    &&& p.follows(path[k], path[k + 1])
    &&& 0 <= path[k + 1] < p.nstates()
}

/// A path of the automaton over `input[s..e]`: a start state, then one
/// state per byte, each following the one before after it takes its byte.
pub open spec fn is_path(p: BitVmProgram, input: Seq<u8>, s: int, e: int, path: Seq<int>) -> bool {
    &&& path.len() == e - s + 1
    &&& start_set(p).contains(path[0])
    &&& forall|k: int| 0 <= k < e - s ==> #[trigger] path_step(p, input, s, path, k)
}

/// The states of a run are the ends of the paths over the same bytes.
proof fn lemma_run_path(p: BitVmProgram, input: Seq<u8>, s: int, e: int)
    requires
        0 <= s <= e <= input.len(),
    ensures
        forall|t: int| #[trigger] run_set(p, input, s, e).contains(t) == exists|path: Seq<int>|
            is_path(p, input, s, e, path) && path.last() == t,
    decreases e - s,
{
    if e == s {
        assert forall|t: int| #[trigger] run_set(p, input, s, e).contains(t) == exists|path: Seq<int>|
            is_path(p, input, s, e, path) && path.last() == t by {
            if run_set(p, input, s, e).contains(t) {
                assert(is_path(p, input, s, e, seq![t]) && seq![t].last() == t);
            }
        }
    } else {
        lemma_run_path(p, input, s, e - 1);
        let b = input[e - 1] as int;
        assert forall|t: int| #[trigger] run_set(p, input, s, e).contains(t) == exists|path: Seq<int>|
            is_path(p, input, s, e, path) && path.last() == t by {
            if run_set(p, input, s, e).contains(t) {
                let u = choose|u: int| 0 <= u < p.nstates() && run_set(p, input, s, e - 1).contains(u) && p.takes(u, b) && #[trigger] p.follows(u, t);
                assert(run_set(p, input, s, e - 1).contains(u));
                let pre = choose|path: Seq<int>| is_path(p, input, s, e - 1, path) && path.last() == u;
                let path = pre.push(t);
                assert forall|k: int| 0 <= k < e - s implies #[trigger] path_step(p, input, s, path, k) by {
                    if k < e - s - 1 {
                        assert(path_step(p, input, s, pre, k));
                    }
                }
                assert(is_path(p, input, s, e, path) && path.last() == t);
            }
            if exists|path: Seq<int>| is_path(p, input, s, e, path) && path.last() == t {
                let path = choose|path: Seq<int>| is_path(p, input, s, e, path) && path.last() == t;
                let pre = path.drop_last();
                assert forall|k: int| 0 <= k < e - 1 - s implies #[trigger] path_step(p, input, s, pre, k) by {
                    assert(path_step(p, input, s, path, k));
                }
                assert(is_path(p, input, s, e - 1, pre));
                let u = pre.last();
                assert(run_set(p, input, s, e - 1).contains(u));
                assert(path_step(p, input, s, path, e - s - 1));
                assert(after_byte(p, run_set(p, input, s, e - 1), b).contains(t));
            }
        }
    }
}

/// A match of `input[s..e]` is a path of the automaton over those bytes that
/// ends in a final state.
pub proof fn lemma_match_is_path(p: BitVmProgram, input: Seq<u8>, s: int, e: int)
    requires
        0 <= s <= e <= input.len(),
    ensures
        matches_at(p, input, s, e) == exists|path: Seq<int>| is_path(p, input, s, e, path) && p.is_final(path.last()),
{
    lemma_run_path(p, input, s, e);
    if matches_at(p, input, s, e) {
        let t = choose|t: int| run_set(p, input, s, e).contains(t) && #[trigger] p.is_final(t);
        assert(run_set(p, input, s, e).contains(t));
        let path = choose|path: Seq<int>| is_path(p, input, s, e, path) && path.last() == t;
        assert(is_path(p, input, s, e, path) && p.is_final(path.last()));
    }
    if exists|path: Seq<int>| is_path(p, input, s, e, path) && p.is_final(path.last()) {
        let path = choose|path: Seq<int>| is_path(p, input, s, e, path) && p.is_final(path.last());
        assert(run_set(p, input, s, e).contains(path.last()));
    }
}

/// `count_matches` is positive exactly when `has_match` holds: the count
/// is positive exactly when some match exists.
pub proof fn lemma_count_positive_iff_match(p: BitVmProgram, input: Seq<u8>)
    ensures
        (count_from(p, input, 0) > 0) == exists|s: int, e: int| #[trigger] matches_at(p, input, s, e),
{
    lemma_leftmost_longest(p, input, 0);
    if exists|s: int, e: int| #[trigger] matches_at(p, input, s, e) {
        let (s, e) = choose|s: int, e: int| #[trigger] matches_at(p, input, s, e);
        assert(0 <= s);
        assert(leftmost_from(p, input, 0) is Some);
    }
}

} // verus!
verus! {

/// Instructions that the epsilon closure passes through.
pub open spec fn is_eps(op: u8) -> bool {
    op == 13 || op == 14 || op == 15 || op == 19 || op == 20 || op == 21 || op == 27 || op == 23
        || op == 24 || (9 <= op <= 12) || op == 28 || op == 30
}

/// Whether `x` follows the pass-through instruction at `e` without
/// consuming anything.
pub open spec fn eps_succ(bc: Seq<u8>, e: int, x: int) -> bool {
    let op = bc[e];
    if op == 13 {
        e + 5 <= bc.len() && x == e + 5 + read_i32(bc, e + 1)
    } else if op == 14 || op == 15 {
        e + 5 <= bc.len() && (x == e + 5 || x == e + 5 + read_i32(bc, e + 1))
    } else if op == 19 || op == 20 {
        x == e + 2
    } else if op == 21 {
        x == e + 3
    } else if op == 27 {
        x == e + 6
    } else if op == 23 || op == 24 {
        e + 10 <= bc.len() && (x == e + 10 || x == e + 10 + read_i32(bc, e + 6))
    } else {
        x == e + 1
    }
}

/// Whether `p` is a path of pass-through steps below `total`: each node
/// but the last passes through to the next.
pub open spec fn is_eps_path(bc: Seq<u8>, total: int, p: Seq<int>) -> bool {
    &&& p.len() >= 1
    &&& forall|i: int| 0 <= i < p.len() ==> 0 <= #[trigger] p[i] < total
    &&& forall|i: int|
        0 <= i < p.len() - 1 ==> is_eps(bc[#[trigger] p[i]]) && eps_succ(bc, p[i], p[i + 1])
}

/// Whether `x` can be reached from `from` through pass-through
/// instructions, staying below `total`.
pub open spec fn eps_reaches(bc: Seq<u8>, total: int, from: int, x: int) -> bool {
    exists|p: Seq<int>| #[trigger] is_eps_path(bc, total, p) && p[0] == from && p.last() == x
}

/// The number of set flags.
pub open spec fn count_true(v: Seq<bool>) -> nat
    decreases v.len(),
{
    if v.len() == 0 {
        0
    } else {
        count_true(v.drop_last()) + if v.last() {
            1nat
        } else {
            0nat
        }
    }
}

proof fn lemma_count_true_bound(v: Seq<bool>)
    ensures
        count_true(v) <= v.len(),
    decreases v.len(),
{
    if v.len() > 0 {
        lemma_count_true_bound(v.drop_last());
    }
}

proof fn lemma_count_true_set(v: Seq<bool>, i: int)
    requires
        0 <= i < v.len(),
        !v[i],
    ensures
        count_true(v.update(i, true)) == count_true(v) + 1,
    decreases v.len(),
{
    let w = v.update(i, true);
    if i == v.len() - 1 {
        assert(w.drop_last() =~= v.drop_last());
    } else {
        assert(w.drop_last() =~= v.drop_last().update(i, true));
        lemma_count_true_set(v.drop_last(), i);
    }
}

/// A path one step longer.
proof fn lemma_path_step(bc: Seq<u8>, total: int, from: int, y: int, x: int)
    requires
        eps_reaches(bc, total, from, y),
        0 <= y < total,
        is_eps(bc[y]),
        eps_succ(bc, y, x),
        0 <= x < total,
    ensures
        eps_reaches(bc, total, from, x),
{
    let p = choose|p: Seq<int>| #[trigger] is_eps_path(bc, total, p) && p[0] == from && p.last() == y;
    let q = p.push(x);
    assert forall|i: int| 0 <= i < q.len() - 1 implies is_eps(bc[#[trigger] q[i]]) && eps_succ(
        bc,
        q[i],
        q[i + 1],
    ) by {
        if i < p.len() - 1 {
            assert(q[i] == p[i] && q[i + 1] == p[i + 1]);
        } else {
            assert(q[i] == y);
        }
    }
    assert forall|i: int| 0 <= i < q.len() implies 0 <= #[trigger] q[i] < total by {
        if i < p.len() {
            assert(q[i] == p[i]);
        }
    }
    assert(is_eps_path(bc, total, q) && q[0] == from && q.last() == x);
}

/// The start is reached from itself.
proof fn lemma_path_start(bc: Seq<u8>, total: int, from: int)
    requires
        0 <= from < total,
    ensures
        eps_reaches(bc, total, from, from),
{
    let p = seq![from];
    assert(is_eps_path(bc, total, p) && p[0] == from && p.last() == from);
}

/// A set of nodes that holds `from` and is closed under pass-through steps
/// holds every node reachable from `from`.
proof fn lemma_closed_holds_reach(bc: Seq<u8>, total: int, from: int, visited: Seq<bool>, x: int)
    requires
        visited.len() >= total,
        0 <= from < total ==> visited[from],
        forall|e: int, y: int|
            0 <= e < total && #[trigger] visited[e] && is_eps(bc[e]) && #[trigger] eps_succ(bc, e, y)
                && 0 <= y < total ==> visited[y],
        eps_reaches(bc, total, from, x),
    ensures
        0 <= x < total,
        visited[x],
{
    let p = choose|p: Seq<int>| #[trigger] is_eps_path(bc, total, p) && p[0] == from && p.last() == x;
    lemma_path_visited(bc, total, p, visited, p.len() - 1);
}

/// Every node of a path from a held start is held by a closed set.
proof fn lemma_path_visited(bc: Seq<u8>, total: int, p: Seq<int>, visited: Seq<bool>, k: int)
    requires
        is_eps_path(bc, total, p),
        0 <= k < p.len(),
        visited.len() >= total,
        visited[p[0]],
        forall|e: int, y: int|
            0 <= e < total && #[trigger] visited[e] && is_eps(bc[e]) && #[trigger] eps_succ(bc, e, y)
                && 0 <= y < total ==> visited[y],
    ensures
        visited[p[k]],
        0 <= p[k] < total,
    decreases k,
{
    if k > 0 {
        lemma_path_visited(bc, total, p, visited, k - 1);
        assert(is_eps(bc[p[k - 1]]) && eps_succ(bc, p[k - 1], p[k]));
        assert(0 <= p[k] < total);
    } else {
        assert(0 <= p[0] < total);
    }
}

/// Where a jump lands: `from + off` when that lies in `[0, total)`, else
/// `total`.
fn jump_to(total: usize, from: usize, off: u32) -> (r: usize)
    ensures
        ({
            let t = from + (if off >= 0x8000_0000 { off - 0x1_0000_0000 } else { off as int });
            if 0 <= t < total {
                r == t
            } else {
                r == total
            }
        }),
{
    if off >= 0x8000_0000 {
        let back = (0x1_0000_0000u64 - off as u64) as usize;
        if back > from {
            total
        } else if from - back < total {
            from - back
        } else {
            total
        }
    } else {
        let fwd = off as usize;
        if from >= total || fwd >= total - from {
            total
        } else {
            from + fwd
        }
    }
}

/// Set bit `s` of the mask at index `b` of a list of masks.
fn set_in(v: &mut Vec<BitState>, b: usize, s: usize)
    requires
        b < old(v)@.len(),
    ensures
        final(v)@.len() == old(v)@.len(),
        forall|j: int| 0 <= j < old(v)@.len() && j != b ==> final(v)@[j] == old(v)@[j],
        forall|i: int| #[trigger] final(v)@[b as int].has(i) == (old(v)@[b as int].has(i) || (i == s
            && s < 64 * old(v)@[b as int].words@.len())),
        final(v)@[b as int].words@.len() == old(v)@[b as int].words@.len(),
{
    v[b].set(s);
}


} // verus!
