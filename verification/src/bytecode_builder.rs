//! Bytecode builder utilities for emitting QuickJS regex bytecode.
use vstd::prelude::*;
use crate::opcodes::{OpCode, opcode_byte, le16, le32, read_u32, read_i32};

verus! {

/// The encoding of a jump offset: the 32-bit two's complement of
/// `target - after`.
pub open spec fn goto_offset(after: int, target: int) -> u32 {
    ((target - after + 0x1_0000_0000) % 0x1_0000_0000) as u32
}

/// An append-only byte buffer holding a bytecode body.
pub struct BytecodeBuilder {
    buf: Vec<u8>,
}

impl View for BytecodeBuilder {
    type V = Seq<u8>;

    closed spec fn view(&self) -> Seq<u8> {
        self.buf@
    }
}

impl BytecodeBuilder {
    /// An empty builder.
    pub fn new() -> (b: Self)
        ensures
            b@ == Seq::<u8>::empty(),
    {
        BytecodeBuilder { buf: Vec::new() }
    }

    /// Current position in bytecode body (0-based, not counting header).
    pub fn pc(&self) -> (r: usize)
        ensures
            r == self@.len(),
    {
        self.buf.len()
    }

    /// Emit a single opcode (1 byte).
    pub fn emit_op(&mut self, op: OpCode)
        ensures
            final(self)@ == old(self)@.push(opcode_byte(op)),
    {
        self.buf.push(op.byte());
    }

    /// Emit opcode + u8 operand (2 bytes total).
    pub fn emit_op_u8(&mut self, op: OpCode, val: u8)
        ensures
            final(self)@ == old(self)@ + seq![opcode_byte(op), val],
    {
        self.buf.push(op.byte());
        self.buf.push(val);
        assert(self@ =~= old(self)@ + seq![opcode_byte(op), val]);
    }

    /// Emit opcode + u16 operand (3 bytes total).
    pub fn emit_op_u16(&mut self, op: OpCode, val: u16)
        ensures
            final(self)@ == old(self)@ + seq![opcode_byte(op)] + le16(val),
    {
        self.buf.push(op.byte());
        self.push_u16(val);
        assert(self@ =~= old(self)@ + seq![opcode_byte(op)] + le16(val));
    }

    /// Emit opcode + u32 operand (5 bytes total).
    pub fn emit_op_u32(&mut self, op: OpCode, val: u32)
        ensures
            final(self)@ == old(self)@ + seq![opcode_byte(op)] + le32(val),
    {
        self.buf.push(op.byte());
        self.push_u32(val);
        assert(self@ =~= old(self)@ + seq![opcode_byte(op)] + le32(val));
    }

    /// Emit a goto/split instruction with a zero offset to be patched later.
    /// Returns the byte position of the offset field (for patching).
    pub fn emit_goto(&mut self, op: OpCode, _placeholder: i32) -> (offset_pos: usize)
        ensures
            final(self)@ == old(self)@ + seq![opcode_byte(op)] + le32(0),
            offset_pos == old(self)@.len() + 1,
    {
        self.buf.push(op.byte());
        let offset_pos = self.buf.len();
        self.push_u32(0);
        assert(self@ =~= old(self)@ + seq![opcode_byte(op)] + le32(0));
        offset_pos
    }

    /// Patch a goto/split offset so that the jump lands on `target_body_pc`.
    ///
    /// The interpreter computes the jump target as
    /// `(offset_pos + 4) + offset`, so `offset = target - (offset_pos + 4)`.
    pub fn patch_goto(&mut self, offset_pos: usize, target_body_pc: usize)
        requires
            offset_pos + 4 <= old(self)@.len(),
            offset_pos + 4 <= i32::MAX,
            target_body_pc <= i32::MAX,
        ensures
            final(self)@ == old(self)@.subrange(0, offset_pos as int) + le32(
                goto_offset(offset_pos + 4, target_body_pc as int),
            ) + old(self)@.subrange(offset_pos + 4, old(self)@.len() as int),
    {
        let after_instr = offset_pos + 4;
        let offset: u32 = if target_body_pc >= after_instr {
            (target_body_pc - after_instr) as u32
        } else {
            (0xFFFF_FFFFu64 - (after_instr - target_body_pc) as u64 + 1) as u32
        };
        assert(offset == goto_offset(offset_pos + 4, target_body_pc as int));
        let ghost before = self.buf@;
        self.buf.set(offset_pos, (offset % 256) as u8);
        self.buf.set(offset_pos + 1, ((offset / 256) % 256) as u8);
        self.buf.set(offset_pos + 2, ((offset / 65536) % 256) as u8);
        self.buf.set(offset_pos + 3, (offset / 16777216) as u8);
        assert(self.buf@ =~= before.subrange(0, offset_pos as int) + le32(offset)
            + before.subrange(offset_pos + 4, before.len() as int));
    }

    /// Emit a raw byte.
    pub fn push(&mut self, val: u8)
        ensures
            final(self)@ == old(self)@.push(val),
    {
        self.buf.push(val);
    }

    /// Emit a raw u16 (little-endian).
    pub fn push_u16(&mut self, val: u16)
        ensures
            final(self)@ == old(self)@ + le16(val),
    {
        self.buf.push((val % 256) as u8);
        self.buf.push((val / 256) as u8);
        assert(self@ =~= old(self)@ + le16(val));
    }

    /// Emit a raw u32 (little-endian).
    pub fn push_u32(&mut self, val: u32)
        ensures
            final(self)@ == old(self)@ + le32(val),
    {
        self.buf.push((val % 256) as u8);
        self.buf.push(((val / 256) % 256) as u8);
        self.buf.push(((val / 65536) % 256) as u8);
        self.buf.push((val / 16777216) as u8);
        assert(self@ =~= old(self)@ + le32(val));
    }

    /// The bytes emitted so far.
    pub fn into_vec(self) -> (v: Vec<u8>)
        ensures
            v@ == self@,
    {
        self.buf
    }

    /// Mutable access to the bytes emitted so far.
    pub fn as_mut_slice(&mut self) -> (s: &mut [u8])
        ensures
            s@ == old(self)@,
            final(self)@ == final(s)@,
    {
        self.buf.as_mut_slice()
    }
}

impl Default for BytecodeBuilder {
    fn default() -> (b: Self)
        ensures
            b@ == Seq::<u8>::empty(),
    {
        Self::new()
    }
}

/// Reading back a patched jump offset: after `patch_goto(p, t)` the
/// two's-complement offset stored at `p` is `t - (p + 4)`.
pub proof fn lemma_patch_goto_reads_back(old_code: Seq<u8>, new_code: Seq<u8>, p: int, target: int)
    requires
        0 <= p,
        p + 4 <= old_code.len(),
        p + 4 <= i32::MAX,
        0 <= target <= i32::MAX,
        new_code == old_code.subrange(0, p) + le32(goto_offset(p + 4, target)) + old_code.subrange(
            p + 4,
            old_code.len() as int,
        ),
    ensures
        new_code.len() == old_code.len(),
        read_i32(new_code, p) == target - (p + 4),
        forall|i: int| 0 <= i < old_code.len() && !(p <= i < p + 4) ==> new_code[i] == old_code[i],
{
    let v = goto_offset(p + 4, target);
    assert(new_code[p] == le32(v)[0]);
    assert(new_code[p + 1] == le32(v)[1]);
    assert(new_code[p + 2] == le32(v)[2]);
    assert(new_code[p + 3] == le32(v)[3]);
    assert(read_u32(new_code, p) == v);
    assert forall|i: int| 0 <= i < old_code.len() && !(p <= i < p + 4) implies new_code[i]
        == old_code[i] by {
        if i < p {
        } else {
            assert(new_code[i] == old_code.subrange(p + 4, old_code.len() as int)[i - p - 4]);
        }
    }
}

} // verus!
