use vstd::prelude::*;

verus! {

/// Length of the bytecode header: flags (u16), capture count (u8),
/// register count (u8), body length (u32).
pub const RE_HEADER_LEN: usize = 8;

/// The instructions of the QuickJS regex bytecode.
#[derive(Clone, Copy, Debug, PartialEq, Eq, Structural)]
pub enum OpCode {
    Invalid,
    Char,
    CharI,
    Char32,
    Char32I,
    Dot,
    Any,
    Space,
    NotSpace,
    LineStart,
    LineStartM,
    LineEnd,
    LineEndM,
    Goto,
    SplitGotoFirst,
    SplitNextFirst,
    Match,
    LookaheadMatch,
    NegativeLookaheadMatch,
    SaveStart,
    SaveEnd,
    SaveReset,
    Loop,
    LoopSplitGotoFirst,
    LoopSplitNextFirst,
    LoopCheckAdvSplitGotoFirst,
    LoopCheckAdvSplitNextFirst,
    SetI32,
    WordBoundary,
    WordBoundaryI,
    NotWordBoundary,
    NotWordBoundaryI,
    BackReference,
    BackReferenceI,
    BackwardBackReference,
    BackwardBackReferenceI,
    Range,
    RangeI,
    Range32,
    Range32I,
    Lookahead,
    NegativeLookahead,
    SetCharPos,
    CheckAdvance,
    Prev,
}

/// The byte that encodes an opcode.
pub open spec fn opcode_byte(op: OpCode) -> u8 {
    match op {
        OpCode::Invalid => 0,
        OpCode::Char => 1,
        OpCode::CharI => 2,
        OpCode::Char32 => 3,
        OpCode::Char32I => 4,
        OpCode::Dot => 5,
        OpCode::Any => 6,
        OpCode::Space => 7,
        OpCode::NotSpace => 8,
        OpCode::LineStart => 9,
        OpCode::LineStartM => 10,
        OpCode::LineEnd => 11,
        OpCode::LineEndM => 12,
        OpCode::Goto => 13,
        OpCode::SplitGotoFirst => 14,
        OpCode::SplitNextFirst => 15,
        OpCode::Match => 16,
        OpCode::LookaheadMatch => 17,
        OpCode::NegativeLookaheadMatch => 18,
        OpCode::SaveStart => 19,
        OpCode::SaveEnd => 20,
        OpCode::SaveReset => 21,
        OpCode::Loop => 22,
        OpCode::LoopSplitGotoFirst => 23,
        OpCode::LoopSplitNextFirst => 24,
        OpCode::LoopCheckAdvSplitGotoFirst => 25,
        OpCode::LoopCheckAdvSplitNextFirst => 26,
        OpCode::SetI32 => 27,
        OpCode::WordBoundary => 28,
        OpCode::WordBoundaryI => 29,
        OpCode::NotWordBoundary => 30,
        OpCode::NotWordBoundaryI => 31,
        OpCode::BackReference => 32,
        OpCode::BackReferenceI => 33,
        OpCode::BackwardBackReference => 34,
        OpCode::BackwardBackReferenceI => 35,
        OpCode::Range => 36,
        OpCode::RangeI => 37,
        OpCode::Range32 => 38,
        OpCode::Range32I => 39,
        OpCode::Lookahead => 40,
        OpCode::NegativeLookahead => 41,
        OpCode::SetCharPos => 42,
        OpCode::CheckAdvance => 43,
        OpCode::Prev => 44,
    }
}

impl OpCode {
    /// The byte that encodes this opcode.
    pub fn byte(self) -> (b: u8)
        ensures
            b == opcode_byte(self),
    {
        match self {
            OpCode::Invalid => 0,
            OpCode::Char => 1,
            OpCode::CharI => 2,
            OpCode::Char32 => 3,
            OpCode::Char32I => 4,
            OpCode::Dot => 5,
            OpCode::Any => 6,
            OpCode::Space => 7,
            OpCode::NotSpace => 8,
            OpCode::LineStart => 9,
            OpCode::LineStartM => 10,
            OpCode::LineEnd => 11,
            OpCode::LineEndM => 12,
            OpCode::Goto => 13,
            OpCode::SplitGotoFirst => 14,
            OpCode::SplitNextFirst => 15,
            OpCode::Match => 16,
            OpCode::LookaheadMatch => 17,
            OpCode::NegativeLookaheadMatch => 18,
            OpCode::SaveStart => 19,
            OpCode::SaveEnd => 20,
            OpCode::SaveReset => 21,
            OpCode::Loop => 22,
            OpCode::LoopSplitGotoFirst => 23,
            OpCode::LoopSplitNextFirst => 24,
            OpCode::LoopCheckAdvSplitGotoFirst => 25,
            OpCode::LoopCheckAdvSplitNextFirst => 26,
            OpCode::SetI32 => 27,
            OpCode::WordBoundary => 28,
            OpCode::WordBoundaryI => 29,
            OpCode::NotWordBoundary => 30,
            OpCode::NotWordBoundaryI => 31,
            OpCode::BackReference => 32,
            OpCode::BackReferenceI => 33,
            OpCode::BackwardBackReference => 34,
            OpCode::BackwardBackReferenceI => 35,
            OpCode::Range => 36,
            OpCode::RangeI => 37,
            OpCode::Range32 => 38,
            OpCode::Range32I => 39,
            OpCode::Lookahead => 40,
            OpCode::NegativeLookahead => 41,
            OpCode::SetCharPos => 42,
            OpCode::CheckAdvance => 43,
            OpCode::Prev => 44,
        }
    }
}

/// Little-endian encoding of a 16-bit value.
pub open spec fn le16(v: u16) -> Seq<u8> {
    seq![(v % 256) as u8, (v / 256) as u8]
}

/// Little-endian encoding of a 32-bit value.
pub open spec fn le32(v: u32) -> Seq<u8> {
    seq![
        (v % 256) as u8,
        ((v / 256) % 256) as u8,
        ((v / 65536) % 256) as u8,
        (v / 16777216) as u8,
    ]
}

/// The 16-bit little-endian value stored at `p`.
pub open spec fn read_u16(bc: Seq<u8>, p: int) -> int {
    bc[p] + 256 * bc[p + 1]
}

/// The 32-bit little-endian value stored at `p`.
pub open spec fn read_u32(bc: Seq<u8>, p: int) -> int {
    bc[p] + 256 * bc[p + 1] + 65536 * bc[p + 2] + 16777216 * bc[p + 3]
}

/// The 32-bit little-endian value stored at `p`, read as two's complement.
pub open spec fn read_i32(bc: Seq<u8>, p: int) -> int {
    let v = read_u32(bc, p);
    if v >= 0x8000_0000 {
        v - 0x1_0000_0000
    } else {
        v
    }
}

/// Reading back a little-endian 16-bit encoding gives the value.
pub proof fn lemma_le16_roundtrip(v: u16)
    ensures
        le16(v).len() == 2,
        read_u16(le16(v), 0) == v,
{
}

/// Reading back a little-endian 32-bit encoding gives the value.
pub proof fn lemma_le32_roundtrip(v: u32)
    ensures
        le32(v).len() == 4,
        read_u32(le32(v), 0) == v,
{
}

/// Read the 16-bit little-endian value at `p`.
pub fn get_u16(bc: &[u8], p: usize) -> (r: u16)
    requires
        p + 2 <= bc@.len(),
    ensures
        r == read_u16(bc@, p as int),
{
    bc[p] as u16 + 256 * (bc[p + 1] as u16)
}

/// Read the 32-bit little-endian value at `p`.
pub fn get_u32(bc: &[u8], p: usize) -> (r: u32)
    requires
        p + 4 <= bc@.len(),
    ensures
        r == read_u32(bc@, p as int),
{
    bc[p] as u32 + 256 * (bc[p + 1] as u32) + 65536 * (bc[p + 2] as u32) + 16777216 * (
    bc[p + 3] as u32)
}

} // verus!
