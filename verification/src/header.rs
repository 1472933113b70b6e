//! Readers of the 8-byte header of a QuickJS regex program: flags (u16),
//! capture count (u8), register count (u8), body length (u32).
use vstd::prelude::*;
use crate::codegen::header;
use crate::flags::Flags;
use crate::opcodes::{RE_HEADER_LEN, read_u16, read_u32, le16, le32};

verus! {

/// The number of capture groups, group 0 (the whole match) included.
pub fn lre_get_capture_count(bc_buf: &[u8]) -> (r: i32)
    requires
        bc_buf@.len() >= RE_HEADER_LEN,
    ensures
        r == bc_buf@[2],
{
    bc_buf[2] as i32
}

/// The flags the program was compiled with.
pub fn lre_get_flags(bc_buf: &[u8]) -> (r: i32)
    requires
        bc_buf@.len() >= RE_HEADER_LEN,
    ensures
        r == read_u16(bc_buf@, 0),
{
    bc_buf[0] as i32 + 256 * (bc_buf[1] as i32)
}

/// The number of slots a matcher allocates: two per capture group, plus one
/// per register.
pub fn lre_get_alloc_count(bc_buf: &[u8]) -> (r: i32)
    requires
        bc_buf@.len() >= RE_HEADER_LEN,
    ensures
        r == 2 * bc_buf@[2] + bc_buf@[3],
{
    2 * (bc_buf[2] as i32) + bc_buf[3] as i32
}

/// Where the group names start, right after the body, when the program has
/// named groups.
pub fn lre_get_groupnames(bc_buf: &[u8]) -> (r: Option<u64>)
    requires
        bc_buf@.len() >= RE_HEADER_LEN,
    ensures
        r == if (read_u16(bc_buf@, 0) as u16) & Flags::NAMED_GROUPS == 0 {
            None::<u64>
        } else {
            Some((RE_HEADER_LEN + read_u32(bc_buf@, 4)) as u64)
        },
{
    let flags: u16 = bc_buf[0] as u16 + 256 * (bc_buf[1] as u16);
    if flags & Flags::NAMED_GROUPS == 0 {
        return None;
    }
    let len: u64 = bc_buf[4] as u64 + 256 * (bc_buf[5] as u64) + 65536 * (bc_buf[6] as u64)
        + 16777216 * (bc_buf[7] as u64);
    Some(RE_HEADER_LEN as u64 + len)
}

/// The header of a generated program reads back as what it was written
/// with: its flags, its capture count (group 0 included), no registers, and
/// its body length.
pub proof fn lemma_header_reads_back(fl: Flags, groups: nat, body: Seq<u8>)
    requires
        groups <= 255,
        body.len() <= u32::MAX,
    ensures
        ({
            let bc = header(fl, groups, 0, body.len()) + body;
            &&& bc.len() == RE_HEADER_LEN + body.len()
            &&& read_u16(bc, 0) == fl.bits
            &&& bc[2] == groups
            &&& 2 * bc[2] + bc[3] == 2 * groups
            &&& read_u32(bc, 4) == body.len()
            &&& bc.subrange(RE_HEADER_LEN as int, bc.len() as int) == body
        }),
{
    let h = header(fl, groups, 0, body.len());
    let bc = h + body;
    assert(h.len() == 8);
    assert(bc[0] == le16(fl.bits)[0] && bc[1] == le16(fl.bits)[1]);
    assert(bc[4] == le32(body.len() as u32)[0]);
    assert(bc[5] == le32(body.len() as u32)[1]);
    assert(bc[6] == le32(body.len() as u32)[2]);
    assert(bc[7] == le32(body.len() as u32)[3]);
    assert(bc.subrange(8, bc.len() as int) =~= body);
}

} // verus!
