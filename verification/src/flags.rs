use vstd::prelude::*;

verus! {

/// Regex flags, stored as the bit set written in the bytecode header.
#[derive(Clone, Copy, Debug, PartialEq, Eq, Structural)]
pub struct Flags {
    pub bits: u16,
}

impl Flags {
    pub const GLOBAL: u16 = 1;
    pub const IGNORE_CASE: u16 = 2;
    pub const MULTILINE: u16 = 4;
    pub const DOT_ALL: u16 = 8;
    pub const UNICODE: u16 = 16;
    pub const STICKY: u16 = 32;
    pub const INDICES: u16 = 64;
    pub const NAMED_GROUPS: u16 = 128;
    pub const UNICODE_SETS: u16 = 256;

    /// Whether every bit of `flag` is set in `self`.
    pub open spec fn has(self, flag: u16) -> bool {
        self.bits & flag == flag
    }

    /// The flag set with no bit set.
    pub fn empty() -> (f: Flags)
        ensures
            f.bits == 0,
    {
        Flags { bits: 0 }
    }

    /// The flag set with exactly the given bits.
    pub fn from_bits(bits: u16) -> (f: Flags)
        ensures
            f.bits == bits,
    {
        Flags { bits }
    }

    /// The raw bit set.
    pub fn bits(&self) -> (b: u16)
        ensures
            b == self.bits,
    {
        self.bits
    }

    /// Whether all bits of `flag` are set.
    pub fn contains(&self, flag: u16) -> (r: bool)
        ensures
            r == self.has(flag),
    {
        self.bits & flag == flag
    }

    /// Set the bits of `flag`, keeping the others.
    pub fn insert(&mut self, flag: u16)
        ensures
            final(self).bits == old(self).bits | flag,
    {
        self.bits = self.bits | flag;
    }
}

/// Inserting a flag makes it present and keeps every flag that was present.
pub proof fn lemma_insert_contains(bits: u16, flag: u16, other: u16)
    ensures
        (bits | flag) & flag == flag,
        bits & other == other ==> (bits | flag) & other == other,
{
    assert((bits | flag) & flag == flag) by (bit_vector);
    assert(bits & other == other ==> (bits | flag) & other == other) by (bit_vector);
}

} // verus!
