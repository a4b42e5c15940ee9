//! Memory identifiers.

use vstd::prelude::*;

verus! {

/// The identifier of a memory: the 128 bits of a UUID, most significant
/// first. Identifiers are equal when their bits are, and are ordered as the
/// numbers that the bits spell.
#[derive(Debug, Clone, Copy, PartialEq, Eq, Structural, Hash)]
pub struct MemoryId {
    /// The bits of the UUID, read as one big-endian number.
    pub bits: u128,
}

impl MemoryId {
    /// The identifier with the given bits.
    pub fn from_u128(bits: u128) -> (r: MemoryId)
        ensures
            r.bits == bits,
    {
        MemoryId { bits }
    }

    /// The bits of this identifier.
    pub fn as_u128(&self) -> (r: u128)
        ensures
            r == self.bits,
    {
        self.bits
    }
}

} // verus!
