//! The arguments of memory mapping calls.

use vstd::prelude::*;

use super::pte::MapPermission;

verus! {

/// How mapped memory may be used.
#[derive(Clone, Copy, Debug, PartialEq, Eq, Structural)]
pub struct MMapProt {
    /// The protection bits.
    pub bits: u32,
}

/// The memory may be read.
pub const PROT_READ: u32 = 1;

/// The memory may be written.
pub const PROT_WRITE: u32 = 2;

/// The memory may be executed.
pub const PROT_EXEC: u32 = 4;

impl MMapProt {
    /// The bits are protection bits.
    pub open spec fn wf(self) -> bool {
        self.bits < 8
    }

    /// The permission that the protection gives: the user may reach the memory
    /// where any access is allowed.
    pub open spec fn allows(self) -> MapPermission {
        MapPermission {
            r: self.bits % 2 == 1,
            w: self.bits / 2 % 2 == 1,
            x: self.bits / 4 % 2 == 1,
            u: self.bits != 0,
        }
    }

    /// Makes a protection of known bits.
    pub fn from_bits(bits: u32) -> (prot: Option<Self>)
        ensures
            prot is Some <==> bits < 8,
            prot matches Some(p) ==> p.bits == bits && p.wf(),
    {
        if bits < 8 {
            Some(MMapProt { bits })
        } else {
            None
        }
    }

    /// Returns the permission that the protection gives.
    pub fn permission(&self) -> (perm: MapPermission)
        ensures
            perm == self.allows(),
    {
        MapPermission {
            r: self.bits % 2 == 1,
            w: self.bits / 2 % 2 == 1,
            x: self.bits / 4 % 2 == 1,
            u: self.bits != 0,
        }
    }
}

/// How memory is mapped.
#[derive(Clone, Copy, Debug, PartialEq, Eq, Structural)]
pub struct MMapFlags {
    /// The mapping bits.
    pub bits: u32,
}

/// Writes are shared.
pub const MAP_SHARED: u32 = 0x01;

/// Writes are private.
pub const MAP_PRIVATE: u32 = 0x02;

/// Shared, with unknown bits refused.
pub const MAP_SHARED_VALIDATE: u32 = 0x03;

/// The address is a must; what lies there goes.
pub const MAP_FIXED: u32 = 0x10;

/// No file is behind the memory.
pub const MAP_ANONYMOUS: u32 = 0x20;

/// All bits with a meaning.
pub const MAP_KNOWN: u32 = 0x1f_f933;

impl MMapFlags {
    /// All bits of `mask` are set.
    pub open spec fn has(self, mask: u32) -> bool {
        self.bits & mask == mask
    }

    /// Makes flags of known bits.
    pub fn from_bits(bits: u32) -> (flags: Option<Self>)
        ensures
            flags is Some <==> bits & !MAP_KNOWN == 0,
            flags matches Some(f) ==> f.bits == bits,
    {
        if bits & !MAP_KNOWN == 0 {
            Some(MMapFlags { bits })
        } else {
            None
        }
    }

    /// Tells whether all bits of `mask` are set.
    pub fn contains(&self, mask: u32) -> (b: bool)
        ensures
            b == self.has(mask),
    {
        self.bits & mask == mask
    }
}

} // verus!
