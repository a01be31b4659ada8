//! Page-table entries and the permissions of memory areas.

use vstd::arithmetic::div_mod::lemma_mod_breakdown;
use vstd::prelude::*;

use super::address::{PhysPageNum, PPN_LIMIT};

verus! {

/// The flags of a page-table entry.
#[derive(Clone, Copy, Debug, PartialEq, Eq, Structural)]
pub struct PTEFlags {
    /// The entry is valid.
    pub v: bool,
    /// The page can be read.
    pub r: bool,
    /// The page can be written.
    pub w: bool,
    /// The page can be executed.
    pub x: bool,
    /// User mode can reach the page.
    pub u: bool,
    /// The mapping is in all address spaces.
    pub g: bool,
    /// The page was accessed.
    pub a: bool,
    /// The page was written.
    pub d: bool,
}

/// The value of a bit at a place.
pub open spec fn bit_value(bit: bool, place: int) -> int {
    if bit {
        place
    } else {
        0
    }
}

/// One bit of a number.
pub open spec fn bit_of(bits: int, place: int) -> bool {
    bits / place % 2 == 1
}

fn bit_number(bit: bool, place: u64) -> (n: u64)
    ensures
        n == bit_value(bit, place as int),
{
    if bit {
        place
    } else {
        0
    }
}

impl PTEFlags {
    /// The flags as the hardware holds them.
    pub open spec fn value(self) -> int {
        bit_value(self.v, 1) + bit_value(self.r, 2) + bit_value(self.w, 4) + bit_value(self.x, 8)
            + bit_value(self.u, 16) + bit_value(self.g, 32) + bit_value(self.a, 64) + bit_value(
            self.d,
            128,
        )
    }

    /// No flags.
    pub open spec fn none() -> PTEFlags {
        PTEFlags { v: false, r: false, w: false, x: false, u: false, g: false, a: false, d: false }
    }

    /// Returns no flags.
    pub fn empty() -> (flags: Self)
        ensures
            flags == PTEFlags::none(),
    {
        PTEFlags { v: false, r: false, w: false, x: false, u: false, g: false, a: false, d: false }
    }

    /// Returns the flags as the hardware holds them.
    pub fn bits(&self) -> (bits: u64)
        ensures
            bits == self.value(),
            bits < 256,
    {
        bit_number(self.v, 1) + bit_number(self.r, 2) + bit_number(self.w, 4) + bit_number(
            self.x,
            8,
        ) + bit_number(self.u, 16) + bit_number(self.g, 32) + bit_number(self.a, 64) + bit_number(
            self.d,
            128,
        )
    }

    /// Reads the flags from the low byte of a number.
    pub fn from_bits(bits: u64) -> (flags: Self)
        ensures
            flags.value() == bits % 256,
            flags.v == bit_of(bits as int, 1),
            flags.r == bit_of(bits as int, 2),
            flags.w == bit_of(bits as int, 4),
            flags.x == bit_of(bits as int, 8),
            flags.u == bit_of(bits as int, 16),
            flags.g == bit_of(bits as int, 32),
            flags.a == bit_of(bits as int, 64),
            flags.d == bit_of(bits as int, 128),
    {
        proof {
            lemma_low_bits(bits as int);
        }
        PTEFlags {
            v: bits % 2 == 1,
            r: bits / 2 % 2 == 1,
            w: bits / 4 % 2 == 1,
            x: bits / 8 % 2 == 1,
            u: bits / 16 % 2 == 1,
            g: bits / 32 % 2 == 1,
            a: bits / 64 % 2 == 1,
            d: bits / 128 % 2 == 1,
        }
    }

    /// The flags of a mapping made with `self`: valid and accessed, and for a
    /// writable kernel page dirty, as the kernel has no handler to set that later.
    pub open spec fn installed(self) -> PTEFlags {
        PTEFlags { v: true, a: true, d: self.d || (self.w && !self.u), ..self }
    }

    /// Returns the flags of a mapping made with `self`.
    pub fn install(self) -> (flags: Self)
        ensures
            flags == self.installed(),
    {
        PTEFlags { v: true, a: true, d: self.d || (self.w && !self.u), ..self }
    }
}

/// A byte is the sum of its bits.
proof fn lemma_low_bits(n: int)
    requires
        n >= 0,
    ensures
        n % 256 == n % 2 + 2 * (n / 2 % 2) + 4 * (n / 4 % 2) + 8 * (n / 8 % 2) + 16 * (n / 16 % 2)
            + 32 * (n / 32 % 2) + 64 * (n / 64 % 2) + 128 * (n / 128 % 2),
{
    lemma_mod_breakdown(n, 2, 2);
    lemma_mod_breakdown(n, 4, 2);
    lemma_mod_breakdown(n, 8, 2);
    lemma_mod_breakdown(n, 16, 2);
    lemma_mod_breakdown(n, 32, 2);
    lemma_mod_breakdown(n, 64, 2);
    lemma_mod_breakdown(n, 128, 2);
}

/// An entry of a page table.
#[derive(Clone, Copy, Debug, PartialEq, Eq, Structural)]
pub struct PageTableEntry {
    /// The page, or the next table, that the entry points to.
    pub page: PhysPageNum,
    /// The entry's flags.
    pub flags: PTEFlags,
}

impl PageTableEntry {
    /// The entry that maps nothing.
    pub open spec fn blank() -> PageTableEntry {
        PageTableEntry { page: PhysPageNum(0), flags: PTEFlags::none() }
    }

    /// The entry lets itself be read, written or executed, so it is no link to a table.
    pub open spec fn accessible(self) -> bool {
        self.flags.r || self.flags.w || self.flags.x
    }

    /// At `level` the entry ends a walk with a page.
    pub open spec fn is_leaf(self, level: int) -> bool {
        (level == 2 && self.flags.v) || (level < 2 && self.accessible())
    }

    /// The entry as the hardware holds it.
    pub open spec fn value(self) -> int {
        self.page.0 * 1024 + self.flags.value()
    }

    /// Returns an entry.
    pub fn new(page: PhysPageNum, flags: PTEFlags) -> (entry: Self)
        ensures
            entry == (PageTableEntry { page, flags }),
    {
        PageTableEntry { page, flags }
    }

    /// Returns the entry that maps nothing.
    pub fn empty() -> (entry: Self)
        ensures
            entry == PageTableEntry::blank(),
    {
        PageTableEntry { page: PhysPageNum(0), flags: PTEFlags::empty() }
    }

    /// Returns the page that the entry points to.
    pub fn ppn(&self) -> (page: PhysPageNum)
        ensures
            page == self.page,
    {
        self.page
    }

    /// Tells whether the entry is valid.
    pub fn is_valid(&self) -> (b: bool)
        ensures
            b == self.flags.v,
    {
        self.flags.v
    }

    /// Tells whether the page can be read.
    pub fn readable(&self) -> (b: bool)
        ensures
            b == self.flags.r,
    {
        self.flags.r
    }

    /// Tells whether the page can be written.
    pub fn writable(&self) -> (b: bool)
        ensures
            b == self.flags.w,
    {
        self.flags.w
    }

    /// Tells whether the page can be executed.
    pub fn executable(&self) -> (b: bool)
        ensures
            b == self.flags.x,
    {
        self.flags.x
    }

    /// Tells whether user mode can reach the page.
    pub fn user_accessible(&self) -> (b: bool)
        ensures
            b == self.flags.u,
    {
        self.flags.u
    }

    /// Returns the entry as the hardware holds it.
    pub fn bits(&self) -> (bits: u64)
        requires
            self.page.0 < PPN_LIMIT,
        ensures
            bits == self.value(),
    {
        self.page.0 * 1024 + self.flags.bits()
    }

    /// Reads an entry as the hardware holds it.
    pub fn from_bits(bits: u64) -> (entry: Self)
        ensures
            entry.page.0 == bits / 1024 % PPN_LIMIT,
            entry.flags.value() == bits % 256,
    {
        PageTableEntry {
            page: PhysPageNum(bits / 1024 % PPN_LIMIT),
            flags: PTEFlags::from_bits(bits),
        }
    }
}

/// Flags with the same value are the same flags.
pub proof fn law_flags_value_injective(a: PTEFlags, b: PTEFlags)
    requires
        a.value() == b.value(),
    ensures
        a == b,
{
}

/// Entries with the same hardware form are the same entries.
pub proof fn law_entry_value_injective(a: PageTableEntry, b: PageTableEntry)
    requires
        a.value() == b.value(),
    ensures
        a == b,
{
    assert(a.flags.value() < 256 && b.flags.value() < 256);
    assert(a.page.0 == b.page.0);
    law_flags_value_injective(a.flags, b.flags);
}

/// What a memory area lets its user do.
#[derive(Clone, Copy, Debug, PartialEq, Eq, Structural)]
pub struct MapPermission {
    /// Read.
    pub r: bool,
    /// Write.
    pub w: bool,
    /// Execute.
    pub x: bool,
    /// All that from user mode.
    pub u: bool,
}

impl MapPermission {
    /// Nothing but user mode.
    pub open spec fn only_user(self) -> bool {
        !self.r && !self.w && !self.x
    }

    /// The flags that the permission gives a page.
    pub open spec fn pte_flags(self) -> PTEFlags {
        PTEFlags { r: self.r, w: self.w, x: self.x, u: self.u, ..PTEFlags::none() }
    }

    /// Returns the flags that the permission gives a page.
    pub fn flags(&self) -> (flags: PTEFlags)
        ensures
            flags == self.pte_flags(),
    {
        PTEFlags {
            v: false,
            r: self.r,
            w: self.w,
            x: self.x,
            u: self.u,
            g: false,
            a: false,
            d: false,
        }
    }

    /// Returns the permission of a range with the given protection bits: read 1, write 2, execute 4.
    pub fn from_prot(prot: u32) -> (perm: Self)
        ensures
            perm.u,
            perm.r == (prot % 2 == 1),
            perm.w == (prot / 2 % 2 == 1),
            perm.x == (prot / 4 % 2 == 1),
    {
        MapPermission {
            r: prot % 2 == 1,
            w: prot / 2 % 2 == 1,
            x: prot / 4 % 2 == 1,
            u: true,
        }
    }
}

} // verus!
