//! Page tables as the hardware reads them, and who has to forget what they said.

use vstd::prelude::*;

use crate::mm::address::{
    table_index, PageSize, PhysAddr, PhysPageNum, VirtAddr, VirtPageNum,
};
use crate::mm::area::MapType;
use crate::mm::frame_allocator::FrameTracker;
use crate::mm::memory_set::pin::{PinSegment, UserSegment};
use crate::mm::memory_set::resize::{piece, pieces};
use crate::mm::memory_set::MemorySet;
use crate::mm::page_table::{page_mapped, same_block, walk, MapError, PageTable};
use crate::mm::phys::{PhysMemory, Tables};
use crate::mm::pte::{MapPermission, PTEFlags, PageTableEntry};
use crate::mm::shm::fresh_stat;
use crate::mm::tlb::{
    flush_plan, retired, switched_from, switched_to, token_asid, SatpActive,
};
use crate::mm::kernel_space::window_page;
use crate::mm::user_string::first_zero;
use super::signals::lemma_bits;
use vstd::std_specs::convert::FromSpec;

verus! {

/// An entry has its page from bit 10 on, and below that: valid, read, write, execute, user,
/// global, used and written, from bit 0 on.
pub proof fn law_bits_of_an_entry(entry: PageTableEntry)
    ensures
        entry.value() / 1024 == entry.page.0,
        entry.flags.v <==> entry.value() % 2 == 1,
        entry.flags.r <==> entry.value() / 2 % 2 == 1,
        entry.flags.w <==> entry.value() / 4 % 2 == 1,
        entry.flags.x <==> entry.value() / 8 % 2 == 1,
        entry.flags.u <==> entry.value() / 16 % 2 == 1,
        entry.flags.g <==> entry.value() / 32 % 2 == 1,
        entry.flags.a <==> entry.value() / 64 % 2 == 1,
        entry.flags.d <==> entry.value() / 128 % 2 == 1,
        entry.value() / 256 % 4 == 0,
{
}

/// A mapping is valid and marked as used, and lets be done what its area lets be done. Only what
/// the kernel may write is marked as written.
pub proof fn law_rights_of_a_mapping(perm: MapPermission)
    ensures
        ({
            let flags = perm.pte_flags().installed();
            &&& flags.v && flags.a && !flags.g
            &&& flags.r == perm.r
            &&& flags.w == perm.w
            &&& flags.x == perm.x
            &&& flags.u == perm.u
            &&& flags.d == (perm.w && !perm.u)
        }),
{
}

/// The three indexes of a page are its number in digits of 9 bits, the highest first.
pub proof fn law_indexes_of_a_page(page: int)
    requires
        0 <= page < 0x800_0000,
    ensures
        page == table_index(page, 0) * 262144 + table_index(page, 1) * 512 + table_index(page, 2),
        0 <= table_index(page, 0) < 512,
        0 <= table_index(page, 1) < 512,
        0 <= table_index(page, 2) < 512,
{
}

/// Pages have 4 KiB, 2 MiB or 1 GiB, and stand for as many of the small ones as they hold.
pub proof fn law_sizes_of_pages(size: PageSize)
    ensures
        PageSize::Page4K.bytes() == 4096,
        PageSize::Page2M.bytes() == 512 * 4096,
        PageSize::Page1G.bytes() == 512 * 512 * 4096,
        size.bytes() == size.pages() * 4096,
        PageSize::Page4K.level() == 2,
        PageSize::Page2M.level() == 1,
        PageSize::Page1G.level() == 0,
{
}

/// A walk follows entries that are valid and lead on, by the indexes of the page; it ends at the
/// first entry that may be read, written or executed, or at the last level.
pub proof fn law_walk(t: Tables, root: u64, page: int)
    requires
        0 <= page < 0x800_0000,
    ensures
        ({
            let e0 = t[root][page / 262144];
            let e1 = t[e0.page.0][page / 512 % 512];
            let e2 = t[e1.page.0][page % 512];
            let big = e0.flags.r || e0.flags.w || e0.flags.x;
            let middle = e1.flags.r || e1.flags.w || e1.flags.x;
            &&& big ==> walk(t, root, page) == Some((e0, PageSize::Page1G))
            &&& !big && !e0.flags.v ==> walk(t, root, page) is None
            &&& !big && e0.flags.v && middle ==> walk(t, root, page) == Some(
                (e1, PageSize::Page2M),
            )
            &&& !big && e0.flags.v && !middle && !e1.flags.v ==> walk(t, root, page) is None
            &&& !big && e0.flags.v && !middle && e1.flags.v && e2.flags.v ==> walk(t, root, page)
                == Some((e2, PageSize::Page4K))
            &&& !big && e0.flags.v && !middle && e1.flags.v && !e2.flags.v ==> walk(t, root, page)
                is None
        }),
{
    assert(page / 262144 % 512 == page / 262144);
}

/// Pages lie in one block of a level where they differ only below it.
pub proof fn law_blocks(a: int, b: int)
    ensures
        same_block(a, b, 2) <==> a == b,
        same_block(a, b, 1) <==> a / 512 == b / 512,
        same_block(a, b, 0) <==> a / 262144 == b / 262144,
{
}

/// Translations are thrown away on this processor where it uses them, and on every other that
/// does; nobody else is disturbed.
pub proof fn law_who_forgets(asid: u64, harts: u64, hart: u64, k: u64)
    requires
        hart < 64,
        k < 64,
    ensures
        flush_plan(asid, harts, hart).asid == asid,
        flush_plan(asid, harts, hart).local <==> harts & (1u64 << hart) != 0,
        flush_plan(asid, harts, hart).remote & (1u64 << k) != 0 <==> harts & (1u64 << k) != 0 && k
            != hart,
{
    lemma_bits(harts, 1u64 << hart, hart, k);
}

/// The number of an address space is bits 44 to 59 of its token.
pub proof fn law_number_in_a_token(asid: u64, root: u64)
    requires
        asid < 0x1_0000,
        root < 0x1000_0000_0000,
    ensures
        ({
            let token = 0x8000_0000_0000_0000 + asid * 0x1000_0000_0000 + root;
            token_asid(token as u64) == asid
        }),
{
    let token = 0x8000_0000_0000_0000 + asid * 0x1000_0000_0000 + root;
    assert(token / 0x1000_0000_0000 == 0x8_0000 + asid);
    assert((0x8_0000 + asid) % 0x1_0000 == asid);
}

/// A stretch of bytes is copied page by page: each piece goes to the page of its bytes, at their
/// place in it, and takes them from where the last piece ended.
pub proof fn law_pieces_of_a_copy(first: int, start: int, len: int, k: int)
    requires
        0 <= start,
        0 < len,
        start + len <= 0x80_0000_0000,
        first == start / 4096,
        0 <= k < pieces(first, start, len).len(),
    ensures
        ({
            let p = pieces(first, start, len)[k];
            &&& p == piece(first, start, len, k)
            &&& p.page * 4096 + p.offset == start + p.from
            &&& 0 < p.len
            &&& p.offset + p.len <= 4096
            &&& p.from + p.len <= len
            &&& k == 0 ==> p.from == 0
            &&& p.page == first + k
            &&& k == pieces(first, start, len).len() - 1 ==> p.from + p.len == len
            &&& k > 0 ==> p.from == pieces(first, start, len)[k - 1].from + pieces(
                first,
                start,
                len,
            )[k - 1].len
        }),
{
}

/// A page of a program is held for the kernel only where the program could do the same: its area
/// and its entry let it be read, or written where it is to be written, from the program. What is
/// held is the frame of the page, from the byte that was asked for to the end of the page or of
/// what was asked for.
pub proof fn law_held_page(
    set: &MemorySet,
    memory: &PhysMemory,
    k: int,
    va: int,
    end: int,
    write: bool,
    segment: UserSegment,
)
    requires
        0 <= k < set.areas().len(),
        0 <= va < end,
        set.segment_in(memory, set.areas()[k], va, end, write) == PinSegment::Pinned(segment),
        set.resident().contains_key((va / 4096) as u64) ==> set.resident()[(va
            / 4096) as u64].page_size == PageSize::Page4K,
    ensures
        ({
            let area = set.areas()[k];
            let entry = set.mapping(memory, va / 4096)->Some_0.0;
            &&& set.mapping(memory, va / 4096) is Some
            &&& area.map_perm.u
            &&& write ==> area.map_perm.w && entry.flags.w
            &&& !write ==> area.map_perm.r && entry.flags.r
            &&& entry.flags.v && entry.flags.u
            &&& segment.ppn == entry.page
            &&& segment.frame == Some(set.resident()[(va / 4096) as u64])
            &&& segment.frame->Some_0.ppn == entry.page
            &&& segment.offset == va % 4096
            &&& segment.offset + segment.len <= 4096
            &&& va + segment.len <= end
            &&& va + segment.len == end || segment.offset + segment.len == 4096
        }),
{
}

/// A page that is not there is brought in first where the area lets it be used so; a page that is
/// there and may not be written is copied first where the area lets it be written.
pub proof fn law_page_is_brought_first(
    set: &MemorySet,
    memory: &PhysMemory,
    k: int,
    va: int,
    end: int,
    write: bool,
)
    requires
        0 <= k < set.areas().len(),
        0 <= va < end,
        set.areas()[k].map_type == MapType::Framed,
    ensures
        ({
            let area = set.areas()[k];
            let v = (va / 4096) as u64;
            let may = area.map_perm.u && (write ==> area.map_perm.w) && (!write
                ==> area.map_perm.r);
            let got = set.segment_in(memory, area, va, end, write);
            &&& set.mapping(memory, va / 4096) is None && !set.resident().contains_key(v) && may
                ==> got is NeedsFault
            &&& got is NeedsFault ==> may
            &&& got is NeedsFault && set.mapping(memory, va / 4096) is Some ==> write
            &&& got is Pinned ==> may && set.resident().contains_key(v)
        }),
{
}

/// A new shared segment has the size, key, mode and maker that were asked for; nobody has it
/// attached.
pub proof fn law_new_segment(size: u64, key: i32, mode: u16, cpid: u64)
    ensures
        ({
            let stat = fresh_stat(size, key, mode, cpid);
            &&& stat.shm_segsz == size
            &&& stat.shm_perm.key == key
            &&& stat.shm_perm.mode == mode
            &&& stat.shm_cpid == cpid
            &&& stat.shm_nattch == 0
            &&& stat.shm_lpid == 0
            &&& stat.shm_perm.uid == 0 && stat.shm_perm.gid == 0
            &&& stat.shm_perm.cuid == 0 && stat.shm_perm.cgid == 0
            &&& stat.shm_atime == 0 && stat.shm_dtime == 0 && stat.shm_ctime == 0
        }),
{
}

/// A processor that goes to another address space uses it from then on; nobody stops using one.
pub proof fn law_address_space_is_entered(
    before: &SatpActive,
    after: &SatpActive,
    hart: u64,
    old_token: u64,
    token: u64,
    switch: bool,
    other: u64,
    k: u64,
)
    requires
        switched_to(before, after, hart, old_token, token, switch),
        hart < 64,
        k < 64,
    ensures
        switch <==> old_token != token,
        switch ==> after.running(token) & (1u64 << hart) != 0,
        k != hart || !switch ==> (after.running(token) & (1u64 << k) != 0 <==> before.running(token)
            & (1u64 << k) != 0),
        other != token ==> after.running(other) == before.running(other),
        after.dying() == before.dying(),
{
    lemma_bits(before.running(token), 1u64 << hart, hart, k);
    lemma_bits(before.running(token), 1u64 << hart, hart, hart);
}

/// A processor that leaves an address space does not use it any more; the others do. The frames of
/// one that was given up are free with the last processor that leaves it, and not before.
pub proof fn law_address_space_is_left(
    before: &SatpActive,
    after: &SatpActive,
    hart: u64,
    old_token: u64,
    frames: Option<Vec<FrameTracker>>,
    other: u64,
    k: u64,
)
    requires
        before.wf(),
        switched_from(before, after, hart, old_token, frames),
        hart < 64,
        k < 64,
    ensures
        after.running(old_token) & (1u64 << k) != 0 <==> before.running(old_token) & (1u64 << k)
            != 0 && k != hart,
        other != old_token ==> after.running(other) == before.running(other),
        frames is Some ==> after.running(old_token) == 0 && before.dying().contains_key(old_token)
            && frames->Some_0@ == before.dying()[old_token],
        before.dying().contains_key(old_token) && after.running(old_token) == 0 ==> frames is Some,
        other != old_token ==> (after.dying().contains_key(other) <==> before.dying().contains_key(
            other,
        )),
{
    let was = before.running(old_token);
    lemma_bits(was, 1u64 << hart, hart, k);
    assert(0u64 & (1u64 << k) == 0 && (was & !(1u64 << hart) == 0 || was & !(1u64 << hart) != 0))
        by (bit_vector);
}

/// An address space that is given up is free at once where no processor uses it, and else later.
pub proof fn law_address_space_is_given_up(
    before: &SatpActive,
    after: &SatpActive,
    token: u64,
    frames: Vec<FrameTracker>,
    free: Option<Vec<FrameTracker>>,
)
    requires
        retired(before, after, token, frames, free),
    ensures
        free is Some <==> before.running(token) == 0,
        free matches Some(now) ==> now == frames,
        free is None ==> after.dying().contains_key(token) && after.dying()[token] == frames@,
        after.harts() == before.harts(),
{
}

/// A page that was mapped is found with its frame and its rights, valid; no page of another block
/// has changed, and nothing has where it could not be mapped.
pub proof fn law_mapped_page(
    before: &PageTable,
    memory: &PhysMemory,
    after: &PageTable,
    memory_after: &PhysMemory,
    page: VirtPageNum,
    ppn: PhysPageNum,
    flags: PTEFlags,
    done: Result<(), MapError>,
    q: int,
)
    requires
        page_mapped(
            before,
            memory,
            after,
            memory_after,
            page,
            ppn,
            flags,
            PageSize::Page4K,
            done,
        ),
        page.0 < 0x800_0000,
        0 <= q < 0x800_0000,
    ensures
        done is Ok ==> {
            let (entry, size) = after.at(memory_after, page.0 as int)->Some_0;
            &&& after.at(memory_after, page.0 as int) is Some
            &&& entry.page == ppn
            &&& entry.flags.v && entry.flags.a
            &&& entry.flags.r == flags.r && entry.flags.w == flags.w
            &&& entry.flags.x == flags.x && entry.flags.u == flags.u
            &&& size == PageSize::Page4K
        },
        q != page.0 || done is Err ==> after.at(memory_after, q) == before.at(memory, q),
        after.root() == before.root(),
        done is Ok ==> before.at(memory, page.0 as int) is None,
{
    law_blocks(q, page.0 as int);
    law_walk(memory.tables(), before.root(), page.0 as int);
}

/// Addresses and pages keep their low bits: 56 of a physical address and 44 of its page, 39 of a
/// virtual one and 27 of its page. A page starts at 4096 times its number.
pub proof fn law_addresses(v: u64, page: VirtPageNum, frame: PhysPageNum)
    requires
        page.0 < 0x800_0000,
        frame.0 < 0x1000_0000_0000,
    ensures
        <PhysAddr as FromSpec<u64>>::from_spec(v).0 == v % 0x100_0000_0000_0000,
        <PhysPageNum as FromSpec<u64>>::from_spec(v).0 == v % 0x1000_0000_0000,
        <VirtAddr as FromSpec<u64>>::from_spec(v).0 == v % 0x80_0000_0000,
        <VirtPageNum as FromSpec<u64>>::from_spec(v).0 == v % 0x800_0000,
        <VirtAddr as FromSpec<VirtPageNum>>::from_spec(page).0 == page.0 * 4096,
        <PhysAddr as FromSpec<PhysPageNum>>::from_spec(frame).0 == frame.0 * 4096,
        <u64 as FromSpec<VirtPageNum>>::from_spec(page) == page.0,
        <u64 as FromSpec<PhysPageNum>>::from_spec(frame) == frame.0,
{
    let a = page.0;
    let b = frame.0;
    assert(a < 0x800_0000 ==> a << 12 == a * 4096) by (bit_vector);
    assert(b < 0x1000_0000_0000 ==> b << 12 == b * 4096) by (bit_vector);
}

/// An address in the upper half of the address space has all bits above its 39 set, and one in the
/// lower half has none.
pub proof fn law_upper_half(addr: VirtAddr)
    requires
        addr.0 < 0x80_0000_0000,
    ensures
        addr.0 < 0x40_0000_0000 ==> <u64 as FromSpec<VirtAddr>>::from_spec(addr) == addr.0,
        addr.0 >= 0x40_0000_0000 ==> <u64 as FromSpec<VirtAddr>>::from_spec(addr) == addr.0
            + 0xffff_ff80_0000_0000,
{
    let v = addr.0;
    assert(v < 0x80_0000_0000 ==> (v | 0xffff_ff80_0000_0000) == v + 0xffff_ff80_0000_0000)
        by (bit_vector);
}

/// A string of a program ends at its first zero.
pub proof fn law_end_of_a_string(bytes: Seq<u8>, i: int)
    ensures
        first_zero(bytes) <= bytes.len(),
        0 <= i < first_zero(bytes) ==> bytes[i] != 0,
        first_zero(bytes) < bytes.len() ==> bytes[first_zero(bytes) as int] == 0,
    decreases bytes.len(),
{
    if bytes.len() > 0 && bytes[0] != 0 {
        let rest = bytes.skip(1);
        law_end_of_a_string(rest, i - 1);
        if i > 0 && i < bytes.len() {
            assert(rest[i - 1] == bytes[i]);
        }
        if first_zero(rest) < rest.len() {
            assert(rest[first_zero(rest) as int] == bytes[first_zero(rest) as int + 1]);
        }
    }
}

/// A page of the kernel's window shows the frame whose address is its own without the window.
pub proof fn law_window(v: u64)
    requires
        0x400_0000 <= v < 0x800_0000,
    ensures
        window_page(0xffff_ffc0_0000_0000, v) == v - 0x400_0000,
{
    let at = (v * 4096) as u64;
    assert(at >= 0x40_0000_0000 && at < 0x80_0000_0000 ==> (at | 0xffff_ff80_0000_0000)
        & !0xffff_ffc0_0000_0000u64 == at - 0x40_0000_0000) by (bit_vector);
}

} // verus!
