//! The kernel's own address space.
//!
//! The kernel sees physical memory through a window: a virtual address in the
//! window, without the bits of the window's base, is the physical address. The
//! sections of the kernel image, the rest of memory and the registers of
//! devices are mapped in it once and then stay.

use vstd::prelude::*;

use super::address::{
    pages_to_cover, PageSize, PhysAddr, PhysPageNum, VirtAddr, VirtPageNum, PAGE_SIZE, PA_LIMIT,
    VA_LIMIT, VA_SIGN_BITS, VA_UPPER_HALF, VPN_LIMIT,
};
use super::area::{MapArea, MapType};
use super::frame_allocator::{law_take_conserves, law_take_some};
use super::page_table::{
    compact, is_page, lemma_keeps_both, lemma_unmapped_is_free, lemma_unused_block_is_free,
    same_block, MapError, Mapping, PageTable,
};
use super::phys::{lemma_held_both, lemma_held_self, PhysMemory};
use super::pte::{MapPermission, PTEFlags, PageTableEntry};

verus! {

broadcast use {lemma_keeps_both, lemma_held_both, lemma_held_self};

/// Where the parts of the kernel lie; the addresses are virtual ones in the window.
pub struct KernelLayout {
    /// The base of the window.
    pub window: u64,
    /// The code.
    pub text: (u64, u64),
    /// The constants.
    pub rodata: (u64, u64),
    /// The data.
    pub data: (u64, u64),
    /// The data that starts as zero, with the boot stack.
    pub bss: (u64, u64),
    /// The first address behind the image.
    pub image_end: u64,
    /// The first physical address behind memory.
    pub memory_end: u64,
    /// The registers of devices: physical address and size.
    pub mmio: Vec<(u64, u64)>,
}

/// The physical page behind page `v` of the window.
pub open spec fn window_page(window: u64, v: u64) -> u64 {
    let at = (v * 4096) as u64;
    let raw = if at >= VA_UPPER_HALF {
        at | VA_SIGN_BITS
    } else {
        at
    };
    ((raw & !window) % PA_LIMIT) / 4096
}

/// The number of the area's entry whose block page `q` lies in.
pub open spec fn entry_of(area: MapArea, q: int) -> int {
    q / area.page_size.pages() - area.start as int / area.page_size.pages()
}

/// Page `q` lies in the block of an entry of the area that starts below `end`.
pub open spec fn maps_page(area: MapArea, end: int, q: int) -> bool {
    let k = entry_of(area, q);
    0 <= k && area.start + k * area.page_size.pages() < end
}

/// The entries of an area.
pub open spec fn entries(area: MapArea) -> int {
    (area.end - area.start + area.page_size.pages() - 1) / area.page_size.pages() as int
}

/// The entries of areas.
pub open spec fn all_entries(s: Seq<MapArea>) -> int
    decreases s.len(),
{
    if s.len() == 0 {
        0
    } else {
        all_entries(s.drop_last()) + entries(s.last())
    }
}

/// What an area of the window maps page `q` to.
pub open spec fn windowed(area: MapArea, window: u64, q: int) -> Mapping {
    let first = area.start + entry_of(area, q) * area.page_size.pages();
    Some(
        (
            PageTableEntry {
                page: PhysPageNum(window_page(window, first as u64)),
                flags: area.map_perm.pte_flags().installed(),
            },
            area.page_size,
        ),
    )
}

/// The area of a part of the kernel, from one address to another.
pub open spec fn kernel_area(from: u64, to: u64, perm: MapPermission, size: PageSize) -> MapArea {
    MapArea {
        start: (from % VA_LIMIT) / 4096,
        end: pages_to_cover((to % VA_LIMIT) as int) as u64,
        map_type: MapType::Windowed,
        map_perm: perm,
        is_shared: false,
        backing_file: None,
        shared_group: None,
        page_size: size,
    }
}

/// The part ends behind its start, and so does the part of the address that counts.
pub open spec fn part_ok(from: u64, to: u64) -> bool {
    (from % VA_LIMIT) <= (to % VA_LIMIT)
}

impl KernelLayout {
    /// Every part of the kernel ends behind its start.
    pub open spec fn wf(&self) -> bool {
        &&& part_ok(self.text.0, self.text.1)
        &&& part_ok(self.rodata.0, self.rodata.1)
        &&& part_ok(self.data.0, self.data.1)
        &&& part_ok(self.bss.0, self.bss.1)
        &&& part_ok(self.image_end, self.memory_end | self.window)
        &&& forall|i: int|
            0 <= i < self.mmio@.len() ==> (#[trigger] self.mmio@[i]).0 + self.mmio@[i].1 <= u64::MAX
                && part_ok(
                self.mmio@[i].0 | self.window,
                ((self.mmio@[i].0 + self.mmio@[i].1) as u64) | self.window,
            )
    }

    /// The areas of the image and of the rest of memory.
    pub open spec fn fixed_areas(&self) -> Seq<MapArea> {
        seq![
            kernel_area(
                self.text.0,
                self.text.1,
                MapPermission { r: true, w: false, x: true, u: false },
                PageSize::Page2M,
            ),
            kernel_area(
                self.rodata.0,
                self.rodata.1,
                MapPermission { r: true, w: false, x: false, u: false },
                PageSize::Page2M,
            ),
            kernel_area(
                self.data.0,
                self.data.1,
                MapPermission { r: true, w: true, x: false, u: false },
                PageSize::Page2M,
            ),
            kernel_area(
                self.bss.0,
                self.bss.1,
                MapPermission { r: true, w: true, x: false, u: false },
                PageSize::Page2M,
            ),
            kernel_area(
                self.image_end,
                self.memory_end | self.window,
                MapPermission { r: true, w: true, x: false, u: false },
                PageSize::Page2M,
            ),
        ]
    }

    /// The areas of the first `n` devices.
    pub open spec fn device_areas(&self, n: nat) -> Seq<MapArea> {
        Seq::new(
            n,
            |i: int|
                kernel_area(
                    self.mmio@[i].0 | self.window,
                    ((self.mmio@[i].0 + self.mmio@[i].1) as u64) | self.window,
                    MapPermission { r: true, w: true, x: false, u: false },
                    PageSize::Page4K,
                ),
        )
    }

    /// The areas of the kernel in the order in which they are mapped.
    pub open spec fn areas(&self) -> Seq<MapArea> {
        self.fixed_areas() + self.device_areas(self.mmio@.len())
    }
}

/// What the areas, mapped one after the other, map page `q` to.
pub open spec fn mapped_by(s: Seq<MapArea>, window: u64, q: int, before: Mapping) -> Mapping
    decreases s.len(),
{
    if s.len() == 0 {
        before
    } else if maps_page(s.last(), s.last().end as int, q) {
        windowed(s.last(), window, q)
    } else {
        mapped_by(s.drop_last(), window, q, before)
    }
}

proof fn lemma_entry(area: MapArea, k: int, n: int)
    requires
        n == area.page_size.pages(),
        n == 1 || n == 512 || n == 262144,
        k >= 0,
    ensures
        entry_of(area, area.start + k * n) == k,
{
    assert((area.start + k * n) / n == area.start as int / n + k) by (nonlinear_arith)
        requires
            n > 0,
    ;
}

proof fn lemma_next_entry(area: MapArea, k: int, n: int, q: int)
    requires
        n == area.page_size.pages(),
        n == 1 || n == 512 || n == 262144,
        k >= 0,
        is_page(q),
    ensures
        ({
            let v = area.start + k * n;
            &&& same_block(q, v, area.page_size.level()) <==> entry_of(area, q) == k
            &&& maps_page(area, v + n, q) <==> maps_page(area, v, q) || entry_of(area, q) == k
        }),
{
    lemma_entry(area, k, n);
    let e = entry_of(area, q);
    assert(e < k ==> e * n <= k * n - n) by (nonlinear_arith)
        requires
            n > 0,
    ;
    assert(e > k ==> e * n >= k * n + n) by (nonlinear_arith)
        requires
            n > 0,
    ;
}

proof fn lemma_last_entry(area: MapArea, k: int, n: int, q: int)
    requires
        n == area.page_size.pages(),
        n > 0,
        k >= 0,
        area.start + k * n >= area.end,
        k > 0 ==> area.start + (k - 1) * n < area.end,
    ensures
        maps_page(area, area.start + k * n, q) == maps_page(area, area.end as int, q),
{
    let e = entry_of(area, q);
    assert(e < k ==> e * n <= (k - 1) * n) by (nonlinear_arith)
        requires
            n > 0,
    ;
    assert(e >= k ==> e * n >= k * n) by (nonlinear_arith)
        requires
            n > 0,
    ;
}

proof fn lemma_entries_not_negative(area: MapArea)
    requires
        area.start <= area.end,
    ensures
        entries(area) >= 0,
{
    let n = area.page_size.pages();
    let d = area.end - area.start;
    assert((d + n - 1) / n >= 0) by (nonlinear_arith)
        requires
            n > 0,
            d >= 0,
    ;
}

proof fn lemma_entry_counts(area: MapArea, k: int, n: int)
    requires
        n == area.page_size.pages(),
        n > 0,
        area.start + (k - 1) * n < area.end,
    ensures
        k <= entries(area),
{
    let d = area.end - area.start;
    assert((k - 1) * n < d ==> k <= (d + n - 1) / n) by (nonlinear_arith)
        requires
            n > 0,
    ;
}

/// The kernel's address space.
pub struct KernelSpace {
    window: u64,
    areas: Vec<MapArea>,
    page_table: PageTable,
}

impl KernelSpace {
    /// The areas in the order in which they were mapped.
    pub closed spec fn areas(&self) -> Seq<MapArea> {
        self.areas@
    }

    /// The page table.
    pub closed spec fn table(&self) -> PageTable {
        self.page_table
    }

    /// The base of the window.
    pub closed spec fn window(&self) -> u64 {
        self.window
    }

    /// What the page table says of a page.
    pub open spec fn mapping(&self, memory: &PhysMemory, q: int) -> Mapping {
        self.table().at(memory, q)
    }

    /// No table is idle.
    pub open spec fn is_compact(&self, memory: &PhysMemory) -> bool {
        compact(memory.tables(), self.table().root())
    }

    /// No page of the blocks that an area maps is mapped.
    pub open spec fn untouched(&self, memory: &PhysMemory, area: MapArea) -> bool {
        forall|q: int|
            is_page(q) && maps_page(area, area.end as int, q) ==> #[trigger] self.mapping(memory, q)
                is None
    }

    /// Makes an address space that maps nothing.
    pub fn new_bare(memory: &mut PhysMemory, window: u64) -> (space: Option<Self>)
        requires
            old(memory).wf(),
        ensures
            final(memory).wf(),
            space is None <==> old(memory).frames().free.take(PageSize::Page4K) is None,
            space matches Some(s) ==> {
                &&& s.table().wf(final(memory))
                &&& s.areas() == Seq::<MapArea>::empty()
                &&& s.window() == window
                &&& s.is_compact(final(memory))
                &&& final(memory).frames().free.count() == old(memory).frames().free.count() - 1
                &&& forall|q: int| is_page(q) ==> #[trigger] s.mapping(final(memory), q) is None
            },
    {
        proof {
            memory.lemma_wf();
        }
        match PageTable::new(memory) {
            None => None,
            Some(page_table) => {
                let space = KernelSpace { window, areas: Vec::new(), page_table };
                proof {
                    law_take_conserves(old(memory).frames().free, PageSize::Page4K, 0);
                    assert(space.areas() =~= Seq::<MapArea>::empty());
                    assert forall|q: int| is_page(q) implies #[trigger] space.mapping(memory, q)
                        is None by {
                        assert(page_table.at(memory, q) is None);
                    }
                }
                Some(space)
            },
        }
    }

    /// Returns the page table.
    pub fn page_table(&self) -> (table: &PageTable)
        ensures
            *table == self.table(),
    {
        &self.page_table
    }

    /// Returns what the processor loads to use the kernel's address space.
    pub fn kernel_token(&self, memory: &PhysMemory, asid: u64) -> (token: u64)
        requires
            self.table().wf(memory),
        ensures
            token == 0x8000_0000_0000_0000 + (asid % 0x1_0000) * 0x1000_0000_0000
                + self.table().root(),
    {
        self.page_table.token(asid)
    }

    /// Maps a page outside the areas.
    fn map_page(
        &mut self,
        memory: &mut PhysMemory,
        page: VirtPageNum,
        ppn: PhysPageNum,
        flags: PTEFlags,
    ) -> (done: Result<(), MapError>)
        requires
            old(self).table().wf(old(memory)),
            page.0 < VPN_LIMIT,
        ensures
            final(self).table().wf(final(memory)),
            final(self).areas() == old(self).areas(),
            final(self).window() == old(self).window(),
            done is Ok ==> forall|q: int|
                is_page(q) ==> #[trigger] final(self).mapping(final(memory), q) == if q == page.0 {
                    Some((PageTableEntry { page: ppn, flags: flags.installed() }, PageSize::Page4K))
                } else {
                    old(self).mapping(old(memory), q)
                },
            old(self).mapping(old(memory), page.0 as int) is None && old(memory).frames().free.count()
                >= 2 ==> done is Ok,
            done is Ok ==> final(memory).frames().free.count() >= old(memory).frames().free.count()
                - 2,
            done is Ok && old(self).is_compact(old(memory)) ==> final(self).is_compact(
                final(memory),
            ),
    {
        let done = self.page_table.map(memory, page, ppn, flags, PageSize::Page4K);
        proof {
            lemma_unmapped_is_free(old(self).table(), old(memory), page.0 as int);
            assert forall|q: int| is_page(q) implies same_block(q, page.0 as int, 2) == (q
                == page.0) by {}
            assert forall|q: int| is_page(q) implies #[trigger] self.mapping(memory, q)
                == self.page_table.at(memory, q) by {}
        }
        done
    }

    /// Maps the page that enters and leaves the kernel.
    pub fn map_trampoline(
        &mut self,
        memory: &mut PhysMemory,
        page: VirtPageNum,
        ppn: PhysPageNum,
    ) -> (done: Result<(), MapError>)
        requires
            old(self).table().wf(old(memory)),
            page.0 < VPN_LIMIT,
        ensures
            final(self).table().wf(final(memory)),
            final(self).areas() == old(self).areas(),
            final(self).window() == old(self).window(),
            done is Ok ==> forall|q: int|
                is_page(q) ==> #[trigger] final(self).mapping(final(memory), q) == if q == page.0 {
                    Some(
                        (
                            PageTableEntry {
                                page: ppn,
                                flags: PTEFlags {
                                    r: true,
                                    x: true,
                                    ..PTEFlags::none()
                                }.installed(),
                            },
                            PageSize::Page4K,
                        ),
                    )
                } else {
                    old(self).mapping(old(memory), q)
                },
            old(self).mapping(old(memory), page.0 as int) is None && old(memory).frames().free.count()
                >= 2 ==> done is Ok,
            done is Ok ==> final(memory).frames().free.count() >= old(memory).frames().free.count()
                - 2,
            done is Ok && old(self).is_compact(old(memory)) ==> final(self).is_compact(
                final(memory),
            ),
    {
        let mut flags = PTEFlags::empty();
        flags.r = true;
        flags.x = true;
        self.map_page(memory, page, ppn, flags)
    }

    /// Maps an area of the window, entry by entry.
    ///
    /// An error leaves the entries before the one that it names mapped.
    #[verifier::spinoff_prover]
    #[verifier::rlimit(60)]
    pub fn push(&mut self, memory: &mut PhysMemory, area: MapArea) -> (done: Result<
        (),
        (VirtPageNum, MapError),
    >)
        requires
            old(self).table().wf(old(memory)),
            area.wf(),
            area.map_type == MapType::Windowed,
            area.map_perm.r || area.map_perm.w || area.map_perm.x,
        ensures
            final(self).table().wf(final(memory)),
            final(self).window() == old(self).window(),
            match done {
                Ok(()) => {
                    &&& final(self).areas() == old(self).areas().push(area)
                    &&& forall|q: int|
                        is_page(q) ==> #[trigger] final(self).mapping(final(memory), q)
                            == if maps_page(area, area.end as int, q) {
                            windowed(area, old(self).window(), q)
                        } else {
                            old(self).mapping(old(memory), q)
                        }
                },
                Err((page, e)) => {
                    &&& final(self).areas() == old(self).areas()
                    &&& area.start <= page.0 < area.end
                    &&& forall|q: int|
                        is_page(q) ==> #[trigger] final(self).mapping(final(memory), q)
                            == if maps_page(area, page.0 as int, q) {
                            windowed(area, old(self).window(), q)
                        } else {
                            old(self).mapping(old(memory), q)
                        }
                },
            },
            area.page_size != PageSize::Page1G && old(self).is_compact(old(memory))
                && old(self).untouched(old(memory), area) && old(memory).frames().free.count() >= 2
                * entries(area) ==> done is Ok,
            area.page_size != PageSize::Page1G && done is Ok ==> final(memory).frames().free.count()
                >= old(memory).frames().free.count() - 2 * entries(area),
            done is Ok && old(self).is_compact(old(memory)) ==> final(self).is_compact(
                final(memory),
            ),
    {
        let step: u64 = area.page_size.num_pages();
        let ghost n = area.page_size.pages();
        let mut v: u64 = area.start;
        let ghost mut k: int = 0;
        proof {
            assert forall|q: int| is_page(q) implies !maps_page(area, area.start as int, q) by {
                assert(entry_of(area, q) * n >= 0 || entry_of(area, q) < 0) by (nonlinear_arith)
                    requires
                        n > 0,
                        entry_of(area, q) * n == entry_of(area, q) * n,
                ;
            }
        }
        while v < area.end
            invariant
                area.wf(),
                area.map_perm.r || area.map_perm.w || area.map_perm.x,
                step == n,
                n == area.page_size.pages(),
                n == 1 || n == 512 || n == 262144,
                k >= 0,
                v == area.start + k * n,
                k > 0 ==> area.start + (k - 1) * n < area.end,
                self.page_table.wf(memory),
                self.areas() == old(self).areas(),
                self.window() == old(self).window(),
                n != 262144 ==> memory.frames().free.count() >= old(memory).frames().free.count() - 2
                    * k,
                old(self).is_compact(old(memory)) ==> self.is_compact(memory),
                forall|q: int|
                    is_page(q) ==> #[trigger] self.mapping(memory, q) == if maps_page(
                        area,
                        v as int,
                        q,
                    ) {
                        windowed(area, old(self).window(), q)
                    } else {
                        old(self).mapping(old(memory), q)
                    },
            decreases area.end + n - v,
        {
            let ghost before = *self;
            let ghost memory_before = *memory;
            let raw: u64 = u64::from(VirtAddr(v * PAGE_SIZE));
            let ppn = PhysAddr::from(raw & !self.window).std_floor();
            proof {
                assert(ppn.0 == window_page(self.window, v));
                lemma_entry(area, k, n);
                lemma_entry_counts(area, k + 1, n);
                lemma_unmapped_is_free(self.page_table, memory, v as int);
                if old(self).is_compact(old(memory)) && old(self).untouched(old(memory), area) {
                    assert forall|q: int| is_page(q) && same_block(
                        q,
                        v as int,
                        area.page_size.level(),
                    ) implies #[trigger] self.page_table.at(memory, q) is None by {
                        lemma_next_entry(area, k, n, q);
                        assert(!maps_page(area, v as int, q));
                        assert(maps_page(area, area.end as int, q));
                        assert(self.mapping(memory, q) == old(self).mapping(old(memory), q));
                    }
                    if n == 512 {
                        lemma_unused_block_is_free(self.page_table, memory, v as int);
                    } else {
                        assert(same_block(v as int, v as int, area.page_size.level()));
                        assert(self.page_table.at(memory, v as int) is None || n == 262144);
                    }
                }
            }
            match self.page_table.map(
                memory,
                VirtPageNum(v),
                ppn,
                area.map_perm.flags(),
                area.page_size,
            ) {
                Err(e) => {
                    proof {
                        assert forall|q: int| is_page(q) implies #[trigger] self.mapping(memory, q)
                            == before.mapping(&memory_before, q) by {
                            assert(self.page_table.at(memory, q) == self.mapping(memory, q));
                        }
                    }
                    return Err((VirtPageNum(v), e));
                },
                Ok(()) => {},
            }
            proof {
                assert forall|q: int| is_page(q) implies #[trigger] self.mapping(memory, q)
                    == if maps_page(area, v + n, q) {
                    windowed(area, old(self).window(), q)
                } else {
                    old(self).mapping(old(memory), q)
                } by {
                    assert(self.page_table.at(memory, q) == self.mapping(memory, q));
                    assert(before.mapping(&memory_before, q) == if maps_page(area, v as int, q) {
                        windowed(area, old(self).window(), q)
                    } else {
                        old(self).mapping(old(memory), q)
                    });
                    lemma_next_entry(area, k, n, q);
                }
                k = k + 1;
                assert(area.start + k * n == v + n) by (nonlinear_arith)
                    requires
                        v == area.start + (k - 1) * n,
                ;
            }
            v = v + step;
        }
        let ghost filled = *self;
        self.areas.push(area);
        proof {
            if k > 0 {
                lemma_entry_counts(area, k, n);
            } else {
                lemma_entries_not_negative(area);
            }
            assert forall|q: int| is_page(q) implies #[trigger] self.mapping(memory, q)
                == if maps_page(area, area.end as int, q) {
                windowed(area, old(self).window(), q)
            } else {
                old(self).mapping(old(memory), q)
            } by {
                lemma_last_entry(area, k, n, q);
                assert(filled.mapping(memory, q) == self.mapping(memory, q));
            }
        }
        Ok(())
    }
}

/// A part of the kernel that is to be mapped.
#[derive(Clone, Copy, Debug, PartialEq, Eq, Structural)]
pub struct KernelPart {
    pub from: u64,
    pub to: u64,
    pub perm: MapPermission,
    pub size: PageSize,
}

impl KernelPart {
    /// The area of the part.
    pub open spec fn area(self) -> MapArea {
        kernel_area(self.from, self.to, self.perm, self.size)
    }

    /// The part ends behind its start, and something may be done with it.
    pub open spec fn wf(self) -> bool {
        &&& part_ok(self.from, self.to)
        &&& self.perm.r
        &&& self.size != PageSize::Page1G
    }
}

impl KernelLayout {
    /// Lists the parts of the kernel in the order in which they are mapped.
    fn list_parts(&self) -> (parts: Vec<KernelPart>)
        requires
            self.wf(),
        ensures
            parts@.len() == self.areas().len(),
            forall|i: int|
                0 <= i < parts@.len() ==> (#[trigger] parts@[i]).wf() && parts@[i].area()
                    == self.areas()[i],
    {
        let text = MapPermission { r: true, w: false, x: true, u: false };
        let constant = MapPermission { r: true, w: false, x: false, u: false };
        let data = MapPermission { r: true, w: true, x: false, u: false };
        let size = PageSize::Page2M;
        let mut parts: Vec<KernelPart> = Vec::new();
        parts.push(KernelPart { from: self.text.0, to: self.text.1, perm: text, size });
        parts.push(KernelPart { from: self.rodata.0, to: self.rodata.1, perm: constant, size });
        parts.push(KernelPart { from: self.data.0, to: self.data.1, perm: data, size });
        parts.push(KernelPart { from: self.bss.0, to: self.bss.1, perm: data, size });
        parts.push(
            KernelPart {
                from: self.image_end,
                to: self.memory_end | self.window,
                perm: data,
                size,
            },
        );
        let mut i: usize = 0;
        while i < self.mmio.len()
            invariant
                i <= self.mmio@.len(),
                self.wf(),
                data == (MapPermission { r: true, w: true, x: false, u: false }),
                parts@.len() == 5 + i,
                forall|k: int|
                    0 <= k < parts@.len() ==> (#[trigger] parts@[k]).wf() && parts@[k].area()
                        == self.areas()[k],
            decreases self.mmio@.len() - i,
        {
            let (base, len) = self.mmio[i];
            assert(self.mmio@[i as int] == (base, len));
            parts.push(
                KernelPart {
                    from: base | self.window,
                    to: (base + len) | self.window,
                    perm: data,
                    size: PageSize::Page4K,
                },
            );
            i = i + 1;
        }
        parts
    }
}

/// No page that the area at `i` maps is mapped by the areas before it, or by a trampoline.
pub open spec fn maps_fresh(
    s: Seq<MapArea>,
    window: u64,
    kernel: (VirtPageNum, PhysPageNum),
    user: (VirtPageNum, PhysPageNum),
    i: int,
) -> bool {
    forall|q: int|
        is_page(q) && #[trigger] maps_page(s[i], s[i].end as int, q) ==> mapped_by(
            s.take(i),
            window,
            q,
            trampolines(kernel, user, q),
        ) is None
}

/// The areas and the trampolines of the kernel do not meet.
pub open spec fn kernel_fits(
    layout: &KernelLayout,
    kernel: (VirtPageNum, PhysPageNum),
    user: (VirtPageNum, PhysPageNum),
) -> bool {
    &&& kernel.0 != user.0
    &&& forall|i: int|
        0 <= i < layout.areas().len() ==> #[trigger] maps_fresh(
            layout.areas(),
            layout.window,
            kernel,
            user,
            i,
        )
}

/// Fewer areas have fewer entries.
proof fn lemma_fewer_entries(s: Seq<MapArea>, n: int)
    requires
        0 <= n <= s.len(),
        forall|i: int| 0 <= i < s.len() ==> entries(#[trigger] s[i]) >= 0,
    ensures
        all_entries(s.take(n)) <= all_entries(s),
    decreases s.len() - n,
{
    if n < s.len() {
        lemma_fewer_entries(s, n + 1);
        assert(s.take(n + 1).drop_last() =~= s.take(n));
        assert(s.take(n + 1).last() == s[n]);
    } else {
        assert(s.take(n) =~= s);
    }
}

impl KernelSpace {
    /// Makes the kernel's address space.
    ///
    /// The two trampolines are mapped outside the areas. Every other page is
    /// mapped by the last area that has an entry for it. It succeeds where
    /// areas and trampolines do not meet and there are frames enough: one for
    /// the root, and two tables at most for every entry.
    #[verifier::spinoff_prover]
    #[verifier::rlimit(60)]
    pub fn new_kernel(
        memory: &mut PhysMemory,
        layout: &KernelLayout,
        trampoline: (VirtPageNum, PhysPageNum),
        user_trampoline: (VirtPageNum, PhysPageNum),
    ) -> (space: Result<Self, (VirtPageNum, MapError)>)
        requires
            old(memory).wf(),
            layout.wf(),
            trampoline.0.0 < VPN_LIMIT,
            user_trampoline.0.0 < VPN_LIMIT,
        ensures
            final(memory).wf(),
            kernel_fits(layout, trampoline, user_trampoline) && old(memory).frames().free.count()
                >= 5 + 2 * all_entries(layout.areas()) ==> space is Ok,
            space matches Ok(s) ==> {
                &&& s.table().wf(final(memory))
                &&& s.window() == layout.window
                &&& s.areas() == layout.areas()
                &&& forall|q: int|
                    is_page(q) ==> #[trigger] s.mapping(final(memory), q) == mapped_by(
                        layout.areas(),
                        layout.window,
                        q,
                        trampolines(trampoline, user_trampoline, q),
                    )
            },
    {
        let ghost count = memory.frames().free.count();
        let ghost all = layout.areas();
        let ghost w = layout.window;
        let ghost fits = kernel_fits(layout, trampoline, user_trampoline) && count >= 5 + 2
            * all_entries(all);
        let parts = layout.list_parts();
        proof {
            memory.lemma_wf();
            law_take_some(memory.frames().free);
            assert forall|i: int| 0 <= i < all.len() implies entries(#[trigger] all[i]) >= 0 by {
                assert(parts@[i].wf());
                lemma_entries_not_negative(all[i]);
            }
            lemma_fewer_entries(all, 0);
            assert(all.take(0) =~= Seq::<MapArea>::empty());
        }
        let mut space = match KernelSpace::new_bare(memory, layout.window) {
            None => {
                return Err((trampoline.0, MapError::OutOfFrames));
            },
            Some(space) => space,
        };
        let ghost bare = space;
        let ghost bare_memory = *memory;
        assert(bare.mapping(&bare_memory, trampoline.0.0 as int) is None);
        assert(bare.mapping(&bare_memory, user_trampoline.0.0 as int) is None);
        if let Err(e) = space.map_trampoline(memory, trampoline.0, trampoline.1) {
            return Err((trampoline.0, e));
        }
        assert(trampoline.0 != user_trampoline.0 ==> space.mapping(
            memory,
            user_trampoline.0.0 as int,
        ) is None);
        let mut flags = PTEFlags::empty();
        flags.r = true;
        flags.x = true;
        flags.u = true;
        if let Err(e) = space.map_page(memory, user_trampoline.0, user_trampoline.1, flags) {
            return Err((user_trampoline.0, e));
        }
        proof {
            assert forall|q: int| is_page(q) implies #[trigger] space.mapping(memory, q)
                == mapped_by(
                all.take(0),
                w,
                q,
                trampolines(trampoline, user_trampoline, q),
            ) by {
                assert(bare.mapping(&bare_memory, q) is None);
            }
            assert(space.areas() =~= all.take(0));
        }
        let mut i: usize = 0;
        while i < parts.len()
            invariant
                i <= parts@.len(),
                all == layout.areas(),
                w == layout.window,
                count == old(memory).frames().free.count(),
                parts@.len() == all.len(),
                forall|k: int|
                    0 <= k < parts@.len() ==> (#[trigger] parts@[k]).wf() && parts@[k].area()
                        == all[k],
                forall|k: int| 0 <= k < all.len() ==> entries(#[trigger] all[k]) >= 0,
                fits == (kernel_fits(layout, trampoline, user_trampoline) && count >= 5 + 2
                    * all_entries(all)),
                space.table().wf(memory),
                space.window() == w,
                space.areas() == all.take(i as int),
                space.is_compact(memory),
                memory.frames().free.count() >= count - 5 - 2 * all_entries(all.take(i as int)),
                forall|q: int|
                    is_page(q) ==> #[trigger] space.mapping(memory, q) == mapped_by(
                        all.take(i as int),
                        w,
                        q,
                        trampolines(trampoline, user_trampoline, q),
                    ),
            decreases parts@.len() - i,
        {
            let ghost before = space;
            let ghost memory_before = *memory;
            let part = parts[i];
            assert(parts@[i as int].wf());
            let area = MapArea::new(
                VirtAddr::from(part.from),
                VirtAddr::from(part.to),
                MapType::Windowed,
                part.perm,
                part.size,
            );
            proof {
                assert(area == all[i as int]);
                assert(all.take(i + 1) =~= all.take(i as int).push(area));
                assert(all.take(i + 1).drop_last() =~= all.take(i as int));
                lemma_fewer_entries(all, i + 1);
                if fits {
                    assert(maps_fresh(all, w, trampoline, user_trampoline, i as int));
                    assert(space.untouched(memory, area)) by {
                        assert forall|q: int|
                            is_page(q) && maps_page(area, area.end as int, q) implies
                            #[trigger] space.mapping(memory, q) is None by {}
                    }
                }
            }
            space.push(memory, area)?;
            proof {
                assert forall|q: int| is_page(q) implies #[trigger] space.mapping(memory, q)
                    == mapped_by(
                    all.take(i + 1),
                    w,
                    q,
                    trampolines(trampoline, user_trampoline, q),
                ) by {
                    lemma_mapped_push(
                        all.take(i as int),
                        area,
                        w,
                        q,
                        trampolines(trampoline, user_trampoline, q),
                    );
                }
            }
            i = i + 1;
        }
        assert(all.take(all.len() as int) =~= all);
        Ok(space)
    }

    /// Tells whether code and constants are protected from being written, and data from being run.
    pub fn remap_test(
        &self,
        memory: &PhysMemory,
        mid_text: VirtPageNum,
        mid_rodata: VirtPageNum,
        mid_data: VirtPageNum,
    ) -> (passed: bool)
        requires
            self.table().wf(memory),
            mid_text.0 < VPN_LIMIT,
            mid_rodata.0 < VPN_LIMIT,
            mid_data.0 < VPN_LIMIT,
        ensures
            passed <==> {
                &&& self.mapping(memory, mid_text.0 as int) matches Some((a, _)) && !a.flags.w
                &&& self.mapping(memory, mid_rodata.0 as int) matches Some((b, _)) && !b.flags.w
                &&& self.mapping(memory, mid_data.0 as int) matches Some((c, _)) && !c.flags.x
            },
    {
        let text = self.page_table.translate(memory, mid_text);
        let rodata = self.page_table.translate(memory, mid_rodata);
        let data = self.page_table.translate(memory, mid_data);
        match (text, rodata, data) {
            (Some(a), Some(b), Some(c)) => !a.writable() && !b.writable() && !c.executable(),
            _ => false,
        }
    }
}

/// What the two trampolines map page `q` to.
pub open spec fn trampolines(
    kernel: (VirtPageNum, PhysPageNum),
    user: (VirtPageNum, PhysPageNum),
    q: int,
) -> Mapping {
    if q == user.0.0 {
        Some(
            (
                PageTableEntry {
                    page: user.1,
                    flags: PTEFlags { r: true, x: true, u: true, ..PTEFlags::none() }.installed(),
                },
                PageSize::Page4K,
            ),
        )
    } else if q == kernel.0.0 {
        Some(
            (
                PageTableEntry {
                    page: kernel.1,
                    flags: PTEFlags { r: true, x: true, ..PTEFlags::none() }.installed(),
                },
                PageSize::Page4K,
            ),
        )
    } else {
        None
    }
}

proof fn lemma_mapped_push(s: Seq<MapArea>, area: MapArea, window: u64, q: int, before: Mapping)
    ensures
        mapped_by(s.push(area), window, q, before) == if maps_page(area, area.end as int, q) {
            windowed(area, window, q)
        } else {
            mapped_by(s, window, q, before)
        },
{
    assert(s.push(area).drop_last() =~= s);
}

/// A page has the permission of the last area that maps it: code and constants
/// that no later area maps cannot be written, and data cannot be run.
pub proof fn law_kernel_protected(s: Seq<MapArea>, window: u64, q: int, before: Mapping)
    requires
        s.len() > 0,
        maps_page(s.last(), s.last().end as int, q),
    ensures
        mapped_by(s, window, q, before) matches Some((entry, size)) && entry.flags.w
            == s.last().map_perm.w && entry.flags.x == s.last().map_perm.x && size
            == s.last().page_size,
{
}

} // verus!
