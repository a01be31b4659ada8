use shellcore::mm::address::{PageSize, PhysAddr, PhysPageNum, VirtAddr, VirtPageNum};
use shellcore::mm::frame_allocator::FramePool;
use shellcore::mm::kernel_space::{KernelLayout, KernelSpace};
use shellcore::mm::page_table::{MapError, PageTable};
use shellcore::mm::phys::PhysMemory;
use shellcore::mm::pte::{MapPermission, PTEFlags, PageTableEntry};
use shellcore::mm::tlb::SatpActive;

fn memory_of(frames: u64) -> PhysMemory {
    PhysMemory::new(FramePool::init_frame_allocator(
        PhysAddr(0x8000_0000),
        PhysAddr(0x8000_0000 + frames * 4096),
    ))
}

fn rw() -> PTEFlags {
    let mut flags = PTEFlags::empty();
    flags.r = true;
    flags.w = true;
    flags
}

#[test]
fn entries_keep_page_and_flags() {
    let mut flags = rw();
    flags.v = true;
    flags.u = true;
    let entry = PageTableEntry::new(PhysPageNum(0x12345), flags);
    assert_eq!(flags.bits(), 0x17);
    assert_eq!(entry.bits(), 0x12345 * 1024 + 0x17);
    assert_eq!(PageTableEntry::from_bits(entry.bits()), entry);
    assert_eq!(PTEFlags::from_bits(0xff).bits(), 0xff);
    assert!(entry.readable() && entry.writable() && !entry.executable());
}

#[test]
fn permissions_of_a_request() {
    let perm = MapPermission::from_prot(0b101);
    assert_eq!(perm, MapPermission { r: true, w: false, x: true, u: true });
    assert!(perm.flags().x && perm.flags().u);
}

#[test]
fn mapped_pages_are_translated_and_unmapped_ones_are_not() {
    let mut memory = memory_of(8);
    let mut table = PageTable::new(&mut memory).unwrap();
    let page = VirtPageNum(0x12345);
    assert_eq!(table.translate(&memory, page), None);
    assert_eq!(
        table.map(&mut memory, page, PhysPageNum(0x90000), rw(), PageSize::Page4K),
        Ok(())
    );
    assert_eq!(memory.free_frames(), 5);
    let entry = table.translate(&memory, page).unwrap();
    assert_eq!(entry.ppn(), PhysPageNum(0x90000));
    assert!(entry.is_valid());
    assert_eq!(table.translate(&memory, VirtPageNum(0x12346)), None);
    assert_eq!(
        table.translate_va(&memory, VirtAddr(0x12345_678)),
        Some(PhysAddr(0x90000_678))
    );
    assert_eq!(
        table.map(&mut memory, page, PhysPageNum(1), rw(), PageSize::Page4K),
        Err(MapError::Occupied)
    );
    table.unmap(&mut memory, page);
    assert_eq!(table.translate(&memory, page), None);
}

#[test]
fn large_pages_cover_small_ones() {
    let mut memory = memory_of(8);
    let mut table = PageTable::new(&mut memory).unwrap();
    assert_eq!(
        table.map(&mut memory, VirtPageNum(512), PhysPageNum(0x90000), rw(), PageSize::Page2M),
        Ok(())
    );
    assert_eq!(
        table.translate_and_get_size(&memory, VirtPageNum(1000)).unwrap().1,
        PageSize::Page2M
    );
    assert_eq!(
        table.map(&mut memory, VirtPageNum(700), PhysPageNum(1), rw(), PageSize::Page4K),
        Err(MapError::Covered)
    );
}

#[test]
fn without_frames_nothing_is_mapped() {
    let mut memory = memory_of(2);
    let mut table = PageTable::new(&mut memory).unwrap();
    assert_eq!(
        table.map(&mut memory, VirtPageNum(1), PhysPageNum(1), rw(), PageSize::Page4K),
        Err(MapError::OutOfFrames)
    );
    assert_eq!(table.translate(&memory, VirtPageNum(1)), None);
    assert!(PageTable::new(&mut memory).is_none());
}

#[test]
fn tokens_tell_mode_number_and_root() {
    let mut memory = memory_of(4);
    let table = PageTable::new(&mut memory).unwrap();
    assert_eq!(table.token(3), 0x8000_0000_0000_0000 + 3 * 0x1000_0000_0000 + 0x80000);
}

#[test]
fn entries_move_with_their_frame() {
    let mut memory = memory_of(8);
    let mut table = PageTable::new(&mut memory).unwrap();
    table.map(&mut memory, VirtPageNum(5), PhysPageNum(77), rw(), PageSize::Page4K).unwrap();
    table.map(&mut memory, VirtPageNum(6), PhysPageNum(78), rw(), PageSize::Page4K).unwrap();
    table.unmap(&mut memory, VirtPageNum(6));
    assert!(table.move_entry(&mut memory, VirtPageNum(5), VirtPageNum(6), PageSize::Page4K));
    assert_eq!(table.translate(&memory, VirtPageNum(5)), None);
    assert_eq!(table.translate(&memory, VirtPageNum(6)).unwrap().ppn(), PhysPageNum(77));
}

fn kernel_layout() -> KernelLayout {
    let window = 0xffff_ffc0_0000_0000;
    KernelLayout {
        window,
        text: (window + 0x8020_0000, window + 0x8040_0000),
        rodata: (window + 0x8040_0000, window + 0x8060_0000),
        data: (window + 0x8060_0000, window + 0x8080_0000),
        bss: (window + 0x8080_0000, window + 0x80a0_0000),
        image_end: window + 0x80a0_0000,
        memory_end: 0x8200_0000,
        mmio: vec![(0x1000_1000, 0x1000)],
    }
}

#[test]
fn the_kernel_is_mapped_and_protected() {
    let mut memory = memory_of(64);
    let layout = kernel_layout();
    let top = VirtPageNum(0x7ff_ffff);
    let below = VirtPageNum(0x7ff_fffe);
    let space = KernelSpace::new_kernel(
        &mut memory,
        &layout,
        (top, PhysPageNum(0x80200)),
        (below, PhysPageNum(0x80201)),
    )
    .ok()
    .unwrap();
    let text = VirtAddr::from(layout.text.0 + 0x1000).std_floor();
    let rodata = VirtAddr::from(layout.rodata.0).std_floor();
    let data = VirtAddr::from(layout.data.0).std_floor();
    assert!(space.remap_test(&memory, text, rodata, data));
    assert!(!space.remap_test(&memory, data, rodata, data));
    let (entry, size) = space.page_table().find_pte(&memory, text).unwrap();
    assert_eq!(size, PageSize::Page2M);
    assert_eq!(entry.ppn(), PhysPageNum(0x80200));
    let device = VirtAddr::from(layout.window + 0x1000_1000).std_floor();
    let (entry, size) = space.page_table().find_pte(&memory, device).unwrap();
    assert_eq!(size, PageSize::Page4K);
    assert_eq!(entry.ppn(), PhysPageNum(0x10001));
    assert_eq!(
        space.page_table().translate(&memory, top).unwrap().ppn(),
        PhysPageNum(0x80200)
    );
}

#[test]
fn the_kernel_is_refused_where_its_parts_meet() {
    let mut memory = memory_of(64);
    let mut layout = kernel_layout();
    layout.rodata = layout.text;
    let made = KernelSpace::new_kernel(
        &mut memory,
        &layout,
        (VirtPageNum(0x7ff_ffff), PhysPageNum(1)),
        (VirtPageNum(0x7ff_fffe), PhysPageNum(2)),
    );
    assert!(matches!(made, Err((_, MapError::Occupied))));
}

#[test]
fn tables_are_kept_for_the_last_processor() {
    let mut memory = memory_of(4);
    let mut table = PageTable::new(&mut memory).unwrap();
    let mut active = SatpActive::new();
    assert!(active.begin_switch(0, 0, 17));
    assert!(active.begin_switch(2, 0, 17));
    assert!(!active.begin_switch(2, 17, 17));
    assert_eq!(active.running_harts(17), 0b101);
    assert_eq!(active.active_tokens(), vec![(17, 0b101)]);
    let frames = table.take_frames();
    assert!(active.remove_token(17, frames).is_none());
    assert!(active.begin_switch(0, 17, 18));
    assert!(active.end_switch(0, 17).is_none());
    assert!(active.begin_switch(2, 17, 18));
    assert_eq!(active.end_switch(2, 17).unwrap().len(), 1);
    assert_eq!(active.running_harts(17), 0);
    let plan = active.flush_tlb_targets(0, 18, 5);
    assert!(plan.local);
    assert_eq!(plan.remote, 0b100);
    assert_eq!(plan.asid, 5);
    let plans = active.flush_kernel_tlb_targets(1);
    assert_eq!(plans.len(), 1);
    assert!(!plans[0].local);
    assert_eq!(plans[0].remote, 0b101);
}
