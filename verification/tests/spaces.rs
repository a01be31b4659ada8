use shellcore::errno::Errno;
use shellcore::mm::address::{PageSize, PhysAddr, PhysPageNum, VirtAddr, VirtPageNum};
use shellcore::mm::area::{
    any_conflict, change_areas, cut_areas, find_area, find_gap, Backing, Change, MapArea, MapType,
};
use shellcore::mm::frame_allocator::FramePool;
use shellcore::mm::memory_set::access::AccessStep;
use shellcore::mm::memory_set::fork::CowOutcome;
use shellcore::mm::memory_set::pin::{PinAction, PinRange, PinStatus, PinTries};
use shellcore::mm::memory_set::resize::Piece;
use shellcore::mm::memory_set::{FaultOutcome, MapRequest, MemorySet, SharedPages, UserLayout};
use shellcore::mm::mmap::{MMapFlags, MMapProt};
use shellcore::mm::phys::PhysMemory;
use shellcore::mm::pte::MapPermission;
use shellcore::process::trap_area::map_trap_context;

const RW: MapPermission = MapPermission { r: true, w: true, x: false, u: true };

fn memory_of(frames: u64) -> PhysMemory {
    PhysMemory::new(FramePool::init_frame_allocator(
        PhysAddr(0x8000_0000),
        PhysAddr(0x8000_0000 + frames * 4096),
    ))
}

fn layout() -> UserLayout {
    UserLayout { app_base: 0x10_0000, app_max: 0x30_0000 }
}

fn anonymous(addr: u64, length: u64, bits: u32) -> MapRequest {
    MapRequest {
        addr,
        length,
        prot: MMapProt::from_bits(3).unwrap(),
        flags: MMapFlags::from_bits(bits).unwrap(),
        file: None,
        offset: 0,
        group: 1,
    }
}

fn framed(start: u64, end: u64) -> MapArea {
    MapArea::new(
        VirtAddr(start * 4096),
        VirtAddr(end * 4096),
        MapType::Framed,
        RW,
        PageSize::Page4K,
    )
}

#[test]
fn a_cut_leaves_the_ends() {
    let areas = vec![framed(10, 20), framed(30, 40)];
    let left = cut_areas(&areas, 15, 32);
    assert_eq!(left, vec![framed(10, 15), framed(32, 40)]);
    let holed = cut_areas(&areas, 12, 14);
    assert_eq!(holed, vec![framed(10, 12), framed(14, 20), framed(30, 40)]);
}

#[test]
fn a_cut_moves_the_place_in_the_file() {
    let mut area = framed(10, 20);
    area.map_type = MapType::File;
    area.backing_file = Some(Backing { file: 7, page_offset: 100, writable: false });
    let left = cut_areas(&vec![area], 12, 15);
    assert_eq!(left[0].backing_file.unwrap().page_offset, 100);
    assert_eq!(left[1].backing_file.unwrap().page_offset, 105);
}

#[test]
fn a_change_splits_areas() {
    let read = MapPermission { r: true, w: false, x: false, u: true };
    let all = change_areas(&vec![framed(10, 20)], 12, 15, Change::Permit(read));
    assert_eq!(all.len(), 3);
    assert_eq!(all[0].map_perm, RW);
    assert_eq!((all[1].start, all[1].end, all[1].map_perm), (12, 15, read));
    assert_eq!((all[2].start, all[2].end), (15, 20));
}

#[test]
fn areas_are_found_and_gaps_too() {
    let areas = vec![framed(10, 20), framed(30, 40)];
    assert_eq!(find_area(&areas, VirtPageNum(35)), Some(1));
    assert_eq!(find_area(&areas, VirtPageNum(25)), None);
    assert!(any_conflict(&areas, 19, 21));
    assert!(!any_conflict(&areas, 20, 30));
    assert_eq!(find_gap(&areas, 10 * 4096, 10 * 4096, 100 * 4096), Some(20 * 4096));
    assert_eq!(find_gap(&areas, 10 * 4096, 11 * 4096, 100 * 4096), Some(40 * 4096));
    assert_eq!(find_gap(&areas, 10 * 4096, 61 * 4096, 100 * 4096), None);
}

#[test]
fn memory_is_mapped_where_it_is_wanted_and_elsewhere() {
    let mut memory = memory_of(32);
    let mut set = MemorySet::new_bare(&mut memory, 3).unwrap();
    assert_eq!(set.asid(), 3);
    let (at, _) = set.mmap(&mut memory, anonymous(0x18_0000, 0x2000, 0x22), layout());
    assert_eq!(at, Ok(0x18_0000));
    let (at, _) = set.mmap(&mut memory, anonymous(0, 0x1000, 0x22), layout());
    assert_eq!(at, Ok(0x20_0000));
    let (at, _) = set.mmap(&mut memory, anonymous(0x18_1000, 0x1000, 0x22), layout());
    assert_eq!(at, Err(Errno::EEXIST));
    let (at, _) = set.mmap(&mut memory, anonymous(0x18_1000, 0x1000, 0x32), layout());
    assert_eq!(at, Ok(0x18_1000));
    let mut request = anonymous(0, 0x1000, 0x02);
    request.file = None;
    let (at, _) = set.mmap(&mut memory, request, layout());
    assert_eq!(at, Err(Errno::EBADF));
    assert_eq!(set.area_snapshot().len(), 3);
    assert!(set.has_conflict(0x18_0000, 1));
    assert!(!set.has_conflict(0x19_0000, 1));
    assert!(set.has_conflict(0x80_0018_0000, 1));
    let (at, _) = set.mmap(&mut memory, anonymous(0x80_0019_0000, 0x1000, 0x22), layout());
    assert_eq!(at, Ok(0x80_0019_0000));
    assert!(set.has_conflict(0x19_0000, 1));
    let (at, _) = set.mmap(&mut memory, anonymous(0, 0x100_0000_0000, 0x22), layout());
    assert_eq!(at, Err(Errno::EEXIST));
}

#[test]
fn a_page_gets_its_frame_on_first_use_and_gives_it_back() {
    let mut memory = memory_of(32);
    let mut shared = SharedPages::new();
    let mut set = MemorySet::new_bare(&mut memory, 3).unwrap();
    set.mmap(&mut memory, anonymous(0x18_0000, 0x2000, 0x22), layout()).0.unwrap();
    assert_eq!(set.translate(&memory, VirtPageNum(0x180)), None);
    assert!(!set.check_mmap_page_fault(&memory, 0x18_0010));
    let outcome = set.handle_page_fault(&mut memory, &mut shared, 0x18_0010, 0);
    assert!(matches!(outcome, FaultOutcome::Mapped));
    assert!(set.translate(&memory, VirtPageNum(0x180)).unwrap().writable());
    let outcome = set.handle_page_fault(&mut memory, &mut shared, 0x28_0000, 0);
    assert!(matches!(outcome, FaultOutcome::Failed));
    let released = set.munmap(&mut memory, 0x18_0000, 0x2000);
    assert_eq!(released.frames.len(), 1);
    assert_eq!(set.translate(&memory, VirtPageNum(0x180)), None);
    assert_eq!(set.area_snapshot().len(), 0);
    let before = memory.free_frames();
    for frame in released.frames {
        memory.release_frame(frame);
    }
    assert_eq!(memory.free_frames(), before + 1);
}

#[test]
fn file_pages_are_asked_for() {
    let mut memory = memory_of(128);
    let mut shared = SharedPages::new();
    let mut set = MemorySet::new_bare(&mut memory, 3).unwrap();
    let mut request = anonymous(0x18_0000, 0x3000, 0x01);
    request.file = Some((9, true));
    request.offset = 0x5000;
    set.mmap(&mut memory, request, layout()).0.unwrap();
    assert!(set.check_mmap_page_fault(&memory, 0x18_1000));
    let outcome = set.handle_page_fault(&mut memory, &mut shared, 0x18_1000, 0);
    assert!(matches!(outcome, FaultOutcome::SharedFilePage(9, 6)));
    let frame = memory.take_frame(PageSize::Page4K).unwrap();
    assert!(!set.finish_shared_file_page(&mut memory, VirtPageNum(0x181), 0x6000, frame));
    assert!(!set.finish_shared_file_page(&mut memory, VirtPageNum(0x190), 0x7000, frame));
    assert!(set.finish_shared_file_page(&mut memory, VirtPageNum(0x181), 0x6001, frame));
    let entry = set.translate(&memory, VirtPageNum(0x181)).unwrap();
    assert!(entry.ppn() == frame.ppn && entry.writable());
    let released = set.munmap(&mut memory, 0x18_0000, 0x3000);
    assert_eq!(released.writebacks, vec![(9, 5), (9, 6), (9, 7)]);
    let mut request = anonymous(0x18_0000, 0x3000, 0x02);
    request.file = Some((9, false));
    set.mmap(&mut memory, request, layout()).0.unwrap();
    match set.handle_page_fault(&mut memory, &mut shared, 0x18_1000, 0) {
        FaultOutcome::FilePages(file, at, frames) => {
            assert_eq!((file, at, frames.len()), (9, 0x1000, 2));
            let count = set.finish_file_pages(&mut memory, VirtPageNum(0x181), &frames);
            assert_eq!(count, 2);
            assert_eq!(set.translate(&memory, VirtPageNum(0x182)).unwrap().ppn(), frames[1].ppn);
        }
        _ => panic!("a file was expected"),
    }
}

#[test]
fn protection_is_changed_where_every_page_allows_it() {
    let mut memory = memory_of(32);
    let mut shared = SharedPages::new();
    let mut set = MemorySet::new_bare(&mut memory, 3).unwrap();
    set.mmap(&mut memory, anonymous(0x18_0000, 0x4000, 0x22), layout()).0.unwrap();
    set.handle_page_fault(&mut memory, &mut shared, 0x18_1000, 0);
    let read = MMapProt::from_bits(1).unwrap();
    assert_eq!(set.mprotect(&mut memory, 0x18_1000, 0x1000, read), Ok(true));
    assert_eq!(set.area_snapshot().len(), 3);
    assert!(!set.translate(&memory, VirtPageNum(0x181)).unwrap().writable());
    assert_eq!(set.mprotect(&mut memory, 0x18_3000, 0x2000, read), Err(Errno::ENOMEM));
    assert_eq!(set.mprotect(&mut memory, 0x18_3000, 0, read), Ok(false));
    assert_eq!(set.mprotect(&mut memory, 0x18_3000, u64::MAX, read), Err(Errno::EINVAL));
    let both = MMapProt::from_bits(3).unwrap();
    assert_eq!(set.mprotect(&mut memory, 0x80_0018_1000, 0x1000, both), Ok(false));
    assert!(set.translate(&memory, VirtPageNum(0x181)).unwrap().writable());
    assert_eq!(set.munmap(&mut memory, 0x80_0018_1000, 0x1000).frames.len(), 1);
    assert_eq!(set.translate(&memory, VirtPageNum(0x181)), None);
}

#[test]
fn protection_is_changed_of_pages_that_another_space_made() {
    let mut memory = memory_of(32);
    let mut shared = SharedPages::new();
    let mut set = MemorySet::new_bare(&mut memory, 3).unwrap();
    set.mmap(&mut memory, anonymous(0x18_0000, 0x2000, 0x22), layout()).0.unwrap();
    set.handle_page_fault(&mut memory, &mut shared, 0x18_0000, 0);
    let mut other = MemorySet::share_from_parent(&set, &memory, 4);
    assert!(other.translate(&memory, VirtPageNum(0x180)).unwrap().writable());
    let read = MMapProt::from_bits(1).unwrap();
    assert_eq!(other.mprotect(&mut memory, 0x18_0000, 0x1000, read), Ok(true));
    assert!(!other.translate(&memory, VirtPageNum(0x180)).unwrap().writable());
    assert!(!set.translate(&memory, VirtPageNum(0x180)).unwrap().writable());
}

#[test]
fn pages_that_are_not_needed_keep_their_area() {
    let mut memory = memory_of(32);
    let mut shared = SharedPages::new();
    let mut set = MemorySet::new_bare(&mut memory, 3).unwrap();
    set.mmap(&mut memory, anonymous(0x18_0000, 0x2000, 0x22), layout()).0.unwrap();
    set.handle_page_fault(&mut memory, &mut shared, 0x18_0000, 0);
    let released = set.madvise_dontneed(&mut memory, 0x18_0000, 0x2000).ok().unwrap();
    assert_eq!(released.frames.len(), 1);
    assert_eq!(set.area_snapshot().len(), 1);
    assert!(matches!(
        set.madvise_dontneed(&mut memory, 0x18_0000, u64::MAX),
        Err(Errno::EINVAL)
    ));
}

#[test]
fn memory_grows_in_place_where_there_is_room() {
    let mut memory = memory_of(32);
    let mut set = MemorySet::new_bare(&mut memory, 3).unwrap();
    set.mmap(&mut memory, anonymous(0x18_0000, 0x2000, 0x22), layout()).0.unwrap();
    set.mmap(&mut memory, anonymous(0x18_4000, 0x1000, 0x22), layout()).0.unwrap();
    assert_eq!(set.mremap_inplace(&memory, 0x18_0000, 0x2000, 0x4000), Ok(0x18_0000));
    assert_eq!(set.area_snapshot()[0].end, 0x184);
    assert_eq!(set.mremap_inplace(&memory, 0x18_0000, 0x4000, 0x5000), Err(Errno::ENOMEM));
}

#[test]
fn a_child_shares_frames_until_one_writes() {
    let mut memory = memory_of(64);
    let mut shared = SharedPages::new();
    let mut parent = MemorySet::new_bare(&mut memory, 1).unwrap();
    let trampoline = VirtPageNum(0x3ff);
    parent.map_user_trampoline(&mut memory, trampoline, PhysPageNum(0x70000)).unwrap();
    parent.mmap(&mut memory, anonymous(0x18_0000, 0x1000, 0x22), layout()).0.unwrap();
    parent.handle_page_fault(&mut memory, &mut shared, 0x18_0000, 0);
    let frame = parent.translate(&memory, VirtPageNum(0x180)).unwrap().ppn();
    assert_eq!(memory.users(frame), 1);
    let mut child = parent
        .from_existed_user(&mut memory, 2, trampoline, PhysPageNum(0x70000))
        .ok()
        .unwrap();
    assert_eq!(memory.users(frame), 2);
    let page = VirtPageNum(0x180);
    assert!(!parent.translate(&memory, page).unwrap().writable());
    assert!(!child.translate(&memory, page).unwrap().writable());
    assert_eq!(child.translate(&memory, page).unwrap().ppn(), frame);
    match child.handle_cow_fault(&mut memory, 0x18_0000) {
        CowOutcome::Copied { from, to, released } => {
            assert_eq!(from, frame);
            assert_ne!(to, frame);
            assert_eq!(child.translate(&memory, page).unwrap().ppn(), to);
            memory.release_frame(released.unwrap());
        }
        _ => panic!("a copy was expected"),
    }
    assert!(child.translate(&memory, page).unwrap().writable());
    assert_eq!(parent.translate(&memory, page).unwrap().ppn(), frame);
    assert_eq!(memory.users(frame), 1);
    assert!(matches!(child.handle_cow_fault(&mut memory, 0x18_0000), CowOutcome::NotCow));
}

#[test]
fn an_area_changes_its_end() {
    let mut memory = memory_of(32);
    let mut shared = SharedPages::new();
    let mut set = MemorySet::new_bare(&mut memory, 1).unwrap();
    let start = VirtAddr(0x10_0000);
    assert!(set
        .insert_framed_area(&mut memory, &mut shared, start, VirtAddr(0x10_2000), RW)
        .is_ok());
    assert!(set.pte_satisfies(&memory, VirtPageNum(0x101), true, true, false));
    let added = set.append_to(&mut memory, &mut shared, start, VirtAddr(0x10_3800));
    assert!(matches!(added, Some(Ok(()))));
    assert!(set.translate(&memory, VirtPageNum(0x103)).is_some());
    let frames = set.shrink_to(&mut memory, start, VirtAddr(0x10_1000)).unwrap();
    assert_eq!(frames.len(), 3);
    assert!(set.translate(&memory, VirtPageNum(0x100)).is_some());
    assert_eq!(set.translate(&memory, VirtPageNum(0x101)), None);
    assert!(set.shrink_to(&mut memory, VirtAddr(0x20_0000), VirtAddr(0x20_0000)).is_none());
    let released = set.remove_area_with_start_vpn(&mut memory, VirtPageNum(0x100));
    assert_eq!(released.frames.len(), 1);
    assert_eq!(set.area_snapshot().len(), 0);
}

#[test]
fn bytes_go_into_pages_in_pieces() {
    let area = framed(0x100, 0x110);
    assert_eq!(
        area.copy_data(0x10_0f00, 0x1200),
        vec![
            Piece { page: 0x100, offset: 0xf00, from: 0, len: 0x100 },
            Piece { page: 0x101, offset: 0, from: 0x100, len: 0x1000 },
            Piece { page: 0x102, offset: 0, from: 0x1100, len: 0x100 },
        ]
    );
    assert_eq!(area.copy_data(0x10_0f00, 0), vec![]);
}

#[test]
fn ranges_are_pinned_once_their_pages_are_there() {
    let mut memory = memory_of(32);
    let mut shared = SharedPages::new();
    let mut set = MemorySet::new_bare(&mut memory, 1).unwrap();
    let away = (VirtPageNum(0x3ff), PhysPageNum(0x70000));
    set.mmap(&mut memory, anonymous(0x18_0000, 0x2000, 0x22), layout()).0.unwrap();
    let range = set.pin_user_range_once(&memory, 0x18_0ff0, 0x20, true, away);
    assert!(matches!(range, PinRange::NeedsFault));
    loop {
        match set.ensure_writable_user_range(&mut memory, &mut shared, 0x18_0ff0, 0x20, 0) {
            AccessStep::Ready => break,
            AccessStep::Mapped => {}
            _ => panic!("the pages can be mapped"),
        }
    }
    match set.pin_user_range_once(&memory, 0x18_0ff0, 0x20, true, away) {
        PinRange::Pinned(segments) => {
            assert_eq!(segments.len(), 2);
            assert_eq!((segments[0].offset, segments[0].len), (0xff0, 0x10));
            assert_eq!((segments[1].offset, segments[1].len), (0, 0x10));
        }
        _ => panic!("the range is there"),
    }
    let range = set.pin_user_range_once(&memory, 0x28_0000, 1, false, away);
    assert!(!matches!(range, PinRange::Pinned(_)));
    let range = set.pin_user_range_once(&memory, u64::MAX, 2, false, away);
    assert!(matches!(range, PinRange::Invalid));
}

#[test]
fn pinning_is_tried_a_limited_number_of_times() {
    let mut tries = PinTries::new();
    for _ in 0..8 {
        assert_eq!(tries.after(PinStatus::Retry), PinAction::Again);
    }
    assert_eq!(tries.after(PinStatus::Retry), PinAction::GiveUp);
    let mut tries = PinTries::new();
    for _ in 0..8 {
        assert_eq!(tries.after(PinStatus::NeedsFault), PinAction::FaultIn);
    }
    assert_eq!(tries.after(PinStatus::NeedsFault), PinAction::GiveUp);
    assert_eq!(PinTries::new().after(PinStatus::Pinned), PinAction::Done);
    assert_eq!(PinTries::new().after(PinStatus::Invalid), PinAction::GiveUp);
}

#[test]
fn a_range_that_runs_past_the_last_address_names_no_pages() {
    let mut memory = memory_of(32);
    let mut set = MemorySet::new_bare(&mut memory, 3).unwrap();
    set.mmap(&mut memory, anonymous(0x18_0000, 0x2000, 0x22), layout()).0.unwrap();
    let before = set.area_snapshot().to_vec();
    assert!(set.munmap(&mut memory, 0x7f_ffff_f000, 0x2000).frames.is_empty());
    let read = MMapProt::from_bits(1).unwrap();
    assert_eq!(set.mprotect(&mut memory, 0x7f_ffff_f000, 0x2000, read), Err(Errno::ENOMEM));
    assert_eq!(set.area_snapshot().to_vec(), before);
    assert!(!set.has_conflict(0x7f_ffff_f000, 0x2000));
}

#[test]
fn areas_without_pages_stand_in_nobodys_way() {
    let mut memory = memory_of(32);
    let mut shared = SharedPages::new();
    let mut set = MemorySet::new_bare(&mut memory, 3).unwrap();
    set.mmap(&mut memory, anonymous(0x18_0000, 0x2000, 0x22), layout()).0.unwrap();
    set.mmap(&mut memory, anonymous(0x18_2000, 0, 0x22), layout()).0.unwrap();
    assert_eq!(set.area_snapshot().len(), 2);
    assert_eq!(set.mremap_inplace(&memory, 0x18_0000, 0x2000, 0x4000), Ok(0x18_0000));
    assert_eq!(set.area_snapshot().len(), 1);
    assert_eq!(set.area_snapshot()[0].end, 0x184);
    set.mmap(&mut memory, anonymous(0x17_e000, 0, 0x22), layout()).0.unwrap();
    let outcome = set.handle_page_fault(&mut memory, &mut shared, 0x17_e010, 0x17_e010);
    assert!(matches!(outcome, FaultOutcome::Mapped));
    assert_eq!(set.area_snapshot().len(), 1);
    assert_eq!(set.area_snapshot()[0].start, 0x17e);
}

#[test]
fn the_end_of_the_heap_moves() {
    let mut memory = memory_of(64);
    let mut shared = SharedPages::new();
    let mut set = MemorySet::new_bare(&mut memory, 3).unwrap();
    let (told, _, _) = set.change_program_brk(&mut memory, &mut shared, 0);
    let bottom = told.unwrap();
    let (done, _, _) = set.change_program_brk(&mut memory, &mut shared, bottom + 0x2000);
    assert_eq!(done, Ok(bottom + 0x2000));
    let (refused, _, _) = set.change_program_brk(&mut memory, &mut shared, 1 << 39);
    assert_eq!(refused, Err(Errno::ENOMEM));
    assert_eq!(set.current_brk(), bottom + 0x2000);
    let (done, released, _) = set.change_program_brk(&mut memory, &mut shared, bottom + 0x1000);
    assert_eq!((done, released.frames.len()), (Ok(bottom + 0x1000), 1));
}

#[test]
fn the_registers_of_a_thread_have_pages_that_only_the_kernel_uses() {
    let mut memory = memory_of(32);
    let mut shared = SharedPages::new();
    let mut set = MemorySet::new_bare(&mut memory, 3).unwrap();
    let at = VirtAddr(0x3f_0000_0000);
    let addr = map_trap_context(&mut set, &mut memory, &mut shared, at, 0x2000).unwrap();
    let entry = set.translate(&memory, VirtPageNum(0x3f0_0000)).unwrap();
    assert_eq!(addr, entry.ppn().0 << 12);
    assert!(entry.readable() && entry.writable() && !entry.executable());
    assert!(!entry.user_accessible());
    assert!(set.translate(&memory, VirtPageNum(0x3f0_0001)).is_some());
    assert_eq!(set.translate(&memory, VirtPageNum(0x3f0_0002)), None);
}

#[test]
fn two_pages_take_two_frames_and_two_for_their_tables() {
    for (left, enough) in [(4, true), (3, false)] {
        let mut memory = memory_of(32);
        let mut shared = SharedPages::new();
        let mut set = MemorySet::new_bare(&mut memory, 3).unwrap();
        while memory.free_frames() > left {
            memory.take_frame(PageSize::Page4K).unwrap();
        }
        let at = VirtAddr(0x18_0000);
        let done = map_trap_context(&mut set, &mut memory, &mut shared, at, 0x2000);
        assert_eq!(done.is_ok(), enough);
    }
}

#[test]
fn a_child_takes_frames_for_its_tables_only() {
    for (left, enough) in [(5, true), (4, false)] {
        let mut memory = memory_of(64);
        let mut shared = SharedPages::new();
        let mut parent = MemorySet::new_bare(&mut memory, 1).unwrap();
        parent.mmap(&mut memory, anonymous(0x18_0000, 0x3000, 0x22), layout()).0.unwrap();
        for addr in [0x18_0000, 0x18_1000, 0x18_2000] {
            parent.handle_page_fault(&mut memory, &mut shared, addr, 0);
        }
        while memory.free_frames() > left {
            memory.take_frame(PageSize::Page4K).unwrap();
        }
        let trampoline = VirtPageNum(0x7ff_ffff);
        let child = parent.from_existed_user(&mut memory, 2, trampoline, PhysPageNum(0x70000));
        assert_eq!(child.is_ok(), enough);
    }
}
