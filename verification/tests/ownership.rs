use shellcore::errno::Errno;
use shellcore::mm::address::{PageSize, PhysAddr, PhysPageNum, VirtAddr, VirtPageNum};
use shellcore::mm::frame_allocator::{FramePool, FrameTracker};
use shellcore::mm::memory_set::access::AccessStep;
use shellcore::mm::memory_set::fork::CowOutcome;
use shellcore::mm::memory_set::user_pin::{
    hold_segments, pin_user_range, translated_byte_buffer, translated_byte_buffer_mut,
    try_translated_str, CStringAsk, CStringCopy, PinStep,
};
use shellcore::mm::memory_set::{FaultOutcome, MapRequest, MemorySet, SharedPages, UserLayout};
use shellcore::mm::mmap::{MMapFlags, MMapProt};
use shellcore::mm::phys::PhysMemory;
use shellcore::mm::shm::Shm;
use shellcore::mm::user_buffer::UserBuffer;
use shellcore::mm::user_string::{CStringStep, UserCStringError};
use shellcore::net::socket::{hand_over, RawSocket};
use shellcore::net::unix::{ReadStep, UnixSocket, UnixSocketType};
use shellcore::process::pcb::ProcessControlBlock;
use shellcore::process::signal::frame::TrapRegs;
use shellcore::process::task::files::{FdFlags, FileDescriptor, FD_STATUS_RESERVED};
use shellcore::process::trap_area::{start_child, start_first, start_program, start_thread};

const AWAY: (VirtPageNum, PhysPageNum) = (VirtPageNum(0x3ff), PhysPageNum(0x70000));

fn memory_of(frames: u64) -> PhysMemory {
    PhysMemory::new(FramePool::init_frame_allocator(
        PhysAddr(0x8000_0000),
        PhysAddr(0x8000_0000 + frames * 4096),
    ))
}

fn request(addr: u64, length: u64, bits: u32) -> MapRequest {
    MapRequest {
        addr,
        length,
        prot: MMapProt::from_bits(3).unwrap(),
        flags: MMapFlags::from_bits(bits).unwrap(),
        file: None,
        offset: 0,
        group: 1,
    }
}

fn layout() -> UserLayout {
    UserLayout { app_base: 0x10_0000, app_max: 0x30_0000 }
}

fn space_with(memory: &mut PhysMemory, asid: u64, length: u64, bits: u32) -> MemorySet {
    let mut set = MemorySet::new_bare(memory, asid).unwrap();
    set.mmap(memory, request(0x18_0000, length, bits), layout()).0.unwrap();
    memory.take_stale();
    set
}

fn frame_at(set: &MemorySet, memory: &PhysMemory, page: u64) -> FrameTracker {
    let ppn = set.translate(memory, VirtPageNum(page)).unwrap().ppn();
    FrameTracker { ppn, page_size: PageSize::Page4K }
}

#[test]
fn every_page_has_a_frame_of_its_own() {
    let mut memory = memory_of(64);
    let mut shared = SharedPages::new();
    let mut a = space_with(&mut memory, 1, 0x2000, 0x22);
    let mut b = space_with(&mut memory, 2, 0x2000, 0x22);
    for set in [&mut a, &mut b] {
        for addr in [0x18_0000, 0x18_1000] {
            let outcome = set.handle_page_fault(&mut memory, &mut shared, addr, 0);
            assert!(matches!(outcome, FaultOutcome::Mapped));
        }
    }
    let mut frames = vec![
        frame_at(&a, &memory, 0x180),
        frame_at(&a, &memory, 0x181),
        frame_at(&b, &memory, 0x180),
        frame_at(&b, &memory, 0x181),
    ];
    assert!(frames.iter().all(|frame| memory.users(frame.ppn) == 1));
    let mut stale = memory.take_stale();
    frames.sort_by_key(|frame| frame.ppn.0);
    stale.sort_by_key(|frame| frame.ppn.0);
    assert_eq!(stale, frames);
    frames.dedup();
    assert_eq!(frames.len(), 4);
    assert!(memory.take_stale().is_empty());
}

#[test]
fn a_page_that_was_dropped_comes_back_cleared() {
    let mut memory = memory_of(32);
    let mut shared = SharedPages::new();
    let mut set = space_with(&mut memory, 1, 0x1000, 0x22);
    set.handle_page_fault(&mut memory, &mut shared, 0x18_0000, 0);
    memory.take_stale();
    let released = set.madvise_dontneed(&mut memory, 0x18_0000, 0x1000).ok().unwrap();
    assert_eq!(set.asid(), 1);
    for frame in released.frames {
        memory.release_frame(frame);
    }
    set.handle_page_fault(&mut memory, &mut shared, 0x18_0000, 0);
    let frame = frame_at(&set, &memory, 0x180);
    assert_eq!(memory.take_stale(), vec![frame]);
}

#[test]
fn a_group_knows_the_frames_of_its_pages() {
    let mut memory = memory_of(64);
    let mut shared = SharedPages::new();
    let mut set = space_with(&mut memory, 1, 0x2000, 0x21);
    set.handle_page_fault(&mut memory, &mut shared, 0x18_0000, 0);
    let first = frame_at(&set, &memory, 0x180);
    assert_eq!(memory.users(first.ppn), 2);
    let released = set.madvise_dontneed(&mut memory, 0x18_0000, 0x1000).ok().unwrap();
    assert_eq!(released.frames, vec![first]);
    memory.release_frame(first);
    assert_eq!(memory.users(first.ppn), 1);
    set.handle_page_fault(&mut memory, &mut shared, 0x18_0000, 0);
    assert_eq!(frame_at(&set, &memory, 0x180), first);
    assert_eq!(memory.users(first.ppn), 2);
    set.handle_page_fault(&mut memory, &mut shared, 0x18_1000, 0);
    assert_ne!(frame_at(&set, &memory, 0x181), first);
}

#[test]
fn frames_of_a_file_are_different() {
    let mut memory = memory_of(128);
    let mut shared = SharedPages::new();
    let mut set = MemorySet::new_bare(&mut memory, 3).unwrap();
    let mut map = request(0x18_0000, 0x4000, 0x02);
    map.file = Some((9, false));
    set.mmap(&mut memory, map, layout()).0.unwrap();
    memory.take_stale();
    match set.handle_page_fault(&mut memory, &mut shared, 0x18_0000, 0) {
        FaultOutcome::FilePages(9, 0, frames) => {
            assert_eq!(frames.len(), 4);
            assert!(frames.iter().all(|frame| memory.users(frame.ppn) == 1));
            assert_eq!(memory.take_stale(), frames);
            for (i, frame) in frames.iter().enumerate() {
                assert!(!frames[..i].contains(frame));
            }
        }
        _ => panic!("a file was expected"),
    }
}

#[test]
fn an_area_of_a_file_grows_down() {
    let mut memory = memory_of(128);
    let mut shared = SharedPages::new();
    let mut set = MemorySet::new_bare(&mut memory, 3).unwrap();
    let mut map = request(0x18_8000, 0x2000, 0x01);
    map.file = Some((9, true));
    map.offset = 0x5000;
    set.mmap(&mut memory, map, layout()).0.unwrap();
    let outcome = set.handle_page_fault(&mut memory, &mut shared, 0x18_6000, 0x18_6010);
    assert!(matches!(outcome, FaultOutcome::GrownFile(0x188)));
    let areas = set.area_snapshot();
    assert_eq!((areas.len(), areas[0].start, areas[0].end), (1, 0x186, 0x18a));
    let outcome = set.handle_page_fault(&mut memory, &mut shared, 0x18_7000, 0);
    assert!(matches!(outcome, FaultOutcome::SharedFilePage(9, 6)));
}

#[test]
fn a_range_of_all_addresses_divides_an_area() {
    let mut memory = memory_of(32);
    let mut set = space_with(&mut memory, 1, 0x3000, 0x22);
    let read = MMapProt::from_bits(1).unwrap();
    assert_eq!(set.mprotect(&mut memory, 0x18_0000, 1 << 39, read), Err(Errno::ENOMEM));
    assert_eq!(set.area_snapshot().len(), 1);
    assert_eq!(set.mprotect(&mut memory, 0x18_1000, 1 << 39, read), Ok(true));
    let areas = set.area_snapshot();
    assert_eq!(areas.len(), 2);
    assert_eq!((areas[0].end, areas[1].start), (0x181, 0x181));
    assert!(areas.iter().all(|area| area.map_perm.w));
    assert_eq!(set.disable_share_in_range(&memory, 0x18_1000, 1 << 39), Err(Errno::ENOMEM));
    assert_eq!(set.disable_share_in_range(&memory, 0x18_2000, 1 << 39), Ok(()));
    assert_eq!(set.area_snapshot().len(), 3);
}

#[test]
fn the_heap_ends_at_the_bits_of_an_address() {
    let mut memory = memory_of(64);
    let mut shared = SharedPages::new();
    let mut set = MemorySet::new_bare(&mut memory, 3).unwrap();
    let bottom = set.change_program_brk(&mut memory, &mut shared, 0).0.unwrap();
    let high = (1 << 39) + bottom + 0x2000;
    memory.take_stale();
    let (done, _, grown) = set.change_program_brk(&mut memory, &mut shared, high);
    assert_eq!((done, grown), (Ok(high), None));
    assert_eq!(memory.take_stale().len(), 2);
}

#[test]
fn frames_of_a_segment_are_different() {
    let mut memory = memory_of(8);
    let shm = Shm::new(&mut memory, 1, 3 * 4096, 1, 0, 1).ok().unwrap();
    let frames = shm.into_frames();
    assert_eq!(memory.take_stale(), frames);
    assert!(frames.iter().all(|frame| memory.users(frame.ppn) == 1));
    assert!(frames[0] != frames[1] && frames[1] != frames[2] && frames[0] != frames[2]);
}

#[test]
fn nothing_goes_behind_an_empty_piece() {
    let mut buf = UserBuffer::new(vec![vec![], vec![0]]);
    assert_eq!(hand_over(&vec![7], &mut buf), 0);
    assert_eq!(buf.buffers, vec![vec![], vec![0]]);
    let mut buf = UserBuffer::new(vec![vec![0], vec![], vec![0]]);
    assert_eq!(hand_over(&vec![7, 8], &mut buf), 1);
    assert_eq!(buf.buffers, vec![vec![7], vec![], vec![0]]);
    let (_, mut right) = UnixSocket::pair(UnixSocketType::Stream);
    right.receive(&UserBuffer::new(vec![b"ab".to_vec()]), false);
    assert_eq!(right.read(&mut buf, false, false), ReadStep::Done(1));
    assert_eq!(buf.buffers[0], b"a".to_vec());
    assert_eq!(right.read(&mut buf, false, false), ReadStep::Done(1));
    assert_eq!(buf.buffers, vec![b"b".to_vec(), vec![], vec![0]]);
    let mut raw = RawSocket::new(1);
    raw.local_rx_buffer.push(vec![5, 6]);
    assert_eq!(raw.read_local(&mut buf), Some(1));
    assert_eq!(buf.buffers, vec![vec![5], vec![], vec![0]]);
}

#[test]
fn a_place_that_is_taken_has_the_highest_bit() {
    let fd = FileDescriptor::reserved();
    assert_eq!(fd.status, 1 << 63);
    assert_eq!(FD_STATUS_RESERVED, 1 << 63);
    assert!(!fd.is_available() && fd.file.is_none());
    assert!(FileDescriptor::empty().is_available());
    let fd = FileDescriptor::new(4, FdFlags::empty(), u64::MAX);
    assert_eq!(fd.status, u64::MAX >> 1);
}

#[test]
fn windows_show_memory_elsewhere() {
    let window = 0x9000_0000_0000_0000;
    let addr = PhysAddr(0x8000_1234).get_windowed_addr(window);
    assert_eq!(addr, 0x9000_0000_8000_1234);
    assert_eq!(PhysAddr::from_windowed(addr, window), PhysAddr(0x8000_1234));
    assert_eq!(PhysAddr(0x8000_1234).get_cached_addr(), 0x8000_1234);
    let mut memory = memory_of(8);
    let set = MemorySet::new_bare(&mut memory, 3).unwrap();
    let root = set.token(&memory) % (1 << 44);
    assert_eq!(set.root_token(&memory), root * 4096);
}

#[test]
fn a_range_is_reached_in_steps() {
    let mut memory = memory_of(64);
    let mut shared = SharedPages::new();
    let mut parent = space_with(&mut memory, 1, 0x2000, 0x22);
    let mut pin = translated_byte_buffer_mut(0x18_0ff0, 0x20);
    let mut mapped = 0;
    let segments = loop {
        match pin.advance(&mut parent, &mut memory, &mut shared, 0, AWAY) {
            PinStep::Pinned(segments) => break segments,
            PinStep::Again => {}
            PinStep::Access(AccessStep::Mapped) => mapped += 1,
            _ => panic!("the pages can be mapped"),
        }
    };
    assert_eq!((mapped, segments.len()), (2, 2));
    hold_segments(&mut memory, &segments);
    for segment in segments {
        assert_eq!(memory.users(segment.ppn), 2);
        memory.release_frame(segment.frame.unwrap());
        assert_eq!(memory.users(segment.ppn), 1);
    }
    let mut child =
        parent.from_existed_user(&mut memory, 2, AWAY.0, AWAY.1).ok().unwrap();
    let mut pin = translated_byte_buffer_mut(0x18_0000, 4);
    let mut copied = 0;
    loop {
        match pin_user_range(&mut pin, &mut child, &mut memory, &mut shared, 0, AWAY) {
            PinStep::Pinned(_) => break,
            PinStep::Access(AccessStep::Copy { from, released, .. }) => {
                copied += 1;
                assert_eq!(released.unwrap().ppn, from);
            }
            _ => panic!("the page can be copied"),
        }
    }
    assert_eq!(copied, 1);
    assert!(matches!(child.handle_cow_fault(&mut memory, 0x18_0000), CowOutcome::NotCow));
    let mut pin = translated_byte_buffer(u64::MAX, 2);
    let step = pin.advance(&mut child, &mut memory, &mut shared, 0, AWAY);
    assert!(matches!(step, PinStep::GiveUp(None)));
    let mut pin = translated_byte_buffer(0x28_0000, 1);
    let mut steps = 0;
    loop {
        steps += 1;
        match pin.advance(&mut child, &mut memory, &mut shared, 0, AWAY) {
            PinStep::GiveUp(None) => break,
            PinStep::Again => {}
            _ => panic!("there is nothing"),
        }
    }
    assert!(steps < 100);
}

#[test]
fn a_string_is_copied_page_by_page() {
    let mut memory = memory_of(64);
    let mut shared = SharedPages::new();
    let mut set = space_with(&mut memory, 1, 0x2000, 0x22);
    let mut copy = CStringCopy::start(0x18_0ffe, 100).ok().unwrap();
    let mut chunks = vec![b"c\xe9\0".to_vec(), b"ab".to_vec()];
    let mut places = Vec::new();
    loop {
        match copy.advance(&mut set, &mut memory, &mut shared, 0, AWAY) {
            CStringAsk::Read(segment) => {
                places.push((segment.offset, segment.len));
                match copy.supply(&chunks.pop().unwrap()) {
                    CStringStep::More => {}
                    CStringStep::Complete => break,
                    CStringStep::Failed(_) => panic!("the string ends"),
                }
            }
            CStringAsk::Access(AccessStep::Mapped) => {}
            _ => panic!("the pages can be mapped"),
        }
    }
    assert_eq!(places, vec![(0xffe, 2), (0, 99)]);
    assert_eq!(copy.finish(), "abc\u{e9}");
    assert!(matches!(try_translated_str(0), Err(UserCStringError::Invalid)));
    let mut copy = try_translated_str(0x28_0000).ok().unwrap();
    let ask = copy.advance(&mut set, &mut memory, &mut shared, 0, AWAY);
    assert!(matches!(ask, CStringAsk::Failed(UserCStringError::Invalid, None)));
}

#[test]
fn the_registers_of_threads_lie_in_their_memory() {
    let mut memory = memory_of(128);
    let mut shared = SharedPages::new();
    let mut set = MemorySet::new_bare(&mut memory, 1).unwrap();
    let place = |n: u64| VirtAddr(0x3f_0000_0000 + n * 0x10_0000);
    let (mut process, mut thread) = start_first(
        &mut set, &mut memory, &mut shared, place(0), 0x2000, 1, 1, 7, 0x1000, 0x2000, 0,
        (0, 1, 2), 0x99, 0x88,
    )
    .ok()
    .unwrap();
    let addr = |set: &MemorySet, memory: &PhysMemory, n: u64| {
        set.translate(memory, place(n).std_floor()).unwrap().ppn().0 << 12
    };
    assert_eq!(thread.trap_cx_addr, addr(&set, &memory, 0));
    assert_eq!((thread.task_cx.ra, thread.task_cx.sp), (0x99, 0x88));
    assert_eq!((process.pid, process.inner.memory_set), (1, 7));
    let regs = TrapRegs { x: [3; 32], pc: 0x1234 };
    let (second, r) = start_thread(
        &mut process, &mut set, &mut memory, &mut shared, place(1), 0x2000, 2, &thread, &regs,
        Some(0x5000), 0x99, 0x88,
    )
    .ok()
    .unwrap();
    assert_eq!(second.trap_cx_addr, addr(&set, &memory, 1));
    assert_ne!(second.trap_cx_addr, thread.trap_cx_addr);
    assert_eq!((r.x[2], r.x[10], r.pc), (0x5000, 0, 0x1234));
    assert_eq!(process.inner.tasks, vec![1, 2]);
    let mut own = MemorySet::new_bare(&mut memory, 2).unwrap();
    let (child, third, r): (ProcessControlBlock, _, _) = start_child(
        &mut process, &mut own, &mut memory, &mut shared, place(2), 0x2000, 3, 3, 8, &thread,
        &regs, None, 0x99, 0x88,
    )
    .ok()
    .unwrap();
    assert_eq!(third.trap_cx_addr, addr(&own, &memory, 2));
    assert_eq!((child.pid, child.inner.parent, r.x[2]), (3, Some(1), 3));
    assert_eq!(process.inner.children, vec![3]);
    let mut new = MemorySet::new_bare(&mut memory, 3).unwrap();
    let done = start_program(
        &mut process, &mut thread, &mut new, &mut memory, &mut shared, place(0), 0x2000, 1, 9,
        0x4000, None, true,
    );
    assert!(done.is_ok());
    assert_eq!(thread.trap_cx_addr, addr(&new, &memory, 0));
    assert_eq!((process.inner.memory_set, process.inner.tasks.len()), (9, 1));
    while memory.free_frames() > 2 {
        memory.take_frame(PageSize::Page4K).unwrap();
    }
    let mut bare = MemorySet::new_bare(&mut memory, 4).unwrap();
    let before = thread.trap_cx_addr;
    let done = start_program(
        &mut process, &mut thread, &mut bare, &mut memory, &mut shared, place(0), 0x2000, 1, 10,
        0x4000, None, true,
    );
    assert!(done.is_err());
    assert_eq!((thread.trap_cx_addr, process.inner.memory_set), (before, 9));
}
