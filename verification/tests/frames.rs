use shellcore::mm::address::{PageSize, PhysAddr, PhysPageNum};
use shellcore::mm::boot_memory::{align_down, align_up, init, BootError, BootInput, BootRecord};
use shellcore::mm::frame_allocator::{FramePool, StackFrameAllocator};
use shellcore::mm::heap_allocator::{arena_layout, arenas_to_try, HeapOwner};
use shellcore::mm::phys::PhysMemory;
use shellcore::mm::shm::{Shm, ShmManager};

#[test]
fn frames_come_in_order_and_come_back_last_in_first_out() {
    let mut allocator = StackFrameAllocator::new();
    allocator.init(PhysPageNum(0x80000), PhysPageNum(0x80004));
    assert_eq!(allocator.free_frames(), 4);
    assert_eq!(allocator.alloc_std(), Some(PhysPageNum(0x80000)));
    assert_eq!(allocator.alloc_std(), Some(PhysPageNum(0x80001)));
    assert!(allocator.can_dealloc(PhysPageNum(0x80000), PageSize::Page4K));
    assert!(!allocator.can_dealloc(PhysPageNum(0x80004), PageSize::Page4K));
    allocator.dealloc(PhysPageNum(0x80000), PageSize::Page4K);
    assert!(!allocator.can_dealloc(PhysPageNum(0x80000), PageSize::Page4K));
    assert_eq!(allocator.alloc_std(), Some(PhysPageNum(0x80000)));
    assert_eq!(allocator.alloc_std(), Some(PhysPageNum(0x80002)));
    assert_eq!(allocator.alloc_std(), Some(PhysPageNum(0x80003)));
    assert_eq!(allocator.alloc_std(), None);
    assert_eq!(allocator.free_frames(), 0);
}

#[test]
fn large_frames_are_aligned_and_nothing_is_lost() {
    let mut allocator = StackFrameAllocator::new();
    allocator.init(PhysPageNum(0x80001), PhysPageNum(0x80400));
    let before = allocator.free_frames();
    let mega = allocator.alloc_mega().unwrap();
    assert_eq!(mega, PhysPageNum(0x80200));
    assert_eq!(allocator.free_frames(), before - 512);
    let std = allocator.alloc_std().unwrap();
    assert!(std.0 < 0x80200);
    allocator.dealloc(mega, PageSize::Page2M);
    allocator.dealloc(std, PageSize::Page4K);
    assert_eq!(allocator.free_frames(), before);
    assert_eq!(allocator.alloc_giga(), None);
}

#[test]
fn no_frame_is_given_twice() {
    let mut allocator = StackFrameAllocator::new();
    allocator.init(PhysPageNum(0x80001), PhysPageNum(0x80801));
    let before = allocator.free_frames();
    let mut out: Vec<(u64, u64, PageSize)> = Vec::new();
    for round in 0..600u64 {
        if round % 3 == 2 {
            let (page, _, size) = out.remove((round * 7) as usize % out.len());
            assert!(allocator.can_dealloc(PhysPageNum(page), size));
            allocator.dealloc(PhysPageNum(page), size);
            continue;
        }
        let (size, pages) = if round % 50 == 0 {
            (PageSize::Page2M, 512)
        } else {
            (PageSize::Page4K, 1)
        };
        if let Some(page) = allocator.alloc_frame(size) {
            let (from, to) = (page.0, page.0 + pages);
            assert!(from >= 0x80001 && to <= 0x80801 && from % pages == 0);
            assert!(out.iter().all(|(start, end, _)| to <= *start || *end <= from));
            out.push((from, to, size));
        }
    }
    for (page, _, size) in out {
        allocator.dealloc(PhysPageNum(page), size);
    }
    assert_eq!(allocator.free_frames(), before);
}

#[test]
fn neighbouring_frames_are_never_given() {
    let mut allocator = StackFrameAllocator::new();
    allocator.init(PhysPageNum(100), PhysPageNum(110));
    assert_eq!(allocator.alloc_con(4), None);
    assert_eq!(allocator.free_frames(), 10);
}

#[test]
fn a_shared_frame_is_kept_until_the_last_user_lets_go() {
    let mut pool = FramePool::init_frame_allocator(PhysAddr(0x8000_0000), PhysAddr(0x8000_4000));
    let frame = pool.frame_alloc(PageSize::Page4K).unwrap();
    assert_eq!(pool.frame_ref_count(frame.ppn), 1);
    pool.frame_add_ref(frame.ppn);
    assert_eq!(pool.frame_ref_count(frame.ppn), 2);
    let free = pool.get_free_frames();
    pool.frame_dealloc(frame.ppn, PageSize::Page4K);
    assert_eq!(pool.frame_ref_count(frame.ppn), 1);
    assert_eq!(pool.get_free_frames(), free);
    pool.frame_dealloc(frame.ppn, PageSize::Page4K);
    assert_eq!(pool.get_free_frames(), free + 1);
}

#[test]
fn alignment_to_pages() {
    assert_eq!(align_up(0x1001), 0x2000);
    assert_eq!(align_up(0x1000), 0x1000);
    assert_eq!(align_down(0x1fff), 0x1000);
}

fn boot_input() -> BootInput {
    BootInput {
        image_start: 0x8020_0000,
        image_end: 0x8100_0123,
        memory_start: 0x8000_0000,
        memory_end: 0xc000_0000,
        usable_end: 0xc000_0000,
        dma_size: 0x10_0000,
        cores: 4,
    }
}

#[test]
fn memory_is_laid_out_in_order() {
    let memory = init(boot_input()).unwrap();
    assert_eq!(memory.dma_start, 0x8100_1000);
    assert_eq!(memory.dma_end, 0x8110_1000);
    assert!(memory.dma_end <= memory.heap_start);
    assert!(memory.heap_start < memory.heap_end);
    assert!(memory.heap_end <= memory.frame_start);
    assert!(memory.frame_start < memory.frame_end);
    assert_eq!(memory.frame_end, 0xc000_0000);
    let mut record = BootRecord::new();
    assert!(!record.is_laid_out());
    let mut outside = boot_input();
    outside.image_end = 0xd000_0000;
    assert_eq!(record.init(outside), Err(BootError::ImageOutside));
    assert_eq!(record.init(boot_input()), Ok(()));
    assert!(record.is_laid_out());
    assert_eq!(record.memory_size(), 0x4000_0000);
    let mut other = boot_input();
    other.dma_size = 0x20_0000;
    assert_eq!(record.init(other), Ok(()));
    assert_eq!(record.boot_memory(), &memory);
}

#[test]
fn images_outside_memory_are_refused() {
    let mut input = boot_input();
    input.image_end = 0xd000_0000;
    assert_eq!(init(input), Err(BootError::ImageOutside));
    let mut input = boot_input();
    input.dma_size = 0x4000_0000;
    assert_eq!(init(input), Err(BootError::NoRoomForDma));
    let mut input = boot_input();
    input.dma_size = u64::MAX - 0x8000_0000;
    assert_eq!(init(input), Err(BootError::DmaOverflow));
    let mut input = boot_input();
    input.memory_end = 0x40_0000_1000;
    assert_eq!(init(input), Err(BootError::BeyondWindow));
    let start = (input.image_end + 4095) / 4096 * 4096 + input.dma_size;
    let mut input = boot_input();
    input.usable_end = start + 0x100_0000;
    assert_eq!(init(input), Err(BootError::NoFramePool));
    input.usable_end = start + 0x200_0000 + 0x700_0000;
    assert_eq!(init(input), Err(BootError::NoHeap));
    let mut input = boot_input();
    input.cores = 0x8_0000;
    assert_eq!(init(input), Err(BootError::NoArenas));
}

#[test]
fn every_arena_owns_its_own_bytes() {
    let memory = init(boot_input()).unwrap();
    let layout = arena_layout(&memory, 0xffff_ffc0_0000_0000, 4).unwrap();
    let first = layout.arena_range(HeapOwner::Local(0), 4);
    let second = layout.arena_range(HeapOwner::Local(1), 4);
    let large = layout.arena_range(HeapOwner::Large, 4);
    assert_eq!(first.0 + first.1, second.0);
    assert!(second.0 + second.1 <= large.0);
    assert_eq!(large.0 + large.1, layout.heap_end);
    assert_eq!(layout.owner(first.0, 4), Some(HeapOwner::Local(0)));
    assert_eq!(layout.owner(second.0, 4), Some(HeapOwner::Local(1)));
    assert_eq!(layout.owner(large.0, 4), Some(HeapOwner::Large));
    assert_eq!(layout.owner(layout.heap_end, 4), None);
    assert_eq!(arenas_to_try(64, 2, 4)[0], HeapOwner::Local(2));
    assert_eq!(arenas_to_try(0x20_0000, 2, 4), vec![HeapOwner::Large]);
}

#[test]
fn shared_memory_needs_its_frames() {
    let pool = FramePool::init_frame_allocator(PhysAddr(0x8000_0000), PhysAddr(0x8000_3000));
    let mut memory = PhysMemory::new(pool);
    let mut manager = ShmManager::new();
    let id = manager.create_shm(&mut memory, 5000, 7, 0o600, 42).ok().unwrap();
    assert_eq!(memory.free_frames(), 1);
    assert!(manager.create_shm(&mut memory, 8192, 8, 0o600, 42).is_err());
    let shm = manager.remove_shm(id).unwrap();
    assert_eq!(shm.get_id(), id);
    assert_eq!(shm.get_size(), 5000);
    assert_eq!(shm.stat().shm_perm.key, 7);
    assert_eq!(shm.stat().shm_cpid, 42);
    assert_eq!(shm.into_frames().len(), 2);
    assert!(manager.remove_shm(id).is_none());
    assert!(Shm::new(&mut memory, 1, 4096 * 9, 1, 0, 1).is_err());
}
