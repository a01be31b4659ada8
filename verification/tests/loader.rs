use shellcore::mm::address::{PageSize, PhysAddr, PhysPageNum, VirtPageNum};
use shellcore::mm::elf::{
    align_up, interp_path, load_align, parse_elf, parse_interp, ImageLayout, LoadError,
    SegmentKind,
};
use shellcore::mm::frame_allocator::FramePool;
use shellcore::mm::memory_set::resize::Piece;
use shellcore::mm::memory_set::{MemorySet, SharedPages};
use shellcore::mm::page_table::PageTable;
use shellcore::mm::phys::PhysMemory;
use shellcore::mm::pte::PTEFlags;
use shellcore::process::task::exec_image::{load_program, StartError};
use shellcore::process::task::exec_start::start_program;

fn put(file: &mut Vec<u8>, at: usize, len: usize, value: u64) {
    for i in 0..len {
        file[at + i] = (value >> (8 * i)) as u8;
    }
}

struct Segment {
    kind: u64,
    flags: u64,
    offset: u64,
    addr: u64,
    file_size: u64,
    mem_size: u64,
    align: u64,
}

fn load(flags: u64, offset: u64, addr: u64, file_size: u64, mem_size: u64) -> Segment {
    Segment { kind: 1, flags, offset, addr, file_size, mem_size, align: 0x1000 }
}

fn program(kind: u64, entry: u64, segments: Vec<Segment>, len: usize) -> Vec<u8> {
    let mut file = vec![0u8; len];
    file[0..8].copy_from_slice(&[0x7f, b'E', b'L', b'F', 2, 1, 1, 0]);
    put(&mut file, 16, 2, kind);
    put(&mut file, 18, 2, 243);
    put(&mut file, 20, 4, 1);
    put(&mut file, 24, 8, entry);
    put(&mut file, 32, 8, 64);
    put(&mut file, 52, 2, 64);
    put(&mut file, 54, 2, 56);
    put(&mut file, 56, 2, segments.len() as u64);
    put(&mut file, 58, 2, 64);
    for (i, s) in segments.iter().enumerate() {
        let at = 64 + 56 * i;
        put(&mut file, at, 4, s.kind);
        put(&mut file, at + 4, 4, s.flags);
        put(&mut file, at + 8, 8, s.offset);
        put(&mut file, at + 16, 8, s.addr);
        put(&mut file, at + 24, 8, s.addr);
        put(&mut file, at + 32, 8, s.file_size);
        put(&mut file, at + 40, 8, s.mem_size);
        put(&mut file, at + 48, 8, s.align);
    }
    file
}

fn layout() -> ImageLayout {
    ImageLayout { app_base: 0x1000_0000, app_offset: 0, stack_size: 0x8000 }
}

fn memory_of(frames: u64) -> PhysMemory {
    PhysMemory::new(FramePool::init_frame_allocator(
        PhysAddr(0x8000_0000),
        PhysAddr(0x8000_0000 + frames * 4096),
    ))
}

const TRAMPOLINE: (VirtPageNum, PhysPageNum) = (VirtPageNum(0x7ff_ffff), PhysPageNum(0x70000));

fn error_of(file: &Vec<u8>, frames: u64) -> Option<LoadError> {
    let mut memory = memory_of(frames);
    let mut shared = SharedPages::new();
    MemorySet::from_elf(&mut memory, &mut shared, 1, TRAMPOLINE, file, layout())
        .err()
        .map(|(e, _)| e)
}

#[test]
fn headers_are_read() {
    let file = program(
        2,
        0x1_0040,
        vec![load(5, 0, 0x1_0000, 0x200, 0x1800), load(6, 0x200, 0x1_2000, 0x10, 0x20)],
        0x400,
    );
    let image = parse_elf(&file).ok().unwrap();
    assert!(image.header.wide);
    assert_eq!(image.header.kind, 2);
    assert_eq!(image.header.entry, 0x1_0040);
    assert_eq!(image.header.ph_offset, 64);
    assert_eq!(image.header.ph_count, 2);
    assert_eq!(image.header.ph_entry_size, 56);
    assert_eq!(image.segments[0].kind, SegmentKind::Load);
    assert!(image.segments[0].read && !image.segments[0].write && image.segments[0].execute);
    assert_eq!(image.segments[0].mem_size, 0x1800);
    assert!(image.segments[1].write && !image.segments[1].execute);
    assert_eq!(image.segments[1].virtual_addr, 0x1_2000);
    assert_eq!(image.segments[1].offset, 0x200);
    assert_eq!(image.segments[1].file_size, 0x10);
    assert_eq!(image.segments[1].align, 0x1000);
    assert_eq!(image.len, 0x400);
}

#[test]
fn narrow_headers_are_read() {
    let mut file = vec![0u8; 0x200];
    file[0..8].copy_from_slice(&[0x7f, b'E', b'L', b'F', 1, 1, 1, 0]);
    put(&mut file, 16, 2, 2);
    put(&mut file, 18, 2, 243);
    put(&mut file, 20, 4, 1);
    put(&mut file, 24, 4, 0x1_0040);
    put(&mut file, 28, 4, 52);
    put(&mut file, 40, 2, 52);
    put(&mut file, 42, 2, 32);
    put(&mut file, 44, 2, 1);
    put(&mut file, 46, 2, 40);
    put(&mut file, 52, 4, 1);
    put(&mut file, 56, 4, 0x10);
    put(&mut file, 60, 4, 0x1_0000);
    put(&mut file, 68, 4, 0x20);
    put(&mut file, 72, 4, 0x30);
    put(&mut file, 76, 4, 7);
    put(&mut file, 80, 4, 0x1000);
    let image = parse_elf(&file).ok().unwrap();
    assert!(!image.header.wide);
    assert_eq!(image.header.entry, 0x1_0040);
    let ph = image.segments[0];
    assert_eq!(ph.kind, SegmentKind::Load);
    assert_eq!((ph.offset, ph.virtual_addr), (0x10, 0x1_0000));
    assert_eq!((ph.file_size, ph.mem_size, ph.align), (0x20, 0x30, 0x1000));
    assert!(ph.read && ph.write && ph.execute);
}

#[test]
fn other_files_are_no_programs() {
    assert_eq!(error_of(&vec![], 64), Some(LoadError::NotElf));
    assert_eq!(error_of(&b"#!/bin/sh\n".to_vec(), 64), Some(LoadError::NotElf));
    let mut file = program(2, 0x1_0000, vec![load(5, 0, 0x1_0000, 0x100, 0x100)], 0x400);
    put(&mut file, 56, 2, 100);
    assert_eq!(error_of(&file, 64), Some(LoadError::BadProgramHeaders));
}

#[test]
fn bad_parts_are_refused() {
    let file = program(2, 0x1_0000, vec![load(5, 0, 0x1_0000, 0x200, 0x100)], 0x400);
    assert_eq!(error_of(&file, 64), Some(LoadError::BadSegment));
    let file = program(2, 0x1_0000, vec![load(5, 0x300, 0x1_0000, 0x200, 0x200)], 0x400);
    assert_eq!(error_of(&file, 64), Some(LoadError::BadSegment));
    let mut odd = load(5, 0, 0x1_0000, 0x100, 0x100);
    odd.align = 0x1001;
    let file = program(2, 0x1_0000, vec![odd], 0x400);
    assert_eq!(error_of(&file, 64), Some(LoadError::BadAlignment));
    let file = program(2, 0x1_0000, vec![load(5, 0, 0x7f_ffff_ff00, 0x100, 0x100)], 0x400);
    assert_eq!(error_of(&file, 64), Some(LoadError::OutOfRange));
    let mut interp = load(4, 0x300, 0, 0x200, 0x200);
    interp.kind = 3;
    let file = program(2, 0x1_0000, vec![interp], 0x400);
    assert_eq!(error_of(&file, 64), Some(LoadError::BadInterp));
    let file = program(
        2,
        0x1_0000,
        vec![load(5, 0, 0x1_0000, 0x100, 0x100), load(6, 0, 0x1_0800, 0x100, 0x100)],
        0x400,
    );
    assert_eq!(error_of(&file, 64), Some(LoadError::Overlap));
    let file = program(2, 0x1_0000, vec![load(5, 0, 0x1_0000, 0x100, 0x100)], 0x400);
    assert_eq!(error_of(&file, 2), Some(LoadError::OutOfFrames));
    assert_eq!(error_of(&file, 64), None);
}

#[test]
fn a_program_is_laid_out() {
    let file = program(
        2,
        0x1_0040,
        vec![load(5, 0, 0x1_0000, 0x200, 0x1800), load(6, 0x200, 0x1_2000, 0x10, 0x20)],
        0x400,
    );
    let mut memory = memory_of(64);
    let mut shared = SharedPages::new();
    let (set, image, copies) =
        MemorySet::from_elf(&mut memory, &mut shared, 5, TRAMPOLINE, &file, layout())
            .ok()
            .unwrap();
    assert_eq!(image.main_entry, 0x1_0040);
    assert_eq!(image.final_entry, 0x1_0040);
    assert_eq!(image.phdr_addr, 0x1_0040);
    assert_eq!((image.phnum, image.phent), (2, 56));
    assert_eq!(image.interp_base, None);
    assert_eq!(image.stack_top, (0x13 + 10) * 4096 + 0x8000);
    assert_eq!(image.heap_bottom, image.stack_top + 10 * 4096);
    assert_eq!(set.current_brk(), image.heap_bottom);
    assert_eq!(set.asid(), 5);
    let code = set.translate(&memory, VirtPageNum(0x11)).unwrap();
    assert!(code.executable() && !code.writable() && code.user_accessible());
    let data = set.translate(&memory, VirtPageNum(0x12)).unwrap();
    assert!(data.writable() && !data.executable());
    assert_eq!(set.translate(&memory, VirtPageNum(0x13)), None);
    assert_eq!(set.translate(&memory, TRAMPOLINE.0), None);
    assert_eq!(set.area_snapshot().len(), 6);
    assert_eq!(copies.main.len(), 2);
    assert_eq!(copies.main[0], Piece { page: 0x10, offset: 0, from: 0, len: 0x200 });
    assert_eq!(copies.main[1], Piece { page: 0x12, offset: 0, from: 0x200, len: 0x10 });
    assert_eq!(copies.interp, vec![]);
}

#[test]
fn bytes_go_to_the_pages_that_they_are_for() {
    let file = program(2, 0x1_0040, vec![load(5, 0x100, 0x1_0f00, 0x1200, 0x3000)], 0x1400);
    let mut memory = memory_of(64);
    let mut shared = SharedPages::new();
    let (_, _, copies) =
        MemorySet::from_elf(&mut memory, &mut shared, 5, TRAMPOLINE, &file, layout())
            .ok()
            .unwrap();
    assert_eq!(
        copies.main,
        vec![
            Piece { page: 0x10, offset: 0xf00, from: 0x100, len: 0x100 },
            Piece { page: 0x11, offset: 0, from: 0x200, len: 0x1000 },
            Piece { page: 0x12, offset: 0, from: 0x1200, len: 0x100 },
        ]
    );
}

#[test]
fn only_the_bits_of_an_address_count() {
    let file =
        program(2, 0x1_0040, vec![load(5, 0, 0x80_0001_0000, 0x200, 0x800)], 0x400);
    let mut memory = memory_of(64);
    let mut shared = SharedPages::new();
    let (set, image, _) =
        MemorySet::from_elf(&mut memory, &mut shared, 5, TRAMPOLINE, &file, layout())
            .ok()
            .unwrap();
    assert!(set.translate(&memory, VirtPageNum(0x10)).unwrap().executable());
    assert_eq!(image.stack_top, (0x11 + 10) * 4096 + 0x8000);
    let file =
        program(2, 0x1_0040, vec![load(5, 0, 0x7f_ffff_f000, 0x200, 0x1000)], 0x400);
    assert_eq!(error_of(&file, 64), Some(LoadError::OutOfRange));
}

#[test]
fn an_interpreter_without_headers_has_no_parts() {
    let mut interp = load(4, 0x300, 0x300, 13, 13);
    interp.kind = 3;
    let file = program(3, 0x40, vec![load(5, 0, 0, 0x400, 0x1000), interp], 0x400);
    let mut loader = program(3, 0x80, vec![load(5, 0, 0, 0x100, 0x100)], 0x400);
    put(&mut loader, 32, 8, 0);
    let mut memory = memory_of(64);
    let mut shared = SharedPages::new();
    let (_, image, copies) = MemorySet::from_elf_with_interp_loader(
        &mut memory,
        &mut shared,
        5,
        TRAMPOLINE,
        &file,
        Some(&loader),
        layout(),
    )
    .ok()
    .unwrap();
    assert_eq!(image.final_entry, 0x1000_1000 + 10 * 4096 + 0x80);
    assert_eq!(copies.interp, vec![]);
    assert!(parse_interp(&loader).ok().unwrap().segments.is_empty());
    assert!(matches!(parse_elf(&loader), Err(LoadError::BadProgramHeaders)));
}

#[test]
fn an_interpreter_is_put_behind_the_program() {
    let mut interp = load(4, 0x300, 0x300, 13, 13);
    interp.kind = 3;
    interp.align = 1;
    let mut file = program(
        3,
        0x40,
        vec![load(5, 0, 0, 0x400, 0x1000), interp],
        0x400,
    );
    file[0x300..0x30d].copy_from_slice(b"/lib/ld.so.1\0");
    let mut stray = load(4, 0x1000, 0, 13, 13);
    stray.kind = 3;
    let loader = program(3, 0x80, vec![load(5, 0, 0, 0x100, 0x100), stray], 0x400);
    let mut memory = memory_of(64);
    let mut shared = SharedPages::new();
    let (_, image, _) = MemorySet::from_elf_with_interp_loader(
        &mut memory,
        &mut shared,
        5,
        TRAMPOLINE,
        &file,
        Some(&loader),
        layout(),
    )
    .ok()
    .unwrap();
    let base = 0x1000_1000 + 10 * 4096;
    assert_eq!(image.main_entry, 0x1000_0040);
    assert_eq!(image.interp_base, Some(base));
    assert_eq!(image.final_entry, base + 0x80);
    assert_eq!(interp_path(&file, (0x300, 13)), b"/lib/ld.so.1".to_vec());
    assert_eq!(interp_path(&b"/\xff\0".to_vec(), (0, 3)), b"".to_vec());
    let (_, image, _) = MemorySet::from_elf_with_interp_loader(
        &mut memory,
        &mut shared,
        6,
        TRAMPOLINE,
        &file,
        None,
        layout(),
    )
    .ok()
    .unwrap();
    assert_eq!(image.final_entry, 0x1000_0040);
}

#[test]
fn alignments() {
    assert_eq!(load_align(0), Some(0x1000));
    assert_eq!(load_align(1), Some(0x1000));
    assert_eq!(load_align(0x20_0000), Some(0x20_0000));
    assert_eq!(load_align(3), None);
    assert_eq!(align_up(0x1001, 0x1000), Some(0x2000));
    assert_eq!(align_up(u64::MAX, 0x1000), None);
}

fn kernel(memory: &mut PhysMemory) -> PageTable {
    let mut table = PageTable::new(memory).unwrap();
    let mut flags = PTEFlags::empty();
    flags.r = true;
    flags.u = true;
    table.map(memory, KERNEL, PhysPageNum(0x81234), flags, PageSize::Page4K).unwrap();
    table
}

const KERNEL: VirtPageNum = VirtPageNum(0x400_0123);

#[test]
fn a_program_has_the_pages_of_the_kernel() {
    let file = program(2, 0x1_0040, vec![load(5, 0, 0x1_0000, 0x200, 0x800)], 0x400);
    let mut memory = memory_of(256);
    let table = kernel(&mut memory);
    let mut shared = SharedPages::new();
    let made =
        MemorySet::load_user(&mut memory, &mut shared, &table, 1, TRAMPOLINE, &file, None, layout());
    let (mut set, _, _) = made.ok().unwrap();
    assert!(set.pte_satisfies(&memory, KERNEL, true, false, false));
    assert!(!set.pte_satisfies(&memory, KERNEL, true, true, false));
    assert!(!set.pte_satisfies(&memory, VirtPageNum(KERNEL.0 + 1), true, false, false));
    assert!(set.translate(&memory, VirtPageNum(0x10)).unwrap().executable());
    let child = set
        .fork_user(&mut memory, 2, VirtPageNum(0x3ff_ffff), PhysPageNum(0x70000))
        .ok()
        .unwrap();
    assert!(child.pte_satisfies(&memory, KERNEL, true, false, false));
    assert_eq!(
        child.translate(&memory, VirtPageNum(0x10)).unwrap().ppn(),
        set.translate(&memory, VirtPageNum(0x10)).unwrap().ppn()
    );
}

#[test]
fn a_program_starts_with_its_arguments_on_the_stack() {
    let file = program(2, 0x1_0040, vec![load(5, 0, 0x1_0000, 0x200, 0x800)], 0x400);
    let mut memory = memory_of(256);
    let table = kernel(&mut memory);
    let mut shared = SharedPages::new();
    let args = vec![b"prog".to_vec(), b"x".to_vec()];
    let envs = vec![b"A=1".to_vec()];
    let made = load_program(
        &mut memory, &mut shared, &table, 1, TRAMPOLINE, &file, None, layout(), &args, &envs, true,
    );
    let (mut set, image, _, stack) = made.ok().unwrap();
    assert_eq!(image.main_entry, 0x1_0040);
    assert_eq!(stack.arg_ptrs[0], image.stack_top - 5);
    assert_eq!(stack.env_ptrs[0], image.stack_top - 11);
    assert_eq!(stack.words[0], 2);
    assert_eq!(stack.words[1..3], stack.arg_ptrs[..]);
    let page = VirtPageNum(stack.sp / 4096);
    assert!(set.prepare_stack_pages(&mut memory, &mut shared, stack.sp, image.stack_top).is_ok());
    let entry = set.translate(&memory, page).unwrap();
    assert!(entry.is_valid() && entry.writable() && entry.user_accessible());
}

#[test]
fn a_program_that_is_ready() {
    let file = program(2, 0x1_0040, vec![load(5, 0, 0x1_0000, 0x200, 0x800)], 0x400);
    let mut memory = memory_of(256);
    let table = kernel(&mut memory);
    let mut shared = SharedPages::new();
    let args = vec![b"prog".to_vec()];
    let envs = vec![b"A=1".to_vec()];
    let made = start_program(
        &mut memory, &mut shared, &table, 1, TRAMPOLINE, &file, None, layout(), &args, &envs, true,
    );
    let started = made.ok().unwrap();
    let top = started.image.stack_top;
    assert_eq!(started.regs.pc, 0x1_0040);
    assert_eq!(started.regs.x[2], started.stack.sp);
    assert_eq!(started.regs.x[2] % 16, 0);
    assert_eq!((started.regs.x[10], started.regs.x[11]), (1, started.stack.argv_base));
    assert!(started.texts.iter().any(|t| t.at == top - 5 && t.bytes == b"prog\0"));
    assert!(started.texts.iter().any(|t| t.at == top - 9 && t.bytes == b"A=1\0"));
    assert!(started.texts.iter().any(|t| t.at == started.stack.random_at && t.bytes == [0x23; 16]));
    for page in started.stack.sp / 4096..=(top - 1) / 4096 {
        assert!(started.set.translate(&memory, VirtPageNum(page)).unwrap().writable());
    }
    assert_eq!(started.copies.main, vec![Piece { page: 0x10, offset: 0, from: 0, len: 0x200 }]);
    let mut without_stack = 0;
    for frames in 1..8 {
        let mut scarce = memory_of(frames);
        let table = PageTable::new(&mut scarce).unwrap();
        let made = start_program(
            &mut scarce, &mut shared, &table, 1, TRAMPOLINE, &file, None, layout(), &args, &envs,
            true,
        );
        match made {
            Err(StartError::NoFrames(_, _)) => without_stack += 1,
            Err(StartError::Load(LoadError::OutOfFrames, _)) => assert_eq!(without_stack, 0),
            Err(_) => panic!("there is room"),
            Ok(_) => assert!(without_stack > 0),
        }
    }
    assert_eq!(without_stack, 1);
}

#[test]
fn a_program_that_cannot_start() {
    let file = program(2, 0x1_0040, vec![load(5, 0, 0x1_0000, 0x200, 0x800)], 0x400);
    let mut memory = memory_of(256);
    let table = kernel(&mut memory);
    let mut shared = SharedPages::new();
    let many = vec![vec![b'a'; 0x10_0000]; 64];
    let none = vec![];
    let made = load_program(
        &mut memory, &mut shared, &table, 1, TRAMPOLINE, &file, None, layout(), &many, &none, true,
    );
    assert!(matches!(made, Err(StartError::NoRoom(_, _, _))));
    let bad = vec![1, 2];
    let made = load_program(
        &mut memory, &mut shared, &table, 1, TRAMPOLINE, &bad, None, layout(), &none, &none, true,
    );
    assert!(matches!(made, Err(StartError::Load(LoadError::NotElf, None))));
}

#[test]
fn a_part_without_pages_goes_where_another_starts() {
    let file = program(
        2,
        0x1_0040,
        vec![
            load(6, 0, 0x1_2000, 0, 0),
            load(5, 0, 0x1_0000, 0x200, 0x1800),
            load(6, 0x200, 0x1_2000, 0x10, 0x20),
            load(6, 0, 0x1_3000, 0, 0),
        ],
        0x400,
    );
    let mut memory = memory_of(64);
    let mut shared = SharedPages::new();
    let (set, image, copies) =
        MemorySet::from_elf(&mut memory, &mut shared, 5, TRAMPOLINE, &file, layout())
            .ok()
            .unwrap();
    assert_eq!(image.stack_top, (0x13 + 10) * 4096 + 0x8000);
    assert_eq!(set.area_snapshot().len(), 6);
    assert!(set.translate(&memory, VirtPageNum(0x12)).unwrap().writable());
    assert_eq!(copies.main.len(), 2);
    let file = program(
        2,
        0x1_0040,
        vec![load(5, 0, 0x1_0000, 0x200, 0x1800), load(6, 0, 0x1_0000, 0, 0)],
        0x400,
    );
    assert_eq!(error_of(&file, 64), Some(LoadError::Overlap));
}

#[test]
fn only_the_bits_of_the_end_of_a_part_count() {
    let long = 0x80_0000_0000 + 0x800;
    let file = program(2, 0x1_0040, vec![load(5, 0, 0x1_0000, 0x200, long)], 0x400);
    let mut memory = memory_of(64);
    let mut shared = SharedPages::new();
    let (set, image, _) =
        MemorySet::from_elf(&mut memory, &mut shared, 5, TRAMPOLINE, &file, layout())
            .ok()
            .unwrap();
    assert_eq!(image.stack_top, (0x11 + 10) * 4096 + 0x8000);
    assert!(set.translate(&memory, VirtPageNum(0x10)).is_some());
    assert_eq!(set.translate(&memory, VirtPageNum(0x11)), None);
}

#[test]
fn programs_have_frames_of_their_own() {
    let file = program(2, 0x1_0040, vec![load(5, 0, 0x1_0000, 0x1200, 0x1800)], 0x2000);
    let mut memory = memory_of(256);
    let table = kernel(&mut memory);
    let mut shared = SharedPages::new();
    let mut loaded = Vec::new();
    for asid in [1, 2] {
        let made = MemorySet::load_user(
            &mut memory, &mut shared, &table, asid, TRAMPOLINE, &file, None, layout(),
        );
        loaded.push(made.ok().unwrap().0);
    }
    let mut frames = Vec::new();
    for set in &loaded {
        for page in [0x10, 0x11] {
            let frame = set.translate(&memory, VirtPageNum(page)).unwrap().ppn();
            assert_eq!(memory.users(frame), 1);
            assert!(!frames.contains(&frame));
            frames.push(frame);
        }
    }
    let stale = memory.take_stale();
    assert!(frames.iter().all(|frame| stale.iter().any(|other| other.ppn == *frame)));
    let away = (VirtPageNum(0x3ff_ffff), PhysPageNum(0x70000));
    let child = loaded[0].fork_user(&mut memory, 3, away.0, away.1).ok().unwrap();
    assert_eq!(memory.users(frames[0]), 2);
    assert_eq!(memory.users(frames[2]), 1);
    assert_eq!(child.translate(&memory, VirtPageNum(0x11)).unwrap().ppn(), frames[1]);
}
