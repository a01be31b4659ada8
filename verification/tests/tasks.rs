use shellcore::errno::Errno;
use shellcore::mm::address::{PageSize, PhysAddr, PhysPageNum, VirtPageNum};
use shellcore::mm::elf::{ImageLayout, LoadError};
use shellcore::mm::frame_allocator::FramePool;
use shellcore::mm::memory_set::{MemorySet, SharedPages};
use shellcore::mm::page_table::PageTable;
use shellcore::mm::phys::PhysMemory;
use shellcore::mm::pte::PTEFlags;
use shellcore::process::clone::{do_clone_thread, do_fork, NewThread};
use shellcore::process::timer::{PosixTimer, PosixTimers};
use shellcore::process::scheduler::wait::WaitQueue;
use std::collections::BTreeMap;
use shellcore::process::manager::{ProcessManager, TaskManager};
use shellcore::process::pcb::{BrkStep, ProcessControlBlock};
use shellcore::process::registry::Registry;
use shellcore::process::schedule::{TaskPool, TaskTables};
use shellcore::process::scheduler::runqueue::RqArray;
use shellcore::process::signal::action::SigHand;
use shellcore::process::signal::delivery::TaskSignals;
use shellcore::process::signal::flags::SIGCHLD;
use shellcore::process::signal::frame::TrapRegs;
use shellcore::process::signal::state::Signal;
use shellcore::process::task::clone::{
    CloneArgs, HandPlan, NewIds, CLONE_CHILD_SETTID, CLONE_SETTLS, CLONE_SIGHAND, CLONE_THREAD,
    CLONE_VFORK, CLONE_VM,
};
use shellcore::process::task::clone_run::{CloneError, MadeChild};
use shellcore::process::task::context::TaskContext;
use shellcore::process::task::cred::Cred;
use shellcore::process::task::exec::{
    adjust_args, check_executable, check_program, default_envs, exec_open_error, exec_step,
    format_mac, parse_shebang, path_components, thread_name, ExecIds, ExecStep, WalkStep,
};
use shellcore::process::task::exec_image::{start_registers, StartError};
use shellcore::process::task::exec_run::{do_exec, ExecAction, MissingFile, OpenEvent, OpenedFile};
use shellcore::process::task::exec_stack::{build_stack, list_texts, stack_need, AuxInfo};
use shellcore::process::task::exit::{
    after_exit, notify_parent, notify_parent_thread, ExitNext,
};
use shellcore::process::task::exit_run::{exit_current_and_run_next, ThreadTables};
use shellcore::process::task::files::{FdFlags, FileDescriptorTable};
use shellcore::process::task::limits::{Rlimits, RLIM_INFINITY};
use shellcore::process::task::status::TaskStatus;
use shellcore::process::task::task_fs::FsStruct;
use shellcore::process::task::tcb::TaskStruct;
use shellcore::process::task::vfork::{VforkCompletion, VforkWait};
use shellcore::process::task::worker::{
    cpu_mask, sleep_current_for_us, timer_kernel_worker, writeback_kernel_worker,
};

fn text(s: &str) -> Vec<u8> {
    s.as_bytes().to_vec()
}

fn texts(list: &[&str]) -> Vec<Vec<u8>> {
    list.iter().map(|s| text(s)).collect()
}

fn ids(pid: u64) -> NewIds {
    NewIds {
        pid,
        kernel_stack: 100 + pid,
        trap_ctx: 200 + pid,
        mm: 300 + pid,
        fs: 400 + pid,
        files: 500 + pid,
        signal_hand: 600 + pid,
        signal: 700 + pid,
        cred: 800 + pid,
        real_cred: 900 + pid,
        exec_update_lock: 1000 + pid,
        vfork_completion: 1100 + pid,
    }
}

fn first() -> TaskStruct {
    TaskStruct::first_task(ids(1), 9, 0xabc, 4, 77)
}

fn regs() -> TrapRegs {
    let mut regs = TrapRegs { x: [5; 32], pc: 0x1_0000 };
    regs.x[2] = 0x8000;
    regs
}

fn args(flags: u64) -> CloneArgs {
    CloneArgs { flags, stack: 0, ptid: 0x10, ctid: 0x20, tls: 0x30 }
}

#[test]
fn the_first_process() {
    let task = first();
    assert_eq!((task.getpid(), task.gettgid(), task.gettid()), (1, 1, 1));
    assert_eq!(task.inner.mm, Some(301));
    assert_eq!(task.inner.exe_path, text("/initproc"));
    assert_eq!(task.inner.start_time, 77);
    assert_eq!(task.inner.sched.cpus_allowed, 0b1111);
    let worker = TaskStruct::new_kernel_worker(ids(2), 9, 0x40, 0x50, 0, 4);
    assert_eq!(worker.inner.mm, None);
    assert_eq!(worker.user_mm(), Err(Errno::EINVAL));
    assert_eq!(task.user_mm(), Ok(301));
    assert_eq!(worker.inner.task_ctx.ra, 0x40);
}

#[test]
fn a_process_has_everything_of_its_own() {
    let parent = first();
    let (child, child_regs, plan) = parent
        .do_clone(args(17), &regs(), true, true, true, ids(2), 0xdef, 99)
        .ok()
        .unwrap();
    assert_eq!((child.pid, child.tgid), (2, 2));
    assert_eq!(child.inner.parent, Some(1));
    assert_eq!(child.inner.mm, Some(302));
    assert_eq!(child.inner.signal, 702);
    assert_eq!(child_regs.x[10], 0);
    assert_eq!(child_regs.x[2], 0x8000);
    assert_eq!(child_regs.pc, 0x1_0000);
    assert_eq!(plan.hand, HandPlan::Copied);
    assert!(!plan.share_mm && !plan.thread && !plan.vfork);
    let mut parent = parent;
    assert_eq!(parent.adopt_child(2, plan, true, true), Ok(2));
    assert_eq!(parent.inner.children, vec![2]);
}

#[test]
fn a_thread_shares_with_its_process() {
    let parent = first();
    let mut wanted = args(CLONE_VM | CLONE_SIGHAND | CLONE_THREAD | CLONE_SETTLS | CLONE_CHILD_SETTID);
    wanted.stack = 0x9000;
    let (child, child_regs, plan) = parent
        .do_clone(wanted, &regs(), true, true, true, ids(3), 0xdef, 99)
        .ok()
        .unwrap();
    assert_eq!((child.pid, child.tgid), (3, 1));
    assert_eq!(child.inner.mm, Some(301));
    assert_eq!(child.inner.signal, 701);
    assert_eq!(child_regs.x[2], 0x9000);
    assert_eq!(child_regs.x[4], 0x30);
    assert!(plan.thread && plan.share_mm && plan.write_child_tid);
    let mut parent = parent;
    assert_eq!(parent.adopt_child(3, plan, true, false), Err(Errno::EFAULT));
    assert_eq!(parent.adopt_child(3, plan, true, true), Ok(3));
    assert_eq!(parent.inner.children, vec![]);
}

#[test]
fn impossible_clones_are_refused() {
    let parent = first();
    let worker = TaskStruct::new_kernel_worker(ids(2), 9, 0x40, 0x50, 0, 4);
    let refused = worker.do_clone(args(17), &regs(), true, true, true, ids(3), 0, 0);
    assert!(matches!(refused, Err(Errno::EINVAL)));
    let refused =
        parent.do_clone(args(CLONE_CHILD_SETTID), &regs(), true, false, true, ids(2), 0, 0);
    assert!(matches!(refused, Err(Errno::EFAULT)));
    let mut nowhere = args(CLONE_CHILD_SETTID);
    nowhere.ctid = 0;
    let refused = parent.do_clone(nowhere, &regs(), true, true, true, ids(2), 0, 0);
    assert!(matches!(refused, Err(Errno::EFAULT)));
    let refused = parent.do_clone(args(CLONE_THREAD), &regs(), true, true, false, ids(2), 0, 0);
    assert!(matches!(refused, Err(Errno::EAGAIN)));
}

#[test]
fn parents_wait_for_a_child_with_their_memory() {
    let parent = first();
    let (child, _, plan) = parent
        .do_clone(args(CLONE_VFORK | CLONE_VM), &regs(), true, true, true, ids(2), 0, 0)
        .ok()
        .unwrap();
    assert!(plan.vfork);
    assert_eq!(child.inner.vfork_completion, Some(1102));
    let mut completion = VforkCompletion::new();
    let mut waiting = parent.inner.sched;
    assert_eq!(completion.wait(&mut waiting, false), VforkWait::Sleeping);
    assert_eq!(waiting.state, TaskStatus::BlockSaving);
    assert_eq!(completion.complete(), vec![1]);
    let mut again = parent.inner.sched;
    assert_eq!(completion.wait(&mut again, false), VforkWait::Finished);
    assert_eq!(VforkCompletion::new().wait(&mut again, true), VforkWait::Finished);
}

#[test]
fn scripts_name_their_interpreter() {
    let found = parse_shebang(&text("#! /bin/sh  -e \nrest")).ok().unwrap().unwrap();
    assert_eq!(found.path, text("/bin/sh"));
    assert_eq!(found.argument, Some(text("-e")));
    let found = parse_shebang(&text("#!/bin/sh\n")).ok().unwrap().unwrap();
    assert_eq!(found.argument, None);
    assert!(parse_shebang(&text("hello")).ok().unwrap().is_none());
    assert!(matches!(parse_shebang(&text("#!  \n")), Err(Errno::ENOEXEC)));
    assert!(matches!(parse_shebang(&vec![b'#', b'!', 0xff, 0xfe, b'\n']), Err(Errno::ENOEXEC)));
    let utf8 = parse_shebang(&text("#!/bin/\u{e9}\n")).ok().unwrap().unwrap();
    assert_eq!(utf8.path, text("/bin/\u{e9}"));
}

#[test]
fn programs_scripts_and_others() {
    let program = vec![0x7f, b'E', b'L', b'F', 0, 0];
    assert_eq!(check_program(&program), Ok(()));
    assert_eq!(check_program(&vec![0x7f]), Err(Errno::ENOEXEC));
    match exec_step(&text("/a"), &text("a"), &program, texts(&["a", "b"])) {
        Ok(ExecStep::Load(list)) => assert_eq!(list, texts(&["a", "b"])),
        _ => panic!("it is a program"),
    }
    match exec_step(&text("/s"), &text("s"), &text("#!/bin/sh -x\n"), texts(&["s", "1"])) {
        Ok(ExecStep::Interpreter(file, list)) => {
            assert_eq!(file, text("/bin/sh"));
            assert_eq!(list, texts(&["/bin/sh", "-x", "/s", "1"]));
        }
        _ => panic!("it is a script"),
    }
    let neither = exec_step(&text("/t"), &text("t"), &text("plain"), texts(&["t"]));
    assert!(matches!(neither, Err(Errno::ENOEXEC)));
}

#[test]
fn files_have_to_be_executable() {
    assert_eq!(check_executable(0o100755, true), Ok(()));
    assert_eq!(check_executable(0o100644, false), Err(Errno::EACCES));
    assert_eq!(check_executable(0o040755, true), Err(Errno::EACCES));
    assert_eq!(exec_open_error(&vec![], &vec![], None), Errno::ENOENT);
    let through_a_file = WalkStep { up: false, mode: 0o100644, found: true };
    assert_eq!(exec_open_error(&vec![], &vec![through_a_file], None), Errno::ENOTDIR);
    assert_eq!(path_components(&text("/a//b/./c")), texts(&["a", "b", "c"]));
}

#[test]
fn environments_are_completed() {
    assert_eq!(format_mac([0x02, 0, 0, 0xab, 0, 0x1f]), text("02:00:00:ab:00:1f"));
    let mut envs = texts(&["PATH=/mine"]);
    default_envs(&mut envs, [2, 0, 0, 0, 0, 1]);
    assert!(envs.contains(&text("PATH=/mine")));
    assert!(envs.len() > 1);
    let count = envs.len();
    default_envs(&mut envs, [2, 0, 0, 0, 0, 1]);
    assert_eq!(envs.len(), count);
    let mut list = texts(&["ls"]);
    adjust_args(&text("/bin/ls"), &mut list);
    assert_eq!(list[0], text("ls"));
    assert_eq!(&thread_name(&text("a-very-long-name")), b"a-very-lo\0");
}

#[test]
fn another_program_keeps_number_family_and_files() {
    let mut task = first();
    task.inner.children = vec![7];
    task.inner.signals.mark_signal_interrupted();
    let new = ExecIds { mm: 11, signal: 12, signal_hand: 13 };
    task.install_exec_image(new, text("/bin/ls"), &texts(&["ls"]), true, 500);
    assert_eq!(task.pid, 1);
    assert_eq!(task.inner.children, vec![7]);
    assert_eq!(task.inner.files, 501);
    assert_eq!(task.inner.mm, Some(11));
    assert_eq!(task.inner.exe_path, text("/bin/ls"));
    assert_eq!(&task.inner.comm[..2], b"ls");
    assert!(!task.inner.signals.signal_interrupted);
}

#[test]
fn the_stack_of_a_program() {
    let info = AuxInfo { phdr: 0x40, phent: 56, phnum: 3, entry: 0x1000, base: None };
    let list = texts(&["prog", "x"]);
    let envs = texts(&["A=1"]);
    let need = stack_need(0x10_0000, &list, &envs, info, true).unwrap();
    let image = build_stack(0x10_0000, &list, &envs, info, true);
    assert_eq!(image.sp % 16, 0);
    assert_eq!(0x10_0000 - image.sp, need);
    assert_eq!(image.words[0], 2);
    assert_eq!(image.words[1], image.arg_ptrs[0]);
    assert_eq!(image.words[2], image.arg_ptrs[1]);
    assert_eq!(image.words[3], 0);
    assert_eq!(image.words[4], image.env_ptrs[0]);
    assert_eq!(image.words[5], 0);
    assert!(image.words[6..].contains(&56));
    assert_eq!(image.argv_base, image.sp + 8);
    let all = list_texts(&image, &list, &envs);
    assert_eq!(all.len(), 4);
    assert_eq!((all[0].at, &all[0].bytes[..]), (image.arg_ptrs[0], &b"prog\0"[..]));
    let plain = build_stack(0x10_0000, &list, &envs, info, false);
    assert_eq!(plain.words, image.words);
    assert!(plain.sp >= image.sp);
}

#[test]
fn threads_and_processes_end() {
    let mut registry = Registry::new();
    registry.add_task(5, 5);
    registry.add_task(6, 5);
    registry.add_task(9, 9);
    assert_eq!(after_exit(&registry, 5, 6), ExitNext::ThreadGone);
    assert_eq!(after_exit(&registry, 9, 9), ExitNext::ProcessGone);
    assert_eq!(after_exit(&registry, 1, 1), ExitNext::Halt);
    let mut task = first();
    task.inner.children = vec![3, 4];
    assert_eq!(task.recycle_on_exit(42, 0), None);
    assert_eq!(task.inner.exit_code, 42);
    assert_eq!(task.inner.sched.state, TaskStatus::Zombie);
    assert_eq!(task.inner.mm, None);
    let mut orphans = task.take_children();
    let mut root = first();
    root.inner.children = vec![2];
    root.adopt_orphans(&mut orphans);
    assert_eq!(root.inner.children, vec![2, 3, 4]);
    let mut orphan = first();
    orphan.set_parent(1);
    assert_eq!(orphan.inner.parent, Some(1));
    let mut group = Signal::new();
    notify_parent(&mut group);
    assert_eq!(group.pending_flags().bits(), SIGCHLD);
    let mut signals = TaskSignals::new();
    assert!(notify_parent_thread(&mut signals, TaskStatus::Blocked));
    assert!(signals.signal_interrupted);
    signals.blocked.bits = SIGCHLD;
    assert!(!notify_parent_thread(&mut signals, TaskStatus::Blocked));
}

#[test]
fn the_lowest_free_descriptor_is_given() {
    let mut table = FileDescriptorTable::new(1, 2, 3);
    assert_eq!(table.alloc_fd(1024), Some(3));
    table.set_fd(3, 77, FdFlags { cloexec: true, nonblock: false }, 0);
    table.clear_fd(1);
    assert_eq!(table.alloc_fd(1024), Some(1));
    table.close_on_exec();
    assert_eq!(table.alloc_fd(1024), Some(3));
    assert_eq!(table.alloc_fd(4), None);
    assert!(table.ensure_slots(10, 1024));
    assert_eq!(table.fds.len(), 10);
    assert!(!table.ensure_slots(2000, 16));
    assert_eq!(FdFlags::from_bits(0o2000000).unwrap(), FdFlags { cloexec: true, nonblock: false });
    assert_eq!(FdFlags::from_bits(1), None);
}

#[test]
fn credentials_limits_and_places() {
    let mut cred = Cred::new(1, 2, 3, 4, 5, 6, 7, 8);
    assert_eq!((cred.uid(), cred.gid(), cred.euid(), cred.egid(), cred.sgid()), (1, 2, 3, 4, 6));
    cred.set_uid(10);
    assert_eq!((cred.uid(), cred.euid()), (10, 10));
    cred.set_ruid(11);
    assert_eq!((cred.uid(), cred.euid()), (11, 10));
    let mut fs = FsStruct::new(1, 2);
    fs.set_pwd(3);
    assert_eq!((fs.get_root(), fs.get_pwd()), (1, 3));
    let before = fs.set_umask(0o1077);
    assert_eq!(before, 0o022);
    assert_eq!(fs.umask(), 0o077);
    assert_eq!(Rlimits::new().cpu.rlim_max, RLIM_INFINITY);
    let group = Signal::new();
    assert_eq!(TaskStruct::nofile_limit(&group), group.rlimits().nofile.rlim_cur);
    let context = TaskContext::goto_trap_return(5, 6);
    assert_eq!((context.ra, context.sp), (5, 6));
    assert_eq!(TaskContext::zero_init().ra, 0);
}

#[test]
fn workers_sleep_between_rounds() {
    assert_eq!(sleep_current_for_us(5, 10), 15_000);
    assert_eq!(timer_kernel_worker(0), 10_000_000);
    assert_eq!(writeback_kernel_worker(0, 0), 1_000_000);
    assert_eq!(writeback_kernel_worker(0, 3), 3_000_000);
    assert_eq!(cpu_mask(3), 0b111);
    assert_eq!(cpu_mask(64), u64::MAX);
}

#[test]
fn control_blocks_fork_and_run_other_programs() {
    let (mut parent, thread) =
        ProcessControlBlock::first(5, 5, 50, 0x9000, 0x8000, 1, (1, 2, 3), 10, 11, 12);
    assert_eq!(parent.getpid(), 5);
    assert_eq!(parent.inner.fd_table.len(), 3);
    let (child, _, child_regs) =
        parent.fork(6, 6, 51, &thread, &regs(), Some(0x7000), 20, 21, 22);
    assert_eq!(child.getpid(), 6);
    assert_eq!(child.getppid(true), 5);
    assert_eq!(child.inner.memory_set, 51);
    assert_eq!(child.inner.fd_table.len(), 3);
    assert_eq!((child_regs.x[10], child_regs.x[2]), (5, 0x7000));
    assert_eq!(parent.inner.children, vec![6]);
    let (_, thread_regs) = parent.clone_thread(7, &thread, &regs(), None, 30, 31, 32);
    assert_eq!((thread_regs.pc, thread_regs.x[10], thread_regs.x[2]), (0x1_0000, 0, 0x8000));
    assert_eq!(parent.inner.tasks, vec![5, 7]);
    parent.exec(5, 60, 0xa000, Some(text("sh")), false);
    assert_eq!(parent.inner.memory_set, 60);
    assert_eq!(parent.inner.tasks, vec![5]);
    assert_eq!(parent.change_program_brk(0, 0xa000), BrkStep::Tell(parent.inner.program_brk));
}

#[test]
fn the_other_threads_end_where_another_program_runs() {
    let mut registry = Registry::new();
    registry.add_task(5, 5);
    registry.add_task(6, 5);
    registry.add_task(7, 7);
    registry.add_task(8, 5);
    assert_eq!(registry.remove_siblings(5, 6), vec![5, 8]);
    assert_eq!(registry.threads_of(5), vec![6]);
    assert_eq!(registry.threads_of(7), vec![7]);
    let mut sibling = first();
    sibling.retire();
    assert_eq!(sibling.inner.sched.state, TaskStatus::Zombie);
    assert_eq!(sibling.inner.mm, None);
    assert_eq!(sibling.inner.files, 501);
    let start = start_registers(0x1_0000, 0x8000, 2, 0x7000);
    assert_eq!((start.pc, start.x[2], start.x[10], start.x[11]), (0x1_0000, 0x8000, 2, 0x7000));
}

fn opened(name: &str, data: &[u8]) -> OpenEvent {
    OpenEvent::Opened(OpenedFile {
        mode: 0o100755,
        can_execute: true,
        full_path: [b"/bin/", name.as_bytes()].concat(),
        name: text(name),
        data: data.to_vec(),
    })
}

#[test]
fn a_script_runs_its_interpreter() {
    let program = [0x7f, b'E', b'L', b'F', 0];
    let mut run = do_exec(text("./s"), texts(&["s", "1"]), vec![], [2, 0, 0, 0, 0, 1]);
    assert_eq!(run.path, text("./s"));
    assert!(run.envs.contains(&text("HOME=/")));
    match run.opened(opened("s", b"#!/bin/sh -e\n")) {
        ExecAction::Open(next) => assert_eq!(next, text("/bin/sh")),
        _ => panic!("the interpreter is to be opened"),
    }
    match run.opened(opened("sh", &program)) {
        ExecAction::Load(at, data, args) => {
            assert_eq!(at, text("/bin/sh"));
            assert_eq!(data, program.to_vec());
            assert_eq!(args, texts(&["/bin/sh", "-e", "./s", "1"]));
        }
        _ => panic!("the interpreter is a program"),
    }
}

#[test]
fn some_files_do_not_run() {
    let mut run = do_exec(text("./s"), texts(&["s"]), vec![], [0; 6]);
    let missing = MissingFile { required: vec![], steps: vec![], end: None };
    assert!(matches!(
        run.opened(OpenEvent::Missing(missing)),
        ExecAction::Fail(Errno::ENOENT)
    ));
    assert!(matches!(run.opened(opened("s", b"#!/bin/t\n")), ExecAction::Open(_)));
    assert!(matches!(run.opened(opened("t", b"#!/bin/u\n")), ExecAction::Fail(Errno::ENOEXEC)));
    let mut run = do_exec(text("/d"), texts(&["d"]), vec![], [0; 6]);
    let directory = OpenEvent::Opened(OpenedFile {
        mode: 0o040755,
        can_execute: true,
        full_path: text("/d"),
        name: text("d"),
        data: vec![],
    });
    assert!(matches!(run.opened(directory), ExecAction::Fail(Errno::EACCES)));
}

const KERNEL: VirtPageNum = VirtPageNum(0x400_0123);

fn machine() -> (PhysMemory, PageTable) {
    let mut memory = PhysMemory::new(FramePool::init_frame_allocator(
        PhysAddr(0x8000_0000),
        PhysAddr(0x8000_0000 + 256 * 4096),
    ));
    let mut table = PageTable::new(&mut memory).unwrap();
    let mut flags = PTEFlags::empty();
    flags.r = true;
    flags.u = true;
    table.map(&mut memory, KERNEL, PhysPageNum(0x81234), flags, PageSize::Page4K).unwrap();
    (memory, table)
}

struct Parts {
    signal: Signal,
    fs: FsStruct,
    files: FileDescriptorTable,
    hand: SigHand,
    cred: Cred,
}

fn parts() -> Parts {
    let mut fs = FsStruct::new(1, 2);
    fs.set_pwd(7);
    let mut files = FileDescriptorTable::new(1, 2, 3);
    files.clear_fd(1);
    let cred = Cred::new(1, 2, 3, 4, 5, 6, 7, 8);
    Parts { signal: Signal::new(), fs, files, hand: SigHand::new(), cred }
}

fn child_of(
    parent: &TaskStruct,
    memory: &mut PhysMemory,
    mm: &mut MemorySet,
    own: &mut Parts,
    flags: u64,
) -> Result<MadeChild, CloneError> {
    parent.make_child(
        memory,
        mm,
        &mut own.signal,
        &own.fs,
        &own.files,
        &own.hand,
        &own.cred,
        &own.cred,
        args(flags),
        &regs(),
        true,
        true,
        true,
        ids(2),
        12,
        (VirtPageNum(0x3ff), PhysPageNum(0x70000)),
        0xdef,
        99,
    )
}

#[test]
fn a_child_process_has_copies() {
    let (mut memory, _) = machine();
    let mut mm = MemorySet::new_bare(&mut memory, 11).unwrap();
    let mut own = parts();
    let mut parent = first();
    let made = child_of(&parent, &mut memory, &mut mm, &mut own, 17).ok().unwrap();
    assert_eq!(made.objects.mm.unwrap().asid(), 12);
    assert_eq!(made.objects.fs.unwrap().get_pwd(), 7);
    let files = made.objects.files.unwrap();
    assert_eq!((files.fds.len(), files.fds[1].file, files.fds[2].file), (3, None, Some(3)));
    assert_eq!(made.objects.cred, Some((own.cred, own.cred)));
    assert!(made.objects.signal.is_some() && made.objects.signal_hand.is_some());
    assert!(made.objects.vfork_completion.is_none());
    assert_eq!(own.signal.thread_num, Signal::new().thread_num);
    let mut threads = Registry::new();
    let mut array = RqArray::new(1);
    array.scheduler_cpu_online(0);
    let mut child = made.task;
    let added =
        parent.add_child(&mut child, made.plan, true, true, &mut threads, &mut array, 0);
    assert_eq!(added, Ok(2));
    assert_eq!(parent.inner.children, vec![2]);
    assert_eq!(threads.tid2task(2), Some(2));
    assert!(child.inner.sched.on_rq);
    assert_eq!(array.rqs[0].nr_running, 1);
}

#[test]
fn a_child_thread_shares() {
    let (mut memory, _) = machine();
    let mut mm = MemorySet::new_bare(&mut memory, 11).unwrap();
    let mut own = parts();
    let parent = first();
    let before = own.signal.thread_num;
    let flags = CLONE_VM | CLONE_SIGHAND | CLONE_THREAD;
    let made = child_of(&parent, &mut memory, &mut mm, &mut own, flags).ok().unwrap();
    assert!(made.objects.mm.is_none() && made.objects.signal.is_none());
    assert!(made.objects.signal_hand.is_none() && made.objects.cred.is_none());
    assert!(made.objects.fs.is_some() && made.objects.files.is_some());
    assert_eq!(own.signal.thread_num, before + 1);
    let made = child_of(&parent, &mut memory, &mut mm, &mut own, CLONE_VFORK | CLONE_VM);
    let waits = made.ok().unwrap().objects.vfork_completion.unwrap();
    assert!(!waits.done);
    let worker = TaskStruct::new_kernel_worker(ids(5), 9, 0x40, 0x50, 0, 4);
    let refused = child_of(&worker, &mut memory, &mut mm, &mut own, 17);
    assert!(matches!(refused, Err(CloneError::Refused(Errno::EINVAL))));
    while memory.take_frame(PageSize::Page4K).is_some() {}
    let refused = child_of(&parent, &mut memory, &mut mm, &mut own, 17);
    assert!(matches!(refused, Err(CloneError::NoMemory(_))));
}

fn small_program() -> Vec<u8> {
    let mut file = vec![0u8; 0x200];
    file[0..8].copy_from_slice(&[0x7f, b'E', b'L', b'F', 2, 1, 1, 0]);
    for (at, value) in [
        (16, 2), (18, 243), (20, 1), (24, 0x40), (26, 1), (32, 64), (52, 64), (54, 56), (56, 1),
        (58, 64), (64, 1), (68, 5), (82, 1), (97, 2), (105, 2), (113, 16),
    ] {
        file[at] = value;
    }
    file
}

#[test]
fn a_thread_runs_another_program() {
    let (mut memory, table) = machine();
    let mut shared = SharedPages::new();
    let layout = ImageLayout { app_base: 0x1000_0000, app_offset: 0, stack_size: 0x8000 };
    let trampoline = (VirtPageNum(0x7ff_ffff), PhysPageNum(0x70000));
    let mut task = first();
    let mut own = parts();
    own.files.set_fd(2, 77, FdFlags { cloexec: true, nonblock: false }, 0);
    let mut threads = Registry::new();
    threads.add_task(1, 1);
    threads.add_task(4, 1);
    let new = ExecIds { mm: 11, signal: 12, signal_hand: 13 };
    let list = texts(&["ls", "-l"]);
    let envs = texts(&["A=1"]);
    let none = vec![];
    let refused = task.exec_program(
        &mut memory, &mut shared, &mut own.files, &mut threads, &table, 9, trampoline, &none, None,
        layout, &list, &envs, &own.signal, new, text("/bin/ls"), true, 500,
    );
    assert!(matches!(refused, Err(StartError::Load(LoadError::NotElf, None))));
    assert_eq!((task.inner.mm, threads.threads_of(1)), (Some(301), vec![1, 4]));
    let file = small_program();
    let done = task.exec_program(
        &mut memory, &mut shared, &mut own.files, &mut threads, &table, 9, trampoline, &file, None,
        layout, &list, &envs, &own.signal, new, text("/bin/ls"), true, 500,
    );
    let (started, _, gone) = done.ok().unwrap();
    assert_eq!(started.regs.pc, 0x1_0040);
    assert_eq!((started.regs.x[10], started.regs.x[2] % 16), (2, 0));
    assert!(started.set.pte_satisfies(&memory, KERNEL, true, false, false));
    assert_eq!(gone, vec![4]);
    assert_eq!(threads.threads_of(1), vec![1]);
    assert_eq!(own.files.fds[2].file, None);
    assert_eq!(own.files.fds[0].file, Some(1));
    assert_eq!((task.inner.mm, task.inner.signal), (Some(11), 12));
    assert_eq!(&task.inner.comm[..2], b"ls");
    let (mut block, _) =
        ProcessControlBlock::first(5, 5, 50, 0x9000, 0x8000, 1, (1, 2, 3), 10, 11, 12);
    let done = block.exec_program(
        &mut memory, &mut shared, &table, 10, trampoline, &file, None, layout, &list, &envs, 5, 60,
        false,
    );
    let started = done.ok().unwrap();
    assert_eq!(block.inner.memory_set, 60);
    assert_eq!(block.inner.heap_bottom, started.image.heap_bottom);
    assert_eq!(started.regs.x[2], started.stack.sp);
}

#[test]
fn a_forked_process_is_known_and_waits() {
    let mut tables = TaskTables {
        processes: ProcessManager::new(),
        threads: Registry::new(),
        managers: vec![TaskManager::new()],
        pool: TaskPool::new(),
    };
    let (mut parent, thread) =
        ProcessControlBlock::first(5, 5, 50, 0x9000, 0x8000, 1, (1, 2, 3), 10, 11, 12);
    let new =
        NewThread { tid: 6, trap_cx_addr: 20, trap_return: 21, stack_top: 22, policy: 0, priority: 0 };
    let (mut memory, _) = machine();
    let mut mm = MemorySet::new_bare(&mut memory, 11).unwrap();
    let trampoline = (VirtPageNum(0x3ff), PhysPageNum(0x70000));
    let made = do_fork(
        &mut tables, &mut parent, &mut memory, &mut mm, 12, trampoline, &thread, &regs(), 1,
        0x7000, 2, 6, 606, 51, new,
    );
    let child = made.ok().unwrap();
    assert_eq!((child.process.getpid(), child.pid), (6, 6));
    assert_eq!((child.regs.x[10], child.regs.x[2]), (0, 0x7000));
    assert_eq!(child.set.asid(), 12);
    assert_eq!(parent.inner.children, vec![6]);
    assert_eq!(tables.processes.get_process(6), Some(606));
    assert_eq!(tables.threads.tid2task(6), Some(6));
    assert_eq!(tables.pool.get_task_list(), vec![6]);
    let new = NewThread { tid: 8, ..new };
    let (_, _, tid) =
        do_clone_thread(&mut tables, &mut parent, &thread, &regs(), 1, 0, 2, 0, new);
    assert_eq!(tid, 8);
    assert_eq!(parent.inner.tasks, vec![5, 8]);
    assert_eq!(tables.threads.tid2task(8), Some(5));
    assert_eq!(tables.pool.get_task_list(), vec![6, 8]);
}

#[test]
fn the_first_program_starts_where_its_file_says() {
    let (mut memory, table) = machine();
    let mut shared = SharedPages::new();
    let layout = ImageLayout { app_base: 0x1000_0000, app_offset: 0, stack_size: 0x8000 };
    let trampoline = (VirtPageNum(0x7ff_ffff), PhysPageNum(0x70000));
    let file = small_program();
    let made = TaskStruct::init_proc(
        &mut memory, &mut shared, &table, 1, trampoline, &file, layout, ids(1), 9, 0xabc, 4, 77,
    );
    let (task, program) = made.ok().unwrap();
    assert_eq!((task.pid, task.inner.mm), (1, Some(301)));
    assert_eq!(program.regs.pc, 0x1_0040);
    assert_eq!(program.regs.x[2], program.image.stack_top);
    assert_eq!(program.regs.x[10], 0);
    assert!(program.set.translate(&memory, VirtPageNum(0x10)).is_some());
    let made = ProcessControlBlock::new(
        &mut memory, &mut shared, &table, 2, trampoline, &file, layout, 5, 5, 50, 1, (1, 2, 3), 10,
        11, 12,
    );
    let (block, _, program) = made.ok().unwrap();
    assert_eq!(block.getpid(), 5);
    assert_eq!(block.inner.heap_bottom, program.image.heap_bottom);
    assert_eq!(program.regs.pc, 0x1_0040);
    let none = vec![];
    let refused = TaskStruct::init_proc(
        &mut memory, &mut shared, &table, 3, trampoline, &none, layout, ids(2), 9, 0xabc, 4, 77,
    );
    assert!(matches!(refused, Err((LoadError::NotElf, None))));
}

fn running(pid: u64, parent: u64) -> TaskStruct {
    let mut task = TaskStruct::first_task(ids(pid), 9, 0xabc, 4, 77);
    task.inner.parent = Some(parent);
    task
}

fn timer_of(owner_pid: u64) -> PosixTimer {
    PosixTimer {
        owner_pid,
        clock_id: 0,
        notify: 0,
        signo: 14,
        value: 0,
        target_tid: owner_pid,
        expires_ns: None,
        interval_ns: 0,
    }
}

#[test]
fn the_end_of_a_process_is_told_and_its_children_are_taken_in() {
    let mut ending = running(5, 3);
    ending.inner.children = vec![7];
    ending.inner.vfork_completion = Some(90);
    let mut waiting = running(3, 1);
    waiting.inner.children = vec![5];
    waiting.inner.sched.state = TaskStatus::Blocked;
    let group = waiting.inner.signal;
    let mut threads = Registry::new();
    threads.add_task(1, 1);
    threads.add_task(3, 3);
    threads.add_task(5, 5);
    threads.add_task(6, 5);
    threads.add_task(7, 7);
    let mut timers = PosixTimers::new();
    timers.add_posix_timer(timer_of(5)).unwrap();
    let kept = timers.add_posix_timer(timer_of(3)).unwrap();
    let completion = VforkCompletion { done: false, waiters: WaitQueue { queue: vec![3] } };
    let mut tables = ThreadTables {
        tasks: BTreeMap::from([(1, first()), (3, waiting), (7, running(7, 5))]),
        threads,
        groups: BTreeMap::from([(group, Signal::new())]),
        waiters: BTreeMap::from([(group, WaitQueue { queue: vec![3] })]),
        completions: BTreeMap::from([(90, completion)]),
        timers,
    };
    let mut thread = running(6, 3);
    thread.tgid = 5;
    let ended = exit_current_and_run_next(&mut thread, &mut tables, 1, 0, 999);
    assert_eq!(ended.next, ExitNext::ThreadGone);
    assert!(ended.woken.is_empty() && ended.waited.is_empty());
    assert_eq!(thread.inner.sched.state, TaskStatus::Zombie);
    assert_eq!(tables.tasks[&7].inner.parent, Some(5));
    let ended = exit_current_and_run_next(&mut ending, &mut tables, 1, 42, 999);
    assert_eq!(ended.next, ExitNext::ProcessGone);
    assert_eq!(ended.space, Some(305));
    assert_eq!((ended.released, ended.woken, ended.waited), (vec![3], vec![3], vec![3]));
    assert_eq!((ending.inner.exit_code, ending.inner.mm), (42, None));
    assert!(ending.inner.children.is_empty());
    assert_eq!(tables.tasks[&7].inner.parent, Some(1));
    assert_eq!(tables.tasks[&1].inner.children, vec![7]);
    assert!(tables.tasks[&3].inner.signals.signal_interrupted);
    assert!(tables.completions[&90].done);
    assert!(tables.waiters[&group].queue.is_empty());
    assert_ne!(tables.groups[&group].shared_pending.signals.bits, 0);
    assert_eq!(tables.threads.tid2task(5), None);
    assert!(!tables.timers.delete_posix_timer(kept, 5));
    assert!(tables.timers.delete_posix_timer(kept, 3));
}

#[test]
fn what_a_stack_needs_is_exact() {
    let info = AuxInfo { phdr: 0x40, phent: 56, phnum: 3, entry: 0x1000, base: None };
    let list = texts(&["a long name of a program"]);
    let envs = texts(&["A=1", "B=22"]);
    for even in [true, false] {
        let image = build_stack(0x10_0000, &list, &envs, info, even);
        let need = stack_need(0x10_0000, &list, &envs, info, even);
        assert_eq!(need, Some(0x10_0000 - image.sp));
    }
    assert_eq!(stack_need(16, &list, &envs, info, true), None);
}

#[test]
fn a_heap_end_that_is_no_address_is_refused() {
    let (block, _) =
        ProcessControlBlock::first(5, 5, 50, 0x9000, 0x8000, 1, (1, 2, 3), 10, 11, 12);
    assert_eq!(block.change_program_brk(i64::MAX as u64 + 1, 0x9000), BrkStep::Refuse);
    assert_eq!(block.change_program_brk(i64::MAX as u64, 0x9000), BrkStep::Grow);
    assert_eq!(block.change_program_brk(0x8fff, 0x9000), BrkStep::Refuse);
}
