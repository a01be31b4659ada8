//! A process with its threads, where the files, the directory and the users belong to the
//! process and not to the thread.

use vstd::prelude::*;

use super::signal::action::{default_action, SignalActions};
use super::signal::flags::SignalFlags;
use super::signal::frame::TrapRegs;
use super::task::context::TaskContext;
use super::task::limits::Rlimit64;
use super::task::status::TaskStatus;
use vstd::string::StrSliceExecFns;
use vstd::string::StringSliceAdditionalSpecFns;

verus! {

/// A descriptor: the number of its file, if it has one.
#[derive(Clone, Copy, Debug, PartialEq, Eq, Structural)]
pub struct FileDescriptor {
    pub file: Option<u64>,
    pub cloexec: bool,
    pub status: u64,
}

/// A place without a file.
pub open spec fn no_file() -> FileDescriptor {
    FileDescriptor { file: None, cloexec: false, status: 0 }
}

impl FileDescriptor {
    /// Makes a place without a file.
    pub fn empty() -> (fd: Self)
        ensures
            fd == no_file(),
    {
        FileDescriptor { file: None, cloexec: false, status: 0 }
    }

    /// Makes a descriptor of a file.
    pub fn new(file: u64, cloexec: bool, status: u64) -> (fd: Self)
        ensures
            fd == (FileDescriptor { file: Some(file), cloexec, status }),
    {
        FileDescriptor { file: Some(file), cloexec, status }
    }
}

/// The first place from `i` on without a file.
pub open spec fn first_empty(s: Seq<FileDescriptor>, i: int) -> Option<int>
    decreases s.len() - i,
{
    if i < 0 || i >= s.len() {
        None
    } else if s[i].file is None {
        Some(i)
    } else {
        first_empty(s, i + 1)
    }
}

/// Tells descriptors with a file from others.
pub open spec fn has_file() -> spec_fn(FileDescriptor) -> bool {
    |fd: FileDescriptor| fd.file is Some
}

/// Tells descriptors that another program gets from others.
pub open spec fn after_exec(fd: FileDescriptor) -> FileDescriptor {
    if fd.cloexec {
        no_file()
    } else {
        fd
    }
}

/// What a process is after it went over to another program: its files but for those that
/// the program does not get, the usual answers to signals, and one thread.
pub open spec fn process_taken_over(
    before: ProcessControlBlock,
    after: ProcessControlBlock,
    caller_tid: u64,
    memory_set: u64,
    heap_bottom: u64,
    name: Option<Seq<u8>>,
    on_main_hart: bool,
) -> bool {
    &&& after.inner.fd_table@ == before.inner.fd_table@.map_values(
        |fd: FileDescriptor| after_exec(fd),
    )
    &&& forall|i: int|
        0 <= i < 64 ==> #[trigger] after.inner.signal_actions.table@[i] == default_action()
    &&& after.inner.pname@ == match name {
        Some(text) => text,
        None => before.inner.pname@,
    }
    &&& after.inner.tasks@ == before.inner.tasks@.filter(only(caller_tid))
    &&& after == (ProcessControlBlock {
        inner: ProcessControlBlockInner {
            fd_table: after.inner.fd_table,
            base_size: heap_bottom,
            heap_bottom,
            program_brk: heap_bottom,
            on_main_hart,
            signal_actions: after.inner.signal_actions,
            pname: after.inner.pname,
            memory_set,
            tasks: after.inner.tasks,
            alive_task_count: 1,
            ..before.inner
        },
        ..before
    })
}

/// A thread of a process.
pub struct ThreadInner {
    pub trap_cx_addr: u64,
    pub task_cx: TaskContext,
    pub task_status: TaskStatus,
    pub owner_hart: Option<u64>,
    pub signal_mask: SignalFlags,
    /// The signals that were held back before one was handled.
    pub signal_mask_backup: Option<SignalFlags>,
    pub handling_sig: i64,
    pub killed: bool,
    pub frozen: bool,
    /// The registers before a signal was handled.
    pub trap_ctx_backup: Option<TrapRegs>,
    pub exit_code: i32,
    pub signals: SignalFlags,
    pub clear_child_tid: u64,
}

/// A thread that starts, with the signals that another one holds back.
pub open spec fn fresh_thread(
    thread: ThreadInner,
    trap_cx_addr: u64,
    trap_return: u64,
    stack_top: u64,
    mask: SignalFlags,
    handling: i64,
) -> bool {
    &&& thread.trap_cx_addr == trap_cx_addr
    &&& thread.task_cx.ra == trap_return
    &&& thread.task_cx.sp == stack_top
    &&& thread.task_status == TaskStatus::Ready
    &&& thread.owner_hart is None
    &&& thread.signal_mask == mask
    &&& thread.handling_sig == handling
    &&& !thread.killed
    &&& !thread.frozen
    &&& thread.signal_mask_backup is None
    &&& thread.trap_ctx_backup is None
    &&& thread.exit_code == 0
    &&& thread.signals.bits == 0
    &&& thread.clear_child_tid == 0
}

impl ThreadInner {
    /// Makes a thread that starts.
    pub fn new(
        trap_cx_addr: u64,
        trap_return: u64,
        stack_top: u64,
        signal_mask: SignalFlags,
        handling_sig: i64,
    ) -> (thread: Self)
        ensures
            fresh_thread(thread, trap_cx_addr, trap_return, stack_top, signal_mask, handling_sig),
    {
        ThreadInner {
            trap_cx_addr,
            task_cx: TaskContext::goto_trap_return(trap_return, stack_top),
            task_status: TaskStatus::Ready,
            owner_hart: None,
            signal_mask,
            signal_mask_backup: None,
            handling_sig,
            killed: false,
            frozen: false,
            trap_ctx_backup: None,
            exit_code: 0,
            signals: SignalFlags::empty(),
            clear_child_tid: 0,
        }
    }
}

/// A process.
pub struct ProcessControlBlock {
    pub pid: u64,
    pub oom_score_adj: i32,
    pub inner: ProcessControlBlockInner,
}

/// What changes of a process.
pub struct ProcessControlBlockInner {
    pub on_main_hart: bool,
    pub pname: Vec<u8>,
    pub base_size: u64,
    pub memory_set: u64,
    pub parent: Option<u64>,
    pub children: Vec<u64>,
    pub heap_bottom: u64,
    pub program_brk: u64,
    pub fd_rlmt: Rlimit64,
    pub fd_table: Vec<FileDescriptor>,
    pub cwd: u64,
    pub signals: SignalFlags,
    pub signal_actions: SignalActions,
    pub exit_code: i32,
    pub uid: u32,
    pub gid: u32,
    pub euid: u32,
    pub egid: u32,
    pub umask: u32,
    pub sid: u64,
    pub pgid: u64,
    pub tasks: Vec<u64>,
    pub alive_task_count: i64,
}

/// What is to be done for a change of the end of the heap.
#[derive(Clone, Copy, Debug, PartialEq, Eq, Structural)]
pub enum BrkStep {
    /// Nothing; the end is told.
    Tell(u64),
    /// The end would be below the heap.
    Refuse,
    /// The heap gets smaller.
    Shrink,
    /// The heap gets larger.
    Grow,
}

impl ProcessControlBlockInner {
    /// Takes the lowest place without a file; none where the limit is reached.
    pub fn alloc_fd(&mut self) -> (fd: Option<usize>)
        ensures
            number_taken(*old(self), *final(self), fd),
    {
        let ghost s = self.fd_table@;
        let mut i: usize = 0;
        while i < self.fd_table.len()
            invariant
                i <= s.len(),
                *self == *old(self),
                s == old(self).fd_table@,
                first_empty(s, 0) == first_empty(s, i as int),
            decreases s.len() - i,
        {
            if self.fd_table[i].file.is_none() {
                self.fd_table[i] = FileDescriptor::empty();
                return Some(i);
            }
            i = i + 1;
        }
        let len: usize = self.fd_table.len();
        if len as u64 >= self.fd_rlmt.cur_lmt {
            return None;
        }
        self.fd_table.push(FileDescriptor::empty());
        Some(len)
    }

    /// Empties a place.
    pub fn clear_fd(&mut self, fd: usize)
        requires
            fd < old(self).fd_table@.len(),
        ensures
            final(self).fd_table@ == old(self).fd_table@.update(fd as int, no_file()),
            *final(self) == (ProcessControlBlockInner {
                fd_table: final(self).fd_table,
                ..*old(self)
            }),
    {
        self.fd_table[fd] = FileDescriptor::empty();
    }

    /// Puts a file at a place.
    pub fn set_fd(&mut self, fd: usize, file: u64, cloexec: bool, status: u64)
        requires
            fd < old(self).fd_table@.len(),
        ensures
            final(self).fd_table@ == old(self).fd_table@.update(
                fd as int,
                FileDescriptor { file: Some(file), cloexec, status },
            ),
            *final(self) == (ProcessControlBlockInner {
                fd_table: final(self).fd_table,
                ..*old(self)
            }),
    {
        self.fd_table[fd] = FileDescriptor::new(file, cloexec, status);
    }

    /// Drops the places without a file.
    pub fn recycle_fd(&mut self)
        ensures
            final(self).fd_table@ == old(self).fd_table@.filter(has_file()),
            *final(self) == (ProcessControlBlockInner {
                fd_table: final(self).fd_table,
                ..*old(self)
            }),
    {
        let ghost s = self.fd_table@;
        let ghost keep = has_file();
        let mut kept: Vec<FileDescriptor> = Vec::new();
        let mut i: usize = 0;
        assert(s.take(0) =~= Seq::<FileDescriptor>::empty());
        assert(s.take(0).filter(keep) =~= Seq::<FileDescriptor>::empty()) by {
            reveal(Seq::filter);
        }
        while i < self.fd_table.len()
            invariant
                i <= s.len(),
                *self == *old(self),
                self.fd_table@ == s,
                keep == has_file(),
                kept@ == s.take(i as int).filter(keep),
            decreases s.len() - i,
        {
            proof {
                reveal(Seq::filter);
                assert(s.take(i + 1).drop_last() =~= s.take(i as int));
            }
            let fd = self.fd_table[i];
            if fd.file.is_some() {
                kept.push(fd);
            }
            i = i + 1;
        }
        assert(s.take(s.len() as int) =~= s);
        self.fd_table = kept;
    }

    /// Returns the limit of files.
    pub fn get_rlimit64(&self) -> (limit: Rlimit64)
        ensures
            limit == self.fd_rlmt,
    {
        self.fd_rlmt
    }

    /// Changes the limit of files.
    pub fn set_rlimit64(&mut self, new_rlmt: Rlimit64)
        ensures
            *final(self) == (ProcessControlBlockInner { fd_rlmt: new_rlmt, ..*old(self) }),
    {
        self.fd_rlmt = new_rlmt;
    }

    /// Tells whether no thread is left.
    pub fn is_zombie(&self) -> (yes: bool)
        ensures
            yes == (self.alive_task_count == 0),
    {
        self.alive_task_count == 0
    }

    /// Closes the files that another program does not get.
    fn close_on_exec(&mut self)
        ensures
            final(self).fd_table@ == old(self).fd_table@.map_values(
                |fd: FileDescriptor| after_exec(fd),
            ),
            *final(self) == (ProcessControlBlockInner {
                fd_table: final(self).fd_table,
                ..*old(self)
            }),
    {
        let mut i: usize = 0;
        while i < self.fd_table.len()
            invariant
                i <= self.fd_table@.len(),
                self.fd_table@.len() == old(self).fd_table@.len(),
                *self == (ProcessControlBlockInner { fd_table: self.fd_table, ..*old(self) }),
                forall|j: int|
                    0 <= j < i ==> #[trigger] self.fd_table@[j] == after_exec(
                        old(self).fd_table@[j],
                    ),
                forall|j: int|
                    i <= j < self.fd_table@.len() ==> #[trigger] self.fd_table@[j] == old(self).fd_table@[j],
            decreases self.fd_table@.len() - i,
        {
            if self.fd_table[i].cloexec {
                self.fd_table[i] = FileDescriptor::empty();
            }
            i = i + 1;
        }
        assert(self.fd_table@ =~= old(self).fd_table@.map_values(
            |fd: FileDescriptor| after_exec(fd),
        ));
    }
}

/// The first process: it has the terminal, the usual limits and all rights.
pub open spec fn first_process(
    process: ProcessControlBlock,
    pid: u64,
    tid: u64,
    memory_set: u64,
    heap_bottom: u64,
    user_sp: u64,
    root: u64,
    terminal: (u64, u64, u64),
) -> bool {
    let p = process.inner;
    &&& process.pid == pid
    &&& process.oom_score_adj == 0
    &&& p.on_main_hart
    &&& p.pname@ == "initproc".spec_bytes()
    &&& p.base_size == user_sp
    &&& p.memory_set == memory_set
    &&& p.parent is None
    &&& p.children@.len() == 0
    &&& p.heap_bottom == heap_bottom
    &&& p.program_brk == heap_bottom
    &&& p.fd_rlmt == (Rlimit64 { cur_lmt: 1024, max_lmt: 1024 })
    &&& p.fd_table@ == seq![
        FileDescriptor { file: Some(terminal.0), cloexec: false, status: 0 },
        FileDescriptor { file: Some(terminal.1), cloexec: false, status: 0 },
        FileDescriptor { file: Some(terminal.2), cloexec: false, status: 0 },
    ]
    &&& p.cwd == root
    &&& p.signals.bits == 0
    &&& forall|i: int| 0 <= i < 64 ==> #[trigger] p.signal_actions.table@[i] == default_action()
    &&& p.exit_code == 0
    &&& p.uid == 0 && p.gid == 0 && p.euid == 0 && p.egid == 0
    &&& p.umask == 0o22
    &&& p.sid == 0
    &&& p.pgid == pid
    &&& p.tasks@ == seq![tid]
    &&& p.alive_task_count == 0
}

/// A child that has what its parent has, but for its numbers and its memory.
pub open spec fn forked_process(
    parent: ProcessControlBlock,
    child: ProcessControlBlock,
    pid: u64,
    tid: u64,
    memory_set: u64,
) -> bool {
    let p = parent.inner;
    let c = child.inner;
    &&& child.pid == pid
    &&& child.oom_score_adj == parent.oom_score_adj
    &&& !c.on_main_hart
    &&& c.pname@ == p.pname@
    &&& c.base_size == p.base_size
    &&& c.memory_set == memory_set
    &&& c.parent == Some(parent.pid)
    &&& c.children@.len() == 0
    &&& c.heap_bottom == p.heap_bottom
    &&& c.program_brk == p.program_brk
    &&& c.fd_rlmt == p.fd_rlmt
    &&& c.fd_table@ == p.fd_table@
    &&& c.cwd == p.cwd
    &&& c.signals.bits == 0
    &&& c.signal_actions == p.signal_actions
    &&& c.exit_code == 0
    &&& c.uid == p.uid && c.gid == p.gid && c.euid == p.euid && c.egid == p.egid
    &&& c.umask == p.umask
    &&& c.sid == p.sid
    &&& c.pgid == p.pgid
    &&& c.tasks@ == seq![tid]
    &&& c.alive_task_count == 1
}

impl ProcessControlBlock {
    /// Makes the first process and its thread for memory that has its program.
    pub fn first(
        pid: u64,
        tid: u64,
        memory_set: u64,
        heap_bottom: u64,
        user_sp: u64,
        root: u64,
        terminal: (u64, u64, u64),
        trap_cx_addr: u64,
        trap_return: u64,
        stack_top: u64,
    ) -> (made: (ProcessControlBlock, ThreadInner))
        ensures
            first_process(
                made.0,
                pid,
                tid,
                memory_set,
                heap_bottom,
                user_sp,
                root,
                terminal,
            ),
            fresh_thread(
                made.1,
                trap_cx_addr,
                trap_return,
                stack_top,
                SignalFlags { bits: 0 },
                -1i64,
            ),
    {
        let mut fd_table: Vec<FileDescriptor> = Vec::new();
        fd_table.push(FileDescriptor::new(terminal.0, false, 0));
        fd_table.push(FileDescriptor::new(terminal.1, false, 0));
        fd_table.push(FileDescriptor::new(terminal.2, false, 0));
        let mut tasks: Vec<u64> = Vec::new();
        tasks.push(tid);
        let process = ProcessControlBlock {
            pid,
            oom_score_adj: 0,
            inner: ProcessControlBlockInner {
                on_main_hart: true,
                pname: "initproc".as_bytes_vec(),
                base_size: user_sp,
                memory_set,
                parent: None,
                children: Vec::new(),
                heap_bottom,
                program_brk: heap_bottom,
                fd_rlmt: Rlimit64 { cur_lmt: 1024, max_lmt: 1024 },
                fd_table,
                cwd: root,
                signals: SignalFlags::empty(),
                signal_actions: SignalActions::new(),
                exit_code: 0,
                uid: 0,
                gid: 0,
                euid: 0,
                egid: 0,
                umask: 0o22,
                sid: 0,
                pgid: pid,
                tasks,
                alive_task_count: 0,
            },
        };
        assert(process.inner.fd_table@ =~= seq![
            FileDescriptor { file: Some(terminal.0), cloexec: false, status: 0 },
            FileDescriptor { file: Some(terminal.1), cloexec: false, status: 0 },
            FileDescriptor { file: Some(terminal.2), cloexec: false, status: 0 },
        ]);
        assert(process.inner.tasks@ =~= seq![tid]);
        let thread = ThreadInner::new(
            trap_cx_addr,
            trap_return,
            stack_top,
            SignalFlags::empty(),
            -1,
        );
        (process, thread)
    }

    /// Makes a child with a thread that goes on where the caller is, with the stack that is given.
    pub fn fork(
        &mut self,
        pid: u64,
        tid: u64,
        memory_set: u64,
        caller: &ThreadInner,
        regs: &TrapRegs,
        sp: Option<u64>,
        trap_cx_addr: u64,
        trap_return: u64,
        stack_top: u64,
    ) -> (made: (ProcessControlBlock, ThreadInner, TrapRegs))
        ensures
            forked_process(*old(self), made.0, pid, tid, memory_set),
            fresh_thread(
                made.1,
                trap_cx_addr,
                trap_return,
                stack_top,
                caller.signal_mask,
                caller.handling_sig,
            ),
            made.2.pc == regs.pc,
            made.2.x@ == match sp {
                Some(stack) => regs.x@.update(2, stack),
                None => regs.x@,
            },
            final(self).pid == old(self).pid,
            final(self).inner.children@ == old(self).inner.children@.push(pid),
            *final(self) == (ProcessControlBlock {
                inner: ProcessControlBlockInner {
                    children: final(self).inner.children,
                    ..old(self).inner
                },
                ..*old(self)
            }),
    {
        let p = &self.inner;
        let mut tasks: Vec<u64> = Vec::new();
        tasks.push(tid);
        let child = ProcessControlBlock {
            pid,
            oom_score_adj: self.oom_score_adj,
            inner: ProcessControlBlockInner {
                on_main_hart: false,
                pname: p.pname.clone(),
                base_size: p.base_size,
                memory_set,
                parent: Some(self.pid),
                children: Vec::new(),
                heap_bottom: p.heap_bottom,
                program_brk: p.program_brk,
                fd_rlmt: p.fd_rlmt,
                fd_table: p.fd_table.clone(),
                cwd: p.cwd,
                signals: SignalFlags::empty(),
                signal_actions: p.signal_actions,
                exit_code: 0,
                uid: p.uid,
                gid: p.gid,
                euid: p.euid,
                egid: p.egid,
                umask: p.umask,
                sid: p.sid,
                pgid: p.pgid,
                tasks,
                alive_task_count: 1,
            },
        };
        assert(child.inner.fd_table@ =~= p.fd_table@);
        assert(child.inner.tasks@ =~= seq![tid]);
        let thread = ThreadInner::new(
            trap_cx_addr,
            trap_return,
            stack_top,
            caller.signal_mask,
            caller.handling_sig,
        );
        let mut x: [u64; 32] = regs.x;
        if let Some(stack) = sp {
            x[2] = stack;
        }
        self.inner.children.push(pid);
        (child, thread, TrapRegs { x, pc: regs.pc })
    }

    /// Makes another thread, which goes on where the caller is; the call returns zero there.
    pub fn clone_thread(
        &mut self,
        tid: u64,
        caller: &ThreadInner,
        regs: &TrapRegs,
        stack: Option<u64>,
        trap_cx_addr: u64,
        trap_return: u64,
        stack_top: u64,
    ) -> (made: (ThreadInner, TrapRegs))
        requires
            old(self).inner.alive_task_count < i64::MAX,
        ensures
            fresh_thread(
                made.0,
                trap_cx_addr,
                trap_return,
                stack_top,
                caller.signal_mask,
                caller.handling_sig,
            ),
            made.1.pc == regs.pc,
            made.1.x@ == (match stack {
                Some(sp) => regs.x@.update(2, sp),
                None => regs.x@,
            }).update(10, 0),
            final(self).inner.tasks@ == old(self).inner.tasks@.push(tid),
            final(self).inner.alive_task_count == old(self).inner.alive_task_count + 1,
            *final(self) == (ProcessControlBlock {
                inner: ProcessControlBlockInner {
                    tasks: final(self).inner.tasks,
                    alive_task_count: final(self).inner.alive_task_count,
                    ..old(self).inner
                },
                ..*old(self)
            }),
    {
        let thread = ThreadInner::new(
            trap_cx_addr,
            trap_return,
            stack_top,
            caller.signal_mask,
            caller.handling_sig,
        );
        let mut x: [u64; 32] = regs.x;
        if let Some(sp) = stack {
            x[2] = sp;
        }
        x[10] = 0;
        self.inner.tasks.push(tid);
        self.inner.alive_task_count = self.inner.alive_task_count + 1;
        (thread, TrapRegs { x, pc: regs.pc })
    }

    /// Makes the process one of another program, with the thread that asked for it alone.
    pub fn exec(
        &mut self,
        caller_tid: u64,
        memory_set: u64,
        heap_bottom: u64,
        name: Option<Vec<u8>>,
        on_main_hart: bool,
    )
        ensures
            process_taken_over(
                *old(self),
                *final(self),
                caller_tid,
                memory_set,
                heap_bottom,
                match name {
                    Some(text) => Some(text@),
                    None => None,
                },
                on_main_hart,
            ),
    {
        self.inner.close_on_exec();
        self.inner.base_size = heap_bottom;
        self.inner.heap_bottom = heap_bottom;
        self.inner.program_brk = heap_bottom;
        self.inner.on_main_hart = on_main_hart;
        self.inner.signal_actions = SignalActions::new();
        if let Some(text) = name {
            self.inner.pname = text;
        }
        self.inner.memory_set = memory_set;
        let kept = keep_only(&self.inner.tasks, caller_tid);
        self.inner.tasks = kept;
        self.inner.alive_task_count = 1;
    }

    /// Returns the number of the process.
    pub fn getpid(&self) -> (pid: u64)
        ensures
            pid == self.pid,
    {
        self.pid
    }

    /// Returns the number of the parent, or zero where there is none any more.
    pub fn getppid(&self, parent_alive: bool) -> (ppid: u64)
        ensures
            ppid == match self.inner.parent {
                Some(parent) => if parent_alive {
                    parent
                } else {
                    0
                },
                None => 0,
            },
    {
        match self.inner.parent {
            Some(parent) => if parent_alive {
                parent
            } else {
                0
            },
            None => 0,
        }
    }

    /// Decides what a request to move the end of the heap asks for.
    pub fn change_program_brk(&self, addr: u64, heap_bottom: u64) -> (step: BrkStep)
        ensures
            step == if addr == 0 {
                BrkStep::Tell(self.inner.program_brk)
            } else if addr > i64::MAX || addr < heap_bottom {
                BrkStep::Refuse
            } else if addr < self.inner.program_brk {
                BrkStep::Shrink
            } else {
                BrkStep::Grow
            },
    {
        if addr == 0 {
            BrkStep::Tell(self.inner.program_brk)
        } else if addr > i64::MAX as u64 || addr < heap_bottom {
            BrkStep::Refuse
        } else if addr < self.inner.program_brk {
            BrkStep::Shrink
        } else {
            BrkStep::Grow
        }
    }

    /// Moves the end of the heap, once the memory was changed.
    pub fn brk_changed(&mut self, addr: u64, changed: bool) -> (result: Result<u64, i32>)
        ensures
            result == if changed {
                Ok::<u64, i32>(addr)
            } else {
                Err::<u64, i32>(-1i32)
            },
            *final(self) == (ProcessControlBlock {
                inner: ProcessControlBlockInner {
                    program_brk: if changed {
                        addr
                    } else {
                        old(self).inner.program_brk
                    },
                    ..old(self).inner
                },
                ..*old(self)
            }),
    {
        if changed {
            self.inner.program_brk = addr;
            Ok(addr)
        } else {
            Err(-1)
        }
    }
}

/// Tells a thread from others.
pub open spec fn only(tid: u64) -> spec_fn(u64) -> bool {
    |t: u64| t == tid
}

/// Returns a thread of those of a process.
fn keep_only(tasks: &Vec<u64>, tid: u64) -> (kept: Vec<u64>)
    ensures
        kept@ == tasks@.filter(only(tid)),
{
    let ghost keep = only(tid);
    let mut kept: Vec<u64> = Vec::new();
    let mut i: usize = 0;
    assert(tasks@.take(0) =~= Seq::<u64>::empty());
    assert(tasks@.take(0).filter(keep) =~= Seq::<u64>::empty()) by {
        reveal(Seq::filter);
    }
    while i < tasks.len()
        invariant
            i <= tasks@.len(),
            keep == only(tid),
            kept@ == tasks@.take(i as int).filter(keep),
        decreases tasks@.len() - i,
    {
        proof {
            reveal(Seq::filter);
            assert(tasks@.take(i + 1).drop_last() =~= tasks@.take(i as int));
        }
        let t: u64 = tasks[i];
        if t == tid {
            kept.push(t);
        }
        i = i + 1;
    }
    assert(tasks@.take(tasks@.len() as int) =~= tasks@);
    kept
}

/// How a process is after a number for a file was asked for.
pub open spec fn number_taken(
    before: ProcessControlBlockInner,
    after: ProcessControlBlockInner,
    fd: Option<usize>,
) -> bool {
    &&& {
        let s = before.fd_table@;
        match first_empty(s, 0) {
            Some(i) => {
                &&& fd == Some(i as usize)
                &&& after.fd_table@ == s.update(i, no_file())
            },
            None => if s.len() >= before.fd_rlmt.cur_lmt {
                &&& fd is None
                &&& after.fd_table@ == s
            } else {
                &&& fd == Some(s.len() as usize)
                &&& after.fd_table@ == s.push(no_file())
            },
        }
    }
    &&& after == (ProcessControlBlockInner {
        fd_table: after.fd_table,
        ..before
    })
}

/// A child can do what its parent can: it has the same files, users, directory and limits.
pub proof fn law_child_is_like_its_parent(
    parent: ProcessControlBlock,
    child: ProcessControlBlock,
    pid: u64,
    tid: u64,
    memory_set: u64,
)
    requires
        forked_process(parent, child, pid, tid, memory_set),
    ensures
        child.inner.fd_table@ == parent.inner.fd_table@,
        child.inner.cwd == parent.inner.cwd,
        child.inner.euid == parent.inner.euid,
        child.inner.parent == Some(parent.pid),
        child.inner.signals.bits == 0,
{
}

} // verus!
