//! What a machine starts with.

use vstd::prelude::*;

use crate::errno::Errno;
use crate::mm::boot_memory::{BootError, BootInput};
use crate::mm::heap_allocator::local_size;
use crate::mm::kernel_space::{trampolines, KernelLayout};
use crate::mm::address::{PageSize, PhysPageNum, VirtPageNum};
use crate::process::id::{taken, Numbers, StackLayout};
use crate::process::task::files::{
    first_free, number_taken, room_made, FdFlags, FileDescriptor, FileDescriptorTable,
};
use crate::process::task::limits::initial_limits;

verus! {

/// Memory is shared out in order: the image, what devices use, the kernel's heap, and frames to
/// the end. The heap has a quarter of the memory, but from 128 MiB to 1.5 GiB, and never so much
/// that fewer than 32 MiB of frames are left.
pub proof fn law_memory_is_shared_out(input: BootInput)
    requires
        input.sensible(),
        input.problem() is None,
    ensures
        ({
            let m = input.layout();
            let quarter = (input.memory_end - input.memory_start) / 4;
            let heap = m.heap_end - m.heap_start;
            &&& input.image_end <= m.dma_start < input.image_end + 4096
            &&& m.dma_start % 4096 == 0
            &&& m.dma_start + input.dma_size <= m.dma_end < m.dma_start + input.dma_size + 4096
            &&& m.dma_end % 4096 == 0
            &&& m.heap_start == m.dma_end
            &&& m.frame_start == m.heap_end
            &&& m.frame_end == input.usable_end
            &&& 0x800_0000 <= heap <= 0x6000_0000
            &&& heap % 4096 == 0
            &&& m.frame_end - m.frame_start >= 0x200_0000
            &&& 0x800_0000 <= quarter <= 0x6000_0000 && input.usable_end - m.dma_end >= quarter
                + 0x200_0000 ==> quarter - 4096 < heap <= quarter
            &&& quarter < 0x800_0000 ==> heap == 0x800_0000
            &&& quarter > 0x6000_0000 && input.usable_end - m.dma_end >= 0x6000_0000 + 0x200_0000
                ==> heap == 0x6000_0000
            &&& m.memory_start == input.memory_start
            &&& m.memory_end == input.memory_end
        }),
{
}

/// A machine cannot start for one of seven reasons, and starts without them.
pub proof fn law_why_a_machine_does_not_start(input: BootInput)
    requires
        input.sensible(),
    ensures
        ({
            let dma_start = (input.image_end + 4095) / 4096 * 4096;
            let dma_end = (dma_start + input.dma_size + 4095) / 4096 * 4096;
            let room = input.usable_end - dma_end;
            let inside = input.memory_start <= input.image_start && dma_start <= input.usable_end;
            let far = input.memory_end > 0x40_0000_0000;
            let wide = dma_start + input.dma_size > 0xffff_ffff_ffff_ffff - 4095;
            &&& input.problem() == Some(BootError::BeyondWindow) <==> far
            &&& input.problem() == Some(BootError::ImageOutside) <==> !far && !inside
            &&& input.problem() == Some(BootError::DmaOverflow) <==> !far && inside && wide
            &&& input.problem() == Some(BootError::NoRoomForDma) <==> !far && inside && !wide
                && room < 0
            &&& input.problem() == Some(BootError::NoFramePool) <==> !far && inside && !wide && 0
                <= room < 0x200_0000
            &&& input.problem() == Some(BootError::NoHeap) <==> !far && inside && !wide
                && 0x200_0000 <= room < 0x200_0000 + 0x800_0000
            &&& input.problem() is None ==> !far && inside && !wide && room >= 0x200_0000
                + 0x800_0000
        }),
{
}

/// A third of the heap is shared out evenly among the processors, in whole pages.
pub proof fn law_heaps_of_the_processors(size: int, cores: int)
    requires
        0 <= size,
        0 < cores,
    ensures
        local_size(size, cores) % 4096 == 0,
        local_size(size, cores) >= 0,
        3 * local_size(size, cores) * cores <= size,
        size / 3 < (local_size(size, cores) + 4096) * cores,
{
    let third = size / 3;
    let share = third / cores;
    let whole = share / 4096 * 4096;
    assert(share * cores <= third < (share + 1) * cores) by (nonlinear_arith)
        requires
            share == third / cores,
            cores > 0,
    ;
    assert(whole <= share < whole + 4096);
    assert(whole * cores <= share * cores && (share + 1) * cores <= (whole + 4096) * cores)
        by (nonlinear_arith)
        requires
            whole <= share < whole + 4096,
            cores > 0,
    ;
    assert(share >= 0) by (nonlinear_arith)
        requires
            share == third / cores,
            third >= 0,
            cores > 0,
    ;
    assert(3 * whole * cores == 3 * (whole * cores)) by (nonlinear_arith);
}

/// The kernel's own parts: its code is read and executed, its constants are read, all the rest
/// of memory and every device is read and written; nothing is both written and executed, and
/// nothing of it is the program's.
pub proof fn law_rights_in_the_kernel(layout: KernelLayout, i: int)
    requires
        0 <= i < layout.areas().len(),
    ensures
        layout.areas().len() == 5 + layout.mmio@.len(),
        layout.areas()[i].map_perm.r,
        !layout.areas()[i].map_perm.u,
        layout.areas()[i].map_perm.x <==> i == 0,
        layout.areas()[i].map_perm.w <==> i >= 2,
        i < 5 ==> layout.areas()[i].page_size == PageSize::Page2M,
        i >= 5 ==> layout.areas()[i].page_size == PageSize::Page4K,
        layout.areas()[0].start == layout.text.0 as int % 0x80_0000_0000 / 4096,
        layout.areas()[1].start == layout.rodata.0 as int % 0x80_0000_0000 / 4096,
        layout.areas()[2].start == layout.data.0 as int % 0x80_0000_0000 / 4096,
        layout.areas()[3].start == layout.bss.0 as int % 0x80_0000_0000 / 4096,
        layout.areas()[4].start == layout.image_end as int % 0x80_0000_0000 / 4096,
{
}

/// The code that both sides of a trap share is read and executed by both and written by none; the
/// program reaches only its own part.
pub proof fn law_trap_code(
    kernel: (VirtPageNum, PhysPageNum),
    user: (VirtPageNum, PhysPageNum),
    q: int,
)
    ensures
        q == user.0.0 ==> {
            let (entry, size) = trampolines(kernel, user, q)->Some_0;
            &&& trampolines(kernel, user, q) is Some
            &&& entry.page == user.1
            &&& entry.flags.r && entry.flags.x && entry.flags.u && !entry.flags.w && entry.flags.v
            &&& size == PageSize::Page4K
        },
        q == kernel.0.0 && q != user.0.0 ==> {
            let (entry, size) = trampolines(kernel, user, q)->Some_0;
            &&& trampolines(kernel, user, q) is Some
            &&& entry.page == kernel.1
            &&& entry.flags.r && entry.flags.x && !entry.flags.u && !entry.flags.w && entry.flags.v
            &&& size == PageSize::Page4K
        },
        q != kernel.0.0 && q != user.0.0 ==> trampolines(kernel, user, q) is None,
{
}

/// The lowest place that is free.
proof fn lemma_first_free(s: Seq<FileDescriptor>, i: int, end: int)
    requires
        0 <= i,
    ensures
        match first_free(s, i, end) {
            Some(k) => {
                &&& i <= k < end && k < s.len()
                &&& s[k].file is None
                &&& s[k].status < 0x8000_0000_0000_0000
                &&& forall|j: int|
                    i <= j < k ==> (#[trigger] s[j]).file is Some || s[j].status
                        >= 0x8000_0000_0000_0000
            },
            None => forall|j: int|
                i <= j < end && j < s.len() ==> (#[trigger] s[j]).file is Some || s[j].status
                    >= 0x8000_0000_0000_0000,
        },
    decreases end - i,
{
    if i < end && i < s.len() {
        lemma_first_free(s, i + 1, end);
    }
}

/// A new file gets the lowest number that no file has, below the limit of the process and below
/// 1024. Its place is taken from then on, and no other place changes.
pub proof fn law_lowest_number(
    before: FileDescriptorTable,
    after: FileDescriptorTable,
    limit: u64,
    fd: usize,
    j: int,
)
    requires
        number_taken(before, after, limit, Some(fd)),
        0 <= j,
    ensures
        fd < limit,
        fd < 1024,
        fd < after.fds@.len(),
        after.fds@[fd as int].file is None,
        after.fds@[fd as int].status >= 0x8000_0000_0000_0000,
        fd <= before.fds@.len(),
        fd < before.fds@.len() ==> before.fds@[fd as int].file is None,
        j < fd ==> before.fds@[j].file is Some || before.fds@[j].status >= 0x8000_0000_0000_0000,
        j != fd && j < before.fds@.len() ==> after.fds@[j] == before.fds@[j],
{
    let end: int = if limit < 1024 {
        limit as int
    } else {
        1024
    };
    lemma_first_free(before.fds@, 0, end);
}

/// There is no number for a new file only where every number below the limit is taken.
pub proof fn law_no_number(
    before: FileDescriptorTable,
    after: FileDescriptorTable,
    limit: u64,
    j: int,
)
    requires
        number_taken(before, after, limit, None),
        0 <= j < limit,
        j < 1024,
    ensures
        j < before.fds@.len(),
        before.fds@[j].file is Some || before.fds@[j].status >= 0x8000_0000_0000_0000,
        after.fds@ == before.fds@,
{
    let end: int = if limit < 1024 {
        limit as int
    } else {
        1024
    };
    lemma_first_free(before.fds@, 0, end);
}

/// Bit 0o2000000 has a file closed when another program is loaded, bit 0o4000 has it never wait.
pub proof fn law_flags_of_a_file(flags: FdFlags)
    ensures
        flags.cloexec <==> flags.value() / 0o2000000 % 2 == 1,
        flags.nonblock <==> flags.value() / 0o4000 % 2 == 1,
        flags.value() % 0o4000 == 0,
{
}

/// What the first process may use.
pub proof fn law_first_limits()
    ensures
        ({
            let l = initial_limits();
            &&& l.nofile.rlim_cur == 1024 && l.nofile.rlim_max == 4096
            &&& l.stack.rlim_cur == 8 * 1024 * 1024 && l.stack.rlim_max == 0xffff_ffff_ffff_ffff
            &&& l.nproc.rlim_cur == 4096 && l.nproc.rlim_max == 4096
            &&& l.core.rlim_cur == 0 && l.core.rlim_max == 0xffff_ffff_ffff_ffff
            &&& l.memlock.rlim_cur == 64 * 1024 && l.memlock.rlim_max == 64 * 1024
            &&& l.sigpending.rlim_cur == 1024 && l.sigpending.rlim_max == 1024
            &&& l.msgqueue.rlim_cur == 1024 * 1024 && l.msgqueue.rlim_max == 1024 * 1024
            &&& l.nice.rlim_max == 0 && l.rtprio.rlim_max == 0
            &&& l.cpu.rlim_cur == 0xffff_ffff_ffff_ffff && l.fsize.rlim_cur
                == 0xffff_ffff_ffff_ffff && l.data.rlim_cur == 0xffff_ffff_ffff_ffff
            &&& l.rss.rlim_cur == 0xffff_ffff_ffff_ffff && l.aspace.rlim_cur
                == 0xffff_ffff_ffff_ffff && l.locks.rlim_cur == 0xffff_ffff_ffff_ffff
                && l.rttime.rlim_cur == 0xffff_ffff_ffff_ffff
        }),
{
}

/// A number that was given back last is given out first; where none was, the next new one is.
/// A number that is out is not given out again.
pub proof fn law_numbers_are_used_again(before: Numbers, after: Numbers, id: u64, k: int)
    requires
        taken(before, after, id),
        0 <= k < before.free.len(),
    ensures
        id == before.free[before.free.len() - 1],
        after.next == before.next,
        after.free.len() == before.free.len() - 1,
        k < after.free.len() ==> after.free[k] == before.free[k],
{
}

/// Where none was given back, the next number is new.
pub proof fn law_new_number(before: Numbers, after: Numbers, id: u64)
    requires
        taken(before, after, id),
        before.free.len() == 0,
    ensures
        id == before.next,
        after.next == before.next + 1,
        after.free.len() == 0,
{
}

/// Stacks of the kernel lie below one another, each with a page below it that nothing uses.
pub proof fn law_place_of_a_stack(layout: StackLayout, id: int)
    requires
        0 <= id,
    ensures
        layout.top_of(0) == layout.top,
        layout.top_of(id) - layout.size - 4096 == layout.top_of(id + 1),
{
    assert((id + 1) * (layout.size + 4096) == id * (layout.size + 4096) + (layout.size + 4096))
        by (nonlinear_arith);
    assert(0 * (layout.size + 4096) == 0) by (nonlinear_arith);
}

/// The numbers by which programs know errors.
pub proof fn law_numbers_of_errors()
    ensures
        Errno::EPERM.number() == 1,
        Errno::ENOENT.number() == 2,
        Errno::ESRCH.number() == 3,
        Errno::EINTR.number() == 4,
        Errno::E2BIG.number() == 7,
        Errno::ENOEXEC.number() == 8,
        Errno::EBADF.number() == 9,
        Errno::EAGAIN.number() == 11,
        Errno::ENOMEM.number() == 12,
        Errno::EACCES.number() == 13,
        Errno::EFAULT.number() == 14,
        Errno::EEXIST.number() == 17,
        Errno::ENOTDIR.number() == 20,
        Errno::EISDIR.number() == 21,
        Errno::EINVAL.number() == 22,
        Errno::EMFILE.number() == 24,
        Errno::ENAMETOOLONG.number() == 36,
        Errno::ELOOP.number() == 40,
        Errno::EDESTADDRREQ.number() == 89,
        Errno::EADDRINUSE.number() == 98,
        Errno::ETIMEDOUT.number() == 110,
        Errno::ECONNREFUSED.number() == 111,
{
}

/// A table gets room for as many numbers as are asked for, as far as the limit of the process and
/// 1024 allow; every file stays under its number, and new places are free.
pub proof fn law_room_for_numbers(
    before: FileDescriptorTable,
    after: FileDescriptorTable,
    target_len: u64,
    limit: u64,
    done: bool,
    i: int,
)
    requires
        room_made(before, after, target_len, limit, done),
        0 <= i < after.fds@.len(),
    ensures
        done <==> target_len <= limit && target_len <= 1024,
        done ==> after.fds@.len() >= target_len && after.fds@.len() >= before.fds@.len(),
        !done ==> after.fds@ == before.fds@,
        done && i < before.fds@.len() ==> after.fds@[i] == before.fds@[i],
        done && i >= before.fds@.len() ==> after.fds@[i].file is None && after.fds@[i].status == 0
            && i < target_len,
{
}

} // verus!
