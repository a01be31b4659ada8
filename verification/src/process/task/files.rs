//! The open files of a process.

use vstd::prelude::*;

verus! {

/// The file is closed when another program is started.
pub const FD_CLOEXEC: u64 = 0o2000000;

/// Operations on the file do not wait.
pub const FD_NONBLOCK: u64 = 0o4000;

/// What is set for a descriptor.
#[derive(Clone, Copy, Debug, PartialEq, Eq, Structural)]
pub struct FdFlags {
    pub cloexec: bool,
    pub nonblock: bool,
}

impl FdFlags {
    /// The flags as a number.
    pub open spec fn value(self) -> int {
        (if self.cloexec {
            0o2000000int
        } else {
            0
        }) + (if self.nonblock {
            0o4000int
        } else {
            0
        })
    }

    /// Returns no flags.
    pub fn empty() -> (flags: Self)
        ensures
            flags == (FdFlags { cloexec: false, nonblock: false }),
    {
        FdFlags { cloexec: false, nonblock: false }
    }

    /// Returns the flags as a number.
    pub fn bits(&self) -> (bits: u64)
        ensures
            bits == self.value(),
    {
        let a: u64 = if self.cloexec {
            FD_CLOEXEC
        } else {
            0
        };
        let b: u64 = if self.nonblock {
            FD_NONBLOCK
        } else {
            0
        };
        a + b
    }

    /// Returns the flags of a number; none where another bit is set.
    pub fn from_bits(bits: u64) -> (flags: Option<Self>)
        ensures
            flags matches Some(f) ==> f.value() == bits,
            flags is None ==> forall|f: FdFlags| #[trigger] f.value() != bits,
    {
        if bits == 0 {
            Some(FdFlags { cloexec: false, nonblock: false })
        } else if bits == FD_CLOEXEC {
            Some(FdFlags { cloexec: true, nonblock: false })
        } else if bits == FD_NONBLOCK {
            Some(FdFlags { cloexec: false, nonblock: true })
        } else if bits == FD_CLOEXEC + FD_NONBLOCK {
            Some(FdFlags { cloexec: true, nonblock: true })
        } else {
            None
        }
    }
}

/// A descriptor: the number of its file, if it has one.
#[derive(Clone, Copy, Debug)]
pub struct FileDescriptor {
    pub file: Option<u64>,
    pub flags: FdFlags,
    pub status: u64,
}

/// The highest bit of a status: the place is taken, and the file is still to come.
pub const FD_STATUS_RESERVED: u64 = 0x8000_0000_0000_0000;

impl FileDescriptor {
    /// Makes a place without a file.
    pub fn empty() -> (fd: Self)
        ensures
            fd == free_place(),
    {
        FileDescriptor { file: None, flags: FdFlags::empty(), status: 0 }
    }

    /// Makes a descriptor of a file; the highest bit of the status is not kept.
    pub fn new(file: u64, flags: FdFlags, status: u64) -> (fd: Self)
        ensures
            fd == (FileDescriptor {
                file: Some(file),
                flags,
                status: status % FD_STATUS_RESERVED,
            }),
    {
        FileDescriptor { file: Some(file), flags, status: status % FD_STATUS_RESERVED }
    }

    /// Makes a place that is taken.
    pub fn reserved() -> (fd: Self)
        ensures
            fd == taken_place(),
    {
        FileDescriptor { file: None, flags: FdFlags::empty(), status: FD_STATUS_RESERVED }
    }

    /// Tells whether the place can be taken.
    pub fn is_available(&self) -> (yes: bool)
        ensures
            yes == self.is_free(),
    {
        self.file.is_none() && self.status < FD_STATUS_RESERVED
    }

    /// The place has no file, and the highest bit of its status is not set.
    pub open spec fn is_free(&self) -> bool {
        self.file is None && self.status < FD_STATUS_RESERVED
    }
}

/// A place without a file.
pub open spec fn free_place() -> FileDescriptor {
    FileDescriptor {
        file: None,
        flags: FdFlags { cloexec: false, nonblock: false },
        status: 0,
    }
}

/// A place that is taken.
pub open spec fn taken_place() -> FileDescriptor {
    FileDescriptor { status: FD_STATUS_RESERVED, ..free_place() }
}

/// The most descriptors of a process.
pub const DEFAULT_LIMIT: u64 = 1024;

/// The first free place from `i` on, before place `end`.
pub open spec fn first_free(s: Seq<FileDescriptor>, i: int, end: int) -> Option<int>
    decreases end - i,
{
    if i < 0 || i >= end || i >= s.len() {
        None
    } else if s[i].is_free() {
        Some(i)
    } else {
        first_free(s, i + 1, end)
    }
}

/// The lower of a limit and the most descriptors of a process.
pub open spec fn effective(limit: int) -> int {
    if limit < DEFAULT_LIMIT {
        limit
    } else {
        DEFAULT_LIMIT as int
    }
}

/// The descriptors of a process.
pub struct FileDescriptorTable {
    pub fds: Vec<FileDescriptor>,
    pub next_fd: u64,
}

impl FileDescriptorTable {
    /// Makes a table without descriptors.
    pub fn empty() -> (table: Self)
        ensures
            table.fds@ == Seq::<FileDescriptor>::empty(),
            table.next_fd == 0,
    {
        let table = FileDescriptorTable { fds: Vec::new(), next_fd: 0 };
        assert(table.fds@ =~= Seq::<FileDescriptor>::empty());
        table
    }

    /// Makes a table with the files for input, output and errors.
    pub fn new(stdin: u64, stdout: u64, stderr: u64) -> (table: Self)
        ensures
            table.fds@ == seq![
                FileDescriptor { file: Some(stdin), ..free_place() },
                FileDescriptor { file: Some(stdout), ..free_place() },
                FileDescriptor { file: Some(stderr), ..free_place() },
            ],
            table.next_fd == 3,
    {
        let mut fds: Vec<FileDescriptor> = Vec::new();
        fds.push(FileDescriptor::new(stdin, FdFlags::empty(), 0));
        fds.push(FileDescriptor::new(stdout, FdFlags::empty(), 0));
        fds.push(FileDescriptor::new(stderr, FdFlags::empty(), 0));
        let table = FileDescriptorTable { fds, next_fd: 3 };
        assert(table.fds@ =~= seq![
            FileDescriptor { file: Some(stdin), ..free_place() },
            FileDescriptor { file: Some(stdout), ..free_place() },
            FileDescriptor { file: Some(stderr), ..free_place() },
        ]);
        table
    }

    /// Takes the lowest free place; none where the limit is reached.
    pub fn alloc_fd(&mut self, nofile_limit: u64) -> (fd: Option<usize>)
        ensures
            number_taken(*old(self), *final(self), nofile_limit, fd),
    {
        let limit: u64 = if nofile_limit < DEFAULT_LIMIT {
            nofile_limit
        } else {
            DEFAULT_LIMIT
        };
        let ghost s = self.fds@;
        let mut i: usize = 0;
        while i < self.fds.len() && (i as u64) < limit
            invariant
                i <= s.len(),
                self.fds@ == s,
                self.next_fd == old(self).next_fd,
                limit == effective(nofile_limit as int),
                i <= limit,
                first_free(s, 0, limit as int) == first_free(s, i as int, limit as int),
                s == old(self).fds@,
            decreases s.len() - i,
        {
            if self.fds[i].is_available() {
                self.fds[i] = FileDescriptor::reserved();
                return Some(i);
            }
            i = i + 1;
        }
        if self.fds.len() as u64 >= limit {
            return None;
        }
        let fd: usize = self.fds.len();
        self.fds.push(FileDescriptor::reserved());
        Some(fd)
    }

    /// Makes the table at least so long; tells whether the limit allows that.
    pub fn ensure_slots(&mut self, target_len: u64, nofile_limit: u64) -> (done: bool)
        ensures
            room_made(*old(self), *final(self), target_len, nofile_limit, done),
    {
        let limit: u64 = if nofile_limit < DEFAULT_LIMIT {
            nofile_limit
        } else {
            DEFAULT_LIMIT
        };
        if target_len > limit {
            return false;
        }
        let ghost s = self.fds@;
        while (self.fds.len() as u64) < target_len
            invariant
                self.next_fd == old(self).next_fd,
                s.len() <= self.fds@.len(),
                self.fds@.len() <= s.len() || self.fds@.len() <= target_len,
                target_len <= DEFAULT_LIMIT,
                forall|i: int|
                    0 <= i < self.fds@.len() ==> #[trigger] self.fds@[i] == if i < s.len() {
                        s[i]
                    } else {
                        free_place()
                    },
            decreases target_len - self.fds@.len(),
        {
            self.fds.push(FileDescriptor::empty());
        }
        true
    }

    /// Puts a file at a place.
    pub fn set_fd(&mut self, fd: usize, file: u64, flags: FdFlags, status: u64)
        requires
            fd < old(self).fds@.len(),
        ensures
            final(self).next_fd == old(self).next_fd,
            final(self).fds@ == old(self).fds@.update(
                fd as int,
                FileDescriptor {
                    file: Some(file),
                    flags,
                    status: status % FD_STATUS_RESERVED,
                },
            ),
    {
        self.fds[fd] = FileDescriptor::new(file, flags, status);
    }

    /// Empties a place.
    pub fn clear_fd(&mut self, fd: usize)
        requires
            fd < old(self).fds@.len(),
        ensures
            final(self).next_fd == old(self).next_fd,
            final(self).fds@ == old(self).fds@.update(fd as int, free_place()),
    {
        self.fds[fd] = FileDescriptor::empty();
    }
}

/// How a table is after a number was asked for.
pub open spec fn number_taken(
    before: FileDescriptorTable,
    after: FileDescriptorTable,
    nofile_limit: u64,
    fd: Option<usize>,
) -> bool {
    &&& after.next_fd == before.next_fd
    &&& {
        let s = before.fds@;
        let limit = effective(nofile_limit as int);
        match first_free(s, 0, limit) {
            Some(i) => fd == Some(i as usize) && after.fds@ == s.update(
                i,
                taken_place(),
            ),
            None => if s.len() >= limit {
                fd is None && after.fds@ == s
            } else {
                fd == Some(s.len() as usize) && after.fds@ == s.push(taken_place())
            },
        }
    }
}

/// How a table is after it was to have room for so many numbers.
pub open spec fn room_made(
    before: FileDescriptorTable,
    after: FileDescriptorTable,
    target_len: u64,
    nofile_limit: u64,
    done: bool,
) -> bool {
    &&& after.next_fd == before.next_fd
    &&& done <==> target_len <= effective(nofile_limit as int)
    &&& !done ==> after.fds@ == before.fds@
    &&& done ==> {
        let s = before.fds@;
        &&& after.fds@.len() == if s.len() >= target_len {
            s.len()
        } else {
            target_len as nat
        }
        &&& forall|i: int|
            0 <= i < after.fds@.len() ==> #[trigger] after.fds@[i] == if i
                < s.len() {
                s[i]
            } else {
                free_place()
            }
    }
}

/// The place that is taken is the lowest that was free, within the limit.
pub proof fn law_lowest_free(s: Seq<FileDescriptor>, i: int, end: int, k: int)
    requires
        0 <= i <= k,
        first_free(s, i, end) matches Some(f) ==> k < f,
        first_free(s, i, end) is None ==> k < end && k < s.len(),
    ensures
        !s[k].is_free(),
    decreases k - i,
{
    if i < k {
        law_lowest_free(s, i + 1, end, k);
    }
}

} // verus!
