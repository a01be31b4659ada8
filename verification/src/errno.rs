//! The error numbers of the system-call interface.

use vstd::prelude::*;

verus! {

/// Why a system call failed.
#[derive(Clone, Copy, Debug, PartialEq, Eq, Structural)]
pub enum Errno {
    /// Operation not permitted.
    EPERM,
    /// No such file or directory.
    ENOENT,
    /// No such process.
    ESRCH,
    /// Interrupted system call.
    EINTR,
    /// Argument list too long.
    E2BIG,
    /// Not an executable.
    ENOEXEC,
    /// Bad file number.
    EBADF,
    /// Try again.
    EAGAIN,
    /// Out of memory.
    ENOMEM,
    /// Permission denied.
    EACCES,
    /// Bad address.
    EFAULT,
    /// File exists.
    EEXIST,
    /// Not a directory.
    ENOTDIR,
    /// Is a directory.
    EISDIR,
    /// Invalid argument.
    EINVAL,
    /// Too many open files.
    EMFILE,
    /// File name too long.
    ENAMETOOLONG,
    /// Too many symbolic links.
    ELOOP,
    /// Destination address required.
    EDESTADDRREQ,
    /// Address already in use.
    EADDRINUSE,
    /// Connection timed out.
    ETIMEDOUT,
    /// Connection refused.
    ECONNREFUSED,
}

impl Errno {
    /// The number of the error.
    pub open spec fn number(self) -> int {
        match self {
            Errno::EPERM => 1,
            Errno::ENOENT => 2,
            Errno::ESRCH => 3,
            Errno::EINTR => 4,
            Errno::E2BIG => 7,
            Errno::ENOEXEC => 8,
            Errno::EBADF => 9,
            Errno::EAGAIN => 11,
            Errno::ENOMEM => 12,
            Errno::EACCES => 13,
            Errno::EFAULT => 14,
            Errno::EEXIST => 17,
            Errno::ENOTDIR => 20,
            Errno::EISDIR => 21,
            Errno::EINVAL => 22,
            Errno::EMFILE => 24,
            Errno::ENAMETOOLONG => 36,
            Errno::ELOOP => 40,
            Errno::EDESTADDRREQ => 89,
            Errno::EADDRINUSE => 98,
            Errno::ETIMEDOUT => 110,
            Errno::ECONNREFUSED => 111,
        }
    }

    /// Returns the result of a system call that failed so: the number, negated.
    pub fn as_isize(&self) -> (code: isize)
        ensures
            code == -self.number(),
            -4096 < code < 0,
    {
        match self {
            Errno::EPERM => -1,
            Errno::ENOENT => -2,
            Errno::ESRCH => -3,
            Errno::EINTR => -4,
            Errno::E2BIG => -7,
            Errno::ENOEXEC => -8,
            Errno::EBADF => -9,
            Errno::EAGAIN => -11,
            Errno::ENOMEM => -12,
            Errno::EACCES => -13,
            Errno::EFAULT => -14,
            Errno::EEXIST => -17,
            Errno::ENOTDIR => -20,
            Errno::EISDIR => -21,
            Errno::EINVAL => -22,
            Errno::EMFILE => -24,
            Errno::ENAMETOOLONG => -36,
            Errno::ELOOP => -40,
            Errno::EDESTADDRREQ => -89,
            Errno::EADDRINUSE => -98,
            Errno::ETIMEDOUT => -110,
            Errno::ECONNREFUSED => -111,
        }
    }
}

} // verus!
