//! What a process may use.

use vstd::prelude::*;

verus! {

/// No limit.
pub const RLIM_INFINITY: u64 = 0xffff_ffff_ffff_ffff;

/// A limit: the one that counts, and how far it may be raised.
#[derive(Clone, Copy, Debug, PartialEq, Eq, Structural)]
pub struct Rlimit {
    pub rlim_cur: u64,
    pub rlim_max: u64,
}

impl Rlimit {
    /// Makes a limit.
    pub fn new(rlim_cur: u64, rlim_max: u64) -> (limit: Self)
        ensures
            limit == (Rlimit { rlim_cur, rlim_max }),
    {
        Rlimit { rlim_cur, rlim_max }
    }
}

/// A limit as a user hands it over.
#[derive(Clone, Copy, Debug, PartialEq, Eq, Structural)]
pub struct Rlimit64 {
    pub cur_lmt: u64,
    pub max_lmt: u64,
}

/// The limits of a process.
#[derive(Clone, Copy, Debug, PartialEq, Eq, Structural)]
pub struct Rlimits {
    pub cpu: Rlimit,
    pub fsize: Rlimit,
    pub data: Rlimit,
    pub stack: Rlimit,
    pub core: Rlimit,
    pub rss: Rlimit,
    pub nproc: Rlimit,
    pub nofile: Rlimit,
    pub memlock: Rlimit,
    pub aspace: Rlimit,
    pub locks: Rlimit,
    pub sigpending: Rlimit,
    pub msgqueue: Rlimit,
    pub nice: Rlimit,
    pub rtprio: Rlimit,
    pub rttime: Rlimit,
}

/// A limit of the two numbers.
pub open spec fn limit(cur: u64, max: u64) -> Rlimit {
    Rlimit { rlim_cur: cur, rlim_max: max }
}

/// The limits that a process starts with.
pub open spec fn initial_limits() -> Rlimits {
    let none = limit(RLIM_INFINITY, RLIM_INFINITY);
    Rlimits {
        cpu: none,
        fsize: none,
        data: none,
        stack: limit(0x80_0000, RLIM_INFINITY),
        core: limit(0, RLIM_INFINITY),
        rss: none,
        nproc: limit(4096, 4096),
        nofile: limit(1024, 4096),
        memlock: limit(0x1_0000, 0x1_0000),
        aspace: none,
        locks: none,
        sigpending: limit(1024, 1024),
        msgqueue: limit(0x10_0000, 0x10_0000),
        nice: limit(0, 0),
        rtprio: limit(0, 0),
        rttime: none,
    }
}

impl Rlimits {
    /// Makes the limits that a process starts with.
    pub fn new() -> (limits: Self)
        ensures
            limits == initial_limits(),
    {
        let none = Rlimit::new(RLIM_INFINITY, RLIM_INFINITY);
        Rlimits {
            cpu: none,
            fsize: none,
            data: none,
            stack: Rlimit::new(8 * 1024 * 1024, RLIM_INFINITY),
            core: Rlimit::new(0, RLIM_INFINITY),
            rss: none,
            nproc: Rlimit::new(4096, 4096),
            nofile: Rlimit::new(1024, 4096),
            memlock: Rlimit::new(64 * 1024, 64 * 1024),
            aspace: none,
            locks: none,
            sigpending: Rlimit::new(1024, 1024),
            msgqueue: Rlimit::new(1024 * 1024, 1024 * 1024),
            nice: Rlimit::new(0, 0),
            rtprio: Rlimit::new(0, 0),
            rttime: none,
        }
    }
}

} // verus!
