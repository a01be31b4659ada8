//! On whose behalf a task acts.

use vstd::prelude::*;

verus! {

/// The users and groups of a task.
#[derive(Clone, Copy, Debug, PartialEq, Eq, Structural)]
pub struct Cred {
    pub uid: u32,
    pub gid: u32,
    pub euid: u32,
    pub egid: u32,
    pub suid: u32,
    pub sgid: u32,
    pub fsuid: u32,
    pub fsgid: u32,
}

impl Cred {
    /// Makes credentials of the given users and groups.
    pub fn new(
        uid: u32,
        gid: u32,
        euid: u32,
        egid: u32,
        suid: u32,
        sgid: u32,
        fsuid: u32,
        fsgid: u32,
    ) -> (cred: Self)
        ensures
            cred == (Cred { uid, gid, euid, egid, suid, sgid, fsuid, fsgid }),
    {
        Cred { uid, gid, euid, egid, suid, sgid, fsuid, fsgid }
    }

    /// Returns the effective user.
    pub fn euid(&self) -> (id: u32)
        ensures
            id == self.euid,
    {
        self.euid
    }

    /// Returns the effective group.
    pub fn egid(&self) -> (id: u32)
        ensures
            id == self.egid,
    {
        self.egid
    }

    /// Returns the user.
    pub fn uid(&self) -> (id: u32)
        ensures
            id == self.uid,
    {
        self.uid
    }

    /// Returns the group.
    pub fn gid(&self) -> (id: u32)
        ensures
            id == self.gid,
    {
        self.gid
    }

    /// Returns the saved group.
    pub fn sgid(&self) -> (id: u32)
        ensures
            id == self.sgid,
    {
        self.sgid
    }

    /// Sets the user alone.
    pub fn set_ruid(&mut self, uid: u32)
        ensures
            *final(self) == (Cred { uid, ..*old(self) }),
    {
        self.uid = uid;
    }

    /// Sets the user and the effective user.
    pub fn set_uid(&mut self, uid: u32)
        ensures
            *final(self) == (Cred { uid, euid: uid, ..*old(self) }),
    {
        self.uid = uid;
        self.euid = uid;
    }

    /// Sets the group and the effective group.
    pub fn set_gid(&mut self, gid: u32)
        ensures
            *final(self) == (Cred { gid, egid: gid, ..*old(self) }),
    {
        self.gid = gid;
        self.egid = gid;
    }

    /// Sets the effective user.
    pub fn set_euid(&mut self, euid: u32)
        ensures
            *final(self) == (Cred { euid, ..*old(self) }),
    {
        self.euid = euid;
    }
}

} // verus!
