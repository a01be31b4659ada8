//! Where a process stands in the file tree.

use vstd::prelude::*;

verus! {

/// The directories of a process, by number, and its mask for new files.
#[derive(Clone, Copy, Debug, PartialEq, Eq, Structural)]
pub struct FsStruct {
    root: u64,
    pwd: u64,
    umask: u32,
}

impl FsStruct {
    /// The root directory.
    pub closed spec fn root(&self) -> u64 {
        self.root
    }

    /// The working directory.
    pub closed spec fn pwd(&self) -> u64 {
        self.pwd
    }

    /// The rights that new files do not get.
    pub closed spec fn mask(&self) -> u32 {
        self.umask
    }

    /// Starts with the usual mask.
    pub fn new(root: u64, pwd: u64) -> (fs: Self)
        ensures
            fs.root() == root,
            fs.pwd() == pwd,
            fs.mask() == 0o22,
    {
        FsStruct { root, pwd, umask: 0o22 }
    }

    /// Returns the root directory.
    pub fn get_root(&self) -> (root: u64)
        ensures
            root == self.root(),
    {
        self.root
    }

    /// Returns the working directory.
    pub fn get_pwd(&self) -> (pwd: u64)
        ensures
            pwd == self.pwd(),
    {
        self.pwd
    }

    /// Changes the working directory.
    pub fn set_pwd(&mut self, pwd: u64)
        ensures
            final(self).pwd() == pwd,
            final(self).root() == old(self).root(),
            final(self).mask() == old(self).mask(),
    {
        self.pwd = pwd;
    }

    /// Returns the rights that new files do not get.
    pub fn umask(&self) -> (mask: u32)
        ensures
            mask == self.mask(),
    {
        self.umask
    }

    /// Changes the mask, of which only the rights count; returns the one before.
    pub fn set_umask(&mut self, umask: u32) -> (before: u32)
        ensures
            before == old(self).mask(),
            final(self).mask() == umask % 0o1000,
            final(self).root() == old(self).root(),
            final(self).pwd() == old(self).pwd(),
    {
        let before: u32 = self.umask;
        self.umask = umask % 0o1000;
        before
    }
}

} // verus!
