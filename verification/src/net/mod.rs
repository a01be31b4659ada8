//! The network.

pub mod echo;
pub mod netlink;
pub mod socket;
pub mod unix;

use crate::mm::user_buffer::{flat, UserBuffer};
use vstd::prelude::*;

verus! {

/// A piece of memory of a program.
#[derive(Clone, Copy, Debug, PartialEq, Eq, Structural)]
pub struct IoVec {
    pub iov_base: u64,
    pub iov_len: u64,
}

/// What a program hands over to send or receive a message.
#[derive(Clone, Copy, Debug, PartialEq, Eq, Structural)]
pub struct MsgHdr {
    pub msg_name: u64,
    pub msg_namelen: u32,
    pub pad1: u32,
    pub msg_iov: u64,
    pub msg_iovlen: u64,
    pub msg_control: u64,
    pub msg_controllen: u64,
    pub msg_flags: i32,
    pub pad2: i32,
}

/// Returns the bytes of a buffer in one piece.
pub fn gather(buf: &UserBuffer) -> (data: Vec<u8>)
    ensures
        data@ == buf.bytes(),
{
    let ghost s = buf.buffers@;
    let mut data: Vec<u8> = Vec::new();
    let mut i: usize = 0;
    assert(s.take(0) =~= Seq::<Vec<u8>>::empty());
    while i < buf.buffers.len()
        invariant
            i <= s.len(),
            s == buf.buffers@,
            data@ == flat(s.take(i as int)),
        decreases s.len() - i,
    {
        let mut piece = buf.buffers[i].clone();
        assert(piece@ =~= s[i as int]@);
        let ghost bytes = piece@;
        let ghost before = data@;
        data.append(&mut piece);
        assert(data@ =~= before + bytes);
        assert(s.take(i + 1).drop_last() =~= s.take(i as int));
        assert(s.take(i + 1).last() == s[i as int]);
        i = i + 1;
    }
    assert(s.take(s.len() as int) =~= s);
    data
}

} // verus!
