//! Two sockets that are connected within the machine.

use vstd::prelude::*;

use super::gather;
use crate::mm::user_buffer::{leading, least, overlaid, same_shape, UserBuffer};

verus! {

/// What a socket hands on: bytes in their order, or messages.
#[derive(Clone, Copy, Debug, PartialEq, Eq, Structural)]
pub enum UnixSocketType {
    Stream,
    Datagram,
}

/// A socket takes no more while it holds so many bytes.
pub const UNIX_SOCKET_RECV_LIMIT: usize = 65536;

/// One of two sockets.
pub struct UnixSocket {
    /// What was sent to it and not read yet.
    pub recv_queue: Vec<Vec<u8>>,
    /// The bytes of that.
    pub recv_bytes: usize,
    /// A program that looks at what arrives.
    pub attached_prog: Option<u64>,
    pub socket_type: UnixSocketType,
}

/// The bytes of messages, one after the other, from the first on.
pub open spec fn stream(queue: Seq<Vec<u8>>) -> Seq<u8>
    decreases queue.len(),
{
    if queue.len() == 0 {
        Seq::empty()
    } else {
        queue[0]@ + stream(queue.skip(1))
    }
}

/// What a reader does next.
#[derive(Clone, Copy, Debug, PartialEq, Eq, Structural)]
pub enum ReadStep {
    /// It has read so many bytes.
    Done(usize),
    /// It lets others run and tries again.
    Suspend,
}

/// What a writer does next.
#[derive(Clone, Copy, Debug, PartialEq, Eq, Structural)]
pub enum WriteStep {
    /// It has written so many bytes, and the program is to be run.
    Done(usize, Option<u64>),
    /// It lets others run and tries again.
    Suspend,
}

/// A message more adds its bytes at the end.
pub proof fn lemma_stream_push(queue: Seq<Vec<u8>>, packet: Vec<u8>)
    ensures
        stream(queue.push(packet)) == stream(queue) + packet@,
    decreases queue.len(),
{
    let n = queue.push(packet);
    if queue.len() == 0 {
        assert(n.skip(1) =~= Seq::<Vec<u8>>::empty());
        assert(stream(n.skip(1)) =~= Seq::<u8>::empty());
        assert(stream(n) =~= packet@);
        assert(stream(queue) + packet@ =~= packet@);
    } else {
        lemma_stream_push(queue.skip(1), packet);
        assert(n.skip(1) =~= queue.skip(1).push(packet));
        assert(stream(n) =~= stream(queue) + packet@);
    }
}

/// How a socket and a buffer are after a read.
pub open spec fn was_read(
    before: &UnixSocket,
    after: &UnixSocket,
    buf: &UserBuffer,
    buf_after: &UserBuffer,
    peer_closed: bool,
    signal: bool,
    step: ReadStep,
) -> bool {
    &&& after.wf()
    &&& after.attached_prog == before.attached_prog
    &&& after.socket_type == before.socket_type
    &&& same_shape(buf.buffers@, buf_after.buffers@)
    &&& if buf.bytes().len() == 0 {
        &&& step == ReadStep::Done(0)
        &&& *after == *before
        &&& buf_after.bytes() == buf.bytes()
    } else if before.recv_queue@.len() == 0 {
        &&& step == if peer_closed || signal {
            ReadStep::Done(0)
        } else {
            ReadStep::Suspend
        }
        &&& after.recv_queue@ == before.recv_queue@
        &&& buf_after.bytes() == buf.bytes()
    } else {
        let packet = before.recv_queue@[0]@;
        let n = least(packet.len(), leading(buf.buffers@));
        &&& step == ReadStep::Done(n as usize)
        &&& buf_after.bytes() == overlaid(packet.take(n as int), buf.bytes())
        &&& if n < packet.len() && before.socket_type == UnixSocketType::Stream {
            &&& after.recv_queue@.len() == before.recv_queue@.len()
            &&& after.recv_queue@[0]@ == packet.skip(n as int)
            &&& after.recv_queue@.skip(1) == before.recv_queue@.skip(1)
        } else {
            after.recv_queue@ == before.recv_queue@.skip(1)
        }
    }
}

/// How a socket is after bytes were to be sent to it.
pub open spec fn was_sent(
    before: &UnixSocket,
    after: &UnixSocket,
    buf: &UserBuffer,
    signal: bool,
    step: WriteStep,
) -> bool {
    &&& after.wf()
    &&& after.attached_prog == before.attached_prog
    &&& after.socket_type == before.socket_type
    &&& if before.recv_bytes >= UNIX_SOCKET_RECV_LIMIT {
        &&& step == if signal {
            WriteStep::Done(0, None)
        } else {
            WriteStep::Suspend
        }
        &&& after.recv_queue@ == before.recv_queue@
    } else {
        let n = least(
            buf.bytes().len(),
            (UNIX_SOCKET_RECV_LIMIT - before.recv_bytes) as nat,
        );
        if n == 0 {
            &&& step == WriteStep::Done(0, None)
            &&& after.recv_queue@ == before.recv_queue@
        } else {
            &&& step == WriteStep::Done(n as usize, before.attached_prog)
            &&& after.recv_queue@.len() == before.recv_queue@.len() + 1
            &&& after.recv_queue@.drop_last() == before.recv_queue@
            &&& after.recv_queue@.last()@ == buf.bytes().take(n as int)
        }
    }
}

impl UnixSocket {
    /// The bytes are counted.
    pub open spec fn wf(&self) -> bool {
        self.recv_bytes == stream(self.recv_queue@).len()
    }

    /// Makes a socket to which nothing was sent.
    fn new(socket_type: UnixSocketType) -> (socket: Self)
        ensures
            socket.wf(),
            socket.recv_queue@.len() == 0,
            socket.recv_bytes == 0,
            socket.attached_prog is None,
            socket.socket_type == socket_type,
    {
        UnixSocket { recv_queue: Vec::new(), recv_bytes: 0, attached_prog: None, socket_type }
    }

    /// Makes two sockets; what is written to one is read from the other.
    pub fn pair(socket_type: UnixSocketType) -> (sockets: (Self, Self))
        ensures
            sockets.0.wf() && sockets.1.wf(),
            sockets.0.recv_queue@.len() == 0 && sockets.1.recv_queue@.len() == 0,
            sockets.0.attached_prog is None && sockets.1.attached_prog is None,
            sockets.0.socket_type == socket_type && sockets.1.socket_type == socket_type,
    {
        (UnixSocket::new(socket_type), UnixSocket::new(socket_type))
    }

    /// Lets a program look at what arrives.
    pub fn attach_bpf(&mut self, prog_fd: u64)
        ensures
            *final(self) == (UnixSocket { attached_prog: Some(prog_fd), ..*old(self) }),
    {
        self.attached_prog = Some(prog_fd);
    }

    /// Tells whether a reader would not wait.
    pub fn ready_to_read(&self, peer_closed: bool) -> (yes: bool)
        ensures
            yes == (self.recv_queue@.len() > 0 || peer_closed),
    {
        self.recv_queue.len() > 0 || peer_closed
    }

    /// Tells whether one who writes to the other socket would not wait.
    pub fn ready_to_write(peer: Option<&UnixSocket>) -> (yes: bool)
        ensures
            yes == match peer {
                None => true,
                Some(other) => other.recv_bytes < UNIX_SOCKET_RECV_LIMIT,
            },
    {
        match peer {
            None => true,
            Some(other) => other.has_room(),
        }
    }

    /// Tells whether a writer to this socket would not wait.
    pub fn has_room(&self) -> (yes: bool)
        ensures
            yes == (self.recv_bytes < UNIX_SOCKET_RECV_LIMIT),
    {
        self.recv_bytes < UNIX_SOCKET_RECV_LIMIT
    }

    /// Reads what was sent first. Bytes that find no room stay for the next reader of a stream,
    /// and are lost for messages. Without anything to read, a reader waits for as long as the
    /// other socket is there and no signal arrives.
    pub fn read(&mut self, buf: &mut UserBuffer, peer_closed: bool, signal: bool) -> (step: ReadStep)
        requires
            old(self).wf(),
            old(buf).bytes().len() <= usize::MAX,
        ensures
            was_read(old(self), final(self), old(buf), final(buf), peer_closed, signal, step),
    {
        if buf.len() == 0 {
            return ReadStep::Done(0);
        }
        if self.recv_queue.len() == 0 {
            if peer_closed || signal {
                return ReadStep::Done(0);
            }
            return ReadStep::Suspend;
        }
        let ghost q = self.recv_queue@;
        let packet = self.recv_queue.remove(0);
        assert(self.recv_queue@ =~= q.skip(1));
        let len: usize = packet.len();
        assert(stream(q).len() == len + stream(q.skip(1)).len());
        self.recv_bytes = self.recv_bytes - len;
        let copied: usize = buf.write_leading(&packet);
        if copied == len {
            return ReadStep::Done(len);
        }
        if self.socket_type == UnixSocketType::Stream {
            let rest = tail(&packet, copied);
            self.recv_bytes = self.recv_bytes + rest.len();
            let ghost bytes = rest@;
            self.recv_queue.insert(0, rest);
            proof {
                assert(self.recv_queue@.skip(1) =~= q.skip(1));
                assert(self.recv_queue@[0]@ == bytes);
            }
        }
        ReadStep::Done(copied)
    }

    /// Sends bytes to this socket: as many as it has room for, as one message. Without room,
    /// a writer waits for as long as no signal arrives.
    pub fn receive(&mut self, buf: &UserBuffer, signal: bool) -> (step: WriteStep)
        requires
            old(self).wf(),
            buf.bytes().len() <= usize::MAX,
        ensures
            was_sent(old(self), final(self), buf, signal, step),
    {
        if self.recv_bytes >= UNIX_SOCKET_RECV_LIMIT {
            if signal {
                return WriteStep::Done(0, None);
            }
            return WriteStep::Suspend;
        }
        let available: usize = UNIX_SOCKET_RECV_LIMIT - self.recv_bytes;
        let mut payload = gather(buf);
        let len: usize = if payload.len() < available {
            payload.len()
        } else {
            available
        };
        if len == 0 {
            return WriteStep::Done(0, None);
        }
        payload.truncate(len);
        assert(payload@ =~= buf.bytes().take(len as int));
        self.recv_bytes = self.recv_bytes + len;
        let ghost q = self.recv_queue@;
        proof {
            lemma_stream_push(q, payload);
        }
        self.recv_queue.push(payload);
        assert(self.recv_queue@.drop_last() =~= q);
        WriteStep::Done(len, self.attached_prog)
    }
}

/// Returns bytes from a place on.
fn tail(data: &Vec<u8>, from: usize) -> (rest: Vec<u8>)
    requires
        from <= data@.len(),
    ensures
        rest@ == data@.skip(from as int),
{
    let mut rest: Vec<u8> = Vec::new();
    let mut i: usize = from;
    while i < data.len()
        invariant
            from <= i <= data@.len(),
            rest@ == data@.subrange(from as int, i as int),
        decreases data@.len() - i,
    {
        rest.push(data[i]);
        i = i + 1;
        assert(rest@ =~= data@.subrange(from as int, i as int));
    }
    assert(rest@ =~= data@.skip(from as int));
    rest
}

/// A stream keeps the bytes and their order: what is read and what is left is what was there.
pub proof fn law_stream_is_in_order(before: Seq<Vec<u8>>, after: Seq<Vec<u8>>, n: int)
    requires
        before.len() > 0,
        0 <= n <= before[0]@.len(),
        if n < before[0]@.len() {
            &&& after.len() == before.len()
            &&& after[0]@ == before[0]@.skip(n)
            &&& after.skip(1) == before.skip(1)
        } else {
            after == before.skip(1)
        },
    ensures
        before[0]@.take(n) + stream(after) == stream(before),
{
    let packet = before[0]@;
    if n < packet.len() {
        assert(packet.take(n) + (packet.skip(n) + stream(before.skip(1))) =~= packet + stream(
            before.skip(1),
        ));
    } else {
        assert(packet.take(n) =~= packet);
    }
}

/// What is sent is behind what was sent before.
pub proof fn law_sent_is_last(before: Seq<Vec<u8>>, after: Seq<Vec<u8>>)
    requires
        after.len() == before.len() + 1,
        after.drop_last() == before,
    ensures
        stream(after) == stream(before) + after.last()@,
{
    assert(after =~= before.push(after.last()));
    lemma_stream_push(before, after.last());
}

} // verus!
