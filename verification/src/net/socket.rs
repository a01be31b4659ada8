//! Sockets for connections, for messages and for packets.

use vstd::prelude::*;

use super::echo::{echo_reply, goes_to_self, is_echo_request, local_delivery};
use super::netlink::{packets, Cidr};
use super::gather;
use crate::errno::Errno;
use crate::mm::user_buffer::{leading, least, overlaid, same_shape, UserBuffer};
use crate::process::scheduler::wait::WaitQueue;

verus! {

/// The kind and the rights of a socket as a file.
pub const SOCKET_MODE: u32 = 0o140666;

/// What a program is told of a file.
#[derive(Clone, Copy, Debug, PartialEq, Eq, Structural)]
pub struct Stat {
    pub dev: u64,
    pub ino: u64,
    pub mode: u32,
    pub nlink: u32,
    pub uid: u32,
    pub gid: u32,
    pub size: u64,
}

/// Returns what a program is told of a socket.
pub fn get_stat() -> (stat: Stat)
    ensures
        stat == (Stat { dev: 0, ino: 0, mode: SOCKET_MODE, nlink: 1, uid: 0, gid: 0, size: 0 }),
{
    Stat { dev: 0, ino: 0, mode: SOCKET_MODE, nlink: 1, uid: 0, gid: 0, size: 0 }
}

/// The signals that end a wait: an alarm, and those that end a program.
pub const INTERRUPTING: u64 = 0x6102;

/// One of the signals ends a wait.
pub open spec fn interrupts(pending: u64) -> bool {
    pending & INTERRUPTING != 0
}

/// Tells whether one of the signals ends a wait.
pub fn is_interrupted(pending: u64) -> (yes: bool)
    ensures
        yes == interrupts(pending),
{
    pending & INTERRUPTING != 0
}

/// An address with a port.
#[derive(Clone, Copy, Debug, PartialEq, Eq, Structural)]
pub struct Endpoint {
    pub a: u8,
    pub b: u8,
    pub c: u8,
    pub d: u8,
    pub port: u16,
}

/// Where nothing comes from.
pub open spec fn nowhere() -> Endpoint {
    Endpoint { a: 0, b: 0, c: 0, d: 0, port: 0 }
}

/// A port that was not asked for: one of the highest, picked by the time.
pub open spec fn picked_port(now_us: u64) -> u16 {
    (now_us as int % 16384 + 49152) as u16
}

/// Returns a port that was not asked for.
pub fn ephemeral_port(now_us: u64) -> (port: u16)
    ensures
        port == picked_port(now_us),
        port >= 49152,
{
    (now_us % 16384 + 49152) as u16
}

/// Where a connection stands.
#[derive(Clone, Copy, Debug, PartialEq, Eq, Structural)]
pub enum TcpState {
    Closed,
    Listen,
    SynSent,
    SynReceived,
    Established,
    FinWait1,
    FinWait2,
    CloseWait,
    Closing,
    LastAck,
    TimeWait,
}

/// What a connection can do.
#[derive(Clone, Copy, Debug, PartialEq, Eq, Structural)]
pub struct TcpView {
    pub state: TcpState,
    /// There is something to read.
    pub can_recv: bool,
    /// Something to read can still come.
    pub may_recv: bool,
    /// There is room to write.
    pub can_send: bool,
    /// Something written can still be sent.
    pub may_send: bool,
    /// It is in use.
    pub is_active: bool,
}

/// The other side has closed the connection.
pub open spec fn is_ending(state: TcpState) -> bool {
    state == TcpState::CloseWait || state == TcpState::Closed || state == TcpState::TimeWait
        || state == TcpState::LastAck || state == TcpState::Closing
}

/// Nothing more will come.
pub open spec fn at_end(view: TcpView) -> bool {
    !view.may_recv || is_ending(view.state)
}

/// Tells whether nothing more will come.
fn nothing_comes(view: TcpView) -> (yes: bool)
    ensures
        yes == at_end(view),
{
    !view.may_recv || view.state == TcpState::CloseWait || view.state == TcpState::Closed
        || view.state == TcpState::TimeWait || view.state == TcpState::LastAck || view.state
        == TcpState::Closing
}

/// What a reader of a connection does next.
#[derive(Clone, Copy, Debug, PartialEq, Eq, Structural)]
pub enum TcpRead {
    /// It takes what has come.
    Receive,
    /// It has read all there is.
    End,
    /// It waits.
    Wait,
}

/// What a writer to a connection does next.
#[derive(Clone, Copy, Debug, PartialEq, Eq, Structural)]
pub enum TcpWrite {
    /// It sends.
    Send,
    /// It cannot send any more.
    End,
    /// It waits.
    Wait,
}

/// What one who waited does next.
#[derive(Clone, Copy, Debug, PartialEq, Eq, Structural)]
pub enum AfterWait {
    /// A signal ended the wait.
    Interrupted,
    /// It lets others run and tries again.
    Suspend,
}

/// Decides what one who waits for the network does next.
pub fn after_wait(pending: u64) -> (next: AfterWait)
    ensures
        next == if interrupts(pending) {
            AfterWait::Interrupted
        } else {
            AfterWait::Suspend
        },
{
    if is_interrupted(pending) {
        AfterWait::Interrupted
    } else {
        AfterWait::Suspend
    }
}

/// A socket for a connection.
pub struct TcpSocket {
    pub handle: u64,
    pub local_port: Option<u16>,
    pub is_listener: bool,
    pub read_waiters: WaitQueue,
}

/// The address is one of the machine itself.
pub open spec fn is_loopback(remote: Endpoint) -> bool {
    remote.a == 127
}

/// A reader would not wait.
pub open spec fn tcp_readable(is_listener: bool, view: TcpView) -> bool {
    if view.state == TcpState::Listen {
        false
    } else {
        is_listener || view.can_recv || at_end(view)
    }
}

/// A writer would not wait.
pub open spec fn tcp_writable(view: TcpView) -> bool {
    view.can_send || !view.may_send
}

/// What a reader does next.
pub open spec fn tcp_read(view: TcpView, room: usize) -> TcpRead {
    if room == 0 {
        TcpRead::End
    } else if view.can_recv {
        TcpRead::Receive
    } else if at_end(view) {
        TcpRead::End
    } else {
        TcpRead::Wait
    }
}

/// What a writer does next.
pub open spec fn tcp_write(view: TcpView, len: usize) -> TcpWrite {
    if len == 0 || !view.may_send {
        TcpWrite::End
    } else if view.can_send {
        TcpWrite::Send
    } else {
        TcpWrite::Wait
    }
}

impl TcpSocket {
    /// Makes a socket without a port.
    pub fn new(handle: u64) -> (socket: Self)
        ensures
            socket.handle == handle,
            socket.local_port is None,
            !socket.is_listener,
            socket.read_waiters.queue@.len() == 0,
    {
        TcpSocket { handle, local_port: None, is_listener: false, read_waiters: WaitQueue::new() }
    }

    /// Gets a socket ready to connect: returns its port, which is picked where it has none,
    /// and whether the other side is the machine itself.
    pub fn prepare_connect(&mut self, remote: Endpoint, now_us: u64) -> (result: (u16, bool))
        ensures
            result.0 == match old(self).local_port {
                Some(port) => port,
                None => picked_port(now_us),
            },
            result.1 == is_loopback(remote),
            *final(self) == (TcpSocket { local_port: Some(result.0), ..*old(self) }),
    {
        let port: u16 = match self.local_port {
            Some(port) => port,
            None => ephemeral_port(now_us),
        };
        self.local_port = Some(port);
        (port, remote.a == 127)
    }

    /// Returns what a program is told of an attempt to connect.
    pub fn connect_result(started: bool) -> (result: Result<(), Errno>)
        ensures
            result == if started {
                Ok::<(), Errno>(())
            } else {
                Err::<(), Errno>(Errno::ECONNREFUSED)
            },
    {
        if started {
            Ok(())
        } else {
            Err(Errno::ECONNREFUSED)
        }
    }

    /// Tells whether a reader would not wait. One that listens is ready once it does not
    /// listen any more, for then there is a connection.
    pub fn readable(&self, view: TcpView) -> (yes: bool)
        ensures
            yes == tcp_readable(self.is_listener, view),
    {
        if view.state == TcpState::Listen {
            return false;
        }
        self.is_listener || view.can_recv || nothing_comes(view)
    }

    /// Tells whether a writer would not wait.
    pub fn writable(&self, view: TcpView) -> (yes: bool)
        ensures
            yes == tcp_writable(view),
    {
        view.can_send || !view.may_send
    }

    /// Decides what a reader does next.
    pub fn read_step(&self, view: TcpView, room: usize) -> (step: TcpRead)
        ensures
            step == tcp_read(view, room),
    {
        if room == 0 {
            TcpRead::End
        } else if view.can_recv {
            TcpRead::Receive
        } else if nothing_comes(view) {
            TcpRead::End
        } else {
            TcpRead::Wait
        }
    }

    /// Decides what a writer does next.
    pub fn write_step(&self, view: TcpView, len: usize) -> (step: TcpWrite)
        ensures
            step == tcp_write(view, len),
    {
        if len == 0 || !view.may_send {
            TcpWrite::End
        } else if view.can_send {
            TcpWrite::Send
        } else {
            TcpWrite::Wait
        }
    }
}

/// Hands what has come to a reader, up to the first empty piece of its buffer; returns how many
/// bytes it got.
pub fn hand_over(data: &Vec<u8>, buf: &mut UserBuffer) -> (len: usize)
    requires
        old(buf).bytes().len() <= usize::MAX,
    ensures
        len == least(data@.len(), leading(old(buf).buffers@)),
        final(buf).bytes() == overlaid(data@.take(len as int), old(buf).bytes()),
        same_shape(old(buf).buffers@, final(buf).buffers@),
{
    buf.write_leading(data)
}

/// Why a message could not be sent.
#[derive(Clone, Copy, Debug, PartialEq, Eq, Structural)]
pub enum SendProblem {
    BufferFull,
    Unaddressable,
}

/// A socket for messages.
pub struct UdpSocket {
    pub handle: u64,
    pub remote_ep: Option<Endpoint>,
    pub local_port: Option<u16>,
    pub read_waiters: WaitQueue,
    pub write_waiters: WaitQueue,
    /// The bits that its file was opened with.
    pub flags: u32,
    /// The microseconds that a reader waits at most.
    pub recv_timeout: Option<u64>,
}

impl UdpSocket {
    /// Makes a socket without a port and without another side.
    pub fn new(handle: u64) -> (socket: Self)
        ensures
            socket.handle == handle,
            socket.remote_ep is None,
            socket.local_port is None,
            socket.read_waiters.queue@.len() == 0,
            socket.write_waiters.queue@.len() == 0,
            socket.flags == 0,
            socket.recv_timeout is None,
    {
        UdpSocket {
            handle,
            remote_ep: None,
            local_port: None,
            read_waiters: WaitQueue::new(),
            write_waiters: WaitQueue::new(),
            flags: 0,
            recv_timeout: None,
        }
    }

    /// Returns the bits that its file was opened with.
    pub fn get_flags(&self) -> (flags: u32)
        ensures
            flags == self.flags,
    {
        self.flags
    }

    /// Changes the bits of its file; that is always done.
    pub fn set_flags(&mut self, flags: u32) -> (done: bool)
        ensures
            done,
            *final(self) == (UdpSocket { flags, ..*old(self) }),
    {
        self.flags = flags;
        true
    }

    /// Returns the port to bind to: the one that is asked for, or one that is picked.
    pub fn bind_port(port: u16, now_us: u64) -> (actual: u16)
        ensures
            actual == if port == 0 {
                picked_port(now_us)
            } else {
                port
            },
    {
        if port == 0 {
            ephemeral_port(now_us)
        } else {
            port
        }
    }

    /// Notes the port, once it was to be bound.
    pub fn bind(&mut self, port: u16, bound: bool) -> (result: Result<(), Errno>)
        ensures
            result == if bound {
                Ok::<(), Errno>(())
            } else {
                Err::<(), Errno>(Errno::EADDRINUSE)
            },
            *final(self) == if bound {
                UdpSocket { local_port: Some(port), ..*old(self) }
            } else {
                *old(self)
            },
    {
        if bound {
            self.local_port = Some(port);
            Ok(())
        } else {
            Err(Errno::EADDRINUSE)
        }
    }

    /// Sets the other side; returns the port to bind to where the socket has none.
    pub fn connect(&mut self, remote: Endpoint, now_us: u64) -> (port: Option<u16>)
        ensures
            port == match old(self).local_port {
                Some(_) => None,
                None => Some(picked_port(now_us)),
            },
            *final(self) == (UdpSocket { remote_ep: Some(remote), ..*old(self) }),
    {
        self.remote_ep = Some(remote);
        match self.local_port {
            Some(_) => None,
            None => Some(ephemeral_port(now_us)),
        }
    }

    /// Forgets the other side.
    pub fn disconnect(&mut self)
        ensures
            *final(self) == (UdpSocket { remote_ep: None, ..*old(self) }),
    {
        self.remote_ep = None;
    }

    /// Returns what a program is told of an attempt to send a message.
    pub fn sendto_result(can_send: bool, len: usize, problem: Option<SendProblem>) -> (result: Result<
        usize,
        Errno,
    >)
        ensures
            result == sent(can_send, len, problem),
    {
        if !can_send {
            return Err(Errno::EAGAIN);
        }
        match problem {
            None => Ok(len),
            Some(SendProblem::BufferFull) => Err(Errno::EAGAIN),
            Some(SendProblem::Unaddressable) => Err(Errno::EDESTADDRREQ),
        }
    }
}

/// What a writer of a message does next.
#[derive(Clone, Copy, Debug, PartialEq, Eq, Structural)]
pub enum UdpWrite {
    /// It cannot send, for there is no other side.
    End,
    /// It sends to the other side.
    Send(Endpoint),
    /// It waits.
    Wait,
}

/// How one who waits for a socket does so.
#[derive(Clone, Copy, Debug, PartialEq, Eq, Structural)]
pub enum Waiting {
    /// It is put to sleep in the queue of the socket.
    Block,
    /// It lets others run and tries again.
    Suspend,
}

/// The first bytes of a place are those of a message, as far as both go.
pub open spec fn copied(data: Seq<u8>, before: Seq<u8>, after: Seq<u8>) -> bool {
    &&& after.len() == before.len()
    &&& forall|i: int|
        0 <= i < after.len() ==> #[trigger] after[i] == if i < data.len() {
            data[i]
        } else {
            before[i]
        }
}

/// What a program is told of a message that it sends.
pub open spec fn sent(can_send: bool, len: usize, problem: Option<SendProblem>) -> Result<
    usize,
    Errno,
> {
    if !can_send {
        Err::<usize, Errno>(Errno::EAGAIN)
    } else {
        match problem {
            None => Ok::<usize, Errno>(len),
            Some(SendProblem::BufferFull) => Err::<usize, Errno>(Errno::EAGAIN),
            Some(SendProblem::Unaddressable) => Err::<usize, Errno>(Errno::EDESTADDRREQ),
        }
    }
}

impl UdpSocket {
    /// Decides what a writer does next.
    pub fn write_step(&self, can_send: bool) -> (step: UdpWrite)
        ensures
            step == match self.remote_ep {
                None => UdpWrite::End,
                Some(remote) => if can_send {
                    UdpWrite::Send(remote)
                } else {
                    UdpWrite::Wait
                },
            },
    {
        match self.remote_ep {
            None => UdpWrite::End,
            Some(remote) => if can_send {
                UdpWrite::Send(remote)
            } else {
                UdpWrite::Wait
            },
        }
    }

    /// Decides how one who waits does so: only a socket that is known has queues.
    pub fn wait_step(registered: bool) -> (waiting: Waiting)
        ensures
            waiting == if registered {
                Waiting::Block
            } else {
                Waiting::Suspend
            },
    {
        if registered {
            Waiting::Block
        } else {
            Waiting::Suspend
        }
    }

    /// Puts a message into a place; returns how many bytes of it and where it came from.
    ///
    /// The bytes that find no room are lost. Where there was a message and it
    /// could not be taken, no bytes came from nowhere.
    pub fn recvfrom(
        can_recv: bool,
        message: &Option<(Vec<u8>, Endpoint)>,
        buf: &mut Vec<u8>,
    ) -> (result: Option<(usize, Endpoint)>)
        ensures
            match (can_recv, *message) {
                (false, _) => result is None && final(buf)@ == old(buf)@,
                (true, None) => result == Some((0usize, nowhere())) && final(buf)@ == old(buf)@,
                (true, Some((data, from))) => {
                    &&& result == Some((least(data@.len(), old(buf)@.len()) as usize, from))
                    &&& copied(data@, old(buf)@, final(buf)@)
                },
            },
    {
        if !can_recv {
            return None;
        }
        match message {
            None => Some((0, Endpoint { a: 0, b: 0, c: 0, d: 0, port: 0 })),
            Some((data, from)) => {
                let room: usize = buf.len();
                let len: usize = if data.len() < room {
                    data.len()
                } else {
                    room
                };
                let mut i: usize = 0;
                while i < len
                    invariant
                        i <= len,
                        len == least(data@.len(), old(buf)@.len()),
                        buf@.len() == old(buf)@.len(),
                        forall|k: int|
                            0 <= k < buf@.len() ==> #[trigger] buf@[k] == if k < i {
                                data@[k]
                            } else {
                                old(buf)@[k]
                            },
                    decreases len - i,
                {
                    buf[i] = data[i];
                    i = i + 1;
                }
                Some((len, *from))
            },
        }
    }
}

/// A socket for packets.
pub struct RawSocket {
    pub handle: u64,
    /// Packets that the machine sent to itself.
    pub local_rx_buffer: Vec<Vec<u8>>,
}

/// What becomes of a packet that is written.
pub enum RawWrite {
    /// It arrived at the machine itself; so many bytes were written.
    Local(usize),
    /// It is to be sent.
    Send(Vec<u8>),
}

/// How a socket and a buffer are after a packet was to be read.
pub open spec fn packet_read(
    before: &RawSocket,
    after: &RawSocket,
    buf: &UserBuffer,
    buf_after: &UserBuffer,
    len: Option<usize>,
) -> bool {
    &&& after.handle == before.handle
    &&& same_shape(buf.buffers@, buf_after.buffers@)
    &&& if before.local_rx_buffer@.len() == 0 {
        &&& len is None
        &&& after.local_rx_buffer@ == before.local_rx_buffer@
        &&& buf_after.bytes() == buf.bytes()
    } else {
        let packet = before.local_rx_buffer@[0]@;
        let n = least(packet.len(), leading(buf.buffers@));
        &&& len == Some(n as usize)
        &&& after.local_rx_buffer@ == before.local_rx_buffer@.skip(1)
        &&& buf_after.bytes() == overlaid(packet.take(n as int), buf.bytes())
    }
}

/// How a socket is after a packet was written to it, and what becomes of the packet.
pub open spec fn packet_written(
    before: &RawSocket,
    after: &RawSocket,
    buf: &UserBuffer,
    addrs: Seq<Cidr>,
    step: RawWrite,
) -> bool {
    &&& after.handle == before.handle
    &&& if goes_to_self(buf.bytes(), addrs) {
        &&& step matches RawWrite::Local(n) && n == buf.bytes().len()
        &&& packets(after.local_rx_buffer@) == packets(
            before.local_rx_buffer@,
        ).push(
            if is_echo_request(buf.bytes()) {
                echo_reply(buf.bytes())
            } else {
                buf.bytes()
            },
        )
    } else {
        &&& step matches RawWrite::Send(data) && data@ == buf.bytes()
        &&& after.local_rx_buffer@ == before.local_rx_buffer@
    }
}

impl RawSocket {
    /// Makes a socket without packets.
    pub fn new(handle: u64) -> (socket: Self)
        ensures
            socket.handle == handle,
            socket.local_rx_buffer@.len() == 0,
    {
        RawSocket { handle, local_rx_buffer: Vec::new() }
    }

    /// Takes a packet. One to an address of the machine arrives here, and a request to send
    /// it back is answered.
    pub fn write(&mut self, buf: &UserBuffer, addrs: &Vec<Cidr>) -> (step: RawWrite)
        requires
            buf.bytes().len() <= usize::MAX,
        ensures
            packet_written(old(self), final(self), buf, addrs@, step),
    {
        let data = gather(buf);
        let len: usize = data.len();
        match local_delivery(data, addrs) {
            Some(packet) => {
                let ghost bytes = packet@;
                self.local_rx_buffer.push(packet);
                assert(packets(self.local_rx_buffer@) =~= packets(old(self).local_rx_buffer@).push(
                    bytes,
                ));
                RawWrite::Local(len)
            },
            None => RawWrite::Send(gather(buf)),
        }
    }

    /// Reads a packet that the machine sent to itself, where there is one.
    pub fn read_local(&mut self, buf: &mut UserBuffer) -> (len: Option<usize>)
        requires
            old(buf).bytes().len() <= usize::MAX,
        ensures
            packet_read(old(self), final(self), old(buf), final(buf), len),
    {
        if self.local_rx_buffer.len() == 0 {
            return None;
        }
        let packet = self.local_rx_buffer.remove(0);
        assert(self.local_rx_buffer@ =~= old(self).local_rx_buffer@.skip(1));
        Some(hand_over(&packet, buf))
    }
}

/// The tasks that wait to read from a socket and to write to it.
pub struct SocketWaitQueue {
    pub rx_queue: WaitQueue,
    pub tx_queue: WaitQueue,
}

impl SocketWaitQueue {
    /// Makes queues without tasks.
    pub fn new() -> (queues: Self)
        ensures
            queues.rx_queue.queue@.len() == 0,
            queues.tx_queue.queue@.len() == 0,
    {
        SocketWaitQueue { rx_queue: WaitQueue::new(), tx_queue: WaitQueue::new() }
    }
}

/// A socket as it is looked at after the network was.
#[derive(Clone, Copy, Debug, PartialEq, Eq, Structural)]
pub enum SocketView {
    /// One for messages or packets, with whether it has something to read and room to write.
    Packets(bool, bool),
    /// One for a connection.
    Connection(TcpView),
    /// Another.
    Other,
}

/// What is to be done for a socket.
#[derive(Clone, Copy, Debug, PartialEq, Eq, Structural)]
pub struct PollAction {
    pub wake_reader: bool,
    pub wake_writer: bool,
    /// Nobody has it any more.
    pub dead: bool,
}

/// A reader of the socket would not wait.
pub open spec fn poll_readable(view: SocketView) -> bool {
    match view {
        SocketView::Packets(can_recv, _) => can_recv,
        SocketView::Connection(tcp) => {
            let listening = tcp.state == TcpState::Listen;
            let closed = tcp.state == TcpState::Closed;
            tcp.can_recv || (!tcp.may_recv && !listening && !closed) || (listening
                && tcp.is_active)
        },
        SocketView::Other => false,
    }
}

/// A writer to the socket would not wait.
pub open spec fn poll_writable(view: SocketView) -> bool {
    match view {
        SocketView::Packets(_, can_send) => can_send,
        SocketView::Connection(tcp) => tcp.can_send,
        SocketView::Other => false,
    }
}

/// Decides what is to be done for a socket: tasks are woken that have queues, and a connection
/// that is closed and has none is forgotten.
pub fn poll_socket(view: SocketView, registered: bool) -> (action: PollAction)
    ensures
        action == action_for(view, registered),
{
    let (can_read, can_write, closed) = match view {
        SocketView::Packets(can_recv, can_send) => (can_recv, can_send, false),
        SocketView::Connection(tcp) => {
            let listening: bool = tcp.state == TcpState::Listen;
            let is_closed: bool = tcp.state == TcpState::Closed;
            let eof: bool = !tcp.may_recv && !listening && !is_closed;
            (tcp.can_recv || eof || (listening && tcp.is_active), tcp.can_send, is_closed)
        },
        SocketView::Other => (false, false, false),
    };
    PollAction {
        wake_reader: registered && can_read,
        wake_writer: registered && can_write,
        dead: !registered && closed,
    }
}

/// The network is looked at so often in a row, as long as something happens.
pub const POLL_BUDGET: u64 = 32;

/// How often the network is looked at still.
#[derive(Clone, Copy, Debug, PartialEq, Eq, Structural)]
pub struct PollBudget {
    pub left: u64,
    /// Something has happened.
    pub changed: bool,
}

impl PollBudget {
    /// Starts with all of it.
    pub fn new() -> (budget: Self)
        ensures
            budget == (PollBudget { left: POLL_BUDGET, changed: false }),
    {
        PollBudget { left: POLL_BUDGET, changed: false }
    }

    /// Tells whether the network is to be looked at, and counts that.
    pub fn take(&mut self) -> (again: bool)
        ensures
            again == (old(self).left > 0),
            *final(self) == if again {
                PollBudget { left: (old(self).left - 1) as u64, ..*old(self) }
            } else {
                *old(self)
            },
    {
        if self.left == 0 {
            return false;
        }
        self.left = self.left - 1;
        true
    }

    /// Notes whether something has happened; where nothing has, that is the end.
    pub fn polled(&mut self, active: bool)
        ensures
            *final(self) == if active {
                PollBudget { changed: true, ..*old(self) }
            } else {
                PollBudget { left: 0, ..*old(self) }
            },
    {
        if active {
            self.changed = true;
        } else {
            self.left = 0;
        }
    }
}

/// What is to be done for a socket.
pub open spec fn action_for(view: SocketView, registered: bool) -> PollAction {
    PollAction {
        wake_reader: registered && poll_readable(view),
        wake_writer: registered && poll_writable(view),
        dead: !registered && (view matches SocketView::Connection(tcp) && tcp.state
            == TcpState::Closed),
    }
}

/// A socket that somebody has is never forgotten, and nobody is woken for one that nobody has.
pub proof fn law_registered_is_kept(view: SocketView)
    ensures
        !action_for(view, true).dead,
        !action_for(view, false).wake_reader,
        !action_for(view, false).wake_writer,
{
}

/// A reader that is told that it would not wait does not wait.
pub proof fn law_ready_reader_does_not_wait(view: TcpView)
    requires
        poll_readable(SocketView::Connection(view)),
        view.state != TcpState::Listen,
    ensures
        view.can_recv || at_end(view),
{
}

} // verus!
