//! Packets and sockets: what is sent, what comes back, and who waits.

use vstd::prelude::*;

use crate::errno::Errno;
use crate::mm::user_buffer::{flat, leading, least, UserBuffer};
use crate::net::echo::{echo_reply, goes_to_self, is_echo_request};
use crate::net::netlink::{
    ack_bytes, address_answers, address_bytes, after_message, answers, done_bytes, exchange,
    fitting, header_at, header_bytes, joined, link_bytes, message_at, packets, told_address,
    with_address, Cidr, NlMsgHdr,
};
use crate::net::socket::{
    action_for, interrupts, is_loopback, nowhere, packet_read, packet_written, picked_port,
    poll_readable, poll_writable, sent, tcp_read, tcp_readable, tcp_writable, tcp_write, Endpoint,
    RawSocket, RawWrite, SendProblem, SocketView, TcpRead, TcpState, TcpView, TcpWrite,
};
use crate::net::unix::{
    lemma_stream_push, stream, was_read, was_sent, ReadStep, UnixSocket, UnixSocketType, WriteStep,
};

verus! {

/// The bytes of pieces are those of the first and those of the rest.
proof fn lemma_flat_front(s: Seq<Vec<u8>>)
    requires
        s.len() > 0,
    ensures
        flat(s).len() == s[0]@.len() + flat(s.skip(1)).len(),
    decreases s.len(),
{
    if s.len() == 1 {
        assert(s.drop_last() =~= s.skip(1));
        assert(flat(s.skip(1)).len() == 0);
    } else {
        lemma_flat_front(s.drop_last());
        assert(s.drop_last().skip(1) =~= s.skip(1).drop_last());
        assert(s.skip(1).last() == s.last());
    }
}

/// The leading bytes of a buffer are not more than it has.
proof fn lemma_leading(s: Seq<Vec<u8>>)
    ensures
        leading(s) <= flat(s).len(),
    decreases s.len(),
{
    if s.len() > 0 && s[0]@.len() > 0 {
        lemma_leading(s.skip(1));
        lemma_flat_front(s);
    }
}

/// A packet asks to be sent back where byte 9 is 1 and the first byte behind its header is 8; the
/// header has four times as many bytes as the low half of byte 0 says.
pub proof fn law_what_asks_to_be_sent_back(data: Seq<u8>)
    ensures
        is_echo_request(data) <==> {
            let h = 4 * (data[0] as int % 16);
            &&& data[9] == 1
            &&& data.len() >= h + 8
            &&& data[h] == 8
        },
{
}

/// The answer goes from the receiver to the sender: bytes 12 to 15 and 16 to 19 have changed
/// places. The first byte behind the header is 0, the check number is new, and every other byte
/// comes back as it was.
pub proof fn law_what_is_sent_back(data: Seq<u8>, i: int)
    requires
        data.len() >= 20,
        data[0] as int % 16 >= 5,
        is_echo_request(data),
        0 <= i < data.len(),
    ensures
        ({
            let h = 4 * (data[0] as int % 16);
            let back = echo_reply(data);
            &&& back.len() == data.len()
            &&& 12 <= i < 16 ==> back[i] == data[i + 4]
            &&& 16 <= i < 20 ==> back[i] == data[i - 4]
            &&& i == h ==> back[i] == 0
            &&& !(12 <= i < 20) && i != h && i != h + 2 && i != h + 3 ==> back[i] == data[i]
        }),
{
}

/// A packet stays on the machine where bytes 16 to 19 are one of its addresses; then it can be
/// read here, and a request to be sent back is read as its answer. Every other packet is sent as
/// it is.
pub proof fn law_where_a_packet_goes(
    before: &RawSocket,
    after: &RawSocket,
    buf: &UserBuffer,
    addrs: Seq<Cidr>,
    step: RawWrite,
    k: int,
)
    requires
        packet_written(before, after, buf, addrs, step),
        0 <= k < addrs.len(),
    ensures
        ({
            let data = buf.bytes();
            &&& data.len() >= 20 && data[16] == addrs[k].a && data[17] == addrs[k].b && data[18]
                == addrs[k].c && data[19] == addrs[k].d ==> {
                &&& step matches RawWrite::Local(n) && n == data.len()
                &&& after.local_rx_buffer@.len() == before.local_rx_buffer@.len() + 1
                &&& !is_echo_request(data) ==> after.local_rx_buffer@.last()@ == data
                &&& is_echo_request(data) ==> after.local_rx_buffer@.last()@ == echo_reply(data)
            }
            &&& step matches RawWrite::Send(out) ==> out@ == data && after.local_rx_buffer@
                == before.local_rx_buffer@
            &&& data.len() < 20 ==> step is Send
        }),
{
    let data = buf.bytes();
    let p = packets(after.local_rx_buffer@);
    let q = packets(before.local_rx_buffer@);
    if goes_to_self(data, addrs) {
        assert(p.last() == after.local_rx_buffer@.last()@);
        assert(p.len() == q.len() + 1);
    }
}

/// Packets are read in the order in which they came, one at a time.
pub proof fn law_packets_in_order(
    before: &RawSocket,
    after: &RawSocket,
    buf: &UserBuffer,
    buf_after: &UserBuffer,
    len: Option<usize>,
    i: int,
)
    requires
        packet_read(before, after, buf, buf_after, len),
        buf.bytes().len() <= usize::MAX,
    ensures
        before.local_rx_buffer@.len() == 0 ==> len is None && buf_after.bytes() == buf.bytes(),
        before.local_rx_buffer@.len() > 0 ==> {
            let packet = before.local_rx_buffer@[0]@;
            &&& len is Some
            &&& len->Some_0 <= packet.len()
            &&& after.local_rx_buffer@ == before.local_rx_buffer@.subrange(
                1,
                before.local_rx_buffer@.len() as int,
            )
            &&& 0 <= i < len->Some_0 ==> buf_after.bytes()[i] == packet[i]
            &&& len->Some_0 <= i < buf.bytes().len() ==> buf_after.bytes()[i] == buf.bytes()[i]
        },
{
    lemma_leading(buf.buffers@);
}

/// A connection on which a reader is told that there is no wait gives it bytes or the end, and
/// one on which there is a wait makes it wait; the same holds for a writer.
pub proof fn law_told_and_done(view: TcpView, room: usize)
    requires
        room > 0,
        view.state != TcpState::Listen,
    ensures
        tcp_readable(false, view) <==> tcp_read(view, room) != TcpRead::Wait,
        tcp_writable(view) <==> tcp_write(view, room) != TcpWrite::Wait,
{
}

/// Bytes that have come are read before the end is told, and the end is told where none can come
/// any more: the other side has closed, or the connection is over.
pub proof fn law_reading_a_connection(view: TcpView, room: usize)
    requires
        room > 0,
    ensures
        tcp_read(view, room) == TcpRead::Receive <==> view.can_recv,
        !view.can_recv && !view.may_recv ==> tcp_read(view, room) == TcpRead::End,
        !view.can_recv && view.may_recv && (view.state == TcpState::Established || view.state
            == TcpState::SynSent || view.state == TcpState::SynReceived || view.state
            == TcpState::Listen || view.state == TcpState::FinWait1 || view.state
            == TcpState::FinWait2) ==> tcp_read(view, room) == TcpRead::Wait,
        !view.can_recv && (view.state == TcpState::CloseWait || view.state == TcpState::Closed
            || view.state == TcpState::TimeWait || view.state == TcpState::LastAck || view.state
            == TcpState::Closing) ==> tcp_read(view, room) == TcpRead::End,
        tcp_read(view, 0) == TcpRead::End,
{
}

/// A writer writes where there is room, waits where there may be room, and ends where nothing can
/// be sent any more.
pub proof fn law_writing_a_connection(view: TcpView, len: usize)
    requires
        len > 0,
    ensures
        tcp_write(view, len) == TcpWrite::Send <==> view.may_send && view.can_send,
        tcp_write(view, len) == TcpWrite::Wait <==> view.may_send && !view.can_send,
        tcp_write(view, len) == TcpWrite::End <==> !view.may_send,
        tcp_write(view, 0) == TcpWrite::End,
{
}

/// One that listens is ready to be read from once it does not listen any more.
pub proof fn law_listening(view: TcpView, is_listener: bool)
    ensures
        view.state == TcpState::Listen ==> !tcp_readable(is_listener, view),
        view.state != TcpState::Listen ==> tcp_readable(true, view),
        view.can_recv && view.state != TcpState::Listen ==> tcp_readable(is_listener, view),
{
}

/// Readers are woken where there is something to read, where the other side of a connection has
/// closed, or where one that listens has a caller; writers where there is room.
pub proof fn law_who_is_woken_by_the_network(tcp: TcpView, can_recv: bool, can_send: bool)
    ensures
        poll_readable(SocketView::Packets(can_recv, can_send)) <==> can_recv,
        poll_writable(SocketView::Packets(can_recv, can_send)) <==> can_send,
        poll_writable(SocketView::Connection(tcp)) <==> tcp.can_send,
        tcp.can_recv ==> poll_readable(SocketView::Connection(tcp)),
        tcp.state == TcpState::Listen && !tcp.can_recv ==> (poll_readable(
            SocketView::Connection(tcp),
        ) <==> tcp.is_active),
        tcp.state == TcpState::Established && !tcp.can_recv ==> (poll_readable(
            SocketView::Connection(tcp),
        ) <==> !tcp.may_recv),
        tcp.state == TcpState::Closed && !tcp.can_recv ==> !poll_readable(
            SocketView::Connection(tcp),
        ),
{
}

/// A wait for the network is ended by four signals, 2, 9, 14 and 15, and by no others.
pub proof fn law_what_ends_a_wait(pending: u64, k: u64)
    requires
        k < 64,
    ensures
        pending & (1u64 << k) != 0 && (k == 1 || k == 8 || k == 13 || k == 14) ==> interrupts(
            pending,
        ),
        pending == 1u64 << k && k != 1 && k != 8 && k != 13 && k != 14 ==> !interrupts(pending),
        !interrupts(0),
{
    assert(pending & (1u64 << k) != 0 && (k == 1 || k == 8 || k == 13 || k == 14) ==> pending
        & 0x6102 != 0) by (bit_vector);
    assert(pending == 1u64 << k && k != 1 && k != 8 && k != 13 && k != 14 && k < 64 ==> pending
        & 0x6102 == 0) by (bit_vector);
    assert(0u64 & 0x6102 == 0) by (bit_vector);
}

/// A port that is picked is one of those from 49152 to 65535.
pub proof fn law_picked_port(now_us: u64)
    ensures
        49152 <= picked_port(now_us) <= 65535,
        now_us < 16384 ==> picked_port(now_us) == 49152 + now_us,
        now_us + 16384 <= u64::MAX ==> picked_port((now_us + 16384) as u64) == picked_port(now_us),
{
}

/// A message that can be sent is sent whole; one that finds no room is to be tried again, and one
/// that has nowhere to go is told so.
pub proof fn law_sent_message(can_send: bool, len: usize, problem: Option<SendProblem>)
    ensures
        sent(can_send, len, problem) == Ok::<usize, Errno>(len) <==> can_send && problem is None,
        sent(can_send, len, problem) == Err::<usize, Errno>(Errno::EDESTADDRREQ) <==> can_send
            && problem == Some(SendProblem::Unaddressable),
        sent(can_send, len, problem) == Err::<usize, Errno>(Errno::EAGAIN) <==> !can_send || problem
            == Some(SendProblem::BufferFull),
{
}

/// Bytes that are sent to a socket are read from it behind all that was sent before. At most
/// 65536 wait; a writer that finds no room waits, unless a signal comes.
pub proof fn law_sent_bytes_arrive(
    before: &UnixSocket,
    after: &UnixSocket,
    buf: &UserBuffer,
    signal: bool,
    step: WriteStep,
)
    requires
        was_sent(before, after, buf, signal, step),
        before.wf(),
        before.recv_bytes <= 65536,
    ensures
        after.recv_bytes <= 65536,
        step is Suspend <==> before.recv_bytes == 65536 && !signal,
        step matches WriteStep::Done(n, program) ==> {
            &&& n <= buf.bytes().len()
            &&& stream(after.recv_queue@) == stream(before.recv_queue@) + buf.bytes().subrange(
                0,
                n as int,
            )
            &&& n == buf.bytes().len() || after.recv_bytes == 65536
            &&& n > 0 ==> program == before.attached_prog
            &&& n == 0 ==> program is None
        },
        step is Suspend ==> after.recv_queue@ == before.recv_queue@,
{
    if after.recv_queue@ != before.recv_queue@ {
        let q = before.recv_queue@;
        let last = after.recv_queue@.last();
        assert(after.recv_queue@ =~= q.push(last));
        lemma_stream_push(q, last);
    } else {
        assert(stream(before.recv_queue@) + buf.bytes().subrange(0, 0) =~= stream(
            before.recv_queue@,
        ));
    }
}

/// A reader gets the bytes that were sent first, in their order. Of a stream every byte that it
/// has no room for stays; of a message the rest is lost. Where nothing was sent it waits, unless
/// the other side is gone or a signal comes.
pub proof fn law_read_bytes(
    before: &UnixSocket,
    after: &UnixSocket,
    buf: &UserBuffer,
    buf_after: &UserBuffer,
    peer_closed: bool,
    signal: bool,
    step: ReadStep,
    i: int,
)
    requires
        was_read(before, after, buf, buf_after, peer_closed, signal, step),
        0 < buf.bytes().len() <= usize::MAX,
    ensures
        step is Suspend <==> before.recv_queue@.len() == 0 && !peer_closed && !signal,
        step is Suspend ==> after.recv_queue@ == before.recv_queue@ && buf_after.bytes()
            == buf.bytes(),
        step matches ReadStep::Done(n) ==> {
            &&& n <= stream(before.recv_queue@).len()
            &&& n <= buf.bytes().len()
            &&& 0 <= i < n ==> buf_after.bytes()[i] == stream(before.recv_queue@)[i]
            &&& n <= i < buf.bytes().len() ==> buf_after.bytes()[i] == buf.bytes()[i]
            &&& before.socket_type == UnixSocketType::Stream ==> stream(after.recv_queue@)
                == stream(before.recv_queue@).subrange(
                n as int,
                stream(before.recv_queue@).len() as int,
            )
            &&& before.socket_type != UnixSocketType::Stream && before.recv_queue@.len() > 0
                ==> after.recv_queue@ == before.recv_queue@.subrange(
                1,
                before.recv_queue@.len() as int,
            )
        },
{
    lemma_leading(buf.buffers@);
    let q = before.recv_queue@;
    let r = after.recv_queue@;
    if q.len() > 0 {
        let packet = q[0]@;
        let n = least(packet.len(), leading(buf.buffers@));
        assert(stream(q) == packet + stream(q.skip(1)));
        if before.socket_type == UnixSocketType::Stream {
            if n < packet.len() {
                assert(stream(r) == r[0]@ + stream(r.skip(1)));
                assert(stream(r) =~= stream(q).subrange(n as int, stream(q).len() as int));
            } else {
                assert(stream(r) =~= stream(q).subrange(n as int, stream(q).len() as int));
            }
        }
    } else {
        assert(stream(q) =~= stream(q).subrange(0, stream(q).len() as int));
    }
}

/// A header is 16 bytes, the low byte of each number first: the length, the kind in two bytes,
/// the flags in two, the number of the request, and who asked.
pub proof fn law_header_of_a_message(h: NlMsgHdr)
    ensures
        ({
            let b = header_bytes(h);
            &&& b.len() == 16
            &&& b[0] + b[1] * 0x100 + b[2] * 0x1_0000 + b[3] * 0x100_0000 == h.nlmsg_len
            &&& b[4] + b[5] * 0x100 == h.nlmsg_type
            &&& b[6] + b[7] * 0x100 == h.nlmsg_flags
            &&& b[8] + b[9] * 0x100 + b[10] * 0x1_0000 + b[11] * 0x100_0000 == h.nlmsg_seq
            &&& b[12] + b[13] * 0x100 + b[14] * 0x1_0000 + b[15] * 0x100_0000 == h.nlmsg_pid
        }),
{
}

/// How a header is read.
pub proof fn law_header_is_read(data: Seq<u8>, at: int)
    ensures
        ({
            let h = header_at(data, at);
            &&& h.nlmsg_len == data[at] + data[at + 1] * 0x100 + data[at + 2] * 0x1_0000 + data[at
                + 3] * 0x100_0000
            &&& h.nlmsg_type == data[at + 4] + data[at + 5] * 0x100
            &&& h.nlmsg_flags == data[at + 6] + data[at + 7] * 0x100
            &&& h.nlmsg_seq == data[at + 8] + data[at + 9] * 0x100 + data[at + 10] * 0x1_0000
                + data[at + 11] * 0x100_0000
            &&& h.nlmsg_pid == data[at + 12] + data[at + 13] * 0x100 + data[at + 14] * 0x1_0000
                + data[at + 15] * 0x100_0000
        }),
{
}

/// The message is of a kind, tells its own length, and answers the request: its number and who
/// asked are those of the request.
pub open spec fn answers_as(b: Seq<u8>, request: NlMsgHdr, kind: int, flags: int) -> bool {
    &&& b.len() >= 16
    &&& b[0] + b[1] * 0x100 + b[2] * 0x1_0000 + b[3] * 0x100_0000 == b.len()
    &&& b[4] + b[5] * 0x100 == kind
    &&& b[6] + b[7] * 0x100 == flags
    &&& b[8] + b[9] * 0x100 + b[10] * 0x1_0000 + b[11] * 0x100_0000 == request.nlmsg_seq
    &&& b[12] + b[13] * 0x100 + b[14] * 0x1_0000 + b[15] * 0x100_0000 == request.nlmsg_pid
}

/// A question of kind 18 is answered with the link, kind 16, and an end, kind 3: its number 2, its
/// name and its hardware address are told.
pub proof fn law_answer_about_the_link(request: NlMsgHdr, addrs: Seq<Cidr>, mac: Seq<u8>)
    requires
        request.nlmsg_type == 18,
        mac.len() == 6,
    ensures
        ({
            let all = answers(request, addrs, mac);
            let link = all[0];
            &&& all.len() == 2
            &&& answers_as(link, request, 16, 2)
            &&& answers_as(all[1], request, 3, 2)
            &&& link.len() == 56
            &&& all[1].len() == 16
            &&& link[18] == 1 && link[19] == 0
            &&& link[20] == 2 && link[21] == 0 && link[22] == 0 && link[23] == 0
            &&& link[24] == 0x43 && link[25] == 0x10 && link[26] == 0 && link[27] == 0
            &&& link[32] == 9 && link[33] == 0 && link[34] == 3 && link[35] == 0
            &&& link[36] == 101 && link[37] == 116 && link[38] == 104 && link[39] == 48 && link[40]
                == 0
            &&& link[44] == 10 && link[45] == 0 && link[46] == 1 && link[47] == 0
            &&& forall|i: int| 0 <= i < 6 ==> link[48 + i] == #[trigger] mac[i]
        }),
{
    let h = NlMsgHdr {
        nlmsg_len: 56,
        nlmsg_type: 16,
        nlmsg_flags: 2,
        nlmsg_seq: request.nlmsg_seq,
        nlmsg_pid: request.nlmsg_pid,
    };
    let front = header_bytes(h);
    law_header_of_a_message(h);
    lemma_end_message(request);
    let name = seq![9u8, 0u8, 3u8, 0u8, 101u8, 116u8, 104u8, 48u8, 0u8, 0u8, 0u8, 0u8];
    let place = seq![10u8, 0u8, 1u8, 0u8, mac[0], mac[1], mac[2], mac[3], mac[4], mac[5], 0u8, 0u8];
    let link = seq![
        0u8, 0u8, 1u8, 0u8, 2u8, 0u8, 0u8, 0u8, 0x43u8, 0x10u8, 0u8, 0u8, 0u8, 0u8, 0u8, 0u8,
    ];
    let b = link_bytes(request, mac);
    assert(b =~= front + link + name + place);
    assert forall|j: int| 0 <= j < 16 implies #[trigger] b[j] == front[j] by {}
    assert forall|j: int| 0 <= j < 16 implies b[16 + j] == #[trigger] link[j] by {}
    assert forall|j: int| 0 <= j < 12 implies b[32 + j] == #[trigger] name[j] by {}
    assert forall|j: int| 0 <= j < 12 implies b[44 + j] == #[trigger] place[j] by {}
    assert(link[2] == 1 && link[3] == 0 && link[4] == 2 && link[5] == 0 && link[6] == 0 && link[7]
        == 0);
    assert(link[8] == 0x43 && link[9] == 0x10 && link[10] == 0 && link[11] == 0);
    assert(name[0] == 9 && name[1] == 0 && name[2] == 3 && name[3] == 0 && name[4] == 101 && name[5]
        == 116 && name[6] == 104 && name[7] == 48 && name[8] == 0);
    assert(place[0] == 10 && place[1] == 0 && place[2] == 1 && place[3] == 0);
    assert forall|k: int| 0 <= k < 6 implies b[48 + k] == #[trigger] mac[k] by {
        assert(b[44 + (4 + k)] == place[4 + k]);
    }
    assert(answers(request, addrs, mac)[0] == b);
}

/// The message tells of an address: the family is 2, and the length of the prefix and the four
/// bytes are those of the address, of link number 2.
pub open spec fn tells_of(b: Seq<u8>, cidr: Cidr) -> bool {
    &&& b.len() == 32
    &&& b[16] == 2
    &&& b[17] == cidr.prefix_len
    &&& b[20] == 2 && b[21] == 0 && b[22] == 0 && b[23] == 0
    &&& b[24] == 8 && b[25] == 0 && b[26] == 2 && b[27] == 0
    &&& b[28] == cidr.a && b[29] == cidr.b && b[30] == cidr.c && b[31] == cidr.d
}

/// One message of an address.
proof fn lemma_address_message(request: NlMsgHdr, cidr: Cidr)
    ensures
        answers_as(address_bytes(request, cidr), request, 20, 2),
        tells_of(address_bytes(request, cidr), cidr),
{
    let h = NlMsgHdr {
        nlmsg_len: 32,
        nlmsg_type: 20,
        nlmsg_flags: 2,
        nlmsg_seq: request.nlmsg_seq,
        nlmsg_pid: request.nlmsg_pid,
    };
    let front = header_bytes(h);
    law_header_of_a_message(h);
    let rest = seq![2u8, cidr.prefix_len, 0u8, 0u8, 2u8, 0u8, 0u8, 0u8, 8u8, 0u8, 2u8, 0u8, cidr.a, cidr.b, cidr.c, cidr.d];
    let b = address_bytes(request, cidr);
    assert(b =~= front + rest);
    assert forall|i: int| 0 <= i < 16 implies #[trigger] b[i] == front[i] && b[16 + i] == rest[i] by {
    }
    assert(b[16] == rest[0] && b[17] == rest[1] && b[20] == rest[4] && b[21] == rest[5] && b[22]
        == rest[6] && b[23] == rest[7]);
    assert(b[24] == rest[8] && b[25] == rest[9] && b[26] == rest[10] && b[27] == rest[11] && b[28]
        == rest[12] && b[29] == rest[13] && b[30] == rest[14] && b[31] == rest[15]);
}

/// One answer for each address.
proof fn lemma_address_answers(request: NlMsgHdr, addrs: Seq<Cidr>, n: int, k: int)
    requires
        0 <= k < n <= addrs.len(),
    ensures
        address_answers(request, addrs, n).len() == n,
        address_answers(request, addrs, n)[k] == address_bytes(request, addrs[k]),
    decreases n,
{
    if k < n - 1 {
        lemma_address_answers(request, addrs, n - 1, k);
    } else if n > 1 {
        lemma_address_answers(request, addrs, n - 1, 0);
    } else {
        assert(address_answers(request, addrs, 0).len() == 0);
    }
}

/// The message that ends an answer.
proof fn lemma_end_message(request: NlMsgHdr)
    ensures
        answers_as(done_bytes(request), request, 3, 2),
        done_bytes(request).len() == 16,
{
    law_header_of_a_message(
        NlMsgHdr {
            nlmsg_len: 16,
            nlmsg_type: 3,
            nlmsg_flags: 2,
            nlmsg_seq: request.nlmsg_seq,
            nlmsg_pid: request.nlmsg_pid,
        },
    );
}

/// A question of kind 22 is answered with each address in turn, kind 20, and an end, kind 3.
pub proof fn law_answer_about_addresses(
    request: NlMsgHdr,
    addrs: Seq<Cidr>,
    mac: Seq<u8>,
    k: int,
)
    requires
        request.nlmsg_type == 22,
        0 <= k < addrs.len(),
    ensures
        answers(request, addrs, mac).len() == addrs.len() + 1,
        answers_as(answers(request, addrs, mac)[k], request, 20, 2),
        tells_of(answers(request, addrs, mac)[k], addrs[k]),
        answers_as(answers(request, addrs, mac)[addrs.len() as int], request, 3, 2),
{
    lemma_address_answers(request, addrs, addrs.len() as int, k);
    lemma_address_message(request, addrs[k]);
    lemma_end_message(request);
    let most = address_answers(request, addrs, addrs.len() as int);
    let all = answers(request, addrs, mac);
    assert(all == most.push(done_bytes(request)));
    assert(all[k] == most[k]);
    assert(all[addrs.len() as int] == done_bytes(request));
}

/// Every other message is answered once, with kind 2: no error, and the header of the message.
pub proof fn law_answer_to_the_rest(request: NlMsgHdr, addrs: Seq<Cidr>, mac: Seq<u8>, i: int)
    requires
        request.nlmsg_type != 18,
        request.nlmsg_type != 22,
        0 <= i < 16,
    ensures
        ({
            let all = answers(request, addrs, mac);
            let b = all[0];
            &&& all.len() == 1
            &&& answers_as(b, request, 2, 0)
            &&& b.len() == 36
            &&& b[16] == 0 && b[17] == 0 && b[18] == 0 && b[19] == 0
            &&& b[20 + i] == header_bytes(request)[i]
        }),
{
    let h = NlMsgHdr {
        nlmsg_len: 36,
        nlmsg_type: 2,
        nlmsg_flags: 0,
        nlmsg_seq: request.nlmsg_seq,
        nlmsg_pid: request.nlmsg_pid,
    };
    let front = header_bytes(h);
    let back = header_bytes(request);
    law_header_of_a_message(h);
    law_header_of_a_message(request);
    let rest = seq![0u8, 0u8, 0u8, 0u8] + back;
    let b = ack_bytes(request);
    assert(b =~= front + rest);
    assert forall|j: int| 0 <= j < 16 implies #[trigger] b[j] == front[j] by {}
    assert(b[16] == rest[0] && b[17] == rest[1] && b[18] == rest[2] && b[19] == rest[3]);
    assert(b[20 + i] == rest[4 + i]);
    assert(rest[4 + i] == back[i]);
}

/// An address is found in the first part of kind 1 or 2 that has eight bytes, four of them the
/// address; other parts are stepped over, each as long as it says and up to a multiple of four.
pub proof fn law_address_in_a_message(payload: Seq<u8>, at: int)
    requires
        0 <= at,
        at + 8 <= payload.len(),
    ensures
        ({
            let len = payload[at] + payload[at + 1] * 0x100;
            let kind = payload[at + 2] + payload[at + 3] * 0x100;
            &&& (kind == 1 || kind == 2) && len == 8 ==> {
                let found = told_address(payload, at);
                &&& found is Some
                &&& found->Some_0.len() == 4
                &&& found->Some_0[0] == payload[at + 4] && found->Some_0[1] == payload[at + 5]
                &&& found->Some_0[2] == payload[at + 6] && found->Some_0[3] == payload[at + 7]
            }
            &&& len < 4 || at + len > payload.len() ==> told_address(payload, at) is None
            &&& kind != 1 && kind != 2 && len == 8 ==> told_address(payload, at) == told_address(
                payload,
                at + 8,
            )
            &&& kind != 1 && kind != 2 && (len == 5 || len == 6 || len == 7) ==> told_address(
                payload,
                at,
            ) == told_address(payload, at + 8)
            &&& len == 4 ==> told_address(payload, at) == told_address(payload, at + 4)
        }),
{
}

/// An address is added once, and only where there is room; no address is lost.
pub proof fn law_address_is_added(addrs: Seq<Cidr>, cidr: Cidr, room: int, k: int)
    requires
        0 <= k < addrs.len(),
    ensures
        with_address(addrs, cidr, room)[k] == addrs[k],
        addrs.len() < room ==> with_address(addrs, cidr, room).contains(cidr),
        addrs[k] == cidr || addrs.len() >= room ==> with_address(addrs, cidr, room) == addrs,
        with_address(addrs, cidr, room).len() <= addrs.len() + 1,
{
    let n = with_address(addrs, cidr, room);
    if n != addrs {
        assert(n[addrs.len() as int] == cidr);
    }
}

/// A message of a stream is there where its 16 bytes of header are, and it is as long as it says,
/// at least 16 bytes and no longer than what is there.
pub proof fn law_message_of_a_stream(data: Seq<u8>, at: int)
    requires
        at >= 0,
    ensures
        message_at(data, at) <==> at + 16 <= data.len() && {
            let len = data[at] + data[at + 1] * 0x100 + data[at + 2] * 0x1_0000 + data[at + 3]
                * 0x100_0000;
            16 <= len && at + len <= data.len()
        },
{
}

/// Messages are answered in their order, the next one at the next multiple of four; an address
/// that one sets is told to those that follow. Where no whole message is left, that is the end.
pub proof fn law_messages_in_order(
    data: Seq<u8>,
    at: int,
    addrs: Seq<Cidr>,
    room: int,
    mac: Seq<u8>,
)
    requires
        at >= 0,
    ensures
        !message_at(data, at) ==> exchange(data, at, addrs, room, mac).0.len() == 0 && exchange(
            data,
            at,
            addrs,
            room,
            mac,
        ).1 == addrs,
        message_at(data, at) ==> {
            let len = data[at] + data[at + 1] * 0x100 + data[at + 2] * 0x1_0000 + data[at + 3]
                * 0x100_0000;
            let msg = data.subrange(at, at + len);
            let now = after_message(msg, addrs, room);
            let next = at + (len + 3) / 4 * 4;
            let all = exchange(data, at, addrs, room, mac);
            let rest = exchange(data, next, now, room, mac);
            &&& all.0 == answers(header_at(msg, 0), addrs, mac) + rest.0
            &&& all.1 == rest.1
        },
{
}

/// Only a message of kind 20 sets an address: the length of its prefix is byte 17, and the address
/// itself stands in the parts behind byte 24.
pub proof fn law_message_sets_an_address(msg: Seq<u8>, addrs: Seq<Cidr>, room: int)
    ensures
        msg[4] + msg[5] * 0x100 != 20 ==> after_message(msg, addrs, room) == addrs,
        msg.len() <= 24 ==> after_message(msg, addrs, room) == addrs,
        msg[4] + msg[5] * 0x100 == 20 && msg.len() > 24 && told_address(
            msg.subrange(24, msg.len() as int),
            0,
        ) is Some ==> {
            let ip = told_address(msg.subrange(24, msg.len() as int), 0)->Some_0;
            after_message(msg, addrs, room) == with_address(
                addrs,
                Cidr { a: ip[0], b: ip[1], c: ip[2], d: ip[3], prefix_len: msg[17] },
                room,
            )
        },
{
    if msg.len() > 24 {
        assert(msg.skip(24) =~= msg.subrange(24, msg.len() as int));
    }
}

/// Only whole packets are read, as many as there is room for.
pub proof fn law_whole_packets(queue: Seq<Seq<u8>>, room: int)
    requires
        room >= 0,
    ensures
        0 <= fitting(queue, room) <= queue.len(),
        joined(queue.take(fitting(queue, room))).len() <= room,
        fitting(queue, room) < queue.len() ==> joined(queue.take(fitting(queue, room))).len()
            + queue[fitting(queue, room)].len() > room,
    decreases queue.len(),
{
    let k = fitting(queue, room);
    if queue.len() == 0 || queue[0].len() > room {
        assert(queue.take(0).len() == 0);
    } else {
        let rest = queue.skip(1);
        let left = room - queue[0].len();
        law_whole_packets(rest, left);
        let t = queue.take(k);
        assert(t.skip(1) =~= rest.take(k - 1));
        assert(t[0] == queue[0]);
        if k < queue.len() {
            assert(rest[k - 1] == queue[k]);
        }
    }
}

/// Readers and writers of a socket that somebody has are woken when there is something for them;
/// one that nobody has is forgotten once its connection is closed.
pub proof fn law_what_is_done_for_a_socket(view: SocketView, tcp: TcpView)
    ensures
        action_for(view, true).wake_reader == poll_readable(view),
        action_for(view, true).wake_writer == poll_writable(view),
        !action_for(view, false).wake_reader && !action_for(view, false).wake_writer,
        !action_for(view, true).dead,
        action_for(SocketView::Connection(tcp), false).dead <==> tcp.state == TcpState::Closed,
        !action_for(SocketView::Packets(true, true), false).dead,
{
}

/// The machine itself is every address that starts with 127.
pub proof fn law_the_machine_itself(remote: Endpoint)
    ensures
        is_loopback(remote) <==> remote.a == 127,
        nowhere().a == 0 && nowhere().b == 0 && nowhere().c == 0 && nowhere().d == 0
            && nowhere().port == 0,
{
}

} // verus!
