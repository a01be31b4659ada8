//! A socket over which the addresses of the machine are asked for and set.

use vstd::prelude::*;

use super::gather;
use crate::mm::elf::{le16, le32};
use crate::mm::user_buffer::{leading, least, overlaid, same_shape, UserBuffer};

verus! {

/// The header of a message.
#[derive(Clone, Copy, Debug, PartialEq, Eq, Structural)]
pub struct NlMsgHdr {
    /// The bytes of the message with this header.
    pub nlmsg_len: u32,
    pub nlmsg_type: u16,
    pub nlmsg_flags: u16,
    pub nlmsg_seq: u32,
    pub nlmsg_pid: u32,
}

/// An answer that tells whether a request was done.
#[derive(Clone, Copy, Debug, PartialEq, Eq, Structural)]
pub struct NlMsgErr {
    pub error: i32,
    /// The header of the request.
    pub msg: NlMsgHdr,
}

/// What a message on addresses starts with.
#[derive(Clone, Copy, Debug, PartialEq, Eq, Structural)]
pub struct IfAddressMsg {
    pub ifa_family: u8,
    pub ifa_prefixlen: u8,
    pub ifa_flags: u8,
    pub ifa_scope: u8,
    pub ifa_index: u32,
}

/// What an attribute starts with.
#[derive(Clone, Copy, Debug, PartialEq, Eq, Structural)]
pub struct RtAttr {
    /// The bytes of the attribute with this.
    pub rta_len: u16,
    pub rta_type: u16,
}

pub const NLMSG_ERROR: u16 = 2;

pub const NLMSG_DONE: u16 = 3;

pub const RTM_NEWLINK: u16 = 16;

pub const RTM_GETLINK: u16 = 18;

pub const RTM_NEWADDR: u16 = 20;

pub const RTM_GETADDR: u16 = 22;

pub const NLM_F_MULTI: u16 = 2;

pub const IFA_ADDRESS: u16 = 1;

pub const IFA_LOCAL: u16 = 2;

pub const IFLA_ADDRESS: u16 = 1;

pub const IFLA_IFNAME: u16 = 3;

/// The flags of the network card: it is up, runs, has a carrier and can send to all.
pub const LINK_FLAGS: u32 = 0x1043;

/// An address with the length of its network part.
#[derive(Clone, Copy, Debug, PartialEq, Eq, Structural)]
pub struct Cidr {
    pub a: u8,
    pub b: u8,
    pub c: u8,
    pub d: u8,
    pub prefix_len: u8,
}

/// The bytes of a number, the lowest first.
pub open spec fn bytes16(n: int) -> Seq<u8> {
    seq![(n % 256) as u8, (n / 256) as u8]
}

/// The bytes of a number, the lowest first.
pub open spec fn bytes32(n: int) -> Seq<u8> {
    seq![
        (n % 256) as u8,
        (n / 256 % 256) as u8,
        (n / 0x1_0000 % 256) as u8,
        (n / 0x100_0000) as u8,
    ]
}

/// The bytes of a header.
pub open spec fn header_bytes(h: NlMsgHdr) -> Seq<u8> {
    bytes32(h.nlmsg_len as int) + bytes16(h.nlmsg_type as int) + bytes16(h.nlmsg_flags as int)
        + bytes32(h.nlmsg_seq as int) + bytes32(h.nlmsg_pid as int)
}

/// The header at a place.
pub open spec fn header_at(data: Seq<u8>, at: int) -> NlMsgHdr {
    NlMsgHdr {
        nlmsg_len: le32(data, at) as u32,
        nlmsg_type: le16(data, at + 4) as u16,
        nlmsg_flags: le16(data, at + 6) as u16,
        nlmsg_seq: le32(data, at + 8) as u32,
        nlmsg_pid: le32(data, at + 12) as u32,
    }
}

/// The next multiple of four.
pub open spec fn align4(n: int) -> int {
    (n + 3) / 4 * 4
}

/// Returns the next multiple of four.
pub fn nlmsg_align(len: usize) -> (aligned: usize)
    requires
        len <= usize::MAX - 3,
    ensures
        aligned == align4(len as int),
{
    (len + 3) / 4 * 4
}

/// The address of the first attribute from a place on that tells one.
pub open spec fn told_address(payload: Seq<u8>, at: int) -> Option<Seq<u8>>
    decreases payload.len() + 4 - at,
{
    if at < 0 || at + 4 > payload.len() {
        None
    } else {
        let len = le16(payload, at);
        let kind = le16(payload, at + 2);
        if len < 4 || at + len > payload.len() {
            None
        } else if (kind == IFA_ADDRESS || kind == IFA_LOCAL) && len == 8 {
            Some(payload.subrange(at + 4, at + 8))
        } else {
            told_address(payload, at + align4(len))
        }
    }
}

/// The address that a request sets.
pub open spec fn requested(msg: Seq<u8>) -> Option<Cidr> {
    if msg.len() <= 24 {
        None
    } else {
        match told_address(msg.skip(24), 0) {
            Some(ip) => Some(
                Cidr { a: ip[0], b: ip[1], c: ip[2], d: ip[3], prefix_len: msg[17] },
            ),
            None => None,
        }
    }
}

/// The addresses with another one, unless it is there or there is no room.
pub open spec fn with_address(addrs: Seq<Cidr>, cidr: Cidr, room: int) -> Seq<Cidr> {
    if addrs.contains(cidr) || addrs.len() >= room {
        addrs
    } else {
        addrs.push(cidr)
    }
}

/// The end of an answer in parts.
pub open spec fn done_bytes(request: NlMsgHdr) -> Seq<u8> {
    header_bytes(
        NlMsgHdr {
            nlmsg_len: 16,
            nlmsg_type: NLMSG_DONE,
            nlmsg_flags: NLM_F_MULTI,
            nlmsg_seq: request.nlmsg_seq,
            nlmsg_pid: request.nlmsg_pid,
        },
    )
}

/// The answer on the network card: its number, its flags, its name and its address.
pub open spec fn link_bytes(request: NlMsgHdr, mac: Seq<u8>) -> Seq<u8> {
    header_bytes(
        NlMsgHdr {
            nlmsg_len: 56,
            nlmsg_type: RTM_NEWLINK,
            nlmsg_flags: NLM_F_MULTI,
            nlmsg_seq: request.nlmsg_seq,
            nlmsg_pid: request.nlmsg_pid,
        },
    ) + seq![0u8, 0u8] + bytes16(1) + bytes32(2) + bytes32(LINK_FLAGS as int) + bytes32(0)
        + bytes16(9) + bytes16(IFLA_IFNAME as int) + seq![
        101u8,
        116u8,
        104u8,
        48u8,
        0u8,
        0u8,
        0u8,
        0u8,
    ] + bytes16(10) + bytes16(IFLA_ADDRESS as int) + seq![
        mac[0],
        mac[1],
        mac[2],
        mac[3],
        mac[4],
        mac[5],
        0u8,
        0u8,
    ]
}

/// The answer on an address.
pub open spec fn address_bytes(request: NlMsgHdr, cidr: Cidr) -> Seq<u8> {
    header_bytes(
        NlMsgHdr {
            nlmsg_len: 32,
            nlmsg_type: RTM_NEWADDR,
            nlmsg_flags: NLM_F_MULTI,
            nlmsg_seq: request.nlmsg_seq,
            nlmsg_pid: request.nlmsg_pid,
        },
    ) + seq![2u8, cidr.prefix_len, 0u8, 0u8] + bytes32(2) + bytes16(8) + bytes16(IFA_LOCAL as int)
        + seq![cidr.a, cidr.b, cidr.c, cidr.d]
}

/// The answer that a request was done.
pub open spec fn ack_bytes(request: NlMsgHdr) -> Seq<u8> {
    header_bytes(
        NlMsgHdr {
            nlmsg_len: 36,
            nlmsg_type: NLMSG_ERROR,
            nlmsg_flags: 0,
            nlmsg_seq: request.nlmsg_seq,
            nlmsg_pid: request.nlmsg_pid,
        },
    ) + bytes32(0) + header_bytes(request)
}

/// The answers on the first `n` addresses.
pub open spec fn address_answers(request: NlMsgHdr, addrs: Seq<Cidr>, n: int) -> Seq<Seq<u8>>
    decreases n,
{
    if n <= 0 {
        Seq::empty()
    } else {
        address_answers(request, addrs, n - 1).push(address_bytes(request, addrs[n - 1]))
    }
}

/// The answers to a message.
pub open spec fn answers(request: NlMsgHdr, addrs: Seq<Cidr>, mac: Seq<u8>) -> Seq<Seq<u8>> {
    if request.nlmsg_type == RTM_GETLINK {
        seq![link_bytes(request, mac), done_bytes(request)]
    } else if request.nlmsg_type == RTM_GETADDR {
        address_answers(request, addrs, addrs.len() as int).push(done_bytes(request))
    } else {
        seq![ack_bytes(request)]
    }
}

/// The addresses after a message.
pub open spec fn after_message(msg: Seq<u8>, addrs: Seq<Cidr>, room: int) -> Seq<Cidr> {
    if header_at(msg, 0).nlmsg_type == RTM_NEWADDR {
        match requested(msg) {
            Some(cidr) => with_address(addrs, cidr, room),
            None => addrs,
        }
    } else {
        addrs
    }
}

/// There is a whole message at a place.
pub open spec fn message_at(data: Seq<u8>, at: int) -> bool {
    &&& 0 <= at
    &&& at + 16 <= data.len()
    &&& le32(data, at) >= 16
    &&& at + le32(data, at) <= data.len()
}

/// The answers to the messages from a place on, and the addresses after them.
pub open spec fn exchange(
    data: Seq<u8>,
    at: int,
    addrs: Seq<Cidr>,
    room: int,
    mac: Seq<u8>,
) -> (Seq<Seq<u8>>, Seq<Cidr>)
    decreases data.len() + 4 - at,
{
    if !message_at(data, at) {
        (Seq::empty(), addrs)
    } else {
        let msg = data.subrange(at, at + le32(data, at));
        let now = after_message(msg, addrs, room);
        let (rest, end) = exchange(data, at + align4(le32(data, at)), now, room, mac);
        (answers(header_at(msg, 0), addrs, mac) + rest, end)
    }
}

/// The texts of packets.
pub open spec fn packets(v: Seq<Vec<u8>>) -> Seq<Seq<u8>> {
    v.map_values(|packet: Vec<u8>| packet@)
}

/// Adds the bytes of a number.
fn push16(out: &mut Vec<u8>, n: u16)
    ensures
        final(out)@ == old(out)@ + bytes16(n as int),
{
    out.push((n % 256) as u8);
    out.push((n / 256) as u8);
    assert(out@ =~= old(out)@ + bytes16(n as int));
}

/// Adds the bytes of a number.
fn push32(out: &mut Vec<u8>, n: u32)
    ensures
        final(out)@ == old(out)@ + bytes32(n as int),
{
    out.push((n % 256) as u8);
    out.push((n / 256 % 256) as u8);
    out.push((n / 0x1_0000 % 256) as u8);
    out.push((n / 0x100_0000) as u8);
    assert(out@ =~= old(out)@ + bytes32(n as int));
}

/// Adds the bytes of a header.
fn push_header(out: &mut Vec<u8>, h: NlMsgHdr)
    ensures
        final(out)@ == old(out)@ + header_bytes(h),
{
    push32(out, h.nlmsg_len);
    push16(out, h.nlmsg_type);
    push16(out, h.nlmsg_flags);
    push32(out, h.nlmsg_seq);
    push32(out, h.nlmsg_pid);
    assert(out@ =~= old(out)@ + header_bytes(h));
}

/// Reads a number.
fn read16(data: &Vec<u8>, at: usize) -> (n: u16)
    requires
        at + 2 <= data@.len(),
    ensures
        n == le16(data@, at as int),
{
    let count: usize = data.len();
    assert(at + 2 <= count);
    data[at] as u16 + 256 * data[at + 1] as u16
}

/// Reads a number.
fn read32(data: &Vec<u8>, at: usize) -> (n: u32)
    requires
        at + 4 <= data@.len(),
    ensures
        n == le32(data@, at as int),
{
    let count: usize = data.len();
    assert(at + 4 <= count);
    data[at] as u32 + 0x100 * data[at + 1] as u32 + 0x1_0000 * data[at + 2] as u32 + 0x100_0000
        * data[at + 3] as u32
}

/// Reads a header.
fn read_header(data: &Vec<u8>, at: usize) -> (h: NlMsgHdr)
    requires
        at + 16 <= data@.len(),
    ensures
        h == header_at(data@, at as int),
{
    let n: usize = data.len();
    assert(at + 16 <= n);
    NlMsgHdr {
        nlmsg_len: read32(data, at),
        nlmsg_type: read16(data, at + 4),
        nlmsg_flags: read16(data, at + 6),
        nlmsg_seq: read32(data, at + 8),
        nlmsg_pid: read32(data, at + 12),
    }
}

/// Returns the header of an answer to a request.
fn answer_header(request: NlMsgHdr, len: u32, kind: u16, flags: u16) -> (h: NlMsgHdr)
    ensures
        h == (NlMsgHdr {
            nlmsg_len: len,
            nlmsg_type: kind,
            nlmsg_flags: flags,
            nlmsg_seq: request.nlmsg_seq,
            nlmsg_pid: request.nlmsg_pid,
        }),
{
    NlMsgHdr {
        nlmsg_len: len,
        nlmsg_type: kind,
        nlmsg_flags: flags,
        nlmsg_seq: request.nlmsg_seq,
        nlmsg_pid: request.nlmsg_pid,
    }
}

/// Returns the end of an answer in parts.
fn make_done(request: NlMsgHdr) -> (packet: Vec<u8>)
    ensures
        packet@ == done_bytes(request),
{
    let mut out: Vec<u8> = Vec::new();
    push_header(&mut out, answer_header(request, 16, NLMSG_DONE, NLM_F_MULTI));
    assert(out@ =~= done_bytes(request));
    out
}

/// Returns the answer on the network card.
fn make_link(request: NlMsgHdr, mac: [u8; 6]) -> (packet: Vec<u8>)
    ensures
        packet@ == link_bytes(request, mac@),
{
    let mut out: Vec<u8> = Vec::new();
    push_header(&mut out, answer_header(request, 56, RTM_NEWLINK, NLM_F_MULTI));
    out.push(0);
    out.push(0);
    push16(&mut out, 1);
    push32(&mut out, 2);
    push32(&mut out, LINK_FLAGS);
    push32(&mut out, 0);
    push16(&mut out, 9);
    push16(&mut out, IFLA_IFNAME);
    out.push(101);
    out.push(116);
    out.push(104);
    out.push(48);
    out.push(0);
    out.push(0);
    out.push(0);
    out.push(0);
    push16(&mut out, 10);
    push16(&mut out, IFLA_ADDRESS);
    out.push(mac[0]);
    out.push(mac[1]);
    out.push(mac[2]);
    out.push(mac[3]);
    out.push(mac[4]);
    out.push(mac[5]);
    out.push(0);
    out.push(0);
    assert(out@ =~= link_bytes(request, mac@));
    out
}

/// Returns the answer on an address.
fn make_address(request: NlMsgHdr, cidr: Cidr) -> (packet: Vec<u8>)
    ensures
        packet@ == address_bytes(request, cidr),
{
    let mut out: Vec<u8> = Vec::new();
    push_header(&mut out, answer_header(request, 32, RTM_NEWADDR, NLM_F_MULTI));
    out.push(2);
    out.push(cidr.prefix_len);
    out.push(0);
    out.push(0);
    push32(&mut out, 2);
    push16(&mut out, 8);
    push16(&mut out, IFA_LOCAL);
    out.push(cidr.a);
    out.push(cidr.b);
    out.push(cidr.c);
    out.push(cidr.d);
    assert(out@ =~= address_bytes(request, cidr));
    out
}

/// Returns the answer that a request was done.
fn make_ack(request: NlMsgHdr) -> (packet: Vec<u8>)
    ensures
        packet@ == ack_bytes(request),
{
    let mut out: Vec<u8> = Vec::new();
    push_header(&mut out, answer_header(request, 36, NLMSG_ERROR, 0));
    push32(&mut out, 0);
    push_header(&mut out, request);
    assert(out@ =~= ack_bytes(request));
    out
}

/// Finds the address that the attributes of a request tell.
pub fn parse_rt_attributes(msg: &Vec<u8>, prefix_len: u8) -> (cidr: Option<Cidr>)
    requires
        msg@.len() >= 24,
    ensures
        cidr == match told_address(msg@.skip(24), 0) {
            Some(ip) => Some(Cidr { a: ip[0], b: ip[1], c: ip[2], d: ip[3], prefix_len }),
            None => None,
        },
{
    let ghost payload = msg@.skip(24);
    let end: usize = msg.len() - 24;
    let mut at: usize = 0;
    loop
        invariant
            payload == msg@.skip(24),
            end == payload.len(),
            msg@.len() == end + 24,
            msg@.len() <= usize::MAX,
            told_address(payload, 0) == told_address(payload, at as int),
        decreases end + 0x1_0004 - at,
    {
        if at > end || end - at < 4 {
            return None;
        }
        let len: usize = read16(msg, at + 24) as usize;
        let kind: u16 = read16(msg, at + 26);
        assert(len == le16(payload, at as int));
        assert(kind == le16(payload, at + 2));
        if len < 4 || len > end - at {
            return None;
        }
        if (kind == IFA_ADDRESS || kind == IFA_LOCAL) && len == 8 {
            proof {
                let ip = payload.subrange(at + 4, at + 8);
                assert(ip[0] == msg@[at + 28] && ip[1] == msg@[at + 29] && ip[2] == msg@[at + 30]
                    && ip[3] == msg@[at + 31]);
            }
            return Some(
                Cidr {
                    a: msg[at + 28],
                    b: msg[at + 29],
                    c: msg[at + 30],
                    d: msg[at + 31],
                    prefix_len,
                },
            );
        }
        let step: usize = nlmsg_align(len);
        if step > end - at {
            proof {
                assert(told_address(payload, at + align4(len as int)) is None);
            }
            return None;
        }
        at = at + step;
    }
}

/// Tells whether an address is among others.
fn has_address(addrs: &Vec<Cidr>, cidr: Cidr) -> (yes: bool)
    ensures
        yes == addrs@.contains(cidr),
{
    let mut i: usize = 0;
    while i < addrs.len()
        invariant
            i <= addrs@.len(),
            forall|j: int| 0 <= j < i ==> #[trigger] addrs@[j] != cidr,
        decreases addrs@.len() - i,
    {
        if addrs[i] == cidr {
            assert(addrs@[i as int] == cidr);
            return true;
        }
        i = i + 1;
    }
    false
}

/// A socket for messages on the network card and its addresses.
pub struct StandardNetlinkSocket {
    pub protocol: i32,
    /// The answers that were not read yet.
    pub rx_buffer: Vec<Vec<u8>>,
}

/// The number of packets from the front that fit into so many bytes together.
pub open spec fn fitting(queue: Seq<Seq<u8>>, room: int) -> int
    decreases queue.len(),
{
    if queue.len() == 0 || queue[0].len() > room {
        0
    } else {
        1 + fitting(queue.skip(1), room - queue[0].len())
    }
}

/// The bytes of packets, one after the other.
pub open spec fn joined(queue: Seq<Seq<u8>>) -> Seq<u8>
    decreases queue.len(),
{
    if queue.len() == 0 {
        Seq::empty()
    } else {
        queue[0] + joined(queue.skip(1))
    }
}

/// The packets that fit are not longer than the room.
proof fn lemma_fitting(queue: Seq<Seq<u8>>, room: int)
    requires
        room >= 0,
    ensures
        0 <= fitting(queue, room) <= queue.len(),
        joined(queue.take(fitting(queue, room))).len() <= room,
    decreases queue.len(),
{
    if queue.len() > 0 && queue[0].len() <= room {
        let rest = queue.skip(1);
        lemma_fitting(rest, room - queue[0].len());
        let k = fitting(queue, room);
        assert(queue.take(k).skip(1) =~= rest.take(k - 1));
    }
}

impl StandardNetlinkSocket {
    /// Makes a socket without answers.
    pub fn new(protocol: i32) -> (socket: Self)
        ensures
            socket.protocol == protocol,
            socket.rx_buffer@.len() == 0,
    {
        StandardNetlinkSocket { protocol, rx_buffer: Vec::new() }
    }

    /// Tells whether there is an answer to read.
    pub fn readable(&self) -> (yes: bool)
        ensures
            yes == (self.rx_buffer@.len() > 0),
    {
        self.rx_buffer.len() > 0
    }

    /// Keeps an answer.
    fn push_packet(&mut self, packet: Vec<u8>)
        ensures
            packets(final(self).rx_buffer@) == packets(old(self).rx_buffer@).push(packet@),
            final(self).protocol == old(self).protocol,
    {
        self.rx_buffer.push(packet);
        assert(packets(self.rx_buffer@) =~= packets(old(self).rx_buffer@).push(packet@));
    }

    /// Answers a message; an address that it sets is added to the others.
    fn answer(&mut self, msg: &Vec<u8>, addrs: &mut Vec<Cidr>, room: usize, mac: [u8; 6])
        requires
            msg@.len() >= 16,
        ensures
            packets(final(self).rx_buffer@) == packets(old(self).rx_buffer@) + answers(
                header_at(msg@, 0),
                old(addrs)@,
                mac@,
            ),
            final(addrs)@ == after_message(msg@, old(addrs)@, room as int),
            final(self).protocol == old(self).protocol,
    {
        let request = read_header(msg, 0);
        let ghost before = packets(self.rx_buffer@);
        if request.nlmsg_type == RTM_GETLINK {
            self.push_packet(make_link(request, mac));
            self.push_packet(make_done(request));
            assert(packets(self.rx_buffer@) =~= before + answers(request, addrs@, mac@));
        } else if request.nlmsg_type == RTM_GETADDR {
            let mut i: usize = 0;
            assert(before + address_answers(request, addrs@, 0) =~= before);
            while i < addrs.len()
                invariant
                    i <= addrs@.len(),
                    addrs@ == old(addrs)@,
                    self.protocol == old(self).protocol,
                    packets(self.rx_buffer@) == before + address_answers(
                        request,
                        addrs@,
                        i as int,
                    ),
                decreases addrs@.len() - i,
            {
                let ghost so_far = address_answers(request, addrs@, i as int);
                self.push_packet(make_address(request, addrs[i]));
                i = i + 1;
                assert(packets(self.rx_buffer@) =~= before + so_far.push(
                    address_bytes(request, addrs@[i - 1]),
                ));
            }
            self.push_packet(make_done(request));
            assert(packets(self.rx_buffer@) =~= before + answers(request, addrs@, mac@));
        } else {
            if request.nlmsg_type == RTM_NEWADDR && msg.len() > 24 {
                let found = parse_rt_attributes(msg, msg[17]);
                if let Some(cidr) = found {
                    let there: bool = has_address(addrs, cidr);
                    if !there && addrs.len() < room {
                        addrs.push(cidr);
                    }
                }
            }
            self.push_packet(make_ack(request));
            assert(packets(self.rx_buffer@) =~= before + seq![ack_bytes(request)]);
        }
    }

    /// Takes messages and answers each; returns the number of bytes. What is no whole message
    /// and what follows it is not looked at.
    pub fn write(&mut self, buf: &UserBuffer, addrs: &mut Vec<Cidr>, room: usize, mac: [u8; 6]) -> (len:
        usize)
        requires
            buf.bytes().len() <= usize::MAX,
        ensures
            len == buf.bytes().len(),
            packets(final(self).rx_buffer@) == packets(old(self).rx_buffer@) + exchange(
                buf.bytes(),
                0,
                old(addrs)@,
                room as int,
                mac@,
            ).0,
            final(addrs)@ == exchange(buf.bytes(), 0, old(addrs)@, room as int, mac@).1,
            final(self).protocol == old(self).protocol,
    {
        let data = gather(buf);
        let end: usize = data.len();
        let mut at: usize = 0;
        let ghost before = packets(self.rx_buffer@);
        let ghost all = exchange(data@, 0, addrs@, room as int, mac@);
        assert(packets(self.rx_buffer@) + all.0 =~= before + all.0);
        loop
            invariant
                end == data@.len(),
                data@ == buf.bytes(),
                before == packets(old(self).rx_buffer@),
                all == exchange(data@, 0, old(addrs)@, room as int, mac@),
                self.protocol == old(self).protocol,
                packets(self.rx_buffer@) + exchange(
                    data@,
                    at as int,
                    addrs@,
                    room as int,
                    mac@,
                ).0 == before + all.0,
                exchange(data@, at as int, addrs@, room as int, mac@).1 == all.1,
            decreases end + 4 - at,
        {
            if at > end || end - at < 16 {
                assert(!message_at(data@, at as int));
                assert(packets(self.rx_buffer@) + Seq::<Seq<u8>>::empty() =~= packets(
                    self.rx_buffer@,
                ));
                return end;
            }
            let msg_len: u32 = read32(&data, at);
            if msg_len < 16 || msg_len as u64 > (end - at) as u64 {
                assert(!message_at(data@, at as int));
                assert(packets(self.rx_buffer@) + Seq::<Seq<u8>>::empty() =~= packets(
                    self.rx_buffer@,
                ));
                return end;
            }
            let len: usize = msg_len as usize;
            let msg = cut(&data, at, at + len);
            let ghost p0 = packets(self.rx_buffer@);
            let ghost a0 = addrs@;
            self.answer(&msg, addrs, room, mac);
            proof {
                assert(message_at(data@, at as int));
                let rest = exchange(
                    data@,
                    at + align4(len as int),
                    addrs@,
                    room as int,
                    mac@,
                ).0;
                let mine = answers(header_at(msg@, 0), a0, mac@);
                assert(p0 + (mine + rest) =~= (p0 + mine) + rest);
            }
            if end - at - len < 4 {
                let ghost next = at + align4(len as int);
                assert(!message_at(data@, next));
                assert(packets(self.rx_buffer@) + Seq::<Seq<u8>>::empty() =~= packets(
                    self.rx_buffer@,
                ));
                return end;
            }
            at = at + nlmsg_align(len);
        }
    }

    /// Takes as many whole answers as the buffer has room for, and writes them up to its first
    /// empty piece; returns the number of bytes.
    pub fn read(&mut self, buf: &mut UserBuffer) -> (len: usize)
        requires
            old(buf).bytes().len() <= usize::MAX,
        ensures
            ({
                let queue = packets(old(self).rx_buffer@);
                let k = fitting(queue, old(buf).bytes().len() as int);
                let data = joined(queue.take(k));
                &&& len == least(data.len(), leading(old(buf).buffers@))
                &&& packets(final(self).rx_buffer@) == queue.skip(k)
                &&& final(buf).bytes() == overlaid(data.take(len as int), old(buf).bytes())
                &&& same_shape(old(buf).buffers@, final(buf).buffers@)
            }),
            final(self).protocol == old(self).protocol,
    {
        let room: usize = buf.len();
        let ghost queue = packets(self.rx_buffer@);
        let ghost k = fitting(queue, room as int);
        let ghost mut taken: int = 0;
        let mut flat_data: Vec<u8> = Vec::new();
        proof {
            lemma_fitting(queue, room as int);
            assert(queue.skip(0) =~= queue);
            assert(joined(queue.take(0)) =~= Seq::<u8>::empty());
        }
        while self.rx_buffer.len() > 0 && self.rx_buffer[0].len() <= room - flat_data.len()
            invariant
                0 <= taken <= queue.len(),
                packets(self.rx_buffer@) == queue.skip(taken),
                self.protocol == old(self).protocol,
                flat_data@ == joined(queue.take(taken)),
                flat_data@.len() <= room,
                k == taken + fitting(queue.skip(taken), room - flat_data@.len()),
            decreases queue.len() - taken,
        {
            let ghost left = queue.skip(taken);
            assert(packets(self.rx_buffer@)[0] == self.rx_buffer@[0]@);
            let mut packet = self.rx_buffer.remove(0);
            assert(packet@ == left[0]);
            flat_data.append(&mut packet);
            proof {
                assert(left[0] == queue[taken]);
                assert(packets(self.rx_buffer@) =~= left.skip(1));
                assert(left.skip(1) =~= queue.skip(taken + 1));
                lemma_joined_push(queue, taken);
                taken = taken + 1;
            }
        }
        proof {
            assert(taken == k) by {
                let left = queue.skip(taken);
                if left.len() > 0 {
                    assert(packets(self.rx_buffer@)[0] == self.rx_buffer@[0]@);
                }
            }
        }
        buf.write_leading(&flat_data)
    }
}

/// One more packet adds its bytes at the end.
proof fn lemma_joined_push(queue: Seq<Seq<u8>>, n: int)
    requires
        0 <= n < queue.len(),
    ensures
        joined(queue.take(n + 1)) == joined(queue.take(n)) + queue[n],
    decreases n,
{
    if n == 0 {
        assert(queue.take(1).skip(1) =~= Seq::<Seq<u8>>::empty());
        assert(queue.take(0) =~= Seq::<Seq<u8>>::empty());
        assert(joined(queue.take(1).skip(1)) =~= Seq::<u8>::empty());
        assert(joined(queue.take(1)) =~= queue[0]);
    } else {
        let rest = queue.skip(1);
        lemma_joined_push(rest, n - 1);
        assert(queue.take(n + 1).skip(1) =~= rest.take(n));
        assert(queue.take(n).skip(1) =~= rest.take(n - 1));
        assert(joined(queue.take(n + 1)) =~= joined(queue.take(n)) + queue[n]);
    }
}

/// Returns a part of bytes.
fn cut(data: &Vec<u8>, from: usize, to: usize) -> (piece: Vec<u8>)
    requires
        from <= to <= data@.len(),
    ensures
        piece@ == data@.subrange(from as int, to as int),
{
    let mut piece: Vec<u8> = Vec::new();
    let mut i: usize = from;
    while i < to
        invariant
            from <= i <= to <= data@.len(),
            piece@ == data@.subrange(from as int, i as int),
        decreases to - i,
    {
        piece.push(data[i]);
        i = i + 1;
        assert(piece@ =~= data@.subrange(from as int, i as int));
    }
    piece
}

/// Every request is answered, and the last answer carries its number.
pub proof fn law_requests_are_answered(request: NlMsgHdr, addrs: Seq<Cidr>, mac: Seq<u8>)
    ensures
        answers(request, addrs, mac).len() >= 1,
        answers(request, addrs, mac).last().len() >= 16,
        header_at(answers(request, addrs, mac).last(), 0).nlmsg_seq == request.nlmsg_seq,
        header_at(answers(request, addrs, mac).last(), 0).nlmsg_len == answers(
            request,
            addrs,
            mac,
        ).last().len(),
{
    let done = NlMsgHdr {
        nlmsg_len: 16,
        nlmsg_type: NLMSG_DONE,
        nlmsg_flags: NLM_F_MULTI,
        nlmsg_seq: request.nlmsg_seq,
        nlmsg_pid: request.nlmsg_pid,
    };
    let ack = NlMsgHdr {
        nlmsg_len: 36,
        nlmsg_type: NLMSG_ERROR,
        nlmsg_flags: 0,
        nlmsg_seq: request.nlmsg_seq,
        nlmsg_pid: request.nlmsg_pid,
    };
    law_header_comes_back(done, Seq::empty());
    assert(header_bytes(done) + Seq::<u8>::empty() =~= header_bytes(done));
    law_header_comes_back(ack, bytes32(0) + header_bytes(request));
    assert(ack_bytes(request) =~= header_bytes(ack) + (bytes32(0) + header_bytes(request)));
}

/// A header that was written is read back.
pub proof fn law_header_comes_back(h: NlMsgHdr, rest: Seq<u8>)
    ensures
        header_at(header_bytes(h) + rest, 0) == h,
        header_bytes(h).len() == 16,
{
    let s = header_bytes(h) + rest;
    lemma_bytes32(h.nlmsg_len);
    lemma_bytes32(h.nlmsg_seq);
    lemma_bytes32(h.nlmsg_pid);
    assert(s[0] == bytes32(h.nlmsg_len as int)[0] && s[1] == bytes32(h.nlmsg_len as int)[1] && s[2]
        == bytes32(h.nlmsg_len as int)[2] && s[3] == bytes32(h.nlmsg_len as int)[3]);
    assert(s[4] == bytes16(h.nlmsg_type as int)[0] && s[5] == bytes16(h.nlmsg_type as int)[1]);
    assert(s[6] == bytes16(h.nlmsg_flags as int)[0] && s[7] == bytes16(h.nlmsg_flags as int)[1]);
    assert(s[8] == bytes32(h.nlmsg_seq as int)[0] && s[9] == bytes32(h.nlmsg_seq as int)[1] && s[10]
        == bytes32(h.nlmsg_seq as int)[2] && s[11] == bytes32(h.nlmsg_seq as int)[3]);
    assert(s[12] == bytes32(h.nlmsg_pid as int)[0] && s[13] == bytes32(h.nlmsg_pid as int)[1]
        && s[14] == bytes32(h.nlmsg_pid as int)[2] && s[15] == bytes32(h.nlmsg_pid as int)[3]);
}

proof fn lemma_bytes32(n: u32)
    ensures
        bytes32(n as int)[0] + 256 * bytes32(n as int)[1] + 0x1_0000 * bytes32(n as int)[2]
            + 0x100_0000 * bytes32(n as int)[3] == n,
{
}

/// An address that was set is told afterwards, where there is room for it.
pub proof fn law_set_address_is_told(
    request: NlMsgHdr,
    addrs: Seq<Cidr>,
    cidr: Cidr,
    room: int,
    n: int,
)
    requires
        addrs.len() < room,
        n == with_address(addrs, cidr, room).len(),
    ensures
        address_answers(request, with_address(addrs, cidr, room), n).contains(
            address_bytes(request, cidr),
        ),
{
    let after = with_address(addrs, cidr, room);
    let i = if addrs.contains(cidr) {
        choose|i: int| 0 <= i < addrs.len() && addrs[i] == cidr
    } else {
        addrs.len() as int
    };
    assert(after[i] == cidr);
    lemma_answer_place(request, after, n, i);
    assert(address_answers(request, after, n)[i] == address_bytes(request, cidr));
}

proof fn lemma_answer_place(request: NlMsgHdr, addrs: Seq<Cidr>, n: int, i: int)
    requires
        0 <= i < n <= addrs.len(),
    ensures
        address_answers(request, addrs, n).len() == n,
        address_answers(request, addrs, n)[i] == address_bytes(request, addrs[i]),
    decreases n,
{
    if n - 1 > 0 {
        lemma_answer_place(
            request,
            addrs,
            n - 1,
            if i < n - 1 {
                i
            } else {
                0
            },
        );
    } else {
        assert(address_answers(request, addrs, 0).len() == 0);
    }
}

} // verus!
