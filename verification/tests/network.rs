use shellcore::errno::Errno;
use shellcore::mm::user_buffer::UserBuffer;
use shellcore::net::echo::{local_delivery, packet_checksum};
use shellcore::net::netlink::{nlmsg_align, parse_rt_attributes, Cidr, StandardNetlinkSocket};
use shellcore::net::socket::{
    after_wait, ephemeral_port, get_stat, hand_over, poll_socket, AfterWait, Endpoint, PollAction,
    PollBudget, RawSocket, RawWrite, SendProblem, SocketView, TcpRead, TcpSocket, TcpState,
    TcpView, TcpWrite, UdpSocket, UdpWrite, Waiting,
};
use shellcore::net::unix::{ReadStep, UnixSocket, UnixSocketType, WriteStep};

fn home() -> Cidr {
    Cidr { a: 10, b: 0, c: 2, d: 15, prefix_len: 24 }
}

fn ping() -> Vec<u8> {
    let mut packet = vec![0u8; 32];
    packet[0] = 0x45;
    packet[9] = 1;
    packet[12..16].copy_from_slice(&[10, 0, 2, 99]);
    packet[16..20].copy_from_slice(&[10, 0, 2, 15]);
    packet[20] = 8;
    packet[24..32].copy_from_slice(&[0x12, 0x34, 0, 1, 0xab, 0xcd, 0xef, 0x01]);
    packet
}

#[test]
fn a_request_to_oneself_is_answered() {
    let reply = local_delivery(ping(), &vec![home()]).unwrap();
    assert_eq!(reply[12..16], [10, 0, 2, 15]);
    assert_eq!(reply[16..20], [10, 0, 2, 99]);
    assert_eq!(reply[20], 0);
    assert_eq!(packet_checksum(&reply, 20), 0);
    assert_eq!(reply[24..], ping()[24..]);
}

#[test]
fn other_packets_arrive_as_they_are_or_leave() {
    let mut packet = ping();
    packet[9] = 17;
    assert_eq!(local_delivery(packet.clone(), &vec![home()]), Some(packet.clone()));
    packet[19] = 16;
    assert_eq!(local_delivery(packet, &vec![home()]), None);
    assert_eq!(local_delivery(vec![0; 19], &vec![home()]), None);
}

#[test]
fn check_numbers() {
    assert_eq!(packet_checksum(&vec![0x12, 0x34], 0), 0xedcb);
    assert_eq!(packet_checksum(&vec![0xff, 0xff, 0x00, 0x01], 0), 0xfffe);
    assert_eq!(packet_checksum(&vec![0x12], 0), 0xedff);
}

#[test]
fn packets_to_oneself_are_read_again() {
    let mut socket = RawSocket::new(1);
    let addrs = vec![home()];
    let packet = UserBuffer::new(vec![ping()[..10].to_vec(), ping()[10..].to_vec()]);
    assert!(matches!(socket.write(&packet, &addrs), RawWrite::Local(32)));
    let mut buf = UserBuffer::new(vec![vec![0; 40]]);
    assert_eq!(socket.read_local(&mut buf), Some(32));
    assert_eq!(buf.buffers[0][20], 0);
    assert_eq!(socket.read_local(&mut buf), None);
    match socket.write(&packet, &vec![]) {
        RawWrite::Send(data) => assert_eq!(data, ping()),
        RawWrite::Local(_) => panic!("it goes elsewhere"),
    }
}

fn request(kind: u16, seq: u32, body: &[u8]) -> Vec<u8> {
    let mut msg = Vec::new();
    msg.extend_from_slice(&(16 + body.len() as u32).to_le_bytes());
    msg.extend_from_slice(&kind.to_le_bytes());
    msg.extend_from_slice(&1u16.to_le_bytes());
    msg.extend_from_slice(&seq.to_le_bytes());
    msg.extend_from_slice(&77u32.to_le_bytes());
    msg.extend_from_slice(body);
    msg
}

fn read_all(socket: &mut StandardNetlinkSocket) -> Vec<u8> {
    let mut all = Vec::new();
    while socket.readable() {
        let mut buf = UserBuffer::new(vec![vec![0; 512]]);
        let len = socket.read(&mut buf);
        all.extend_from_slice(&buf.buffers[0][..len]);
    }
    all
}

#[test]
fn links_and_addresses_are_listed() {
    let mut socket = StandardNetlinkSocket::new(0);
    let mut addrs = vec![home()];
    assert!(!socket.readable());
    let buf = UserBuffer::new(vec![request(22, 5, &[0; 8])]);
    assert_eq!(socket.write(&buf, &mut addrs, 8, [2, 0, 0, 0, 0, 1]), 24);
    let answer = read_all(&mut socket);
    assert_eq!(answer[4..6], 20u16.to_le_bytes());
    assert_eq!(answer[8..12], 5u32.to_le_bytes());
    assert_eq!(answer[17], 24);
    let len = u32::from_le_bytes([answer[0], answer[1], answer[2], answer[3]]) as usize;
    assert_eq!(answer[len + 4..len + 6], 3u16.to_le_bytes());
    let buf = UserBuffer::new(vec![request(18, 6, &[0; 16])]);
    socket.write(&buf, &mut addrs, 8, [2, 0, 0, 0, 0, 1]);
    let answer = read_all(&mut socket);
    assert_eq!(answer[4..6], 16u16.to_le_bytes());
    assert!(answer.windows(6).any(|w| w == [2, 0, 0, 0, 0, 1]));
}

#[test]
fn an_address_that_was_set_is_told() {
    let mut socket = StandardNetlinkSocket::new(0);
    let mut addrs = vec![];
    let mut body = vec![2, 16, 0, 0, 2, 0, 0, 0];
    body.extend_from_slice(&8u16.to_le_bytes());
    body.extend_from_slice(&2u16.to_le_bytes());
    body.extend_from_slice(&[192, 168, 1, 5]);
    let buf = UserBuffer::new(vec![request(20, 9, &body)]);
    socket.write(&buf, &mut addrs, 8, [0; 6]);
    assert_eq!(addrs, vec![Cidr { a: 192, b: 168, c: 1, d: 5, prefix_len: 16 }]);
    let answer = read_all(&mut socket);
    assert_eq!(answer[4..6], 2u16.to_le_bytes());
    assert_eq!(answer[16..20], [0; 4]);
    assert_eq!(nlmsg_align(17), 20);
    assert_eq!(parse_rt_attributes(&vec![0; 24], 8), None);
}

#[test]
fn a_stream_keeps_bytes_and_order() {
    let (mut left, mut right) = UnixSocket::pair(UnixSocketType::Stream);
    assert!(!right.ready_to_read(false));
    let send = |to: &mut UnixSocket, bytes: &[u8]| {
        to.receive(&UserBuffer::new(vec![bytes.to_vec()]), false)
    };
    assert_eq!(send(&mut right, b"hello"), WriteStep::Done(5, None));
    right.attach_bpf(4);
    assert_eq!(send(&mut right, b" world"), WriteStep::Done(6, Some(4)));
    let mut buf = UserBuffer::new(vec![vec![0; 3]]);
    assert_eq!(right.read(&mut buf, false, false), ReadStep::Done(3));
    assert_eq!(buf.buffers[0], b"hel".to_vec());
    assert_eq!(right.read(&mut buf, false, false), ReadStep::Done(2));
    assert_eq!(buf.buffers[0][..2], *b"lo");
    assert_eq!(right.read(&mut buf, false, false), ReadStep::Done(3));
    assert_eq!(buf.buffers[0], b" wo".to_vec());
    assert_eq!(left.read(&mut buf, false, false), ReadStep::Suspend);
    assert_eq!(left.read(&mut buf, true, false), ReadStep::Done(0));
    assert_eq!(left.read(&mut buf, false, true), ReadStep::Done(0));
}

#[test]
fn messages_are_cut_and_room_is_limited() {
    let (_, mut right) = UnixSocket::pair(UnixSocketType::Datagram);
    let big = UserBuffer::new(vec![vec![7; 70_000]]);
    assert_eq!(right.receive(&big, false), WriteStep::Done(65_536, None));
    assert!(!UnixSocket::ready_to_write(Some(&right)));
    assert!(UnixSocket::ready_to_write(None));
    assert_eq!(right.receive(&big, false), WriteStep::Suspend);
    assert_eq!(right.receive(&big, true), WriteStep::Done(0, None));
    let mut buf = UserBuffer::new(vec![vec![0; 10]]);
    assert_eq!(right.read(&mut buf, false, false), ReadStep::Done(10));
    assert!(!right.ready_to_read(false));
    assert!(right.has_room());
}

fn view(state: TcpState) -> TcpView {
    TcpView {
        state,
        can_recv: false,
        may_recv: true,
        can_send: false,
        may_send: true,
        is_active: true,
    }
}

#[test]
fn connections_are_read_written_and_waited_for() {
    let mut socket = TcpSocket::new(3);
    let open = view(TcpState::Established);
    assert!(!socket.readable(open));
    assert_eq!(socket.read_step(open, 10), TcpRead::Wait);
    assert_eq!(socket.read_step(view(TcpState::CloseWait), 10), TcpRead::End);
    assert_eq!(socket.read_step(TcpView { can_recv: true, ..open }, 10), TcpRead::Receive);
    assert_eq!(socket.read_step(open, 0), TcpRead::End);
    assert_eq!(socket.write_step(open, 5), TcpWrite::Wait);
    assert_eq!(socket.write_step(TcpView { can_send: true, ..open }, 5), TcpWrite::Send);
    assert_eq!(socket.write_step(TcpView { may_send: false, ..open }, 5), TcpWrite::End);
    assert!(socket.writable(TcpView { may_send: false, ..open }));
    assert!(!socket.readable(view(TcpState::Listen)));
    socket.is_listener = true;
    assert!(socket.readable(open));
    let local = Endpoint { a: 127, b: 0, c: 0, d: 1, port: 80 };
    assert_eq!(socket.prepare_connect(local, 16_385), (49_153, true));
    assert_eq!(socket.prepare_connect(local, 99), (49_153, true));
    assert_eq!(TcpSocket::connect_result(false), Err(Errno::ECONNREFUSED));
    assert_eq!(after_wait(0x2000), AfterWait::Interrupted);
    assert_eq!(after_wait(0x1), AfterWait::Suspend);
    assert_eq!(get_stat().mode, 0o140666);
}

#[test]
fn messages_are_sent_and_taken() {
    let mut socket = UdpSocket::new(4);
    assert_eq!((socket.get_flags(), socket.recv_timeout), (0, None));
    assert!(socket.set_flags(0x800));
    assert_eq!(socket.get_flags(), 0x800);
    assert!(socket.read_waiters.queue.is_empty() && socket.write_waiters.queue.is_empty());
    let there = Endpoint { a: 10, b: 0, c: 2, d: 2, port: 53 };
    assert_eq!(ephemeral_port(5), 49_157);
    assert_eq!(UdpSocket::bind_port(0, 5), 49_157);
    assert_eq!(UdpSocket::bind_port(80, 5), 80);
    assert_eq!(socket.write_step(true), UdpWrite::End);
    assert_eq!(socket.connect(there, 5), Some(49_157));
    assert_eq!(socket.bind(49_157, false), Err(Errno::EADDRINUSE));
    assert_eq!(socket.bind(49_157, true), Ok(()));
    assert_eq!(socket.connect(there, 6), None);
    assert_eq!(socket.write_step(true), UdpWrite::Send(there));
    assert_eq!(socket.write_step(false), UdpWrite::Wait);
    assert_eq!(UdpSocket::wait_step(true), Waiting::Block);
    socket.disconnect();
    assert_eq!(socket.remote_ep, None);
    assert_eq!(UdpSocket::sendto_result(false, 5, None), Err(Errno::EAGAIN));
    assert_eq!(UdpSocket::sendto_result(true, 5, None), Ok(5));
    assert_eq!(
        UdpSocket::sendto_result(true, 5, Some(SendProblem::BufferFull)),
        Err(Errno::EAGAIN)
    );
    assert_eq!(
        UdpSocket::sendto_result(true, 5, Some(SendProblem::Unaddressable)),
        Err(Errno::EDESTADDRREQ)
    );
    let mut buf = vec![9; 3];
    assert_eq!(UdpSocket::recvfrom(false, &None, &mut buf), None);
    let message = Some((vec![1, 2, 3, 4, 5], there));
    assert_eq!(UdpSocket::recvfrom(true, &message, &mut buf), Some((3, there)));
    assert_eq!(buf, vec![1, 2, 3]);
    assert_eq!(UdpSocket::recvfrom(true, &None, &mut buf).unwrap().0, 0);
}

#[test]
fn sockets_are_polled() {
    let wake = PollAction { wake_reader: true, wake_writer: false, dead: false };
    assert_eq!(poll_socket(SocketView::Packets(true, false), true), wake);
    let closed = SocketView::Connection(view(TcpState::Closed));
    assert!(poll_socket(closed, false).dead);
    assert!(!poll_socket(closed, true).dead);
    let listening = SocketView::Connection(view(TcpState::Listen));
    assert!(poll_socket(listening, true).wake_reader);
    let ended = TcpView { may_recv: false, ..view(TcpState::CloseWait) };
    assert!(poll_socket(SocketView::Connection(ended), true).wake_reader);
    let mut budget = PollBudget::new();
    let mut rounds = 0;
    while budget.take() {
        rounds += 1;
        budget.polled(rounds < 3);
    }
    assert_eq!(rounds, 3);
    assert!(budget.changed);
    let mut budget = PollBudget::new();
    let mut rounds = 0;
    while budget.take() {
        rounds += 1;
        budget.polled(true);
    }
    assert_eq!(rounds, 32);
}

#[test]
fn what_came_is_handed_over() {
    let mut buf = UserBuffer::new(vec![vec![0; 2], vec![0; 2]]);
    assert_eq!(hand_over(&vec![1, 2, 3], &mut buf), 3);
    assert_eq!(buf.buffers, vec![vec![1, 2], vec![3, 0]]);
}
