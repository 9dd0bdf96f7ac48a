use std::collections::VecDeque;

use async_udx::addr::{IpAddr, SocketAddr};
use async_udx::error::{ErrorKind, UdxError};
use async_udx::packet::{Dgram, Header, Packet, PacketRef, PacketSet, Transmit};
use async_udx::socket::{
    iovectors_from_buf, EventIncoming, EventOutgoing, RecvRead, RecvRounds, SendGate, SendOutcome,
    SentPacket, SocketDrive, SocketStats, UdxSocket, MAX_LOOP, RECV_QUEUE_MAX_LEN,
};

fn addr(port: u16) -> SocketAddr {
    SocketAddr { ip: IpAddr::V4(0x7f000001), port, flowinfo: 0, scope_id: 0 }
}

fn header(stream_id: u32, seq: u32) -> Header {
    Header { typ: 1, data_offset: 0, stream_id, recv_win: u32::MAX, seq, ack: 0 }
}

fn shared(source: u64, seq: u32) -> PacketSet {
    let packet = Packet::new(addr(2), header(9, seq), b"abc");
    PacketSet::new(source, addr(2), vec![PacketRef::Shared(packet)], 23)
}

#[test]
fn socket_dgrams() {
    let mut socka: UdxSocket<()> = UdxSocket::bind(32);
    let mut sockb: UdxSocket<()> = UdxSocket::bind(32);
    let addra = addr(1);
    let addrb = addr(2);

    let msg = "hi!".as_bytes();
    assert!(sockb.recv().is_none());
    socka.push_event(UdxSocket::<()>::send(addrb, msg));
    assert_eq!(socka.poll_transmit(), Some(true));
    let transmit = &socka.transmits()[0];
    assert_eq!(transmit.destination, addrb);
    assert!(sockb.receive(&transmit.contents, transmit.contents.len(), addra).is_none());
    assert!(sockb.take_wakes().recv);
    let (from, buf) = sockb.recv().unwrap();
    assert_eq!(&buf, msg);
    assert_eq!(from, addra);
}

#[test]
fn packets_reach_their_stream() {
    let mut socket = UdxSocket::bind(32);
    let _stream = socket.connect(addr(2), 7, 9, "handle").unwrap();
    let mut datagram = header(7, 3).to_vec();
    datagram.extend_from_slice(b"body");
    datagram.extend_from_slice(b"junk after the datagram");
    let (id, event) = socket.receive(&datagram, 24, addr(2)).unwrap();
    assert_eq!(id, 7);
    assert_eq!(socket.stream(id), Some(&"handle"));
    let EventIncoming::Packet(packet) = event;
    assert_eq!(packet.header, header(7, 3));
    assert_eq!(&packet.buf[..], b"body");
    assert_eq!(packet.read_offset, 0);
    assert_eq!(packet.from, addr(2));
    assert_eq!(socket.stats().rx_bytes(), 24);
    assert_eq!(socket.stats().rx_dgrams(), 1);
}

#[test]
fn packets_for_unknown_streams_are_dgrams() {
    let mut socket: UdxSocket<()> = UdxSocket::bind(32);
    let _stream = socket.connect(addr(2), 7, 9, ()).unwrap();
    let datagram = header(8, 3).to_vec();
    assert!(socket.receive(&datagram, 20, addr(2)).is_none());
    assert_eq!(socket.recv(), Some((addr(2), datagram)));
    socket.remove_stream(7);
    let datagram = header(7, 3).to_vec();
    assert!(socket.receive(&datagram, 20, addr(2)).is_none());
    assert_eq!(socket.recv(), Some((addr(2), datagram)));
}

#[test]
fn too_many_dgrams_are_dropped() {
    let mut socket: UdxSocket<()> = UdxSocket::bind(32);
    for i in 0..RECV_QUEUE_MAX_LEN + 5 {
        assert!(socket.receive(&[i as u8], 1, addr(2)).is_none());
    }
    for i in 0..RECV_QUEUE_MAX_LEN {
        assert_eq!(socket.recv(), Some((addr(2), vec![i as u8])));
    }
    assert_eq!(socket.recv(), None);
    assert_eq!(socket.stats().rx_dgrams(), RECV_QUEUE_MAX_LEN + 5);
}

#[test]
fn batches_are_filled_in_order() {
    let mut socket: UdxSocket<()> = UdxSocket::bind(2);
    assert_eq!(socket.poll_transmit(), None);
    for i in 0..3 {
        socket.push_event(UdxSocket::<()>::send(addr(2), &[i]));
    }
    assert_eq!(socket.poll_transmit(), Some(false));
    assert_eq!(socket.transmits().len(), 2);
    assert_eq!(socket.on_send(SendOutcome::Sent(2), false, 1), Ok(true));
    assert_eq!(socket.poll_transmit(), Some(true));
    assert_eq!(socket.transmits()[0].contents, vec![2]);
    assert_eq!(socket.on_send(SendOutcome::Pending, true, 1), Ok(false));
    assert_eq!(socket.transmits().len(), 1);
    assert_eq!(socket.on_send(SendOutcome::Sent(1), true, 1), Ok(false));
    let stats = socket.stats();
    assert_eq!((stats.tx_transmits(), stats.tx_dgrams(), stats.tx_bytes()), (3, 3, 3));
}

#[test]
fn dropped_streams_are_forgotten() {
    let mut socket: UdxSocket<()> = UdxSocket::bind(32);
    let _stream = socket.connect(addr(2), 7, 9, ()).unwrap();
    socket.push_event(EventOutgoing::StreamDropped(7));
    assert_eq!(socket.poll_transmit(), None);
    assert_eq!(socket.stream(7), None);
}

#[test]
fn sent_packets_are_reported() {
    let mut socket: UdxSocket<()> = UdxSocket::bind(32);
    socket.push_event(EventOutgoing::Transmit(shared(9, 4)));
    socket.push_event(EventOutgoing::Transmit(shared(9, 5)));
    assert_eq!(socket.poll_transmit(), Some(true));
    assert!(socket.can_track(1));
    assert_eq!(socket.on_send(SendOutcome::Sent(1), true, 1), Ok(false));
    let sent = SentPacket { source: 9, seq: 4 };
    assert_eq!(socket.take_sent(), vec![sent]);
    assert_eq!(socket.take_sent(), vec![]);
    assert_eq!(socket.transmits().len(), 1);
}

#[test]
fn acknowledged_packets_are_not_sent() {
    let mut socket: UdxSocket<()> = UdxSocket::bind(32);
    // Two streams that go to the same stream of the same remote.
    let one = socket.connect(addr(2), 7, 9, ()).unwrap();
    let other = socket.connect(addr(2), 8, 9, ()).unwrap();
    assert_ne!(one.source(), other.source());
    socket.push_event(EventOutgoing::Transmit(shared(one.source(), 4)));
    socket.push_event(EventOutgoing::Transmit(shared(other.source(), 4)));
    socket.push_event(EventOutgoing::Transmit(shared(one.source(), 5)));
    socket.mark_acked(one.source(), 4);
    assert_eq!(socket.poll_transmit(), Some(true));
    let lens: Vec<usize> = socket.transmits().iter().map(|t| t.contents.len()).collect();
    assert_eq!(lens, vec![0, 23, 23]);
}

#[test]
fn overflow_pauses_sending() {
    let mut socket: UdxSocket<()> = UdxSocket::bind(32);
    socket.push_event(UdxSocket::<()>::send(addr(2), b"x"));
    assert_eq!(socket.send_gate(false), SendGate::Transmit);
    assert_eq!(socket.poll_transmit(), Some(true));
    let overflow = UdxError::new(ErrorKind::Interrupted, "overflow");
    assert_eq!(socket.on_send(SendOutcome::Failed(overflow), true, 1), Ok(false));
    assert_eq!(socket.send_gate(false), SendGate::Paused);
    assert_eq!(socket.send_gate(true), SendGate::Cleared);
    assert_eq!(socket.send_gate(true), SendGate::Transmit);
    let other = UdxError::new(ErrorKind::PermissionDenied, "no");
    assert_eq!(socket.on_send(SendOutcome::Failed(other.clone()), true, 1), Err(other));
    assert_eq!(socket.transmits().len(), 1);
}

#[test]
fn drivers_finish_when_nobody_needs_the_socket() {
    let mut socket: UdxSocket<()> = UdxSocket::bind(32);
    assert_eq!(socket.finish_drive(true), SocketDrive::Again);
    assert_eq!(socket.finish_drive(false), SocketDrive::Wait);
    let _stream = socket.connect(addr(2), 7, 9, ()).unwrap();
    socket.drop_handle(3);
    assert!(!socket.take_wakes().drive);
    socket.drop_handle(2);
    assert!(socket.take_wakes().drive);
    assert_eq!(socket.finish_drive(false), SocketDrive::Wait);
    socket.remove_stream(7);
    assert_eq!(socket.finish_drive(true), SocketDrive::Again);
    assert_eq!(socket.finish_drive(false), SocketDrive::Finished);
}

#[test]
fn send_statistics_have_windows() {
    let mut stats = SocketStats::default();
    let transmit = Transmit {
        destination: addr(2),
        ecn: None,
        contents: vec![0; 50],
        segment_size: Some(20),
        src_ip: None,
    };
    stats.track_tx(&transmit, 5_000_000_000);
    stats.track_tx(&transmit, 6_000_000_000);
    assert_eq!((stats.tx_window_bytes(), stats.tx_window_dgrams()), (100, 6));
    stats.track_tx(&transmit, 6_000_000_001);
    assert_eq!((stats.tx_window_bytes(), stats.tx_window_dgrams()), (0, 0));
    stats.track_tx(&transmit, 6_500_000_000);
    assert_eq!((stats.tx_window_bytes(), stats.tx_window_dgrams()), (50, 3));
    assert_eq!((stats.tx_transmits(), stats.tx_dgrams(), stats.tx_bytes()), (4, 12, 200));
}

#[test]
fn receiving_lets_others_run() {
    let mut rounds = RecvRounds::new();
    let mut n = 0;
    while rounds.next() {
        n += 1;
    }
    assert_eq!(n, MAX_LOOP - 1);
}

#[test]
fn buffers_are_cut_into_equal_parts() {
    assert_eq!(iovectors_from_buf(12, 3), vec![(0, 4), (4, 8), (8, 12)]);
    assert_eq!(iovectors_from_buf(14, 3), vec![(0, 4), (4, 8), (8, 12)]);
    assert_eq!(iovectors_from_buf(1400 * 32, 32).len(), 32);
}

#[test]
fn socket_counters_have_room() {
    let mut socket: UdxSocket<()> = UdxSocket::bind(32);
    assert!(socket.can_receive(1, usize::MAX));
    assert!(socket.receive(b"x", 1, addr(2)).is_none());
    assert!(!socket.can_receive(1, usize::MAX));
    assert!(!socket.can_receive(usize::MAX, 1));
    assert!(socket.can_receive(1, 1400));
    assert!(socket.can_connect());
}

fn ready(dgrams: &[Vec<u8>]) -> RecvRead {
    RecvRead::Ready(dgrams.iter().map(|buf| Dgram::new(addr(2), buf.clone())).collect())
}

#[test]
fn reads_are_taken_in() {
    let mut socket: UdxSocket<()> = UdxSocket::bind(32);
    let _stream = socket.connect(addr(2), 7, 9, ()).unwrap();
    let reads = VecDeque::from(vec![
        ready(&[header(7, 1).to_vec(), b"stray".to_vec()]),
        ready(&[header(7, 2).to_vec()]),
        RecvRead::Pending,
    ]);
    let (result, deliveries) = socket.poll_recv(reads, &vec![]);
    assert_eq!(result, Ok(false));
    let seqs: Vec<(u32, u32)> = deliveries
        .iter()
        .map(|(id, EventIncoming::Packet(packet))| (*id, packet.header.seq))
        .collect();
    assert_eq!(seqs, vec![(7, 1), (7, 2)]);
    assert_eq!(socket.recv(), Some((addr(2), b"stray".to_vec())));
    assert_eq!(socket.stats().rx_dgrams(), 3);
    assert_eq!(socket.stats().rx_bytes(), 45);
}

#[test]
fn reads_end_with_a_failure() {
    let mut socket: UdxSocket<()> = UdxSocket::bind(32);
    let error = UdxError::new(ErrorKind::ConnectionRefused, "refused");
    let reads = VecDeque::from(vec![ready(&[b"a".to_vec()]), RecvRead::Failed(error.clone())]);
    assert_eq!(socket.poll_recv(reads, &vec![]).0, Err(error));
    assert_eq!(socket.recv(), Some((addr(2), b"a".to_vec())));
}

#[test]
fn reads_go_on_when_all_gave_datagrams() {
    let mut socket: UdxSocket<()> = UdxSocket::bind(32);
    let reads = (0..MAX_LOOP - 1).map(|_| ready(&[b"a".to_vec()])).collect();
    assert_eq!(socket.poll_recv(reads, &vec![]).0, Ok(true));
    assert_eq!(socket.stats().rx_dgrams(), MAX_LOOP - 1);
    let reads = (0..MAX_LOOP - 2).map(|_| ready(&[b"a".to_vec()])).collect();
    assert_eq!(socket.poll_recv(reads, &vec![]).0, Ok(false));
}

#[test]
fn streams_out_of_reach_are_forgotten() {
    let mut socket: UdxSocket<()> = UdxSocket::bind(32);
    let _stream = socket.connect(addr(2), 7, 9, ()).unwrap();
    let packet = header(7, 1).to_vec();
    let reads = VecDeque::from(vec![ready(&[packet.clone(), packet.clone()])]);
    let (result, deliveries) = socket.poll_recv(reads, &vec![7]);
    assert_eq!(result, Ok(false));
    assert!(deliveries.is_empty());
    assert_eq!(socket.stream(7), None);
    // The second packet belongs to no stream any more.
    assert_eq!(socket.recv(), Some((addr(2), packet)));
    assert_eq!(socket.recv(), None);
}
