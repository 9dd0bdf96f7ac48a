use std::collections::VecDeque;

use async_udx::addr::{IpAddr, SocketAddr};
use async_udx::error::ErrorKind;
use async_udx::simple::{
    Header, IncomingPacket, Packet, TransmitStep, UdxError, UdxSocket, UdxStream, MAX_LOOP,
};
use async_udx::socket::{EventIncoming, SendOutcome};
use bytes::Bytes;
use tokio::io::ReadBuf;

fn addr(port: u16) -> SocketAddr {
    SocketAddr { ip: IpAddr::V4(0x7f000001), port, flowinfo: 0, scope_id: 0 }
}

fn event(typ: u32, seq: u32, ack: u32, data: &[u8]) -> EventIncoming {
    EventIncoming::Packet(IncomingPacket {
        header: Header { typ, data_offset: 0, stream_id: 1, recv_win: 0, seq, ack },
        buf: Bytes::copy_from_slice(data),
        read_offset: 0,
        from: addr(2),
    })
}

fn read_simple(stream: &mut UdxStream, room: usize) -> (Vec<u8>, Option<Result<(), ErrorKind>>) {
    let mut bytes = vec![0u8; room];
    let mut buf = ReadBuf::new(&mut bytes);
    let result = stream.poll_read(&mut buf);
    (buf.filled().to_vec(), result.map(|r| r.map_err(|e| e.kind())))
}

fn write_simple(stream: &mut UdxStream, buf: &[u8], now: u64) -> Option<Result<usize, ErrorKind>> {
    assert!(stream.can_send(buf.len()));
    stream.poll_write(buf, now).map(|r| r.map_err(|e| e.kind()))
}

#[test]
fn simple_packets() {
    let header = Header { typ: 1, data_offset: 0, stream_id: 3, recv_win: 4, seq: 5, ack: 6 };
    let packet = Packet::new(addr(1), header, b"abc", 7);
    assert_eq!(packet.time_sent, 7);
    assert_eq!(packet.transmits, 0);
    assert_eq!(packet.seq(), 5);
    assert!(packet.has_type(1) && !packet.has_type(2));
    assert_eq!(packet.buf.len(), 23);
    assert_eq!(Header::from_bytes(&packet.buf).unwrap(), header);
    assert_eq!(&packet.buf[20..], b"abc");
    assert_eq!(packet.duplicate().buf, packet.buf);
}

#[test]
fn simple_streams_carry_data() {
    let mut socket: UdxSocket<()> = UdxSocket::bind();
    let mut a = UdxSocket::bind().connect(addr(2), 1, 2, ()).unwrap();
    let mut b = socket.connect(addr(1), 2, 1, ()).unwrap();
    assert_eq!(read_simple(&mut b, 4), (vec![], None));
    assert_eq!(write_simple(&mut a, b"hello", 1), Some(Ok(5)));
    let mut events = VecDeque::new();
    for packet in a.poll_drive(false) {
        let (id, event) = socket.poll_recv(&packet.buf, addr(1)).unwrap().unwrap();
        assert_eq!(id, 2);
        events.push_back(event);
    }
    b.poll_incoming(events, 2);
    assert!(b.take_wakes().read);
    assert_eq!(read_simple(&mut b, 10), (b"hello".to_vec(), Some(Ok(()))));
    let acks = b.poll_drive(false);
    assert_eq!(acks.len(), 1);
    assert_eq!(acks[0].header.ack, 1);
    assert_eq!(acks[0].header.stream_id, 1);
}

#[test]
fn each_packet_is_acknowledged() {
    let mut stream = UdxSocket::bind().connect(addr(2), 1, 2, ()).unwrap();
    let events = VecDeque::from(vec![event(1, 1, 0, b"b"), event(1, 0, 0, b"a"), event(1, 3, 0, b"d")]);
    stream.poll_incoming(events, 1);
    let acks: Vec<u32> = stream.poll_drive(false).iter().map(|p| p.header.ack).collect();
    assert_eq!(acks, vec![1, 2]);
    assert_eq!(read_simple(&mut stream, 1), (b"a".to_vec(), Some(Ok(()))));
    assert_eq!(read_simple(&mut stream, 10), (b"b".to_vec(), Some(Ok(()))));
    assert_eq!(read_simple(&mut stream, 10), (vec![], None));
}

#[test]
fn a_simple_packet_is_read_in_pieces() {
    let mut stream = UdxSocket::bind().connect(addr(2), 1, 2, ()).unwrap();
    stream.poll_incoming(VecDeque::from(vec![event(1, 0, 0, &[1, 2, 3, 4, 5])]), 1);
    assert_eq!(read_simple(&mut stream, 3), (vec![1, 2, 3], Some(Ok(()))));
    assert_eq!(read_simple(&mut stream, 3), (vec![4, 5], Some(Ok(()))));
    assert_eq!(read_simple(&mut stream, 3), (vec![], None));
}

#[test]
fn simple_timeouts_resend_and_fail() {
    let mut stream = UdxSocket::bind().connect(addr(2), 1, 2, ()).unwrap();
    assert_eq!(stream.take_timer(), Some(1_000_000_000));
    assert_eq!(write_simple(&mut stream, b"x", 1), Some(Ok(1)));
    assert_eq!(stream.poll_drive(false).len(), 1);
    for n in 1..=5 {
        let packets = stream.poll_drive(true);
        assert_eq!(packets.len(), 1);
        assert_eq!(packets[0].transmits, n);
        assert_eq!(stream.take_timer(), Some(2_000_000_000));
    }
    assert_eq!(stream.poll_drive(true).len(), 0);
    assert_eq!(write_simple(&mut stream, b"x", 1), Some(Err(ErrorKind::TimedOut)));
    assert_eq!(read_simple(&mut stream, 1), (vec![], Some(Err(ErrorKind::TimedOut))));
}

#[test]
fn simple_round_trips_are_sampled() {
    let mut stream = UdxSocket::bind().connect(addr(2), 1, 2, ()).unwrap();
    assert_eq!(write_simple(&mut stream, b"x", 1_000), Some(Ok(1)));
    stream.poll_drive(true);
    assert!(stream.can_receive(1));
    stream.poll_incoming(VecDeque::from(vec![event(0, 0, 1, b"")]), 800_001_000);
    assert_eq!(stream.srtt(), 800_000_000);
    assert_eq!(stream.rttvar(), 400_000_000);
    assert_eq!(stream.take_timer(), Some(2_400_000_000));
}

#[test]
fn simple_writes_wait_for_the_window() {
    let mut stream = UdxSocket::bind().connect(addr(2), 1, 2, ()).unwrap();
    assert_eq!(write_simple(&mut stream, &vec![0; 9000], 1), Some(Ok(2760)));
    assert_eq!(write_simple(&mut stream, &[0], 1), None);
    stream.poll_incoming(VecDeque::from(vec![event(0, 0, 2, b"")]), 2);
    assert!(stream.take_wakes().write);
    // The window has grown by a packet.
    assert_eq!(write_simple(&mut stream, &vec![0; 9000], 1), Some(Ok(4140)));
}

#[test]
fn simple_sockets_send_one_packet_at_a_time() {
    let mut socket: UdxSocket<()> = UdxSocket::bind();
    assert_eq!(socket.poll_transmit(1), TransmitStep::Idle);
    let header = Header { typ: 1, data_offset: 0, stream_id: 3, recv_win: 4, seq: 5, ack: 6 };
    for _ in 0..2 {
        socket.push_packet(Packet::new(addr(1), header, b"abc", 7));
    }
    assert_eq!(socket.poll_transmit(1), TransmitStep::Took);
    assert_eq!(socket.poll_transmit(2), TransmitStep::Send);
    assert_eq!(socket.pending_send().unwrap().buf.len(), 23);
    assert_eq!(socket.poll_send_packet(SendOutcome::Pending), Ok(false));
    assert_eq!(socket.poll_send_packet(SendOutcome::Sent(22)), Ok(false));
    assert!(socket.pending_send().is_some());
    assert_eq!(socket.poll_send_packet(SendOutcome::Sent(23)), Ok(true));
    assert!(socket.pending_send().is_none());
    assert_eq!(socket.poll_transmit(3), TransmitStep::Took);
    let error = UdxError::new(ErrorKind::Other, "");
    assert_eq!(socket.poll_send_packet(SendOutcome::Failed(error.clone())), Err(error));
    assert!(socket.pending_send().is_none());
    assert_eq!(socket.poll_transmit(MAX_LOOP + 1), TransmitStep::Yield);
    assert!(UdxSocket::<()>::may_receive(MAX_LOOP));
    assert!(!UdxSocket::<()>::may_receive(MAX_LOOP + 1));
}

#[test]
fn simple_sockets_look_at_headers() {
    let mut socket = UdxSocket::bind();
    let _stream = socket.connect(addr(2), 3, 9, "handle").unwrap();
    let header = Header { typ: 1, data_offset: 0, stream_id: 3, recv_win: 4, seq: 5, ack: 6 };
    let mut datagram = header.to_vec();
    datagram.push(42);
    let (id, event) = socket.poll_recv(&datagram, addr(2)).unwrap().unwrap();
    assert_eq!((id, socket.stream(id)), (3, Some(&"handle")));
    let EventIncoming::Packet(packet) = event;
    assert_eq!(packet.header, header);
    assert_eq!(&packet.buf[..], &[42]);
    datagram[4] = 4;
    assert!(socket.poll_recv(&datagram, addr(2)).unwrap().is_none());
    let error = socket.poll_recv(b"junk", addr(2)).unwrap_err();
    assert_eq!(error.kind(), ErrorKind::InvalidData);
}

#[test]
fn simple_packets_that_are_sent_again_are_the_same() {
    let mut stream = UdxSocket::bind().connect(addr(2), 1, 2, ()).unwrap();
    let data: Vec<u8> = (0..1500usize).map(|i| (i % 251) as u8).collect();
    assert_eq!(write_simple(&mut stream, &data, 1), Some(Ok(1500)));
    let first = stream.poll_drive(false);
    let again = stream.poll_drive(true);
    assert_eq!((first.len(), again.len()), (2, 2));
    for (one, other) in first.iter().zip(again.iter()) {
        assert_eq!(one.header, other.header);
        assert_eq!(one.buf, other.buf);
    }
    assert_eq!(first[0].buf[20..].to_vec(), data[..1380].to_vec());
    assert_eq!(first[1].buf[20..].to_vec(), data[1380..].to_vec());
    assert!(!stream.failed());
    while !stream.failed() {
        stream.poll_drive(true);
    }
    assert_eq!(write_simple(&mut stream, b"x", 1), Some(Err(ErrorKind::TimedOut)));
}
