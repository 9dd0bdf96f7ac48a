use std::collections::VecDeque;

use async_udx::addr::{IpAddr, SocketAddr};
use async_udx::constants::{
    UDX_HEADER_DATA, UDX_HEADER_END, UDX_HEADER_SACK, UDX_MAX_DATA_SIZE, UDX_MTU,
};
use async_udx::error::{ErrorKind, UdxError};
use async_udx::packet::{Header, IncomingPacket, PacketSet};
use async_udx::socket::{EventIncoming, EventOutgoing, SendOutcome, UdxSocket};
use async_udx::stream::{count_taken, Drive, StreamState, UdxStream};
use bytes::Bytes;
use tokio::io::ReadBuf;

fn addr(port: u16) -> SocketAddr {
    SocketAddr { ip: IpAddr::V4(0x7f000001), port, flowinfo: 0, scope_id: 0 }
}

/// One side of a connection.
struct Side {
    socket: UdxSocket<()>,
    stream: UdxStream,
    addr: SocketAddr,
    inbox: VecDeque<(EventIncoming, bool)>,
    finished: Option<bool>,
}

fn create_pair() -> (Side, Side) {
    let mut socka = UdxSocket::bind(32);
    let mut sockb = UdxSocket::bind(32);
    let streama = socka.connect(addr(2), 1, 2, ()).unwrap();
    let streamb = sockb.connect(addr(1), 2, 1, ()).unwrap();
    (
        Side {
            socket: socka,
            stream: streama,
            addr: addr(1),
            inbox: VecDeque::new(),
            finished: None,
        },
        Side {
            socket: sockb,
            stream: streamb,
            addr: addr(2),
            inbox: VecDeque::new(),
            finished: None,
        },
    )
}

/// Lets the driver of one side work, and returns the datagrams that it sends.
fn drive(side: &mut Side, fired: bool, now: u64) -> Vec<Vec<u8>> {
    let mut fired = fired;
    while side.finished.is_none() {
        let events = std::mem::take(&mut side.inbox);
        match side.stream.poll_drive(events, false, now) {
            Drive::Finished { notify_close, local_id } => {
                side.socket.push_event(EventOutgoing::StreamDropped(local_id));
                side.finished = Some(notify_close);
            }
            Drive::Timer => match side.stream.poll_drive_timer(fired, 10) {
                Drive::Wait(sets) => {
                    for set in sets {
                        side.socket.push_event(EventOutgoing::Transmit(set));
                    }
                    break;
                }
                _ => fired = false,
            },
            _ => {}
        }
    }
    let mut sent = Vec::new();
    if let Some(ran_out) = side.socket.poll_transmit() {
        for transmit in side.socket.transmits() {
            let size = transmit.segment_size.unwrap_or(transmit.contents.len().max(1));
            sent.extend(transmit.contents.chunks(size).map(|c| c.to_vec()));
        }
        let n = side.socket.transmits().len();
        assert!(side.socket.can_track(n));
        side.socket.on_send(SendOutcome::Sent(n), ran_out, 0).unwrap();
        for packet in side.socket.take_sent() {
            side.stream.mark_sent(packet.seq, now);
        }
    }
    sent
}

fn deliver(datagrams: Vec<Vec<u8>>, from: SocketAddr, to: &mut Side) {
    for datagram in datagrams {
        if let Some((_, event)) = to.socket.receive(&datagram, datagram.len(), from) {
            to.inbox.push_back((event, true));
        }
    }
}

/// Lets both sides work until nothing is sent.
fn settle(a: &mut Side, b: &mut Side) {
    loop {
        let sent = drive(a, false, 1);
        let from_a = sent.len();
        deliver(sent, a.addr, b);
        let sent = drive(b, false, 1);
        let from_b = sent.len();
        deliver(sent, b.addr, a);
        if from_a + from_b == 0 {
            break;
        }
    }
}

fn read(stream: &mut UdxStream, room: usize) -> (Vec<u8>, Option<Result<(), ErrorKind>>) {
    let mut bytes = vec![0u8; room];
    let mut buf = ReadBuf::new(&mut bytes);
    let result = stream.poll_read(&mut buf);
    (buf.filled().to_vec(), result.map(|r| r.map_err(|e| e.kind())))
}

fn write(stream: &mut UdxStream, buf: &[u8]) -> Option<Result<usize, ErrorKind>> {
    assert!(stream.can_send(buf.len()));
    stream.poll_write(buf).map(|r| r.map_err(|e| e.kind()))
}

fn incoming(typ: u32, seq: u32, ack: u32, data: &[u8]) -> IncomingPacket {
    IncomingPacket {
        header: Header { typ, data_offset: 0, stream_id: 1, recv_win: u32::MAX, seq, ack },
        buf: Bytes::copy_from_slice(data),
        read_offset: 0,
        from: addr(2),
    }
}

/// The headers and bodies of the packets in the sets.
fn packets(sets: &[PacketSet]) -> Vec<(Header, Vec<u8>)> {
    let mut all = Vec::new();
    for set in sets {
        let transmit = set.to_transmit();
        let size = transmit.segment_size.unwrap_or(transmit.contents.len().max(1));
        for part in transmit.contents.chunks(size) {
            all.push((Header::from_bytes(part).unwrap(), part[20..].to_vec()));
        }
    }
    all
}

fn sets(stream: &mut UdxStream, fired: bool) -> Vec<PacketSet> {
    match stream.poll_drive_timer(fired, 10) {
        Drive::Wait(sets) => sets,
        other => panic!("{:?}", other),
    }
}

#[test]
fn stream_read_write() {
    let (mut a, mut b) = create_pair();
    assert_eq!(a.addr, b.stream.remote_addr());

    let msg = vec![1, 2, 3];
    assert_eq!(write(&mut a.stream, &msg), Some(Ok(3)));
    settle(&mut a, &mut b);
    assert_eq!(read(&mut b.stream, 3), (msg, Some(Ok(()))));
}

#[test]
fn stream_close() {
    let (mut a, mut b) = create_pair();
    assert_eq!(a.addr, b.stream.remote_addr());

    // write a message.
    let msg = vec![1, 2, 3];
    assert_eq!(write(&mut a.stream, &msg), Some(Ok(3)));
    assert_eq!(a.stream.stats().inflight_packets, 1, "inflight 1 after send");

    // close the stream
    a.stream.close();
    assert_eq!(a.stream.stats().inflight_packets, 1, "inflight still 1 after send");

    // wait until closing is complete == all packages flushed
    settle(&mut a, &mut b);
    assert_eq!(a.finished, Some(true));
    assert_eq!(a.stream.stats().inflight_packets, 0, "inflight 0 after close await");

    // ensure reading on other end still works
    assert_eq!(read(&mut b.stream, 3), (msg.clone(), Some(Ok(()))), "read ok");

    // try to write on closed stream
    assert_eq!(
        write(&mut a.stream, &msg),
        Some(Err(ErrorKind::ConnectionReset)),
        "stream closed"
    );
    // try to read on closed stream
    assert_eq!(
        read(&mut a.stream, 3),
        (vec![], Some(Err(ErrorKind::ConnectionReset))),
        "stream closed"
    );
    // the other end was closed by its remote
    assert_eq!(read(&mut b.stream, 3), (vec![], Some(Err(ErrorKind::UnexpectedEof))));
    assert!(a.stream.closed() && b.stream.closed());
}

#[test]
fn much_data_arrives_in_order() {
    let (mut a, mut b) = create_pair();
    let data: Vec<u8> = (0..100_000u32).map(|i| (i * 7 % 251) as u8).collect();
    let mut written = 0;
    let mut got = Vec::new();
    while got.len() < data.len() {
        if written < data.len() {
            if let Some(result) = write(&mut a.stream, &data[written..]) {
                written += result.unwrap();
            }
        }
        settle(&mut a, &mut b);
        let (bytes, result) = read(&mut b.stream, 3000);
        assert_eq!(result, if bytes.is_empty() { None } else { Some(Ok(())) });
        got.extend(bytes);
    }
    assert_eq!(got, data);
    assert_eq!(a.stream.stats().inflight_bytes, 0);
    assert_eq!(a.stream.stats().tx_bytes, 100_000);
    assert_eq!(b.stream.stats().rx_bytes, 100_000);
}

#[test]
fn lost_packets_are_sent_again() {
    let (mut a, mut b) = create_pair();
    assert_eq!(write(&mut a.stream, b"hello"), Some(Ok(5)));
    assert_eq!(drive(&mut a, false, 1).len(), 1);
    // The datagram is lost, and the timer fires.
    let sent = drive(&mut a, true, 2);
    assert_eq!(sent.len(), 1);
    deliver(sent, a.addr, &mut b);
    settle(&mut a, &mut b);
    assert_eq!(read(&mut b.stream, 10), (b"hello".to_vec(), Some(Ok(()))));
    assert_eq!(a.stream.stats().inflight_packets, 0);
}

#[test]
fn reordered_and_repeated_packets_are_put_right() {
    let (mut a, mut b) = create_pair();
    for part in [&b"one"[..], b"two", b"three"] {
        assert!(write(&mut a.stream, part).is_some());
    }
    let mut sent = drive(&mut a, false, 1);
    sent.reverse();
    sent.push(sent[0].clone());
    deliver(sent, a.addr, &mut b);
    settle(&mut a, &mut b);
    assert_eq!(read(&mut b.stream, 20), (b"onetwothree".to_vec(), Some(Ok(()))));
}

#[test]
fn writes_are_cut_into_packets() {
    let mut stream = UdxStream::connect(addr(2), 2, 1, 0);
    let data: Vec<u8> = (0..2000).map(|i| i as u8).collect();
    assert_eq!(write(&mut stream, &data), Some(Ok(2000)));
    let sets = sets(&mut stream, false);
    let packets = packets(&sets);
    assert_eq!(packets.len(), 2);
    assert_eq!(packets[0].1.len(), UDX_MAX_DATA_SIZE);
    assert_eq!([&packets[0].1[..], &packets[1].1[..]].concat(), data);
    for (i, (header, _)) in packets.iter().enumerate() {
        assert_eq!(header.seq, i as u32);
        assert_eq!(header.typ, UDX_HEADER_DATA);
        assert_eq!(header.stream_id, 2);
        assert_eq!(header.recv_win, u32::MAX);
    }
    let stats = stream.stats();
    assert_eq!((stats.tx_packets, stats.tx_bytes), (2, 2000));
    assert_eq!((stats.inflight_packets, stats.inflight_bytes), (2, 2000));
}

#[test]
fn writes_wait_for_the_window() {
    let mut stream = UdxStream::connect(addr(2), 2, 1, 0);
    // The window holds two packets.
    assert_eq!(write(&mut stream, &vec![0; 10_000]), Some(Ok(2 * UDX_MAX_DATA_SIZE)));
    assert_eq!(write(&mut stream, &[1]), None);
    assert_eq!(write(&mut stream, &[]), Some(Ok(0)));
    assert!(!stream.take_wakes().write);
    // An acknowledgement makes room and wakes the writer.
    let events = VecDeque::from(vec![(EventIncoming::Packet(incoming(0, 0, 1, b"")), true)]);
    assert!(matches!(stream.poll_drive(events, false, 1), Drive::Timer));
    assert!(stream.take_wakes().write);
    assert_eq!(write(&mut stream, &vec![0; 10_000]), Some(Ok(2 * UDX_MAX_DATA_SIZE)));
}

#[test]
fn readers_wait_for_the_awaited_packet() {
    let mut stream = UdxStream::connect(addr(2), 2, 1, 0);
    assert_eq!(read(&mut stream, 5), (vec![], None));
    stream.handle_incoming(incoming(UDX_HEADER_DATA, 1, 0, b"b"), true, 1);
    assert!(!stream.take_wakes().read);
    stream.handle_incoming(incoming(UDX_HEADER_DATA, 0, 0, b"a"), true, 1);
    assert!(stream.take_wakes().read);
    assert_eq!(read(&mut stream, 5), (b"ab".to_vec(), Some(Ok(()))));
    let stats = stream.stats();
    assert_eq!((stats.rx_packets, stats.rx_bytes), (2, 2));
}

#[test]
fn data_is_acknowledged() {
    let mut stream = UdxStream::connect(addr(2), 2, 1, 0);
    stream.handle_incoming(incoming(UDX_HEADER_DATA, 0, 0, b"a"), true, 1);
    stream.handle_incoming(incoming(UDX_HEADER_DATA, 2, 0, b"c"), true, 1);
    stream.handle_incoming(incoming(UDX_HEADER_DATA, 1, 0, b"b"), true, 1);
    let sets = sets(&mut stream, false);
    let acks: Vec<u32> = packets(&sets).iter().map(|(h, _)| h.ack).collect();
    assert_eq!(acks, vec![1, 1, 3]);
    assert_eq!(stream.stats().tx_packets, 3);
}

#[test]
fn firewall_keeps_packets_out() {
    let mut stream = UdxStream::connect(addr(2), 2, 1, 0);
    stream.handle_incoming(incoming(UDX_HEADER_DATA, 0, 0, b"a"), false, 1);
    assert_eq!(stream.stats().rx_packets, 0);
    assert_eq!(read(&mut stream, 5), (vec![], None));
}

#[test]
fn selective_acknowledgements() {
    let mut stream = UdxStream::connect(addr(2), 2, 1, 0);
    for _ in 0..3 {
        assert_eq!(write(&mut stream, b"x"), Some(Ok(1)));
    }
    // The range from one to two; the last range of the list is not read.
    let mut data = Vec::new();
    for n in [1u32, 2, 0, 1] {
        data.extend_from_slice(&n.to_le_bytes());
    }
    stream.handle_incoming(incoming(UDX_HEADER_SACK, 0, 0, &data), true, 1);
    assert_eq!(stream.stats().inflight_packets, 2);
    assert_eq!(stream.take_acked(), vec![1]);
    assert_eq!(stream.take_acked(), Vec::<u32>::new());
    // The acknowledged packet is still queued, and is skipped.
    let sets = sets(&mut stream, false);
    let seqs: Vec<u32> = packets(&sets).iter().map(|(h, _)| h.seq).collect();
    assert_eq!(seqs, vec![0, 2]);
}

#[test]
fn acknowledged_packets_are_forgotten() {
    let mut stream = UdxStream::connect(addr(2), 2, 1, 0);
    for _ in 0..3 {
        assert_eq!(write(&mut stream, b"xy"), Some(Ok(2)));
    }
    stream.handle_incoming_max_remote_ack(2, 1);
    let stats = stream.stats();
    assert_eq!((stats.inflight_packets, stats.inflight_bytes), (1, 2));
    assert_eq!(stream.take_acked(), vec![0, 1]);
    // An older acknowledgement changes nothing.
    stream.handle_incoming_max_remote_ack(1, 1);
    assert_eq!(stream.stats(), stats);
}

#[test]
fn timeouts_shrink_the_window_and_end_the_stream() {
    let mut stream = UdxStream::connect(addr(2), 2, 1, 0);
    assert_eq!(stream.take_timer(), Some(1_000_000_000));
    // Nothing is underway: nothing happens.
    assert!(stream.poll_check_timeouts(true).is_ok());
    assert_eq!(stream.take_timer(), None);
    assert_eq!(write(&mut stream, b"x"), Some(Ok(1)));
    assert!(stream.poll_check_timeouts(false).is_ok());
    for _ in 0..6 {
        assert!(stream.poll_check_timeouts(true).is_ok());
        assert_eq!(stream.take_timer(), Some(2_000_000_000));
        stream.flush_waiting_packets();
    }
    let error = stream.poll_check_timeouts(true).unwrap_err();
    assert_eq!(error.kind(), ErrorKind::TimedOut);
    assert_eq!(error.reason(), "Max retransmits reached without ack");
    assert!(matches!(stream.poll_drive_timer(true, 10), Drive::Again));
    assert_eq!(write(&mut stream, b"x"), Some(Err(ErrorKind::TimedOut)));
}

#[test]
fn round_trips_of_retransmitted_packets_are_sampled() {
    let mut stream = UdxStream::connect(addr(2), 2, 1, 0);
    assert_eq!(write(&mut stream, b"x"), Some(Ok(1)));
    assert!(stream.poll_check_timeouts(true).is_ok());
    stream.flush_waiting_packets();
    stream.mark_sent(0, 100);
    stream.take_timer();
    stream.handle_incoming_max_remote_ack(1, 900);
    // 800 ms, and four times the half of it.
    assert_eq!(stream.take_timer(), Some(2_400_000_000));
}

#[test]
fn packet_sets_are_runs_of_one_size() {
    let mut stream = UdxStream::connect(addr(2), 2, 1, 0);
    for len in [1usize, 1, 1, 2, 2, 1] {
        assert_eq!(write(&mut stream, &vec![0; len]), Some(Ok(len)));
    }
    let sets = stream.poll_transmit(2);
    let lens: Vec<usize> = sets.iter().map(|s| s.len()).collect();
    assert_eq!(lens, vec![2, 1, 2, 1]);
    assert!(stream.poll_transmit(2).is_empty());
    for _ in 0..12 {
        assert_eq!(write(&mut stream, b"z"), Some(Ok(1)));
    }
    let lens: Vec<usize> = stream.poll_transmit(100).iter().map(|s| s.len()).collect();
    assert_eq!(lens, vec![10, 2]);
    for _ in 0..12 {
        assert_eq!(write(&mut stream, b"z"), Some(Ok(1)));
    }
    let lens: Vec<usize> = stream.poll_transmit(0).iter().map(|s| s.len()).collect();
    assert_eq!(lens, vec![12]);
}

#[test]
fn the_remote_closes_a_stream() {
    let mut stream = UdxStream::connect(addr(2), 2, 1, 0);
    assert!(!stream.closed());
    stream.handle_incoming(incoming(UDX_HEADER_END, 0, 0, b""), true, 1);
    assert!(stream.closed());
    assert_eq!(write(&mut stream, b"x"), Some(Err(ErrorKind::UnexpectedEof)));
    let sets = sets(&mut stream, false);
    assert_eq!(packets(&sets)[0].0.typ, UDX_HEADER_END);
    assert!(stream.closed_and_drained());
    let outcome = stream.poll_drive(VecDeque::new(), false, 1);
    assert!(matches!(outcome, Drive::Finished { notify_close: false, local_id: 1 }));
}

#[test]
fn a_packet_is_read_in_pieces() {
    let mut stream = UdxStream::connect(addr(2), 2, 1, 0);
    stream.handle_incoming(incoming(UDX_HEADER_DATA, 0, 0, &[1, 2, 3, 4, 5]), true, 1);
    assert_eq!(read(&mut stream, 3), (vec![1, 2, 3], Some(Ok(()))));
    assert_eq!(read(&mut stream, 3), (vec![4, 5], Some(Ok(()))));
    assert_eq!(read(&mut stream, 3), (vec![], None));
    // The same on a stream that is closed meanwhile.
    stream.handle_incoming(incoming(UDX_HEADER_DATA, 1, 0, &[6, 7, 8, 9]), true, 1);
    stream.close();
    assert_eq!(read(&mut stream, 3), (vec![6, 7, 8], Some(Ok(()))));
    assert_eq!(read(&mut stream, 3), (vec![9], Some(Ok(()))));
    assert_eq!(read(&mut stream, 3), (vec![], Some(Err(ErrorKind::ConnectionReset))));
}

#[test]
fn the_last_error_counts() {
    // Closing a stream that the remote closed.
    let mut stream = UdxStream::connect(addr(2), 2, 1, 0);
    stream.handle_incoming(incoming(UDX_HEADER_END, 0, 0, b""), true, 1);
    stream.close();
    assert_eq!(write(&mut stream, b"x"), Some(Err(ErrorKind::ConnectionReset)));
    // The remote's answer to that changes nothing.
    stream.handle_incoming(incoming(UDX_HEADER_END, 0, 0, b""), true, 1);
    assert_eq!(write(&mut stream, b"x"), Some(Err(ErrorKind::ConnectionReset)));
    // The remote closes a stream that timed out.
    let mut stream = UdxStream::connect(addr(2), 2, 1, 0);
    stream.terminate(UdxError::new(ErrorKind::TimedOut, ""));
    assert_eq!(write(&mut stream, b"x"), Some(Err(ErrorKind::TimedOut)));
    stream.handle_incoming(incoming(UDX_HEADER_END, 0, 0, b""), true, 1);
    assert_eq!(write(&mut stream, b"x"), Some(Err(ErrorKind::UnexpectedEof)));
    // The socket of a closed stream goes away.
    let mut stream = UdxStream::connect(addr(2), 2, 1, 0);
    assert_eq!(write(&mut stream, b"x"), Some(Ok(1)));
    stream.close();
    assert!(matches!(stream.poll_drive(VecDeque::new(), true, 1), Drive::Again));
    assert_eq!(write(&mut stream, b"x"), Some(Err(ErrorKind::BrokenPipe)));
}

#[test]
fn a_stream_without_socket_ends() {
    let mut stream = UdxStream::connect(addr(2), 2, 1, 0);
    assert!(matches!(stream.poll_drive(VecDeque::new(), true, 1), Drive::Again));
    assert_eq!(write(&mut stream, b"x"), Some(Err(ErrorKind::BrokenPipe)));
}

#[test]
fn dropping_the_last_handle_closes_a_stream() {
    let mut stream = UdxStream::connect(addr(2), 2, 1, 0);
    stream.drop_handle(3);
    assert!(!stream.closed());
    stream.drop_handle(2);
    assert!(stream.closed());
    assert_eq!(read(&mut stream, 1), (vec![], Some(Err(ErrorKind::ConnectionReset))));
}

#[test]
fn closing_wakes_all_tasks() {
    let mut stream = UdxStream::connect(addr(2), 2, 1, 0);
    assert_eq!(read(&mut stream, 1).1, None);
    assert_eq!(write(&mut stream, &vec![0; 10_000]), Some(Ok(2760)));
    assert_eq!(write(&mut stream, &[0]), None);
    sets(&mut stream, false);
    stream.close();
    let wakes = stream.take_wakes();
    assert!(wakes.read && wakes.write && wakes.drive);
}

#[test]
fn only_new_acknowledgements_of_sent_packets_widen_the_window() {
    let mut stream = UdxStream::connect(addr(2), 2, 1, 0);
    assert_eq!(write(&mut stream, &vec![0; 5000]), Some(Ok(2760)));
    // Not sent, and not new: the window stays, and there is no room.
    stream.handle_incoming(incoming(0, 0, 3, b""), true, 1);
    stream.handle_incoming(incoming(0, 0, 0, b""), true, 1);
    assert_eq!(write(&mut stream, &[0; 100]), None);
    stream.handle_incoming(incoming(0, 0, 2, b""), true, 1);
    assert_eq!(write(&mut stream, &[0; UDX_MTU]), Some(Ok(UDX_MTU - 20)));
}

#[test]
fn sides_close_independently() {
    let mut state = StreamState::Open;
    assert!(!state.closed());
    state.close_remote();
    assert_eq!(state, StreamState::RemoteClosed);
    assert!(state.remote_closed() && !state.local_closed());
    state.close_local();
    assert_eq!(state, StreamState::BothClosed);
    state.close_local();
    assert_eq!(state, StreamState::BothClosed);
    let mut state = StreamState::Open;
    state.close_local();
    assert_eq!(state, StreamState::LocalClosed);
    state.close_remote();
    assert_eq!(state, StreamState::BothClosed);
}

#[test]
fn counters_have_room() {
    let stream = UdxStream::connect(addr(2), 2, 1, 0);
    assert!(stream.can_receive(1000, 1_000_000));
    assert!(!stream.can_receive(usize::MAX, 0));
    assert!(stream.can_receive(1, usize::MAX));
    assert!(stream.can_send(1_000_000));
    assert!(stream.can_answer());
    assert_eq!(stream.local_id(), 1);
    assert_eq!(stream.remote_id(), 2);
    assert_eq!(stream.source(), 0);
}

#[test]
fn packets_that_are_sent_again_are_the_same() {
    let data: Vec<u8> = (0..1500usize).map(|i| (i % 251) as u8).collect();
    let mut stream = UdxStream::connect(addr(2), 2, 1, 0);
    assert_eq!(write(&mut stream, &data), Some(Ok(1500)));
    let first = packets(&sets(&mut stream, false));
    assert_eq!(first.len(), 2);
    assert_eq!(first[0].1, data[..UDX_MAX_DATA_SIZE].to_vec());
    assert_eq!(first[1].1, data[UDX_MAX_DATA_SIZE..].to_vec());
    // The window shrinks to one packet.
    let again = packets(&sets(&mut stream, true));
    assert_eq!(again.len(), 1);
    assert_eq!(again[0], first[0]);
    // The end of the stream leaves what was sent and not acknowledged.
    stream.close();
    stream.handle_incoming_max_remote_ack(1, 5);
    let last = packets(&sets(&mut stream, false));
    assert_eq!(last.len(), 2);
    assert_eq!(last[0].0.typ, UDX_HEADER_END);
    assert_eq!(last[0].1, Vec::<u8>::new());
    assert_eq!(last[1], first[1]);
}

#[test]
fn writes_are_counted_beforehand() {
    let window = 2 * UDX_MTU;
    assert_eq!(count_taken(0, window, 0), (0, 0));
    assert_eq!(count_taken(0, window, UDX_MAX_DATA_SIZE), (1, 1380));
    assert_eq!(count_taken(0, window, UDX_MAX_DATA_SIZE + 1), (2, 1381));
    assert_eq!(count_taken(0, window, 5000), (2, 2760));
    assert_eq!(count_taken(window, window, 1), (0, 0));
    assert_eq!(count_taken(usize::MAX, usize::MAX, 5), (0, 0));
    let mut stream = UdxStream::connect(addr(2), 2, 1, 0);
    assert_eq!(write(&mut stream, &vec![0; 5000]), Some(Ok(2760)));
}
