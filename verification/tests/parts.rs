use async_udx::addr::{IpAddr, SocketAddr};
use async_udx::congestion::{grow, shrink};
use async_udx::error::{ErrorKind, UdxError};
use async_udx::lock_log::LockLog;
use async_udx::packet::{Header, IncomingPacket};
use async_udx::reassembly::Reassembly;
use async_udx::rtt::RttEstimator;
use bytes::Bytes;
use tokio::io::ReadBuf;

fn packet(seq: u32, data: &[u8]) -> IncomingPacket {
    IncomingPacket {
        header: Header { typ: 1, data_offset: 0, stream_id: 1, recv_win: 0, seq, ack: 0 },
        buf: Bytes::copy_from_slice(data),
        read_offset: 0,
        from: SocketAddr { ip: IpAddr::V4(0), port: 0, flowinfo: 0, scope_id: 0 },
    }
}

fn read(rx: &mut Reassembly, room: usize) -> (Vec<u8>, bool) {
    let mut bytes = vec![0u8; room];
    let mut buf = ReadBuf::new(&mut bytes);
    let did_read = rx.read_next(&mut buf);
    (buf.filled().to_vec(), did_read)
}

#[test]
fn errors_have_kind_and_reason() {
    assert_eq!(UdxError::close_graceful().kind(), ErrorKind::ConnectionReset);
    assert_eq!(UdxError::close_graceful().reason(), "");
    assert!(UdxError::close_graceful().is_close_graceful());
    assert!(!UdxError::closed_by_remote().is_close_graceful());
    assert!(!UdxError::new(ErrorKind::ConnectionReset, "reset").is_close_graceful());
    assert_eq!(UdxError::closed_by_remote().kind(), ErrorKind::UnexpectedEof);
    let error = UdxError::new(ErrorKind::TimedOut, "late");
    assert_eq!(error.clone(), error);
    assert_eq!(error.reason(), "late");
}

#[test]
fn first_round_trip_is_taken_as_it_is() {
    let mut rtt = RttEstimator::new();
    assert_eq!(rtt.rto(), 1_000_000_000);
    rtt.sample(600_000_000);
    assert_eq!(rtt.srtt(), 600_000_000);
    assert_eq!(rtt.rttvar(), 300_000_000);
    assert_eq!(rtt.rto(), 1_800_000_000);
}

#[test]
fn later_round_trips_are_weighed_in() {
    let mut rtt = RttEstimator::new();
    rtt.sample(800_000_000);
    rtt.sample(1_600_000_000);
    // (3 * 400 + 800) / 4 and (7 * 800 + 1600) / 8
    assert_eq!(rtt.rttvar(), 500_000_000);
    assert_eq!(rtt.srtt(), 900_000_000);
    assert_eq!(rtt.rto(), 2_900_000_000);
    rtt.sample(100_000_000);
    assert_eq!(rtt.rttvar(), 575_000_000);
    assert_eq!(rtt.srtt(), 800_000_000);
}

#[test]
fn timeout_is_at_least_a_second_and_allows_for_the_clock() {
    let mut rtt = RttEstimator::new();
    rtt.sample(1_000_000);
    assert_eq!(rtt.rto(), 1_000_000_000);
    let mut rtt = RttEstimator::new();
    rtt.sample(2_000_000_000);
    for _ in 0..60 {
        rtt.sample(2_000_000_000);
    }
    // The variation has vanished: the clock granularity is left.
    assert_eq!(rtt.rto(), 2_020_000_000);
}

#[test]
fn window_grows_and_shrinks() {
    assert_eq!(grow(2800), 4200);
    assert_eq!(grow(65534), 66934);
    assert_eq!(grow(65535), 65564);
    assert_eq!(grow(3_000_000), 3_000_001);
    assert_eq!(shrink(10_000), 5_000);
    assert_eq!(shrink(2_800), 1_400);
    assert_eq!(shrink(1_400), 1_400);
}

#[test]
fn packets_are_read_in_order() {
    let mut rx = Reassembly::new();
    rx.insert(packet(1, b"cd"));
    rx.advance();
    assert_eq!(rx.ack(), 0);
    assert_eq!(read(&mut rx, 10), (vec![], false));
    rx.insert(packet(0, b"ab"));
    rx.advance();
    assert_eq!(rx.ack(), 2);
    assert_eq!(read(&mut rx, 10), (b"abcd".to_vec(), true));
    assert_eq!(read(&mut rx, 10), (vec![], false));
}

#[test]
fn packets_that_came_before_are_ignored() {
    let mut rx = Reassembly::new();
    rx.insert(packet(0, b"ab"));
    rx.advance();
    rx.insert(packet(0, b"xx"));
    rx.advance();
    assert_eq!(rx.ack(), 1);
    assert_eq!(read(&mut rx, 10), (b"ab".to_vec(), true));
    rx.insert(packet(0, b"yy"));
    rx.advance();
    assert_eq!(read(&mut rx, 10), (vec![], false));
}

#[test]
fn packets_are_read_in_parts() {
    let mut rx = Reassembly::new();
    rx.insert(packet(0, b"abcdef"));
    rx.insert(packet(1, b"gh"));
    rx.advance();
    assert_eq!(read(&mut rx, 4), (b"abcd".to_vec(), false));
    assert_eq!(read(&mut rx, 3), (b"efg".to_vec(), true));
    assert_eq!(read(&mut rx, 3), (b"h".to_vec(), true));
}

#[test]
fn packets_are_counted_one_by_one() {
    let mut rx = Reassembly::new();
    rx.insert(packet(0, b"a"));
    rx.insert(packet(1, b"b"));
    assert!(rx.advance_one());
    assert!(rx.advance_one());
    assert!(!rx.advance_one());
    assert_eq!(rx.ack(), 2);
}

#[test]
fn last_owners_of_a_lock() {
    let mut log = LockLog::new();
    for i in 0..25u128 {
        log.released("purpose", i);
    }
    assert_eq!(log.len(), 20);
    assert_eq!(log.owner(0), ("purpose", 24));
    assert_eq!(log.owner(19), ("purpose", 5));
    assert!(!LockLog::is_slow(2_000_000));
    assert!(LockLog::is_slow(2_000_001));
}
