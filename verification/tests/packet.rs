use async_udx::addr::{IpAddr, SocketAddr};
use async_udx::constants::{UDX_HEADER_DATA, UDX_HEADER_END, UDX_HEADER_SACK, UDX_HEADER_SIZE};
use async_udx::error::ErrorKind;
use async_udx::packet::{
    read_u32_le, Dgram, Header, Packet, PacketBuf, PacketRef, PacketSet, Transmit,
};

fn addr(port: u16) -> SocketAddr {
    SocketAddr { ip: IpAddr::V4(0x7f000001), port, flowinfo: 0, scope_id: 0 }
}

fn header(seq: u32) -> Header {
    Header {
        typ: UDX_HEADER_DATA,
        data_offset: 0,
        stream_id: 0x01020304,
        recv_win: u32::MAX,
        seq,
        ack: 7,
    }
}

#[test]
fn header_bytes() {
    let h = Header { typ: 3, data_offset: 5, stream_id: 1, recv_win: 2, seq: 0x0403_0201, ack: 256 };
    assert_eq!(
        h.to_vec(),
        vec![255, 1, 3, 5, 1, 0, 0, 0, 2, 0, 0, 0, 1, 2, 3, 4, 0, 1, 0, 0]
    );
    assert_eq!(Header::SIZE, 20);
}

#[test]
fn header_keeps_only_the_lowest_byte_of_type_and_offset() {
    let h = Header { typ: 0x1_02, data_offset: 0x3_04, ..header(0) };
    let buf = h.to_vec();
    assert_eq!((buf[2], buf[3]), (2, 4));
}

#[test]
fn header_is_read_back() {
    let h = header(9);
    let mut buf = h.to_vec();
    buf.extend_from_slice(b"rest");
    assert_eq!(Header::from_bytes(&buf).unwrap(), h);
}

#[test]
fn header_is_written_back() {
    let mut buf = vec![0u8; 20];
    for (i, b) in buf.iter_mut().enumerate() {
        *b = (i * 13 + 1) as u8;
    }
    buf[0] = 255;
    buf[1] = 1;
    assert_eq!(Header::from_bytes(&buf).unwrap().to_vec(), buf);
}

#[test]
fn header_errors() {
    let good = header(1).to_vec();
    let mut bad_magic = good.clone();
    bad_magic[0] = 254;
    let mut bad_version = good.clone();
    bad_version[1] = 2;
    for buf in [&good[..19], &bad_magic[..], &bad_version[..], &[][..]] {
        let error = Header::from_bytes(buf).unwrap_err();
        assert_eq!(error.kind(), ErrorKind::InvalidData);
        assert_eq!(error.reason(), "Bad header");
    }
}

#[test]
fn header_encode_needs_room() {
    let mut short = [7u8; 19];
    assert!(!header(1).encode(&mut short));
    assert_eq!(short, [7u8; 19]);
    let mut long = [7u8; 22];
    assert!(header(1).encode(&mut long));
    assert_eq!(&long[..20], &header(1).to_vec()[..]);
    assert_eq!(&long[20..], &[7, 7]);
}

#[test]
fn header_flags() {
    let h = Header { typ: UDX_HEADER_DATA | UDX_HEADER_SACK, ..header(0) };
    assert!(h.has_typ(UDX_HEADER_DATA));
    assert!(h.has_typ(UDX_HEADER_SACK));
    assert!(!h.has_typ(UDX_HEADER_END));
}

#[test]
fn numbers_are_little_endian() {
    assert_eq!(read_u32_le(&[1, 2, 3, 4]), 0x0403_0201);
    assert_eq!(read_u32_le(&[255, 255, 255, 255]), u32::MAX);
}

#[test]
fn packet_bufs() {
    let mut only = PacketBuf::HeaderOnly([3u8; 20]);
    only.as_mut_slice()[1] = 9;
    assert_eq!(only.len(), 20);
    assert_eq!(only.as_slice()[..3], [3, 9, 3]);
    assert!(matches!(only, PacketBuf::HeaderOnly(_)));
    assert!(matches!(only.duplicate(), PacketBuf::HeaderOnly(_)));
    assert_eq!(only.into_vec().len(), 20);
    let mut data = PacketBuf::Data(vec![1, 2, 3]);
    data.as_mut_slice()[0] = 5;
    assert!(matches!(data, PacketBuf::Data(_)));
    assert_eq!(data.duplicate().as_slice(), &[5, 2, 3]);
    assert_eq!(data.into_vec(), vec![5, 2, 3]);
}

#[test]
fn packets_hold_header_and_body() {
    let packet = Packet::new(addr(1), header(4), b"body");
    assert_eq!(packet.seq(), 4);
    assert_eq!(packet.len(), UDX_HEADER_SIZE + 4);
    assert_eq!(packet.data_len(), 4);
    assert!(matches!(packet.buf, PacketBuf::Data(_)));
    let transmit = packet.to_transmit();
    assert_eq!(transmit.destination, addr(1));
    assert_eq!(transmit.segment_size, None);
    assert_eq!(&transmit.contents[20..], b"body");
    assert_eq!(packet.into_transmit().contents, transmit.contents);

    let empty = Packet::new(addr(1), header(4), b"");
    assert!(matches!(empty.buf, PacketBuf::HeaderOnly(_)));
    assert_eq!(empty.data_len(), 0);
    assert_eq!(empty.buf.as_slice(), &header(4).to_vec()[..]);
}

#[test]
fn dgrams_become_transmits() {
    let transmit = Dgram::new(addr(5), b"hi!".to_vec()).into_transmit();
    assert_eq!(transmit.destination, addr(5));
    assert_eq!(transmit.contents, b"hi!".to_vec());
    assert_eq!(transmit.segment_size, None);
    assert_eq!(transmit.ecn, None);
    assert_eq!(transmit.src_ip, None);
}

fn set(n: u32) -> PacketSet {
    let packets = (0..n)
        .map(|seq| PacketRef::Shared(Packet::new(addr(1), header(seq), &[seq as u8; 3])))
        .collect();
    PacketSet::new(6, addr(1), packets, 23)
}

#[test]
fn sets_are_sent_in_segments() {
    let transmit = set(3).to_transmit();
    assert_eq!(transmit.segment_size, Some(23));
    assert_eq!(transmit.contents.len(), 69);
    assert_eq!(transmit.num_segments(), 3);
    for seq in 0..3u32 {
        let at = 23 * seq as usize;
        let packet = Packet::new(addr(1), header(seq), &[seq as u8; 3]);
        assert_eq!(&transmit.contents[at..at + 23], packet.buf.as_slice());
    }
    let one = set(1).to_transmit();
    assert_eq!(one.segment_size, None);
    assert_eq!(one.contents.len(), 23);
    assert_eq!(one.num_segments(), 1);
}

#[test]
fn acknowledged_packets_of_a_set_are_skipped() {
    let mut s = set(3);
    s.mark_acked(1);
    s.mark_acked(9);
    let transmit = s.to_transmit();
    assert_eq!(transmit.contents.len(), 46);
    assert_eq!(Header::from_bytes(&transmit.contents).unwrap().seq, 0);
    assert_eq!(Header::from_bytes(&transmit.contents[23..]).unwrap().seq, 2);
    assert_eq!(s.len(), 3);
    assert_eq!(s.dest(), addr(1));
    assert_eq!(s.source(), 6);
}

#[test]
fn kept_packets_of_a_set() {
    let packets = vec![
        PacketRef::Owned(Packet::new(addr(1), header(0), b"")),
        PacketRef::Shared(Packet::new(addr(1), header(1), b"")),
        PacketRef::Shared(Packet::new(addr(1), header(2), b"")),
    ];
    let s = PacketSet::new(6, addr(1), packets, 20);
    let seqs: Vec<u32> = s.iter_shared().iter().map(|p| p.seq()).collect();
    assert_eq!(seqs, vec![1, 2]);
}

#[test]
fn an_owned_packet_is_not_acknowledged() {
    let entry = PacketRef::Owned(Packet::new(addr(1), header(1), b"")).acked(1);
    assert!(!entry.packet().skip);
    let entry = PacketRef::Shared(Packet::new(addr(1), header(1), b"")).acked(1);
    assert!(entry.packet().skip);
}

#[test]
fn segments_are_rounded_up() {
    let transmit = |len: usize, size: Option<usize>| Transmit {
        destination: addr(1),
        ecn: None,
        contents: vec![0; len],
        segment_size: size,
        src_ip: None,
    };
    assert_eq!(transmit(10, None).num_segments(), 1);
    assert_eq!(transmit(10, Some(5)).num_segments(), 2);
    assert_eq!(transmit(11, Some(5)).num_segments(), 3);
    assert_eq!(transmit(0, Some(5)).num_segments(), 0);
}
