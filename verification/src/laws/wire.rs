//! What is promised of the wire format, of the sets in which packets go to the
//! socket, and of the round trip estimate.

use vstd::prelude::*;

use crate::addr::SocketAddr;
use crate::buffers::bytes_contents;
use crate::constants::{UDX_HEADER_DATA, UDX_HEADER_END, UDX_HEADER_SACK};
use crate::packet::{
    law_segments_are_packets, le_bytes, lemma_live_len, live_contents, live_packets,
    shared_packets, Dgram, Header, IncomingPacket, Packet, PacketBuf, PacketModel, PacketRef,
    PacketRefModel, PacketSetModel, Transmit, TransmitModel,
};
use crate::rtt::RttModel;
use crate::stream::{all_packets, batched, segment_limit};

verus! {

/// The number of the four bytes from `at` on, least significant first.
pub open spec fn number_at(buf: Seq<u8>, at: int) -> int {
    buf[at] + 256 * buf[at + 1] + 65536 * buf[at + 2] + 16777216 * buf[at + 3]
}

/// The four bytes of a number stand for it.
proof fn lemma_number_of_bytes(x: u32)
    ensures
        le_bytes(x).len() == 4,
        number_at(le_bytes(x), 0) == x,
{
    let a = x / 256;
    let b = x / 65536;
    assert(b == a / 256);
    assert(x / 16777216 == b / 256);
}

/// A header is twenty bytes: the magic byte, the version, the type flags, the data
/// offset, and then the number of the stream, the receive window, the packet's
/// number and the acknowledgement, each in four bytes with the least significant
/// first.
pub proof fn law_headers_have_their_layout(header: Header)
    ensures
        ({
            let bytes = header.encoding();
            &&& bytes.len() == 20
            &&& bytes[0] == 255
            &&& bytes[1] == 1
            &&& bytes[2] == header.typ % 256
            &&& bytes[3] == header.data_offset % 256
            &&& number_at(bytes, 4) == header.stream_id
            &&& number_at(bytes, 8) == header.recv_win
            &&& number_at(bytes, 12) == header.seq
            &&& number_at(bytes, 16) == header.ack
        }),
{
    let bytes = header.encoding();
    lemma_number_of_bytes(header.stream_id);
    lemma_number_of_bytes(header.recv_win);
    lemma_number_of_bytes(header.seq);
    lemma_number_of_bytes(header.ack);
    assert(forall|k: int| 0 <= k < 4 ==> bytes[4 + k] == #[trigger] le_bytes(header.stream_id)[k]);
    assert(forall|k: int| 0 <= k < 4 ==> bytes[8 + k] == #[trigger] le_bytes(header.recv_win)[k]);
    assert(forall|k: int| 0 <= k < 4 ==> bytes[12 + k] == #[trigger] le_bytes(header.seq)[k]);
    assert(forall|k: int| 0 <= k < 4 ==> bytes[16 + k] == #[trigger] le_bytes(header.ack)[k]);
}

/// Bytes start with a header exactly if they are twenty or more and begin with the
/// magic byte and the version; what the header says is read from its places.
pub proof fn law_headers_are_read_from_their_places(buf: Seq<u8>)
    ensures
        Header::starts(buf) <==> buf.len() >= 20 && buf[0] == 255 && buf[1] == 1,
        Header::starts(buf) ==> {
            let header = Header::decoding(buf);
            &&& header.typ == buf[2]
            &&& header.data_offset == buf[3]
            &&& header.stream_id == number_at(buf, 4)
            &&& header.recv_win == number_at(buf, 8)
            &&& header.seq == number_at(buf, 12)
            &&& header.ack == number_at(buf, 16)
        },
{
}

/// A flag is set exactly if the type has its bit: the first for data, the second
/// for the end, the third for ranges.
pub proof fn law_flags_are_bits(header: Header)
    ensures
        header.has_flag(UDX_HEADER_DATA) <==> header.typ & 1 != 0,
        header.has_flag(UDX_HEADER_END) <==> header.typ & 2 != 0,
        header.has_flag(UDX_HEADER_SACK) <==> header.typ & 4 != 0,
{
}

/// Models show what they stand for.
pub proof fn law_models_are_faithful(
    transmit: Transmit,
    dgram: Dgram,
    packet: Packet,
    entry: PacketRef,
    incoming: IncomingPacket,
)
    ensures
        transmit@.destination == transmit.destination,
        transmit@.contents == transmit.contents@,
        transmit@.segment_size == transmit.segment_size,
        transmit@.ecn == transmit.ecn,
        transmit@.src_ip == transmit.src_ip,
        dgram@.buf == dgram.buf@,
        dgram@.dest == dgram.dest,
        packet@.dest == packet.dest,
        packet@.header == packet.header,
        packet@.buf == packet.buf@.bytes,
        packet.buf matches PacketBuf::Data(bytes) ==> packet@.buf == bytes@ && !packet@.header_only,
        packet.buf matches PacketBuf::HeaderOnly(bytes) ==> packet@.buf == bytes@
            && packet@.header_only,
        packet@.waiting == packet.waiting,
        packet@.skip == packet.skip,
        packet@.time_sent == packet.time_sent,
        packet@.transmits == packet.transmits,
        entry matches PacketRef::Shared(packet) ==> entry@ == PacketRefModel::Shared(packet@),
        entry matches PacketRef::Owned(packet) ==> entry@ == PacketRefModel::Owned(packet@),
        incoming@.header == incoming.header,
        incoming@.data == bytes_contents(incoming.buf),
        incoming@.read_offset == incoming.read_offset,
        incoming@.from == incoming.from,
{
}

/// An entry of the queue holds its packet. An acknowledgement marks it exactly if
/// its stream keeps it and it has the acknowledged number.
pub proof fn law_entries_are_marked(entry: PacketRefModel, seq: u32)
    ensures
        entry matches PacketRefModel::Owned(packet) ==> entry.packet() == packet && entry.acked(seq)
            == entry,
        entry matches PacketRefModel::Shared(packet) ==> {
            &&& entry.packet() == packet
            &&& entry.acked(seq) matches PacketRefModel::Shared(after)
            &&& after == PacketModel { skip: packet.skip || packet.header.seq == seq, ..packet }
        },
{
}

/// Of the packets that are added to others, their stream keeps those that are
/// shared, and those are sent that are not to be skipped.
pub proof fn law_entries_are_sorted(packets: Seq<PacketRefModel>, entry: PacketRefModel)
    ensures
        shared_packets(Seq::empty()) == Seq::<PacketModel>::empty(),
        shared_packets(packets.push(entry)) == match entry {
            PacketRefModel::Shared(packet) => shared_packets(packets).push(packet),
            PacketRefModel::Owned(_) => shared_packets(packets),
        },
        live_contents(Seq::empty()) == Seq::<u8>::empty(),
        live_contents(packets.push(entry)) == live_contents(packets) + if entry.packet().skip {
            Seq::empty()
        } else {
            entry.packet().buf
        },
        live_packets(Seq::empty()) == Seq::<PacketModel>::empty(),
        live_packets(packets.push(entry)) == if entry.packet().skip {
            live_packets(packets)
        } else {
            live_packets(packets).push(entry.packet())
        },
{
    assert(packets.push(entry).drop_last() =~= packets);
}

/// What the socket is given to send for a set goes where the set goes. Cut into
/// pieces of the set's size it is exactly the packets that are not to be skipped,
/// in order; it is to be cut unless the set is a single packet, and nothing else is
/// asked for.
pub proof fn law_sets_go_where_they_are_to(set: PacketSetModel, size: usize, i: int)
    requires
        set.segment_size == Some(size),
        forall|j: int|
            0 <= j < set.packets.len() ==> (#[trigger] set.packets[j]).packet().buf.len() == size,
    ensures
        ({
            let transmit = set.transmit();
            let live = live_packets(set.packets);
            &&& transmit.destination == set.dest
            &&& transmit.segment_size == if set.packets.len() == 1 {
                None
            } else {
                Some(size)
            }
            &&& transmit.ecn is None && transmit.src_ip is None
            &&& transmit.contents.len() == live.len() * size
            &&& 0 <= i < live.len() ==> transmit.contents.subrange(i * size, i * size + size)
                == live[i].buf
        }),
{
    lemma_live_len(set.packets, size as nat);
    if 0 <= i < live_packets(set.packets).len() {
        law_segments_are_packets(set.packets, size as nat, i);
    }
}

/// A set goes where it is to, whatever it holds; one without a size is its only
/// packet, and goes where the packet goes.
pub proof fn law_transmits_have_their_destination(set: PacketSetModel)
    ensures
        set.segment_size is Some ==> set.transmit().destination == set.dest,
        set.segment_size is None ==> set.transmit() == (TransmitModel {
            destination: set.packets[0].packet().dest,
            ecn: None,
            contents: set.packets[0].packet().buf,
            segment_size: None,
            src_ip: None,
        }),
{
}

/// A datagram is sent whole, to where it is to go.
pub proof fn law_datagrams_are_sent_whole(dest: SocketAddr, buf: Seq<u8>)
    ensures
        TransmitModel::datagram(dest, buf) == (TransmitModel {
            destination: dest,
            ecn: None,
            contents: buf,
            segment_size: None,
            src_ip: None,
        }),
{
}

/// Contents are sent in as few pieces of the size as they take up; without a size
/// they are one piece.
pub proof fn law_pieces_are_counted(transmit: TransmitModel)
    ensures
        transmit.segment_size is None ==> transmit.num_segments() == 1,
        transmit.segment_size == Some(0usize) ==> transmit.num_segments() == 1,
        transmit.segment_size matches Some(size) ==> size > 0 ==> {
            let n = transmit.num_segments();
            &&& transmit.contents.len() <= n * size
            &&& n > 0 ==> transmit.contents.len() > (n - 1) * size
        },
{
    if let Some(size) = transmit.segment_size {
        if size > 0 {
            let len = transmit.contents.len();
            let s = size as nat;
            let q = len / s;
            let r = len % s;
            assert(len == q * s + r && 0 <= r < s) by (nonlinear_arith)
                requires
                    s > 0,
                    q == len / s,
                    r == len % s,
            ;
            assert((q + 1) * s == q * s + s) by (nonlinear_arith);
            assert((q - 1) * s == q * s - s) by (nonlinear_arith);
        }
    }
}

/// The sets that a queue is cut into hold, one after the other, exactly the
/// packets of the queue, in order. All are of the stream and go to the remote. In
/// each all packets are of one size, and there are no more than may go together:
/// ten, or what the socket takes if that is less. A set ends only where the next
/// packet is of another size or no more may go together.
pub proof fn law_sets_are_the_queue(
    queue: Seq<PacketRefModel>,
    sets: Seq<PacketSetModel>,
    source: u64,
    dest: SocketAddr,
    max_gso_segments: usize,
)
    requires
        batched(queue, sets, source, dest, segment_limit(max_gso_segments)),
    ensures
        sets.map_values(|set: PacketSetModel| set.packets).flatten_alt() == queue,
        forall|i: int|
            0 <= i < sets.len() ==> {
                let set = #[trigger] sets[i];
                &&& set.source == source
                &&& set.dest == dest
                &&& set.transmit().destination == dest
                &&& set.packets.len() > 0
                &&& max_gso_segments > 0 ==> set.packets.len() <= 10 && set.packets.len()
                    <= max_gso_segments
                &&& set.segment_size is Some
            },
        forall|i: int, j: int|
            0 <= i < sets.len() && 0 <= j < sets[i].packets.len() ==> Some(
                (#[trigger] sets[i].packets[j]).packet().buf.len(),
            ) == match sets[i].segment_size {
                Some(size) => Some(size as nat),
                None => None,
            },
        forall|i: int, j: int|
            0 <= i && j == i + 1 && j < sets.len() ==> {
                ||| (#[trigger] sets[i]).segment_size != (#[trigger] sets[j]).segment_size
                ||| max_gso_segments > 0 && (sets[i].packets.len() == 10 || sets[i].packets.len()
                    == max_gso_segments)
            },
{
    lemma_flattened(sets);
    assert forall|i: int| 0 <= i < sets.len() implies {
        let set = #[trigger] sets[i];
        &&& set.source == source
        &&& set.dest == dest
        &&& set.transmit().destination == dest
        &&& set.packets.len() > 0
        &&& max_gso_segments > 0 ==> set.packets.len() <= 10 && set.packets.len()
            <= max_gso_segments
        &&& set.segment_size is Some
    } by {
        law_transmits_have_their_destination(sets[i]);
    }
}

/// The packets of all sets, in order.
proof fn lemma_flattened(sets: Seq<PacketSetModel>)
    ensures
        sets.map_values(|set: PacketSetModel| set.packets).flatten_alt() == all_packets(sets),
    decreases sets.len(),
{
    let packets = sets.map_values(|set: PacketSetModel| set.packets);
    if sets.len() > 0 {
        lemma_flattened(sets.drop_last());
        assert(packets.drop_last() =~= sets.drop_last().map_values(
            |set: PacketSetModel| set.packets,
        ));
    }
}

/// The first round trip is taken as it is, with half of it as its variation. Later
/// ones weigh an eighth, and how far they are off a quarter. The timeout is the
/// smoothed time and four times its variation, or twenty milliseconds if that is
/// more, and a second at least.
pub proof fn law_round_trips_are_weighed(estimate: RttModel, rtt: nat)
    ensures
        ({
            let after = estimate.sampled(rtt);
            let off = if rtt < estimate.srtt {
                estimate.srtt - rtt
            } else {
                rtt - estimate.srtt
            };
            let second: nat = 1_000_000_000;
            let least = after.srtt + 20_000_000;
            let most = after.srtt + 4 * after.rttvar;
            &&& estimate.srtt == 0 ==> after.srtt == rtt && 2 * after.rttvar <= rtt < 2
                * after.rttvar + 2
            &&& estimate.srtt > 0 ==> {
                &&& 8 * after.srtt <= 7 * estimate.srtt + rtt < 8 * after.srtt + 8
                &&& 4 * after.rttvar <= 3 * estimate.rttvar + off < 4 * after.rttvar + 4
            }
            &&& after.rto >= second && after.rto >= least && after.rto >= most
            &&& after.rto == second || after.rto == least || after.rto == most
        }),
{
}

/// Without a sample nothing is known of the round trips, and the timeout is a
/// second.
pub proof fn law_estimates_start_at_a_second(rtt: nat)
    ensures
        RttModel::initial().srtt == 0,
        RttModel::initial().rttvar == 0,
        RttModel::initial().rto == 1_000_000_000,
        RttModel::initial().sampled(rtt).srtt == rtt,
{
}

} // verus!
