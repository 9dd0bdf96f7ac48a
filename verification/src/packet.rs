//! Packets: the wire format of the header, packets on their way out, the sets
//! in which they go to the socket, and packets that came in.

use bytes::Bytes;
use vstd::prelude::*;

use crate::addr::{IpAddr, SocketAddr};
use crate::buffers::{bytes_as_slice, bytes_contents, vec_put_slice};
use crate::constants::{UDX_HEADER_SIZE, UDX_MAGIC_BYTE, UDX_VERSION};
use crate::error::{ErrorKind, ErrorModel, UdxError};

verus! {

/// The four bytes of `x`, least significant first.
pub open spec fn le_bytes(x: u32) -> Seq<u8> {
    seq![
        (x % 256) as u8,
        (x / 256 % 256) as u8,
        (x / 65536 % 256) as u8,
        (x / 16777216) as u8,
    ]
}

/// The number whose bytes are the four of `s`, least significant first.
pub open spec fn le_value(s: Seq<u8>) -> u32 {
    (s[0] + 256 * s[1] + 65536 * s[2] + 16777216 * s[3]) as u32
}

/// Reads a number of four bytes, least significant first.
pub fn read_u32_le(buf: &[u8]) -> (value: u32)
    requires
        buf@.len() == 4,
    ensures
        value == le_value(buf@),
{
    buf[0] as u32 + 256 * (buf[1] as u32) + 65536 * (buf[2] as u32) + 16777216 * (buf[3] as u32)
}

/// Writes the four bytes of `value` at `at`, least significant first.
fn write_u32_le(buf: &mut [u8], at: usize, value: u32)
    requires
        at + 4 <= old(buf)@.len(),
    ensures
        final(buf)@ == old(buf)@.take(at as int) + le_bytes(value) + old(buf)@.skip(at + 4),
{
    buf[at] = (value % 256) as u8;
    buf[at + 1] = (value / 256 % 256) as u8;
    buf[at + 2] = (value / 65536 % 256) as u8;
    buf[at + 3] = (value / 16777216) as u8;
    assert(buf@ =~= old(buf)@.take(at as int) + le_bytes(value) + old(buf)@.skip(at + 4));
}

/// What the first bytes of every packet say.
#[derive(Clone, Copy, Debug, PartialEq, Eq, Structural)]
pub struct Header {
    pub typ: u32,
    pub data_offset: usize,
    pub stream_id: u32,
    pub recv_win: u32,
    pub seq: u32,
    pub ack: u32,
}

impl Header {
    pub const SIZE: usize = UDX_HEADER_SIZE;

    /// The header as bytes. Of `typ` and `data_offset` only the lowest byte is
    /// kept.
    pub open spec fn encoding(self) -> Seq<u8> {
        seq![
            UDX_MAGIC_BYTE,
            UDX_VERSION,
            (self.typ % 256) as u8,
            (self.data_offset % 256) as u8,
        ] + le_bytes(self.stream_id) + le_bytes(self.recv_win) + le_bytes(self.seq) + le_bytes(
            self.ack,
        )
    }

    /// Whether the bytes start with a header.
    pub open spec fn starts(buf: Seq<u8>) -> bool {
        buf.len() >= UDX_HEADER_SIZE && buf[0] == UDX_MAGIC_BYTE && buf[1] == UDX_VERSION
    }

    /// The header with which the bytes start.
    pub open spec fn decoding(buf: Seq<u8>) -> Header {
        Header {
            typ: buf[2] as u32,
            data_offset: buf[3] as usize,
            stream_id: le_value(buf.subrange(4, 8)),
            recv_win: le_value(buf.subrange(8, 12)),
            seq: le_value(buf.subrange(12, 16)),
            ack: le_value(buf.subrange(16, 20)),
        }
    }

    /// Whether one of the type flags in `typ` is set.
    pub open spec fn has_flag(self, typ: u32) -> bool {
        self.typ & typ != 0
    }

    pub fn has_typ(&self, typ: u32) -> (set: bool)
        ensures
            set == self.has_flag(typ),
    {
        self.typ & typ != 0
    }

    /// Reads the header at the start of `buf`.
    pub fn from_bytes(buf: &[u8]) -> (result: Result<Self, UdxError>)
        ensures
            match result {
                Ok(header) => Header::starts(buf@) && header == Header::decoding(buf@),
                Err(error) => !Header::starts(buf@) && error@ == ErrorModel::bad_header(),
            },
    {
        if buf.len() < UDX_HEADER_SIZE || buf[0] != UDX_MAGIC_BYTE || buf[1] != UDX_VERSION {
            return Err(UdxError::new(ErrorKind::InvalidData, "Bad header"));
        }
        Ok(
            Header {
                typ: buf[2] as u32,
                data_offset: buf[3] as usize,
                stream_id: read_u32_le(&buf[4..8]),
                recv_win: read_u32_le(&buf[8..12]),
                seq: read_u32_le(&buf[12..16]),
                ack: read_u32_le(&buf[16..20]),
            },
        )
    }

    /// The header as a vector of its own.
    pub fn to_vec(&self) -> (buf: Vec<u8>)
        ensures
            buf@ == self.encoding(),
    {
        let mut buf: Vec<u8> = vec![0u8; UDX_HEADER_SIZE];
        self.encode(buf.as_mut_slice());
        assert(buf@ =~= self.encoding());
        buf
    }

    /// Writes the header over the first bytes of `buf`, where they suffice.
    pub fn encode(&self, buf: &mut [u8]) -> (done: bool)
        ensures
            done == (old(buf)@.len() >= UDX_HEADER_SIZE),
            final(buf)@ == if done {
                self.encoding() + old(buf)@.skip(UDX_HEADER_SIZE as int)
            } else {
                old(buf)@
            },
    {
        if buf.len() < Self::SIZE {
            return false;
        }
        buf[0] = UDX_MAGIC_BYTE;
        buf[1] = UDX_VERSION;
        buf[2] = (self.typ % 256) as u8;
        buf[3] = (self.data_offset % 256) as u8;
        write_u32_le(buf, 4, self.stream_id);
        write_u32_le(buf, 8, self.recv_win);
        write_u32_le(buf, 12, self.seq);
        write_u32_le(buf, 16, self.ack);
        assert(buf@ =~= self.encoding() + old(buf)@.skip(UDX_HEADER_SIZE as int));
        true
    }
}

/// Explicit congestion notification marks of an IP packet.
#[derive(Clone, Copy, Debug, PartialEq, Eq, Structural)]
pub enum EcnCodepoint {
    Ect0,
    Ect1,
    Ce,
}

/// What a [`Transmit`] stands for.
#[verifier::ext_equal]
pub struct TransmitModel {
    pub destination: SocketAddr,
    pub ecn: Option<EcnCodepoint>,
    pub contents: Seq<u8>,
    pub segment_size: Option<usize>,
    pub src_ip: Option<IpAddr>,
}

impl TransmitModel {
    /// One datagram, with nothing else asked for.
    pub open spec fn datagram(destination: SocketAddr, contents: Seq<u8>) -> TransmitModel {
        TransmitModel { destination, ecn: None, contents, segment_size: None, src_ip: None }
    }
}

/// Bytes for the UDP socket to send. With a segment size, the contents are
/// sent as several datagrams of that size; the last may be shorter.
#[derive(Debug)]
pub struct Transmit {
    pub destination: SocketAddr,
    pub ecn: Option<EcnCodepoint>,
    pub contents: Vec<u8>,
    pub segment_size: Option<usize>,
    pub src_ip: Option<IpAddr>,
}

impl View for Transmit {
    type V = TransmitModel;

    open spec fn view(&self) -> TransmitModel {
        TransmitModel {
            destination: self.destination,
            ecn: self.ecn,
            contents: self.contents@,
            segment_size: self.segment_size,
            src_ip: self.src_ip,
        }
    }
}

impl TransmitModel {
    /// As how many datagrams the contents are sent.
    pub open spec fn num_segments(self) -> nat {
        match self.segment_size {
            Some(size) if size > 0 => {
                if self.contents.len() % size as nat == 0 {
                    self.contents.len() / size as nat
                } else {
                    self.contents.len() / size as nat + 1
                }
            },
            _ => 1,
        }
    }
}

impl Transmit {
    /// As how many datagrams the contents are sent.
    pub fn num_segments(&self) -> (segments: usize)
        ensures
            segments == self@.num_segments(),
    {
        match self.segment_size {
            Some(size) if size > 0 => {
                let len: usize = self.contents.len();
                if len % size == 0 {
                    len / size
                } else {
                    proof {
                        assert(len / size < usize::MAX) by (nonlinear_arith)
                            requires
                                size > 0,
                                len % size != 0,
                        ;
                    }
                    len / size + 1
                }
            },
            _ => 1,
        }
    }
}

/// What a [`Dgram`] stands for.
#[verifier::ext_equal]
pub struct DgramModel {
    pub buf: Seq<u8>,
    pub dest: SocketAddr,
}

/// A datagram outside of any stream.
#[derive(Debug)]
pub struct Dgram {
    pub buf: Vec<u8>,
    pub dest: SocketAddr,
}

impl View for Dgram {
    type V = DgramModel;

    open spec fn view(&self) -> DgramModel {
        DgramModel { buf: self.buf@, dest: self.dest }
    }
}

impl Dgram {
    pub fn new(dest: SocketAddr, buf: Vec<u8>) -> (dgram: Self)
        ensures
            dgram@ == (DgramModel { buf: buf@, dest }),
    {
        Dgram { buf, dest }
    }

    pub fn into_transmit(self) -> (transmit: Transmit)
        ensures
            transmit@ == TransmitModel::datagram(self@.dest, self@.buf),
    {
        Transmit {
            segment_size: None,
            destination: self.dest,
            ecn: None,
            src_ip: None,
            contents: self.buf,
        }
    }
}

/// What a [`PacketBuf`] stands for.
#[verifier::ext_equal]
pub struct PacketBufModel {
    pub bytes: Seq<u8>,
    /// Whether the bytes are held without a separate allocation.
    pub header_only: bool,
}

/// The bytes of a packet. A packet without a body is held without a separate
/// allocation.
#[derive(Debug)]
pub enum PacketBuf {
    Data(Vec<u8>),
    HeaderOnly([u8; 20]),
}

impl View for PacketBuf {
    type V = PacketBufModel;

    open spec fn view(&self) -> PacketBufModel {
        match self {
            PacketBuf::Data(vec) => PacketBufModel { bytes: vec@, header_only: false },
            PacketBuf::HeaderOnly(array) => PacketBufModel { bytes: array@, header_only: true },
        }
    }
}

impl PacketBuf {
    pub fn as_slice(&self) -> (slice: &[u8])
        ensures
            slice@ == self@.bytes,
    {
        match self {
            PacketBuf::Data(vec) => vec.as_slice(),
            PacketBuf::HeaderOnly(array) => array.as_slice(),
        }
    }

    /// The bytes, to be written over. Whether they have an allocation of their
    /// own stays as it is.
    pub fn as_mut_slice(&mut self) -> (slice: &mut [u8])
        ensures
            slice@ == old(self)@.bytes,
            final(slice)@.len() == old(self)@.bytes.len() ==> final(self)@ == (PacketBufModel {
                bytes: final(slice)@,
                header_only: old(self)@.header_only,
            }),
            final(self)@.header_only == old(self)@.header_only,
    {
        match self {
            PacketBuf::Data(vec) => vec.as_mut_slice(),
            PacketBuf::HeaderOnly(array) => array,
        }
    }

    pub fn len(&self) -> (len: usize)
        ensures
            len == self@.bytes.len(),
    {
        self.as_slice().len()
    }

    pub fn into_vec(self) -> (vec: Vec<u8>)
        ensures
            vec@ == self@.bytes,
    {
        match self {
            PacketBuf::Data(vec) => vec,
            PacketBuf::HeaderOnly(array) => vstd::slice::slice_to_vec(array.as_slice()),
        }
    }

    /// A copy with bytes of its own.
    pub fn duplicate(&self) -> (copy: Self)
        ensures
            copy@ == self@,
    {
        match self {
            PacketBuf::Data(vec) => PacketBuf::Data(vstd::slice::slice_to_vec(vec.as_slice())),
            PacketBuf::HeaderOnly(array) => PacketBuf::HeaderOnly(*array),
        }
    }
}

/// What a [`Packet`] stands for.
#[verifier::ext_equal]
pub struct PacketModel {
    pub waiting: bool,
    pub skip: bool,
    pub time_sent: u64,
    pub transmits: nat,
    pub dest: SocketAddr,
    pub header: Header,
    pub buf: Seq<u8>,
    /// Whether the bytes are held without a separate allocation.
    pub header_only: bool,
}

impl PacketModel {
    /// A packet that was just made.
    pub open spec fn fresh(dest: SocketAddr, header: Header, body: Seq<u8>) -> PacketModel {
        PacketModel {
            waiting: false,
            skip: false,
            time_sent: 0,
            transmits: 0,
            dest,
            header,
            buf: header.encoding() + body,
            header_only: body.len() == 0,
        }
    }

    /// How many bytes follow the header.
    pub open spec fn data_len(self) -> nat {
        if self.buf.len() >= UDX_HEADER_SIZE {
            (self.buf.len() - UDX_HEADER_SIZE) as nat
        } else {
            0
        }
    }
}

/// A packet on its way out.
#[derive(Debug)]
pub struct Packet {
    /// The packet waits for room in the window, to be sent again.
    pub waiting: bool,
    /// The packet was acknowledged and need not be sent any more.
    pub skip: bool,
    /// When the packet last went out, in milliseconds; zero if it never did.
    pub time_sent: u64,
    /// How often the packet was sent again.
    pub transmits: usize,
    pub dest: SocketAddr,
    pub header: Header,
    pub buf: PacketBuf,
}

impl View for Packet {
    type V = PacketModel;

    open spec fn view(&self) -> PacketModel {
        PacketModel {
            waiting: self.waiting,
            skip: self.skip,
            time_sent: self.time_sent,
            transmits: self.transmits as nat,
            dest: self.dest,
            header: self.header,
            buf: self.buf@.bytes,
            header_only: self.buf@.header_only,
        }
    }
}

impl Packet {
    /// A packet of `header` and `body`. Without a body it has no allocation of
    /// its own.
    pub fn new(dest: SocketAddr, header: Header, body: &[u8]) -> (packet: Self)
        requires
            UDX_HEADER_SIZE + body@.len() <= usize::MAX,
        ensures
            packet@ == PacketModel::fresh(dest, header, body@),
            packet.buf is HeaderOnly <==> body@.len() == 0,
    {
        let buf = if body.is_empty() {
            let mut buf = PacketBuf::HeaderOnly([0u8; 20]);
            header.encode(buf.as_mut_slice());
            assert(buf@.bytes =~= header.encoding() + body@);
            buf
        } else {
            let mut bytes: Vec<u8> = header.to_vec();
            bytes.extend_from_slice(body);
            PacketBuf::Data(bytes)
        };
        assert(buf@.bytes =~= header.encoding() + body@);
        Packet { skip: false, waiting: false, time_sent: 0, transmits: 0, dest, header, buf }
    }

    pub fn seq(&self) -> (seq: u32)
        ensures
            seq == self@.header.seq,
    {
        self.header.seq
    }

    pub fn len(&self) -> (len: usize)
        ensures
            len == self@.buf.len(),
    {
        self.buf.len()
    }

    pub fn data_len(&self) -> (len: usize)
        ensures
            len == self@.data_len(),
    {
        let len: usize = self.buf.len();
        if len >= UDX_HEADER_SIZE {
            len - UDX_HEADER_SIZE
        } else {
            0
        }
    }

    /// The packet as one datagram.
    pub fn to_transmit(&self) -> (transmit: Transmit)
        ensures
            transmit@ == TransmitModel::datagram(self@.dest, self@.buf),
    {
        Transmit {
            ecn: None,
            src_ip: None,
            destination: self.dest,
            segment_size: None,
            contents: vstd::slice::slice_to_vec(self.buf.as_slice()),
        }
    }

    /// The packet as one datagram, without a copy of its bytes.
    pub fn into_transmit(self) -> (transmit: Transmit)
        ensures
            transmit@ == TransmitModel::datagram(self@.dest, self@.buf),
    {
        Transmit {
            ecn: None,
            src_ip: None,
            destination: self.dest,
            segment_size: None,
            contents: self.buf.into_vec(),
        }
    }

    /// A copy with bytes of its own.
    pub fn duplicate(&self) -> (copy: Self)
        ensures
            copy@ == self@,
    {
        Packet {
            waiting: self.waiting,
            skip: self.skip,
            time_sent: self.time_sent,
            transmits: self.transmits,
            dest: self.dest,
            header: self.header,
            buf: self.buf.duplicate(),
        }
    }
}

/// What a [`PacketRef`] stands for.
pub enum PacketRefModel {
    Owned(PacketModel),
    Shared(PacketModel),
}

impl PacketRefModel {
    pub open spec fn packet(self) -> PacketModel {
        match self {
            PacketRefModel::Owned(packet) => packet,
            PacketRefModel::Shared(packet) => packet,
        }
    }

    /// The entry once the packet `seq` of its stream was acknowledged.
    pub open spec fn acked(self, seq: u32) -> PacketRefModel {
        match self {
            PacketRefModel::Shared(packet) => {
                if packet.header.seq == seq {
                    PacketRefModel::Shared(PacketModel { skip: true, ..packet })
                } else {
                    self
                }
            },
            PacketRefModel::Owned(_) => self,
        }
    }
}

/// A packet that is queued for the socket.
#[derive(Debug)]
pub enum PacketRef {
    /// A packet that is sent once and then forgotten.
    Owned(Packet),
    /// A packet that its stream keeps until it is acknowledged.
    Shared(Packet),
}

impl View for PacketRef {
    type V = PacketRefModel;

    open spec fn view(&self) -> PacketRefModel {
        match self {
            PacketRef::Owned(packet) => PacketRefModel::Owned(packet@),
            PacketRef::Shared(packet) => PacketRefModel::Shared(packet@),
        }
    }
}

impl PacketRef {
    pub fn packet(&self) -> (packet: &Packet)
        ensures
            packet@ == self@.packet(),
    {
        match self {
            PacketRef::Owned(packet) => packet,
            PacketRef::Shared(packet) => packet,
        }
    }

    /// The entry once the packet `seq` of its stream was acknowledged: a kept
    /// packet with that number is not sent any more.
    pub fn acked(self, seq: u32) -> (entry: Self)
        ensures
            entry@ == self@.acked(seq),
    {
        match self {
            PacketRef::Owned(packet) => PacketRef::Owned(packet),
            PacketRef::Shared(packet) => {
                if packet.header.seq == seq {
                    PacketRef::Shared(Packet { skip: true, ..packet })
                } else {
                    PacketRef::Shared(packet)
                }
            },
        }
    }
}

/// The packets that stand for the given ones.
pub open spec fn ref_models(packets: Seq<PacketRef>) -> Seq<PacketRefModel> {
    packets.map_values(|packet: PacketRef| packet@)
}

/// The bytes of all packets that are not to be skipped, in order.
pub open spec fn live_contents(packets: Seq<PacketRefModel>) -> Seq<u8>
    decreases packets.len(),
{
    if packets.len() == 0 {
        Seq::empty()
    } else {
        let last = packets.last().packet();
        live_contents(packets.drop_last()) + if last.skip {
            Seq::empty()
        } else {
            last.buf
        }
    }
}

/// The first packets have no more bytes than all.
proof fn lemma_live_prefix(packets: Seq<PacketRefModel>, n: int)
    requires
        0 <= n <= packets.len(),
    ensures
        live_contents(packets.take(n)).len() <= live_contents(packets).len(),
    decreases packets.len() - n,
{
    if n < packets.len() {
        lemma_live_prefix(packets, n + 1);
        assert(packets.take(n + 1).drop_last() =~= packets.take(n));
    } else {
        assert(packets.take(n) =~= packets);
    }
}

/// The packets that their stream keeps, in order.
pub open spec fn shared_packets(packets: Seq<PacketRefModel>) -> Seq<PacketModel>
    decreases packets.len(),
{
    if packets.len() == 0 {
        Seq::empty()
    } else {
        let front = shared_packets(packets.drop_last());
        match packets.last() {
            PacketRefModel::Shared(packet) => front.push(packet),
            PacketRefModel::Owned(_) => front,
        }
    }
}

/// What a [`PacketSet`] stands for.
#[verifier::ext_equal]
pub struct PacketSetModel {
    /// Which stream of the socket the packets come from.
    pub source: u64,
    pub dest: SocketAddr,
    pub segment_size: Option<usize>,
    pub packets: Seq<PacketRefModel>,
}

impl PacketSetModel {
    /// Whether the socket can send the set: without a segment size it is a
    /// single packet, and with one its size is one that a buffer can have.
    pub open spec fn sendable(self) -> bool {
        match self.segment_size {
            None => self.packets.len() == 1,
            Some(size) => {
                &&& self.packets.len() * size <= isize::MAX
                &&& live_contents(self.packets).len() <= isize::MAX
            },
        }
    }

    /// What the socket is given to send.
    pub open spec fn transmit(self) -> TransmitModel {
        match self.segment_size {
            None => TransmitModel::datagram(
                self.packets[0].packet().dest,
                self.packets[0].packet().buf,
            ),
            Some(size) => TransmitModel {
                segment_size: if self.packets.len() == 1 {
                    None
                } else {
                    Some(size)
                },
                ..TransmitModel::datagram(self.dest, live_contents(self.packets))
            },
        }
    }
}

/// Packets of one stream and one size, for one destination, that go to the
/// socket together.
#[derive(Debug)]
pub struct PacketSet {
    source: u64,
    dest: SocketAddr,
    segment_size: Option<usize>,
    packets: Vec<PacketRef>,
}

impl View for PacketSet {
    type V = PacketSetModel;

    closed spec fn view(&self) -> PacketSetModel {
        PacketSetModel {
            source: self.source,
            dest: self.dest,
            segment_size: self.segment_size,
            packets: ref_models(self.packets@),
        }
    }
}

impl PacketSet {
    /// Packets of the stream that the socket knows as `source`.
    pub fn new(
        source: u64,
        dest: SocketAddr,
        packets: Vec<PacketRef>,
        segment_size: usize,
    ) -> (set: Self)
        ensures
            set@ == (PacketSetModel {
                source,
                dest,
                segment_size: Some(segment_size),
                packets: ref_models(packets@),
            }),
    {
        PacketSet { source, dest, packets, segment_size: Some(segment_size) }
    }

    /// Which stream of the socket the packets come from.
    pub fn source(&self) -> (source: u64)
        ensures
            source == self@.source,
    {
        self.source
    }

    /// Where the packets go.
    pub fn dest(&self) -> (dest: SocketAddr)
        ensures
            dest == self@.dest,
    {
        self.dest
    }

    /// How many packets the set holds.
    pub fn len(&self) -> (len: usize)
        ensures
            len == self@.packets.len(),
    {
        self.packets.len()
    }

    /// The packets of the set that their stream keeps.
    pub fn iter_shared(&self) -> (shared: Vec<&Packet>)
        ensures
            shared@.map_values(|packet: &Packet| packet@) == shared_packets(self@.packets),
    {
        let mut shared: Vec<&Packet> = Vec::new();
        let mut i: usize = 0;
        proof {
            assert(ref_models(self.packets@).take(0) =~= Seq::empty());
            assert(shared@.map_values(|packet: &Packet| packet@) =~= Seq::empty());
        }
        while i < self.packets.len()
            invariant
                i <= self.packets@.len(),
                shared@.map_values(|packet: &Packet| packet@) == shared_packets(
                    ref_models(self.packets@).take(i as int),
                ),
            decreases self.packets@.len() - i,
        {
            let ghost before = shared@;
            let ghost models = ref_models(self.packets@);
            assert(models.take(i + 1).drop_last() =~= models.take(i as int));
            match &self.packets[i] {
                PacketRef::Shared(packet) => {
                    shared.push(packet);
                    assert(shared@.map_values(|packet: &Packet| packet@) =~= before.map_values(
                        |packet: &Packet| packet@,
                    ).push(packet@));
                },
                PacketRef::Owned(_) => {},
            }
            i = i + 1;
        }
        assert(ref_models(self.packets@).take(i as int) =~= ref_models(self.packets@));
        shared
    }

    /// Marks the packet `seq` of the set's stream, where the stream keeps it, as
    /// acknowledged: it is not sent any more.
    pub fn mark_acked(&mut self, seq: u32)
        ensures
            final(self)@ == (PacketSetModel {
                packets: old(self)@.packets.map_values(
                    |packet: PacketRefModel| packet.acked(seq),
                ),
                ..old(self)@
            }),
    {
        let mut marked: Vec<PacketRef> = Vec::new();
        let mut rest: Vec<PacketRef> = Vec::new();
        std::mem::swap(&mut rest, &mut self.packets);
        let ghost all = rest@;
        while rest.len() > 0
            invariant
                rest@.len() + marked@.len() == all.len(),
                rest@ == all.take(rest@.len() as int),
                forall|j: int|
                    0 <= j < marked@.len() ==> (#[trigger] marked@[j])@ == all[all.len() - 1
                        - j]@.acked(seq),
            decreases rest@.len(),
        {
            if let Some(packet) = rest.pop() {
                marked.push(packet.acked(seq));
                assert(rest@ =~= all.take(rest@.len() as int));
            }
        }
        let ghost reversed = marked@;
        while marked.len() > 0
            invariant
                reversed.len() == all.len(),
                self.source == old(self).source,
                self.dest == old(self).dest,
                self.segment_size == old(self).segment_size,
                marked@ == reversed.take(marked@.len() as int),
                self.packets@.len() + marked@.len() == all.len(),
                forall|j: int|
                    0 <= j < reversed.len() ==> (#[trigger] reversed[j])@ == all[all.len() - 1
                        - j]@.acked(seq),
                forall|j: int|
                    0 <= j < self.packets@.len() ==> #[trigger] self.packets@[j]
                        == reversed[reversed.len() - 1 - j],
            decreases marked@.len(),
        {
            if let Some(packet) = marked.pop() {
                self.packets.push(packet);
                assert(marked@ =~= reversed.take(marked@.len() as int));
            }
        }
        assert(self@.packets =~= old(self)@.packets.map_values(
            |packet: PacketRefModel| packet.acked(seq),
        ));
    }

    /// The set as bytes for the socket to send.
    pub fn to_transmit(&self) -> (transmit: Transmit)
        requires
            self@.sendable(),
        ensures
            transmit@ == self@.transmit(),
    {
        match self.segment_size {
            None => self.packets[0].packet().to_transmit(),
            Some(segment_size) => {
                let segments: usize = self.packets.len();
                let size: usize = segments * segment_size;
                let mut buf: Vec<u8> = Vec::with_capacity(size);
                let mut i: usize = 0;
                let ghost models = ref_models(self.packets@);
                assert(models.take(0) =~= Seq::empty());
                while i < segments
                    invariant
                        i <= segments,
                        segments == self.packets@.len(),
                        models == ref_models(self.packets@),
                        buf@ == live_contents(models.take(i as int)),
                        live_contents(models).len() <= isize::MAX,
                    decreases segments - i,
                {
                    assert(models.take(i + 1).drop_last() =~= models.take(i as int));
                    proof {
                        lemma_live_prefix(models, i + 1);
                    }
                    let packet = self.packets[i].packet();
                    if !packet.skip {
                        vec_put_slice(&mut buf, packet.buf.as_slice());
                    }
                    i = i + 1;
                    assert(buf@ =~= live_contents(models.take(i as int)));
                }
                assert(models.take(i as int) =~= models);
                Transmit {
                    destination: self.dest,
                    ecn: None,
                    src_ip: None,
                    contents: buf,
                    segment_size: if segments == 1 {
                        None
                    } else {
                        Some(segment_size)
                    },
                }
            },
        }
    }
}

/// What an [`IncomingPacket`] stands for.
#[verifier::ext_equal]
pub struct IncomingModel {
    pub header: Header,
    pub data: Seq<u8>,
    pub read_offset: nat,
    pub from: SocketAddr,
}

impl IncomingModel {
    /// What of the data was not handed to the reader yet.
    pub open spec fn unread(self) -> Seq<u8> {
        self.data.skip(self.read_offset as int)
    }
}

/// A packet that came in for a stream.
#[derive(Debug)]
pub struct IncomingPacket {
    pub header: Header,
    /// What follows the header.
    pub buf: Bytes,
    /// How much of `buf` was handed to the reader.
    pub read_offset: usize,
    pub from: SocketAddr,
}

impl View for IncomingPacket {
    type V = IncomingModel;

    open spec fn view(&self) -> IncomingModel {
        IncomingModel {
            header: self.header,
            data: bytes_contents(self.buf),
            read_offset: self.read_offset as nat,
            from: self.from,
        }
    }
}

impl IncomingPacket {
    pub fn ack(&self) -> (ack: u32)
        ensures
            ack == self@.header.ack,
    {
        self.header.ack
    }

    pub fn seq(&self) -> (seq: u32)
        ensures
            seq == self@.header.seq,
    {
        self.header.seq
    }

    pub fn has_type(&self, typ: u32) -> (set: bool)
        ensures
            set == self@.header.has_flag(typ),
    {
        self.header.typ & typ != 0
    }

    pub fn data_len(&self) -> (len: usize)
        ensures
            len == self@.data.len(),
    {
        bytes_as_slice(&self.buf).len()
    }
}

/// Four bytes are the bytes of the number that they stand for.
pub proof fn law_le_bytes_of_value(bytes: Seq<u8>)
    requires
        bytes.len() == 4,
    ensures
        le_bytes(le_value(bytes)) == bytes,
{
    let high = bytes[2] + 256 * bytes[3];
    let upper = bytes[1] + 256 * high;
    let value = le_value(bytes);
    assert(value == bytes[0] + 256 * upper);
    assert(value % 256 == bytes[0] && value / 256 == upper);
    assert(upper % 256 == bytes[1] && upper / 256 == high);
    assert(high % 256 == bytes[2] && high / 256 == bytes[3]);
    assert(value / 65536 == high && value / 16777216 == bytes[3]);
    assert(le_bytes(value) =~= bytes);
}

/// A number is what its four bytes stand for.
pub proof fn law_le_value_of_bytes(x: u32)
    ensures
        le_value(le_bytes(x)) == x,
{
}

/// A header whose type flags and data offset fit a byte is read back from its
/// bytes as it was, whatever follows them; and what follows is the rest.
pub proof fn law_header_is_read_back(header: Header, rest: Seq<u8>)
    requires
        header.typ < 256,
        header.data_offset < 256,
    ensures
        Header::starts(header.encoding() + rest),
        Header::decoding(header.encoding() + rest) == header,
        (header.encoding() + rest).skip(UDX_HEADER_SIZE as int) == rest,
{
    let buf = header.encoding() + rest;
    assert(buf.subrange(4, 8) =~= le_bytes(header.stream_id));
    assert(buf.subrange(8, 12) =~= le_bytes(header.recv_win));
    assert(buf.subrange(12, 16) =~= le_bytes(header.seq));
    assert(buf.subrange(16, 20) =~= le_bytes(header.ack));
    law_le_value_of_bytes(header.stream_id);
    law_le_value_of_bytes(header.recv_win);
    law_le_value_of_bytes(header.seq);
    law_le_value_of_bytes(header.ack);
    assert(buf.skip(UDX_HEADER_SIZE as int) =~= rest);
}

/// A header that was read is written back as the bytes that it was read from.
pub proof fn law_header_is_written_back(buf: Seq<u8>)
    requires
        Header::starts(buf),
    ensures
        Header::decoding(buf).encoding() == buf.take(UDX_HEADER_SIZE as int),
{
    law_le_bytes_of_value(buf.subrange(4, 8));
    law_le_bytes_of_value(buf.subrange(8, 12));
    law_le_bytes_of_value(buf.subrange(12, 16));
    law_le_bytes_of_value(buf.subrange(16, 20));
    assert(Header::decoding(buf).encoding() =~= buf.take(UDX_HEADER_SIZE as int));
}

/// The packets that are not to be skipped, in order.
pub open spec fn live_packets(packets: Seq<PacketRefModel>) -> Seq<PacketModel>
    decreases packets.len(),
{
    if packets.len() == 0 {
        Seq::empty()
    } else {
        let front = live_packets(packets.drop_last());
        let last = packets.last().packet();
        if last.skip {
            front
        } else {
            front.push(last)
        }
    }
}

/// Cut into pieces of the segment size, what the socket is given to send is
/// exactly the packets that are not to be skipped, in order.
pub proof fn law_segments_are_packets(packets: Seq<PacketRefModel>, size: nat, i: int)
    requires
        forall|j: int|
            0 <= j < packets.len() ==> (#[trigger] packets[j]).packet().buf.len() == size,
        0 <= i < live_packets(packets).len(),
    ensures
        live_contents(packets).len() == live_packets(packets).len() * size,
        live_contents(packets).subrange(i * size, i * size + size) == live_packets(packets)[i].buf,
    decreases packets.len(),
{
    let front = packets.drop_last();
    let last = packets.last().packet();
    let n = live_packets(front).len();
    lemma_live_len(front, size);
    assert(packets[packets.len() - 1].packet().buf.len() == size);
    assert(n * size + size == (n + 1) * size) by (nonlinear_arith);
    if i < n {
        law_segments_are_packets(front, size, i);
        assert(i * size + size <= n * size) by (nonlinear_arith)
            requires
                i < n,
        ;
        assert(0 <= i * size) by (nonlinear_arith)
            requires
                0 <= i,
        ;
        assert(live_contents(packets).subrange(i * size, i * size + size) =~= live_contents(
            front,
        ).subrange(i * size, i * size + size));
    } else {
        assert(live_contents(packets).subrange(i * size, i * size + size) =~= last.buf);
    }
}

/// How long the bytes of packets of one size are.
pub proof fn lemma_live_len(packets: Seq<PacketRefModel>, size: nat)
    requires
        forall|j: int|
            0 <= j < packets.len() ==> (#[trigger] packets[j]).packet().buf.len() == size,
    ensures
        live_contents(packets).len() == live_packets(packets).len() * size,
        live_packets(packets).len() <= packets.len(),
    decreases packets.len(),
{
    if packets.len() > 0 {
        let front = packets.drop_last();
        lemma_live_len(front, size);
        let n = live_packets(front).len();
        assert(packets[packets.len() - 1].packet().buf.len() == size);
        assert(n * size + size == (n + 1) * size) by (nonlinear_arith);
    } else {
        assert(0 * size == 0);
    }
}

} // verus!
