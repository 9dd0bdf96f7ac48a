//! A simpler stream and socket: every packet is sent on its own, every packet
//! that came in is acknowledged on its own, and streams do not end.

use std::collections::{HashMap, VecDeque};

use tokio::io::ReadBuf;
use vstd::prelude::*;

use crate::addr::SocketAddr;
use crate::buffers::{bytes_from_vec, read_buf_capacity, read_buf_filled, read_buf_remaining};
use crate::congestion::{grow, grown, law_window_grows, max_window, shrink, shrunk};
use crate::constants::{
    UDX_HEADER_DATA, UDX_HEADER_SIZE, UDX_MAX_DATA_SIZE, UDX_MAX_TRANSMITS, UDX_MTU,
};
pub use crate::error::UdxError;
use crate::error::{ErrorKind, ErrorModel};
use crate::laws::{
    agrees, genuine, holds, joined, law_advancing_agrees, law_inserting_holds, lemma_joined_concat,
    lemma_joined_one,
};
use crate::packet::{law_header_is_read_back, IncomingModel};
pub use crate::packet::{Header, IncomingPacket};
use crate::reassembly::{law_read_in_order, Reassembly, ReassemblyModel};
use crate::rtt::{RttEstimator, RttModel};
pub use crate::socket::SocketEvent;
use crate::socket::{bool_result, Arrival, EventIncoming, OutcomeModel, SendOutcome};
use crate::stream::{chunk, count_taken, read_result, taken, write_result, Wakes};
use crate::totals::{lemma_total_at_least, lemma_total_change, lemma_total_same, share, total};

verus! {

/// Rounds of sending or receiving after which the driver lets others run.
pub const MAX_LOOP: usize = 50;

/// Retransmissions of one packet after which a stream gives up.
pub const MAX_TRANSMITS: u8 = UDX_MAX_TRANSMITS;

/// What a [`Packet`] stands for.
#[verifier::ext_equal]
pub struct PacketModel {
    pub time_sent: u64,
    pub transmits: nat,
    pub dest: SocketAddr,
    pub header: Header,
    pub buf: Seq<u8>,
}

impl PacketModel {
    /// A packet that was made at the time `now`.
    pub open spec fn fresh(dest: SocketAddr, header: Header, body: Seq<u8>, now: u64) -> PacketModel {
        PacketModel { time_sent: now, transmits: 0, dest, header, buf: header.encoding() + body }
    }
}

/// A packet on its way out.
#[derive(Debug)]
pub struct Packet {
    /// When the packet was made, in nanoseconds.
    pub time_sent: u64,
    /// How often the packet was sent again.
    pub transmits: usize,
    pub dest: SocketAddr,
    pub header: Header,
    pub buf: Vec<u8>,
}

impl View for Packet {
    type V = PacketModel;

    open spec fn view(&self) -> PacketModel {
        PacketModel {
            time_sent: self.time_sent,
            transmits: self.transmits as nat,
            dest: self.dest,
            header: self.header,
            buf: self.buf@,
        }
    }
}

impl Packet {
    pub fn has_type(&self, typ: u32) -> (set: bool)
        ensures
            set == self@.header.has_flag(typ),
    {
        self.header.typ & typ != 0
    }

    /// A packet of `header` and `body`, made at the time `now`.
    pub fn new(dest: SocketAddr, header: Header, body: &[u8], now: u64) -> (packet: Self)
        requires
            UDX_HEADER_SIZE + body@.len() <= usize::MAX,
        ensures
            packet@ == PacketModel::fresh(dest, header, body@, now),
    {
        let mut buf: Vec<u8> = header.to_vec();
        buf.extend_from_slice(body);
        Packet { time_sent: now, transmits: 0, dest, header, buf }
    }

    /// A packet of a stream with the given type flags and body.
    pub fn from_stream(stream: &UdxStream, typ: u32, body: &[u8], now: u64) -> (packet: Self)
        requires
            UDX_HEADER_SIZE + body@.len() <= usize::MAX,
        ensures
            packet@ == stream@.packet(typ, body@, now),
    {
        let header = stream.header(typ);
        Packet::new(stream.remote_addr, header, body, now)
    }

    pub fn seq(&self) -> (seq: u32)
        ensures
            seq == self@.header.seq,
    {
        self.header.seq
    }

    /// A copy with bytes of its own.
    pub fn duplicate(&self) -> (copy: Self)
        ensures
            copy@ == self@,
    {
        Packet {
            time_sent: self.time_sent,
            transmits: self.transmits,
            dest: self.dest,
            header: self.header,
            buf: vstd::slice::slice_to_vec(self.buf.as_slice()),
        }
    }
}

/// The packets that stand for the given ones.
pub open spec fn packet_map(packets: Map<u32, Packet>) -> Map<u32, PacketModel> {
    packets.map_values(|packet: Packet| packet@)
}

/// The packets that stand for the given ones.
pub open spec fn packet_seq(packets: Seq<Packet>) -> Seq<PacketModel> {
    packets.map_values(|packet: Packet| packet@)
}

/// The packets that stand for the given events.
pub open spec fn incoming_models(events: Seq<EventIncoming>) -> Seq<IncomingModel> {
    events.map_values(|event: EventIncoming| event.packet())
}

/// The bytes of a packet.
pub open spec fn len() -> spec_fn(PacketModel) -> nat {
    |packet: PacketModel| packet.buf.len()
}

/// The highest acknowledgement among the packets.
pub open spec fn max_ack(events: Seq<IncomingModel>) -> u32
    decreases events.len(),
{
    if events.len() == 0 {
        0
    } else {
        let rest = max_ack(events.drop_first());
        let first = events[0].header.ack;
        if first < rest {
            rest
        } else {
            first
        }
    }
}

/// Whether every packet is read from a place inside of its data.
pub open spec fn offsets_ok(events: Seq<IncomingModel>) -> bool {
    forall|i: int|
        0 <= i < events.len() ==> (#[trigger] events[i]).read_offset <= events[i].data.len()
}

/// What a [`UdxStream`] stands for.
#[verifier::ext_equal]
pub struct StreamModel {
    /// What came in.
    pub rx: ReassemblyModel,
    /// Data packets that were sent and not acknowledged, by number.
    pub outgoing: Map<u32, PacketModel>,
    /// Packets that are to go to the socket.
    pub send_queue: Seq<PacketModel>,
    pub remote_id: u32,
    pub local_id: u32,
    pub remote_addr: SocketAddr,
    /// The number of the next data packet.
    pub seq: u32,
    /// The highest acknowledgement from the remote.
    pub remote_acked: u32,
    /// How many bytes are sent and not acknowledged.
    pub inflight: nat,
    /// How many bytes may be.
    pub cwnd: nat,
    pub rtt: RttModel,
    /// In how many nanoseconds the timer is to fire, if it is to be set anew.
    pub timer: Option<nat>,
    /// Whether a task waits for data to read.
    pub read_waker: bool,
    /// Whether a task waits for room to write.
    pub write_waker: bool,
    /// Whether the driver waits for something to do.
    pub drive_waker: bool,
    /// Which tasks are to be woken.
    pub wakes: Wakes,
    /// Why the stream failed, once it did.
    pub error: Option<ErrorModel>,
}

impl StreamModel {
    /// A stream that was just opened.
    pub open spec fn initial(dest: SocketAddr, local_id: u32, remote_id: u32) -> StreamModel {
        StreamModel {
            rx: ReassemblyModel::initial(),
            outgoing: Map::empty(),
            send_queue: Seq::empty(),
            remote_id,
            local_id,
            remote_addr: dest,
            seq: 0,
            remote_acked: 0,
            inflight: 0,
            cwnd: 2 * UDX_MTU as nat,
            rtt: RttModel::initial(),
            timer: Some(RttModel::initial().rto),
            read_waker: false,
            write_waker: false,
            drive_waker: false,
            wakes: Wakes::none(),
            error: None,
        }
    }

    /// Unacknowledged packets are numbered below `seq` and fit a datagram.
    pub open spec fn outgoing_ok(self) -> bool {
        forall|key: u32| #[trigger]
            self.outgoing.contains_key(key) ==> {
                &&& key < self.seq
                &&& self.outgoing[key].header.seq == key
                &&& self.outgoing[key].buf.len() <= UDX_MTU
            }
    }

    /// What holds of a stream while packets are taken in.
    pub open spec fn wf_core(self) -> bool {
        &&& self.rx.wf()
        &&& self.outgoing_ok()
        &&& self.inflight == total(self.outgoing, len(), self.seq as nat)
        &&& self.inflight <= max_window() + UDX_HEADER_SIZE
        &&& UDX_MTU <= self.cwnd <= max_window()
        &&& self.rtt.wf()
    }

    /// What holds of every stream.
    pub open spec fn wf(self) -> bool {
        self.wf_core() && self.rx.settled()
    }

    /// Whether the window can grow for so many packets that come in.
    pub open spec fn can_receive(self, packets: nat) -> bool {
        self.cwnd + UDX_MTU * packets <= max_window()
    }

    /// Whether there are numbers for the packets that a write of so many bytes
    /// sends.
    pub open spec fn can_send(self, bytes: nat) -> bool {
        self.seq + taken(self.inflight, self.cwnd, bytes).0 <= u32::MAX
    }

    pub open spec fn wake_read(self) -> StreamModel {
        if self.read_waker {
            StreamModel { read_waker: false, wakes: Wakes { read: true, ..self.wakes }, ..self }
        } else {
            self
        }
    }

    pub open spec fn wake_write(self) -> StreamModel {
        if self.write_waker {
            StreamModel { write_waker: false, wakes: Wakes { write: true, ..self.wakes }, ..self }
        } else {
            self
        }
    }

    pub open spec fn wake_drive(self) -> StreamModel {
        if self.drive_waker {
            StreamModel { drive_waker: false, wakes: Wakes { drive: true, ..self.wakes }, ..self }
        } else {
            self
        }
    }

    /// The header of a packet with the given type flags.
    pub open spec fn header(self, typ: u32) -> Header {
        Header {
            stream_id: self.remote_id,
            typ,
            seq: self.seq,
            ack: self.rx.ack,
            data_offset: 0,
            recv_win: u32::MAX,
        }
    }

    /// A packet with the given type flags and body.
    pub open spec fn packet(self, typ: u32, body: Seq<u8>, now: u64) -> PacketModel {
        PacketModel::fresh(self.remote_addr, self.header(typ), body, now)
    }

    /// After a packet was queued that only tells the remote what came in.
    pub open spec fn with_state_packet(self, now: u64) -> StreamModel {
        StreamModel {
            send_queue: self.send_queue.push(self.packet(0, Seq::empty(), now)),
            ..self
        }.wake_drive()
    }

    /// After the packet `key` was queued to be sent again.
    pub open spec fn resent(self, key: u32) -> StreamModel {
        let packet = PacketModel {
            transmits: self.outgoing[key].transmits + 1,
            ..self.outgoing[key]
        };
        StreamModel {
            outgoing: self.outgoing.insert(key, packet),
            send_queue: self.send_queue.push(packet),
            ..self
        }
    }

    /// Queues all packets with numbers from `from` up to `to` to be sent again.
    /// Stops at one that was sent too often, and says whether there was none.
    pub open spec fn resend(self, from: u32, to: u32) -> (StreamModel, bool)
        decreases to - from,
    {
        if from >= to {
            (self, true)
        } else if self.outgoing.contains_key(from) {
            if self.outgoing[from].transmits >= MAX_TRANSMITS {
                (self, false)
            } else {
                self.resent(from).resend((from + 1) as u32, to)
            }
        } else {
            self.resend((from + 1) as u32, to)
        }
    }

    /// After the timer was looked at: the state, and whether the stream goes on.
    pub open spec fn checked_timeouts(self, fired: bool) -> (StreamModel, bool) {
        if !fired || self.remote_acked == self.seq {
            (self, true)
        } else {
            StreamModel {
                timer: Some(2 * self.rtt.rto),
                cwnd: shrunk(self.cwnd),
                ..self
            }.resend(self.remote_acked, self.seq)
        }
    }

    /// After all packets that came in without a gap were acknowledged, each with
    /// a packet of its own.
    pub open spec fn with_acks(self, now: u64) -> StreamModel
        decreases u32::MAX - self.rx.ack,
    {
        if self.rx.ack < u32::MAX && self.rx.incoming.contains_key(self.rx.ack) {
            let counted = StreamModel {
                rx: ReassemblyModel { ack: (self.rx.ack + 1) as u32, ..self.rx },
                ..self
            };
            counted.with_state_packet(now).with_acks(now)
        } else {
            self
        }
    }

    /// The round trip estimate after the packet was acknowledged. Only a packet
    /// that was sent again exactly once counts.
    pub open spec fn rtt_after(self, packet: PacketModel, now: u64) -> RttModel {
        if packet.transmits == 1 {
            self.rtt.sampled(
                if now >= packet.time_sent {
                    (now - packet.time_sent) as nat
                } else {
                    0
                },
            )
        } else {
            self.rtt
        }
    }

    /// After a packet, which is no longer among the unacknowledged ones, was
    /// acknowledged at the time `now`.
    pub open spec fn packet_acked(self, packet: PacketModel, now: u64) -> StreamModel {
        let rtt = self.rtt_after(packet, now);
        let acked = StreamModel {
            inflight: (self.inflight - packet.buf.len()) as nat,
            rtt,
            timer: Some(rtt.rto),
            ..self
        };
        if acked.inflight + UDX_MTU <= acked.cwnd {
            acked.wake_write()
        } else {
            acked
        }
    }

    /// After the packet `key` was acknowledged, if it was not before.
    pub open spec fn ack_one(self, key: u32, now: u64) -> StreamModel {
        if self.outgoing.contains_key(key) {
            StreamModel { outgoing: self.outgoing.remove(key), ..self }.packet_acked(
                self.outgoing[key],
                now,
            )
        } else {
            self
        }
    }

    /// After the packets with numbers from `from` up to `to` were acknowledged.
    pub open spec fn ack_range(self, from: u32, to: u32, now: u64) -> StreamModel
        decreases to - from,
    {
        if from >= to {
            self
        } else {
            self.ack_one(from, now).ack_range((from + 1) as u32, to, now)
        }
    }

    /// After the remote acknowledged all packets below `ack`.
    pub open spec fn remote_acked_to(self, ack: u32, now: u64) -> StreamModel {
        if ack <= self.remote_acked {
            self
        } else {
            StreamModel { remote_acked: ack, ..self.ack_range(self.remote_acked, ack, now) }
        }
    }

    /// After a packet came in: the window grows unless it acknowledges what the
    /// last one did, and a reader is woken if its data is the awaited one.
    pub open spec fn received(self, packet: IncomingModel) -> StreamModel {
        let grew = if packet.header.ack != self.remote_acked {
            StreamModel { cwnd: grown(self.cwnd), ..self }
        } else {
            self
        };
        if packet.header.has_flag(UDX_HEADER_DATA) {
            let stored = StreamModel { rx: grew.rx.inserted(packet), ..grew };
            if packet.header.seq == self.rx.ack {
                stored.wake_read()
            } else {
                stored
            }
        } else {
            grew
        }
    }

    /// After several packets came in.
    pub open spec fn received_all(self, events: Seq<IncomingModel>) -> StreamModel
        decreases events.len(),
    {
        if events.len() == 0 {
            self
        } else {
            self.received(events[0]).received_all(events.drop_first())
        }
    }

    /// After the stream looked at what came in.
    pub open spec fn polled_incoming(self, events: Seq<IncomingModel>, now: u64) -> StreamModel {
        self.received_all(events).with_acks(now).remote_acked_to(max_ack(events), now)
    }

    /// After a data packet was sent.
    pub open spec fn data_sent(self, body: Seq<u8>, now: u64) -> StreamModel {
        let packet = self.packet(UDX_HEADER_DATA, body, now);
        StreamModel {
            seq: (self.seq + 1) as u32,
            outgoing: self.outgoing.insert(self.seq, packet),
            send_queue: self.send_queue.push(packet),
            inflight: self.inflight + packet.buf.len(),
            ..self
        }.wake_drive()
    }

    /// Cuts `buf` into data packets and sends them while the window has room:
    /// the state after that, and how many bytes were sent.
    pub open spec fn send_all(self, buf: Seq<u8>, now: u64) -> (StreamModel, nat)
        decreases buf.len(),
    {
        if buf.len() == 0 || self.inflight + chunk(buf).len() > self.cwnd {
            (self, 0)
        } else {
            let n = chunk(buf).len();
            let (end, rest) = self.data_sent(chunk(buf), now).send_all(buf.skip(n as int), now);
            (end, n + rest)
        }
    }

    /// A write: the state after it, and its result; none where the writer has
    /// to wait.
    pub open spec fn write(self, buf: Seq<u8>, now: u64) -> (
        StreamModel,
        Option<Result<nat, ErrorModel>>,
    ) {
        match self.error {
            Some(error) => (self, Some(Err(error))),
            None => {
                let (end, written) = self.send_all(buf, now);
                if written == 0 && buf.len() > 0 {
                    (StreamModel { write_waker: true, ..self }, None)
                } else {
                    (end, Some(Ok(written)))
                }
            },
        }
    }

    /// The end of a round of the driver: the state after it, and the packets that
    /// are to be sent.
    pub open spec fn end_round(self, fired: bool) -> (StreamModel, Seq<PacketModel>) {
        let (end, ok) = self.checked_timeouts(fired);
        if ok {
            (
                StreamModel { send_queue: Seq::empty(), drive_waker: true, ..end },
                end.send_queue,
            )
        } else {
            (
                StreamModel {
                    error: Some(ErrorModel::retransmits_exhausted()),
                    drive_waker: true,
                    ..end
                },
                Seq::empty(),
            )
        }
    }

    /// A read into a buffer with the given room: the state after it, the bytes
    /// that it gives, and its result; none where the reader has to wait. A read
    /// that gives bytes, or finishes a packet without any, succeeds. A stream
    /// that failed gives nothing.
    pub open spec fn read(self, room: nat) -> (
        StreamModel,
        Seq<u8>,
        Option<Result<(), ErrorModel>>,
    ) {
        match self.error {
            Some(error) => (self, Seq::empty(), Some(Err(error))),
            None => {
                let (rx, bytes, finished) = self.rx.read(room);
                if finished || bytes.len() > 0 {
                    (StreamModel { rx, ..self }, bytes, Some(Ok(())))
                } else {
                    (StreamModel { rx, read_waker: true, ..self }, bytes, None)
                }
            },
        }
    }
}

/// A reliable stream of bytes to and from one remote.
#[derive(Debug)]
pub struct UdxStream {
    rx: Reassembly,
    outgoing: HashMap<u32, Packet>,
    send_queue: VecDeque<Packet>,
    remote_id: u32,
    local_id: u32,
    remote_addr: SocketAddr,
    seq: u32,
    remote_acked: u32,
    inflight: usize,
    cwnd: usize,
    rtt: RttEstimator,
    timer: Option<u128>,
    read_waker: bool,
    write_waker: bool,
    drive_waker: bool,
    wakes: Wakes,
    error: Option<UdxError>,
}

impl View for UdxStream {
    type V = StreamModel;

    closed spec fn view(&self) -> StreamModel {
        StreamModel {
            rx: self.rx@,
            outgoing: packet_map(self.outgoing@),
            send_queue: packet_seq(self.send_queue@),
            remote_id: self.remote_id,
            local_id: self.local_id,
            remote_addr: self.remote_addr,
            seq: self.seq,
            remote_acked: self.remote_acked,
            inflight: self.inflight as nat,
            cwnd: self.cwnd as nat,
            rtt: self.rtt@,
            timer: match self.timer {
                Some(nanos) => Some(nanos as nat),
                None => None,
            },
            read_waker: self.read_waker,
            write_waker: self.write_waker,
            drive_waker: self.drive_waker,
            wakes: self.wakes,
            error: match self.error {
                Some(error) => Some(error@),
                None => None,
            },
        }
    }
}

/// A change at one number changes the bytes in flight by what that packet adds.
proof fn lemma_inflight(
    before: Map<u32, PacketModel>,
    after: Map<u32, PacketModel>,
    n: u32,
    changed: u32,
)
    requires
        changed < n,
        forall|key: u32|
            key != changed ==> {
                &&& #[trigger] before.contains_key(key) == after.contains_key(key)
                &&& before.contains_key(key) ==> before[key] == after[key]
            },
    ensures
        total(before, len(), n as nat) + share(after, len(), changed) == total(
            after,
            len(),
            n as nat,
        ) + share(before, len(), changed),
        share(before, len(), changed) <= total(before, len(), n as nat),
{
    lemma_total_change(before, after, len(), n as nat, changed);
    lemma_total_at_least(before, len(), n as nat, changed);
}

/// Acknowledging a packet keeps the stream's invariant, and the bytes in flight
/// allow for it.
pub proof fn lemma_ack_one(stream: StreamModel, key: u32, now: u64)
    requires
        stream.wf(),
    ensures
        stream.ack_one(key, now).wf(),
        stream.outgoing.contains_key(key) ==> stream.outgoing[key].buf.len() <= stream.inflight,
{
    if stream.outgoing.contains_key(key) {
        lemma_inflight(stream.outgoing, stream.outgoing.remove(key), stream.seq, key);
    }
}

/// Sending a data packet keeps the stream's invariant.
pub proof fn lemma_data_sent(stream: StreamModel, body: Seq<u8>, now: u64)
    requires
        stream.wf(),
        body.len() <= UDX_MAX_DATA_SIZE,
        stream.inflight + body.len() <= stream.cwnd,
        stream.seq < u32::MAX,
    ensures
        stream.data_sent(body, now).wf(),
{
    let after = stream.data_sent(body, now);
    let n = stream.seq as nat;
    lemma_total_same(stream.outgoing, after.outgoing, len(), n);
    let packet = stream.packet(UDX_HEADER_DATA, body, now);
    assert(packet.buf.len() == UDX_HEADER_SIZE + body.len());
    assert(share(after.outgoing, len(), stream.seq) == packet.buf.len());
    assert(total(after.outgoing, len(), n + 1) == total(after.outgoing, len(), n)
        + packet.buf.len());
}

/// One packet widens the window by one packet at most.
proof fn lemma_window_left(stream: StreamModel, packet: IncomingModel, packets: nat)
    requires
        stream.can_receive(packets + 1),
    ensures
        stream.received(packet).can_receive(packets),
        stream.can_receive(1),
{
    assert(UDX_MTU * (packets + 1) == UDX_MTU * packets + UDX_MTU) by (nonlinear_arith);
    assert(UDX_MTU * packets >= 0) by (nonlinear_arith);
    assert(UDX_MTU * 1 == UDX_MTU);
    law_window_grows(stream.cwnd);
}

impl UdxStream {
    /// Opens the stream `local_id` to the remote's stream `remote_id` at `dest`.
    pub fn connect(dest: SocketAddr, local_id: u32, remote_id: u32) -> (stream: Self)
        ensures
            stream@ == StreamModel::initial(dest, local_id, remote_id),
            stream@.wf(),
    {
        let rtt = RttEstimator::new();
        let stream = UdxStream {
            rx: Reassembly::new(),
            outgoing: HashMap::new(),
            send_queue: VecDeque::new(),
            remote_id,
            local_id,
            remote_addr: dest,
            seq: 0,
            remote_acked: 0,
            inflight: 0,
            cwnd: 2 * UDX_MTU,
            rtt,
            timer: Some(rtt.rto()),
            read_waker: false,
            write_waker: false,
            drive_waker: false,
            wakes: Wakes { read: false, write: false, drive: false },
            error: None,
        };
        assert(stream@ =~= StreamModel::initial(dest, local_id, remote_id));
        stream
    }

    /// Takes the tasks that are to be woken.
    pub fn take_wakes(&mut self) -> (wakes: Wakes)
        ensures
            wakes == old(self)@.wakes,
            final(self)@ == (StreamModel { wakes: Wakes::none(), ..old(self)@ }),
    {
        let wakes = self.wakes;
        self.wakes = Wakes { read: false, write: false, drive: false };
        wakes
    }

    /// Takes the nanoseconds in which the timer is to fire, if it is to be set
    /// anew.
    pub fn take_timer(&mut self) -> (nanos: Option<u128>)
        ensures
            match nanos {
                Some(nanos) => old(self)@.timer == Some(nanos as nat),
                None => old(self)@.timer is None,
            },
            final(self)@ == (StreamModel { timer: None, ..old(self)@ }),
    {
        let nanos = self.timer;
        self.timer = None;
        nanos
    }

    /// The smoothed round trip time, in nanoseconds.
    pub fn srtt(&self) -> (srtt: u128)
        ensures
            srtt == self@.rtt.srtt,
    {
        self.rtt.srtt()
    }

    /// The smoothed variation of the round trip time, in nanoseconds.
    pub fn rttvar(&self) -> (rttvar: u128)
        ensures
            rttvar == self@.rtt.rttvar,
    {
        self.rtt.rttvar()
    }

    /// Whether [`StreamModel::can_receive`] holds.
    pub fn can_receive(&self, packets: usize) -> (can: bool)
        ensures
            can == self@.can_receive(packets as nat),
    {
        let count: u128 = packets as u128;
        let mtu: u128 = UDX_MTU as u128;
        assert(mtu * count <= 1400 * 0xffff_ffff_ffff_ffff) by (nonlinear_arith)
            requires
                mtu == 1400,
                count <= 0xffff_ffff_ffff_ffff,
        ;
        assert(mtu * count == UDX_MTU * packets);
        self.cwnd as u128 + mtu * count + 2 * mtu <= usize::MAX as u128
    }

    /// Whether [`StreamModel::can_send`] holds.
    pub fn can_send(&self, bytes: usize) -> (can: bool)
        ensures
            can == self@.can_send(bytes as nat),
    {
        let (packets, _) = count_taken(self.inflight, self.cwnd, bytes);
        packets <= u32::MAX as u128 - self.seq as u128
    }

    /// Whether the stream has failed.
    pub fn failed(&self) -> (failed: bool)
        ensures
            failed == self@.error is Some,
    {
        self.error.is_some()
    }

    fn wake_reader(&mut self)
        ensures
            final(self)@ == old(self)@.wake_read(),
    {
        if self.read_waker {
            self.read_waker = false;
            self.wakes = Wakes { read: true, ..self.wakes };
        }
    }

    fn wake_writer(&mut self)
        ensures
            final(self)@ == old(self)@.wake_write(),
    {
        if self.write_waker {
            self.write_waker = false;
            self.wakes = Wakes { write: true, ..self.wakes };
        }
    }

    /// Wakes the driver, if it waits.
    pub fn wake_driver(&mut self)
        ensures
            final(self)@ == old(self)@.wake_drive(),
    {
        if self.drive_waker {
            self.drive_waker = false;
            self.wakes = Wakes { drive: true, ..self.wakes };
        }
    }

    /// The header of a packet with the given type flags.
    fn header(&self, typ: u32) -> (header: Header)
        ensures
            header == self@.header(typ),
    {
        Header {
            stream_id: self.remote_id,
            typ,
            seq: self.seq,
            ack: self.rx.ack(),
            data_offset: 0,
            recv_win: u32::MAX,
        }
    }

    fn send_state_packet(&mut self, now: u64)
        ensures
            final(self)@ == old(self)@.with_state_packet(now),
    {
        let body: Vec<u8> = Vec::new();
        let packet = Packet::from_stream(self, 0, body.as_slice(), now);
        assert(body@ =~= Seq::empty());
        self.send_queue.push_back(packet);
        self.wake_driver();
        assert(self@ =~= old(self)@.with_state_packet(now));
    }

    /// Looks at the timer, which has fired or not.
    pub fn poll_check_timeouts(&mut self, fired: bool) -> (result: Result<(), UdxError>)
        requires
            old(self)@.wf(),
        ensures
            final(self)@ == old(self)@.checked_timeouts(fired).0,
            match result {
                Ok(_) => old(self)@.checked_timeouts(fired).1,
                Err(error) => {
                    &&& !old(self)@.checked_timeouts(fired).1
                    &&& error@ == ErrorModel::retransmits_exhausted()
                },
            },
            final(self)@.wf(),
    {
        if !fired {
            return Ok(());
        }
        if self.remote_acked == self.seq {
            return Ok(());
        }
        // Schedule the next timeout, and shrink the window.
        self.timer = Some(2 * self.rtt.rto());
        self.cwnd = shrink(self.cwnd);
        let ghost whole = self@.resend(self@.remote_acked, self@.seq);
        assert(whole == old(self)@.checked_timeouts(fired));
        let end: u32 = self.seq;
        let mut i: u32 = self.remote_acked;
        while i < end
            invariant
                self@.wf(),
                end == self@.seq,
                self@.resend(i, end) == whole,
                whole == old(self)@.checked_timeouts(fired),
            decreases end - i,
        {
            let ghost before = self@;
            let may_retransmit: Option<bool> = match self.outgoing.get(&i) {
                Some(packet) => {
                    assert(packet@ == self@.outgoing[i]);
                    Some(packet.transmits < MAX_TRANSMITS as usize)
                },
                None => None,
            };
            if let Some(may_retransmit) = may_retransmit {
                if !may_retransmit {
                    return Err(
                        UdxError::new(ErrorKind::TimedOut, "Max retransmits reached without ack"),
                    );
                }
                if let Some(packet) = self.outgoing.remove(&i) {
                    assert(packet@ == before.outgoing[i]);
                    let transmits: usize = packet.transmits + 1;
                    let packet = Packet { transmits, ..packet };
                    let queued = packet.duplicate();
                    self.outgoing.insert(i, packet);
                    self.send_queue.push_back(queued);
                    assert(self@ =~= before.resent(i));
                    proof {
                        lemma_inflight(before.outgoing, self@.outgoing, self@.seq, i);
                    }
                }
            }
            i = i + 1;
        }
        Ok(())
    }

    /// Takes all queued packets; each is to be sent on its own.
    pub fn poll_transmit(&mut self) -> (packets: VecDeque<Packet>)
        requires
            old(self)@.wf(),
        ensures
            packet_seq(packets@) == old(self)@.send_queue,
            final(self)@ == (StreamModel { send_queue: Seq::empty(), ..old(self)@ }),
            final(self)@.wf(),
    {
        let mut packets: VecDeque<Packet> = VecDeque::new();
        std::mem::swap(&mut packets, &mut self.send_queue);
        assert(self@.send_queue =~= Seq::empty());
        packets
    }

    /// Acknowledges all packets that came in without a gap.
    fn send_acks(&mut self, now: u64)
        requires
            old(self)@.wf_core(),
        ensures
            final(self)@ == old(self)@.with_acks(now),
            final(self)@.wf(),
    {
        let mut more = self.rx.advance_one();
        let ghost mut before = old(self)@;
        while more
            invariant
                self@.wf_core(),
                before.with_acks(now) == old(self)@.with_acks(now),
                before.rx.ack <= self@.rx.ack,
                more == !before.rx.settled(),
                more ==> before.rx.ack < u32::MAX,
                self@ == if more {
                    StreamModel {
                        rx: ReassemblyModel { ack: (before.rx.ack + 1) as u32, ..before.rx },
                        ..before
                    }
                } else {
                    before
                },
            decreases u32::MAX - self@.rx.ack + if more {
                1int
            } else {
                0
            },
        {
            self.send_state_packet(now);
            proof {
                before = self@;
            }
            more = self.rx.advance_one();
        }
    }

    /// Takes note that a packet, which is no longer kept, was acknowledged at
    /// the time `now`, in nanoseconds.
    fn handle_ack(&mut self, packet: &Packet, now: u64)
        requires
            old(self)@.rtt.wf(),
            packet@.buf.len() <= old(self)@.inflight <= max_window() + UDX_HEADER_SIZE,
        ensures
            final(self)@ == old(self)@.packet_acked(packet@, now),
    {
        self.inflight = self.inflight - packet.buf.len();
        if packet.transmits == 1 {
            let rtt: u64 = if now >= packet.time_sent {
                now - packet.time_sent
            } else {
                0
            };
            self.rtt.sample(rtt as u128);
        }
        self.timer = Some(self.rtt.rto());
        if self.inflight + UDX_MTU <= self.cwnd {
            self.wake_writer();
        }
        assert(self@ =~= old(self)@.packet_acked(packet@, now));
    }

    /// Takes note that the remote acknowledged all packets below `ack`.
    fn handle_remote_ack(&mut self, ack: u32, now: u64)
        requires
            old(self)@.wf(),
        ensures
            final(self)@ == old(self)@.remote_acked_to(ack, now),
            final(self)@.wf(),
    {
        if ack <= self.remote_acked {
            return;
        }
        let ghost from = self@.remote_acked;
        while self.remote_acked < ack
            invariant
                self@.wf(),
                from <= self@.remote_acked <= ack,
                (StreamModel {
                    remote_acked: from,
                    ..self@
                }).ack_range(self@.remote_acked, ack, now) == old(self)@.ack_range(from, ack, now),
            decreases ack - self@.remote_acked,
        {
            let ghost before = StreamModel { remote_acked: from, ..self@ };
            let key: u32 = self.remote_acked;
            proof {
                lemma_ack_one(before, key, now);
            }
            self.remote_acked = key + 1;
            if let Some(packet) = self.outgoing.remove(&key) {
                assert(packet@ == before.outgoing[key]);
                self.handle_ack(&packet, now);
            }
            assert((StreamModel { remote_acked: from, ..self@ }) =~= before.ack_one(key, now));
            assert(self@.wf());
        }
        assert(self@ =~= old(self)@.remote_acked_to(ack, now));
    }

    /// Takes in a packet.
    fn handle_incoming(&mut self, packet: IncomingPacket)
        requires
            old(self)@.wf_core(),
            old(self)@.can_receive(1),
            packet@.read_offset <= packet@.data.len(),
        ensures
            final(self)@ == old(self)@.received(packet@),
            final(self)@.wf_core(),
    {
        proof {
            assert(UDX_MTU * 1 == UDX_MTU);
            law_window_grows(self@.cwnd);
        }
        if packet.ack() != self.remote_acked {
            self.cwnd = grow(self.cwnd);
        }
        if packet.has_type(UDX_HEADER_DATA) {
            let next_in_line = packet.seq() == self.rx.ack();
            self.rx.insert(packet);
            if next_in_line {
                self.wake_reader();
            }
        }
        assert(self@ =~= old(self)@.received(packet@));
    }

    /// Takes in all packets that wait at the time `now`, in nanoseconds.
    pub fn poll_incoming(&mut self, events: VecDeque<EventIncoming>, now: u64)
        requires
            old(self)@.wf(),
            old(self)@.can_receive(events@.len()),
            offsets_ok(incoming_models(events@)),
        ensures
            final(self)@ == old(self)@.polled_incoming(incoming_models(events@), now),
            final(self)@.wf(),
    {
        let mut events = events;
        let mut remote_ack: u32 = 0;
        let ghost all = incoming_models(events@);
        while events.len() > 0
            invariant
                self@.wf_core(),
                self@.can_receive(events@.len()),
                offsets_ok(incoming_models(events@)),
                self@.received_all(incoming_models(events@)) == old(self)@.received_all(all),
                max_ack(all) == if remote_ack < max_ack(incoming_models(events@)) {
                    max_ack(incoming_models(events@))
                } else {
                    remote_ack
                },
            decreases events@.len(),
        {
            let ghost waiting = incoming_models(events@);
            if let Some(event) = events.pop_front() {
                match event {
                    EventIncoming::Packet(packet) => {
                        let ghost rest = incoming_models(events@);
                        proof {
                            assert(waiting[0] == packet@);
                            assert(waiting.drop_first() =~= rest);
                            assert forall|i: int| 0 <= i < rest.len() implies (
                            #[trigger] rest[i]).read_offset <= rest[i].data.len() by {
                                assert(rest[i] == waiting[i + 1]);
                            }
                            lemma_window_left(self@, packet@, rest.len());
                        }
                        let ack: u32 = packet.ack();
                        if ack > remote_ack {
                            remote_ack = ack;
                        }
                        self.handle_incoming(packet);
                    },
                }
            }
        }
        assert(incoming_models(events@) =~= Seq::empty());
        self.send_acks(now);
        self.handle_remote_ack(remote_ack, now);
    }

    /// Ends a round of the stream's driver, after [`UdxStream::poll_incoming`]:
    /// looks at the timer, which has fired or not, and takes what is to be sent.
    /// A failure of the stream is kept as its error, and nothing is sent.
    pub fn poll_drive(&mut self, fired: bool) -> (packets: VecDeque<Packet>)
        requires
            old(self)@.wf(),
        ensures
            final(self)@ == old(self)@.end_round(fired).0,
            packet_seq(packets@) == old(self)@.end_round(fired).1,
            final(self)@.wf(),
    {
        let packets = match self.poll_check_timeouts(fired) {
            Ok(_) => self.poll_transmit(),
            Err(error) => {
                self.error = Some(error);
                VecDeque::new()
            },
        };
        self.drive_waker = true;
        packets
    }

    /// Sends the first bytes of `buf` in one data packet, if the window has room
    /// for them; returns how many.
    fn send_data_packet(&mut self, buf: &[u8], now: u64) -> (len: usize)
        requires
            old(self)@.wf(),
            old(self)@.inflight + chunk(buf@).len() <= old(self)@.cwnd ==> old(self)@.seq
                < u32::MAX,
        ensures
            old(self)@.inflight + chunk(buf@).len() > old(self)@.cwnd ==> len == 0 && final(self)@
                == old(self)@,
            old(self)@.inflight + chunk(buf@).len() <= old(self)@.cwnd ==> len == chunk(buf@).len()
                && final(self)@ == old(self)@.data_sent(chunk(buf@), now),
            final(self)@.wf(),
    {
        let len: usize = if buf.len() < UDX_MAX_DATA_SIZE {
            buf.len()
        } else {
            UDX_MAX_DATA_SIZE
        };
        if self.inflight + len > self.cwnd {
            return 0;
        }
        let body = &buf[0..len];
        assert(body@ =~= chunk(buf@));
        proof {
            lemma_data_sent(self@, body@, now);
        }
        let packet = Packet::from_stream(self, UDX_HEADER_DATA, body, now);
        self.inflight = self.inflight + packet.buf.len();
        let queued = packet.duplicate();
        self.outgoing.insert(packet.seq(), packet);
        self.send_queue.push_back(queued);
        self.seq = self.seq + 1;
        self.wake_driver();
        assert(self@ =~= old(self)@.data_sent(chunk(buf@), now));
        len
    }

    /// Sends as much of `buf` as the window has room for, and returns how much
    /// that was; nothing where the writer has to wait for room.
    pub fn poll_write(&mut self, buf: &[u8], now: u64) -> (result: Option<Result<usize, UdxError>>)
        requires
            old(self)@.wf(),
            old(self)@.error is None ==> old(self)@.can_send(buf@.len()),
        ensures
            final(self)@ == old(self)@.write(buf@, now).0,
            write_result(result) == old(self)@.write(buf@, now).1,
            final(self)@.wf(),
    {
        if let Some(error) = &self.error {
            return Some(Err(error.clone()));
        }
        let mut written: usize = 0;
        let mut room = true;
        let ghost whole = self@.send_all(buf@, now);
        assert(buf@.skip(0) =~= buf@);
        while room && written < buf.len()
            invariant
                written <= buf@.len(),
                self@.wf(),
                self@.can_send((buf@.len() - written) as nat),
                whole == if room {
                    let (end, rest) = self@.send_all(buf@.skip(written as int), now);
                    (end, (written + rest) as nat)
                } else {
                    (self@, written as nat)
                },
            decreases buf@.len() - written + if room {
                1int
            } else {
                0
            },
        {
            let rest = &buf[written..buf.len()];
            assert(rest@ =~= buf@.skip(written as int));
            let n: usize = self.send_data_packet(rest, now);
            if n == 0 {
                room = false;
            } else {
                assert(rest@.skip(n as int) =~= buf@.skip(written + n));
                written = written + n;
            }
        }
        proof {
            if room {
                assert(buf@.skip(written as int) =~= Seq::empty());
            }
        }
        if written == 0 && buf.len() > 0 {
            self.write_waker = true;
            None
        } else {
            Some(Ok(written))
        }
    }

    /// Reads what came in, as far as the buffer has room; nothing where the
    /// reader has to wait for more.
    pub fn poll_read(&mut self, buf: &mut ReadBuf) -> (result: Option<Result<(), UdxError>>)
        requires
            old(self)@.wf(),
        ensures
            ({
                let room = (read_buf_capacity(*old(buf)) - read_buf_filled(*old(buf)).len()) as nat;
                let (end, bytes, outcome) = old(self)@.read(room);
                &&& final(self)@ == end
                &&& read_buf_filled(*final(buf)) == read_buf_filled(*old(buf)) + bytes
                &&& read_result(result) == outcome
            }),
            read_buf_capacity(*final(buf)) == read_buf_capacity(*old(buf)),
            final(self)@.wf(),
    {
        if let Some(error) = &self.error {
            assert(read_buf_filled(*buf) + Seq::<u8>::empty() =~= read_buf_filled(*buf));
            return Some(Err(error.clone()));
        }
        let room: usize = read_buf_remaining(buf);
        let did_read = self.rx.read_next(buf);
        if did_read || read_buf_remaining(buf) < room {
            Some(Ok(()))
        } else {
            self.read_waker = true;
            None
        }
    }
}

/// Acknowledging counts all packets that came in without a gap, and queues one
/// packet for each of them.
pub proof fn law_each_packet_is_acknowledged(stream: StreamModel, now: u64)
    ensures
        ({
            let after = stream.with_acks(now);
            &&& after.rx == stream.rx.advanced()
            &&& after.send_queue.len() == stream.send_queue.len() + (after.rx.ack - stream.rx.ack)
            &&& after.rx.ack >= stream.rx.ack
        }),
    decreases u32::MAX - stream.rx.ack,
{
    if stream.rx.ack < u32::MAX && stream.rx.incoming.contains_key(stream.rx.ack) {
        let counted = StreamModel {
            rx: ReassemblyModel { ack: (stream.rx.ack + 1) as u32, ..stream.rx },
            ..stream
        };
        law_each_packet_is_acknowledged(counted.with_state_packet(now), now);
    }
}

/// A stream that takes in packets stays in agreement with its sender, if data
/// packets are genuine, in whatever order and however often they come.
pub proof fn law_receiving_agrees(
    stream: StreamModel,
    events: Seq<IncomingModel>,
    now: u64,
    sent: Seq<Seq<u8>>,
    delivered: Seq<u8>,
)
    requires
        agrees(stream.rx, sent, delivered),
        forall|i: int|
            0 <= i < events.len() && (#[trigger] events[i]).header.has_flag(UDX_HEADER_DATA)
                ==> genuine(events[i], sent),
    ensures
        agrees(stream.polled_incoming(events, now).rx, sent, delivered),
{
    lemma_receiving_holds(stream, events, sent, delivered);
    let received = stream.received_all(events);
    law_each_packet_is_acknowledged(received, now);
    law_advancing_agrees(received.rx, sent, delivered);
    let acked = received.with_acks(now);
    lemma_ack_range_keeps_rx(acked, acked.remote_acked, max_ack(events), now);
}

/// A read continues the bytes that were read before, and says that it read them;
/// a stream that failed gives none.
pub proof fn law_reading_agrees(
    stream: StreamModel,
    room: nat,
    sent: Seq<Seq<u8>>,
    delivered: Seq<u8>,
)
    requires
        agrees(stream.rx, sent, delivered),
    ensures
        agrees(stream.read(room).0.rx, sent, delivered + stream.read(room).1),
        stream.read(room).1.len() > 0 ==> stream.read(room).2 == Some(Ok::<(), ErrorModel>(())),
{
    if stream.error is Some {
        assert(delivered + Seq::<u8>::empty() =~= delivered);
    } else {
        crate::laws::law_reading_agrees(stream.rx, room, sent, delivered);
    }
}

/// A read reports what it gives: where it gives bytes, it succeeds; where it has
/// to wait, or gives the stream's error, it gave none.
pub proof fn law_reads_report_what_they_give(stream: StreamModel, room: nat)
    requires
        stream.wf(),
    ensures
        ({
            let (end, bytes, result) = stream.read(room);
            &&& bytes.len() > 0 ==> result == Some(Ok::<(), ErrorModel>(()))
            &&& result is None ==> room == 0 || stream.rx.readable().len() == 0
            &&& result != Some(Ok::<(), ErrorModel>(())) ==> bytes.len() == 0 && end.rx.readable()
                == stream.rx.readable()
        }),
{
    law_read_in_order(stream.rx, room);
    assert(stream.rx.readable().skip(0) =~= stream.rx.readable());
}

/// The bodies of the kept packets with numbers from `from` up to `to`.
pub open spec fn bodies(stream: StreamModel, from: u32, to: u32) -> Seq<Seq<u8>> {
    Seq::new(
        (to - from) as nat,
        |i: int| stream.outgoing[(from + i) as u32].buf.skip(UDX_HEADER_SIZE as int),
    )
}

/// What a write sends is cut into packets with consecutive numbers, which are
/// all kept. Their bodies, one after the other, are the bytes that the write
/// says it took; what was kept before stays.
pub proof fn law_write_is_cut_into_packets(stream: StreamModel, buf: Seq<u8>, now: u64)
    requires
        stream.can_send(buf.len()),
    ensures
        ({
            let (end, n) = stream.send_all(buf, now);
            &&& n <= buf.len()
            &&& stream.seq <= end.seq
            &&& forall|key: u32|
                stream.seq <= key < end.seq ==> #[trigger] end.outgoing.contains_key(key)
            &&& forall|key: u32| key < stream.seq ==> end.outgoing[key] == stream.outgoing[key]
            &&& joined(bodies(end, stream.seq, end.seq)) == buf.take(n as int)
        }),
    decreases buf.len(),
{
    let (end, n) = stream.send_all(buf, now);
    if buf.len() == 0 || stream.inflight + chunk(buf).len() > stream.cwnd {
        assert(bodies(end, stream.seq, end.seq) =~= Seq::empty());
        assert(buf.take(0) =~= Seq::empty());
    } else {
        let body = chunk(buf);
        let next = stream.data_sent(body, now);
        let rest = buf.skip(body.len() as int);
        law_write_is_cut_into_packets(next, rest, now);
        let packet = stream.packet(UDX_HEADER_DATA, body, now);
        assert(end.outgoing[stream.seq] == packet);
        assert(packet.buf.skip(UDX_HEADER_SIZE as int) =~= body);
        assert(bodies(end, stream.seq, end.seq) =~= seq![body] + bodies(end, next.seq, end.seq));
        lemma_joined_concat(seq![body], bodies(end, next.seq, end.seq));
        lemma_joined_one(body);
        assert(buf.take(n as int) =~= body + rest.take(n - body.len()));
        assert(next.outgoing.contains_key(stream.seq));
        lemma_send_all_keeps(next, rest, now, stream.seq);
    }
}

/// A write keeps what was kept before.
proof fn lemma_send_all_keeps(stream: StreamModel, buf: Seq<u8>, now: u64, key: u32)
    requires
        stream.can_send(buf.len()),
        key < stream.seq,
    ensures
        stream.send_all(buf, now).0.outgoing.contains_key(key) == stream.outgoing.contains_key(key),
    decreases buf.len(),
{
    if buf.len() > 0 && stream.inflight + chunk(buf).len() <= stream.cwnd {
        lemma_send_all_keeps(
            stream.data_sent(chunk(buf), now),
            buf.skip(chunk(buf).len() as int),
            now,
            key,
        );
    }
}

/// New data is sent only while the window has room.
pub proof fn law_writes_respect_the_window(stream: StreamModel, buf: Seq<u8>, now: u64)
    ensures
        ({
            let end = stream.send_all(buf, now).0;
            &&& end.cwnd == stream.cwnd
            &&& stream.inflight <= end.inflight
            &&& end.inflight == stream.inflight || end.inflight <= stream.cwnd + UDX_HEADER_SIZE
        }),
    decreases buf.len(),
{
    if buf.len() > 0 && stream.inflight + chunk(buf).len() <= stream.cwnd {
        law_writes_respect_the_window(
            stream.data_sent(chunk(buf), now),
            buf.skip(chunk(buf).len() as int),
            now,
        );
    }
}

/// What the remote acknowledged is no longer kept, and everything else is.
pub proof fn law_acknowledged_packets_are_dropped(stream: StreamModel, ack: u32, now: u64)
    ensures
        forall|key: u32| #[trigger]
            stream.remote_acked_to(ack, now).outgoing.contains_key(key)
                <==> stream.outgoing.contains_key(key) && !(stream.remote_acked <= key < ack),
{
    lemma_ack_range_removes(stream, stream.remote_acked, ack, now);
}

/// Acknowledging a range removes exactly its packets.
pub proof fn lemma_ack_range_removes(stream: StreamModel, from: u32, to: u32, now: u64)
    ensures
        forall|key: u32| #[trigger]
            stream.ack_range(from, to, now).outgoing.contains_key(key)
                <==> stream.outgoing.contains_key(key) && !(from <= key < to),
    decreases to - from,
{
    if from < to {
        lemma_ack_range_removes(stream.ack_one(from, now), (from + 1) as u32, to, now);
    }
}

/// Whether a packet is one that a sender of the bodies `sent` to the stream
/// `remote_id` may send: a data packet with the body that was sent under its
/// number, or a header alone.
pub open spec fn honest(packet: PacketModel, remote_id: u32, sent: Seq<Seq<u8>>) -> bool {
    &&& packet.header.stream_id == remote_id
    &&& packet.header.data_offset == 0
    &&& if packet.header.typ == UDX_HEADER_DATA {
        &&& packet.header.seq < sent.len()
        &&& packet.buf == packet.header.encoding() + sent[packet.header.seq as int]
    } else {
        &&& packet.header.typ == 0
        &&& packet.buf == packet.header.encoding()
    }
}

/// Whether all packets of a queue are such.
pub open spec fn all_honest(
    queue: Seq<PacketModel>,
    remote_id: u32,
    sent: Seq<Seq<u8>>,
) -> bool {
    forall|i: int| 0 <= i < queue.len() ==> honest(#[trigger] queue[i], remote_id, sent)
}

/// Whether a sender stands for the bodies `sent`: so many packets were sent, and
/// every one that is still kept, or queued to be sent, first or again, carries
/// the body that was sent under its number; other queued packets hold no data.
pub open spec fn carries(stream: StreamModel, sent: Seq<Seq<u8>>) -> bool {
    &&& sent.len() == stream.seq
    &&& forall|key: u32| #[trigger]
        stream.outgoing.contains_key(key) ==> {
            &&& honest(stream.outgoing[key], stream.remote_id, sent)
            &&& stream.outgoing[key].header.typ == UDX_HEADER_DATA
            &&& stream.outgoing[key].header.seq == key
        }
    &&& all_honest(stream.send_queue, stream.remote_id, sent)
}

/// A new stream has sent nothing.
pub proof fn law_new_streams_carry_nothing(dest: SocketAddr, local_id: u32, remote_id: u32)
    ensures
        carries(StreamModel::initial(dest, local_id, remote_id), Seq::empty()),
{
}

/// Queueing packets again queues them with the bodies that they carry.
pub proof fn law_resending_carries(stream: StreamModel, from: u32, to: u32, sent: Seq<Seq<u8>>)
    requires
        carries(stream, sent),
    ensures
        carries(stream.resend(from, to).0, sent),
    decreases to - from,
{
    if from < to {
        if stream.outgoing.contains_key(from) {
            if stream.outgoing[from].transmits < MAX_TRANSMITS {
                let next = stream.resent(from);
                assert forall|i: int| 0 <= i < next.send_queue.len() implies honest(
                    #[trigger] next.send_queue[i],
                    next.remote_id,
                    sent,
                ) by {
                    if i < stream.send_queue.len() {
                        assert(next.send_queue[i] == stream.send_queue[i]);
                    }
                }
                assert(carries(next, sent));
                law_resending_carries(next, (from + 1) as u32, to, sent);
            }
        } else {
            law_resending_carries(stream, (from + 1) as u32, to, sent);
        }
    }
}

/// A look at the timer leaves what the stream carries.
pub proof fn law_timeouts_carry(stream: StreamModel, fired: bool, sent: Seq<Seq<u8>>)
    requires
        carries(stream, sent),
    ensures
        carries(stream.checked_timeouts(fired).0, sent),
{
    let start = StreamModel {
        timer: Some(2 * stream.rtt.rto),
        cwnd: shrunk(stream.cwnd),
        ..stream
    };
    assert(carries(start, sent));
    law_resending_carries(start, stream.remote_acked, stream.seq, sent);
}

/// Acknowledgements leave what the packets carry that are not acknowledged.
pub proof fn law_acknowledging_carries(
    stream: StreamModel,
    from: u32,
    to: u32,
    now: u64,
    sent: Seq<Seq<u8>>,
)
    requires
        carries(stream, sent),
    ensures
        carries(stream.ack_range(from, to, now), sent),
    decreases to - from,
{
    if from < to {
        assert(carries(stream.ack_one(from, now), sent));
        law_acknowledging_carries(stream.ack_one(from, now), (from + 1) as u32, to, now, sent);
    }
}

/// Acknowledging what came in leaves what the stream carries.
proof fn lemma_acks_carry(stream: StreamModel, now: u64, sent: Seq<Seq<u8>>)
    requires
        carries(stream, sent),
    ensures
        carries(stream.with_acks(now), sent),
    decreases u32::MAX - stream.rx.ack,
{
    if stream.rx.ack < u32::MAX && stream.rx.incoming.contains_key(stream.rx.ack) {
        let counted = StreamModel {
            rx: ReassemblyModel { ack: (stream.rx.ack + 1) as u32, ..stream.rx },
            ..stream
        };
        let next = counted.with_state_packet(now);
        let packet = counted.packet(0, Seq::empty(), now);
        assert(packet.buf =~= packet.header.encoding());
        assert forall|i: int| 0 <= i < next.send_queue.len() implies honest(
            #[trigger] next.send_queue[i],
            next.remote_id,
            sent,
        ) by {
            if i < stream.send_queue.len() {
                assert(next.send_queue[i] == stream.send_queue[i]);
            }
        }
        lemma_acks_carry(next, now, sent);
    }
}

/// Packets that come in leave what the stream carries.
proof fn lemma_received_all_carries(
    stream: StreamModel,
    events: Seq<IncomingModel>,
    sent: Seq<Seq<u8>>,
)
    requires
        carries(stream, sent),
    ensures
        carries(stream.received_all(events), sent),
    decreases events.len(),
{
    if events.len() > 0 {
        assert(carries(stream.received(events[0]), sent));
        lemma_received_all_carries(stream.received(events[0]), events.drop_first(), sent);
    }
}

/// Whatever packets come in, they leave what the stream carries.
pub proof fn law_polling_carries(
    stream: StreamModel,
    events: Seq<IncomingModel>,
    now: u64,
    sent: Seq<Seq<u8>>,
)
    requires
        carries(stream, sent),
    ensures
        carries(stream.polled_incoming(events, now), sent),
{
    lemma_received_all_carries(stream, events, sent);
    lemma_acks_carry(stream.received_all(events), now, sent);
    let acked = stream.received_all(events).with_acks(now);
    law_acknowledging_carries(acked, acked.remote_acked, max_ack(events), now, sent);
}

/// A data packet carries its body under the next number, and the others carry
/// what they did.
pub proof fn law_sending_carries(stream: StreamModel, body: Seq<u8>, now: u64, sent: Seq<Seq<u8>>)
    requires
        carries(stream, sent),
        stream.seq < u32::MAX,
    ensures
        carries(stream.data_sent(body, now), sent.push(body)),
{
    let after = stream.data_sent(body, now);
    let more = sent.push(body);
    assert forall|key: u32| #[trigger] after.outgoing.contains_key(key) implies {
        &&& honest(after.outgoing[key], after.remote_id, more)
        &&& after.outgoing[key].header.typ == UDX_HEADER_DATA
        &&& after.outgoing[key].header.seq == key
    } by {
        if key != stream.seq {
            assert(stream.outgoing.contains_key(key));
        }
    }
    assert forall|i: int| 0 <= i < after.send_queue.len() implies honest(
        #[trigger] after.send_queue[i],
        after.remote_id,
        more,
    ) by {
        if i < stream.send_queue.len() {
            assert(after.send_queue[i] == stream.send_queue[i]);
        }
    }
}

/// A write adds the bodies that it is cut into to what the stream carries; one
/// that waits, or is refused, adds nothing.
pub proof fn law_writing_carries(
    stream: StreamModel,
    buf: Seq<u8>,
    now: u64,
    sent: Seq<Seq<u8>>,
)
    requires
        stream.error is None ==> stream.can_send(buf.len()),
        carries(stream, sent),
    ensures
        ({
            let end = stream.write(buf, now).0;
            carries(end, sent + bodies(end, stream.seq, end.seq))
        }),
{
    let end = stream.write(buf, now).0;
    if stream.error is None {
        lemma_send_all_carries(stream, buf, now, sent);
    }
    if end.seq == stream.seq {
        assert(sent + bodies(end, stream.seq, end.seq) =~= sent);
    }
}

/// What is sent of a buffer adds its bodies to what the stream carries.
proof fn lemma_send_all_carries(
    stream: StreamModel,
    buf: Seq<u8>,
    now: u64,
    sent: Seq<Seq<u8>>,
)
    requires
        stream.can_send(buf.len()),
        carries(stream, sent),
    ensures
        ({
            let end = stream.send_all(buf, now).0;
            carries(end, sent + bodies(end, stream.seq, end.seq))
        }),
    decreases buf.len(),
{
    let end = stream.send_all(buf, now).0;
    if buf.len() == 0 || stream.inflight + chunk(buf).len() > stream.cwnd {
        assert(sent + bodies(end, stream.seq, end.seq) =~= sent);
    } else {
        let body = chunk(buf);
        let next = stream.data_sent(body, now);
        let rest = buf.skip(body.len() as int);
        law_sending_carries(stream, body, now, sent);
        lemma_send_all_carries(next, rest, now, sent.push(body));
        law_write_is_cut_into_packets(next, rest, now);
        assert(end.outgoing[stream.seq] == stream.packet(UDX_HEADER_DATA, body, now));
        assert(end.outgoing[stream.seq].buf.skip(UDX_HEADER_SIZE as int) =~= body);
        assert(sent.push(body) + bodies(end, next.seq, end.seq) =~= sent + bodies(
            end,
            stream.seq,
            end.seq,
        ));
    }
}

/// A packet of a sender, sent as it is, first or again, reaches the remote's
/// stream. A data packet arrives as a genuine one: under its number, with the
/// body that was sent under it. Another arrives as none.
pub proof fn law_sent_packets_arrive<H>(
    packet: PacketModel,
    remote_id: u32,
    socket: SocketModel<H>,
    from: SocketAddr,
    sent: Seq<Seq<u8>>,
)
    requires
        honest(packet, remote_id, sent),
        socket.streams.contains_key(remote_id),
    ensures
        Header::starts(packet.buf),
        socket.arrival(packet.buf, from) matches Arrival::Stream(id, arrived) && {
            &&& id == remote_id
            &&& arrived.header == packet.header
            &&& arrived.header.has_flag(UDX_HEADER_DATA) == (packet.header.typ == UDX_HEADER_DATA)
            &&& packet.header.typ == UDX_HEADER_DATA ==> genuine(arrived, sent)
        },
{
    let body = if packet.header.typ == UDX_HEADER_DATA {
        sent[packet.header.seq as int]
    } else {
        Seq::empty()
    };
    assert(packet.buf =~= packet.header.encoding() + body);
    law_header_is_read_back(packet.header, body);
    assert(UDX_HEADER_DATA & UDX_HEADER_DATA != 0 && 0u32 & UDX_HEADER_DATA == 0) by (bit_vector);
}

/// Taking in genuine packets keeps what was received right.
proof fn lemma_receiving_holds(
    stream: StreamModel,
    events: Seq<IncomingModel>,
    sent: Seq<Seq<u8>>,
    delivered: Seq<u8>,
)
    requires
        holds(stream.rx, sent, delivered),
        forall|i: int|
            0 <= i < events.len() && (#[trigger] events[i]).header.has_flag(UDX_HEADER_DATA)
                ==> genuine(events[i], sent),
    ensures
        holds(stream.received_all(events).rx, sent, delivered),
    decreases events.len(),
{
    if events.len() > 0 {
        let rest = events.drop_first();
        if events[0].header.has_flag(UDX_HEADER_DATA) {
            law_inserting_holds(stream.rx, events[0], sent, delivered);
        }
        assert forall|i: int|
            0 <= i < rest.len() && (#[trigger] rest[i]).header.has_flag(
                UDX_HEADER_DATA,
            ) implies genuine(rest[i], sent) by {
            assert(rest[i] == events[i + 1]);
        }
        lemma_receiving_holds(stream.received(events[0]), rest, sent, delivered);
    }
}

/// Acknowledgements leave what came in as it is.
proof fn lemma_ack_range_keeps_rx(stream: StreamModel, from: u32, to: u32, now: u64)
    ensures
        stream.ack_range(from, to, now).rx == stream.rx,
    decreases to - from,
{
    if from < to {
        lemma_ack_range_keeps_rx(stream.ack_one(from, now), (from + 1) as u32, to, now);
    }
}

/// The kept packets with numbers from `from` up to `to`, in order, each sent once
/// more often.
pub open spec fn resent_packets(outgoing: Map<u32, PacketModel>, from: u32, to: u32) -> Seq<
    PacketModel,
>
    decreases to - from,
{
    if from >= to {
        Seq::empty()
    } else {
        let rest = resent_packets(outgoing, (from + 1) as u32, to);
        if outgoing.contains_key(from) {
            let packet = PacketModel {
                transmits: outgoing[from].transmits + 1,
                ..outgoing[from]
            };
            seq![packet] + rest
        } else {
            rest
        }
    }
}

/// Packets outside of the range do not matter.
proof fn lemma_resent_same(
    one: Map<u32, PacketModel>,
    other: Map<u32, PacketModel>,
    from: u32,
    to: u32,
)
    requires
        forall|key: u32|
            from <= key < to ==> {
                &&& #[trigger] one.contains_key(key) == other.contains_key(key)
                &&& one.contains_key(key) ==> one[key] == other[key]
            },
    ensures
        resent_packets(one, from, to) == resent_packets(other, from, to),
    decreases to - from,
{
    if from < to {
        lemma_resent_same(one, other, (from + 1) as u32, to);
        assert(one.contains_key(from) == other.contains_key(from));
    }
}

/// A timeout fails exactly when a kept packet was sent too often; else every
/// kept packet is queued again, once, in order.
pub proof fn law_timeout_resends_all(stream: StreamModel, from: u32, to: u32)
    ensures
        ({
            let (after, ok) = stream.resend(from, to);
            &&& ok <==> forall|key: u32|
                from <= key < to && #[trigger] stream.outgoing.contains_key(key)
                    ==> stream.outgoing[key].transmits < MAX_TRANSMITS
            &&& forall|key: u32| #[trigger]
                after.outgoing.contains_key(key) <==> stream.outgoing.contains_key(key)
            &&& ok ==> after.send_queue == stream.send_queue + resent_packets(
                stream.outgoing,
                from,
                to,
            )
            &&& after.inflight == stream.inflight
        }),
    decreases to - from,
{
    if from < to {
        if stream.outgoing.contains_key(from) {
            if stream.outgoing[from].transmits < MAX_TRANSMITS {
                let next = stream.resent(from);
                law_timeout_resends_all(next, (from + 1) as u32, to);
                assert(forall|key: u32|
                    key != from && #[trigger] stream.outgoing.contains_key(key)
                        ==> next.outgoing.contains_key(key) && next.outgoing[key]
                        == stream.outgoing[key]);
                assert(forall|key: u32|
                    key != from && #[trigger] next.outgoing.contains_key(key)
                        ==> stream.outgoing.contains_key(key));
                lemma_resent_same(stream.outgoing, next.outgoing, (from + 1) as u32, to);
                let rest = resent_packets(next.outgoing, (from + 1) as u32, to);
                assert(next.send_queue + rest =~= stream.send_queue + resent_packets(
                    stream.outgoing,
                    from,
                    to,
                ));
            }
        } else {
            law_timeout_resends_all(stream, (from + 1) as u32, to);
        }
    } else {
        assert(stream.send_queue + Seq::<PacketModel>::empty() =~= stream.send_queue);
    }
}

/// What a [`UdxSocket`] stands for.
#[verifier::ext_equal]
#[verifier::reject_recursive_types(H)]
pub struct SocketModel<H> {
    /// The streams, by the number that packets for them carry.
    pub streams: Map<u32, H>,
    /// The packet that is being sent.
    pub pending_send: Option<PacketModel>,
    /// Packets that streams queued.
    pub queue: Seq<PacketModel>,
}

impl<H> SocketModel<H> {
    /// A datagram that came in, which starts with a header.
    pub open spec fn arrival(self, data: Seq<u8>, from: SocketAddr) -> Arrival {
        if self.streams.contains_key(Header::decoding(data).stream_id) {
            Arrival::Stream(
                Header::decoding(data).stream_id,
                IncomingModel {
                    header: Header::decoding(data),
                    data: data.skip(UDX_HEADER_SIZE as int),
                    read_offset: 0,
                    from,
                },
            )
        } else {
            Arrival::Dgram
        }
    }

    /// What to do next about sending in the round `iters`, and the state after it is
    /// decided.
    pub open spec fn next_step(self, iters: usize) -> (SocketModel<H>, TransmitStep) {
        if iters > MAX_LOOP {
            (self, TransmitStep::Yield)
        } else if self.pending_send is Some {
            (self, TransmitStep::Send)
        } else if self.queue.len() > 0 {
            (
                SocketModel {
                    pending_send: Some(self.queue[0]),
                    queue: self.queue.drop_first(),
                    ..self
                },
                TransmitStep::Took,
            )
        } else {
            (self, TransmitStep::Idle)
        }
    }

    /// After the pending packet was handed to the UDP socket: the state, and whether
    /// to go on, or the failure.
    pub open spec fn after_send(self, outcome: OutcomeModel) -> (
        SocketModel<H>,
        Result<bool, ErrorModel>,
    ) {
        let taken = SocketModel { pending_send: None, ..self };
        match outcome {
            OutcomeModel::Pending => (self, Ok(false)),
            OutcomeModel::Failed(error) => (taken, Err(error)),
            OutcomeModel::Sent(n) => {
                if n == self.pending_send.unwrap().buf.len() {
                    (taken, Ok(true))
                } else {
                    (self, Ok(false))
                }
            },
        }
    }
}

/// What the driver of a socket is to do next about sending.
#[derive(Clone, Copy, Debug, PartialEq, Eq, Structural)]
pub enum TransmitStep {
    /// Let others run, and come back.
    Yield,
    /// Send the pending packet.
    Send,
    /// Look again.
    Took,
    /// Wait for packets of streams.
    Idle,
}

/// A UDP socket that streams share.
#[derive(Debug)]
#[verifier::reject_recursive_types(H)]
pub struct UdxSocket<H> {
    streams: HashMap<u32, H>,
    pending_send: Option<Packet>,
    queue: VecDeque<Packet>,
}

impl<H> View for UdxSocket<H> {
    type V = SocketModel<H>;

    closed spec fn view(&self) -> SocketModel<H> {
        SocketModel {
            streams: self.streams@,
            pending_send: match self.pending_send {
                Some(packet) => Some(packet@),
                None => None,
            },
            queue: packet_seq(self.queue@),
        }
    }
}

impl<H> UdxSocket<H> {
    /// A socket without streams.
    pub fn bind() -> (socket: Self)
        ensures
            socket@ == (SocketModel::<H> {
                streams: Map::empty(),
                pending_send: None,
                queue: Seq::empty(),
            }),
    {
        let socket = UdxSocket {
            streams: HashMap::new(),
            pending_send: None,
            queue: VecDeque::new(),
        };
        assert(socket@.streams =~= Map::empty());
        assert(socket@.queue =~= Seq::empty());
        socket
    }

    /// Opens the stream `local_id` to the remote's stream `remote_id` at `dest`.
    /// Packets for it go to `handle`.
    pub fn connect(&mut self, dest: SocketAddr, local_id: u32, remote_id: u32, handle: H) -> (result:
        Result<UdxStream, UdxError>)
        ensures
            result matches Ok(stream) && stream@ == StreamModel::initial(dest, local_id, remote_id)
                && stream@.wf(),
            final(self)@ == (SocketModel {
                streams: old(self)@.streams.insert(local_id, handle),
                ..old(self)@
            }),
    {
        let stream = UdxStream::connect(dest, local_id, remote_id);
        self.streams.insert(local_id, handle);
        Ok(stream)
    }

    /// The handle of the stream `id`.
    pub fn stream(&self, id: u32) -> (handle: Option<&H>)
        ensures
            match handle {
                Some(handle) => self@.streams.contains_key(id) && *handle == self@.streams[id],
                None => !self@.streams.contains_key(id),
            },
    {
        self.streams.get(&id)
    }

    /// Takes a packet that a stream queued.
    pub fn push_packet(&mut self, packet: Packet)
        ensures
            final(self)@ == (SocketModel {
                queue: old(self)@.queue.push(packet@),
                ..old(self)@
            }),
    {
        self.queue.push_back(packet);
        assert(self@.queue =~= old(self)@.queue.push(packet@));
    }

    /// The packet that is to be sent.
    pub fn pending_send(&self) -> (packet: Option<&Packet>)
        ensures
            match packet {
                Some(packet) => self@.pending_send == Some(packet@),
                None => self@.pending_send is None,
            },
    {
        match &self.pending_send {
            Some(packet) => Some(packet),
            None => None,
        }
    }

    /// Says what to do next about sending, in the round `iters` of the driver,
    /// counted from one.
    pub fn poll_transmit(&mut self, iters: usize) -> (step: TransmitStep)
        ensures
            final(self)@ == old(self)@.next_step(iters).0,
            step == old(self)@.next_step(iters).1,
    {
        if iters > MAX_LOOP {
            return TransmitStep::Yield;
        }
        if self.pending_send.is_some() {
            return TransmitStep::Send;
        }
        match self.queue.pop_front() {
            Some(packet) => {
                assert(packet@ == old(self)@.queue[0]);
                self.pending_send = Some(packet);
                assert(self@.queue =~= old(self)@.queue.drop_first());
                TransmitStep::Took
            },
            None => {
                assert(self@.queue =~= old(self)@.queue);
                TransmitStep::Idle
            },
        }
    }

    /// Takes note of what became of the pending packet: the UDP socket took so
    /// many bytes of it, takes nothing now, or failed. Returns whether to go on;
    /// a packet that was not taken whole stays pending.
    pub fn poll_send_packet(&mut self, outcome: SendOutcome) -> (result: Result<bool, UdxError>)
        requires
            old(self)@.pending_send is Some,
        ensures
            final(self)@ == old(self)@.after_send(outcome@).0,
            bool_result(result) == old(self)@.after_send(outcome@).1,
            outcome matches SendOutcome::Failed(error) ==> result == Err::<bool, UdxError>(error),
    {
        match outcome {
            SendOutcome::Pending => Ok(false),
            SendOutcome::Failed(error) => {
                self.pending_send = None;
                Err(error)
            },
            SendOutcome::Sent(n) => {
                let whole = match &self.pending_send {
                    Some(packet) => n == packet.buf.len(),
                    None => false,
                };
                if whole {
                    self.pending_send = None;
                }
                Ok(whole)
            },
        }
    }

    /// Whether to receive in the round `iters` of the driver, counted from one;
    /// if not, it is to let others run and come back.
    pub fn may_receive(iters: usize) -> (receive: bool)
        ensures
            receive == (iters <= MAX_LOOP),
    {
        iters <= MAX_LOOP
    }

    /// Looks at a datagram that came in from `from`. Returns the packet in it
    /// and its stream, or nothing if no stream has the number that it names; a
    /// datagram that does not start with a header is an error.
    pub fn poll_recv(&self, buf: &[u8], from: SocketAddr) -> (result: Result<
        Option<(u32, EventIncoming)>,
        UdxError,
    >)
        ensures
            match result {
                Err(error) => !Header::starts(buf@) && error@ == ErrorModel::bad_header(),
                Ok(Some((id, event))) => Header::starts(buf@) && self@.arrival(buf@, from)
                    == Arrival::Stream(id, event.packet()),
                Ok(None) => Header::starts(buf@) && self@.arrival(buf@, from) is Dgram,
            },
    {
        let header = match Header::from_bytes(buf) {
            Ok(header) => header,
            Err(error) => {
                return Err(error);
            },
        };
        if self.streams.contains_key(&header.stream_id) {
            let body = &buf[UDX_HEADER_SIZE..buf.len()];
            assert(body@ =~= buf@.skip(UDX_HEADER_SIZE as int));
            let data = bytes_from_vec(vstd::slice::slice_to_vec(body));
            let incoming = IncomingPacket { header, buf: data, read_offset: 0, from };
            Ok(Some((header.stream_id, EventIncoming::Packet(incoming))))
        } else {
            Ok(None)
        }
    }
}

} // verus!
