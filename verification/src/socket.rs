//! The socket: it sends what its streams queue, and hands what comes in to the
//! stream that it is for.
//!
//! A [`UdxSocket`] does no I/O. Whoever drives it hands it the datagrams that
//! came in, hands the transmits in its queue to the UDP socket and tells it
//! what became of them.

use std::collections::{HashMap, VecDeque};

use bytes::{Bytes, BytesMut};
use vstd::prelude::*;

use crate::addr::SocketAddr;
use crate::buffers::{
    bytes_mut_as_slice, bytes_mut_contents, bytes_mut_freeze, bytes_mut_from_slice,
    bytes_mut_split_to,
};
use crate::constants::UDX_HEADER_SIZE;
use crate::error::{ErrorKind, ErrorModel, UdxError};
use crate::packet::{
    live_contents, shared_packets, Dgram, DgramModel, Header, IncomingModel, IncomingPacket, Packet,
    PacketModel, PacketRefModel, PacketSet, PacketSetModel, Transmit, TransmitModel,
};
use crate::stream::{StreamModel, UdxStream};

verus! {

/// Rounds of receiving after which the driver lets others run.
pub const MAX_LOOP: usize = 60;

/// Most datagrams that wait to be received.
pub const RECV_QUEUE_MAX_LEN: usize = 1024;

/// How long sending pauses after the system's send queue overflowed, in
/// milliseconds.
pub const SEND_OVERFLOW_PAUSE_MS: u64 = 20;

/// How long a window of the send statistics is, in nanoseconds.
pub const STATS_WINDOW: u128 = 1_000_000_000;

/// What a socket tells a stream.
#[derive(Debug)]
pub enum EventIncoming {
    Packet(IncomingPacket),
}

impl EventIncoming {
    pub open spec fn packet(self) -> IncomingModel {
        match self {
            EventIncoming::Packet(packet) => packet@,
        }
    }
}

/// The packets and verdicts that stand for the given ones.
pub open spec fn event_models(events: Seq<(EventIncoming, bool)>) -> Seq<(IncomingModel, bool)> {
    events.map_values(|event: (EventIncoming, bool)| (event.0.packet(), event.1))
}

/// What an [`EventOutgoing`] stands for.
pub enum OutgoingModel {
    Transmit(PacketSetModel),
    TransmitDgram(DgramModel),
    StreamDropped(u32),
}

impl OutgoingModel {
    /// Whether the socket can send what the event asks it to.
    pub open spec fn sendable(self) -> bool {
        match self {
            OutgoingModel::Transmit(set) => set.sendable(),
            _ => true,
        }
    }

    /// The event once the packet `seq` of the stream `source` was acknowledged.
    pub open spec fn acked(self, source: u64, seq: u32) -> OutgoingModel {
        match self {
            OutgoingModel::Transmit(set) if set.source == source => OutgoingModel::Transmit(
                PacketSetModel {
                    packets: set.packets.map_values(|packet: PacketRefModel| packet.acked(seq)),
                    ..set
                },
            ),
            _ => self,
        }
    }
}

/// What a stream or a user tells the socket.
#[derive(Debug)]
pub enum EventOutgoing {
    /// Packets of a stream are to be sent.
    Transmit(PacketSet),
    /// A datagram is to be sent.
    TransmitDgram(Dgram),
    /// The stream is over.
    StreamDropped(u32),
}

impl View for EventOutgoing {
    type V = OutgoingModel;

    open spec fn view(&self) -> OutgoingModel {
        match self {
            EventOutgoing::Transmit(set) => OutgoingModel::Transmit(set@),
            EventOutgoing::TransmitDgram(dgram) => OutgoingModel::TransmitDgram(dgram@),
            EventOutgoing::StreamDropped(id) => OutgoingModel::StreamDropped(*id),
        }
    }
}

impl EventOutgoing {
    /// The event once the packet `seq` of the stream `source` was acknowledged:
    /// the packet is not sent any more.
    pub fn acked(self, source: u64, seq: u32) -> (event: Self)
        ensures
            event@ == self@.acked(source, seq),
    {
        match self {
            EventOutgoing::Transmit(set) => {
                let mut set = set;
                if set.source() == source {
                    set.mark_acked(seq);
                }
                EventOutgoing::Transmit(set)
            },
            EventOutgoing::TransmitDgram(dgram) => EventOutgoing::TransmitDgram(dgram),
            EventOutgoing::StreamDropped(id) => EventOutgoing::StreamDropped(id),
        }
    }
}

/// A packet that the UDP socket took: the stream that it comes from, and its
/// number.
#[derive(Clone, Copy, Debug, PartialEq, Eq, Structural)]
pub struct SentPacket {
    pub source: u64,
    pub seq: u32,
}

impl SentPacket {
    pub open spec fn of(source: u64, packet: PacketModel) -> SentPacket {
        SentPacket { source, seq: packet.header.seq }
    }
}

/// Something that the socket noticed.
#[derive(Clone, Copy, Debug, PartialEq, Eq, Structural)]
pub enum SocketEvent {
    UnknownStream,
}

/// What [`SocketStats`] stand for.
pub struct SocketStatsModel {
    pub tx_transmits: nat,
    pub tx_dgrams: nat,
    pub tx_bytes: nat,
    pub rx_bytes: nat,
    pub rx_dgrams: nat,
    pub tx_window_start: Option<nat>,
    pub tx_window_bytes: nat,
    pub tx_window_dgrams: nat,
}

/// The bytes of the transmits.
pub open spec fn bytes_of(transmits: Seq<TransmitModel>) -> nat
    decreases transmits.len(),
{
    if transmits.len() == 0 {
        0
    } else {
        transmits[0].contents.len() + bytes_of(transmits.drop_first())
    }
}

/// The datagrams of the transmits.
pub open spec fn segments_of(transmits: Seq<TransmitModel>) -> nat
    decreases transmits.len(),
{
    if transmits.len() == 0 {
        0
    } else {
        transmits[0].num_segments() + segments_of(transmits.drop_first())
    }
}

impl SocketStatsModel {
    pub open spec fn zero() -> SocketStatsModel {
        SocketStatsModel {
            tx_transmits: 0,
            tx_dgrams: 0,
            tx_bytes: 0,
            rx_bytes: 0,
            rx_dgrams: 0,
            tx_window_start: None,
            tx_window_bytes: 0,
            tx_window_dgrams: 0,
        }
    }

    /// A window counts no more than the whole.
    pub open spec fn wf(self) -> bool {
        &&& self.tx_window_bytes <= self.tx_bytes
        &&& self.tx_window_dgrams <= self.tx_dgrams
    }

    /// Whether the counters have room for the transmits.
    pub open spec fn can_track(self, transmits: Seq<TransmitModel>) -> bool {
        &&& self.tx_transmits + transmits.len() <= usize::MAX
        &&& self.tx_bytes + bytes_of(transmits) <= usize::MAX
        &&& self.tx_dgrams + segments_of(transmits) <= usize::MAX
    }

    /// After a transmit was sent at the time `now`. A window starts with the
    /// first transmit, and one that is over a second old starts anew.
    pub open spec fn after_tx(self, transmit: TransmitModel, now: nat) -> SocketStatsModel {
        let start = match self.tx_window_start {
            Some(start) => start,
            None => now,
        };
        let counted = SocketStatsModel {
            tx_bytes: self.tx_bytes + transmit.contents.len(),
            tx_transmits: self.tx_transmits + 1,
            tx_dgrams: self.tx_dgrams + transmit.num_segments(),
            ..self
        };
        if now > start + STATS_WINDOW {
            SocketStatsModel {
                tx_window_bytes: 0,
                tx_window_dgrams: 0,
                tx_window_start: Some(now),
                ..counted
            }
        } else {
            SocketStatsModel {
                tx_window_bytes: self.tx_window_bytes + transmit.contents.len(),
                tx_window_dgrams: self.tx_window_dgrams + transmit.num_segments(),
                tx_window_start: Some(start),
                ..counted
            }
        }
    }

    /// After several transmits were sent at the time `now`.
    pub open spec fn after_all_tx(self, transmits: Seq<TransmitModel>, now: nat) -> SocketStatsModel
        decreases transmits.len(),
    {
        if transmits.len() == 0 {
            self
        } else {
            self.after_tx(transmits[0], now).after_all_tx(transmits.drop_first(), now)
        }
    }
}

/// What a socket has sent and received.
#[derive(Clone, Copy, Debug)]
pub struct SocketStats {
    tx_transmits: usize,
    tx_dgrams: usize,
    tx_bytes: usize,
    rx_bytes: usize,
    rx_dgrams: usize,
    tx_window_start: Option<u128>,
    tx_window_bytes: usize,
    tx_window_dgrams: usize,
}

impl View for SocketStats {
    type V = SocketStatsModel;

    closed spec fn view(&self) -> SocketStatsModel {
        SocketStatsModel {
            tx_transmits: self.tx_transmits as nat,
            tx_dgrams: self.tx_dgrams as nat,
            tx_bytes: self.tx_bytes as nat,
            rx_bytes: self.rx_bytes as nat,
            rx_dgrams: self.rx_dgrams as nat,
            tx_window_start: match self.tx_window_start {
                Some(start) => Some(start as nat),
                None => None,
            },
            tx_window_bytes: self.tx_window_bytes as nat,
            tx_window_dgrams: self.tx_window_dgrams as nat,
        }
    }
}

impl Default for SocketStats {
    fn default() -> (stats: Self)
        ensures
            stats@ == SocketStatsModel::zero(),
            stats@.wf(),
    {
        SocketStats {
            tx_transmits: 0,
            tx_dgrams: 0,
            tx_bytes: 0,
            rx_bytes: 0,
            rx_dgrams: 0,
            tx_window_start: None,
            tx_window_bytes: 0,
            tx_window_dgrams: 0,
        }
    }
}

impl SocketStats {
    /// Counts a transmit that was sent at the time `now`, in nanoseconds.
    pub fn track_tx(&mut self, transmit: &Transmit, now: u128)
        requires
            old(self)@.wf(),
            old(self)@.tx_transmits < usize::MAX,
            old(self)@.tx_bytes + transmit@.contents.len() <= usize::MAX,
            old(self)@.tx_dgrams + transmit@.num_segments() <= usize::MAX,
        ensures
            final(self)@ == old(self)@.after_tx(transmit@, now as nat),
            final(self)@.wf(),
    {
        let len: usize = transmit.contents.len();
        let segments: usize = transmit.num_segments();
        self.tx_bytes = self.tx_bytes + len;
        self.tx_transmits = self.tx_transmits + 1;
        self.tx_dgrams = self.tx_dgrams + segments;
        self.tx_window_bytes = self.tx_window_bytes + len;
        self.tx_window_dgrams = self.tx_window_dgrams + segments;
        let start: u128 = match self.tx_window_start {
            Some(start) => start,
            None => now,
        };
        if now >= start && now - start > STATS_WINDOW {
            self.tx_window_bytes = 0;
            self.tx_window_dgrams = 0;
            self.tx_window_start = Some(now);
        } else {
            self.tx_window_start = Some(start);
        }
    }

    pub fn tx_transmits(&self) -> (n: usize)
        ensures
            n == self@.tx_transmits,
    {
        self.tx_transmits
    }

    pub fn tx_dgrams(&self) -> (n: usize)
        ensures
            n == self@.tx_dgrams,
    {
        self.tx_dgrams
    }

    pub fn tx_bytes(&self) -> (n: usize)
        ensures
            n == self@.tx_bytes,
    {
        self.tx_bytes
    }

    pub fn rx_bytes(&self) -> (n: usize)
        ensures
            n == self@.rx_bytes,
    {
        self.rx_bytes
    }

    pub fn rx_dgrams(&self) -> (n: usize)
        ensures
            n == self@.rx_dgrams,
    {
        self.rx_dgrams
    }

    pub fn tx_window_bytes(&self) -> (n: usize)
        ensures
            n == self@.tx_window_bytes,
    {
        self.tx_window_bytes
    }

    pub fn tx_window_dgrams(&self) -> (n: usize)
        ensures
            n == self@.tx_window_dgrams,
    {
        self.tx_window_dgrams
    }
}

/// Which tasks of a socket are to be woken.
#[derive(Clone, Copy, Debug, PartialEq, Eq, Structural)]
pub struct SocketWakes {
    pub drive: bool,
    pub recv: bool,
}

/// What a [`UdxSocket`] stands for.
#[verifier::ext_equal]
#[verifier::reject_recursive_types(H)]
pub struct SocketModel<H> {
    /// The streams, by the number that packets for them carry.
    pub streams: Map<u32, H>,
    /// How many streams were opened.
    pub opened: u64,
    /// What streams and users asked for and was not looked at yet.
    pub pending: Seq<OutgoingModel>,
    /// What is to go to the UDP socket.
    pub outgoing_transmits: Seq<TransmitModel>,
    /// The packet sets among that.
    pub outgoing_packet_sets: Seq<PacketSetModel>,
    /// Packets of streams that the UDP socket took and that were not reported
    /// yet.
    pub sent: Seq<SentPacket>,
    /// How many transmits go to the UDP socket together.
    pub batch_size: usize,
    pub stats: SocketStatsModel,
    /// Whether a handle of the socket beside the driver's exists.
    pub has_refs: bool,
    /// Whether the driver waits for something to do.
    pub drive_waker: bool,
    /// Whether a task waits for a datagram.
    pub recv_waker: bool,
    /// Which tasks are to be woken.
    pub wakes: SocketWakes,
    /// Whether sending pauses.
    pub send_overflow: bool,
    /// Datagrams that came in and belong to no stream.
    pub recv_dgrams: Seq<DgramModel>,
}

/// What became of a batch that was handed to the UDP socket.
#[derive(Debug)]
pub enum SendOutcome {
    /// The socket takes nothing now.
    Pending,
    /// It took so many transmits.
    Sent(usize),
    Failed(UdxError),
}

/// Whether the failure means that the system's send queue overflowed.
pub open spec fn is_overflow(error: ErrorModel) -> bool {
    error.kind is Interrupted
}

/// The packets of the sets that streams keep, in order.
pub open spec fn sent_of(sets: Seq<PacketSetModel>) -> Seq<SentPacket>
    decreases sets.len(),
{
    if sets.len() == 0 {
        Seq::empty()
    } else {
        shared_packets(sets[0].packets).map_values(
            |packet: PacketModel| SentPacket::of(sets[0].source, packet),
        ) + sent_of(sets.drop_first())
    }
}

/// The lesser of the two.
pub open spec fn lesser(a: nat, b: nat) -> nat {
    if a < b {
        a
    } else {
        b
    }
}

/// What a datagram that came in comes to.
pub enum Arrival {
    /// It is a packet for a stream.
    Stream(u32, IncomingModel),
    /// It belongs to no stream.
    Dgram,
}

impl<H> SocketModel<H> {
    pub open spec fn initial(batch_size: usize) -> SocketModel<H> {
        SocketModel {
            streams: Map::empty(),
            opened: 0,
            pending: Seq::empty(),
            outgoing_transmits: Seq::empty(),
            outgoing_packet_sets: Seq::empty(),
            sent: Seq::empty(),
            batch_size,
            stats: SocketStatsModel::zero(),
            has_refs: true,
            drive_waker: false,
            recv_waker: false,
            wakes: SocketWakes { drive: false, recv: false },
            send_overflow: false,
            recv_dgrams: Seq::empty(),
        }
    }

    /// What holds of every socket: it can send what it is asked to, and no more
    /// datagrams wait than may.
    pub open spec fn wf(self) -> bool {
        &&& self.stats.wf()
        &&& self.recv_dgrams.len() <= RECV_QUEUE_MAX_LEN
        &&& forall|i: int| 0 <= i < self.pending.len() ==> (#[trigger] self.pending[i]).sendable()
    }

    pub open spec fn wake_drive(self) -> SocketModel<H> {
        if self.drive_waker {
            SocketModel {
                drive_waker: false,
                wakes: SocketWakes { drive: true, ..self.wakes },
                ..self
            }
        } else {
            self
        }
    }

    pub open spec fn wake_recv(self) -> SocketModel<H> {
        if self.recv_waker {
            SocketModel {
                recv_waker: false,
                wakes: SocketWakes { recv: true, ..self.wakes },
                ..self
            }
        } else {
            self
        }
    }

    /// After an event was looked at.
    pub open spec fn took(self, event: OutgoingModel) -> SocketModel<H> {
        match event {
            OutgoingModel::StreamDropped(id) => SocketModel {
                streams: self.streams.remove(id),
                ..self
            },
            OutgoingModel::TransmitDgram(dgram) => SocketModel {
                outgoing_transmits: self.outgoing_transmits.push(
                    TransmitModel::datagram(dgram.dest, dgram.buf),
                ),
                ..self
            },
            OutgoingModel::Transmit(set) => SocketModel {
                outgoing_transmits: self.outgoing_transmits.push(set.transmit()),
                outgoing_packet_sets: self.outgoing_packet_sets.push(set),
                ..self
            },
        }
    }

    /// After events were looked at until a batch is full: the state, and whether
    /// they ran out before that.
    pub open spec fn filled(self) -> (SocketModel<H>, bool)
        decreases self.pending.len(),
    {
        if self.outgoing_transmits.len() >= self.batch_size {
            (self, false)
        } else if self.pending.len() == 0 {
            (self, true)
        } else {
            let next = SocketModel { pending: self.pending.drop_first(), ..self };
            next.took(self.pending[0]).filled()
        }
    }

    /// After the UDP socket took the first `n` transmits at the time `now`. As
    /// many packet sets count as sent, or all of them.
    pub open spec fn transmitted(self, n: nat, now: nat) -> SocketModel<H> {
        let sets = lesser(n, self.outgoing_packet_sets.len());
        SocketModel {
            stats: self.stats.after_all_tx(self.outgoing_transmits.take(n as int), now),
            outgoing_transmits: self.outgoing_transmits.skip(n as int),
            sent: self.sent + sent_of(self.outgoing_packet_sets.take(sets as int)),
            outgoing_packet_sets: self.outgoing_packet_sets.skip(sets as int),
            ..self
        }
    }

    /// A datagram that came in: for a stream, if it starts with a header and
    /// the header names one.
    pub open spec fn arrival(self, data: Seq<u8>, from: SocketAddr) -> Arrival {
        if Header::starts(data) && self.streams.contains_key(Header::decoding(data).stream_id) {
            Arrival::Stream(
                Header::decoding(data).stream_id,
                IncomingModel {
                    header: Header::decoding(data),
                    data: data.skip(UDX_HEADER_SIZE as int),
                    read_offset: 0,
                    from,
                },
            )
        } else {
            Arrival::Dgram
        }
    }

    /// Whether the counters have room for so many more datagrams and bytes that
    /// come in.
    pub open spec fn can_receive(self, dgrams: nat, bytes: nat) -> bool {
        &&& self.stats.rx_bytes + bytes <= usize::MAX
        &&& self.stats.rx_dgrams + dgrams <= usize::MAX
    }

    /// After a datagram was counted.
    pub open spec fn counted(self, len: nat) -> SocketModel<H> {
        SocketModel {
            stats: SocketStatsModel {
                rx_bytes: self.stats.rx_bytes + len,
                rx_dgrams: self.stats.rx_dgrams + 1,
                ..self.stats
            },
            ..self
        }
    }

    /// After a datagram that belongs to no stream was queued for whoever
    /// receives datagrams; it is dropped where too many wait.
    pub open spec fn queued(self, data: Seq<u8>, from: SocketAddr) -> SocketModel<H> {
        if self.recv_dgrams.len() < RECV_QUEUE_MAX_LEN {
            SocketModel {
                recv_dgrams: self.recv_dgrams.push(DgramModel { buf: data, dest: from }),
                ..self
            }.wake_recv()
        } else {
            self
        }
    }

    /// After a datagram came in.
    pub open spec fn received(self, data: Seq<u8>, from: SocketAddr) -> SocketModel<H> {
        match self.arrival(data, from) {
            Arrival::Stream(_, _) => self.counted(data.len()),
            Arrival::Dgram => self.counted(data.len()).queued(data, from),
        }
    }

    /// After a datagram came in, of which `dest` is the sender. A stream among
    /// the closed ones can no longer be reached: a packet for it is dropped, and
    /// the stream is forgotten.
    pub open spec fn arrived(self, dgram: DgramModel, closed: Seq<u32>) -> SocketModel<H> {
        let after = self.received(dgram.buf, dgram.dest);
        match self.arrival(dgram.buf, dgram.dest) {
            Arrival::Stream(id, _) if closed.contains(id) => SocketModel {
                streams: after.streams.remove(id),
                ..after
            },
            _ => after,
        }
    }

    /// What a datagram that came in comes to.
    pub open spec fn fate(self, dgram: DgramModel, closed: Seq<u32>) -> Fate {
        match self.arrival(dgram.buf, dgram.dest) {
            Arrival::Stream(id, packet) => {
                if closed.contains(id) {
                    Fate::Unreachable
                } else {
                    Fate::Delivered(id, packet)
                }
            },
            Arrival::Dgram => Fate::Stray,
        }
    }

    /// After several datagrams came in, in order.
    pub open spec fn arrived_all(self, dgrams: Seq<DgramModel>, closed: Seq<u32>) -> SocketModel<H>
        decreases dgrams.len(),
    {
        if dgrams.len() == 0 {
            self
        } else {
            self.arrived(dgrams[0], closed).arrived_all(dgrams.drop_first(), closed)
        }
    }

    /// What each of several datagrams that came in comes to.
    pub open spec fn fates(self, dgrams: Seq<DgramModel>, closed: Seq<u32>) -> Seq<Fate>
        decreases dgrams.len(),
    {
        if dgrams.len() == 0 {
            Seq::empty()
        } else {
            seq![self.fate(dgrams[0], closed)] + self.arrived(dgrams[0], closed).fates(
                dgrams.drop_first(),
                closed,
            )
        }
    }
}

impl<H> SocketModel<H> {
    /// After a stream was opened.
    pub open spec fn connected(self, local_id: u32, handle: H) -> SocketModel<H> {
        SocketModel {
            streams: self.streams.insert(local_id, handle),
            opened: (self.opened + 1) as u64,
            ..self
        }
    }

    /// After the stream was forgotten.
    pub open spec fn without(self, id: u32) -> SocketModel<H> {
        SocketModel { streams: self.streams.remove(id), ..self }
    }

    /// After an event was taken in.
    pub open spec fn asked(self, event: OutgoingModel) -> SocketModel<H> {
        SocketModel { pending: self.pending.push(event), ..self }
    }

    /// After a datagram was asked for: the state, and the datagram, if one waits.
    pub open spec fn handed_out(self) -> (SocketModel<H>, Option<DgramModel>) {
        if self.recv_dgrams.len() > 0 {
            (
                SocketModel { recv_dgrams: self.recv_dgrams.drop_first(), ..self },
                Some(self.recv_dgrams[0]),
            )
        } else {
            (SocketModel { recv_waker: true, ..self }, None)
        }
    }

    /// After one of so many handles was dropped.
    pub open spec fn handle_dropped(self, handles: usize) -> SocketModel<H> {
        if handles == 2 {
            SocketModel { has_refs: false, ..self }.wake_drive()
        } else {
            self
        }
    }

    /// After the packet `seq` of the stream `source` was acknowledged.
    pub open spec fn noted_ack(self, source: u64, seq: u32) -> SocketModel<H> {
        SocketModel {
            pending: self.pending.map_values(|event: OutgoingModel| event.acked(source, seq)),
            ..self
        }
    }

    /// After a batch was handed to the UDP socket: the state, and whether there is
    /// more to do at once, or the failure.
    pub open spec fn after_send(self, outcome: OutcomeModel, ran_out: bool, now: nat) -> (
        SocketModel<H>,
        Result<bool, ErrorModel>,
    ) {
        match outcome {
            OutcomeModel::Pending => (self, Ok(false)),
            OutcomeModel::Sent(n) => (self.transmitted(n, now), Ok(!ran_out)),
            OutcomeModel::Failed(error) => {
                if is_overflow(error) {
                    (SocketModel { send_overflow: true, ..self }, Ok(false))
                } else {
                    (self, Err(error))
                }
            },
        }
    }

    /// What the driver does about sending, and the state after it is decided.
    pub open spec fn gated(self, timer_fired: bool) -> (SocketModel<H>, SendGate) {
        if !self.send_overflow {
            (self, SendGate::Transmit)
        } else if timer_fired {
            (SocketModel { send_overflow: false, ..self }, SendGate::Cleared)
        } else {
            (self, SendGate::Paused)
        }
    }

    /// The end of a round of the driver: the state after it, and what it comes to.
    pub open spec fn end_round(self, should_continue: bool) -> (SocketModel<H>, SocketDrive) {
        if should_continue {
            (self, SocketDrive::Again)
        } else if !self.has_refs && forall|id: u32| !self.streams.contains_key(id) {
            (self, SocketDrive::Finished)
        } else {
            (SocketModel { drive_waker: true, ..self }, SocketDrive::Wait)
        }
    }
}

/// What a [`SendOutcome`] stands for.
pub enum OutcomeModel {
    Pending,
    Sent(nat),
    Failed(ErrorModel),
}

impl View for SendOutcome {
    type V = OutcomeModel;

    open spec fn view(&self) -> OutcomeModel {
        match self {
            SendOutcome::Pending => OutcomeModel::Pending,
            SendOutcome::Sent(n) => OutcomeModel::Sent(*n as nat),
            SendOutcome::Failed(error) => OutcomeModel::Failed(error@),
        }
    }
}

/// What a datagram that came in comes to.
pub enum Fate {
    /// It is a packet that goes to a stream.
    Delivered(u32, IncomingModel),
    /// It is a packet for a stream that can no longer be reached.
    Unreachable,
    /// It belongs to no stream.
    Stray,
}

/// The packets that go to streams, in order.
pub open spec fn delivered(fates: Seq<Fate>) -> Seq<(u32, IncomingModel)>
    decreases fates.len(),
{
    if fates.len() == 0 {
        Seq::empty()
    } else {
        let rest = delivered(fates.drop_first());
        match fates[0] {
            Fate::Delivered(id, packet) => seq![(id, packet)] + rest,
            _ => rest,
        }
    }
}

/// The datagrams that belong to no stream, in order.
pub open spec fn strays(dgrams: Seq<DgramModel>, fates: Seq<Fate>) -> Seq<DgramModel>
    decreases dgrams.len(),
{
    if dgrams.len() == 0 {
        Seq::empty()
    } else {
        let rest = strays(dgrams.drop_first(), fates.drop_first());
        if fates[0] is Stray {
            seq![dgrams[0]] + rest
        } else {
            rest
        }
    }
}

/// The bytes of the datagrams.
pub open spec fn dgram_bytes(dgrams: Seq<DgramModel>) -> nat
    decreases dgrams.len(),
{
    if dgrams.len() == 0 {
        0
    } else {
        dgrams[0].buf.len() + dgram_bytes(dgrams.drop_first())
    }
}

/// What a [`RecvRead`] stands for.
pub enum ReadModel {
    Ready(Seq<DgramModel>),
    Pending,
    Failed(ErrorModel),
}

/// What a read of the UDP socket gave.
#[derive(Debug)]
pub enum RecvRead {
    /// Datagrams, each with its sender.
    Ready(VecDeque<Dgram>),
    /// Nothing now.
    Pending,
    Failed(UdxError),
}

impl View for RecvRead {
    type V = ReadModel;

    open spec fn view(&self) -> ReadModel {
        match self {
            RecvRead::Ready(dgrams) => ReadModel::Ready(dgram_models(dgrams@)),
            RecvRead::Pending => ReadModel::Pending,
            RecvRead::Failed(error) => ReadModel::Failed(error@),
        }
    }
}

/// The reads that stand for the given ones.
pub open spec fn read_models(reads: Seq<RecvRead>) -> Seq<ReadModel> {
    reads.map_values(|read: RecvRead| read@)
}

/// The packets that stand for the given ones.
pub open spec fn delivery_models(deliveries: Seq<(u32, EventIncoming)>) -> Seq<
    (u32, IncomingModel),
> {
    deliveries.map_values(|delivery: (u32, EventIncoming)| (delivery.0, delivery.1.packet()))
}

/// The datagrams that a round of the driver looks at, from the read `i` on: those
/// of all reads up to the first that gave none, or the last that may be made.
pub open spec fn looked_at(reads: Seq<ReadModel>, i: nat) -> Seq<DgramModel>
    decreases MAX_LOOP - i,
{
    if i + 1 >= MAX_LOOP || i >= reads.len() {
        Seq::empty()
    } else {
        match reads[i as int] {
            ReadModel::Ready(dgrams) => dgrams + looked_at(reads, i + 1),
            _ => Seq::empty(),
        }
    }
}

/// The result of receiving, from the read `i` on: true if as many reads as may be
/// made all gave datagrams, false if one gave none before that, or the failure.
/// Where no read is left, there was nothing to read.
pub open spec fn recv_result(reads: Seq<ReadModel>, i: nat) -> Result<bool, ErrorModel>
    decreases MAX_LOOP - i,
{
    if i + 1 >= MAX_LOOP {
        Ok(true)
    } else if i >= reads.len() {
        Ok(false)
    } else {
        match reads[i as int] {
            ReadModel::Ready(_) => recv_result(reads, i + 1),
            ReadModel::Pending => Ok(false),
            ReadModel::Failed(error) => Err(error),
        }
    }
}

/// The result that stands for the given one.
pub open spec fn bool_result(result: Result<bool, UdxError>) -> Result<bool, ErrorModel> {
    match result {
        Ok(value) => Ok(value),
        Err(error) => Err(error@),
    }
}

/// The datagrams that a round of the driver looks at, and its result.
fn look_at(reads: VecDeque<RecvRead>) -> (looked: (VecDeque<Dgram>, Result<bool, UdxError>))
    ensures
        dgram_models(looked.0@) == looked_at(read_models(reads@), 0),
        bool_result(looked.1) == recv_result(read_models(reads@), 0),
{
    let ghost all = read_models(reads@);
    let mut reads = reads;
    let mut dgrams: VecDeque<Dgram> = VecDeque::new();
    let mut rounds = RecvRounds::new();
    let mut result: Option<Result<bool, UdxError>> = None;
    assert(all.skip(0) =~= all);
    assert(dgram_models(dgrams@) + looked_at(all, 0) =~= looked_at(all, 0));
    while result.is_none()
        invariant
            rounds.iters < MAX_LOOP,
            result is None ==> rounds.iters <= all.len(),
            result is None ==> read_models(reads@) == all.skip(rounds.iters as int),
            match result {
                None => {
                    &&& dgram_models(dgrams@) + looked_at(all, rounds.iters as nat) == looked_at(
                        all,
                        0,
                    )
                    &&& recv_result(all, rounds.iters as nat) == recv_result(all, 0)
                },
                Some(result) => {
                    &&& dgram_models(dgrams@) == looked_at(all, 0)
                    &&& bool_result(result) == recv_result(all, 0)
                },
            },
        decreases MAX_LOOP - rounds.iters + if result is None {
            1int
        } else {
            0
        },
    {
        let ghost i = rounds.iters as nat;
        let ghost before = dgram_models(dgrams@);
        let ghost left = read_models(reads@);
        assert(left.len() == reads@.len());
        let mut ahead = rounds;
        if !ahead.next() {
            assert(before + Seq::<DgramModel>::empty() =~= before);
            result = Some(Ok(true));
        } else {
            match reads.pop_front() {
                None => {
                    assert(before + Seq::<DgramModel>::empty() =~= before);
                    result = Some(Ok(false));
                },
                Some(read) => {
                    assert(read@ == all.skip(i as int)[0]);
                    assert(read@ == all[i as int]);
                    match read {
                        RecvRead::Pending => {
                            assert(before + Seq::<DgramModel>::empty() =~= before);
                            result = Some(Ok(false));
                        },
                        RecvRead::Failed(error) => {
                            assert(before + Seq::<DgramModel>::empty() =~= before);
                            result = Some(Err(error));
                        },
                        RecvRead::Ready(batch) => {
                            let mut batch = batch;
                            let ghost more = dgram_models(batch@);
                            dgrams.append(&mut batch);
                            rounds = ahead;
                            assert(dgram_models(dgrams@) =~= before + more);
                            assert(before + (more + looked_at(all, i + 1)) =~= (before + more)
                                + looked_at(all, i + 1));
                            assert(read_models(reads@) =~= left.drop_first());
                            assert(all.skip(i as int).drop_first() =~= all.skip(i as int + 1));
                        },
                    }
                },
            }
        }
    }
    match result {
        Some(result) => (dgrams, result),
        None => (dgrams, Ok(false)),
    }
}

/// Whether `id` is among `ids`.
fn is_among(ids: &Vec<u32>, id: u32) -> (among: bool)
    ensures
        among == ids@.contains(id),
{
    let mut i: usize = 0;
    while i < ids.len()
        invariant
            i <= ids@.len(),
            forall|j: int| 0 <= j < i ==> ids@[j] != id,
        decreases ids@.len() - i,
    {
        if ids[i] == id {
            return true;
        }
        i = i + 1;
    }
    false
}

/// What the driver of a socket does about sending.
#[derive(Clone, Copy, Debug, PartialEq, Eq, Structural)]
pub enum SendGate {
    /// It sends.
    Transmit,
    /// Sending pauses.
    Paused,
    /// The pause is over: there is more to do at once.
    Cleared,
}

/// What a round of a socket's driver comes to.
#[derive(Clone, Copy, Debug, PartialEq, Eq, Structural)]
pub enum SocketDrive {
    /// Nobody needs the socket any more.
    Finished,
    /// There is more to do at once.
    Again,
    /// The driver waits to be woken.
    Wait,
}

/// Counts the rounds of receiving in one round of the driver.
#[derive(Clone, Copy, Debug, PartialEq, Eq, Structural)]
pub struct RecvRounds {
    pub iters: usize,
}

impl RecvRounds {
    pub fn new() -> (rounds: Self)
        ensures
            rounds.iters == 0,
    {
        RecvRounds { iters: 0 }
    }

    /// Starts a round. Returns whether it is one in which to receive; if not,
    /// the driver is to let others run and come back.
    pub fn next(&mut self) -> (receive: bool)
        requires
            old(self).iters < MAX_LOOP,
        ensures
            final(self).iters == old(self).iters + 1,
            receive == (final(self).iters < MAX_LOOP),
    {
        self.iters = self.iters + 1;
        self.iters != MAX_LOOP
    }
}

/// Cuts a buffer of `len` bytes into `n` parts of one size, as large as they can
/// be: where each part starts and ends.
pub fn iovectors_from_buf(len: usize, n: usize) -> (parts: Vec<(usize, usize)>)
    requires
        n > 0,
    ensures
        parts@.len() == n,
        forall|i: int|
            0 <= i < n ==> (#[trigger] parts@[i]).0 == i * (len / n) && parts@[i].1 == (i + 1) * (
            len / n) && parts@[i].1 <= len,
{
    let size: usize = len / n;
    let mut parts: Vec<(usize, usize)> = Vec::new();
    let mut start: usize = 0;
    assert(size * n <= len) by (nonlinear_arith)
        requires
            size == len / n,
            n > 0,
    ;
    assert(0 * size == 0) by (nonlinear_arith);
    while parts.len() < n
        invariant
            parts@.len() <= n,
            n > 0,
            size == len / n,
            size * n <= len,
            start == parts@.len() * size,
            forall|i: int|
                0 <= i < parts@.len() ==> (#[trigger] parts@[i]).0 == i * size && parts@[i].1 == (i
                    + 1) * size && parts@[i].1 <= len,
        decreases n - parts@.len(),
    {
        let ghost k = parts@.len() as int;
        assert(k * size + size == (k + 1) * size) by (nonlinear_arith);
        assert((k + 1) * size <= size * n) by (nonlinear_arith)
            requires
                k + 1 <= n,
        ;
        parts.push((start, start + size));
        start = start + size;
    }
    parts
}

/// The events that stand for the given ones.
pub open spec fn outgoing_models(events: Seq<EventOutgoing>) -> Seq<OutgoingModel> {
    events.map_values(|event: EventOutgoing| event@)
}

/// The transmits that stand for the given ones.
pub open spec fn transmit_models(transmits: Seq<Transmit>) -> Seq<TransmitModel> {
    transmits.map_values(|transmit: Transmit| transmit@)
}

/// The sets that stand for the given ones.
pub open spec fn packet_set_models(sets: Seq<PacketSet>) -> Seq<PacketSetModel> {
    sets.map_values(|set: PacketSet| set@)
}

/// The datagrams that stand for the given ones.
pub open spec fn dgram_models(dgrams: Seq<Dgram>) -> Seq<DgramModel> {
    dgrams.map_values(|dgram: Dgram| dgram@)
}

/// A UDP socket that streams share. Each stream is known to it by a number and
/// a handle, through which packets for it are delivered.
#[derive(Debug)]
#[verifier::reject_recursive_types(H)]
pub struct UdxSocket<H> {
    streams: HashMap<u32, H>,
    opened: u64,
    pending: VecDeque<EventOutgoing>,
    outgoing_transmits: VecDeque<Transmit>,
    outgoing_packet_sets: VecDeque<PacketSet>,
    sent: Vec<SentPacket>,
    batch_size: usize,
    stats: SocketStats,
    has_refs: bool,
    drive_waker: bool,
    recv_waker: bool,
    wakes: SocketWakes,
    send_overflow: bool,
    recv_dgrams: VecDeque<Dgram>,
}

impl<H> View for UdxSocket<H> {
    type V = SocketModel<H>;

    closed spec fn view(&self) -> SocketModel<H> {
        SocketModel {
            streams: self.streams@,
            opened: self.opened,
            pending: outgoing_models(self.pending@),
            outgoing_transmits: transmit_models(self.outgoing_transmits@),
            outgoing_packet_sets: packet_set_models(self.outgoing_packet_sets@),
            sent: self.sent@,
            batch_size: self.batch_size,
            stats: self.stats@,
            has_refs: self.has_refs,
            drive_waker: self.drive_waker,
            recv_waker: self.recv_waker,
            wakes: self.wakes,
            send_overflow: self.send_overflow,
            recv_dgrams: dgram_models(self.recv_dgrams@),
        }
    }
}

/// An acknowledgement only takes bytes away.
proof fn lemma_acked_shrinks(packets: Seq<PacketRefModel>, seq: u32)
    ensures
        live_contents(
            packets.map_values(|packet: PacketRefModel| packet.acked(seq)),
        ).len() <= live_contents(packets).len(),
    decreases packets.len(),
{
    let after = packets.map_values(|packet: PacketRefModel| packet.acked(seq));
    if packets.len() > 0 {
        lemma_acked_shrinks(packets.drop_last(), seq);
        assert(after.drop_last() =~= packets.drop_last().map_values(
            |packet: PacketRefModel| packet.acked(seq),
        ));
    }
}

/// What can be sent can be sent after an acknowledgement.
proof fn lemma_acked_sendable(event: OutgoingModel, source: u64, seq: u32)
    requires
        event.sendable(),
    ensures
        event.acked(source, seq).sendable(),
{
    if let OutgoingModel::Transmit(set) = event {
        lemma_acked_shrinks(set.packets, seq);
    }
}

/// The first of several transmits and the others.
proof fn lemma_first_transmit(transmits: Seq<TransmitModel>, i: int, n: int)
    requires
        0 <= i < n <= transmits.len(),
    ensures
        transmits.subrange(i, n)[0] == transmits[i],
        transmits.subrange(i, n).drop_first() == transmits.subrange(i + 1, n),
{
    assert(transmits.subrange(i, n).drop_first() =~= transmits.subrange(i + 1, n));
}

/// The first of several sets and the others.
proof fn lemma_first_set(sets: Seq<PacketSetModel>, i: int, n: int)
    requires
        0 <= i < n <= sets.len(),
    ensures
        sets.subrange(i, n)[0] == sets[i],
        sets.subrange(i, n).drop_first() == sets.subrange(i + 1, n),
{
    assert(sets.subrange(i, n).drop_first() =~= sets.subrange(i + 1, n));
}

impl<H> UdxSocket<H> {
    /// A socket without streams, whose UDP socket takes `batch_size` transmits
    /// together.
    pub fn bind(batch_size: usize) -> (socket: Self)
        ensures
            socket@ == SocketModel::<H>::initial(batch_size),
            socket@.wf(),
    {
        let socket = UdxSocket {
            streams: HashMap::new(),
            opened: 0,
            pending: VecDeque::new(),
            outgoing_transmits: VecDeque::new(),
            outgoing_packet_sets: VecDeque::new(),
            sent: Vec::new(),
            batch_size,
            stats: SocketStats::default(),
            has_refs: true,
            drive_waker: false,
            recv_waker: false,
            wakes: SocketWakes { drive: false, recv: false },
            send_overflow: false,
            recv_dgrams: VecDeque::new(),
        };
        assert(socket@ =~= SocketModel::<H>::initial(batch_size));
        socket
    }

    /// Opens the stream `local_id` to the remote's stream `remote_id` at `dest`.
    /// Packets for it go to `handle`; a stream that had the number before no
    /// longer gets any. The stream's source is the number of streams that were
    /// opened before it.
    pub fn connect(&mut self, dest: SocketAddr, local_id: u32, remote_id: u32, handle: H) -> (result:
        Result<UdxStream, UdxError>)
        requires
            old(self)@.wf(),
            old(self)@.opened < u64::MAX,
        ensures
            result matches Ok(stream) && stream@ == StreamModel::initial(
                dest,
                remote_id,
                local_id,
                old(self)@.opened,
            ) && stream@.wf(),
            final(self)@ == old(self)@.connected(local_id, handle),
            final(self)@.wf(),
    {
        let stream = UdxStream::connect(dest, remote_id, local_id, self.opened);
        self.opened = self.opened + 1;
        self.streams.insert(local_id, handle);
        Ok(stream)
    }

    /// Whether there is a number for one more stream.
    pub fn can_connect(&self) -> (can: bool)
        ensures
            can == (self@.opened < u64::MAX),
    {
        self.opened < u64::MAX
    }

    /// The handle of the stream `id`.
    pub fn stream(&self, id: u32) -> (handle: Option<&H>)
        ensures
            match handle {
                Some(handle) => self@.streams.contains_key(id) && *handle == self@.streams[id],
                None => !self@.streams.contains_key(id),
            },
    {
        self.streams.get(&id)
    }

    /// Forgets a stream, because it is over or can no longer be reached.
    pub fn remove_stream(&mut self, id: u32)
        requires
            old(self)@.wf(),
        ensures
            final(self)@ == old(self)@.without(id),
            final(self)@.wf(),
    {
        self.streams.remove(&id);
    }

    pub fn stats(&self) -> (stats: SocketStats)
        ensures
            stats@ == self@.stats,
    {
        self.stats
    }

    /// The event that asks a socket to send a datagram.
    pub fn send(dest: SocketAddr, buf: &[u8]) -> (event: EventOutgoing)
        ensures
            event@ == OutgoingModel::TransmitDgram(DgramModel { buf: buf@, dest }),
    {
        EventOutgoing::TransmitDgram(Dgram::new(dest, vstd::slice::slice_to_vec(buf)))
    }

    /// Takes a datagram that came in for no stream, with its sender; nothing
    /// where the receiver has to wait for one.
    pub fn recv(&mut self) -> (dgram: Option<(SocketAddr, Vec<u8>)>)
        requires
            old(self)@.wf(),
        ensures
            final(self)@ == old(self)@.handed_out().0,
            old(self)@.handed_out().1 == match dgram {
                Some((from, buf)) => Some(DgramModel { buf: buf@, dest: from }),
                None => None,
            },
            final(self)@.wf(),
    {
        if let Some(dgram) = self.recv_dgrams.pop_front() {
            assert(dgram@ == old(self)@.recv_dgrams[0]);
            assert(self@.recv_dgrams =~= old(self)@.recv_dgrams.drop_first());
            Some((dgram.dest, dgram.buf))
        } else {
            self.recv_waker = true;
            assert(self@.recv_dgrams =~= old(self)@.recv_dgrams);
            None
        }
    }

    /// Takes note that a handle of the socket is dropped; with `handles` two,
    /// only the driver's is left beside it.
    pub fn drop_handle(&mut self, handles: usize)
        requires
            old(self)@.wf(),
        ensures
            final(self)@ == old(self)@.handle_dropped(handles),
            final(self)@.wf(),
    {
        if handles == 2 {
            self.has_refs = false;
            if self.drive_waker {
                self.drive_waker = false;
                self.wakes = SocketWakes { drive: true, ..self.wakes };
            }
        }
    }

    /// Takes the tasks that are to be woken.
    pub fn take_wakes(&mut self) -> (wakes: SocketWakes)
        ensures
            wakes == old(self)@.wakes,
            final(self)@ == (SocketModel {
                wakes: SocketWakes { drive: false, recv: false },
                ..old(self)@
            }),
    {
        let wakes = self.wakes;
        self.wakes = SocketWakes { drive: false, recv: false };
        wakes
    }

    /// Takes the packets of streams that the UDP socket took.
    pub fn take_sent(&mut self) -> (sent: Vec<SentPacket>)
        ensures
            sent@ == old(self)@.sent,
            final(self)@ == (SocketModel { sent: Seq::empty(), ..old(self)@ }),
    {
        let mut sent: Vec<SentPacket> = Vec::new();
        std::mem::swap(&mut sent, &mut self.sent);
        sent
    }

    /// What is to go to the UDP socket, in order.
    pub fn transmits(&self) -> (transmits: &VecDeque<Transmit>)
        ensures
            transmit_models(transmits@) == self@.outgoing_transmits,
    {
        &self.outgoing_transmits
    }

    /// Takes an event from a stream or a user.
    pub fn push_event(&mut self, event: EventOutgoing)
        requires
            old(self)@.wf(),
            event@.sendable(),
        ensures
            final(self)@ == old(self)@.asked(event@),
            final(self)@.wf(),
    {
        self.pending.push_back(event);
        assert(self@.pending =~= old(self)@.pending.push(event@));
    }

    /// Takes note that the packet `seq` of the stream `source` was acknowledged:
    /// where it waits to be looked at, it is not sent any more.
    pub fn mark_acked(&mut self, source: u64, seq: u32)
        requires
            old(self)@.wf(),
        ensures
            final(self)@ == old(self)@.noted_ack(source, seq),
            final(self)@.wf(),
    {
        let n: usize = self.pending.len();
        let mut i: usize = 0;
        let ghost all = self.pending@;
        while i < n
            invariant
                i <= n,
                n == all.len(),
                self.pending@.len() == n,
                (SocketModel { pending: outgoing_models(all), ..self@ }) == old(self)@,
                forall|j: int| 0 <= j < n - i ==> #[trigger] self.pending@[j] == all[j + i],
                forall|j: int|
                    n - i <= j < n ==> (#[trigger] self.pending@[j])@ == all[j - (n - i)]@.acked(
                        source,
                        seq,
                    ),
            decreases n - i,
        {
            let ghost before = self.pending@;
            if let Some(event) = self.pending.pop_front() {
                assert(event == all[i as int]);
                self.pending.push_back(event.acked(source, seq));
                i = i + 1;
                assert forall|j: int| n - i <= j < n implies (#[trigger] self.pending@[j])@
                    == all[j - (n - i)]@.acked(source, seq) by {
                    if j < n - 1 {
                        assert(self.pending@[j] == before[j + 1]);
                    }
                }
            }
        }
        assert(self@.pending =~= old(self)@.pending.map_values(
            |event: OutgoingModel| event.acked(source, seq),
        ));
        assert forall|j: int| 0 <= j < self@.pending.len() implies (
        #[trigger] self@.pending[j]).sendable() by {
            assert(old(self)@.pending[j].sendable());
            lemma_acked_sendable(old(self)@.pending[j], source, seq);
        }
    }

    /// Looks at events until a batch is full. Returns whether they ran out
    /// before that.
    fn fill(&mut self) -> (ran_out: bool)
        requires
            old(self)@.wf(),
        ensures
            final(self)@ == old(self)@.filled().0,
            ran_out == old(self)@.filled().1,
            final(self)@.wf(),
    {
        while self.outgoing_transmits.len() < self.batch_size && self.pending.len() > 0
            invariant
                self@.wf(),
                self@.filled() == old(self)@.filled(),
            decreases self.pending@.len(),
        {
            let ghost before = self@;
            if let Some(event) = self.pending.pop_front() {
                assert(event@ == before.pending[0]);
                let ghost next = SocketModel { pending: before.pending.drop_first(), ..before };
                assert(self@ =~= next);
                assert forall|j: int| 0 <= j < next.pending.len() implies (
                #[trigger] next.pending[j]).sendable() by {
                    assert(next.pending[j] == before.pending[j + 1]);
                }
                match event {
                    EventOutgoing::StreamDropped(id) => {
                        self.streams.remove(&id);
                    },
                    EventOutgoing::TransmitDgram(dgram) => {
                        self.outgoing_transmits.push_back(dgram.into_transmit());
                    },
                    EventOutgoing::Transmit(set) => {
                        let transmit = set.to_transmit();
                        self.outgoing_transmits.push_back(transmit);
                        self.outgoing_packet_sets.push_back(set);
                    },
                }
                assert(self@ =~= next.took(before.pending[0]));
            }
        }
        self.outgoing_transmits.len() < self.batch_size
    }

    /// Looks at events until a batch is full. Returns nothing if there is
    /// nothing to send, and else whether the events ran out; the transmits are
    /// to go to the UDP socket, and [`UdxSocket::on_send`] is to be told what
    /// became of them.
    pub fn poll_transmit(&mut self) -> (ran_out: Option<bool>)
        requires
            old(self)@.wf(),
        ensures
            final(self)@ == old(self)@.filled().0,
            ran_out == if final(self)@.outgoing_transmits.len() == 0 {
                None
            } else {
                Some(old(self)@.filled().1)
            },
            final(self)@.wf(),
    {
        let ran_out = self.fill();
        if self.outgoing_transmits.len() == 0 {
            None
        } else {
            Some(ran_out)
        }
    }

    /// Whether the counters have room for the first `n` transmits.
    pub fn can_track(&self, n: usize) -> (can: bool)
        requires
            n <= self@.outgoing_transmits.len(),
        ensures
            can == self@.stats.can_track(self@.outgoing_transmits.take(n as int)),
    {
        let ghost all = self@.outgoing_transmits;
        let mut bytes: usize = usize::MAX - self.stats.tx_bytes;
        let mut dgrams: usize = usize::MAX - self.stats.tx_dgrams;
        let mut i: usize = 0;
        assert(all.subrange(0, n as int) =~= all.take(n as int));
        while i < n
            invariant
                i <= n <= all.len(),
                all == self@.outgoing_transmits,
                all == transmit_models(self.outgoing_transmits@),
                (self@.stats.tx_bytes + bytes_of(all.take(n as int)) <= usize::MAX) == (bytes_of(
                    all.subrange(i as int, n as int),
                ) <= bytes),
                (self@.stats.tx_dgrams + segments_of(all.take(n as int)) <= usize::MAX) == (
                segments_of(all.subrange(i as int, n as int)) <= dgrams),
            decreases n - i,
        {
            proof {
                lemma_first_transmit(all, i as int, n as int);
            }
            let transmit = &self.outgoing_transmits[i];
            assert(transmit@ == all[i as int]);
            let len: usize = transmit.contents.len();
            let segments: usize = transmit.num_segments();
            if len > bytes || segments > dgrams {
                return false;
            }
            bytes = bytes - len;
            dgrams = dgrams - segments;
            i = i + 1;
        }
        assert(all.subrange(n as int, n as int) =~= Seq::empty());
        n <= usize::MAX - self.stats.tx_transmits
    }

    /// Takes note that the UDP socket took the first `n` transmits at the time
    /// `now`, in nanoseconds.
    fn drain_sent(&mut self, n: usize, now: u128)
        requires
            old(self)@.wf(),
            n <= old(self)@.outgoing_transmits.len(),
            old(self)@.stats.can_track(old(self)@.outgoing_transmits.take(n as int)),
        ensures
            final(self)@ == old(self)@.transmitted(n as nat, now as nat),
            final(self)@.wf(),
    {
        let ghost start = self@;
        let ghost all = self@.outgoing_transmits;
        let mut i: usize = 0;
        assert(all.subrange(0, n as int) =~= all.take(n as int));
        assert(all.skip(0) =~= all);
        while i < n
            invariant
                i <= n <= all.len(),
                self@.stats.wf(),
                self@.outgoing_transmits == all.skip(i as int),
                self@ == (SocketModel {
                    stats: self@.stats,
                    outgoing_transmits: self@.outgoing_transmits,
                    ..start
                }),
                self@.stats.can_track(all.subrange(i as int, n as int)),
                self@.stats.after_all_tx(all.subrange(i as int, n as int), now as nat)
                    == start.stats.after_all_tx(all.take(n as int), now as nat),
            decreases n - i,
        {
            proof {
                lemma_first_transmit(all, i as int, n as int);
            }
            let ghost before = self@;
            assert(before.outgoing_transmits.len() == self.outgoing_transmits@.len());
            if let Some(transmit) = self.outgoing_transmits.pop_front() {
                assert(transmit@ == before.outgoing_transmits[0]);
                assert(self@.outgoing_transmits =~= before.outgoing_transmits.drop_first());
                assert(all.skip(i as int).drop_first() =~= all.skip(i as int + 1));
                self.stats.track_tx(&transmit, now);
                i = i + 1;
            }
        }
        assert(all.subrange(n as int, n as int) =~= Seq::empty());
        // Take note of when data packets were sent.
        let ghost counted = self@;
        let ghost sets = start.outgoing_packet_sets;
        let m: usize = if n < self.outgoing_packet_sets.len() {
            n
        } else {
            self.outgoing_packet_sets.len()
        };
        let mut k: usize = 0;
        assert(sets.subrange(0, m as int) =~= sets.take(m as int));
        assert(sets.skip(0) =~= sets);
        while k < m
            invariant
                k <= m <= sets.len(),
                self@.outgoing_packet_sets == sets.skip(k as int),
                self@ == (SocketModel {
                    sent: self@.sent,
                    outgoing_packet_sets: self@.outgoing_packet_sets,
                    ..counted
                }),
                self@.sent + sent_of(sets.subrange(k as int, m as int)) == start.sent + sent_of(
                    sets.take(m as int),
                ),
            decreases m - k,
        {
            proof {
                lemma_first_set(sets, k as int, m as int);
            }
            let ghost before = self@;
            assert(before.outgoing_packet_sets.len() == self.outgoing_packet_sets@.len());
            if let Some(set) = self.outgoing_packet_sets.pop_front() {
                assert(set@ == before.outgoing_packet_sets[0]);
                assert(self@.outgoing_packet_sets =~= before.outgoing_packet_sets.drop_first());
                assert(sets.skip(k as int).drop_first() =~= sets.skip(k + 1));
                let shared = set.iter_shared();
                let ghost models = shared_packets(set@.packets);
                let source: u64 = set.source();
                let ghost news = models.map_values(
                    |packet: PacketModel| SentPacket::of(source, packet),
                );
                let mut j: usize = 0;
                assert(before.sent + news.take(0) =~= before.sent);
                while j < shared.len()
                    invariant
                        j <= shared@.len(),
                        shared@.map_values(|packet: &Packet| packet@) == models,
                        news == models.map_values(
                            |packet: PacketModel| SentPacket::of(source, packet),
                        ),
                        self@.sent == before.sent + news.take(j as int),
                        self@ == (SocketModel {
                            sent: self@.sent,
                            outgoing_packet_sets: sets.skip(k + 1),
                            ..counted
                        }),
                    decreases shared@.len() - j,
                {
                    let packet = shared[j];
                    assert(packet@ == models[j as int]) by {
                        assert(shared@.map_values(|packet: &Packet| packet@)[j as int] == packet@);
                    }
                    self.sent.push(SentPacket { source, seq: packet.header.seq });
                    j = j + 1;
                    assert(news.take(j as int) =~= news.take(j - 1).push(news[j - 1]));
                    assert(self@.sent =~= before.sent + news.take(j as int));
                }
                proof {
                    assert(shared@.map_values(|packet: &Packet| packet@).len() == shared@.len());
                    assert(news.take(j as int) =~= news);
                    let rest = sent_of(sets.subrange(k + 1, m as int));
                    assert(before.sent + (news + rest) =~= before.sent + news + rest);
                }
                k = k + 1;
            }
        }
        proof {
            assert(sets.subrange(m as int, m as int) =~= Seq::empty());
            assert(self@.sent + Seq::<SentPacket>::empty() =~= self@.sent);
            assert(self@ =~= start.transmitted(n as nat, now as nat));
        }
    }

    /// Takes note of what became of the transmits at the time `now`, in
    /// nanoseconds; `ran_out` tells whether all events were looked at. Returns
    /// whether there is more to do at once. After an overflow sending pauses.
    pub fn on_send(&mut self, outcome: SendOutcome, ran_out: bool, now: u128) -> (result: Result<
        bool,
        UdxError,
    >)
        requires
            old(self)@.wf(),
            outcome matches SendOutcome::Sent(n) ==> {
                &&& n <= old(self)@.outgoing_transmits.len()
                &&& old(self)@.stats.can_track(old(self)@.outgoing_transmits.take(n as int))
            },
        ensures
            final(self)@ == old(self)@.after_send(outcome@, ran_out, now as nat).0,
            bool_result(result) == old(self)@.after_send(outcome@, ran_out, now as nat).1,
            outcome matches SendOutcome::Failed(error) ==> is_overflow(error@) || result == Err::<
                bool,
                UdxError,
            >(error),
            final(self)@.wf(),
    {
        match outcome {
            SendOutcome::Pending => Ok(false),
            SendOutcome::Failed(error) => {
                if error.kind() == ErrorKind::Interrupted {
                    self.send_overflow = true;
                    Ok(false)
                } else {
                    Err(error)
                }
            },
            SendOutcome::Sent(n) => {
                self.drain_sent(n, now);
                Ok(!ran_out)
            },
        }
    }

    /// Whether [`SocketModel::can_receive`] holds.
    pub fn can_receive(&self, dgrams: usize, bytes: usize) -> (can: bool)
        ensures
            can == self@.can_receive(dgrams as nat, bytes as nat),
    {
        bytes <= usize::MAX - self.stats.rx_bytes && dgrams <= usize::MAX - self.stats.rx_dgrams
    }

    /// Looks at a datagram that came in from `from`. Returns the packet in it
    /// and its stream, or the datagram if it belongs to no stream.
    pub fn process_packet(&mut self, data: BytesMut, from: SocketAddr) -> (result: Result<
        (u32, EventIncoming),
        BytesMut,
    >)
        requires
            old(self)@.wf(),
            old(self)@.can_receive(1, bytes_mut_contents(data).len()),
        ensures
            final(self)@ == old(self)@.counted(bytes_mut_contents(data).len()),
            match result {
                Ok((id, event)) => old(self)@.arrival(bytes_mut_contents(data), from)
                    == Arrival::Stream(id, event.packet()),
                Err(data_back) => {
                    &&& old(self)@.arrival(bytes_mut_contents(data), from) is Dgram
                    &&& bytes_mut_contents(data_back) == bytes_mut_contents(data)
                },
            },
            final(self)@.wf(),
    {
        let ghost contents = bytes_mut_contents(data);
        let len: usize = bytes_mut_as_slice(&data).len();
        self.stats.rx_bytes = self.stats.rx_bytes + len;
        self.stats.rx_dgrams = self.stats.rx_dgrams + 1;
        let header = match Header::from_bytes(bytes_mut_as_slice(&data)) {
            Ok(header) => header,
            Err(_) => {
                return Err(data);
            },
        };
        let stream_id: u32 = header.stream_id;
        if !self.streams.contains_key(&stream_id) {
            return Err(data);
        }
        let mut data = data;
        let _ = bytes_mut_split_to(&mut data, UDX_HEADER_SIZE);
        let buf: Bytes = bytes_mut_freeze(data);
        let incoming = IncomingPacket { header, buf, read_offset: 0, from };
        Ok((stream_id, EventIncoming::Packet(incoming)))
    }

    /// Queues a datagram from `from` that belongs to no stream.
    pub fn on_recv_dgram(&mut self, data: BytesMut, from: SocketAddr)
        requires
            old(self)@.wf(),
        ensures
            final(self)@ == old(self)@.queued(bytes_mut_contents(data), from),
            final(self)@.wf(),
    {
        if self.recv_dgrams.len() < RECV_QUEUE_MAX_LEN {
            let buf: Vec<u8> = vstd::slice::slice_to_vec(bytes_mut_as_slice(&data));
            self.recv_dgrams.push_back(Dgram::new(from, buf));
            if self.recv_waker {
                self.recv_waker = false;
                self.wakes = SocketWakes { recv: true, ..self.wakes };
            }
            assert(self@ =~= old(self)@.queued(bytes_mut_contents(data), from));
        }
    }

    /// Takes in a datagram from `from`: the first `len` bytes of `buf`. Returns
    /// the packet in it and its stream; a datagram that belongs to no stream is
    /// queued.
    pub fn receive(&mut self, buf: &[u8], len: usize, from: SocketAddr) -> (delivery: Option<
        (u32, EventIncoming),
    >)
        requires
            old(self)@.wf(),
            len <= buf@.len(),
            old(self)@.can_receive(1, len as nat),
        ensures
            final(self)@ == old(self)@.received(buf@.take(len as int), from),
            match delivery {
                Some((id, event)) => old(self)@.arrival(buf@.take(len as int), from)
                    == Arrival::Stream(id, event.packet()),
                None => old(self)@.arrival(buf@.take(len as int), from) is Dgram,
            },
            final(self)@.wf(),
    {
        let bytes = &buf[0..len];
        assert(bytes@ =~= buf@.take(len as int));
        let data = bytes_mut_from_slice(bytes);
        match self.process_packet(data, from) {
            Ok(delivery) => Some(delivery),
            Err(data) => {
                self.on_recv_dgram(data, from);
                None
            },
        }
    }

    /// Takes in all datagrams of one round of the driver: `reads` is what the
    /// reads of the UDP socket gave, and `closed` are the streams that can no
    /// longer be reached. Returns whether there is more to do at once, or the
    /// failure of a read, and the packets that are to go to streams.
    pub fn poll_recv(&mut self, reads: VecDeque<RecvRead>, closed: &Vec<u32>) -> (received: (
        Result<bool, UdxError>,
        VecDeque<(u32, EventIncoming)>,
    ))
        requires
            old(self)@.wf(),
            reads@.len() < MAX_LOOP,
            old(self)@.can_receive(
                looked_at(read_models(reads@), 0).len(),
                dgram_bytes(looked_at(read_models(reads@), 0)),
            ),
        ensures
            ({
                let dgrams = looked_at(read_models(reads@), 0);
                &&& final(self)@ == old(self)@.arrived_all(dgrams, closed@)
                &&& delivery_models(received.1@) == delivered(old(self)@.fates(dgrams, closed@))
            }),
            bool_result(received.0) == recv_result(read_models(reads@), 0),
            final(self)@.wf(),
    {
        let (dgrams, result) = look_at(reads);
        let mut dgrams = dgrams;
        let mut deliveries: VecDeque<(u32, EventIncoming)> = VecDeque::new();
        let ghost all = dgram_models(dgrams@);
        let ghost packets = delivered(old(self)@.fates(all, closed@));
        assert(delivery_models(deliveries@) + packets =~= packets);
        while dgrams.len() > 0
            invariant
                self@.wf(),
                self@.can_receive(dgrams@.len(), dgram_bytes(dgram_models(dgrams@))),
                self@.arrived_all(dgram_models(dgrams@), closed@) == old(self)@.arrived_all(
                    all,
                    closed@,
                ),
                delivery_models(deliveries@) + delivered(
                    self@.fates(dgram_models(dgrams@), closed@),
                ) == packets,
            decreases dgrams@.len(),
        {
            let ghost waiting = dgram_models(dgrams@);
            let ghost before = self@;
            let ghost done = delivery_models(deliveries@);
            if let Some(dgram) = dgrams.pop_front() {
                let ghost rest = dgram_models(dgrams@);
                assert(waiting[0] == dgram@);
                assert(waiting.drop_first() =~= rest);
                let len: usize = dgram.buf.len();
                assert(dgram.buf@.take(len as int) =~= dgram.buf@);
                let delivery = self.receive(dgram.buf.as_slice(), len, dgram.dest);
                let ghost fate = before.fate(dgram@, closed@);
                if let Some((id, event)) = delivery {
                    if is_among(closed, id) {
                        self.remove_stream(id);
                    } else {
                        deliveries.push_back((id, event));
                        assert(delivery_models(deliveries@) =~= done.push((id, event.packet())));
                    }
                }
                assert(self@ == before.arrived(dgram@, closed@));
                proof {
                    let later = self@.fates(rest, closed@);
                    let fates = before.fates(waiting, closed@);
                    assert(fates.drop_first() =~= later);
                    assert(fates[0] == fate);
                    assert(delivery_models(deliveries@) + delivered(later) =~= done + delivered(
                        fates,
                    ));
                }
            }
        }
        proof {
            assert(dgram_models(dgrams@) =~= Seq::empty());
            assert(delivery_models(deliveries@) + Seq::<(u32, IncomingModel)>::empty()
                =~= delivery_models(deliveries@));
        }
        (result, deliveries)
    }

    /// What the driver does about sending; `timer_fired` tells whether a pause,
    /// if there is one, is over.
    pub fn send_gate(&mut self, timer_fired: bool) -> (gate: SendGate)
        requires
            old(self)@.wf(),
        ensures
            final(self)@ == old(self)@.gated(timer_fired).0,
            gate == old(self)@.gated(timer_fired).1,
            final(self)@.wf(),
    {
        if self.send_overflow {
            if timer_fired {
                self.send_overflow = false;
                SendGate::Cleared
            } else {
                SendGate::Paused
            }
        } else {
            SendGate::Transmit
        }
    }

    /// Ends a round of the driver. The socket is over when there is nothing to
    /// do, no handle is left and no stream is open.
    pub fn finish_drive(&mut self, should_continue: bool) -> (outcome: SocketDrive)
        requires
            old(self)@.wf(),
        ensures
            final(self)@ == old(self)@.end_round(should_continue).0,
            outcome == old(self)@.end_round(should_continue).1,
            final(self)@.wf(),
    {
        proof {
            let keys = self.streams@.dom();
            if keys.len() != 0 {
                let id = keys.choose();
                assert(keys.contains(id)) by {
                    if forall|id: u32| !keys.contains(id) {
                        assert(keys =~= Set::empty());
                    }
                }
                assert(self@.streams.contains_key(id));
            } else {
                assert(keys =~= Set::empty());
                assert forall|id: u32| !self@.streams.contains_key(id) by {
                    assert(!keys.contains(id));
                }
            }
        }
        if !should_continue && !self.has_refs && self.streams.len() == 0 {
            return SocketDrive::Finished;
        }
        if should_continue {
            SocketDrive::Again
        } else {
            self.drive_waker = true;
            SocketDrive::Wait
        }
    }
}

/// A datagram is delivered to a stream exactly when it starts with a header
/// that names the stream, and then as the header and what follows it; every
/// other datagram is queued as it is, unless too many wait.
pub proof fn law_datagrams_reach_their_stream<H>(
    socket: SocketModel<H>,
    header: Header,
    body: Seq<u8>,
    from: SocketAddr,
)
    requires
        header.typ < 256,
        header.data_offset < 256,
    ensures
        socket.streams.contains_key(header.stream_id) ==> socket.arrival(
            header.encoding() + body,
            from,
        ) == Arrival::Stream(
            header.stream_id,
            IncomingModel { header, data: body, read_offset: 0, from },
        ),
        !socket.streams.contains_key(header.stream_id) ==> socket.arrival(
            header.encoding() + body,
            from,
        ) is Dgram,
{
    crate::packet::law_header_is_read_back(header, body);
}

/// What is sent as a datagram comes out of the other socket as it was, with the
/// sender's address, if it is not a packet for a stream of that socket and not
/// too many wait.
pub proof fn law_dgram_is_received<H>(
    socket: SocketModel<H>,
    other: SocketModel<H>,
    dgram: DgramModel,
    from: SocketAddr,
)
    requires
        other.arrival(dgram.buf, from) is Dgram,
        other.recv_dgrams.len() < RECV_QUEUE_MAX_LEN,
    ensures
        socket.took(OutgoingModel::TransmitDgram(dgram)).outgoing_transmits.last()
            == TransmitModel::datagram(dgram.dest, dgram.buf),
        other.received(dgram.buf, from).recv_dgrams == other.recv_dgrams.push(
            DgramModel { buf: dgram.buf, dest: from },
        ),
{
}

/// An acknowledgement for one stream leaves the packets of all others as they
/// are, also of those that go to the same stream of the same remote.
pub proof fn law_acknowledgements_stay_with_their_stream(
    event: OutgoingModel,
    source: u64,
    seq: u32,
)
    requires
        event matches OutgoingModel::Transmit(set) ==> set.source != source,
    ensures
        event.acked(source, seq) == event,
{
}

/// A round of receiving makes as many reads as may be, or stops at the first
/// that gives no datagrams. Its result tells which: true exactly if all gave
/// datagrams, false exactly if one gave none, and the failure exactly if a read
/// failed.
pub proof fn law_receiving_stops(reads: Seq<ReadModel>, i: nat)
    requires
        i < MAX_LOOP,
        i <= reads.len(),
    ensures
        recv_result(reads, i) == Ok::<bool, ErrorModel>(true) <==> forall|j: int|
            i <= j < MAX_LOOP - 1 ==> j < reads.len() && (#[trigger] reads[j]) is Ready,
        recv_result(reads, i) == Ok::<bool, ErrorModel>(false) <==> exists|j: int|
            #[trigger] stops_at(reads, i, j) && (j == reads.len() || reads[j] is Pending),
        forall|error: ErrorModel| #[trigger]
            is_failure(recv_result(reads, i), error) <==> exists|j: int|
                #[trigger] stops_at(reads, i, j) && j < reads.len() && reads[j]
                    == ReadModel::Failed(error),
    decreases MAX_LOOP - i,
{
    if i + 1 < MAX_LOOP {
        if i < reads.len() && reads[i as int] is Ready {
            law_receiving_stops(reads, i + 1);
            assert forall|j: int| #[trigger]
                stops_at(reads, i + 1, j) implies stops_at(reads, i, j) by {}
            assert forall|j: int| #[trigger]
                stops_at(reads, i, j) implies stops_at(reads, i + 1, j) by {}
            assert(recv_result(reads, i) == recv_result(reads, i + 1));
        } else {
            let here = i as int;
            assert(stops_at(reads, i, here));
            assert forall|j: int| #[trigger] stops_at(reads, i, j) implies j == here by {
                if j > here {
                    assert(reads[here] is Ready);
                }
            }
        }
    }
}

/// Whether the first of the reads from `i` on that gives no datagrams is `j`,
/// which is one that may be made.
pub open spec fn stops_at(reads: Seq<ReadModel>, i: nat, j: int) -> bool {
    &&& i <= j <= reads.len()
    &&& j < MAX_LOOP - 1
    &&& forall|k: int| i <= k < j ==> (#[trigger] reads[k]) is Ready
    &&& j < reads.len() ==> !(reads[j] is Ready)
}

/// Whether the result is that failure.
pub open spec fn is_failure(result: Result<bool, ErrorModel>, error: ErrorModel) -> bool {
    result == Err::<bool, ErrorModel>(error)
}

/// No datagram that is looked at is lost: each is delivered to its stream, or is
/// queued whole for whoever receives datagrams, as far as there is room; only a
/// packet for a stream that can no longer be reached is dropped.
pub proof fn law_every_datagram_has_its_fate<H>(
    socket: SocketModel<H>,
    dgrams: Seq<DgramModel>,
    closed: Seq<u32>,
)
    requires
        socket.recv_dgrams.len() <= RECV_QUEUE_MAX_LEN,
    ensures
        ({
            let fates = socket.fates(dgrams, closed);
            let after = socket.arrived_all(dgrams, closed);
            let stray = strays(dgrams, fates);
            let room = (RECV_QUEUE_MAX_LEN - socket.recv_dgrams.len()) as nat;
            &&& fates.len() == dgrams.len()
            &&& forall|i: int|
                0 <= i < dgrams.len() ==> match #[trigger] fates[i] {
                    Fate::Delivered(id, packet) => {
                        &&& Header::starts(dgrams[i].buf)
                        &&& packet.header == Header::decoding(dgrams[i].buf)
                        &&& packet.header.stream_id == id
                        &&& packet.data == dgrams[i].buf.skip(UDX_HEADER_SIZE as int)
                        &&& packet.from == dgrams[i].dest
                        &&& socket.streams.contains_key(id)
                        &&& !closed.contains(id)
                    },
                    Fate::Unreachable => Header::starts(dgrams[i].buf) && closed.contains(
                        Header::decoding(dgrams[i].buf).stream_id,
                    ),
                    Fate::Stray => true,
                }
            &&& after.recv_dgrams == socket.recv_dgrams + stray.take(
                lesser(room, stray.len()) as int,
            )
            &&& after.stats.rx_dgrams == socket.stats.rx_dgrams + dgrams.len()
            &&& after.stats.rx_bytes == socket.stats.rx_bytes + dgram_bytes(dgrams)
        }),
    decreases dgrams.len(),
{
    let fates = socket.fates(dgrams, closed);
    let stray = strays(dgrams, fates);
    let room = (RECV_QUEUE_MAX_LEN - socket.recv_dgrams.len()) as nat;
    if dgrams.len() == 0 {
        assert(socket.recv_dgrams + stray.take(0) =~= socket.recv_dgrams);
    } else {
        let next = socket.arrived(dgrams[0], closed);
        let rest = dgrams.drop_first();
        law_every_datagram_has_its_fate(next, rest, closed);
        let later = next.fates(rest, closed);
        assert(fates.drop_first() =~= later);
        assert(fates[0] == socket.fate(dgrams[0], closed));
        assert forall|i: int| 0 < i < dgrams.len() implies fates[i] == later[i - 1] && dgrams[i]
            == rest[i - 1] by {}
        let others = strays(rest, later);
        let left = (RECV_QUEUE_MAX_LEN - next.recv_dgrams.len()) as nat;
        let after = next.arrived_all(rest, closed);
        assert(after.recv_dgrams =~= socket.recv_dgrams + stray.take(
            lesser(room, stray.len()) as int,
        ));
    }
}

/// Filling a batch stops at the batch size, or when no event is left; events
/// that were not looked at stay in order.
pub proof fn law_batches_are_bounded<H>(socket: SocketModel<H>)
    requires
        socket.outgoing_transmits.len() <= socket.batch_size,
    ensures
        ({
            let (after, ran_out) = socket.filled();
            &&& after.outgoing_transmits.len() <= after.batch_size
            &&& after.batch_size == socket.batch_size
            &&& ran_out == (after.outgoing_transmits.len() < after.batch_size)
            &&& ran_out ==> after.pending.len() == 0
            &&& exists|n: int|
                0 <= n <= socket.pending.len() && after.pending == #[trigger] socket.pending.skip(n)
        }),
    decreases socket.pending.len(),
{
    let (after, ran_out) = socket.filled();
    if socket.outgoing_transmits.len() < socket.batch_size && socket.pending.len() > 0 {
        let next = SocketModel { pending: socket.pending.drop_first(), ..socket }.took(
            socket.pending[0],
        );
        law_batches_are_bounded(next);
        let n = choose|n: int|
            0 <= n <= next.pending.len() && after.pending == #[trigger] next.pending.skip(n);
        assert(next.pending.skip(n) =~= socket.pending.skip(n + 1));
    } else {
        assert(socket.pending.skip(0) =~= socket.pending);
    }
}

} // verus!
