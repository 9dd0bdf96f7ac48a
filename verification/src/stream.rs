//! One stream: what it sends and keeps until it is acknowledged, what it
//! receives, how fast it sends, and how it ends.
//!
//! A [`UdxStream`] does no I/O. Whoever drives it hands it the packets that
//! came in and the time, takes the packet sets that are to be sent, arms the
//! timer that it asks for, and wakes the tasks that it names.

use std::collections::{HashMap, VecDeque};

use tokio::io::ReadBuf;
use vstd::prelude::*;

use crate::addr::SocketAddr;
use crate::buffers::{bytes_as_slice, read_buf_capacity, read_buf_filled, read_buf_remaining};
use crate::congestion::{grow, grown, law_window_grows, max_window, shrink, shrunk};
use crate::constants::{
    UDX_HEADER_DATA, UDX_HEADER_END, UDX_HEADER_SACK, UDX_HEADER_SIZE, UDX_MAX_DATA_SIZE,
    UDX_MAX_TRANSMITS, UDX_MTU,
};
use crate::error::{ErrorKind, ErrorModel, UdxError};
use crate::packet::{
    le_value, lemma_live_len, live_packets, read_u32_le, ref_models, Header, IncomingModel,
    IncomingPacket, Packet, PacketModel, PacketRef, PacketRefModel, PacketSet, PacketSetModel,
};
use crate::reassembly::{Reassembly, ReassemblyModel};
use crate::rtt::{RttEstimator, RttModel};
use crate::socket::{event_models, EventIncoming};
use crate::totals::{lemma_total_at_least, lemma_total_change, lemma_total_same, share, total};

verus! {

/// Most packets that go to the socket in one set.
pub const MAX_SEGMENTS: usize = 10;

/// What a stream has sent and received.
#[derive(Clone, Copy, Debug, PartialEq, Eq, Structural)]
pub struct StreamStats {
    pub tx_packets: usize,
    pub tx_bytes: usize,
    pub rx_bytes: usize,
    pub rx_packets: usize,
    pub inflight_packets: usize,
    pub inflight_bytes: usize,
}

impl StreamStats {
    pub open spec fn zero() -> StreamStats {
        StreamStats {
            tx_packets: 0,
            tx_bytes: 0,
            rx_bytes: 0,
            rx_packets: 0,
            inflight_packets: 0,
            inflight_bytes: 0,
        }
    }
}

impl Default for StreamStats {
    fn default() -> (stats: Self)
        ensures
            stats == StreamStats::zero(),
    {
        StreamStats {
            tx_packets: 0,
            tx_bytes: 0,
            rx_bytes: 0,
            rx_packets: 0,
            inflight_packets: 0,
            inflight_bytes: 0,
        }
    }
}

/// Which side has closed a stream.
#[derive(Clone, Copy, Debug, PartialEq, Eq, Structural)]
pub enum StreamState {
    Open,
    LocalClosed,
    RemoteClosed,
    BothClosed,
}

impl StreamState {
    pub open spec fn is_local_closed(self) -> bool {
        self is LocalClosed || self is BothClosed
    }

    pub open spec fn is_remote_closed(self) -> bool {
        self is RemoteClosed || self is BothClosed
    }

    /// The state in which exactly the given sides have closed.
    pub open spec fn of(local: bool, remote: bool) -> StreamState {
        if local && remote {
            StreamState::BothClosed
        } else if local {
            StreamState::LocalClosed
        } else if remote {
            StreamState::RemoteClosed
        } else {
            StreamState::Open
        }
    }

    pub fn close_local(&mut self)
        ensures
            *final(self) == StreamState::of(true, old(self).is_remote_closed()),
    {
        *self = match self {
            StreamState::RemoteClosed | StreamState::BothClosed => StreamState::BothClosed,
            _ => StreamState::LocalClosed,
        };
    }

    pub fn close_remote(&mut self)
        ensures
            *final(self) == StreamState::of(old(self).is_local_closed(), true),
    {
        *self = match self {
            StreamState::LocalClosed | StreamState::BothClosed => StreamState::BothClosed,
            _ => StreamState::RemoteClosed,
        };
    }

    pub fn local_closed(&self) -> (closed: bool)
        ensures
            closed == self.is_local_closed(),
    {
        match self {
            StreamState::LocalClosed | StreamState::BothClosed => true,
            _ => false,
        }
    }

    pub fn remote_closed(&self) -> (closed: bool)
        ensures
            closed == self.is_remote_closed(),
    {
        match self {
            StreamState::RemoteClosed | StreamState::BothClosed => true,
            _ => false,
        }
    }

    pub fn closed(&self) -> (closed: bool)
        ensures
            closed == (self.is_local_closed() || self.is_remote_closed()),
    {
        self.local_closed() || self.remote_closed()
    }
}

/// Which tasks of a stream are to be woken.
#[derive(Clone, Copy, Debug, PartialEq, Eq, Structural)]
pub struct Wakes {
    pub read: bool,
    pub write: bool,
    pub drive: bool,
}

impl Wakes {
    pub open spec fn none() -> Wakes {
        Wakes { read: false, write: false, drive: false }
    }
}

/// The bytes of a packet that are in flight: none while it waits to be sent
/// again.
pub open spec fn live_len() -> spec_fn(PacketModel) -> nat {
    |packet: PacketModel|
        if packet.waiting {
            0
        } else {
            packet.buf.len()
        }
}

/// The payload of a packet.
pub open spec fn payload() -> spec_fn(PacketModel) -> nat {
    |packet: PacketModel| packet.data_len()
}

/// Counts a packet.
pub open spec fn one() -> spec_fn(PacketModel) -> nat {
    |packet: PacketModel| 1
}

/// How many packets, and how many bytes of payload in them, a write of `len`
/// bytes sends, with so many bytes in flight and so large a window.
pub open spec fn taken(inflight: nat, cwnd: nat, len: nat) -> (nat, nat)
    decreases len,
{
    let n = if len <= UDX_MAX_DATA_SIZE {
        len
    } else {
        UDX_MAX_DATA_SIZE as nat
    };
    if len == 0 || inflight + n > cwnd {
        (0, 0)
    } else {
        let (packets, bytes) = taken(
            inflight + n + UDX_HEADER_SIZE as nat,
            cwnd,
            (len - n) as nat,
        );
        (packets + 1, bytes + n)
    }
}

/// How many packets, and how many bytes of payload in them, a write of `len`
/// bytes sends.
pub fn count_taken(inflight: usize, cwnd: usize, len: usize) -> (counts: (u128, u128))
    ensures
        taken(inflight as nat, cwnd as nat, len as nat) == (counts.0 as nat, counts.1 as nat),
{
    let mut inflight_now: u128 = inflight as u128;
    let mut left: usize = len;
    let mut packets: u128 = 0;
    let mut bytes: u128 = 0;
    let mut room = true;
    let ghost whole = taken(inflight as nat, cwnd as nat, len as nat);
    while room && left > 0
        invariant
            left <= len,
            bytes == len - left,
            packets <= bytes,
            inflight_now <= usize::MAX + 1400,
            whole == if room {
                let (p, b) = taken(inflight_now as nat, cwnd as nat, left as nat);
                ((packets + p) as nat, (bytes + b) as nat)
            } else {
                (packets as nat, bytes as nat)
            },
        decreases left + if room {
            1int
        } else {
            0
        },
    {
        let n: usize = if left <= UDX_MAX_DATA_SIZE {
            left
        } else {
            UDX_MAX_DATA_SIZE
        };
        if inflight_now + n as u128 > cwnd as u128 {
            room = false;
        } else {
            inflight_now = inflight_now + n as u128 + UDX_HEADER_SIZE as u128;
            left = left - n;
            packets = packets + 1;
            bytes = bytes + n as u128;
        }
    }
    (packets, bytes)
}

/// The bytes of the first data packet that `buf` is cut into.
pub open spec fn chunk(buf: Seq<u8>) -> Seq<u8> {
    if buf.len() <= UDX_MAX_DATA_SIZE {
        buf
    } else {
        buf.take(UDX_MAX_DATA_SIZE as int)
    }
}

/// The packets of all sets, in order.
pub open spec fn all_packets(sets: Seq<PacketSetModel>) -> Seq<PacketRefModel>
    decreases sets.len(),
{
    if sets.len() == 0 {
        Seq::empty()
    } else {
        all_packets(sets.drop_last()) + sets.last().packets
    }
}

/// The sets that stand for the given ones.
pub open spec fn set_models(sets: Seq<PacketSet>) -> Seq<PacketSetModel> {
    sets.map_values(|set: PacketSet| set@)
}

/// Whether a set holds as many packets as one may; with `max` zero there is no
/// bound.
pub open spec fn full(set: PacketSetModel, max: nat) -> bool {
    max > 0 && set.packets.len() == max
}

/// Whether a set comes from the stream `source`, is for `dest` and holds packets
/// of one size, and no more of them than may go together.
pub open spec fn uniform(
    set: PacketSetModel,
    source: u64,
    dest: SocketAddr,
    max: nat,
) -> bool {
    &&& set.source == source
    &&& set.dest == dest
    &&& set.packets.len() > 0
    &&& max > 0 ==> set.packets.len() <= max
    &&& set.segment_size matches Some(size) && forall|i: int|
        0 <= i < set.packets.len() ==> (#[trigger] set.packets[i]).packet().buf.len() == size
}

/// Whether the sets are the queue cut into runs of packets of one size, each
/// run as long as it can be.
pub open spec fn batched(
    queue: Seq<PacketRefModel>,
    sets: Seq<PacketSetModel>,
    source: u64,
    dest: SocketAddr,
    max: nat,
) -> bool {
    &&& all_packets(sets) == queue
    &&& forall|i: int| 0 <= i < sets.len() ==> uniform(#[trigger] sets[i], source, dest, max)
    &&& forall|i: int, j: int|
        0 <= i && j == i + 1 && j < sets.len() ==> (#[trigger] sets[i]).segment_size != (
        #[trigger] sets[j]).segment_size || full(sets[i], max)
}

/// What a [`UdxStream`] stands for.
#[verifier::ext_equal]
pub struct StreamModel {
    /// What came in.
    pub rx: ReassemblyModel,
    /// Data packets that were sent and not acknowledged, by number.
    pub outgoing: Map<u32, PacketModel>,
    /// Packets that are to go to the socket.
    pub send_queue: Seq<PacketRefModel>,
    /// Numbers of the packets that were acknowledged and not reported yet.
    pub acked: Seq<u32>,
    pub remote_id: u32,
    pub local_id: u32,
    /// The number under which the socket opened the stream; no other stream of
    /// the socket has it.
    pub source: u64,
    pub remote_addr: SocketAddr,
    /// The number of the next data packet.
    pub seq: u32,
    /// Stays zero: packets are not counted as they go to the socket.
    pub seq_flushed: u32,
    /// The highest acknowledgement from the remote.
    pub remote_acked: u32,
    /// How many bytes are sent and not acknowledged.
    pub inflight: nat,
    /// How many bytes may be.
    pub cwnd: nat,
    pub rtt: RttModel,
    /// In how many nanoseconds the timer is to fire, if it is to be set anew.
    pub timer: Option<nat>,
    /// Whether a task waits for data to read.
    pub read_waker: bool,
    /// Whether a task waits for room to write.
    pub write_waker: bool,
    /// Whether the driver waits for something to do.
    pub drive_waker: bool,
    /// Which tasks are to be woken.
    pub wakes: Wakes,
    /// Why the stream ended, once it did.
    pub error: Option<ErrorModel>,
    /// Whether a task waits for the end of the stream.
    pub on_close: bool,
    pub stats: StreamStats,
    pub state: StreamState,
}

impl StreamModel {
    /// A stream that was just opened.
    pub open spec fn initial(
        dest: SocketAddr,
        remote_id: u32,
        local_id: u32,
        source: u64,
    ) -> StreamModel {
        StreamModel {
            rx: ReassemblyModel::initial(),
            outgoing: Map::empty(),
            send_queue: Seq::empty(),
            acked: Seq::empty(),
            remote_id,
            local_id,
            source,
            remote_addr: dest,
            seq: 0,
            seq_flushed: 0,
            remote_acked: 0,
            inflight: 0,
            cwnd: 2 * UDX_MTU as nat,
            rtt: RttModel::initial(),
            timer: Some(RttModel::initial().rto),
            read_waker: false,
            write_waker: false,
            drive_waker: false,
            wakes: Wakes::none(),
            error: None,
            on_close: false,
            stats: StreamStats::zero(),
            state: StreamState::Open,
        }
    }

    /// Unacknowledged packets are data packets for the remote's stream, are
    /// numbered below `seq`, start with their header and fit a datagram.
    pub open spec fn outgoing_ok(self) -> bool {
        forall|key: u32| #[trigger]
            self.outgoing.contains_key(key) ==> {
                &&& key < self.seq
                &&& self.outgoing[key].header.seq == key
                &&& self.outgoing[key].header.stream_id == self.remote_id
                &&& self.outgoing[key].header.typ == UDX_HEADER_DATA
                &&& self.outgoing[key].header.data_offset == 0
                &&& self.outgoing[key].buf.take(UDX_HEADER_SIZE as int)
                    == self.outgoing[key].header.encoding()
                &&& UDX_HEADER_SIZE <= self.outgoing[key].buf.len() <= UDX_MTU
                &&& !self.outgoing[key].skip
            }
    }

    /// Queued packets fit a datagram.
    pub open spec fn queue_ok(self) -> bool {
        forall|i: int|
            0 <= i < self.send_queue.len() ==> UDX_HEADER_SIZE <= (
            #[trigger] self.send_queue[i]).packet().buf.len() <= UDX_MTU
    }

    /// The counters say how much is unacknowledged.
    pub open spec fn accounts_ok(self) -> bool {
        &&& self.inflight == total(self.outgoing, live_len(), self.seq as nat)
        &&& self.stats.inflight_bytes == total(self.outgoing, payload(), self.seq as nat)
        &&& self.stats.inflight_packets == total(self.outgoing, one(), self.seq as nat)
        &&& self.stats.inflight_bytes <= self.stats.tx_bytes
        &&& self.stats.inflight_packets <= self.stats.tx_packets
    }

    /// Window and bytes in flight are in their bounds.
    pub open spec fn window_ok(self) -> bool {
        &&& UDX_MTU <= self.cwnd <= max_window()
        &&& self.inflight <= max_window() + UDX_HEADER_SIZE
    }

    /// The stream has an error exactly when it is closed, and one that the
    /// remote closed is closed on this side too.
    pub open spec fn state_ok(self) -> bool {
        &&& self.error is Some == self.state.is_local_closed()
        &&& self.state.is_remote_closed() ==> self.state.is_local_closed()
    }

    /// What holds of a stream also while it is being closed.
    pub open spec fn wf_core(self) -> bool {
        &&& self.rx.wf()
        &&& self.rx.settled()
        &&& self.outgoing_ok()
        &&& self.queue_ok()
        &&& self.accounts_ok()
        &&& self.window_ok()
        &&& self.rtt.wf()
        &&& self.seq_flushed == 0
    }

    /// What holds of every stream.
    pub open spec fn wf(self) -> bool {
        self.wf_core() && self.state_ok()
    }

    /// Whether the counters have room for so many more packets and bytes that
    /// come in, and for the answers to them.
    pub open spec fn can_receive(self, packets: nat, bytes: nat) -> bool {
        &&& self.stats.rx_packets + packets <= usize::MAX
        &&& self.stats.rx_bytes + bytes <= usize::MAX
        &&& self.stats.tx_packets + 2 * packets + 1 <= usize::MAX
        &&& self.cwnd + UDX_MTU * packets <= max_window()
    }

    /// Whether the counters have room for the packets that a write of so many
    /// bytes sends.
    pub open spec fn can_send(self, bytes: nat) -> bool {
        let (packets, sent) = taken(self.inflight, self.cwnd, bytes);
        &&& self.seq + packets <= u32::MAX
        &&& self.stats.tx_packets + packets <= usize::MAX
        &&& self.stats.tx_bytes + sent <= usize::MAX
    }

    /// Whether the counters have room for one more packet to send.
    pub open spec fn can_answer(self) -> bool {
        self.stats.tx_packets < usize::MAX
    }

    pub open spec fn wake_read(self) -> StreamModel {
        if self.read_waker {
            StreamModel { read_waker: false, wakes: Wakes { read: true, ..self.wakes }, ..self }
        } else {
            self
        }
    }

    pub open spec fn wake_write(self) -> StreamModel {
        if self.write_waker {
            StreamModel { write_waker: false, wakes: Wakes { write: true, ..self.wakes }, ..self }
        } else {
            self
        }
    }

    pub open spec fn wake_drive(self) -> StreamModel {
        if self.drive_waker {
            StreamModel { drive_waker: false, wakes: Wakes { drive: true, ..self.wakes }, ..self }
        } else {
            self
        }
    }

    /// The header of a packet with the given type flags. After the stream was
    /// closed on this side no flag but END is sent.
    pub open spec fn header(self, typ: u32) -> Header {
        Header {
            stream_id: self.remote_id,
            typ: if self.state.is_local_closed() {
                typ & UDX_HEADER_END
            } else {
                typ
            },
            seq: self.seq,
            ack: self.rx.ack,
            data_offset: 0,
            recv_win: u32::MAX,
        }
    }

    /// A packet with the given type flags and body.
    pub open spec fn packet(self, typ: u32, body: Seq<u8>) -> PacketModel {
        PacketModel::fresh(self.remote_addr, self.header(typ), body)
    }

    /// The packet that only tells the remote what came in, and, after an
    /// error, that the stream ended.
    pub open spec fn state_packet(self) -> PacketModel {
        self.packet(
            if self.error is Some {
                UDX_HEADER_END
            } else {
                0
            },
            Seq::empty(),
        )
    }

    /// After a state packet was queued.
    pub open spec fn with_state_packet(self) -> StreamModel {
        StreamModel {
            send_queue: self.send_queue.push(PacketRefModel::Owned(self.state_packet())),
            stats: StreamStats {
                tx_packets: (self.stats.tx_packets + 1) as usize,
                ..self.stats
            },
            ..self
        }.wake_drive()
    }

    /// After the stream ended with an error: the remote is told, and all tasks
    /// are woken.
    pub open spec fn terminated(self, error: ErrorModel) -> StreamModel {
        StreamModel {
            error: Some(error),
            state: StreamState::of(true, self.state.is_remote_closed()),
            ..self
        }.with_state_packet().wake_read().wake_write()
    }

    /// Whether the stream has ended and everything it sent was acknowledged.
    pub open spec fn drained(self) -> bool {
        &&& self.error is Some
        &&& self.send_queue.len() == 0
        &&& forall|key: u32| !self.outgoing.contains_key(key)
    }

    /// After the packet `key`, which was in flight, was given up for lost: it
    /// waits to be sent again.
    pub open spec fn lost_one(self, key: u32) -> StreamModel {
        let packet = self.outgoing[key];
        StreamModel {
            outgoing: self.outgoing.insert(
                key,
                PacketModel { waiting: true, transmits: packet.transmits + 1, ..packet },
            ),
            inflight: (self.inflight - packet.buf.len()) as nat,
            ..self
        }
    }

    /// Gives up all packets in flight with numbers from `from` up to `to`. Stops
    /// at one that was sent too often, and says whether there was none.
    pub open spec fn lose(self, from: u32, to: u32) -> (StreamModel, bool)
        decreases to - from,
    {
        if from >= to {
            (self, true)
        } else if self.outgoing.contains_key(from) && !self.outgoing[from].waiting {
            if self.outgoing[from].transmits > UDX_MAX_TRANSMITS {
                (self, false)
            } else {
                self.lost_one(from).lose((from + 1) as u32, to)
            }
        } else {
            self.lose((from + 1) as u32, to)
        }
    }

    /// After the timer was looked at: the state, and whether the stream goes on.
    /// Where it fired with data underway, the window shrinks and all packets in
    /// flight are given up for lost.
    pub open spec fn checked_timeouts(self, fired: bool) -> (StreamModel, bool) {
        if !fired || self.remote_acked == self.seq {
            (self, true)
        } else {
            StreamModel {
                timer: Some(2 * self.rtt.rto),
                cwnd: shrunk(self.cwnd),
                ..self
            }.lose(self.remote_acked, self.seq)
        }
    }

    /// After the waiting packet `key` was queued again.
    pub open spec fn requeued(self, key: u32) -> StreamModel {
        let packet = PacketModel { waiting: false, ..self.outgoing[key] };
        StreamModel {
            outgoing: self.outgoing.insert(key, packet),
            inflight: self.inflight + packet.buf.len(),
            send_queue: self.send_queue.push(PacketRefModel::Shared(packet)),
            ..self
        }
    }

    /// Queues the waiting packets with numbers from `from` up to `to`, until the
    /// window has no room for the next.
    pub open spec fn flush(self, from: u32, to: u32) -> StreamModel
        decreases to - from,
    {
        if from >= to {
            self
        } else if self.outgoing.contains_key(from) && self.outgoing[from].waiting {
            if self.inflight + self.outgoing[from].buf.len() > self.cwnd {
                self
            } else {
                self.requeued(from).flush((from + 1) as u32, to)
            }
        } else {
            self.flush((from + 1) as u32, to)
        }
    }

    /// After waiting packets were queued as far as the window has room.
    pub open spec fn flushed(self) -> StreamModel {
        self.flush(self.remote_acked, self.seq)
    }

    /// The round trip estimate after the packet was acknowledged. Only a packet
    /// that went out and was given up exactly once counts.
    pub open spec fn rtt_after(self, packet: PacketModel, now: u64) -> RttModel {
        if packet.time_sent != 0 && packet.transmits == 1 {
            let millis = if now >= packet.time_sent {
                now - packet.time_sent
            } else {
                0
            };
            self.rtt.sampled((millis * 1_000_000) as nat)
        } else {
            self.rtt
        }
    }

    /// After a packet, which is no longer among the unacknowledged ones, was
    /// acknowledged at the time `now`.
    pub open spec fn packet_acked(self, packet: PacketModel, now: u64) -> StreamModel {
        StreamModel {
            inflight: if packet.waiting {
                self.inflight
            } else {
                (self.inflight - packet.buf.len()) as nat
            },
            stats: StreamStats {
                inflight_bytes: (self.stats.inflight_bytes - packet.data_len()) as usize,
                inflight_packets: (self.stats.inflight_packets - 1) as usize,
                ..self.stats
            },
            rtt: self.rtt_after(packet, now),
            send_queue: self.send_queue.map_values(
                |queued: PacketRefModel| queued.acked(packet.header.seq),
            ),
            acked: self.acked.push(packet.header.seq),
            ..self
        }
    }

    /// After the packet `key` was acknowledged, if it was not before.
    pub open spec fn ack_one(self, key: u32, now: u64) -> StreamModel {
        if self.outgoing.contains_key(key) {
            StreamModel { outgoing: self.outgoing.remove(key), ..self }.packet_acked(
                self.outgoing[key],
                now,
            )
        } else {
            self
        }
    }

    /// After the packets with numbers from `from` up to `to` were acknowledged.
    pub open spec fn ack_range(self, from: u32, to: u32, now: u64) -> StreamModel
        decreases to - from,
    {
        if from >= to {
            self
        } else {
            self.ack_one(from, now).ack_range((from + 1) as u32, to, now)
        }
    }

    /// After all ranges listed in `data` from the byte `at` on were
    /// acknowledged. A range is two numbers of four bytes; one that reaches the
    /// end of the data is not read.
    pub open spec fn sacked(self, data: Seq<u8>, at: int, now: u64) -> StreamModel
        decreases data.len() - at,
    {
        if at + 8 < data.len() {
            self.ack_range(
                le_value(data.subrange(at, at + 4)),
                le_value(data.subrange(at + 4, at + 8)),
                now,
            ).sacked(data, at + 8, now)
        } else {
            self
        }
    }

    /// After the remote acknowledged all packets below `ack`. Where that is new,
    /// a writer is woken if the window has room, and the timer starts anew.
    pub open spec fn remote_acked_to(self, ack: u32, now: u64) -> StreamModel {
        if ack <= self.remote_acked {
            self
        } else {
            let acked = StreamModel {
                remote_acked: ack,
                ..self.ack_range(self.remote_acked, ack, now)
            };
            let woken = if acked.inflight + UDX_MTU <= acked.cwnd {
                acked.wake_write()
            } else {
                acked
            };
            StreamModel { timer: Some(woken.rtt.rto), ..woken }
        }
    }

    /// After a data packet came in: what came in without a gap is acknowledged,
    /// and a reader is woken if the packet was the awaited one.
    pub open spec fn with_data(self, packet: IncomingModel) -> StreamModel {
        let stored = StreamModel {
            rx: self.rx.inserted(packet).advanced(),
            stats: StreamStats {
                rx_bytes: (self.stats.rx_bytes + packet.data.len()) as usize,
                ..self.stats
            },
            ..self
        };
        let woken = if packet.header.seq == self.rx.ack {
            stored.wake_read()
        } else {
            stored
        };
        woken.with_state_packet()
    }

    /// After a packet was counted.
    pub open spec fn counted(self) -> StreamModel {
        StreamModel {
            stats: StreamStats {
                rx_packets: (self.stats.rx_packets + 1) as usize,
                ..self.stats
            },
            ..self
        }
    }

    /// After the ranges that the packet says were received are noted.
    pub open spec fn noted_sacks(self, packet: IncomingModel, now: u64) -> StreamModel {
        if packet.header.has_flag(UDX_HEADER_SACK) {
            self.sacked(packet.data, 0, now)
        } else {
            self
        }
    }

    /// The error of the stream once the remote has closed it. That a stream was
    /// closed on this side stays its error: the remote only answers.
    pub open spec fn end_error(self) -> ErrorModel {
        if self.error == Some(ErrorModel::close_graceful()) {
            ErrorModel::close_graceful()
        } else {
            ErrorModel::closed_by_remote()
        }
    }

    /// After it is noted whether the packet ends the stream.
    pub open spec fn noted_end(self, packet: IncomingModel) -> StreamModel {
        if packet.header.has_flag(UDX_HEADER_END) {
            StreamModel {
                state: StreamState::of(self.state.is_local_closed(), true),
                ..self
            }.terminated(self.end_error())
        } else {
            self
        }
    }

    /// After the packet's data, if it has any, is taken in.
    pub open spec fn noted_data(self, packet: IncomingModel) -> StreamModel {
        if packet.header.has_flag(UDX_HEADER_DATA) {
            self.with_data(packet)
        } else {
            self
        }
    }

    /// After the window grew, if the packet acknowledges something new that was
    /// sent.
    pub open spec fn noted_ack(self, packet: IncomingModel) -> StreamModel {
        if self.remote_acked < packet.header.ack <= self.seq {
            StreamModel { cwnd: grown(self.cwnd), ..self }
        } else {
            self
        }
    }

    /// After a packet came in that passed the firewall.
    pub open spec fn passed(self, packet: IncomingModel, now: u64) -> StreamModel {
        self.counted().noted_sacks(packet, now).noted_end(packet).noted_data(packet).noted_ack(
            packet,
        )
    }

    /// After a packet came in, with the firewall's verdict on it.
    pub open spec fn received(self, packet: IncomingModel, pass: bool, now: u64) -> StreamModel {
        if pass {
            self.passed(packet, now)
        } else {
            self
        }
    }

    /// After several packets came in.
    pub open spec fn received_all(self, events: Seq<(IncomingModel, bool)>, now: u64) -> StreamModel
        decreases events.len(),
    {
        if events.len() == 0 {
            self
        } else {
            self.received(events[0].0, events[0].1, now).received_all(events.drop_first(), now)
        }
    }

    /// After the stream looked at what came in: the state, and whether the
    /// socket is still there. Where it is, the highest acknowledgement counts.
    pub open spec fn polled_incoming(
        self,
        events: Seq<(IncomingModel, bool)>,
        socket_gone: bool,
        now: u64,
    ) -> (StreamModel, bool) {
        let received = self.received_all(events, now);
        if socket_gone {
            (received, false)
        } else {
            (received.remote_acked_to(max_ack(events), now), true)
        }
    }

    /// After a data packet was sent.
    pub open spec fn data_sent(self, body: Seq<u8>) -> StreamModel {
        let packet = self.packet(UDX_HEADER_DATA, body);
        StreamModel {
            seq: (self.seq + 1) as u32,
            outgoing: self.outgoing.insert(self.seq, packet),
            send_queue: self.send_queue.push(PacketRefModel::Shared(packet)),
            inflight: self.inflight + packet.buf.len(),
            stats: StreamStats {
                inflight_bytes: (self.stats.inflight_bytes + body.len()) as usize,
                tx_bytes: (self.stats.tx_bytes + body.len()) as usize,
                tx_packets: (self.stats.tx_packets + 1) as usize,
                inflight_packets: (self.stats.inflight_packets + 1) as usize,
                ..self.stats
            },
            ..self
        }.wake_drive()
    }

    /// Cuts `buf` into data packets and sends them while the window has room:
    /// the state after that, and how many bytes were sent.
    pub open spec fn send_all(self, buf: Seq<u8>) -> (StreamModel, nat)
        decreases buf.len(),
    {
        if buf.len() == 0 || self.inflight + chunk(buf).len() > self.cwnd {
            (self, 0)
        } else {
            let n = chunk(buf).len();
            let (end, rest) = self.data_sent(chunk(buf)).send_all(buf.skip(n as int));
            (end, n + rest)
        }
    }

    /// A write: the state after it, and its result; none where the writer has
    /// to wait.
    pub open spec fn write(self, buf: Seq<u8>) -> (StreamModel, Option<Result<nat, ErrorModel>>) {
        match self.error {
            Some(error) => (self, Some(Err(error))),
            None => {
                let (end, written) = self.send_all(buf);
                if written == 0 && buf.len() > 0 {
                    (StreamModel { write_waker: true, ..self }, None)
                } else {
                    (end, Some(Ok(written)))
                }
            },
        }
    }

    /// A read into a buffer with the given room: the state after it, the bytes
    /// that it gives, and its result; none where the reader has to wait. A read
    /// that gives bytes, or finishes a packet without any, succeeds.
    pub open spec fn read(self, room: nat) -> (
        StreamModel,
        Seq<u8>,
        Option<Result<(), ErrorModel>>,
    ) {
        let (rx, bytes, finished) = self.rx.read(room);
        let end = StreamModel { rx, ..self };
        if finished || bytes.len() > 0 {
            (end, bytes, Some(Ok(())))
        } else {
            match self.error {
                Some(error) => (end, bytes, Some(Err(error))),
                None => (StreamModel { read_waker: true, ..end }, bytes, None),
            }
        }
    }

    /// After this side closed the stream, and a task waits for its end.
    pub open spec fn closed_here(self) -> StreamModel {
        StreamModel { on_close: true, ..self.terminated(ErrorModel::close_graceful()) }
    }

    /// After one of so many handles was dropped. The stream ends with the last one
    /// beside the driver's.
    pub open spec fn handle_dropped(self, handles: usize) -> StreamModel {
        if handles <= 2 {
            self.terminated(ErrorModel::close_graceful())
        } else {
            self
        }
    }

    /// The first half of a round of the driver: the state after it, and what it
    /// comes to.
    pub open spec fn start_round(
        self,
        events: Seq<(IncomingModel, bool)>,
        socket_gone: bool,
        now: u64,
    ) -> (StreamModel, RoundStart) {
        let start = StreamModel { drive_waker: false, ..self };
        let (end, there) = start.polled_incoming(events, socket_gone, now);
        if self.drained() {
            (
                StreamModel { on_close: false, ..start },
                RoundStart::Finished(self.on_close, self.local_id),
            )
        } else if there {
            (end, RoundStart::Timer)
        } else {
            (end.terminated(ErrorModel::driver_dropped()), RoundStart::Again)
        }
    }

    /// The second half of a round of the driver: the state after it, and the
    /// packets that are to be sent; none where the stream failed.
    pub open spec fn end_round(self, fired: bool) -> (StreamModel, Option<Seq<PacketRefModel>>) {
        let (checked, ok) = self.checked_timeouts(fired);
        if ok {
            (
                StreamModel { send_queue: Seq::empty(), drive_waker: true, ..checked.flushed() },
                Some(checked.flushed().send_queue),
            )
        } else {
            (checked.terminated(ErrorModel::retransmits_exhausted()), None)
        }
    }

    /// After the socket sent the packet `key` at the time `now`.
    pub open spec fn sent(self, key: u32, now: u64) -> StreamModel {
        if self.outgoing.contains_key(key) {
            StreamModel {
                outgoing: self.outgoing.insert(
                    key,
                    PacketModel { time_sent: now, ..self.outgoing[key] },
                ),
                ..self
            }
        } else {
            self
        }
    }
}

/// The highest acknowledgement among the packets.
pub open spec fn max_ack(events: Seq<(IncomingModel, bool)>) -> u32
    decreases events.len(),
{
    if events.len() == 0 {
        0
    } else {
        let rest = max_ack(events.drop_first());
        let first = events[0].0.header.ack;
        if first < rest {
            rest
        } else {
            first
        }
    }
}

/// How many bytes the packets carry.
pub open spec fn data_bytes(events: Seq<(IncomingModel, bool)>) -> nat
    decreases events.len(),
{
    if events.len() == 0 {
        0
    } else {
        events[0].0.data.len() + data_bytes(events.drop_first())
    }
}

/// Whether every packet is read from a place inside of its data.
pub open spec fn offsets_ok(events: Seq<(IncomingModel, bool)>) -> bool {
    forall|i: int|
        0 <= i < events.len() ==> (#[trigger] events[i]).0.read_offset <= events[i].0.data.len()
}

/// The result that stands for the given one.
pub open spec fn write_result(result: Option<Result<usize, UdxError>>) -> Option<
    Result<nat, ErrorModel>,
> {
    match result {
        None => None,
        Some(Ok(n)) => Some(Ok(n as nat)),
        Some(Err(error)) => Some(Err(error@)),
    }
}

/// The result that stands for the given one.
pub open spec fn read_result(result: Option<Result<(), UdxError>>) -> Option<
    Result<(), ErrorModel>,
> {
    match result {
        None => None,
        Some(Ok(_)) => Some(Ok(())),
        Some(Err(error)) => Some(Err(error@)),
    }
}

/// The packets that stand for the given ones.
pub open spec fn packet_models(packets: Map<u32, Packet>) -> Map<u32, PacketModel> {
    packets.map_values(|packet: Packet| packet@)
}

/// How many packets may go together on a socket that takes `max_gso_segments`.
pub open spec fn segment_limit(max_gso_segments: usize) -> nat {
    if max_gso_segments < MAX_SEGMENTS {
        max_gso_segments as nat
    } else {
        MAX_SEGMENTS as nat
    }
}

/// What the first half of a round of a stream's driver comes to.
pub enum RoundStart {
    /// The stream with that number is over; whether a task is to be told.
    Finished(bool, u32),
    /// There is more to do at once.
    Again,
    /// The timer is to be looked at.
    Timer,
}

/// What a round of a stream's driver comes to.
#[derive(Debug)]
pub enum Drive {
    /// The stream is over: the socket is to forget it, and the task that waits
    /// for its end, if there is one, is to be told.
    Finished { notify_close: bool, local_id: u32 },
    /// There is more to do at once.
    Again,
    /// The timer is to be looked at.
    Timer,
    /// The sets are to be sent; after that the driver waits to be woken.
    Wait(Vec<PacketSet>),
}

/// A reliable stream of bytes to and from one remote.
#[derive(Debug)]
pub struct UdxStream {
    rx: Reassembly,
    outgoing: HashMap<u32, Packet>,
    send_queue: VecDeque<PacketRef>,
    acked: Vec<u32>,
    remote_id: u32,
    local_id: u32,
    source: u64,
    remote_addr: SocketAddr,
    seq: u32,
    seq_flushed: u32,
    remote_acked: u32,
    inflight: usize,
    cwnd: usize,
    rtt: RttEstimator,
    timer: Option<u128>,
    read_waker: bool,
    write_waker: bool,
    drive_waker: bool,
    wakes: Wakes,
    error: Option<UdxError>,
    on_close: bool,
    stats: StreamStats,
    state: StreamState,
}

impl View for UdxStream {
    type V = StreamModel;

    closed spec fn view(&self) -> StreamModel {
        StreamModel {
            rx: self.rx@,
            outgoing: packet_models(self.outgoing@),
            send_queue: ref_models(self.send_queue@),
            acked: self.acked@,
            remote_id: self.remote_id,
            local_id: self.local_id,
            source: self.source,
            remote_addr: self.remote_addr,
            seq: self.seq,
            seq_flushed: self.seq_flushed,
            remote_acked: self.remote_acked,
            inflight: self.inflight as nat,
            cwnd: self.cwnd as nat,
            rtt: self.rtt@,
            timer: match self.timer {
                Some(nanos) => Some(nanos as nat),
                None => None,
            },
            read_waker: self.read_waker,
            write_waker: self.write_waker,
            drive_waker: self.drive_waker,
            wakes: self.wakes,
            error: match self.error {
                Some(error) => Some(error@),
                None => None,
            },
            on_close: self.on_close,
            stats: self.stats,
            state: self.state,
        }
    }
}

/// A change at one number changes the three accounts by what that packet adds
/// to each.
proof fn lemma_accounts(
    before: Map<u32, PacketModel>,
    after: Map<u32, PacketModel>,
    n: u32,
    changed: u32,
)
    requires
        changed < n,
        forall|key: u32|
            key != changed ==> {
                &&& #[trigger] before.contains_key(key) == after.contains_key(key)
                &&& before.contains_key(key) ==> before[key] == after[key]
            },
    ensures
        total(before, live_len(), n as nat) + share(after, live_len(), changed) == total(
            after,
            live_len(),
            n as nat,
        ) + share(before, live_len(), changed),
        total(before, payload(), n as nat) + share(after, payload(), changed) == total(
            after,
            payload(),
            n as nat,
        ) + share(before, payload(), changed),
        total(before, one(), n as nat) + share(after, one(), changed) == total(
            after,
            one(),
            n as nat,
        ) + share(before, one(), changed),
        share(before, live_len(), changed) <= total(before, live_len(), n as nat),
        share(before, payload(), changed) <= total(before, payload(), n as nat),
        share(before, one(), changed) <= total(before, one(), n as nat),
{
    lemma_total_change(before, after, live_len(), n as nat, changed);
    lemma_total_change(before, after, payload(), n as nat, changed);
    lemma_total_change(before, after, one(), n as nat, changed);
    lemma_total_at_least(before, live_len(), n as nat, changed);
    lemma_total_at_least(before, payload(), n as nat, changed);
    lemma_total_at_least(before, one(), n as nat, changed);
}

/// Giving up a packet keeps the stream's invariant.
pub proof fn lemma_lost_one(stream: StreamModel, key: u32)
    requires
        stream.wf_core(),
        stream.outgoing.contains_key(key),
        !stream.outgoing[key].waiting,
    ensures
        stream.lost_one(key).wf_core(),
        stream.outgoing[key].buf.len() <= stream.inflight,
{
    lemma_accounts(stream.outgoing, stream.lost_one(key).outgoing, stream.seq, key);
}

/// Queueing a waiting packet keeps the stream's invariant.
pub proof fn lemma_requeued(stream: StreamModel, key: u32)
    requires
        stream.wf_core(),
        stream.outgoing.contains_key(key),
        stream.outgoing[key].waiting,
        stream.inflight + stream.outgoing[key].buf.len() <= stream.cwnd,
    ensures
        stream.requeued(key).wf_core(),
{
    lemma_accounts(stream.outgoing, stream.requeued(key).outgoing, stream.seq, key);
}

/// Acknowledging a packet keeps the stream's invariant, and its counters allow
/// for it.
pub proof fn lemma_ack_one(stream: StreamModel, key: u32, now: u64)
    requires
        stream.wf_core(),
    ensures
        stream.ack_one(key, now).wf_core(),
        stream.outgoing.contains_key(key) ==> {
            let packet = stream.outgoing[key];
            &&& packet.waiting || packet.buf.len() <= stream.inflight
            &&& packet.data_len() <= stream.stats.inflight_bytes
            &&& 1 <= stream.stats.inflight_packets
        },
{
    if stream.outgoing.contains_key(key) {
        lemma_accounts(stream.outgoing, stream.outgoing.remove(key), stream.seq, key);
        let packet = stream.outgoing[key];
        let after = stream.ack_one(key, now);
        assert forall|i: int| 0 <= i < after.send_queue.len() implies UDX_HEADER_SIZE <= (
        #[trigger] after.send_queue[i]).packet().buf.len() <= UDX_MTU by {
            assert(after.send_queue[i].packet().buf == stream.send_queue[i].packet().buf);
        }
    }
}

/// Sending a data packet keeps the stream's invariant.
pub proof fn lemma_data_sent(stream: StreamModel, body: Seq<u8>)
    requires
        stream.wf_core(),
        !stream.state.is_local_closed(),
        body.len() <= UDX_MAX_DATA_SIZE,
        stream.inflight + body.len() <= stream.cwnd,
        stream.seq < u32::MAX,
        stream.stats.tx_packets < usize::MAX,
        stream.stats.tx_bytes + body.len() <= usize::MAX,
    ensures
        stream.data_sent(body).wf_core(),
{
    let after = stream.data_sent(body);
    let n = stream.seq as nat;
    lemma_total_same(stream.outgoing, after.outgoing, live_len(), n);
    lemma_total_same(stream.outgoing, after.outgoing, payload(), n);
    lemma_total_same(stream.outgoing, after.outgoing, one(), n);
    let packet = stream.packet(UDX_HEADER_DATA, body);
    assert(packet.buf.len() == UDX_HEADER_SIZE + body.len());
    assert(packet.buf.take(UDX_HEADER_SIZE as int) =~= packet.header.encoding());
    assert(share(after.outgoing, live_len(), stream.seq) == packet.buf.len());
    assert(share(after.outgoing, payload(), stream.seq) == body.len());
    assert(share(after.outgoing, one(), stream.seq) == 1);
    assert(total(after.outgoing, live_len(), n + 1) == total(after.outgoing, live_len(), n)
        + packet.buf.len());
    assert(total(after.outgoing, payload(), n + 1) == total(after.outgoing, payload(), n)
        + body.len());
    assert(total(after.outgoing, one(), n + 1) == total(after.outgoing, one(), n) + 1);
}

/// What an acknowledgement leaves as it was.
pub open spec fn same_but_acks(before: StreamModel, after: StreamModel) -> bool {
    after == StreamModel {
        outgoing: after.outgoing,
        inflight: after.inflight,
        stats: StreamStats {
            inflight_bytes: after.stats.inflight_bytes,
            inflight_packets: after.stats.inflight_packets,
            ..before.stats
        },
        rtt: after.rtt,
        send_queue: after.send_queue,
        acked: after.acked,
        ..before
    }
}

/// Acknowledging a range changes nothing but the accounts of what was sent.
pub proof fn lemma_ack_range_frame(stream: StreamModel, from: u32, to: u32, now: u64)
    ensures
        same_but_acks(stream, stream.ack_range(from, to, now)),
    decreases to - from,
{
    if from < to {
        lemma_ack_range_frame(stream.ack_one(from, now), (from + 1) as u32, to, now);
    }
}

/// Acknowledging ranges changes nothing but the accounts of what was sent.
pub proof fn lemma_sacked_frame(stream: StreamModel, data: Seq<u8>, at: int, now: u64)
    ensures
        same_but_acks(stream, stream.sacked(data, at, now)),
    decreases data.len() - at,
{
    if at + 8 < data.len() {
        let from = le_value(data.subrange(at, at + 4));
        let to = le_value(data.subrange(at + 4, at + 8));
        lemma_ack_range_frame(stream, from, to, now);
        lemma_sacked_frame(stream.ack_range(from, to, now), data, at + 8, now);
    }
}

/// What taking in a packet's end flag and data does to the counters.
proof fn lemma_end_and_data_room(stream: StreamModel, packet: IncomingModel)
    requires
        stream.stats.tx_packets + 2 <= usize::MAX,
        stream.stats.rx_bytes + packet.data.len() <= usize::MAX,
    ensures
        ({
            let ended = stream.noted_end(packet);
            let stored = ended.noted_data(packet);
            &&& ended.stats.tx_packets <= stream.stats.tx_packets + 1
            &&& ended.stats.rx_bytes == stream.stats.rx_bytes
            &&& ended.stats.rx_packets == stream.stats.rx_packets
            &&& stored.stats.tx_packets <= stream.stats.tx_packets + 2
            &&& stored.stats.rx_bytes <= stream.stats.rx_bytes + packet.data.len()
            &&& stored.stats.rx_packets == stream.stats.rx_packets
            &&& stored.cwnd == stream.cwnd
        }),
{
}

/// One packet uses up the room of one packet.
proof fn lemma_room_left(
    stream: StreamModel,
    packet: IncomingModel,
    pass: bool,
    now: u64,
    packets: nat,
    bytes: nat,
)
    requires
        stream.can_receive(packets + 1, bytes + packet.data.len()),
    ensures
        stream.received(packet, pass, now).can_receive(packets, bytes),
        stream.can_receive(1, packet.data.len()),
{
    assert(UDX_MTU * (packets + 1) == UDX_MTU * packets + UDX_MTU) by (nonlinear_arith);
    assert(UDX_MTU * packets >= 0) by (nonlinear_arith);
    lemma_sacked_frame(stream.counted(), packet.data, 0, now);
    lemma_end_and_data_room(stream.counted().noted_sacks(packet, now), packet);
    law_window_grows(stream.cwnd);
}

/// Marks the packet `seq` in the queue as acknowledged.
fn mark_queue_acked(queue: &mut VecDeque<PacketRef>, seq: u32)
    ensures
        ref_models(final(queue)@) == ref_models(old(queue)@).map_values(
            |queued: PacketRefModel| queued.acked(seq),
        ),
{
    let n: usize = queue.len();
    let mut i: usize = 0;
    let ghost all = queue@;
    while i < n
        invariant
            i <= n,
            n == all.len(),
            queue@.len() == n,
            forall|j: int| 0 <= j < n - i ==> #[trigger] queue@[j] == all[j + i],
            forall|j: int|
                n - i <= j < n ==> (#[trigger] queue@[j])@ == all[j - (n - i)]@.acked(seq),
        decreases n - i,
    {
        let ghost before = queue@;
        if let Some(packet) = queue.pop_front() {
            assert(packet == all[i as int]);
            queue.push_back(packet.acked(seq));
            i = i + 1;
            assert forall|j: int| n - i <= j < n implies (#[trigger] queue@[j])@ == all[j - (n
                - i)]@.acked(seq) by {
                if j < n - 1 {
                    assert(queue@[j] == before[j + 1]);
                }
            }
        }
    }
    assert(ref_models(queue@) =~= ref_models(all).map_values(
        |queued: PacketRefModel| queued.acked(seq),
    ));
}

impl UdxStream {
    /// Opens a stream to the remote's stream `remote_id` at `dest`. The socket
    /// knows it as `source`, which is to be a number that none of its other
    /// streams has.
    pub fn connect(dest: SocketAddr, remote_id: u32, local_id: u32, source: u64) -> (stream: Self)
        ensures
            stream@ == StreamModel::initial(dest, remote_id, local_id, source),
            stream@.wf(),
    {
        let rtt = RttEstimator::new();
        let stream = UdxStream {
            rx: Reassembly::new(),
            outgoing: HashMap::new(),
            send_queue: VecDeque::new(),
            acked: Vec::new(),
            remote_id,
            local_id,
            source,
            remote_addr: dest,
            seq: 0,
            seq_flushed: 0,
            remote_acked: 0,
            inflight: 0,
            cwnd: 2 * UDX_MTU,
            rtt,
            timer: Some(rtt.rto()),
            read_waker: false,
            write_waker: false,
            drive_waker: false,
            wakes: Wakes { read: false, write: false, drive: false },
            error: None,
            on_close: false,
            stats: StreamStats::default(),
            state: StreamState::Open,
        };
        assert(stream@ =~= StreamModel::initial(dest, remote_id, local_id, source));
        stream
    }

    /// Ends the stream from this side; [`Drive::Finished`] tells when all that
    /// was sent is acknowledged.
    pub fn close(&mut self)
        requires
            old(self)@.wf(),
            old(self)@.can_answer(),
        ensures
            final(self)@ == old(self)@.closed_here(),
            final(self)@.wf(),
    {
        self.terminate(UdxError::close_graceful());
        self.on_close = true;
    }

    /// Whether a side has closed the stream.
    pub fn closed(&self) -> (closed: bool)
        ensures
            closed == (self@.state.is_local_closed() || self@.state.is_remote_closed()),
    {
        self.state.closed()
    }

    pub fn remote_addr(&self) -> (addr: SocketAddr)
        ensures
            addr == self@.remote_addr,
    {
        self.remote_addr
    }

    pub fn local_id(&self) -> (id: u32)
        ensures
            id == self@.local_id,
    {
        self.local_id
    }

    /// The number under which the socket opened the stream.
    pub fn source(&self) -> (source: u64)
        ensures
            source == self@.source,
    {
        self.source
    }

    pub fn remote_id(&self) -> (id: u32)
        ensures
            id == self@.remote_id,
    {
        self.remote_id
    }

    pub fn stats(&self) -> (stats: StreamStats)
        ensures
            stats == self@.stats,
    {
        self.stats
    }

    /// Ends the stream when a handle of it is dropped and, beside that one, at
    /// most the driver's is left.
    pub fn drop_handle(&mut self, handles: usize)
        requires
            old(self)@.wf(),
            old(self)@.can_answer(),
        ensures
            final(self)@ == old(self)@.handle_dropped(handles),
            final(self)@.wf(),
    {
        if handles <= 2 {
            self.terminate(UdxError::close_graceful());
        }
    }

    /// Takes the tasks that are to be woken.
    pub fn take_wakes(&mut self) -> (wakes: Wakes)
        ensures
            wakes == old(self)@.wakes,
            final(self)@ == (StreamModel { wakes: Wakes::none(), ..old(self)@ }),
    {
        let wakes = self.wakes;
        self.wakes = Wakes { read: false, write: false, drive: false };
        wakes
    }

    /// Takes the nanoseconds in which the timer is to fire, if it is to be set
    /// anew.
    pub fn take_timer(&mut self) -> (nanos: Option<u128>)
        ensures
            match nanos {
                Some(nanos) => old(self)@.timer == Some(nanos as nat),
                None => old(self)@.timer is None,
            },
            final(self)@ == (StreamModel { timer: None, ..old(self)@ }),
    {
        let nanos = self.timer;
        self.timer = None;
        nanos
    }

    /// Takes the numbers of the packets that were acknowledged: the socket need
    /// not send them any more.
    pub fn take_acked(&mut self) -> (acked: Vec<u32>)
        ensures
            acked@ == old(self)@.acked,
            final(self)@ == (StreamModel { acked: Seq::empty(), ..old(self)@ }),
    {
        let mut acked: Vec<u32> = Vec::new();
        std::mem::swap(&mut acked, &mut self.acked);
        acked
    }

    /// Notes that the socket sent the packet `seq` at the time `now`, in
    /// milliseconds.
    pub fn mark_sent(&mut self, seq: u32, now: u64)
        requires
            old(self)@.wf(),
        ensures
            final(self)@ == old(self)@.sent(seq, now),
            final(self)@.wf(),
    {
        if let Some(packet) = self.outgoing.remove(&seq) {
            let packet = Packet { time_sent: now, ..packet };
            self.outgoing.insert(seq, packet);
            assert(self@ =~= old(self)@.sent(seq, now));
            proof {
                lemma_accounts(old(self)@.outgoing, self@.outgoing, self@.seq, seq);
            }
        } else {
            assert(self@ =~= old(self)@);
        }
    }

    /// Whether [`StreamModel::can_receive`] holds.
    pub fn can_receive(&self, packets: usize, bytes: usize) -> (can: bool)
        ensures
            can == self@.can_receive(packets as nat, bytes as nat),
    {
        let count: u128 = packets as u128;
        let mtu: u128 = UDX_MTU as u128;
        assert(mtu * count <= 1400 * 0xffff_ffff_ffff_ffff) by (nonlinear_arith)
            requires
                mtu == 1400,
                count <= 0xffff_ffff_ffff_ffff,
        ;
        assert(mtu * count == UDX_MTU * packets);
        let max: u128 = usize::MAX as u128;
        &&& self.stats.rx_packets as u128 + count <= max
        &&& self.stats.rx_bytes as u128 + bytes as u128 <= max
        &&& self.stats.tx_packets as u128 + 2 * count + 1 <= max
        &&& self.cwnd as u128 + mtu * count + 2 * mtu <= max
    }

    /// Whether [`StreamModel::can_send`] holds.
    pub fn can_send(&self, bytes: usize) -> (can: bool)
        ensures
            can == self@.can_send(bytes as nat),
    {
        let (packets, sent) = count_taken(self.inflight, self.cwnd, bytes);
        let max: u128 = usize::MAX as u128;
        &&& packets <= u32::MAX as u128 - self.seq as u128
        &&& packets <= max - self.stats.tx_packets as u128
        &&& sent <= max - self.stats.tx_bytes as u128
    }

    /// Whether [`StreamModel::can_answer`] holds.
    pub fn can_answer(&self) -> (can: bool)
        ensures
            can == self@.can_answer(),
    {
        self.stats.tx_packets < usize::MAX
    }

    fn wake_reader(&mut self)
        ensures
            final(self)@ == old(self)@.wake_read(),
    {
        if self.read_waker {
            self.read_waker = false;
            self.wakes = Wakes { read: true, ..self.wakes };
        }
    }

    fn wake_writer(&mut self)
        ensures
            final(self)@ == old(self)@.wake_write(),
    {
        if self.write_waker {
            self.write_waker = false;
            self.wakes = Wakes { write: true, ..self.wakes };
        }
    }

    /// Wakes the driver, if it waits.
    pub fn wake_driver(&mut self)
        ensures
            final(self)@ == old(self)@.wake_drive(),
    {
        if self.drive_waker {
            self.drive_waker = false;
            self.wakes = Wakes { drive: true, ..self.wakes };
        }
    }

    fn create_header(&self, typ: u32) -> (header: Header)
        ensures
            header == self@.header(typ),
    {
        let typ: u32 = if self.state.local_closed() {
            typ & UDX_HEADER_END
        } else {
            typ
        };
        Header {
            stream_id: self.remote_id,
            typ,
            seq: self.seq,
            ack: self.rx.ack(),
            data_offset: 0,
            recv_win: u32::MAX,
        }
    }

    fn create_packet(&self, typ: u32, body: &[u8]) -> (packet: Packet)
        requires
            UDX_HEADER_SIZE + body@.len() <= usize::MAX,
        ensures
            packet@ == self@.packet(typ, body@),
    {
        let header = self.create_header(typ);
        let dest = self.remote_addr;
        Packet::new(dest, header, body)
    }

    fn send_state_packet(&mut self)
        requires
            old(self)@.wf_core(),
            old(self)@.can_answer(),
        ensures
            final(self)@ == old(self)@.with_state_packet(),
            final(self)@.wf_core(),
    {
        let typ: u32 = if self.error.is_some() {
            UDX_HEADER_END
        } else {
            0
        };
        let body: Vec<u8> = Vec::new();
        let packet = self.create_packet(typ, body.as_slice());
        assert(body@ =~= Seq::empty());
        assert(packet@ == self@.state_packet());
        assert(packet@.buf.len() == UDX_HEADER_SIZE);
        self.send_queue.push_back(PacketRef::Owned(packet));
        self.wake_driver();
        self.stats.tx_packets = self.stats.tx_packets + 1;
        assert(self@ =~= old(self)@.with_state_packet());
    }

    /// Ends the stream with an error.
    pub fn terminate(&mut self, error: UdxError)
        requires
            old(self)@.wf_core(),
            old(self)@.can_answer(),
        ensures
            final(self)@ == old(self)@.terminated(error@),
            final(self)@.wf(),
    {
        self.error = Some(error);
        self.state.close_local();
        self.send_state_packet();
        self.wake_reader();
        self.wake_writer();
        self.wake_driver();
        assert(self@ =~= old(self)@.terminated(error@));
    }

    /// Whether the stream has ended and everything it sent was acknowledged.
    pub fn closed_and_drained(&self) -> (drained: bool)
        ensures
            drained == self@.drained(),
    {
        proof {
            let keys = self.outgoing@.dom();
            if keys.len() != 0 {
                let key = keys.choose();
                assert(keys.contains(key)) by {
                    if forall|key: u32| !keys.contains(key) {
                        assert(keys =~= Set::empty());
                    }
                }
                assert(self@.outgoing.contains_key(key));
            } else {
                assert(keys =~= Set::empty());
                assert forall|key: u32| !self@.outgoing.contains_key(key) by {
                    assert(!keys.contains(key));
                }
            }
        }
        self.error.is_some() && self.send_queue.len() == 0 && self.outgoing.len() == 0
    }

    /// Looks at the timer, which has fired or not.
    pub fn poll_check_timeouts(&mut self, fired: bool) -> (result: Result<(), UdxError>)
        requires
            old(self)@.wf(),
        ensures
            final(self)@ == old(self)@.checked_timeouts(fired).0,
            match result {
                Ok(_) => old(self)@.checked_timeouts(fired).1,
                Err(error) => {
                    &&& !old(self)@.checked_timeouts(fired).1
                    &&& error@ == ErrorModel::retransmits_exhausted()
                },
            },
            final(self)@.wf(),
    {
        if !fired {
            return Ok(());
        }
        if self.remote_acked == self.seq {
            return Ok(());
        }
        // Schedule the next timeout, and shrink the window.
        self.timer = Some(2 * self.rtt.rto());
        self.cwnd = shrink(self.cwnd);
        let ghost start = self@;
        let ghost whole = start.lose(start.remote_acked, start.seq);
        assert(whole == old(self)@.checked_timeouts(fired));
        let end: u32 = self.seq;
        let mut i: u32 = self.remote_acked;
        // Consider all packets lost, which is simple, and common too.
        while i < end
            invariant
                self@.wf(),
                end == self@.seq,
                self@.lose(i, end) == whole,
                whole == old(self)@.checked_timeouts(fired),
            decreases end - i,
        {
            let ghost before = self@;
            let retransmit: Option<bool> = match self.outgoing.get(&i) {
                Some(packet) => {
                    assert(packet@ == self@.outgoing[i]);
                    if packet.waiting {
                        None
                    } else {
                        Some(packet.transmits <= UDX_MAX_TRANSMITS as usize)
                    }
                },
                None => None,
            };
            if let Some(may_retransmit) = retransmit {
                if !may_retransmit {
                    return Err(
                        UdxError::new(ErrorKind::TimedOut, "Max retransmits reached without ack"),
                    );
                }
                if let Some(packet) = self.outgoing.remove(&i) {
                    assert(packet@ == before.outgoing[i]);
                    proof {
                        lemma_lost_one(before, i);
                    }
                    self.inflight = self.inflight - packet.len();
                    let transmits: usize = packet.transmits + 1;
                    let packet = Packet { waiting: true, transmits, ..packet };
                    self.outgoing.insert(i, packet);
                    assert(self@ =~= before.lost_one(i));
                }
            }
            i = i + 1;
        }
        Ok(())
    }

    /// Queues packets that wait to be sent again, as far as the window has room.
    pub fn flush_waiting_packets(&mut self)
        requires
            old(self)@.wf(),
        ensures
            final(self)@ == old(self)@.flushed(),
            final(self)@.wf(),
    {
        let end: u32 = self.seq;
        let mut i: u32 = self.remote_acked;
        let mut room = true;
        while room && i < end
            invariant
                self@.wf(),
                end == self@.seq,
                old(self)@.flushed() == if room {
                    self@.flush(i, end)
                } else {
                    self@
                },
            decreases end - i + if room {
                1int
            } else {
                0
            },
        {
            let ghost before = self@;
            let waiting: Option<usize> = match self.outgoing.get(&i) {
                Some(packet) => {
                    assert(packet@ == self@.outgoing[i]);
                    if packet.waiting {
                        Some(packet.len())
                    } else {
                        None
                    }
                },
                None => None,
            };
            if let Some(len) = waiting {
                assert(self@.outgoing.contains_key(i));
                if self.inflight + len > self.cwnd {
                    room = false;
                } else {
                    if let Some(packet) = self.outgoing.remove(&i) {
                        assert(packet@ == before.outgoing[i]);
                        proof {
                            lemma_requeued(before, i);
                        }
                        self.inflight = self.inflight + len;
                        let packet = Packet { waiting: false, ..packet };
                        let queued = packet.duplicate();
                        self.outgoing.insert(i, packet);
                        self.send_queue.push_back(PacketRef::Shared(queued));
                        assert(self@ =~= before.requeued(i));
                    }
                    i = i + 1;
                }
            } else {
                i = i + 1;
            }
        }
    }

    /// Takes all queued packets, cut into sets of packets of one size, for a
    /// socket that takes at most `max_gso_segments` packets together.
    pub fn poll_transmit(&mut self, max_gso_segments: usize) -> (sets: Vec<PacketSet>)
        requires
            old(self)@.wf(),
        ensures
            final(self)@ == (StreamModel { send_queue: Seq::empty(), ..old(self)@ }),
            final(self)@.wf(),
            batched(
                old(self)@.send_queue,
                set_models(sets@),
                old(self)@.source,
                old(self)@.remote_addr,
                segment_limit(max_gso_segments),
            ),
            max_gso_segments > 0 ==> forall|i: int|
                0 <= i < sets@.len() ==> (#[trigger] sets@[i])@.sendable(),
    {
        let max: usize = if max_gso_segments < MAX_SEGMENTS {
            max_gso_segments
        } else {
            MAX_SEGMENTS
        };
        let source: u64 = self.source;
        let dest = self.remote_addr;
        let mut segment_size: usize = 0;
        let mut queue: Vec<PacketRef> = Vec::new();
        let mut sets: Vec<PacketSet> = Vec::new();
        let ghost all = self@.send_queue;
        assert(all_packets(set_models(sets@)) + ref_models(queue@) + all =~= all);
        while self.send_queue.len() > 0
            invariant
                max == segment_limit(max_gso_segments),
                (StreamModel { send_queue: all, ..self@ }) == old(self)@,
                self@.queue_ok(),
                source == old(self)@.source,
                dest == old(self)@.remote_addr,
                all_packets(set_models(sets@)) + ref_models(queue@) + self@.send_queue == all,
                forall|i: int|
                    0 <= i < sets@.len() ==> uniform(
                        #[trigger] set_models(sets@)[i],
                        source,
                        dest,
                        max as nat,
                    ),
                forall|i: int, j: int|
                    0 <= i && j == i + 1 && j < sets@.len() ==> (#[trigger] set_models(
                        sets@,
                    )[i]).segment_size != (#[trigger] set_models(sets@)[j]).segment_size || full(
                        set_models(sets@)[i],
                        max as nat,
                    ),
                forall|i: int|
                    0 <= i < queue@.len() ==> (#[trigger] ref_models(queue@)[i]).packet().buf.len()
                        == segment_size,
                max > 0 ==> queue@.len() <= max,
                sets@.len() > 0 ==> {
                    &&& queue@.len() > 0
                    &&& set_models(sets@).last().segment_size != Some(segment_size) || full(
                        set_models(sets@).last(),
                        max as nat,
                    )
                },
            decreases self.send_queue@.len(),
        {
            let ghost rest = self@.send_queue;
            if let Some(packet) = self.send_queue.pop_front() {
                assert(packet@ == rest[0]);
                assert(rest =~= seq![packet@] + self@.send_queue);
                assert(self@.queue_ok()) by {
                    assert forall|i: int| 0 <= i < self@.send_queue.len() implies UDX_HEADER_SIZE
                        <= (#[trigger] self@.send_queue[i]).packet().buf.len() <= UDX_MTU by {
                        assert(self@.send_queue[i] == rest[i + 1]);
                    }
                }
                let ghost sets_before = set_models(sets@);
                let ghost queue_before = ref_models(queue@);
                let len: usize = packet.packet().len();
                if len != segment_size || queue.len() == max {
                    if queue.len() > 0 {
                        let mut run: Vec<PacketRef> = Vec::new();
                        std::mem::swap(&mut run, &mut queue);
                        let set = PacketSet::new(source, dest, run, segment_size);
                        sets.push(set);
                        proof {
                            assert(set_models(sets@) =~= sets_before.push(set@));
                            assert(set_models(sets@).drop_last() =~= sets_before);
                            assert(set@.packets =~= queue_before);
                            assert(ref_models(queue@) =~= Seq::empty());
                        }
                    }
                    segment_size = len;
                }
                let ghost run_before = ref_models(queue@);
                queue.push(packet);
                proof {
                    assert(ref_models(queue@) =~= run_before.push(packet@));
                    let taken = all_packets(set_models(sets@)) + ref_models(queue@);
                    assert(taken =~= all_packets(sets_before) + queue_before + seq![packet@]);
                    assert(taken + self@.send_queue =~= all_packets(sets_before) + queue_before
                        + rest);
                }
            }
        }
        assert(self@.send_queue =~= Seq::empty());
        if queue.len() > 0 {
            let ghost sets_before = set_models(sets@);
            let ghost queue_before = ref_models(queue@);
            let set = PacketSet::new(source, dest, queue, segment_size);
            sets.push(set);
            proof {
                assert(set_models(sets@) =~= sets_before.push(set@));
                assert(set_models(sets@).drop_last() =~= sets_before);
                assert(set@.packets =~= queue_before);
            }
        }
        assert(all_packets(set_models(sets@)) =~= all);
        proof {
            let models = set_models(sets@);
            if max > 0 {
                assert forall|i: int| 0 <= i < sets@.len() implies (
                #[trigger] sets@[i])@.sendable() by {
                    lemma_sendable(models, all, i, source, dest, max as nat);
                }
            }
        }
        sets
    }
}

/// Sets of at most ten packets that fit a datagram can be sent.
proof fn lemma_sendable(
    sets: Seq<PacketSetModel>,
    queue: Seq<PacketRefModel>,
    i: int,
    source: u64,
    dest: SocketAddr,
    max: nat,
)
    requires
        0 <= i < sets.len(),
        0 < max <= MAX_SEGMENTS,
        uniform(sets[i], source, dest, max),
        all_packets(sets) == queue,
        forall|j: int|
            0 <= j < queue.len() ==> UDX_HEADER_SIZE <= (#[trigger] queue[j]).packet().buf.len()
                <= UDX_MTU,
    ensures
        sets[i].sendable(),
    decreases sets.len(),
{
    let front = all_packets(sets.drop_last());
    if i == sets.len() - 1 {
        let first = sets[i].packets[0];
        assert(queue[front.len() as int] == first);
        let size = first.packet().buf.len();
        let n = sets[i].packets.len();
        assert(n * size <= 14000) by (nonlinear_arith)
            requires
                n <= 10,
                size <= 1400,
        ;
        lemma_live_len(sets[i].packets, size);
        let live = live_packets(sets[i].packets).len();
        assert(live * size <= n * size) by (nonlinear_arith)
            requires
                live <= n,
        ;
    } else {
        assert forall|j: int| 0 <= j < front.len() implies UDX_HEADER_SIZE <= (
        #[trigger] front[j]).packet().buf.len() <= UDX_MTU by {
            assert(queue[j] == front[j]);
        }
        lemma_sendable(sets.drop_last(), front, i, source, dest, max);
    }
}

impl UdxStream {
    /// Takes note that a packet, which is no longer kept, was acknowledged at
    /// the time `now`.
    fn handle_remote_ack_for_packet(&mut self, packet: &Packet, now: u64)
        requires
            old(self)@.rtt.wf(),
            packet@.waiting || packet@.buf.len() <= old(self)@.inflight,
            packet@.data_len() <= old(self)@.stats.inflight_bytes,
            1 <= old(self)@.stats.inflight_packets,
        ensures
            final(self)@ == old(self)@.packet_acked(packet@, now),
    {
        if !packet.waiting {
            self.inflight = self.inflight - packet.len();
        }
        self.stats.inflight_bytes = self.stats.inflight_bytes - packet.data_len();
        self.stats.inflight_packets = self.stats.inflight_packets - 1;
        if packet.time_sent != 0 && packet.transmits == 1 {
            let millis: u64 = if now >= packet.time_sent {
                now - packet.time_sent
            } else {
                0
            };
            self.rtt.sample(millis as u128 * 1_000_000);
        }
        // If the packet is queued for sending, it need not be sent any more.
        mark_queue_acked(&mut self.send_queue, packet.header.seq);
        self.acked.push(packet.header.seq);
        assert(self@ =~= old(self)@.packet_acked(packet@, now));
    }

    /// Takes note that the packet `seq` was acknowledged, if it was not before.
    fn handle_remote_ack(&mut self, seq: u32, now: u64)
        requires
            old(self)@.wf_core(),
        ensures
            final(self)@ == old(self)@.ack_one(seq, now),
            final(self)@.wf_core(),
    {
        proof {
            lemma_ack_one(old(self)@, seq, now);
        }
        if let Some(packet) = self.outgoing.remove(&seq) {
            assert(packet@ == old(self)@.outgoing[seq]);
            assert(self@ =~= StreamModel {
                outgoing: old(self)@.outgoing.remove(seq),
                ..old(self)@
            });
            self.handle_remote_ack_for_packet(&packet, now);
        } else {
            assert(self@ =~= old(self)@);
        }
    }

    /// Takes note that the packets from `from` up to `to` were acknowledged.
    fn handle_remote_ack_range(&mut self, from: u32, to: u32, now: u64)
        requires
            old(self)@.wf_core(),
        ensures
            final(self)@ == old(self)@.ack_range(from, to, now),
            final(self)@.wf_core(),
    {
        let mut i: u32 = from;
        while i < to
            invariant
                self@.wf_core(),
                self@.ack_range(i, to, now) == old(self)@.ack_range(from, to, now),
            decreases to - i,
        {
            self.handle_remote_ack(i, now);
            i = i + 1;
        }
    }

    /// Takes note that the remote acknowledged all packets below `ack`.
    pub fn handle_incoming_max_remote_ack(&mut self, ack: u32, now: u64)
        requires
            old(self)@.wf(),
        ensures
            final(self)@ == old(self)@.remote_acked_to(ack, now),
            final(self)@.wf(),
    {
        if ack <= self.remote_acked {
            return;
        }
        proof {
            lemma_ack_range_frame(old(self)@, old(self)@.remote_acked, ack, now);
        }
        self.handle_remote_ack_range(self.remote_acked, ack, now);
        self.remote_acked = ack;
        if self.inflight + UDX_MTU <= self.cwnd {
            self.wake_writer();
        }
        // Things are moving forward: the timer starts anew.
        self.timer = Some(self.rtt.rto());
        assert(self@ =~= old(self)@.remote_acked_to(ack, now));
    }

    /// Takes note of the ranges that a packet says were received.
    fn handle_incoming_sacks(&mut self, packet: &IncomingPacket, now: u64)
        requires
            old(self)@.wf_core(),
        ensures
            final(self)@ == old(self)@.sacked(packet@.data, 0, now),
            final(self)@.wf_core(),
    {
        let buf = bytes_as_slice(&packet.buf);
        let len: usize = buf.len();
        let mut i: usize = 0;
        while len >= 8 && i < len - 8
            invariant
                i <= len,
                len == buf@.len(),
                buf@ == packet@.data,
                self@.wf_core(),
                self@.sacked(buf@, i as int, now) == old(self)@.sacked(buf@, 0, now),
            decreases len - i,
        {
            let start: u32 = read_u32_le(&buf[i..i + 4]);
            let end: u32 = read_u32_le(&buf[i + 4..i + 8]);
            self.handle_remote_ack_range(start, end, now);
            i = i + 8;
        }
    }

    /// Takes in a data packet.
    fn handle_incoming_data(&mut self, packet: IncomingPacket)
        requires
            old(self)@.wf(),
            old(self)@.can_answer(),
            old(self)@.stats.rx_bytes + packet@.data.len() <= usize::MAX,
            packet@.read_offset <= packet@.data.len(),
        ensures
            final(self)@ == old(self)@.with_data(packet@),
            final(self)@.wf(),
    {
        self.stats.rx_bytes = self.stats.rx_bytes + packet.data_len();
        let next_in_line = packet.seq() == self.rx.ack();
        self.rx.insert(packet);
        self.rx.advance();
        if next_in_line {
            self.wake_reader();
        }
        self.send_state_packet();
        assert(self@ =~= old(self)@.with_data(packet@));
    }

    /// Notes whether the packet ends the stream.
    fn handle_incoming_end(&mut self, packet: &IncomingPacket)
        requires
            old(self)@.wf(),
            old(self)@.can_answer(),
        ensures
            final(self)@ == old(self)@.noted_end(packet@),
            final(self)@.wf(),
    {
        if packet.has_type(UDX_HEADER_END) {
            // The remote's answer does not change that this side closed first.
            let closed_here = match &self.error {
                Some(error) => error.is_close_graceful(),
                None => false,
            };
            let error = if closed_here {
                UdxError::close_graceful()
            } else {
                UdxError::closed_by_remote()
            };
            self.state.close_remote();
            assert(self@ =~= StreamModel {
                state: StreamState::of(old(self)@.state.is_local_closed(), true),
                ..old(self)@
            });
            self.terminate(error);
        }
    }

    /// Grows the window, if the packet acknowledges something new that was sent.
    fn handle_incoming_ack(&mut self, header: &Header)
        requires
            old(self)@.wf(),
            old(self)@.cwnd + UDX_MTU <= max_window(),
        ensures
            final(self)@ == if old(self)@.remote_acked < header.ack <= old(self)@.seq {
                StreamModel { cwnd: grown(old(self)@.cwnd), ..old(self)@ }
            } else {
                old(self)@
            },
            final(self)@.wf(),
    {
        // An acknowledgement of what was never sent is out of bounds.
        if header.ack > self.seq {
            return;
        }
        if header.ack > self.remote_acked {
            proof {
                law_window_grows(self@.cwnd);
            }
            self.cwnd = grow(self.cwnd);
        }
    }

    /// Counts a packet that came in.
    fn count_incoming(&mut self)
        requires
            old(self)@.wf(),
            old(self)@.stats.rx_packets < usize::MAX,
        ensures
            final(self)@ == old(self)@.counted(),
            final(self)@.wf(),
    {
        self.stats.rx_packets = self.stats.rx_packets + 1;
    }

    /// Notes the ranges that the packet says were received.
    fn handle_incoming_ranges(&mut self, packet: &IncomingPacket, now: u64)
        requires
            old(self)@.wf(),
        ensures
            final(self)@ == old(self)@.noted_sacks(packet@, now),
            same_but_acks(old(self)@, final(self)@),
            final(self)@.wf(),
    {
        if packet.has_type(UDX_HEADER_SACK) {
            proof {
                lemma_sacked_frame(self@, packet@.data, 0, now);
            }
            self.handle_incoming_sacks(packet, now);
        }
    }

    /// Takes in a packet at the time `now`, in milliseconds; `pass` is the
    /// firewall's verdict on it.
    pub fn handle_incoming(&mut self, packet: IncomingPacket, pass: bool, now: u64)
        requires
            old(self)@.wf(),
            old(self)@.can_receive(1, packet@.data.len()),
            packet@.read_offset <= packet@.data.len(),
        ensures
            final(self)@ == old(self)@.received(packet@, pass, now),
            final(self)@.wf(),
    {
        if !pass {
            return;
        }
        let header = packet.header;
        let ghost model = packet@;
        proof {
            assert(UDX_MTU * 1 == UDX_MTU);
        }
        self.count_incoming();
        self.handle_incoming_ranges(&packet, now);
        proof {
            lemma_end_and_data_room(self@, model);
        }
        self.handle_incoming_end(&packet);
        if packet.has_type(UDX_HEADER_DATA) {
            self.handle_incoming_data(packet);
        }
        self.handle_incoming_ack(&header);
    }

    /// Takes in all packets that wait at the time `now`, each with the
    /// firewall's verdict on it; `socket_gone` tells that no more can come.
    pub fn poll_incoming(
        &mut self,
        events: VecDeque<(EventIncoming, bool)>,
        socket_gone: bool,
        now: u64,
    ) -> (result: Result<(), UdxError>)
        requires
            old(self)@.wf(),
            old(self)@.can_receive(events@.len(), data_bytes(event_models(events@))),
            offsets_ok(event_models(events@)),
        ensures
            ({
                let (end, there) = old(self)@.polled_incoming(
                    event_models(events@),
                    socket_gone,
                    now,
                );
                &&& final(self)@ == end
                &&& match result {
                    Ok(_) => there,
                    Err(error) => !there && error@ == ErrorModel::driver_dropped(),
                }
            }),
            final(self)@.wf(),
            final(self)@.can_receive(0, 0),
    {
        let mut events = events;
        let mut remote_ack: u32 = 0;
        let ghost all = event_models(events@);
        while events.len() > 0
            invariant
                self@.wf(),
                self@.can_receive(events@.len(), data_bytes(event_models(events@))),
                offsets_ok(event_models(events@)),
                self@.received_all(event_models(events@), now) == old(self)@.received_all(all, now),
                max_ack(all) == if remote_ack < max_ack(event_models(events@)) {
                    max_ack(event_models(events@))
                } else {
                    remote_ack
                },
            decreases events@.len(),
        {
            let ghost waiting = event_models(events@);
            if let Some((event, pass)) = events.pop_front() {
                match event {
                    EventIncoming::Packet(packet) => {
                        let ghost rest = event_models(events@);
                        proof {
                            assert(waiting[0] == (packet@, pass));
                            assert(waiting.drop_first() =~= rest);
                            assert forall|i: int| 0 <= i < rest.len() implies (
                            #[trigger] rest[i]).0.read_offset <= rest[i].0.data.len() by {
                                assert(rest[i] == waiting[i + 1]);
                            }
                            lemma_room_left(
                                self@,
                                packet@,
                                pass,
                                now,
                                rest.len(),
                                data_bytes(rest),
                            );
                        }
                        let ack: u32 = packet.ack();
                        if ack > remote_ack {
                            remote_ack = ack;
                        }
                        self.handle_incoming(packet, pass, now);
                    },
                }
            }
        }
        assert(event_models(events@) =~= Seq::empty());
        if socket_gone {
            return Err(
                UdxError::new(ErrorKind::BrokenPipe, "Socket driver future was dropped"),
            );
        }
        proof {
            lemma_ack_range_frame(self@, self@.remote_acked, remote_ack, now);
        }
        self.handle_incoming_max_remote_ack(remote_ack, now);
        Ok(())
    }

    fn set_drive_waker(&mut self, waits: bool)
        requires
            old(self)@.wf(),
        ensures
            final(self)@ == (StreamModel { drive_waker: waits, ..old(self)@ }),
            final(self)@.wf(),
    {
        self.drive_waker = waits;
    }

    /// Starts a round of the stream's driver: takes in all packets that wait at
    /// the time `now`, as [`UdxStream::poll_incoming`] does. After
    /// [`Drive::Timer`], the round ends with [`UdxStream::poll_drive_timer`].
    pub fn poll_drive(
        &mut self,
        events: VecDeque<(EventIncoming, bool)>,
        socket_gone: bool,
        now: u64,
    ) -> (outcome: Drive)
        requires
            old(self)@.wf(),
            old(self)@.can_receive(events@.len(), data_bytes(event_models(events@))),
            offsets_ok(event_models(events@)),
        ensures
            ({
                let (end, start) = old(self)@.start_round(
                    event_models(events@),
                    socket_gone,
                    now,
                );
                &&& final(self)@ == end
                &&& match outcome {
                    Drive::Finished { notify_close, local_id } => start == RoundStart::Finished(
                        notify_close,
                        local_id,
                    ),
                    Drive::Again => start is Again,
                    Drive::Timer => start is Timer && final(self)@.can_answer(),
                    Drive::Wait(_) => false,
                }
            }),
            final(self)@.wf(),
    {
        self.set_drive_waker(false);
        if self.closed_and_drained() {
            let notify_close = self.on_close;
            self.on_close = false;
            return Drive::Finished { notify_close, local_id: self.local_id };
        }
        match self.poll_incoming(events, socket_gone, now) {
            Ok(_) => Drive::Timer,
            Err(error) => {
                self.terminate(error);
                Drive::Again
            },
        }
    }

    /// Ends a round of the stream's driver: looks at the timer, which has fired
    /// or not, queues what waited for room, and takes what is to be sent.
    pub fn poll_drive_timer(&mut self, fired: bool, max_gso_segments: usize) -> (outcome: Drive)
        requires
            old(self)@.wf(),
            old(self)@.can_answer(),
        ensures
            ({
                let (end, queue) = old(self)@.end_round(fired);
                &&& final(self)@ == end
                &&& match outcome {
                    Drive::Again => queue is None,
                    Drive::Wait(sets) => queue matches Some(queue) && batched(
                        queue,
                        set_models(sets@),
                        old(self)@.source,
                        old(self)@.remote_addr,
                        segment_limit(max_gso_segments),
                    ),
                    _ => false,
                }
            }),
            final(self)@.wf(),
            max_gso_segments > 0 ==> (outcome matches Drive::Wait(sets) ==> forall|i: int|
                0 <= i < sets@.len() ==> (#[trigger] sets@[i])@.sendable()),
    {
        let ghost start = self@;
        proof {
            lemma_lose_frame(
                StreamModel {
                    timer: Some(2 * start.rtt.rto),
                    cwnd: shrunk(start.cwnd),
                    ..start
                },
                start.remote_acked,
                start.seq,
            );
        }
        match self.poll_check_timeouts(fired) {
            Ok(_) => {},
            Err(error) => {
                self.terminate(error);
                return Drive::Again;
            },
        }
        proof {
            lemma_flush_frame(self@, self@.remote_acked, self@.seq);
        }
        self.flush_waiting_packets();
        let sets = self.poll_transmit(max_gso_segments);
        self.set_drive_waker(true);
        Drive::Wait(sets)
    }

    /// Sends the first bytes of `buf` in one data packet, if the window has room
    /// for them; returns how many.
    fn send_data_packet(&mut self, buf: &[u8]) -> (len: usize)
        requires
            old(self)@.wf(),
            old(self)@.error is None,
            old(self)@.inflight + chunk(buf@).len() <= old(self)@.cwnd ==> {
                &&& old(self)@.seq < u32::MAX
                &&& old(self)@.stats.tx_packets < usize::MAX
                &&& old(self)@.stats.tx_bytes + chunk(buf@).len() <= usize::MAX
            },
        ensures
            old(self)@.inflight + chunk(buf@).len() > old(self)@.cwnd ==> len == 0 && final(self)@
                == old(self)@,
            old(self)@.inflight + chunk(buf@).len() <= old(self)@.cwnd ==> len == chunk(buf@).len()
                && final(self)@ == old(self)@.data_sent(chunk(buf@)),
            final(self)@.wf(),
    {
        let len: usize = if buf.len() < UDX_MAX_DATA_SIZE {
            buf.len()
        } else {
            UDX_MAX_DATA_SIZE
        };
        if self.inflight + len > self.cwnd {
            return 0;
        }
        let body = &buf[0..len];
        assert(body@ =~= chunk(buf@));
        proof {
            lemma_data_sent(self@, body@);
        }
        let packet = self.create_packet(UDX_HEADER_DATA, body);
        let seq: u32 = packet.seq();
        self.seq = self.seq + 1;
        self.stats.inflight_bytes = self.stats.inflight_bytes + packet.data_len();
        self.stats.tx_bytes = self.stats.tx_bytes + packet.data_len();
        self.stats.tx_packets = self.stats.tx_packets + 1;
        self.stats.inflight_packets = self.stats.inflight_packets + 1;
        self.inflight = self.inflight + packet.len();
        let queued = packet.duplicate();
        self.outgoing.insert(seq, packet);
        self.send_queue.push_back(PacketRef::Shared(queued));
        self.wake_driver();
        assert(self@ =~= old(self)@.data_sent(chunk(buf@)));
        len
    }

    /// Sends as much of `buf` as the window has room for, and returns how much
    /// that was; nothing where the writer has to wait for room.
    pub fn poll_write(&mut self, buf: &[u8]) -> (result: Option<Result<usize, UdxError>>)
        requires
            old(self)@.wf(),
            old(self)@.error is None ==> old(self)@.can_send(buf@.len()),
        ensures
            final(self)@ == old(self)@.write(buf@).0,
            write_result(result) == old(self)@.write(buf@).1,
            final(self)@.wf(),
    {
        if let Some(error) = &self.error {
            return Some(Err(error.clone()));
        }
        let mut written: usize = 0;
        let mut room = true;
        let ghost whole = self@.send_all(buf@);
        assert(buf@.skip(0) =~= buf@);
        while room && written < buf.len()
            invariant
                written <= buf@.len(),
                self@.wf(),
                self@.error is None,
                self@.can_send((buf@.len() - written) as nat),
                whole == if room {
                    let (end, rest) = self@.send_all(buf@.skip(written as int));
                    (end, (written + rest) as nat)
                } else {
                    (self@, written as nat)
                },
            decreases buf@.len() - written + if room {
                1int
            } else {
                0
            },
        {
            let rest = &buf[written..buf.len()];
            assert(rest@ =~= buf@.skip(written as int));
            let n: usize = self.send_data_packet(rest);
            if n == 0 {
                room = false;
            } else {
                assert(rest@.skip(n as int) =~= buf@.skip(written + n));
                written = written + n;
            }
        }
        proof {
            if room {
                assert(buf@.skip(written as int) =~= Seq::empty());
            }
        }
        if written == 0 && buf.len() > 0 {
            self.write_waker = true;
            None
        } else {
            Some(Ok(written))
        }
    }

    /// Reads what came in, as far as the buffer has room; nothing where the
    /// reader has to wait for more. A closed stream gives its error once nothing
    /// is left to read.
    pub fn poll_read(&mut self, buf: &mut ReadBuf) -> (result: Option<Result<(), UdxError>>)
        requires
            old(self)@.wf(),
        ensures
            ({
                let room = (read_buf_capacity(*old(buf)) - read_buf_filled(*old(buf)).len()) as nat;
                let (end, bytes, outcome) = old(self)@.read(room);
                &&& final(self)@ == end
                &&& read_buf_filled(*final(buf)) == read_buf_filled(*old(buf)) + bytes
                &&& read_result(result) == outcome
            }),
            read_buf_capacity(*final(buf)) == read_buf_capacity(*old(buf)),
            final(self)@.wf(),
    {
        let room: usize = read_buf_remaining(buf);
        let did_read = self.rx.read_next(buf);
        if did_read || read_buf_remaining(buf) < room {
            return Some(Ok(()));
        }
        if let Some(error) = &self.error {
            return Some(Err(error.clone()));
        }
        self.read_waker = true;
        None
    }
}

/// Queueing packets again changes nothing but the queue and what is in flight.
pub proof fn lemma_flush_frame(stream: StreamModel, from: u32, to: u32)
    ensures
        ({
            let after = stream.flush(from, to);
            after == StreamModel {
                outgoing: after.outgoing,
                inflight: after.inflight,
                send_queue: after.send_queue,
                ..stream
            }
        }),
    decreases to - from,
{
    if from < to {
        lemma_flush_frame(stream.requeued(from), (from + 1) as u32, to);
        lemma_flush_frame(stream, (from + 1) as u32, to);
    }
}

/// Giving up packets changes no counter of what was sent.
pub proof fn lemma_lose_frame(stream: StreamModel, from: u32, to: u32)
    ensures
        ({
            let after = stream.lose(from, to).0;
            after == StreamModel { outgoing: after.outgoing, inflight: after.inflight, ..stream }
        }),
    decreases to - from,
{
    if from < to {
        lemma_lose_frame(stream.lost_one(from), (from + 1) as u32, to);
        lemma_lose_frame(stream, (from + 1) as u32, to);
    }
}

} // verus!
