//! What streams promise: bytes arrive as they were sent and in order, what is
//! acknowledged is no longer kept, the window bounds what is in flight, and a
//! closed stream stays closed. The modules below say what each step does to a
//! stream or a socket.

use vstd::prelude::*;

use crate::addr::SocketAddr;
use crate::congestion::{law_window_shrinks, shrunk};
use crate::constants::{
    UDX_HEADER_DATA, UDX_HEADER_END, UDX_HEADER_SIZE, UDX_MAX_DATA_SIZE, UDX_MAX_TRANSMITS,
};
use crate::error::ErrorModel;
use crate::packet::{
    law_header_is_read_back, Header, IncomingModel, PacketModel, PacketRefModel, PacketSetModel,
};
use crate::reassembly::{
    law_first_missing, law_read_in_order, lemma_unread_same, lemma_unread_split, unread_between,
    ReassemblyModel,
};
use crate::socket::{Arrival, SocketModel};
use crate::stream::{
    all_packets, batched, chunk, live_len, max_ack, one, payload, taken, StreamModel,
    StreamState,
};
use crate::totals::{lemma_total_none, share, total};

pub mod closing;
pub mod receiving;
pub mod sending;
pub mod simple_streams;
pub mod sockets;
pub mod wire;

verus! {

/// The parts, one after the other.
pub open spec fn joined(parts: Seq<Seq<u8>>) -> Seq<u8>
    decreases parts.len(),
{
    if parts.len() == 0 {
        Seq::empty()
    } else {
        joined(parts.drop_last()) + parts.last()
    }
}

/// The bytes of joined sequences are those of the one and those of the other.
pub proof fn lemma_joined_concat(front: Seq<Seq<u8>>, back: Seq<Seq<u8>>)
    ensures
        joined(front + back) == joined(front) + joined(back),
    decreases back.len(),
{
    if back.len() == 0 {
        assert(front + back =~= front);
        assert(joined(front) + joined(back) =~= joined(front));
    } else {
        lemma_joined_concat(front, back.drop_last());
        assert((front + back).drop_last() =~= front + back.drop_last());
        assert(joined(front) + joined(back) =~= joined(front) + joined(back.drop_last())
            + back.last());
    }
}

/// One part alone.
pub proof fn lemma_joined_one(part: Seq<u8>)
    ensures
        joined(seq![part]) == part,
{
    assert(seq![part].drop_last() =~= Seq::empty());
    assert(joined(seq![part].drop_last()) =~= Seq::empty());
    assert(joined(seq![part]) =~= part);
}

/// Whether a data packet that came in is one of those that were sent: its body
/// is the one that was sent under its number.
pub open spec fn genuine(packet: IncomingModel, sent: Seq<Seq<u8>>) -> bool {
    &&& packet.header.seq < sent.len()
    &&& packet.data == sent[packet.header.seq as int]
    &&& packet.read_offset == 0
}

/// Whether what a receiver holds is right, for a sender that sent the bodies
/// `sent`, after the reader was given the bytes `delivered`: those bytes, and
/// the readable ones after them, are the bodies below `ack`, one after the
/// other.
pub open spec fn holds(rx: ReassemblyModel, sent: Seq<Seq<u8>>, delivered: Seq<u8>) -> bool {
    &&& rx.wf()
    &&& rx.ack <= sent.len() <= u32::MAX
    &&& forall|key: u32| #[trigger]
        rx.incoming.contains_key(key) ==> {
            &&& key < sent.len()
            &&& rx.incoming[key].data == sent[key as int]
            &&& key > rx.read_cursor || key >= rx.ack ==> rx.incoming[key].read_offset == 0
        }
    &&& delivered + rx.readable() == joined(sent.take(rx.ack as int))
}

/// Whether a receiver agrees with a sender: what it holds is right, and it has
/// counted all that came in.
pub open spec fn agrees(rx: ReassemblyModel, sent: Seq<Seq<u8>>, delivered: Seq<u8>) -> bool {
    holds(rx, sent, delivered) && rx.settled()
}

/// Packets that are unread and genuine hold the bodies that were sent.
proof fn lemma_unread_is_sent(
    incoming: Map<u32, IncomingModel>,
    sent: Seq<Seq<u8>>,
    from: int,
    to: int,
)
    requires
        0 <= from <= to <= sent.len() <= u32::MAX,
        forall|key: u32|
            from <= key < to ==> (#[trigger] incoming[key]).data == sent[key as int]
                && incoming[key].read_offset == 0,
    ensures
        unread_between(incoming, from, to) == joined(sent.subrange(from, to)),
    decreases to - from,
{
    if from < to {
        lemma_unread_is_sent(incoming, sent, from + 1, to);
        let body = sent[from];
        assert(incoming[from as u32].data == sent[from]);
        assert(incoming[from as u32].unread() =~= body);
        assert(sent.subrange(from, to) =~= seq![body] + sent.subrange(from + 1, to));
        lemma_joined_concat(seq![body], sent.subrange(from + 1, to));
        lemma_joined_one(body);
    } else {
        assert(sent.subrange(from, to) =~= Seq::empty());
    }
}

/// A new receiver agrees with every sender.
pub proof fn law_new_receiver_agrees(sent: Seq<Seq<u8>>)
    requires
        sent.len() <= u32::MAX,
    ensures
        agrees(ReassemblyModel::initial(), sent, Seq::empty()),
{
    let rx = ReassemblyModel::initial();
    assert(sent.take(0) =~= Seq::empty());
    assert(Seq::<u8>::empty() + rx.readable() =~= Seq::empty());
}

/// Taking in a genuine packet leaves what the receiver holds right.
pub proof fn law_inserting_holds(
    rx: ReassemblyModel,
    packet: IncomingModel,
    sent: Seq<Seq<u8>>,
    delivered: Seq<u8>,
)
    requires
        holds(rx, sent, delivered),
        genuine(packet, sent),
    ensures
        holds(rx.inserted(packet), sent, delivered),
{
    let after = rx.inserted(packet);
    lemma_unread_same(rx.incoming, after.incoming, rx.read_cursor as int, rx.ack as int);
}

/// Counting what came in leaves the receiver in agreement with the sender.
pub proof fn law_advancing_agrees(
    rx: ReassemblyModel,
    sent: Seq<Seq<u8>>,
    delivered: Seq<u8>,
)
    requires
        holds(rx, sent, delivered),
    ensures
        agrees(rx.advanced(), sent, delivered),
{
    let after = rx.advanced();
    law_first_missing(rx.incoming, rx.ack);
    if after.ack > rx.ack {
        assert(rx.incoming.contains_key((after.ack - 1) as u32));
    }
    let cursor = rx.read_cursor as int;
    let ack = rx.ack as int;
    let end = after.ack as int;
    lemma_unread_split(after.incoming, cursor, ack, end);
    assert forall|key: u32| ack <= key < end implies (#[trigger] after.incoming[key]).data
        == sent[key as int] && after.incoming[key].read_offset == 0 by {
        assert(rx.incoming.contains_key(key));
    }
    lemma_unread_is_sent(after.incoming, sent, ack, end);
    assert(sent.take(end) =~= sent.take(ack) + sent.subrange(ack, end));
    lemma_joined_concat(sent.take(ack), sent.subrange(ack, end));
    assert(delivered + after.readable() =~= delivered + rx.readable() + unread_between(
        after.incoming,
        ack,
        end,
    ));
}

/// Taking in a genuine packet, in whatever order and however often it comes,
/// leaves the receiver in agreement with the sender.
pub proof fn law_receiving_agrees(
    rx: ReassemblyModel,
    packet: IncomingModel,
    sent: Seq<Seq<u8>>,
    delivered: Seq<u8>,
)
    requires
        agrees(rx, sent, delivered),
        genuine(packet, sent),
    ensures
        agrees(rx.inserted(packet).advanced(), sent, delivered),
{
    law_inserting_holds(rx, packet, sent, delivered);
    law_advancing_agrees(rx.inserted(packet), sent, delivered);
}

/// A read leaves the packets that it does not touch as they are.
proof fn lemma_read_keeps_packets(rx: ReassemblyModel, room: nat)
    requires
        rx.wf(),
    ensures
        forall|key: u32| #[trigger]
            rx.read(room).0.incoming.contains_key(key) ==> {
                &&& rx.incoming.contains_key(key)
                &&& rx.read(room).0.incoming[key].data == rx.incoming[key].data
                &&& key > rx.read(room).0.read_cursor ==> rx.read(room).0.incoming[key]
                    == rx.incoming[key]
            },
        rx.read(room).0.read_cursor >= rx.read_cursor,
    decreases rx.ack - rx.read_cursor,
{
    if rx.read_cursor < rx.ack {
        let cursor = rx.read_cursor;
        assert(rx.incoming.contains_key(cursor));
        let unread = rx.incoming[cursor].unread();
        if unread.len() <= room {
            let next = ReassemblyModel {
                incoming: rx.incoming.remove(cursor),
                read_cursor: (cursor + 1) as u32,
                ..rx
            };
            lemma_read_keeps_packets(next, (room - unread.len()) as nat);
        }
    }
}

/// A read leaves the receiver in agreement with the sender: the bytes that it
/// gives continue those that were given before.
pub proof fn law_reading_agrees(
    rx: ReassemblyModel,
    room: nat,
    sent: Seq<Seq<u8>>,
    delivered: Seq<u8>,
)
    requires
        agrees(rx, sent, delivered),
    ensures
        agrees(rx.read(room).0, sent, delivered + rx.read(room).1),
{
    let (end, bytes, _) = rx.read(room);
    law_read_in_order(rx, room);
    lemma_read_keeps_packets(rx, room);
    assert(bytes + end.readable() =~= rx.readable());
    assert(delivered + bytes + end.readable() =~= delivered + rx.readable());
}

/// Once no body is missing, what was delivered and what can be read is all that
/// was sent, in order. Before that, the packet numbered `ack` is missing, and
/// its arrival gets the receiver further.
pub proof fn law_nothing_is_lost(
    rx: ReassemblyModel,
    sent: Seq<Seq<u8>>,
    delivered: Seq<u8>,
    packet: IncomingModel,
)
    requires
        agrees(rx, sent, delivered),
    ensures
        rx.ack == sent.len() ==> delivered + rx.readable() == joined(sent),
        rx.ack < sent.len() && genuine(packet, sent) && packet.header.seq == rx.ack
            ==> rx.inserted(packet).advanced().ack > rx.ack,
{
    if rx.ack == sent.len() {
        assert(sent.take(rx.ack as int) =~= sent);
    }
    law_first_missing(rx.inserted(packet).incoming, rx.ack);
}

/// A stream that takes in a packet stays in agreement with its sender, if data
/// packets are genuine; whatever else the packet says, and whether or not it
/// passes the firewall.
pub proof fn law_stream_receiving_agrees(
    stream: StreamModel,
    packet: IncomingModel,
    pass: bool,
    now: u64,
    sent: Seq<Seq<u8>>,
    delivered: Seq<u8>,
)
    requires
        agrees(stream.rx, sent, delivered),
        packet.header.has_flag(UDX_HEADER_DATA) ==> genuine(packet, sent),
    ensures
        agrees(stream.received(packet, pass, now).rx, sent, delivered),
{
    if pass {
        lemma_sacked_keeps_rx(stream.counted(), packet.data, 0, now);
        if packet.header.has_flag(UDX_HEADER_DATA) {
            law_receiving_agrees(stream.rx, packet, sent, delivered);
        }
    }
}

/// A stream that takes in all packets that wait stays in agreement with its
/// sender, if data packets are genuine.
pub proof fn law_stream_polling_agrees(
    stream: StreamModel,
    events: Seq<(IncomingModel, bool)>,
    socket_gone: bool,
    now: u64,
    sent: Seq<Seq<u8>>,
    delivered: Seq<u8>,
)
    requires
        agrees(stream.rx, sent, delivered),
        forall|i: int|
            0 <= i < events.len() && (#[trigger] events[i]).0.header.has_flag(UDX_HEADER_DATA)
                ==> genuine(events[i].0, sent),
    ensures
        agrees(stream.polled_incoming(events, socket_gone, now).0.rx, sent, delivered),
{
    lemma_received_all_agrees(stream, events, now, sent, delivered);
    let received = stream.received_all(events, now);
    lemma_ack_range_keeps_rx(received, received.remote_acked, max_ack(events), now);
}

/// Taking in several genuine packets.
proof fn lemma_received_all_agrees(
    stream: StreamModel,
    events: Seq<(IncomingModel, bool)>,
    now: u64,
    sent: Seq<Seq<u8>>,
    delivered: Seq<u8>,
)
    requires
        agrees(stream.rx, sent, delivered),
        forall|i: int|
            0 <= i < events.len() && (#[trigger] events[i]).0.header.has_flag(UDX_HEADER_DATA)
                ==> genuine(events[i].0, sent),
    ensures
        agrees(stream.received_all(events, now).rx, sent, delivered),
    decreases events.len(),
{
    if events.len() > 0 {
        let (packet, pass) = events[0];
        let rest = events.drop_first();
        law_stream_receiving_agrees(stream, packet, pass, now, sent, delivered);
        assert forall|i: int|
            0 <= i < rest.len() && (#[trigger] rest[i]).0.header.has_flag(
                UDX_HEADER_DATA,
            ) implies genuine(rest[i].0, sent) by {
            assert(rest[i] == events[i + 1]);
        }
        lemma_received_all_agrees(
            stream.received(packet, pass, now),
            rest,
            now,
            sent,
            delivered,
        );
    }
}

/// A read from a stream continues the bytes that were read before, and says that
/// it read them.
pub proof fn law_stream_reading_agrees(
    stream: StreamModel,
    room: nat,
    sent: Seq<Seq<u8>>,
    delivered: Seq<u8>,
)
    requires
        agrees(stream.rx, sent, delivered),
    ensures
        agrees(stream.read(room).0.rx, sent, delivered + stream.read(room).1),
        stream.read(room).1.len() > 0 ==> stream.read(room).2 == Some(Ok::<(), ErrorModel>(())),
{
    law_reading_agrees(stream.rx, room, sent, delivered);
}

/// Acknowledgements leave what came in as it is.
proof fn lemma_ack_range_keeps_rx(stream: StreamModel, from: u32, to: u32, now: u64)
    ensures
        stream.ack_range(from, to, now).rx == stream.rx,
    decreases to - from,
{
    if from < to {
        lemma_ack_range_keeps_rx(stream.ack_one(from, now), (from + 1) as u32, to, now);
    }
}

/// Acknowledged ranges leave what came in as it is.
proof fn lemma_sacked_keeps_rx(stream: StreamModel, data: Seq<u8>, at: int, now: u64)
    ensures
        stream.sacked(data, at, now).rx == stream.rx,
    decreases data.len() - at,
{
    if at + 8 < data.len() {
        let from = crate::packet::le_value(data.subrange(at, at + 4));
        let to = crate::packet::le_value(data.subrange(at + 4, at + 8));
        lemma_ack_range_keeps_rx(stream, from, to, now);
        lemma_sacked_keeps_rx(stream.ack_range(from, to, now), data, at + 8, now);
    }
}

/// A packet of a stream is read back from its bytes: its header, and after the
/// header its body.
pub proof fn law_packet_is_read_back(stream: StreamModel, typ: u32, body: Seq<u8>)
    requires
        typ < 256,
    ensures
        Header::starts(stream.packet(typ, body).buf),
        Header::decoding(stream.packet(typ, body).buf) == stream.header(typ),
        stream.packet(typ, body).buf.skip(UDX_HEADER_SIZE as int) == body,
{
    assert(typ & UDX_HEADER_END <= 2) by (bit_vector)
        requires
            UDX_HEADER_END == 2u32,
    ;
    law_header_is_read_back(stream.header(typ), body);
}

/// The bodies of the kept packets with numbers from `from` up to `to`.
pub open spec fn bodies(stream: StreamModel, from: u32, to: u32) -> Seq<Seq<u8>> {
    Seq::new(
        (to - from) as nat,
        |i: int| stream.outgoing[(from + i) as u32].buf.skip(UDX_HEADER_SIZE as int),
    )
}

/// Whether `end` keeps all that `stream` keeps, and beside that packets with
/// the numbers from `stream.seq` up to `end.seq`, with their headers.
pub open spec fn extends(stream: StreamModel, end: StreamModel) -> bool {
    &&& stream.seq <= end.seq
    &&& forall|key: u32|
        stream.seq <= key < end.seq ==> {
            &&& #[trigger] end.outgoing.contains_key(key)
            &&& end.outgoing[key].header == Header { seq: key, ..stream.header(UDX_HEADER_DATA) }
        }
    &&& forall|key: u32|
        key < stream.seq ==> {
            &&& #[trigger] end.outgoing.contains_key(key) == stream.outgoing.contains_key(key)
            &&& end.outgoing[key] == stream.outgoing[key]
        }
}

/// Whether the queue of `end` is that of `stream`, and after it the packets with
/// the numbers from `stream.seq` up to `end.seq`, in order.
pub open spec fn queues(stream: StreamModel, end: StreamModel) -> bool {
    &&& end.send_queue.len() == stream.send_queue.len() + (end.seq - stream.seq)
    &&& forall|i: int|
        0 <= i < end.send_queue.len() ==> #[trigger] end.send_queue[i] == if i
            < stream.send_queue.len() {
            stream.send_queue[i]
        } else {
            PacketRefModel::Shared(
                end.outgoing[(stream.seq + (i - stream.send_queue.len())) as u32],
            )
        }
}

/// After one data packet.
proof fn lemma_data_sent_extends(stream: StreamModel, body: Seq<u8>)
    requires
        stream.wf(),
        stream.error is None,
        body.len() <= UDX_MAX_DATA_SIZE,
        stream.inflight + body.len() <= stream.cwnd,
        stream.seq < u32::MAX,
        stream.stats.tx_packets < usize::MAX,
        stream.stats.tx_bytes + body.len() <= usize::MAX,
    ensures
        extends(stream, stream.data_sent(body)),
        queues(stream, stream.data_sent(body)),
        stream.data_sent(body).wf(),
        stream.data_sent(body).outgoing[stream.seq].buf.skip(UDX_HEADER_SIZE as int) == body,
        stream.data_sent(body).header(UDX_HEADER_DATA) == (Header {
            seq: (stream.seq + 1) as u32,
            ..stream.header(UDX_HEADER_DATA)
        }),
{
    crate::stream::lemma_data_sent(stream, body);
    let packet = stream.packet(UDX_HEADER_DATA, body);
    assert(packet.buf.skip(UDX_HEADER_SIZE as int) =~= body);
}

/// What a write sends is cut into packets with consecutive numbers, which are
/// all kept and queued. Their bodies, one after the other, are the bytes that
/// the write says it took; what was kept and queued before stays.
pub proof fn law_write_is_cut_into_packets(stream: StreamModel, buf: Seq<u8>)
    requires
        stream.wf(),
        stream.error is None,
        stream.can_send(buf.len()),
    ensures
        stream.send_all(buf).1 <= buf.len(),
        extends(stream, stream.send_all(buf).0),
        queues(stream, stream.send_all(buf).0),
        joined(bodies(stream.send_all(buf).0, stream.seq, stream.send_all(buf).0.seq)) == buf.take(
            stream.send_all(buf).1 as int,
        ),
    decreases buf.len(),
{
    let (end, n) = stream.send_all(buf);
    if buf.len() == 0 || stream.inflight + chunk(buf).len() > stream.cwnd {
        assert(bodies(end, stream.seq, end.seq) =~= Seq::empty());
        assert(buf.take(0) =~= Seq::empty());
    } else {
        let body = chunk(buf);
        let next = stream.data_sent(body);
        let rest = buf.skip(body.len() as int);
        lemma_data_sent_extends(stream, body);
        law_write_is_cut_into_packets(next, rest);
        lemma_extends_twice(stream, next, end);
        assert(end.outgoing.contains_key(stream.seq));
        assert(end.outgoing[stream.seq] == next.outgoing[stream.seq]);
        assert(bodies(end, stream.seq, end.seq) =~= seq![body] + bodies(end, next.seq, end.seq));
        lemma_joined_concat(seq![body], bodies(end, next.seq, end.seq));
        lemma_joined_one(body);
        assert(buf.take(n as int) =~= body + rest.take(n - body.len()));
    }
}

/// Extending twice is extending once.
proof fn lemma_extends_twice(stream: StreamModel, next: StreamModel, end: StreamModel)
    requires
        next.seq == stream.seq + 1,
        extends(stream, next),
        queues(stream, next),
        extends(next, end),
        queues(next, end),
        next.header(UDX_HEADER_DATA) == (Header {
            seq: next.seq,
            ..stream.header(UDX_HEADER_DATA)
        }),
    ensures
        extends(stream, end),
        queues(stream, end),
{
    assert forall|key: u32| stream.seq <= key < end.seq implies {
        &&& #[trigger] end.outgoing.contains_key(key)
        &&& end.outgoing[key].header == Header { seq: key, ..stream.header(UDX_HEADER_DATA) }
    } by {
        if key == stream.seq {
            assert(next.outgoing.contains_key(key));
            assert(end.outgoing.contains_key(key) == next.outgoing.contains_key(key));
        } else {
            assert(end.outgoing.contains_key(key));
        }
    }
    assert forall|key: u32| key < stream.seq implies {
        &&& #[trigger] end.outgoing.contains_key(key) == stream.outgoing.contains_key(key)
        &&& end.outgoing[key] == stream.outgoing[key]
    } by {
        assert(next.outgoing.contains_key(key) == stream.outgoing.contains_key(key));
    }
    assert(end.outgoing.contains_key(stream.seq));
    assert forall|i: int| 0 <= i < end.send_queue.len() implies #[trigger] end.send_queue[i] == if i
        < stream.send_queue.len() {
        stream.send_queue[i]
    } else {
        PacketRefModel::Shared(end.outgoing[(stream.seq + (i - stream.send_queue.len())) as u32])
    } by {
        if i < next.send_queue.len() {
            assert(end.send_queue[i] == next.send_queue[i]);
        }
    }
}

/// Acknowledging a range removes exactly its packets.
proof fn lemma_ack_range_removes(stream: StreamModel, from: u32, to: u32, now: u64)
    ensures
        ({
            let after = stream.ack_range(from, to, now);
            &&& after.remote_acked == stream.remote_acked
            &&& after.seq == stream.seq
            &&& after.cwnd == stream.cwnd
            &&& forall|key: u32| #[trigger]
                after.outgoing.contains_key(key) <==> stream.outgoing.contains_key(key) && !(from
                    <= key < to)
            &&& forall|key: u32| #[trigger]
                after.outgoing.contains_key(key) ==> after.outgoing[key] == stream.outgoing[key]
        }),
    decreases to - from,
{
    if from < to {
        lemma_ack_range_removes(stream.ack_one(from, now), (from + 1) as u32, to, now);
    }
}

/// What the remote acknowledged is no longer kept, and everything else is.
pub proof fn law_acknowledged_packets_are_dropped(stream: StreamModel, ack: u32, now: u64)
    ensures
        ({
            let after = stream.remote_acked_to(ack, now);
            &&& forall|key: u32| #[trigger]
                after.outgoing.contains_key(key) <==> stream.outgoing.contains_key(key) && !(
                stream.remote_acked <= key < ack)
            &&& after.remote_acked == if ack > stream.remote_acked {
                ack
            } else {
                stream.remote_acked
            }
            &&& after.seq == stream.seq
        }),
{
    lemma_ack_range_removes(stream, stream.remote_acked, ack, now);
}

/// A stream that has ended and was drained has nothing in flight.
pub proof fn law_drained_stream_has_nothing_in_flight(stream: StreamModel)
    requires
        stream.wf(),
        stream.drained(),
    ensures
        stream.inflight == 0,
        stream.stats.inflight_packets == 0,
        stream.stats.inflight_bytes == 0,
        stream.state.is_local_closed(),
{
    lemma_total_none(stream.outgoing, live_len(), stream.seq as nat);
    lemma_total_none(stream.outgoing, payload(), stream.seq as nat);
    lemma_total_none(stream.outgoing, one(), stream.seq as nat);
}

/// The sides close independently: the order does not matter, closing twice is
/// closing once, and a closed side stays closed.
pub proof fn law_sides_close_independently(state: StreamState)
    ensures
        ({
            let local = StreamState::of(true, state.is_remote_closed());
            let remote = StreamState::of(state.is_local_closed(), true);
            &&& StreamState::of(state.is_local_closed(), state.is_remote_closed()) == state
            &&& local.is_local_closed() && local.is_remote_closed() == state.is_remote_closed()
            &&& remote.is_remote_closed() && remote.is_local_closed() == state.is_local_closed()
            &&& StreamState::of(local.is_local_closed(), true) == StreamState::of(
                true,
                remote.is_remote_closed(),
            )
            &&& StreamState::of(true, local.is_remote_closed()) == local
            &&& StreamState::of(remote.is_local_closed(), true) == remote
        }),
{
}

/// A stream has an error exactly when a side has closed it.
pub proof fn law_closed_streams_have_an_error(stream: StreamModel)
    requires
        stream.wf(),
    ensures
        stream.error is Some <==> stream.state.is_local_closed() || stream.state.is_remote_closed(),
{
}

/// A stream that ended refuses to write, with the error that it ended with last,
/// and so does a read once nothing is left. The remote is told of the end.
pub proof fn law_ended_streams_refuse(
    stream: StreamModel,
    error: ErrorModel,
    buf: Seq<u8>,
    room: nat,
)
    requires
        stream.wf(),
    ensures
        ({
            let ended = stream.terminated(error);
            &&& ended.error == Some(error)
            &&& ended.state.is_local_closed()
            &&& ended.write(buf) == (ended, Some(Err::<nat, ErrorModel>(error)))
            &&& stream.rx.read_cursor == stream.rx.ack ==> ended.read(room).2 == Some(
                Err::<(), ErrorModel>(error),
            )
            &&& ended.send_queue.last().packet().header.typ == UDX_HEADER_END
        }),
{
    assert(UDX_HEADER_END & UDX_HEADER_END == UDX_HEADER_END) by (bit_vector);
}

/// A read reports what it gives: where it gives bytes, it succeeds; where it has
/// to wait, or gives the stream's error, it gave none, and there were none to
/// give or no room for them.
pub proof fn law_reads_report_what_they_give(stream: StreamModel, room: nat)
    requires
        stream.wf(),
    ensures
        ({
            let (end, bytes, result) = stream.read(room);
            &&& bytes.len() > 0 ==> result == Some(Ok::<(), ErrorModel>(()))
            &&& result != Some(Ok::<(), ErrorModel>(())) ==> {
                &&& bytes.len() == 0
                &&& end.rx.readable() == stream.rx.readable()
                &&& room == 0 || stream.rx.readable().len() == 0
            }
        }),
{
    law_read_in_order(stream.rx, room);
    assert(stream.rx.readable().skip(0) =~= stream.rx.readable());
}

/// What came in before the end can still be read after it, and such a read
/// succeeds.
pub proof fn law_data_survives_the_end(stream: StreamModel, error: ErrorModel, room: nat)
    requires
        stream.wf(),
    ensures
        stream.terminated(error).rx == stream.rx,
        stream.terminated(error).read(room).1 == stream.read(room).1,
        stream.read(room).2 == Some(Ok::<(), ErrorModel>(())) ==> stream.terminated(error).read(
            room,
        ).2 == Some(Ok::<(), ErrorModel>(())),
{
}

/// A packet that says that the remote closed the stream ends it on both sides.
/// Its error is from then on that the remote closed it, unless this side had
/// closed it: that stays.
pub proof fn law_remote_end_closes_both_sides(stream: StreamModel, packet: IncomingModel, now: u64)
    requires
        stream.wf(),
        packet.header.has_flag(UDX_HEADER_END),
    ensures
        ({
            let after = stream.received(packet, true, now);
            &&& after.state is BothClosed
            &&& after.error == if stream.error == Some(ErrorModel::close_graceful()) {
                stream.error
            } else {
                Some(ErrorModel::closed_by_remote())
            }
        }),
{
    lemma_sacked_keeps_state(stream.counted(), packet.data, 0, now);
}

/// Acknowledged ranges do not end a stream.
proof fn lemma_sacked_keeps_state(stream: StreamModel, data: Seq<u8>, at: int, now: u64)
    ensures
        stream.sacked(data, at, now).state == stream.state,
        stream.sacked(data, at, now).error == stream.error,
    decreases data.len() - at,
{
    if at + 8 < data.len() {
        let from = crate::packet::le_value(data.subrange(at, at + 4));
        let to = crate::packet::le_value(data.subrange(at + 4, at + 8));
        crate::stream::lemma_ack_range_frame(stream, from, to, now);
        lemma_sacked_keeps_state(stream.ack_range(from, to, now), data, at + 8, now);
    }
}

/// New data is sent only while the window has room: what is in flight after a
/// write is what was before, or fits the window and one header.
pub proof fn law_writes_respect_the_window(stream: StreamModel, buf: Seq<u8>)
    ensures
        ({
            let end = stream.send_all(buf).0;
            &&& end.cwnd == stream.cwnd
            &&& stream.inflight <= end.inflight
            &&& end.inflight == stream.inflight || end.inflight <= stream.cwnd + UDX_HEADER_SIZE
        }),
    decreases buf.len(),
{
    if buf.len() > 0 && stream.inflight + chunk(buf).len() <= stream.cwnd {
        law_writes_respect_the_window(
            stream.data_sent(chunk(buf)),
            buf.skip(chunk(buf).len() as int),
        );
    }
}

/// Packets are sent again only while the window has room.
pub proof fn law_retransmissions_respect_the_window(stream: StreamModel, from: u32, to: u32)
    ensures
        ({
            let after = stream.flush(from, to);
            &&& after.cwnd == stream.cwnd
            &&& stream.inflight <= after.inflight
            &&& after.inflight == stream.inflight || after.inflight <= stream.cwnd
        }),
    decreases to - from,
{
    if from < to {
        if stream.outgoing.contains_key(from) && stream.outgoing[from].waiting {
            if stream.inflight + stream.outgoing[from].buf.len() <= stream.cwnd {
                law_retransmissions_respect_the_window(
                    stream.requeued(from),
                    (from + 1) as u32,
                    to,
                );
            }
        } else {
            law_retransmissions_respect_the_window(stream, (from + 1) as u32, to);
        }
    }
}

/// A timeout fails exactly when a packet in flight was sent too often; else
/// all packets in flight wait to be sent again, and none of their bytes counts
/// as in flight.
pub proof fn law_timeout_gives_up_all(stream: StreamModel, from: u32, to: u32)
    ensures
        ({
            let (after, ok) = stream.lose(from, to);
            &&& ok <==> forall|key: u32|
                from <= key < to && #[trigger] stream.outgoing.contains_key(key)
                    && !stream.outgoing[key].waiting ==> stream.outgoing[key].transmits
                    <= UDX_MAX_TRANSMITS
            &&& ok ==> forall|key: u32|
                from <= key < to && #[trigger] after.outgoing.contains_key(key)
                    ==> after.outgoing[key].waiting
            &&& ok ==> forall|key: u32|
                from <= key < to ==> #[trigger] share(after.outgoing, live_len(), key) == 0
            &&& forall|key: u32| #[trigger]
                after.outgoing.contains_key(key) <==> stream.outgoing.contains_key(key)
            &&& forall|key: u32|
                !(from <= key < to) && #[trigger] after.outgoing.contains_key(key)
                    ==> after.outgoing[key] == stream.outgoing[key]
        }),
    decreases to - from,
{
    if from < to {
        if stream.outgoing.contains_key(from) && !stream.outgoing[from].waiting {
            if stream.outgoing[from].transmits <= UDX_MAX_TRANSMITS {
                law_timeout_gives_up_all(stream.lost_one(from), (from + 1) as u32, to);
                let next = stream.lost_one(from);
                let (after, ok) = stream.lose(from, to);
                assert(forall|key: u32|
                    key != from && #[trigger] stream.outgoing.contains_key(key)
                        ==> next.outgoing.contains_key(key) && next.outgoing[key]
                        == stream.outgoing[key]);
                assert(forall|key: u32|
                    key != from && #[trigger] next.outgoing.contains_key(key)
                        ==> stream.outgoing.contains_key(key));
                assert(after.outgoing.contains_key(from));
            }
        } else {
            law_timeout_gives_up_all(stream, (from + 1) as u32, to);
        }
    }
}

/// Numbers only ever go up: whatever comes in, no acknowledgement is taken back.
pub proof fn law_acknowledgements_only_advance(
    stream: StreamModel,
    packet: IncomingModel,
    pass: bool,
    now: u64,
    ack: u32,
)
    requires
        stream.wf(),
    ensures
        stream.received(packet, pass, now).rx.ack >= stream.rx.ack,
        stream.received(packet, pass, now).rx.read_cursor == stream.rx.read_cursor,
        stream.remote_acked_to(ack, now).remote_acked >= stream.remote_acked,
        stream.remote_acked_to(ack, now).rx == stream.rx,
{
    lemma_sacked_keeps_rx(stream.counted(), packet.data, 0, now);
    lemma_ack_range_keeps_rx(stream, stream.remote_acked, ack, now);
    law_first_missing(stream.rx.inserted(packet).incoming, stream.rx.ack);
}

/// What a write sends continues what was sent before: a receiver that agreed
/// with the sender before the write agrees with it after, and once the receiver
/// has everything, what was read and what can be read ends with the bytes that
/// the write took.
pub proof fn law_writing_agrees(
    sender: StreamModel,
    buf: Seq<u8>,
    rx: ReassemblyModel,
    sent: Seq<Seq<u8>>,
    delivered: Seq<u8>,
)
    requires
        sender.wf(),
        sender.error is None,
        sender.can_send(buf.len()),
        sent.len() == sender.seq,
        agrees(rx, sent, delivered),
    ensures
        ({
            let (end, n) = sender.send_all(buf);
            let more = sent + bodies(end, sender.seq, end.seq);
            &&& more.len() == end.seq
            &&& agrees(rx, more, delivered)
            &&& joined(more) == joined(sent) + buf.take(n as int)
        }),
{
    let (end, n) = sender.send_all(buf);
    let news = bodies(end, sender.seq, end.seq);
    let more = sent + news;
    law_write_is_cut_into_packets(sender, buf);
    lemma_joined_concat(sent, news);
    assert(more.take(rx.ack as int) =~= sent.take(rx.ack as int));
}

/// Queueing again only adds to the queue.
proof fn lemma_flush_adds(stream: StreamModel, from: u32, to: u32)
    ensures
        stream.send_queue.is_prefix_of(stream.flush(from, to).send_queue),
    decreases to - from,
{
    if from < to {
        if stream.outgoing.contains_key(from) && stream.outgoing[from].waiting {
            if stream.inflight + stream.outgoing[from].buf.len() <= stream.cwnd {
                lemma_flush_adds(stream.requeued(from), (from + 1) as u32, to);
                assert(stream.send_queue.is_prefix_of(stream.requeued(from).send_queue));
            }
        } else {
            lemma_flush_adds(stream, (from + 1) as u32, to);
        }
    }
}

/// Giving up packets keeps the stream's invariant.
proof fn lemma_lose_keeps_invariant(stream: StreamModel, from: u32, to: u32)
    requires
        stream.wf_core(),
    ensures
        stream.lose(from, to).0.wf_core(),
        stream.lose(from, to).0.seq == stream.seq,
        stream.lose(from, to).0.remote_acked == stream.remote_acked,
        stream.lose(from, to).0.send_queue == stream.send_queue,
    decreases to - from,
{
    if from < to {
        if stream.outgoing.contains_key(from) && !stream.outgoing[from].waiting {
            if stream.outgoing[from].transmits <= UDX_MAX_TRANSMITS {
                crate::stream::lemma_lost_one(stream, from);
                lemma_lose_keeps_invariant(stream.lost_one(from), (from + 1) as u32, to);
            }
        } else {
            lemma_lose_keeps_invariant(stream, (from + 1) as u32, to);
        }
    }
}

/// Where all packets wait, nothing is in flight.
proof fn lemma_waiting_is_not_in_flight(packets: Map<u32, PacketModel>, n: nat)
    requires
        n <= crate::totals::SEQ_SPACE,
        forall|key: u32| #[trigger] packets.contains_key(key) ==> packets[key].waiting,
    ensures
        total(packets, live_len(), n) == 0,
    decreases n,
{
    if n > 0 {
        lemma_waiting_is_not_in_flight(packets, (n - 1) as nat);
    }
}

/// Numbers without a packet are passed over.
proof fn lemma_flush_skips(stream: StreamModel, from: u32, key: u32, to: u32)
    requires
        from <= key < to,
        forall|other: u32| from <= other < key ==> !stream.outgoing.contains_key(other),
    ensures
        stream.flush(from, to) == stream.flush(key, to),
    decreases key - from,
{
    if from < key {
        lemma_flush_skips(stream, (from + 1) as u32, key, to);
    }
}

/// After a timeout that the stream survives, the oldest packet that is kept is
/// queued to be sent again, whatever the window: what was lost is sent again
/// until it is acknowledged or the stream gives up. This holds while the remote
/// acknowledges only what was sent: then no kept packet is below `remote_acked`.
pub proof fn law_timeout_resends_the_oldest(stream: StreamModel, key: u32)
    requires
        stream.wf(),
        stream.outgoing.contains_key(key),
        key >= stream.remote_acked,
        forall|other: u32| #[trigger] stream.outgoing.contains_key(other) ==> other >= key,
        stream.checked_timeouts(true).1,
    ensures
        ({
            let after = stream.checked_timeouts(true).0.flushed();
            let at = stream.send_queue.len() as int;
            &&& after.send_queue.len() > at
            &&& after.send_queue[at] matches PacketRefModel::Shared(packet)
                && packet.header.seq == key && packet.buf == stream.outgoing[key].buf
        }),
{
    let start = StreamModel {
        timer: Some(2 * stream.rtt.rto),
        cwnd: shrunk(stream.cwnd),
        ..stream
    };
    law_window_shrinks(stream.cwnd);
    let from = stream.remote_acked;
    let lost = start.lose(from, stream.seq).0;
    law_timeout_gives_up_all(start, from, stream.seq);
    lemma_lose_keeps_invariant(start, from, stream.seq);
    lemma_lose_keeps_bytes(start, from, stream.seq, key);
    assert(lost.outgoing.contains_key(key));
    assert forall|other: u32| #[trigger] lost.outgoing.contains_key(
        other,
    ) implies lost.outgoing[other].waiting && other >= key by {
        assert(stream.outgoing.contains_key(other));
    }
    lemma_waiting_is_not_in_flight(lost.outgoing, lost.seq as nat);
    lemma_lose_keeps_window(start, from, stream.seq);
    lemma_flush_skips(lost, from, key, lost.seq);
    let next = lost.requeued(key);
    lemma_flush_adds(next, (key + 1) as u32, lost.seq);
    let at = stream.send_queue.len() as int;
    assert(next.send_queue[at] == lost.flushed().send_queue[at]);
}

/// Giving up packets changes neither their bytes nor their headers.
proof fn lemma_lose_keeps_bytes(stream: StreamModel, from: u32, to: u32, key: u32)
    ensures
        stream.lose(from, to).0.outgoing.contains_key(key) == stream.outgoing.contains_key(key),
        stream.outgoing.contains_key(key) ==> stream.lose(from, to).0.outgoing[key].buf
            == stream.outgoing[key].buf && stream.lose(from, to).0.outgoing[key].header
            == stream.outgoing[key].header,
    decreases to - from,
{
    if from < to {
        if stream.outgoing.contains_key(from) && !stream.outgoing[from].waiting {
            if stream.outgoing[from].transmits <= UDX_MAX_TRANSMITS {
                lemma_lose_keeps_bytes(stream.lost_one(from), (from + 1) as u32, to, key);
            }
        } else {
            lemma_lose_keeps_bytes(stream, (from + 1) as u32, to, key);
        }
    }
}

/// Giving up packets leaves the window as it is.
proof fn lemma_lose_keeps_window(stream: StreamModel, from: u32, to: u32)
    ensures
        stream.lose(from, to).0.cwnd == stream.cwnd,
    decreases to - from,
{
    if from < to {
        lemma_lose_keeps_window(stream.lost_one(from), (from + 1) as u32, to);
        lemma_lose_keeps_window(stream, (from + 1) as u32, to);
    }
}

/// Whether a queued packet is one that the stream keeps, with a number from
/// `from` up to `to`.
pub open spec fn is_kept(queued: PacketRefModel, stream: StreamModel, from: u32, to: u32) -> bool {
    queued matches PacketRefModel::Shared(packet) && from <= packet.header.seq < to
        && stream.outgoing.contains_key(packet.header.seq)
}

/// An acknowledgement of a range marks its packets in the queue, and unmarks
/// none.
proof fn lemma_ack_range_marks(stream: StreamModel, from: u32, to: u32, now: u64, i: int)
    requires
        stream.outgoing_ok(),
        0 <= i < stream.send_queue.len(),
    ensures
        ({
            let after = stream.ack_range(from, to, now);
            &&& after.send_queue.len() == stream.send_queue.len()
            &&& after.send_queue[i].packet().buf == stream.send_queue[i].packet().buf
            &&& stream.send_queue[i].packet().skip ==> after.send_queue[i].packet().skip
            &&& is_kept(stream.send_queue[i], stream, from, to)
                ==> after.send_queue[i].packet().skip
        }),
    decreases to - from,
{
    if from < to {
        let next = stream.ack_one(from, now);
        assert(next.send_queue.len() == stream.send_queue.len());
        assert(next.outgoing_ok());
        lemma_ack_range_marks(next, (from + 1) as u32, to, now, i);
    }
}

/// A packet that is queued when it is acknowledged is not sent any more: it is
/// marked to be skipped wherever it stands in the queue.
pub proof fn law_acknowledged_packets_are_skipped(stream: StreamModel, ack: u32, now: u64, i: int)
    requires
        stream.wf(),
        0 <= i < stream.send_queue.len(),
        is_kept(stream.send_queue[i], stream, stream.remote_acked, ack),
    ensures
        stream.remote_acked_to(ack, now).send_queue[i].packet().skip,
{
    lemma_ack_range_marks(stream, stream.remote_acked, ack, now, i);
}

/// The packets and bytes that a write is counted for beforehand are those that it
/// sends.
pub proof fn law_writes_are_counted(stream: StreamModel, buf: Seq<u8>)
    requires
        stream.can_send(buf.len()),
    ensures
        ({
            let (packets, bytes) = taken(stream.inflight, stream.cwnd, buf.len());
            let (end, n) = stream.send_all(buf);
            &&& n == bytes
            &&& end.seq == stream.seq + packets
            &&& end.stats.tx_packets == stream.stats.tx_packets + packets
            &&& end.stats.tx_bytes == stream.stats.tx_bytes + bytes
        }),
    decreases buf.len(),
{
    if buf.len() > 0 && stream.inflight + chunk(buf).len() <= stream.cwnd {
        law_writes_are_counted(stream.data_sent(chunk(buf)), buf.skip(chunk(buf).len() as int));
    }
}

/// Whether a packet is one of the data packets that carry the bodies `sent`: its
/// header, and after it the body that was sent under its number.
pub open spec fn carried(packet: PacketModel, sent: Seq<Seq<u8>>) -> bool {
    &&& packet.header.typ == UDX_HEADER_DATA
    &&& packet.header.data_offset == 0
    &&& packet.header.seq < sent.len()
    &&& packet.buf == packet.header.encoding() + sent[packet.header.seq as int]
}

/// Whether a packet holds no data: it is a header alone, without the flag of a
/// data packet.
pub open spec fn holds_no_data(packet: PacketModel) -> bool {
    &&& packet.header.typ < 256
    &&& packet.header.data_offset == 0
    &&& !packet.header.has_flag(UDX_HEADER_DATA)
    &&& packet.buf == packet.header.encoding()
}

/// Whether a packet on its way out is one that a sender of the bodies `sent` to
/// the stream `remote_id` may send: those that it keeps carry a body, the others
/// hold no data.
pub open spec fn honest(entry: PacketRefModel, remote_id: u32, sent: Seq<Seq<u8>>) -> bool {
    &&& entry.packet().header.stream_id == remote_id
    &&& match entry {
        PacketRefModel::Shared(packet) => carried(packet, sent),
        PacketRefModel::Owned(packet) => holds_no_data(packet),
    }
}

/// Whether all packets of a queue or a set are such.
pub open spec fn all_honest(
    queue: Seq<PacketRefModel>,
    remote_id: u32,
    sent: Seq<Seq<u8>>,
) -> bool {
    forall|i: int| 0 <= i < queue.len() ==> honest(#[trigger] queue[i], remote_id, sent)
}

/// Whether a sender stands for the bodies `sent`: so many packets were sent, and
/// every one that is still kept, or queued to be sent, first or again, carries
/// the body that was sent under its number; other queued packets hold no data.
pub open spec fn carries(stream: StreamModel, sent: Seq<Seq<u8>>) -> bool {
    &&& sent.len() == stream.seq
    &&& forall|key: u32| #[trigger]
        stream.outgoing.contains_key(key) ==> {
            &&& carried(stream.outgoing[key], sent)
            &&& stream.outgoing[key].header.seq == key
            &&& stream.outgoing[key].header.stream_id == stream.remote_id
        }
    &&& all_honest(stream.send_queue, stream.remote_id, sent)
}

/// A new stream has sent nothing.
pub proof fn law_new_streams_carry_nothing(
    dest: SocketAddr,
    remote_id: u32,
    local_id: u32,
    source: u64,
)
    ensures
        carries(StreamModel::initial(dest, remote_id, local_id, source), Seq::empty()),
{
}

/// A state packet in the queue carries no data.
proof fn lemma_state_packet_carries(stream: StreamModel, sent: Seq<Seq<u8>>)
    requires
        carries(stream, sent),
    ensures
        carries(stream.with_state_packet(), sent),
{
    let after = stream.with_state_packet();
    let typ = if stream.error is Some {
        UDX_HEADER_END
    } else {
        0
    };
    assert((typ == 0 || typ == 2) ==> typ & 1u32 == 0 && typ & 2u32 == typ) by (bit_vector);
    assert(stream.state_packet().buf =~= stream.state_packet().header.encoding());
    assert(holds_no_data(stream.state_packet()));
    assert forall|i: int| 0 <= i < after.send_queue.len() implies honest(
        #[trigger] after.send_queue[i],
        after.remote_id,
        sent,
    ) by {
        if i < stream.send_queue.len() {
            assert(after.send_queue[i] == stream.send_queue[i]);
        }
    }
}

/// The end of a stream leaves what it carries.
pub proof fn law_ending_carries(stream: StreamModel, error: ErrorModel, sent: Seq<Seq<u8>>)
    requires
        carries(stream, sent),
    ensures
        carries(stream.terminated(error), sent),
{
    let ended = StreamModel {
        error: Some(error),
        state: StreamState::of(true, stream.state.is_remote_closed()),
        ..stream
    };
    assert(carries(ended, sent));
    lemma_state_packet_carries(ended, sent);
}

/// Giving up packets for lost leaves what they carry.
pub proof fn law_losing_carries(stream: StreamModel, from: u32, to: u32, sent: Seq<Seq<u8>>)
    requires
        carries(stream, sent),
    ensures
        carries(stream.lose(from, to).0, sent),
    decreases to - from,
{
    if from < to {
        if stream.outgoing.contains_key(from) && !stream.outgoing[from].waiting {
            if stream.outgoing[from].transmits <= UDX_MAX_TRANSMITS {
                assert(carries(stream.lost_one(from), sent));
                law_losing_carries(stream.lost_one(from), (from + 1) as u32, to, sent);
            }
        } else {
            law_losing_carries(stream, (from + 1) as u32, to, sent);
        }
    }
}

/// A look at the timer leaves what the stream carries.
pub proof fn law_timeouts_carry(stream: StreamModel, fired: bool, sent: Seq<Seq<u8>>)
    requires
        carries(stream, sent),
    ensures
        carries(stream.checked_timeouts(fired).0, sent),
{
    let start = StreamModel {
        timer: Some(2 * stream.rtt.rto),
        cwnd: shrunk(stream.cwnd),
        ..stream
    };
    assert(carries(start, sent));
    law_losing_carries(start, stream.remote_acked, stream.seq, sent);
}

/// Queueing packets again queues them with the bodies that they carry.
pub proof fn law_flushing_carries(stream: StreamModel, from: u32, to: u32, sent: Seq<Seq<u8>>)
    requires
        carries(stream, sent),
    ensures
        carries(stream.flush(from, to), sent),
    decreases to - from,
{
    if from < to {
        if stream.outgoing.contains_key(from) && stream.outgoing[from].waiting {
            if stream.inflight + stream.outgoing[from].buf.len() <= stream.cwnd {
                let next = stream.requeued(from);
                assert forall|i: int| 0 <= i < next.send_queue.len() implies honest(
                    #[trigger] next.send_queue[i],
                    next.remote_id,
                    sent,
                ) by {
                    if i < stream.send_queue.len() {
                        assert(next.send_queue[i] == stream.send_queue[i]);
                    }
                }
                assert(carries(next, sent));
                law_flushing_carries(next, (from + 1) as u32, to, sent);
            }
        } else {
            law_flushing_carries(stream, (from + 1) as u32, to, sent);
        }
    }
}

/// Acknowledgements leave what the packets carry that are not acknowledged.
pub proof fn law_acknowledging_carries(
    stream: StreamModel,
    from: u32,
    to: u32,
    now: u64,
    sent: Seq<Seq<u8>>,
)
    requires
        carries(stream, sent),
    ensures
        carries(stream.ack_range(from, to, now), sent),
    decreases to - from,
{
    if from < to {
        let next = stream.ack_one(from, now);
        if stream.outgoing.contains_key(from) {
            assert forall|i: int| 0 <= i < next.send_queue.len() implies honest(
                #[trigger] next.send_queue[i],
                next.remote_id,
                sent,
            ) by {
                let queued = stream.send_queue[i];
                assert(next.send_queue[i] == queued.acked(stream.outgoing[from].header.seq));
            }
        }
        assert(carries(next, sent));
        law_acknowledging_carries(next, (from + 1) as u32, to, now, sent);
    }
}

/// An acknowledgement of all packets below a number leaves what the others carry.
pub proof fn law_remote_acknowledgement_carries(
    stream: StreamModel,
    ack: u32,
    now: u64,
    sent: Seq<Seq<u8>>,
)
    requires
        carries(stream, sent),
    ensures
        carries(stream.remote_acked_to(ack, now), sent),
{
    law_acknowledging_carries(stream, stream.remote_acked, ack, now, sent);
}

/// Acknowledged ranges leave what the other packets carry.
proof fn lemma_sacked_carries(
    stream: StreamModel,
    data: Seq<u8>,
    at: int,
    now: u64,
    sent: Seq<Seq<u8>>,
)
    requires
        carries(stream, sent),
    ensures
        carries(stream.sacked(data, at, now), sent),
    decreases data.len() - at,
{
    if at + 8 < data.len() {
        let from = crate::packet::le_value(data.subrange(at, at + 4));
        let to = crate::packet::le_value(data.subrange(at + 4, at + 8));
        law_acknowledging_carries(stream, from, to, now, sent);
        lemma_sacked_carries(stream.ack_range(from, to, now), data, at + 8, now, sent);
    }
}

/// Whatever packet comes in, it leaves what the stream carries.
pub proof fn law_receiving_carries(
    stream: StreamModel,
    packet: IncomingModel,
    pass: bool,
    now: u64,
    sent: Seq<Seq<u8>>,
)
    requires
        carries(stream, sent),
    ensures
        carries(stream.received(packet, pass, now), sent),
{
    let counted = stream.counted();
    assert(carries(counted, sent));
    lemma_sacked_carries(counted, packet.data, 0, now, sent);
    let noted = counted.noted_sacks(packet, now);
    assert(carries(noted, sent));
    let closed = StreamModel {
        state: StreamState::of(noted.state.is_local_closed(), true),
        ..noted
    };
    assert(carries(closed, sent));
    law_ending_carries(closed, noted.end_error(), sent);
    let ended = noted.noted_end(packet);
    assert(carries(ended, sent));
    let stored = StreamModel {
        rx: ended.rx.inserted(packet).advanced(),
        stats: crate::stream::StreamStats {
            rx_bytes: (ended.stats.rx_bytes + packet.data.len()) as usize,
            ..ended.stats
        },
        ..ended
    };
    let woken = if packet.header.seq == ended.rx.ack {
        stored.wake_read()
    } else {
        stored
    };
    assert(carries(woken, sent));
    lemma_state_packet_carries(woken, sent);
    assert(carries(ended.noted_data(packet), sent));
}

/// Whatever packets come in, and whether or not the socket is gone, they leave
/// what the stream carries.
pub proof fn law_polling_carries(
    stream: StreamModel,
    events: Seq<(IncomingModel, bool)>,
    socket_gone: bool,
    now: u64,
    sent: Seq<Seq<u8>>,
)
    requires
        carries(stream, sent),
    ensures
        carries(stream.polled_incoming(events, socket_gone, now).0, sent),
{
    lemma_received_all_carries(stream, events, now, sent);
    law_remote_acknowledgement_carries(
        stream.received_all(events, now),
        max_ack(events),
        now,
        sent,
    );
}

/// Several packets leave what the stream carries.
proof fn lemma_received_all_carries(
    stream: StreamModel,
    events: Seq<(IncomingModel, bool)>,
    now: u64,
    sent: Seq<Seq<u8>>,
)
    requires
        carries(stream, sent),
    ensures
        carries(stream.received_all(events, now), sent),
    decreases events.len(),
{
    if events.len() > 0 {
        let (packet, pass) = events[0];
        law_receiving_carries(stream, packet, pass, now, sent);
        lemma_received_all_carries(
            stream.received(packet, pass, now),
            events.drop_first(),
            now,
            sent,
        );
    }
}

/// Noting when a packet was sent, and reading, leave what the stream carries.
pub proof fn law_reports_and_reads_carry(
    stream: StreamModel,
    key: u32,
    now: u64,
    room: nat,
    sent: Seq<Seq<u8>>,
)
    requires
        carries(stream, sent),
    ensures
        carries(stream.sent(key, now), sent),
        carries(stream.read(room).0, sent),
{
}

/// A data packet carries its body under the next number, and the others carry
/// what they did.
pub proof fn law_sending_carries(stream: StreamModel, body: Seq<u8>, sent: Seq<Seq<u8>>)
    requires
        carries(stream, sent),
        !stream.state.is_local_closed(),
        stream.seq < u32::MAX,
    ensures
        carries(stream.data_sent(body), sent.push(body)),
{
    let after = stream.data_sent(body);
    let more = sent.push(body);
    let packet = stream.packet(UDX_HEADER_DATA, body);
    assert(carried(packet, more));
    assert forall|key: u32| #[trigger] after.outgoing.contains_key(key) implies {
        &&& carried(after.outgoing[key], more)
        &&& after.outgoing[key].header.seq == key
        &&& after.outgoing[key].header.stream_id == after.remote_id
    } by {
        if key != stream.seq {
            assert(stream.outgoing.contains_key(key));
        }
    }
    assert forall|i: int| 0 <= i < after.send_queue.len() implies honest(
        #[trigger] after.send_queue[i],
        after.remote_id,
        more,
    ) by {
        if i < stream.send_queue.len() {
            assert(after.send_queue[i] == stream.send_queue[i]);
        }
    }
}

/// A write adds the bodies that it is cut into to what the stream carries; one
/// that waits, or is refused, adds nothing.
pub proof fn law_writing_carries(stream: StreamModel, buf: Seq<u8>, sent: Seq<Seq<u8>>)
    requires
        stream.wf(),
        stream.error is None ==> stream.can_send(buf.len()),
        carries(stream, sent),
    ensures
        ({
            let end = stream.write(buf).0;
            carries(end, sent + bodies(end, stream.seq, end.seq))
        }),
{
    let end = stream.write(buf).0;
    if stream.error is None {
        lemma_send_all_carries(stream, buf, sent);
    }
    if end.seq == stream.seq {
        assert(bodies(end, stream.seq, end.seq) =~= Seq::empty());
        assert(sent + bodies(end, stream.seq, end.seq) =~= sent);
    }
}

/// What is sent of a buffer adds its bodies to what the stream carries.
proof fn lemma_send_all_carries(stream: StreamModel, buf: Seq<u8>, sent: Seq<Seq<u8>>)
    requires
        stream.wf(),
        stream.error is None,
        stream.can_send(buf.len()),
        carries(stream, sent),
    ensures
        ({
            let end = stream.send_all(buf).0;
            carries(end, sent + bodies(end, stream.seq, end.seq))
        }),
    decreases buf.len(),
{
    let end = stream.send_all(buf).0;
    if buf.len() == 0 || stream.inflight + chunk(buf).len() > stream.cwnd {
        assert(sent + bodies(end, stream.seq, end.seq) =~= sent);
    } else {
        let body = chunk(buf);
        let next = stream.data_sent(body);
        let rest = buf.skip(body.len() as int);
        lemma_data_sent_extends(stream, body);
        law_sending_carries(stream, body, sent);
        lemma_send_all_carries(next, rest, sent.push(body));
        law_write_is_cut_into_packets(next, rest);
        assert(end.outgoing.contains_key(stream.seq) == next.outgoing.contains_key(stream.seq));
        assert(end.outgoing[stream.seq] == next.outgoing[stream.seq]);
        assert(sent.push(body) + bodies(end, next.seq, end.seq) =~= sent + bodies(
            end,
            stream.seq,
            end.seq,
        ));
    }
}

/// The sets that go to the socket carry what the queue did, which is then empty.
pub proof fn law_transmitting_carries(
    stream: StreamModel,
    sets: Seq<PacketSetModel>,
    max: nat,
    sent: Seq<Seq<u8>>,
)
    requires
        carries(stream, sent),
        batched(stream.send_queue, sets, stream.source, stream.remote_addr, max),
    ensures
        carries(StreamModel { send_queue: Seq::empty(), ..stream }, sent),
        forall|i: int|
            0 <= i < sets.len() ==> all_honest(
                (#[trigger] sets[i]).packets,
                stream.remote_id,
                sent,
            ),
{
    assert forall|i: int| 0 <= i < sets.len() implies all_honest(
        (#[trigger] sets[i]).packets,
        stream.remote_id,
        sent,
    ) by {
        lemma_sets_carry(sets, i, stream.remote_id, sent);
    }
}

/// What holds of all packets holds of those of each set.
proof fn lemma_sets_carry(
    sets: Seq<PacketSetModel>,
    i: int,
    remote_id: u32,
    sent: Seq<Seq<u8>>,
)
    requires
        0 <= i < sets.len(),
        all_honest(all_packets(sets), remote_id, sent),
    ensures
        all_honest(sets[i].packets, remote_id, sent),
    decreases sets.len(),
{
    let all = all_packets(sets);
    let front = all_packets(sets.drop_last());
    if i == sets.len() - 1 {
        let packets = sets[i].packets;
        assert forall|j: int| 0 <= j < packets.len() implies honest(
            #[trigger] packets[j],
            remote_id,
            sent,
        ) by {
            assert(all[front.len() + j] == packets[j]);
        }
    } else {
        assert forall|j: int| 0 <= j < front.len() implies honest(
            #[trigger] front[j],
            remote_id,
            sent,
        ) by {
            assert(all[j] == front[j]);
        }
        lemma_sets_carry(sets.drop_last(), i, remote_id, sent);
    }
}

/// What is carried of some bodies is carried of these and more: packets that are
/// on their way stay right when more is sent.
pub proof fn law_more_may_be_sent(
    queue: Seq<PacketRefModel>,
    remote_id: u32,
    sent: Seq<Seq<u8>>,
    more: Seq<Seq<u8>>,
)
    requires
        all_honest(queue, remote_id, sent),
    ensures
        all_honest(queue, remote_id, sent + more),
{
    assert forall|i: int| 0 <= i < queue.len() implies honest(
        #[trigger] queue[i],
        remote_id,
        sent + more,
    ) by {
        if let PacketRefModel::Shared(packet) = queue[i] {
            assert((sent + more)[packet.header.seq as int] == sent[packet.header.seq as int]);
        }
    }
}

/// A packet of a sender, sent as it is, first or again, reaches the remote's
/// stream. One that carries a body arrives as a genuine data packet: under its
/// number, with that body. Another arrives as none.
pub proof fn law_sent_packets_arrive<H>(
    entry: PacketRefModel,
    remote_id: u32,
    socket: SocketModel<H>,
    from: SocketAddr,
    sent: Seq<Seq<u8>>,
)
    requires
        honest(entry, remote_id, sent),
        socket.streams.contains_key(remote_id),
    ensures
        socket.arrival(entry.packet().buf, from) matches Arrival::Stream(id, packet) && {
            &&& id == remote_id
            &&& packet.header == entry.packet().header
            &&& packet.header.has_flag(UDX_HEADER_DATA) == (entry is Shared)
            &&& entry is Shared ==> genuine(packet, sent)
        },
{
    let header = entry.packet().header;
    match entry {
        PacketRefModel::Shared(packet) => {
            law_header_is_read_back(header, sent[header.seq as int]);
            assert(UDX_HEADER_DATA & UDX_HEADER_DATA != 0) by (bit_vector);
        },
        PacketRefModel::Owned(packet) => {
            law_header_is_read_back(header, Seq::empty());
            assert(packet.buf =~= header.encoding() + Seq::<u8>::empty());
        },
    }
}

/// Whatever packets of a sender arrive, in whatever order and however often, the
/// stream that takes them in stays in agreement with the sender.
pub proof fn law_streams_agree<H>(
    entries: Seq<PacketRefModel>,
    socket: SocketModel<H>,
    stream: StreamModel,
    events: Seq<(IncomingModel, bool)>,
    socket_gone: bool,
    now: u64,
    sent: Seq<Seq<u8>>,
    delivered: Seq<u8>,
)
    requires
        all_honest(entries, stream.local_id, sent),
        socket.streams.contains_key(stream.local_id),
        entries.len() == events.len(),
        forall|i: int|
            0 <= i < events.len() ==> socket.arrival(
                entries[i].packet().buf,
                (#[trigger] events[i]).0.from,
            ) == Arrival::Stream(stream.local_id, events[i].0),
        agrees(stream.rx, sent, delivered),
    ensures
        agrees(stream.polled_incoming(events, socket_gone, now).0.rx, sent, delivered),
{
    assert forall|i: int|
        0 <= i < events.len() && (#[trigger] events[i]).0.header.has_flag(
            UDX_HEADER_DATA,
        ) implies genuine(events[i].0, sent) by {
        law_sent_packets_arrive(entries[i], stream.local_id, socket, events[i].0.from, sent);
    }
    law_stream_polling_agrees(stream, events, socket_gone, now, sent, delivered);
}

} // verus!
