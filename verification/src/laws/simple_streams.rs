//! What the simpler streams and sockets promise.

use vstd::prelude::*;

use super::receiving::{is_first_missing, is_grown, law_window_grows_by_a_packet};
use super::sockets::{is_packet, named};
use crate::congestion::shrunk;
use crate::constants::{UDX_HEADER_DATA, UDX_MTU};
use crate::error::ErrorModel;
use crate::packet::{Header, IncomingModel};
use crate::reassembly::{law_first_missing, law_read_in_order};
use crate::simple::{
    incoming_models, law_each_packet_is_acknowledged, law_timeout_resends_all, lemma_ack_one,
    lemma_ack_range_removes, lemma_data_sent, max_ack, packet_map, packet_seq, Packet, PacketModel,
    SocketModel, StreamModel,
};
use crate::socket::{Arrival, EventIncoming, OutcomeModel};
use crate::stream::{chunk, taken, Wakes};

verus! {

/// Whether the driver, if it waited before, was woken.
pub open spec fn driver_called(before: StreamModel, after: StreamModel) -> bool {
    &&& !after.drive_waker
    &&& after.wakes == Wakes { drive: before.wakes.drive || before.drive_waker, ..before.wakes }
}

/// Whether both keep the same packet under a number, or both none.
pub open spec fn same_at(
    before: Map<u32, PacketModel>,
    after: Map<u32, PacketModel>,
    key: u32,
) -> bool {
    &&& after.contains_key(key) == before.contains_key(key)
    &&& before.contains_key(key) ==> after[key] == before[key]
}

/// Whether a packet is one of the stream's, with the given number, acknowledgement,
/// flags and body, made at the time `now`.
pub open spec fn is_packet_of(
    stream: StreamModel,
    packet: PacketModel,
    typ: u32,
    seq: u32,
    ack: u32,
    body: Seq<u8>,
    now: u64,
) -> bool {
    &&& packet.dest == stream.remote_addr
    &&& packet.header.stream_id == stream.remote_id
    &&& packet.header.typ == typ
    &&& packet.header.seq == seq
    &&& packet.header.ack == ack
    &&& packet.header.recv_win == u32::MAX
    &&& packet.header.data_offset == 0
    &&& packet.buf == packet.header.encoding() + body
    &&& packet.transmits == 0
    &&& packet.time_sent == now
}

/// Every packet goes to the remote's stream at the remote's address, says which
/// number comes next and what came in, and is a header with the body after it.
pub proof fn law_packets_are_addressed(stream: StreamModel, typ: u32, body: Seq<u8>, now: u64)
    ensures
        is_packet_of(
            stream,
            stream.packet(typ, body, now),
            typ,
            stream.seq,
            stream.rx.ack,
            body,
            now,
        ),
{
}

/// A new stream has sent and received nothing, has a window of two full packets,
/// and has its timer set to a second.
pub proof fn law_streams_start_empty(
    dest: crate::addr::SocketAddr,
    local_id: u32,
    remote_id: u32,
)
    ensures
        ({
            let stream = StreamModel::initial(dest, local_id, remote_id);
            &&& stream.remote_addr == dest
            &&& stream.remote_id == remote_id
            &&& stream.local_id == local_id
            &&& stream.seq == 0 && stream.remote_acked == 0 && stream.rx.ack == 0
            &&& stream.rx.read_cursor == 0
            &&& stream.inflight == 0
            &&& stream.cwnd == 2800
            &&& stream.timer == Some(1_000_000_000nat)
            &&& stream.rtt.rto == 1_000_000_000
            &&& stream.send_queue.len() == 0
            &&& forall|key: u32| !stream.outgoing.contains_key(key)
            &&& forall|key: u32| !stream.rx.incoming.contains_key(key)
            &&& stream.error is None
            &&& !stream.read_waker && !stream.write_waker && !stream.drive_waker
            &&& !stream.wakes.read && !stream.wakes.write && !stream.wakes.drive
        }),
{
}

/// Whether the packet `i` of a write of which `n` bytes were taken is kept and
/// queued, and has as its body the next 1380 bytes, or what is left.
pub open spec fn nth_written(
    stream: StreamModel,
    buf: Seq<u8>,
    now: u64,
    end: StreamModel,
    n: nat,
    i: int,
) -> bool {
    let key = (stream.seq + i) as u32;
    let stop = if 1380 * i + 1380 <= n {
        1380 * i + 1380
    } else {
        n as int
    };
    &&& end.outgoing.contains_key(key)
    &&& is_packet_of(
        stream,
        end.outgoing[key],
        UDX_HEADER_DATA,
        key,
        stream.rx.ack,
        buf.subrange(1380 * i, stop),
        now,
    )
    &&& end.send_queue[stream.send_queue.len() + i] == end.outgoing[key]
}

/// Whether the counters of `end` are right after `n` of `len` bytes were sent: in
/// as few packets as can be, and as many bytes as the window has room for.
pub open spec fn wrote_bytes(stream: StreamModel, len: nat, end: StreamModel, n: nat) -> bool {
    let packets = end.seq - stream.seq;
    let left = len - n;
    let next = if left <= 1380 {
        left
    } else {
        1380
    };
    &&& n <= len
    &&& packets >= 0
    &&& 1380 * packets - 1380 < n <= 1380 * packets
    &&& left > 0 ==> n == 1380 * packets && end.inflight + next > stream.cwnd
    &&& end.inflight == stream.inflight + n + 20 * packets
    &&& packets > 0 ==> driver_called(stream, end)
    &&& packets == 0 ==> end == stream
    &&& end == StreamModel {
        seq: end.seq,
        outgoing: end.outgoing,
        send_queue: end.send_queue,
        inflight: end.inflight,
        drive_waker: end.drive_waker,
        wakes: end.wakes,
        ..stream
    }
}

/// Whether `end` keeps and queues the packets of a write of which `n` bytes were
/// taken, and beside them what was kept and queued before.
pub open spec fn wrote_packets(
    stream: StreamModel,
    buf: Seq<u8>,
    now: u64,
    end: StreamModel,
    n: nat,
) -> bool {
    let packets = end.seq - stream.seq;
    &&& end.send_queue.len() == stream.send_queue.len() + packets
    &&& forall|i: int|
        0 <= i < stream.send_queue.len() ==> #[trigger] end.send_queue[i] == stream.send_queue[i]
    &&& forall|i: int| 0 <= i < packets ==> #[trigger] nth_written(stream, buf, now, end, n, i)
    &&& forall|key: u32|
        !(stream.seq <= key < end.seq) ==> #[trigger] same_at(stream.outgoing, end.outgoing, key)
}

/// How much is sent of a buffer.
proof fn lemma_wrote_bytes(stream: StreamModel, buf: Seq<u8>, now: u64)
    requires
        stream.wf(),
        stream.can_send(buf.len()),
    ensures
        wrote_bytes(stream, buf.len(), stream.send_all(buf, now).0, stream.send_all(buf, now).1),
    decreases buf.len(),
{
    if buf.len() > 0 && stream.inflight + chunk(buf).len() <= stream.cwnd {
        let body = chunk(buf);
        lemma_data_sent(stream, body, now);
        assert(stream.packet(UDX_HEADER_DATA, body, now).buf.len() == 20 + body.len());
        lemma_wrote_bytes(stream.data_sent(body, now), buf.skip(body.len() as int), now);
    }
}

/// In which packets a buffer is sent.
proof fn lemma_wrote_packets(stream: StreamModel, buf: Seq<u8>, now: u64)
    requires
        stream.wf(),
        stream.can_send(buf.len()),
    ensures
        wrote_packets(
            stream,
            buf,
            now,
            stream.send_all(buf, now).0,
            stream.send_all(buf, now).1,
        ),
    decreases buf.len(),
{
    if buf.len() > 0 && stream.inflight + chunk(buf).len() <= stream.cwnd {
        let (end, n) = stream.send_all(buf, now);
        let body = chunk(buf);
        let next = stream.data_sent(body, now);
        let rest = buf.skip(body.len() as int);
        lemma_data_sent(stream, body, now);
        lemma_wrote_bytes(next, rest, now);
        lemma_wrote_packets(next, rest, now);
        lemma_wrote_more(stream, buf, now, end, n);
    }
}

/// What one packet and the rest of a write come to.
proof fn lemma_wrote_more(stream: StreamModel, buf: Seq<u8>, now: u64, end: StreamModel, n: nat)
    requires
        buf.len() > 0,
        stream.seq < u32::MAX,
        ({
            let next = stream.data_sent(chunk(buf), now);
            let rest = buf.skip(chunk(buf).len() as int);
            let more = (n - chunk(buf).len()) as nat;
            &&& chunk(buf).len() <= n <= buf.len()
            &&& wrote_packets(next, rest, now, end, more)
            &&& wrote_bytes(next, rest.len(), end, more)
        }),
    ensures
        wrote_packets(stream, buf, now, end, n),
{
    let at = stream.send_queue.len() as int;
    let body = chunk(buf);
    let next = stream.data_sent(body, now);
    let rest = buf.skip(body.len() as int);
    let more = (n - body.len()) as nat;
    let packet = stream.packet(UDX_HEADER_DATA, body, now);
    assert(next.outgoing == stream.outgoing.insert(stream.seq, packet));
    assert(next.send_queue == stream.send_queue.push(packet));
    assert(same_at(next.outgoing, end.outgoing, stream.seq));
    assert(end.send_queue[at] == next.send_queue[at]);
    lemma_first_packet(stream, buf, now, end, n);
    assert forall|i: int| 0 <= i < end.seq - stream.seq implies #[trigger] nth_written(
        stream,
        buf,
        now,
        end,
        n,
        i,
    ) by {
        if i > 0 {
            assert(nth_written(next, rest, now, end, more, i - 1));
            lemma_later_packet(stream, buf, now, next, end, n, i);
        }
    }
    assert forall|i: int| 0 <= i < at implies #[trigger] end.send_queue[i]
        == stream.send_queue[i] by {
        assert(end.send_queue[i] == next.send_queue[i]);
    }
    assert forall|key: u32| !(stream.seq <= key < end.seq) implies #[trigger] same_at(
        stream.outgoing,
        end.outgoing,
        key,
    ) by {
        assert(same_at(next.outgoing, end.outgoing, key));
    }
}

/// A packet of the rest of a write is a packet of the write.
proof fn lemma_later_packet(
    stream: StreamModel,
    buf: Seq<u8>,
    now: u64,
    next: StreamModel,
    end: StreamModel,
    n: nat,
    i: int,
)
    requires
        next.seq == stream.seq + 1,
        next.remote_addr == stream.remote_addr,
        next.remote_id == stream.remote_id,
        next.rx == stream.rx,
        next.send_queue.len() == stream.send_queue.len() + 1,
        1380 * i < n <= buf.len(),
        i > 0,
        nth_written(next, buf.skip(1380), now, end, (n - 1380) as nat, i - 1),
    ensures
        nth_written(stream, buf, now, end, n, i),
{
    let stop = if 1380 * i + 1380 <= n {
        1380 * i + 1380
    } else {
        n as int
    };
    assert(buf.skip(1380).subrange(1380 * (i - 1), stop - 1380) =~= buf.subrange(1380 * i, stop));
}

/// The first packet of a write.
proof fn lemma_first_packet(
    stream: StreamModel,
    buf: Seq<u8>,
    now: u64,
    end: StreamModel,
    n: nat,
)
    requires
        chunk(buf).len() <= n <= buf.len(),
        end.outgoing.contains_key(stream.seq),
        end.outgoing[stream.seq] == stream.packet(UDX_HEADER_DATA, chunk(buf), now),
        end.send_queue[stream.send_queue.len() as int] == end.outgoing[stream.seq],
    ensures
        nth_written(stream, buf, now, end, n, 0),
{
    law_packets_are_addressed(stream, UDX_HEADER_DATA, chunk(buf), now);
    assert(chunk(buf) =~= buf.subrange(
        0,
        if 1380 <= n {
            1380
        } else {
            n as int
        },
    ));
}

/// A write takes as many bytes as the window has room for, cut into packets of
/// 1380 bytes of which only the last may be shorter, all of them kept and queued
/// in order. It waits exactly where there is no room for the first packet.
pub proof fn law_writes_fill_the_window(stream: StreamModel, buf: Seq<u8>, now: u64)
    requires
        stream.wf(),
        stream.error is None,
        stream.can_send(buf.len()),
    ensures
        ({
            let (end, result) = stream.write(buf, now);
            let first = if buf.len() <= 1380 {
                buf.len()
            } else {
                1380
            };
            &&& result is None <==> buf.len() > 0 && stream.inflight + first > stream.cwnd
            &&& result is None ==> end == StreamModel { write_waker: true, ..stream }
            &&& result matches Some(outcome) ==> outcome matches Ok(n) && wrote_bytes(
                stream,
                buf.len(),
                end,
                n,
            ) && wrote_packets(stream, buf, now, end, n)
        }),
{
    lemma_wrote_bytes(stream, buf, now);
    lemma_wrote_packets(stream, buf, now);
}

/// A stream that failed takes no bytes and gives none.
pub proof fn law_errors_refuse(
    stream: StreamModel,
    buf: Seq<u8>,
    now: u64,
    room: nat,
    error: ErrorModel,
)
    requires
        stream.error == Some(error),
    ensures
        stream.write(buf, now) == (stream, Some(Err::<nat, ErrorModel>(error))),
        stream.read(room).0 == stream,
        stream.read(room).1 == Seq::<u8>::empty(),
        stream.read(room).2 == Some(Err::<(), ErrorModel>(error)),
{
}

/// A read gives all bytes that can be read, or as many as there is room for. It
/// succeeds exactly if it gives bytes or gets past a packet, and else has to wait.
pub proof fn law_reads_give_what_there_is(stream: StreamModel, room: nat)
    requires
        stream.wf(),
        stream.error is None,
    ensures
        ({
            let (end, bytes, result) = stream.read(room);
            let readable = stream.rx.readable();
            let n = if readable.len() < room {
                readable.len()
            } else {
                room
            };
            let moved = end.rx.read_cursor > stream.rx.read_cursor;
            &&& bytes == readable.take(n as int)
            &&& end.rx.readable() == readable.skip(n as int)
            &&& end.rx.ack == stream.rx.ack
            &&& result == if bytes.len() > 0 || moved {
                Some(Ok::<(), ErrorModel>(()))
            } else {
                None
            }
            &&& end == StreamModel {
                rx: end.rx,
                read_waker: stream.read_waker || result is None,
                ..stream
            }
        }),
{
    law_read_in_order(stream.rx, room);
}

/// Whether the packet `key` is as it was, but sent so many times more often.
pub open spec fn resent_at(
    before: Map<u32, PacketModel>,
    after: Map<u32, PacketModel>,
    key: u32,
) -> bool {
    &&& before.contains_key(key) && after.contains_key(key)
    &&& after[key] == PacketModel { transmits: before[key].transmits + 1, ..before[key] }
}

/// Whether the entry `i` of the queue is the kept packet `key`, as it is kept.
pub open spec fn queued_at(stream: StreamModel, i: int, key: u32) -> bool {
    &&& 0 <= i < stream.send_queue.len()
    &&& stream.outgoing.contains_key(key)
    &&& stream.outgoing[key].header.seq == key
    &&& stream.send_queue[i] == stream.outgoing[key]
}

/// Whether every kept packet has its number in its header.
pub open spec fn numbered(stream: StreamModel) -> bool {
    forall|key: u32| #[trigger]
        stream.outgoing.contains_key(key) ==> stream.outgoing[key].header.seq == key
}

/// What sending again does to each packet, and what it adds to the queue.
proof fn lemma_resend_each(stream: StreamModel, from: u32, to: u32)
    requires
        numbered(stream),
    ensures
        ({
            let (after, ok) = stream.resend(from, to);
            let n = stream.send_queue.len() as int;
            &&& forall|key: u32|
                !(from <= key < to) ==> #[trigger] same_at(stream.outgoing, after.outgoing, key)
            &&& ok ==> forall|key: u32|
                from <= key < to && stream.outgoing.contains_key(key) ==> #[trigger] resent_at(
                    stream.outgoing,
                    after.outgoing,
                    key,
                )
            &&& after.send_queue.len() >= n
            &&& forall|i: int|
                0 <= i < n ==> #[trigger] after.send_queue[i] == stream.send_queue[i]
            &&& forall|i: int|
                n <= i < after.send_queue.len() ==> {
                    let key = (#[trigger] after.send_queue[i]).header.seq;
                    from <= key < to && queued_at(after, i, key)
                }
            &&& forall|i: int, j: int|
                n <= i < j < after.send_queue.len() ==> (
                #[trigger] after.send_queue[i]).header.seq < (
                #[trigger] after.send_queue[j]).header.seq
            &&& ok ==> forall|key: u32|
                from <= key < to && #[trigger] stream.outgoing.contains_key(key) ==> exists|i: int|
                    n <= i && #[trigger] queued_at(after, i, key)
            &&& after == StreamModel {
                outgoing: after.outgoing,
                send_queue: after.send_queue,
                ..stream
            }
        }),
    decreases to - from,
{
    let (after, ok) = stream.resend(from, to);
    let n = stream.send_queue.len() as int;
    if from < to {
        let start = (from + 1) as u32;
        if stream.outgoing.contains_key(from) {
            if stream.outgoing[from].transmits < crate::simple::MAX_TRANSMITS {
                let next = stream.resent(from);
                lemma_resend_each(next, start, to);
                assert(same_at(next.outgoing, after.outgoing, from));
                assert(resent_at(stream.outgoing, after.outgoing, from));
                assert(after.send_queue[n] == next.send_queue[n]);
                assert(queued_at(after, n, from));
                assert forall|key: u32| !(from <= key < to) implies #[trigger] same_at(
                    stream.outgoing,
                    after.outgoing,
                    key,
                ) by {
                    assert(same_at(next.outgoing, after.outgoing, key));
                }
                if ok {
                    assert forall|key: u32|
                        from <= key < to && stream.outgoing.contains_key(
                            key,
                        ) implies #[trigger] resent_at(stream.outgoing, after.outgoing, key) by {
                        if key != from {
                            assert(resent_at(next.outgoing, after.outgoing, key));
                        }
                    }
                    assert forall|key: u32|
                        from <= key < to && #[trigger] stream.outgoing.contains_key(
                            key,
                        ) implies exists|i: int| n <= i && #[trigger] queued_at(after, i, key) by {
                        if key != from {
                            assert(next.outgoing.contains_key(key));
                            let i = choose|i: int|
                                n + 1 <= i && #[trigger] queued_at(after, i, key);
                            assert(queued_at(after, i, key));
                        }
                    }
                }
                assert forall|i: int| 0 <= i < n implies #[trigger] after.send_queue[i]
                    == stream.send_queue[i] by {
                    assert(after.send_queue[i] == next.send_queue[i]);
                }
            }
        } else {
            lemma_resend_each(stream, start, to);
        }
    }
}

/// A timer that fires while nothing is unacknowledged changes nothing. Else the
/// window is halved, down to one full packet, and the timer is set to twice the
/// timeout. Then every packet that the remote has not acknowledged is queued again,
/// once and in order, and counted as sent once more; the stream fails if one was
/// sent as often as one may be.
pub proof fn law_timeouts_send_everything_again(stream: StreamModel, fired: bool)
    requires
        stream.wf(),
    ensures
        ({
            let (after, ok) = stream.checked_timeouts(fired);
            let from = stream.remote_acked;
            let to = stream.seq;
            let half = stream.cwnd / 2;
            let n = stream.send_queue.len() as int;
            if !fired || from == to {
                ok && after == stream
            } else {
                &&& after.cwnd == if half < UDX_MTU {
                    UDX_MTU as nat
                } else {
                    half
                }
                &&& after.timer == Some(2 * stream.rtt.rto)
                &&& ok <==> forall|key: u32|
                    from <= key < to && #[trigger] stream.outgoing.contains_key(key)
                        ==> stream.outgoing[key].transmits < 5
                &&& ok ==> forall|key: u32|
                    from <= key < to && stream.outgoing.contains_key(key) ==> #[trigger] resent_at(
                        stream.outgoing,
                        after.outgoing,
                        key,
                    )
                &&& forall|key: u32|
                    !(from <= key < to) ==> #[trigger] same_at(
                        stream.outgoing,
                        after.outgoing,
                        key,
                    )
                &&& after.send_queue.len() >= n
                &&& forall|i: int|
                    0 <= i < n ==> #[trigger] after.send_queue[i] == stream.send_queue[i]
                &&& forall|i: int|
                    n <= i < after.send_queue.len() ==> {
                        let key = (#[trigger] after.send_queue[i]).header.seq;
                        from <= key < to && queued_at(after, i, key)
                    }
                &&& forall|i: int, j: int|
                    n <= i < j < after.send_queue.len() ==> (
                    #[trigger] after.send_queue[i]).header.seq < (
                    #[trigger] after.send_queue[j]).header.seq
                &&& ok ==> forall|key: u32|
                    from <= key < to && #[trigger] stream.outgoing.contains_key(key) ==> exists|
                        i: int,
                    | n <= i && #[trigger] queued_at(after, i, key)
                &&& after == StreamModel {
                    timer: after.timer,
                    cwnd: after.cwnd,
                    outgoing: after.outgoing,
                    send_queue: after.send_queue,
                    ..stream
                }
            }
        }),
{
    if fired && stream.remote_acked != stream.seq {
        let start = StreamModel {
            timer: Some(2 * stream.rtt.rto),
            cwnd: shrunk(stream.cwnd),
            ..stream
        };
        lemma_resend_each(start, stream.remote_acked, stream.seq);
        law_timeout_resends_all(start, stream.remote_acked, stream.seq);
    }
}

/// What came in without a gap is acknowledged packet by packet: each answer
/// acknowledges one number more than the one before it, up to the awaited number.
pub proof fn law_answers_count_up(stream: StreamModel, now: u64)
    ensures
        ({
            let after = stream.with_acks(now);
            let n = stream.send_queue.len() as int;
            &&& is_first_missing(stream.rx.incoming, stream.rx.ack, after.rx.ack)
            &&& after.rx.incoming == stream.rx.incoming
            &&& after.rx.read_cursor == stream.rx.read_cursor
            &&& after.send_queue.len() == n + (after.rx.ack - stream.rx.ack)
            &&& forall|i: int|
                0 <= i < n ==> #[trigger] after.send_queue[i] == stream.send_queue[i]
            &&& forall|i: int|
                n <= i < after.send_queue.len() ==> is_packet_of(
                    stream,
                    #[trigger] after.send_queue[i],
                    0,
                    stream.seq,
                    (stream.rx.ack + (i - n) + 1) as u32,
                    Seq::empty(),
                    now,
                )
            &&& after.rx.ack > stream.rx.ack ==> driver_called(stream, after)
            &&& after.rx.ack == stream.rx.ack ==> after == stream
            &&& after == StreamModel {
                rx: after.rx,
                send_queue: after.send_queue,
                drive_waker: after.drive_waker,
                wakes: after.wakes,
                ..stream
            }
        }),
    decreases u32::MAX - stream.rx.ack,
{
    law_first_missing(stream.rx.incoming, stream.rx.ack);
    law_each_packet_is_acknowledged(stream, now);
    if stream.rx.ack < u32::MAX && stream.rx.incoming.contains_key(stream.rx.ack) {
        let counted = StreamModel {
            rx: crate::reassembly::ReassemblyModel {
                ack: (stream.rx.ack + 1) as u32,
                ..stream.rx
            },
            ..stream
        };
        let next = counted.with_state_packet(now);
        law_answers_count_up(next, now);
        law_packets_are_addressed(counted, 0, Seq::empty(), now);
        let after = stream.with_acks(now);
        let n = stream.send_queue.len() as int;
        assert(after == next.with_acks(now));
        assert(after.send_queue[n] == next.send_queue[n]);
        assert forall|i: int| 0 <= i < n implies #[trigger] after.send_queue[i]
            == stream.send_queue[i] by {
            assert(after.send_queue[i] == next.send_queue[i]);
        }
    }
}

/// A packet widens the window unless it acknowledges what the remote has
/// acknowledged already. Its data, if it has the DATA flag, is held under its
/// number, unless all up to it has come in before, and a reader that waits is woken
/// if it is the awaited one. Nothing else changes.
pub proof fn law_packets_are_taken_in(stream: StreamModel, packet: IncomingModel)
    ensures
        ({
            let after = stream.received(packet);
            let data = packet.header.typ & UDX_HEADER_DATA != 0;
            let called = data && packet.header.seq == stream.rx.ack;
            &&& if packet.header.ack != stream.remote_acked {
                is_grown(stream.cwnd, after.cwnd)
            } else {
                after.cwnd == stream.cwnd
            }
            &&& after.rx.ack == stream.rx.ack
            &&& after.rx.read_cursor == stream.rx.read_cursor
            &&& after.rx.incoming == if data && packet.header.seq >= stream.rx.ack {
                stream.rx.incoming.insert(packet.header.seq, packet)
            } else {
                stream.rx.incoming
            }
            &&& after.read_waker == (stream.read_waker && !called)
            &&& after.wakes == Wakes {
                read: stream.wakes.read || stream.read_waker && called,
                ..stream.wakes
            }
            &&& after == StreamModel {
                cwnd: after.cwnd,
                rx: after.rx,
                read_waker: after.read_waker,
                wakes: after.wakes,
                ..stream
            }
        }),
{
    law_window_grows_by_a_packet(stream.cwnd);
}

/// Several packets are taken in one after the other, in order.
pub proof fn law_packets_are_taken_in_order(
    stream: StreamModel,
    front: Seq<IncomingModel>,
    packet: IncomingModel,
)
    ensures
        stream.received_all(Seq::empty()) == stream,
        stream.received_all(front.push(packet)) == stream.received_all(front).received(packet),
    decreases front.len(),
{
    let all = front.push(packet);
    if front.len() > 0 {
        law_packets_are_taken_in_order(stream.received(front[0]), front.drop_first(), packet);
        assert(all.drop_first() =~= front.drop_first().push(packet));
    } else {
        assert(all.drop_first() =~= Seq::empty());
        assert(stream.received_all(all) == stream.received(packet).received_all(Seq::empty()));
    }
}

/// No acknowledgement among the packets is higher than the highest, and it is
/// that of one of them.
pub proof fn law_highest_acknowledgement(events: Seq<IncomingModel>)
    ensures
        forall|i: int|
            0 <= i < events.len() ==> (#[trigger] events[i]).header.ack <= max_ack(events),
        max_ack(events) == 0 || exists|i: int|
            0 <= i < events.len() && (#[trigger] events[i]).header.ack == max_ack(events),
    decreases events.len(),
{
    if events.len() > 0 {
        let rest = events.drop_first();
        law_highest_acknowledgement(rest);
        assert forall|i: int| 0 <= i < events.len() implies (#[trigger] events[i]).header.ack
            <= max_ack(events) by {
            if i > 0 {
                assert(rest[i - 1] == events[i]);
            }
        }
        if max_ack(events) == events[0].header.ack {
        } else if max_ack(rest) != 0 {
            let i = choose|i: int|
                0 <= i < rest.len() && (#[trigger] rest[i]).header.ack == max_ack(rest);
            assert(events[i + 1] == rest[i]);
        }
    }
}

/// A packet that is acknowledged is no longer in flight. Its round trip counts
/// exactly if it was sent again once; the timer starts anew, and a writer that waits
/// is woken if the window has room for a full packet.
pub proof fn law_round_trips_are_measured(stream: StreamModel, key: u32, now: u64)
    requires
        stream.wf(),
        stream.outgoing.contains_key(key),
    ensures
        ({
            let packet = stream.outgoing[key];
            let after = stream.ack_one(key, now);
            let nanos: nat = if now > packet.time_sent {
                (now - packet.time_sent) as nat
            } else {
                0
            };
            let room = after.inflight + UDX_MTU <= stream.cwnd;
            &&& !after.outgoing.contains_key(key)
            &&& forall|other: u32|
                other != key ==> #[trigger] same_at(stream.outgoing, after.outgoing, other)
            &&& after.inflight == stream.inflight - packet.buf.len()
            &&& after.rtt == if packet.transmits == 1 {
                stream.rtt.sampled(nanos)
            } else {
                stream.rtt
            }
            &&& after.timer == Some(after.rtt.rto)
            &&& after.write_waker == (stream.write_waker && !room)
            &&& after.wakes == Wakes {
                write: stream.wakes.write || stream.write_waker && room,
                ..stream.wakes
            }
            &&& after == StreamModel {
                outgoing: after.outgoing,
                inflight: after.inflight,
                rtt: after.rtt,
                timer: after.timer,
                write_waker: after.write_waker,
                wakes: after.wakes,
                ..stream
            }
        }),
{
    lemma_ack_one(stream, key, now);
}

/// A range is acknowledged packet by packet, in order: what is not kept is passed
/// over, and a range is its first part and then its second.
pub proof fn law_ranges_are_acknowledged_in_order(
    stream: StreamModel,
    from: u32,
    middle: u32,
    to: u32,
    now: u64,
)
    requires
        from <= middle <= to,
    ensures
        stream.ack_range(from, to, now) == stream.ack_range(from, middle, now).ack_range(
            middle,
            to,
            now,
        ),
        stream.ack_range(to, from, now) == stream,
        to == from + 1 && stream.outgoing.contains_key(from) ==> stream.ack_range(from, to, now)
            == stream.ack_one(from, now),
        to == from + 1 && !stream.outgoing.contains_key(from) ==> stream.ack_range(from, to, now)
            == stream,
    decreases middle - from,
{
    if from < middle {
        law_ranges_are_acknowledged_in_order(
            stream.ack_one(from, now),
            (from + 1) as u32,
            middle,
            to,
            now,
        );
    }
    if to == from + 1 {
        assert(stream.ack_one(from, now).ack_range(to, to, now) == stream.ack_one(from, now));
    }
}

/// Whether a packet is kept under a number from `from` up to `to`.
pub open spec fn keeps_some(stream: StreamModel, from: u32, to: u32) -> bool {
    exists|key: u32| from <= key < to && #[trigger] stream.outgoing.contains_key(key)
}

/// What an acknowledgement of a range changes.
proof fn lemma_ack_range(stream: StreamModel, from: u32, to: u32, now: u64)
    requires
        stream.wf(),
    ensures
        ({
            let after = stream.ack_range(from, to, now);
            let any = keeps_some(stream, from, to);
            let room = after.inflight + UDX_MTU <= stream.cwnd;
            &&& after.wf()
            &&& forall|key: u32|
                !(from <= key < to) ==> #[trigger] same_at(stream.outgoing, after.outgoing, key)
            &&& after.inflight <= stream.inflight
            &&& any ==> after.timer == Some(after.rtt.rto)
            &&& !any ==> after == stream
            &&& after.write_waker == (stream.write_waker && !(any && room))
            &&& after.wakes == Wakes {
                write: stream.wakes.write || stream.write_waker && any && room,
                ..stream.wakes
            }
            &&& after == StreamModel {
                outgoing: after.outgoing,
                inflight: after.inflight,
                rtt: after.rtt,
                timer: after.timer,
                write_waker: after.write_waker,
                wakes: after.wakes,
                ..stream
            }
        }),
    decreases to - from,
{
    if from < to {
        let start = (from + 1) as u32;
        let next = stream.ack_one(from, now);
        let after = stream.ack_range(from, to, now);
        lemma_ack_one(stream, from, now);
        lemma_ack_range(next, start, to, now);
        if stream.outgoing.contains_key(from) {
            law_round_trips_are_measured(stream, from, now);
            assert(keeps_some(stream, from, to));
        } else {
            assert(next == stream);
            if keeps_some(stream, from, to) {
                let key = choose|key: u32|
                    from <= key < to && #[trigger] stream.outgoing.contains_key(key);
                assert(start <= key < to && next.outgoing.contains_key(key));
            }
            if keeps_some(next, start, to) {
                let key = choose|key: u32|
                    start <= key < to && #[trigger] next.outgoing.contains_key(key);
                assert(from <= key < to && stream.outgoing.contains_key(key));
            }
        }
        assert forall|key: u32| !(from <= key < to) implies #[trigger] same_at(
            stream.outgoing,
            after.outgoing,
            key,
        ) by {
            assert(same_at(next.outgoing, after.outgoing, key));
            assert(same_at(stream.outgoing, next.outgoing, key));
        }
    }
}

/// An acknowledgement that is not new changes nothing. A new one moves what the
/// remote has acknowledged up to it, and exactly the packets below it are forgotten.
/// If there is one, the timer starts anew, and a writer that waits is woken if the
/// window has room for a full packet.
pub proof fn law_acknowledgements_are_noted(stream: StreamModel, ack: u32, now: u64)
    requires
        stream.wf(),
    ensures
        ({
            let after = stream.remote_acked_to(ack, now);
            let any = keeps_some(stream, stream.remote_acked, ack);
            let room = after.inflight + UDX_MTU <= stream.cwnd;
            if ack <= stream.remote_acked {
                after == stream
            } else {
                &&& after.remote_acked == ack
                &&& forall|key: u32|
                    stream.remote_acked <= key < ack ==> !#[trigger] after.outgoing.contains_key(
                        key,
                    )
                &&& forall|key: u32|
                    !(stream.remote_acked <= key < ack) ==> #[trigger] same_at(
                        stream.outgoing,
                        after.outgoing,
                        key,
                    )
                &&& after.rtt == stream.ack_range(stream.remote_acked, ack, now).rtt
                &&& any ==> after.timer == Some(after.rtt.rto)
                &&& !any ==> after == StreamModel { remote_acked: ack, ..stream }
                &&& after.write_waker == (stream.write_waker && !(any && room))
                &&& after.wakes == Wakes {
                    write: stream.wakes.write || stream.write_waker && any && room,
                    ..stream.wakes
                }
                &&& after == StreamModel {
                    remote_acked: ack,
                    outgoing: after.outgoing,
                    inflight: after.inflight,
                    rtt: after.rtt,
                    timer: after.timer,
                    write_waker: after.write_waker,
                    wakes: after.wakes,
                    ..stream
                }
                &&& after.wf()
            }
        }),
{
    if ack > stream.remote_acked {
        lemma_ack_range(stream, stream.remote_acked, ack, now);
        lemma_ack_range_removes(stream, stream.remote_acked, ack, now);
    }
}

/// Packets move neither what the remote has acknowledged nor what was sent.
proof fn lemma_received_all_keeps(stream: StreamModel, events: Seq<IncomingModel>)
    ensures
        ({
            let after = stream.received_all(events);
            after == StreamModel {
                cwnd: after.cwnd,
                rx: after.rx,
                read_waker: after.read_waker,
                wakes: after.wakes,
                ..stream
            }
        }),
        stream.received_all(events).rx.ack == stream.rx.ack,
    decreases events.len(),
{
    if events.len() > 0 {
        lemma_received_all_keeps(stream.received(events[0]), events.drop_first());
    }
}

/// A round takes in all packets, answers all that came in without a gap, and then
/// notes the highest acknowledgement, if it is new.
pub proof fn law_rounds_answer_and_note(
    stream: StreamModel,
    events: Seq<IncomingModel>,
    now: u64,
)
    ensures
        ({
            let after = stream.polled_incoming(events, now);
            let taken = stream.received_all(events);
            let n = stream.send_queue.len() as int;
            &&& after.remote_acked >= stream.remote_acked
            &&& forall|i: int|
                0 <= i < events.len() ==> (#[trigger] events[i]).header.ack <= after.remote_acked
            &&& after.remote_acked == stream.remote_acked || exists|i: int|
                0 <= i < events.len() && (#[trigger] events[i]).header.ack == after.remote_acked
            &&& forall|key: u32|
                stream.remote_acked <= key < after.remote_acked
                    ==> !#[trigger] after.outgoing.contains_key(key)
            &&& forall|key: u32|
                !(stream.remote_acked <= key < after.remote_acked)
                    ==> #[trigger] after.outgoing.contains_key(key)
                    == stream.outgoing.contains_key(key)
            &&& after == taken.with_acks(now).remote_acked_to(after.remote_acked, now)
            &&& after.cwnd == taken.cwnd
            &&& after.rx.incoming == taken.rx.incoming
            &&& is_first_missing(after.rx.incoming, stream.rx.ack, after.rx.ack)
            &&& after.send_queue.len() == n + (after.rx.ack - stream.rx.ack)
            &&& after.seq == stream.seq && after.error == stream.error
        }),
{
    let taken = stream.received_all(events);
    let answered = taken.with_acks(now);
    law_highest_acknowledgement(events);
    lemma_received_all_keeps(stream, events);
    law_answers_count_up(taken, now);
    lemma_ack_range_removes(answered, answered.remote_acked, max_ack(events), now);
    lemma_ack_range_frame(answered, answered.remote_acked, max_ack(events), now);
}

/// An acknowledgement of a range leaves what came in and the queue as they are.
proof fn lemma_ack_range_frame(stream: StreamModel, from: u32, to: u32, now: u64)
    ensures
        ({
            let after = stream.ack_range(from, to, now);
            after == StreamModel {
                outgoing: after.outgoing,
                inflight: after.inflight,
                rtt: after.rtt,
                timer: after.timer,
                write_waker: after.write_waker,
                wakes: after.wakes,
                ..stream
            }
        }),
    decreases to - from,
{
    if from < to {
        lemma_ack_range_frame(stream.ack_one(from, now), (from + 1) as u32, to, now);
    }
}

/// Models show what they stand for, in order.
pub proof fn law_models_are_faithful(
    packet: Packet,
    packets: Seq<Packet>,
    kept: Map<u32, Packet>,
    events: Seq<EventIncoming>,
)
    ensures
        packet@.dest == packet.dest,
        packet@.header == packet.header,
        packet@.buf == packet.buf@,
        packet@.transmits == packet.transmits,
        packet@.time_sent == packet.time_sent,
        packet_seq(packets).len() == packets.len(),
        forall|i: int| 0 <= i < packets.len() ==> #[trigger] packet_seq(packets)[i] == packets[i]@,
        forall|key: u32|
            kept.contains_key(key) == #[trigger] packet_map(kept).contains_key(key),
        forall|key: u32|
            kept.contains_key(key) ==> #[trigger] packet_map(kept)[key] == kept[key]@,
        incoming_models(events).len() == events.len(),
        forall|i: int|
            0 <= i < events.len() ==> #[trigger] incoming_models(events)[i] == events[i].packet(),
{
}

/// A packet is for a stream exactly if the socket has one of the number that its
/// header names, however long it is; it arrives as its header and what follows.
pub proof fn law_open_streams_get_their_packets<H>(
    socket: SocketModel<H>,
    data: Seq<u8>,
    from: crate::addr::SocketAddr,
)
    requires
        is_packet(data),
    ensures
        Header::starts(data),
        socket.arrival(data, from) is Dgram <==> !socket.streams.contains_key(named(data)),
        socket.streams.contains_key(named(data)) ==> socket.arrival(data, from) == Arrival::Stream(
            named(data),
            IncomingModel {
                header: Header::decoding(data),
                data: data.skip(20),
                read_offset: 0,
                from,
            },
        ),
{
    assert(Header::decoding(data).stream_id == named(data));
}

/// A round hands out all that is queued, with what a timeout queued again; where a
/// packet was sent too often, the stream fails with a timeout and nothing is sent.
/// Either way the driver then waits.
pub proof fn law_rounds_send_all_that_is_queued(stream: StreamModel, fired: bool)
    requires
        stream.wf(),
    ensures
        ({
            let (after, sent) = stream.end_round(fired);
            let (checked, ok) = stream.checked_timeouts(fired);
            &&& after.drive_waker
            &&& ok ==> {
                &&& sent == checked.send_queue
                &&& sent.len() >= stream.send_queue.len()
                &&& forall|i: int|
                    0 <= i < stream.send_queue.len() ==> #[trigger] sent[i]
                        == stream.send_queue[i]
                &&& after.send_queue.len() == 0
                &&& after.error == stream.error
            }
            &&& !ok ==> {
                &&& sent.len() == 0
                &&& after.error matches Some(error)
                &&& error.kind is TimedOut
                &&& after.send_queue == checked.send_queue
            }
            &&& after == StreamModel {
                drive_waker: true,
                send_queue: after.send_queue,
                error: after.error,
                ..checked
            }
        }),
{
    law_timeouts_send_everything_again(stream, fired);
}

/// Packets are sent one at a time, in the order in which they were queued: the next
/// is taken only once none is pending. After fifty rounds others may run first.
pub proof fn law_packets_are_sent_in_order<H>(socket: SocketModel<H>, iters: usize)
    ensures
        ({
            let (after, step) = socket.next_step(iters);
            &&& step is Yield <==> iters > 50
            &&& step is Send <==> iters <= 50 && socket.pending_send is Some
            &&& step is Idle <==> iters <= 50 && socket.pending_send is None && socket.queue.len()
                == 0
            &&& step is Took ==> {
                &&& socket.pending_send is None
                &&& after.pending_send matches Some(packet)
                &&& socket.queue == seq![packet] + after.queue
            }
            &&& !(step is Took) ==> after == socket
            &&& after.streams == socket.streams
        }),
{
    let (after, step) = socket.next_step(iters);
    if step is Took {
        assert(socket.queue =~= seq![socket.queue[0]] + after.queue);
    }
}

/// A packet stays pending until the UDP socket took all of its bytes or failed; the
/// driver goes on exactly if it took all. A failure is told.
pub proof fn law_packets_are_sent_whole<H>(
    socket: SocketModel<H>,
    packet: PacketModel,
    outcome: OutcomeModel,
)
    requires
        socket.pending_send == Some(packet),
    ensures
        ({
            let (after, result) = socket.after_send(outcome);
            let whole = outcome == OutcomeModel::Sent(packet.buf.len());
            &&& after.pending_send is None <==> whole || outcome is Failed
            &&& after.pending_send is Some ==> after == socket
            &&& result == Ok::<bool, ErrorModel>(true) <==> whole
            &&& result matches Err(error) ==> outcome == OutcomeModel::Failed(error)
            &&& outcome is Failed ==> result is Err
            &&& after.queue == socket.queue && after.streams == socket.streams
        }),
{
}

/// There is room for what is to be sent or received exactly if the numbers and the
/// window have room for it.
pub proof fn law_room_is_what_the_numbers_have(stream: StreamModel, bytes: nat, packets: nat)
    ensures
        stream.can_send(bytes) <==> stream.seq + taken(stream.inflight, stream.cwnd, bytes).0
            <= u32::MAX,
        stream.can_receive(packets) <==> stream.cwnd + UDX_MTU * packets + 2 * UDX_MTU
            <= usize::MAX,
{
}

} // verus!
