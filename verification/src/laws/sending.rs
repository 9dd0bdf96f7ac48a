//! What a stream promises of what it sends: which packets a write makes, when
//! they are given up for lost, and which of them are sent again.

use vstd::prelude::*;

use crate::congestion::{law_window_shrinks, shrunk};
use crate::constants::{
    UDX_HEADER_DATA, UDX_HEADER_END, UDX_HEADER_SIZE, UDX_MAX_TRANSMITS, UDX_MTU,
};
use crate::error::ErrorModel;
use crate::packet::{PacketModel, PacketRefModel};
use crate::stream::{
    chunk, lemma_data_sent, lemma_flush_frame, lemma_lose_frame, taken, StreamModel, StreamStats,
    Wakes,
};

verus! {

/// Whether the driver, if it waited before, was woken.
pub open spec fn driver_called(before: StreamModel, after: StreamModel) -> bool {
    &&& !after.drive_waker
    &&& after.wakes == Wakes { drive: before.wakes.drive || before.drive_waker, ..before.wakes }
}

/// Whether both keep the same packet under a number, or both none.
pub open spec fn same_at(
    before: Map<u32, PacketModel>,
    after: Map<u32, PacketModel>,
    key: u32,
) -> bool {
    &&& after.contains_key(key) == before.contains_key(key)
    &&& before.contains_key(key) ==> after[key] == before[key]
}

/// Every packet goes to the remote's stream at the remote's address, says which
/// number comes next and what came in, and is a header with the body after it.
/// Once this side has closed, no flag but END is left.
pub proof fn law_packets_are_addressed(stream: StreamModel, typ: u32, body: Seq<u8>)
    ensures
        ({
            let packet = stream.packet(typ, body);
            &&& packet.dest == stream.remote_addr
            &&& packet.header.stream_id == stream.remote_id
            &&& packet.header.seq == stream.seq
            &&& packet.header.ack == stream.rx.ack
            &&& packet.header.recv_win == u32::MAX
            &&& packet.header.data_offset == 0
            &&& stream.state.is_local_closed() ==> packet.header.typ == typ & UDX_HEADER_END
            &&& !stream.state.is_local_closed() ==> packet.header.typ == typ
            &&& packet.buf == packet.header.encoding() + body
            &&& packet.buf.len() == UDX_HEADER_SIZE + body.len()
            &&& packet.header_only <==> body.len() == 0
            &&& packet.transmits == 0 && packet.time_sent == 0
            &&& !packet.waiting && !packet.skip
        }),
{
}

/// Whether an entry of the queue is a packet without data that tells the remote
/// what came in, and whether the stream has ended.
pub open spec fn tells_state(entry: PacketRefModel, stream: StreamModel) -> bool {
    &&& entry matches PacketRefModel::Owned(packet)
    &&& packet.dest == stream.remote_addr
    &&& packet.header.stream_id == stream.remote_id
    &&& packet.header.seq == stream.seq
    &&& packet.header.ack == stream.rx.ack
    &&& packet.header.typ == if stream.error is Some {
        UDX_HEADER_END
    } else {
        0
    }
    &&& packet.buf == packet.header.encoding()
    &&& !packet.skip
}

/// Telling the remote how things stand adds one packet to the end of the queue,
/// counts it, wakes the driver and does nothing else.
pub proof fn law_state_packets_tell_the_state(stream: StreamModel)
    requires
        stream.can_answer(),
    ensures
        ({
            let after = stream.with_state_packet();
            let n = stream.send_queue.len();
            &&& after.send_queue.len() == n + 1
            &&& after.send_queue.take(n as int) == stream.send_queue
            &&& tells_state(after.send_queue[n as int], stream)
            &&& after.stats == (StreamStats {
                tx_packets: (stream.stats.tx_packets + 1) as usize,
                ..stream.stats
            })
            &&& driver_called(stream, after)
            &&& after == StreamModel {
                send_queue: after.send_queue,
                stats: after.stats,
                drive_waker: after.drive_waker,
                wakes: after.wakes,
                ..stream
            }
        }),
{
    let after = stream.with_state_packet();
    assert(2u32 & 2u32 == 2 && 0u32 & 2u32 == 0) by (bit_vector);
    assert(stream.state_packet().buf =~= stream.state_packet().header.encoding());
    assert(after.send_queue.take(stream.send_queue.len() as int) =~= stream.send_queue);
}

/// Whether a packet is the data packet `key` of a stream, with the given body.
pub open spec fn is_data_packet(
    stream: StreamModel,
    packet: PacketModel,
    key: u32,
    body: Seq<u8>,
) -> bool {
    &&& packet.dest == stream.remote_addr
    &&& packet.header.stream_id == stream.remote_id
    &&& packet.header.typ == UDX_HEADER_DATA
    &&& packet.header.seq == key
    &&& packet.header.ack == stream.rx.ack
    &&& packet.header.recv_win == u32::MAX
    &&& packet.header.data_offset == 0
    &&& packet.buf == packet.header.encoding() + body
    &&& packet.transmits == 0 && packet.time_sent == 0
    &&& !packet.waiting && !packet.skip
}

/// Whether the packet `i` of a write of which `n` bytes were taken is kept and
/// queued, and has as its body the next 1380 bytes, or what is left.
pub open spec fn nth_written(
    stream: StreamModel,
    buf: Seq<u8>,
    end: StreamModel,
    n: nat,
    i: int,
) -> bool {
    let key = (stream.seq + i) as u32;
    let stop = if 1380 * i + 1380 <= n {
        1380 * i + 1380
    } else {
        n as int
    };
    &&& end.outgoing.contains_key(key)
    &&& is_data_packet(stream, end.outgoing[key], key, buf.subrange(1380 * i, stop))
    &&& end.send_queue[stream.send_queue.len() + i] == PacketRefModel::Shared(end.outgoing[key])
}

/// Whether the counters of `end` are right after `n` of `len` bytes were sent: in
/// as few packets as can be, and as many bytes as the window has room for.
pub open spec fn wrote_bytes(stream: StreamModel, len: nat, end: StreamModel, n: nat) -> bool {
    let packets = end.seq - stream.seq;
    let left = len - n;
    let next = if left <= 1380 {
        left
    } else {
        1380
    };
    &&& n <= len
    &&& packets >= 0
    &&& 1380 * packets - 1380 < n <= 1380 * packets
    &&& left > 0 ==> n == 1380 * packets && end.inflight + next > stream.cwnd
    &&& end.inflight == stream.inflight + n + 20 * packets
    &&& end.stats == StreamStats {
        tx_packets: (stream.stats.tx_packets + packets) as usize,
        tx_bytes: (stream.stats.tx_bytes + n) as usize,
        inflight_packets: (stream.stats.inflight_packets + packets) as usize,
        inflight_bytes: (stream.stats.inflight_bytes + n) as usize,
        ..stream.stats
    }
    &&& packets > 0 ==> driver_called(stream, end)
    &&& packets == 0 ==> end == stream
    &&& end == StreamModel {
        seq: end.seq,
        outgoing: end.outgoing,
        send_queue: end.send_queue,
        inflight: end.inflight,
        stats: end.stats,
        drive_waker: end.drive_waker,
        wakes: end.wakes,
        ..stream
    }
}

/// Whether `end` keeps and queues the packets of a write of which `n` bytes were
/// taken, and beside them what was kept and queued before.
pub open spec fn wrote_packets(
    stream: StreamModel,
    buf: Seq<u8>,
    end: StreamModel,
    n: nat,
) -> bool {
    let packets = end.seq - stream.seq;
    &&& end.send_queue.len() == stream.send_queue.len() + packets
    &&& forall|i: int|
        0 <= i < stream.send_queue.len() ==> #[trigger] end.send_queue[i] == stream.send_queue[i]
    &&& forall|i: int| 0 <= i < packets ==> #[trigger] nth_written(stream, buf, end, n, i)
    &&& forall|key: u32|
        !(stream.seq <= key < end.seq) ==> #[trigger] same_at(stream.outgoing, end.outgoing, key)
}

/// How much is sent of a buffer.
proof fn lemma_wrote_bytes(stream: StreamModel, buf: Seq<u8>)
    requires
        stream.wf(),
        stream.error is None,
        stream.can_send(buf.len()),
    ensures
        wrote_bytes(stream, buf.len(), stream.send_all(buf).0, stream.send_all(buf).1),
    decreases buf.len(),
{
    if buf.len() > 0 && stream.inflight + chunk(buf).len() <= stream.cwnd {
        let body = chunk(buf);
        lemma_data_sent(stream, body);
        assert(stream.packet(UDX_HEADER_DATA, body).buf.len() == 20 + body.len());
        lemma_wrote_bytes(stream.data_sent(body), buf.skip(body.len() as int));
    }
}

/// In which packets a buffer is sent.
proof fn lemma_wrote_packets(stream: StreamModel, buf: Seq<u8>)
    requires
        stream.wf(),
        stream.error is None,
        stream.can_send(buf.len()),
    ensures
        wrote_packets(stream, buf, stream.send_all(buf).0, stream.send_all(buf).1),
    decreases buf.len(),
{
    if buf.len() > 0 && stream.inflight + chunk(buf).len() <= stream.cwnd {
        let (end, n) = stream.send_all(buf);
        let body = chunk(buf);
        let next = stream.data_sent(body);
        let rest = buf.skip(body.len() as int);
        lemma_data_sent(stream, body);
        lemma_wrote_bytes(next, rest);
        lemma_wrote_packets(next, rest);
        lemma_wrote_more(stream, buf, end, n);
    }
}

/// What one packet and the rest of a write come to.
proof fn lemma_wrote_more(stream: StreamModel, buf: Seq<u8>, end: StreamModel, n: nat)
    requires
        buf.len() > 0,
        !stream.state.is_local_closed(),
        stream.seq < u32::MAX,
        ({
            let next = stream.data_sent(chunk(buf));
            let rest = buf.skip(chunk(buf).len() as int);
            let more = (n - chunk(buf).len()) as nat;
            &&& chunk(buf).len() <= n <= buf.len()
            &&& wrote_packets(next, rest, end, more)
            &&& wrote_bytes(next, rest.len(), end, more)
        }),
    ensures
        wrote_packets(stream, buf, end, n),
{
    let at = stream.send_queue.len() as int;
    let body = chunk(buf);
    let next = stream.data_sent(body);
    let rest = buf.skip(body.len() as int);
    let more = (n - body.len()) as nat;
    let packet = stream.packet(UDX_HEADER_DATA, body);
    assert(next.outgoing == stream.outgoing.insert(stream.seq, packet));
    assert(next.send_queue == stream.send_queue.push(PacketRefModel::Shared(packet)));
    assert(same_at(next.outgoing, end.outgoing, stream.seq));
    assert(end.send_queue[at] == next.send_queue[at]);
    lemma_first_packet(stream, buf, end, n);
    assert forall|i: int| 0 <= i < end.seq - stream.seq implies #[trigger] nth_written(
        stream,
        buf,
        end,
        n,
        i,
    ) by {
        if i > 0 {
            assert(nth_written(next, rest, end, more, i - 1));
            lemma_later_packet(stream, buf, next, end, n, i);
        }
    }
    assert forall|i: int| 0 <= i < at implies #[trigger] end.send_queue[i]
        == stream.send_queue[i] by {
        assert(end.send_queue[i] == next.send_queue[i]);
    }
    assert forall|key: u32| !(stream.seq <= key < end.seq) implies #[trigger] same_at(
        stream.outgoing,
        end.outgoing,
        key,
    ) by {
        assert(same_at(next.outgoing, end.outgoing, key));
    }
}

/// The packet of a data packet that was just sent.
proof fn lemma_is_data_packet(stream: StreamModel, body: Seq<u8>)
    requires
        !stream.state.is_local_closed(),
    ensures
        is_data_packet(stream, stream.packet(UDX_HEADER_DATA, body), stream.seq, body),
{
}

/// A packet of the rest of a write is a packet of the write.
proof fn lemma_later_packet(
    stream: StreamModel,
    buf: Seq<u8>,
    next: StreamModel,
    end: StreamModel,
    n: nat,
    i: int,
)
    requires
        next.seq == stream.seq + 1,
        next.remote_addr == stream.remote_addr,
        next.remote_id == stream.remote_id,
        next.rx == stream.rx,
        next.send_queue.len() == stream.send_queue.len() + 1,
        1380 * i < n <= buf.len(),
        i > 0,
        nth_written(next, buf.skip(1380), end, (n - 1380) as nat, i - 1),
    ensures
        nth_written(stream, buf, end, n, i),
{
    let stop = if 1380 * i + 1380 <= n {
        1380 * i + 1380
    } else {
        n as int
    };
    assert(buf.skip(1380).subrange(1380 * (i - 1), stop - 1380) =~= buf.subrange(1380 * i, stop));
}

/// The first packet of a write.
proof fn lemma_first_packet(stream: StreamModel, buf: Seq<u8>, end: StreamModel, n: nat)
    requires
        !stream.state.is_local_closed(),
        chunk(buf).len() <= n <= buf.len(),
        end.outgoing.contains_key(stream.seq),
        end.outgoing[stream.seq] == stream.packet(UDX_HEADER_DATA, chunk(buf)),
        end.send_queue[stream.send_queue.len() as int] == PacketRefModel::Shared(
            end.outgoing[stream.seq],
        ),
    ensures
        nth_written(stream, buf, end, n, 0),
{
    lemma_is_data_packet(stream, chunk(buf));
    assert(chunk(buf) =~= buf.subrange(
        0,
        if 1380 <= n {
            1380
        } else {
            n as int
        },
    ));
}

/// Whether `end` is the stream after `n` bytes of `buf` were sent.
pub open spec fn wrote(stream: StreamModel, buf: Seq<u8>, end: StreamModel, n: nat) -> bool {
    wrote_bytes(stream, buf.len(), end, n) && wrote_packets(stream, buf, end, n)
}

/// A write takes as many bytes as the window has room for, cut into packets of
/// 1380 bytes of which only the last may be shorter, all of them kept and queued
/// in order. It waits exactly where there is no room for the first packet.
pub proof fn law_writes_fill_the_window(stream: StreamModel, buf: Seq<u8>)
    requires
        stream.wf(),
        stream.error is None,
        stream.can_send(buf.len()),
    ensures
        ({
            let (end, result) = stream.write(buf);
            let first = if buf.len() <= 1380 {
                buf.len()
            } else {
                1380
            };
            &&& result is None <==> buf.len() > 0 && stream.inflight + first > stream.cwnd
            &&& result is None ==> end == StreamModel { write_waker: true, ..stream }
            &&& result matches Some(outcome) ==> outcome matches Ok(n) && wrote(
                stream,
                buf,
                end,
                n,
            )
        }),
{
    lemma_wrote_bytes(stream, buf);
    lemma_wrote_packets(stream, buf);
}

/// A stream that has an error takes no bytes: a write gives the error and
/// changes nothing.
pub proof fn law_errors_refuse_writes(stream: StreamModel, buf: Seq<u8>, error: ErrorModel)
    requires
        stream.error == Some(error),
    ensures
        stream.write(buf) == (stream, Some(Err::<nat, ErrorModel>(error))),
{
}

/// A new stream has sent and received nothing, is open, has a window of two full
/// packets, and has its timer set to a second.
pub proof fn law_streams_start_empty(
    dest: crate::addr::SocketAddr,
    remote_id: u32,
    local_id: u32,
    source: u64,
)
    ensures
        ({
            let stream = StreamModel::initial(dest, remote_id, local_id, source);
            &&& stream.remote_addr == dest
            &&& stream.remote_id == remote_id
            &&& stream.local_id == local_id
            &&& stream.source == source
            &&& stream.seq == 0 && stream.remote_acked == 0 && stream.rx.ack == 0
            &&& stream.rx.read_cursor == 0
            &&& stream.inflight == 0
            &&& stream.cwnd == 2800
            &&& stream.timer == Some(1_000_000_000nat)
            &&& stream.rtt.rto == 1_000_000_000
            &&& stream.send_queue.len() == 0 && stream.acked.len() == 0
            &&& forall|key: u32| !stream.outgoing.contains_key(key)
            &&& forall|key: u32| !stream.rx.incoming.contains_key(key)
            &&& stream.error is None && stream.state is Open && !stream.on_close
            &&& !stream.read_waker && !stream.write_waker && !stream.drive_waker
            &&& !stream.wakes.read && !stream.wakes.write && !stream.wakes.drive
            &&& stream.stats.tx_packets == 0 && stream.stats.tx_bytes == 0
            &&& stream.stats.rx_packets == 0 && stream.stats.rx_bytes == 0
            &&& stream.stats.inflight_packets == 0 && stream.stats.inflight_bytes == 0
        }),
{
}

/// Whether the stream keeps a packet under the number that waits to be sent again.
pub open spec fn waits(stream: StreamModel, key: u32) -> bool {
    stream.outgoing.contains_key(key) && stream.outgoing[key].waiting
}

/// Whether, of the packets with numbers from `from` up to `to`, the first that
/// waits is `key`.
pub open spec fn first_waiting(stream: StreamModel, from: u32, to: u32, key: u32) -> bool {
    &&& from <= key < to
    &&& waits(stream, key)
    &&& forall|other: u32| from <= other < key ==> !#[trigger] waits(stream, other)
}

/// Whether the packet under the number is the one that was kept before, but that
/// it need not wait any more.
pub open spec fn kept_or_sent(before: StreamModel, after: StreamModel, key: u32) -> bool {
    &&& after.outgoing.contains_key(key) == before.outgoing.contains_key(key)
    &&& before.outgoing.contains_key(key) ==> {
        &&& after.outgoing[key] == PacketModel {
            waiting: after.outgoing[key].waiting,
            ..before.outgoing[key]
        }
        &&& after.outgoing[key].waiting ==> before.outgoing[key].waiting
    }
}

/// Whether the entry `i` of the queue is the kept packet `key`, as it is kept.
pub open spec fn queued_at(stream: StreamModel, i: int, key: u32) -> bool {
    &&& 0 <= i < stream.send_queue.len()
    &&& stream.outgoing.contains_key(key)
    &&& stream.send_queue[i] == PacketRefModel::Shared(stream.outgoing[key])
    &&& stream.outgoing[key].header.seq == key
}

/// Whether the packet `key` waited before and does not wait after.
pub open spec fn sent_again(before: StreamModel, after: StreamModel, key: u32) -> bool {
    waits(before, key) && !waits(after, key)
}

/// Whether every kept packet has its number in its header.
pub open spec fn numbered(stream: StreamModel) -> bool {
    forall|key: u32| #[trigger]
        stream.outgoing.contains_key(key) ==> stream.outgoing[key].header.seq == key
}

/// Queueing again leaves the packets as they are, but that some wait no more.
proof fn lemma_flush_keeps(stream: StreamModel, from: u32, to: u32)
    ensures
        forall|key: u32| #[trigger] kept_or_sent(stream, stream.flush(from, to), key),
        forall|key: u32|
            !(from <= key < to) ==> #[trigger] same_at(
                stream.outgoing,
                stream.flush(from, to).outgoing,
                key,
            ),
    decreases to - from,
{
    let after = stream.flush(from, to);
    if from < to {
        if waits(stream, from) {
            if stream.inflight + stream.outgoing[from].buf.len() <= stream.cwnd {
                let next = stream.requeued(from);
                lemma_flush_keeps(next, (from + 1) as u32, to);
                assert forall|key: u32| #[trigger] kept_or_sent(stream, after, key) by {
                    assert(kept_or_sent(next, after, key));
                }
                assert forall|key: u32| !(from <= key < to) implies #[trigger] same_at(
                    stream.outgoing,
                    after.outgoing,
                    key,
                ) by {
                    assert(same_at(next.outgoing, after.outgoing, key));
                }
            }
        } else {
            lemma_flush_keeps(stream, (from + 1) as u32, to);
        }
    }
}

/// Queueing again stops at the first packet for which there is no room.
proof fn lemma_flush_stops(stream: StreamModel, from: u32, to: u32)
    ensures
        forall|one: u32, other: u32|
            from <= one <= other < to && #[trigger] waits(stream.flush(from, to), one)
                && #[trigger] waits(stream, other) ==> waits(stream.flush(from, to), other),
        forall|key: u32| #[trigger]
            first_waiting(stream.flush(from, to), from, to, key) ==> stream.flush(from, to).inflight
                + stream.flush(from, to).outgoing[key].buf.len() > stream.cwnd,
    decreases to - from,
{
    let after = stream.flush(from, to);
    if from < to {
        if waits(stream, from) {
            if stream.inflight + stream.outgoing[from].buf.len() <= stream.cwnd {
                let next = stream.requeued(from);
                let start = (from + 1) as u32;
                lemma_flush_stops(next, start, to);
                lemma_flush_keeps(next, start, to);
                assert(same_at(next.outgoing, after.outgoing, from));
                assert(!waits(after, from));
                assert forall|one: u32, other: u32|
                    from <= one <= other < to && #[trigger] waits(after, one) && #[trigger] waits(
                        stream,
                        other,
                    ) implies waits(after, other) by {
                    assert(waits(next, other));
                }
                assert forall|key: u32| #[trigger]
                    first_waiting(after, from, to, key) implies after.inflight
                    + after.outgoing[key].buf.len() > stream.cwnd by {
                    assert(first_waiting(after, start, to, key));
                }
            } else {
                assert forall|key: u32| #[trigger]
                    first_waiting(after, from, to, key) implies after.inflight
                    + after.outgoing[key].buf.len() > stream.cwnd by {
                    assert(waits(after, from));
                }
            }
        } else {
            let start = (from + 1) as u32;
            lemma_flush_stops(stream, start, to);
            lemma_flush_keeps(stream, start, to);
            assert(same_at(stream.outgoing, after.outgoing, from));
            assert(!waits(after, from));
            assert forall|key: u32| #[trigger]
                first_waiting(after, from, to, key) implies after.inflight
                + after.outgoing[key].buf.len() > stream.cwnd by {
                assert(first_waiting(after, start, to, key));
            }
        }
    }
}

/// Whether the entries of the queue from `start` on are the packets, with numbers
/// from `from` up to `to`, that were sent again, each once, in order of their
/// numbers.
pub open spec fn queues_sent_again(
    before: StreamModel,
    after: StreamModel,
    start: int,
    from: u32,
    to: u32,
) -> bool {
    &&& forall|i: int|
        start <= i < after.send_queue.len() ==> {
            let key = (#[trigger] after.send_queue[i]).packet().header.seq;
            from <= key < to && queued_at(after, i, key) && sent_again(before, after, key)
        }
    &&& forall|i: int, j: int|
        start <= i < j < after.send_queue.len() ==> (
        #[trigger] after.send_queue[i]).packet().header.seq < (
        #[trigger] after.send_queue[j]).packet().header.seq
    &&& forall|key: u32|
        from <= key < to && #[trigger] sent_again(before, after, key) ==> exists|i: int|
            start <= i && #[trigger] queued_at(after, i, key)
}

/// Queueing again adds what is sent again to the queue.
proof fn lemma_flush_queues(stream: StreamModel, from: u32, to: u32)
    requires
        numbered(stream),
    ensures
        ({
            let after = stream.flush(from, to);
            let n = stream.send_queue.len() as int;
            &&& after.send_queue.len() >= n
            &&& forall|i: int|
                0 <= i < n ==> #[trigger] after.send_queue[i] == stream.send_queue[i]
            &&& queues_sent_again(stream, after, n, from, to)
        }),
    decreases to - from,
{
    let after = stream.flush(from, to);
    let n = stream.send_queue.len() as int;
    let start = (from + 1) as u32;
    if from < to {
        lemma_flush_keeps(stream, from, to);
        if waits(stream, from) {
            if stream.inflight + stream.outgoing[from].buf.len() <= stream.cwnd {
                let next = stream.requeued(from);
                lemma_flush_queues(next, start, to);
                lemma_flush_keeps(next, start, to);
                assert(same_at(next.outgoing, after.outgoing, from));
                assert(after.send_queue[n] == next.send_queue[n]);
                assert(queued_at(after, n, from));
                assert(sent_again(stream, after, from));
                assert forall|i: int| n <= i < after.send_queue.len() implies {
                    let key = (#[trigger] after.send_queue[i]).packet().header.seq;
                    from <= key < to && queued_at(after, i, key) && sent_again(stream, after, key)
                } by {
                    if i > n {
                        let key = after.send_queue[i].packet().header.seq;
                        assert(sent_again(next, after, key));
                        assert(waits(next, key) ==> waits(stream, key));
                    }
                }
                assert forall|key: u32|
                    from <= key < to && #[trigger] sent_again(
                        stream,
                        after,
                        key,
                    ) implies exists|i: int| n <= i && #[trigger] queued_at(after, i, key) by {
                    if key != from {
                        assert(sent_again(next, after, key));
                        let i = choose|i: int| n + 1 <= i && #[trigger] queued_at(after, i, key);
                        assert(queued_at(after, i, key));
                    }
                }
                assert forall|i: int| 0 <= i < n implies #[trigger] after.send_queue[i]
                    == stream.send_queue[i] by {
                    assert(after.send_queue[i] == next.send_queue[i]);
                }
            }
        } else {
            lemma_flush_queues(stream, start, to);
            assert(!sent_again(stream, after, from));
        }
    }
}

/// What waits to be sent again is sent again as far as the window has room, in
/// order: if a packet still waits, the first that does would exceed the window,
/// and all after it wait too. What is added to the queue is exactly what waited
/// before and does not wait after, each packet once and in order of the numbers.
/// Nothing else changes.
pub proof fn law_flushing_is_maximal(stream: StreamModel)
    requires
        stream.wf(),
    ensures
        ({
            let after = stream.flushed();
            let from = stream.remote_acked;
            let to = stream.seq;
            let n = stream.send_queue.len() as int;
            &&& forall|key: u32| #[trigger]
                first_waiting(after, from, to, key) ==> after.inflight
                    + after.outgoing[key].buf.len() > stream.cwnd
            &&& forall|one: u32, other: u32|
                from <= one <= other < to && #[trigger] waits(after, one) && #[trigger] waits(
                    stream,
                    other,
                ) ==> waits(after, other)
            &&& forall|key: u32| #[trigger] kept_or_sent(stream, after, key)
            &&& forall|key: u32|
                !(from <= key < to) ==> #[trigger] same_at(stream.outgoing, after.outgoing, key)
            &&& after.send_queue.len() >= n
            &&& forall|i: int|
                0 <= i < n ==> #[trigger] after.send_queue[i] == stream.send_queue[i]
            &&& queues_sent_again(stream, after, n, from, to)
            &&& after == StreamModel {
                outgoing: after.outgoing,
                inflight: after.inflight,
                send_queue: after.send_queue,
                ..stream
            }
        }),
{
    let from = stream.remote_acked;
    let to = stream.seq;
    lemma_flush_stops(stream, from, to);
    lemma_flush_keeps(stream, from, to);
    lemma_flush_queues(stream, from, to);
    lemma_flush_frame(stream, from, to);
}

/// Whether the packet `key` was given up for lost: it waits, and is counted as
/// sent once more; one that waited before is as it was.
pub open spec fn lost_at(
    before: Map<u32, PacketModel>,
    after: Map<u32, PacketModel>,
    key: u32,
) -> bool {
    &&& before.contains_key(key) && after.contains_key(key)
    &&& after[key] == if before[key].waiting {
        before[key]
    } else {
        PacketModel { waiting: true, transmits: before[key].transmits + 1, ..before[key] }
    }
}

/// Whether the packet `key` is as it was, or was given up for lost.
pub open spec fn same_or_lost_at(
    before: Map<u32, PacketModel>,
    after: Map<u32, PacketModel>,
    key: u32,
) -> bool {
    same_at(before, after, key) || lost_at(before, after, key)
}

/// Whether a packet in flight was sent as often as one may be.
pub open spec fn exhausted(packets: Map<u32, PacketModel>, key: u32) -> bool {
    &&& packets.contains_key(key)
    &&& !packets[key].waiting
    &&& packets[key].transmits > 5
}

/// What giving up packets does to each of them.
proof fn lemma_lose_each(stream: StreamModel, from: u32, to: u32)
    ensures
        ({
            let (after, ok) = stream.lose(from, to);
            &&& ok <==> forall|key: u32|
                from <= key < to ==> !#[trigger] exhausted(stream.outgoing, key)
            &&& ok ==> forall|key: u32|
                from <= key < to && stream.outgoing.contains_key(key) ==> #[trigger] lost_at(
                    stream.outgoing,
                    after.outgoing,
                    key,
                )
            &&& forall|key: u32|
                !(from <= key < to) ==> #[trigger] same_at(stream.outgoing, after.outgoing, key)
            &&& forall|key: u32| #[trigger]
                same_or_lost_at(stream.outgoing, after.outgoing, key)
        }),
    decreases to - from,
{
    let (after, ok) = stream.lose(from, to);
    if from < to {
        let start = (from + 1) as u32;
        if stream.outgoing.contains_key(from) && !stream.outgoing[from].waiting {
            if stream.outgoing[from].transmits <= UDX_MAX_TRANSMITS {
                let next = stream.lost_one(from);
                lemma_lose_each(next, start, to);
                assert(forall|key: u32|
                    key != from && #[trigger] exhausted(next.outgoing, key) ==> exhausted(
                        stream.outgoing,
                        key,
                    ));
                assert(forall|key: u32|
                    key != from && #[trigger] exhausted(stream.outgoing, key) ==> exhausted(
                        next.outgoing,
                        key,
                    ));
                assert(!exhausted(stream.outgoing, from));
                assert(same_at(next.outgoing, after.outgoing, from));
                assert(lost_at(stream.outgoing, after.outgoing, from));
                assert forall|key: u32| !(from <= key < to) implies #[trigger] same_at(
                    stream.outgoing,
                    after.outgoing,
                    key,
                ) by {
                    assert(same_at(next.outgoing, after.outgoing, key));
                }
                assert forall|key: u32| #[trigger]
                    same_or_lost_at(stream.outgoing, after.outgoing, key) by {
                    assert(same_or_lost_at(next.outgoing, after.outgoing, key));
                }
                if ok {
                    assert forall|key: u32|
                        from <= key < to && stream.outgoing.contains_key(
                            key,
                        ) implies #[trigger] lost_at(stream.outgoing, after.outgoing, key) by {
                        if key != from {
                            assert(lost_at(next.outgoing, after.outgoing, key));
                        }
                    }
                }
            } else {
                assert(exhausted(stream.outgoing, from));
            }
        } else {
            lemma_lose_each(stream, start, to);
            assert(!exhausted(stream.outgoing, from));
            assert(same_at(stream.outgoing, after.outgoing, from));
            assert(stream.outgoing.contains_key(from) ==> lost_at(
                stream.outgoing,
                after.outgoing,
                from,
            ));
        }
    }
}

/// A timer that fires while nothing is unacknowledged changes nothing. Else the
/// window is halved, down to one full packet, and the timer is set to twice the
/// timeout. The stream goes on unless a packet in flight was sent as often as one
/// may be; then every packet that the remote has not acknowledged waits to be
/// sent again, none of their bytes counts as in flight, and each that was in
/// flight is counted as sent once more. Nothing else changes.
pub proof fn law_timeouts_give_up_what_is_in_flight(stream: StreamModel, fired: bool)
    requires
        stream.wf(),
    ensures
        ({
            let (after, ok) = stream.checked_timeouts(fired);
            let from = stream.remote_acked;
            let to = stream.seq;
            let half = stream.cwnd / 2;
            if !fired || from == to {
                ok && after == stream
            } else {
                &&& after.cwnd == if half < UDX_MTU {
                    UDX_MTU as nat
                } else {
                    half
                }
                &&& after.timer == Some(2 * stream.rtt.rto)
                &&& ok <==> forall|key: u32|
                    from <= key < to ==> !#[trigger] exhausted(stream.outgoing, key)
                &&& ok ==> forall|key: u32|
                    from <= key < to && stream.outgoing.contains_key(key) ==> #[trigger] lost_at(
                        stream.outgoing,
                        after.outgoing,
                        key,
                    )
                &&& forall|key: u32|
                    !(from <= key < to) ==> #[trigger] same_at(stream.outgoing, after.outgoing, key)
                &&& forall|key: u32| #[trigger]
                    same_or_lost_at(stream.outgoing, after.outgoing, key)
                &&& ok && (forall|key: u32| #[trigger]
                    stream.outgoing.contains_key(key) ==> key >= from) ==> after.inflight == 0
                &&& after == StreamModel {
                    timer: after.timer,
                    cwnd: after.cwnd,
                    outgoing: after.outgoing,
                    inflight: after.inflight,
                    ..stream
                }
            }
        }),
{
    let (after, ok) = stream.checked_timeouts(fired);
    let from = stream.remote_acked;
    let to = stream.seq;
    if fired && from != to {
        let start = StreamModel {
            timer: Some(2 * stream.rtt.rto),
            cwnd: shrunk(stream.cwnd),
            ..stream
        };
        law_window_shrinks(stream.cwnd);
        lemma_lose_each(start, from, to);
        lemma_lose_frame(start, from, to);
        super::lemma_lose_keeps_invariant(start, from, to);
        if ok && (forall|key: u32| #[trigger]
            stream.outgoing.contains_key(key) ==> key >= from) {
            assert forall|key: u32| #[trigger] after.outgoing.contains_key(
                key,
            ) implies after.outgoing[key].waiting by {
                assert(same_or_lost_at(start.outgoing, after.outgoing, key));
                assert(stream.outgoing.contains_key(key));
                assert(lost_at(start.outgoing, after.outgoing, key));
            }
            super::lemma_waiting_is_not_in_flight(after.outgoing, after.seq as nat);
        }
    }
}

/// What was lost is sent again as soon as the timer fires, as far as the halved
/// window has room: after the round every kept packet is in flight again and
/// stands in the queue, or waits because the first that waits would exceed the
/// window. This holds while no kept packet is below what the remote acknowledged.
pub proof fn law_lost_packets_are_sent_again(stream: StreamModel, key: u32)
    requires
        stream.wf(),
        stream.checked_timeouts(true).1,
        forall|other: u32| #[trigger]
            stream.outgoing.contains_key(other) ==> other >= stream.remote_acked,
        stream.outgoing.contains_key(key),
    ensures
        ({
            let after = stream.checked_timeouts(true).0.flushed();
            let half = stream.cwnd / 2;
            let window = if half < UDX_MTU {
                UDX_MTU as nat
            } else {
                half
            };
            if waits(after, key) {
                exists|first: u32|
                    first <= key && #[trigger] waits(after, first) && after.inflight
                        + stream.outgoing[first].buf.len() > window
            } else {
                exists|i: int|
                    stream.send_queue.len() <= i && #[trigger] queued_at(after, i, key)
                        && after.outgoing[key].buf == stream.outgoing[key].buf
            }
        }),
{
    let from = stream.remote_acked;
    let to = stream.seq;
    let start = StreamModel {
        timer: Some(2 * stream.rtt.rto),
        cwnd: shrunk(stream.cwnd),
        ..stream
    };
    let lost = stream.checked_timeouts(true).0;
    let after = lost.flushed();
    assert(key < to);
    law_timeouts_give_up_what_is_in_flight(stream, true);
    law_window_shrinks(stream.cwnd);
    super::lemma_lose_keeps_invariant(start, from, to);
    law_flushing_is_maximal(lost);
    assert(lost_at(stream.outgoing, lost.outgoing, key));
    assert(kept_or_sent(lost, after, key));
    if waits(after, key) {
        let first = lemma_first_waiting(after, from, to, key);
        assert(kept_or_sent(lost, after, first));
        assert(same_or_lost_at(stream.outgoing, lost.outgoing, first));
        assert(waits(after, first));
    } else {
        assert(sent_again(lost, after, key));
    }
}

/// Where a packet waits, one is the first that does.
proof fn lemma_first_waiting(stream: StreamModel, from: u32, to: u32, key: u32) -> (first: u32)
    requires
        from <= key < to,
        waits(stream, key),
    ensures
        first_waiting(stream, from, to, first),
        first <= key,
    decreases key - from,
{
    if forall|other: u32| from <= other < key ==> !#[trigger] waits(stream, other) {
        key
    } else {
        let other = choose|other: u32| from <= other < key && #[trigger] waits(stream, other);
        lemma_first_waiting(stream, from, to, other)
    }
}

/// The packets and bytes that a write is expected to send are exactly those that
/// the window has room for: full packets, of which only the last may be shorter,
/// each of which fits, until the next would not.
pub proof fn law_expected_writes_fill_the_window(inflight: nat, cwnd: nat, len: nat)
    ensures
        ({
            let (packets, bytes) = taken(inflight, cwnd, len);
            let left = len - bytes;
            let next = if left <= 1380 {
                left
            } else {
                1380
            };
            &&& bytes <= len
            &&& 1380 * packets - 1380 < bytes <= 1380 * packets
            &&& packets > 0 ==> inflight + bytes + 20 * (packets - 1) <= cwnd
            &&& left > 0 ==> bytes == 1380 * packets && inflight + bytes + 20 * packets + next
                > cwnd
        }),
    decreases len,
{
    let n = if len <= 1380 {
        len
    } else {
        1380
    };
    if len > 0 && inflight + n <= cwnd {
        law_expected_writes_fill_the_window(inflight + n + 20, cwnd, (len - n) as nat);
    }
}

/// There is room for what is to be sent, received or answered exactly if the
/// numbers and counters have room for it.
pub proof fn law_room_is_what_the_counters_have(
    stream: StreamModel,
    bytes: nat,
    packets: nat,
    data: nat,
)
    ensures
        stream.can_answer() <==> stream.stats.tx_packets + 1 <= usize::MAX,
        stream.can_send(bytes) <==> {
            let (count, sent) = taken(stream.inflight, stream.cwnd, bytes);
            &&& stream.seq + count <= u32::MAX
            &&& stream.stats.tx_packets + count <= usize::MAX
            &&& stream.stats.tx_bytes + sent <= usize::MAX
        },
        stream.can_receive(packets, data) <==> {
            &&& stream.stats.rx_packets + packets <= usize::MAX
            &&& stream.stats.rx_bytes + data <= usize::MAX
            &&& stream.stats.tx_packets + 2 * packets + 1 <= usize::MAX
            &&& stream.cwnd + UDX_MTU * packets + 2 * UDX_MTU <= usize::MAX
        },
{
}

} // verus!
