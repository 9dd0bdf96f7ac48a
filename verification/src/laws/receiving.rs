//! What a stream promises of what comes in: what each packet does to it, what
//! acknowledgements do, and what the reader is given.

use vstd::prelude::*;

use super::sending::{numbered, same_at, tells_state};
use crate::constants::{UDX_HEADER_DATA, UDX_HEADER_END, UDX_HEADER_SACK, UDX_MTU};
use crate::error::ErrorModel;
use crate::packet::{le_value, IncomingModel, PacketModel, PacketRefModel};
use crate::reassembly::{law_first_missing, law_read_in_order};
use crate::stream::{
    lemma_ack_one, lemma_ack_range_frame, lemma_sacked_frame, max_ack, StreamModel,
    StreamStats, StreamState, Wakes,
};

verus! {

/// The entry of a queue after an acknowledgement of the numbers for which `acked`
/// holds: a packet that the stream kept under such a number is skipped from then
/// on, and every other entry is as it was.
pub open spec fn marked(
    entry: PacketRefModel,
    kept: Map<u32, PacketModel>,
    acked: spec_fn(u32) -> bool,
) -> PacketRefModel {
    match entry {
        PacketRefModel::Shared(packet) => {
            if kept.contains_key(packet.header.seq) && acked(packet.header.seq) {
                PacketRefModel::Shared(PacketModel { skip: true, ..packet })
            } else {
                entry
            }
        },
        PacketRefModel::Owned(_) => entry,
    }
}

/// Whether the report of acknowledged packets says `key` at the place `i`.
pub open spec fn reported_at(stream: StreamModel, i: int, key: u32) -> bool {
    0 <= i < stream.acked.len() && stream.acked[i] == key
}

/// Whether a kept packet was acknowledged.
pub open spec fn newly_acked(
    kept: Map<u32, PacketModel>,
    acked: spec_fn(u32) -> bool,
    key: u32,
) -> bool {
    kept.contains_key(key) && acked(key)
}

/// Whether `after` is the stream after an acknowledgement of the numbers for which
/// `acked` holds: what was kept under them is forgotten, skipped where it is
/// queued, and reported, each packet once; everything else that was kept is as it
/// was.
pub open spec fn acknowledged(
    before: StreamModel,
    after: StreamModel,
    acked: spec_fn(u32) -> bool,
) -> bool {
    let n = before.acked.len();
    &&& forall|key: u32| #[trigger]
        newly_acked(before.outgoing, acked, key) ==> !after.outgoing.contains_key(key)
    &&& forall|key: u32|
        !acked(key) ==> #[trigger] same_at(before.outgoing, after.outgoing, key)
    &&& forall|key: u32| #[trigger]
        after.outgoing.contains_key(key) ==> before.outgoing.contains_key(key)
    &&& after.send_queue.len() == before.send_queue.len()
    &&& forall|i: int|
        0 <= i < before.send_queue.len() ==> #[trigger] after.send_queue[i] == marked(
            before.send_queue[i],
            before.outgoing,
            acked,
        )
    &&& after.acked.len() >= n
    &&& forall|i: int| 0 <= i < n ==> #[trigger] after.acked[i] == before.acked[i]
    &&& forall|i: int|
        n <= i < after.acked.len() ==> newly_acked(
            before.outgoing,
            acked,
            #[trigger] after.acked[i],
        )
    &&& forall|i: int, j: int|
        n <= i < j < after.acked.len() ==> #[trigger] after.acked[i] != #[trigger] after.acked[j]
    &&& forall|key: u32| #[trigger]
        newly_acked(before.outgoing, acked, key) ==> exists|i: int|
            n <= i && #[trigger] reported_at(after, i, key)
}

/// The numbers from `from` up to `to`.
pub open spec fn between(from: u32, to: u32) -> spec_fn(u32) -> bool {
    |key: u32| from <= key < to
}

/// No number.
pub open spec fn no_number() -> spec_fn(u32) -> bool {
    |key: u32| false
}

/// The numbers of the one and those of the other.
pub open spec fn either(
    one: spec_fn(u32) -> bool,
    other: spec_fn(u32) -> bool,
) -> spec_fn(u32) -> bool {
    |key: u32| one(key) || other(key)
}

/// Nothing was acknowledged.
proof fn lemma_acknowledged_none(stream: StreamModel, acked: spec_fn(u32) -> bool)
    requires
        forall|key: u32| !#[trigger] acked(key),
    ensures
        acknowledged(stream, stream, acked),
{
}

/// One packet was acknowledged.
proof fn lemma_acknowledged_one(stream: StreamModel, key: u32, now: u64)
    requires
        numbered(stream),
    ensures
        acknowledged(stream, stream.ack_one(key, now), |other: u32| other == key),
        numbered(stream.ack_one(key, now)),
{
    let after = stream.ack_one(key, now);
    let acked = |other: u32| other == key;
    if stream.outgoing.contains_key(key) {
        let n = stream.acked.len() as int;
        assert(reported_at(after, n, key));
        assert forall|i: int|
            0 <= i < stream.send_queue.len() implies #[trigger] after.send_queue[i] == marked(
            stream.send_queue[i],
            stream.outgoing,
            acked,
        ) by {}
    }
}

/// One acknowledgement after another is one of the numbers of both.
proof fn lemma_acknowledged_twice(
    stream: StreamModel,
    middle: StreamModel,
    after: StreamModel,
    one: spec_fn(u32) -> bool,
    other: spec_fn(u32) -> bool,
)
    requires
        acknowledged(stream, middle, one),
        acknowledged(middle, after, other),
    ensures
        acknowledged(stream, after, either(one, other)),
{
    let acked = either(one, other);
    assert forall|key: u32| #[trigger]
        newly_acked(stream.outgoing, acked, key) implies !after.outgoing.contains_key(key) by {
        if one(key) {
            assert(newly_acked(stream.outgoing, one, key));
        } else {
            assert(same_at(stream.outgoing, middle.outgoing, key));
            assert(newly_acked(middle.outgoing, other, key));
        }
    }
    assert forall|key: u32| !acked(key) implies #[trigger] same_at(
        stream.outgoing,
        after.outgoing,
        key,
    ) by {
        assert(same_at(stream.outgoing, middle.outgoing, key));
        assert(same_at(middle.outgoing, after.outgoing, key));
    }
    assert forall|i: int| 0 <= i < stream.send_queue.len() implies #[trigger] after.send_queue[i]
        == marked(stream.send_queue[i], stream.outgoing, acked) by {
        assert(middle.send_queue[i] == marked(stream.send_queue[i], stream.outgoing, one));
        if let PacketRefModel::Shared(packet) = stream.send_queue[i] {
            let seq = packet.header.seq;
            if !one(seq) {
                assert(same_at(stream.outgoing, middle.outgoing, seq));
            } else if stream.outgoing.contains_key(seq) {
                assert(newly_acked(stream.outgoing, one, seq));
            } else {
                assert(!middle.outgoing.contains_key(seq));
            }
        }
    }
    let n = stream.acked.len() as int;
    let m = middle.acked.len() as int;
    assert forall|i: int| n <= i < after.acked.len() implies newly_acked(
        stream.outgoing,
        acked,
        #[trigger] after.acked[i],
    ) by {
        if i < m {
            assert(after.acked[i] == middle.acked[i]);
            assert(newly_acked(stream.outgoing, one, middle.acked[i]));
        } else {
            assert(newly_acked(middle.outgoing, other, after.acked[i]));
        }
    }
    assert forall|i: int| 0 <= i < n implies #[trigger] after.acked[i] == stream.acked[i] by {
        assert(after.acked[i] == middle.acked[i]);
    }
    assert forall|i: int, j: int| n <= i < j < after.acked.len() implies #[trigger] after.acked[i]
        != #[trigger] after.acked[j] by {
        if i < m {
            assert(after.acked[i] == middle.acked[i]);
            assert(newly_acked(stream.outgoing, one, middle.acked[i]));
            if j < m {
                assert(after.acked[j] == middle.acked[j]);
            } else {
                assert(newly_acked(middle.outgoing, other, after.acked[j]));
            }
        }
    }
    assert forall|key: u32| #[trigger] newly_acked(stream.outgoing, acked, key) implies exists|
        i: int,
    | n <= i && #[trigger] reported_at(after, i, key) by {
        if one(key) {
            assert(newly_acked(stream.outgoing, one, key));
            let i = choose|i: int| n <= i && #[trigger] reported_at(middle, i, key);
            assert(reported_at(middle, i, key));
            assert(after.acked[i] == middle.acked[i]);
            assert(reported_at(after, i, key));
        } else {
            assert(same_at(stream.outgoing, middle.outgoing, key));
            assert(newly_acked(middle.outgoing, other, key));
            let i = choose|i: int| m <= i && #[trigger] reported_at(after, i, key);
            assert(reported_at(after, i, key));
        }
    }
}

/// It does not matter how the numbers are described.
proof fn lemma_acknowledged_same(
    stream: StreamModel,
    after: StreamModel,
    one: spec_fn(u32) -> bool,
    other: spec_fn(u32) -> bool,
)
    requires
        acknowledged(stream, after, one),
        forall|key: u32| #[trigger] one(key) == other(key),
    ensures
        acknowledged(stream, after, other),
{
    assert(one =~= other);
}

/// A range was acknowledged.
proof fn lemma_acknowledged_range(stream: StreamModel, from: u32, to: u32, now: u64)
    requires
        numbered(stream),
    ensures
        acknowledged(stream, stream.ack_range(from, to, now), between(from, to)),
        numbered(stream.ack_range(from, to, now)),
    decreases to - from,
{
    let after = stream.ack_range(from, to, now);
    if from < to {
        let next = stream.ack_one(from, now);
        let start = (from + 1) as u32;
        let first = |other: u32| other == from;
        lemma_acknowledged_one(stream, from, now);
        lemma_acknowledged_range(next, start, to, now);
        lemma_acknowledged_twice(stream, next, after, first, between(start, to));
        lemma_acknowledged_same(
            stream,
            after,
            either(first, between(start, to)),
            between(from, to),
        );
    } else {
        lemma_acknowledged_none(stream, between(from, to));
    }
}

/// An acknowledgement neither adds to the queue nor takes from it.
pub proof fn law_queue_keeps_its_length(stream: StreamModel, from: u32, to: u32, now: u64)
    ensures
        stream.ack_range(from, to, now).send_queue.len() == stream.send_queue.len(),
    decreases to - from,
{
    if from < to {
        law_queue_keeps_its_length(stream.ack_one(from, now), (from + 1) as u32, to, now);
    }
}

/// An acknowledgement of a range keeps the stream's invariant.
proof fn lemma_ack_range_keeps_invariant(stream: StreamModel, from: u32, to: u32, now: u64)
    requires
        stream.wf_core(),
    ensures
        stream.ack_range(from, to, now).wf_core(),
    decreases to - from,
{
    if from < to {
        lemma_ack_one(stream, from, now);
        lemma_ack_range_keeps_invariant(stream.ack_one(from, now), (from + 1) as u32, to, now);
    }
}

/// An acknowledgement that is not new changes nothing. A new one moves what the
/// remote has acknowledged up to it: exactly the packets below it are forgotten,
/// skipped where they are queued, and reported. The timer starts anew, and a
/// waiting writer is woken if the window has room for a full packet. Nothing but
/// the accounts of what is in flight, and the round trip estimate, changes beside
/// that.
pub proof fn law_acknowledgements_are_noted(stream: StreamModel, ack: u32, now: u64)
    requires
        stream.wf(),
    ensures
        ({
            let after = stream.remote_acked_to(ack, now);
            if ack <= stream.remote_acked {
                after == stream
            } else {
                &&& acknowledged(stream, after, between(stream.remote_acked, ack))
                &&& after.remote_acked == ack
                &&& after.rtt == stream.ack_range(stream.remote_acked, ack, now).rtt
                &&& after.timer == Some(after.rtt.rto)
                &&& if after.inflight + UDX_MTU <= stream.cwnd {
                    &&& !after.write_waker
                    &&& after.wakes == Wakes {
                        write: stream.wakes.write || stream.write_waker,
                        ..stream.wakes
                    }
                } else {
                    after.write_waker == stream.write_waker && after.wakes == stream.wakes
                }
                &&& after.stats == StreamStats {
                    inflight_bytes: after.stats.inflight_bytes,
                    inflight_packets: after.stats.inflight_packets,
                    ..stream.stats
                }
                &&& after == StreamModel {
                    remote_acked: after.remote_acked,
                    timer: after.timer,
                    write_waker: after.write_waker,
                    wakes: after.wakes,
                    outgoing: after.outgoing,
                    inflight: after.inflight,
                    stats: after.stats,
                    rtt: after.rtt,
                    send_queue: after.send_queue,
                    acked: after.acked,
                    ..stream
                }
                &&& after.wf()
            }
        }),
{
    let from = stream.remote_acked;
    if ack > from {
        lemma_acknowledged_range(stream, from, ack, now);
        lemma_ack_range_frame(stream, from, ack, now);
        lemma_ack_range_keeps_invariant(stream, from, ack, now);
        lemma_acknowledged_parts(
            stream,
            stream,
            stream.ack_range(from, ack, now),
            stream.remote_acked_to(ack, now),
            between(from, ack),
        );
    }
}

/// A packet that is acknowledged is no longer in flight, unless it was given up
/// for lost before. Its round trip counts, from when it last went out, exactly if
/// it went out and was given up once; it then counts in whole milliseconds.
pub proof fn law_round_trips_are_measured(stream: StreamModel, key: u32, now: u64)
    requires
        stream.wf(),
        stream.outgoing.contains_key(key),
    ensures
        ({
            let packet = stream.outgoing[key];
            let after = stream.ack_one(key, now);
            let millis = if now > packet.time_sent {
                now - packet.time_sent
            } else {
                0
            };
            &&& acknowledged(stream, after, |other: u32| other == key)
            &&& after.inflight == stream.inflight - if packet.waiting {
                0
            } else {
                packet.buf.len()
            }
            &&& after.stats.inflight_packets == stream.stats.inflight_packets - 1
            &&& after.stats.inflight_bytes == stream.stats.inflight_bytes - (packet.buf.len() - 20)
            &&& after.rtt == if packet.time_sent != 0 && packet.transmits == 1 {
                stream.rtt.sampled((millis * 1_000_000) as nat)
            } else {
                stream.rtt
            }
            &&& after.stats == StreamStats {
                inflight_bytes: after.stats.inflight_bytes,
                inflight_packets: after.stats.inflight_packets,
                ..stream.stats
            }
            &&& after == StreamModel {
                outgoing: after.outgoing,
                inflight: after.inflight,
                stats: after.stats,
                rtt: after.rtt,
                send_queue: after.send_queue,
                acked: after.acked,
                ..stream
            }
        }),
{
    lemma_ack_one(stream, key, now);
    lemma_acknowledged_one(stream, key, now);
}

/// A range is acknowledged packet by packet, in order: what is not kept is passed
/// over, and a range is its first part and then its second.
pub proof fn law_ranges_are_acknowledged_in_order(
    stream: StreamModel,
    from: u32,
    middle: u32,
    to: u32,
    now: u64,
)
    requires
        from <= middle <= to,
    ensures
        stream.ack_range(from, to, now) == stream.ack_range(from, middle, now).ack_range(
            middle,
            to,
            now,
        ),
        stream.ack_range(to, from, now) == stream,
        to == from + 1 && stream.outgoing.contains_key(from) ==> stream.ack_range(from, to, now)
            == stream.ack_one(from, now),
        to == from + 1 && !stream.outgoing.contains_key(from) ==> stream.ack_range(from, to, now)
            == stream,
    decreases middle - from,
{
    if from < middle {
        law_ranges_are_acknowledged_in_order(
            stream.ack_one(from, now),
            (from + 1) as u32,
            middle,
            to,
            now,
        );
    }
    if to == from + 1 {
        assert(stream.ack_one(from, now).ack_range(to, to, now) == stream.ack_one(from, now));
    }
}

/// Where a list starts does not matter, only what it holds from there on.
proof fn lemma_sacked_from(stream: StreamModel, data: Seq<u8>, at: int, shift: int, now: u64)
    requires
        0 <= at,
        0 <= shift,
        at + shift <= data.len(),
    ensures
        stream.sacked(data, at + shift, now) == stream.sacked(data.skip(shift), at, now),
    decreases data.len() - at,
{
    if at + shift + 8 < data.len() {
        let rest = data.skip(shift);
        assert(rest.subrange(at, at + 4) =~= data.subrange(at + shift, at + shift + 4));
        assert(rest.subrange(at + 4, at + 8) =~= data.subrange(at + shift + 4, at + shift + 8));
        let from = le_value(rest.subrange(at, at + 4));
        let to = le_value(rest.subrange(at + 4, at + 8));
        lemma_sacked_from(stream.ack_range(from, to, now), data, at + 8, shift, now);
    }
}

/// The ranges of a list are acknowledged in order: the first, if anything follows
/// it, and then those of the rest. A list of eight bytes or less acknowledges
/// nothing.
pub proof fn law_lists_are_acknowledged_in_order(stream: StreamModel, data: Seq<u8>, now: u64)
    ensures
        data.len() <= 8 ==> stream.sacked(data, 0, now) == stream,
        data.len() > 8 ==> stream.sacked(data, 0, now) == stream.ack_range(
            le_value(data.take(4)),
            le_value(data.skip(4).take(4)),
            now,
        ).sacked(data.skip(8), 0, now),
{
    if data.len() > 8 {
        assert(data.take(4) =~= data.subrange(0, 4));
        assert(data.skip(4).take(4) =~= data.subrange(4, 8));
        let next = stream.ack_range(le_value(data.take(4)), le_value(data.skip(4).take(4)), now);
        lemma_sacked_from(next, data, 0, 8, now);
    }
}

/// Noting that a packet went out sets when it did, and changes nothing else; what
/// is not kept is not noted.
pub proof fn law_sending_times_are_noted(stream: StreamModel, key: u32, now: u64)
    ensures
        ({
            let after = stream.sent(key, now);
            &&& forall|other: u32|
                other != key ==> #[trigger] same_at(stream.outgoing, after.outgoing, other)
            &&& after.outgoing.contains_key(key) == stream.outgoing.contains_key(key)
            &&& stream.outgoing.contains_key(key) ==> after.outgoing[key] == PacketModel {
                time_sent: now,
                ..stream.outgoing[key]
            }
            &&& after == StreamModel { outgoing: after.outgoing, ..stream }
        }),
{
}

/// Whether the eight bytes of `data` from `at` on, which are not its last, name a
/// range that holds `key`.
pub open spec fn range_at(data: Seq<u8>, at: int, key: u32) -> bool {
    &&& 0 <= at && at + 8 < data.len()
    &&& le_value(data.subrange(at, at + 4)) <= key < le_value(data.subrange(at + 4, at + 8))
}

/// The numbers in the ranges that `data` lists from the byte `start` on.
pub open spec fn listed(data: Seq<u8>, start: int) -> spec_fn(u32) -> bool {
    |key: u32|
        exists|at: int|
            start <= at && (at - start) % 8 == 0 && #[trigger] range_at(data, at, key)
}

/// Exactly the listed ranges are acknowledged.
proof fn lemma_sacked(stream: StreamModel, data: Seq<u8>, start: int, now: u64)
    requires
        numbered(stream),
        0 <= start,
    ensures
        acknowledged(stream, stream.sacked(data, start, now), listed(data, start)),
        numbered(stream.sacked(data, start, now)),
    decreases data.len() - start,
{
    let after = stream.sacked(data, start, now);
    if start + 8 < data.len() {
        let from = le_value(data.subrange(start, start + 4));
        let to = le_value(data.subrange(start + 4, start + 8));
        let next = stream.ack_range(from, to, now);
        let first = between(from, to);
        let rest = listed(data, start + 8);
        lemma_acknowledged_range(stream, from, to, now);
        lemma_sacked(next, data, start + 8, now);
        lemma_acknowledged_twice(stream, next, after, first, rest);
        assert forall|key: u32| #[trigger] either(first, rest)(key) == listed(data, start)(
            key,
        ) by {
            if first(key) {
                assert(range_at(data, start, key));
                assert((start - start) % 8 == 0);
            } else if rest(key) {
                let at = choose|at: int|
                    start + 8 <= at && (at - (start + 8)) % 8 == 0 && #[trigger] range_at(
                        data,
                        at,
                        key,
                    );
                assert((at - start) % 8 == 0);
                assert(range_at(data, at, key));
            }
            if listed(data, start)(key) {
                let at = choose|at: int|
                    start <= at && (at - start) % 8 == 0 && #[trigger] range_at(data, at, key);
                if at != start {
                    assert(at >= start + 8 && (at - (start + 8)) % 8 == 0);
                    assert(range_at(data, at, key));
                }
            }
        }
        lemma_acknowledged_same(stream, after, either(first, rest), listed(data, start));
    } else {
        assert forall|key: u32| !#[trigger] listed(data, start)(key) by {}
        lemma_acknowledged_none(stream, listed(data, start));
    }
}

/// Whether `n` is the first number from `from` on without a packet.
pub open spec fn is_first_missing(
    incoming: Map<u32, IncomingModel>,
    from: u32,
    n: u32,
) -> bool {
    &&& from <= n
    &&& forall|key: u32| from <= key < n ==> #[trigger] incoming.contains_key(key)
    &&& n < u32::MAX ==> !incoming.contains_key(n)
}

/// The window after it grew: by a full packet while it is below 65535 bytes, and
/// from then on by a full packet per window, but a byte at least.
pub open spec fn is_grown(before: nat, after: nat) -> bool {
    if before < 65535 {
        after == before + 1400
    } else {
        let step = after - before;
        &&& step >= 1
        &&& step == 1 || step * before <= 1400 * 1400
        &&& (step + 1) * before > 1400 * 1400
    }
}

/// The window grows as it should.
pub proof fn law_window_grows_by_a_packet(cwnd: nat)
    ensures
        is_grown(cwnd, crate::congestion::grown(cwnd)),
{
    if cwnd >= 65535 {
        let q = 1_960_000nat / cwnd;
        assert(q * cwnd <= 1_960_000 && (q + 1) * cwnd > 1_960_000) by (nonlinear_arith)
            requires
                q == 1_960_000nat / cwnd,
                cwnd >= 65535,
        ;
        if q < 1 {
            assert((1 + 1) * cwnd > 1_960_000) by (nonlinear_arith)
                requires
                    (q + 1) * cwnd > 1_960_000,
                    q < 1,
                    cwnd >= 65535,
            ;
        }
    }
}

/// Acknowledged ranges neither add to the queue nor take from it.
proof fn lemma_sacked_keeps_queue(stream: StreamModel, data: Seq<u8>, at: int, now: u64)
    ensures
        stream.sacked(data, at, now).send_queue.len() == stream.send_queue.len(),
    decreases data.len() - at,
{
    if at + 8 < data.len() {
        let from = le_value(data.subrange(at, at + 4));
        let to = le_value(data.subrange(at + 4, at + 8));
        law_queue_keeps_its_length(stream, from, to, now);
        lemma_sacked_keeps_queue(stream.ack_range(from, to, now), data, at + 8, now);
    }
}

/// A packet that came in and passed the firewall is counted, and so are its data,
/// if it has the DATA flag, and the answers to it. What this side has sent, what
/// the remote has acknowledged, and the timer are not touched.
pub proof fn law_packets_are_counted(stream: StreamModel, packet: IncomingModel, now: u64)
    requires
        stream.wf(),
        stream.can_receive(1, packet.data.len()),
    ensures
        ({
            let after = stream.received(packet, true, now);
            let data = packet.header.typ & UDX_HEADER_DATA != 0;
            let end = packet.header.typ & UDX_HEADER_END != 0;
            let bytes: nat = if data {
                packet.data.len()
            } else {
                0
            };
            let answers: nat = if data && end {
                2
            } else if data || end {
                1
            } else {
                0
            };
            &&& after.stats.rx_packets == stream.stats.rx_packets + 1
            &&& after.stats.rx_bytes == stream.stats.rx_bytes + bytes
            &&& after.stats.tx_packets == stream.stats.tx_packets + answers
            &&& after.stats.tx_bytes == stream.stats.tx_bytes
            &&& after.send_queue.len() == stream.send_queue.len() + answers
            &&& after == StreamModel {
                rx: after.rx,
                outgoing: after.outgoing,
                send_queue: after.send_queue,
                acked: after.acked,
                inflight: after.inflight,
                cwnd: after.cwnd,
                rtt: after.rtt,
                read_waker: after.read_waker,
                write_waker: after.write_waker,
                drive_waker: after.drive_waker,
                wakes: after.wakes,
                error: after.error,
                stats: after.stats,
                state: after.state,
                ..stream
            }
        }),
{
    lemma_sacked_frame(stream.counted(), packet.data, 0, now);
    lemma_sacked_keeps_queue(stream.counted(), packet.data, 0, now);
}

/// The window grows exactly if a packet acknowledges something new that was sent.
pub proof fn law_new_acknowledgements_widen_the_window(
    stream: StreamModel,
    packet: IncomingModel,
    now: u64,
)
    ensures
        ({
            let after = stream.received(packet, true, now);
            if stream.remote_acked < packet.header.ack <= stream.seq {
                is_grown(stream.cwnd, after.cwnd)
            } else {
                after.cwnd == stream.cwnd
            }
        }),
{
    lemma_sacked_frame(stream.counted(), packet.data, 0, now);
    law_window_grows_by_a_packet(stream.cwnd);
}

/// A packet that the firewall keeps out changes nothing.
pub proof fn law_firewall_keeps_packets_out(stream: StreamModel, packet: IncomingModel, now: u64)
    ensures
        stream.received(packet, false, now) == stream,
{
}

/// Every data packet that passes the firewall is answered, whatever its number and
/// however often it comes: the queue then ends with a packet that tells the remote
/// which number is awaited next. So is a packet that ends the stream; no other
/// packet is answered.
pub proof fn law_every_data_packet_is_answered(
    stream: StreamModel,
    packet: IncomingModel,
    now: u64,
)
    requires
        stream.wf(),
        stream.can_receive(1, packet.data.len()),
    ensures
        ({
            let after = stream.received(packet, true, now);
            let n = stream.send_queue.len();
            if packet.header.typ & UDX_HEADER_DATA != 0 || packet.header.typ & UDX_HEADER_END
                != 0 {
                &&& after.send_queue.len() > n
                &&& tells_state(after.send_queue.last(), after)
                &&& packet.header.typ & UDX_HEADER_END != 0 ==> tells_state(
                    after.send_queue[n as int],
                    StreamModel { rx: stream.rx, ..after },
                ) || tells_state(after.send_queue[n as int], after)
                &&& !after.drive_waker
                &&& stream.drive_waker ==> after.wakes.drive
            } else {
                &&& after.send_queue.len() == n
                &&& after.drive_waker == stream.drive_waker
                &&& after.wakes == stream.wakes
            }
        }),
{
    lemma_sacked_frame(stream.counted(), packet.data, 0, now);
    lemma_sacked(stream.counted(), packet.data, 0, now);
    let noted = stream.counted().noted_sacks(packet, now);
    let ended = noted.noted_end(packet);
    super::sending::law_state_packets_tell_the_state(ended);
    let after = stream.received(packet, true, now);
    if packet.header.typ & UDX_HEADER_DATA != 0 {
        let stored = StreamModel { rx: ended.rx.inserted(packet).advanced(), ..ended };
        super::sending::law_state_packets_tell_the_state(stored);
        assert(after.send_queue.last() == PacketRefModel::Owned(stored.state_packet()));
        assert(after.send_queue.last() == stored.with_state_packet().send_queue.last());
    } else if packet.header.typ & UDX_HEADER_END != 0 {
        let closed = StreamModel {
            error: Some(noted.end_error()),
            state: StreamState::BothClosed,
            ..noted
        };
        super::sending::law_state_packets_tell_the_state(closed);
        assert(after.send_queue.last() == closed.with_state_packet().send_queue.last());
    }
}

/// A data packet is held under its number, unless all packets up to it have come
/// in before; then the awaited number is the first that has not come in. A reader
/// that waits is woken if the packet was the awaited one. A packet without the
/// DATA flag leaves all that came in as it is.
pub proof fn law_data_is_taken_in(stream: StreamModel, packet: IncomingModel, now: u64)
    requires
        stream.wf(),
    ensures
        ({
            let after = stream.received(packet, true, now);
            if packet.header.typ & UDX_HEADER_DATA != 0 {
                &&& after.rx.read_cursor == stream.rx.read_cursor
                &&& after.rx.incoming == if packet.header.seq >= stream.rx.ack {
                    stream.rx.incoming.insert(packet.header.seq, packet)
                } else {
                    stream.rx.incoming
                }
                &&& is_first_missing(after.rx.incoming, stream.rx.ack, after.rx.ack)
                &&& packet.header.seq == stream.rx.ack ==> {
                    &&& !after.read_waker
                    &&& stream.read_waker ==> after.wakes.read
                }
            } else {
                after.rx == stream.rx
            }
        }),
{
    lemma_sacked_frame(stream.counted(), packet.data, 0, now);
    law_first_missing(stream.rx.inserted(packet).incoming, stream.rx.ack);
}

/// Readers and writers wait on unless there is something for them: a reader is
/// woken only by the awaited packet or the end, and a writer only by the end.
pub proof fn law_packets_wake_whom_they_concern(
    stream: StreamModel,
    packet: IncomingModel,
    now: u64,
)
    requires
        stream.wf(),
    ensures
        ({
            let after = stream.received(packet, true, now);
            let data = packet.header.typ & UDX_HEADER_DATA != 0;
            let end = packet.header.typ & UDX_HEADER_END != 0;
            let called = end || data && packet.header.seq == stream.rx.ack;
            &&& after.read_waker == (stream.read_waker && !called)
            &&& after.wakes.read == (stream.wakes.read || stream.read_waker && called)
            &&& after.write_waker == (stream.write_waker && !end)
            &&& after.wakes.write == (stream.wakes.write || stream.write_waker && end)
            &&& after.drive_waker == (stream.drive_waker && !data && !end)
            &&& after.wakes.drive == (stream.wakes.drive || stream.drive_waker && (data || end))
        }),
{
    lemma_sacked_frame(stream.counted(), packet.data, 0, now);
}

/// A packet that lists ranges acknowledges exactly these, but for a last one that
/// reaches the end of its data. Another packet leaves what is kept as it is, and
/// the queue but for the answers to it.
pub proof fn law_ranges_are_acknowledged(stream: StreamModel, packet: IncomingModel, now: u64)
    requires
        stream.wf(),
    ensures
        ({
            let after = stream.received(packet, true, now);
            let acked = if packet.header.typ & UDX_HEADER_SACK != 0 {
                listed(packet.data, 0)
            } else {
                no_number()
            };
            &&& acknowledged(
                stream,
                StreamModel {
                    send_queue: after.send_queue.take(stream.send_queue.len() as int),
                    ..after
                },
                acked,
            )
            &&& packet.header.typ & UDX_HEADER_SACK == 0 ==> after.inflight == stream.inflight
                && after.rtt == stream.rtt && after.outgoing == stream.outgoing
            &&& packet.header.typ & UDX_HEADER_SACK != 0 ==> {
                let noted = StreamModel {
                    stats: StreamStats {
                        rx_packets: (stream.stats.rx_packets + 1) as usize,
                        ..stream.stats
                    },
                    ..stream
                }.sacked(packet.data, 0, now);
                &&& after.inflight == noted.inflight
                &&& after.rtt == noted.rtt
                &&& after.outgoing == noted.outgoing
                &&& after.acked == noted.acked
                &&& after.stats.inflight_bytes == noted.stats.inflight_bytes
                &&& after.stats.inflight_packets == noted.stats.inflight_packets
            }
        }),
{
    let after = stream.received(packet, true, now);
    let counted = stream.counted();
    lemma_sacked_frame(counted, packet.data, 0, now);
    lemma_sacked(counted, packet.data, 0, now);
    lemma_acknowledged_none(stream, no_number());
    let noted = counted.noted_sacks(packet, now);
    let n = stream.send_queue.len() as int;
    assert(noted.send_queue.len() == n);
    let cut = StreamModel { send_queue: after.send_queue.take(n), ..after };
    assert(cut.send_queue =~= noted.send_queue);
    let acked = if packet.header.typ & UDX_HEADER_SACK != 0 {
        listed(packet.data, 0)
    } else {
        no_number()
    };
    lemma_acknowledged_parts(stream, counted, noted, cut, acked);
}

/// Only what is kept, queued and reported matters.
proof fn lemma_acknowledged_parts(
    stream: StreamModel,
    counted: StreamModel,
    noted: StreamModel,
    cut: StreamModel,
    acked: spec_fn(u32) -> bool,
)
    requires
        stream.outgoing == counted.outgoing,
        stream.send_queue == counted.send_queue,
        stream.acked == counted.acked,
        noted.outgoing == cut.outgoing,
        noted.send_queue == cut.send_queue,
        noted.acked == cut.acked,
        acknowledged(counted, noted, acked) || acknowledged(stream, stream, acked) && noted
            == counted,
    ensures
        acknowledged(stream, cut, acked),
{
    assert(forall|i: int, key: u32| #[trigger]
        reported_at(noted, i, key) ==> reported_at(cut, i, key));
    assert(forall|i: int, key: u32| #[trigger]
        reported_at(stream, i, key) ==> reported_at(counted, i, key));
}

/// A packet without the END flag ends nothing.
pub proof fn law_only_the_end_ends_a_stream(stream: StreamModel, packet: IncomingModel, now: u64)
    requires
        packet.header.typ & UDX_HEADER_END == 0,
    ensures
        stream.received(packet, true, now).error == stream.error,
        stream.received(packet, true, now).state == stream.state,
{
    lemma_sacked_frame(stream.counted(), packet.data, 0, now);
}

/// Several packets are taken in one after the other, in order.
pub proof fn law_packets_are_taken_in_order(
    stream: StreamModel,
    front: Seq<(IncomingModel, bool)>,
    packet: IncomingModel,
    pass: bool,
    now: u64,
)
    ensures
        stream.received_all(Seq::empty(), now) == stream,
        stream.received_all(front.push((packet, pass)), now) == stream.received_all(
            front,
            now,
        ).received(packet, pass, now),
    decreases front.len(),
{
    let all = front.push((packet, pass));
    if front.len() > 0 {
        law_packets_are_taken_in_order(
            stream.received(front[0].0, front[0].1, now),
            front.drop_first(),
            packet,
            pass,
            now,
        );
        assert(all.drop_first() =~= front.drop_first().push((packet, pass)));
    } else {
        assert(all.drop_first() =~= Seq::empty());
        assert(stream.received_all(all, now) == stream.received(packet, pass, now).received_all(
            Seq::empty(),
            now,
        ));
    }
}

/// No acknowledgement among the packets is higher than the highest, and it is
/// that of one of them.
pub proof fn law_highest_acknowledgement(events: Seq<(IncomingModel, bool)>)
    ensures
        forall|i: int|
            0 <= i < events.len() ==> (#[trigger] events[i]).0.header.ack <= max_ack(events),
        max_ack(events) == 0 || exists|i: int|
            0 <= i < events.len() && (#[trigger] events[i]).0.header.ack == max_ack(events),
    decreases events.len(),
{
    if events.len() > 0 {
        let rest = events.drop_first();
        law_highest_acknowledgement(rest);
        assert forall|i: int| 0 <= i < events.len() implies (#[trigger] events[i]).0.header.ack
            <= max_ack(events) by {
            if i > 0 {
                assert(rest[i - 1] == events[i]);
            }
        }
        if max_ack(events) == events[0].0.header.ack {
        } else if max_ack(rest) != 0 {
            let i = choose|i: int|
                0 <= i < rest.len() && (#[trigger] rest[i]).0.header.ack == max_ack(rest);
            assert(events[i + 1] == rest[i]);
        }
    }
}

/// Packets move neither what the remote has acknowledged nor what was sent; only
/// the highest acknowledgement of a round does the former.
proof fn lemma_received_all_keeps_numbers(
    stream: StreamModel,
    events: Seq<(IncomingModel, bool)>,
    now: u64,
)
    ensures
        stream.received_all(events, now).remote_acked == stream.remote_acked,
        stream.received_all(events, now).seq == stream.seq,
    decreases events.len(),
{
    if events.len() > 0 {
        lemma_sacked_frame(stream.counted(), events[0].0.data, 0, now);
        lemma_received_all_keeps_numbers(
            stream.received(events[0].0, events[0].1, now),
            events.drop_first(),
            now,
        );
    }
}

/// A round takes in all packets, and then notes the highest of their
/// acknowledgements, if it is new: after it, the remote has acknowledged at least
/// what any packet says, and no packet below that is kept. Where the socket is
/// gone, the packets are taken in and no acknowledgement is noted.
pub proof fn law_rounds_note_the_highest_acknowledgement(
    stream: StreamModel,
    events: Seq<(IncomingModel, bool)>,
    socket_gone: bool,
    now: u64,
)
    ensures
        ({
            let (after, there) = stream.polled_incoming(events, socket_gone, now);
            let taken = stream.received_all(events, now);
            &&& there == !socket_gone
            &&& socket_gone ==> after == taken
            &&& !socket_gone ==> {
                &&& after.remote_acked >= stream.remote_acked
                &&& forall|i: int|
                    0 <= i < events.len() ==> (#[trigger] events[i]).0.header.ack
                        <= after.remote_acked
                &&& after.remote_acked == stream.remote_acked || exists|i: int|
                    0 <= i < events.len() && (#[trigger] events[i]).0.header.ack
                        == after.remote_acked
                &&& forall|key: u32|
                    stream.remote_acked <= key < after.remote_acked
                        ==> !#[trigger] after.outgoing.contains_key(key)
                &&& after == taken.remote_acked_to(after.remote_acked, now)
                &&& after.rx == taken.rx && after.cwnd == taken.cwnd && after.error == taken.error
                &&& after.state == taken.state && after.seq == stream.seq
            }
        }),
{
    let taken = stream.received_all(events, now);
    law_highest_acknowledgement(events);
    lemma_received_all_keeps_numbers(stream, events, now);
    super::lemma_ack_range_removes(taken, taken.remote_acked, max_ack(events), now);
    lemma_ack_range_frame(taken, taken.remote_acked, max_ack(events), now);
}

/// A read gives all bytes that can be read, or as many as there is room for. It
/// succeeds exactly if it gives bytes or gets past a packet; else it gives the
/// stream's error, if it has one, or has to wait. Only one that has to wait is
/// woken later.
pub proof fn law_reads_give_what_there_is(stream: StreamModel, room: nat)
    requires
        stream.wf(),
    ensures
        ({
            let (end, bytes, result) = stream.read(room);
            let readable = stream.rx.readable();
            let n = if readable.len() < room {
                readable.len()
            } else {
                room
            };
            let moved = end.rx.read_cursor > stream.rx.read_cursor;
            &&& bytes == readable.take(n as int)
            &&& end.rx.readable() == readable.skip(n as int)
            &&& end.rx.ack == stream.rx.ack
            &&& result == if bytes.len() > 0 || moved {
                Some(Ok::<(), ErrorModel>(()))
            } else {
                match stream.error {
                    Some(error) => Some(Err(error)),
                    None => None,
                }
            }
            &&& end == StreamModel {
                rx: end.rx,
                read_waker: stream.read_waker || result is None,
                ..stream
            }
        }),
{
    law_read_in_order(stream.rx, room);
}

} // verus!
