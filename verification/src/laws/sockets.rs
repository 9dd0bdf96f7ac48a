//! What a socket promises: events of streams and users are done in order, and
//! what comes in reaches the stream that it is for.

use vstd::prelude::*;

use super::wire::number_at;
use crate::error::{ErrorKind, ErrorModel, UdxError};
use crate::packet::{
    ref_models, shared_packets, Dgram, DgramModel, Header, IncomingModel, PacketRef, PacketSet,
    PacketSetModel, Transmit, TransmitModel,
};
use crate::socket::{
    bytes_of, delivered, delivery_models, dgram_bytes, dgram_models, event_models, is_overflow,
    looked_at, outgoing_models, packet_set_models, read_models, segments_of, sent_of, stops_at,
    strays, transmit_models, Arrival, EventIncoming, EventOutgoing, Fate, OutcomeModel,
    OutgoingModel, ReadModel, RecvRead, SendOutcome, SentPacket, SocketModel, SocketStatsModel,
    SocketWakes,
};
use crate::stream::{data_bytes, read_result, set_models, write_result};

verus! {

/// Whether the bytes are a packet: they start with a header.
pub open spec fn is_packet(buf: Seq<u8>) -> bool {
    buf.len() >= 20 && buf[0] == 255 && buf[1] == 1
}

/// The stream that the header of a packet names.
pub open spec fn named(buf: Seq<u8>) -> u32 {
    number_at(buf, 4) as u32
}

/// Whether one of the datagrams is a packet for the stream `id`.
pub open spec fn mentioned(dgrams: Seq<DgramModel>, id: u32) -> bool {
    exists|j: int| 0 <= j < dgrams.len() && #[trigger] is_for(dgrams[j], id)
}

/// Whether a datagram is a packet for the stream `id`.
pub open spec fn is_for(dgram: DgramModel, id: u32) -> bool {
    is_packet(dgram.buf) && named(dgram.buf) == id
}

/// Whether the stream `id` is open when a datagram comes in after others: it was
/// open before them, and was not found to be out of reach.
pub open spec fn open_after<H>(
    socket: SocketModel<H>,
    before: Seq<DgramModel>,
    closed: Seq<u32>,
    id: u32,
) -> bool {
    socket.streams.contains_key(id) && !(closed.contains(id) && mentioned(before, id))
}

/// Which streams are open after datagrams came in.
proof fn lemma_streams_after<H>(
    socket: SocketModel<H>,
    dgrams: Seq<DgramModel>,
    closed: Seq<u32>,
    id: u32,
)
    ensures
        socket.arrived_all(dgrams, closed).streams.contains_key(id) == open_after(
            socket,
            dgrams,
            closed,
            id,
        ),
    decreases dgrams.len(),
{
    if dgrams.len() > 0 {
        let next = socket.arrived(dgrams[0], closed);
        let rest = dgrams.drop_first();
        lemma_streams_after(next, rest, closed, id);
        assert(is_packet(dgrams[0].buf) == Header::starts(dgrams[0].buf));
        if is_packet(dgrams[0].buf) {
            assert(Header::decoding(dgrams[0].buf).stream_id == named(dgrams[0].buf));
        }
        if mentioned(rest, id) {
            let j = choose|j: int| 0 <= j < rest.len() && #[trigger] is_for(rest[j], id);
            assert(is_for(dgrams[j + 1], id));
        }
        if mentioned(dgrams, id) && !is_for(dgrams[0], id) {
            let j = choose|j: int| 0 <= j < dgrams.len() && #[trigger] is_for(dgrams[j], id);
            assert(is_for(rest[j - 1], id));
        }
        assert(is_for(dgrams[0], id) ==> mentioned(dgrams, id));
    }
}

/// Each datagram is looked at in the state that those before it left.
proof fn lemma_fate_at<H>(
    socket: SocketModel<H>,
    dgrams: Seq<DgramModel>,
    closed: Seq<u32>,
    i: int,
)
    requires
        0 <= i < dgrams.len(),
    ensures
        socket.fates(dgrams, closed).len() == dgrams.len(),
        socket.fates(dgrams, closed)[i] == socket.arrived_all(dgrams.take(i), closed).fate(
            dgrams[i],
            closed,
        ),
    decreases dgrams.len(),
{
    let next = socket.arrived(dgrams[0], closed);
    let rest = dgrams.drop_first();
    if i > 0 {
        lemma_fate_at(next, rest, closed, i - 1);
        assert(dgrams.take(i).drop_first() =~= rest.take(i - 1));
        assert(rest[i - 1] == dgrams[i]);
    } else {
        assert(dgrams.take(0) =~= Seq::empty());
        if rest.len() > 0 {
            lemma_fate_at(next, rest, closed, 0);
        } else {
            assert(next.fates(rest, closed).len() == 0);
        }
    }
}

/// What becomes of a datagram is decided by its header and by which streams are
/// open, and by nothing else. One that is no packet, or is one for a stream that is
/// not open when it comes, belongs to no stream. Every other is a packet for its
/// stream: it is delivered whole, unless the stream is out of reach.
pub proof fn law_fates_go_by_the_header<H>(
    socket: SocketModel<H>,
    dgrams: Seq<DgramModel>,
    closed: Seq<u32>,
    i: int,
)
    requires
        0 <= i < dgrams.len(),
    ensures
        ({
            let dgram = dgrams[i];
            let id = named(dgram.buf);
            let fate = socket.fates(dgrams, closed)[i];
            let ours = is_packet(dgram.buf) && open_after(socket, dgrams.take(i), closed, id);
            &&& socket.fates(dgrams, closed).len() == dgrams.len()
            &&& fate is Stray <==> !ours
            &&& fate is Unreachable <==> ours && closed.contains(id)
            &&& ours && !closed.contains(id) ==> (fate matches Fate::Delivered(to, packet) && {
                &&& to == id
                &&& packet.header == Header::decoding(dgram.buf)
                &&& packet.header.stream_id == id
                &&& packet.data == dgram.buf.skip(20)
                &&& packet.read_offset == 0
                &&& packet.from == dgram.dest
            })
        }),
{
    let dgram = dgrams[i];
    lemma_fate_at(socket, dgrams, closed, i);
    lemma_streams_after(socket, dgrams.take(i), closed, named(dgram.buf));
    assert(is_packet(dgram.buf) == Header::starts(dgram.buf));
    if is_packet(dgram.buf) {
        assert(Header::decoding(dgram.buf).stream_id == named(dgram.buf));
    }
}

/// A packet for an open stream that can be reached is delivered to it, however
/// long it is and whatever came before it.
pub proof fn law_open_streams_get_their_packets<H>(
    socket: SocketModel<H>,
    dgrams: Seq<DgramModel>,
    closed: Seq<u32>,
    i: int,
)
    requires
        0 <= i < dgrams.len(),
        is_packet(dgrams[i].buf),
        socket.streams.contains_key(named(dgrams[i].buf)),
        !closed.contains(named(dgrams[i].buf)),
    ensures
        socket.fates(dgrams, closed)[i] == Fate::Delivered(
            named(dgrams[i].buf),
            IncomingModel {
                header: Header::decoding(dgrams[i].buf),
                data: dgrams[i].buf.skip(20),
                read_offset: 0,
                from: dgrams[i].dest,
            },
        ),
{
    law_fates_go_by_the_header(socket, dgrams, closed, i);
}

/// After datagrams came in, exactly those streams were forgotten that are out of
/// reach and that a packet came for. The others have the handles that they had,
/// and nothing else changes but what waits to be received, the counters of what
/// came in, and who is to be woken.
pub proof fn law_unreachable_streams_are_forgotten<H>(
    socket: SocketModel<H>,
    dgrams: Seq<DgramModel>,
    closed: Seq<u32>,
)
    ensures
        ({
            let after = socket.arrived_all(dgrams, closed);
            &&& forall|id: u32| #[trigger]
                after.streams.contains_key(id) <==> open_after(socket, dgrams, closed, id)
            &&& forall|id: u32| #[trigger]
                after.streams.contains_key(id) ==> after.streams[id] == socket.streams[id]
            &&& after.stats == SocketStatsModel {
                rx_bytes: after.stats.rx_bytes,
                rx_dgrams: after.stats.rx_dgrams,
                ..socket.stats
            }
            &&& after.wakes.drive == socket.wakes.drive
            &&& after == SocketModel {
                streams: after.streams,
                stats: after.stats,
                recv_dgrams: after.recv_dgrams,
                recv_waker: after.recv_waker,
                wakes: after.wakes,
                ..socket
            }
        }),
    decreases dgrams.len(),
{
    let after = socket.arrived_all(dgrams, closed);
    assert forall|id: u32| #[trigger] after.streams.contains_key(id) == open_after(
        socket,
        dgrams,
        closed,
        id,
    ) by {
        lemma_streams_after(socket, dgrams, closed, id);
    }
    if dgrams.len() > 0 {
        let next = socket.arrived(dgrams[0], closed);
        law_unreachable_streams_are_forgotten(next, dgrams.drop_first(), closed);
        assert forall|id: u32| #[trigger] after.streams.contains_key(
            id,
        ) implies after.streams[id] == socket.streams[id] by {
            lemma_streams_after(next, dgrams.drop_first(), closed, id);
            assert(next.streams.contains_key(id));
        }
    }
}

/// Of what came in, exactly the delivered packets go to streams, and exactly the
/// strays to whoever receives datagrams, each once and in order.
pub proof fn law_deliveries_are_in_order(
    dgrams: Seq<DgramModel>,
    fates: Seq<Fate>,
    dgram: DgramModel,
    fate: Fate,
)
    requires
        dgrams.len() == fates.len(),
    ensures
        delivered(Seq::empty()) == Seq::<(u32, IncomingModel)>::empty(),
        delivered(fates.push(fate)) == match fate {
            Fate::Delivered(id, packet) => delivered(fates).push((id, packet)),
            _ => delivered(fates),
        },
        strays(dgrams.push(dgram), fates.push(fate)) == if fate is Stray {
            strays(dgrams, fates).push(dgram)
        } else {
            strays(dgrams, fates)
        },
    decreases fates.len(),
{
    let more = fates.push(fate);
    let all = dgrams.push(dgram);
    if fates.len() > 0 {
        let rest = fates.drop_first();
        law_deliveries_are_in_order(dgrams.drop_first(), rest, dgram, fate);
        assert(more.drop_first() =~= rest.push(fate));
        assert(all.drop_first() =~= dgrams.drop_first().push(dgram));
        assert(delivered(more) =~= match fate {
            Fate::Delivered(id, packet) => delivered(fates).push((id, packet)),
            _ => delivered(fates),
        });
        assert(strays(all, more) =~= if fate is Stray {
            strays(dgrams, fates).push(dgram)
        } else {
            strays(dgrams, fates)
        });
    } else {
        assert(delivered(more.drop_first()) =~= Seq::empty());
        assert(delivered(fates) =~= Seq::empty());
        assert(strays(all.drop_first(), more.drop_first()) =~= Seq::empty());
        assert(strays(dgrams, fates) =~= Seq::empty());
        assert(delivered(more) =~= match fate {
            Fate::Delivered(id, packet) => delivered(fates).push((id, packet)),
            _ => delivered(fates),
        });
        assert(strays(all, more) =~= if fate is Stray {
            strays(dgrams, fates).push(dgram)
        } else {
            strays(dgrams, fates)
        });
    }
}

/// A datagram is counted with its bytes. If it is a packet for an open stream,
/// nothing else changes; else it waits to be received, with its sender, behind
/// those that came before it, and a receiver that waits is woken. Where 1024 wait,
/// it is dropped.
pub proof fn law_datagrams_are_received<H>(
    socket: SocketModel<H>,
    data: Seq<u8>,
    from: crate::addr::SocketAddr,
)
    ensures
        ({
            let after = socket.received(data, from);
            let ours = is_packet(data) && socket.streams.contains_key(named(data));
            let waits = !ours && socket.recv_dgrams.len() < 1024;
            &&& after.stats == SocketStatsModel {
                rx_bytes: socket.stats.rx_bytes + data.len(),
                rx_dgrams: socket.stats.rx_dgrams + 1,
                ..socket.stats
            }
            &&& after.recv_dgrams == if waits {
                socket.recv_dgrams.push(DgramModel { buf: data, dest: from })
            } else {
                socket.recv_dgrams
            }
            &&& after.recv_waker == (socket.recv_waker && !waits)
            &&& after.wakes == SocketWakes {
                recv: socket.wakes.recv || socket.recv_waker && waits,
                ..socket.wakes
            }
            &&& after == SocketModel {
                stats: after.stats,
                recv_dgrams: after.recv_dgrams,
                recv_waker: after.recv_waker,
                wakes: after.wakes,
                ..socket
            }
            &&& socket.arrival(data, from) is Stream <==> ours
            &&& ours ==> socket.arrival(data, from) == Arrival::Stream(
                named(data),
                IncomingModel {
                    header: Header::decoding(data),
                    data: data.skip(20),
                    read_offset: 0,
                    from,
                },
            )
        }),
{
    assert(is_packet(data) == Header::starts(data));
    if is_packet(data) {
        assert(Header::decoding(data).stream_id == named(data));
    }
}

/// Datagrams come in one after the other, in order. One that came in does what it
/// does alone, but that a stream that is out of reach is forgotten.
pub proof fn law_datagrams_come_in_order<H>(
    socket: SocketModel<H>,
    front: Seq<DgramModel>,
    dgram: DgramModel,
    closed: Seq<u32>,
)
    ensures
        socket.arrived_all(Seq::empty(), closed) == socket,
        socket.arrived_all(front.push(dgram), closed) == socket.arrived_all(front, closed).arrived(
            dgram,
            closed,
        ),
        ({
            let after = socket.arrived(dgram, closed);
            let id = named(dgram.buf);
            let lost = is_packet(dgram.buf) && socket.streams.contains_key(id) && closed.contains(
                id,
            );
            &&& after == SocketModel {
                streams: after.streams,
                ..socket.received(dgram.buf, dgram.dest)
            }
            &&& after.streams == if lost {
                socket.streams.remove(id)
            } else {
                socket.streams
            }
        }),
    decreases front.len(),
{
    let all = front.push(dgram);
    law_datagrams_are_received(socket, dgram.buf, dgram.dest);
    if front.len() > 0 {
        law_datagrams_come_in_order(
            socket.arrived(front[0], closed),
            front.drop_first(),
            dgram,
            closed,
        );
        assert(all.drop_first() =~= front.drop_first().push(dgram));
    } else {
        assert(all.drop_first() =~= Seq::empty());
        assert(socket.arrived(dgram, closed).arrived_all(Seq::empty(), closed) == socket.arrived(
            dgram,
            closed,
        ));
    }
}

/// A round of receiving looks at exactly the datagrams of the reads up to the one
/// where it stops, in order. It stops after 59 reads at the latest.
pub proof fn law_all_reads_are_looked_at(reads: Seq<ReadModel>, i: nat, stop: int)
    requires
        i <= stop,
        stops_at(reads, i, stop) || stop == 59 && stop <= reads.len() && (forall|k: int|
            i <= k < stop ==> (#[trigger] reads[k]) is Ready),
    ensures
        looked_at(reads, i) == reads.subrange(i as int, stop).map_values(
            |read: ReadModel|
                match read {
                    ReadModel::Ready(dgrams) => dgrams,
                    _ => Seq::empty(),
                },
        ).flatten(),
    decreases stop - i,
{
    let given = |read: ReadModel|
        match read {
            ReadModel::Ready(dgrams) => dgrams,
            _ => Seq::<DgramModel>::empty(),
        };
    let parts = reads.subrange(i as int, stop).map_values(given);
    if i < stop {
        assert(reads[i as int] is Ready);
        if stops_at(reads, i, stop) {
            assert(stops_at(reads, i + 1, stop));
        }
        law_all_reads_are_looked_at(reads, i + 1, stop);
        assert(parts.drop_first() =~= reads.subrange(i as int + 1, stop).map_values(given));
        assert(parts.first() == given(reads[i as int]));
    } else {
        assert(parts =~= Seq::empty());
    }
}

/// The state of a socket that has done the given events.
pub open spec fn done<H>(socket: SocketModel<H>, events: Seq<OutgoingModel>) -> SocketModel<H>
    decreases events.len(),
{
    if events.len() == 0 {
        socket
    } else {
        done(socket, events.drop_last()).took(events.last())
    }
}

/// What is to be sent is added to the end of what is to go to the UDP socket: a set
/// of packets as what it comes to, with the set beside it, and a datagram whole, to
/// its destination. A stream that is over is forgotten. Nothing else changes.
pub proof fn law_events_are_done<H>(socket: SocketModel<H>, event: OutgoingModel)
    ensures
        ({
            let after = socket.took(event);
            match event {
                OutgoingModel::StreamDropped(id) => {
                    &&& !after.streams.contains_key(id)
                    &&& forall|other: u32|
                        other != id ==> {
                            &&& #[trigger] after.streams.contains_key(other)
                                == socket.streams.contains_key(other)
                            &&& socket.streams.contains_key(other) ==> after.streams[other]
                                == socket.streams[other]
                        }
                    &&& after == SocketModel { streams: after.streams, ..socket }
                },
                OutgoingModel::TransmitDgram(dgram) => after == SocketModel {
                    outgoing_transmits: socket.outgoing_transmits.push(
                        TransmitModel {
                            destination: dgram.dest,
                            ecn: None,
                            contents: dgram.buf,
                            segment_size: None,
                            src_ip: None,
                        },
                    ),
                    ..socket
                },
                OutgoingModel::Transmit(set) => {
                    &&& after == SocketModel {
                        outgoing_transmits: socket.outgoing_transmits.push(set.transmit()),
                        outgoing_packet_sets: socket.outgoing_packet_sets.push(set),
                        ..socket
                    }
                    &&& set.segment_size is Some ==> after.outgoing_transmits.last().destination
                        == set.dest
                },
            }
        }),
{
}

/// Doing one event more.
proof fn lemma_done_first<H>(socket: SocketModel<H>, events: Seq<OutgoingModel>)
    requires
        events.len() > 0,
    ensures
        done(socket, events) == done(socket.took(events[0]), events.drop_first()),
    decreases events.len(),
{
    let front = events.drop_last();
    if front.len() > 0 {
        lemma_done_first(socket, front);
        assert(events.drop_first().drop_last() =~= front.drop_first());
        assert(events.drop_first().last() == events.last());
    } else {
        assert(events.drop_first() =~= Seq::empty());
        assert(front =~= Seq::empty());
        assert(done(socket, front) == socket);
    }
}

/// Whether filling a batch does the first `n` events, and no more: with fewer the
/// batch is not full, and with these it is, or no event is left.
pub open spec fn fills_with<H>(socket: SocketModel<H>, n: int) -> bool {
    let after = socket.filled().0;
    let free = SocketModel { pending: after.pending, ..socket };
    &&& 0 <= n <= socket.pending.len()
    &&& after.pending == socket.pending.skip(n)
    &&& after == done(free, socket.pending.take(n))
    &&& n < socket.pending.len() ==> after.outgoing_transmits.len() >= socket.batch_size
    &&& forall|m: int|
        0 <= m < n ==> (#[trigger] done(free, socket.pending.take(m))).outgoing_transmits.len()
            < socket.batch_size
}

/// Which events are left does not matter to those that are done.
proof fn lemma_done_keeps_pending<H>(
    socket: SocketModel<H>,
    other: SocketModel<H>,
    events: Seq<OutgoingModel>,
)
    requires
        socket == (SocketModel { pending: socket.pending, ..other }),
    ensures
        done(socket, events) == (SocketModel { pending: socket.pending, ..done(other, events) }),
    decreases events.len(),
{
    if events.len() > 0 {
        lemma_done_keeps_pending(socket, other, events.drop_last());
    }
}

/// A batch is filled with events in the order in which they came, each done once,
/// until it is full or no event is left; those that are left stay in order.
pub proof fn law_batches_are_filled_in_order<H>(socket: SocketModel<H>) -> (n: int)
    ensures
        fills_with(socket, n),
        socket.filled().1 == (socket.filled().0.outgoing_transmits.len() < socket.batch_size),
    decreases socket.pending.len(),
{
    let after = socket.filled().0;
    let free = SocketModel { pending: after.pending, ..socket };
    if socket.outgoing_transmits.len() < socket.batch_size && socket.pending.len() > 0 {
        let first = socket.pending[0];
        let rest = socket.pending.drop_first();
        let next = SocketModel { pending: rest, ..socket }.took(first);
        let n = law_batches_are_filled_in_order(next);
        let freed = SocketModel { pending: after.pending, ..next };
        assert(next.pending == rest);
        assert(free.took(first) == freed);
        assert(rest.skip(n) =~= socket.pending.skip(n + 1));
        assert forall|m: int| 0 < m <= n + 1 implies #[trigger] done(
            free,
            socket.pending.take(m),
        ) == done(freed, rest.take(m - 1)) by {
            lemma_done_first(free, socket.pending.take(m));
            assert(socket.pending.take(m).drop_first() =~= rest.take(m - 1));
        }
        assert forall|m: int| 0 <= m < n + 1 implies (#[trigger] done(
            free,
            socket.pending.take(m),
        )).outgoing_transmits.len() < socket.batch_size by {
            if m == 0 {
                assert(socket.pending.take(0) =~= Seq::empty());
            } else {
                assert(done(freed, rest.take(m - 1)).outgoing_transmits.len()
                    < next.batch_size);
            }
        }
        n + 1
    } else {
        assert(socket.pending.take(0) =~= Seq::empty());
        assert(socket.pending.skip(0) =~= socket.pending);
        0
    }
}

/// A transmit is counted with its bytes and its datagrams, in all and in the
/// current window. A window starts with the first transmit; a transmit that comes
/// more than a second later starts a new one, with nothing counted in it.
pub proof fn law_transmits_are_counted(
    stats: SocketStatsModel,
    transmit: TransmitModel,
    now: nat,
)
    ensures
        ({
            let after = stats.after_tx(transmit, now);
            let start = match stats.tx_window_start {
                Some(start) => start,
                None => now,
            };
            let over = now > start + 1_000_000_000;
            &&& after.tx_bytes == stats.tx_bytes + transmit.contents.len()
            &&& after.tx_transmits == stats.tx_transmits + 1
            &&& after.tx_dgrams == stats.tx_dgrams + transmit.num_segments()
            &&& after.rx_bytes == stats.rx_bytes
            &&& after.rx_dgrams == stats.rx_dgrams
            &&& after.tx_window_start == Some(
                if over {
                    now
                } else {
                    start
                },
            )
            &&& after.tx_window_bytes == if over {
                0
            } else {
                stats.tx_window_bytes + transmit.contents.len()
            }
            &&& after.tx_window_dgrams == if over {
                0
            } else {
                stats.tx_window_dgrams + transmit.num_segments()
            }
        }),
{
}

/// Transmits are counted one after the other.
pub proof fn law_transmits_are_counted_in_order(
    stats: SocketStatsModel,
    front: Seq<TransmitModel>,
    transmit: TransmitModel,
    now: nat,
)
    ensures
        stats.after_all_tx(Seq::empty(), now) == stats,
        stats.after_all_tx(front.push(transmit), now) == stats.after_all_tx(front, now).after_tx(
            transmit,
            now,
        ),
        bytes_of(front.push(transmit)) == bytes_of(front) + transmit.contents.len(),
        segments_of(front.push(transmit)) == segments_of(front) + transmit.num_segments(),
    decreases front.len(),
{
    let all = front.push(transmit);
    if front.len() > 0 {
        law_transmits_are_counted_in_order(
            stats.after_tx(front[0], now),
            front.drop_first(),
            transmit,
            now,
        );
        assert(all.drop_first() =~= front.drop_first().push(transmit));
    } else {
        assert(all.drop_first() =~= Seq::empty());
        assert(stats.after_tx(transmit, now).after_all_tx(Seq::empty(), now) == stats.after_tx(
            transmit,
            now,
        ));
        assert(bytes_of(Seq::empty()) == 0 && segments_of(Seq::empty()) == 0);
        assert(bytes_of(front) == 0 && segments_of(front) == 0);
    }
}

/// What the UDP socket took is no longer to be sent, and the rest stays in order.
/// Of as many sets, or all of them, exactly the packets that their streams keep are
/// reported as sent, in order.
pub proof fn law_what_was_taken_is_reported<H>(socket: SocketModel<H>, n: nat, now: nat)
    requires
        n <= socket.outgoing_transmits.len(),
    ensures
        ({
            let after = socket.transmitted(n, now);
            let sets = if n < socket.outgoing_packet_sets.len() {
                n
            } else {
                socket.outgoing_packet_sets.len()
            };
            &&& after.outgoing_transmits == socket.outgoing_transmits.skip(n as int)
            &&& after.outgoing_packet_sets == socket.outgoing_packet_sets.skip(sets as int)
            &&& after.sent == socket.sent + sent_of(socket.outgoing_packet_sets.take(sets as int))
            &&& after.stats == socket.stats.after_all_tx(
                socket.outgoing_transmits.take(n as int),
                now,
            )
            &&& after == SocketModel {
                outgoing_transmits: after.outgoing_transmits,
                outgoing_packet_sets: after.outgoing_packet_sets,
                sent: after.sent,
                stats: after.stats,
                ..socket
            }
        }),
{
}

/// The reports of sets follow one another, and each is the numbers of the packets
/// that the set's stream keeps, in order.
pub proof fn law_reports_are_in_order(sets: Seq<PacketSetModel>, set: PacketSetModel)
    ensures
        sent_of(Seq::empty()) == Seq::<SentPacket>::empty(),
        ({
            let front = sent_of(sets);
            let all = sent_of(sets.push(set));
            let shared = shared_packets(set.packets);
            &&& all.len() == front.len() + shared.len()
            &&& forall|i: int| 0 <= i < front.len() ==> #[trigger] all[i] == front[i]
            &&& forall|i: int|
                0 <= i < shared.len() ==> all[front.len() + i] == (SentPacket {
                    source: set.source,
                    seq: (#[trigger] shared[i]).header.seq,
                })
        }),
    decreases sets.len(),
{
    let all = sets.push(set);
    if sets.len() > 0 {
        law_reports_are_in_order(sets.drop_first(), set);
        assert(all.drop_first() =~= sets.drop_first().push(set));
    } else {
        assert(all.drop_first() =~= Seq::empty());
        assert(sent_of(sets) =~= Seq::empty());
        assert(sent_of(all.drop_first()) =~= Seq::empty());
    }
}

/// An acknowledgement marks the packets of its stream in a set that waits, each as
/// it is marked in a queue, and leaves where the set goes and what else it is.
pub proof fn law_waiting_sets_are_marked(set: PacketSetModel, source: u64, seq: u32)
    ensures
        OutgoingModel::Transmit(set).acked(source, seq) matches OutgoingModel::Transmit(after) && {
            &&& after.source == set.source
            &&& after.dest == set.dest
            &&& after.segment_size == set.segment_size
            &&& after.packets.len() == set.packets.len()
            &&& forall|i: int|
                0 <= i < set.packets.len() ==> #[trigger] after.packets[i] == if set.source
                    == source {
                    set.packets[i].acked(seq)
                } else {
                    set.packets[i]
                }
        },
{
}

/// A new socket has no streams, and nothing to send or to receive.
pub proof fn law_sockets_start_empty<H>(batch_size: usize)
    ensures
        ({
            let socket = SocketModel::<H>::initial(batch_size);
            &&& forall|id: u32| !socket.streams.contains_key(id)
            &&& socket.opened == 0
            &&& socket.batch_size == batch_size
            &&& socket.pending.len() == 0 && socket.outgoing_transmits.len() == 0
            &&& socket.outgoing_packet_sets.len() == 0 && socket.sent.len() == 0
            &&& socket.recv_dgrams.len() == 0
            &&& socket.has_refs && !socket.send_overflow
            &&& !socket.drive_waker && !socket.recv_waker
            &&& !socket.wakes.drive && !socket.wakes.recv
            &&& socket.stats.tx_bytes == 0 && socket.stats.tx_transmits == 0
            &&& socket.stats.tx_dgrams == 0 && socket.stats.rx_bytes == 0
            &&& socket.stats.rx_dgrams == 0 && socket.stats.tx_window_start is None
            &&& socket.stats.tx_window_bytes == 0 && socket.stats.tx_window_dgrams == 0
        }),
{
}

/// A driver that waits is woken, and so is a receiver; nothing else changes.
pub proof fn law_waiting_tasks_are_woken<H>(socket: SocketModel<H>)
    ensures
        socket.wake_drive() == (SocketModel {
            drive_waker: false,
            wakes: SocketWakes {
                drive: socket.wakes.drive || socket.drive_waker,
                ..socket.wakes
            },
            ..socket
        }),
        socket.wake_recv() == (SocketModel {
            recv_waker: false,
            wakes: SocketWakes { recv: socket.wakes.recv || socket.recv_waker, ..socket.wakes },
            ..socket
        }),
{
}

/// Sending pauses exactly for an interrupted send.
pub proof fn law_interrupted_sends_are_overflows(error: ErrorModel)
    ensures
        is_overflow(error) <==> error.kind == ErrorKind::Interrupted,
{
}

/// Models of several things show each of them, in order.
pub proof fn law_models_are_in_order(
    events: Seq<(EventIncoming, bool)>,
    deliveries: Seq<(u32, EventIncoming)>,
    event: EventOutgoing,
)
    ensures
        event_models(events).len() == events.len(),
        forall|i: int|
            0 <= i < events.len() ==> (#[trigger] event_models(events)[i]) == (
                events[i].0.packet(),
                events[i].1,
            ),
        forall|i: int|
            0 <= i < events.len() ==> ((
            #[trigger] events[i]).0 matches EventIncoming::Packet(packet)
                ==> events[i].0.packet() == packet@),
        delivery_models(deliveries).len() == deliveries.len(),
        forall|i: int|
            0 <= i < deliveries.len() ==> (#[trigger] delivery_models(deliveries)[i]) == (
                deliveries[i].0,
                deliveries[i].1.packet(),
            ),
        event matches EventOutgoing::Transmit(set) ==> event@ == OutgoingModel::Transmit(set@),
        event matches EventOutgoing::TransmitDgram(dgram) ==> event@
            == OutgoingModel::TransmitDgram(dgram@),
        event matches EventOutgoing::StreamDropped(id) ==> event@
            == OutgoingModel::StreamDropped(id),
{
}

/// Models of queues show each entry, in order.
pub proof fn law_queues_are_shown_in_order(
    packets: Seq<PacketRef>,
    sets: Seq<PacketSet>,
    transmits: Seq<Transmit>,
    dgrams: Seq<Dgram>,
    events: Seq<EventOutgoing>,
    reads: Seq<RecvRead>,
)
    ensures
        ref_models(packets).len() == packets.len(),
        forall|i: int| 0 <= i < packets.len() ==> #[trigger] ref_models(packets)[i] == packets[i]@,
        set_models(sets).len() == sets.len(),
        forall|i: int| 0 <= i < sets.len() ==> #[trigger] set_models(sets)[i] == sets[i]@,
        packet_set_models(sets) == set_models(sets),
        transmit_models(transmits).len() == transmits.len(),
        forall|i: int|
            0 <= i < transmits.len() ==> #[trigger] transmit_models(transmits)[i] == transmits[i]@,
        dgram_models(dgrams).len() == dgrams.len(),
        forall|i: int| 0 <= i < dgrams.len() ==> #[trigger] dgram_models(dgrams)[i] == dgrams[i]@,
        outgoing_models(events).len() == events.len(),
        forall|i: int|
            0 <= i < events.len() ==> #[trigger] outgoing_models(events)[i] == events[i]@,
        read_models(reads).len() == reads.len(),
        forall|i: int| 0 <= i < reads.len() ==> #[trigger] read_models(reads)[i] == reads[i]@,
        forall|i: int|
            0 <= i < reads.len() ==> match #[trigger] reads[i] {
                RecvRead::Ready(given) => reads[i]@ == ReadModel::Ready(dgram_models(given@)),
                RecvRead::Pending => reads[i]@ is Pending,
                RecvRead::Failed(error) => reads[i]@ == ReadModel::Failed(error@),
            },
{
    assert(packet_set_models(sets) =~= set_models(sets));
}

/// Results are shown as they are.
pub proof fn law_results_are_faithful(n: usize, error: UdxError, value: bool)
    ensures
        write_result(None) == None::<Result<nat, ErrorModel>>,
        write_result(Some(Ok(n))) == Some(Ok::<nat, ErrorModel>(n as nat)),
        write_result(Some(Err(error))) == Some(Err::<nat, ErrorModel>(error@)),
        read_result(None) == None::<Result<(), ErrorModel>>,
        read_result(Some(Ok(()))) == Some(Ok::<(), ErrorModel>(())),
        read_result(Some(Err(error))) == Some(Err::<(), ErrorModel>(error@)),
        crate::socket::bool_result(Ok(value)) == Ok::<bool, ErrorModel>(value),
        crate::socket::bool_result(Err(error)) == Err::<bool, ErrorModel>(error@),
{
}

/// Bytes add up.
pub proof fn law_bytes_add_up(
    dgrams: Seq<DgramModel>,
    dgram: DgramModel,
    events: Seq<(IncomingModel, bool)>,
    event: (IncomingModel, bool),
)
    ensures
        dgram_bytes(seq![dgram] + dgrams) == dgram.buf.len() + dgram_bytes(dgrams),
        data_bytes(seq![event] + events) == event.0.data.len() + data_bytes(events),
        dgram_bytes(Seq::empty()) == 0,
        data_bytes(Seq::empty()) == 0,
{
    assert((seq![dgram] + dgrams).drop_first() =~= dgrams);
    assert((seq![event] + events).drop_first() =~= events);
}

/// A stream that is opened takes its number, from whichever stream had it; no other
/// stream is touched, and no two are opened under the same source. A stream that is
/// forgotten leaves the others as they are.
pub proof fn law_streams_come_and_go<H>(socket: SocketModel<H>, id: u32, handle: H, other: u32)
    requires
        socket.opened < u64::MAX,
    ensures
        ({
            let opened = socket.connected(id, handle);
            let gone = socket.without(id);
            &&& opened.streams.contains_key(id) && opened.streams[id] == handle
            &&& opened.opened > socket.opened
            &&& !gone.streams.contains_key(id)
            &&& other != id ==> {
                &&& opened.streams.contains_key(other) == socket.streams.contains_key(other)
                &&& gone.streams.contains_key(other) == socket.streams.contains_key(other)
                &&& socket.streams.contains_key(other) ==> opened.streams[other]
                    == socket.streams[other] && gone.streams[other] == socket.streams[other]
            }
            &&& opened == SocketModel { streams: opened.streams, opened: opened.opened, ..socket }
            &&& gone == SocketModel { streams: gone.streams, ..socket }
        }),
{
}

/// Datagrams are handed out in the order in which they came, each once; a receiver
/// waits exactly where there is none.
pub proof fn law_datagrams_are_handed_out_in_order<H>(socket: SocketModel<H>)
    ensures
        ({
            let (after, dgram) = socket.handed_out();
            &&& dgram is None <==> socket.recv_dgrams.len() == 0
            &&& dgram matches Some(first) ==> socket.recv_dgrams == seq![first]
                + after.recv_dgrams && after.recv_waker == socket.recv_waker
            &&& dgram is None ==> after.recv_waker && after.recv_dgrams == socket.recv_dgrams
            &&& after == SocketModel {
                recv_dgrams: after.recv_dgrams,
                recv_waker: after.recv_waker,
                ..socket
            }
        }),
{
    let (after, dgram) = socket.handed_out();
    if let Some(first) = dgram {
        assert(socket.recv_dgrams =~= seq![first] + after.recv_dgrams);
    }
}

/// An event waits behind those that came before it. An acknowledgement leaves how
/// many wait, in which order and what else they ask for.
pub proof fn law_events_wait_in_order<H>(
    socket: SocketModel<H>,
    event: OutgoingModel,
    source: u64,
    seq: u32,
)
    ensures
        ({
            let asked = socket.asked(event);
            let noted = socket.noted_ack(source, seq);
            &&& asked.pending == socket.pending.push(event)
            &&& asked == SocketModel { pending: asked.pending, ..socket }
            &&& noted.pending.len() == socket.pending.len()
            &&& forall|i: int|
                0 <= i < socket.pending.len() ==> #[trigger] noted.pending[i]
                    == socket.pending[i].acked(source, seq)
            &&& noted == SocketModel { pending: noted.pending, ..socket }
        }),
{
}

/// Once the last handle beside the driver's is dropped, nobody needs the socket for
/// itself, and the driver is woken to see that.
pub proof fn law_the_last_handle_is_noted<H>(socket: SocketModel<H>, handles: usize)
    ensures
        ({
            let after = socket.handle_dropped(handles);
            &&& handles != 2 ==> after == socket
            &&& handles == 2 ==> {
                &&& !after.has_refs
                &&& !after.drive_waker
                &&& after.wakes == SocketWakes {
                    drive: socket.wakes.drive || socket.drive_waker,
                    ..socket.wakes
                }
                &&& after == SocketModel {
                    has_refs: false,
                    drive_waker: false,
                    wakes: after.wakes,
                    ..socket
                }
            }
        }),
{
}

/// Nothing that the UDP socket did not take is lost: unless it took some, all stays
/// to be sent. An interrupted send is no failure, but sending pauses; any other
/// failure is told. There is more to do at once exactly if a batch was taken and
/// events are left.
pub proof fn law_sends_lose_nothing<H>(
    socket: SocketModel<H>,
    outcome: OutcomeModel,
    ran_out: bool,
    now: nat,
)
    ensures
        ({
            let (after, result) = socket.after_send(outcome, ran_out, now);
            &&& !(outcome is Sent) ==> {
                &&& after.outgoing_transmits == socket.outgoing_transmits
                &&& after.outgoing_packet_sets == socket.outgoing_packet_sets
                &&& after.sent == socket.sent && after.stats == socket.stats
            }
            &&& outcome matches OutcomeModel::Sent(n) ==> after == socket.transmitted(n, now)
            &&& result == Ok::<bool, ErrorModel>(true) <==> outcome is Sent && !ran_out
            &&& result is Err <==> (outcome matches OutcomeModel::Failed(error) && error.kind
                != ErrorKind::Interrupted)
            &&& result matches Err(error) ==> outcome == OutcomeModel::Failed(error)
            &&& after.send_overflow == (socket.send_overflow || (
            outcome matches OutcomeModel::Failed(error) && error.kind == ErrorKind::Interrupted))
            &&& after.streams == socket.streams && after.pending == socket.pending
            &&& after.recv_dgrams == socket.recv_dgrams && after.has_refs == socket.has_refs
        }),
{
}

/// Sending pauses from an overflow until its timer fires, and no longer.
pub proof fn law_pauses_end<H>(socket: SocketModel<H>, timer_fired: bool)
    ensures
        ({
            let (after, gate) = socket.gated(timer_fired);
            &&& gate is Transmit <==> !socket.send_overflow
            &&& gate is Paused <==> socket.send_overflow && !timer_fired
            &&& gate is Cleared <==> socket.send_overflow && timer_fired
            &&& after.send_overflow <==> gate is Paused
            &&& after == SocketModel { send_overflow: after.send_overflow, ..socket }
        }),
{
}

/// A socket lives on while there is something to do, somebody has a handle of it,
/// or a stream is open; its driver then goes on at once, or waits to be woken.
pub proof fn law_sockets_live_while_needed<H>(
    socket: SocketModel<H>,
    should_continue: bool,
    id: u32,
)
    ensures
        ({
            let (after, outcome) = socket.end_round(should_continue);
            &&& outcome is Again <==> should_continue
            &&& should_continue || socket.has_refs || socket.streams.contains_key(id) ==> !(
            outcome is Finished)
            &&& !should_continue && !socket.has_refs && (forall|other: u32|
                !#[trigger] socket.streams.contains_key(other)) ==> outcome is Finished
            &&& outcome is Wait ==> after == SocketModel { drive_waker: true, ..socket }
            &&& !(outcome is Wait) ==> after == socket
        }),
{
}

/// What became of a batch is shown as it is.
pub proof fn law_outcomes_are_faithful(outcome: SendOutcome)
    ensures
        outcome is Pending <==> outcome@ is Pending,
        outcome matches SendOutcome::Sent(n) ==> outcome@ == OutcomeModel::Sent(n as nat),
        outcome matches SendOutcome::Failed(error) ==> outcome@ == OutcomeModel::Failed(error@),
{
}

/// There is room for what comes in, and for what was sent, exactly if the counters
/// have room for it.
pub proof fn law_room_is_what_the_counters_have<H>(
    socket: SocketModel<H>,
    dgrams: nat,
    bytes: nat,
    transmits: Seq<TransmitModel>,
)
    ensures
        socket.can_receive(dgrams, bytes) <==> {
            &&& socket.stats.rx_bytes + bytes <= usize::MAX
            &&& socket.stats.rx_dgrams + dgrams <= usize::MAX
        },
        socket.stats.can_track(transmits) <==> {
            &&& socket.stats.tx_transmits + transmits.len() <= usize::MAX
            &&& socket.stats.tx_bytes + bytes_of(transmits) <= usize::MAX
            &&& socket.stats.tx_dgrams + segments_of(transmits) <= usize::MAX
        },
{
}

} // verus!
