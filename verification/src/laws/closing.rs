//! What a stream promises of its end.

use vstd::prelude::*;

use super::sending::{law_flushing_is_maximal, queues_sent_again, tells_state};
use crate::congestion::{law_window_shrinks, shrunk};
use crate::constants::UDX_HEADER_END;
use crate::error::{ErrorKind, ErrorModel};
use crate::packet::IncomingModel;
use crate::stream::{
    lemma_ack_range_frame, lemma_sacked_frame, RoundStart, StreamModel, StreamState, StreamStats,
    Wakes,
};

verus! {

/// Which sides have closed is what the state says.
pub proof fn law_states_say_who_closed(local: bool, remote: bool)
    ensures
        StreamState::of(local, remote).is_local_closed() == local,
        StreamState::of(local, remote).is_remote_closed() == remote,
        StreamState::of(false, false) is Open,
        StreamState::of(true, false) is LocalClosed,
        StreamState::of(false, true) is RemoteClosed,
        StreamState::of(true, true) is BothClosed,
        !StreamState::Open.is_local_closed() && !StreamState::Open.is_remote_closed(),
        StreamState::LocalClosed.is_local_closed() && !StreamState::LocalClosed.is_remote_closed(),
        !StreamState::RemoteClosed.is_local_closed(),
        StreamState::RemoteClosed.is_remote_closed(),
        StreamState::BothClosed.is_local_closed() && StreamState::BothClosed.is_remote_closed(),
{
}

/// The end of a stream is noted with its error, closes this side and leaves the
/// other as it was, tells the remote, and wakes every task that waits. What was
/// sent and what came in stays.
pub proof fn law_ends_are_told(stream: StreamModel, error: ErrorModel)
    requires
        stream.can_answer(),
    ensures
        ({
            let after = stream.terminated(error);
            let n = stream.send_queue.len();
            &&& after.error == Some(error)
            &&& after.state.is_local_closed()
            &&& after.state.is_remote_closed() == stream.state.is_remote_closed()
            &&& after.send_queue.len() == n + 1
            &&& after.send_queue.take(n as int) == stream.send_queue
            &&& tells_state(after.send_queue[n as int], after)
            &&& after.send_queue[n as int].packet().header.typ == UDX_HEADER_END
            &&& !after.read_waker && !after.write_waker && !after.drive_waker
            &&& after.wakes == Wakes {
                read: stream.wakes.read || stream.read_waker,
                write: stream.wakes.write || stream.write_waker,
                drive: stream.wakes.drive || stream.drive_waker,
            }
            &&& after.stats == StreamStats {
                tx_packets: (stream.stats.tx_packets + 1) as usize,
                ..stream.stats
            }
            &&& after == StreamModel {
                error: after.error,
                state: after.state,
                send_queue: after.send_queue,
                read_waker: false,
                write_waker: false,
                drive_waker: false,
                wakes: after.wakes,
                stats: after.stats,
                ..stream
            }
        }),
{
    let ended = StreamModel {
        error: Some(error),
        state: StreamState::of(true, stream.state.is_remote_closed()),
        ..stream
    };
    super::sending::law_state_packets_tell_the_state(ended);
    assert(stream.terminated(error).send_queue == ended.with_state_packet().send_queue);
}

/// A stream is over exactly when it has an error, nothing is queued and nothing is
/// kept, whichever side closed it.
pub proof fn law_streams_are_over_when_all_is_acknowledged(stream: StreamModel)
    ensures
        stream.error is Some && stream.send_queue.len() == 0 && (forall|key: u32|
            !#[trigger] stream.outgoing.contains_key(key)) ==> stream.drained(),
        stream.drained() ==> stream.error is Some && stream.send_queue.len() == 0,
        forall|key: u32|
            stream.drained() ==> !#[trigger] stream.outgoing.contains_key(key),
{
}

/// Closing completes without the remote's help once everything sent was
/// acknowledged: a stream that keeps no packet is over as soon as the packet that
/// tells of its end was taken from the queue, and one that keeps a packet is not.
pub proof fn law_closing_completes(stream: StreamModel, error: ErrorModel)
    ensures
        ({
            let after = StreamModel { send_queue: Seq::empty(), ..stream.terminated(error) };
            &&& after.drained() <==> forall|key: u32|
                !#[trigger] stream.outgoing.contains_key(key)
            &&& !stream.terminated(error).drained()
        }),
{
    let after = StreamModel { send_queue: Seq::empty(), ..stream.terminated(error) };
    assert(after.outgoing == stream.outgoing);
    assert(stream.terminated(error).send_queue.len() > 0);
}

/// A closed stream is over once the remote acknowledges all that was sent, if that
/// is all that was missing, and the queue was taken.
pub proof fn law_the_last_acknowledgement_ends_a_stream(
    stream: StreamModel,
    error: ErrorModel,
    now: u64,
)
    requires
        stream.wf(),
        stream.remote_acked <= stream.seq,
        forall|key: u32| #[trigger]
            stream.outgoing.contains_key(key) ==> stream.remote_acked <= key,
    ensures
        ({
            let closed = StreamModel { send_queue: Seq::empty(), ..stream.terminated(error) };
            closed.remote_acked_to(stream.seq, now).drained()
        }),
{
    let closed = StreamModel { send_queue: Seq::empty(), ..stream.terminated(error) };
    let after = closed.remote_acked_to(stream.seq, now);
    super::lemma_ack_range_removes(closed, closed.remote_acked, stream.seq, now);
    lemma_ack_range_frame(closed, closed.remote_acked, stream.seq, now);
    super::receiving::law_queue_keeps_its_length(
        closed,
        closed.remote_acked,
        stream.seq,
        now,
    );
    assert forall|key: u32| !#[trigger] after.outgoing.contains_key(key) by {
        if closed.outgoing.contains_key(key) {
            assert(stream.outgoing.contains_key(key));
        }
    }
}

/// A packet with the END flag closes both sides. From then on the stream's error
/// is that the remote closed it; one that this side had closed keeps its own.
pub proof fn law_the_remote_ends_a_stream(stream: StreamModel, packet: IncomingModel, now: u64)
    requires
        packet.header.typ & UDX_HEADER_END != 0,
    ensures
        ({
            let after = stream.received(packet, true, now);
            &&& after.state is BothClosed
            &&& after.error matches Some(error)
            &&& stream.error == Some(ErrorModel::close_graceful()) ==> after.error == stream.error
            &&& stream.error != Some(ErrorModel::close_graceful()) ==> error.kind
                is UnexpectedEof && error.reason == ""@
        }),
{
    lemma_sacked_frame(stream.counted(), packet.data, 0, now);
}

/// What an error says tells why a stream ended, or what was wrong.
pub proof fn law_errors_tell_why()
    ensures
        ErrorModel::close_graceful() == (ErrorModel {
            kind: ErrorKind::ConnectionReset,
            reason: ""@,
        }),
        ErrorModel::closed_by_remote() == (ErrorModel {
            kind: ErrorKind::UnexpectedEof,
            reason: ""@,
        }),
        ErrorModel::bad_header() == (ErrorModel {
            kind: ErrorKind::InvalidData,
            reason: "Bad header"@,
        }),
        ErrorModel::retransmits_exhausted() == (ErrorModel {
            kind: ErrorKind::TimedOut,
            reason: "Max retransmits reached without ack"@,
        }),
        ErrorModel::driver_dropped() == (ErrorModel {
            kind: ErrorKind::BrokenPipe,
            reason: "Socket driver future was dropped"@,
        }),
{
}

/// Closing a stream ends it with the error of a stream that was closed on this
/// side, tells the remote, and has the task told that waits for the end. Dropping a
/// handle does the same, with no task to tell, exactly if at most the driver's is
/// left beside it.
pub proof fn law_closing_and_dropping_end_a_stream(stream: StreamModel, handles: usize)
    requires
        stream.can_answer(),
    ensures
        ({
            let closed = stream.closed_here();
            let dropped = stream.handle_dropped(handles);
            &&& closed.on_close
            &&& closed.error matches Some(error)
            &&& error.kind is ConnectionReset
            &&& error.reason == ""@
            &&& closed.state.is_local_closed()
            &&& tells_state(closed.send_queue.last(), closed)
            &&& closed == StreamModel { on_close: true, ..stream.terminated(error) }
            &&& handles > 2 ==> dropped == stream
            &&& handles <= 2 ==> dropped == StreamModel { on_close: stream.on_close, ..closed }
        }),
{
    law_ends_are_told(stream, ErrorModel::close_graceful());
}

/// A round of the driver finds a stream over exactly when it has an error, nothing
/// is queued and nothing is kept; then a task that waits for the end is told, once.
/// Else it takes in what came in. If the socket is gone the stream ends with that
/// as its error, and the remote is told; if not, the timer is looked at next.
pub proof fn law_rounds_find_the_end(
    stream: StreamModel,
    events: Seq<(IncomingModel, bool)>,
    socket_gone: bool,
    now: u64,
)
    ensures
        ({
            let (after, start) = stream.start_round(events, socket_gone, now);
            let over = stream.error is Some && stream.send_queue.len() == 0 && forall|key: u32|
                !stream.outgoing.contains_key(key);
            let awake = StreamModel { drive_waker: false, ..stream };
            &&& start is Finished <==> over
            &&& over ==> start == RoundStart::Finished(stream.on_close, stream.local_id)
                && after == StreamModel { on_close: false, ..awake }
            &&& start is Again <==> !over && socket_gone
            &&& start is Again ==> {
                &&& after.error matches Some(error)
                &&& error.kind is BrokenPipe
                &&& after == awake.polled_incoming(events, true, now).0.terminated(error)
                &&& after.state.is_local_closed()
                &&& after.send_queue.len() > 0
                &&& after.send_queue.last().packet().header.typ == UDX_HEADER_END
            }
            &&& start is Timer <==> !over && !socket_gone
            &&& start is Timer ==> after == awake.polled_incoming(events, false, now).0
        }),
{
    let awake = StreamModel { drive_waker: false, ..stream };
    let end = awake.polled_incoming(events, socket_gone, now).0;
    assert(2u32 & 2u32 == 2) by (bit_vector);
    if socket_gone && !stream.drained() {
        let last = end.terminated(ErrorModel::driver_dropped()).send_queue.last();
        assert(last.packet().header.typ == UDX_HEADER_END);
    }
}

/// The second half of a round looks at the timer, queues what waited, and hands out
/// the whole queue: what was queued before, in order, and after it exactly the
/// packets that are sent again. The driver then waits. Where a packet was sent too
/// often, the stream ends instead, with a timeout as its error, and the remote is
/// told in the next round.
pub proof fn law_rounds_send_all_that_is_queued(stream: StreamModel, fired: bool)
    requires
        stream.wf(),
        stream.can_answer(),
    ensures
        ({
            let (after, sent) = stream.end_round(fired);
            let (checked, ok) = stream.checked_timeouts(fired);
            let n = stream.send_queue.len() as int;
            &&& sent is Some <==> ok
            &&& sent matches Some(queue) ==> {
                let flushed = StreamModel {
                    send_queue: queue,
                    drive_waker: stream.drive_waker,
                    ..after
                };
                &&& after.send_queue.len() == 0
                &&& after.drive_waker
                &&& after.error == stream.error
                &&& flushed == checked.flushed()
                &&& queue.len() >= n
                &&& forall|i: int| 0 <= i < n ==> #[trigger] queue[i] == stream.send_queue[i]
                &&& queues_sent_again(checked, flushed, n, stream.remote_acked, stream.seq)
            }
            &&& sent is None ==> {
                &&& after.error matches Some(error)
                &&& error.kind is TimedOut
                &&& after == checked.terminated(error)
                &&& after.state.is_local_closed()
                &&& after.send_queue.len() == n + 1
                &&& tells_state(after.send_queue[n], after)
            }
        }),
{
    let (after, sent) = stream.end_round(fired);
    let (checked, ok) = stream.checked_timeouts(fired);
    super::sending::law_timeouts_give_up_what_is_in_flight(stream, fired);
    if ok {
        if fired && stream.remote_acked != stream.seq {
            let start = StreamModel {
                timer: Some(2 * stream.rtt.rto),
                cwnd: shrunk(stream.cwnd),
                ..stream
            };
            law_window_shrinks(stream.cwnd);
            super::lemma_lose_keeps_invariant(start, stream.remote_acked, stream.seq);
        }
        law_flushing_is_maximal(checked);
        let flushed = checked.flushed();
        assert(flushed == StreamModel {
            send_queue: sent.unwrap(),
            drive_waker: stream.drive_waker,
            ..after
        });
    } else {
        law_ends_are_told(checked, ErrorModel::retransmits_exhausted());
    }
}

} // verus!
