//! The receiving side of a stream: packets that came in, in any order, are
//! handed to the reader in order.

use std::collections::BTreeMap;

use tokio::io::ReadBuf;
use vstd::prelude::*;

use crate::buffers::{
    bytes_as_slice, read_buf_capacity, read_buf_filled, read_buf_put_slice, read_buf_remaining,
};
use crate::packet::{IncomingModel, IncomingPacket};

verus! {

/// What a [`Reassembly`] stands for.
#[verifier::ext_equal]
pub struct ReassemblyModel {
    /// Packets that came in and were not read to their end, by number.
    pub incoming: Map<u32, IncomingModel>,
    /// All packets below this number have come in.
    pub ack: u32,
    /// All packets below this number have been read to their end.
    pub read_cursor: u32,
}

/// The smallest number from `from` on that no packet has. Numbers end at
/// `u32::MAX`.
pub open spec fn first_missing(incoming: Map<u32, IncomingModel>, from: u32) -> u32
    decreases u32::MAX - from,
{
    if from < u32::MAX && incoming.contains_key(from) {
        first_missing(incoming, (from + 1) as u32)
    } else {
        from
    }
}

/// What is unread of the packets with numbers from `from` up to `to`, in order.
pub open spec fn unread_between(incoming: Map<u32, IncomingModel>, from: int, to: int) -> Seq<u8>
    decreases to - from,
{
    if from >= to {
        Seq::empty()
    } else {
        incoming[from as u32].unread() + unread_between(incoming, from + 1, to)
    }
}

impl ReassemblyModel {
    pub open spec fn initial() -> ReassemblyModel {
        ReassemblyModel { incoming: Map::empty(), ack: 0, read_cursor: 0 }
    }

    pub open spec fn wf(self) -> bool {
        &&& self.read_cursor <= self.ack
        &&& forall|key: u32|
            self.read_cursor <= key < self.ack ==> #[trigger] self.incoming.contains_key(key)
        &&& forall|key: u32| #[trigger]
            self.incoming.contains_key(key) ==> {
                &&& self.read_cursor <= key
                &&& self.incoming[key].header.seq == key
                &&& self.incoming[key].read_offset <= self.incoming[key].data.len()
            }
    }

    /// Whether the packet numbered `ack` has not come in.
    pub open spec fn settled(self) -> bool {
        self.ack < u32::MAX ==> !self.incoming.contains_key(self.ack)
    }

    /// The bytes that can be read: what is unread of the packets that came in
    /// without a gap.
    pub open spec fn readable(self) -> Seq<u8> {
        unread_between(self.incoming, self.read_cursor as int, self.ack as int)
    }

    /// After the packet came in. One below `ack` came in before and is ignored.
    pub open spec fn inserted(self, packet: IncomingModel) -> ReassemblyModel {
        if packet.header.seq >= self.ack {
            ReassemblyModel {
                incoming: self.incoming.insert(packet.header.seq, packet),
                ..self
            }
        } else {
            self
        }
    }

    /// After all packets that came in without a gap were counted.
    pub open spec fn advanced(self) -> ReassemblyModel {
        ReassemblyModel { ack: first_missing(self.incoming, self.ack), ..self }
    }

    /// A read into a buffer with the given room: the state after it, the bytes
    /// that it gives, and whether a packet was read to its end.
    pub open spec fn read(self, room: nat) -> (ReassemblyModel, Seq<u8>, bool)
        decreases self.ack - self.read_cursor,
    {
        if self.read_cursor >= self.ack {
            (self, Seq::empty(), false)
        } else {
            let packet = self.incoming[self.read_cursor];
            let unread = packet.unread();
            if unread.len() > room {
                let rest = IncomingModel { read_offset: packet.read_offset + room, ..packet };
                (
                    ReassemblyModel {
                        incoming: self.incoming.insert(self.read_cursor, rest),
                        ..self
                    },
                    unread.take(room as int),
                    false,
                )
            } else {
                let next = ReassemblyModel {
                    incoming: self.incoming.remove(self.read_cursor),
                    read_cursor: (self.read_cursor + 1) as u32,
                    ..self
                };
                let (end, bytes, _) = next.read((room - unread.len()) as nat);
                (end, unread + bytes, true)
            }
        }
    }
}

/// Packets that came in for one stream.
#[derive(Debug)]
pub struct Reassembly {
    incoming: BTreeMap<u32, IncomingPacket>,
    ack: u32,
    read_cursor: u32,
}

impl View for Reassembly {
    type V = ReassemblyModel;

    closed spec fn view(&self) -> ReassemblyModel {
        ReassemblyModel {
            incoming: self.incoming@.map_values(|packet: IncomingPacket| packet@),
            ack: self.ack,
            read_cursor: self.read_cursor,
        }
    }
}

impl Reassembly {
    pub fn new() -> (rx: Self)
        ensures
            rx@ == ReassemblyModel::initial(),
            rx@.wf(),
            rx@.settled(),
    {
        let rx = Reassembly { incoming: BTreeMap::new(), ack: 0, read_cursor: 0 };
        assert(rx@ =~= ReassemblyModel::initial());
        rx
    }

    /// The number of the next packet that is awaited.
    pub fn ack(&self) -> (ack: u32)
        ensures
            ack == self@.ack,
    {
        self.ack
    }

    /// Takes a packet in, unless it came in before.
    pub fn insert(&mut self, packet: IncomingPacket)
        requires
            old(self)@.wf(),
            packet@.read_offset <= packet@.data.len(),
        ensures
            final(self)@ == old(self)@.inserted(packet@),
            final(self)@.wf(),
    {
        let seq: u32 = packet.seq();
        if seq >= self.ack {
            self.incoming.insert(seq, packet);
            assert(self@ =~= old(self)@.inserted(packet@));
        }
    }

    /// Counts the awaited packet, if it has come in.
    pub fn advance_one(&mut self) -> (advanced: bool)
        requires
            old(self)@.wf(),
        ensures
            final(self)@.wf(),
            advanced == !old(self)@.settled(),
            final(self)@ == if advanced {
                ReassemblyModel { ack: (old(self)@.ack + 1) as u32, ..old(self)@ }
            } else {
                old(self)@
            },
    {
        if self.ack < u32::MAX && self.incoming.contains_key(&self.ack) {
            self.ack = self.ack + 1;
            true
        } else {
            false
        }
    }

    /// Counts all packets that came in without a gap.
    pub fn advance(&mut self)
        requires
            old(self)@.wf(),
        ensures
            final(self)@ == old(self)@.advanced(),
            final(self)@.wf(),
            final(self)@.settled(),
    {
        while self.advance_one()
            invariant
                self@.wf(),
                self@.advanced() == old(self)@.advanced(),
            ensures
                self@.settled(),
            decreases u32::MAX - self@.ack,
        {
        }
    }

    /// Reads what came in without a gap, as far as the buffer has room.
    /// Returns whether a packet was read to its end.
    pub fn read_next(&mut self, buf: &mut ReadBuf) -> (did_read: bool)
        requires
            old(self)@.wf(),
        ensures
            ({
                let room = (read_buf_capacity(*old(buf)) - read_buf_filled(*old(buf)).len()) as nat;
                let (end, bytes, finished) = old(self)@.read(room);
                &&& final(self)@ == end
                &&& read_buf_filled(*final(buf)) == read_buf_filled(*old(buf)) + bytes
                &&& did_read == finished
            }),
            read_buf_capacity(*final(buf)) == read_buf_capacity(*old(buf)),
            final(self)@.wf(),
            old(self)@.settled() ==> final(self)@.settled(),
    {
        let mut did_read = false;
        let mut more = true;
        let ghost filled = read_buf_filled(*buf);
        let ghost capacity = read_buf_capacity(*buf);
        let room: usize = read_buf_remaining(buf);
        let ghost whole = self@.read(room as nat);
        let ghost mut given = Seq::<u8>::empty();
        assert(given + whole.1 =~= whole.1);
        assert(filled + given =~= filled);
        while more && self.read_cursor < self.ack
            invariant
                self@.wf(),
                self@.ack == old(self)@.ack,
                old(self)@.settled() ==> self@.settled(),
                read_buf_capacity(*buf) == capacity,
                read_buf_filled(*buf) == filled + given,
                read_buf_filled(*buf).len() <= capacity,
                ({
                    let rest = if more {
                        self@.read((capacity - read_buf_filled(*buf).len()) as nat)
                    } else {
                        (self@, Seq::empty(), false)
                    };
                    &&& whole.0 == rest.0
                    &&& whole.1 == given + rest.1
                    &&& whole.2 == (did_read || rest.2)
                }),
            decreases self@.ack - self@.read_cursor + if more {
                1int
            } else {
                0
            },
        {
            let ghost before = self@;
            let room: usize = read_buf_remaining(buf);
            let ghost rest = before.read(room as nat);
            let cursor: u32 = self.read_cursor;
            assert(before.incoming.contains_key(cursor));
            if let Some(packet) = self.incoming.remove(&cursor) {
                let ghost unread = packet@.unread();
                assert(packet@ == before.incoming[cursor]);
                let start: usize = packet.read_offset;
                let data = bytes_as_slice(&packet.buf);
                let len: usize = data.len() - start;
                if len > room {
                    let end: usize = start + room;
                    read_buf_put_slice(buf, &data[start..end]);
                    assert(data@.subrange(start as int, end as int) =~= unread.take(room as int));
                    let packet = IncomingPacket { read_offset: end, ..packet };
                    self.incoming.insert(packet.header.seq, packet);
                    more = false;
                    assert(self@ =~= rest.0);
                    proof {
                        given = given + rest.1;
                        assert(given + Seq::<u8>::empty() =~= given);
                    }
                } else {
                    read_buf_put_slice(buf, &data[start..data.len()]);
                    assert(data@.subrange(start as int, data@.len() as int) =~= unread);
                    did_read = true;
                    self.read_cursor = cursor + 1;
                    proof {
                        let next = ReassemblyModel {
                            incoming: before.incoming.remove(cursor),
                            read_cursor: (cursor + 1) as u32,
                            ..before
                        };
                        assert(self@ =~= next);
                        let tail = next.read((room - len) as nat);
                        assert(given + (unread + tail.1) =~= (given + unread) + tail.1);
                        given = given + unread;
                    }
                }
            }
        }
        assert(given + Seq::<u8>::empty() =~= given);
        did_read
    }
}

/// The bytes to read do not depend on packets outside of the range.
pub proof fn lemma_unread_same(
    one: Map<u32, IncomingModel>,
    other: Map<u32, IncomingModel>,
    from: int,
    to: int,
)
    requires
        0 <= from,
        to <= u32::MAX,
        forall|key: u32| from <= key < to ==> one[key] == other[key],
    ensures
        unread_between(one, from, to) == unread_between(other, from, to),
    decreases to - from,
{
    if from < to {
        lemma_unread_same(one, other, from + 1, to);
        assert(one[from as u32] == other[from as u32]);
    }
}

/// The bytes to read of a range are those of its two parts, one after the
/// other.
pub proof fn lemma_unread_split(
    incoming: Map<u32, IncomingModel>,
    from: int,
    middle: int,
    to: int,
)
    requires
        from <= middle <= to,
    ensures
        unread_between(incoming, from, to) == unread_between(incoming, from, middle)
            + unread_between(incoming, middle, to),
    decreases middle - from,
{
    if from < middle {
        lemma_unread_split(incoming, from + 1, middle, to);
        assert(unread_between(incoming, from, to) =~= unread_between(incoming, from, middle)
            + unread_between(incoming, middle, to));
    } else {
        assert(unread_between(incoming, from, to) =~= unread_between(incoming, from, middle)
            + unread_between(incoming, middle, to));
    }
}

/// `first_missing` is what its name says: nothing is missing before it, and
/// it is missing itself unless the numbers end there.
pub proof fn law_first_missing(incoming: Map<u32, IncomingModel>, from: u32)
    ensures
        first_missing(incoming, from) >= from,
        forall|key: u32|
            from <= key < first_missing(incoming, from) ==> #[trigger] incoming.contains_key(key),
        first_missing(incoming, from) < u32::MAX ==> !incoming.contains_key(
            first_missing(incoming, from),
        ),
    decreases u32::MAX - from,
{
    if from < u32::MAX && incoming.contains_key(from) {
        law_first_missing(incoming, (from + 1) as u32);
    }
}

/// A read gives the readable bytes in order: as many as there are, or as the
/// buffer has room for. What it gives can not be read again, and what it does
/// not give can still be read.
pub proof fn law_read_in_order(rx: ReassemblyModel, room: nat)
    requires
        rx.wf(),
    ensures
        ({
            let (end, bytes, finished) = rx.read(room);
            let len = if rx.readable().len() < room {
                rx.readable().len()
            } else {
                room
            };
            &&& bytes == rx.readable().take(len as int)
            &&& end.readable() == rx.readable().skip(len as int)
            &&& end.wf()
            &&& end.ack == rx.ack
            &&& rx.read_cursor <= end.read_cursor
            &&& finished == (rx.read_cursor < end.read_cursor)
            &&& rx.settled() ==> end.settled()
        }),
    decreases rx.ack - rx.read_cursor,
{
    let (end, bytes, finished) = rx.read(room);
    if rx.read_cursor < rx.ack {
        let cursor = rx.read_cursor;
        let packet = rx.incoming[cursor];
        let unread = packet.unread();
        assert(rx.incoming.contains_key(cursor));
        let tail = unread_between(rx.incoming, cursor + 1, rx.ack as int);
        assert(rx.readable() == unread + tail);
        if unread.len() > room {
            lemma_unread_same(rx.incoming, end.incoming, cursor + 1, rx.ack as int);
            assert(end.incoming[cursor].unread() =~= unread.skip(room as int));
            assert(bytes =~= rx.readable().take(room as int));
            assert(end.readable() =~= rx.readable().skip(room as int));
        } else {
            let next = ReassemblyModel {
                incoming: rx.incoming.remove(cursor),
                read_cursor: (cursor + 1) as u32,
                ..rx
            };
            let left = (room - unread.len()) as nat;
            law_read_in_order(next, left);
            lemma_unread_same(rx.incoming, next.incoming, cursor + 1, rx.ack as int);
            assert(next.readable() == tail);
            let n = if tail.len() < left {
                tail.len()
            } else {
                left
            };
            assert(bytes =~= rx.readable().take((unread.len() + n) as int));
            assert(end.readable() =~= rx.readable().skip((unread.len() + n) as int));
        }
    } else {
        assert(rx.readable() =~= Seq::empty());
        assert(bytes =~= rx.readable().take(0));
        assert(end.readable() =~= rx.readable().skip(0));
    }
}

/// A packet that comes in only ever adds bytes after those that could be read
/// before: what was readable stays at the front.
pub proof fn law_insert_extends(rx: ReassemblyModel, packet: IncomingModel)
    requires
        rx.wf(),
        packet.read_offset <= packet.data.len(),
    ensures
        ({
            let after = rx.inserted(packet).advanced();
            &&& rx.readable().is_prefix_of(after.readable())
            &&& after.ack >= rx.ack
            &&& after.read_cursor == rx.read_cursor
            &&& packet.header.seq == rx.ack < u32::MAX ==> after.ack > rx.ack
            &&& after.wf()
            &&& after.settled()
        }),
{
    let held = rx.inserted(packet);
    let after = held.advanced();
    law_first_missing(held.incoming, held.ack);
    lemma_unread_split(
        after.incoming,
        rx.read_cursor as int,
        rx.ack as int,
        after.ack as int,
    );
    lemma_unread_same(rx.incoming, after.incoming, rx.read_cursor as int, rx.ack as int);
}

} // verus!
