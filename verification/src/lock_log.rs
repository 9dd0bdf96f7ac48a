//! Who held a lock last, and for how long.

use std::collections::VecDeque;

use vstd::prelude::*;

verus! {

/// How many owners of a lock are remembered.
pub const MAX_LOCK_OWNERS: usize = 20;

/// Waiting for a lock, or holding it, for longer than this is worth a warning,
/// in nanoseconds.
pub const SLOW_LOCK: u128 = 2_000_000;

/// The last owners of a lock, the last one first, each with its purpose and the
/// nanoseconds for which it held the lock.
#[derive(Debug)]
pub struct LockLog {
    last_lock_owner: VecDeque<(&'static str, u128)>,
}

impl View for LockLog {
    type V = Seq<(Seq<char>, u128)>;

    closed spec fn view(&self) -> Seq<(Seq<char>, u128)> {
        self.last_lock_owner@.map_values(|owner: (&'static str, u128)| (owner.0@, owner.1))
    }
}

/// The owners after one more was noted; of as many as may be, the oldest is
/// forgotten.
pub open spec fn noted(
    owners: Seq<(Seq<char>, u128)>,
    owner: (Seq<char>, u128),
) -> Seq<(Seq<char>, u128)> {
    seq![owner] + if owners.len() == MAX_LOCK_OWNERS {
        owners.drop_last()
    } else {
        owners
    }
}

/// The last owner comes first, and those before it follow in order; no more than
/// twenty are noted, and none is forgotten before that.
pub proof fn law_owners_are_noted(owners: Seq<(Seq<char>, u128)>, owner: (Seq<char>, u128))
    requires
        owners.len() <= 20,
    ensures
        ({
            let after = noted(owners, owner);
            &&& after.len() == if owners.len() < 20 {
                owners.len() + 1
            } else {
                20
            }
            &&& after[0] == owner
            &&& forall|i: int| 0 < i < after.len() ==> #[trigger] after[i] == owners[i - 1]
        }),
{
}

impl LockLog {
    /// The log of a lock that nobody has held.
    pub fn new() -> (log: Self)
        ensures
            log@ == Seq::<(Seq<char>, u128)>::empty(),
    {
        let log = LockLog { last_lock_owner: VecDeque::new() };
        assert(log@ =~= Seq::<(Seq<char>, u128)>::empty());
        log
    }

    /// Notes that the lock was held for `nanos` nanoseconds. Where as many
    /// owners are noted as may be, the oldest is forgotten.
    pub fn released(&mut self, purpose: &'static str, nanos: u128)
        ensures
            final(self)@ == noted(old(self)@, (purpose@, nanos)),
            old(self)@.len() <= MAX_LOCK_OWNERS ==> final(self)@.len() <= MAX_LOCK_OWNERS,
    {
        if self.last_lock_owner.len() == MAX_LOCK_OWNERS {
            let _ = self.last_lock_owner.pop_back();
            assert(self@ =~= old(self)@.drop_last());
        }
        let ghost kept = self@;
        self.last_lock_owner.push_front((purpose, nanos));
        assert(self@ =~= seq![(purpose@, nanos)] + kept);
    }

    /// How many owners are noted.
    pub fn len(&self) -> (len: usize)
        ensures
            len == self@.len(),
    {
        self.last_lock_owner.len()
    }

    /// The purpose and the time of an owner, counted from the last one.
    pub fn owner(&self, i: usize) -> (owner: (&'static str, u128))
        requires
            i < self@.len(),
        ensures
            (owner.0@, owner.1) == self@[i as int],
    {
        self.last_lock_owner[i]
    }

    /// Whether a wait for the lock, or a use of it, took too long.
    pub fn is_slow(nanos: u128) -> (slow: bool)
        ensures
            slow == (nanos > SLOW_LOCK),
    {
        nanos > SLOW_LOCK
    }
}

} // verus!
