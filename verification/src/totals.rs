//! Sums over numbered packets.

use vstd::prelude::*;

verus! {

/// How many sequence numbers there are.
pub const SEQ_SPACE: u64 = 0x1_0000_0000;

/// What the packet numbered `key` adds to a sum.
pub open spec fn share<V>(packets: Map<u32, V>, weight: spec_fn(V) -> nat, key: u32) -> nat {
    if packets.contains_key(key) {
        weight(packets[key])
    } else {
        0
    }
}

/// The weights of all packets with a number below `n`, added up.
pub open spec fn total<V>(packets: Map<u32, V>, weight: spec_fn(V) -> nat, n: nat) -> nat
    decreases n,
{
    if n == 0 {
        0
    } else {
        total(packets, weight, (n - 1) as nat) + share(packets, weight, (n - 1) as u32)
    }
}

/// Packets that agree below `n` have equal sums.
pub proof fn lemma_total_same<V>(
    before: Map<u32, V>,
    after: Map<u32, V>,
    weight: spec_fn(V) -> nat,
    n: nat,
)
    requires
        n <= SEQ_SPACE,
        forall|key: u32|
            key < n ==> #[trigger] share(before, weight, key) == share(after, weight, key),
    ensures
        total(before, weight, n) == total(after, weight, n),
    decreases n,
{
    if n > 0 {
        lemma_total_same(before, after, weight, (n - 1) as nat);
        assert(share(before, weight, (n - 1) as u32) == share(after, weight, (n - 1) as u32));
    }
}

/// A change at one number changes the sum by what that packet adds.
pub proof fn lemma_total_change<V>(
    before: Map<u32, V>,
    after: Map<u32, V>,
    weight: spec_fn(V) -> nat,
    n: nat,
    changed: u32,
)
    requires
        changed < n <= SEQ_SPACE,
        forall|key: u32|
            key != changed ==> #[trigger] share(before, weight, key) == share(after, weight, key),
    ensures
        total(before, weight, n) + share(after, weight, changed) == total(after, weight, n) + share(
            before,
            weight,
            changed,
        ),
    decreases n,
{
    if n - 1 == changed {
        lemma_total_same(before, after, weight, (n - 1) as nat);
    } else {
        lemma_total_change(before, after, weight, (n - 1) as nat, changed);
        assert(share(before, weight, (n - 1) as u32) == share(after, weight, (n - 1) as u32));
    }
}

/// No packet adds more than the whole sum.
pub proof fn lemma_total_at_least<V>(
    packets: Map<u32, V>,
    weight: spec_fn(V) -> nat,
    n: nat,
    key: u32,
)
    requires
        key < n <= SEQ_SPACE,
    ensures
        share(packets, weight, key) <= total(packets, weight, n),
    decreases n,
{
    if n - 1 != key {
        lemma_total_at_least(packets, weight, (n - 1) as nat, key);
    }
}

/// The sum over no packets is zero.
pub proof fn lemma_total_none<V>(packets: Map<u32, V>, weight: spec_fn(V) -> nat, n: nat)
    requires
        n <= SEQ_SPACE,
        forall|key: u32| key < n ==> !packets.contains_key(key),
    ensures
        total(packets, weight, n) == 0,
    decreases n,
{
    if n > 0 {
        lemma_total_none(packets, weight, (n - 1) as nat);
    }
}

} // verus!
