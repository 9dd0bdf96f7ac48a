//! How the congestion window grows and shrinks.

use vstd::prelude::*;

use crate::constants::UDX_MTU;

verus! {

/// From this size on, in bytes, the window grows slowly.
pub const SSTHRESH: usize = 0xffff;

/// The largest window that a stream can have: sums of it and of two packet
/// sizes fit the machine.
pub open spec fn max_window() -> nat {
    (usize::MAX - 2 * UDX_MTU) as nat
}

/// The window after an acknowledgement: it grows by a packet, and above the
/// threshold by a packet per window.
pub open spec fn grown(cwnd: nat) -> nat {
    if cwnd < SSTHRESH {
        cwnd + UDX_MTU as nat
    } else {
        let step = (UDX_MTU * UDX_MTU) as nat / cwnd;
        cwnd + if step < 1 {
            1
        } else {
            step
        }
    }
}

/// The window after a timeout: half of it, and at least a packet.
pub open spec fn shrunk(cwnd: nat) -> nat {
    if UDX_MTU < cwnd / 2 {
        cwnd / 2
    } else {
        UDX_MTU as nat
    }
}

/// The window after an acknowledgement.
pub fn grow(cwnd: usize) -> (window: usize)
    requires
        cwnd + UDX_MTU <= usize::MAX,
    ensures
        window == grown(cwnd as nat),
{
    if cwnd < SSTHRESH {
        cwnd + UDX_MTU
    } else {
        let step: usize = UDX_MTU * UDX_MTU / cwnd;
        proof {
            law_window_grows(cwnd as nat);
        }
        cwnd + if step < 1 {
            1
        } else {
            step
        }
    }
}

/// The window after a timeout.
pub fn shrink(cwnd: usize) -> (window: usize)
    ensures
        window == shrunk(cwnd as nat),
{
    if UDX_MTU < cwnd / 2 {
        cwnd / 2
    } else {
        UDX_MTU
    }
}

/// An acknowledgement always widens the window, by a packet at most.
pub proof fn law_window_grows(cwnd: nat)
    ensures
        cwnd < grown(cwnd) <= cwnd + UDX_MTU,
{
    if cwnd >= SSTHRESH {
        assert(1_960_000nat / cwnd <= 1400) by (nonlinear_arith)
            requires
                cwnd >= 1400,
        ;
    }
}

/// A timeout never widens a window of a packet or more, and leaves at least a
/// packet.
pub proof fn law_window_shrinks(cwnd: nat)
    requires
        cwnd >= UDX_MTU,
    ensures
        UDX_MTU <= shrunk(cwnd) <= cwnd,
{
}

} // verus!
