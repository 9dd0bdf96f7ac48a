//! The retransmission timeout, estimated from round trip times.
//!
//! All times are in nanoseconds.

use vstd::prelude::*;

use crate::constants::UDX_CLOCK_GRANULARITY_MS;

verus! {

/// The smallest retransmission timeout: one second.
pub const MIN_RTO: u128 = 1_000_000_000;

/// The longest round trip time that can be sampled: as many milliseconds as
/// fit an `u64`.
pub const MAX_RTT: u128 = 18_446_744_073_709_551_615_000_000;

/// What an [`RttEstimator`] stands for.
pub struct RttModel {
    /// Smoothed round trip time; zero before the first sample.
    pub srtt: nat,
    /// Smoothed variation of the round trip time.
    pub rttvar: nat,
    /// Retransmission timeout.
    pub rto: nat,
}

impl RttModel {
    pub open spec fn initial() -> RttModel {
        RttModel { srtt: 0, rttvar: 0, rto: MIN_RTO as nat }
    }

    /// The timeout for a smoothed round trip time and its variation.
    pub open spec fn timeout(srtt: nat, rttvar: nat) -> nat {
        let granularity = (UDX_CLOCK_GRANULARITY_MS * 1_000_000) as nat;
        let slack = if granularity < 4 * rttvar {
            4 * rttvar
        } else {
            granularity
        };
        if MIN_RTO < srtt + slack {
            srtt + slack
        } else {
            MIN_RTO as nat
        }
    }

    /// The estimate after a round trip of the length `rtt`: the first one is
    /// taken as it is, later ones are weighed in with an eighth, and their
    /// deviation with a quarter.
    pub open spec fn sampled(self, rtt: nat) -> RttModel {
        if self.srtt == 0 {
            RttModel { srtt: rtt, rttvar: rtt / 2, rto: RttModel::timeout(rtt, rtt / 2) }
        } else {
            let delta = if rtt < self.srtt {
                (self.srtt - rtt) as nat
            } else {
                (rtt - self.srtt) as nat
            };
            let rttvar = (3 * self.rttvar + delta) / 4;
            let srtt = (7 * self.srtt + rtt) / 8;
            RttModel { srtt, rttvar, rto: RttModel::timeout(srtt, rttvar) }
        }
    }

    /// The bounds that every estimate keeps.
    pub open spec fn wf(self) -> bool {
        &&& self.srtt <= MAX_RTT
        &&& self.rttvar <= MAX_RTT
        &&& MIN_RTO <= self.rto <= 6 * MAX_RTT
    }
}

/// Estimates the retransmission timeout.
#[derive(Clone, Copy, Debug)]
pub struct RttEstimator {
    srtt: u128,
    rttvar: u128,
    rto: u128,
}

impl View for RttEstimator {
    type V = RttModel;

    closed spec fn view(&self) -> RttModel {
        RttModel { srtt: self.srtt as nat, rttvar: self.rttvar as nat, rto: self.rto as nat }
    }
}

impl RttEstimator {
    /// An estimator without samples: the timeout is a second.
    pub fn new() -> (estimator: Self)
        ensures
            estimator@ == RttModel::initial(),
            estimator@.wf(),
    {
        RttEstimator { srtt: 0, rttvar: 0, rto: MIN_RTO }
    }

    /// Takes in one round trip time.
    pub fn sample(&mut self, rtt: u128)
        requires
            old(self)@.wf(),
            rtt <= MAX_RTT,
        ensures
            final(self)@ == old(self)@.sampled(rtt as nat),
            final(self)@.wf(),
    {
        if self.srtt == 0 {
            self.srtt = rtt;
            self.rttvar = rtt / 2;
        } else {
            let delta: u128 = if rtt < self.srtt {
                self.srtt - rtt
            } else {
                rtt - self.srtt
            };
            self.rttvar = (3 * self.rttvar + delta) / 4;
            self.srtt = (7 * self.srtt + rtt) / 8;
        }
        let granularity: u128 = UDX_CLOCK_GRANULARITY_MS as u128 * 1_000_000;
        let slack: u128 = if granularity < 4 * self.rttvar {
            4 * self.rttvar
        } else {
            granularity
        };
        self.rto = if MIN_RTO < self.srtt + slack {
            self.srtt + slack
        } else {
            MIN_RTO
        };
    }

    /// The smoothed round trip time; zero before the first sample.
    pub fn srtt(&self) -> (srtt: u128)
        ensures
            srtt == self@.srtt,
    {
        self.srtt
    }

    /// The smoothed variation of the round trip time.
    pub fn rttvar(&self) -> (rttvar: u128)
        ensures
            rttvar == self@.rttvar,
    {
        self.rttvar
    }

    /// The retransmission timeout.
    pub fn rto(&self) -> (rto: u128)
        ensures
            rto == self@.rto,
    {
        self.rto
    }
}

/// Every estimate is at least a second: `rto >= 1s`, whatever was sampled, and
/// the bounds on the estimate are kept.
pub proof fn law_timeout_is_at_least_a_second(estimate: RttModel, rtt: nat)
    requires
        estimate.wf(),
        rtt <= MAX_RTT,
    ensures
        estimate.sampled(rtt).rto >= MIN_RTO,
        estimate.sampled(rtt).wf(),
{
}

/// A constant round trip time keeps the estimate at it: the smoothed time
/// stays, and its variation shrinks.
pub proof fn law_steady_round_trips(rtt: nat)
    requires
        rtt > 0,
    ensures
        RttModel::initial().sampled(rtt).srtt == rtt,
        RttModel::initial().sampled(rtt).sampled(rtt).srtt == rtt,
        RttModel::initial().sampled(rtt).sampled(rtt).rttvar <= rtt / 2,
{
}

} // verus!
