//! Reliable, multiplexed and congestion controlled streams over UDP.

pub mod addr;
pub mod buffers;
pub mod congestion;
pub mod constants;
pub mod error;
pub mod laws;
pub mod lock_log;
pub mod packet;
pub mod reassembly;
pub mod rtt;
pub mod simple;
pub mod socket;
pub mod stream;
pub mod totals;
