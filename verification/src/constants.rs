//! The numbers of the wire protocol and of its congestion control.

use vstd::prelude::*;

verus! {

/// Length of the header that starts every packet, in bytes.
pub const UDX_HEADER_SIZE: usize = 20;

/// First byte of every packet.
pub const UDX_MAGIC_BYTE: u8 = 255;

/// Second byte of every packet: the version of the protocol.
pub const UDX_VERSION: u8 = 1;

/// Largest packet, header included, in bytes.
pub const UDX_MTU: usize = 1400;

/// Largest payload that fits a packet beside the header.
pub const UDX_DATA_MTU: usize = 1380;

/// Most payload bytes that a stream puts into one data packet.
pub const UDX_MAX_DATA_SIZE: usize = 1380;

/// Packet type flag: the packet carries stream data.
pub const UDX_HEADER_DATA: u32 = 1;

/// Packet type flag: the sender has closed its side.
pub const UDX_HEADER_END: u32 = 2;

/// Packet type flag: the body lists selectively acknowledged ranges.
pub const UDX_HEADER_SACK: u32 = 4;

/// Retransmissions of one packet after which a stream gives up.
pub const UDX_MAX_TRANSMITS: u8 = 5;

/// Smallest share of the retransmission timeout that allows for variance,
/// in milliseconds.
pub const UDX_CLOCK_GRANULARITY_MS: u64 = 20;

} // verus!
