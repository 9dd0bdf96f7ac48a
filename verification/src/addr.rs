//! Network addresses as plain values.

use vstd::prelude::*;

verus! {

/// An IP address: the value of its bytes, read in network order.
#[derive(Clone, Copy, Debug, PartialEq, Eq, Structural)]
pub enum IpAddr {
    V4(u32),
    V6(u128),
}

/// The address of a UDP endpoint. `flowinfo` and `scope_id` are zero for a
/// version 4 address.
#[derive(Clone, Copy, Debug, PartialEq, Eq, Structural)]
pub struct SocketAddr {
    pub ip: IpAddr,
    pub port: u16,
    pub flowinfo: u32,
    pub scope_id: u32,
}

} // verus!
