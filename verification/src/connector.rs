//! What a single connection attempt is made on, and how it can end.

use vstd::prelude::*;

verus! {

/// The address of a host, held as the integer that its octets spell, most
/// significant octet first.
#[derive(Clone, Copy, Debug, PartialEq, Eq, Structural)]
pub enum HostAddr {
    /// The 32 bits of an IPv4 address.
    V4(u32),
    /// The 128 bits of an IPv6 address.
    V6(u128),
}

/// How one attempt to connect to a port ended. Every failure, whatever its
/// cause, counts as `Closed`.
#[derive(Clone, Copy, Debug, PartialEq, Eq, Structural)]
pub enum ConnectOutcome {
    /// The handshake completed.
    Open,
    /// The connection could not be made.
    Closed,
}

impl ConnectOutcome {
    /// Classifies an attempt by whether the handshake completed.
    pub fn from_attempt(connected: bool) -> (outcome: ConnectOutcome)
        ensures
            outcome == (if connected {
                ConnectOutcome::Open
            } else {
                ConnectOutcome::Closed
            }),
    {
        if connected {
            ConnectOutcome::Open
        } else {
            ConnectOutcome::Closed
        }
    }

    /// Whether the port accepted the connection.
    pub fn is_open(&self) -> (open: bool)
        ensures
            open == (*self == ConnectOutcome::Open),
    {
        match self {
            ConnectOutcome::Open => true,
            ConnectOutcome::Closed => false,
        }
    }
}

} // verus!
