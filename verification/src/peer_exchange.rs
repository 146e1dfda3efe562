//! Discovery by exchanging peer lists: peers with several addresses, the
//! `FROM ... PORT ... TO ...` envelope and the node that answers each message.
use vstd::prelude::*;
use crate::decimal::ParseIntErrorKind;

pub mod message;
pub mod peer;
pub mod node;

verus! {

/// Why a peer-exchange message was refused.
#[derive(Debug, Clone, Copy, PartialEq, Eq, Structural)]
pub enum DiscoveryError {
    /// The message does not follow the grammar.
    InvalidDiscoveryMessage,
    /// A greeting could not be read.
    InvalidHelloMessage,
    /// A peer list could not be read.
    InvalidPeerListMessage,
    /// A peer identifier is not a number.
    InvalidIntNumber(ParseIntErrorKind),
    /// An address is not a socket address (`a.b.c.d:port` or `[ipv6]:port`).
    InvalidAddr,
    /// Sending or receiving failed.
    TransportError,
}

} // verus!
