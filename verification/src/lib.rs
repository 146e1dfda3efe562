//! Peer discovery over a small text protocol: message grammar, peer tables,
//! length-prefixed framing and connection bookkeeping.

pub mod text;
pub mod decimal;
pub mod addr;
pub mod ipv6;
pub mod bootstrap_discovery;
pub mod transport;
pub mod framing;
pub mod connection_pool;
pub mod peer_exchange;

