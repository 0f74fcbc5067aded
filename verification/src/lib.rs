//! A user-space TCP engine: RFC 793 state machine, wrap-aware sequence-space
//! arithmetic, segment acceptability, retransmission timers with smoothed
//! round-trip estimation, and a connection manager that multiplexes one
//! layer-3 device across many connections.
//!
//! The engine is free of I/O: it consumes parsed segments and clock readings
//! and returns the datagrams to put on the wire. Header parsing and
//! serialisation are done by the `etherparse` crate behind the trusted
//! wrappers in [`codec`].
use vstd::prelude::*;

pub mod codec;
pub mod iface;
pub mod tcp;
pub mod timers;
pub mod wrap;

verus! {

/// Connection four-tuple, the key of a connection: the remote endpoint
/// first, the local endpoint second. Addresses are IPv4, in host order.
#[derive(Clone, Copy, PartialEq, Eq, Hash, Debug, Structural)]
pub struct Quad {
    pub src_ip: u32,
    pub src_port: u16,
    pub dst_ip: u32,
    pub dst_port: u16,
}

/// The errors the socket facade reports to applications.
#[derive(Clone, Copy, PartialEq, Eq, Structural, Debug)]
pub enum TcpError {
    /// `bind` on a port that already has a listener.
    AddressInUse,
    /// An operation on a connection no longer in the manager's map.
    ConnectionAborted,
    /// A non-blocking operation that cannot proceed yet (transient).
    WouldBlock,
    /// `close` in a state that is already past an orderly local close.
    NotConnected,
}

} // verus!
