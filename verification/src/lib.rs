//! A real-time message relay core: a registry of live connections with
//! at-most-one-room membership, and a router that fans an inbound text
//! message out to every current member of the addressed room.
//!
//! The transport layer (sockets, framing, event dispatch) lives outside this
//! crate; it feeds the core plain connection ids and payloads and performs
//! the deliveries that the router computes.

pub mod label;
pub mod laws;
pub mod registry;
pub mod router;

use vstd::prelude::*;

verus! {

/// A connection id as issued by the transport layer: opaque, unique among
/// live connections.
pub type ConnId = u64;

} // verus!
