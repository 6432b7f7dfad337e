//! Core of a real-time message relay.
//!
//! Clients hold a persistent bidirectional connection to the server; every
//! text payload a client sends is fanned out to every currently registered
//! connection. This crate holds the verified heart of that system: the
//! connection registry with its broadcast fan-out, the per-connection
//! reader and writer state machines, and the message-envelope codec used
//! by the enriched variant of the protocol. The network, the async runtime
//! and the HTTP scaffolding live outside and drive these functions.

use vstd::prelude::*;

pub mod envelope;
pub mod listing;
pub mod registry;
pub mod session;

verus! {

/// Upper bound (exclusive) on connection identifiers.
///
/// Identifiers are written on the wire as decimal numerals of at most 19
/// digits, so every identifier below this bound has a canonical textual
/// form that fits the envelope grammar. The bound equals `10^19`, which
/// still fits in a `u64`.
pub const UID_LIMIT: u64 = 10_000_000_000_000_000_000;

} // verus!
