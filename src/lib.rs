//! Request/response protocol between the MuzzMan daemon and its clients:
//! entity ids, the client's handle registry, request correlation and
//! timeouts, the daemon's client table and event fan-out, and datagram
//! framing.
use vstd::prelude::*;

pub mod client;
pub mod common;
pub mod facade;
pub mod ids;
pub mod registry;
pub mod server;
pub mod wire;

verus! {

/// Version of the daemon side of the protocol.
pub const DAEMON_VERSION: u64 = 1;

/// Version of the client side of the protocol.
pub const DAEMON_CLIENT_VERSION: u64 = 1;

/// UDP port on which the daemon listens (loopback only).
pub const DAEMON_PORT: u16 = 2118;

/// How long a client waits for a response, in milliseconds.
pub const TIMEOUT_MS: u64 = 3000;

/// How long the daemon keeps a silent client subscribed, in milliseconds.
pub const CLIENT_TTL_MS: u64 = 3000;

/// Largest datagram sent on the wire, in bytes.
pub const CHUNK_SIZE: usize = 4096;

} // verus!
