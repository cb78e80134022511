//! A connection-oriented, encrypted, unreliable datagram protocol for
//! real-time traffic, together with an in-process network simulator used to
//! exercise it deterministically.
//!
//! The crate provides a token-gated handshake (a trusted issuer mints a
//! short-lived credential authorizing one client to connect to one server),
//! an authenticated encrypted channel for payload datagrams with replay
//! protection, per-connection timeout and keep-alive, and graceful close.

pub mod addr;
pub mod assoc;
pub mod bytes;
pub mod client;
pub mod crypto;
pub mod encryption_manager;
pub mod incoming;
pub mod protection;
pub mod protocol;
pub mod server;
pub mod simulator;
pub mod token;
