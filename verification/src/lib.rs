//! Reliable, ordered, authenticated messaging over an unreliable datagram
//! transport.
//!
//! The crate provides the session core beneath a client/server application:
//! a self-describing binary codec for application and control messages, a
//! frame layer that multiplexes logical channels over datagrams, a
//! reliable-ordered channel that turns lossy, reordering delivery into an
//! exactly-once in-order message stream, the connect/accept handshake, a
//! server-side session registry, and the periodic ping/pong exchange driven
//! by an external tick source.
//!
//! Everything here is pure state and bytes: the surrounding process owns the
//! sockets and the clock and hands datagrams and elapsed time in.

pub mod bytes;
pub mod channel;
pub mod codec;
pub mod endpoint;
pub mod handshake;
pub mod registry;
pub mod wire;
