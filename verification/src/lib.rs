//! A lightweight reliable transport over unreliable datagrams: the wire
//! codec, the per-connection handshake and sliding-window engine, and the
//! demultiplexing of datagrams to connections.
//!
//! The library performs no I/O. Datagrams come in as byte slices and leave
//! through each connection's outbox, which the embedding program drains into
//! its socket.
//!
//! - `bytes`: big-endian words and distances between 32-bit counters.
//! - `packet`: the datagram layout, its checksum and its validation.
//! - `clock`: moments in time and the milliseconds between them.
//! - `endpoint`: the address of a peer.
//! - `model`: the connection as a mathematical value, with every operation
//!   as a function on it.
//! - `stream`: the executable connection, which follows the model.
//! - `client`, `server`: the two ends, with the clock of their ticks and, on
//!   the server, the connections by remote address.
//! - `invariants`: every operation keeps a connection well formed.
//! - `laws`: what holds of the codec and of the connection as a whole.

pub mod bytes;
pub mod client;
pub mod clock;
pub mod endpoint;
pub mod invariants;
pub mod laws;
pub mod model;
pub mod packet;
pub mod server;
pub mod stream;
