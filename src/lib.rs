//! A transport-agnostic session engine for datagram networks: sequence
//! numbers, packet acknowledgements, message fragmentation and reassembly,
//! per-lane delivery guarantees and a bandwidth-limited packet builder.
pub mod ack;
pub mod bandwidth;
pub mod codec;
pub mod error;
pub mod frag;
pub mod lane;
pub mod message;
pub mod seq;
pub mod server;
pub mod session;

