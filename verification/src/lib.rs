//! The secure transport and message-protocol core of a peer-to-peer
//! networking stack: peer discovery and liveness messages with a
//! deterministic binary wire form, an encrypted envelope that seals
//! ordered message batches under a preshared key, and the poll-driven
//! transport capability contracts a concrete connection layer
//! implements.

pub mod endpoint;
pub mod envelope;
pub mod error;
pub mod harness;
pub mod message;
pub mod sym;
pub mod transport;
pub mod wire;
