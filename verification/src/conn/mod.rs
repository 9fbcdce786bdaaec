//! The connection: addresses, the handshake, and the states of the two directions of the
//! stream.
pub mod addr;
pub mod ancillary;
pub mod handshake;
pub mod recv;
pub mod sender;
