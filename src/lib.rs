//! Peer identifiers that pack an IP address and a port into a reversible
//! token, and the two roles of a small payload handshake, written as state
//! machines that a transport drives.

pub mod text;
pub mod codec;
pub mod handshake;
