//! A verified core for a multi-client line-oriented chat relay.
//!
//! The crate models the server's shared state and decisions: a connection
//! registry mapping each client identifier to its outbound write handle, the
//! fanout of one message to every registered client except its sender, and
//! the per-connection session lifecycle. The surrounding program performs the
//! actual network reads and writes and drives these verified pieces.

pub mod fanout;
pub mod registry;
pub mod session;
