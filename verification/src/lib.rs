//! Core of a line-oriented broadcast chat server.
//!
//! Clients connect over a stream transport; every line one client sends is
//! relayed to every connected client. The verified part is the connection
//! registry, the newline framing of messages, and the per-connection
//! handler's decisions: what to broadcast, which entries to prune after a
//! fan-out, and how a handler removes itself when its peer goes away.
//! The sockets and threads around it are ordinary, unverified plumbing.

pub mod codec;
pub mod handler;
pub mod laws;
pub mod peer;
pub mod registry;
