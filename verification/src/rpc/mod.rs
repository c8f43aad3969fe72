//! The RPC interface.

pub mod server;
