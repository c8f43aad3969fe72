//! The wire format of the RPC interface.

pub mod types;
