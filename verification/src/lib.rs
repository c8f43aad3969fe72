//! Download engine core: chunk planning, work stealing, mirror selection,
//! speed accounting, the task registry and the request/response rules, each
//! with a machine-checked contract.

pub mod cli;
pub mod engine;
pub mod path;
pub mod proto;
pub mod rpc;
pub mod text;
