//! The download engine.

pub mod assembly;
pub mod budget;
pub mod checksum;
pub mod chunk;
pub mod clock;
pub mod config;
pub mod disposition;
pub mod double;
pub mod download;
pub mod io;
pub mod manager;
pub mod mirror;
pub mod resume;
pub mod scheduler;
pub mod select;
pub mod session;
pub mod speed;
pub mod task;
pub mod urls;
pub mod worker;
