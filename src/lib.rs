//! A persistent key-value store built on an append-only log of JSON
//! records, with a compacting in-memory index and a small request protocol.
pub mod demo;
pub mod engine;
pub mod error;
pub mod index;
pub mod json;
pub mod laws;
pub mod layout;
pub mod protocol;
pub mod record;
pub mod resp;
pub mod server;
pub mod store;
pub mod text;

pub use error::{KvsError, Result};
pub use demo::VecByte;
pub use engine::{KvsEngine, get_engine, get_engine_by_name};
pub use protocol::{Command, CommandResult, Response};
pub use resp::RESP;
pub use server::IKvsServer;
pub use store::KvStore;
