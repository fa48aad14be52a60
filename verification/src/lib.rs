//! A Redis-compatible protocol and storage core.
//!
//! The crate provides the RESP2/RESP3 wire codec (with the legacy inline
//! command format), the command dispatcher, and an in-memory key-value
//! store with lazy expiry. Each public operation carries a contract that
//! states its effect over a mathematical model of the buffer or the store.

pub mod ascii;
pub mod bytebuf;
pub mod cli;
pub mod config;
pub mod error;
pub mod detector;
pub mod frame;
pub mod handler;
pub mod inline;
pub mod kvmap;
pub mod laws;
pub mod memory;
pub mod record;
pub mod storage;
pub mod telemetry;
pub mod resp;
pub mod numtext;

pub use config::{Config, ServerConfig, StorageConfig};
pub use detector::{detect_format, ProtocolFormat};
pub use error::{ConfigError, TelemetryError};
pub use frame::RespValue;
pub use handler::Handler;
pub use inline::InlineParser;
pub use memory::MemoryStorage;
pub use resp::{ProtocolError, ProtocolVersion, RespParser};
pub use storage::{StorageError, StorageFactory, StorageValue};
