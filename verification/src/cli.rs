//! Command-line options as plain data, and their validation rules.
//!
//! The argument-parsing front end lives with the binary; it hands the
//! library this plain record.

use vstd::prelude::*;
use crate::error::ConfigError;

verus! {

/// The selectable storage backends.
#[derive(Debug, Clone, Copy, PartialEq, Eq, Structural)]
pub enum StorageBackend {
    /// In-memory storage (default, fast but not persistent).
    Memory,
    /// Durable storage (persistent, transactional).
    Lmdb,
    /// Remote object storage.
    S3,
}

/// Parsed command-line options, as plain values.
#[derive(Debug, Clone)]
pub struct Cli {
    /// Server host to bind to.
    pub host: Option<String>,
    /// Server port to bind to.
    pub port: Option<u16>,
    /// Storage backend to use.
    pub storage: Option<StorageBackend>,
    /// Path for durable storage (required with the durable backend).
    pub lmdb_path: Option<String>,
    /// Bucket name (required with the remote backend).
    pub s3_bucket: Option<String>,
    /// Key prefix for the remote backend.
    pub s3_prefix: Option<String>,
    /// Region for the remote backend.
    pub aws_region: Option<String>,
    /// Configuration file path (JSON format).
    pub config: Option<String>,
    /// Enable verbose logging.
    pub verbose: bool,
    /// Enable debug logging.
    pub debug: bool,
}

impl Cli {
    /// Validate that the options carry what the chosen backend requires:
    /// a path for the durable backend, a bucket for the remote one.
    pub fn validate_for_storage(&self, storage: &StorageBackend) -> (r: Result<(), ConfigError>)
        ensures
            r is Ok <==> (match *storage {
                StorageBackend::Lmdb => self.lmdb_path is Some,
                StorageBackend::S3 => self.s3_bucket is Some,
                StorageBackend::Memory => true,
            }),
    {
        match storage {
            StorageBackend::Lmdb => {
                if self.lmdb_path.is_none() {
                    proof {
                        reveal_strlit("lmdb_path is required when using LMDB backend");
                    }
                    return Err(ConfigError::MissingField(
                        "lmdb_path is required when using LMDB backend".to_owned(),
                    ));
                }
            },
            StorageBackend::S3 => {
                if self.s3_bucket.is_none() {
                    proof {
                        reveal_strlit("s3_bucket is required when using S3 backend");
                    }
                    return Err(ConfigError::MissingField(
                        "s3_bucket is required when using S3 backend".to_owned(),
                    ));
                }
            },
            StorageBackend::Memory => {},
        }
        Ok(())
    }

    /// The storage backend in effect: the chosen one, or memory.
    pub fn effective_storage(&self) -> (r: StorageBackend)
        ensures
            r == (match self.storage {
                Some(s) => s,
                None => StorageBackend::Memory,
            }),
    {
        match &self.storage {
            Some(s) => *s,
            None => StorageBackend::Memory,
        }
    }
}

} // verus!
