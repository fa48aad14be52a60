//! Configuration and telemetry error types.

use vstd::prelude::*;

verus! {

/// Configuration-related errors. Faults raised while reading or parsing
/// a file are carried as their descriptive text.
#[derive(Debug, Clone)]
pub enum ConfigError {
    /// Validation of the merged configuration failed.
    Validation(String),
    /// The configuration file could not be read.
    FileError(String),
    /// The configuration file could not be parsed.
    ParseError(String),
    /// A required field is missing.
    MissingField(String),
}

/// Telemetry initialization errors.
#[derive(Debug, Clone)]
pub enum TelemetryError {
    /// Metrics initialization failed.
    MetricsInit(String),
    /// Provider setup failed.
    ProviderSetup(String),
}

} // verus!
