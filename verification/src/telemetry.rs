//! Telemetry configuration as plain data.
//!
//! The exporter and the process-wide meter provider are external
//! collaborators owned by the binary; the library only carries the
//! configuration they are set up from.

use vstd::prelude::*;

verus! {

/// Configuration for metrics collection.
#[derive(Debug, Clone)]
pub struct TelemetryConfig {
    /// Whether metrics are collected at all.
    pub enable_metrics: bool,
    /// The exporter's collection interval, in milliseconds.
    pub collection_interval_ms: u64,
}

impl Default for TelemetryConfig {
    /// Metrics on, collected every fifteen seconds.
    fn default() -> (r: Self)
        ensures
            r.enable_metrics == true,
            r.collection_interval_ms == 15000,
    {
        TelemetryConfig { enable_metrics: true, collection_interval_ms: 15000 }
    }
}

} // verus!
