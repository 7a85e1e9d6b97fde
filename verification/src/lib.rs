//! Verified core of an OpenTelemetry log exporter for Azure Monitor, and the
//! attribute store that resolves OTAP attribute rows by parent id.
pub mod store;
pub mod state;
pub mod gzip_batcher;
pub mod exporter;
