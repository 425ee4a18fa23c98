//! Inspection of worlds: summaries, storage metrics and snapshots.

pub mod introspect;
pub mod metrics;
pub mod snapshot;

pub use introspect::{EntitySummary, WorldSummary};
pub use metrics::StorageMetrics;
pub use snapshot::{WorldDiff, WorldSnapshot};
