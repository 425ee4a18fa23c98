//! Per-entity persistence: each entity and component is its own storage
//! entry, and only what changed is written back.

pub mod dirty_tracker;
pub mod keys;
pub mod persisted;
pub mod storage_world;

pub use dirty_tracker::DirtyTracker;
pub use storage_world::{StorageWorld, WorldMetadata};
