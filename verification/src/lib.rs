//! Cougr core: an entity-component-system toolkit for on-chain games,
//! with verified data structures for worlds, change tracking,
//! incremental persistence, accounts and zero-knowledge helpers.

pub mod accounts;
pub mod archetype_world;
pub mod bytes;
pub mod change_tracker;
pub mod commands;
pub mod component;
pub mod debug;
pub mod error;
pub mod hooks;
pub mod host;
pub mod id_map;
pub mod ids;
pub mod incremental;
pub mod observers;
pub mod pair_map;
pub mod plugin;
pub mod query;
pub mod scheduler;
pub mod seq_util;
pub mod simple_world;
pub mod symbol;
pub mod zk;
