//! Archetype-based world: entities with the same set of component types
//! share an archetype, so queries scan archetypes rather than entities.

pub mod archetype;
pub mod query;
pub mod world;

pub use archetype::{Archetype, ArchetypeId};
pub use query::{archetype_query, ArchetypeQueryCache};
pub use world::ArchetypeWorld;


