//! The storage layout of per-entity persistence: the key of each entry.
//!
//! - `cougr_meta` holds the world metadata;
//! - `(cougr_ent, entity_id)` holds an entity's component type list;
//! - `(cougr_cmp, entity_id, component_type)` holds one component's data.

use vstd::prelude::*;
use crate::simple_world::EntityId;
use crate::symbol::{self, symbol_from_text, Symbol};

verus! {

/// The text `cougr_meta`.
pub open spec fn meta_text() -> Seq<u8> {
    seq![99u8, 111, 117, 103, 114, 95, 109, 101, 116, 97]
}

/// The text `cougr_ent`.
pub open spec fn entity_text() -> Seq<u8> {
    seq![99u8, 111, 117, 103, 114, 95, 101, 110, 116]
}

/// The text `cougr_cmp`.
pub open spec fn component_text() -> Seq<u8> {
    seq![99u8, 111, 117, 103, 114, 95, 99, 109, 112]
}

/// The key of the world metadata.
pub fn meta_key() -> (k: Symbol)
    ensures
        k == symbol::symbol_of(meta_text()),
{
    let text: [u8; 10] = [99, 111, 117, 103, 114, 95, 109, 101, 116, 97];
    assert(text@ == meta_text());
    symbol_from_text(&text)
}

/// The key of an entity's component type list.
pub fn entity_key(entity_id: EntityId) -> (k: (Symbol, EntityId))
    ensures
        k == (symbol::symbol_of(entity_text()), entity_id),
{
    let text: [u8; 9] = [99, 111, 117, 103, 114, 95, 101, 110, 116];
    assert(text@ == entity_text());
    (symbol_from_text(&text), entity_id)
}

/// The key of one component of an entity.
pub fn component_key(entity_id: EntityId, component_type: &Symbol) -> (k: (Symbol, EntityId, Symbol))
    ensures
        k == (symbol::symbol_of(component_text()), entity_id, *component_type),
{
    let text: [u8; 9] = [99, 111, 117, 103, 114, 95, 99, 109, 112];
    assert(text@ == component_text());
    (symbol_from_text(&text), entity_id, *component_type)
}

} // verus!
