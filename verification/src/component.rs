//! Component storage kinds.

use vstd::prelude::*;

verus! {

/// Where a component's data is kept: in the dense table or the sparse set.
#[derive(Clone, Copy, Debug, PartialEq, Eq, Structural)]
pub enum ComponentStorage {
    Table,
    Sparse,
}

} // verus!
