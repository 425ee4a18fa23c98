//! Errors of the world operations.

use vstd::prelude::*;

verus! {

/// Why a world operation failed.
#[derive(Clone, Copy, Debug, PartialEq, Eq, Structural)]
pub enum CougrError {
    /// No entity with that id exists in storage.
    EntityNotFound,
}

} // verus!
