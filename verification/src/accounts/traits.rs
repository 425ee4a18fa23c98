//! The interface every kind of game account offers.

use vstd::prelude::*;
use crate::ids::Address;
use super::error::AccountError;
use super::types::{AccountCapabilities, GameAction};

verus! {

/// A game account: it has an address, declares its capabilities and
/// authorizes actions. Implemented by the users of the library for their
/// account kinds; nothing is assumed of what an implementation returns.
pub trait CougrAccount {
    /// The account's address.
    fn address(&self) -> &Address;

    /// The features the account offers.
    fn capabilities(&self) -> AccountCapabilities;

    /// Authorizes `action` on behalf of the account.
    fn authorize(&self, env: &soroban_sdk::Env, action: &GameAction) -> Result<(), AccountError>;
}

} // verus!
