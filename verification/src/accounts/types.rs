//! The values that accounts authorize and are described by.

use vstd::prelude::*;
use crate::ids::Bytes32;
use crate::symbol::Symbol;

verus! {

/// A game action an account may authorize: the system it runs and its
/// encoded arguments.
#[derive(Clone, Debug)]
pub struct GameAction {
    pub system_name: Symbol,
    pub data: Vec<u8>,
}

/// What a session key may do: which actions (all, when empty), how many
/// operations, and until when.
#[derive(Clone, Debug)]
pub struct SessionScope {
    pub allowed_actions: Vec<Symbol>,
    pub max_operations: u32,
    pub expires_at: u64,
}

/// A session key, its scope and how much of it has been used.
#[derive(Clone, Debug)]
pub struct SessionKey {
    pub key_id: Bytes32,
    pub scope: SessionScope,
    pub created_at: u64,
    pub operations_used: u32,
}

/// The features an account offers.
#[derive(Clone, Copy, Debug, PartialEq, Eq, Structural)]
pub struct AccountCapabilities {
    pub can_batch: bool,
    pub has_session_keys: bool,
    pub has_social_recovery: bool,
    pub has_passkey_auth: bool,
}

/// The signature scheme an account authenticates with.
#[derive(Clone, Copy, Debug, PartialEq, Eq, Structural)]
pub enum AuthMethod {
    Ed25519,
    Secp256r1,
}

/// A session key as a value.
pub struct SessionKeyView {
    pub key_id: Bytes32,
    pub allowed_actions: Seq<Symbol>,
    pub max_operations: u32,
    pub expires_at: u64,
    pub created_at: u64,
    pub operations_used: u32,
}

impl View for SessionKey {
    type V = SessionKeyView;

    open spec fn view(&self) -> SessionKeyView {
        SessionKeyView {
            key_id: self.key_id,
            allowed_actions: self.scope.allowed_actions@,
            max_operations: self.scope.max_operations,
            expires_at: self.scope.expires_at,
            created_at: self.created_at,
            operations_used: self.operations_used,
        }
    }
}

impl SessionKey {
    /// A copy of the key.
    pub fn duplicate(&self) -> (r: SessionKey)
        ensures
            r@ == self@,
    {
        SessionKey {
            key_id: self.key_id,
            scope: SessionScope {
                allowed_actions: crate::symbol::copy_syms(&self.scope.allowed_actions),
                max_operations: self.scope.max_operations,
                expires_at: self.scope.expires_at,
            },
            created_at: self.created_at,
            operations_used: self.operations_used,
        }
    }
}

impl GameAction {
    /// A copy of this action.
    pub fn duplicate(&self) -> (r: GameAction)
        ensures
            r.system_name == self.system_name,
            r.data@ == self.data@,
    {
        GameAction { system_name: self.system_name, data: crate::bytes::copy_bytes(&self.data) }
    }
}

} // verus!
