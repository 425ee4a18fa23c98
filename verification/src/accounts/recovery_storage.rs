//! Where social recovery data lives in contract storage: one entry each
//! for an account's guardians, its recovery configuration and its active
//! recovery request. Reading and writing the entries is the caller's.

use vstd::prelude::*;
use crate::ids::Address;
use crate::symbol::{self, symbol_from_text, Symbol};

verus! {

/// Persistent storage of recovery guardians, configuration and requests.
pub struct RecoveryStorage;

impl RecoveryStorage {
    /// The storage key of an account's guardians: `(rcv_guard, account)`.
    pub fn guardians_key(account: &Address) -> (k: (Symbol, Address))
        ensures
            k == (symbol::symbol_of(seq![114u8, 99, 118, 95, 103, 117, 97, 114, 100]), *account),
    {
        let text: [u8; 9] = [114, 99, 118, 95, 103, 117, 97, 114, 100];
        assert(text@ == seq![114u8, 99, 118, 95, 103, 117, 97, 114, 100]);
        (symbol_from_text(&text), *account)
    }

    /// The storage key of an account's recovery configuration: `(rcv_conf, account)`.
    pub fn config_key(account: &Address) -> (k: (Symbol, Address))
        ensures
            k == (symbol::symbol_of(seq![114u8, 99, 118, 95, 99, 111, 110, 102]), *account),
    {
        let text: [u8; 8] = [114, 99, 118, 95, 99, 111, 110, 102];
        assert(text@ == seq![114u8, 99, 118, 95, 99, 111, 110, 102]);
        (symbol_from_text(&text), *account)
    }

    /// The storage key of an account's active recovery request: `(rcv_req, account)`.
    pub fn request_key(account: &Address) -> (k: (Symbol, Address))
        ensures
            k == (symbol::symbol_of(seq![114u8, 99, 118, 95, 114, 101, 113]), *account),
    {
        let text: [u8; 7] = [114, 99, 118, 95, 114, 101, 113];
        assert(text@ == seq![114u8, 99, 118, 95, 114, 101, 113]);
        (symbol_from_text(&text), *account)
    }
}

} // verus!
