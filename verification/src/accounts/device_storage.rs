//! Device keys kept in contract storage, as one list per account: what
//! updating one device does to the list. Reading the list and the policy
//! from storage and writing them back is the caller's.

use vstd::prelude::*;
use crate::ids::Address;
use crate::symbol::{self, symbol_from_text, Symbol};
use crate::ids::Bytes32;
use super::error::AccountError;
use super::multi_device::DeviceKey;

verus! {

/// An account's devices and device policy in contract storage.
pub struct DeviceStorage;

impl DeviceStorage {
    /// The storage key of an account's devices: `(dev_keys, account)`.
    pub fn devices_key(account: &Address) -> (k: (Symbol, Address))
        ensures
            k == (symbol::symbol_of(seq![100u8, 101, 118, 95, 107, 101, 121, 115]), *account),
    {
        let text: [u8; 8] = [100, 101, 118, 95, 107, 101, 121, 115];
        assert(text@ == seq![100u8, 101, 118, 95, 107, 101, 121, 115]);
        (symbol_from_text(&text), *account)
    }

    /// The storage key of an account's device policy: `(dev_policy, account)`.
    pub fn policy_key(account: &Address) -> (k: (Symbol, Address))
        ensures
            k == (symbol::symbol_of(seq![100u8, 101, 118, 95, 112, 111, 108, 105, 99, 121]), *account),
    {
        let text: [u8; 10] = [100, 101, 118, 95, 112, 111, 108, 105, 99, 121];
        assert(text@ == seq![100u8, 101, 118, 95, 112, 111, 108, 105, 99, 121]);
        (symbol_from_text(&text), *account)
    }

    /// The list after `updater` changed the first device with key
    /// `key_id` (the others are kept as they are); refused with
    /// `DeviceNotFound` when no device has this key.
    pub fn update_device<F: FnOnce(DeviceKey) -> DeviceKey>(
        devices: &Vec<DeviceKey>,
        key_id: &Bytes32,
        updater: F,
    ) -> (r: Result<Vec<DeviceKey>, AccountError>)
        requires
            forall|d: DeviceKey| call_requires(updater, (d,)),
        ensures
            ({
                let i = crate::seq_util::first_pos(devices@, |d: DeviceKey| d.key_id == *key_id);
                if i < 0 {
                    r == Err::<Vec<DeviceKey>, AccountError>(AccountError::DeviceNotFound)
                } else {
                    &&& r matches Ok(v)
                    &&& v@.len() == devices@.len()
                    &&& forall|j: int| 0 <= j < devices@.len() && j != i ==> #[trigger] v@[j] == devices@[j]
                    &&& call_ensures(updater, (devices@[i],), v@[i])
                }
            }),
    {
        let ghost p = |d: DeviceKey| d.key_id == *key_id;
        proof {
            crate::seq_util::lemma_first_pos(devices@, p);
        }
        let mut i: usize = 0;
        while i < devices.len()
            invariant
                p == (|d: DeviceKey| d.key_id == *key_id),
                forall|d: DeviceKey| call_requires(updater, (d,)),
                i <= devices@.len(),
                forall|j: int| 0 <= j < i ==> !p(#[trigger] devices@[j]),
                -1 <= crate::seq_util::first_pos(devices@, p) < devices@.len(),
                crate::seq_util::first_pos(devices@, p) == -1 <==> forall|j: int| 0 <= j < devices@.len() ==> !p(#[trigger] devices@[j]),
                forall|j: int| 0 <= j < crate::seq_util::first_pos(devices@, p) ==> !p(#[trigger] devices@[j]),
                crate::seq_util::first_pos(devices@, p) >= 0 ==> p(devices@[crate::seq_util::first_pos(devices@, p)]),
            decreases devices@.len() - i,
        {
            if devices[i].key_id == *key_id {
                let updated = updater(devices[i]);
                let mut v: Vec<DeviceKey> = Vec::new();
                let mut j: usize = 0;
                while j < devices.len()
                    invariant
                        i < devices@.len(),
                        j <= devices@.len(),
                        v@.len() == j,
                        forall|k: int| 0 <= k < j && k != i ==> #[trigger] v@[k] == devices@[k],
                        j > i ==> v@[i as int] == updated,
                    decreases devices@.len() - j,
                {
                    if j == i {
                        v.push(updated);
                    } else {
                        v.push(devices[j]);
                    }
                    j = j + 1;
                }
                return Ok(v);
            }
            i = i + 1;
        }
        Err(AccountError::DeviceNotFound)
    }
}

} // verus!
