//! Several device keys per account, with a limit on active devices and
//! revocation of devices left unused.

use vstd::prelude::*;
use crate::host::{ledger_time, ledger_timestamp, lemma_ledger_time};
use crate::ids::Bytes32;
use crate::seq_util;
use crate::symbol::Symbol;
use super::error::AccountError;

verus! {

/// A registered device key.
#[derive(Clone, Copy, Debug, PartialEq, Eq, Structural)]
pub struct DeviceKey {
    pub key_id: Bytes32,
    /// A name for the device, such as "phone".
    pub device_name: Symbol,
    pub registered_at: u64,
    pub last_used: u64,
    pub is_active: bool,
}

/// How many devices may be active, and after how long without use a
/// device is revoked (0: never).
#[derive(Clone, Copy, Debug, PartialEq, Eq, Structural)]
pub struct DevicePolicy {
    pub max_devices: u32,
    pub auto_revoke_after: u64,
}

/// Management of an account's device keys. Implemented by account kinds
/// that support several devices.
pub trait MultiDeviceProvider {
    /// Registers a new device key.
    fn register_device(&mut self, env: &soroban_sdk::Env, key_id: Bytes32, device_name: Symbol) -> Result<DeviceKey, AccountError>;

    /// Revokes the active device with this key.
    fn revoke_device(&mut self, env: &soroban_sdk::Env, key_id: &Bytes32) -> Result<(), AccountError>;

    /// All registered devices, active or not.
    fn list_devices(&self) -> &[DeviceKey];

    /// The number of active devices.
    fn active_device_count(&self) -> usize;

    /// Notes that the active device with this key was just used.
    fn update_last_used(&mut self, env: &soroban_sdk::Env, key_id: &Bytes32) -> Result<(), AccountError>;

    /// Replaces the policy.
    fn set_policy(&mut self, policy: DevicePolicy);

    /// The policy.
    fn policy(&self) -> &DevicePolicy;

    /// Revokes the devices unused for longer than the policy allows;
    /// returns how many.
    fn cleanup_inactive(&mut self, env: &soroban_sdk::Env) -> u32;
}

/// "Is active".
pub open spec fn is_active() -> spec_fn(DeviceKey) -> bool {
    |d: DeviceKey| d.is_active
}

/// "Is the active device with this key".
pub open spec fn active_with(key_id: Bytes32) -> spec_fn(DeviceKey) -> bool {
    |d: DeviceKey| d.key_id == key_id && d.is_active
}

/// The number of active devices.
pub open spec fn active_count(devices: Seq<DeviceKey>) -> nat {
    devices.filter(is_active()).len()
}

/// No two active devices have the same key.
pub open spec fn active_keys_unique(devices: Seq<DeviceKey>) -> bool {
    forall|i: int, j: int| 0 <= i < j < devices.len() && (#[trigger] devices[i]).is_active && (#[trigger] devices[j]).is_active
        ==> devices[i].key_id != devices[j].key_id
}

/// Whether a device is active and unused for longer than `threshold` at
/// time `now` (the elapsed time does not go below zero).
pub open spec fn is_stale(d: DeviceKey, now: u64, threshold: u64) -> bool {
    d.is_active && (if now >= d.last_used { now - d.last_used } else { 0 }) > threshold
}

/// "Is stale" at time `now` with this threshold.
pub open spec fn stale_at(now: u64, threshold: u64) -> spec_fn(DeviceKey) -> bool {
    |d: DeviceKey| is_stale(d, now, threshold)
}

/// The device, revoked when it is stale.
pub open spec fn after_cleanup(d: DeviceKey, now: u64, threshold: u64) -> DeviceKey {
    if is_stale(d, now, threshold) {
        DeviceKey { is_active: false, ..d }
    } else {
        d
    }
}

/// Whether `after` and `n` are what a cleanup of `before` at time `now`
/// with threshold `threshold` gives: every stale device revoked, and their
/// number (modulo 2^32).
pub open spec fn cleaned_at(before: Seq<DeviceKey>, after: Seq<DeviceKey>, n: u32, now: u64, threshold: u64) -> bool {
    &&& after == before.map_values(|d: DeviceKey| after_cleanup(d, now, threshold))
    &&& n as int == before.filter(stale_at(now, threshold)).len() % 0x1_0000_0000
}

/// A list of device keys under a policy.
pub struct DeviceManager {
    devices: Vec<DeviceKey>,
    device_policy: DevicePolicy,
}

/// The position of the first active device with this key, if any.
fn find_active(devices: &Vec<DeviceKey>, key_id: Bytes32) -> (r: Option<usize>)
    ensures
        r is None ==> seq_util::first_pos(devices@, active_with(key_id)) == -1,
        r matches Some(i) ==> i == seq_util::first_pos(devices@, active_with(key_id)) && i < devices@.len(),
{
    proof {
        seq_util::lemma_first_pos(devices@, active_with(key_id));
    }
    let mut i: usize = 0;
    while i < devices.len()
        invariant
            i <= devices@.len(),
            forall|j: int| 0 <= j < i ==> !active_with(key_id)(#[trigger] devices@[j]),
            -1 <= seq_util::first_pos(devices@, active_with(key_id)) < devices@.len(),
            seq_util::first_pos(devices@, active_with(key_id)) == -1 <==> forall|j: int| 0 <= j < devices@.len() ==> !active_with(key_id)(#[trigger] devices@[j]),
            forall|j: int| 0 <= j < seq_util::first_pos(devices@, active_with(key_id)) ==> !active_with(key_id)(#[trigger] devices@[j]),
            seq_util::first_pos(devices@, active_with(key_id)) >= 0 ==> active_with(key_id)(devices@[seq_util::first_pos(devices@, active_with(key_id))]),
        decreases devices@.len() - i,
    {
        if devices[i].key_id == key_id && devices[i].is_active {
            return Some(i);
        }
        i = i + 1;
    }
    None
}

impl DeviceManager {
    /// The registered devices, in registration order.
    pub closed spec fn devices(&self) -> Seq<DeviceKey> {
        self.devices@
    }

    /// The policy.
    pub closed spec fn spec_policy(&self) -> DevicePolicy {
        self.device_policy
    }

    /// No devices, under `policy`.
    pub fn new(policy: DevicePolicy) -> (m: DeviceManager)
        ensures
            m.devices().len() == 0,
            m.spec_policy() == policy,
    {
        DeviceManager { devices: Vec::new(), device_policy: policy }
    }

    /// No devices, at most five active, no automatic revocation.
    pub fn with_defaults() -> (m: DeviceManager)
        ensures
            m.devices().len() == 0,
            m.spec_policy() == (DevicePolicy { max_devices: 5, auto_revoke_after: 0 }),
    {
        DeviceManager { devices: Vec::new(), device_policy: DevicePolicy { max_devices: 5, auto_revoke_after: 0 } }
    }

    /// The number of active devices.
    pub fn count_active(&self) -> (n: usize)
        ensures
            n == active_count(self.devices()),
    {
        let mut n: usize = 0;
        let mut i: usize = 0;
        while i < self.devices.len()
            invariant
                i <= self.devices@.len(),
                n == self.devices@.take(i as int).filter(is_active()).len(),
                n <= i,
            decreases self.devices@.len() - i,
        {
            proof {
                self.devices@.lemma_take_succ_push(i as int);
                self.devices@.take(i as int).lemma_filter_len_push(is_active(), self.devices@[i as int]);
            }
            if self.devices[i].is_active {
                n = n + 1;
            }
            i = i + 1;
        }
        proof {
            assert(self.devices@.take(self.devices@.len() as int) =~= self.devices@);
        }
        n
    }

    /// Registers device `key_id` at time `now`. Refused with
    /// `DeviceLimitReached` when as many devices are active as the policy
    /// allows (the count taken modulo 2^32), or when an active device has
    /// this key.
    pub fn register_device_at(&mut self, now: u64, key_id: Bytes32, device_name: Symbol) -> (r: Result<DeviceKey, AccountError>)
        ensures
            (active_count(old(self).devices()) as u32) >= old(self).spec_policy().max_devices
                || seq_util::first_pos(old(self).devices(), active_with(key_id)) >= 0
                ==> r == Err::<DeviceKey, AccountError>(AccountError::DeviceLimitReached) && final(self).devices() == old(self).devices(),
            !((active_count(old(self).devices()) as u32) >= old(self).spec_policy().max_devices
                || seq_util::first_pos(old(self).devices(), active_with(key_id)) >= 0) ==> {
                let d = DeviceKey { key_id, device_name, registered_at: now, last_used: now, is_active: true };
                &&& r == Ok::<DeviceKey, AccountError>(d)
                &&& final(self).devices() == old(self).devices().push(d)
            },
            final(self).spec_policy() == old(self).spec_policy(),
            active_count(old(self).devices()) <= old(self).spec_policy().max_devices
                ==> active_count(final(self).devices()) <= final(self).spec_policy().max_devices,
            active_keys_unique(old(self).devices()) ==> active_keys_unique(final(self).devices()),
    {
        let ghost od = self.devices@;
        let active = self.count_active() as u32;
        if active >= self.device_policy.max_devices {
            return Err(AccountError::DeviceLimitReached);
        }
        if find_active(&self.devices, key_id).is_some() {
            return Err(AccountError::DeviceLimitReached);
        }
        let device = DeviceKey { key_id, device_name, registered_at: now, last_used: now, is_active: true };
        self.devices.push(device);
        proof {
            od.lemma_filter_len_push(is_active(), device);
            seq_util::lemma_first_pos(od, active_with(key_id));
            if active_keys_unique(od) {
                assert forall|i: int, j: int| 0 <= i < j < self.devices@.len() && (#[trigger] self.devices@[i]).is_active
                    && (#[trigger] self.devices@[j]).is_active implies self.devices@[i].key_id != self.devices@[j].key_id by {
                    if j == od.len() {
                        assert(od[i] == self.devices@[i]);
                        assert(!active_with(key_id)(od[i]));
                    } else {
                        assert(od[i] == self.devices@[i] && od[j] == self.devices@[j]);
                    }
                }
            }
        }
        Ok(device)
    }

    /// Notes at time `now` that the active device `key_id` was used;
    /// `DeviceNotFound` when no active device has this key.
    pub fn update_last_used_at(&mut self, now: u64, key_id: &Bytes32) -> (r: Result<(), AccountError>)
        ensures
            ({
                let i = seq_util::first_pos(old(self).devices(), active_with(*key_id));
                if i >= 0 {
                    &&& r is Ok
                    &&& final(self).devices() == old(self).devices().update(i, DeviceKey { last_used: now, ..old(self).devices()[i] })
                } else {
                    &&& r == Err::<(), AccountError>(AccountError::DeviceNotFound)
                    &&& final(self).devices() == old(self).devices()
                }
            }),
            final(self).spec_policy() == old(self).spec_policy(),
    {
        match find_active(&self.devices, *key_id) {
            Some(i) => {
                let d = self.devices[i];
                self.devices[i] = DeviceKey { last_used: now, ..d };
                Ok(())
            },
            None => Err(AccountError::DeviceNotFound),
        }
    }

    /// Revokes, at time `now`, every device unused for longer than the
    /// policy allows; returns how many (modulo 2^32). Nothing happens when
    /// the policy never revokes.
    pub fn cleanup_inactive_at(&mut self, now: u64) -> (n: u32)
        ensures
            old(self).spec_policy().auto_revoke_after == 0 ==> n == 0 && final(self).devices() == old(self).devices(),
            old(self).spec_policy().auto_revoke_after != 0 ==> {
                let th = old(self).spec_policy().auto_revoke_after;
                &&& n as int == old(self).devices().filter(stale_at(now, th)).len() % 0x1_0000_0000
                &&& final(self).devices() == old(self).devices().map_values(|d: DeviceKey| after_cleanup(d, now, th))
            },
            final(self).spec_policy() == old(self).spec_policy(),
    {
        if self.device_policy.auto_revoke_after == 0 {
            return 0;
        }
        let threshold = self.device_policy.auto_revoke_after;
        let ghost od = self.devices@;
        let mut revoked: u32 = 0;
        let mut i: usize = 0;
        while i < self.devices.len()
            invariant
                self.devices@.len() == od.len(),
                i <= od.len(),
                threshold == old(self).device_policy.auto_revoke_after,
                self.device_policy == old(self).device_policy,
                revoked as int == od.take(i as int).filter(stale_at(now, threshold)).len() % 0x1_0000_0000,
                forall|j: int| 0 <= j < i ==> #[trigger] self.devices@[j] == after_cleanup(od[j], now, threshold),
                forall|j: int| i <= j < od.len() ==> #[trigger] self.devices@[j] == od[j],
            decreases od.len() - i,
        {
            proof {
                od.lemma_take_succ_push(i as int);
                od.take(i as int).lemma_filter_len_push(stale_at(now, threshold), od[i as int]);
            }
            let d = self.devices[i];
            let elapsed = now.saturating_sub(d.last_used);
            if d.is_active && elapsed > threshold {
                self.devices[i] = DeviceKey { is_active: false, ..d };
                proof {
                    let c = od.take(i as int).filter(stale_at(now, threshold)).len() as int;
                    assert((c + 1) % 0x1_0000_0000 == if c % 0x1_0000_0000 + 1 > 0xffff_ffff { 0 } else { c % 0x1_0000_0000 + 1 })
                        by (nonlinear_arith)
                        requires c >= 0;
                }
                revoked = revoked.wrapping_add(1);
            }
            i = i + 1;
        }
        proof {
            assert(od.take(od.len() as int) =~= od);
            assert(self.devices@ =~= od.map_values(|d: DeviceKey| after_cleanup(d, now, threshold)));
        }
        revoked
    }
}

impl MultiDeviceProvider for DeviceManager {
    fn register_device(&mut self, env: &soroban_sdk::Env, key_id: Bytes32, device_name: Symbol) -> (r: Result<DeviceKey, AccountError>)
        ensures
            (active_count(old(self).devices()) as u32) >= old(self).spec_policy().max_devices
                || seq_util::first_pos(old(self).devices(), active_with(key_id)) >= 0
                ==> r == Err::<DeviceKey, AccountError>(AccountError::DeviceLimitReached) && final(self).devices() == old(self).devices(),
            !((active_count(old(self).devices()) as u32) >= old(self).spec_policy().max_devices
                || seq_util::first_pos(old(self).devices(), active_with(key_id)) >= 0) ==> r is Ok,
            r matches Ok(d) ==> d.key_id == key_id && d.device_name == device_name && d.is_active
                && d.registered_at == d.last_used && final(self).devices() == old(self).devices().push(d),
            r matches Ok(d) ==> ledger_time(env, d.registered_at),
            final(self).spec_policy() == old(self).spec_policy(),
    {
        let now = ledger_timestamp(env);
        proof {
            lemma_ledger_time(env, now);
        }
        self.register_device_at(now, key_id, device_name)
    }

    fn revoke_device(&mut self, env: &soroban_sdk::Env, key_id: &Bytes32) -> (r: Result<(), AccountError>)
        ensures
            ({
                let i = seq_util::first_pos(old(self).devices(), active_with(*key_id));
                if i >= 0 {
                    &&& r is Ok
                    &&& final(self).devices() == old(self).devices().update(i, DeviceKey { is_active: false, ..old(self).devices()[i] })
                } else {
                    &&& r == Err::<(), AccountError>(AccountError::DeviceNotFound)
                    &&& final(self).devices() == old(self).devices()
                }
            }),
            final(self).spec_policy() == old(self).spec_policy(),
    {
        match find_active(&self.devices, *key_id) {
            Some(i) => {
                let d = self.devices[i];
                self.devices[i] = DeviceKey { is_active: false, ..d };
                Ok(())
            },
            None => Err(AccountError::DeviceNotFound),
        }
    }

    fn list_devices(&self) -> (r: &[DeviceKey])
        ensures
            r@ == self.devices(),
    {
        self.devices.as_slice()
    }

    fn active_device_count(&self) -> (n: usize)
        ensures
            n == active_count(self.devices()),
    {
        self.count_active()
    }

    fn update_last_used(&mut self, env: &soroban_sdk::Env, key_id: &Bytes32) -> (r: Result<(), AccountError>)
        ensures
            ({
                let i = seq_util::first_pos(old(self).devices(), active_with(*key_id));
                if i >= 0 {
                    &&& r is Ok
                    &&& final(self).devices().len() == old(self).devices().len()
                    &&& forall|j: int| 0 <= j < old(self).devices().len() && j != i
                        ==> #[trigger] final(self).devices()[j] == old(self).devices()[j]
                    &&& final(self).devices()[i] == DeviceKey { last_used: final(self).devices()[i].last_used, ..old(self).devices()[i] }
                    &&& ledger_time(env, final(self).devices()[i].last_used)
                } else {
                    &&& r == Err::<(), AccountError>(AccountError::DeviceNotFound)
                    &&& final(self).devices() == old(self).devices()
                }
            }),
            final(self).spec_policy() == old(self).spec_policy(),
    {
        proof {
            seq_util::lemma_first_pos(self.devices@, active_with(*key_id));
        }
        let now = ledger_timestamp(env);
        proof {
            lemma_ledger_time(env, now);
        }
        self.update_last_used_at(now, key_id)
    }

    fn set_policy(&mut self, policy: DevicePolicy)
        ensures
            final(self).spec_policy() == policy,
            final(self).devices() == old(self).devices(),
    {
        self.device_policy = policy;
    }

    fn policy(&self) -> (p: &DevicePolicy)
        ensures
            *p == self.spec_policy(),
    {
        &self.device_policy
    }

    fn cleanup_inactive(&mut self, env: &soroban_sdk::Env) -> (n: u32)
        ensures
            old(self).spec_policy().auto_revoke_after == 0 ==> n == 0 && final(self).devices() == old(self).devices(),
            final(self).spec_policy() == old(self).spec_policy(),
            final(self).devices().len() == old(self).devices().len(),
            old(self).spec_policy().auto_revoke_after != 0 ==> exists|now: u64| #[trigger] cleaned_at(
                old(self).devices(), final(self).devices(), n, now, old(self).spec_policy().auto_revoke_after)
                && ledger_time(env, now),
    {
        let now = ledger_timestamp(env);
        proof {
            lemma_ledger_time(env, now);
        }
        let n = self.cleanup_inactive_at(now);
        proof {
            if old(self).spec_policy().auto_revoke_after != 0 {
                assert(cleaned_at(old(self).devices(), self.devices(), n, now, old(self).spec_policy().auto_revoke_after));
            }
        }
        n
    }
}

/// A cleanup at time `now` revokes exactly the active devices last used
/// more than `threshold` before `now`, changes nothing else, and counts
/// them (modulo 2^32). So a device used at `t0` and cleaned up at a time
/// no more than `threshold` later stays active.
pub proof fn law_cleanup_revokes_stale(before: Seq<DeviceKey>, after: Seq<DeviceKey>, n: u32, now: u64, threshold: u64)
    requires
        cleaned_at(before, after, n, now, threshold),
    ensures
        after.len() == before.len(),
        forall|i: int| 0 <= i < before.len() ==> #[trigger] after[i] == (DeviceKey {
            is_active: before[i].is_active && now <= before[i].last_used + threshold,
            ..before[i]
        }),
        n as int == before.filter((|d: DeviceKey| d.is_active && now > d.last_used + threshold)).len() % 0x1_0000_0000,
{
    assert(stale_at(now, threshold) =~= (|d: DeviceKey| d.is_active && now > d.last_used + threshold));
}

} // verus!
