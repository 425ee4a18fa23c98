use cougr_core::accounts::batch::BatchBuilder;
use cougr_core::accounts::degradation::{authorize_with_fallback, batch_or_sequential, session_allows, session_suffices};
use cougr_core::accounts::device_storage::DeviceStorage;
use cougr_core::accounts::error::AccountError;
use cougr_core::accounts::multi_device::{DeviceKey, DeviceManager, DevicePolicy, MultiDeviceProvider};
use cougr_core::accounts::recovery::{RecoverableAccount, RecoveryConfig, RecoveryProvider};
use cougr_core::accounts::secp256r1_auth::{passkey_digest, Secp256r1Key, Secp256r1Storage};
use cougr_core::accounts::storage::{ListWrite, SessionStorage};
use cougr_core::accounts::traits::CougrAccount;
use cougr_core::accounts::types::{AccountCapabilities, GameAction, SessionKey, SessionScope};
use cougr_core::ids::{Address, Bytes32};
use cougr_core::symbol::Symbol;
use soroban_sdk::testutils::Ledger as _;
use soroban_sdk::Env;
use std::cell::Cell;

fn sym(s: &str) -> Symbol {
    Symbol::new(s)
}

fn key32(b: u8) -> Bytes32 {
    Bytes32::from_array(&[b; 32])
}

fn addr(b: u8) -> Address {
    Address::account(key32(b))
}

/// An account that authorizes everything and counts the authorizations.
struct MockAccount {
    address: Address,
    capabilities: AccountCapabilities,
    authorized: Cell<u32>,
}

impl MockAccount {
    fn new() -> Self {
        Self::with_capabilities(AccountCapabilities {
            can_batch: true,
            has_session_keys: true,
            has_social_recovery: true,
            has_passkey_auth: true,
        })
    }

    fn with_capabilities(capabilities: AccountCapabilities) -> Self {
        MockAccount { address: addr(200), capabilities, authorized: Cell::new(0) }
    }
}

impl CougrAccount for MockAccount {
    fn address(&self) -> &Address {
        &self.address
    }

    fn capabilities(&self) -> AccountCapabilities {
        self.capabilities
    }

    fn authorize(&self, _env: &Env, _action: &GameAction) -> Result<(), AccountError> {
        self.authorized.set(self.authorized.get() + 1);
        Ok(())
    }
}

/// An account that refuses everything.
struct RefusingAccount {
    address: Address,
}

impl CougrAccount for RefusingAccount {
    fn address(&self) -> &Address {
        &self.address
    }

    fn capabilities(&self) -> AccountCapabilities {
        AccountCapabilities { can_batch: false, has_session_keys: true, has_social_recovery: false, has_passkey_auth: false }
    }

    fn authorize(&self, _env: &Env, _action: &GameAction) -> Result<(), AccountError> {
        Err(AccountError::Unauthorized)
    }
}

fn make_session(expires_at: u64, max_ops: u32) -> SessionKey {
    SessionKey {
        key_id: key32(1),
        scope: SessionScope { allowed_actions: vec![sym("move"), sym("attack")], max_operations: max_ops, expires_at },
        created_at: 0,
        operations_used: 0,
    }
}

fn make_action(name: &str) -> GameAction {
    GameAction { system_name: sym(name), data: vec![] }
}

fn no_caps() -> AccountCapabilities {
    AccountCapabilities { can_batch: false, has_session_keys: false, has_social_recovery: false, has_passkey_auth: false }
}

#[test]
fn test_batch_builder_new() {
    let batch = BatchBuilder::new();
    assert!(batch.is_empty());
    assert_eq!(batch.len(), 0);
}

#[test]
fn test_batch_builder_add() {
    let mut batch = BatchBuilder::new();
    batch.add(GameAction { system_name: sym("move"), data: vec![] });
    batch.add(GameAction { system_name: sym("attack"), data: vec![] });
    assert_eq!(batch.len(), 2);
    assert!(!batch.is_empty());
}

#[test]
fn test_batch_execute_empty_fails() {
    let env = Env::default();
    let account = MockAccount::new();
    let batch = BatchBuilder::new();
    let result = batch.execute(&env, &account);
    assert!(matches!(result, Err(AccountError::BatchEmpty)));
}

#[test]
fn test_batch_execute_success() {
    let env = Env::default();
    let account = MockAccount::new();
    let mut batch = BatchBuilder::new();
    batch.add(GameAction { system_name: sym("move"), data: vec![] });
    batch.add(GameAction { system_name: sym("attack"), data: vec![] });
    let result = batch.execute(&env, &account);
    assert!(result.is_ok());
    let actions = result.unwrap();
    assert_eq!(actions.len(), 2);
}

#[test]
fn batch_stops_at_first_refusal() {
    let env = Env::default();
    let account = RefusingAccount { address: addr(1) };
    let mut batch = BatchBuilder::new();
    batch.add(make_action("move"));
    assert!(matches!(batch.execute(&env, &account), Err(AccountError::Unauthorized)));
}

#[test]
fn test_authorize_with_session_valid() {
    let env = Env::default();
    let account = MockAccount::new();
    let session = make_session(5000, 100);
    let action = make_action("move");
    let result = authorize_with_fallback(&env, &account, &action, Some(&session));
    assert!(result.is_ok());
    assert_eq!(account.authorized.get(), 0);
}

#[test]
fn test_authorize_with_session_expired_falls_back() {
    let env = Env::default();
    env.ledger().with_mut(|li| {
        li.timestamp = 6000;
    });
    let account = MockAccount::new();
    let session = make_session(5000, 100);
    let action = make_action("move");
    let result = authorize_with_fallback(&env, &account, &action, Some(&session));
    assert!(result.is_ok());
    assert_eq!(account.authorized.get(), 1);
}

#[test]
fn test_authorize_with_session_ops_exhausted_falls_back() {
    let env = Env::default();
    let account = MockAccount::new();
    let mut session = make_session(5000, 10);
    session.operations_used = 10;
    let action = make_action("move");
    let result = authorize_with_fallback(&env, &account, &action, Some(&session));
    assert!(result.is_ok());
    assert_eq!(account.authorized.get(), 1);
}

#[test]
fn test_authorize_with_session_action_not_allowed_falls_back() {
    let env = Env::default();
    let account = MockAccount::new();
    let session = make_session(5000, 100);
    let action = make_action("trade");
    let result = authorize_with_fallback(&env, &account, &action, Some(&session));
    assert!(result.is_ok());
    assert_eq!(account.authorized.get(), 1);
}

#[test]
fn test_authorize_no_session_falls_back() {
    let env = Env::default();
    let account = MockAccount::new();
    let action = make_action("move");
    let result = authorize_with_fallback(&env, &account, &action, None);
    assert!(result.is_ok());
    assert_eq!(account.authorized.get(), 1);
}

#[test]
fn test_authorize_no_session_keys_capability_falls_back() {
    let env = Env::default();
    let account = MockAccount::with_capabilities(no_caps());
    let session = make_session(5000, 100);
    let action = make_action("move");
    let result = authorize_with_fallback(&env, &account, &action, Some(&session));
    assert!(result.is_ok());
    assert_eq!(account.authorized.get(), 1);
}

#[test]
fn fallback_reports_the_account_refusal() {
    let env = Env::default();
    let account = RefusingAccount { address: addr(1) };
    let session = make_session(5000, 100);
    assert!(authorize_with_fallback(&env, &account, &make_action("move"), Some(&session)).is_ok());
    assert_eq!(
        authorize_with_fallback(&env, &account, &make_action("trade"), Some(&session)),
        Err(AccountError::Unauthorized)
    );
}

#[test]
fn session_allows_checks_time_uses_and_scope() {
    let session = make_session(5000, 2);
    assert!(session_allows(&session, &make_action("attack"), 4999));
    assert!(!session_allows(&session, &make_action("attack"), 5000));
    assert!(!session_allows(&session, &make_action("trade"), 0));
    let mut open = make_session(10, 1);
    open.scope.allowed_actions = vec![];
    assert!(session_allows(&open, &make_action("trade"), 0));
    open.operations_used = 1;
    assert!(!session_allows(&open, &make_action("trade"), 0));
}

#[test]
fn test_batch_or_sequential_empty_fails() {
    let env = Env::default();
    let account = MockAccount::new();
    let result = batch_or_sequential(&env, &account, &[]);
    assert_eq!(result.unwrap_err(), AccountError::BatchEmpty);
}

#[test]
fn test_batch_or_sequential_with_batch_support() {
    let env = Env::default();
    let account = MockAccount::new();
    let actions = [make_action("move"), make_action("attack")];
    let result = batch_or_sequential(&env, &account, &actions);
    assert!(result.is_ok());
    assert_eq!(account.authorized.get(), 2);
}

#[test]
fn test_batch_or_sequential_without_batch_support() {
    let env = Env::default();
    let account = MockAccount::with_capabilities(no_caps());
    let actions = [make_action("move"), make_action("attack")];
    let result = batch_or_sequential(&env, &account, &actions);
    assert!(result.is_ok());
    assert_eq!(account.authorized.get(), 2);
}

#[test]
fn test_game_action_creation() {
    let action = GameAction { system_name: sym("move"), data: vec![] };
    assert_eq!(action.system_name, sym("move"));
}

#[test]
fn test_session_scope_creation() {
    let scope = SessionScope { allowed_actions: vec![sym("move"), sym("attack")], max_operations: 100, expires_at: 1000 };
    assert_eq!(scope.allowed_actions.len(), 2);
    assert_eq!(scope.max_operations, 100);
}

#[test]
fn test_session_key_creation() {
    let key = SessionKey {
        key_id: key32(1),
        scope: SessionScope { allowed_actions: vec![sym("move")], max_operations: 50, expires_at: 2000 },
        created_at: 500,
        operations_used: 0,
    };
    assert_eq!(key.operations_used, 0);
    assert_eq!(key.created_at, 500);
}

fn default_policy() -> DevicePolicy {
    DevicePolicy { max_devices: 3, auto_revoke_after: 0 }
}

#[test]
fn test_register_device() {
    let env = Env::default();
    let mut manager = DeviceManager::new(default_policy());
    let device = manager.register_device(&env, key32(1), sym("phone")).unwrap();
    assert!(device.is_active);
    assert_eq!(manager.active_device_count(), 1);
}

#[test]
fn test_device_limit() {
    let env = Env::default();
    let mut manager = DeviceManager::new(DevicePolicy { max_devices: 2, auto_revoke_after: 0 });
    manager.register_device(&env, key32(1), sym("dev1")).unwrap();
    manager.register_device(&env, key32(2), sym("dev2")).unwrap();
    let result = manager.register_device(&env, key32(3), sym("dev3"));
    assert_eq!(result, Err(AccountError::DeviceLimitReached));
}

#[test]
fn test_revoke_device() {
    let env = Env::default();
    let mut manager = DeviceManager::new(default_policy());
    manager.register_device(&env, key32(1), sym("phone")).unwrap();
    manager.revoke_device(&env, &key32(1)).unwrap();
    assert_eq!(manager.active_device_count(), 0);
    assert_eq!(manager.list_devices().len(), 1);
}

#[test]
fn test_revoke_nonexistent() {
    let env = Env::default();
    let mut manager = DeviceManager::new(default_policy());
    let result = manager.revoke_device(&env, &key32(99));
    assert_eq!(result, Err(AccountError::DeviceNotFound));
}

#[test]
fn test_update_last_used() {
    let env = Env::default();
    let mut manager = DeviceManager::new(default_policy());
    manager.register_device(&env, key32(1), sym("phone")).unwrap();
    manager.update_last_used(&env, &key32(1)).unwrap();
    let devices = manager.list_devices();
    assert_eq!(devices.len(), 1);
}

#[test]
fn test_update_last_used_nonexistent() {
    let env = Env::default();
    let mut manager = DeviceManager::new(default_policy());
    let result = manager.update_last_used(&env, &key32(99));
    assert_eq!(result, Err(AccountError::DeviceNotFound));
}

#[test]
fn test_cleanup_inactive_disabled() {
    let env = Env::default();
    let mut manager = DeviceManager::new(default_policy());
    manager.register_device(&env, key32(1), sym("phone")).unwrap();
    let revoked = manager.cleanup_inactive(&env);
    assert_eq!(revoked, 0);
    assert_eq!(manager.active_device_count(), 1);
}

#[test]
fn test_set_policy() {
    let mut manager = DeviceManager::new(default_policy());
    manager.set_policy(DevicePolicy { max_devices: 10, auto_revoke_after: 500 });
    assert_eq!(manager.policy().max_devices, 10);
    assert_eq!(manager.policy().auto_revoke_after, 500);
}

#[test]
fn test_with_defaults() {
    let manager = DeviceManager::with_defaults();
    assert_eq!(manager.policy().max_devices, 5);
    assert_eq!(manager.active_device_count(), 0);
}

#[test]
fn test_revoked_device_allows_new_registration() {
    let env = Env::default();
    let mut manager = DeviceManager::new(DevicePolicy { max_devices: 1, auto_revoke_after: 0 });
    manager.register_device(&env, key32(1), sym("old")).unwrap();
    manager.revoke_device(&env, &key32(1)).unwrap();
    manager.register_device(&env, key32(2), sym("new")).unwrap();
    assert_eq!(manager.active_device_count(), 1);
}

#[test]
fn cleanup_revokes_only_stale_devices() {
    let mut manager = DeviceManager::new(DevicePolicy { max_devices: 5, auto_revoke_after: 100 });
    manager.register_device_at(10, key32(1), sym("a")).unwrap();
    manager.register_device_at(150, key32(2), sym("b")).unwrap();
    assert_eq!(manager.register_device_at(150, key32(2), sym("dup")), Err(AccountError::DeviceLimitReached));
    assert_eq!(manager.cleanup_inactive_at(200), 1);
    assert!(!manager.list_devices()[0].is_active);
    assert!(manager.list_devices()[1].is_active);
    manager.update_last_used_at(400, &key32(2)).unwrap();
    assert_eq!(manager.list_devices()[1].last_used, 400);
    assert_eq!(manager.cleanup_inactive_at(5), 0);
}

fn default_config() -> RecoveryConfig {
    RecoveryConfig { threshold: 2, timelock_period: 100, max_guardians: 5 }
}

#[test]
fn test_add_guardian() {
    let env = Env::default();
    let mut account = RecoverableAccount::new(addr(1), default_config());
    account.add_guardian(&env, addr(2)).unwrap();
    assert_eq!(account.guardian_count(), 1);
}

#[test]
fn test_add_duplicate_guardian() {
    let env = Env::default();
    let mut account = RecoverableAccount::new(addr(1), default_config());
    account.add_guardian(&env, addr(2)).unwrap();
    let result = account.add_guardian(&env, addr(2));
    assert_eq!(result, Err(AccountError::GuardianAlreadyExists));
}

#[test]
fn test_max_guardians() {
    let env = Env::default();
    let mut account = RecoverableAccount::new(addr(1), RecoveryConfig { threshold: 1, timelock_period: 0, max_guardians: 2 });
    account.add_guardian(&env, addr(2)).unwrap();
    account.add_guardian(&env, addr(3)).unwrap();
    let result = account.add_guardian(&env, addr(4));
    assert_eq!(result, Err(AccountError::MaxGuardiansReached));
}

#[test]
fn test_remove_guardian() {
    let env = Env::default();
    let mut account = RecoverableAccount::new(addr(1), default_config());
    account.add_guardian(&env, addr(2)).unwrap();
    account.remove_guardian(&env, &addr(2)).unwrap();
    assert_eq!(account.guardian_count(), 0);
    assert_eq!(account.remove_guardian(&env, &addr(2)), Err(AccountError::InvalidScope));
}

#[test]
fn test_initiate_recovery() {
    let env = Env::default();
    let mut account = RecoverableAccount::new(addr(1), default_config());
    let request = account.initiate_recovery(&env, addr(9)).unwrap();
    assert!(!request.cancelled);
    assert_eq!(request.approvals.len(), 0);
}

#[test]
fn test_double_initiate_fails() {
    let env = Env::default();
    let mut account = RecoverableAccount::new(addr(1), default_config());
    account.initiate_recovery(&env, addr(9)).unwrap();
    let result = account.initiate_recovery(&env, addr(8));
    assert!(matches!(result, Err(AccountError::RecoveryAlreadyActive)));
}

#[test]
fn test_approve_recovery() {
    let env = Env::default();
    let mut account = RecoverableAccount::new(addr(1), default_config());
    account.add_guardian(&env, addr(2)).unwrap();
    account.add_guardian(&env, addr(3)).unwrap();
    account.initiate_recovery(&env, addr(9)).unwrap();
    account.approve_recovery(&env, &addr(2)).unwrap();
    account.approve_recovery(&env, &addr(3)).unwrap();
    let request = account.active_request().unwrap();
    assert_eq!(request.approvals.len(), 2);
}

#[test]
fn test_approve_non_guardian_fails() {
    let env = Env::default();
    let mut account = RecoverableAccount::new(addr(1), default_config());
    account.initiate_recovery(&env, addr(9)).unwrap();
    let result = account.approve_recovery(&env, &addr(5));
    assert_eq!(result, Err(AccountError::Unauthorized));
}

#[test]
fn test_cancel_recovery() {
    let env = Env::default();
    let mut account = RecoverableAccount::new(addr(1), default_config());
    account.initiate_recovery(&env, addr(9)).unwrap();
    account.cancel_recovery(&env).unwrap();
    assert!(account.active_request().is_none());
}

#[test]
fn test_execute_recovery_threshold_not_met() {
    let env = Env::default();
    let mut account = RecoverableAccount::new(addr(1), default_config());
    account.add_guardian(&env, addr(2)).unwrap();
    account.initiate_recovery(&env, addr(9)).unwrap();
    account.approve_recovery(&env, &addr(2)).unwrap();
    let result = account.execute_recovery(&env);
    assert_eq!(result, Err(AccountError::ThresholdNotMet));
}

#[test]
fn test_execute_recovery_timelock() {
    let env = Env::default();
    let mut account = RecoverableAccount::new(addr(1), default_config());
    account.add_guardian(&env, addr(2)).unwrap();
    account.add_guardian(&env, addr(3)).unwrap();
    account.initiate_recovery(&env, addr(9)).unwrap();
    account.approve_recovery(&env, &addr(2)).unwrap();
    account.approve_recovery(&env, &addr(3)).unwrap();
    let result = account.execute_recovery(&env);
    assert_eq!(result, Err(AccountError::TimelockNotExpired));
}

#[test]
fn test_recovery_config() {
    let account = RecoverableAccount::new(addr(1), default_config());
    assert_eq!(account.recovery_config().threshold, 2);
    assert_eq!(account.recovery_config().timelock_period, 100);
    assert_eq!(account.recovery_config().max_guardians, 5);
}

#[test]
fn recovery_executes_after_timelock_with_approvals() {
    let env = Env::default();
    let mut account = RecoverableAccount::new(addr(1), default_config());
    account.add_guardian(&env, addr(2)).unwrap();
    account.add_guardian(&env, addr(3)).unwrap();
    let request = account.initiate_recovery_at(50, addr(9)).unwrap();
    assert_eq!(request.timelock_until, 150);
    account.approve_recovery_at(60, &addr(2)).unwrap();
    account.approve_recovery_at(65, &addr(2)).unwrap();
    assert_eq!(account.active_request().unwrap().approvals.len(), 1);
    assert_eq!(account.active_request().unwrap().timelock_until, 150);
    // The second approval reaches the threshold: the timelock counts from it.
    account.approve_recovery_at(70, &addr(3)).unwrap();
    assert_eq!(account.active_request().unwrap().timelock_until, 170);
    assert_eq!(account.execute_recovery_at(150), Err(AccountError::TimelockNotExpired));
    assert_eq!(account.execute_recovery_at(169), Err(AccountError::TimelockNotExpired));
    assert_eq!(account.execute_recovery_at(170), Ok(addr(9)));
    assert_eq!(*account.address(), addr(9));
    assert!(account.active_request().is_none());
    assert_eq!(account.execute_recovery_at(200), Err(AccountError::RecoveryNotInitiated));
}

fn make_session_key(id_byte: u8, expires_at: u64) -> SessionKey {
    SessionKey {
        key_id: key32(id_byte),
        scope: SessionScope { allowed_actions: vec![sym("move")], max_operations: 100, expires_at },
        created_at: 0,
        operations_used: 0,
    }
}

#[test]
fn test_store_and_load() {
    let key = make_session_key(1, 99999);
    let keys = SessionStorage::store(&vec![], &key);
    let loaded = SessionStorage::load(&keys, &key.key_id);
    assert!(loaded.is_some());
    assert_eq!(loaded.unwrap().operations_used, 0);
}

#[test]
fn test_load_nonexistent() {
    assert!(SessionStorage::load(&vec![], &key32(99)).is_none());
}

#[test]
fn test_load_all() {
    let keys = SessionStorage::store(&vec![], &make_session_key(1, 99999));
    let keys = SessionStorage::store(&keys, &make_session_key(2, 99999));
    assert_eq!(keys.len(), 2);
}

#[test]
fn test_remove() {
    let key = make_session_key(1, 99999);
    let keys = SessionStorage::store(&vec![], &key);
    let (found, write) = SessionStorage::remove(&keys, &key.key_id);
    assert!(found);
    assert!(matches!(write, ListWrite::Delete));
    assert!(SessionStorage::load(&vec![], &key.key_id).is_none());
}

#[test]
fn storage_test_remove_nonexistent() {
    let (found, write) = SessionStorage::remove(&vec![], &key32(99));
    assert!(!found);
    assert!(matches!(write, ListWrite::Unchanged));
}

#[test]
fn test_increment_usage() {
    let key = make_session_key(1, 99999);
    let keys = SessionStorage::store(&vec![], &key);
    let keys = SessionStorage::increment_usage(&keys, &key.key_id).unwrap();
    let loaded = SessionStorage::load(&keys, &key.key_id).unwrap();
    assert_eq!(loaded.operations_used, 1);
}

#[test]
fn test_increment_usage_nonexistent() {
    let result = SessionStorage::increment_usage(&vec![], &key32(99));
    assert!(matches!(result, Err(AccountError::InvalidScope)));
}

#[test]
fn test_cleanup_expired() {
    let keys = SessionStorage::store(&vec![], &make_session_key(1, 0));
    let keys = SessionStorage::store(&keys, &make_session_key(2, 99999));
    let (removed, write) = SessionStorage::cleanup_expired(&keys, 0);
    assert_eq!(removed, 1);
    match write {
        ListWrite::Write(remaining) => assert_eq!(remaining.len(), 1),
        _ => panic!("expected a write"),
    }
}

#[test]
fn test_store_overwrites_existing() {
    let mut key = make_session_key(1, 99999);
    let keys = SessionStorage::store(&vec![], &key);
    key.operations_used = 42;
    let keys = SessionStorage::store(&keys, &key);
    assert_eq!(keys.len(), 1);
    let loaded = SessionStorage::load(&keys, &key.key_id).unwrap();
    assert_eq!(loaded.operations_used, 42);
}

#[test]
fn removing_one_of_two_keys_writes_the_rest() {
    let keys = SessionStorage::store(&vec![], &make_session_key(1, 5));
    let keys = SessionStorage::store(&keys, &make_session_key(2, 5));
    let (found, write) = SessionStorage::remove(&keys, &key32(1));
    assert!(found);
    match write {
        ListWrite::Write(rest) => {
            assert_eq!(rest.len(), 1);
            assert_eq!(rest[0].key_id, key32(2));
        }
        _ => panic!("expected a write"),
    }
    let (n, w) = SessionStorage::cleanup_expired(&keys, 4);
    assert_eq!(n, 0);
    assert!(matches!(w, ListWrite::Unchanged));
}

fn make_key(label: &str, pubkey_byte: u8) -> Secp256r1Key {
    let mut bytes = [0u8; 65];
    bytes[0] = 0x04;
    bytes[1] = pubkey_byte;
    Secp256r1Key { public_key: bytes, label: sym(label), registered_at: 0 }
}

#[test]
fn test_store_and_load_keys() {
    let keys = Secp256r1Storage::store(&vec![], &make_key("passkey1", 1));
    let keys = Secp256r1Storage::store(&keys, &make_key("passkey2", 2));
    assert_eq!(keys.len(), 2);
}

#[test]
fn test_store_overwrites_same_label() {
    let keys = Secp256r1Storage::store(&vec![], &make_key("passkey1", 1));
    let keys = Secp256r1Storage::store(&keys, &make_key("passkey1", 99));
    assert_eq!(keys.len(), 1);
    assert_eq!(keys[0].public_key[1], 99);
}

#[test]
fn test_remove_key() {
    let keys = Secp256r1Storage::store(&vec![], &make_key("passkey1", 1));
    let (found, write) = Secp256r1Storage::remove(&keys, &sym("passkey1"));
    assert!(found);
    assert!(matches!(write, ListWrite::Delete));
}

#[test]
fn secp256r1_auth_test_remove_nonexistent() {
    let (found, _) = Secp256r1Storage::remove(&vec![], &sym("nope"));
    assert!(!found);
}

#[test]
fn test_find_by_label() {
    let keys = Secp256r1Storage::store(&vec![], &make_key("passkey1", 42));
    let found = Secp256r1Storage::find_by_label(&keys, &sym("passkey1"));
    assert!(found.is_some());
    assert_eq!(found.unwrap().public_key[1], 42);
    assert!(Secp256r1Storage::find_by_label(&keys, &sym("nope")).is_none());
}

fn make_device(id_byte: u8, name: &str) -> DeviceKey {
    DeviceKey { key_id: key32(id_byte), device_name: sym(name), registered_at: 0, last_used: 0, is_active: true }
}

#[test]
fn test_update_device() {
    let devices = vec![make_device(1, "phone")];
    let updated = DeviceStorage::update_device(&devices, &key32(1), |d: DeviceKey| DeviceKey { last_used: 999, ..d }).unwrap();
    assert_eq!(updated[0].last_used, 999);
}

#[test]
fn update_device_missing_key_is_refused() {
    let devices = vec![make_device(1, "phone"), make_device(2, "laptop")];
    let r = DeviceStorage::update_device(&devices, &key32(3), |d: DeviceKey| d);
    assert_eq!(r, Err(AccountError::DeviceNotFound));
    let updated = DeviceStorage::update_device(&devices, &key32(2), |d: DeviceKey| DeviceKey { is_active: false, ..d }).unwrap();
    assert!(updated[0].is_active);
    assert!(!updated[1].is_active);
}

#[test]
fn session_suffices_until_expiry() {
    let caps = MockAccount::new().capabilities;
    let session = make_session(5000, 100);
    let action = make_action("attack");
    assert!(session_suffices(&caps, Some(&session), &action, 4999));
    assert!(!session_suffices(&caps, Some(&session), &action, 5000));
    assert!(!session_suffices(&caps, None, &action, 0));
}

#[test]
fn session_suffices_needs_capability_scope_and_operations() {
    let session = make_session(5000, 100);
    assert!(!session_suffices(&no_caps(), Some(&session), &make_action("move"), 10));
    let caps = MockAccount::new().capabilities;
    assert!(!session_suffices(&caps, Some(&session), &make_action("trade"), 10));
    let mut used = make_session(5000, 3);
    used.operations_used = 3;
    assert!(!session_suffices(&caps, Some(&used), &make_action("move"), 10));
}

#[test]
fn passkey_digest_is_sha256() {
    let env = Env::default();
    let d = passkey_digest(&env, &b"abc".to_vec());
    assert_eq!(d.len(), 32);
    // SHA-256("abc")
    assert_eq!(&d[..4], &[0xba, 0x78, 0x16, 0xbf]);
    assert_eq!(&d[28..], &[0xf2, 0x00, 0x15, 0xad]);
}

/// An account that refuses one action name and counts the authorizations
/// it was asked for.
struct SelectiveAccount {
    address: Address,
    can_batch: bool,
    refused: Symbol,
    asked: Cell<u32>,
}

impl CougrAccount for SelectiveAccount {
    fn address(&self) -> &Address {
        &self.address
    }

    fn capabilities(&self) -> AccountCapabilities {
        AccountCapabilities { can_batch: self.can_batch, has_session_keys: false, has_social_recovery: false, has_passkey_auth: false }
    }

    fn authorize(&self, _env: &Env, action: &GameAction) -> Result<(), AccountError> {
        self.asked.set(self.asked.get() + 1);
        if action.system_name == self.refused {
            Err(AccountError::Unauthorized)
        } else {
            Ok(())
        }
    }
}

#[test]
fn batch_or_sequential_stops_at_first_refusal_either_way() {
    let env = Env::default();
    let actions = [make_action("move"), make_action("trade"), make_action("jump")];
    for can_batch in [false, true] {
        let account = SelectiveAccount { address: addr(1), can_batch, refused: sym("trade"), asked: Cell::new(0) };
        assert_eq!(batch_or_sequential(&env, &account, &actions), Err(AccountError::Unauthorized));
        assert_eq!(account.asked.get(), 2);
        let fine = [make_action("move"), make_action("jump")];
        assert_eq!(batch_or_sequential(&env, &account, &fine), Ok(()));
        assert_eq!(account.asked.get(), 4);
    }
}

#[test]
fn approval_below_threshold_ignores_a_late_clock() {
    let env = Env::default();
    let mut account = RecoverableAccount::new(addr(1), default_config());
    account.add_guardian(&env, addr(2)).unwrap();
    account.add_guardian(&env, addr(3)).unwrap();
    account.initiate_recovery_at(50, addr(9)).unwrap();
    env.ledger().set_timestamp(u64::MAX - 5);
    assert_eq!(account.approve_recovery(&env, &addr(2)), Ok(()));
    assert_eq!(account.active_request().unwrap().approvals.len(), 1);
    assert_eq!(account.approve_recovery(&env, &addr(3)), Err(AccountError::TimelockNotExpired));
    assert_eq!(account.active_request().unwrap().approvals.len(), 1);
    assert_eq!(account.execute_recovery(&env), Err(AccountError::ThresholdNotMet));
}
