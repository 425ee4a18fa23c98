use cougr_core::accounts::degradation::{is_action_allowed, require_capability};
use cougr_core::accounts::error::AccountError;
use cougr_core::accounts::types::{AccountCapabilities, AuthMethod, SessionScope};
use cougr_core::symbol::Symbol;

#[test]
fn test_require_capability_session_keys_present() {
    let caps = AccountCapabilities {
        can_batch: true,
        has_session_keys: true,
        has_social_recovery: true,
        has_passkey_auth: true,
    };
    assert!(require_capability(&caps, "session_keys").is_ok());
}

#[test]
fn test_require_capability_session_keys_missing() {
    let caps = AccountCapabilities {
        can_batch: true,
        has_session_keys: false,
        has_social_recovery: false,
        has_passkey_auth: false,
    };
    assert_eq!(
        require_capability(&caps, "session_keys").unwrap_err(),
        AccountError::CapabilityNotSupported
    );
}

#[test]
fn test_require_capability_batch_missing() {
    let caps = AccountCapabilities {
        can_batch: false,
        has_session_keys: true,
        has_social_recovery: false,
        has_passkey_auth: false,
    };
    assert_eq!(
        require_capability(&caps, "batch").unwrap_err(),
        AccountError::CapabilityNotSupported
    );
}

#[test]
fn test_require_capability_unknown_always_ok() {
    let caps = AccountCapabilities {
        can_batch: false,
        has_session_keys: false,
        has_social_recovery: false,
        has_passkey_auth: false,
    };
    assert!(require_capability(&caps, "unknown").is_ok());
}

#[test]
fn test_account_capabilities() {
    let caps = AccountCapabilities {
        can_batch: true,
        has_session_keys: false,
        has_social_recovery: false,
        has_passkey_auth: false,
    };
    assert!(caps.can_batch);
    assert!(!caps.has_session_keys);
}

#[test]
fn test_auth_method() {
    assert_ne!(AuthMethod::Ed25519, AuthMethod::Secp256r1);
}

#[test]
fn test_is_action_allowed_empty_scope() {
    let scope = SessionScope {
        allowed_actions: vec![],
        max_operations: 100,
        expires_at: 5000,
    };
    assert!(is_action_allowed(&scope, &Symbol::new("anything")));
}

#[test]
fn test_is_action_allowed_matches() {
    let scope = SessionScope {
        allowed_actions: vec![Symbol::new("move")],
        max_operations: 100,
        expires_at: 5000,
    };
    assert!(is_action_allowed(&scope, &Symbol::new("move")));
}

#[test]
fn test_is_action_allowed_not_in_list() {
    let scope = SessionScope {
        allowed_actions: vec![Symbol::new("move")],
        max_operations: 100,
        expires_at: 5000,
    };
    assert!(!is_action_allowed(&scope, &Symbol::new("trade")));
}

#[test]
fn test_require_capability_passkey_and_recovery() {
    let caps = AccountCapabilities {
        can_batch: true,
        has_session_keys: true,
        has_social_recovery: false,
        has_passkey_auth: true,
    };
    assert!(require_capability(&caps, "passkey_auth").is_ok());
    assert_eq!(
        require_capability(&caps, "social_recovery"),
        Err(AccountError::CapabilityNotSupported)
    );
}
