//! Using an account's advanced features when it has them, and falling back
//! to plain authorization when it does not.

use vstd::prelude::*;
use vstd::string::StringSliceAdditionalSpecFns;
use crate::bytes::bytes_eq;
use crate::host::{ledger_time, ledger_timestamp, lemma_ledger_time};
use crate::symbol::Symbol;
use super::batch::{BatchBuilder, answered, answered_in_order, lemma_answered_in_order_same_contents};
use super::error::AccountError;
use super::traits::CougrAccount;
use super::types::{AccountCapabilities, GameAction, SessionKey, SessionScope};

verus! {

/// Whether a scope permits an action: an empty list permits every action.
pub open spec fn scope_allows(allowed: Seq<Symbol>, action: Symbol) -> bool {
    allowed.len() == 0 || allowed.contains(action)
}

/// Whether a session key, at time `now`, covers an action: it has not
/// expired, has operations left and its scope permits the action.
pub open spec fn session_covers(key: SessionKey, action: Symbol, now: u64) -> bool {
    &&& now < key.scope.expires_at
    &&& key.operations_used < key.scope.max_operations
    &&& scope_allows(key.scope.allowed_actions@, action)
}

/// Whether the capability named by `name` is offered; names other than the
/// four known ones count as offered.
pub open spec fn capability_supported(caps: AccountCapabilities, name: Seq<u8>) -> bool {
    if name == "session_keys".spec_bytes() {
        caps.has_session_keys
    } else if name == "batch".spec_bytes() {
        caps.can_batch
    } else if name == "social_recovery".spec_bytes() {
        caps.has_social_recovery
    } else if name == "passkey_auth".spec_bytes() {
        caps.has_passkey_auth
    } else {
        true
    }
}

/// Whether `scope` permits `action`.
pub fn is_action_allowed(scope: &SessionScope, action: &Symbol) -> (r: bool)
    ensures
        r == scope_allows(scope.allowed_actions@, *action),
{
    if scope.allowed_actions.len() == 0 {
        return true;
    }
    let mut i: usize = 0;
    while i < scope.allowed_actions.len()
        invariant
            i <= scope.allowed_actions@.len(),
            forall|j: int| 0 <= j < i ==> scope.allowed_actions@[j] != *action,
        decreases scope.allowed_actions@.len() - i,
    {
        if scope.allowed_actions[i] == *action {
            return true;
        }
        i = i + 1;
    }
    false
}

/// Whether `key`, at time `now`, covers `action` on its own.
pub fn session_allows(key: &SessionKey, action: &GameAction, now: u64) -> (r: bool)
    ensures
        r == session_covers(*key, action.system_name, now),
{
    now < key.scope.expires_at
        && key.operations_used < key.scope.max_operations
        && is_action_allowed(&key.scope, &action.system_name)
}

/// Whether the session key alone authorizes `action` at time `now` for an
/// account with capabilities `caps`.
pub open spec fn session_path(caps: AccountCapabilities, session: Option<&SessionKey>, action: GameAction, now: u64) -> bool {
    session matches Some(key) && caps.has_session_keys && session_covers(*key, action.system_name, now)
}

/// Whether `r` is what authorizing `action` with fallback gives when the
/// account reported capabilities `caps` and `now` is the ledger time read
/// from `env` (read only when the account supports session keys): `Ok`
/// when the session key suffices, else the account's own answer.
pub open spec fn fallback_decided<A: CougrAccount>(
    account: &A,
    env: &soroban_sdk::Env,
    action: &GameAction,
    session: Option<&SessionKey>,
    caps: AccountCapabilities,
    now: u64,
    r: Result<(), AccountError>,
) -> bool {
    &&& call_ensures(A::capabilities, (account,), caps)
    &&& caps.has_session_keys ==> ledger_time(env, now)
    &&& session_path(caps, session, *action, now) ==> r == Ok::<(), AccountError>(())
    &&& !session_path(caps, session, *action, now) ==> call_ensures(A::authorize, (account, env, action), r)
}

/// Authorizes `action` with the session key when the account supports
/// session keys and the key covers the action at the current ledger time;
/// otherwise asks the account to authorize it directly.
pub fn authorize_with_fallback<A: CougrAccount>(
    env: &soroban_sdk::Env,
    account: &A,
    action: &GameAction,
    session: Option<&SessionKey>,
) -> (r: Result<(), AccountError>)
    ensures
        session is None ==> call_ensures(A::authorize, (account, env, action), r),
        r is Err ==> call_ensures(A::authorize, (account, env, action), r),
        session is Some ==> exists|caps: AccountCapabilities, now: u64|
            #[trigger] fallback_decided(account, env, action, session, caps, now, r),
{
    match session {
        None => account.authorize(env, action),
        Some(_) => {
            let caps = account.capabilities();
            let now = if caps.has_session_keys {
                let t = ledger_timestamp(env);
                proof {
                    lemma_ledger_time(env, t);
                }
                t
            } else {
                0
            };
            let r = if session_suffices(&caps, session, action, now) {
                Ok(())
            } else {
                account.authorize(env, action)
            };
            assert(fallback_decided(account, env, action, session, caps, now, r));
            r
        },
    }
}

/// Whether, for an account with capabilities `caps`, the session key
/// alone authorizes `action` at time `now`: the account supports session
/// keys and the key covers the action.
pub fn session_suffices(caps: &AccountCapabilities, session: Option<&SessionKey>, action: &GameAction, now: u64) -> (r: bool)
    ensures
        r == (session matches Some(key) && caps.has_session_keys && session_covers(*key, action.system_name, now)),
{
    match session {
        Some(key) => caps.has_session_keys && session_allows(key, action, now),
        None => false,
    }
}

/// Authorizes all `actions`: as one batch when the account can batch,
/// otherwise one by one, stopping at the first refusal. No actions at all
/// is refused with `BatchEmpty`.
pub fn batch_or_sequential<A: CougrAccount>(
    env: &soroban_sdk::Env,
    account: &A,
    actions: &[GameAction],
) -> (r: Result<(), AccountError>)
    ensures
        actions@.len() == 0 ==> r == Err::<(), AccountError>(AccountError::BatchEmpty),
        actions@.len() > 0 ==> answered_in_order(account, env, actions@, r),
{
    if actions.len() == 0 {
        return Err(AccountError::BatchEmpty);
    }
    if account.capabilities().can_batch {
        let mut batch = BatchBuilder::new();
        let mut i: usize = 0;
        while i < actions.len()
            invariant
                i <= actions@.len(),
                batch.actions().len() == i,
                forall|j: int| 0 <= j < i ==> (#[trigger] batch.actions()[j]).system_name == actions@[j].system_name
                    && batch.actions()[j].data@ == actions@[j].data@,
            decreases actions@.len() - i,
        {
            batch.add(actions[i].duplicate());
            i = i + 1;
        }
        let ghost acts = batch.actions();
        let res = batch.execute(env, account);
        let r: Result<(), AccountError> = match res {
            Ok(_) => Ok(()),
            Err(e) => Err(e),
        };
        proof {
            lemma_answered_in_order_same_contents(account, env, acts, actions@, r);
        }
        r
    } else {
        let mut i: usize = 0;
        while i < actions.len()
            invariant
                i <= actions@.len(),
                forall|j: int| 0 <= j < i ==> answered(account, env, #[trigger] actions@[j], Ok(())),
            decreases actions@.len() - i,
        {
            let res = account.authorize(env, &actions[i]);
            proof {
                assert(call_ensures(A::authorize, (account, env, &actions@[i as int]), res));
                assert(answered(account, env, actions@[i as int], res));
                if res is Ok {
                    let u = res->Ok_0;
                    assert(u == ());
                    assert(answered(account, env, actions@[i as int], Ok::<(), AccountError>(())));
                }
            }
            match res {
                Ok(()) => {},
                Err(e) => {
                    proof {
                        assert(answered_in_order(account, env, actions@, Err::<(), AccountError>(e)));
                    }
                    return Err(e);
                },
            }
            i = i + 1;
        }
        Ok(())
    }
}

/// Succeeds when the capability named `capability` is offered, and is
/// refused with `CapabilityNotSupported` otherwise.
pub fn require_capability(capabilities: &AccountCapabilities, capability: &str) -> (r: Result<(), AccountError>)
    ensures
        r == if capability_supported(*capabilities, capability.spec_bytes()) {
            Ok::<(), AccountError>(())
        } else {
            Err(AccountError::CapabilityNotSupported)
        },
{
    let name = capability.as_bytes();
    let supported = if bytes_eq(name, "session_keys".as_bytes()) {
        capabilities.has_session_keys
    } else if bytes_eq(name, "batch".as_bytes()) {
        capabilities.can_batch
    } else if bytes_eq(name, "social_recovery".as_bytes()) {
        capabilities.has_social_recovery
    } else if bytes_eq(name, "passkey_auth".as_bytes()) {
        capabilities.has_passkey_auth
    } else {
        true
    };
    if supported {
        Ok(())
    } else {
        Err(AccountError::CapabilityNotSupported)
    }
}

/// With a session key, the ledger time decides: when the account supports
/// session keys and, at the time read from the ledger, the key has not
/// expired, has operations left and its scope allows the action, the
/// fallback answers `Ok`; otherwise (no session-key support, the key
/// expired by then, used up, or not for this action) the answer is the
/// account's own.
pub proof fn law_session_key_at_ledger_time<A: CougrAccount>(
    account: &A,
    env: &soroban_sdk::Env,
    action: &GameAction,
    key: &SessionKey,
    caps: AccountCapabilities,
    now: u64,
    r: Result<(), AccountError>,
)
    requires
        fallback_decided(account, env, action, Some(key), caps, now, r),
    ensures
        caps.has_session_keys ==> ledger_time(env, now),
        caps.has_session_keys && now < key.scope.expires_at && key.operations_used < key.scope.max_operations
            && (key.scope.allowed_actions@.len() == 0 || key.scope.allowed_actions@.contains(action.system_name))
            ==> r == Ok::<(), AccountError>(()),
        !caps.has_session_keys || now >= key.scope.expires_at || key.operations_used >= key.scope.max_operations
            || !(key.scope.allowed_actions@.len() == 0 || key.scope.allowed_actions@.contains(action.system_name))
            ==> call_ensures(A::authorize, (account, env, action), r),
{
}

} // verus!
