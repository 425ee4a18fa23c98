//! The host environment handed to every contract invocation, and the few
//! host services that the library's logic asks of it.

use vstd::prelude::*;

verus! {

/// The host environment (`soroban_sdk::Env`), carried through opaquely.
#[verifier::external_type_specification]
#[verifier::external_body]
pub struct ExEnv(soroban_sdk::Env);

/// Reads the ledger close time of the current ledger through
/// `soroban_sdk::Ledger::timestamp`. The value depends on the ledger the
/// invocation runs in, so nothing is promised about it.
#[verifier::external_body]
pub(crate) fn ledger_timestamp(env: &soroban_sdk::Env) -> u64 {
    env.ledger().timestamp()
}

/// Whether `t` is a time that reading the ledger timestamp through `env`
/// (with `ledger_timestamp`) gave.
pub closed spec fn ledger_time(env: &soroban_sdk::Env, t: u64) -> bool {
    call_ensures(ledger_timestamp, (env,), t)
}

/// A value read with `ledger_timestamp` is a ledger time.
pub(crate) proof fn lemma_ledger_time(env: &soroban_sdk::Env, t: u64)
    requires
        call_ensures(ledger_timestamp, (env,), t),
    ensures
        ledger_time(env, t),
{
}

/// The SHA-256 digest of a byte string.
pub uninterp spec fn spec_sha256(data: Seq<u8>) -> Seq<u8>;

/// Hashes `data` with `soroban_sdk::crypto::Crypto::sha256`. The result is
/// the SHA-256 digest of the bytes, a function of `data` alone, and is
/// always 32 bytes long (it is returned as a `Hash<32>`).
#[verifier::external_body]
pub(crate) fn sha256(env: &soroban_sdk::Env, data: &Vec<u8>) -> (digest: Vec<u8>)
    ensures
        digest@ == spec_sha256(data@),
        digest@.len() == 32,
{
    let bytes = soroban_sdk::Bytes::from_slice(env, data.as_slice());
    env.crypto().sha256(&bytes).to_array().to_vec()
}

} // verus!
