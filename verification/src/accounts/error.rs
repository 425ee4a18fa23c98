//! Errors of account operations.

use vstd::prelude::*;

verus! {

/// Why an account operation was refused.
#[derive(Clone, Copy, Debug, PartialEq, Eq, Structural)]
pub enum AccountError {
    Unauthorized,
    SessionExpired,
    InvalidSignature,
    CapabilityNotSupported,
    SessionLimitReached,
    InvalidScope,
    BatchEmpty,
    BatchTooLarge,
    StorageError,
    GuardianAlreadyExists,
    RecoveryNotInitiated,
    TimelockNotExpired,
    ThresholdNotMet,
    MaxGuardiansReached,
    DeviceLimitReached,
    DeviceNotFound,
    RecoveryAlreadyActive,
}

} // verus!
