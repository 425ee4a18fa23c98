//! Social recovery: guardians approve handing an account to a new owner,
//! which takes effect once enough of them approved and a timelock passed.

use vstd::prelude::*;
use crate::host::{ledger_time, ledger_timestamp, lemma_ledger_time};
use crate::ids::Address;
use super::error::AccountError;

verus! {

/// A guardian of an account.
#[derive(Clone, Copy, Debug, PartialEq, Eq, Structural)]
pub struct Guardian {
    pub address: Address,
    pub added_at: u64,
}

/// A pending recovery.
#[derive(Clone, Debug)]
pub struct RecoveryRequest {
    pub new_owner: Address,
    /// The guardians that approved, in order.
    pub approvals: Vec<Address>,
    pub initiated_at: u64,
    /// The recovery may be executed from this time on: the configured
    /// period after the approvals reached the threshold (after initiation
    /// while they have not yet).
    pub timelock_until: u64,
    pub cancelled: bool,
}

/// How many approvals a recovery needs, how long after reaching them it
/// must wait (its timelock) and how many guardians an account may have.
#[derive(Clone, Copy, Debug, PartialEq, Eq, Structural)]
pub struct RecoveryConfig {
    pub threshold: u32,
    pub timelock_period: u64,
    pub max_guardians: u32,
}

/// A recovery request as a value.
pub struct RequestView {
    pub new_owner: Address,
    pub approvals: Seq<Address>,
    pub initiated_at: u64,
    pub timelock_until: u64,
    pub cancelled: bool,
}

impl RecoveryRequest {
    /// The request as a value.
    pub open spec fn view(&self) -> RequestView {
        RequestView {
            new_owner: self.new_owner,
            approvals: self.approvals@,
            initiated_at: self.initiated_at,
            timelock_until: self.timelock_until,
            cancelled: self.cancelled,
        }
    }

    /// A copy of the request.
    pub fn duplicate(&self) -> (r: RecoveryRequest)
        ensures
            r.view() == self.view(),
    {
        let mut approvals: Vec<Address> = Vec::new();
        let mut i: usize = 0;
        while i < self.approvals.len()
            invariant
                i <= self.approvals@.len(),
                approvals@ == self.approvals@.take(i as int),
            decreases self.approvals@.len() - i,
        {
            approvals.push(self.approvals[i]);
            i = i + 1;
            assert(approvals@ =~= self.approvals@.take(i as int));
        }
        assert(approvals@ =~= self.approvals@);
        RecoveryRequest {
            new_owner: self.new_owner,
            approvals,
            initiated_at: self.initiated_at,
            timelock_until: self.timelock_until,
            cancelled: self.cancelled,
        }
    }
}

/// Social recovery of an account. Implemented by account kinds that
/// support it.
pub trait RecoveryProvider {
    /// Adds a guardian.
    fn add_guardian(&mut self, env: &soroban_sdk::Env, guardian: Address) -> Result<(), AccountError>;

    /// Removes a guardian.
    fn remove_guardian(&mut self, env: &soroban_sdk::Env, guardian: &Address) -> Result<(), AccountError>;

    /// Starts a recovery to `new_owner`.
    fn initiate_recovery(&mut self, env: &soroban_sdk::Env, new_owner: Address) -> Result<RecoveryRequest, AccountError>;

    /// Records a guardian's approval of the pending recovery.
    fn approve_recovery(&mut self, env: &soroban_sdk::Env, guardian: &Address) -> Result<(), AccountError>;

    /// Drops the pending recovery.
    fn cancel_recovery(&mut self, env: &soroban_sdk::Env) -> Result<(), AccountError>;

    /// Hands the account to the new owner once the recovery may proceed;
    /// returns the new owner.
    fn execute_recovery(&mut self, env: &soroban_sdk::Env) -> Result<Address, AccountError>;

    /// The number of guardians.
    fn guardian_count(&self) -> usize;

    /// The recovery configuration.
    fn recovery_config(&self) -> &RecoveryConfig;
}

/// "Is a guardian with another address".
pub open spec fn other_than(a: Address) -> spec_fn(Guardian) -> bool {
    |g: Guardian| g.address != a
}

/// Whether one of `guardians` has address `a`.
pub open spec fn is_guardian(guardians: Seq<Guardian>, a: Address) -> bool {
    exists|i: int| 0 <= i < guardians.len() && (#[trigger] guardians[i]).address == a
}

/// No two guardians have the same address.
pub open spec fn guardians_distinct(guardians: Seq<Guardian>) -> bool {
    forall|i: int, j: int| 0 <= i < j < guardians.len()
        ==> (#[trigger] guardians[i]).address != (#[trigger] guardians[j]).address
}

/// The request after `guardian`'s approval at time `now`: the approval
/// added and, when it is the one that brings the approvals to the
/// threshold, the timelock ending `period` after `now`.
pub open spec fn with_approval(q: RequestView, guardian: Address, threshold: u32, period: u64, now: u64) -> RequestView {
    RequestView {
        approvals: q.approvals.push(guardian),
        timelock_until: if q.approvals.len() + 1 == threshold { (now + period) as u64 } else { q.timelock_until },
        ..q
    }
}

/// Whether `guardian`'s approval would be the one that brings the pending
/// recovery of `a` to its threshold (and so starts its timelock).
pub open spec fn reaches_threshold(a: RecoverableAccount, guardian: Address) -> bool {
    &&& a.spec_request() matches Some(q)
    &&& !q.cancelled
    &&& is_guardian(a.spec_guardians(), guardian)
    &&& !q.approvals.contains(guardian)
    &&& q.approvals.len() + 1 == a.spec_config().threshold
}

/// Whether `after` and `r` are what approving, by `guardian` at time
/// `now`, makes of `before`.
pub open spec fn approved_at(before: RecoverableAccount, after: RecoverableAccount, guardian: Address, now: u64, r: Result<(), AccountError>) -> bool {
    match before.spec_request() {
        None => r == Err::<(), AccountError>(AccountError::RecoveryNotInitiated) && after == before,
        Some(q) => if q.cancelled {
            r == Err::<(), AccountError>(AccountError::RecoveryNotInitiated) && after == before
        } else if !is_guardian(before.spec_guardians(), guardian) {
            r == Err::<(), AccountError>(AccountError::Unauthorized) && after == before
        } else if q.approvals.contains(guardian) {
            r is Ok && after == before
        } else {
            &&& r is Ok
            &&& after.spec_request() == Some(with_approval(q, guardian, before.spec_config().threshold,
                before.spec_config().timelock_period, now))
            &&& after.spec_guardians() == before.spec_guardians()
            &&& after.spec_address() == before.spec_address()
            &&& after.spec_config() == before.spec_config()
        },
    }
}

/// Whether `after` and `r` are what executing the recovery at time `now`
/// makes of `before`.
pub open spec fn executed_at(before: RecoverableAccount, after: RecoverableAccount, now: u64, r: Result<Address, AccountError>) -> bool {
    match before.spec_request() {
        None => r == Err::<Address, AccountError>(AccountError::RecoveryNotInitiated) && after == before,
        Some(q) => if q.cancelled {
            r == Err::<Address, AccountError>(AccountError::RecoveryNotInitiated) && after == before
        } else if q.approvals.len() < before.spec_config().threshold {
            r == Err::<Address, AccountError>(AccountError::ThresholdNotMet) && after == before
        } else if now < q.timelock_until {
            r == Err::<Address, AccountError>(AccountError::TimelockNotExpired) && after == before
        } else {
            &&& r == Ok::<Address, AccountError>(q.new_owner)
            &&& after.spec_address() == q.new_owner
            &&& after.spec_request() is None
            &&& after.spec_guardians() == before.spec_guardians()
            &&& after.spec_config() == before.spec_config()
        },
    }
}

/// An account with guardians that can recover it.
pub struct RecoverableAccount {
    address: Address,
    guardians: Vec<Guardian>,
    config: RecoveryConfig,
    active_request: Option<RecoveryRequest>,
}

impl RecoverableAccount {
    /// The owner's address.
    pub closed spec fn spec_address(&self) -> Address {
        self.address
    }

    /// The guardians, in the order added.
    pub closed spec fn spec_guardians(&self) -> Seq<Guardian> {
        self.guardians@
    }

    /// The configuration.
    pub closed spec fn spec_config(&self) -> RecoveryConfig {
        self.config
    }

    /// The pending recovery, if any.
    pub closed spec fn spec_request(&self) -> Option<RequestView> {
        match self.active_request {
            Some(r) => Some(r.view()),
            None => None,
        }
    }

    /// An account owned by `address`, without guardians or recovery.
    pub fn new(address: Address, config: RecoveryConfig) -> (a: RecoverableAccount)
        ensures
            a.spec_address() == address,
            a.spec_guardians().len() == 0,
            a.spec_config() == config,
            a.spec_request() is None,
    {
        RecoverableAccount { address, guardians: Vec::new(), config, active_request: None }
    }

    /// The owner's address.
    pub fn address(&self) -> (a: &Address)
        ensures
            *a == self.spec_address(),
    {
        &self.address
    }

    /// The pending recovery, if any.
    pub fn active_request(&self) -> (r: Option<&RecoveryRequest>)
        ensures
            r is None <==> self.spec_request() is None,
            r matches Some(q) ==> self.spec_request() == Some(q.view()),
    {
        match &self.active_request {
            Some(q) => Some(q),
            None => None,
        }
    }

    /// Whether `a` is one of the guardians.
    fn has_guardian(&self, a: &Address) -> (r: bool)
        ensures
            r == is_guardian(self.spec_guardians(), *a),
    {
        let mut i: usize = 0;
        while i < self.guardians.len()
            invariant
                i <= self.guardians@.len(),
                forall|j: int| 0 <= j < i ==> (#[trigger] self.guardians@[j]).address != *a,
            decreases self.guardians@.len() - i,
        {
            if self.guardians[i].address == *a {
                return true;
            }
            i = i + 1;
        }
        false
    }

    /// Whether `guardian`'s approval would bring the pending recovery to its
    /// threshold.
    fn approval_reaches_threshold(&self, guardian: &Address) -> (b: bool)
        ensures
            b == reaches_threshold(*self, *guardian),
    {
        match &self.active_request {
            None => false,
            Some(request) => {
                if request.cancelled || !self.has_guardian(guardian) {
                    return false;
                }
                let mut i: usize = 0;
                while i < request.approvals.len()
                    invariant
                        i <= request.approvals@.len(),
                        forall|j: int| 0 <= j < i ==> request.approvals@[j] != *guardian,
                        self.spec_request() == Some(request.view()),
                    decreases request.approvals@.len() - i,
                {
                    if request.approvals[i] == *guardian {
                        assert(request.approvals@[i as int] == *guardian);
                        return false;
                    }
                    i = i + 1;
                }
                self.config.threshold >= 1 && request.approvals.len() == (self.config.threshold - 1) as usize
            },
        }
    }

    /// Adds guardian `guardian` at time `now`. Refused with
    /// `MaxGuardiansReached` when there are as many guardians as allowed
    /// (the count taken modulo 2^32), and with `GuardianAlreadyExists` when
    /// it already is one.
    pub fn add_guardian_at(&mut self, now: u64, guardian: Address) -> (r: Result<(), AccountError>)
        ensures
            (old(self).spec_guardians().len() as u32) >= old(self).spec_config().max_guardians
                ==> r == Err::<(), AccountError>(AccountError::MaxGuardiansReached) && *final(self) == *old(self),
            (old(self).spec_guardians().len() as u32) < old(self).spec_config().max_guardians
                && is_guardian(old(self).spec_guardians(), guardian)
                ==> r == Err::<(), AccountError>(AccountError::GuardianAlreadyExists) && *final(self) == *old(self),
            (old(self).spec_guardians().len() as u32) < old(self).spec_config().max_guardians
                && !is_guardian(old(self).spec_guardians(), guardian) ==> {
                &&& r is Ok
                &&& final(self).spec_guardians() == old(self).spec_guardians().push(Guardian { address: guardian, added_at: now })
                &&& final(self).spec_address() == old(self).spec_address()
                &&& final(self).spec_config() == old(self).spec_config()
                &&& final(self).spec_request() == old(self).spec_request()
            },
            old(self).spec_guardians().len() <= old(self).spec_config().max_guardians
                ==> final(self).spec_guardians().len() <= final(self).spec_config().max_guardians,
            guardians_distinct(old(self).spec_guardians()) ==> guardians_distinct(final(self).spec_guardians()),
    {
        if self.guardians.len() as u32 >= self.config.max_guardians {
            return Err(AccountError::MaxGuardiansReached);
        }
        if self.has_guardian(&guardian) {
            return Err(AccountError::GuardianAlreadyExists);
        }
        let ghost og = self.guardians@;
        self.guardians.push(Guardian { address: guardian, added_at: now });
        proof {
            if guardians_distinct(og) {
                assert forall|i: int, j: int| 0 <= i < j < self.guardians@.len()
                    implies (#[trigger] self.guardians@[i]).address != (#[trigger] self.guardians@[j]).address by {
                    assert(self.guardians@[i] == og[i]);
                    if j < og.len() {
                        assert(self.guardians@[j] == og[j]);
                    } else {
                        assert(og[i].address != guardian);
                    }
                }
            }
        }
        Ok(())
    }

    /// Starts, at time `now`, a recovery to `new_owner` whose timelock ends
    /// a configured period later (the approval that reaches the threshold
    /// restarts it). Refused with `RecoveryAlreadyActive` when one is
    /// pending.
    pub fn initiate_recovery_at(&mut self, now: u64, new_owner: Address) -> (r: Result<RecoveryRequest, AccountError>)
        requires
            now + old(self).spec_config().timelock_period <= u64::MAX,
        ensures
            old(self).spec_request() is Some
                ==> r == Err::<RecoveryRequest, AccountError>(AccountError::RecoveryAlreadyActive) && *final(self) == *old(self),
            old(self).spec_request() is None ==> {
                let q = RequestView {
                    new_owner,
                    approvals: Seq::empty(),
                    initiated_at: now,
                    timelock_until: (now + old(self).spec_config().timelock_period) as u64,
                    cancelled: false,
                };
                &&& r matches Ok(req) && req.view() == q
                &&& final(self).spec_request() == Some(q)
                &&& final(self).spec_guardians() == old(self).spec_guardians()
                &&& final(self).spec_address() == old(self).spec_address()
                &&& final(self).spec_config() == old(self).spec_config()
            },
    {
        if self.active_request.is_some() {
            return Err(AccountError::RecoveryAlreadyActive);
        }
        let request = RecoveryRequest {
            new_owner,
            approvals: Vec::new(),
            initiated_at: now,
            timelock_until: now + self.config.timelock_period,
            cancelled: false,
        };
        self.active_request = Some(request.duplicate());
        proof {
            assert(request.view().approvals =~= Seq::<Address>::empty());
        }
        Ok(request)
    }

    /// Records, at time `now`, `guardian`'s approval of the pending
    /// recovery (a second approval by the same guardian changes nothing).
    /// The approval that first brings the approvals to the threshold starts
    /// the timelock: the recovery may be executed from `now` plus the
    /// configured period. Refused with `RecoveryNotInitiated` when none is
    /// pending or it was cancelled, and `Unauthorized` when `guardian` is
    /// not a guardian.
    pub fn approve_recovery_at(&mut self, now: u64, guardian: &Address) -> (r: Result<(), AccountError>)
        requires
            reaches_threshold(*old(self), *guardian) ==> now + old(self).spec_config().timelock_period <= u64::MAX,
        ensures
            approved_at(*old(self), *final(self), *guardian, now, r),
            (old(self).spec_request() matches Some(q) && q.approvals.no_duplicates())
                ==> (final(self).spec_request() matches Some(q2) && q2.approvals.no_duplicates()),
    {
        let is_g = self.has_guardian(guardian);
        match &self.active_request {
            None => {
                return Err(AccountError::RecoveryNotInitiated);
            },
            Some(request) => {
                if request.cancelled {
                    return Err(AccountError::RecoveryNotInitiated);
                }
                if !is_g {
                    return Err(AccountError::Unauthorized);
                }
                let mut i: usize = 0;
                while i < request.approvals.len()
                    invariant
                        i <= request.approvals@.len(),
                        forall|j: int| 0 <= j < i ==> request.approvals@[j] != *guardian,
                        self.spec_request() == Some(request.view()),
                        is_guardian(self.spec_guardians(), *guardian),
                        !request.cancelled,
                        *self == *old(self),
                    decreases request.approvals@.len() - i,
                {
                    if request.approvals[i] == *guardian {
                        assert(request.approvals@[i as int] == *guardian);
                        return Ok(());
                    }
                    i = i + 1;
                }
            },
        }
        let ghost before = self.active_request->0.approvals@;
        proof {
            assert(!before.contains(*guardian));
            assert(reaches_threshold(*old(self), *guardian) == (before.len() + 1 == old(self).spec_config().threshold));
        }
        let threshold = self.config.threshold;
        let period = self.config.timelock_period;
        match &mut self.active_request {
            Some(request) => {
                request.approvals.push(*guardian);
                if request.approvals.len() == threshold as usize {
                    request.timelock_until = now + period;
                }
            },
            None => {},
        }
        proof {
            if before.no_duplicates() {
                assert(!before.contains(*guardian));
                let after = before.push(*guardian);
                assert forall|i: int, j: int| 0 <= i < after.len() && 0 <= j < after.len() && i != j
                    implies after[i] != after[j] by {
                    if i == before.len() {
                        assert(before[j] == after[j]);
                    } else if j == before.len() {
                        assert(before[i] == after[i]);
                    }
                }
            }
        }
        Ok(())
    }


    /// Hands the account to the recovery's new owner at time `now`.
    /// Refused with `RecoveryNotInitiated` when none is pending (or it was
    /// cancelled), `ThresholdNotMet` with too few approvals, and
    /// `TimelockNotExpired` before its timelock ends.
    pub fn execute_recovery_at(&mut self, now: u64) -> (r: Result<Address, AccountError>)
        ensures
            executed_at(*old(self), *final(self), now, r),
    {
        let new_owner = match &self.active_request {
            None => {
                return Err(AccountError::RecoveryNotInitiated);
            },
            Some(request) => {
                if request.cancelled {
                    return Err(AccountError::RecoveryNotInitiated);
                }
                if request.approvals.len() < self.config.threshold as usize {
                    return Err(AccountError::ThresholdNotMet);
                }
                if now < request.timelock_until {
                    return Err(AccountError::TimelockNotExpired);
                }
                request.new_owner
            },
        };
        self.address = new_owner;
        self.active_request = None;
        Ok(new_owner)
    }
}

impl RecoveryProvider for RecoverableAccount {
    fn add_guardian(&mut self, env: &soroban_sdk::Env, guardian: Address) -> (r: Result<(), AccountError>)
        ensures
            (old(self).spec_guardians().len() as u32) >= old(self).spec_config().max_guardians
                ==> r == Err::<(), AccountError>(AccountError::MaxGuardiansReached) && *final(self) == *old(self),
            (old(self).spec_guardians().len() as u32) < old(self).spec_config().max_guardians
                && is_guardian(old(self).spec_guardians(), guardian)
                ==> r == Err::<(), AccountError>(AccountError::GuardianAlreadyExists) && *final(self) == *old(self),
            (old(self).spec_guardians().len() as u32) < old(self).spec_config().max_guardians
                && !is_guardian(old(self).spec_guardians(), guardian) ==> {
                &&& r is Ok
                &&& final(self).spec_guardians().len() == old(self).spec_guardians().len() + 1
                &&& final(self).spec_guardians().drop_last() == old(self).spec_guardians()
                &&& final(self).spec_guardians().last().address == guardian
                &&& ledger_time(env, final(self).spec_guardians().last().added_at)
                &&& final(self).spec_guardians() == old(self).spec_guardians().push(Guardian {
                    address: guardian,
                    added_at: final(self).spec_guardians().last().added_at,
                })
                &&& final(self).spec_address() == old(self).spec_address()
                &&& final(self).spec_config() == old(self).spec_config()
                &&& final(self).spec_request() == old(self).spec_request()
            },
    {
        let now = ledger_timestamp(env);
        proof {
            lemma_ledger_time(env, now);
        }
        self.add_guardian_at(now, guardian)
    }

    /// Removes every guardian with this address; refused with
    /// `InvalidScope` when there is none.
    fn remove_guardian(&mut self, env: &soroban_sdk::Env, guardian: &Address) -> (r: Result<(), AccountError>)
        ensures
            is_guardian(old(self).spec_guardians(), *guardian) ==> r is Ok,
            !is_guardian(old(self).spec_guardians(), *guardian) ==> r == Err::<(), AccountError>(AccountError::InvalidScope),
            final(self).spec_guardians() == old(self).spec_guardians().filter(other_than(*guardian)),
            final(self).spec_address() == old(self).spec_address(),
            final(self).spec_config() == old(self).spec_config(),
            final(self).spec_request() == old(self).spec_request(),
    {
        let ghost og = self.guardians@;
        let ghost p = other_than(*guardian);
        let mut kept: Vec<Guardian> = Vec::new();
        let mut i: usize = 0;
        while i < self.guardians.len()
            invariant
                og == self.guardians@,
                p == other_than(*guardian),
                i <= og.len(),
                kept@ == og.take(i as int).filter(p),
                kept@.len() == i <==> forall|j: int| 0 <= j < i ==> (#[trigger] og[j]).address != *guardian,
                kept@.len() <= i,
            decreases og.len() - i,
        {
            proof {
                og.lemma_take_succ_push(i as int);
                og.take(i as int).lemma_filter_push(og[i as int], p);
            }
            if self.guardians[i].address != *guardian {
                kept.push(self.guardians[i]);
            }
            i = i + 1;
        }
        proof {
            assert(og.take(og.len() as int) =~= og);
        }
        let found = kept.len() < self.guardians.len();
        self.guardians = kept;
        if !found {
            return Err(AccountError::InvalidScope);
        }
        Ok(())
    }

    /// Starts a recovery at the current ledger time. Refused with
    /// `RecoveryAlreadyActive` when one is pending, and with
    /// `TimelockNotExpired` when the timelock would end past the largest
    /// representable time (the recovery could never be executed).
    fn initiate_recovery(&mut self, env: &soroban_sdk::Env, new_owner: Address) -> (r: Result<RecoveryRequest, AccountError>)
        ensures
            old(self).spec_request() is Some
                ==> r == Err::<RecoveryRequest, AccountError>(AccountError::RecoveryAlreadyActive) && *final(self) == *old(self),
            r matches Ok(req) ==> {
                &&& old(self).spec_request() is None
                &&& final(self).spec_request() == Some(req.view())
                &&& req.new_owner == new_owner
                &&& req.approvals@.len() == 0
                &&& !req.cancelled
                &&& req.timelock_until == req.initiated_at + old(self).spec_config().timelock_period
                &&& ledger_time(env, req.initiated_at)
            },
            old(self).spec_request() is None && r is Err ==> r == Err::<RecoveryRequest, AccountError>(AccountError::TimelockNotExpired)
                && exists|now: u64| #[trigger] ledger_time(env, now) && now + old(self).spec_config().timelock_period > u64::MAX,
            r is Err ==> *final(self) == *old(self),
            final(self).spec_guardians() == old(self).spec_guardians(),
            final(self).spec_address() == old(self).spec_address(),
            final(self).spec_config() == old(self).spec_config(),
    {
        if self.active_request.is_some() {
            return Err(AccountError::RecoveryAlreadyActive);
        }
        let now = ledger_timestamp(env);
        proof {
            lemma_ledger_time(env, now);
        }
        if now > u64::MAX - self.config.timelock_period {
            return Err(AccountError::TimelockNotExpired);
        }
        self.initiate_recovery_at(now, new_owner)
    }

    /// Records `guardian`'s approval of the pending recovery (once), at
    /// the current ledger time; see `approve_recovery_at`. When this
    /// approval is the one that reaches the threshold and its timelock
    /// would end past the largest ledger time, it is refused with
    /// `TimelockNotExpired`, changing nothing.
    fn approve_recovery(&mut self, env: &soroban_sdk::Env, guardian: &Address) -> (r: Result<(), AccountError>)
        ensures
            !reaches_threshold(*old(self), *guardian)
                ==> exists|now: u64| #[trigger] approved_at(*old(self), *final(self), *guardian, now, r) && ledger_time(env, now),
            reaches_threshold(*old(self), *guardian) ==> (exists|now: u64| {
                &&& #[trigger] approved_at(*old(self), *final(self), *guardian, now, r)
                &&& ledger_time(env, now)
                &&& now + old(self).spec_config().timelock_period <= u64::MAX
            }) || (r == Err::<(), AccountError>(AccountError::TimelockNotExpired) && *final(self) == *old(self)
                && exists|now: u64| #[trigger] ledger_time(env, now) && now + old(self).spec_config().timelock_period > u64::MAX),
    {
        let now = ledger_timestamp(env);
        proof {
            lemma_ledger_time(env, now);
        }
        if now > u64::MAX - self.config.timelock_period && self.approval_reaches_threshold(guardian) {
            return Err(AccountError::TimelockNotExpired);
        }
        let r = self.approve_recovery_at(now, guardian);
        assert(approved_at(*old(self), *self, *guardian, now, r));
        r
    }

    /// Drops the pending recovery; refused with `RecoveryNotInitiated`
    /// when none is pending.
    fn cancel_recovery(&mut self, env: &soroban_sdk::Env) -> (r: Result<(), AccountError>)
        ensures
            old(self).spec_request() is None ==> r == Err::<(), AccountError>(AccountError::RecoveryNotInitiated) && *final(self) == *old(self),
            old(self).spec_request() is Some ==> r is Ok && final(self).spec_request() is None,
            final(self).spec_guardians() == old(self).spec_guardians(),
            final(self).spec_address() == old(self).spec_address(),
            final(self).spec_config() == old(self).spec_config(),
    {
        if self.active_request.is_none() {
            return Err(AccountError::RecoveryNotInitiated);
        }
        self.active_request = None;
        Ok(())
    }

    /// Hands the account to the new owner at the current ledger time; see
    /// `execute_recovery_at`.
    fn execute_recovery(&mut self, env: &soroban_sdk::Env) -> (r: Result<Address, AccountError>)
        ensures
            exists|now: u64| #[trigger] executed_at(*old(self), *final(self), now, r) && ledger_time(env, now),
            old(self).spec_request() is None ==> r == Err::<Address, AccountError>(AccountError::RecoveryNotInitiated) && *final(self) == *old(self),
            old(self).spec_request() matches Some(q) && q.cancelled
                ==> r == Err::<Address, AccountError>(AccountError::RecoveryNotInitiated) && *final(self) == *old(self),
            old(self).spec_request() matches Some(q) && !q.cancelled && q.approvals.len() < old(self).spec_config().threshold
                ==> r == Err::<Address, AccountError>(AccountError::ThresholdNotMet) && *final(self) == *old(self),
            r matches Ok(a) ==> {
                &&& old(self).spec_request() matches Some(q) && !q.cancelled && a == q.new_owner
                    && q.approvals.len() >= old(self).spec_config().threshold
                &&& final(self).spec_address() == a
                &&& final(self).spec_request() is None
            },
            r is Err ==> *final(self) == *old(self),
            final(self).spec_guardians() == old(self).spec_guardians(),
            final(self).spec_config() == old(self).spec_config(),
    {
        let now = ledger_timestamp(env);
        proof {
            lemma_ledger_time(env, now);
        }
        let r = self.execute_recovery_at(now);
        assert(executed_at(*old(self), *self, now, r));
        r
    }

    fn guardian_count(&self) -> (n: usize)
        ensures
            n == self.spec_guardians().len(),
    {
        self.guardians.len()
    }

    fn recovery_config(&self) -> (c: &RecoveryConfig)
        ensures
            *c == self.spec_config(),
    {
        &self.config
    }
}

/// Executing a recovery that is pending, not cancelled and approved by
/// enough guardians succeeds exactly when the time it runs at has reached
/// the timelock; it then hands the account to the new owner and clears the
/// request, and otherwise it is refused with `TimelockNotExpired`,
/// changing nothing.
pub proof fn law_execute_at_timelock(before: RecoverableAccount, after: RecoverableAccount, now: u64, r: Result<Address, AccountError>)
    requires
        executed_at(before, after, now, r),
        before.spec_request() is Some,
        !before.spec_request()->0.cancelled,
        before.spec_request()->0.approvals.len() >= before.spec_config().threshold,
    ensures
        now >= before.spec_request()->0.timelock_until ==> {
            &&& r == Ok::<Address, AccountError>(before.spec_request()->0.new_owner)
            &&& after.spec_address() == before.spec_request()->0.new_owner
            &&& after.spec_request() is None
        },
        now < before.spec_request()->0.timelock_until
            ==> r == Err::<Address, AccountError>(AccountError::TimelockNotExpired) && after == before,
{
}

/// The approval that reaches the threshold starts the timelock: after it,
/// at time `t1`, executing at `t2` hands the account to the new owner
/// exactly when `t2` is at least `t1` plus the configured period, and is
/// refused with `TimelockNotExpired` before.
pub proof fn law_approve_then_execute(
    before: RecoverableAccount,
    approved: RecoverableAccount,
    guardian: Address,
    t1: u64,
    r1: Result<(), AccountError>,
    executed: RecoverableAccount,
    t2: u64,
    r2: Result<Address, AccountError>,
)
    requires
        reaches_threshold(before, guardian),
        t1 + before.spec_config().timelock_period <= u64::MAX,
        approved_at(before, approved, guardian, t1, r1),
        executed_at(approved, executed, t2, r2),
    ensures
        r1 is Ok,
        t2 >= t1 + before.spec_config().timelock_period
            ==> r2 == Ok::<Address, AccountError>(before.spec_request()->0.new_owner)
                && executed.spec_address() == before.spec_request()->0.new_owner,
        t2 < t1 + before.spec_config().timelock_period
            ==> r2 == Err::<Address, AccountError>(AccountError::TimelockNotExpired),
{
}

} // verus!
