//! Collecting actions and authorizing them together.

use vstd::prelude::*;
use super::error::AccountError;
use super::traits::CougrAccount;
use super::types::GameAction;

verus! {

/// Whether an action with the contents of `a` may have been answered `r`
/// by `account`'s `authorize`.
pub open spec fn answered<A: CougrAccount>(account: &A, env: &soroban_sdk::Env, a: GameAction, r: Result<(), AccountError>) -> bool {
    exists|b: GameAction| b.system_name == a.system_name && b.data@ == a.data@
        && #[trigger] call_ensures(A::authorize, (account, env, &b), r)
}

/// Whether `r` is what authorizing `actions` one by one, in order, and
/// stopping at the first refusal gives, the account answering as it may:
/// `Ok` when every action was authorized, else the first refusal.
pub open spec fn answered_in_order<A: CougrAccount>(account: &A, env: &soroban_sdk::Env, actions: Seq<GameAction>, r: Result<(), AccountError>) -> bool {
    &&& r is Ok ==> forall|i: int| 0 <= i < actions.len() ==> answered(account, env, #[trigger] actions[i], Ok(()))
    &&& r is Err ==> exists|k: int| 0 <= k < actions.len()
        && (forall|j: int| 0 <= j < k ==> answered(account, env, #[trigger] actions[j], Ok(())))
        && #[trigger] answered(account, env, actions[k], r)
}

/// Two actions with the same contents may have been answered alike.
pub proof fn lemma_answered_same_contents<A: CougrAccount>(account: &A, env: &soroban_sdk::Env, a1: GameAction, a2: GameAction, r: Result<(), AccountError>)
    requires
        a1.system_name == a2.system_name,
        a1.data@ == a2.data@,
    ensures
        answered(account, env, a1, r) == answered(account, env, a2, r),
{
    if answered(account, env, a1, r) {
        let b = choose|b: GameAction| b.system_name == a1.system_name && b.data@ == a1.data@
            && #[trigger] call_ensures(A::authorize, (account, env, &b), r);
        assert(answered(account, env, a2, r));
    }
    if answered(account, env, a2, r) {
        let b = choose|b: GameAction| b.system_name == a2.system_name && b.data@ == a2.data@
            && #[trigger] call_ensures(A::authorize, (account, env, &b), r);
        assert(answered(account, env, a1, r));
    }
}

/// Two lists of actions with the same contents, one by one, may have been
/// answered alike.
pub proof fn lemma_answered_in_order_same_contents<A: CougrAccount>(account: &A, env: &soroban_sdk::Env, s1: Seq<GameAction>, s2: Seq<GameAction>, r: Result<(), AccountError>)
    requires
        s1.len() == s2.len(),
        forall|j: int| 0 <= j < s1.len() ==> (#[trigger] s1[j]).system_name == s2[j].system_name && s1[j].data@ == s2[j].data@,
    ensures
        answered_in_order(account, env, s1, r) == answered_in_order(account, env, s2, r),
{
    assert forall|j: int, x: Result<(), AccountError>| 0 <= j < s1.len() implies
        #[trigger] answered(account, env, s1[j], x) == answered(account, env, s2[j], x) by {
        lemma_answered_same_contents(account, env, s1[j], s2[j], x);
    }
    if answered_in_order(account, env, s1, r) && r is Err {
        let k = choose|k: int| 0 <= k < s1.len()
            && (forall|j: int| 0 <= j < k ==> answered(account, env, #[trigger] s1[j], Ok(())))
            && #[trigger] answered(account, env, s1[k], r);
        assert(answered(account, env, s2[k], r));
        assert forall|j: int| 0 <= j < k implies answered(account, env, #[trigger] s2[j], Ok(())) by {
            assert(answered(account, env, s1[j], Ok(())));
        }
    }
    if answered_in_order(account, env, s2, r) && r is Err {
        let k = choose|k: int| 0 <= k < s2.len()
            && (forall|j: int| 0 <= j < k ==> answered(account, env, #[trigger] s2[j], Ok(())))
            && #[trigger] answered(account, env, s2[k], r);
        assert(answered(account, env, s1[k], r));
        assert forall|j: int| 0 <= j < k implies answered(account, env, #[trigger] s1[j], Ok(())) by {
            assert(answered(account, env, s2[j], Ok(())));
        }
    }
    if answered_in_order(account, env, s1, r) && r is Ok {
        assert forall|j: int| 0 <= j < s2.len() implies answered(account, env, #[trigger] s2[j], Ok(())) by {
            assert(answered(account, env, s1[j], Ok(())));
        }
    }
    if answered_in_order(account, env, s2, r) && r is Ok {
        assert forall|j: int| 0 <= j < s1.len() implies answered(account, env, #[trigger] s1[j], Ok(())) by {
            assert(answered(account, env, s2[j], Ok(())));
        }
    }
}

/// A list of actions to authorize in one go.
pub struct BatchBuilder {
    actions: Vec<GameAction>,
}

impl BatchBuilder {
    /// The actions collected so far, in the order they were added.
    pub closed spec fn actions(&self) -> Seq<GameAction> {
        self.actions@
    }

    /// An empty batch.
    pub fn new() -> (b: BatchBuilder)
        ensures
            b.actions() == Seq::<GameAction>::empty(),
    {
        BatchBuilder { actions: Vec::new() }
    }

    /// Appends an action; returns the batch for chaining.
    pub fn add(&mut self, action: GameAction) -> (r: &mut BatchBuilder)
        ensures
            r.actions() == old(self).actions().push(action),
            *final(self) == *final(r),
    {
        self.actions.push(action);
        self
    }

    /// The number of collected actions.
    pub fn len(&self) -> (n: usize)
        ensures
            n == self.actions().len(),
    {
        self.actions.len()
    }

    /// Whether no action has been collected.
    pub fn is_empty(&self) -> (r: bool)
        ensures
            r == (self.actions().len() == 0),
    {
        self.actions.len() == 0
    }

    /// Authorizes every action in order through `account`, stopping at the
    /// first refusal; hands the actions back when all were authorized.
    /// An empty batch is refused with `BatchEmpty`.
    pub fn execute<A: CougrAccount>(self, env: &soroban_sdk::Env, account: &A) -> (r: Result<Vec<GameAction>, AccountError>)
        ensures
            self.actions().len() == 0 ==> r == Err::<Vec<GameAction>, AccountError>(AccountError::BatchEmpty),
            r matches Ok(v) ==> v@ == self.actions() && self.actions().len() > 0,
            self.actions().len() > 0 ==> answered_in_order(account, env, self.actions(), match r {
                Ok(_) => Ok::<(), AccountError>(()),
                Err(e) => Err::<(), AccountError>(e),
            }),
    {
        if self.actions.len() == 0 {
            return Err(AccountError::BatchEmpty);
        }
        let ghost acts = self.actions@;
        let mut i: usize = 0;
        while i < self.actions.len()
            invariant
                acts == self.actions@,
                i <= acts.len(),
                forall|j: int| 0 <= j < i ==> answered(account, env, #[trigger] acts[j], Ok(())),
            decreases self.actions@.len() - i,
        {
            let res = account.authorize(env, &self.actions[i]);
            proof {
                assert(call_ensures(A::authorize, (account, env, &acts[i as int]), res));
                assert(answered(account, env, acts[i as int], res));
            }
            proof {
                if res is Ok {
                    let u = res->Ok_0;
                    assert(u == ());
                    assert(answered(account, env, acts[i as int], Ok::<(), AccountError>(())));
                }
            }
            match res {
                Ok(()) => {},
                Err(e) => {
                    proof {
                        assert(answered_in_order(account, env, acts, Err::<(), AccountError>(e)));
                    }
                    return Err(e);
                },
            }
            i = i + 1;
        }
        Ok(self.actions)
    }
}

impl Default for BatchBuilder {
    fn default() -> (b: BatchBuilder)
        ensures
            b.actions() == Seq::<GameAction>::empty(),
    {
        BatchBuilder::new()
    }
}

} // verus!
