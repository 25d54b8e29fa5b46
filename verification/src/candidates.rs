//! Candidate lifecycle: joining and leaving candidacy, going offline and
//! online, and adjusting the self-bond.
//!
//! Every operation is specified by a pair of spec functions: a `_check`
//! function that decides, from the pre-state alone, whether the call
//! succeeds or with which error it fails, and an `_ok` predicate that
//! relates the pre-state to the post-state of a successful call.  A
//! failed call leaves the state untouched.

use vstd::prelude::*;

use crate::bonds::{has_entry, total_amount, Bond};
use crate::state::{
    balances_same_except, candidates_same_except, lemma_wf_candidate_value_update, sat_add,
    same_config_round, Staking,
};
use crate::types::{AccountBalance, Candidate, CollatorStatus, StakingError};

verus! {

broadcast use vstd::std_specs::hash::group_hash_axioms;

/// Decides `join_candidates`: the caller must not be registered yet, the
/// bond must reach the minimum collator stake, and the caller must have
/// that much free balance.
pub open spec fn join_candidates_check(s: Staking, caller: u64, bond: u64) -> Result<
    (),
    StakingError,
> {
    if s.is_candidate_spec(caller) {
        Err(StakingError::AlreadyCandidate)
    } else if bond < s.min_collator_stake {
        Err(StakingError::BondBelowMinimum)
    } else if s.free_of(caller) < bond {
        Err(StakingError::InsufficientFunds)
    } else {
        Ok(())
    }
}

/// Effect of a successful `join_candidates`: the caller is registered
/// active with self-bond `bond`, no backers, and `bond` moved from its
/// free to its reserved balance.  Nothing else changes.
pub open spec fn join_candidates_ok(pre: Staking, post: Staking, caller: u64, bond: u64) -> bool {
    &&& same_config_round(pre, post)
    &&& post.is_candidate_spec(caller)
    &&& post.candidate_bond(caller) == bond
    &&& post.status_of(caller) == CollatorStatus::Active
    &&& post.total_nominated_of(caller) == 0
    &&& post.backers(caller) == Seq::<Bond>::empty()
    &&& candidates_same_except(pre, post, caller)
    &&& post.nominators@ == pre.nominators@
    &&& post.free_of(caller) == pre.free_of(caller) - bond
    &&& post.reserved_of(caller) == pre.reserved_of(caller) + bond
    &&& balances_same_except(pre, post, caller)
}

/// Effect of a successful status change (`leave_candidates`,
/// `go_offline`, `go_online`): only the caller's status moves; bonds,
/// backers and balances stay put.
pub open spec fn status_change_ok(
    pre: Staking,
    post: Staking,
    caller: u64,
    st: CollatorStatus,
) -> bool {
    &&& same_config_round(pre, post)
    &&& post.is_candidate_spec(caller)
    &&& post.status_of(caller) == st
    &&& post.candidate_bond(caller) == pre.candidate_bond(caller)
    &&& post.total_nominated_of(caller) == pre.total_nominated_of(caller)
    &&& post.backers(caller) == pre.backers(caller)
    &&& candidates_same_except(pre, post, caller)
    &&& post.nominators@ == pre.nominators@
    &&& post.balances@ == pre.balances@
}

/// Decides `leave_candidates`: the caller must be a candidate that has
/// not already requested to leave.
pub open spec fn leave_candidates_check(s: Staking, caller: u64) -> Result<(), StakingError> {
    if !s.is_candidate_spec(caller) {
        Err(StakingError::NotCandidate)
    } else if s.status_of(caller) is Leaving {
        Err(StakingError::AlreadyLeaving)
    } else {
        Ok(())
    }
}

/// Decides `go_offline`: only an active candidate can go offline; a
/// leaving candidate makes no further status change.
pub open spec fn go_offline_check(s: Staking, caller: u64) -> Result<(), StakingError> {
    if !s.is_candidate_spec(caller) {
        Err(StakingError::NotCandidate)
    } else if s.status_of(caller) is Leaving {
        Err(StakingError::AlreadyLeaving)
    } else if s.status_of(caller) is Offline {
        Err(StakingError::AlreadyOffline)
    } else {
        Ok(())
    }
}

/// Decides `go_online`: only an offline candidate can come back; a
/// leaving candidate makes no further status change.
pub open spec fn go_online_check(s: Staking, caller: u64) -> Result<(), StakingError> {
    if !s.is_candidate_spec(caller) {
        Err(StakingError::NotCandidate)
    } else if s.status_of(caller) is Leaving {
        Err(StakingError::AlreadyLeaving)
    } else if s.status_of(caller) is Active {
        Err(StakingError::AlreadyActive)
    } else {
        Ok(())
    }
}

/// Decides `candidate_bond_more`.
pub open spec fn candidate_bond_more_check(s: Staking, caller: u64, amount: u64) -> Result<
    (),
    StakingError,
> {
    if !s.is_candidate_spec(caller) {
        Err(StakingError::NotCandidate)
    } else if s.free_of(caller) < amount {
        Err(StakingError::InsufficientFunds)
    } else {
        Ok(())
    }
}

/// Effect of a successful `candidate_bond_more`: the self-bond grows by
/// `amount` and `amount` moves from free to reserved.
pub open spec fn candidate_bond_more_ok(
    pre: Staking,
    post: Staking,
    caller: u64,
    amount: u64,
) -> bool {
    &&& same_config_round(pre, post)
    &&& post.is_candidate_spec(caller)
    &&& post.candidate_bond(caller) == pre.candidate_bond(caller) + amount
    &&& post.status_of(caller) == pre.status_of(caller)
    &&& post.total_nominated_of(caller) == pre.total_nominated_of(caller)
    &&& post.backers(caller) == pre.backers(caller)
    &&& candidates_same_except(pre, post, caller)
    &&& post.nominators@ == pre.nominators@
    &&& post.free_of(caller) == pre.free_of(caller) - amount
    &&& post.reserved_of(caller) == pre.reserved_of(caller) + amount
    &&& balances_same_except(pre, post, caller)
}

/// Decides `candidate_bond_less`: the remaining self-bond may not drop
/// below the minimum collator stake (in particular, not below zero).
pub open spec fn candidate_bond_less_check(s: Staking, caller: u64, amount: u64) -> Result<
    (),
    StakingError,
> {
    if !s.is_candidate_spec(caller) {
        Err(StakingError::NotCandidate)
    } else if s.candidate_bond(caller) - amount < s.min_collator_stake {
        Err(StakingError::BondBelowMinimum)
    } else {
        Ok(())
    }
}

/// Effect of a successful `candidate_bond_less`: the self-bond shrinks by
/// `amount` and `amount` moves from reserved back to free.
pub open spec fn candidate_bond_less_ok(
    pre: Staking,
    post: Staking,
    caller: u64,
    amount: u64,
) -> bool {
    &&& same_config_round(pre, post)
    &&& post.is_candidate_spec(caller)
    &&& post.candidate_bond(caller) == pre.candidate_bond(caller) - amount
    &&& post.status_of(caller) == pre.status_of(caller)
    &&& post.total_nominated_of(caller) == pre.total_nominated_of(caller)
    &&& post.backers(caller) == pre.backers(caller)
    &&& candidates_same_except(pre, post, caller)
    &&& post.nominators@ == pre.nominators@
    &&& post.free_of(caller) == pre.free_of(caller) + amount
    &&& post.reserved_of(caller) == pre.reserved_of(caller) - amount
    &&& balances_same_except(pre, post, caller)
}

impl Staking {
    /// Registers the caller as an active candidate, reserving `bond`.
    pub fn join_candidates(&mut self, caller: u64, bond: u64) -> (r: Result<(), StakingError>)
        requires
            old(self).wf(),
        ensures
            final(self).wf(),
            r == join_candidates_check(*old(self), caller, bond),
            r is Err ==> *final(self) == *old(self),
            r is Ok ==> join_candidates_ok(*old(self), *final(self), caller, bond),
    {
        if self.candidates.contains_key(&caller) {
            return Err(StakingError::AlreadyCandidate);
        }
        if bond < self.min_collator_stake {
            return Err(StakingError::BondBelowMinimum);
        }
        let bal = self.balance(caller);
        if bal.free < bond {
            return Err(StakingError::InsufficientFunds);
        }
        proof {
            assert(old(self).account_wf(caller));
        }
        self.balances.insert(
            caller,
            AccountBalance { free: bal.free - bond, reserved: bal.reserved + bond },
        );
        self.candidates.insert(
            caller,
            Candidate {
                bond,
                nominators: Vec::new(),
                total_nominated: 0,
                status: CollatorStatus::Active,
            },
        );
        proof {
            let pre = *old(self);
            let post = *self;
            assert forall|a: u64| #[trigger] post.account_wf(a) by {
                assert(pre.account_wf(a));
                if a == caller {
                    assert(post.stake_of(a) == pre.stake_of(a) + bond);
                } else {
                    assert(post.free_of(a) == pre.free_of(a));
                    assert(post.reserved_of(a) == pre.reserved_of(a));
                    assert(post.stake_of(a) == pre.stake_of(a));
                }
            }
            assert forall|c: u64| post.candidates@.contains_key(c) implies post.candidate_wf(
                c,
            ) by {
                let list = post.candidates@[c].nominators@;
                if c == caller {
                    assert(list =~= Seq::<Bond>::empty());
                    assert(total_amount(list) == 0);
                } else {
                    assert(pre.candidate_wf(c));
                    assert forall|n: u64, a: u64| #[trigger]
                        has_entry(list, n, a) implies post.is_nominator_spec(n) && has_entry(
                        post.nominations_of(n),
                        c,
                        a,
                    ) by {
                        assert(has_entry(pre.candidates@[c].nominators@, n, a));
                        assert(post.nominations_of(n) == pre.nominations_of(n));
                    }
                }
            }
            assert forall|n: u64| post.nominators@.contains_key(n) implies post.nominator_wf(
                n,
            ) by {
                assert(pre.nominator_wf(n));
                let noms = post.nominators@[n].nominations@;
                assert forall|c: u64, a: u64| #[trigger]
                    has_entry(noms, c, a) implies a >= post.min_nominator_stake
                    && post.is_candidate_spec(c) && has_entry(post.backers(c), n, a) by {
                    assert(has_entry(pre.nominators@[n].nominations@, c, a));
                    assert(pre.is_candidate_spec(c));
                    assert(post.backers(c) == pre.backers(c));
                }
            }
            assert(post.backers(caller) =~= Seq::<Bond>::empty());
        }
        Ok(())
    }

    /// Moves the caller's status to `st`, everything else untouched.
    fn set_status(&mut self, caller: u64, st: CollatorStatus)
        requires
            old(self).wf(),
            old(self).is_candidate_spec(caller),
        ensures
            final(self).wf(),
            status_change_ok(*old(self), *final(self), caller, st),
    {
        let mut cand = self.candidates.remove(&caller).unwrap();
        cand.status = st;
        self.candidates.insert(caller, cand);
        proof {
            let pre = *old(self);
            let post = *self;
            assert(post.candidates@ =~= pre.candidates@.insert(caller, post.candidates@[caller]));
            assert forall|a: u64| #[trigger] post.account_wf(a) by {
                assert(pre.account_wf(a));
                assert(post.stake_of(a) == pre.stake_of(a));
            }
            assert(pre.candidate_wf(caller));
            lemma_wf_candidate_value_update(pre, post, caller);
        }
    }

    /// Requests to leave candidacy: the status becomes `Leaving` with the
    /// round at which the exit delay elapses.  Funds stay reserved until
    /// an external sweep completes the exit.
    pub fn leave_candidates(&mut self, caller: u64) -> (r: Result<(), StakingError>)
        requires
            old(self).wf(),
        ensures
            final(self).wf(),
            r == leave_candidates_check(*old(self), caller),
            r is Err ==> *final(self) == *old(self),
            r is Ok ==> status_change_ok(
                *old(self),
                *final(self),
                caller,
                CollatorStatus::Leaving(sat_add(old(self).round, old(self).exit_delay)),
            ),
    {
        let status = match self.collator_state(caller) {
            Some(cs) => cs.status,
            None => return Err(StakingError::NotCandidate),
        };
        match status {
            CollatorStatus::Leaving(_) => return Err(StakingError::AlreadyLeaving),
            _ => {},
        }
        let exit: u64 = if self.round > u64::MAX - self.exit_delay {
            u64::MAX
        } else {
            self.round + self.exit_delay
        };
        self.set_status(caller, CollatorStatus::Leaving(exit));
        Ok(())
    }

    /// Takes an active candidate out of block-producer selection; its
    /// funds and nominations are untouched.
    pub fn go_offline(&mut self, caller: u64) -> (r: Result<(), StakingError>)
        requires
            old(self).wf(),
        ensures
            final(self).wf(),
            r == go_offline_check(*old(self), caller),
            r is Err ==> *final(self) == *old(self),
            r is Ok ==> status_change_ok(
                *old(self),
                *final(self),
                caller,
                CollatorStatus::Offline,
            ),
    {
        let status = match self.collator_state(caller) {
            Some(cs) => cs.status,
            None => return Err(StakingError::NotCandidate),
        };
        match status {
            CollatorStatus::Leaving(_) => return Err(StakingError::AlreadyLeaving),
            CollatorStatus::Offline => return Err(StakingError::AlreadyOffline),
            CollatorStatus::Active => {},
        }
        self.set_status(caller, CollatorStatus::Offline);
        Ok(())
    }

    /// Brings an offline candidate back into block-producer selection.
    pub fn go_online(&mut self, caller: u64) -> (r: Result<(), StakingError>)
        requires
            old(self).wf(),
        ensures
            final(self).wf(),
            r == go_online_check(*old(self), caller),
            r is Err ==> *final(self) == *old(self),
            r is Ok ==> status_change_ok(*old(self), *final(self), caller, CollatorStatus::Active),
    {
        let status = match self.collator_state(caller) {
            Some(cs) => cs.status,
            None => return Err(StakingError::NotCandidate),
        };
        match status {
            CollatorStatus::Leaving(_) => return Err(StakingError::AlreadyLeaving),
            CollatorStatus::Active => return Err(StakingError::AlreadyActive),
            CollatorStatus::Offline => {},
        }
        self.set_status(caller, CollatorStatus::Active);
        Ok(())
    }

    /// Reserves `amount` more from the caller and grows its self-bond.
    pub fn candidate_bond_more(&mut self, caller: u64, amount: u64) -> (r: Result<
        (),
        StakingError,
    >)
        requires
            old(self).wf(),
        ensures
            final(self).wf(),
            r == candidate_bond_more_check(*old(self), caller, amount),
            r is Err ==> *final(self) == *old(self),
            r is Ok ==> candidate_bond_more_ok(*old(self), *final(self), caller, amount),
    {
        if !self.candidates.contains_key(&caller) {
            return Err(StakingError::NotCandidate);
        }
        let bal = self.balance(caller);
        if bal.free < amount {
            return Err(StakingError::InsufficientFunds);
        }
        proof {
            assert(old(self).account_wf(caller));
            assert(old(self).candidate_wf(caller));
            crate::bonds::lemma_total_nonneg(old(self).backers(caller));
        }
        let mut cand = self.candidates.remove(&caller).unwrap();
        cand.bond = cand.bond + amount;
        self.candidates.insert(caller, cand);
        self.balances.insert(
            caller,
            AccountBalance { free: bal.free - amount, reserved: bal.reserved + amount },
        );
        proof {
            let pre = *old(self);
            let post = *self;
            assert(post.candidates@ =~= pre.candidates@.insert(caller, post.candidates@[caller]));
            assert forall|a: u64| #[trigger] post.account_wf(a) by {
                assert(pre.account_wf(a));
                if a == caller {
                    assert(post.stake_of(a) == pre.stake_of(a) + amount);
                } else {
                    assert(post.free_of(a) == pre.free_of(a));
                    assert(post.reserved_of(a) == pre.reserved_of(a));
                    assert(post.stake_of(a) == pre.stake_of(a));
                }
            }
            lemma_wf_candidate_value_update(pre, post, caller);
        }
        Ok(())
    }

    /// Unreserves `amount` back to the caller and shrinks its self-bond,
    /// which must stay at or above the minimum collator stake.
    pub fn candidate_bond_less(&mut self, caller: u64, amount: u64) -> (r: Result<
        (),
        StakingError,
    >)
        requires
            old(self).wf(),
        ensures
            final(self).wf(),
            r == candidate_bond_less_check(*old(self), caller, amount),
            r is Err ==> *final(self) == *old(self),
            r is Ok ==> candidate_bond_less_ok(*old(self), *final(self), caller, amount),
    {
        let bond = match self.collator_state(caller) {
            Some(cs) => cs.bond,
            None => return Err(StakingError::NotCandidate),
        };
        if bond < amount || bond - amount < self.min_collator_stake {
            return Err(StakingError::BondBelowMinimum);
        }
        proof {
            assert(old(self).account_wf(caller));
            assert(old(self).candidate_wf(caller));
            crate::bonds::lemma_total_nonneg(old(self).backers(caller));
        }
        let bal = self.balance(caller);
        let mut cand = self.candidates.remove(&caller).unwrap();
        cand.bond = cand.bond - amount;
        self.candidates.insert(caller, cand);
        self.balances.insert(
            caller,
            AccountBalance { free: bal.free + amount, reserved: bal.reserved - amount },
        );
        proof {
            let pre = *old(self);
            let post = *self;
            assert(post.candidates@ =~= pre.candidates@.insert(caller, post.candidates@[caller]));
            assert forall|a: u64| #[trigger] post.account_wf(a) by {
                assert(pre.account_wf(a));
                if a == caller {
                    assert(post.stake_of(a) == pre.stake_of(a) - amount);
                } else {
                    assert(post.free_of(a) == pre.free_of(a));
                    assert(post.reserved_of(a) == pre.reserved_of(a));
                    assert(post.stake_of(a) == pre.stake_of(a));
                }
            }
            lemma_wf_candidate_value_update(pre, post, caller);
        }
        Ok(())
    }
}

} // verus!
