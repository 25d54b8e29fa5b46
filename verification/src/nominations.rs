//! The nomination ledger: creating, adjusting and revoking nominations,
//! and the all-or-nothing exit of a nominator.
//!
//! As in the candidate module, each operation is specified by a `_check`
//! function deciding success or the exact error from the pre-state, and
//! an `_ok` predicate relating pre- and post-state of a successful call.

use vstd::prelude::*;

use crate::bonds::{
    distinct_owners, find_owner, has_entry, has_owner, lemma_amount_congruence, lemma_entry_amount,
    lemma_entry_le_total, lemma_push_entries, lemma_remove_entries, lemma_total_nonneg,
    lemma_total_push, lemma_total_remove, lemma_total_update, lemma_update_entries, Bond,
};
use crate::state::{
    balances_same_except, candidates_same_except, nominators_same_except, same_config_round,
    Staking,
};
use crate::types::{AccountBalance, StakingError};

verus! {

broadcast use vstd::std_specs::hash::group_hash_axioms;

/// The amount `n` has bonded to `c`, or zero if the pair does not exist.
pub open spec fn nomination_amount_or0(s: Staking, n: u64, c: u64) -> int {
    if s.has_nomination(n, c) {
        s.nomination_amount(n, c) as int
    } else {
        0
    }
}

/// Decides `nominate`: the target must be a registered candidate, the
/// pair must be new, the bond must reach the minimum nominator stake,
/// the caller must have that much free balance, and the collator's
/// nominated total must stay representable.
pub open spec fn nominate_check(s: Staking, caller: u64, collator: u64, bond: u64) -> Result<
    (),
    StakingError,
> {
    if !s.is_candidate_spec(collator) {
        Err(StakingError::CandidateDNE)
    } else if s.has_nomination(caller, collator) {
        Err(StakingError::AlreadyNominated)
    } else if bond < s.min_nominator_stake {
        Err(StakingError::BondBelowMinimum)
    } else if s.free_of(caller) < bond {
        Err(StakingError::InsufficientFunds)
    } else if s.total_nominated_of(collator) + bond > u64::MAX {
        Err(StakingError::InsufficientFunds)
    } else {
        Ok(())
    }
}

/// Effect of a successful `nominate`: the pair `(caller, collator)` is
/// appended on both sides of the ledger with amount `bond`, both cached
/// totals grow by `bond`, and `bond` moves from the caller's free to its
/// reserved balance.  Nothing else changes.
pub open spec fn nominate_ok(
    pre: Staking,
    post: Staking,
    caller: u64,
    collator: u64,
    bond: u64,
) -> bool {
    &&& same_config_round(pre, post)
    &&& post.is_nominator_spec(caller)
    &&& post.nominations_of(caller) == pre.nominations_of(caller).push(
        Bond { owner: collator, amount: bond },
    )
    &&& post.nominator_total(caller) == pre.nominator_total(caller) + bond
    &&& post.has_nomination(caller, collator)
    &&& post.nomination_amount(caller, collator) == bond
    &&& nominators_same_except(pre, post, caller)
    &&& post.is_candidate_spec(collator)
    &&& post.candidate_bond(collator) == pre.candidate_bond(collator)
    &&& post.status_of(collator) == pre.status_of(collator)
    &&& post.total_nominated_of(collator) == pre.total_nominated_of(collator) + bond
    &&& post.backers(collator) == pre.backers(collator).push(Bond { owner: caller, amount: bond })
    &&& candidates_same_except(pre, post, collator)
    &&& post.free_of(caller) == pre.free_of(caller) - bond
    &&& post.reserved_of(caller) == pre.reserved_of(caller) + bond
    &&& balances_same_except(pre, post, caller)
}

/// Effect of removing the single nomination at index `i` of the caller's
/// list: the pair leaves both sides of the ledger, both cached totals
/// shrink by its amount, and the amount moves from the caller's reserved
/// back to its free balance.
pub open spec fn revoke_one_ok(pre: Staking, post: Staking, caller: u64, i: int) -> bool {
    let b = pre.nominations_of(caller)[i];
    &&& same_config_round(pre, post)
    &&& post.nominations_of(caller) == pre.nominations_of(caller).remove(i)
    &&& post.is_nominator_spec(caller) == (pre.nominations_of(caller).len() > 1)
    &&& post.nominator_total(caller) == pre.nominator_total(caller) - b.amount
    &&& nominators_same_except(pre, post, caller)
    &&& post.is_candidate_spec(b.owner)
    &&& post.candidate_bond(b.owner) == pre.candidate_bond(b.owner)
    &&& post.status_of(b.owner) == pre.status_of(b.owner)
    &&& post.total_nominated_of(b.owner) == pre.total_nominated_of(b.owner) - b.amount
    &&& post.backers(b.owner).len() == pre.backers(b.owner).len() - 1
    &&& forall|n: u64, x: u64|
        #![trigger has_entry(post.backers(b.owner), n, x)]
        #![trigger has_entry(pre.backers(b.owner), n, x)]
        has_entry(post.backers(b.owner), n, x) <==> (n != caller && has_entry(
            pre.backers(b.owner),
            n,
            x,
        ))
    &&& candidates_same_except(pre, post, b.owner)
    &&& post.free_of(caller) == pre.free_of(caller) + b.amount
    &&& post.reserved_of(caller) == pre.reserved_of(caller) - b.amount
    &&& balances_same_except(pre, post, caller)
}

/// Decides `revoke_nomination`: the pair must exist.
pub open spec fn revoke_nomination_check(s: Staking, caller: u64, collator: u64) -> Result<
    (),
    StakingError,
> {
    if !s.has_nomination(caller, collator) {
        Err(StakingError::NominationDNE)
    } else {
        Ok(())
    }
}

/// Effect of a successful `revoke_nomination`, in terms of the bonded
/// amount `a` of the revoked pair.
pub open spec fn revoke_ok(pre: Staking, post: Staking, caller: u64, collator: u64) -> bool {
    let a = pre.nomination_amount(caller, collator);
    &&& same_config_round(pre, post)
    &&& !post.has_nomination(caller, collator)
    &&& forall|c2: u64, x: u64|
        #![trigger has_entry(post.nominations_of(caller), c2, x)]
        #![trigger has_entry(pre.nominations_of(caller), c2, x)]
        has_entry(post.nominations_of(caller), c2, x) <==> (c2 != collator && has_entry(
            pre.nominations_of(caller),
            c2,
            x,
        ))
    &&& post.is_nominator_spec(caller) == (pre.nominations_of(caller).len() > 1)
    &&& post.nominator_total(caller) == pre.nominator_total(caller) - a
    &&& nominators_same_except(pre, post, caller)
    &&& post.is_candidate_spec(collator)
    &&& post.candidate_bond(collator) == pre.candidate_bond(collator)
    &&& post.status_of(collator) == pre.status_of(collator)
    &&& post.total_nominated_of(collator) == pre.total_nominated_of(collator) - a
    &&& forall|n: u64, x: u64|
        #![trigger has_entry(post.backers(collator), n, x)]
        #![trigger has_entry(pre.backers(collator), n, x)]
        has_entry(post.backers(collator), n, x) <==> (n != caller && has_entry(
            pre.backers(collator),
            n,
            x,
        ))
    &&& candidates_same_except(pre, post, collator)
    &&& post.free_of(caller) == pre.free_of(caller) + a
    &&& post.reserved_of(caller) == pre.reserved_of(caller) - a
    &&& balances_same_except(pre, post, caller)
}

impl Staking {
    /// Bonds `bond` from the caller to back `collator`.
    pub fn nominate(&mut self, caller: u64, collator: u64, bond: u64) -> (r: Result<
        (),
        StakingError,
    >)
        requires
            old(self).wf(),
        ensures
            final(self).wf(),
            r == nominate_check(*old(self), caller, collator, bond),
            r is Err ==> *final(self) == *old(self),
            r is Ok ==> nominate_ok(*old(self), *final(self), caller, collator, bond),
    {
        if !self.candidates.contains_key(&collator) {
            return Err(StakingError::CandidateDNE);
        }
        if self.nominators.contains_key(&caller) {
            let nom_ref = self.nominators.get(&caller).unwrap();
            match find_owner(&nom_ref.nominations, collator) {
                Some(_i) => {
                    proof {
                        assert(old(self).nominations_of(caller)[_i as int].owner == collator);
                        assert(old(self).has_nomination(caller, collator));
                    }
                    return Err(StakingError::AlreadyNominated);
                },
                None => {},
            }
        }
        if bond < self.min_nominator_stake {
            return Err(StakingError::BondBelowMinimum);
        }
        let bal = self.balance(caller);
        if bal.free < bond {
            return Err(StakingError::InsufficientFunds);
        }
        let cand_total = self.candidates.get(&collator).unwrap().total_nominated;
        if cand_total > u64::MAX - bond {
            return Err(StakingError::InsufficientFunds);
        }
        let ghost pre = *old(self);
        let ghost s = pre.nominations_of(caller);
        let ghost nb = Bond { owner: collator, amount: bond };
        let ghost bb = pre.backers(collator);
        let ghost cb = Bond { owner: caller, amount: bond };
        proof {
            assert(pre.account_wf(caller));
            assert(pre.candidate_wf(collator));
            if pre.is_nominator_spec(caller) {
                assert(pre.nominator_wf(caller));
            }
            assert(!has_owner(s, collator));
            // `caller` cannot already stand in the backer list: its mirror
            // entry in the ledger would contradict the check above.
            if has_owner(bb, caller) {
                let k = choose|k: int| 0 <= k < bb.len() && bb[k].owner == caller;
                assert(has_entry(bb, caller, bb[k].amount));
                assert(has_entry(s, collator, bb[k].amount));
            }
            assert(!has_owner(bb, caller));
            lemma_push_entries(s, nb);
            lemma_push_entries(bb, cb);
            lemma_total_push(s, nb);
            lemma_total_push(bb, cb);
            lemma_total_nonneg(s);
        }
        let mut cand = self.candidates.remove(&collator).unwrap();
        cand.total_nominated = cand.total_nominated + bond;
        cand.nominators.push(Bond { owner: caller, amount: bond });
        self.candidates.insert(collator, cand);
        let mut nom = match self.nominators.remove(&caller) {
            Some(n) => n,
            None => crate::types::Nominator { nominations: Vec::new(), total: 0 },
        };
        nom.nominations.push(Bond { owner: collator, amount: bond });
        nom.total = nom.total + bond;
        self.nominators.insert(caller, nom);
        self.balances.insert(
            caller,
            AccountBalance { free: bal.free - bond, reserved: bal.reserved + bond },
        );
        proof {
            let post = *self;
            assert(post.nominations_of(caller) =~= s.push(nb));
            assert(post.backers(collator) =~= bb.push(cb));
            lemma_entry_amount(s.push(nb), collator, bond);
            assert forall|a: u64| #[trigger] post.account_wf(a) by {
                assert(pre.account_wf(a));
                if a == caller {
                    assert(post.stake_of(a) == pre.stake_of(a) + bond);
                } else {
                    assert(post.free_of(a) == pre.free_of(a));
                    assert(post.reserved_of(a) == pre.reserved_of(a));
                    assert(post.stake_of(a) == pre.stake_of(a));
                }
            }
            assert forall|c: u64| post.candidates@.contains_key(c) implies post.candidate_wf(
                c,
            ) by {
                assert(pre.candidates@.contains_key(c));
                assert(pre.candidate_wf(c));
                let list = post.candidates@[c].nominators@;
                if c == collator {
                    assert(list == bb.push(cb));
                    assert forall|n: u64, x: u64| #[trigger]
                        has_entry(list, n, x) implies post.is_nominator_spec(n) && has_entry(
                        post.nominations_of(n),
                        c,
                        x,
                    ) by {
                        if has_entry(bb, n, x) {
                            assert(n != caller);
                            assert(pre.is_nominator_spec(n));
                            assert(has_entry(pre.nominations_of(n), c, x));
                            assert(post.nominations_of(n) == pre.nominations_of(n));
                        } else {
                            assert(n == caller && x == bond);
                            assert(has_entry(s.push(nb), collator, bond));
                        }
                    }
                } else {
                    assert(list == pre.candidates@[c].nominators@);
                    assert forall|n: u64, x: u64| #[trigger]
                        has_entry(list, n, x) implies post.is_nominator_spec(n) && has_entry(
                        post.nominations_of(n),
                        c,
                        x,
                    ) by {
                        assert(has_entry(pre.candidates@[c].nominators@, n, x));
                        assert(pre.is_nominator_spec(n) && has_entry(pre.nominations_of(n), c, x));
                        if n == caller {
                            assert(post.nominations_of(caller) == s.push(nb));
                            assert(has_entry(s, c, x));
                        } else {
                            assert(post.nominations_of(n) == pre.nominations_of(n));
                        }
                    }
                }
            }
            assert forall|n: u64| post.nominators@.contains_key(n) implies post.nominator_wf(
                n,
            ) by {
                let noms = post.nominators@[n].nominations@;
                if n == caller {
                    assert(noms == s.push(nb));
                    assert forall|c: u64, x: u64| #[trigger]
                        has_entry(noms, c, x) implies x >= post.min_nominator_stake
                        && post.is_candidate_spec(c) && has_entry(post.backers(c), n, x) by {
                        if has_entry(s, c, x) {
                            assert(pre.is_nominator_spec(caller));
                            assert(pre.nominator_wf(caller));
                            assert(x >= pre.min_nominator_stake);
                            assert(pre.is_candidate_spec(c));
                            assert(has_entry(pre.backers(c), caller, x));
                            assert(c != collator);
                            assert(post.backers(c) == pre.backers(c));
                        } else {
                            assert(c == collator && x == bond);
                            assert(has_entry(bb.push(cb), caller, bond));
                        }
                    }
                } else {
                    assert(pre.nominators@.contains_key(n));
                    assert(pre.nominator_wf(n));
                    assert(noms == pre.nominators@[n].nominations@);
                    assert forall|c: u64, x: u64| #[trigger]
                        has_entry(noms, c, x) implies x >= post.min_nominator_stake
                        && post.is_candidate_spec(c) && has_entry(post.backers(c), n, x) by {
                        assert(has_entry(pre.nominators@[n].nominations@, c, x));
                        assert(pre.is_candidate_spec(c));
                        assert(has_entry(pre.backers(c), n, x));
                        if c == collator {
                            assert(has_entry(bb.push(cb), n, x));
                        } else {
                            assert(post.backers(c) == pre.backers(c));
                        }
                    }
                }
            }
        }
        Ok(())
    }

    /// Removes the nomination at index `i` of the caller's list,
    /// unreserving its amount and updating the backed collator.
    pub(crate) fn remove_nomination(&mut self, caller: u64, i: usize)
        requires
            old(self).wf(),
            old(self).is_nominator_spec(caller),
            i < old(self).nominations_of(caller).len(),
        ensures
            final(self).wf(),
            revoke_one_ok(*old(self), *final(self), caller, i as int),
    {
        let ghost pre = *old(self);
        let ghost s = pre.nominations_of(caller);
        proof {
            assert(pre.nominator_wf(caller));
            assert(pre.account_wf(caller));
            assert(has_entry(s, s[i as int].owner, s[i as int].amount));
        }
        let mut nom = self.nominators.remove(&caller).unwrap();
        let b = nom.nominations[i];
        let ghost bo = b.owner;
        proof {
            assert(pre.is_candidate_spec(bo));
            assert(has_entry(pre.backers(bo), caller, b.amount));
            assert(pre.candidate_wf(bo));
            lemma_entry_le_total(s, i as int);
            lemma_remove_entries(s, i as int);
            lemma_total_remove(s, i as int);
            lemma_total_nonneg(s.remove(i as int));
        }
        let _removed = nom.nominations.remove(i);
        nom.total = nom.total - b.amount;
        if nom.nominations.len() > 0 {
            self.nominators.insert(caller, nom);
        }
        let owner = b.owner;
        let mut cand = self.candidates.remove(&owner).unwrap();
        let j = match find_owner(&cand.nominators, caller) {
            Some(j) => j,
            None => {
                proof {
                    assert(false);
                }
                0
            },
        };
        let bj = cand.nominators[j];
        proof {
            let bb = pre.backers(bo);
            assert(has_entry(bb, caller, bj.amount));
            assert(has_entry(s, bo, bj.amount));
            lemma_entry_amount(s, bo, bj.amount);
            lemma_entry_amount(s, bo, b.amount);
            assert(bj.amount == b.amount);
            lemma_entry_le_total(bb, j as int);
            lemma_remove_entries(bb, j as int);
            lemma_total_remove(bb, j as int);
            lemma_total_nonneg(bb.remove(j as int));
        }
        let _removed_backer = cand.nominators.remove(j);
        cand.total_nominated = cand.total_nominated - bj.amount;
        self.candidates.insert(owner, cand);
        let bal = self.balance(caller);
        proof {
            // The removed amount is covered by the reserved balance: it is
            // part of the nominator total, which is part of the stake.
            assert(pre.reserved_of(caller) == pre.stake_of(caller));
            assert(b.amount <= pre.nominator_total(caller));
        }
        self.balances.insert(
            caller,
            AccountBalance { free: bal.free + b.amount, reserved: bal.reserved - b.amount },
        );
        proof {
            let post = *self;
            let t = s.remove(i as int);
            let bb = pre.backers(bo);
            let bt = bb.remove(j as int);
            assert(post.backers(bo) =~= bt);
            if t.len() > 0 {
                assert(post.nominations_of(caller) =~= t);
            } else {
                assert(post.nominations_of(caller) =~= t);
            }
            assert forall|a: u64| #[trigger] post.account_wf(a) by {
                assert(pre.account_wf(a));
                if a == caller {
                    assert(post.free_of(a) == pre.free_of(a) + b.amount);
                    assert(post.reserved_of(a) == pre.reserved_of(a) - b.amount);
                    assert(post.stake_of(a) == pre.stake_of(a) - b.amount);
                } else {
                    assert(post.free_of(a) == pre.free_of(a));
                    assert(post.reserved_of(a) == pre.reserved_of(a));
                    assert(post.stake_of(a) == pre.stake_of(a));
                }
            }
            assert forall|c: u64| post.candidates@.contains_key(c) implies post.candidate_wf(
                c,
            ) by {
                assert(pre.candidates@.contains_key(c));
                assert(pre.candidate_wf(c));
                let list = post.candidates@[c].nominators@;
                if c == bo {
                    assert(list == bt);
                    assert forall|n: u64, x: u64| #[trigger]
                        has_entry(list, n, x) implies post.is_nominator_spec(n) && has_entry(
                        post.nominations_of(n),
                        c,
                        x,
                    ) by {
                        assert(n != caller && has_entry(bb, n, x));
                        assert(pre.is_nominator_spec(n));
                        assert(has_entry(pre.nominations_of(n), c, x));
                        assert(post.nominations_of(n) == pre.nominations_of(n));
                    }
                } else {
                    assert(list == pre.candidates@[c].nominators@);
                    assert forall|n: u64, x: u64| #[trigger]
                        has_entry(list, n, x) implies post.is_nominator_spec(n) && has_entry(
                        post.nominations_of(n),
                        c,
                        x,
                    ) by {
                        assert(has_entry(pre.candidates@[c].nominators@, n, x));
                        assert(pre.is_nominator_spec(n));
                        assert(has_entry(pre.nominations_of(n), c, x));
                        if n == caller {
                            assert(c != bo);
                            assert(has_entry(t, c, x));
                            assert(post.nominations_of(caller) == t);
                            assert(t.len() > 0);
                            assert(post.is_nominator_spec(caller));
                        } else {
                            assert(post.nominations_of(n) == pre.nominations_of(n));
                        }
                    }
                }
            }
            assert forall|n: u64| post.nominators@.contains_key(n) implies post.nominator_wf(
                n,
            ) by {
                let noms = post.nominators@[n].nominations@;
                if n == caller {
                    assert(noms == t);
                    assert forall|c: u64, x: u64| #[trigger]
                        has_entry(noms, c, x) implies x >= post.min_nominator_stake
                        && post.is_candidate_spec(c) && has_entry(post.backers(c), n, x) by {
                        assert(c != bo && has_entry(s, c, x));
                        assert(x >= pre.min_nominator_stake);
                        assert(pre.is_candidate_spec(c));
                        assert(has_entry(pre.backers(c), caller, x));
                        assert(post.backers(c) == pre.backers(c));
                    }
                } else {
                    assert(pre.nominators@.contains_key(n));
                    assert(pre.nominator_wf(n));
                    assert(noms == pre.nominators@[n].nominations@);
                    assert forall|c: u64, x: u64| #[trigger]
                        has_entry(noms, c, x) implies x >= post.min_nominator_stake
                        && post.is_candidate_spec(c) && has_entry(post.backers(c), n, x) by {
                        assert(has_entry(pre.nominators@[n].nominations@, c, x));
                        assert(pre.is_candidate_spec(c));
                        assert(has_entry(pre.backers(c), n, x));
                        if c == bo {
                            assert(has_entry(bt, n, x));
                        } else {
                            assert(post.backers(c) == pre.backers(c));
                        }
                    }
                }
            }
        }
    }

    /// Removes the caller's nomination of `collator`, unreserving its
    /// bonded amount.
    pub fn revoke_nomination(&mut self, caller: u64, collator: u64) -> (r: Result<
        (),
        StakingError,
    >)
        requires
            old(self).wf(),
        ensures
            final(self).wf(),
            r == revoke_nomination_check(*old(self), caller, collator),
            r is Err ==> *final(self) == *old(self),
            r is Ok ==> revoke_ok(*old(self), *final(self), caller, collator),
    {
        let io = match self.nominators.get(&caller) {
            Some(nom) => find_owner(&nom.nominations, collator),
            None => None,
        };
        let i = match io {
            Some(i) => i,
            None => return Err(StakingError::NominationDNE),
        };
        let ghost pre = *old(self);
        let ghost s = pre.nominations_of(caller);
        proof {
            assert(s[i as int].owner == collator);
            assert(pre.has_nomination(caller, collator));
            assert(pre.nominator_wf(caller));
            assert(has_entry(s, collator, s[i as int].amount));
            lemma_entry_amount(s, collator, s[i as int].amount);
            lemma_remove_entries(s, i as int);
        }
        self.remove_nomination(caller, i);
        proof {
            assert(revoke_one_ok(pre, *self, caller, i as int));
        }
        Ok(())
    }
}

/// Decides `leave_nominators`: the caller must back at least one
/// collator.
pub open spec fn leave_nominators_check(s: Staking, caller: u64) -> Result<(), StakingError> {
    if !s.is_nominator_spec(caller) {
        Err(StakingError::NotNominator)
    } else {
        Ok(())
    }
}

/// Effect of a successful `leave_nominators`: every nomination of the
/// caller is removed, each backed collator's total shrinks by the amount
/// the caller had bonded to it, and the caller's whole nominated total
/// moves from reserved back to free.  All of this happens in one call:
/// there is no partially-released outcome.
pub open spec fn leave_nominators_ok(pre: Staking, post: Staking, caller: u64) -> bool {
    &&& same_config_round(pre, post)
    &&& !post.is_nominator_spec(caller)
    &&& nominators_same_except(pre, post, caller)
    &&& post.free_of(caller) == pre.free_of(caller) + pre.nominator_total(caller)
    &&& post.reserved_of(caller) == pre.reserved_of(caller) - pre.nominator_total(caller)
    &&& balances_same_except(pre, post, caller)
    &&& forall|c: u64| #[trigger] post.is_candidate_spec(c) == pre.is_candidate_spec(c)
    &&& forall|c: u64|
        pre.is_candidate_spec(c) ==> #[trigger] post.candidate_bond(c) == pre.candidate_bond(c)
            && post.status_of(c) == pre.status_of(c)
    &&& forall|c: u64|
        pre.is_candidate_spec(c) ==> #[trigger] post.total_nominated_of(c)
            == pre.total_nominated_of(c) - nomination_amount_or0(pre, caller, c)
    &&& forall|c: u64, n: u64, x: u64|
        #![trigger has_entry(post.backers(c), n, x)]
        #![trigger has_entry(pre.backers(c), n, x)]
        pre.is_candidate_spec(c) ==> (has_entry(post.backers(c), n, x) <==> (n != caller
            && has_entry(pre.backers(c), n, x)))
}

/// Decides `nominator_bond_more`.
pub open spec fn nominator_bond_more_check(
    s: Staking,
    caller: u64,
    collator: u64,
    amount: u64,
) -> Result<(), StakingError> {
    if !s.has_nomination(caller, collator) {
        Err(StakingError::NominationDNE)
    } else if s.free_of(caller) < amount {
        Err(StakingError::InsufficientFunds)
    } else if s.total_nominated_of(collator) + amount > u64::MAX {
        Err(StakingError::InsufficientFunds)
    } else {
        Ok(())
    }
}

/// Effect of a successful `nominator_bond_more`: the bonded amount of
/// the pair grows by `amount` on both sides of the ledger, both cached
/// totals grow with it, and `amount` moves from free to reserved.
pub open spec fn nominator_bond_more_ok(
    pre: Staking,
    post: Staking,
    caller: u64,
    collator: u64,
    amount: u64,
) -> bool {
    let a = pre.nomination_amount(caller, collator);
    &&& same_config_round(pre, post)
    &&& post.is_nominator_spec(caller)
    &&& post.has_nomination(caller, collator)
    &&& post.nomination_amount(caller, collator) == a + amount
    &&& forall|c2: u64, x: u64|
        #![trigger has_entry(post.nominations_of(caller), c2, x)]
        #![trigger has_entry(pre.nominations_of(caller), c2, x)]
        has_entry(post.nominations_of(caller), c2, x) <==> ((c2 != collator && has_entry(
            pre.nominations_of(caller),
            c2,
            x,
        )) || (c2 == collator && x == a + amount))
    &&& post.nominator_total(caller) == pre.nominator_total(caller) + amount
    &&& nominators_same_except(pre, post, caller)
    &&& post.is_candidate_spec(collator)
    &&& post.candidate_bond(collator) == pre.candidate_bond(collator)
    &&& post.status_of(collator) == pre.status_of(collator)
    &&& post.total_nominated_of(collator) == pre.total_nominated_of(collator) + amount
    &&& forall|n: u64, x: u64|
        #![trigger has_entry(post.backers(collator), n, x)]
        #![trigger has_entry(pre.backers(collator), n, x)]
        has_entry(post.backers(collator), n, x) <==> ((n != caller && has_entry(
            pre.backers(collator),
            n,
            x,
        )) || (n == caller && x == a + amount))
    &&& candidates_same_except(pre, post, collator)
    &&& post.free_of(caller) == pre.free_of(caller) - amount
    &&& post.reserved_of(caller) == pre.reserved_of(caller) + amount
    &&& balances_same_except(pre, post, caller)
}

/// Decides `nominator_bond_less`: the remaining bonded amount may not
/// drop below the minimum nominator stake (the floor is enforced; a
/// nominator wishing to exit the pair uses `revoke_nomination`).
pub open spec fn nominator_bond_less_check(
    s: Staking,
    caller: u64,
    collator: u64,
    amount: u64,
) -> Result<(), StakingError> {
    if !s.has_nomination(caller, collator) {
        Err(StakingError::NominationDNE)
    } else if s.nomination_amount(caller, collator) - amount < s.min_nominator_stake {
        Err(StakingError::BondBelowMinimum)
    } else {
        Ok(())
    }
}

/// Effect of a successful `nominator_bond_less`: the mirror image of
/// `nominator_bond_more_ok`, with `amount` unreserved.
pub open spec fn nominator_bond_less_ok(
    pre: Staking,
    post: Staking,
    caller: u64,
    collator: u64,
    amount: u64,
) -> bool {
    let a = pre.nomination_amount(caller, collator);
    &&& same_config_round(pre, post)
    &&& post.is_nominator_spec(caller)
    &&& post.has_nomination(caller, collator)
    &&& post.nomination_amount(caller, collator) == a - amount
    &&& forall|c2: u64, x: u64|
        #![trigger has_entry(post.nominations_of(caller), c2, x)]
        #![trigger has_entry(pre.nominations_of(caller), c2, x)]
        has_entry(post.nominations_of(caller), c2, x) <==> ((c2 != collator && has_entry(
            pre.nominations_of(caller),
            c2,
            x,
        )) || (c2 == collator && x == a - amount))
    &&& post.nominator_total(caller) == pre.nominator_total(caller) - amount
    &&& nominators_same_except(pre, post, caller)
    &&& post.is_candidate_spec(collator)
    &&& post.candidate_bond(collator) == pre.candidate_bond(collator)
    &&& post.status_of(collator) == pre.status_of(collator)
    &&& post.total_nominated_of(collator) == pre.total_nominated_of(collator) - amount
    &&& forall|n: u64, x: u64|
        #![trigger has_entry(post.backers(collator), n, x)]
        #![trigger has_entry(pre.backers(collator), n, x)]
        has_entry(post.backers(collator), n, x) <==> ((n != caller && has_entry(
            pre.backers(collator),
            n,
            x,
        )) || (n == caller && x == a - amount))
    &&& candidates_same_except(pre, post, collator)
    &&& post.free_of(caller) == pre.free_of(caller) + amount
    &&& post.reserved_of(caller) == pre.reserved_of(caller) - amount
    &&& balances_same_except(pre, post, caller)
}

impl Staking {
    /// Removes every nomination of the caller, all in one call: each
    /// backed collator is updated and the caller's whole nominated total
    /// is unreserved.
    pub fn leave_nominators(&mut self, caller: u64) -> (r: Result<(), StakingError>)
        requires
            old(self).wf(),
        ensures
            final(self).wf(),
            r == leave_nominators_check(*old(self), caller),
            r is Err ==> *final(self) == *old(self),
            r is Ok ==> leave_nominators_ok(*old(self), *final(self), caller),
    {
        if !self.nominators.contains_key(&caller) {
            return Err(StakingError::NotNominator);
        }
        let ghost pre = *old(self);
        let ghost s0 = pre.nominations_of(caller);
        proof {
            assert(pre.nominator_wf(caller));
            assert(self.nominations_of(caller) =~= s0.take(s0.len() as int));
        }
        let mut go: bool = true;
        while go
            invariant
                pre.wf(),
                pre.is_nominator_spec(caller),
                s0 == pre.nominations_of(caller),
                self.wf(),
                go == self.is_nominator_spec(caller),
                same_config_round(pre, *self),
                nominators_same_except(pre, *self, caller),
                self.nominations_of(caller).len() <= s0.len(),
                self.nominations_of(caller) == s0.take(
                    self.nominations_of(caller).len() as int,
                ),
                self.free_of(caller) == pre.free_of(caller) + pre.nominator_total(caller)
                    - self.nominator_total(caller),
                self.reserved_of(caller) == pre.reserved_of(caller) - pre.nominator_total(caller)
                    + self.nominator_total(caller),
                balances_same_except(pre, *self, caller),
                forall|c: u64| #[trigger] self.is_candidate_spec(c) == pre.is_candidate_spec(c),
                forall|c: u64|
                    pre.is_candidate_spec(c) ==> #[trigger] self.candidate_bond(c)
                        == pre.candidate_bond(c),
                forall|c: u64|
                    pre.is_candidate_spec(c) ==> #[trigger] self.status_of(c) == pre.status_of(c),
                forall|c: u64|
                    pre.is_candidate_spec(c) ==> #[trigger] self.total_nominated_of(c)
                        == pre.total_nominated_of(c) - (nomination_amount_or0(pre, caller, c)
                        - nomination_amount_or0(*self, caller, c)),
                forall|c: u64, n: u64, x: u64|
                    #![trigger has_entry(self.backers(c), n, x)]
                    #![trigger has_entry(pre.backers(c), n, x)]
                    pre.is_candidate_spec(c) && n != caller ==> (has_entry(self.backers(c), n, x)
                        <==> has_entry(pre.backers(c), n, x)),
            decreases self.nominations_of(caller).len(),
        {
            proof {
                assert(self.nominator_wf(caller));
            }
            let len = self.nominators.get(&caller).unwrap().nominations.len();
            let ghost cur = *self;
            let ghost k = cur.nominations_of(caller).len() as int;
            let ghost b = cur.nominations_of(caller)[k - 1];
            self.remove_nomination(caller, len - 1);
            proof {
                let next = *self;
                assert(revoke_one_ok(cur, next, caller, k - 1));
                assert(cur.nominator_wf(caller));
                assert(pre.nominator_wf(caller));
                assert(next.nominations_of(caller) =~= s0.take(k - 1));
                assert(b == s0[k - 1]);
                assert(has_entry(s0, b.owner, b.amount));
                lemma_entry_amount(s0, b.owner, b.amount);
                assert(has_entry(cur.nominations_of(caller), b.owner, b.amount));
                lemma_entry_amount(cur.nominations_of(caller), b.owner, b.amount);
                lemma_remove_entries(cur.nominations_of(caller), k - 1);
                assert(!has_owner(next.nominations_of(caller), b.owner));
                assert(nomination_amount_or0(next, caller, b.owner) == 0);
                assert(nomination_amount_or0(pre, caller, b.owner) == b.amount);
                assert(nomination_amount_or0(cur, caller, b.owner) == b.amount);
                assert forall|c: u64| #[trigger]
                    next.is_candidate_spec(c) == pre.is_candidate_spec(c) by {
                    assert(cur.is_candidate_spec(c) == pre.is_candidate_spec(c));
                    if c == b.owner {
                        assert(next.is_candidate_spec(c));
                        assert(cur.is_candidate_spec(c));
                    } else {
                        assert(cur.candidates@.contains_key(c) == next.candidates@.contains_key(
                            c,
                        ));
                    }
                }
                assert forall|c: u64|
                    pre.is_candidate_spec(c) implies #[trigger] next.candidate_bond(c)
                    == pre.candidate_bond(c) by {
                    assert(cur.candidate_bond(c) == pre.candidate_bond(c));
                    if c == b.owner {
                        assert(next.candidate_bond(c) == cur.candidate_bond(c));
                    } else {
                        assert(cur.is_candidate_spec(c));
                        assert(cur.candidates@.contains_key(c));
                        assert(next.candidates@.contains_key(c));
                        assert(next.candidates@[c] == cur.candidates@[c]);
                    }
                }
                assert forall|c: u64|
                    pre.is_candidate_spec(c) implies #[trigger] next.status_of(c)
                    == pre.status_of(c) by {
                    assert(cur.status_of(c) == pre.status_of(c));
                    if c == b.owner {
                        assert(next.status_of(c) == cur.status_of(c));
                    } else {
                        assert(cur.is_candidate_spec(c));
                        assert(cur.candidates@.contains_key(c));
                        assert(next.candidates@.contains_key(c));
                        assert(next.candidates@[c] == cur.candidates@[c]);
                    }
                }
                assert forall|c: u64|
                    pre.is_candidate_spec(c) implies #[trigger] next.total_nominated_of(c)
                    == pre.total_nominated_of(c) - (nomination_amount_or0(pre, caller, c)
                    - nomination_amount_or0(next, caller, c)) by {
                    assert(cur.total_nominated_of(c) == pre.total_nominated_of(c) - (
                    nomination_amount_or0(pre, caller, c) - nomination_amount_or0(
                        cur,
                        caller,
                        c,
                    )));
                    if c == b.owner {
                        assert(next.total_nominated_of(c) == cur.total_nominated_of(c) - b.amount);
                    } else {
                        assert(cur.is_candidate_spec(c));
                        assert(cur.candidates@.contains_key(c));
                        assert(next.candidates@.contains_key(c));
                        assert(next.candidates@[c] == cur.candidates@[c]);
                        assert(next.total_nominated_of(c) == cur.total_nominated_of(c));
                        assert(next.nominations_of(caller) == cur.nominations_of(caller).remove(
                            k - 1,
                        ));
                        assert(distinct_owners(next.nominations_of(caller)));
                        lemma_amount_congruence(
                            next.nominations_of(caller),
                            cur.nominations_of(caller),
                            c,
                        );
                        assert(nomination_amount_or0(next, caller, c) == nomination_amount_or0(
                            cur,
                            caller,
                            c,
                        ));
                    }
                }
                assert forall|c: u64, n: u64, x: u64|
                    pre.is_candidate_spec(c) && n != caller implies (#[trigger] has_entry(
                    next.backers(c),
                    n,
                    x,
                ) <==> has_entry(pre.backers(c), n, x)) by {
                    if c == b.owner {
                        assert(has_entry(next.backers(c), n, x) <==> (n != caller && has_entry(
                            cur.backers(c),
                            n,
                            x,
                        )));
                    } else {
                        assert(cur.is_candidate_spec(c));
                        assert(cur.candidates@.contains_key(c));
                        assert(next.candidates@.contains_key(c));
                        assert(next.candidates@[c] == cur.candidates@[c]);
                    }
                }
            }
            go = self.is_nominator(caller);
        }
        proof {
            let post = *self;
            assert(post.nominator_total(caller) == 0);
            assert forall|c: u64|
                pre.is_candidate_spec(c) implies #[trigger] post.total_nominated_of(c)
                == pre.total_nominated_of(c) - nomination_amount_or0(pre, caller, c) by {
                assert(nomination_amount_or0(post, caller, c) == 0);
            }
            assert forall|c: u64, n: u64, x: u64|
                pre.is_candidate_spec(c) implies (#[trigger] has_entry(post.backers(c), n, x)
                <==> (n != caller && has_entry(pre.backers(c), n, x))) by {
                if n == caller {
                    if has_entry(post.backers(c), caller, x) {
                        assert(post.is_candidate_spec(c) == pre.is_candidate_spec(c));
                        assert(post.candidates@.contains_key(c));
                        assert(post.candidate_wf(c));
                        assert(post.is_nominator_spec(caller));
                        assert(false);
                    }
                }
            }
        }
        Ok(())
    }

    /// Increases the caller's bond to `collator` by `amount`, reserving
    /// that much more.
    pub fn nominator_bond_more(&mut self, caller: u64, collator: u64, amount: u64) -> (r: Result<
        (),
        StakingError,
    >)
        requires
            old(self).wf(),
        ensures
            final(self).wf(),
            r == nominator_bond_more_check(*old(self), caller, collator, amount),
            r is Err ==> *final(self) == *old(self),
            r is Ok ==> nominator_bond_more_ok(*old(self), *final(self), caller, collator, amount),
    {
        let io = match self.nominators.get(&caller) {
            Some(nom) => find_owner(&nom.nominations, collator),
            None => None,
        };
        let i = match io {
            Some(i) => i,
            None => return Err(StakingError::NominationDNE),
        };
        let ghost pre = *old(self);
        let ghost s = pre.nominations_of(caller);
        proof {
            assert(s[i as int].owner == collator);
            assert(pre.has_nomination(caller, collator));
            assert(pre.nominator_wf(caller));
            assert(pre.account_wf(caller));
            assert(has_entry(s, collator, s[i as int].amount));
            lemma_entry_amount(s, collator, s[i as int].amount);
            assert(pre.is_candidate_spec(collator));
            assert(pre.candidate_wf(collator));
            lemma_entry_le_total(s, i as int);
        }
        let bal = self.balance(caller);
        if bal.free < amount {
            return Err(StakingError::InsufficientFunds);
        }
        let cand_total = self.candidates.get(&collator).unwrap().total_nominated;
        if cand_total > u64::MAX - amount {
            return Err(StakingError::InsufficientFunds);
        }
        let mut nom = self.nominators.remove(&caller).unwrap();
        let b = nom.nominations[i];
        let ghost a = b.amount;
        let ghost nb = Bond { owner: collator, amount: (a + amount) as u64 };
        proof {
            lemma_update_entries(s, i as int, nb);
            lemma_total_update(s, i as int, nb);
        }
        nom.nominations[i] = Bond { owner: collator, amount: b.amount + amount };
        nom.total = nom.total + amount;
        self.nominators.insert(caller, nom);
        let mut cand = self.candidates.remove(&collator).unwrap();
        let j = match find_owner(&cand.nominators, caller) {
            Some(j) => j,
            None => {
                proof {
                    assert(has_entry(pre.backers(collator), caller, a));
                    assert(false);
                }
                0
            },
        };
        let bj = cand.nominators[j];
        let ghost bb = pre.backers(collator);
        let ghost cb = Bond { owner: caller, amount: (a + amount) as u64 };
        proof {
            assert(has_entry(bb, caller, bj.amount));
            assert(has_entry(s, collator, bj.amount));
            lemma_entry_amount(s, collator, bj.amount);
            assert(bj.amount == a);
            lemma_update_entries(bb, j as int, cb);
            lemma_total_update(bb, j as int, cb);
        }
        cand.nominators[j] = Bond { owner: caller, amount: bj.amount + amount };
        cand.total_nominated = cand.total_nominated + amount;
        self.candidates.insert(collator, cand);
        self.balances.insert(
            caller,
            AccountBalance { free: bal.free - amount, reserved: bal.reserved + amount },
        );
        proof {
            let post = *self;
            let s2 = s.update(i as int, nb);
            let b2 = bb.update(j as int, cb);
            assert(post.nominations_of(caller) =~= s2);
            assert(post.backers(collator) =~= b2);
            lemma_entry_amount(s2, collator, (a + amount) as u64);
            assert forall|acc: u64| #[trigger] post.account_wf(acc) by {
                assert(pre.account_wf(acc));
                if acc == caller {
                    assert(post.stake_of(acc) == pre.stake_of(acc) + amount);
                } else {
                    assert(post.free_of(acc) == pre.free_of(acc));
                    assert(post.reserved_of(acc) == pre.reserved_of(acc));
                    assert(post.stake_of(acc) == pre.stake_of(acc));
                }
            }
            assert forall|c: u64| post.candidates@.contains_key(c) implies post.candidate_wf(
                c,
            ) by {
                assert(pre.candidates@.contains_key(c));
                assert(pre.candidate_wf(c));
                let list = post.candidates@[c].nominators@;
                if c == collator {
                    assert(list == b2);
                    assert forall|n: u64, x: u64| #[trigger]
                        has_entry(list, n, x) implies post.is_nominator_spec(n) && has_entry(
                        post.nominations_of(n),
                        c,
                        x,
                    ) by {
                        if n != caller {
                            assert(has_entry(bb, n, x));
                            assert(pre.is_nominator_spec(n));
                            assert(has_entry(pre.nominations_of(n), c, x));
                            assert(post.nominations_of(n) == pre.nominations_of(n));
                        } else {
                            assert(x == (a + amount) as u64);
                            assert(has_entry(s2, collator, x));
                        }
                    }
                } else {
                    assert(list == pre.candidates@[c].nominators@);
                    assert forall|n: u64, x: u64| #[trigger]
                        has_entry(list, n, x) implies post.is_nominator_spec(n) && has_entry(
                        post.nominations_of(n),
                        c,
                        x,
                    ) by {
                        assert(has_entry(pre.candidates@[c].nominators@, n, x));
                        assert(pre.is_nominator_spec(n));
                        assert(has_entry(pre.nominations_of(n), c, x));
                        if n == caller {
                            assert(c != collator);
                            assert(has_entry(s2, c, x));
                        } else {
                            assert(post.nominations_of(n) == pre.nominations_of(n));
                        }
                    }
                }
            }
            assert forall|n: u64| post.nominators@.contains_key(n) implies post.nominator_wf(
                n,
            ) by {
                let noms = post.nominators@[n].nominations@;
                if n == caller {
                    assert(noms == s2);
                    assert forall|c: u64, x: u64| #[trigger]
                        has_entry(noms, c, x) implies x >= post.min_nominator_stake
                        && post.is_candidate_spec(c) && has_entry(post.backers(c), n, x) by {
                        if c != collator {
                            assert(has_entry(s, c, x));
                            assert(x >= pre.min_nominator_stake);
                            assert(pre.is_candidate_spec(c));
                            assert(has_entry(pre.backers(c), caller, x));
                            assert(post.backers(c) == pre.backers(c));
                        } else {
                            assert(x == (a + amount) as u64);
                            assert(a >= pre.min_nominator_stake);
                            assert(has_entry(b2, caller, x));
                        }
                    }
                } else {
                    assert(pre.nominators@.contains_key(n));
                    assert(pre.nominator_wf(n));
                    assert(noms == pre.nominators@[n].nominations@);
                    assert forall|c: u64, x: u64| #[trigger]
                        has_entry(noms, c, x) implies x >= post.min_nominator_stake
                        && post.is_candidate_spec(c) && has_entry(post.backers(c), n, x) by {
                        assert(has_entry(pre.nominators@[n].nominations@, c, x));
                        assert(pre.is_candidate_spec(c));
                        assert(has_entry(pre.backers(c), n, x));
                        if c == collator {
                            assert(has_entry(b2, n, x));
                        } else {
                            assert(post.backers(c) == pre.backers(c));
                        }
                    }
                }
            }
        }
        Ok(())
    }

    /// Decreases the caller's bond to `collator` by `amount`, unreserving
    /// that much; the remaining bond must stay at or above the minimum
    /// nominator stake.
    pub fn nominator_bond_less(&mut self, caller: u64, collator: u64, amount: u64) -> (r: Result<
        (),
        StakingError,
    >)
        requires
            old(self).wf(),
        ensures
            final(self).wf(),
            r == nominator_bond_less_check(*old(self), caller, collator, amount),
            r is Err ==> *final(self) == *old(self),
            r is Ok ==> nominator_bond_less_ok(*old(self), *final(self), caller, collator, amount),
    {
        let io = match self.nominators.get(&caller) {
            Some(nom) => find_owner(&nom.nominations, collator),
            None => None,
        };
        let i = match io {
            Some(i) => i,
            None => return Err(StakingError::NominationDNE),
        };
        let ghost pre = *old(self);
        let ghost s = pre.nominations_of(caller);
        proof {
            assert(s[i as int].owner == collator);
            assert(pre.has_nomination(caller, collator));
            assert(pre.nominator_wf(caller));
            assert(pre.account_wf(caller));
            assert(has_entry(s, collator, s[i as int].amount));
            lemma_entry_amount(s, collator, s[i as int].amount);
            assert(pre.is_candidate_spec(collator));
            assert(pre.candidate_wf(collator));
            lemma_entry_le_total(s, i as int);
        }
        let cur_amt = self.nominators.get(&caller).unwrap().nominations[i].amount;
        if cur_amt < amount || cur_amt - amount < self.min_nominator_stake {
            return Err(StakingError::BondBelowMinimum);
        }
        let mut nom = self.nominators.remove(&caller).unwrap();
        let b = nom.nominations[i];
        let ghost a = b.amount;
        let ghost nb = Bond { owner: collator, amount: (a - amount) as u64 };
        proof {
            lemma_update_entries(s, i as int, nb);
            lemma_total_update(s, i as int, nb);
        }
        nom.nominations[i] = Bond { owner: collator, amount: b.amount - amount };
        nom.total = nom.total - amount;
        self.nominators.insert(caller, nom);
        let mut cand = self.candidates.remove(&collator).unwrap();
        let j = match find_owner(&cand.nominators, caller) {
            Some(j) => j,
            None => {
                proof {
                    assert(has_entry(pre.backers(collator), caller, a));
                    assert(false);
                }
                0
            },
        };
        let bj = cand.nominators[j];
        let ghost bb = pre.backers(collator);
        let ghost cb = Bond { owner: caller, amount: (a - amount) as u64 };
        proof {
            assert(has_entry(bb, caller, bj.amount));
            assert(has_entry(s, collator, bj.amount));
            lemma_entry_amount(s, collator, bj.amount);
            assert(bj.amount == a);
            lemma_update_entries(bb, j as int, cb);
            lemma_total_update(bb, j as int, cb);
            lemma_entry_le_total(bb, j as int);
        }
        cand.nominators[j] = Bond { owner: caller, amount: bj.amount - amount };
        cand.total_nominated = cand.total_nominated - amount;
        self.candidates.insert(collator, cand);
        let bal = self.balance(caller);
        proof {
            assert(pre.reserved_of(caller) == pre.stake_of(caller));
            assert(a <= pre.nominator_total(caller));
        }
        self.balances.insert(
            caller,
            AccountBalance { free: bal.free + amount, reserved: bal.reserved - amount },
        );
        proof {
            let post = *self;
            let s2 = s.update(i as int, nb);
            let b2 = bb.update(j as int, cb);
            assert(post.nominations_of(caller) =~= s2);
            assert(post.backers(collator) =~= b2);
            lemma_entry_amount(s2, collator, (a - amount) as u64);
            assert forall|acc: u64| #[trigger] post.account_wf(acc) by {
                assert(pre.account_wf(acc));
                if acc == caller {
                    assert(post.stake_of(acc) == pre.stake_of(acc) - amount);
                } else {
                    assert(post.free_of(acc) == pre.free_of(acc));
                    assert(post.reserved_of(acc) == pre.reserved_of(acc));
                    assert(post.stake_of(acc) == pre.stake_of(acc));
                }
            }
            assert forall|c: u64| post.candidates@.contains_key(c) implies post.candidate_wf(
                c,
            ) by {
                assert(pre.candidates@.contains_key(c));
                assert(pre.candidate_wf(c));
                let list = post.candidates@[c].nominators@;
                if c == collator {
                    assert(list == b2);
                    assert forall|n: u64, x: u64| #[trigger]
                        has_entry(list, n, x) implies post.is_nominator_spec(n) && has_entry(
                        post.nominations_of(n),
                        c,
                        x,
                    ) by {
                        if n != caller {
                            assert(has_entry(bb, n, x));
                            assert(pre.is_nominator_spec(n));
                            assert(has_entry(pre.nominations_of(n), c, x));
                            assert(post.nominations_of(n) == pre.nominations_of(n));
                        } else {
                            assert(x == (a - amount) as u64);
                            assert(has_entry(s2, collator, x));
                        }
                    }
                } else {
                    assert(list == pre.candidates@[c].nominators@);
                    assert forall|n: u64, x: u64| #[trigger]
                        has_entry(list, n, x) implies post.is_nominator_spec(n) && has_entry(
                        post.nominations_of(n),
                        c,
                        x,
                    ) by {
                        assert(has_entry(pre.candidates@[c].nominators@, n, x));
                        assert(pre.is_nominator_spec(n));
                        assert(has_entry(pre.nominations_of(n), c, x));
                        if n == caller {
                            assert(c != collator);
                            assert(has_entry(s2, c, x));
                        } else {
                            assert(post.nominations_of(n) == pre.nominations_of(n));
                        }
                    }
                }
            }
            assert forall|n: u64| post.nominators@.contains_key(n) implies post.nominator_wf(
                n,
            ) by {
                let noms = post.nominators@[n].nominations@;
                if n == caller {
                    assert(noms == s2);
                    assert forall|c: u64, x: u64| #[trigger]
                        has_entry(noms, c, x) implies x >= post.min_nominator_stake
                        && post.is_candidate_spec(c) && has_entry(post.backers(c), n, x) by {
                        if c != collator {
                            assert(has_entry(s, c, x));
                            assert(x >= pre.min_nominator_stake);
                            assert(pre.is_candidate_spec(c));
                            assert(has_entry(pre.backers(c), caller, x));
                            assert(post.backers(c) == pre.backers(c));
                        } else {
                            assert(x == (a - amount) as u64);
                            assert(has_entry(b2, caller, x));
                        }
                    }
                } else {
                    assert(pre.nominators@.contains_key(n));
                    assert(pre.nominator_wf(n));
                    assert(noms == pre.nominators@[n].nominations@);
                    assert forall|c: u64, x: u64| #[trigger]
                        has_entry(noms, c, x) implies x >= post.min_nominator_stake
                        && post.is_candidate_spec(c) && has_entry(post.backers(c), n, x) by {
                        assert(has_entry(pre.nominators@[n].nominations@, c, x));
                        assert(pre.is_candidate_spec(c));
                        assert(has_entry(pre.backers(c), n, x));
                        if c == collator {
                            assert(has_entry(b2, n, x));
                        } else {
                            assert(post.backers(c) == pre.backers(c));
                        }
                    }
                }
            }
        }
        Ok(())
    }
}

} // verus!
