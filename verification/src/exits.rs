//! Completion of a candidate's exit.
//!
//! `leave_candidates` only marks a candidate as `Leaving`, recording the
//! round at which its exit delay elapses; all funds stay reserved.  Once
//! that round is reached, the external scheduler completes the exit with
//! [`Staking::execute_candidate_exit`]: every nomination backing the
//! candidate is removed and unreserved to its nominator, the registry
//! entry is destroyed, and the self-bond is unreserved.

use vstd::prelude::*;

use crate::bonds::{find_owner, has_entry, lemma_entry_amount, lemma_remove_entries};
use crate::nominations::{nomination_amount_or0, revoke_one_ok};
use crate::state::{candidates_same_except, same_config_round, Staking};
use crate::types::{AccountBalance, CollatorStatus};

verus! {

broadcast use vstd::std_specs::hash::group_hash_axioms;

/// Effect of completing the exit of `who`: the candidate entry is gone,
/// every ledger pair targeting `who` is gone while every other pair is
/// untouched, and each account got back exactly what it had bonded
/// toward `who` — its nomination amount, plus, for `who` itself, the
/// self-bond.
pub open spec fn execute_exit_ok(pre: Staking, post: Staking, who: u64) -> bool {
    &&& same_config_round(pre, post)
    &&& !post.is_candidate_spec(who)
    &&& candidates_same_except(pre, post, who)
    &&& forall|n: u64| !(#[trigger] post.has_nomination(n, who))
    &&& forall|n: u64, c2: u64, x: u64|
        #![trigger has_entry(post.nominations_of(n), c2, x)]
        #![trigger has_entry(pre.nominations_of(n), c2, x)]
        c2 != who ==> (has_entry(post.nominations_of(n), c2, x) <==> has_entry(
            pre.nominations_of(n),
            c2,
            x,
        ))
    &&& forall|n: u64| #[trigger]
        post.nominator_total(n) == pre.nominator_total(n) - nomination_amount_or0(pre, n, who)
    &&& forall|n: u64| #[trigger] post.is_nominator_spec(n) ==> pre.is_nominator_spec(n)
    &&& forall|a: u64|
        #![trigger post.free_of(a)]
        #![trigger post.reserved_of(a)]
        post.free_of(a) == pre.free_of(a) + nomination_amount_or0(pre, a, who) + (if a == who {
            pre.candidate_bond(who) as int
        } else {
            0
        }) && post.reserved_of(a) == pre.reserved_of(a) - nomination_amount_or0(pre, a, who) - (
        if a == who {
            pre.candidate_bond(who) as int
        } else {
            0
        })
}

impl Staking {
    /// Completes the exit of a `Leaving` candidate whose delay has
    /// elapsed.  Driven by the external scheduler, which guarantees the
    /// precondition from the data this engine exposes (status and exit
    /// round).
    pub fn execute_candidate_exit(&mut self, who: u64)
        requires
            old(self).wf(),
            old(self).is_candidate_spec(who),
            old(self).status_of(who) matches CollatorStatus::Leaving(due) && due <= old(
                self,
            ).round,
        ensures
            final(self).wf(),
            execute_exit_ok(*old(self), *final(self), who),
    {
        let ghost pre = *old(self);
        let mut blen: usize = self.candidates.get(&who).unwrap().nominators.len();
        while blen > 0
            invariant
                pre.wf(),
                pre.is_candidate_spec(who),
                self.wf(),
                self.is_candidate_spec(who),
                blen == self.backers(who).len(),
                same_config_round(pre, *self),
                candidates_same_except(pre, *self, who),
                self.candidate_bond(who) == pre.candidate_bond(who),
                self.status_of(who) == pre.status_of(who),
                forall|n: u64, c2: u64, x: u64|
                    #![trigger has_entry(self.nominations_of(n), c2, x)]
                    #![trigger has_entry(pre.nominations_of(n), c2, x)]
                    c2 != who ==> (has_entry(self.nominations_of(n), c2, x) <==> has_entry(
                        pre.nominations_of(n),
                        c2,
                        x,
                    )),
                forall|n: u64| #[trigger]
                    self.nominator_total(n) == pre.nominator_total(n) - (nomination_amount_or0(
                        pre,
                        n,
                        who,
                    ) - nomination_amount_or0(*self, n, who)),
                forall|n: u64| #[trigger] self.is_nominator_spec(n) ==> pre.is_nominator_spec(n),
                forall|a: u64|
                    #![trigger self.free_of(a)]
                    #![trigger self.reserved_of(a)]
                    self.free_of(a) == pre.free_of(a) + (nomination_amount_or0(pre, a, who)
                        - nomination_amount_or0(*self, a, who)) && self.reserved_of(a)
                        == pre.reserved_of(a) - (nomination_amount_or0(pre, a, who)
                        - nomination_amount_or0(*self, a, who)),
            decreases blen,
        {
            let backer = {
                let cand_ref = self.candidates.get(&who).unwrap();
                cand_ref.nominators[blen - 1]
            };
            let ghost cur = *self;
            let ghost nstar = backer.owner;
            proof {
                assert(cur.candidate_wf(who));
                assert(cur.backers(who)[blen - 1] == backer);
                assert(has_entry(cur.backers(who), backer.owner, backer.amount));
                assert(cur.is_nominator_spec(nstar));
                assert(has_entry(cur.nominations_of(nstar), who, backer.amount));
            }
            let nom_idx = {
                let nom_ref = self.nominators.get(&backer.owner).unwrap();
                match find_owner(&nom_ref.nominations, who) {
                    Some(i) => i,
                    None => {
                        proof {
                            assert(false);
                        }
                        0
                    },
                }
            };
            self.remove_nomination(backer.owner, nom_idx);
            blen = blen - 1;
            proof {
                let next = *self;
                assert(revoke_one_ok(cur, next, nstar, nom_idx as int));
                let b = cur.nominations_of(nstar)[nom_idx as int];
                assert(b.owner == who);
                assert(cur.nominator_wf(nstar));
                assert(has_entry(cur.nominations_of(nstar), who, b.amount));
                lemma_entry_amount(cur.nominations_of(nstar), who, backer.amount);
                lemma_entry_amount(cur.nominations_of(nstar), who, b.amount);
                assert(b.amount == backer.amount);
                assert(next.backers(who).len() == cur.backers(who).len() - 1);
                lemma_remove_entries(cur.nominations_of(nstar), nom_idx as int);
                assert(!next.has_nomination(nstar, who));
                assert(nomination_amount_or0(next, nstar, who) == 0);
                assert(nomination_amount_or0(cur, nstar, who) == b.amount);
                assert forall|a: u64|
                    a != nstar implies nomination_amount_or0(next, a, who)
                    == nomination_amount_or0(cur, a, who) by {
                    assert(cur.nominators@.contains_key(a) == next.nominators@.contains_key(a));
                    if cur.nominators@.contains_key(a) {
                        assert(next.nominators@[a] == cur.nominators@[a]);
                    }
                    assert(next.nominations_of(a) == cur.nominations_of(a));
                }
                assert forall|n: u64, c2: u64, x: u64|
                    c2 != who implies (#[trigger] has_entry(next.nominations_of(n), c2, x)
                    <==> has_entry(pre.nominations_of(n), c2, x)) by {
                    if n == nstar {
                        assert(has_entry(next.nominations_of(nstar), c2, x) <==> (c2 != who
                            && has_entry(cur.nominations_of(nstar), c2, x)));
                    } else {
                        assert(cur.nominators@.contains_key(n) == next.nominators@.contains_key(
                            n,
                        ));
                        if cur.nominators@.contains_key(n) {
                            assert(next.nominators@[n] == cur.nominators@[n]);
                        }
                        assert(next.nominations_of(n) == cur.nominations_of(n));
                    }
                }
                assert forall|n: u64| #[trigger]
                    next.nominator_total(n) == pre.nominator_total(n) - (nomination_amount_or0(
                        pre,
                        n,
                        who,
                    ) - nomination_amount_or0(next, n, who)) by {
                    assert(cur.nominator_total(n) == pre.nominator_total(n) - (
                    nomination_amount_or0(pre, n, who) - nomination_amount_or0(cur, n, who)));
                    if n == nstar {
                        assert(next.nominator_total(n) == cur.nominator_total(n) - b.amount);
                    } else {
                        assert(cur.nominators@.contains_key(n) == next.nominators@.contains_key(
                            n,
                        ));
                        if cur.nominators@.contains_key(n) {
                            assert(next.nominators@[n] == cur.nominators@[n]);
                        }
                        assert(next.nominator_total(n) == cur.nominator_total(n));
                        assert(nomination_amount_or0(next, n, who) == nomination_amount_or0(
                            cur,
                            n,
                            who,
                        ));
                    }
                }
                assert forall|a: u64|
                    next.free_of(a) == pre.free_of(a) + (nomination_amount_or0(pre, a, who)
                        - nomination_amount_or0(next, a, who)) && #[trigger] next.reserved_of(a)
                        == pre.reserved_of(a) - (nomination_amount_or0(pre, a, who)
                        - nomination_amount_or0(next, a, who)) by {
                    assert(cur.free_of(a) == pre.free_of(a) + (nomination_amount_or0(pre, a, who)
                        - nomination_amount_or0(cur, a, who)));
                    assert(cur.reserved_of(a) == pre.reserved_of(a) - (nomination_amount_or0(
                        pre,
                        a,
                        who,
                    ) - nomination_amount_or0(cur, a, who)));
                    if a == nstar {
                        assert(next.free_of(a) == cur.free_of(a) + b.amount);
                        assert(next.reserved_of(a) == cur.reserved_of(a) - b.amount);
                    } else {
                        assert(next.free_of(a) == cur.free_of(a));
                        assert(next.reserved_of(a) == cur.reserved_of(a));
                        assert(nomination_amount_or0(next, a, who) == nomination_amount_or0(
                            cur,
                            a,
                            who,
                        ));
                    }
                }
                assert forall|n: u64| #[trigger]
                    next.is_nominator_spec(n) implies pre.is_nominator_spec(n) by {
                    if n == nstar {
                        assert(cur.is_nominator_spec(nstar));
                    } else {
                        assert(cur.nominators@.contains_key(n) == next.nominators@.contains_key(
                            n,
                        ));
                        assert(cur.is_nominator_spec(n) ==> pre.is_nominator_spec(n));
                    }
                }
                assert forall|c: u64|
                    c != who implies (#[trigger] pre.candidates@.contains_key(c)
                    == next.candidates@.contains_key(c) && (pre.candidates@.contains_key(c)
                    ==> pre.candidates@[c] == next.candidates@[c])) by {
                    assert(pre.candidates@.contains_key(c) == cur.candidates@.contains_key(c));
                    assert(cur.candidates@.contains_key(c) == next.candidates@.contains_key(c));
                    if pre.candidates@.contains_key(c) {
                        assert(pre.candidates@[c] == cur.candidates@[c]);
                        assert(cur.candidates@[c] == next.candidates@[c]);
                    }
                }
            }
        }
        let ghost mid = *self;
        proof {
            assert(mid.candidate_wf(who));
            assert(mid.account_wf(who));
            assert forall|n: u64| !(#[trigger] mid.has_nomination(n, who)) by {
                if mid.has_nomination(n, who) {
                    assert(mid.is_nominator_spec(n));
                    assert(mid.nominator_wf(n));
                    let noms = mid.nominators@[n].nominations@;
                    let k = choose|k: int| 0 <= k < noms.len() && noms[k].owner == who;
                    assert(has_entry(noms, who, noms[k].amount));
                    assert(has_entry(mid.backers(who), n, noms[k].amount));
                    assert(false);
                }
            }
        }
        let cand = self.candidates.remove(&who).unwrap();
        let bal = self.balance(who);
        self.balances.insert(
            who,
            AccountBalance { free: bal.free + cand.bond, reserved: bal.reserved - cand.bond },
        );
        proof {
            let post = *self;
            assert forall|a: u64| #[trigger] post.account_wf(a) by {
                assert(mid.account_wf(a));
                if a == who {
                    assert(post.free_of(a) == mid.free_of(a) + cand.bond);
                    assert(post.reserved_of(a) == mid.reserved_of(a) - cand.bond);
                    assert(post.stake_of(a) == mid.stake_of(a) - cand.bond);
                } else {
                    assert(post.free_of(a) == mid.free_of(a));
                    assert(post.reserved_of(a) == mid.reserved_of(a));
                    assert(post.stake_of(a) == mid.stake_of(a));
                }
            }
            assert forall|c: u64| post.candidates@.contains_key(c) implies post.candidate_wf(
                c,
            ) by {
                assert(c != who);
                assert(mid.candidates@.contains_key(c));
                assert(mid.candidate_wf(c));
                assert(post.candidates@[c] == mid.candidates@[c]);
                let list = post.candidates@[c].nominators@;
                assert forall|n: u64, x: u64| #[trigger]
                    has_entry(list, n, x) implies post.is_nominator_spec(n) && has_entry(
                    post.nominations_of(n),
                    c,
                    x,
                ) by {
                    assert(has_entry(mid.candidates@[c].nominators@, n, x));
                    assert(mid.is_nominator_spec(n));
                    assert(post.nominations_of(n) == mid.nominations_of(n));
                }
            }
            assert forall|n: u64| post.nominators@.contains_key(n) implies post.nominator_wf(
                n,
            ) by {
                assert(mid.nominators@.contains_key(n));
                assert(mid.nominator_wf(n));
                let noms = post.nominators@[n].nominations@;
                assert(noms == mid.nominators@[n].nominations@);
                assert forall|c: u64, x: u64| #[trigger]
                    has_entry(noms, c, x) implies x >= post.min_nominator_stake
                    && post.is_candidate_spec(c) && has_entry(post.backers(c), n, x) by {
                    assert(has_entry(mid.nominators@[n].nominations@, c, x));
                    assert(mid.is_candidate_spec(c));
                    if c == who {
                        assert(mid.has_nomination(n, who));
                        assert(false);
                    }
                    assert(post.candidates@.contains_key(c));
                    assert(post.backers(c) == mid.backers(c));
                }
            }
            assert forall|n: u64| !(#[trigger] post.has_nomination(n, who)) by {
                assert(post.nominations_of(n) == mid.nominations_of(n));
                assert(!mid.has_nomination(n, who));
            }
            assert forall|n: u64, c2: u64, x: u64|
                c2 != who implies (#[trigger] has_entry(post.nominations_of(n), c2, x)
                <==> has_entry(pre.nominations_of(n), c2, x)) by {
                assert(post.nominations_of(n) == mid.nominations_of(n));
            }
            assert forall|n: u64| #[trigger]
                post.is_nominator_spec(n) implies pre.is_nominator_spec(n) by {
                assert(post.is_nominator_spec(n) == mid.is_nominator_spec(n));
                assert(mid.is_nominator_spec(n) ==> pre.is_nominator_spec(n));
            }
            assert forall|c: u64|
                c != who implies (#[trigger] pre.candidates@.contains_key(c)
                == post.candidates@.contains_key(c) && (pre.candidates@.contains_key(c)
                ==> pre.candidates@[c] == post.candidates@[c])) by {
                assert(pre.candidates@.contains_key(c) == mid.candidates@.contains_key(c));
                assert(mid.candidates@.contains_key(c) == post.candidates@.contains_key(c));
                if pre.candidates@.contains_key(c) {
                    assert(pre.candidates@[c] == mid.candidates@[c]);
                    assert(mid.candidates@[c] == post.candidates@[c]);
                }
            }
            assert forall|a: u64|
                #![trigger post.free_of(a)]
                #![trigger post.reserved_of(a)]
                post.free_of(a) == pre.free_of(a) + nomination_amount_or0(pre, a, who) + (if a
                    == who {
                    pre.candidate_bond(who) as int
                } else {
                    0
                }) && post.reserved_of(a) == pre.reserved_of(a) - nomination_amount_or0(
                    pre,
                    a,
                    who,
                ) - (if a == who {
                    pre.candidate_bond(who) as int
                } else {
                    0
                }) by {
                assert(mid.free_of(a) == pre.free_of(a) + (nomination_amount_or0(pre, a, who)
                    - nomination_amount_or0(mid, a, who)));
                assert(mid.reserved_of(a) == pre.reserved_of(a) - (nomination_amount_or0(
                    pre,
                    a,
                    who,
                ) - nomination_amount_or0(mid, a, who)));
                assert(!mid.has_nomination(a, who));
                assert(nomination_amount_or0(mid, a, who) == 0);
                if a != who {
                    assert(post.free_of(a) == mid.free_of(a));
                    assert(post.reserved_of(a) == mid.reserved_of(a));
                }
            }
            assert forall|n: u64| #[trigger]
                post.nominator_total(n) == pre.nominator_total(n) - nomination_amount_or0(
                    pre,
                    n,
                    who,
                ) by {
                assert(mid.nominator_total(n) == pre.nominator_total(n) - (nomination_amount_or0(
                    pre,
                    n,
                    who,
                ) - nomination_amount_or0(mid, n, who)));
                assert(nomination_amount_or0(mid, n, who) == 0);
                assert(post.nominator_total(n) == mid.nominator_total(n));
            }
        }
    }
}

} // verus!
