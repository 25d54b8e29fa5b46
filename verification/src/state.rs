//! The staking state: currency ledger, candidate registry and nomination
//! ledger, owned together by one [`Staking`] value.
//!
//! The specification model is given by spec accessors (`free_of`,
//! `candidate_bond`, `nominations_of`, ...) and the well-formedness
//! predicate [`Staking::wf`], which every operation requires and
//! re-establishes.  `wf` ties the three stores together:
//!
//! * each candidate's cached `total_nominated` is the sum of its backers'
//!   bonds, and each recorded backer is mirrored in the nomination ledger;
//! * each nominator's cached `total` is the sum of its nominations, each
//!   nomination meets the minimum stake, targets a registered candidate,
//!   and is mirrored in that candidate's backer list;
//! * each account's reserved balance equals its self-bond (if a
//!   candidate) plus the sum of its nominations (if a nominator), and its
//!   total balance fits in the balance type.

use std::collections::HashMap;

use vstd::prelude::*;

use crate::bonds::{amount_of, distinct_owners, has_entry, has_owner, total_amount, Bond};
use crate::types::{AccountBalance, Candidate, CollatorState, CollatorStatus, Nominator};

verus! {

broadcast use vstd::std_specs::hash::group_hash_axioms;

/// The whole engine state.  The configuration constants (minimum stakes
/// and the exit delay, in rounds) are consumed at construction; the
/// current round is advanced by the external scheduler.
pub struct Staking {
    pub min_collator_stake: u64,
    pub min_nominator_stake: u64,
    pub exit_delay: u64,
    pub round: u64,
    pub balances: HashMap<u64, AccountBalance>,
    pub candidates: HashMap<u64, Candidate>,
    pub nominators: HashMap<u64, Nominator>,
}

/// `a + b`, capped at the largest representable round.
pub open spec fn sat_add(a: u64, b: u64) -> u64 {
    if a + b > u64::MAX {
        u64::MAX
    } else {
        (a + b) as u64
    }
}

impl Staking {
    /// The spendable balance of an account.
    pub open spec fn free_of(self, a: u64) -> u64 {
        if self.balances@.contains_key(a) {
            self.balances@[a].free
        } else {
            0
        }
    }

    /// The reserved (bonded) balance of an account.
    pub open spec fn reserved_of(self, a: u64) -> u64 {
        if self.balances@.contains_key(a) {
            self.balances@[a].reserved
        } else {
            0
        }
    }

    /// The account is registered in the candidate registry.
    pub open spec fn is_candidate_spec(self, a: u64) -> bool {
        self.candidates@.contains_key(a)
    }

    /// The self-bond of a registered candidate.
    pub open spec fn candidate_bond(self, a: u64) -> u64
        recommends
            self.is_candidate_spec(a),
    {
        self.candidates@[a].bond
    }

    /// The lifecycle status of a registered candidate.
    pub open spec fn status_of(self, a: u64) -> CollatorStatus
        recommends
            self.is_candidate_spec(a),
    {
        self.candidates@[a].status
    }

    /// The cached sum of all bonds backing a registered candidate.
    pub open spec fn total_nominated_of(self, a: u64) -> u64
        recommends
            self.is_candidate_spec(a),
    {
        self.candidates@[a].total_nominated
    }

    /// The backer list of a registered candidate.
    pub open spec fn backers(self, a: u64) -> Seq<Bond>
        recommends
            self.is_candidate_spec(a),
    {
        self.candidates@[a].nominators@
    }

    /// The account currently backs at least one collator.
    pub open spec fn is_nominator_spec(self, a: u64) -> bool {
        self.nominators@.contains_key(a)
    }

    /// The nomination list of an account (empty if it is no nominator).
    pub open spec fn nominations_of(self, n: u64) -> Seq<Bond> {
        if self.nominators@.contains_key(n) {
            self.nominators@[n].nominations@
        } else {
            Seq::<Bond>::empty()
        }
    }

    /// The cached sum of an account's nominations (zero if none).
    pub open spec fn nominator_total(self, n: u64) -> u64 {
        if self.nominators@.contains_key(n) {
            self.nominators@[n].total
        } else {
            0
        }
    }

    /// The pair `(n, c)` exists in the nomination ledger.
    pub open spec fn has_nomination(self, n: u64, c: u64) -> bool {
        has_owner(self.nominations_of(n), c)
    }

    /// The amount `n` has bonded to `c` (meaningful when the pair exists).
    pub open spec fn nomination_amount(self, n: u64, c: u64) -> u64 {
        amount_of(self.nominations_of(n), c)
    }

    /// Everything the engine has locked for an account: its self-bond
    /// plus the sum of its nominations.
    pub open spec fn stake_of(self, a: u64) -> int {
        (if self.candidates@.contains_key(a) {
            self.candidates@[a].bond as int
        } else {
            0
        }) + (if self.nominators@.contains_key(a) {
            self.nominators@[a].total as int
        } else {
            0
        })
    }

    /// Well-formedness of one candidate record, including its mirror in
    /// the nomination ledger.
    pub open spec fn candidate_wf(self, c: u64) -> bool
        recommends
            self.is_candidate_spec(c),
    {
        let cand = self.candidates@[c];
        &&& cand.bond >= self.min_collator_stake
        &&& distinct_owners(cand.nominators@)
        &&& cand.total_nominated == total_amount(cand.nominators@)
        &&& forall|n: u64, a: u64|
            #[trigger] has_entry(cand.nominators@, n, a) ==> self.is_nominator_spec(n)
                && has_entry(self.nominations_of(n), c, a)
    }

    /// Well-formedness of one nominator record, including its mirror in
    /// the candidate registry.
    pub open spec fn nominator_wf(self, n: u64) -> bool
        recommends
            self.is_nominator_spec(n),
    {
        let nom = self.nominators@[n];
        &&& nom.nominations@.len() > 0
        &&& distinct_owners(nom.nominations@)
        &&& nom.total == total_amount(nom.nominations@)
        &&& forall|c: u64, a: u64|
            #[trigger] has_entry(nom.nominations@, c, a) ==> a >= self.min_nominator_stake
                && self.is_candidate_spec(c) && has_entry(self.backers(c), n, a)
    }

    /// The currency ledger agrees with the registry for one account, and
    /// the account's total balance is representable.
    pub open spec fn account_wf(self, a: u64) -> bool {
        &&& self.reserved_of(a) == self.stake_of(a)
        &&& self.free_of(a) + self.reserved_of(a) <= u64::MAX
    }

    /// The global invariant of the engine.
    pub open spec fn wf(self) -> bool {
        &&& forall|c: u64| self.candidates@.contains_key(c) ==> #[trigger] self.candidate_wf(c)
        &&& forall|n: u64| self.nominators@.contains_key(n) ==> #[trigger] self.nominator_wf(n)
        &&& forall|a: u64| #[trigger] self.account_wf(a)
    }
}

/// The configuration constants agree.
pub open spec fn same_config(a: Staking, b: Staking) -> bool {
    &&& b.min_collator_stake == a.min_collator_stake
    &&& b.min_nominator_stake == a.min_nominator_stake
    &&& b.exit_delay == a.exit_delay
}

/// The configuration constants and the current round agree.
pub open spec fn same_config_round(a: Staking, b: Staking) -> bool {
    &&& same_config(a, b)
    &&& b.round == a.round
}

/// The candidate registries agree on every account but `x`.
pub open spec fn candidates_same_except(a: Staking, b: Staking, x: u64) -> bool {
    forall|c: u64|
        #![trigger a.candidates@.contains_key(c)]
        #![trigger b.candidates@.contains_key(c)]
        c != x ==> a.candidates@.contains_key(c) == b.candidates@.contains_key(c) && (
        a.candidates@.contains_key(c) ==> a.candidates@[c] == b.candidates@[c])
}

/// The nomination ledgers agree on every account but `x`.
pub open spec fn nominators_same_except(a: Staking, b: Staking, x: u64) -> bool {
    forall|n: u64|
        #![trigger a.nominators@.contains_key(n)]
        #![trigger b.nominators@.contains_key(n)]
        n != x ==> a.nominators@.contains_key(n) == b.nominators@.contains_key(n) && (
        a.nominators@.contains_key(n) ==> a.nominators@[n] == b.nominators@[n])
}

/// The currency ledgers agree on every account but `x`.
pub open spec fn balances_same_except(a: Staking, b: Staking, x: u64) -> bool {
    forall|y: u64|
        #![trigger a.free_of(y)]
        #![trigger b.free_of(y)]
        #![trigger a.reserved_of(y)]
        #![trigger b.reserved_of(y)]
        y != x ==> a.free_of(y) == b.free_of(y) && a.reserved_of(y) == b.reserved_of(y)
}

/// Re-establishes `wf` after one candidate record changed in a way that
/// touched neither its backer list nor the nomination ledger.
pub proof fn lemma_wf_candidate_value_update(pre: Staking, post: Staking, x: u64)
    requires
        pre.wf(),
        same_config(pre, post),
        pre.candidates@.contains_key(x),
        post.candidates@ == pre.candidates@.insert(x, post.candidates@[x]),
        post.candidates@.contains_key(x),
        post.candidates@[x].nominators@ == pre.candidates@[x].nominators@,
        post.candidates@[x].total_nominated == pre.candidates@[x].total_nominated,
        post.candidates@[x].bond >= post.min_collator_stake,
        post.nominators@ == pre.nominators@,
        forall|a: u64| #[trigger] post.account_wf(a),
    ensures
        post.wf(),
{
    assert forall|c: u64| post.candidates@.contains_key(c) implies post.candidate_wf(c) by {
        assert(pre.candidates@.contains_key(c));
        assert(pre.candidate_wf(c));
        let list = post.candidates@[c].nominators@;
        assert(list == pre.candidates@[c].nominators@);
        assert forall|n: u64, a: u64| #[trigger]
            has_entry(list, n, a) implies post.is_nominator_spec(n) && has_entry(
            post.nominations_of(n),
            c,
            a,
        ) by {
            assert(has_entry(pre.candidates@[c].nominators@, n, a));
            assert(post.nominations_of(n) == pre.nominations_of(n));
        }
    }
    assert forall|n: u64| post.nominators@.contains_key(n) implies post.nominator_wf(n) by {
        assert(pre.nominators@.contains_key(n));
        assert(pre.nominator_wf(n));
        let noms = post.nominators@[n].nominations@;
        assert(noms == pre.nominators@[n].nominations@);
        assert forall|c: u64, a: u64| #[trigger]
            has_entry(noms, c, a) implies a >= post.min_nominator_stake
            && post.is_candidate_spec(c) && has_entry(post.backers(c), n, a) by {
            assert(has_entry(pre.nominators@[n].nominations@, c, a));
            assert(pre.is_candidate_spec(c));
            assert(post.candidates@.contains_key(c));
            assert(post.backers(c) == pre.backers(c));
        }
    }
}

impl Staking {
    /// Creates an empty engine with the given configuration constants.
    /// No account holds any balance, and no candidate or nominator is
    /// registered.
    pub fn new(min_collator_stake: u64, min_nominator_stake: u64, exit_delay: u64) -> (r: Staking)
        ensures
            r.wf(),
            r.min_collator_stake == min_collator_stake,
            r.min_nominator_stake == min_nominator_stake,
            r.exit_delay == exit_delay,
            r.round == 0,
            r.balances@ == Map::<u64, AccountBalance>::empty(),
            r.candidates@ == Map::<u64, Candidate>::empty(),
            r.nominators@ == Map::<u64, Nominator>::empty(),
            forall|a: u64|
                #![trigger r.is_candidate_spec(a)]
                #![trigger r.is_nominator_spec(a)]
                !r.is_candidate_spec(a) && !r.is_nominator_spec(a),
            forall|a: u64|
                #![trigger r.free_of(a)]
                #![trigger r.reserved_of(a)]
                r.free_of(a) == 0 && r.reserved_of(a) == 0,
    {
        let r = Staking {
            min_collator_stake,
            min_nominator_stake,
            exit_delay,
            round: 0,
            balances: HashMap::new(),
            candidates: HashMap::new(),
            nominators: HashMap::new(),
        };
        proof {
            assert forall|a: u64| #[trigger] r.account_wf(a) by {
                assert(!r.balances@.contains_key(a));
                assert(!r.candidates@.contains_key(a));
                assert(!r.nominators@.contains_key(a));
            }
        }
        r
    }

    /// The account's record in the currency ledger (zeroes if absent).
    pub(crate) fn balance(&self, a: u64) -> (r: AccountBalance)
        ensures
            r.free == self.free_of(a),
            r.reserved == self.reserved_of(a),
    {
        match self.balances.get(&a) {
            Some(b) => *b,
            None => AccountBalance { free: 0, reserved: 0 },
        }
    }

    /// The spendable balance of an account.
    pub fn free_balance(&self, a: u64) -> (r: u64)
        ensures
            r == self.free_of(a),
    {
        self.balance(a).free
    }

    /// The reserved (bonded) balance of an account.
    pub fn reserved_balance(&self, a: u64) -> (r: u64)
        ensures
            r == self.reserved_of(a),
    {
        self.balance(a).reserved
    }

    /// Whether the account is registered as a candidate.
    pub fn is_candidate(&self, a: u64) -> (r: bool)
        ensures
            r == self.is_candidate_spec(a),
    {
        self.candidates.contains_key(&a)
    }

    /// Whether the account currently backs at least one collator.
    pub fn is_nominator(&self, a: u64) -> (r: bool)
        ensures
            r == self.is_nominator_spec(a),
    {
        self.nominators.contains_key(&a)
    }

    /// A snapshot of a candidate's bond, nominated total and status.
    pub fn collator_state(&self, a: u64) -> (r: Option<CollatorState>)
        ensures
            match r {
                Some(cs) => self.is_candidate_spec(a) && cs.bond == self.candidate_bond(a)
                    && cs.total_nominated == self.total_nominated_of(a) && cs.status
                    == self.status_of(a),
                None => !self.is_candidate_spec(a),
            },
    {
        match self.candidates.get(&a) {
            Some(c) => Some(
                CollatorState { bond: c.bond, total_nominated: c.total_nominated, status: c.status },
            ),
            None => None,
        }
    }

    /// The amount `nominator` has bonded to `collator`, if that pair
    /// exists in the nomination ledger.
    pub fn nomination_of(&self, nominator: u64, collator: u64) -> (r: Option<u64>)
        requires
            self.wf(),
        ensures
            match r {
                Some(a) => self.has_nomination(nominator, collator) && a == self.nomination_amount(
                    nominator,
                    collator,
                ),
                None => !self.has_nomination(nominator, collator),
            },
    {
        match self.nominators.get(&nominator) {
            Some(nom) => {
                match crate::bonds::find_owner(&nom.nominations, collator) {
                    Some(i) => {
                        let b = nom.nominations[i];
                        proof {
                            assert(self.nominator_wf(nominator));
                            assert(has_entry(self.nominations_of(nominator), collator, b.amount));
                            crate::bonds::lemma_entry_amount(
                                self.nominations_of(nominator),
                                collator,
                                b.amount,
                            );
                        }
                        Some(b.amount)
                    },
                    None => None,
                }
            },
            None => None,
        }
    }

    /// Sets the free balance of an account: the funding primitive of the
    /// currency model.  Reserved funds are untouched; the new total
    /// balance must stay representable.
    pub fn set_free_balance(&mut self, who: u64, amount: u64)
        requires
            old(self).wf(),
            amount + old(self).reserved_of(who) <= u64::MAX,
        ensures
            final(self).wf(),
            same_config_round(*old(self), *final(self)),
            final(self).candidates@ == old(self).candidates@,
            final(self).nominators@ == old(self).nominators@,
            final(self).free_of(who) == amount,
            final(self).reserved_of(who) == old(self).reserved_of(who),
            balances_same_except(*old(self), *final(self), who),
    {
        let reserved = self.reserved_balance(who);
        self.balances.insert(who, AccountBalance { free: amount, reserved });
        proof {
            let pre = *old(self);
            let post = *self;
            assert forall|a: u64| #[trigger] post.account_wf(a) by {
                assert(pre.account_wf(a));
                if a != who {
                    assert(post.free_of(a) == pre.free_of(a));
                    assert(post.reserved_of(a) == pre.reserved_of(a));
                }
                assert(post.stake_of(a) == pre.stake_of(a));
            }
            lemma_wf_maps_unchanged(pre, post);
        }
    }

    /// Advances the scheduler's round counter by one.
    pub fn advance_round(&mut self)
        requires
            old(self).wf(),
            old(self).round < u64::MAX,
        ensures
            final(self).wf(),
            same_config(*old(self), *final(self)),
            final(self).round == old(self).round + 1,
            final(self).candidates@ == old(self).candidates@,
            final(self).nominators@ == old(self).nominators@,
            final(self).balances@ == old(self).balances@,
    {
        self.round = self.round + 1;
        proof {
            let pre = *old(self);
            let post = *self;
            assert forall|a: u64| #[trigger] post.account_wf(a) by {
                assert(pre.account_wf(a));
            }
            lemma_wf_maps_unchanged(pre, post);
        }
    }
}

/// Re-establishes `wf` when neither registry map changed (only balances,
/// the round, or nothing at all).
pub proof fn lemma_wf_maps_unchanged(pre: Staking, post: Staking)
    requires
        pre.wf(),
        same_config(pre, post),
        post.candidates@ == pre.candidates@,
        post.nominators@ == pre.nominators@,
        forall|a: u64| #[trigger] post.account_wf(a),
    ensures
        post.wf(),
{
    assert forall|c: u64| post.candidates@.contains_key(c) implies post.candidate_wf(c) by {
        assert(pre.candidate_wf(c));
        let list = post.candidates@[c].nominators@;
        assert forall|n: u64, a: u64| #[trigger]
            has_entry(list, n, a) implies post.is_nominator_spec(n) && has_entry(
            post.nominations_of(n),
            c,
            a,
        ) by {
            assert(has_entry(pre.candidates@[c].nominators@, n, a));
            assert(post.nominations_of(n) == pre.nominations_of(n));
        }
    }
    assert forall|n: u64| post.nominators@.contains_key(n) implies post.nominator_wf(n) by {
        assert(pre.nominator_wf(n));
        let noms = post.nominators@[n].nominations@;
        assert forall|c: u64, a: u64| #[trigger]
            has_entry(noms, c, a) implies a >= post.min_nominator_stake && post.is_candidate_spec(
            c,
        ) && has_entry(post.backers(c), n, a) by {
            assert(has_entry(pre.nominators@[n].nominations@, c, a));
            assert(post.backers(c) == pre.backers(c));
        }
    }
}

} // verus!
