//! The engine's stated laws, proved once over the specification model.
//!
//! The first three hold of every well-formed state (every state the
//! public operations can produce); the last relates two consecutive
//! successful operations through their postcondition predicates.

use vstd::prelude::*;

use crate::bonds::{has_entry, total_amount};
use crate::nominations::{nominate_ok, revoke_ok};
use crate::state::Staking;

verus! {

/// A candidate that backs nobody itself has exactly its self-bond
/// reserved on the currency ledger.  (An account that is at once a
/// candidate and a nominator reserves the sum of both roles, which is
/// why the nominator role is excluded here.)
pub proof fn lemma_candidate_reserved_matches_bond(s: Staking, a: u64)
    requires
        s.wf(),
        s.is_candidate_spec(a),
        !s.is_nominator_spec(a),
    ensures
        s.reserved_of(a) == s.candidate_bond(a),
{
    assert(s.account_wf(a));
}

/// A nominator that is itself no candidate has exactly the sum of its
/// nomination amounts reserved on the currency ledger.  (An account
/// that is at once a candidate and a nominator reserves the sum of both
/// roles, which is why the candidate role is excluded here.)
pub proof fn lemma_nominator_reserved_matches_nominations(s: Staking, n: u64)
    requires
        s.wf(),
        s.is_nominator_spec(n),
        !s.is_candidate_spec(n),
    ensures
        s.reserved_of(n) == s.nominator_total(n),
        s.nominator_total(n) == total_amount(s.nominations_of(n)),
{
    assert(s.account_wf(n));
    assert(s.nominator_wf(n));
}

/// A candidate's cached `total_nominated` is the sum over its backer
/// list, and that list enumerates exactly the nomination-ledger entries
/// whose collator is this candidate: there is no double-counting and no
/// forgotten nomination.
pub proof fn lemma_total_nominated_matches_ledger(s: Staking, c: u64)
    requires
        s.wf(),
        s.is_candidate_spec(c),
    ensures
        s.total_nominated_of(c) == total_amount(s.backers(c)),
        forall|n: u64, x: u64|
            #![trigger has_entry(s.backers(c), n, x)]
            #![trigger has_entry(s.nominations_of(n), c, x)]
            has_entry(s.backers(c), n, x) <==> (s.is_nominator_spec(n) && has_entry(
                s.nominations_of(n),
                c,
                x,
            )),
{
    assert(s.candidate_wf(c));
    assert forall|n: u64, x: u64|
        has_entry(s.backers(c), n, x) <==> (s.is_nominator_spec(n) && has_entry(
            s.nominations_of(n),
            c,
            x,
        )) by {
        if s.is_nominator_spec(n) && has_entry(s.nominations_of(n), c, x) {
            assert(s.nominator_wf(n));
        }
    }
}

/// Nominating a collator and then revoking that same nomination returns
/// the caller's free and reserved balances to their values before the
/// nomination, and leaves every other account's balances untouched
/// throughout.
pub proof fn lemma_nominate_then_revoke_restores_balances(
    s0: Staking,
    s1: Staking,
    s2: Staking,
    caller: u64,
    collator: u64,
    bond: u64,
)
    requires
        nominate_ok(s0, s1, caller, collator, bond),
        revoke_ok(s1, s2, caller, collator),
    ensures
        s2.free_of(caller) == s0.free_of(caller),
        s2.reserved_of(caller) == s0.reserved_of(caller),
        forall|a: u64|
            a != caller ==> #[trigger] s2.free_of(a) == s0.free_of(a) && s2.reserved_of(a)
                == s0.reserved_of(a),
{
    assert(s1.nomination_amount(caller, collator) == bond);
    assert forall|a: u64|
        a != caller implies #[trigger] s2.free_of(a) == s0.free_of(a) && s2.reserved_of(a)
        == s0.reserved_of(a) by {
        assert(s1.free_of(a) == s0.free_of(a));
        assert(s2.free_of(a) == s1.free_of(a));
        assert(s1.reserved_of(a) == s0.reserved_of(a));
        assert(s2.reserved_of(a) == s1.reserved_of(a));
    }
}

} // verus!
