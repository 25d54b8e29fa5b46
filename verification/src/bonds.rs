//! Bond lists: sequences of `(owner, amount)` pairs with distinct owners.
//!
//! Both sides of the staking ledger are stored as vectors of [`Bond`]
//! values: a candidate keeps the list of its backers, and a nominator
//! keeps the list of collators it backs.  This module defines the
//! specification-level vocabulary for such lists (membership, the amount
//! bonded by an owner, the total amount) and the lemmas that track how
//! those notions evolve under `push`, `remove` and `update`.

use vstd::prelude::*;

verus! {

/// One entry of a bond list: `owner` has `amount` units bonded.
#[derive(Clone, Copy, PartialEq, Eq, Structural, Debug)]
pub struct Bond {
    pub owner: u64,
    pub amount: u64,
}

/// The list holds an entry for `owner` with exactly this `amount`.
pub open spec fn has_entry(s: Seq<Bond>, owner: u64, amount: u64) -> bool {
    exists|i: int| 0 <= i < s.len() && s[i].owner == owner && s[i].amount == amount
}

/// The list holds some entry for `owner`.
pub open spec fn has_owner(s: Seq<Bond>, owner: u64) -> bool {
    exists|i: int| 0 <= i < s.len() && s[i].owner == owner
}

/// An index at which `owner` appears (meaningful when `has_owner` holds).
pub open spec fn owner_index(s: Seq<Bond>, owner: u64) -> int {
    choose|i: int| 0 <= i < s.len() && s[i].owner == owner
}

/// The amount bonded by `owner` (meaningful when `has_owner` holds).
pub open spec fn amount_of(s: Seq<Bond>, owner: u64) -> u64 {
    s[owner_index(s, owner)].amount
}

/// No owner appears twice.
pub open spec fn distinct_owners(s: Seq<Bond>) -> bool {
    forall|i: int, j: int| 0 <= i < j < s.len() ==> s[i].owner != s[j].owner
}

/// The sum of all bonded amounts in the list.
pub open spec fn total_amount(s: Seq<Bond>) -> int
    decreases s.len(),
{
    if s.len() == 0 {
        0
    } else {
        total_amount(s.drop_last()) + s.last().amount
    }
}

pub proof fn lemma_total_nonneg(s: Seq<Bond>)
    ensures
        total_amount(s) >= 0,
    decreases s.len(),
{
    if s.len() > 0 {
        lemma_total_nonneg(s.drop_last());
    }
}

pub proof fn lemma_total_push(s: Seq<Bond>, b: Bond)
    ensures
        total_amount(s.push(b)) == total_amount(s) + b.amount,
{
    assert(s.push(b).drop_last() =~= s);
    assert(s.push(b).last() == b);
}

pub proof fn lemma_total_remove(s: Seq<Bond>, i: int)
    requires
        0 <= i < s.len(),
    ensures
        total_amount(s.remove(i)) == total_amount(s) - s[i].amount,
    decreases s.len(),
{
    if i == s.len() - 1 {
        assert(s.remove(i) =~= s.drop_last());
    } else {
        let t = s.remove(i);
        assert(t.drop_last() =~= s.drop_last().remove(i));
        lemma_total_remove(s.drop_last(), i);
        assert(t.last() == s.last());
    }
}

pub proof fn lemma_total_update(s: Seq<Bond>, i: int, b: Bond)
    requires
        0 <= i < s.len(),
    ensures
        total_amount(s.update(i, b)) == total_amount(s) - s[i].amount + b.amount,
    decreases s.len(),
{
    if i == s.len() - 1 {
        assert(s.update(i, b).drop_last() =~= s.drop_last());
        assert(s.update(i, b).last() == b);
    } else {
        let t = s.update(i, b);
        assert(t.drop_last() =~= s.drop_last().update(i, b));
        lemma_total_update(s.drop_last(), i, b);
        assert(t.last() == s.last());
    }
}

/// Every single entry is bounded by the total of the list.
pub proof fn lemma_entry_le_total(s: Seq<Bond>, i: int)
    requires
        0 <= i < s.len(),
    ensures
        s[i].amount <= total_amount(s),
{
    lemma_total_remove(s, i);
    lemma_total_nonneg(s.remove(i));
}

/// In a list with distinct owners, an entry pins down `amount_of`.
pub proof fn lemma_entry_amount(s: Seq<Bond>, owner: u64, amount: u64)
    requires
        distinct_owners(s),
        has_entry(s, owner, amount),
    ensures
        has_owner(s, owner),
        amount_of(s, owner) == amount,
{
    let i = choose|i: int| 0 <= i < s.len() && s[i].owner == owner && s[i].amount == amount;
    assert(0 <= i < s.len() && s[i].owner == owner);
    let j = owner_index(s, owner);
    assert(0 <= j < s.len() && s[j].owner == owner);
    if i != j {
        assert(s[i].owner != s[j].owner);
    }
}

/// How membership changes when an entry is pushed.
pub proof fn lemma_push_entries(s: Seq<Bond>, b: Bond)
    ensures
        forall|n: u64, a: u64|
            has_entry(s.push(b), n, a) <==> (has_entry(s, n, a) || (n == b.owner && a
                == b.amount)),
        forall|n: u64| has_owner(s.push(b), n) <==> (has_owner(s, n) || n == b.owner),
        distinct_owners(s) && !has_owner(s, b.owner) ==> distinct_owners(s.push(b)),
{
    let t = s.push(b);
    assert forall|n: u64, a: u64|
        has_entry(t, n, a) <==> (has_entry(s, n, a) || (n == b.owner && a == b.amount)) by {
        if has_entry(t, n, a) {
            let i = choose|i: int| 0 <= i < t.len() && t[i].owner == n && t[i].amount == a;
            if i < s.len() {
                assert(s[i] == t[i]);
                assert(has_entry(s, n, a));
            } else {
                assert(t[i] == b);
            }
        }
        if has_entry(s, n, a) {
            let i = choose|i: int| 0 <= i < s.len() && s[i].owner == n && s[i].amount == a;
            assert(t[i] == s[i]);
            assert(has_entry(t, n, a));
        }
        if n == b.owner && a == b.amount {
            assert(t[s.len() as int] == b);
            assert(has_entry(t, n, a));
        }
    }
    assert forall|n: u64| has_owner(t, n) <==> (has_owner(s, n) || n == b.owner) by {
        if has_owner(t, n) {
            let i = choose|i: int| 0 <= i < t.len() && t[i].owner == n;
            if i < s.len() {
                assert(s[i] == t[i]);
                assert(has_owner(s, n));
            } else {
                assert(t[i] == b);
            }
        }
        if has_owner(s, n) {
            let i = choose|i: int| 0 <= i < s.len() && s[i].owner == n;
            assert(t[i] == s[i]);
            assert(has_owner(t, n));
        }
        if n == b.owner {
            assert(t[s.len() as int] == b);
            assert(has_owner(t, n));
        }
    }
    if distinct_owners(s) && !has_owner(s, b.owner) {
        assert forall|i: int, j: int| 0 <= i < j < t.len() implies t[i].owner != t[j].owner by {
            if j < s.len() {
                assert(t[i] == s[i] && t[j] == s[j]);
            } else {
                assert(t[j] == b);
                assert(t[i] == s[i]);
                assert(!(s[i].owner == b.owner));
            }
        }
    }
}

/// How membership changes when the entry at index `i` is removed.
pub proof fn lemma_remove_entries(s: Seq<Bond>, i: int)
    requires
        distinct_owners(s),
        0 <= i < s.len(),
    ensures
        forall|n: u64, a: u64|
            has_entry(s.remove(i), n, a) <==> (n != s[i].owner && has_entry(s, n, a)),
        forall|n: u64| has_owner(s.remove(i), n) <==> (n != s[i].owner && has_owner(s, n)),
        distinct_owners(s.remove(i)),
{
    let t = s.remove(i);
    let o = s[i].owner;
    assert forall|j: int| 0 <= j < t.len() implies t[j] == (if j < i {
        s[j]
    } else {
        s[j + 1]
    }) by {}
    assert forall|n: u64, a: u64|
        has_entry(t, n, a) <==> (n != o && has_entry(s, n, a)) by {
        if has_entry(t, n, a) {
            let j = choose|j: int| 0 <= j < t.len() && t[j].owner == n && t[j].amount == a;
            let k: int = if j < i {
                j
            } else {
                j + 1
            };
            assert(s[k] == t[j]);
            assert(has_entry(s, n, a));
            if n == o {
                assert(s[k].owner == s[i].owner && k != i);
                assert(false);
            }
        }
        if n != o && has_entry(s, n, a) {
            let k = choose|k: int| 0 <= k < s.len() && s[k].owner == n && s[k].amount == a;
            let j: int = if k < i {
                k
            } else {
                k - 1
            };
            assert(k != i);
            assert(t[j] == s[k]);
            assert(has_entry(t, n, a));
        }
    }
    assert forall|n: u64| has_owner(t, n) <==> (n != o && has_owner(s, n)) by {
        if has_owner(t, n) {
            let j = choose|j: int| 0 <= j < t.len() && t[j].owner == n;
            let k: int = if j < i {
                j
            } else {
                j + 1
            };
            assert(s[k] == t[j]);
            assert(has_owner(s, n));
            if n == o {
                assert(s[k].owner == s[i].owner && k != i);
                assert(false);
            }
        }
        if n != o && has_owner(s, n) {
            let k = choose|k: int| 0 <= k < s.len() && s[k].owner == n;
            let j: int = if k < i {
                k
            } else {
                k - 1
            };
            assert(k != i);
            assert(t[j] == s[k]);
            assert(has_owner(t, n));
        }
    }
}

/// How membership changes when the entry at index `i` keeps its owner but
/// takes a new amount.
pub proof fn lemma_update_entries(s: Seq<Bond>, i: int, b: Bond)
    requires
        distinct_owners(s),
        0 <= i < s.len(),
        b.owner == s[i].owner,
    ensures
        forall|n: u64, a: u64|
            has_entry(s.update(i, b), n, a) <==> ((n != b.owner && has_entry(s, n, a)) || (n
                == b.owner && a == b.amount)),
        forall|n: u64| has_owner(s.update(i, b), n) <==> has_owner(s, n),
        distinct_owners(s.update(i, b)),
{
    let t = s.update(i, b);
    assert forall|n: u64, a: u64|
        has_entry(t, n, a) <==> ((n != b.owner && has_entry(s, n, a)) || (n == b.owner && a
            == b.amount)) by {
        if has_entry(t, n, a) {
            let j = choose|j: int| 0 <= j < t.len() && t[j].owner == n && t[j].amount == a;
            if j == i {
                assert(t[j] == b);
            } else {
                assert(t[j] == s[j]);
                assert(has_entry(s, n, a));
                if n == b.owner {
                    assert(s[j].owner == s[i].owner && j != i);
                    assert(false);
                }
            }
        }
        if n != b.owner && has_entry(s, n, a) {
            let j = choose|j: int| 0 <= j < s.len() && s[j].owner == n && s[j].amount == a;
            assert(j != i);
            assert(t[j] == s[j]);
            assert(has_entry(t, n, a));
        }
        if n == b.owner && a == b.amount {
            assert(t[i] == b);
            assert(has_entry(t, n, a));
        }
    }
    assert forall|n: u64| has_owner(t, n) <==> has_owner(s, n) by {
        if has_owner(t, n) {
            let j = choose|j: int| 0 <= j < t.len() && t[j].owner == n;
            if j == i {
                assert(s[i].owner == n);
            } else {
                assert(t[j] == s[j]);
            }
            assert(has_owner(s, n));
        }
        if has_owner(s, n) {
            let j = choose|j: int| 0 <= j < s.len() && s[j].owner == n;
            if j == i {
                assert(t[i] == b);
            } else {
                assert(t[j] == s[j]);
            }
            assert(has_owner(t, n));
        }
    }
    assert forall|p: int, q: int| 0 <= p < q < t.len() implies t[p].owner != t[q].owner by {
        assert(t[p].owner == s[p].owner);
        assert(t[q].owner == s[q].owner);
    }
}

/// Two lists with distinct owners that agree on membership for `o` agree
/// on whether `o` owns an entry and on its amount.
pub proof fn lemma_amount_congruence(s1: Seq<Bond>, s2: Seq<Bond>, o: u64)
    requires
        distinct_owners(s1),
        distinct_owners(s2),
        forall|x: u64| #[trigger] has_entry(s1, o, x) <==> has_entry(s2, o, x),
    ensures
        has_owner(s1, o) == has_owner(s2, o),
        has_owner(s1, o) ==> amount_of(s1, o) == amount_of(s2, o),
{
    if has_owner(s1, o) {
        let i = choose|i: int| 0 <= i < s1.len() && s1[i].owner == o;
        assert(has_entry(s1, o, s1[i].amount));
        assert(has_entry(s2, o, s1[i].amount));
        lemma_entry_amount(s1, o, s1[i].amount);
        lemma_entry_amount(s2, o, s1[i].amount);
    }
    if has_owner(s2, o) {
        let i = choose|i: int| 0 <= i < s2.len() && s2[i].owner == o;
        assert(has_entry(s2, o, s2[i].amount));
        assert(has_entry(s1, o, s2[i].amount));
    }
}

/// Finds the index of the entry owned by `owner`, if any.
pub fn find_owner(v: &Vec<Bond>, owner: u64) -> (r: Option<usize>)
    ensures
        match r {
            Some(i) => i < v@.len() && v@[i as int].owner == owner,
            None => !has_owner(v@, owner),
        },
{
    let mut i: usize = 0;
    while i < v.len()
        invariant
            i <= v@.len(),
            forall|j: int| 0 <= j < i ==> v@[j].owner != owner,
        decreases v@.len() - i,
    {
        if v[i].owner == owner {
            return Some(i);
        }
        i = i + 1;
    }
    None
}

} // verus!
