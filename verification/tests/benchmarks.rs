//! One scenario per public operation: each drives the operation on a
//! freshly funded account and checks its observable effect.

use parachain_staking::Staking;

const MIN_COLLATOR_STAKE: u64 = 10;
const MIN_NOMINATOR_STAKE: u64 = 5;
const EXIT_DELAY: u64 = 2;

/// Default balance amount is minimum collator stake.
fn default_balance() -> u64 {
    MIN_COLLATOR_STAKE
}

fn new_test_state() -> Staking {
    Staking::new(MIN_COLLATOR_STAKE, MIN_NOMINATOR_STAKE, EXIT_DELAY)
}

/// Create a funded user.
fn create_funded_user(st: &mut Staking, who: u64, extra: u64) -> u64 {
    st.set_free_balance(who, default_balance() + extra);
    who
}

/// Create a funded collator, bonded at the minimum collator stake.
fn create_funded_collator(st: &mut Staking, who: u64, extra: u64) -> u64 {
    let user = create_funded_user(st, who, extra);
    st.join_candidates(user, default_balance()).unwrap();
    user
}

#[test]
fn bench_join_candidates() {
    let mut st = new_test_state();
    let caller = create_funded_user(&mut st, 1, 0);
    let min_collator_stk = default_balance();
    st.join_candidates(caller, min_collator_stk).unwrap();
    assert!(st.is_candidate(caller));
}

#[test]
fn bench_leave_candidates() {
    let mut st = new_test_state();
    let caller = create_funded_collator(&mut st, 1, 0);
    st.leave_candidates(caller).unwrap();
    assert!(st.collator_state(caller).unwrap().is_leaving());
}

#[test]
fn bench_go_offline() {
    let mut st = new_test_state();
    let caller = create_funded_collator(&mut st, 1, 0);
    st.go_offline(caller).unwrap();
    assert!(!st.collator_state(caller).unwrap().is_active());
}

#[test]
fn bench_go_online() {
    let mut st = new_test_state();
    let caller = create_funded_collator(&mut st, 1, 0);
    st.go_offline(caller).unwrap();
    st.go_online(caller).unwrap();
    assert!(st.collator_state(caller).unwrap().is_active());
}

#[test]
fn bench_candidate_bond_more() {
    let mut st = new_test_state();
    let balance = default_balance();
    let caller = create_funded_collator(&mut st, 1, balance);
    st.candidate_bond_more(caller, balance).unwrap();
    let expected_bond = balance * 2;
    assert_eq!(st.reserved_balance(caller), expected_bond);
}

#[test]
fn bench_candidate_bond_less() {
    let mut st = new_test_state();
    let balance = default_balance();
    let caller = create_funded_collator(&mut st, 1, balance);
    st.candidate_bond_more(caller, balance).unwrap();
    st.candidate_bond_less(caller, balance).unwrap();
    assert_eq!(st.reserved_balance(caller), balance);
}

#[test]
fn bench_nominate() {
    let mut st = new_test_state();
    let collator = create_funded_collator(&mut st, 1, 0);
    let caller = create_funded_user(&mut st, 2, 0);
    let bond = MIN_NOMINATOR_STAKE;
    st.nominate(caller, collator, bond).unwrap();
    assert!(st.is_nominator(caller));
}

#[test]
fn bench_leave_nominators() {
    let mut st = new_test_state();
    let collator = create_funded_collator(&mut st, 1, 0);
    let caller = create_funded_user(&mut st, 2, 0);
    let bond = MIN_NOMINATOR_STAKE;
    st.nominate(caller, collator, bond).unwrap();
    st.leave_nominators(caller).unwrap();
    assert!(!st.is_nominator(caller));
}

#[test]
fn bench_revoke_nomination() {
    let mut st = new_test_state();
    let collator = create_funded_collator(&mut st, 1, 0);
    let caller = create_funded_user(&mut st, 2, 0);
    let bond = MIN_NOMINATOR_STAKE;
    st.nominate(caller, collator, bond).unwrap();
    st.revoke_nomination(caller, collator).unwrap();
    assert!(!st.is_nominator(caller));
}

#[test]
fn bench_nominator_bond_more() {
    let mut st = new_test_state();
    let collator = create_funded_collator(&mut st, 1, 0);
    let caller = create_funded_user(&mut st, 2, 0);
    let bond = MIN_NOMINATOR_STAKE;
    st.nominate(caller, collator, bond).unwrap();
    st.nominator_bond_more(caller, collator, bond).unwrap();
    let expected_bond = bond * 2;
    assert_eq!(st.reserved_balance(caller), expected_bond);
}

#[test]
fn bench_nominator_bond_less() {
    let mut st = new_test_state();
    let collator = create_funded_collator(&mut st, 1, 0);
    let caller = create_funded_user(&mut st, 2, 0);
    let total = default_balance();
    st.nominate(caller, collator, total).unwrap();
    let bond_less = MIN_NOMINATOR_STAKE;
    st.nominator_bond_less(caller, collator, bond_less).unwrap();
    let expected = total - bond_less;
    assert_eq!(st.reserved_balance(caller), expected);
}
