//! Scenario, boundary and error-path tests for the staking engine.

use parachain_staking::{CollatorStatus, Staking, StakingError};

const MIN_COLLATOR_STAKE: u64 = 10;
const MIN_NOMINATOR_STAKE: u64 = 5;
const EXIT_DELAY: u64 = 2;

fn new_test_state() -> Staking {
    Staking::new(MIN_COLLATOR_STAKE, MIN_NOMINATOR_STAKE, EXIT_DELAY)
}

fn funded(st: &mut Staking, who: u64, amount: u64) -> u64 {
    st.set_free_balance(who, amount);
    who
}

fn collator(st: &mut Staking, who: u64) -> u64 {
    funded(st, who, MIN_COLLATOR_STAKE);
    st.join_candidates(who, MIN_COLLATOR_STAKE).unwrap();
    who
}

#[test]
fn join_at_minimum_succeeds_one_below_fails() {
    let mut st = new_test_state();
    let a = funded(&mut st, 1, 20);
    let b = funded(&mut st, 2, 20);
    assert_eq!(
        st.join_candidates(a, MIN_COLLATOR_STAKE - 1),
        Err(StakingError::BondBelowMinimum)
    );
    assert!(!st.is_candidate(a));
    assert_eq!(st.reserved_balance(a), 0);
    assert_eq!(st.free_balance(a), 20);
    assert_eq!(st.join_candidates(b, MIN_COLLATOR_STAKE), Ok(()));
    assert!(st.is_candidate(b));
}

#[test]
fn join_reserves_exactly_the_bond() {
    let mut st = new_test_state();
    let a = funded(&mut st, 1, 10);
    st.join_candidates(a, 10).unwrap();
    assert!(st.is_candidate(a));
    assert_eq!(st.reserved_balance(a), 10);
    assert_eq!(st.free_balance(a), 0);
}

#[test]
fn leaving_keeps_funds_reserved() {
    let mut st = new_test_state();
    let a = collator(&mut st, 1);
    let reserved_before = st.reserved_balance(a);
    st.leave_candidates(a).unwrap();
    let state = st.collator_state(a).unwrap();
    assert!(state.is_leaving());
    assert_eq!(st.reserved_balance(a), reserved_before);
}

#[test]
fn leaving_records_the_exit_round() {
    let mut st = new_test_state();
    let a = collator(&mut st, 1);
    let b = collator(&mut st, 2);
    st.leave_candidates(a).unwrap();
    assert_eq!(
        st.collator_state(a).unwrap().status,
        CollatorStatus::Leaving(EXIT_DELAY)
    );
    st.advance_round();
    st.advance_round();
    st.advance_round();
    st.leave_candidates(b).unwrap();
    assert_eq!(
        st.collator_state(b).unwrap().status,
        CollatorStatus::Leaving(3 + EXIT_DELAY)
    );
}

#[test]
fn nominate_at_minimum_updates_collator_total() {
    let mut st = new_test_state();
    let a = collator(&mut st, 1);
    let b = funded(&mut st, 2, 10);
    st.nominate(b, a, MIN_NOMINATOR_STAKE).unwrap();
    assert!(st.is_nominator(b));
    assert_eq!(st.collator_state(a).unwrap().total_nominated, 5);
    assert_eq!(st.reserved_balance(b), 5);
    assert_eq!(st.nomination_of(b, a), Some(5));
}

#[test]
fn nominator_bond_more_updates_both_sides() {
    let mut st = new_test_state();
    let a = collator(&mut st, 1);
    let b = funded(&mut st, 2, 10);
    st.nominate(b, a, 5).unwrap();
    st.nominator_bond_more(b, a, 5).unwrap();
    assert_eq!(st.reserved_balance(b), 10);
    assert_eq!(st.collator_state(a).unwrap().total_nominated, 10);
    assert_eq!(st.nomination_of(b, a), Some(10));
}

#[test]
fn nominator_bond_less_keeps_the_floor() {
    let mut st = new_test_state();
    let a = collator(&mut st, 1);
    let b = funded(&mut st, 2, 10);
    st.nominate(b, a, 10).unwrap();
    st.nominator_bond_less(b, a, 5).unwrap();
    assert_eq!(st.nomination_of(b, a), Some(5));
    assert_eq!(
        st.nominator_bond_less(b, a, 1),
        Err(StakingError::BondBelowMinimum)
    );
    assert_eq!(st.nomination_of(b, a), Some(5));
}

#[test]
fn leave_nominators_releases_everything_at_once() {
    let mut st = new_test_state();
    let a = collator(&mut st, 1);
    let c = collator(&mut st, 2);
    let b = funded(&mut st, 3, 11);
    st.nominate(b, a, 5).unwrap();
    st.nominate(b, c, 6).unwrap();
    assert_eq!(st.reserved_balance(b), 11);
    st.leave_nominators(b).unwrap();
    assert!(!st.is_nominator(b));
    assert_eq!(st.reserved_balance(b), 0);
    assert_eq!(st.free_balance(b), 11);
    assert_eq!(st.collator_state(a).unwrap().total_nominated, 0);
    assert_eq!(st.collator_state(c).unwrap().total_nominated, 0);
    assert_eq!(st.nomination_of(b, a), None);
    assert_eq!(st.nomination_of(b, c), None);
}

#[test]
fn nominate_then_revoke_restores_balances() {
    let mut st = new_test_state();
    let a = collator(&mut st, 1);
    let b = funded(&mut st, 2, 9);
    let free_before = st.free_balance(b);
    let reserved_before = st.reserved_balance(b);
    st.nominate(b, a, 7).unwrap();
    st.revoke_nomination(b, a).unwrap();
    assert_eq!(st.free_balance(b), free_before);
    assert_eq!(st.reserved_balance(b), reserved_before);
    assert!(!st.is_nominator(b));
    assert_eq!(st.collator_state(a).unwrap().total_nominated, 0);
}

#[test]
fn candidate_bond_less_to_exactly_the_minimum() {
    let mut st = new_test_state();
    let a = funded(&mut st, 1, 25);
    st.join_candidates(a, 25).unwrap();
    st.candidate_bond_less(a, 15).unwrap();
    assert_eq!(st.collator_state(a).unwrap().bond, MIN_COLLATOR_STAKE);
    assert_eq!(st.reserved_balance(a), MIN_COLLATOR_STAKE);
    assert_eq!(st.free_balance(a), 15);
    assert_eq!(
        st.candidate_bond_less(a, 1),
        Err(StakingError::BondBelowMinimum)
    );
}

#[test]
fn already_candidate_is_rejected() {
    let mut st = new_test_state();
    let a = collator(&mut st, 1);
    st.set_free_balance(a, 20);
    assert_eq!(st.join_candidates(a, 10), Err(StakingError::AlreadyCandidate));
}

#[test]
fn not_candidate_is_rejected() {
    let mut st = new_test_state();
    let a = funded(&mut st, 1, 20);
    assert_eq!(st.leave_candidates(a), Err(StakingError::NotCandidate));
    assert_eq!(st.go_offline(a), Err(StakingError::NotCandidate));
    assert_eq!(st.go_online(a), Err(StakingError::NotCandidate));
    assert_eq!(st.candidate_bond_more(a, 1), Err(StakingError::NotCandidate));
    assert_eq!(st.candidate_bond_less(a, 1), Err(StakingError::NotCandidate));
}

#[test]
fn already_leaving_is_rejected() {
    let mut st = new_test_state();
    let a = collator(&mut st, 1);
    st.leave_candidates(a).unwrap();
    assert_eq!(st.leave_candidates(a), Err(StakingError::AlreadyLeaving));
    assert_eq!(st.go_offline(a), Err(StakingError::AlreadyLeaving));
    assert_eq!(st.go_online(a), Err(StakingError::AlreadyLeaving));
}

#[test]
fn status_toggle_errors() {
    let mut st = new_test_state();
    let a = collator(&mut st, 1);
    assert_eq!(st.go_online(a), Err(StakingError::AlreadyActive));
    st.go_offline(a).unwrap();
    assert_eq!(st.go_offline(a), Err(StakingError::AlreadyOffline));
    st.go_online(a).unwrap();
    assert!(st.collator_state(a).unwrap().is_active());
}

#[test]
fn insufficient_funds_leaves_state_unchanged() {
    let mut st = new_test_state();
    let a = funded(&mut st, 1, 12);
    assert_eq!(st.join_candidates(a, 13), Err(StakingError::InsufficientFunds));
    assert!(!st.is_candidate(a));
    assert_eq!(st.free_balance(a), 12);
    st.join_candidates(a, 10).unwrap();
    assert_eq!(st.candidate_bond_more(a, 3), Err(StakingError::InsufficientFunds));
    assert_eq!(st.collator_state(a).unwrap().bond, 10);
    let b = funded(&mut st, 2, 4);
    assert_eq!(st.nominate(b, a, 5), Err(StakingError::InsufficientFunds));
    assert!(!st.is_nominator(b));
}

#[test]
fn nomination_errors() {
    let mut st = new_test_state();
    let a = collator(&mut st, 1);
    let b = funded(&mut st, 2, 20);
    assert_eq!(st.nominate(b, 77, 5), Err(StakingError::CandidateDNE));
    assert_eq!(st.nominate(b, a, 4), Err(StakingError::BondBelowMinimum));
    assert_eq!(st.leave_nominators(b), Err(StakingError::NotNominator));
    assert_eq!(st.revoke_nomination(b, a), Err(StakingError::NominationDNE));
    assert_eq!(st.nominator_bond_more(b, a, 1), Err(StakingError::NominationDNE));
    assert_eq!(st.nominator_bond_less(b, a, 1), Err(StakingError::NominationDNE));
    st.nominate(b, a, 5).unwrap();
    assert_eq!(st.nominate(b, a, 5), Err(StakingError::AlreadyNominated));
}

#[test]
fn offline_candidate_keeps_bond_and_nominations() {
    let mut st = new_test_state();
    let a = collator(&mut st, 1);
    let b = funded(&mut st, 2, 5);
    st.nominate(b, a, 5).unwrap();
    st.go_offline(a).unwrap();
    assert_eq!(st.reserved_balance(a), 10);
    assert_eq!(st.collator_state(a).unwrap().total_nominated, 5);
    assert_eq!(st.nomination_of(b, a), Some(5));
}

#[test]
fn exit_sweep_releases_all_bonds() {
    let mut st = new_test_state();
    let a = collator(&mut st, 1);
    let b = funded(&mut st, 2, 8);
    st.nominate(b, a, 8).unwrap();
    st.leave_candidates(a).unwrap();
    assert_eq!(st.reserved_balance(a), 10);
    assert_eq!(st.reserved_balance(b), 8);
    st.advance_round();
    st.advance_round();
    st.execute_candidate_exit(a);
    assert!(!st.is_candidate(a));
    assert_eq!(st.reserved_balance(a), 0);
    assert_eq!(st.free_balance(a), 10);
    assert!(!st.is_nominator(b));
    assert_eq!(st.reserved_balance(b), 0);
    assert_eq!(st.free_balance(b), 8);
}

#[test]
fn exit_sweep_keeps_unrelated_nominations() {
    let mut st = new_test_state();
    let a = collator(&mut st, 1);
    let c = collator(&mut st, 2);
    let b = funded(&mut st, 3, 12);
    st.nominate(b, a, 5).unwrap();
    st.nominate(b, c, 7).unwrap();
    st.leave_candidates(a).unwrap();
    st.advance_round();
    st.advance_round();
    st.execute_candidate_exit(a);
    assert!(st.is_nominator(b));
    assert_eq!(st.nomination_of(b, a), None);
    assert_eq!(st.nomination_of(b, c), Some(7));
    assert_eq!(st.reserved_balance(b), 7);
    assert_eq!(st.free_balance(b), 5);
    assert_eq!(st.collator_state(c).unwrap().total_nominated, 7);
}

#[test]
fn overflowing_nominated_total_is_insufficient_funds() {
    let mut st = new_test_state();
    let a = collator(&mut st, 1);
    let whale = funded(&mut st, 2, u64::MAX - 10);
    st.nominate(whale, a, u64::MAX - 10).unwrap();
    assert_eq!(st.reserved_balance(whale), u64::MAX - 10);
    let b = funded(&mut st, 3, 100);
    assert_eq!(st.nominate(b, a, 50), Err(StakingError::InsufficientFunds));
    assert!(!st.is_nominator(b));
    assert_eq!(st.free_balance(b), 100);
    assert_eq!(st.collator_state(a).unwrap().total_nominated, u64::MAX - 10);
}

#[test]
fn revoking_one_of_two_nominations_keeps_the_other() {
    let mut st = new_test_state();
    let a = collator(&mut st, 1);
    let c = collator(&mut st, 2);
    let b = funded(&mut st, 3, 13);
    st.nominate(b, a, 6).unwrap();
    st.nominate(b, c, 7).unwrap();
    st.revoke_nomination(b, a).unwrap();
    assert!(st.is_nominator(b));
    assert_eq!(st.nomination_of(b, a), None);
    assert_eq!(st.nomination_of(b, c), Some(7));
    assert_eq!(st.reserved_balance(b), 7);
    assert_eq!(st.free_balance(b), 6);
    assert_eq!(st.collator_state(a).unwrap().total_nominated, 0);
    assert_eq!(st.collator_state(c).unwrap().total_nominated, 7);
}
