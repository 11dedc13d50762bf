use pox_ledger::cycle::CycleParams;
use pox_ledger::invariants::{
    check_all_stacker_link_invariants, check_stacker_link_invariants,
    check_stacking_state_invariants, CycleViolation, InvariantViolation,
};
use pox_ledger::ledger::Ledger;
use pox_ledger::records::PoxParams;
use pox_ledger::types::{PoxVersion, Principal, RewardAddress};

fn addr(tag: u8) -> RewardAddress {
    RewardAddress { version: 0, hash: [tag; 20] }
}

fn who(id: u64) -> Principal {
    Principal { id }
}

fn ledger() -> Ledger {
    let params = PoxParams {
        cycles: CycleParams { first_burn_height: 0, cycle_length: 5 },
        max_lock_period: 12,
        transition_height: 35,
        v1_unlock_height: 37,
    };
    Ledger::new(params, 0).unwrap()
}

#[test]
fn a_fully_recorded_stacker_passes() {
    let mut l = ledger();
    let alice = who(1);
    let bob = who(2);
    l.credit(alice, 1000).unwrap();
    l.credit(bob, 1000).unwrap();
    l.stack(bob, 300, addr(2), 3, 36, PoxVersion::V2).unwrap();
    l.stack(alice, 700, addr(1), 3, 36, PoxVersion::V2).unwrap();
    for _ in 0..3 {
        l.record_reward_set_index(bob).unwrap();
        l.record_reward_set_index(alice).unwrap();
    }
    let data = check_stacking_state_invariants(&l, alice, true).ok().unwrap();
    assert_eq!(data.pox_addr, addr(1));
    assert_eq!(data.first_cycle, 8);
    assert_eq!(data.lock_period, 3);
    assert_eq!(data.cycle_indexes.len(), 3);
    for c in 8..11u64 {
        assert_eq!(data.cycle_indexes.get(&c), Some(&1));
    }
    assert_eq!(data.cycle_indexes.get(&11), None);
    for c in 0..20u64 {
        assert_eq!(check_stacker_link_invariants(&l, 36, c), Ok(()));
    }
    assert_eq!(check_all_stacker_link_invariants(&l, 36, 0, 20), Ok(()));
    assert_eq!(check_all_stacker_link_invariants(&l, 36, 5, 4), Ok(()));
    assert_eq!(check_all_stacker_link_invariants(&l, 36, u64::MAX - 1, u64::MAX), Ok(()));
}

#[test]
fn a_missing_record_is_reported() {
    let l = ledger();
    assert_eq!(
        check_stacking_state_invariants(&l, who(1), false).err(),
        Some(InvariantViolation::MissingStackingState)
    );
    assert_eq!(
        check_stacking_state_invariants(&l, who(1), true).err(),
        Some(InvariantViolation::MissingStackingState)
    );
}

#[test]
fn a_partly_recorded_stacker_is_reported_where_indexes_are_expected() {
    let mut l = ledger();
    let alice = who(1);
    l.credit(alice, 1000).unwrap();
    l.stack(alice, 700, addr(1), 3, 36, PoxVersion::V2).unwrap();
    // nothing recorded: clean unless indexes are expected
    let data = check_stacking_state_invariants(&l, alice, false).ok().unwrap();
    assert_eq!(data.cycle_indexes.len(), 0);
    assert_eq!(
        check_stacking_state_invariants(&l, alice, true).err(),
        Some(InvariantViolation::IndexCountMismatch)
    );
    l.record_reward_set_index(alice).unwrap();
    assert_eq!(
        check_stacking_state_invariants(&l, alice, false).err(),
        Some(InvariantViolation::IndexCountMismatch)
    );
    assert_eq!(
        check_stacker_link_invariants(&l, 36, 8),
        Err(InvariantViolation::IndexCountMismatch)
    );
    // from a tip in a later cycle the links of cycle 8 are exempt
    assert_eq!(check_stacker_link_invariants(&l, 45, 8), Ok(()));
    assert_eq!(
        check_all_stacker_link_invariants(&l, 36, 0, 20),
        Err(CycleViolation { cycle: 8, violation: InvariantViolation::IndexCountMismatch })
    );
    // before the transition height nothing is checked
    assert_eq!(check_all_stacker_link_invariants(&l, 34, 0, 20), Ok(()));
}

#[test]
fn entries_of_a_released_stacker_are_reported_unless_exempt() {
    let mut l = ledger();
    let alice = who(1);
    l.credit(alice, 1000).unwrap();
    l.stack(alice, 700, addr(1), 2, 36, PoxVersion::V2).unwrap();
    l.record_reward_set_index(alice).unwrap();
    l.record_reward_set_index(alice).unwrap();
    assert_eq!(l.unlock(alice, 50), 700);
    // history stays in the lists
    assert_eq!(l.read(8, 0).unwrap().stacker, Some(alice));
    assert_eq!(check_stacker_link_invariants(&l, 50, 8), Ok(()));
    assert_eq!(check_stacker_link_invariants(&l, 50, 9), Ok(()));
    assert_eq!(
        check_stacker_link_invariants(&l, 44, 8),
        Err(InvariantViolation::MissingStackingState)
    );
    assert_eq!(
        check_stacker_link_invariants(&l, 36, 9),
        Err(InvariantViolation::MissingStackingState)
    );
}

#[test]
fn a_new_lock_does_not_cover_old_entries() {
    let mut l = ledger();
    let alice = who(1);
    l.credit(alice, 1000).unwrap();
    l.stack(alice, 700, addr(1), 1, 36, PoxVersion::V2).unwrap();
    l.record_reward_set_index(alice).unwrap();
    l.unlock(alice, 45);
    l.stack(alice, 700, addr(1), 1, 46, PoxVersion::V2).unwrap();
    l.record_reward_set_index(alice).unwrap();
    assert_eq!(check_stacker_link_invariants(&l, 46, 10), Ok(()));
    assert_eq!(check_stacker_link_invariants(&l, 36, 8), Err(InvariantViolation::CycleNotCovered));
}

#[test]
fn a_second_entry_in_one_cycle_shows_as_index_or_address_mismatch() {
    let mut l = ledger();
    let alice = who(1);
    l.credit(alice, 1000).unwrap();
    l.stack(alice, 700, addr(1), 1, 36, PoxVersion::V2).unwrap();
    assert_eq!(l.record_reward_set_index(alice), Ok(0));
    l.unlock(alice, 45);
    // the same cycle once more, as the ledger keeps no clock of its own
    l.stack(alice, 500, addr(1), 1, 36, PoxVersion::V2).unwrap();
    assert_eq!(l.record_reward_set_index(alice), Ok(1));
    assert_eq!(check_stacker_link_invariants(&l, 36, 8), Err(InvariantViolation::IndexMismatch));
    assert!(check_stacking_state_invariants(&l, alice, true).is_ok());
    l.unlock(alice, 45);
    l.stack(alice, 500, addr(2), 1, 36, PoxVersion::V2).unwrap();
    assert_eq!(l.record_reward_set_index(alice), Ok(2));
    assert_eq!(
        check_stacker_link_invariants(&l, 36, 8),
        Err(InvariantViolation::RewardAddressMismatch)
    );
    // the total still reconciles
    assert_eq!(l.total(8), 1700);
    assert_eq!(check_stacker_link_invariants(&l, 40, 8), Err(InvariantViolation::RewardAddressMismatch));
    assert_eq!(check_stacker_link_invariants(&l, 45, 8), Ok(()));
}
