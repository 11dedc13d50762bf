use pox_ledger::cycle::CycleParams;
use pox_ledger::ledger::Ledger;
use pox_ledger::partial::PartialLedger;
use pox_ledger::pragma::{
    PragmaList, SQLiteCacheSize, SQLiteEncoding, SQLiteJournalMode, SQLiteLockingMode,
    SQLitePragma, SQLiteSynchronizationMode, SQLiteTempStore, SQLiteWalCheckpointMode,
};
use pox_ledger::queries::{
    get_reward_set_entries_at, get_reward_set_entries_index_order_at, with_clarity_db_ro,
};
use pox_ledger::records::{PoxParams, StackingState};
use pox_ledger::reward_list::{RewardCycleAddressListEntry, RewardCycles};
use pox_ledger::signer::{
    block_verdict, miner_slot_id, next_action, next_slot_version, still_waiting, BlockStatus,
    BlockVerdict, SlotError, WaitAction, WaitEvent,
};
use pox_ledger::transition::Phase;
use pox_ledger::types::{LedgerError, LockVersion, PoxVersion, Principal, RewardAddress};

fn addr(tag: u8) -> RewardAddress {
    RewardAddress { version: 0, hash: [tag; 20] }
}

fn who(id: u64) -> Principal {
    Principal { id }
}

#[test]
fn reward_addresses_compare_by_tag_and_hash() {
    assert_eq!(addr(1), addr(1));
    assert_ne!(addr(1), addr(2));
    assert_ne!(addr(1), RewardAddress { version: 1, hash: [1; 20] });
    let mut h = [1u8; 20];
    h[19] = 2;
    assert_ne!(addr(1), RewardAddress { version: 0, hash: h });
    assert_eq!(PoxVersion::V1.lock_version(), LockVersion::V1);
    assert_eq!(PoxVersion::V2.lock_version(), LockVersion::V2);
}

#[test]
fn append_hands_out_indexes_in_order() {
    let mut lists = RewardCycles::new();
    assert_eq!(lists.total(3), 0);
    assert_eq!(lists.len(3), 0);
    assert_eq!(lists.read(3, 0), None);
    assert_eq!(lists.append(3, addr(1), 10, Some(who(1))), Ok(0));
    assert_eq!(lists.append(3, addr(2), 20, None), Ok(1));
    assert_eq!(lists.append(4, addr(3), 5, Some(who(3))), Ok(0));
    assert_eq!(lists.append(3, addr(1), 30, Some(who(4))), Ok(2));
    assert_eq!(lists.total(3), 60);
    assert_eq!(lists.total(4), 5);
    assert_eq!(lists.len(3), 3);
    let first = RewardCycleAddressListEntry {
        cycle: 3,
        index: 0,
        reward_address: addr(1),
        amount_stacked: 10,
        stacker: Some(who(1)),
    };
    assert_eq!(lists.read(3, 0), Some(first));
    assert_eq!(lists.read(3, 3), None);
    assert_eq!(lists.append(3, addr(1), 0, None), Err(LedgerError::InvalidAmount));
    assert_eq!(lists.append(3, addr(1), u128::MAX - 59, None), Err(LedgerError::ArithmeticOverflow));
    assert_eq!(lists.append(3, addr(1), u128::MAX - 60, None), Ok(3));
    // every earlier read still gives the same entry
    assert_eq!(lists.read(3, 0), Some(first));
    assert_eq!(lists.entries(3).len(), 4);
    assert_eq!(lists.entries(3)[0], first);
    assert_eq!(lists.entries(9).len(), 0);
}

#[test]
fn increase_keeps_the_total_in_step() {
    let mut lists = RewardCycles::new();
    lists.append(7, addr(1), 10, Some(who(1))).unwrap();
    lists.append(7, addr(2), 20, Some(who(2))).unwrap();
    assert_eq!(lists.increase_entry(7, 2, 1), Err(LedgerError::NoSuchEntry));
    assert_eq!(lists.increase_entry(8, 0, 1), Err(LedgerError::NoSuchEntry));
    assert_eq!(lists.increase_entry(7, 1, u128::MAX - 29), Err(LedgerError::ArithmeticOverflow));
    assert_eq!(lists.total(7), 30);
    assert_eq!(lists.increase_entry(7, 1, 5), Ok(()));
    assert_eq!(lists.read(7, 1).unwrap().amount_stacked, 25);
    assert_eq!(lists.read(7, 0).unwrap().amount_stacked, 10);
    assert_eq!(lists.total(7), 35);
    let sum: u128 = lists.entries(7).iter().map(|e| e.amount_stacked).sum();
    assert_eq!(sum, lists.total(7));
}

#[test]
fn partial_ledger_keeps_one_record_per_key() {
    let mut p = PartialLedger::new();
    assert_eq!(p.pending(addr(1), 3, who(1)), 0);
    assert_eq!(p.committed_index(addr(1), 3, who(1)), None);
    assert_eq!(p.settle(addr(1), 3, who(1), 0), Err(LedgerError::NothingToCommit));
    assert_eq!(p.add_pending(addr(1), 3, who(1), 10), Ok(()));
    assert_eq!(p.add_pending(addr(1), 3, who(1), 5), Ok(()));
    assert_eq!(p.add_pending(addr(1), 4, who(1), 7), Ok(()));
    assert_eq!(p.add_pending(addr(2), 3, who(1), 8), Ok(()));
    assert_eq!(p.add_pending(addr(1), 3, who(2), 9), Ok(()));
    assert_eq!(p.pending(addr(1), 3, who(1)), 15);
    assert_eq!(p.pending(addr(1), 4, who(1)), 7);
    assert_eq!(p.pending(addr(2), 3, who(1)), 8);
    assert_eq!(p.pending(addr(1), 3, who(2)), 9);
    assert_eq!(p.add_pending(addr(1), 3, who(1), u128::MAX - 14), Err(LedgerError::ArithmeticOverflow));
    assert_eq!(p.pending(addr(1), 3, who(1)), 15);
    assert_eq!(p.settle(addr(1), 3, who(1), 4), Ok(15));
    assert_eq!(p.pending(addr(1), 3, who(1)), 0);
    assert_eq!(p.committed_index(addr(1), 3, who(1)), Some(4));
    assert_eq!(p.settle(addr(1), 3, who(1), 5), Err(LedgerError::NothingToCommit));
    assert_eq!(p.committed_index(addr(1), 3, who(1)), Some(4));
    assert_eq!(p.pending(addr(1), 3, who(2)), 9);
}

#[test]
fn phases_switch_at_the_transition_height() {
    let params = PoxParams {
        cycles: CycleParams { first_burn_height: 0, cycle_length: 5 },
        max_lock_period: 12,
        transition_height: 35,
        v1_unlock_height: 37,
    };
    let l = Ledger::new(params, 7).unwrap();
    assert_eq!(l.phase(0), Phase::PreTransition);
    assert_eq!(l.phase(34), Phase::PreTransition);
    assert_eq!(l.phase(35), Phase::PostTransition);
    assert_eq!(l.phase(u64::MAX), Phase::PostTransition);
    assert_eq!(l.params(), params);
    assert_eq!(l.stacking_threshold(), 7);
    assert_eq!(l.check_version(PoxVersion::V1, 34), Ok(()));
    assert_eq!(l.check_version(PoxVersion::V2, 34), Err(LedgerError::ProtocolNotActive));
    assert_eq!(l.check_version(PoxVersion::V1, 35), Err(LedgerError::ProtocolRetired));
    assert_eq!(l.check_version(PoxVersion::V2, 35), Ok(()));
}

#[test]
fn unusable_parameters_make_no_ledger() {
    let good = PoxParams {
        cycles: CycleParams { first_burn_height: 10, cycle_length: 5 },
        max_lock_period: 1,
        transition_height: 10,
        v1_unlock_height: 10,
    };
    assert!(Ledger::new(good, 0).is_some());
    let mut p = good;
    p.cycles.cycle_length = 0;
    assert!(Ledger::new(p, 0).is_none());
    let mut p = good;
    p.max_lock_period = 0;
    assert!(Ledger::new(p, 0).is_none());
    let mut p = good;
    p.transition_height = 9;
    assert!(Ledger::new(p, 0).is_none());
    let mut p = good;
    p.v1_unlock_height = 9;
    p.transition_height = 10;
    assert!(Ledger::new(p, 0).is_none());
}

#[test]
fn queries_read_the_snapshot() {
    let params = PoxParams {
        cycles: CycleParams { first_burn_height: 10, cycle_length: 5 },
        max_lock_period: 12,
        transition_height: 10,
        v1_unlock_height: 10,
    };
    let mut l = Ledger::new(params, 0).unwrap();
    l.credit(who(1), 100).unwrap();
    l.stack(who(1), 40, addr(1), 2, 12, PoxVersion::V2).unwrap();
    l.record_reward_set_index(who(1)).unwrap();
    assert!(matches!(get_reward_set_entries_at(&l, 9), Err(LedgerError::InvalidHeight)));
    assert!(matches!(get_reward_set_entries_index_order_at(&l, 0), Err(LedgerError::InvalidHeight)));
    assert_eq!(get_reward_set_entries_at(&l, 10).unwrap().len(), 0);
    let entries = get_reward_set_entries_at(&l, 15).unwrap();
    assert_eq!(entries.len(), 1);
    assert_eq!(entries[0].amount_stacked, 40);
    assert_eq!(entries, get_reward_set_entries_index_order_at(&l, 19).unwrap());
    let locked = with_clarity_db_ro(&l, |db: &Ledger| db.account(who(1)).balance_locked());
    assert_eq!(locked, 40);
    let total = with_clarity_db_ro(&l, |db: &Ledger| db.total(1));
    assert_eq!(total, 40);
    let state = StackingState {
        reward_address: addr(1),
        first_reward_cycle: 1,
        lock_period: 2,
        reward_set_indexes: vec![0],
        delegated_to: None,
        last_increase_cycle: None,
    };
    assert_eq!(pox_ledger::queries::get_stacking_state_pox_2(&l, who(1)), Some(state.duplicate()));
    assert_eq!(state.duplicate(), state);
}

#[test]
fn the_reward_set_is_ordered_by_address_bytes() {
    let params = PoxParams {
        cycles: CycleParams { first_burn_height: 0, cycle_length: 5 },
        max_lock_period: 12,
        transition_height: 0,
        v1_unlock_height: 0,
    };
    // whichever call comes first, the lower address comes first
    for alice_first in [true, false] {
        let mut l = Ledger::new(params, 0).unwrap();
        let (alice, bob, carol) = (who(1), who(2), who(3));
        let order = if alice_first { [alice, bob, carol] } else { [carol, bob, alice] };
        for p in order {
            l.credit(p, 100).unwrap();
            // alice pays to the highest address, bob to the lowest, carol to bob's bytes
            // under another tag
            let address = if p == alice {
                addr(9)
            } else if p == bob {
                addr(4)
            } else {
                RewardAddress { version: 5, hash: [4; 20] }
            };
            l.stack(p, 10 * p.id as u128, address, 1, 35, PoxVersion::V2).unwrap();
            l.record_reward_set_index(p).unwrap();
        }
        let in_index_order = get_reward_set_entries_index_order_at(&l, 40).unwrap();
        assert_eq!(in_index_order.len(), 3);
        assert_eq!(in_index_order[0].stacker, Some(order[0]));
        assert_eq!(in_index_order[2].stacker, Some(order[2]));
        let set = get_reward_set_entries_at(&l, 40).unwrap();
        assert_eq!(set.len(), 3);
        // equal bytes: the lower index first
        let (first, second) = if alice_first { (bob, carol) } else { (carol, bob) };
        assert_eq!(set[0].stacker, Some(first));
        assert_eq!(set[1].stacker, Some(second));
        assert_eq!(set[2].stacker, Some(alice));
    }
    let a = RewardCycleAddressListEntry {
        cycle: 1,
        index: 0,
        reward_address: RewardAddress { version: 0, hash: [1; 20] },
        amount_stacked: 1,
        stacker: None,
    };
    let mut h = [1u8; 20];
    h[19] = 2;
    let b = RewardCycleAddressListEntry { index: 1, reward_address: RewardAddress { version: 0, hash: h }, ..a };
    let c = RewardCycleAddressListEntry { index: 1, ..a };
    assert_eq!(pox_ledger::queries::entry_rank(&a, &b), pox_ledger::queries::Rank::Before);
    assert_eq!(pox_ledger::queries::entry_rank(&b, &a), pox_ledger::queries::Rank::After);
    assert_eq!(pox_ledger::queries::entry_rank(&a, &c), pox_ledger::queries::Rank::Before);
    assert_eq!(pox_ledger::queries::entry_rank(&c, &a), pox_ledger::queries::Rank::After);
    assert_eq!(pox_ledger::queries::entry_rank(&a, &a), pox_ledger::queries::Rank::Same);
}

#[test]
fn miner_slots_stay_inside_the_range() {
    assert_eq!(miner_slot_id(10, 12, 0), Ok(10));
    assert_eq!(miner_slot_id(10, 12, 1), Ok(11));
    assert_eq!(miner_slot_id(10, 12, 2), Err(SlotError::NotEnoughSlots));
    assert_eq!(miner_slot_id(10, 10, 0), Err(SlotError::NotEnoughSlots));
    assert_eq!(miner_slot_id(u32::MAX - 1, u32::MAX, 0), Ok(u32::MAX - 1));
    assert_eq!(miner_slot_id(u32::MAX - 1, u32::MAX, 1), Err(SlotError::NotEnoughSlots));
    assert_eq!(miner_slot_id(u32::MAX - 1, u32::MAX, 200), Err(SlotError::NotEnoughSlots));
    assert_eq!(next_slot_version(None), 1);
    assert_eq!(next_slot_version(Some(0)), 1);
    assert_eq!(next_slot_version(Some(41)), 42);
    assert_eq!(next_slot_version(Some(u32::MAX)), u32::MAX);
}

#[test]
fn block_verdicts_follow_the_weights() {
    let status = |signed: u32, reject: u32| BlockStatus {
        total_weight_signed: signed,
        total_reject_weight: reject,
    };
    // total 100, threshold 70
    assert_eq!(block_verdict(status(0, 0), 70, 100), BlockVerdict::Undecided);
    assert_eq!(block_verdict(status(69, 30), 70, 100), BlockVerdict::Undecided);
    assert_eq!(block_verdict(status(70, 30), 70, 100), BlockVerdict::Accepted);
    assert_eq!(block_verdict(status(69, 31), 70, 100), BlockVerdict::Rejected);
    assert_eq!(block_verdict(status(70, 31), 70, 100), BlockVerdict::Rejected);
    assert!(still_waiting(status(69, 30), 70, 100));
    assert!(!still_waiting(status(70, 30), 70, 100));
    assert!(!still_waiting(status(0, 31), 70, 100));
    // the sum of the weights stops at the largest value
    assert_eq!(block_verdict(status(0, u32::MAX), 70, u32::MAX), BlockVerdict::Undecided);
    assert_eq!(block_verdict(status(0, u32::MAX), 70, u32::MAX - 1), BlockVerdict::Rejected);
    assert_eq!(next_action(WaitEvent::Status(status(70, 0)), 70, 100), WaitAction::AcceptGathered);
    assert_eq!(next_action(WaitEvent::Status(status(0, 31)), 70, 100), WaitAction::FailRejected);
    assert_eq!(next_action(WaitEvent::Status(status(1, 1)), 70, 100), WaitAction::FailUndecided);
    let timeout = |stored, tip_changed| WaitEvent::Timeout { stored, tip_changed };
    assert_eq!(next_action(timeout(true, true), 70, 100), WaitAction::AcceptStored);
    assert_eq!(next_action(timeout(true, false), 70, 100), WaitAction::AcceptStored);
    assert_eq!(next_action(timeout(false, true), 70, 100), WaitAction::FailTipChanged);
    assert_eq!(next_action(timeout(false, false), 70, 100), WaitAction::KeepWaiting);
}

#[test]
fn pragmas_are_kept_in_the_order_asked_for() {
    let list = PragmaList::new()
        .set_pragma(SQLitePragma::JournalMode(SQLiteJournalMode::Wal))
        .set_pragma(SQLitePragma::Synchronous(SQLiteSynchronizationMode::Normal))
        .set_pragma(SQLitePragma::CacheSize(SQLiteCacheSize::KibiBytes(2048)))
        .set_pragma(SQLitePragma::TempStore(SQLiteTempStore::Memory))
        .set_pragma(SQLitePragma::LockingMode(SQLiteLockingMode::Exclusive))
        .set_pragma(SQLitePragma::Encoding(SQLiteEncoding::Utf8))
        .set_pragma(SQLitePragma::BusyTimeout(5000));
    assert_eq!(list.pragmas.len(), 7);
    assert!(matches!(list.pragmas[0], SQLitePragma::JournalMode(SQLiteJournalMode::Wal)));
    assert!(matches!(list.pragmas[2], SQLitePragma::CacheSize(SQLiteCacheSize::KibiBytes(2048))));
    assert!(matches!(list.pragmas[6], SQLitePragma::BusyTimeout(5000)));
    let mode = SQLiteWalCheckpointMode::Truncate;
    assert_eq!(format!("{:?}", mode), "Truncate");
    assert_eq!(format!("{:?}", SQLiteTempStore::Default), "Default");
}
