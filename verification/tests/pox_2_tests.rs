use pox_ledger::cycle::CycleParams;
use pox_ledger::invariants::{
    check_all_stacker_link_invariants, check_stacking_state_invariants, StackingStateCheckData,
};
use pox_ledger::ledger::Ledger;
use pox_ledger::queries::{
    get_partial_stacked, get_reward_cycle_total, get_reward_set_entries_at,
    get_stacking_state_pox_2, get_stx_account_at,
};
use pox_ledger::records::PoxParams;
use pox_ledger::types::{LedgerError, PoxVersion, Principal, RewardAddress};

const POX_THRESHOLD_STEPS_USTX: u128 = 10_000 * 1_000_000;
const EMPTY_SORTITIONS: u64 = 25;
const P2PKH: u8 = 0;

/// A ledger driven block by block: each tenure runs its operations at the
/// height of the chain tip, then a new block arrives.
struct Sim {
    ledger: Ledger,
    tip_height: u64,
    principals: Vec<Principal>,
    check_pox_invariants: Option<(u64, u64)>,
}

impl Sim {
    fn new(auto_unlock_height: u64, keys: &[Principal], balance: u128) -> Sim {
        let params = PoxParams {
            cycles: CycleParams { first_burn_height: 0, cycle_length: 5 },
            max_lock_period: 12,
            transition_height: EMPTY_SORTITIONS + 10,
            v1_unlock_height: auto_unlock_height + EMPTY_SORTITIONS,
        };
        let mut ledger = Ledger::new(params, 0).unwrap();
        for k in keys {
            ledger.credit(*k, balance).unwrap();
        }
        Sim {
            ledger,
            tip_height: EMPTY_SORTITIONS,
            principals: keys.to_vec(),
            check_pox_invariants: None,
        }
    }

    fn reward_cycle(&self, height: u64) -> u64 {
        self.ledger.params().cycles.cycle_of(height).unwrap()
    }

    fn cycle_start(&self, cycle: u64) -> u64 {
        self.ledger.params().cycles.start_height_of(cycle).unwrap()
    }

    /// Records the entries of every covered cycle of `who` before `upto`
    /// that has none yet.
    fn evaluate(&mut self, who: Principal, upto: u64) {
        loop {
            let state = get_stacking_state_pox_2(&self.ledger, who).unwrap();
            let next = state.first_reward_cycle + state.reward_set_indexes.len() as u64;
            if next >= upto || state.reward_set_indexes.len() as u64 == state.lock_period {
                break;
            }
            self.ledger.record_reward_set_index(who).unwrap();
        }
    }

    fn tenure_with_txs<F: FnOnce(&mut Sim)>(&mut self, txs: F) -> u64 {
        txs(self);
        self.tip_height += 1;
        let h = self.tip_height;
        self.ledger.apply_v1_unlock(h);
        for i in 0..self.principals.len() {
            let who = self.principals[i];
            self.ledger.unlock(who, h);
        }
        if let Some((first, last)) = self.check_pox_invariants {
            assert_eq!(check_all_stacker_link_invariants(&self.ledger, h, first, last), Ok(()));
        }
        h
    }

    fn balance(&self, who: Principal) -> u128 {
        get_stx_account_at(&self.ledger, who).balance_unlocked_at(self.tip_height)
    }

    /// The reward addresses of the tip's cycle with their amounts.
    fn reward_addresses(&self) -> Vec<(RewardAddress, u128)> {
        get_reward_set_entries_at(&self.ledger, self.tip_height)
            .unwrap()
            .iter()
            .map(|e| (e.reward_address, e.amount_stacked))
            .collect()
    }
}

fn key(id: u64) -> Principal {
    Principal { id }
}

fn key_to_addr(who: Principal) -> RewardAddress {
    let mut hash = [0u8; 20];
    hash[..8].copy_from_slice(&who.id.to_be_bytes());
    RewardAddress { version: P2PKH, hash }
}

#[test]
fn test_simple_pox_lockup_transition_pox_2() {
    let auto_unlock_height = 12;
    let expected_first_v2_cycle = 8;
    let (alice, bob, charlie) = (key(30), key(20), key(10));
    let mut peer = Sim::new(auto_unlock_height, &[alice, bob, charlie], 1024 * POX_THRESHOLD_STEPS_USTX);
    let first_v2_cycle = peer.reward_cycle(peer.ledger.params().v1_unlock_height) + 1;
    assert_eq!(first_v2_cycle, expected_first_v2_cycle);
    peer.check_pox_invariants = Some((expected_first_v2_cycle, expected_first_v2_cycle + 10));
    let expected_alice_first_reward_cycle = 6;

    assert_eq!(peer.tip_height, 0 + EMPTY_SORTITIONS);
    // first tenure is empty
    peer.tenure_with_txs(|_| {});
    assert_eq!(peer.balance(alice), 1024 * POX_THRESHOLD_STEPS_USTX);
    let alice_account = get_stx_account_at(&peer.ledger, alice);
    assert_eq!(alice_account.balance_unlocked(), 1024 * POX_THRESHOLD_STEPS_USTX);
    assert_eq!(alice_account.balance_locked(), 0);
    assert_eq!(alice_account.lock.unlock_height, 0);

    // next tenure includes Alice's lockup
    assert_eq!(peer.tip_height, 1 + EMPTY_SORTITIONS);
    peer.tenure_with_txs(|p| {
        let tip = p.tip_height;
        let receipt = p
            .ledger
            .stack(alice, 1024 * POX_THRESHOLD_STEPS_USTX, key_to_addr(alice), 4, tip, PoxVersion::V1)
            .unwrap();
        assert_eq!(receipt.first_reward_cycle, expected_alice_first_reward_cycle);
        p.evaluate(alice, first_v2_cycle);
    });
    // no reward addresses
    assert_eq!(peer.reward_addresses().len(), 0);
    let alice_first_reward_cycle = 1 + peer.reward_cycle(peer.tip_height);
    assert_eq!(alice_first_reward_cycle, expected_alice_first_reward_cycle);
    // alice locked, so balance should be 0
    assert_eq!(peer.balance(alice), 0);

    // produce blocks until immediately before the switch
    for _i in 0..7 {
        peer.tenure_with_txs(|_| {});
        assert_eq!(peer.balance(alice), 0);
        let cur_reward_cycle = peer.reward_cycle(peer.tip_height);
        let reward_addrs = peer.reward_addresses();
        if cur_reward_cycle < expected_alice_first_reward_cycle {
            assert_eq!(reward_addrs.len(), 0);
        } else {
            assert_eq!(reward_addrs.len(), 1);
            assert_eq!(reward_addrs[0].0.version, P2PKH);
            assert_eq!(reward_addrs[0].0.hash, key_to_addr(alice).hash);
            assert_eq!(reward_addrs[0].1, 1024 * POX_THRESHOLD_STEPS_USTX);
        }
    }

    // Charlie delegates before the second generation is active
    assert_eq!(peer.tip_height, 9 + EMPTY_SORTITIONS);
    peer.tenure_with_txs(|p| {
        p.ledger.delegate(charlie, charlie, Some(1_000_000), None, None);
    });
    assert!(peer.ledger.delegation(charlie).is_some());
    assert_eq!(peer.balance(alice), 0);

    // Bob locks up under the second generation, for cycles 8 to 13
    assert_eq!(peer.tip_height, 10 + EMPTY_SORTITIONS);
    peer.tenure_with_txs(|p| {
        let tip = p.tip_height;
        let receipt = p
            .ledger
            .stack(bob, 512 * POX_THRESHOLD_STEPS_USTX, key_to_addr(bob), 6, tip, PoxVersion::V2)
            .unwrap();
        assert_eq!(receipt.first_reward_cycle, first_v2_cycle);
        p.evaluate(bob, u64::MAX);
    });
    assert_eq!(peer.balance(alice), 0);

    // Bob tries to lock under the first generation too, but it does not work
    assert_eq!(peer.tip_height, 11 + EMPTY_SORTITIONS);
    peer.tenure_with_txs(|p| {
        let tip = p.tip_height;
        let r = p.ledger.stack(bob, 512 * POX_THRESHOLD_STEPS_USTX, key_to_addr(bob), 4, tip, PoxVersion::V1);
        assert!(r.is_err());
    });

    assert_eq!(peer.tip_height, 12 + EMPTY_SORTITIONS);
    // one more empty tenure to reach the unlock height
    peer.tenure_with_txs(|_| {});
    // the release height is reached: Alice's balance is unlocked
    assert_eq!(peer.balance(alice), 1024 * POX_THRESHOLD_STEPS_USTX);

    // Alice stacks under the second generation
    assert_eq!(peer.tip_height, 13 + EMPTY_SORTITIONS);
    peer.tenure_with_txs(|p| {
        let tip = p.tip_height;
        p.ledger
            .stack(alice, 512 * POX_THRESHOLD_STEPS_USTX, key_to_addr(alice), 12, tip, PoxVersion::V2)
            .unwrap();
        p.evaluate(alice, u64::MAX);
    });
    // Alice locked half her balance
    assert_eq!(peer.balance(alice), 512 * POX_THRESHOLD_STEPS_USTX);

    for _i in 0..17 {
        peer.tenure_with_txs(|_| {});
        assert_eq!(peer.balance(alice), 512 * POX_THRESHOLD_STEPS_USTX);
        let cur_reward_cycle = peer.reward_cycle(peer.tip_height);
        if cur_reward_cycle >= expected_first_v2_cycle {
            let reward_addrs = peer.reward_addresses();
            assert_eq!(reward_addrs.len(), 2);
            assert_eq!(reward_addrs[0].0.version, P2PKH);
            assert_eq!(reward_addrs[0].0.hash, key_to_addr(bob).hash);
            assert_eq!(reward_addrs[0].1, 512 * POX_THRESHOLD_STEPS_USTX);
            assert_eq!(reward_addrs[1].0.version, P2PKH);
            assert_eq!(reward_addrs[1].0.hash, key_to_addr(alice).hash);
            assert_eq!(reward_addrs[1].1, 512 * POX_THRESHOLD_STEPS_USTX);
        }
    }

    assert_eq!(peer.tip_height, 31 + EMPTY_SORTITIONS);
    // the first generation is retired: Alice's attempt to lock under it fails
    peer.tenure_with_txs(|p| {
        let tip = p.tip_height;
        let r = p.ledger.stack(alice, 512 * POX_THRESHOLD_STEPS_USTX, key_to_addr(alice), 12, tip, PoxVersion::V1);
        assert_eq!(r, Err(LedgerError::ProtocolRetired));
    });
    assert_eq!(peer.balance(alice), 512 * POX_THRESHOLD_STEPS_USTX);
}

#[test]
fn test_simple_pox_2_auto_unlock_ab() {
    test_simple_pox_2_auto_unlock(true)
}

#[test]
fn test_simple_pox_2_auto_unlock_ba() {
    test_simple_pox_2_auto_unlock(false)
}

/// Alice stacks under the second generation for 6 cycles. Bob holds a lock
/// of the first generation that reaches over the same cycles, and is
/// released ahead of time. The release must work whichever of the two has
/// the lower index in the address lists.
fn test_simple_pox_2_auto_unlock(alice_first: bool) {
    let auto_unlock_height = 12;
    let expected_first_v2_cycle = 8;
    let (alice, bob, charlie) = (key(30), key(20), key(10));
    let mut peer = Sim::new(auto_unlock_height, &[alice, bob, charlie], 1024 * POX_THRESHOLD_STEPS_USTX);
    let v1_unlock_height = peer.ledger.params().v1_unlock_height;
    let first_v2_cycle = peer.reward_cycle(v1_unlock_height) + 1;
    assert_eq!(first_v2_cycle, expected_first_v2_cycle);
    peer.check_pox_invariants = Some((expected_first_v2_cycle, expected_first_v2_cycle + 10));

    // produce blocks until just before the switch
    for _i in 0..9 {
        peer.tenure_with_txs(|_| {});
    }
    // Bob locks under the first generation, through cycle 13
    peer.tenure_with_txs(|p| {
        let tip = p.tip_height;
        let receipt = p
            .ledger
            .stack(bob, 1 * POX_THRESHOLD_STEPS_USTX, key_to_addr(bob), 7, tip, PoxVersion::V1)
            .unwrap();
        assert_eq!(receipt.first_reward_cycle, 7);
    });
    // Alice locks under the second generation for cycles 8 to 13
    assert_eq!(peer.tip_height, 10 + EMPTY_SORTITIONS);
    peer.tenure_with_txs(|p| {
        let tip = p.tip_height;
        p.ledger
            .stack(alice, 1024 * POX_THRESHOLD_STEPS_USTX, key_to_addr(alice), 6, tip, PoxVersion::V2)
            .unwrap();
        p.evaluate(bob, first_v2_cycle);
        if alice_first {
            p.evaluate(alice, u64::MAX);
            p.evaluate(bob, u64::MAX);
        } else {
            p.evaluate(bob, u64::MAX);
            p.evaluate(alice, u64::MAX);
        }
    });

    // the reward sets contain entries for alice and bob
    for cycle_number in expected_first_v2_cycle..(expected_first_v2_cycle + 6) {
        let cycle_start = peer.cycle_start(cycle_number);
        let reward_set_entries = get_reward_set_entries_at(&peer.ledger, cycle_start).unwrap();
        assert_eq!(reward_set_entries.len(), 2);
        assert_eq!(reward_set_entries[0].reward_address.hash, key_to_addr(bob).hash);
        assert_eq!(reward_set_entries[1].reward_address.hash, key_to_addr(alice).hash);
    }

    // one block after the first of these cycles starts
    let height_target = peer.cycle_start(expected_first_v2_cycle) + 1;
    // but first, bob has locked tokens at (height_target + 1)
    let bob_bal = get_stx_account_at(&peer.ledger, bob);
    assert_eq!(bob_bal.balance_locked_at(height_target + 1), POX_THRESHOLD_STEPS_USTX);

    while peer.tip_height < height_target {
        peer.tenure_with_txs(|_| {});
    }

    // the reward sets of all cycles just contain entries for alice
    for cycle_number in expected_first_v2_cycle..(expected_first_v2_cycle + 6) {
        let cycle_start = peer.cycle_start(cycle_number);
        let reward_set_entries = get_reward_set_entries_at(&peer.ledger, cycle_start).unwrap();
        assert_eq!(reward_set_entries.len(), 1);
        assert_eq!(reward_set_entries[0].reward_address.hash, key_to_addr(alice).hash);
    }
    // bob has no locked tokens at (height_target + 1)
    let bob_bal = get_stx_account_at(&peer.ledger, bob);
    assert_eq!(bob_bal.balance_locked_at(height_target + 1), 0);
    assert_eq!(bob_bal.balance_locked(), 0);
    assert_eq!(peer.balance(bob), 1024 * POX_THRESHOLD_STEPS_USTX);

    // the totals have been decremented correctly
    for cycle_number in expected_first_v2_cycle..(expected_first_v2_cycle + 6) {
        assert_eq!(
            get_reward_cycle_total(&peer.ledger, cycle_number),
            1024 * POX_THRESHOLD_STEPS_USTX
        );
    }
    // bob's stacking record is gone and alice's is correct
    assert!(
        get_stacking_state_pox_2(&peer.ledger, bob).is_none(),
        "Bob should not have a stacking-state entry"
    );
    let alice_state =
        get_stacking_state_pox_2(&peer.ledger, alice).expect("Alice should have stacking-state entry");
    // slots are never moved: alice keeps the indexes she was given
    let expected_index = if alice_first { 0 } else { 1 };
    assert_eq!(alice_state.reward_set_indexes, vec![expected_index; 6]);
    for (k, index) in alice_state.reward_set_indexes.iter().enumerate() {
        let entry = peer.ledger.read(expected_first_v2_cycle + k as u64, *index).unwrap();
        assert_eq!(entry.stacker, Some(alice));
        assert_eq!(entry.amount_stacked, 1024 * POX_THRESHOLD_STEPS_USTX);
    }
}

#[test]
fn delegate_stack_increase() {
    let auto_unlock_height = 12;
    let expected_first_v2_cycle = 8;
    let (alice, bob) = (key(30), key(20));
    let mut peer = Sim::new(auto_unlock_height, &[alice, bob], 1024 * POX_THRESHOLD_STEPS_USTX);
    let first_v2_cycle = peer.reward_cycle(peer.ledger.params().v1_unlock_height) + 1;
    assert_eq!(first_v2_cycle, expected_first_v2_cycle);
    peer.check_pox_invariants = Some((expected_first_v2_cycle, expected_first_v2_cycle + 10));
    let bob_pox_addr = key_to_addr(bob);
    let alice_delegation_amount = 1023 * POX_THRESHOLD_STEPS_USTX;
    let alice_first_lock_amount = 512 * POX_THRESHOLD_STEPS_USTX;

    // produce blocks until the switch
    for _i in 0..10 {
        peer.tenure_with_txs(|_| {});
    }
    assert_eq!(peer.tip_height, 10 + EMPTY_SORTITIONS);
    peer.tenure_with_txs(|p| {
        let tip = p.tip_height;
        p.ledger.delegate(alice, bob, Some(alice_delegation_amount), None, None);
        p.ledger.delegate_stack(bob, alice, alice_first_lock_amount, bob_pox_addr, tip, 6).unwrap();
    });
    // the partial stacking state contains entries for bob
    for cycle_number in expected_first_v2_cycle..(expected_first_v2_cycle + 6) {
        let partial_stacked = get_partial_stacked(&peer.ledger, bob_pox_addr, cycle_number, bob);
        assert_eq!(partial_stacked, 512 * POX_THRESHOLD_STEPS_USTX);
    }
    // produce blocks until one block after the start of the 3rd cycle after the first
    let height_target = peer.cycle_start(expected_first_v2_cycle + 3) + 1;
    while peer.tip_height < height_target {
        peer.tenure_with_txs(|_| {});
    }
    let alice_bal = get_stx_account_at(&peer.ledger, alice);
    assert_eq!(alice_bal.balance_locked(), alice_first_lock_amount);
    for cycle_number in expected_first_v2_cycle..(expected_first_v2_cycle + 6) {
        let partial_stacked = get_partial_stacked(&peer.ledger, bob_pox_addr, cycle_number, bob);
        assert_eq!(partial_stacked, 512 * POX_THRESHOLD_STEPS_USTX);
    }

    peer.tenure_with_txs(|p| {
        let tip = p.tip_height;
        // Alice cannot increase her own stacking amount while delegating
        assert_eq!(p.ledger.increase(alice, 1, tip), Err(LedgerError::NotStacking));
        // Alice did not delegate enough funds to Bob
        assert_eq!(
            p.ledger.delegate_increase(
                bob,
                alice,
                bob_pox_addr,
                alice_delegation_amount - alice_first_lock_amount + 1,
                tip
            ),
            Err(LedgerError::DelegationAmountExceeded)
        );
        // the amount supplied is invalid
        assert_eq!(
            p.ledger.delegate_increase(bob, alice, bob_pox_addr, 0, tip),
            Err(LedgerError::InvalidAmount)
        );
        // Alice does not have enough funds
        assert_eq!(
            p.ledger.delegate_increase(bob, alice, bob_pox_addr, alice_bal.balance_unlocked() + 1, tip),
            Err(LedgerError::InsufficientFunds)
        );
        assert_eq!(
            p.ledger.delegate_increase(
                bob,
                alice,
                bob_pox_addr,
                alice_delegation_amount - alice_first_lock_amount,
                tip
            ),
            Ok(alice_delegation_amount)
        );
    });
    assert_eq!(get_stx_account_at(&peer.ledger, alice).balance_locked(), alice_delegation_amount);
    // the partial stacking state has been raised from the next cycle on
    for cycle_number in expected_first_v2_cycle..(expected_first_v2_cycle + 4) {
        let partial_stacked = get_partial_stacked(&peer.ledger, bob_pox_addr, cycle_number, bob);
        assert_eq!(partial_stacked, alice_first_lock_amount);
    }
    for cycle_number in (expected_first_v2_cycle + 4)..(expected_first_v2_cycle + 6) {
        let partial_stacked = get_partial_stacked(&peer.ledger, bob_pox_addr, cycle_number, bob);
        assert_eq!(partial_stacked, alice_delegation_amount);
    }
}

#[test]
fn stack_increase() {
    let auto_unlock_height = 12;
    let expected_first_v2_cycle = 8;
    let alice = key(30);
    let mut peer = Sim::new(auto_unlock_height, &[alice], 1024 * POX_THRESHOLD_STEPS_USTX);
    let first_v2_cycle = peer.reward_cycle(peer.ledger.params().v1_unlock_height) + 1;
    assert_eq!(first_v2_cycle, expected_first_v2_cycle);
    peer.check_pox_invariants = Some((expected_first_v2_cycle, expected_first_v2_cycle + 10));
    let first_lockup_amt = 512 * POX_THRESHOLD_STEPS_USTX;
    let total_balance = 1024 * POX_THRESHOLD_STEPS_USTX;
    let increase_amt = total_balance - first_lockup_amt;

    for _i in 0..10 {
        peer.tenure_with_txs(|_| {});
    }
    assert_eq!(peer.tip_height, 10 + EMPTY_SORTITIONS);
    peer.tenure_with_txs(|p| {
        let tip = p.tip_height;
        // an increase fails while Alice is not yet locked
        assert_eq!(p.ledger.increase(alice, increase_amt, tip), Err(LedgerError::NotStacking));
        p.ledger.stack(alice, first_lockup_amt, key_to_addr(alice), 6, tip, PoxVersion::V2).unwrap();
        p.evaluate(alice, u64::MAX);
    });
    assert_eq!(get_stx_account_at(&peer.ledger, alice).balance_locked(), first_lockup_amt);
    assert_eq!(
        get_stx_account_at(&peer.ledger, alice).balance_locked()
            + get_stx_account_at(&peer.ledger, alice).balance_unlocked(),
        total_balance
    );
    // the reward sets of all cycles contain entries for alice
    for cycle_number in expected_first_v2_cycle..(expected_first_v2_cycle + 6) {
        let cycle_start = peer.cycle_start(cycle_number);
        let reward_set_entries = get_reward_set_entries_at(&peer.ledger, cycle_start).unwrap();
        assert_eq!(reward_set_entries.len(), 1);
        assert_eq!(reward_set_entries[0].reward_address.hash, key_to_addr(alice).hash);
        assert_eq!(reward_set_entries[0].amount_stacked, first_lockup_amt);
    }
    let height_target = peer.cycle_start(expected_first_v2_cycle + 3) + 1;
    while peer.tip_height < height_target {
        peer.tenure_with_txs(|_| {});
    }
    for cycle_number in expected_first_v2_cycle..(expected_first_v2_cycle + 6) {
        let cycle_start = peer.cycle_start(cycle_number);
        let reward_set_entries = get_reward_set_entries_at(&peer.ledger, cycle_start).unwrap();
        assert_eq!(reward_set_entries.len(), 1);
        assert_eq!(reward_set_entries[0].reward_address.hash, key_to_addr(alice).hash);
        assert_eq!(reward_set_entries[0].amount_stacked, first_lockup_amt);
    }

    peer.tenure_with_txs(|p| {
        let tip = p.tip_height;
        assert_eq!(p.ledger.increase(alice, 0, tip), Err(LedgerError::InvalidAmount));
        assert_eq!(p.ledger.increase(alice, increase_amt, tip), Ok(first_lockup_amt + increase_amt));
        // increase by an amount we don't have
        assert_eq!(p.ledger.increase(alice, 1, tip), Err(LedgerError::InsufficientFunds));
    });
    let account = get_stx_account_at(&peer.ledger, alice);
    assert_eq!(account.balance_locked(), first_lockup_amt + increase_amt);
    assert_eq!(account.balance_locked() + account.balance_unlocked(), total_balance);

    // the totals have been raised from the next cycle on
    for cycle_number in expected_first_v2_cycle..(expected_first_v2_cycle + 4) {
        assert_eq!(get_reward_cycle_total(&peer.ledger, cycle_number), first_lockup_amt);
        let cycle_start = peer.cycle_start(cycle_number);
        let reward_set_entries = get_reward_set_entries_at(&peer.ledger, cycle_start).unwrap();
        assert_eq!(reward_set_entries.len(), 1);
        assert_eq!(reward_set_entries[0].reward_address.hash, key_to_addr(alice).hash);
        assert_eq!(reward_set_entries[0].amount_stacked, first_lockup_amt);
    }
    for cycle_number in (expected_first_v2_cycle + 4)..(expected_first_v2_cycle + 6) {
        assert_eq!(
            get_reward_cycle_total(&peer.ledger, cycle_number),
            first_lockup_amt + increase_amt
        );
        let cycle_start = peer.cycle_start(cycle_number);
        let reward_set_entries = get_reward_set_entries_at(&peer.ledger, cycle_start).unwrap();
        assert_eq!(reward_set_entries.len(), 1);
        assert_eq!(reward_set_entries[0].reward_address.hash, key_to_addr(alice).hash);
        assert_eq!(reward_set_entries[0].amount_stacked, first_lockup_amt + increase_amt);
    }
}

#[test]
fn test_lock_period_invariant_extend_transition() {
    let auto_unlock_height = 25;
    let expected_first_v2_cycle = 11;
    let alice = key(30);
    let initial_balance = 1024 * POX_THRESHOLD_STEPS_USTX;
    let alice_lockup = 1024 * POX_THRESHOLD_STEPS_USTX;
    let mut peer = Sim::new(auto_unlock_height, &[alice], initial_balance);
    let first_v2_cycle = peer.reward_cycle(peer.ledger.params().v1_unlock_height) + 1;
    assert_eq!(first_v2_cycle, expected_first_v2_cycle);
    peer.check_pox_invariants = Some((expected_first_v2_cycle, expected_first_v2_cycle + 10));
    let expected_alice_first_reward_cycle = 6;

    assert_eq!(peer.tip_height, 0 + EMPTY_SORTITIONS);
    peer.tenure_with_txs(|_| {});
    assert_eq!(peer.balance(alice), initial_balance);
    let alice_account = get_stx_account_at(&peer.ledger, alice);
    assert_eq!(alice_account.balance_unlocked(), initial_balance);
    assert_eq!(alice_account.balance_locked(), 0);
    assert_eq!(alice_account.lock.unlock_height, 0);

    assert_eq!(peer.tip_height, 1 + EMPTY_SORTITIONS);
    peer.tenure_with_txs(|p| {
        let tip = p.tip_height;
        p.ledger.stack(alice, alice_lockup, key_to_addr(alice), 4, tip, PoxVersion::V1).unwrap();
        p.evaluate(alice, u64::MAX);
    });
    assert_eq!(peer.reward_addresses().len(), 0);
    let alice_first_reward_cycle = 1 + peer.reward_cycle(peer.tip_height);
    assert_eq!(alice_first_reward_cycle, expected_alice_first_reward_cycle);
    assert_eq!(peer.balance(alice), 0);

    for _i in 0..4 {
        peer.tenure_with_txs(|_| {});
    }
    for _i in 0..4 {
        peer.tenure_with_txs(|_| {});
        assert_eq!(peer.balance(alice), 0);
    }
    // Alice would be released ahead of time: she can extend under the second generation
    assert_eq!(peer.tip_height, 10 + EMPTY_SORTITIONS);
    peer.tenure_with_txs(|p| {
        let tip = p.tip_height;
        p.ledger.extend(alice, 6, key_to_addr(alice), tip).unwrap();
        p.evaluate(alice, u64::MAX);
    });
    let state = get_stacking_state_pox_2(&peer.ledger, alice).unwrap();
    assert_eq!(state.lock_period as usize, state.reward_set_indexes.len());
    // the extended lock stays through the release height
    while peer.tip_height < peer.ledger.params().v1_unlock_height + 5 {
        peer.tenure_with_txs(|_| {});
        assert_eq!(peer.balance(alice), 0);
    }
}

#[test]
fn test_pox_extend_transition_pox_2() {
    let auto_unlock_height = 12;
    let expected_first_v2_cycle = 8;
    let (alice, bob) = (key(30), key(20));
    let initial_balance = 1024 * POX_THRESHOLD_STEPS_USTX;
    let alice_lockup = 1024 * POX_THRESHOLD_STEPS_USTX;
    let bob_lockup = 512 * POX_THRESHOLD_STEPS_USTX;
    let mut peer = Sim::new(auto_unlock_height, &[alice, bob], initial_balance);
    let first_v2_cycle = peer.reward_cycle(peer.ledger.params().v1_unlock_height) + 1;
    assert_eq!(first_v2_cycle, expected_first_v2_cycle);
    peer.check_pox_invariants = Some((expected_first_v2_cycle, expected_first_v2_cycle + 10));
    let expected_alice_first_reward_cycle = 6;

    // between Alice's first reward cycle and the start of the later cycles
    let alice_rewards_to_v2_start_checks = |peer: &Sim| {
        let cur_reward_cycle = peer.reward_cycle(peer.tip_height);
        assert!(cur_reward_cycle >= expected_alice_first_reward_cycle && cur_reward_cycle < first_v2_cycle);
        let reward_addrs = peer.reward_addresses();
        assert_eq!(reward_addrs.len(), 1);
        assert_eq!(reward_addrs[0].0.version, P2PKH);
        assert_eq!(reward_addrs[0].0.hash, key_to_addr(alice).hash);
        assert_eq!(reward_addrs[0].1, alice_lockup);
    };
    // after the start of the later cycles
    let v2_rewards_checks = |peer: &Sim| {
        let cur_reward_cycle = peer.reward_cycle(peer.tip_height);
        assert!(cur_reward_cycle >= first_v2_cycle);
        let reward_addrs = peer.reward_addresses();
        assert_eq!(reward_addrs.len(), 2);
        assert_eq!(reward_addrs[0].0.version, P2PKH);
        assert_eq!(reward_addrs[0].0.hash, key_to_addr(bob).hash);
        assert_eq!(reward_addrs[0].1, bob_lockup);
        assert_eq!(reward_addrs[1].0.version, P2PKH);
        assert_eq!(reward_addrs[1].0.hash, key_to_addr(alice).hash);
        assert_eq!(reward_addrs[1].1, alice_lockup);
    };

    assert_eq!(peer.tip_height, 0 + EMPTY_SORTITIONS);
    peer.tenure_with_txs(|_| {});
    assert_eq!(peer.balance(alice), initial_balance);
    let alice_account = get_stx_account_at(&peer.ledger, alice);
    assert_eq!(alice_account.balance_unlocked(), initial_balance);
    assert_eq!(alice_account.balance_locked(), 0);
    assert_eq!(alice_account.lock.unlock_height, 0);

    assert_eq!(peer.tip_height, 1 + EMPTY_SORTITIONS);
    peer.tenure_with_txs(|p| {
        let tip = p.tip_height;
        p.ledger.stack(alice, alice_lockup, key_to_addr(alice), 4, tip, PoxVersion::V1).unwrap();
        p.evaluate(alice, first_v2_cycle);
    });
    assert_eq!(peer.reward_addresses().len(), 0);
    let alice_first_reward_cycle = 1 + peer.reward_cycle(peer.tip_height);
    assert_eq!(alice_first_reward_cycle, expected_alice_first_reward_cycle);
    assert_eq!(peer.balance(alice), 0);

    // produce blocks until alice's first reward cycle
    for _i in 0..4 {
        peer.tenure_with_txs(|_| {});
    }
    // produce blocks until immediately after the switch
    for _i in 0..4 {
        peer.tenure_with_txs(|_| {});
        assert_eq!(peer.balance(alice), 0);
        alice_rewards_to_v2_start_checks(&peer);
    }

    // Bob locks up for cycles 8, 9, 10; Alice extends before she would be released
    assert_eq!(peer.tip_height, 10 + EMPTY_SORTITIONS);
    peer.tenure_with_txs(|p| {
        let tip = p.tip_height;
        let receipt = p.ledger.stack(bob, bob_lockup, key_to_addr(bob), 3, tip, PoxVersion::V2).unwrap();
        assert_eq!(receipt.first_reward_cycle, first_v2_cycle);
        p.evaluate(bob, u64::MAX);
        p.ledger.extend(alice, 6, key_to_addr(alice), tip).unwrap();
        p.evaluate(alice, u64::MAX);
    });
    alice_rewards_to_v2_start_checks(&peer);

    // extend bob's lockup for 1 more cycle
    peer.tenure_with_txs(|p| {
        let tip = p.tip_height;
        p.ledger.extend(bob, 1, key_to_addr(bob), tip).unwrap();
        p.evaluate(bob, u64::MAX);
    });
    alice_rewards_to_v2_start_checks(&peer);

    // produce blocks until the later cycles start
    for _i in 0..3 {
        peer.tenure_with_txs(|_| {});
        assert_eq!(peer.balance(alice), 0);
    }
    assert_eq!(peer.tip_height, 15 + EMPTY_SORTITIONS);
    v2_rewards_checks(&peer);

    // produce blocks until alice would have been unlocked without the extension
    for _i in 0..17 {
        peer.tenure_with_txs(|_| {});
        assert_eq!(peer.balance(alice), 0);
        v2_rewards_checks(&peer);
    }
    assert_eq!(peer.tip_height, 32 + EMPTY_SORTITIONS);
    // the first generation is retired
    peer.tenure_with_txs(|p| {
        let tip = p.tip_height;
        let r = p.ledger.stack(alice, 512 * POX_THRESHOLD_STEPS_USTX, key_to_addr(alice), 12, tip, PoxVersion::V1);
        assert!(r.is_err());
    });
    let StackingStateCheckData { first_cycle, lock_period, .. } =
        check_stacking_state_invariants(&peer.ledger, alice, true).ok().unwrap();
    assert_eq!(first_cycle, 6);
    assert_eq!(lock_period, 10);
}

#[test]
fn test_delegate_extend_transition_pox_2() {
    let auto_unlock_height = 12;
    let expected_first_v2_cycle = 8;
    let (alice, bob, charlie) = (key(30), key(20), key(10));
    let initial_balance = 1024 * POX_THRESHOLD_STEPS_USTX;
    let lockup_amt = 1024 * POX_THRESHOLD_STEPS_USTX;
    let mut peer = Sim::new(auto_unlock_height, &[alice, bob, charlie], initial_balance);
    let first_v2_cycle = peer.reward_cycle(peer.ledger.params().v1_unlock_height) + 1;
    assert_eq!(first_v2_cycle, expected_first_v2_cycle);
    peer.check_pox_invariants = Some((expected_first_v2_cycle, expected_first_v2_cycle + 10));
    let expected_alice_first_reward_cycle = 6;
    let charlie_pox_addr = key_to_addr(charlie);

    // after the start of the later cycles
    let v2_rewards_checks = |peer: &Sim| {
        let cur_reward_cycle = peer.reward_cycle(peer.tip_height);
        assert!(cur_reward_cycle >= first_v2_cycle);
        // the reward addresses are just Charlie's, with both lockups
        let reward_addrs = peer.reward_addresses();
        assert_eq!(reward_addrs.len(), 1);
        assert_eq!(reward_addrs[0].0.version, P2PKH);
        assert_eq!(reward_addrs[0].0.hash, charlie_pox_addr.hash);
        assert_eq!(reward_addrs[0].1, 2 * lockup_amt);
    };

    assert_eq!(peer.tip_height, 0 + EMPTY_SORTITIONS);
    peer.tenure_with_txs(|_| {});
    assert_eq!(peer.balance(alice), initial_balance);
    let alice_account = get_stx_account_at(&peer.ledger, alice);
    assert_eq!(alice_account.balance_unlocked(), initial_balance);
    assert_eq!(alice_account.balance_locked(), 0);
    assert_eq!(alice_account.lock.unlock_height, 0);

    // before the switch a delegation is taken, but no delegate can lock or commit
    assert_eq!(peer.tip_height, 1 + EMPTY_SORTITIONS);
    peer.tenure_with_txs(|p| {
        let tip = p.tip_height;
        p.ledger.delegate(alice, charlie, Some(lockup_amt), None, None);
        assert_eq!(
            p.ledger.delegate_stack(charlie, alice, lockup_amt, charlie_pox_addr, tip, 4),
            Err(LedgerError::ProtocolNotActive)
        );
        for k in 0..4 {
            assert_eq!(
                p.ledger.aggregate_commit(
                    charlie,
                    charlie_pox_addr,
                    expected_alice_first_reward_cycle + k,
                    tip
                ),
                Err(LedgerError::ProtocolNotActive)
            );
        }
    });
    assert_eq!(peer.reward_addresses().len(), 0);
    assert_eq!(1 + peer.reward_cycle(peer.tip_height), expected_alice_first_reward_cycle);
    assert_eq!(peer.balance(alice), initial_balance);
    for _i in 0..8 {
        peer.tenure_with_txs(|_| {});
        assert_eq!(peer.balance(alice), initial_balance);
        assert_eq!(peer.reward_addresses().len(), 0);
    }

    // Charlie locks for Bob for cycles 8, 9, 10 and for Alice for six cycles
    assert_eq!(peer.tip_height, 10 + EMPTY_SORTITIONS);
    peer.tenure_with_txs(|p| {
        let tip = p.tip_height;
        p.ledger.delegate(bob, charlie, Some(2048 * POX_THRESHOLD_STEPS_USTX), None, None);
        p.ledger.delegate(alice, charlie, Some(2048 * POX_THRESHOLD_STEPS_USTX), None, None);
        p.ledger.delegate_stack(charlie, bob, lockup_amt, charlie_pox_addr, tip, 3).unwrap();
        // Alice holds no lock that could be extended
        assert_eq!(
            p.ledger.delegate_extend(charlie, alice, charlie_pox_addr, 6, tip),
            Err(LedgerError::NotStacking)
        );
        p.ledger.delegate_stack(charlie, alice, lockup_amt, charlie_pox_addr, tip, 6).unwrap();
        // Charlie commits the first 3 cycles
        for k in 0..3 {
            assert_eq!(
                p.ledger.aggregate_commit(charlie, charlie_pox_addr, first_v2_cycle + k, tip),
                Ok(0)
            );
        }
    });
    assert_eq!(peer.balance(alice), 0);
    let StackingStateCheckData { first_cycle: alice_first_cycle, lock_period: alice_lock_period, .. } =
        check_stacking_state_invariants(&peer.ledger, alice, false).ok().unwrap();
    let StackingStateCheckData { first_cycle: bob_first_cycle, lock_period: bob_lock_period, .. } =
        check_stacking_state_invariants(&peer.ledger, bob, false).ok().unwrap();
    assert_eq!(alice_first_cycle, first_v2_cycle);
    assert_eq!(alice_lock_period, 6);
    assert_eq!(bob_first_cycle, first_v2_cycle);
    assert_eq!(bob_lock_period, 3);

    // extend bob's lockup for 1 more cycle, and commit the 4th cycle
    peer.tenure_with_txs(|p| {
        let tip = p.tip_height;
        p.ledger.delegate_extend(charlie, bob, charlie_pox_addr, 1, tip).unwrap();
        assert_eq!(
            p.ledger.aggregate_commit(charlie, charlie_pox_addr, first_v2_cycle + 3, tip),
            Ok(0)
        );
    });
    let StackingStateCheckData { first_cycle: alice_first_cycle, lock_period: alice_lock_period, .. } =
        check_stacking_state_invariants(&peer.ledger, alice, false).ok().unwrap();
    let StackingStateCheckData { first_cycle: bob_first_cycle, lock_period: bob_lock_period, .. } =
        check_stacking_state_invariants(&peer.ledger, bob, false).ok().unwrap();
    assert_eq!(alice_first_cycle, first_v2_cycle);
    assert_eq!(alice_lock_period, 6);
    assert_eq!(bob_first_cycle, first_v2_cycle);
    assert_eq!(bob_lock_period, 4);

    // produce blocks until the later cycles start
    for _i in 0..3 {
        peer.tenure_with_txs(|_| {});
        assert_eq!(peer.balance(alice), 0);
    }
    assert_eq!(peer.tip_height, 15 + EMPTY_SORTITIONS);

    // extend bob's lockup for 1 more cycle
    peer.tenure_with_txs(|p| {
        let tip = p.tip_height;
        p.ledger.delegate_extend(charlie, bob, charlie_pox_addr, 1, tip).unwrap();
    });
    v2_rewards_checks(&peer);
    let StackingStateCheckData { first_cycle: alice_first_cycle, lock_period: alice_lock_period, .. } =
        check_stacking_state_invariants(&peer.ledger, alice, false).ok().unwrap();
    let StackingStateCheckData { first_cycle: bob_first_cycle, lock_period: bob_lock_period, .. } =
        check_stacking_state_invariants(&peer.ledger, bob, false).ok().unwrap();
    assert_eq!(alice_first_cycle, first_v2_cycle);
    assert_eq!(alice_lock_period, 6);
    assert_eq!(bob_first_cycle, first_v2_cycle);
    assert_eq!(bob_lock_period, 5);
    assert_eq!(get_partial_stacked(&peer.ledger, charlie_pox_addr, first_v2_cycle + 4, charlie), 2 * lockup_amt);

    for _i in 0..16 {
        peer.tenure_with_txs(|_| {});
        assert_eq!(peer.balance(alice), 0);
        v2_rewards_checks(&peer);
    }
    assert_eq!(peer.tip_height, 32 + EMPTY_SORTITIONS);
    // the first generation is retired
    peer.tenure_with_txs(|p| {
        let tip = p.tip_height;
        let r = p.ledger.stack(alice, 512 * POX_THRESHOLD_STEPS_USTX, key_to_addr(alice), 12, tip, PoxVersion::V1);
        assert!(r.is_err());
    });
    v2_rewards_checks(&peer);
}

#[test]
fn test_pox_2_getters() {
    let auto_unlock_height = 12;
    let expected_first_v2_cycle = 8;
    let lockup_amt = 1024 * POX_THRESHOLD_STEPS_USTX;
    let (alice, bob, charlie, danielle) = (key(30), key(20), key(10), key(5));
    let mut peer = Sim::new(auto_unlock_height, &[alice, bob, charlie, danielle], lockup_amt);
    let first_v2_cycle = peer.reward_cycle(peer.ledger.params().v1_unlock_height) + 1;
    assert_eq!(first_v2_cycle, expected_first_v2_cycle);
    peer.check_pox_invariants = Some((expected_first_v2_cycle, expected_first_v2_cycle + 10));

    for _i in 0..20 {
        peer.tenure_with_txs(|_| {});
    }
    let cur_reward_cycle = peer.reward_cycle(peer.tip_height);
    let charlie_pox_addr = key_to_addr(charlie);
    peer.tenure_with_txs(|p| {
        let tip = p.tip_height;
        // alice locks
        p.ledger.stack(alice, lockup_amt, key_to_addr(alice), 4, tip, PoxVersion::V2).unwrap();
        p.evaluate(alice, u64::MAX);
        // bob delegates to charlie
        p.ledger.delegate(bob, charlie, Some(lockup_amt), None, None);
        // charlie stacks for bob
        p.ledger.delegate_stack(charlie, bob, lockup_amt, charlie_pox_addr, tip, 4).unwrap();
        assert_eq!(
            p.ledger.aggregate_commit(charlie, charlie_pox_addr, cur_reward_cycle, tip),
            Err(LedgerError::NothingToCommit)
        );
        p.ledger.aggregate_commit(charlie, charlie_pox_addr, cur_reward_cycle + 1, tip).unwrap();
        p.ledger.aggregate_commit(charlie, charlie_pox_addr, cur_reward_cycle + 2, tip).unwrap();
        p.ledger.reject(danielle, cur_reward_cycle + 1).unwrap();
    });

    assert!(peer.ledger.delegation(alice).is_none());
    let bob_delegation_info = peer.ledger.delegation(bob).unwrap();
    assert_eq!(bob_delegation_info.delegate, charlie);
    assert_eq!(bob_delegation_info.amount_constraint, Some(lockup_amt));
    assert!(bob_delegation_info.address_constraint.is_none());

    let current_num_reward_addrs = peer.ledger.read(cur_reward_cycle + 1, 1).map(|_| 2);
    assert_eq!(current_num_reward_addrs, Some(2));
    assert!(peer.ledger.read(cur_reward_cycle + 1, 2).is_none());
    assert!(peer.ledger.read(1000, 0).is_none());

    for i in 0..3 {
        let partial_stacked =
            get_partial_stacked(&peer.ledger, charlie_pox_addr, cur_reward_cycle + i, charlie);
        assert_eq!(partial_stacked, 0);
    }
    let partial_stacked =
        get_partial_stacked(&peer.ledger, charlie_pox_addr, cur_reward_cycle + 3, charlie);
    assert_eq!(partial_stacked, lockup_amt);

    assert_eq!(peer.ledger.rejection(cur_reward_cycle), 0);
    assert_eq!(peer.ledger.rejection(cur_reward_cycle + 1), lockup_amt);
    assert_eq!(peer.ledger.rejection(cur_reward_cycle + 2), 0);
}
