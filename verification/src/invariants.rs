//! The invariant checker: a read-only diagnostic that walks the links between
//! stacking records and reward cycle address lists and reports the first
//! violation it finds. It assumes nothing about the ledger it is given.

use vstd::prelude::*;
use std::collections::HashMap;
use crate::cycle::{spec_cycle_of, spec_start_height_of};
use crate::ledger::Ledger;
use crate::records::StackingStateView;
use crate::reward_list::{lemma_sum_push, sum_amounts, RewardCycleAddressListEntry};
use crate::transition::Phase;
use crate::types::{Principal, RewardAddress};

verus! {

broadcast use vstd::std_specs::hash::group_hash_axioms;

/// What the checker can find wrong.
#[derive(Clone, Copy, Debug, PartialEq, Eq, Structural)]
pub enum InvariantViolation {
    /// An entry names a stacker that has no stacking record.
    MissingStackingState,
    /// The stacking record and the account disagree on the unlock height.
    UnlockHeightMismatch,
    /// The record does not hold one index per covered cycle.
    IndexCountMismatch,
    /// A recorded index names no entry.
    DanglingIndex,
    /// A recorded index names an entry without a stacker.
    EntryWithoutStacker,
    /// A recorded index names another stacker's entry.
    StackerMismatch,
    /// An entry and the stacking record linked to it pay to different addresses.
    RewardAddressMismatch,
    /// An entry names a stacker whose record does not cover the entry's cycle.
    CycleNotCovered,
    /// The index recorded for the entry's cycle is not the entry's index.
    IndexMismatch,
    /// The cycle's total is not the sum of its entries.
    TotalMismatch,
}

/// What a clean check of a stacking record found.
pub struct StackingStateCheckData {
    pub pox_addr: RewardAddress,
    /// From reward cycle number to the index recorded for it; filled for the
    /// cycles whose links were checked.
    pub cycle_indexes: HashMap<u64, u64>,
    pub first_cycle: u64,
    pub lock_period: u64,
}

/// A violation with the cycle in which it was found.
#[derive(Clone, Copy, Debug, PartialEq, Eq, Structural)]
pub struct CycleViolation {
    pub cycle: u64,
    pub violation: InvariantViolation,
}

impl Ledger {
    /// What is wrong with the `k`-th recorded index of `state`, if anything:
    /// the index must name an entry of its cycle, and the entry must belong
    /// to `stacker` and pay to the record's address.
    pub open spec fn spec_link_violation(
        &self,
        stacker: Principal,
        state: StackingStateView,
        k: int,
    ) -> Option<InvariantViolation> {
        let cycle = state.first_reward_cycle + k;
        let index = state.reward_set_indexes[k] as int;
        if cycle > u64::MAX || index >= self.spec_entries(cycle as u64).len() {
            Some(InvariantViolation::DanglingIndex)
        } else {
            let entry = self.spec_entries(cycle as u64)[index];
            match entry.stacker {
                None => Some(InvariantViolation::EntryWithoutStacker),
                Some(owner) => if owner != stacker {
                    Some(InvariantViolation::StackerMismatch)
                } else if entry.reward_address != state.reward_address {
                    Some(InvariantViolation::RewardAddressMismatch)
                } else {
                    None
                },
            }
        }
    }

    /// The first violation among the recorded indexes of `state` from the
    /// `k`-th on.
    pub open spec fn spec_links_violation_from(
        &self,
        stacker: Principal,
        state: StackingStateView,
        k: int,
    ) -> Option<InvariantViolation>
        decreases state.reward_set_indexes.len() - k,
    {
        if k < 0 || k >= state.reward_set_indexes.len() {
            None
        } else if self.spec_link_violation(stacker, state, k) is Some {
            self.spec_link_violation(stacker, state, k)
        } else {
            self.spec_links_violation_from(stacker, state, k + 1)
        }
    }

    /// Whether the links of `stacker`'s record are checked: always where the
    /// caller expects indexes, else only where some were recorded.
    pub open spec fn spec_links_checked(state: StackingStateView, expect_indexes: bool) -> bool {
        state.reward_set_indexes.len() > 0 || expect_indexes
    }

    /// The first violation in the stacking record of `stacker`, if any. The
    /// record must exist and agree with the account on the unlock height;
    /// where the links are checked, it must hold one index per covered cycle
    /// and every link must hold.
    pub open spec fn spec_state_violation(&self, stacker: Principal, expect_indexes: bool) -> Option<
        InvariantViolation,
    > {
        match self.spec_stacking(stacker) {
            None => Some(InvariantViolation::MissingStackingState),
            Some(state) => if self.spec_account(stacker).lock.unlock_height
                != spec_start_height_of(self.spec_params().cycles, state.end_cycle()) {
                Some(InvariantViolation::UnlockHeightMismatch)
            } else if Self::spec_links_checked(state, expect_indexes) {
                if state.reward_set_indexes.len() != state.lock_period {
                    Some(InvariantViolation::IndexCountMismatch)
                } else {
                    self.spec_links_violation_from(stacker, state, 0)
                }
            } else {
                None
            },
        }
    }

    /// The map from each covered cycle to its recorded index, where the links
    /// were checked; the empty map where they were not.
    pub open spec fn spec_cycle_indexes(state: StackingStateView, expect_indexes: bool) -> Map<
        u64,
        u64,
    > {
        if Self::spec_links_checked(state, expect_indexes) {
            Map::new(|c: u64| state.is_committed(c), |c: u64| state.index_for(c))
        } else {
            Map::empty()
        }
    }

    /// Whether the entries of `cycle` are exempt from the link checks at
    /// `tip_height`: once the chain tip lies in a later cycle, the stackers
    /// of that cycle may have been released and their records deleted.
    pub open spec fn spec_links_exempt(&self, tip_height: u64, cycle: u64) -> bool {
        let grid = self.spec_params().cycles;
        grid.cycle_length > 0 && tip_height >= grid.first_burn_height && spec_cycle_of(
            grid,
            tip_height as int,
        ) > cycle
    }

    /// What is wrong with the link from the entry at `index` of `cycle` back
    /// to its stacker, if anything. An entry without a stacker has no link.
    /// Else the stacker's record must pass its own check with indexes
    /// expected, pay to the entry's address, cover the cycle and record this
    /// entry's index for it.
    pub open spec fn spec_entry_violation(&self, cycle: u64, index: int) -> Option<
        InvariantViolation,
    > {
        let entry = self.spec_entries(cycle)[index];
        match entry.stacker {
            None => None,
            Some(stacker) => if self.spec_state_violation(stacker, true) is Some {
                self.spec_state_violation(stacker, true)
            } else {
                let state = self.spec_stacking(stacker).unwrap();
                if entry.reward_address != state.reward_address {
                    Some(InvariantViolation::RewardAddressMismatch)
                } else if !state.is_committed(cycle) {
                    Some(InvariantViolation::CycleNotCovered)
                } else if state.index_for(cycle) != index {
                    Some(InvariantViolation::IndexMismatch)
                } else {
                    None
                }
            },
        }
    }

    /// The first violation among the entries of `cycle` from `index` on.
    pub open spec fn spec_entries_violation_from(&self, cycle: u64, index: int) -> Option<
        InvariantViolation,
    >
        decreases self.spec_entries(cycle).len() - index,
    {
        if index < 0 || index >= self.spec_entries(cycle).len() {
            None
        } else if self.spec_entry_violation(cycle, index) is Some {
            self.spec_entry_violation(cycle, index)
        } else {
            self.spec_entries_violation_from(cycle, index + 1)
        }
    }

    /// The first violation in `cycle`, if any: the entries' links in index
    /// order, unless the cycle is exempt at `tip_height`, then the total,
    /// which must be the sum of the amounts of all entries.
    pub open spec fn spec_cycle_violation(&self, tip_height: u64, cycle: u64) -> Option<
        InvariantViolation,
    > {
        if !self.spec_links_exempt(tip_height, cycle) && self.spec_entries_violation_from(cycle, 0)
            is Some {
            self.spec_entries_violation_from(cycle, 0)
        } else if sum_amounts(self.spec_entries(cycle)) != self.spec_total(cycle) {
            Some(InvariantViolation::TotalMismatch)
        } else {
            None
        }
    }

    /// The first cycle from `first_cycle` up to `max_cycle` in which the
    /// checker finds a violation at `tip_height`, with the violation.
    pub open spec fn spec_first_violation(
        &self,
        tip_height: u64,
        first_cycle: u64,
        max_cycle: u64,
    ) -> Option<CycleViolation>
        decreases max_cycle - first_cycle + 1,
    {
        if first_cycle > max_cycle {
            None
        } else {
            match self.spec_cycle_violation(tip_height, first_cycle) {
                Some(violation) => Some(CycleViolation { cycle: first_cycle, violation }),
                None => if first_cycle == max_cycle {
                    None
                } else {
                    self.spec_first_violation(tip_height, (first_cycle + 1) as u64, max_cycle)
                },
            }
        }
    }

}

/// Checks the stacking record of `stacker` against the account and the
/// address lists, and reports the first violation. A clean check gives
/// back the record's address, span and links.
pub fn check_stacking_state_invariants(ledger: &Ledger, stacker: Principal, expect_indexes: bool) -> (r:
    Result<StackingStateCheckData, InvariantViolation>)
    ensures
        r is Ok <==> ledger.spec_state_violation(stacker, expect_indexes) is None,
        r matches Err(v) ==> ledger.spec_state_violation(stacker, expect_indexes) == Some(v),
        r matches Ok(data) ==> {
            let state = ledger.spec_stacking(stacker).unwrap();
            &&& data.pox_addr == state.reward_address
            &&& data.first_cycle == state.first_reward_cycle
            &&& data.lock_period == state.lock_period
            &&& data.cycle_indexes@ == Ledger::spec_cycle_indexes(state, expect_indexes)
        },
{
    let state = match ledger.stacking.get(&stacker.id) {
        None => {
            return Err(InvariantViolation::MissingStackingState);
        },
        Some(state) => state,
    };
    let ghost view = state@;
    let account = ledger.account(stacker);
    let expected_unlock = match state.first_reward_cycle.checked_add(state.lock_period) {
        None => None,
        Some(end) => match end.checked_mul(ledger.params.cycles.cycle_length) {
            None => None,
            Some(span) => ledger.params.cycles.first_burn_height.checked_add(span),
        },
    };
    proof {
        let len = ledger.params.cycles.cycle_length as int;
        let end = view.end_cycle();
        assert(end > u64::MAX ==> end * len > u64::MAX || len == 0) by (nonlinear_arith)
            requires
                end >= 0,
                len >= 0,
        ;
        if len == 0 {
            assert(end * len == 0) by (nonlinear_arith)
                requires
                    len == 0,
            ;
        }
    }
    match expected_unlock {
        None => {
            if state.first_reward_cycle.checked_add(state.lock_period).is_none()
                && ledger.params.cycles.cycle_length == 0 {
                if account.lock.unlock_height != ledger.params.cycles.first_burn_height {
                    return Err(InvariantViolation::UnlockHeightMismatch);
                }
            } else {
                return Err(InvariantViolation::UnlockHeightMismatch);
            }
        },
        Some(h) => {
            if account.lock.unlock_height != h {
                return Err(InvariantViolation::UnlockHeightMismatch);
            }
        },
    }
    let mut cycle_indexes: HashMap<u64, u64> = HashMap::new();
    let recorded = state.reward_set_indexes.len();
    if recorded > 0 || expect_indexes {
        if recorded as u64 != state.lock_period {
            return Err(InvariantViolation::IndexCountMismatch);
        }
        assert(ledger.spec_state_violation(stacker, expect_indexes)
            == ledger.spec_links_violation_from(stacker, view, 0));
        let mut k: usize = 0;
        while k < recorded
            invariant
                view == state@,
                recorded == view.reward_set_indexes.len(),
                k <= recorded,
                ledger.spec_state_violation(stacker, expect_indexes)
                    == ledger.spec_links_violation_from(stacker, view, k as int),
                cycle_indexes@ == Map::<u64, u64>::new(
                    |c: u64| view.first_reward_cycle <= c < view.first_reward_cycle + k,
                    |c: u64| view.index_for(c),
                ),
            decreases recorded - k,
        {
            let index = state.reward_set_indexes[k];
            let cycle = match state.first_reward_cycle.checked_add(k as u64) {
                None => {
                    return Err(InvariantViolation::DanglingIndex);
                },
                Some(cycle) => cycle,
            };
            let entry = match ledger.cycles.read(cycle, index) {
                None => {
                    return Err(InvariantViolation::DanglingIndex);
                },
                Some(entry) => entry,
            };
            let owner = match entry.stacker {
                None => {
                    return Err(InvariantViolation::EntryWithoutStacker);
                },
                Some(owner) => owner,
            };
            if owner != stacker {
                return Err(InvariantViolation::StackerMismatch);
            }
            if entry.reward_address != state.reward_address {
                return Err(InvariantViolation::RewardAddressMismatch);
            }
            assert(ledger.spec_link_violation(stacker, view, k as int) is None);
            cycle_indexes.insert(cycle, index);
            assert(cycle_indexes@ =~= Map::<u64, u64>::new(
                |c: u64| view.first_reward_cycle <= c < view.first_reward_cycle + (k + 1),
                |c: u64| view.index_for(c),
            ));
            k += 1;
        }
        assert(cycle_indexes@ =~= Ledger::spec_cycle_indexes(view, expect_indexes));
    }
    Ok(
        StackingStateCheckData {
            pox_addr: state.reward_address,
            cycle_indexes,
            first_cycle: state.first_reward_cycle,
            lock_period: state.lock_period,
        },
    )
}

/// Checks every entry of `cycle_number` against its stacker's record, and
/// the cycle's total against the sum of its entries, as seen from a chain
/// tip at `tip_height`. Reports the first violation.
pub fn check_stacker_link_invariants(ledger: &Ledger, tip_height: u64, cycle_number: u64) -> (r: Result<
    (),
    InvariantViolation,
>)
    ensures
        r is Ok <==> ledger.spec_cycle_violation(tip_height, cycle_number) is None,
        r matches Err(v) ==> ledger.spec_cycle_violation(tip_height, cycle_number) == Some(v),
{
    let grid = ledger.params.cycles;
    let exempt = grid.cycle_length > 0 && tip_height >= grid.first_burn_height && (tip_height
        - grid.first_burn_height) / grid.cycle_length > cycle_number;
    let entries = ledger.cycles.entries(cycle_number);
    let mut checked_total: u128 = 0;
    let mut overflowed = false;
    let mut i: usize = 0;
    assert(entries@.subrange(0, 0) =~= Seq::<RewardCycleAddressListEntry>::empty());
    while i < entries.len()
        invariant
            entries@ == ledger.spec_entries(cycle_number),
            exempt == ledger.spec_links_exempt(tip_height, cycle_number),
            i <= entries@.len(),
            !overflowed ==> checked_total == sum_amounts(entries@.subrange(0, i as int)),
            overflowed ==> sum_amounts(entries@.subrange(0, i as int)) > u128::MAX,
            !exempt ==> ledger.spec_entries_violation_from(cycle_number, 0)
                == ledger.spec_entries_violation_from(cycle_number, i as int),
        decreases entries@.len() - i,
    {
        let entry = entries[i];
        proof {
            lemma_sum_push(entries@.subrange(0, i as int), entry);
            assert(entries@.subrange(0, i as int).push(entry) =~= entries@.subrange(
                0,
                i as int + 1,
            ));
        }
        if !overflowed {
            match checked_total.checked_add(entry.amount_stacked) {
                None => {
                    overflowed = true;
                },
                Some(sum) => {
                    checked_total = sum;
                },
            }
        }
        match entry.stacker {
            None => {},
            Some(stacker) => {
                if !exempt {
                    let data = match check_stacking_state_invariants(ledger, stacker, true) {
                        Err(v) => {
                            return Err(v);
                        },
                        Ok(data) => data,
                    };
                    if entry.reward_address != data.pox_addr {
                        return Err(InvariantViolation::RewardAddressMismatch);
                    }
                    match data.cycle_indexes.get(&cycle_number) {
                        None => {
                            return Err(InvariantViolation::CycleNotCovered);
                        },
                        Some(recorded) => {
                            if *recorded != i as u64 {
                                return Err(InvariantViolation::IndexMismatch);
                            }
                        },
                    }
                    assert(ledger.spec_entry_violation(cycle_number, i as int) is None);
                }
            },
        }
        i += 1;
    }
    assert(entries@.subrange(0, i as int) =~= entries@);
    if overflowed || checked_total != ledger.cycles.total(cycle_number) {
        return Err(InvariantViolation::TotalMismatch);
    }
    Ok(())
}

/// Runs `check_stacker_link_invariants` on every cycle from
/// `first_cycle_number` up to and including `max_cycle_number`, and
/// reports the first violation with its cycle. Before the transition
/// height there is nothing to check.
pub fn check_all_stacker_link_invariants(
    ledger: &Ledger,
    tip_height: u64,
    first_cycle_number: u64,
    max_cycle_number: u64,
) -> (r: Result<(), CycleViolation>)
    ensures
        ledger.spec_phase(tip_height) == Phase::PreTransition ==> r is Ok,
        ledger.spec_phase(tip_height) == Phase::PostTransition ==> {
            &&& r is Ok <==> ledger.spec_first_violation(
                tip_height,
                first_cycle_number,
                max_cycle_number,
            ) is None
            &&& r matches Err(found) ==> ledger.spec_first_violation(
                tip_height,
                first_cycle_number,
                max_cycle_number,
            ) == Some(found)
        },
{
    if tip_height < ledger.params.transition_height {
        return Ok(());
    }
    if first_cycle_number > max_cycle_number {
        return Ok(());
    }
    let mut cycle = first_cycle_number;
    loop
        invariant
            tip_height >= ledger.spec_params().transition_height,
            first_cycle_number <= cycle <= max_cycle_number,
            ledger.spec_first_violation(tip_height, first_cycle_number, max_cycle_number)
                == ledger.spec_first_violation(tip_height, cycle, max_cycle_number),
        decreases max_cycle_number - cycle,
    {
        match check_stacker_link_invariants(ledger, tip_height, cycle) {
            Err(violation) => {
                return Err(CycleViolation { cycle, violation });
            },
            Ok(()) => {},
        }
        if cycle == max_cycle_number {
            return Ok(());
        }
        cycle += 1;
    }
}

} // verus!
