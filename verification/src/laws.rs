//! What holds of every ledger that the operations can reach, stated over the
//! same spec functions as the operations' contracts.

use vstd::prelude::*;
use crate::account::Account;
use crate::ledger::Ledger;
use crate::records::StackingStateView;
use crate::reward_list::sum_amounts;
use crate::types::{LedgerError, PoxVersion, Principal, RewardAddress};

verus! {

/// Index stability: an operation that leaves the address lists as they were
/// keeps every slot.
pub proof fn lemma_same_lists_are_stable(before: &Ledger, after: &Ledger)
    requires
        after.same_cycles(before),
    ensures
        after.slots_stable(before),
{
    assert forall|c: u64, i: int| 0 <= i < before.spec_entries(c).len() implies {
        let b = #[trigger] before.spec_entries(c)[i];
        let a = after.spec_entries(c)[i];
        &&& i < after.spec_entries(c).len()
        &&& a == b
    } by {
        assert(after.spec_entries(c) == before.spec_entries(c));
    }
}

/// Index stability over a sequence of operations: slots that are kept by
/// each step are kept by the whole sequence.
pub proof fn lemma_stability_composes(first: &Ledger, second: &Ledger, third: &Ledger)
    requires
        second.slots_stable(first),
        third.slots_stable(second),
    ensures
        third.slots_stable(first),
{
    assert forall|c: u64, i: int| 0 <= i < first.spec_entries(c).len() implies {
        let b = #[trigger] first.spec_entries(c)[i];
        let a = third.spec_entries(c)[i];
        &&& i < third.spec_entries(c).len()
        &&& a.cycle == b.cycle
        &&& a.index == b.index
        &&& a.reward_address == b.reward_address
        &&& a.stacker == b.stacker
        &&& a.amount_stacked >= b.amount_stacked
    } by {
        let m = second.spec_entries(c)[i];
    }
}

/// Whether the slot at `index` of `cycle` reads in `after` as in `before`,
/// but for its amount, which is `delta` more.
pub open spec fn slot_raised_by(
    before: &Ledger,
    after: &Ledger,
    cycle: u64,
    index: int,
    delta: int,
) -> bool {
    &&& 0 <= index < before.spec_entries(cycle).len()
    &&& index < after.spec_entries(cycle).len()
    &&& after.spec_entries(cycle)[index].cycle == before.spec_entries(cycle)[index].cycle
    &&& after.spec_entries(cycle)[index].index == before.spec_entries(cycle)[index].index
    &&& after.spec_entries(cycle)[index].reward_address == before.spec_entries(
        cycle,
    )[index].reward_address
    &&& after.spec_entries(cycle)[index].stacker == before.spec_entries(cycle)[index].stacker
    &&& after.spec_entries(cycle)[index].amount_stacked == before.spec_entries(
        cycle,
    )[index].amount_stacked + delta
}

/// The sum of a list of amounts.
pub open spec fn sum_of(deltas: Seq<int>) -> int
    decreases deltas.len(),
{
    if deltas.len() == 0 {
        0
    } else {
        sum_of(deltas.drop_last()) + deltas.last()
    }
}

/// Index stability of one step: an operation that keeps the slots keeps
/// each of them with its cycle, index, address and stacker, and adds to its
/// amount what the operation stacked on it, which is never less than nothing.
pub proof fn lemma_stable_slot(before: &Ledger, after: &Ledger, cycle: u64, index: int)
    requires
        after.slots_stable(before),
        0 <= index < before.spec_entries(cycle).len(),
    ensures
        slot_raised_by(
            before,
            after,
            cycle,
            index,
            after.spec_entries(cycle)[index].amount_stacked - before.spec_entries(
                cycle,
            )[index].amount_stacked,
        ),
        after.spec_entries(cycle)[index].amount_stacked >= before.spec_entries(
            cycle,
        )[index].amount_stacked,
{
    let b = before.spec_entries(cycle)[index];
}

/// Index stability over any sequence of operations: where each step keeps
/// the slot and adds `deltas[k]` to it, the slot reads at the end as at the
/// start, with the sum of the deltas added to its amount.
pub proof fn lemma_slot_over_sequence(
    states: Seq<Ledger>,
    deltas: Seq<int>,
    cycle: u64,
    index: int,
)
    requires
        states.len() == deltas.len() + 1,
        0 <= index < states[0].spec_entries(cycle).len(),
        forall|k: int|
            0 <= k < deltas.len() ==> slot_raised_by(
                &states[k],
                #[trigger] &states[k + 1],
                cycle,
                index,
                deltas[k],
            ),
    ensures
        slot_raised_by(&states[0], &states.last(), cycle, index, sum_of(deltas)),
    decreases deltas.len(),
{
    if deltas.len() > 0 {
        let n = deltas.len() as int;
        let earlier = states.drop_last();
        assert forall|k: int| 0 <= k < deltas.drop_last().len() implies slot_raised_by(
            &earlier[k],
            #[trigger] &earlier[k + 1],
            cycle,
            index,
            deltas.drop_last()[k],
        ) by {
            assert(slot_raised_by(&states[k], &states[k + 1], cycle, index, deltas[k]));
        }
        lemma_slot_over_sequence(earlier, deltas.drop_last(), cycle, index);
        assert(earlier.last() == states[n - 1]);
        assert(slot_raised_by(&states[n - 1], &states[n - 1 + 1], cycle, index, deltas[n - 1]));
        assert(states[n] == states.last());
    }
}

/// Index stability under the release of first-generation locks: a slot that
/// the release does not take back reads as before, and a cycle before the
/// release cycle keeps its whole list and its total.
pub proof fn lemma_release_keeps_other_slots(before: &Ledger, after: &Ledger, cycle: u64)
    requires
        before.wf(),
        after.wf(),
        after.v1_released_from(before),
    ensures
        after.spec_entries(cycle).len() == before.spec_entries(cycle).len(),
        forall|i: int|
            0 <= i < before.spec_entries(cycle).len() && !before.spec_retractable(cycle, i)
                ==> #[trigger] after.spec_entries(cycle)[i] == before.spec_entries(cycle)[i],
        cycle < before.spec_params().spec_v1_unlock_cycle() ==> after.spec_entries(cycle)
            == before.spec_entries(cycle) && after.spec_total(cycle) == before.spec_total(cycle),
{
    if cycle < before.spec_params().spec_v1_unlock_cycle() {
        assert forall|i: int| 0 <= i < before.spec_entries(cycle).len() implies after.spec_entries(
            cycle,
        )[i] == before.spec_entries(cycle)[i] by {
            assert(!before.spec_retractable(cycle, i));
        }
        assert(after.spec_entries(cycle) =~= before.spec_entries(cycle));
        before.lemma_wf();
        after.lemma_wf();
    }
}

/// The release of first-generation locks leaves a released stacker no entry
/// from the release cycle on: no slot there names the stacker any more,
/// the record is gone and the account is unlocked. A slot that held nothing
/// for a released stacker reads as before, so every other stacker's entry
/// keeps its reward address, amount and stacker.
pub proof fn lemma_release_clears_stacker(
    before: &Ledger,
    after: &Ledger,
    cycle: u64,
    who: Principal,
    index: int,
)
    requires
        before.wf(),
        after.v1_released_from(before),
        before.spec_early_unlock_due(who),
        cycle >= before.spec_params().spec_v1_unlock_cycle(),
        0 <= index < after.spec_entries(cycle).len(),
    ensures
        after.spec_entries(cycle)[index].stacker != Some(who),
        after.spec_stacking(who) is None,
        after.spec_account(who) == before.spec_account(who).spec_unlock(),
        !before.spec_retractable(cycle, index) ==> after.spec_entries(cycle)[index]
            == before.spec_entries(cycle)[index],
{
    before.lemma_wf();
    lemma_slot_shape(before, cycle, index);
    assert(after.spec_entries(cycle).len() == before.spec_entries(cycle).len());
    let b = before.spec_entries(cycle)[index];
    if b.stacker == Some(who) {
        assert(before.spec_retractable(cycle, index));
    }
}

/// Every slot names its own cycle and index, and names a stacker only while
/// it holds an amount.
pub proof fn lemma_slot_shape(ledger: &Ledger, cycle: u64, index: int)
    requires
        ledger.wf(),
        0 <= index < ledger.spec_entries(cycle).len(),
    ensures
        ledger.spec_entries(cycle)[index].cycle == cycle,
        ledger.spec_entries(cycle)[index].index == index,
        ledger.spec_entries(cycle)[index].amount_stacked == 0 ==> ledger.spec_entries(
            cycle,
        )[index].stacker is None,
{
    ledger.lemma_slot_shapes(cycle);
}

/// Total reconciliation: in every cycle the total is the sum of the amounts
/// of the cycle's entries.
pub proof fn lemma_total_reconciliation(ledger: &Ledger, cycle: u64)
    requires
        ledger.wf(),
    ensures
        ledger.spec_total(cycle) == sum_amounts(ledger.spec_entries(cycle)),
{
    ledger.lemma_wf();
}

/// Link consistency: every index that a stacking record holds names an entry
/// of its cycle whose stacker is the record's principal and whose reward
/// address is the record's.
pub proof fn lemma_link_consistency(ledger: &Ledger, who: Principal, k: int)
    requires
        ledger.wf(),
        ledger.spec_stacking(who) is Some,
        0 <= k < ledger.spec_stacking(who).unwrap().reward_set_indexes.len(),
    ensures
        ({
            let state = ledger.spec_stacking(who).unwrap();
            let cycle = (state.first_reward_cycle + k) as u64;
            let index = state.reward_set_indexes[k] as int;
            &&& state.first_reward_cycle + k <= u64::MAX
            &&& index < ledger.spec_entries(cycle).len()
            &&& ledger.spec_entries(cycle)[index].stacker == Some(who)
            &&& ledger.spec_entries(cycle)[index].reward_address == state.reward_address
        }),
{
    ledger.lemma_wf();
    let state = ledger.spec_stacking(who).unwrap();
    assert(ledger.stacker_consistent(who));
    assert(ledger.link_holds(who, state, ledger.spec_account(who), k));
}

/// Locked-amount conservation, as a bound: every entry recorded for a
/// stacker holds an amount, and no more than the stacker's account has
/// locked. An entry holds less only where the lock was increased after the
/// entry's cycle had begun.
pub proof fn lemma_locked_amount_bound(ledger: &Ledger, who: Principal, k: int)
    requires
        ledger.wf(),
        ledger.spec_stacking(who) is Some,
        0 <= k < ledger.spec_stacking(who).unwrap().reward_set_indexes.len(),
    ensures
        ({
            let state = ledger.spec_stacking(who).unwrap();
            let cycle = (state.first_reward_cycle + k) as u64;
            let index = state.reward_set_indexes[k] as int;
            0 < ledger.spec_entries(cycle)[index].amount_stacked <= ledger.spec_account(
                who,
            ).lock.locked_amount
        }),
        ledger.spec_account(who).wf(),
{
    ledger.lemma_wf();
    let state = ledger.spec_stacking(who).unwrap();
    assert(ledger.stacker_consistent(who));
    assert(ledger.link_holds(who, state, ledger.spec_account(who), k));
}

/// Locked-amount conservation: the entry recorded for a cycle holds exactly
/// what the stacker's account has locked, for every cycle that comes after
/// the last increase of the lock; so does the entry of every cycle where the
/// lock was never increased. An entry of the cycle of an increase, or of an
/// earlier one, keeps the amount it had.
pub proof fn lemma_locked_amount_conservation(ledger: &Ledger, who: Principal, cycle: u64)
    requires
        ledger.wf(),
        ledger.spec_stacking(who) is Some,
        ledger.spec_stacking(who).unwrap().is_committed(cycle),
        ledger.spec_stacking(who).unwrap().holds_whole_lock(cycle),
    ensures
        ({
            let state = ledger.spec_stacking(who).unwrap();
            &&& state.index_for(cycle) < ledger.spec_entries(cycle).len()
            &&& ledger.spec_entries(cycle)[state.index_for(cycle) as int].amount_stacked
                == ledger.spec_account(who).lock.locked_amount
            &&& ledger.spec_entries(cycle)[state.index_for(cycle) as int].stacker == Some(who)
        }),
        ledger.spec_account(who).lock.locked_amount > 0,
        ledger.spec_account(who).lock.unlock_height > 0,
{
    ledger.lemma_wf();
    let state = ledger.spec_stacking(who).unwrap();
    assert(ledger.stacker_consistent(who));
    assert(ledger.spec_account(who).wf());
    assert(ledger.link_holds(
        who,
        state,
        ledger.spec_account(who),
        cycle - state.first_reward_cycle,
    ));
}

/// Locked-amount conservation for a lock that a delegate placed: for every
/// covered cycle that comes after the last increase of the lock, what waits
/// for the delegate under the record's address holds at least what the
/// principal has locked, until the delegate commits the cycle under that
/// address. What several principals have locked through one delegate is
/// pooled there, so no more than this bound can be said of one of them.
pub proof fn lemma_pool_covers_lock(ledger: &Ledger, who: Principal, cycle: u64)
    requires
        ledger.wf(),
        ledger.spec_stacking(who) is Some,
        ledger.spec_stacking(who).unwrap().delegated_to is Some,
        ledger.spec_stacking(who).unwrap().first_reward_cycle <= cycle < ledger.spec_stacking(
            who,
        ).unwrap().end_cycle(),
        ledger.spec_stacking(who).unwrap().holds_whole_lock(cycle),
    ensures
        ({
            let state = ledger.spec_stacking(who).unwrap();
            let delegate = state.delegated_to.unwrap();
            ledger.spec_committed(state.reward_address, cycle, delegate) is Some
                || ledger.spec_pending(state.reward_address, cycle, delegate)
                >= ledger.spec_account(who).lock.locked_amount
        }),
        ledger.spec_stacking(who).unwrap().reward_set_indexes.len() == 0,
        ledger.spec_account(who).lock.locked_amount > 0,
{
    ledger.lemma_wf();
    let state = ledger.spec_stacking(who).unwrap();
    assert(ledger.stacker_consistent(who));
    assert(ledger.spec_account(who).wf());
    assert(ledger.pool_covers(state, ledger.spec_account(who), cycle));
}

/// Locked-amount conservation for a cycle that has no entry yet: the entry
/// that `record_reward_set_index` makes next holds what is locked, since the
/// operation is not refused for a stacker whose covered cycles are not all
/// recorded, unless the cycle's total would overflow.
pub proof fn lemma_next_entry_is_owed(ledger: &Ledger, who: Principal)
    requires
        ledger.wf(),
        ledger.spec_stacking(who) is Some,
        ledger.spec_stacking(who).unwrap().delegated_to is None,
        ledger.spec_stacking(who).unwrap().reward_set_indexes.len() < ledger.spec_stacking(
            who,
        ).unwrap().lock_period,
    ensures
        ledger.spec_record_refusal(who) is None || ledger.spec_record_refusal(who) == Some(
            LedgerError::ArithmeticOverflow,
        ),
{
}

/// Boundary: `stack` refuses a lock period of zero as an invalid lock
/// period, whatever else holds.
pub proof fn lemma_zero_lock_period_refused(
    ledger: &Ledger,
    who: Principal,
    amount: u128,
    start_height: u64,
    version: PoxVersion,
)
    ensures
        ledger.spec_stack_refusal(who, amount, 0, start_height, version) == Some(
            LedgerError::InvalidLockPeriod,
        ),
{
}

/// Boundary: `increase` and `delegate_increase` refuse an increase by zero
/// as an invalid amount, whatever else holds.
pub proof fn lemma_zero_increase_refused(
    ledger: &Ledger,
    who: Principal,
    delegate: Principal,
    reward_address: RewardAddress,
    height: u64,
)
    ensures
        ledger.spec_increase_refusal(who, 0, height) == Some(LedgerError::InvalidAmount),
        ledger.spec_delegate_increase_refusal(delegate, who, reward_address, 0, height) == Some(
            LedgerError::InvalidAmount,
        ),
{
}

/// The links of a consistent ledger pass the checker from any index on.
pub proof fn lemma_links_pass(ledger: &Ledger, who: Principal, state: StackingStateView, k: int)
    requires
        ledger.wf(),
        ledger.spec_stacking(who) == Some(state),
        0 <= k,
    ensures
        ledger.spec_links_violation_from(who, state, k) is None,
    decreases state.reward_set_indexes.len() - k,
{
    if k < state.reward_set_indexes.len() {
        lemma_link_consistency(ledger, who, k);
        lemma_links_pass(ledger, who, state, k + 1);
    }
}

/// The checker agrees with the invariant: in a consistent ledger, the
/// stacking record of a stacker whose covered cycles all have their entry,
/// or none of them where no indexes are expected, passes the check.
pub proof fn lemma_consistent_record_passes(ledger: &Ledger, who: Principal, expect_indexes: bool)
    requires
        ledger.wf(),
        ledger.spec_stacking(who) is Some,
        ledger.spec_stacking(who).unwrap().reward_set_indexes.len() == ledger.spec_stacking(
            who,
        ).unwrap().lock_period || (!expect_indexes && ledger.spec_stacking(
            who,
        ).unwrap().reward_set_indexes.len() == 0),
    ensures
        ledger.spec_state_violation(who, expect_indexes) is None,
{
    ledger.lemma_wf();
    let state = ledger.spec_stacking(who).unwrap();
    assert(ledger.stacker_consistent(who));
    lemma_links_pass(ledger, who, state, 0);
}

/// In a consistent ledger the check of a stacking record can fail in two
/// ways only: there is no record, or not every covered cycle has its entry
/// yet. The record never disagrees with its account or with the entries it
/// names.
pub proof fn lemma_record_check_outcomes(ledger: &Ledger, who: Principal, expect_indexes: bool)
    requires
        ledger.wf(),
    ensures
        ledger.spec_state_violation(who, expect_indexes) is None || ledger.spec_state_violation(
            who,
            expect_indexes,
        ) == Some(crate::invariants::InvariantViolation::MissingStackingState)
            || ledger.spec_state_violation(who, expect_indexes) == Some(
            crate::invariants::InvariantViolation::IndexCountMismatch,
        ),
{
    ledger.lemma_wf();
    assert(ledger.stacker_consistent(who));
    match ledger.spec_stacking(who) {
        None => {},
        Some(state) => {
            lemma_links_pass(ledger, who, state, 0);
        },
    }
}

/// In a consistent ledger the check of a cycle never finds the total out of
/// step with the entries.
pub proof fn lemma_cycle_check_never_finds_total_mismatch(
    ledger: &Ledger,
    tip_height: u64,
    cycle: u64,
)
    requires
        ledger.wf(),
    ensures
        ledger.spec_cycle_violation(tip_height, cycle) != Some(
            crate::invariants::InvariantViolation::TotalMismatch,
        ),
{
    ledger.lemma_wf();
    lemma_entries_never_report_total(ledger, cycle, 0);
}

/// The link checks of the entries report link violations only.
pub proof fn lemma_entries_never_report_total(ledger: &Ledger, cycle: u64, index: int)
    requires
        ledger.wf(),
        0 <= index,
    ensures
        ledger.spec_entries_violation_from(cycle, index) != Some(
            crate::invariants::InvariantViolation::TotalMismatch,
        ),
    decreases ledger.spec_entries(cycle).len() - index,
{
    if index < ledger.spec_entries(cycle).len() {
        match ledger.spec_entries(cycle)[index].stacker {
            None => {},
            Some(stacker) => {
                lemma_record_check_outcomes(ledger, stacker, true);
            },
        }
        lemma_entries_never_report_total(ledger, cycle, index + 1);
    }
}

/// A released account holds no lock at any height: nothing is locked, all
/// of it can be spent, and a further release finds nothing to do.
pub proof fn lemma_released_account_is_not_due(account: Account, height: u64)
    requires
        account.wf(),
    ensures
        !account.spec_unlock().lock.is_active(),
        account.spec_unlock().spec_locked_at(height) == 0,
        account.spec_unlock().spec_unlocked_at(height) == account.spec_total(),
        account.spec_unlock().spec_unlock() == account.spec_unlock(),
{
}

} // verus!
