//! Reward cycle address lists and their totals.
//!
//! Each cycle has a list of entries that only grows: an entry's index is the
//! length of the list when it was appended, and no entry ever moves. An entry
//! that is retracted stays in its slot with nothing stacked and no stacker, so
//! that every index handed out earlier still names the same slot.

use vstd::prelude::*;
use std::collections::HashMap;
use crate::types::{LedgerError, Principal, RewardAddress};

verus! {

broadcast use vstd::std_specs::hash::group_hash_axioms;

/// One slot of a cycle's reward address list.
#[derive(Clone, Copy, Debug, PartialEq, Eq)]
pub struct RewardCycleAddressListEntry {
    pub cycle: u64,
    pub index: u64,
    pub reward_address: RewardAddress,
    pub amount_stacked: u128,
    /// The stacker that owns the entry; `None` for an entry that aggregates
    /// delegated amounts, and for a retracted one.
    pub stacker: Option<Principal>,
}

impl RewardCycleAddressListEntry {
    /// The entry after `delta` more units were stacked on it.
    pub open spec fn spec_increased(&self, delta: u128) -> RewardCycleAddressListEntry {
        RewardCycleAddressListEntry {
            amount_stacked: (self.amount_stacked + delta) as u128,
            ..*self
        }
    }

    /// Whether the entry holds an amount for `who`.
    pub open spec fn is_live_of(&self, who: Principal) -> bool {
        self.stacker == Some(who) && self.amount_stacked > 0
    }

    /// The entry after its contribution was taken back.
    pub open spec fn spec_retracted(&self) -> RewardCycleAddressListEntry {
        RewardCycleAddressListEntry { amount_stacked: 0, stacker: None, ..*self }
    }
}

/// The sum of the amounts stacked over a list of entries.
pub open spec fn sum_amounts(entries: Seq<RewardCycleAddressListEntry>) -> nat
    decreases entries.len(),
{
    if entries.len() == 0 {
        0
    } else {
        sum_amounts(entries.drop_last()) + entries.last().amount_stacked as nat
    }
}

/// Appending an entry adds its amount to the sum.
pub proof fn lemma_sum_push(
    entries: Seq<RewardCycleAddressListEntry>,
    entry: RewardCycleAddressListEntry,
)
    ensures
        sum_amounts(entries.push(entry)) == sum_amounts(entries) + entry.amount_stacked,
{
    assert(entries.push(entry).drop_last() =~= entries);
}

/// Replacing an entry changes the sum by the difference of the two amounts.
pub proof fn lemma_sum_update(
    entries: Seq<RewardCycleAddressListEntry>,
    i: int,
    entry: RewardCycleAddressListEntry,
)
    requires
        0 <= i < entries.len(),
    ensures
        sum_amounts(entries.update(i, entry)) == sum_amounts(entries) - entries[i].amount_stacked
            + entry.amount_stacked,
        entries[i].amount_stacked <= sum_amounts(entries),
    decreases entries.len(),
{
    let updated = entries.update(i, entry);
    if i == entries.len() - 1 {
        assert(updated.drop_last() =~= entries.drop_last());
    } else {
        lemma_sum_update(entries.drop_last(), i, entry);
        assert(updated.drop_last() =~= entries.drop_last().update(i, entry));
    }
}

/// The address list of one cycle, with the total stacked in it.
struct CycleList {
    entries: Vec<RewardCycleAddressListEntry>,
    total: u128,
}

impl CycleList {
    spec fn wf(&self, cycle: u64) -> bool {
        &&& self.total == sum_amounts(self.entries@)
        &&& forall|i: int|
            0 <= i < self.entries@.len() ==> {
                let e = #[trigger] self.entries@[i];
                &&& e.cycle == cycle
                &&& e.index == i
                &&& e.amount_stacked == 0 ==> e.stacker is None
            }
    }
}

/// The reward address lists of all cycles.
pub struct RewardCycles {
    cycles: HashMap<u64, CycleList>,
    /// The cycles that have a list, in the order in which the lists began.
    started: Vec<u64>,
}

impl RewardCycles {
    /// The slots of `cycle` in index order; empty for a cycle nobody stacked in.
    pub closed spec fn spec_entries(&self, cycle: u64) -> Seq<RewardCycleAddressListEntry> {
        if self.cycles@.contains_key(cycle) {
            self.cycles@[cycle].entries@
        } else {
            Seq::empty()
        }
    }

    /// The total recorded for `cycle`; 0 for a cycle nobody stacked in.
    pub closed spec fn spec_total(&self, cycle: u64) -> u128 {
        if self.cycles@.contains_key(cycle) {
            self.cycles@[cycle].total
        } else {
            0
        }
    }

    /// The cycles that have a list, in the order in which the lists began.
    pub closed spec fn spec_started(&self) -> Seq<u64> {
        self.started@
    }

    /// Whether `cycle` has an entry at `index` that was not retracted.
    pub open spec fn spec_has_entry(&self, cycle: u64, index: u64) -> bool {
        index < self.spec_entries(cycle).len() && self.spec_entries(cycle)[index as int].amount_stacked
            > 0
    }

    /// Every list names its own cycle and its slots' own positions, a slot
    /// with nothing stacked has no stacker, and every total is the sum of its
    /// list.
    pub closed spec fn wf(&self) -> bool {
        forall|c: u64| #[trigger]
            self.cycles@.contains_key(c) ==> self.cycles@[c].wf(c) && self.started@.contains(c)
    }

    /// Whether `other` differs from `self` in `cycle` at most.
    pub open spec fn same_except(&self, other: &RewardCycles, cycle: u64) -> bool {
        forall|c: u64|
            #![trigger other.spec_entries(c)]
            #![trigger other.spec_total(c)]
            c != cycle ==> other.spec_entries(c) == self.spec_entries(c) && other.spec_total(c)
                == self.spec_total(c)
    }

    /// The total of every cycle is the sum of the amounts in its list, each
    /// slot records its own cycle and index, and only a slot that holds an
    /// amount has a stacker.
    pub proof fn lemma_total_reconciles(&self, cycle: u64)
        requires
            self.wf(),
        ensures
            self.spec_total(cycle) == sum_amounts(self.spec_entries(cycle)),
            forall|i: int|
                0 <= i < self.spec_entries(cycle).len() ==> {
                    let e = #[trigger] self.spec_entries(cycle)[i];
                    &&& e.cycle == cycle
                    &&& e.index == i
                    &&& e.amount_stacked <= self.spec_total(cycle)
                    &&& e.amount_stacked == 0 ==> e.stacker is None
                },
    {
        if self.cycles@.contains_key(cycle) {
            let list = self.cycles@[cycle];
            assert(list.wf(cycle));
            assert forall|i: int| 0 <= i < list.entries@.len() implies (
            #[trigger] list.entries@[i]).amount_stacked <= list.total by {
                lemma_sum_update(list.entries@, i, list.entries@[i]);
            }
        }
    }

    /// No cycle has any entry.
    pub fn new() -> (r: RewardCycles)
        ensures
            r.wf(),
            forall|c: u64| #[trigger] r.spec_entries(c) == Seq::<RewardCycleAddressListEntry>::empty(),
            forall|c: u64| #[trigger] r.spec_total(c) == 0,
    {
        RewardCycles { cycles: HashMap::new(), started: Vec::new() }
    }

    /// The number of slots in the list of `cycle`.
    pub fn len(&self, cycle: u64) -> (r: u64)
        ensures
            r == self.spec_entries(cycle).len(),
    {
        match self.cycles.get(&cycle) {
            None => 0,
            Some(list) => list.entries.len() as u64,
        }
    }

    /// The total stacked in `cycle`; 0 for a cycle without entries.
    pub fn total(&self, cycle: u64) -> (r: u128)
        ensures
            r == self.spec_total(cycle),
    {
        match self.cycles.get(&cycle) {
            None => 0,
            Some(list) => list.total,
        }
    }

    /// Appends an entry to the list of `cycle` and adds `amount` to the
    /// cycle's total. Gives back the index of the new entry, which is the
    /// length the list had before.
    pub fn append(
        &mut self,
        cycle: u64,
        reward_address: RewardAddress,
        amount: u128,
        stacker: Option<Principal>,
    ) -> (r: Result<u64, LedgerError>)
        requires
            old(self).wf(),
        ensures
            final(self).wf(),
            old(self).same_except(final(self), cycle),
            r == Err::<u64, LedgerError>(LedgerError::InvalidAmount) <==> amount == 0,
            r == Err::<u64, LedgerError>(LedgerError::ArithmeticOverflow) <==> amount > 0 && old(
                self,
            ).spec_total(cycle) + amount > u128::MAX,
            r is Err ==> final(self).spec_entries(cycle) == old(self).spec_entries(cycle)
                && final(self).spec_total(cycle) == old(self).spec_total(cycle),
            r is Ok <==> amount > 0 && old(self).spec_total(cycle) + amount <= u128::MAX,
            r matches Ok(index) ==> {
                &&& index == old(self).spec_entries(cycle).len()
                &&& final(self).spec_entries(cycle) == old(self).spec_entries(cycle).push(
                    RewardCycleAddressListEntry {
                        cycle,
                        index,
                        reward_address,
                        amount_stacked: amount,
                        stacker,
                    },
                )
                &&& final(self).spec_total(cycle) == old(self).spec_total(cycle) + amount
            },
    {
        if amount == 0 {
            return Err(LedgerError::InvalidAmount);
        }
        let total = self.total(cycle);
        if amount > u128::MAX - total {
            return Err(LedgerError::ArithmeticOverflow);
        }
        let ghost began = self.started@;
        let mut list = match self.cycles.remove(&cycle) {
            None => {
                self.started.push(cycle);
                CycleList { entries: Vec::new(), total: 0 }
            },
            Some(list) => list,
        };
        proof {
            assert forall|c: u64| began.contains(c) implies self.started@.contains(c) by {
                let k = choose|k: int| 0 <= k < began.len() && began[k] == c;
                assert(self.started@[k] == c);
            }
            if self.started@.len() > began.len() {
                assert(self.started@[began.len() as int] == cycle);
            }
        }
        let index = list.entries.len() as u64;
        let entry = RewardCycleAddressListEntry {
            cycle,
            index,
            reward_address,
            amount_stacked: amount,
            stacker,
        };
        proof {
            lemma_sum_push(list.entries@, entry);
        }
        list.entries.push(entry);
        list.total = total + amount;
        self.cycles.insert(cycle, list);
        Ok(index)
    }

    /// Adds `delta` to the amount stacked at `index` of `cycle` and to the
    /// cycle's total. A slot that was never filled, or whose entry was
    /// retracted, is no entry.
    pub fn increase_entry(&mut self, cycle: u64, index: u64, delta: u128) -> (r: Result<
        (),
        LedgerError,
    >)
        requires
            old(self).wf(),
        ensures
            final(self).wf(),
            old(self).same_except(final(self), cycle),
            r == Err::<(), LedgerError>(LedgerError::NoSuchEntry) <==> !old(self).spec_has_entry(
                cycle,
                index,
            ),
            r == Err::<(), LedgerError>(LedgerError::ArithmeticOverflow) <==> old(
                self,
            ).spec_has_entry(cycle, index) && old(self).spec_total(cycle) + delta > u128::MAX,
            r is Err ==> final(self).spec_entries(cycle) == old(self).spec_entries(cycle)
                && final(self).spec_total(cycle) == old(self).spec_total(cycle),
            r is Ok <==> old(self).spec_has_entry(cycle, index) && old(self).spec_total(cycle)
                + delta <= u128::MAX,
            r is Ok ==> {
                &&& final(self).spec_entries(cycle) == old(self).spec_entries(cycle).update(
                    index as int,
                    old(self).spec_entries(cycle)[index as int].spec_increased(delta),
                )
                &&& final(self).spec_total(cycle) == old(self).spec_total(cycle) + delta
            },
    {
        let found = match self.read(cycle, index) {
            None => false,
            Some(e) => e.amount_stacked > 0,
        };
        if !found {
            return Err(LedgerError::NoSuchEntry);
        }
        let total = self.total(cycle);
        if delta > u128::MAX - total {
            return Err(LedgerError::ArithmeticOverflow);
        }
        let ghost before = self.cycles@;
        assert(before.contains_key(cycle) && before[cycle].wf(cycle));
        let removed = self.cycles.remove(&cycle);
        let mut list = removed.unwrap();
        assert(list == before[cycle]);
        let slots = list.entries.len();
        assert(index < slots);
        let e = list.entries[index as usize];
        proof {
            lemma_sum_update(list.entries@, index as int, e.spec_increased(delta));
        }
        let raised = RewardCycleAddressListEntry {
            cycle: e.cycle,
            index: e.index,
            reward_address: e.reward_address,
            amount_stacked: e.amount_stacked + delta,
            stacker: e.stacker,
        };
        list.entries.set(index as usize, raised);
        list.total = total + delta;
        self.cycles.insert(cycle, list);
        Ok(())
    }

    /// Takes the contribution at `index` of `cycle` back: the slot stays, with
    /// nothing stacked and no stacker, and the cycle's total drops by the
    /// amount, which is given back.
    pub(crate) fn retract_entry(&mut self, cycle: u64, index: u64) -> (r: Result<u128, LedgerError>)
        requires
            old(self).wf(),
        ensures
            final(self).wf(),
            old(self).same_except(final(self), cycle),
            r == Err::<u128, LedgerError>(LedgerError::NoSuchEntry) <==> !old(self).spec_has_entry(
                cycle,
                index,
            ),
            r is Err ==> final(self).spec_entries(cycle) == old(self).spec_entries(cycle)
                && final(self).spec_total(cycle) == old(self).spec_total(cycle),
            r is Ok <==> old(self).spec_has_entry(cycle, index),
            final(self).spec_started() == old(self).spec_started(),
            r matches Ok(amount) ==> {
                &&& amount == old(self).spec_entries(cycle)[index as int].amount_stacked
                &&& final(self).spec_entries(cycle) == old(self).spec_entries(cycle).update(
                    index as int,
                    old(self).spec_entries(cycle)[index as int].spec_retracted(),
                )
                &&& final(self).spec_total(cycle) == old(self).spec_total(cycle) - amount
            },
    {
        let found = match self.read(cycle, index) {
            None => false,
            Some(e) => e.amount_stacked > 0,
        };
        if !found {
            return Err(LedgerError::NoSuchEntry);
        }
        let ghost before = self.cycles@;
        assert(before.contains_key(cycle) && before[cycle].wf(cycle));
        let removed = self.cycles.remove(&cycle);
        let mut list = removed.unwrap();
        assert(list == before[cycle]);
        let slots = list.entries.len();
        assert(index < slots);
        let e = list.entries[index as usize];
        let cleared = RewardCycleAddressListEntry {
            cycle: e.cycle,
            index: e.index,
            reward_address: e.reward_address,
            amount_stacked: 0,
            stacker: None,
        };
        proof {
            lemma_sum_update(list.entries@, index as int, cleared);
        }
        list.entries.set(index as usize, cleared);
        list.total = list.total - e.amount_stacked;
        self.cycles.insert(cycle, list);
        Ok(e.amount_stacked)
    }

    /// Whether `self` is `before` with `delta` added to the entry at
    /// `indexes[k]` of cycle `first + k`, for every `k` below `upto` whose
    /// cycle comes after `after_cycle`, and to those cycles' totals; all
    /// other cycles are as in `before`.
    pub open spec fn raised_from(
        &self,
        before: &RewardCycles,
        first: u64,
        indexes: Seq<u64>,
        upto: int,
        after_cycle: u64,
        delta: u128,
    ) -> bool {
        forall|c: u64|
            #![trigger self.spec_entries(c)]
            #![trigger self.spec_total(c)]
            if first <= c < first + upto && c > after_cycle {
                let i = indexes[c - first] as int;
                &&& self.spec_entries(c) == before.spec_entries(c).update(
                    i,
                    before.spec_entries(c)[i].spec_increased(delta),
                )
                &&& self.spec_total(c) == before.spec_total(c) + delta
            } else {
                &&& self.spec_entries(c) == before.spec_entries(c)
                &&& self.spec_total(c) == before.spec_total(c)
            }
    }

    /// Whether `self` is `before` with every entry retracted that holds an
    /// amount for `who` in `from_cycle` or a later cycle. Every slot stays.
    pub open spec fn stacker_retracted(
        &self,
        before: &RewardCycles,
        who: Principal,
        from_cycle: u64,
    ) -> bool {
        &&& forall|c: u64| #[trigger] self.spec_entries(c).len() == before.spec_entries(c).len()
        &&& forall|c: u64, i: int|
            0 <= i < before.spec_entries(c).len() ==> #[trigger] self.spec_entries(c)[i] == if c
                >= from_cycle && before.spec_entries(c)[i].is_live_of(who) {
                before.spec_entries(c)[i].spec_retracted()
            } else {
                before.spec_entries(c)[i]
            }
    }

    spec fn stacker_retracted_in(
        &self,
        before: &RewardCycles,
        who: Principal,
        from_cycle: u64,
        done: Seq<u64>,
    ) -> bool {
        &&& forall|c: u64| #[trigger] self.spec_entries(c).len() == before.spec_entries(c).len()
        &&& forall|c: u64, i: int|
            0 <= i < before.spec_entries(c).len() ==> #[trigger] self.spec_entries(c)[i] == if c
                >= from_cycle && done.contains(c) && before.spec_entries(c)[i].is_live_of(who) {
                before.spec_entries(c)[i].spec_retracted()
            } else {
                before.spec_entries(c)[i]
            }
    }

    /// Whether every cycle is as in `before`.
    pub open spec fn same_as(&self, before: &RewardCycles) -> bool {
        forall|c: u64|
            #![trigger self.spec_entries(c)]
            #![trigger self.spec_total(c)]
            self.spec_entries(c) == before.spec_entries(c) && self.spec_total(c)
                == before.spec_total(c)
    }

    /// Adds `delta` to the entry at `indexes[k]` of cycle `first + k`, for
    /// every `k` whose cycle comes after `after_cycle`, and to those cycles'
    /// totals. Either all of them are raised or nothing changes.
    pub(crate) fn increase_entries(
        &mut self,
        first: u64,
        indexes: &Vec<u64>,
        after_cycle: u64,
        delta: u128,
    ) -> (r: Result<(), LedgerError>)
        requires
            old(self).wf(),
            first + indexes@.len() <= u64::MAX,
            forall|k: int|
                0 <= k < indexes@.len() ==> old(self).spec_has_entry(
                    (first + k) as u64,
                    #[trigger] indexes@[k],
                ),
        ensures
            final(self).wf(),
            r == Err::<(), LedgerError>(LedgerError::ArithmeticOverflow) <==> exists|k: int|
                0 <= k < indexes@.len() && first + k > after_cycle && #[trigger] old(
                    self,
                ).spec_total((first + k) as u64) + delta > u128::MAX,
            r is Err ==> r == Err::<(), LedgerError>(LedgerError::ArithmeticOverflow)
                && final(self).same_as(old(self)),
            r is Ok ==> final(self).raised_from(
                old(self),
                first,
                indexes@,
                indexes@.len() as int,
                after_cycle,
                delta,
            ),
    {
        let n = indexes.len();
        let mut k: usize = 0;
        while k < n
            invariant
                n == indexes@.len(),
                first + n <= u64::MAX,
                k <= n,
                *self == *old(self),
                self.wf(),
                forall|j: int|
                    0 <= j < k && first + j > after_cycle ==> #[trigger] self.spec_total(
                        (first + j) as u64,
                    ) + delta <= u128::MAX,
            decreases n - k,
        {
            let cycle = first + k as u64;
            if cycle > after_cycle && delta > u128::MAX - self.total(cycle) {
                return Err(LedgerError::ArithmeticOverflow);
            }
            k += 1;
        }
        let ghost before = *self;
        let mut k: usize = 0;
        while k < n
            invariant
                n == indexes@.len(),
                first + n <= u64::MAX,
                k <= n,
                self.wf(),
                before.wf(),
                forall|j: int|
                    0 <= j < n ==> before.spec_has_entry((first + j) as u64, #[trigger] indexes@[j]),
                forall|j: int|
                    0 <= j < n && first + j > after_cycle ==> #[trigger] before.spec_total(
                        (first + j) as u64,
                    ) + delta <= u128::MAX,
                self.raised_from(&before, first, indexes@, k as int, after_cycle, delta),
            decreases n - k,
        {
            let cycle = first + k as u64;
            if cycle > after_cycle {
                let ghost mid = *self;
                assert(before.spec_has_entry((first + k) as u64, indexes@[k as int]));
                assert(before.spec_total((first + k) as u64) + delta <= u128::MAX);
                assert(mid.spec_entries(cycle) == before.spec_entries(cycle));
                assert(mid.spec_total(cycle) == before.spec_total(cycle));
                let done = self.increase_entry(cycle, indexes[k], delta);
                assert(done is Ok);
                assert forall|c: u64|
                    #![trigger self.spec_entries(c)]
                    #![trigger self.spec_total(c)]
                    if first <= c < first + (k + 1) && c > after_cycle {
                        let i = indexes@[c - first] as int;
                        &&& self.spec_entries(c) == before.spec_entries(c).update(
                            i,
                            before.spec_entries(c)[i].spec_increased(delta),
                        )
                        &&& self.spec_total(c) == before.spec_total(c) + delta
                    } else {
                        &&& self.spec_entries(c) == before.spec_entries(c)
                        &&& self.spec_total(c) == before.spec_total(c)
                    } by {
                    if c != cycle {
                        assert(self.spec_entries(c) == mid.spec_entries(c));
                        assert(self.spec_total(c) == mid.spec_total(c));
                    }
                }
            }
            k += 1;
        }
        Ok(())
    }

    /// Retracts every entry of `cycle` that holds an amount for `who`.
    fn retract_stacker_in(&mut self, cycle: u64, who: Principal)
        requires
            old(self).wf(),
        ensures
            final(self).wf(),
            final(self).started@ == old(self).started@,
            old(self).same_except(final(self), cycle),
            final(self).spec_entries(cycle).len() == old(self).spec_entries(cycle).len(),
            forall|i: int|
                0 <= i < old(self).spec_entries(cycle).len() ==> #[trigger] final(self).spec_entries(
                    cycle,
                )[i] == if old(self).spec_entries(cycle)[i].is_live_of(who) {
                    old(self).spec_entries(cycle)[i].spec_retracted()
                } else {
                    old(self).spec_entries(cycle)[i]
                },
    {
        let ghost before = *self;
        let n = self.len(cycle);
        let mut i: u64 = 0;
        while i < n
            invariant
                self.wf(),
                self.started@ == before.started@,
                before.same_except(self, cycle),
                n == before.spec_entries(cycle).len(),
                self.spec_entries(cycle).len() == n,
                i <= n,
                forall|j: int|
                    0 <= j < i ==> #[trigger] self.spec_entries(cycle)[j] == if before.spec_entries(
                        cycle,
                    )[j].is_live_of(who) {
                        before.spec_entries(cycle)[j].spec_retracted()
                    } else {
                        before.spec_entries(cycle)[j]
                    },
                forall|j: int|
                    i <= j < n ==> #[trigger] self.spec_entries(cycle)[j] == before.spec_entries(
                        cycle,
                    )[j],
            decreases n - i,
        {
            let ghost mid = *self;
            let names = match self.read(cycle, i) {
                None => false,
                Some(e) => e.amount_stacked > 0 && match e.stacker {
                    Some(owner) => owner == who,
                    None => false,
                },
            };
            if names {
                let done = self.retract_entry(cycle, i);
                assert(done is Ok);
                assert forall|c: u64|
                    #![trigger self.spec_entries(c)]
                    #![trigger self.spec_total(c)]
                    c != cycle implies self.spec_entries(c) == before.spec_entries(c)
                    && self.spec_total(c) == before.spec_total(c) by {
                    assert(self.spec_entries(c) == mid.spec_entries(c));
                    assert(self.spec_total(c) == mid.spec_total(c));
                }
            }
            i += 1;
        }
    }

    /// Retracts every entry that holds an amount for `who` in `from_cycle`
    /// or a later cycle: the slots stay, with nothing stacked and no stacker,
    /// and the totals drop by the amounts.
    pub(crate) fn retract_stacker(&mut self, who: Principal, from_cycle: u64)
        requires
            old(self).wf(),
        ensures
            final(self).wf(),
            final(self).stacker_retracted(old(self), who, from_cycle),
    {
        let ghost before = *self;
        let n = self.started.len();
        let mut k: usize = 0;
        proof {
            assert(before.started@.subrange(0, 0) =~= Seq::<u64>::empty());
        }
        while k < n
            invariant
                self.wf(),
                before.wf(),
                self.started@ == before.started@,
                n == before.started@.len(),
                k <= n,
                self.stacker_retracted_in(
                    &before,
                    who,
                    from_cycle,
                    before.started@.subrange(0, k as int),
                ),
            decreases n - k,
        {
            let cycle = self.started[k];
            let ghost mid = *self;
            let ghost done = before.started@.subrange(0, k as int);
            let ghost more = before.started@.subrange(0, k as int + 1);
            proof {
                assert(more =~= done.push(cycle));
                assert(more[more.len() - 1] == cycle);
                assert forall|c: u64| more.contains(c) <==> (done.contains(c) || c == cycle) by {
                    if done.contains(c) {
                        let j = choose|j: int| 0 <= j < done.len() && done[j] == c;
                        assert(more[j] == c);
                    }
                    if more.contains(c) {
                        let j = choose|j: int| 0 <= j < more.len() && more[j] == c;
                        if j < done.len() {
                            assert(done[j] == c);
                        }
                    }
                }
            }
            if cycle >= from_cycle {
                self.retract_stacker_in(cycle, who);
            }
            proof {
                assert forall|c: u64| #[trigger]
                    self.spec_entries(c).len() == before.spec_entries(c).len() by {
                    assert(mid.spec_entries(c).len() == before.spec_entries(c).len());
                    if c != cycle {
                        assert(self.spec_entries(c) == mid.spec_entries(c));
                    }
                }
                assert forall|c: u64, i: int| 0 <= i < before.spec_entries(c).len() implies #[trigger]
                self.spec_entries(c)[i] == if c >= from_cycle && more.contains(c)
                    && before.spec_entries(c)[i].is_live_of(who) {
                    before.spec_entries(c)[i].spec_retracted()
                } else {
                    before.spec_entries(c)[i]
                } by {
                    let b = before.spec_entries(c)[i];
                    assert(mid.spec_entries(c).len() == before.spec_entries(c).len());
                    assert(mid.spec_entries(c)[i] == if c >= from_cycle && done.contains(c)
                        && b.is_live_of(who) {
                        b.spec_retracted()
                    } else {
                        b
                    });
                    if c != cycle || cycle < from_cycle {
                        assert(self.spec_entries(c) == mid.spec_entries(c));
                    }
                }
            }
            k += 1;
        }
        proof {
            assert(before.started@.subrange(0, n as int) =~= before.started@);
            assert forall|c: u64, i: int| 0 <= i < before.spec_entries(c).len() implies #[trigger]
            self.spec_entries(c)[i] == if c >= from_cycle && before.spec_entries(c)[i].is_live_of(
                who,
            ) {
                before.spec_entries(c)[i].spec_retracted()
            } else {
                before.spec_entries(c)[i]
            } by {
                assert(before.cycles@.contains_key(c));
                assert(before.started@.contains(c));
            }
        }
    }

    /// The slots of `cycle` in index order, retracted ones included.
    pub fn entries(&self, cycle: u64) -> (r: Vec<RewardCycleAddressListEntry>)
        ensures
            r@ == self.spec_entries(cycle),
    {
        let mut out: Vec<RewardCycleAddressListEntry> = Vec::new();
        match self.cycles.get(&cycle) {
            None => {},
            Some(list) => {
                let mut i: usize = 0;
                while i < list.entries.len()
                    invariant
                        i <= list.entries@.len(),
                        out@ == list.entries@.subrange(0, i as int),
                    decreases list.entries@.len() - i,
                {
                    out.push(list.entries[i]);
                    assert(list.entries@.subrange(0, i as int).push(list.entries@[i as int])
                        =~= list.entries@.subrange(0, i as int + 1));
                    i += 1;
                }
                assert(list.entries@.subrange(0, i as int) =~= list.entries@);
            },
        }
        out
    }

    /// The slot at `index` of `cycle`, if the list is that long.
    pub fn read(&self, cycle: u64, index: u64) -> (r: Option<RewardCycleAddressListEntry>)
        ensures
            index >= self.spec_entries(cycle).len() <==> r is None,
            r matches Some(e) ==> e == self.spec_entries(cycle)[index as int],
    {
        match self.cycles.get(&cycle) {
            None => None,
            Some(list) => {
                if index >= list.entries.len() as u64 {
                    None
                } else {
                    Some(list.entries[index as usize])
                }
            },
        }
    }
}

} // verus!
