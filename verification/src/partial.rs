//! The partial stacking ledger: delegated contributions that wait to be
//! committed into a reward cycle's address list.

use vstd::prelude::*;
use crate::types::{LedgerError, Principal, RewardAddress};

verus! {

/// What a delegate has gathered for one reward address in one cycle.
#[derive(Clone, Copy, Debug, PartialEq, Eq)]
pub struct PartialStackedEntry {
    pub reward_address: RewardAddress,
    pub cycle: u64,
    pub contributor: Principal,
    /// The amount that waits to be committed.
    pub stacked_amount: u128,
    /// The index of the address-list entry that the last commit created.
    pub committed_index: Option<u64>,
}

impl PartialStackedEntry {
    pub open spec fn has_key(&self, reward_address: RewardAddress, cycle: u64, contributor: Principal) -> bool {
        self.reward_address == reward_address && self.cycle == cycle && self.contributor
            == contributor
    }
}

/// All pending delegated contributions, one record per reward address, cycle
/// and contributor.
pub struct PartialLedger {
    entries: Vec<PartialStackedEntry>,
}

impl PartialLedger {
    spec fn position(&self, reward_address: RewardAddress, cycle: u64, contributor: Principal) -> int {
        choose|i: int|
            0 <= i < self.entries@.len() && (#[trigger] self.entries@[i]).has_key(
                reward_address,
                cycle,
                contributor,
            )
    }

    /// Whether a record exists under the key.
    pub closed spec fn spec_contains(
        &self,
        reward_address: RewardAddress,
        cycle: u64,
        contributor: Principal,
    ) -> bool {
        exists|i: int|
            0 <= i < self.entries@.len() && (#[trigger] self.entries@[i]).has_key(
                reward_address,
                cycle,
                contributor,
            )
    }

    /// The amount that waits under the key; 0 where there is no record.
    pub closed spec fn spec_pending(
        &self,
        reward_address: RewardAddress,
        cycle: u64,
        contributor: Principal,
    ) -> u128 {
        if self.spec_contains(reward_address, cycle, contributor) {
            self.entries@[self.position(reward_address, cycle, contributor)].stacked_amount
        } else {
            0
        }
    }

    /// The index that the last commit under the key created, if there was one.
    pub closed spec fn spec_committed(
        &self,
        reward_address: RewardAddress,
        cycle: u64,
        contributor: Principal,
    ) -> Option<u64> {
        if self.spec_contains(reward_address, cycle, contributor) {
            self.entries@[self.position(reward_address, cycle, contributor)].committed_index
        } else {
            None
        }
    }

    /// No key has two records.
    pub closed spec fn wf(&self) -> bool {
        forall|i: int, j: int|
            0 <= i < j < self.entries@.len() ==> !(#[trigger] self.entries@[i]).has_key(
                (#[trigger] self.entries@[j]).reward_address,
                self.entries@[j].cycle,
                self.entries@[j].contributor,
            )
    }

    /// Whether `other` differs from `self` under the given key at most.
    pub open spec fn same_except(
        &self,
        other: &PartialLedger,
        reward_address: RewardAddress,
        cycle: u64,
        contributor: Principal,
    ) -> bool {
        forall|a: RewardAddress, c: u64, w: Principal|
            #![trigger other.spec_pending(a, c, w)]
            #![trigger other.spec_committed(a, c, w)]
            !(a == reward_address && c == cycle && w == contributor) ==> {
                &&& other.spec_pending(a, c, w) == self.spec_pending(a, c, w)
                &&& other.spec_committed(a, c, w) == self.spec_committed(a, c, w)
            }
    }

    proof fn lemma_position(&self, i: int)
        requires
            self.wf(),
            0 <= i < self.entries@.len(),
        ensures
            self.spec_contains(
                self.entries@[i].reward_address,
                self.entries@[i].cycle,
                self.entries@[i].contributor,
            ),
            self.position(
                self.entries@[i].reward_address,
                self.entries@[i].cycle,
                self.entries@[i].contributor,
            ) == i,
    {
        let e = self.entries@[i];
        assert(e.has_key(e.reward_address, e.cycle, e.contributor));
        let p = self.position(e.reward_address, e.cycle, e.contributor);
        assert(self.entries@[p].has_key(e.reward_address, e.cycle, e.contributor));
        if p < i {
            assert(!self.entries@[p].has_key(e.reward_address, e.cycle, e.contributor));
        } else if i < p {
            let f = self.entries@[p];
            assert(!self.entries@[i].has_key(f.reward_address, f.cycle, f.contributor));
        }
    }

    proof fn lemma_replaced(&self, after: &PartialLedger, i: int)
        requires
            self.wf(),
            0 <= i < self.entries@.len(),
            after.entries@.len() == self.entries@.len(),
            forall|j: int|
                0 <= j < self.entries@.len() && j != i ==> after.entries@[j] == self.entries@[j],
            after.entries@[i].has_key(
                self.entries@[i].reward_address,
                self.entries@[i].cycle,
                self.entries@[i].contributor,
            ),
        ensures
            after.wf(),
            after.spec_contains(
                self.entries@[i].reward_address,
                self.entries@[i].cycle,
                self.entries@[i].contributor,
            ),
            after.position(
                self.entries@[i].reward_address,
                self.entries@[i].cycle,
                self.entries@[i].contributor,
            ) == i,
            self.same_except(
                after,
                self.entries@[i].reward_address,
                self.entries@[i].cycle,
                self.entries@[i].contributor,
            ),
    {
        let key = self.entries@[i];
        assert(after.wf()) by {
            assert forall|x: int, y: int| 0 <= x < y < after.entries@.len() implies !(
            #[trigger] after.entries@[x]).has_key(
                (#[trigger] after.entries@[y]).reward_address,
                after.entries@[y].cycle,
                after.entries@[y].contributor,
            ) by {
                let ox = self.entries@[x];
                let oy = self.entries@[y];
                assert(!ox.has_key(oy.reward_address, oy.cycle, oy.contributor));
            }
        }
        after.lemma_position(i);
        assert forall|a: RewardAddress, c: u64, w: Principal|
            !(a == key.reward_address && c == key.cycle && w == key.contributor) implies after.spec_pending(a, c, w) == self.spec_pending(a, c, w)
            && after.spec_committed(a, c, w) == self.spec_committed(a, c, w) by {
            if self.spec_contains(a, c, w) {
                let p = self.position(a, c, w);
                assert(self.entries@[p].has_key(a, c, w));
                assert(p != i);
                assert(after.entries@[p] == self.entries@[p]);
                after.lemma_position(p);
            } else if after.spec_contains(a, c, w) {
                let q = after.position(a, c, w);
                assert(after.entries@[q].has_key(a, c, w));
                assert(q != i);
                assert(self.entries@[q].has_key(a, c, w));
            }
        }
    }

    proof fn lemma_pushed(&self, after: &PartialLedger, entry: PartialStackedEntry)
        requires
            self.wf(),
            !self.spec_contains(entry.reward_address, entry.cycle, entry.contributor),
            after.entries@ == self.entries@.push(entry),
        ensures
            after.wf(),
            after.spec_contains(entry.reward_address, entry.cycle, entry.contributor),
            after.position(entry.reward_address, entry.cycle, entry.contributor)
                == self.entries@.len(),
            self.same_except(after, entry.reward_address, entry.cycle, entry.contributor),
    {
        let n = self.entries@.len() as int;
        assert(after.entries@[n] == entry);
        assert(after.wf()) by {
            assert forall|x: int, y: int| 0 <= x < y < after.entries@.len() implies !(
            #[trigger] after.entries@[x]).has_key(
                (#[trigger] after.entries@[y]).reward_address,
                after.entries@[y].cycle,
                after.entries@[y].contributor,
            ) by {
                let ox = self.entries@[x];
                if y < n {
                    let oy = self.entries@[y];
                    assert(!ox.has_key(oy.reward_address, oy.cycle, oy.contributor));
                } else {
                    assert(!ox.has_key(entry.reward_address, entry.cycle, entry.contributor));
                }
            }
        }
        after.lemma_position(n);
        assert forall|a: RewardAddress, c: u64, w: Principal|
            !(a == entry.reward_address && c == entry.cycle && w == entry.contributor) implies after.spec_pending(a, c, w) == self.spec_pending(a, c, w)
            && after.spec_committed(a, c, w) == self.spec_committed(a, c, w) by {
            if self.spec_contains(a, c, w) {
                let p = self.position(a, c, w);
                assert(self.entries@[p].has_key(a, c, w));
                assert(after.entries@[p] == self.entries@[p]);
                after.lemma_position(p);
            } else if after.spec_contains(a, c, w) {
                let q = after.position(a, c, w);
                assert(after.entries@[q].has_key(a, c, w));
                assert(q != n);
                assert(self.entries@[q].has_key(a, c, w));
            }
        }
    }

    /// Nothing is pending.
    pub fn new() -> (r: PartialLedger)
        ensures
            r.wf(),
            forall|a: RewardAddress, c: u64, w: Principal|
                #![trigger r.spec_pending(a, c, w)]
                #![trigger r.spec_committed(a, c, w)]
                r.spec_pending(a, c, w) == 0 && r.spec_committed(a, c, w) is None,
    {
        PartialLedger { entries: Vec::new() }
    }

    fn find(&self, reward_address: RewardAddress, cycle: u64, contributor: Principal) -> (r: Option<
        usize,
    >)
        requires
            self.wf(),
        ensures
            r is Some <==> self.spec_contains(reward_address, cycle, contributor),
            r matches Some(i) ==> i < self.entries@.len() && i == self.position(
                reward_address,
                cycle,
                contributor,
            ) && self.entries@[i as int].has_key(reward_address, cycle, contributor),
    {
        let mut i: usize = 0;
        while i < self.entries.len()
            invariant
                self.wf(),
                i <= self.entries@.len(),
                forall|j: int|
                    0 <= j < i ==> !(#[trigger] self.entries@[j]).has_key(
                        reward_address,
                        cycle,
                        contributor,
                    ),
            decreases self.entries@.len() - i,
        {
            let e = self.entries[i];
            if e.reward_address == reward_address && e.cycle == cycle && e.contributor
                == contributor {
                proof {
                    self.lemma_position(i as int);
                }
                return Some(i);
            }
            i += 1;
        }
        None
    }

    /// The amount that waits under the key; 0 where there is no record.
    pub fn pending(&self, reward_address: RewardAddress, cycle: u64, contributor: Principal) -> (r:
        u128)
        requires
            self.wf(),
        ensures
            r == self.spec_pending(reward_address, cycle, contributor),
    {
        match self.find(reward_address, cycle, contributor) {
            None => 0,
            Some(i) => self.entries[i].stacked_amount,
        }
    }

    /// Adds `amount` to what waits under the key, creating the record if
    /// there is none. What was committed under the key stays as it is.
    pub fn add_pending(
        &mut self,
        reward_address: RewardAddress,
        cycle: u64,
        contributor: Principal,
        amount: u128,
    ) -> (r: Result<(), LedgerError>)
        requires
            old(self).wf(),
        ensures
            final(self).wf(),
            old(self).same_except(final(self), reward_address, cycle, contributor),
            final(self).spec_committed(reward_address, cycle, contributor) == old(
                self,
            ).spec_committed(reward_address, cycle, contributor),
            r == Err::<(), LedgerError>(LedgerError::ArithmeticOverflow) <==> old(
                self,
            ).spec_pending(reward_address, cycle, contributor) + amount > u128::MAX,
            r is Err ==> final(self).spec_pending(reward_address, cycle, contributor) == old(
                self,
            ).spec_pending(reward_address, cycle, contributor),
            r is Ok <==> old(self).spec_pending(reward_address, cycle, contributor) + amount
                <= u128::MAX,
            r is Ok ==> final(self).spec_pending(reward_address, cycle, contributor) == old(
                self,
            ).spec_pending(reward_address, cycle, contributor) + amount,
    {
        let ghost before = *self;
        match self.find(reward_address, cycle, contributor) {
            None => {
                let entry = PartialStackedEntry {
                    reward_address,
                    cycle,
                    contributor,
                    stacked_amount: amount,
                    committed_index: None,
                };
                self.entries.push(entry);
                proof {
                    before.lemma_pushed(self, entry);
                }
                Ok(())
            },
            Some(i) => {
                let e = self.entries[i];
                if amount > u128::MAX - e.stacked_amount {
                    return Err(LedgerError::ArithmeticOverflow);
                }
                let raised = PartialStackedEntry {
                    reward_address: e.reward_address,
                    cycle: e.cycle,
                    contributor: e.contributor,
                    stacked_amount: e.stacked_amount + amount,
                    committed_index: e.committed_index,
                };
                self.entries.set(i, raised);
                proof {
                    before.lemma_replaced(self, i as int);
                }
                Ok(())
            },
        }
    }

    /// Records that what waited under the key was committed at `index`:
    /// nothing waits under the key any more. Gives back the amount that waited.
    pub fn settle(
        &mut self,
        reward_address: RewardAddress,
        cycle: u64,
        contributor: Principal,
        index: u64,
    ) -> (r: Result<u128, LedgerError>)
        requires
            old(self).wf(),
        ensures
            final(self).wf(),
            old(self).same_except(final(self), reward_address, cycle, contributor),
            r == Err::<u128, LedgerError>(LedgerError::NothingToCommit) <==> old(self).spec_pending(
                reward_address,
                cycle,
                contributor,
            ) == 0,
            r is Err ==> {
                &&& final(self).spec_pending(reward_address, cycle, contributor) == 0
                &&& final(self).spec_committed(reward_address, cycle, contributor) == old(
                    self,
                ).spec_committed(reward_address, cycle, contributor)
            },
            r is Ok <==> old(self).spec_pending(reward_address, cycle, contributor) > 0,
            r matches Ok(amount) ==> {
                &&& amount == old(self).spec_pending(reward_address, cycle, contributor)
                &&& final(self).spec_pending(reward_address, cycle, contributor) == 0
                &&& final(self).spec_committed(reward_address, cycle, contributor) == Some(index)
            },
    {
        let ghost before = *self;
        match self.find(reward_address, cycle, contributor) {
            None => Err(LedgerError::NothingToCommit),
            Some(i) => {
                let e = self.entries[i];
                if e.stacked_amount == 0 {
                    return Err(LedgerError::NothingToCommit);
                }
                let cleared = PartialStackedEntry {
                    reward_address: e.reward_address,
                    cycle: e.cycle,
                    contributor: e.contributor,
                    stacked_amount: 0,
                    committed_index: Some(index),
                };
                self.entries.set(i, cleared);
                proof {
                    before.lemma_replaced(self, i as int);
                }
                Ok(e.stacked_amount)
            },
        }
    }

    /// Whether every pending amount and recorded commit is as in `before`.
    pub open spec fn same_as(&self, before: &PartialLedger) -> bool {
        forall|a: RewardAddress, c: u64, w: Principal|
            #![trigger self.spec_pending(a, c, w)]
            #![trigger self.spec_committed(a, c, w)]
            self.spec_pending(a, c, w) == before.spec_pending(a, c, w) && self.spec_committed(
                a,
                c,
                w,
            ) == before.spec_committed(a, c, w)
    }

    /// Whether `self` is `before` with `amount` added to what waits for
    /// `contributor` under `reward_address` in each of the `upto` cycles from
    /// `first` on; recorded commits and all other amounts are as in `before`.
    pub open spec fn added_from(
        &self,
        before: &PartialLedger,
        reward_address: RewardAddress,
        first: u64,
        upto: int,
        contributor: Principal,
        amount: u128,
    ) -> bool {
        forall|a: RewardAddress, c: u64, w: Principal|
            #![trigger self.spec_pending(a, c, w)]
            #![trigger self.spec_committed(a, c, w)]
            {
                &&& self.spec_committed(a, c, w) == before.spec_committed(a, c, w)
                &&& self.spec_pending(a, c, w) == if a == reward_address && w == contributor
                    && first <= c < first + upto {
                    before.spec_pending(a, c, w) + amount
                } else {
                    before.spec_pending(a, c, w) as int
                }
            }
    }

    /// Adds `amount` to what waits for `contributor` under `reward_address`
    /// in each of the `count` cycles from `first` on. Either all of them are
    /// raised or nothing changes.
    pub(crate) fn add_pending_range(
        &mut self,
        reward_address: RewardAddress,
        first: u64,
        count: u64,
        contributor: Principal,
        amount: u128,
    ) -> (r: Result<(), LedgerError>)
        requires
            old(self).wf(),
            first + count <= u64::MAX,
        ensures
            final(self).wf(),
            r == Err::<(), LedgerError>(LedgerError::ArithmeticOverflow) <==> exists|c: u64|
                first <= c < first + count && #[trigger] old(self).spec_pending(
                    reward_address,
                    c,
                    contributor,
                ) + amount > u128::MAX,
            r is Err ==> r == Err::<(), LedgerError>(LedgerError::ArithmeticOverflow)
                && final(self).same_as(old(self)),
            r is Ok ==> final(self).added_from(
                old(self),
                reward_address,
                first,
                count as int,
                contributor,
                amount,
            ),
    {
        let mut k: u64 = 0;
        while k < count
            invariant
                first + count <= u64::MAX,
                k <= count,
                *self == *old(self),
                self.wf(),
                forall|c: u64|
                    first <= c < first + k ==> #[trigger] self.spec_pending(
                        reward_address,
                        c,
                        contributor,
                    ) + amount <= u128::MAX,
            decreases count - k,
        {
            if amount > u128::MAX - self.pending(reward_address, first + k, contributor) {
                return Err(LedgerError::ArithmeticOverflow);
            }
            k += 1;
        }
        let ghost before = *self;
        let mut k: u64 = 0;
        while k < count
            invariant
                first + count <= u64::MAX,
                k <= count,
                self.wf(),
                forall|c: u64|
                    first <= c < first + count ==> #[trigger] before.spec_pending(
                        reward_address,
                        c,
                        contributor,
                    ) + amount <= u128::MAX,
                self.added_from(&before, reward_address, first, k as int, contributor, amount),
            decreases count - k,
        {
            let cycle = first + k;
            let ghost mid = *self;
            assert(before.spec_pending(reward_address, cycle, contributor) + amount <= u128::MAX);
            assert(mid.spec_pending(reward_address, cycle, contributor) == before.spec_pending(
                reward_address,
                cycle,
                contributor,
            ));
            let done = self.add_pending(reward_address, cycle, contributor, amount);
            assert(done is Ok);
            assert forall|a: RewardAddress, c: u64, w: Principal|
                #![trigger self.spec_pending(a, c, w)]
                #![trigger self.spec_committed(a, c, w)]
                {
                    &&& self.spec_committed(a, c, w) == before.spec_committed(a, c, w)
                    &&& self.spec_pending(a, c, w) == if a == reward_address && w == contributor
                        && first <= c < first + (k + 1) {
                        before.spec_pending(a, c, w) + amount
                    } else {
                        before.spec_pending(a, c, w) as int
                    }
                } by {
                if !(a == reward_address && c == cycle && w == contributor) {
                    assert(self.spec_pending(a, c, w) == mid.spec_pending(a, c, w));
                    assert(self.spec_committed(a, c, w) == mid.spec_committed(a, c, w));
                } else {
                    assert(mid.spec_committed(a, c, w) == before.spec_committed(a, c, w));
                }
            }
            k += 1;
        }
        Ok(())
    }

    /// The index that the last commit under the key created, if there was one.
    pub fn committed_index(
        &self,
        reward_address: RewardAddress,
        cycle: u64,
        contributor: Principal,
    ) -> (r: Option<u64>)
        requires
            self.wf(),
        ensures
            r == self.spec_committed(reward_address, cycle, contributor),
    {
        match self.find(reward_address, cycle, contributor) {
            None => None,
            Some(i) => self.entries[i].committed_index,
        }
    }
}

} // verus!
