//! The version transition controller: which protocol generation is active at
//! a height, and the release of first-generation locks that reach beyond the
//! release height.

use vstd::prelude::*;
use crate::ledger::Ledger;
use crate::types::{LockVersion, Principal, RewardAddress};

verus! {

broadcast use vstd::std_specs::hash::group_hash_axioms;

/// The controller's two states.
#[derive(Clone, Copy, Debug, PartialEq, Eq, Structural)]
pub enum Phase {
    /// Only the first protocol generation is active.
    PreTransition,
    /// The first generation is retired; the second is active.
    PostTransition,
}

impl Ledger {
    /// The controller's state at `height`.
    pub open spec fn spec_phase(&self, height: u64) -> Phase {
        if height < self.spec_params().transition_height {
            Phase::PreTransition
        } else {
            Phase::PostTransition
        }
    }

    /// The controller's state at `height`.
    pub fn phase(&self, height: u64) -> (r: Phase)
        ensures
            r == self.spec_phase(height),
    {
        if height < self.params.transition_height {
            Phase::PreTransition
        } else {
            Phase::PostTransition
        }
    }

    /// Whether `who` holds a first-generation lock that reaches beyond the
    /// release height.
    pub open spec fn spec_early_unlock_due(&self, who: Principal) -> bool {
        self.spec_account(who).lock.lock_version == LockVersion::V1 && self.spec_account(
            who,
        ).lock.unlock_height > self.spec_params().v1_unlock_height
    }

    /// Whether the address lists are those of `before` with every entry
    /// retracted that holds an amount for `who` in the release cycle or a
    /// later one. Every slot stays, and entries of earlier cycles, of other
    /// stackers and of delegates' aggregates read as before.
    pub open spec fn cycles_released(&self, before: &Ledger, who: Principal) -> bool {
        &&& forall|c: u64| #[trigger] self.spec_entries(c).len() == before.spec_entries(c).len()
        &&& forall|c: u64, i: int|
            0 <= i < before.spec_entries(c).len() ==> #[trigger] self.spec_entries(c)[i] == if c
                >= before.spec_params().spec_v1_unlock_cycle() && before.spec_entries(
                c,
            )[i].is_live_of(who) {
                before.spec_entries(c)[i].spec_retracted()
            } else {
                before.spec_entries(c)[i]
            }
    }

    /// Releases the lock of `who` ahead of its time, if it is a
    /// first-generation lock that reaches beyond the release height: the
    /// lock is cleared, the stacking record deleted, and every entry that
    /// holds an amount for the stacker from the release cycle on is
    /// retracted. Otherwise nothing changes. Gives back the amount released.
    pub(crate) fn early_unlock(&mut self, who: Principal) -> (released: u128)
        requires
            old(self).wf(),
        ensures
            final(self).wf(),
            final(self).v1_lockers@ == old(self).v1_lockers@,
            final(self).same_accounts_but(old(self), who),
            final(self).same_stacking_but(old(self), who),
            final(self).same_delegations(old(self)),
            final(self).same_partial(old(self)),
            final(self).same_settings(old(self)),
            old(self).spec_early_unlock_due(who) ==> {
                &&& released == old(self).spec_account(who).lock.locked_amount
                &&& final(self).spec_account(who) == old(self).spec_account(who).spec_unlock()
                &&& final(self).spec_stacking(who) is None
                &&& final(self).cycles_released(old(self), who)
            },
            !old(self).spec_early_unlock_due(who) ==> {
                &&& released == 0
                &&& final(self).spec_account(who) == old(self).spec_account(who)
                &&& final(self).spec_stacking(who) == old(self).spec_stacking(who)
                &&& final(self).same_cycles(old(self))
            },
    {
        proof {
            old(self).lemma_wf();
        }
        let ghost before = *self;
        let mut account = self.account(who);
        let due = match account.lock.lock_version {
            LockVersion::V1 => account.lock.unlock_height > self.params.v1_unlock_height,
            _ => false,
        };
        if !due {
            proof {
                before.lemma_frame(self);
            }
            return 0;
        }
        let from_cycle = match self.params.cycles.cycle_of(self.params.v1_unlock_height) {
            Ok(c) => c,
            Err(_) => 0,
        };
        assert(from_cycle == before.spec_params().spec_v1_unlock_cycle());
        self.cycles.retract_stacker(who, from_cycle);
        self.stacking.remove(&who.id);
        let released = account.unlock();
        self.accounts.insert(who.id, account);
        proof {
            assert(self.cycles_released(&before, who));
            assert forall|c: u64, i: int| 0 <= i < before.spec_entries(c).len() implies {
                let b = #[trigger] before.spec_entries(c)[i];
                let a = self.spec_entries(c)[i];
                &&& i < self.spec_entries(c).len()
                &&& a == b || b.stacker == Some(who) || (b.stacker is None && a.stacker is None
                    && a.reward_address == b.reward_address && a.amount_stacked
                    >= b.amount_stacked)
            } by {
                assert(self.spec_entries(c).len() == before.spec_entries(c).len());
                let a = self.spec_entries(c)[i];
            }
            before.lemma_ledger_updated(self, who);
        }
        released
    }

    /// Whether the entry at `index` of `cycle` is one that the release of
    /// first-generation locks takes back: the cycle is the release cycle or
    /// a later one, and the entry holds an amount for a stacker whose lock
    /// is released.
    pub open spec fn spec_retractable(&self, cycle: u64, index: int) -> bool {
        &&& 0 <= index < self.spec_entries(cycle).len()
        &&& cycle >= self.spec_params().spec_v1_unlock_cycle()
        &&& self.spec_entries(cycle)[index].amount_stacked > 0
        &&& match self.spec_entries(cycle)[index].stacker {
            Some(who) => self.spec_early_unlock_due(who),
            None => false,
        }
    }

    /// Whether the ledger is `before` with the locks released that are due
    /// and whose holder is listed in `done`.
    pub open spec fn released_so_far(&self, before: &Ledger, done: Seq<u64>) -> bool {
        &&& self.spec_params() == before.spec_params()
        &&& forall|who: Principal| #[trigger]
            self.spec_account(who) == if before.spec_early_unlock_due(who) && done.contains(
                who.id,
            ) {
                before.spec_account(who).spec_unlock()
            } else {
                before.spec_account(who)
            }
        &&& forall|who: Principal| #[trigger]
            self.spec_stacking(who) == if before.spec_early_unlock_due(who) && done.contains(
                who.id,
            ) {
                None
            } else {
                before.spec_stacking(who)
            }
        &&& forall|c: u64| #[trigger] self.spec_entries(c).len() == before.spec_entries(c).len()
        &&& forall|c: u64, i: int|
            0 <= i < before.spec_entries(c).len() ==> #[trigger] self.spec_entries(c)[i]
                == if before.spec_retractable(c, i) && done.contains(
                before.spec_entries(c)[i].stacker.unwrap().id,
            ) {
                before.spec_entries(c)[i].spec_retracted()
            } else {
                before.spec_entries(c)[i]
            }
        &&& self.same_delegations(before)
        &&& self.same_partial(before)
        &&& self.same_settings(before)
    }

    /// Whether the ledger is `before` with every first-generation lock
    /// released that reached beyond the release height: those accounts are
    /// unlocked and have no stacking record, every entry that held an amount
    /// for one of them from the release cycle on is retracted, and
    /// everything else is as it was.
    pub open spec fn v1_released_from(&self, before: &Ledger) -> bool {
        &&& forall|who: Principal| #[trigger]
            self.spec_account(who) == if before.spec_early_unlock_due(who) {
                before.spec_account(who).spec_unlock()
            } else {
                before.spec_account(who)
            }
        &&& forall|who: Principal| #[trigger]
            self.spec_stacking(who) == if before.spec_early_unlock_due(who) {
                None
            } else {
                before.spec_stacking(who)
            }
        &&& forall|c: u64| #[trigger] self.spec_entries(c).len() == before.spec_entries(c).len()
        &&& forall|c: u64, i: int|
            0 <= i < before.spec_entries(c).len() ==> #[trigger] self.spec_entries(c)[i]
                == if before.spec_retractable(c, i) {
                before.spec_entries(c)[i].spec_retracted()
            } else {
                before.spec_entries(c)[i]
            }
        &&& self.same_delegations(before)
        &&& self.same_partial(before)
        &&& self.same_settings(before)
    }

    /// One more release keeps the ledger in step with the list of holders
    /// that were looked at.
    proof fn lemma_release_step(
        before: &Ledger,
        mid: &Ledger,
        after: &Ledger,
        done: Seq<u64>,
        who: Principal,
    )
        requires
            before.wf(),
            mid.released_so_far(before, done),
            after.spec_params() == mid.spec_params(),
            after.same_accounts_but(mid, who),
            after.same_stacking_but(mid, who),
            after.same_delegations(mid),
            after.same_partial(mid),
            after.same_settings(mid),
            mid.spec_early_unlock_due(who) ==> {
                &&& after.spec_account(who) == mid.spec_account(who).spec_unlock()
                &&& after.spec_stacking(who) is None
                &&& after.cycles_released(mid, who)
            },
            !mid.spec_early_unlock_due(who) ==> {
                &&& after.spec_account(who) == mid.spec_account(who)
                &&& after.spec_stacking(who) == mid.spec_stacking(who)
                &&& after.same_cycles(mid)
            },
        ensures
            after.released_so_far(before, done.push(who.id)),
    {
        before.lemma_wf();
        let more = done.push(who.id);
        assert(more[more.len() - 1] == who.id);
        assert forall|x: u64| more.contains(x) <==> (done.contains(x) || x == who.id) by {
            if done.contains(x) {
                let j = choose|j: int| 0 <= j < done.len() && done[j] == x;
                assert(more[j] == x);
            }
            if more.contains(x) {
                let j = choose|j: int| 0 <= j < more.len() && more[j] == x;
                if j < done.len() {
                    assert(done[j] == x);
                }
            }
        }
        let was_due = mid.spec_early_unlock_due(who);
        // The holder's own account tells whether it was handled before.
        assert(mid.spec_account(who) == if before.spec_early_unlock_due(who) && done.contains(
            who.id,
        ) {
            before.spec_account(who).spec_unlock()
        } else {
            before.spec_account(who)
        });
        assert(mid.spec_stacking(who) == if before.spec_early_unlock_due(who) && done.contains(
            who.id,
        ) {
            None
        } else {
            before.spec_stacking(who)
        });
        assert forall|q: Principal| #[trigger]
            after.spec_account(q) == if before.spec_early_unlock_due(q) && more.contains(q.id) {
                before.spec_account(q).spec_unlock()
            } else {
                before.spec_account(q)
            } by {
            if q != who {
                assert(q.id != who.id);
                assert(after.spec_account(q) == mid.spec_account(q));
            }
        }
        assert forall|q: Principal| #[trigger]
            after.spec_stacking(q) == if before.spec_early_unlock_due(q) && more.contains(q.id) {
                None
            } else {
                before.spec_stacking(q)
            } by {
            if q != who {
                assert(q.id != who.id);
                assert(after.spec_stacking(q) == mid.spec_stacking(q));
            }
        }
        assert forall|c: u64| #[trigger]
            after.spec_entries(c).len() == before.spec_entries(c).len() by {
            assert(mid.spec_entries(c).len() == before.spec_entries(c).len());
            if !was_due {
                assert(after.spec_entries(c) == mid.spec_entries(c));
            }
        }
        assert forall|c: u64, i: int| 0 <= i < before.spec_entries(c).len() implies #[trigger]
        after.spec_entries(c)[i] == if before.spec_retractable(c, i) && more.contains(
            before.spec_entries(c)[i].stacker.unwrap().id,
        ) {
            before.spec_entries(c)[i].spec_retracted()
        } else {
            before.spec_entries(c)[i]
        } by {
            let b = before.spec_entries(c)[i];
            assert(mid.spec_entries(c).len() == before.spec_entries(c).len());
            assert(mid.spec_entries(c)[i] == if before.spec_retractable(c, i) && done.contains(
                b.stacker.unwrap().id,
            ) {
                b.spec_retracted()
            } else {
                b
            });
            if was_due {
                // Not handled before: the account in `mid` is the one in `before`.
                assert(before.spec_early_unlock_due(who) && !done.contains(who.id));
                assert(after.spec_entries(c)[i] == if c >= mid.spec_params().spec_v1_unlock_cycle()
                    && mid.spec_entries(c)[i].is_live_of(who) {
                    mid.spec_entries(c)[i].spec_retracted()
                } else {
                    mid.spec_entries(c)[i]
                });
                match b.stacker {
                    Some(q) => {
                        if q != who {
                            assert(q.id != who.id);
                        }
                    },
                    None => {},
                }
            } else {
                assert(after.spec_entries(c) == mid.spec_entries(c));
                if before.spec_retractable(c, i) && b.stacker.unwrap().id == who.id {
                    assert(b.stacker.unwrap() == who);
                }
            }
        }
    }

    /// The release of first-generation locks: from the release height on,
    /// every first-generation lock that reaches beyond it is cleared, its
    /// stacking record deleted and every entry that holds an amount for its
    /// stacker from the release cycle on retracted; entries of earlier
    /// cycles, and all other locks, stay.
    /// Before the release height nothing changes. A second run finds nothing
    /// left to release. Says whether the release height was reached.
    pub fn apply_v1_unlock(&mut self, height: u64) -> (fired: bool)
        requires
            old(self).wf(),
        ensures
            final(self).wf(),
            fired == (height >= old(self).spec_params().v1_unlock_height),
            fired ==> final(self).v1_released_from(old(self)),
            fired ==> forall|who: Principal| !#[trigger] final(self).spec_early_unlock_due(who),
            forall|c: u64| #[trigger]
                final(self).spec_total(c) == crate::reward_list::sum_amounts(
                    final(self).spec_entries(c),
                ),
            !fired ==> final(self).unchanged(old(self)),
            final(self).spec_params() == old(self).spec_params(),
    {
        if height < self.params.v1_unlock_height {
            proof {
                old(self).lemma_frame(self);
                self.lemma_wf();
            }
            return false;
        }
        let ghost before = *self;
        let n = self.v1_lockers.len();
        proof {
            assert(before.v1_lockers@.subrange(0, 0) =~= Seq::<u64>::empty());
            assert forall|c: u64, i: int| 0 <= i < before.spec_entries(c).len() implies #[trigger]
            self.spec_entries(c)[i] == if before.spec_retractable(c, i) && Seq::<u64>::empty().contains(
                before.spec_entries(c)[i].stacker.unwrap().id,
            ) {
                before.spec_entries(c)[i].spec_retracted()
            } else {
                before.spec_entries(c)[i]
            } by {}
        }
        let mut k: usize = 0;
        while k < n
            invariant
                self.wf(),
                before.wf(),
                self.v1_lockers@ == before.v1_lockers@,
                n == before.v1_lockers@.len(),
                k <= n,
                self.released_so_far(&before, before.v1_lockers@.subrange(0, k as int)),
            decreases n - k,
        {
            let id = self.v1_lockers[k];
            let ghost mid = *self;
            self.early_unlock(Principal { id });
            proof {
                Self::lemma_release_step(
                    &before,
                    &mid,
                    self,
                    before.v1_lockers@.subrange(0, k as int),
                    Principal { id },
                );
                assert(before.v1_lockers@.subrange(0, k as int).push(id)
                    =~= before.v1_lockers@.subrange(0, k as int + 1));
            }
            k += 1;
        }
        proof {
            self.lemma_wf();
            assert(before.v1_lockers@.subrange(0, n as int) =~= before.v1_lockers@);
            let all = before.v1_lockers@;
            assert forall|who: Principal| before.spec_early_unlock_due(who) implies all.contains(
                who.id,
            ) by {
                assert(before.accounts@.contains_key(who.id));
            }
            assert forall|who: Principal| #[trigger]
                self.spec_account(who) == if before.spec_early_unlock_due(who) {
                    before.spec_account(who).spec_unlock()
                } else {
                    before.spec_account(who)
                } by {}
            assert forall|who: Principal| #[trigger]
                self.spec_stacking(who) == if before.spec_early_unlock_due(who) {
                    None
                } else {
                    before.spec_stacking(who)
                } by {}
            assert forall|c: u64, i: int| 0 <= i < before.spec_entries(c).len() implies #[trigger]
            self.spec_entries(c)[i] == if before.spec_retractable(c, i) {
                before.spec_entries(c)[i].spec_retracted()
            } else {
                before.spec_entries(c)[i]
            } by {
                if before.spec_retractable(c, i) {
                    let q = before.spec_entries(c)[i].stacker.unwrap();
                    assert(before.spec_early_unlock_due(q));
                }
            }
            assert forall|who: Principal| !#[trigger] self.spec_early_unlock_due(who) by {
                assert(self.spec_account(who) == if before.spec_early_unlock_due(who) {
                    before.spec_account(who).spec_unlock()
                } else {
                    before.spec_account(who)
                });
            }
        }
        true
    }
}

} // verus!
