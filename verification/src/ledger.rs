//! The stacking ledger: accounts, stacking records, reward cycle lists,
//! pending delegated amounts and delegations, kept consistent with each other.

use vstd::prelude::*;
use std::collections::HashMap;
use crate::account::Account;
use crate::cycle::{spec_cycle_of, spec_start_height_of};
use crate::partial::PartialLedger;
use crate::records::{DelegationRelation, PoxParams, StackingState, StackingStateView};
use crate::reward_list::{RewardCycleAddressListEntry, RewardCycles, sum_amounts};
use crate::types::{LedgerError, LockVersion, Principal, RewardAddress};

verus! {

broadcast use vstd::std_specs::hash::group_hash_axioms;

/// The whole state of the stacking engine.
pub struct Ledger {
    pub(crate) params: PoxParams,
    pub(crate) threshold: u128,
    pub(crate) accounts: HashMap<u64, Account>,
    pub(crate) stacking: HashMap<u64, StackingState>,
    pub(crate) cycles: RewardCycles,
    pub(crate) partial: PartialLedger,
    pub(crate) delegations: HashMap<u64, DelegationRelation>,
    pub(crate) rejections: HashMap<u64, u128>,
    /// Every principal that holds a first-generation lock is listed here.
    pub(crate) v1_lockers: Vec<u64>,
}

impl Ledger {
    /// The protocol parameters that the ledger was made with.
    pub open(crate) spec fn spec_params(&self) -> PoxParams {
        self.params
    }

    /// The least amount that `stack` accepts.
    pub open(crate) spec fn spec_threshold(&self) -> u128 {
        self.threshold
    }

    /// The account of `who`; an account that was never credited is empty.
    pub open(crate) spec fn spec_account(&self, who: Principal) -> Account {
        if self.accounts@.contains_key(who.id) {
            self.accounts@[who.id]
        } else {
            Account::spec_empty()
        }
    }

    /// The stacking record of `who`, if there is one.
    pub open(crate) spec fn spec_stacking(&self, who: Principal) -> Option<StackingStateView> {
        if self.stacking@.contains_key(who.id) {
            Some(self.stacking@[who.id]@)
        } else {
            None
        }
    }

    /// The delegation that `who` has given, if any.
    pub open(crate) spec fn spec_delegation(&self, who: Principal) -> Option<DelegationRelation> {
        if self.delegations@.contains_key(who.id) {
            Some(self.delegations@[who.id])
        } else {
            None
        }
    }

    /// The address list of `cycle` in index order.
    pub open(crate) spec fn spec_entries(&self, cycle: u64) -> Seq<RewardCycleAddressListEntry> {
        self.cycles.spec_entries(cycle)
    }

    /// The total recorded for `cycle`.
    pub open(crate) spec fn spec_total(&self, cycle: u64) -> u128 {
        self.cycles.spec_total(cycle)
    }

    /// The delegated amount that waits to be committed under the key.
    pub open(crate) spec fn spec_pending(
        &self,
        reward_address: RewardAddress,
        cycle: u64,
        delegate: Principal,
    ) -> u128 {
        self.partial.spec_pending(reward_address, cycle, delegate)
    }

    /// The index of the entry that the last commit under the key created.
    pub open(crate) spec fn spec_committed(
        &self,
        reward_address: RewardAddress,
        cycle: u64,
        delegate: Principal,
    ) -> Option<u64> {
        self.partial.spec_committed(reward_address, cycle, delegate)
    }

    /// The rejection weight recorded for `cycle`.
    pub open(crate) spec fn spec_rejection(&self, cycle: u64) -> u128 {
        if self.rejections@.contains_key(cycle) {
            self.rejections@[cycle]
        } else {
            0
        }
    }

    /// Whether the entry that `state` records for its `k`-th cycle is in the
    /// list, belongs to `who`, pays to the record's address and holds an
    /// amount, no more than `account` has locked, and exactly that where the
    /// cycle comes after every increase of the lock.
    pub open spec fn link_holds(
        &self,
        who: Principal,
        state: StackingStateView,
        account: Account,
        k: int,
    ) -> bool {
        let cycle = (state.first_reward_cycle + k) as u64;
        let index = state.reward_set_indexes[k];
        &&& index < self.spec_entries(cycle).len()
        &&& self.spec_entries(cycle)[index as int].stacker == Some(who)
        &&& self.spec_entries(cycle)[index as int].reward_address == state.reward_address
        &&& 0 < self.spec_entries(cycle)[index as int].amount_stacked
            <= account.lock.locked_amount
        &&& state.holds_whole_lock(cycle) ==> self.spec_entries(cycle)[index as int].amount_stacked
            == account.lock.locked_amount
    }

    /// Whether the delegate's pool for `cycle` covers the lock that the
    /// delegate placed: what waits under the record's address holds at least
    /// what `account` has locked, unless the delegate has committed the cycle
    /// under that address. A lock of the principal's own has no pool.
    pub open spec fn pool_covers(
        &self,
        state: StackingStateView,
        account: Account,
        cycle: u64,
    ) -> bool {
        match state.delegated_to {
            Some(delegate) => self.spec_committed(state.reward_address, cycle, delegate) is Some
                || self.spec_pending(state.reward_address, cycle, delegate)
                >= account.lock.locked_amount,
            None => true,
        }
    }

    /// Whether no pool has lost anything since `before`: a recorded commit
    /// stays recorded, and what waits under a key has not become less unless
    /// the key was committed.
    pub open spec fn pools_kept(&self, before: &Ledger) -> bool {
        forall|a: RewardAddress, c: u64, w: Principal|
            #![trigger self.spec_pending(a, c, w)]
            #![trigger self.spec_committed(a, c, w)]
            {
                &&& before.spec_committed(a, c, w) is Some ==> self.spec_committed(a, c, w)
                    is Some
                &&& self.spec_committed(a, c, w) is Some || self.spec_pending(a, c, w)
                    >= before.spec_pending(a, c, w)
            }
    }

    /// Whether the stacking record of `who` agrees with the account, the
    /// address lists and the delegate's pools.
    pub open spec fn stacker_consistent(&self, who: Principal) -> bool {
        match self.spec_stacking(who) {
            None => true,
            Some(state) => {
                let account = self.spec_account(who);
                &&& state.lock_period >= 1
                &&& state.reward_set_indexes.len() <= state.lock_period
                &&& state.delegated_to is Some ==> state.reward_set_indexes.len() == 0
                &&& state.first_reward_cycle + state.lock_period <= u64::MAX
                &&& account.lock.is_active()
                &&& account.lock.unlock_height == spec_start_height_of(
                    self.spec_params().cycles,
                    state.end_cycle(),
                )
                &&& forall|k: int|
                    0 <= k < state.reward_set_indexes.len() ==> #[trigger] self.link_holds(
                        who,
                        state,
                        account,
                        k,
                    )
                &&& forall|c: u64|
                    state.first_reward_cycle <= c < state.end_cycle() && state.holds_whole_lock(c)
                        ==> #[trigger] self.pool_covers(state, account, c)
            },
        }
    }

    /// Whether the index recorded for a commit under the key names a live
    /// aggregate entry for that address.
    pub open spec fn commit_consistent(
        &self,
        reward_address: RewardAddress,
        cycle: u64,
        delegate: Principal,
    ) -> bool {
        match self.spec_committed(reward_address, cycle, delegate) {
            None => true,
            Some(index) => {
                &&& index < self.spec_entries(cycle).len()
                &&& self.spec_entries(cycle)[index as int].stacker is None
                &&& self.spec_entries(cycle)[index as int].amount_stacked > 0
                &&& self.spec_entries(cycle)[index as int].reward_address == reward_address
            },
        }
    }

    /// The ledger's invariant: its parts are well formed, every stacking
    /// record agrees with its account and with the address lists, and every
    /// recorded commit names a live aggregate entry.
    pub open(crate) spec fn wf(&self) -> bool {
        &&& self.params.wf()
        &&& self.cycles.wf()
        &&& self.partial.wf()
        &&& forall|id: u64| #[trigger]
            self.accounts@.contains_key(id) ==> self.accounts@[id].wf()
        &&& forall|id: u64| #[trigger]
            self.stacking@.contains_key(id) ==> self.stacker_consistent(Principal { id })
        &&& forall|a: RewardAddress, c: u64, w: Principal| #[trigger]
            self.commit_consistent(a, c, w)
        &&& forall|id: u64| #[trigger]
            self.accounts@.contains_key(id) && self.accounts@[id].lock.lock_version
                == LockVersion::V1 ==> self.v1_lockers@.contains(id)
    }

    /// Whether every account is as in `before`.
    pub open spec fn same_accounts(&self, before: &Ledger) -> bool {
        forall|who: Principal| #[trigger] self.spec_account(who) == before.spec_account(who)
    }

    /// Whether every account but that of `except` is as in `before`.
    pub open spec fn same_accounts_but(&self, before: &Ledger, except: Principal) -> bool {
        forall|who: Principal|
            who != except ==> #[trigger] self.spec_account(who) == before.spec_account(who)
    }

    /// Whether every stacking record is as in `before`.
    pub open spec fn same_stacking(&self, before: &Ledger) -> bool {
        forall|who: Principal| #[trigger] self.spec_stacking(who) == before.spec_stacking(who)
    }

    /// Whether every stacking record but that of `except` is as in `before`.
    pub open spec fn same_stacking_but(&self, before: &Ledger, except: Principal) -> bool {
        forall|who: Principal|
            who != except ==> #[trigger] self.spec_stacking(who) == before.spec_stacking(who)
    }

    /// Whether every delegation is as in `before`.
    pub open spec fn same_delegations(&self, before: &Ledger) -> bool {
        forall|who: Principal| #[trigger] self.spec_delegation(who) == before.spec_delegation(who)
    }

    /// Whether every delegation but that of `except` is as in `before`.
    pub open spec fn same_delegations_but(&self, before: &Ledger, except: Principal) -> bool {
        forall|who: Principal|
            who != except ==> #[trigger] self.spec_delegation(who) == before.spec_delegation(who)
    }

    /// Whether every address list and total is as in `before`.
    pub open spec fn same_cycles(&self, before: &Ledger) -> bool {
        forall|c: u64|
            #![trigger self.spec_entries(c)]
            #![trigger self.spec_total(c)]
            self.spec_entries(c) == before.spec_entries(c) && self.spec_total(c)
                == before.spec_total(c)
    }

    /// Whether every address list and total but that of `except` is as in `before`.
    pub open spec fn same_cycles_but(&self, before: &Ledger, except: u64) -> bool {
        forall|c: u64|
            #![trigger self.spec_entries(c)]
            #![trigger self.spec_total(c)]
            c != except ==> self.spec_entries(c) == before.spec_entries(c) && self.spec_total(c)
                == before.spec_total(c)
    }

    /// Whether every pending amount and recorded commit is as in `before`.
    pub open spec fn same_partial(&self, before: &Ledger) -> bool {
        forall|a: RewardAddress, c: u64, w: Principal|
            #![trigger self.spec_pending(a, c, w)]
            #![trigger self.spec_committed(a, c, w)]
            self.spec_pending(a, c, w) == before.spec_pending(a, c, w) && self.spec_committed(
                a,
                c,
                w,
            ) == before.spec_committed(a, c, w)
    }

    /// Whether every pending amount and recorded commit, but those under the
    /// given key, is as in `before`.
    pub open spec fn same_partial_but(
        &self,
        before: &Ledger,
        reward_address: RewardAddress,
        cycle: u64,
        delegate: Principal,
    ) -> bool {
        forall|a: RewardAddress, c: u64, w: Principal|
            #![trigger self.spec_pending(a, c, w)]
            #![trigger self.spec_committed(a, c, w)]
            !(a == reward_address && c == cycle && w == delegate) ==> self.spec_pending(a, c, w)
                == before.spec_pending(a, c, w) && self.spec_committed(a, c, w)
                == before.spec_committed(a, c, w)
    }

    /// Whether every slot that `before` has is still at its index, names the
    /// same cycle, index, reward address and stacker, and holds no less.
    pub open spec fn slots_stable(&self, before: &Ledger) -> bool {
        forall|c: u64, i: int|
            0 <= i < before.spec_entries(c).len() ==> {
                let b = #[trigger] before.spec_entries(c)[i];
                let a = self.spec_entries(c)[i];
                &&& i < self.spec_entries(c).len()
                &&& a.cycle == b.cycle
                &&& a.index == b.index
                &&& a.reward_address == b.reward_address
                &&& a.stacker == b.stacker
                &&& a.amount_stacked >= b.amount_stacked
            }
    }

    /// Whether parameters, threshold and rejection weights are as in `before`.
    pub open spec fn same_settings(&self, before: &Ledger) -> bool {
        &&& self.spec_params() == before.spec_params()
        &&& self.spec_threshold() == before.spec_threshold()
        &&& forall|c: u64| #[trigger] self.spec_rejection(c) == before.spec_rejection(c)
    }

    /// A ledger whose tables are those of `self` is consistent as `self` is.
    pub(crate) proof fn lemma_frame(&self, after: &Ledger)
        requires
            self.wf(),
            after.params == self.params,
            after.accounts@ == self.accounts@,
            after.stacking@ == self.stacking@,
            after.cycles == self.cycles,
            after.partial == self.partial,
            after.v1_lockers@ == self.v1_lockers@,
        ensures
            after.wf(),
            after.same_accounts(self),
            after.same_stacking(self),
            after.same_cycles(self),
            after.same_partial(self),
            after.spec_params() == self.spec_params(),
    {
        assert forall|id: u64| #[trigger] after.stacking@.contains_key(id) implies after.stacker_consistent(Principal { id }) by {
            self.lemma_stacker_carried(after, Principal { id });
        }
        assert forall|a: RewardAddress, c: u64, w: Principal| #[trigger]
            after.commit_consistent(a, c, w) by {
            assert(self.commit_consistent(a, c, w));
        }
    }

    /// A stacker whose record, account and linked entries are in `after` as
    /// in `self` is consistent in `after`.
    pub(crate) proof fn lemma_stacker_carried(&self, after: &Ledger, who: Principal)
        requires
            self.stacker_consistent(who),
            after.spec_params() == self.spec_params(),
            after.spec_stacking(who) == self.spec_stacking(who),
            after.spec_account(who) == self.spec_account(who),
            self.spec_stacking(who) matches Some(state) ==> forall|k: int|
                #![trigger state.reward_set_indexes[k]]
                0 <= k < state.reward_set_indexes.len() ==> {
                    let c = (state.first_reward_cycle + k) as u64;
                    let i = state.reward_set_indexes[k] as int;
                    i < self.spec_entries(c).len() ==> i < after.spec_entries(c).len()
                        && after.spec_entries(c)[i] == self.spec_entries(c)[i]
                },
            after.pools_kept(self),
        ensures
            after.stacker_consistent(who),
    {
        match self.spec_stacking(who) {
            None => {},
            Some(state) => {
                let account = self.spec_account(who);
                assert forall|k: int| 0 <= k < state.reward_set_indexes.len() implies #[trigger]
                after.link_holds(who, state, account, k) by {
                    assert(self.link_holds(who, state, account, k));
                    let i = state.reward_set_indexes[k];
                }
                assert forall|c: u64|
                    state.first_reward_cycle <= c < state.end_cycle() && state.holds_whole_lock(
                        c,
                    ) implies #[trigger] after.pool_covers(state, account, c) by {
                    assert(self.pool_covers(state, account, c));
                }
            },
        }
    }

    /// Whether nothing at all differs from `before`.
    pub open spec fn unchanged(&self, before: &Ledger) -> bool {
        &&& self.same_accounts(before)
        &&& self.same_stacking(before)
        &&& self.same_delegations(before)
        &&& self.same_cycles(before)
        &&& self.same_partial(before)
        &&& self.same_settings(before)
    }

    /// Whether each slot that `before` has is still there, and is as it was
    /// unless it belonged to `who` or is an aggregate entry that kept its
    /// address and lost nothing.
    pub open spec fn entries_carried(&self, before: &Ledger, who: Principal) -> bool {
        forall|c: u64, i: int|
            0 <= i < before.spec_entries(c).len() ==> {
                let b = #[trigger] before.spec_entries(c)[i];
                let a = self.spec_entries(c)[i];
                &&& i < self.spec_entries(c).len()
                &&& a == b || b.stacker == Some(who) || (b.stacker is None && a.stacker is None
                    && a.reward_address == b.reward_address && a.amount_stacked
                    >= b.amount_stacked)
            }
    }

    /// A change that touches the account and the stacking record of one
    /// principal only, leaves that principal consistent, carries the address
    /// lists over and records only commits that name live aggregate entries,
    /// keeps the ledger consistent.
    pub(crate) proof fn lemma_ledger_updated(&self, after: &Ledger, who: Principal)
        requires
            self.wf(),
            after.params == self.params,
            after.cycles.wf(),
            after.partial.wf(),
            after.entries_carried(self, who),
            after.pools_kept(self),
            forall|a: RewardAddress, c: u64, w: Principal|
                #![trigger after.spec_committed(a, c, w)]
                after.spec_committed(a, c, w) == self.spec_committed(a, c, w)
                    || after.commit_consistent(a, c, w),
            forall|id: u64|
                id != who.id ==> (#[trigger] after.accounts@.contains_key(id))
                    == self.accounts@.contains_key(id),
            forall|id: u64|
                id != who.id && self.accounts@.contains_key(id) ==> #[trigger] after.accounts@[id]
                    == self.accounts@[id],
            forall|id: u64|
                id != who.id ==> (#[trigger] after.stacking@.contains_key(id))
                    == self.stacking@.contains_key(id),
            forall|id: u64|
                id != who.id && self.stacking@.contains_key(id) ==> #[trigger] after.stacking@[id]
                    == self.stacking@[id],
            after.spec_account(who).wf(),
            after.stacker_consistent(who),
            after.spec_account(who).lock.lock_version == LockVersion::V1
                ==> after.v1_lockers@.contains(who.id),
            forall|id: u64| self.v1_lockers@.contains(id) ==> after.v1_lockers@.contains(id),
        ensures
            after.wf(),
            after.same_accounts_but(self, who),
            after.same_stacking_but(self, who),
            after.spec_params() == self.spec_params(),
    {
        assert forall|id: u64| #[trigger] after.accounts@.contains_key(id) implies after.accounts@[id].wf() by {
            if id != who.id {
                assert(self.accounts@.contains_key(id));
            } else {
                assert(after.spec_account(who) == after.accounts@[id]);
            }
        }
        assert forall|id: u64| #[trigger] after.stacking@.contains_key(id) implies after.stacker_consistent(Principal { id }) by {
            let p = Principal { id };
            if id != who.id {
                assert(self.stacking@.contains_key(id));
                assert(self.stacker_consistent(p));
                assert(after.accounts@.contains_key(id) == self.accounts@.contains_key(id));
                let state = self.spec_stacking(p).unwrap();
                let account = self.spec_account(p);
                assert forall|k: int|
                    #![trigger state.reward_set_indexes[k]]
                    0 <= k < state.reward_set_indexes.len() implies {
                    let c = (state.first_reward_cycle + k) as u64;
                    let i = state.reward_set_indexes[k] as int;
                    i < self.spec_entries(c).len() ==> i < after.spec_entries(c).len()
                        && after.spec_entries(c)[i] == self.spec_entries(c)[i]
                } by {
                    let c = (state.first_reward_cycle + k) as u64;
                    let i = state.reward_set_indexes[k] as int;
                    assert(self.link_holds(p, state, account, k));
                    let b = self.spec_entries(c)[i];
                    assert(b.stacker == Some(p));
                }
                self.lemma_stacker_carried(after, p);
            } else {
                assert(p == who);
            }
        }
        assert forall|a: RewardAddress, c: u64, w: Principal| #[trigger]
            after.commit_consistent(a, c, w) by {
            if after.spec_committed(a, c, w) == self.spec_committed(a, c, w) {
                assert(self.commit_consistent(a, c, w));
                match self.spec_committed(a, c, w) {
                    None => {},
                    Some(index) => {
                        let b = self.spec_entries(c)[index as int];
                    },
                }
            }
        }
        assert forall|id: u64| #[trigger]
            after.accounts@.contains_key(id) && after.accounts@[id].lock.lock_version
                == LockVersion::V1 implies after.v1_lockers@.contains(id) by {
            if id != who.id {
                assert(self.accounts@.contains_key(id));
            } else {
                assert(after.spec_account(who) == after.accounts@[id]);
            }
        }
        assert forall|q: Principal| q != who implies #[trigger] after.spec_account(q)
            == self.spec_account(q) by {
            assert(q.id != who.id);
            assert(after.accounts@.contains_key(q.id) == self.accounts@.contains_key(q.id));
        }
        assert forall|q: Principal| q != who implies #[trigger] after.spec_stacking(q)
            == self.spec_stacking(q) by {
            assert(q.id != who.id);
            assert(after.stacking@.contains_key(q.id) == self.stacking@.contains_key(q.id));
        }
    }

    /// A ledger whose tables read as those of `self` do is consistent as
    /// `self` is.
    pub(crate) proof fn lemma_same_views(&self, after: &Ledger)
        requires
            self.wf(),
            after.params == self.params,
            after.accounts@ == self.accounts@,
            after.stacking@ == self.stacking@,
            after.v1_lockers@ == self.v1_lockers@,
            after.cycles.wf(),
            after.partial.wf(),
            after.same_cycles(self),
            after.pools_kept(self),
            forall|a: RewardAddress, c: u64, w: Principal| #[trigger]
                after.spec_committed(a, c, w) == self.spec_committed(a, c, w),
        ensures
            after.wf(),
            after.same_accounts(self),
            after.same_stacking(self),
    {
        let who = Principal { id: 0 };
        assert(self.stacker_consistent(who)) by {
            self.lemma_wf();
        }
        assert(after.spec_account(who).wf()) by {
            self.lemma_wf();
        }
        assert forall|c: u64, i: int| 0 <= i < self.spec_entries(c).len() implies {
            let b = #[trigger] self.spec_entries(c)[i];
            let a = after.spec_entries(c)[i];
            &&& i < after.spec_entries(c).len()
            &&& a == b
        } by {
            assert(after.spec_entries(c) == self.spec_entries(c));
        }
        self.lemma_stacker_carried(after, who);
        if after.spec_account(who).lock.lock_version == LockVersion::V1 {
            assert(self.accounts@.contains_key(who.id));
        }
        self.lemma_ledger_updated(after, who);
    }

    /// A change that touches only the account and the stacking record of one
    /// principal, and leaves that principal consistent, keeps the ledger
    /// consistent.
    pub(crate) proof fn lemma_principal_updated(&self, after: &Ledger, who: Principal)
        requires
            self.wf(),
            after.params == self.params,
            after.cycles == self.cycles,
            after.partial == self.partial,
            after.accounts@.contains_key(who.id),
            after.accounts@[who.id].wf(),
            forall|id: u64|
                id != who.id ==> (#[trigger] after.accounts@.contains_key(id))
                    == self.accounts@.contains_key(id),
            forall|id: u64|
                id != who.id && self.accounts@.contains_key(id) ==> #[trigger] after.accounts@[id]
                    == self.accounts@[id],
            forall|id: u64|
                id != who.id ==> (#[trigger] after.stacking@.contains_key(id))
                    == self.stacking@.contains_key(id),
            forall|id: u64|
                id != who.id && self.stacking@.contains_key(id) ==> #[trigger] after.stacking@[id]
                    == self.stacking@[id],
            after.stacker_consistent(who),
            after.accounts@[who.id].lock.lock_version == LockVersion::V1
                ==> after.v1_lockers@.contains(who.id),
            forall|id: u64| self.v1_lockers@.contains(id) ==> after.v1_lockers@.contains(id),
        ensures
            after.wf(),
            after.same_accounts_but(self, who),
            after.same_stacking_but(self, who),
            after.same_cycles(self),
            after.same_partial(self),
            after.spec_params() == self.spec_params(),
    {
        self.lemma_ledger_updated(after, who);
    }

    /// What the invariant says of any principal, cycle and commit key.
    pub proof fn lemma_wf(&self)
        requires
            self.wf(),
        ensures
            self.spec_params().wf(),
            forall|who: Principal| #[trigger] self.spec_account(who).wf(),
            forall|who: Principal| #[trigger] self.stacker_consistent(who),
            forall|a: RewardAddress, c: u64, w: Principal| #[trigger]
                self.commit_consistent(a, c, w),
            forall|c: u64| #[trigger] self.spec_total(c) == sum_amounts(self.spec_entries(c)),
    {
        assert forall|who: Principal| #[trigger] self.spec_account(who).wf() by {
            if self.accounts@.contains_key(who.id) {
            }
        }
        assert forall|who: Principal| #[trigger] self.stacker_consistent(who) by {
            if self.stacking@.contains_key(who.id) {
                assert(who == Principal { id: who.id });
            }
        }
        assert forall|c: u64| #[trigger] self.spec_total(c) == sum_amounts(self.spec_entries(c)) by {
            self.cycles.lemma_total_reconciles(c);
        }
    }

    /// What the invariant says of the slots of a cycle.
    pub proof fn lemma_slot_shapes(&self, cycle: u64)
        requires
            self.wf(),
        ensures
            forall|i: int|
                0 <= i < self.spec_entries(cycle).len() ==> {
                    let e = #[trigger] self.spec_entries(cycle)[i];
                    &&& e.cycle == cycle
                    &&& e.index == i
                    &&& e.amount_stacked == 0 ==> e.stacker is None
                },
    {
        self.cycles.lemma_total_reconciles(cycle);
    }

    /// An empty ledger with the given parameters and stacking threshold.
    pub fn new(params: PoxParams, threshold: u128) -> (r: Option<Ledger>)
        ensures
            r is Some <==> params.wf(),
            r matches Some(l) ==> {
                &&& l.wf()
                &&& l.spec_params() == params
                &&& l.spec_threshold() == threshold
                &&& forall|who: Principal| #[trigger] l.spec_account(who) == Account::spec_empty()
                &&& forall|who: Principal| #[trigger] l.spec_stacking(who) is None
                &&& forall|who: Principal| #[trigger] l.spec_delegation(who) is None
                &&& forall|c: u64| #[trigger] l.spec_entries(c).len() == 0
                &&& forall|c: u64| #[trigger] l.spec_total(c) == 0
                &&& forall|c: u64| #[trigger] l.spec_rejection(c) == 0
                &&& forall|a: RewardAddress, c: u64, w: Principal| #[trigger]
                    l.spec_pending(a, c, w) == 0
            },
    {
        if params.cycles.cycle_length == 0 || params.max_lock_period == 0
            || params.cycles.first_burn_height > params.transition_height
            || params.transition_height > params.v1_unlock_height {
            return None;
        }
        let l = Ledger {
            params,
            threshold,
            accounts: HashMap::new(),
            stacking: HashMap::new(),
            cycles: RewardCycles::new(),
            partial: PartialLedger::new(),
            delegations: HashMap::new(),
            rejections: HashMap::new(),
            v1_lockers: Vec::new(),
        };
        Some(l)
    }

    /// The protocol parameters that the ledger was made with.
    pub fn params(&self) -> (r: PoxParams)
        ensures
            r == self.spec_params(),
    {
        self.params
    }

    /// The least amount that `stack` accepts.
    pub fn stacking_threshold(&self) -> (r: u128)
        ensures
            r == self.spec_threshold(),
    {
        self.threshold
    }

    /// Sets the least amount that `stack` accepts from now on.
    pub fn set_stacking_threshold(&mut self, threshold: u128)
        requires
            old(self).wf(),
        ensures
            final(self).wf(),
            final(self).spec_threshold() == threshold,
            forall|c: u64| #[trigger] final(self).spec_rejection(c) == old(self).spec_rejection(c),
            final(self).same_accounts(old(self)),
            final(self).same_stacking(old(self)),
            final(self).same_delegations(old(self)),
            final(self).same_cycles(old(self)),
            final(self).same_partial(old(self)),
            final(self).spec_params() == old(self).spec_params(),
    {
        self.threshold = threshold;
        proof {
            old(self).lemma_frame(self);
        }
    }

    /// Adds `amount` spendable tokens to the account of `who`.
    pub fn credit(&mut self, who: Principal, amount: u128) -> (r: Result<(), LedgerError>)
        requires
            old(self).wf(),
        ensures
            final(self).wf(),
            r == Err::<(), LedgerError>(LedgerError::ArithmeticOverflow) <==> old(
                self,
            ).spec_account(who).spec_total() + amount > u128::MAX,
            r is Ok <==> old(self).spec_account(who).spec_total() + amount <= u128::MAX,
            r is Err ==> final(self).spec_account(who) == old(self).spec_account(who),
            r is Ok ==> final(self).spec_account(who) == (Account {
                spendable: (old(self).spec_account(who).spendable + amount) as u128,
                ..old(self).spec_account(who)
            }),
            final(self).same_accounts_but(old(self), who),
            final(self).same_stacking(old(self)),
            final(self).same_delegations(old(self)),
            final(self).same_cycles(old(self)),
            final(self).same_partial(old(self)),
            final(self).same_settings(old(self)),
    {
        let account = self.account(who);
        if amount > u128::MAX - account.spendable || account.lock.locked_amount > u128::MAX
            - account.spendable - amount {
            proof {
                old(self).lemma_frame(self);
            }
            return Err(LedgerError::ArithmeticOverflow);
        }
        let credited = Account { spendable: account.spendable + amount, lock: account.lock };
        self.accounts.insert(who.id, credited);
        proof {
            let before = old(self);
            assert(before.stacker_consistent(who)) by {
                before.lemma_wf();
            }
            match before.spec_stacking(who) {
                None => {},
                Some(state) => {
                    assert forall|k: int| 0 <= k < state.reward_set_indexes.len() implies #[trigger]
                    self.link_holds(who, state, credited, k) by {
                        assert(before.link_holds(who, state, before.spec_account(who), k));
                    }
                    assert forall|c: u64|
                        state.first_reward_cycle <= c < state.end_cycle()
                            && state.holds_whole_lock(c) implies #[trigger] self.pool_covers(
                        state,
                        credited,
                        c,
                    ) by {
                        assert(before.pool_covers(state, before.spec_account(who), c));
                    }
                },
            }
            if credited.lock.lock_version == LockVersion::V1 {
                assert(before.accounts@.contains_key(who.id));
            }
            before.lemma_principal_updated(self, who);
        }
        Ok(())
    }

    /// Records that `who` rejects the reward mechanism for `cycle`, with the
    /// whole balance of the account as weight. Gives back the weight recorded
    /// for the cycle after that. Locks and address lists are not touched.
    pub fn reject(&mut self, who: Principal, cycle: u64) -> (r: Result<u128, LedgerError>)
        requires
            old(self).wf(),
        ensures
            final(self).wf(),
            r is Ok <==> old(self).spec_rejection(cycle) + old(self).spec_account(who).spec_total()
                <= u128::MAX,
            r matches Err(e) ==> e == LedgerError::ArithmeticOverflow && final(self).unchanged(
                old(self),
            ),
            r matches Ok(weight) ==> {
                &&& weight == old(self).spec_rejection(cycle) + old(self).spec_account(
                    who,
                ).spec_total()
                &&& final(self).spec_rejection(cycle) == weight
                &&& forall|c: u64|
                    c != cycle ==> #[trigger] final(self).spec_rejection(c) == old(
                        self,
                    ).spec_rejection(c)
                &&& final(self).spec_params() == old(self).spec_params()
                &&& final(self).spec_threshold() == old(self).spec_threshold()
                &&& final(self).same_accounts(old(self))
                &&& final(self).same_stacking(old(self))
                &&& final(self).same_delegations(old(self))
                &&& final(self).same_cycles(old(self))
                &&& final(self).same_partial(old(self))
            },
    {
        proof {
            old(self).lemma_wf();
        }
        let account = self.account(who);
        let weight = account.spendable + account.lock.locked_amount;
        let recorded = self.rejection(cycle);
        if weight > u128::MAX - recorded {
            return Err(LedgerError::ArithmeticOverflow);
        }
        self.rejections.insert(cycle, recorded + weight);
        proof {
            old(self).lemma_frame(self);
        }
        Ok(recorded + weight)
    }

    /// The account of `who` as the ledger holds it.
    pub fn account(&self, who: Principal) -> (r: Account)
        ensures
            r == self.spec_account(who),
    {
        match self.accounts.get(&who.id) {
            None => Account::new(0),
            Some(a) => *a,
        }
    }

    /// The delegation that `who` has given, if any.
    pub fn delegation(&self, who: Principal) -> (r: Option<DelegationRelation>)
        ensures
            r == self.spec_delegation(who),
    {
        match self.delegations.get(&who.id) {
            None => None,
            Some(d) => Some(*d),
        }
    }

    /// The rejection weight recorded for `cycle`.
    pub fn rejection(&self, cycle: u64) -> (r: u128)
        ensures
            r == self.spec_rejection(cycle),
    {
        match self.rejections.get(&cycle) {
            None => 0,
            Some(w) => *w,
        }
    }

    /// The entry at `index` of the address list of `cycle`.
    pub fn read(&self, cycle: u64, index: u64) -> (r: Option<RewardCycleAddressListEntry>)
        ensures
            index >= self.spec_entries(cycle).len() <==> r is None,
            r matches Some(e) ==> e == self.spec_entries(cycle)[index as int],
    {
        self.cycles.read(cycle, index)
    }

    /// The total stacked in `cycle`; 0 for a cycle without entries.
    pub fn total(&self, cycle: u64) -> (r: u128)
        ensures
            r == self.spec_total(cycle),
    {
        self.cycles.total(cycle)
    }
}

} // verus!
