//! Stacking through a delegate: the delegation itself, locks placed by the
//! delegate, and the commit of what the delegate has gathered.

use vstd::prelude::*;
use crate::account::{Account, AccountLock};
use crate::ledger::Ledger;
use crate::records::{DelegationRelation, StackingStateView};
use crate::reward_list::RewardCycleAddressListEntry;
use crate::stacking::StackReceipt;
use crate::types::{LedgerError, LockVersion, PoxVersion, Principal, RewardAddress};

verus! {

broadcast use vstd::std_specs::hash::group_hash_axioms;

impl Ledger {
    /// Lets `delegate` stack for `who`, within the given bounds. An earlier
    /// delegation of `who` is replaced.
    pub fn delegate(
        &mut self,
        who: Principal,
        delegate: Principal,
        amount_constraint: Option<u128>,
        height_constraint: Option<u64>,
        address_constraint: Option<RewardAddress>,
    )
        requires
            old(self).wf(),
        ensures
            final(self).wf(),
            final(self).spec_delegation(who) == Some(
                DelegationRelation {
                    delegate,
                    amount_constraint,
                    height_constraint,
                    address_constraint,
                },
            ),
            final(self).same_delegations_but(old(self), who),
            final(self).same_accounts(old(self)),
            final(self).same_stacking(old(self)),
            final(self).same_cycles(old(self)),
            final(self).same_partial(old(self)),
            final(self).same_settings(old(self)),
    {
        self.delegations.insert(
            who.id,
            DelegationRelation { delegate, amount_constraint, height_constraint, address_constraint },
        );
        proof {
            old(self).lemma_frame(self);
            assert forall|q: Principal| q != who implies #[trigger] self.spec_delegation(q) == old(
                self,
            ).spec_delegation(q) by {
                assert(q.id != who.id);
            }
        }
    }

    /// Takes back the delegation that `who` has given. Gives back whether
    /// there was one.
    pub fn revoke_delegation(&mut self, who: Principal) -> (r: bool)
        requires
            old(self).wf(),
        ensures
            final(self).wf(),
            r == old(self).spec_delegation(who) is Some,
            final(self).spec_delegation(who) is None,
            final(self).same_delegations_but(old(self), who),
            final(self).same_accounts(old(self)),
            final(self).same_stacking(old(self)),
            final(self).same_cycles(old(self)),
            final(self).same_partial(old(self)),
            final(self).same_settings(old(self)),
    {
        let removed = self.delegations.remove(&who.id);
        proof {
            old(self).lemma_frame(self);
            assert forall|q: Principal| q != who implies #[trigger] self.spec_delegation(q) == old(
                self,
            ).spec_delegation(q) by {
                assert(q.id != who.id);
            }
        }
        removed.is_some()
    }

    /// Why `delegate` may not place `total` for `target` under
    /// `reward_address`, if it may not; the first reason that applies.
    pub open spec fn spec_delegation_refusal(
        &self,
        delegate: Principal,
        target: Principal,
        total: int,
        reward_address: RewardAddress,
    ) -> Option<LedgerError> {
        match self.spec_delegation(target) {
            None => Some(LedgerError::NoDelegation),
            Some(relation) => if relation.delegate != delegate {
                Some(LedgerError::NoDelegation)
            } else if !relation.spec_allows_amount(total) {
                Some(LedgerError::DelegationAmountExceeded)
            } else if !relation.spec_allows_address(reward_address) {
                Some(LedgerError::DelegationAddressMismatch)
            } else {
                None
            },
        }
    }

    /// Tests whether `delegate` may have `base + extra` locked for `target`
    /// under `reward_address`.
    pub fn check_delegation(
        &self,
        delegate: Principal,
        target: Principal,
        base: u128,
        extra: u128,
        reward_address: RewardAddress,
    ) -> (r: Result<(), LedgerError>)
        ensures
            r is Ok <==> self.spec_delegation_refusal(delegate, target, base + extra, reward_address)
                is None,
            r matches Err(e) ==> self.spec_delegation_refusal(
                delegate,
                target,
                base + extra,
                reward_address,
            ) == Some(e),
    {
        let relation = match self.delegations.get(&target.id) {
            None => {
                return Err(LedgerError::NoDelegation);
            },
            Some(relation) => relation,
        };
        if relation.delegate != delegate {
            return Err(LedgerError::NoDelegation);
        }
        match relation.amount_constraint {
            None => {},
            Some(limit) => {
                if base > limit || extra > limit - base {
                    return Err(LedgerError::DelegationAmountExceeded);
                }
            },
        }
        if !relation.allows_address(reward_address) {
            return Err(LedgerError::DelegationAddressMismatch);
        }
        Ok(())
    }

    /// Whether the pending amounts are those of `before` with `amount` added
    /// to what waits for `delegate` under `reward_address` in each of the
    /// `count` cycles from `first` on, and the recorded commits are as in
    /// `before`.
    pub open spec fn pending_added(
        &self,
        before: &Ledger,
        reward_address: RewardAddress,
        first: u64,
        count: int,
        delegate: Principal,
        amount: u128,
    ) -> bool {
        forall|a: RewardAddress, c: u64, w: Principal|
            #![trigger self.spec_pending(a, c, w)]
            #![trigger self.spec_committed(a, c, w)]
            {
                &&& self.spec_committed(a, c, w) == before.spec_committed(a, c, w)
                &&& self.spec_pending(a, c, w) == if a == reward_address && w == delegate && first
                    <= c < first + count {
                    before.spec_pending(a, c, w) + amount
                } else {
                    before.spec_pending(a, c, w) as int
                }
            }
    }

    /// Whether adding `amount` to what waits for `delegate` under
    /// `reward_address` would overflow in one of the `count` cycles from
    /// `first` on.
    pub open spec fn spec_pending_overflows(
        &self,
        reward_address: RewardAddress,
        first: int,
        count: int,
        delegate: Principal,
        amount: u128,
    ) -> bool {
        exists|c: u64|
            first <= c < first + count && #[trigger] self.spec_pending(reward_address, c, delegate)
                + amount > u128::MAX
    }

    /// The ledger's pending amounts overflow exactly where those of its
    /// partial stacking ledger do.
    pub(crate) proof fn lemma_pending_overflows(
        &self,
        reward_address: RewardAddress,
        first: u64,
        count: u64,
        delegate: Principal,
        amount: u128,
    )
        ensures
            self.spec_pending_overflows(reward_address, first as int, count as int, delegate, amount)
                <==> exists|c: u64|
                first <= c < first + count && #[trigger] self.partial.spec_pending(
                    reward_address,
                    c,
                    delegate,
                ) + amount > u128::MAX,
    {
        if self.spec_pending_overflows(reward_address, first as int, count as int, delegate, amount) {
            let c = choose|c: u64|
                first <= c < first + count && #[trigger] self.spec_pending(
                    reward_address,
                    c,
                    delegate,
                ) + amount > u128::MAX;
            assert(self.partial.spec_pending(reward_address, c, delegate) + amount > u128::MAX);
        }
        if exists|c: u64|
            first <= c < first + count && #[trigger] self.partial.spec_pending(
                reward_address,
                c,
                delegate,
            ) + amount > u128::MAX {
            let c = choose|c: u64|
                first <= c < first + count && #[trigger] self.partial.spec_pending(
                    reward_address,
                    c,
                    delegate,
                ) + amount > u128::MAX;
            assert(self.spec_pending(reward_address, c, delegate) + amount > u128::MAX);
        }
    }

    /// Whether the delegation that `target` has given forbids a lock that
    /// runs out at `unlock_height`.
    pub open spec fn spec_height_refused(&self, target: Principal, unlock_height: int) -> bool {
        match self.spec_delegation(target) {
            Some(relation) => !relation.spec_allows_height(unlock_height),
            None => false,
        }
    }

    /// Whether the delegation that `target` has given forbids a lock that
    /// runs out at `unlock_height`.
    pub fn height_refused(&self, target: Principal, unlock_height: u64) -> (r: bool)
        ensures
            r == self.spec_height_refused(target, unlock_height as int),
    {
        match self.delegations.get(&target.id) {
            Some(relation) => !relation.allows_height(unlock_height),
            None => false,
        }
    }

    /// Adds `delta` spendable tokens of `target` to a lock that a delegate
    /// placed, and notes the cycle of the increase in the record. Such a lock
    /// has no entries of its own to raise.
    fn raise_delegated_lock(&mut self, target: Principal, delta: u128, tip_cycle: u64) -> (locked:
        u128)
        requires
            old(self).wf(),
            old(self).spec_stacking(target) is Some,
            old(self).spec_stacking(target).unwrap().reward_set_indexes.len() == 0,
            0 < delta <= old(self).spec_account(target).spendable,
            old(self).spec_stacking(target).unwrap().delegated_to matches Some(delegate) ==> forall|
                c: u64,
            |
                old(self).spec_stacking(target).unwrap().first_reward_cycle <= c < old(
                    self,
                ).spec_stacking(target).unwrap().end_cycle() && old(self).spec_stacking(
                    target,
                ).unwrap().spec_increased_in(tip_cycle).holds_whole_lock(c) ==> old(
                    self,
                ).spec_committed(
                    old(self).spec_stacking(target).unwrap().reward_address,
                    c,
                    delegate,
                ) is Some || #[trigger] old(self).spec_pending(
                    old(self).spec_stacking(target).unwrap().reward_address,
                    c,
                    delegate,
                ) >= old(self).spec_account(target).lock.locked_amount + delta,
        ensures
            final(self).wf(),
            locked == old(self).spec_account(target).lock.locked_amount + delta,
            final(self).spec_account(target) == (Account {
                spendable: (old(self).spec_account(target).spendable - delta) as u128,
                lock: AccountLock { locked_amount: locked, ..old(self).spec_account(target).lock },
            }),
            final(self).spec_stacking(target) == Some(
                old(self).spec_stacking(target).unwrap().spec_increased_in(tip_cycle),
            ),
            final(self).same_accounts_but(old(self), target),
            final(self).same_stacking_but(old(self), target),
            final(self).same_delegations(old(self)),
            final(self).same_cycles(old(self)),
            final(self).same_settings(old(self)),
            final(self).partial == old(self).partial,
    {
        proof {
            old(self).lemma_wf();
        }
        assert(old(self).stacker_consistent(target));
        let mut account = self.account(target);
        let raised = account.increase(delta);
        assert(raised is Ok);
        self.accounts.insert(target.id, account);
        let taken = self.stacking.remove(&target.id);
        let mut noted = taken.unwrap();
        noted.last_increase_cycle = Some(
            match noted.last_increase_cycle {
                Some(raised_in) => if raised_in > tip_cycle {
                    raised_in
                } else {
                    tip_cycle
                },
                None => tip_cycle,
            },
        );
        self.stacking.insert(target.id, noted);
        proof {
            if account.lock.lock_version == LockVersion::V1 {
                assert(old(self).accounts@.contains_key(target.id));
            }
            let was = old(self).spec_stacking(target).unwrap();
            let now = self.spec_stacking(target).unwrap();
            assert(now == was.spec_increased_in(tip_cycle));
            assert forall|c: u64|
                now.first_reward_cycle <= c < now.end_cycle() && now.holds_whole_lock(
                    c,
                ) implies #[trigger] self.pool_covers(now, account, c) by {
                match was.delegated_to {
                    Some(delegate) => {
                        assert(old(self).spec_committed(was.reward_address, c, delegate) is Some
                            || old(self).spec_pending(was.reward_address, c, delegate)
                            >= old(self).spec_account(target).lock.locked_amount + delta);
                    },
                    None => {},
                }
            }
            old(self).lemma_principal_updated(self, target);
        }
        account.lock.locked_amount
    }

    /// Why `delegate_stack` refuses its arguments, if it does; the first
    /// reason that applies, in this order. The lock may not run out after
    /// the height up to which the delegation was given.
    pub open spec fn spec_delegate_stack_refusal(
        &self,
        delegate: Principal,
        target: Principal,
        amount: u128,
        reward_address: RewardAddress,
        start_height: u64,
        lock_period: u64,
    ) -> Option<LedgerError> {
        if self.spec_delegation_refusal(delegate, target, amount as int, reward_address) is Some {
            self.spec_delegation_refusal(delegate, target, amount as int, reward_address)
        } else if self.spec_stack_refusal(target, amount, lock_period, start_height, PoxVersion::V2)
            is Some {
            self.spec_stack_refusal(target, amount, lock_period, start_height, PoxVersion::V2)
        } else if self.spec_height_refused(
            target,
            self.spec_unlock_height(self.spec_first_cycle(start_height), lock_period as int),
        ) {
            Some(LedgerError::InvalidHeight)
        } else if self.spec_pending_overflows(
            reward_address,
            self.spec_first_cycle(start_height),
            lock_period as int,
            delegate,
            amount,
        ) {
            Some(LedgerError::ArithmeticOverflow)
        } else {
            None
        }
    }

    /// Locks `amount` of the tokens of `target` on behalf of `delegate`, as
    /// `stack` would under the second protocol generation, and adds the
    /// amount to what waits for the delegate under `reward_address` in each
    /// covered cycle. No address-list entry is made before a commit.
    pub fn delegate_stack(
        &mut self,
        delegate: Principal,
        target: Principal,
        amount: u128,
        reward_address: RewardAddress,
        start_height: u64,
        lock_period: u64,
    ) -> (r: Result<StackReceipt, LedgerError>)
        requires
            old(self).wf(),
        ensures
            final(self).wf(),
            r is Ok <==> old(self).spec_delegate_stack_refusal(
                delegate,
                target,
                amount,
                reward_address,
                start_height,
                lock_period,
            ) is None,
            r matches Err(e) ==> old(self).spec_delegate_stack_refusal(
                delegate,
                target,
                amount,
                reward_address,
                start_height,
                lock_period,
            ) == Some(e) && final(self).unchanged(old(self)),
            r matches Ok(receipt) ==> {
                &&& receipt.first_reward_cycle == old(self).spec_first_cycle(start_height)
                &&& receipt.unlock_height == old(self).spec_unlock_height(
                    receipt.first_reward_cycle as int,
                    lock_period as int,
                )
                &&& final(self).stacked_from(
                    old(self),
                    target,
                    amount,
                    reward_address,
                    lock_period,
                    receipt,
                    PoxVersion::V2,
                    Some(delegate),
                )
                &&& final(self).pending_added(
                    old(self),
                    reward_address,
                    receipt.first_reward_cycle,
                    lock_period as int,
                    delegate,
                    amount,
                )
            },
    {
        proof {
            old(self).lemma_wf();
        }
        match self.check_delegation(delegate, target, amount, 0, reward_address) {
            Err(e) => {
                return Err(e);
            },
            Ok(()) => {},
        }
        let receipt = match self.check_stack(
            target,
            amount,
            lock_period,
            start_height,
            PoxVersion::V2,
        ) {
            Err(e) => {
                return Err(e);
            },
            Ok(receipt) => receipt,
        };
        if self.height_refused(target, receipt.unlock_height) {
            return Err(LedgerError::InvalidHeight);
        }
        let added = self.partial.add_pending_range(
            reward_address,
            receipt.first_reward_cycle,
            lock_period,
            delegate,
            amount,
        );
        proof {
            old(self).lemma_same_views(self);
            old(self).lemma_pending_overflows(
                reward_address,
                receipt.first_reward_cycle,
                lock_period,
                delegate,
                amount,
            );
        }
        match added {
            Err(e) => {
                return Err(e);
            },
            Ok(()) => {},
        }
        let ghost mid = *self;
        self.apply_stack(
            target,
            amount,
            reward_address,
            lock_period,
            receipt,
            PoxVersion::V2,
            Some(delegate),
        );
        proof {
            let before = old(self);
            assert forall|q: Principal| q != target implies #[trigger] self.spec_account(q)
                == before.spec_account(q) by {
                assert(mid.spec_account(q) == before.spec_account(q));
            }
            assert forall|q: Principal| q != target implies #[trigger] self.spec_stacking(q)
                == before.spec_stacking(q) by {
                assert(mid.spec_stacking(q) == before.spec_stacking(q));
            }
            assert forall|q: Principal| #[trigger] self.spec_delegation(q) == before.spec_delegation(
                q,
            ) by {
                assert(mid.spec_delegation(q) == before.spec_delegation(q));
            }
            assert forall|c: u64|
                #![trigger self.spec_entries(c)]
                #![trigger self.spec_total(c)]
                self.spec_entries(c) == before.spec_entries(c) && self.spec_total(c)
                    == before.spec_total(c) by {
                assert(mid.spec_entries(c) == before.spec_entries(c));
                assert(mid.spec_total(c) == before.spec_total(c));
            }
            assert forall|c: u64| #[trigger] self.spec_rejection(c) == before.spec_rejection(c) by {
                assert(mid.spec_rejection(c) == before.spec_rejection(c));
            }
        }
        Ok(receipt)
    }

    /// Why `delegate_extend` refuses its arguments, if it does; the first
    /// reason that applies, in this order. The lock must be one that this
    /// delegate placed, under the same reward address: a target that stacks
    /// for itself is refused, and so is a lock that would run out after the
    /// height up to which the delegation was given.
    pub open spec fn spec_delegate_extend_refusal(
        &self,
        delegate: Principal,
        target: Principal,
        reward_address: RewardAddress,
        extend_by: u64,
        height: u64,
    ) -> Option<LedgerError> {
        let locked = self.spec_account(target).lock.locked_amount;
        if extend_by == 0 {
            Some(LedgerError::InvalidExtension)
        } else if height < self.spec_params().transition_height {
            Some(LedgerError::ProtocolNotActive)
        } else if self.spec_delegation_refusal(delegate, target, locked as int, reward_address)
            is Some {
            self.spec_delegation_refusal(delegate, target, locked as int, reward_address)
        } else {
            match self.spec_stacking(target) {
                None => Some(LedgerError::NotStacking),
                Some(state) => if state.delegated_to is None {
                    Some(LedgerError::AlreadyStacking)
                } else if state.delegated_to != Some(delegate) {
                    Some(LedgerError::NoDelegation)
                } else if state.reward_address != reward_address {
                    Some(LedgerError::DelegationAddressMismatch)
                } else if self.spec_unlock_height(
                    state.first_reward_cycle as int,
                    state.lock_period + extend_by,
                ) > u64::MAX {
                    Some(LedgerError::ArithmeticOverflow)
                } else if self.spec_height_refused(
                    target,
                    self.spec_unlock_height(
                        state.first_reward_cycle as int,
                        state.lock_period + extend_by,
                    ),
                ) {
                    Some(LedgerError::InvalidHeight)
                } else if self.spec_pending_overflows(
                    reward_address,
                    state.end_cycle(),
                    extend_by as int,
                    delegate,
                    locked,
                ) {
                    Some(LedgerError::ArithmeticOverflow)
                } else {
                    None
                },
            }
        }
    }

    /// Makes the lock that `delegate` placed for `target` last `extend_by`
    /// cycles longer, and adds what the target has locked to what waits for
    /// the delegate under `reward_address` in each of the new cycles.
    /// Gives back the new unlock height.
    pub fn delegate_extend(
        &mut self,
        delegate: Principal,
        target: Principal,
        reward_address: RewardAddress,
        extend_by: u64,
        height: u64,
    ) -> (r: Result<u64, LedgerError>)
        requires
            old(self).wf(),
        ensures
            final(self).wf(),
            r is Ok <==> old(self).spec_delegate_extend_refusal(
                delegate,
                target,
                reward_address,
                extend_by,
                height,
            ) is None,
            r matches Err(e) ==> old(self).spec_delegate_extend_refusal(
                delegate,
                target,
                reward_address,
                extend_by,
                height,
            ) == Some(e) && final(self).unchanged(old(self)),
            r matches Ok(unlock_height) ==> {
                let state = old(self).spec_stacking(target).unwrap();
                let account = old(self).spec_account(target);
                &&& unlock_height == old(self).spec_unlock_height(
                    state.first_reward_cycle as int,
                    state.lock_period + extend_by,
                )
                &&& final(self).spec_stacking(target) == Some(
                    StackingStateView {
                        reward_address,
                        lock_period: (state.lock_period + extend_by) as u64,
                        ..state
                    },
                )
                &&& final(self).spec_account(target) == (Account {
                    lock: AccountLock {
                        unlock_height,
                        lock_version: LockVersion::V2,
                        ..account.lock
                    },
                    ..account
                })
                &&& final(self).pending_added(
                    old(self),
                    reward_address,
                    state.end_cycle() as u64,
                    extend_by as int,
                    delegate,
                    account.lock.locked_amount,
                )
                &&& final(self).same_accounts_but(old(self), target)
                &&& final(self).same_stacking_but(old(self), target)
                &&& final(self).same_delegations(old(self))
                &&& final(self).same_cycles(old(self))
                &&& final(self).same_settings(old(self))
            },
    {
        proof {
            old(self).lemma_wf();
        }
        if extend_by == 0 {
            return Err(LedgerError::InvalidExtension);
        }
        if height < self.params.transition_height {
            return Err(LedgerError::ProtocolNotActive);
        }
        let account = self.account(target);
        let locked = account.lock.locked_amount;
        match self.check_delegation(delegate, target, locked, 0, reward_address) {
            Err(e) => {
                return Err(e);
            },
            Ok(()) => {},
        }
        let (first_cycle, lock_period) = match self.stacking.get(&target.id) {
            None => {
                return Err(LedgerError::NotStacking);
            },
            Some(state) => {
                match state.delegated_to {
                    None => {
                        return Err(LedgerError::AlreadyStacking);
                    },
                    Some(placer) => {
                        if placer != delegate {
                            return Err(LedgerError::NoDelegation);
                        }
                    },
                }
                if state.reward_address != reward_address {
                    return Err(LedgerError::DelegationAddressMismatch);
                }
                (state.first_reward_cycle, state.lock_period)
            },
        };
        assert(old(self).stacker_consistent(target));
        proof {
            crate::stacking::lemma_start_height_grows(
                self.params,
                first_cycle + lock_period + extend_by,
                first_cycle + lock_period + extend_by,
            );
        }
        let longer = match lock_period.checked_add(extend_by) {
            None => {
                return Err(LedgerError::ArithmeticOverflow);
            },
            Some(p) => p,
        };
        match self.lock_span(first_cycle, longer) {
            None => {
                return Err(LedgerError::ArithmeticOverflow);
            },
            Some(unlock_height) => {
                if self.height_refused(target, unlock_height) {
                    return Err(LedgerError::InvalidHeight);
                }
            },
        }
        let added = self.partial.add_pending_range(
            reward_address,
            first_cycle + lock_period,
            extend_by,
            delegate,
            locked,
        );
        proof {
            old(self).lemma_same_views(self);
            old(self).lemma_pending_overflows(
                reward_address,
                (first_cycle + lock_period) as u64,
                extend_by,
                delegate,
                locked,
            );
        }
        match added {
            Err(e) => {
                return Err(e);
            },
            Ok(()) => {},
        }
        let ghost mid = *self;
        let unlock_height = self.apply_extend(target, extend_by, reward_address);
        proof {
            let before = old(self);
            assert forall|q: Principal| q != target implies #[trigger] self.spec_account(q)
                == before.spec_account(q) by {
                assert(mid.spec_account(q) == before.spec_account(q));
            }
            assert forall|q: Principal| q != target implies #[trigger] self.spec_stacking(q)
                == before.spec_stacking(q) by {
                assert(mid.spec_stacking(q) == before.spec_stacking(q));
            }
            assert forall|q: Principal| #[trigger] self.spec_delegation(q) == before.spec_delegation(
                q,
            ) by {
                assert(mid.spec_delegation(q) == before.spec_delegation(q));
            }
            assert forall|c: u64|
                #![trigger self.spec_entries(c)]
                #![trigger self.spec_total(c)]
                self.spec_entries(c) == before.spec_entries(c) && self.spec_total(c)
                    == before.spec_total(c) by {
                assert(mid.spec_entries(c) == before.spec_entries(c));
                assert(mid.spec_total(c) == before.spec_total(c));
            }
            assert forall|c: u64| #[trigger] self.spec_rejection(c) == before.spec_rejection(c) by {
                assert(mid.spec_rejection(c) == before.spec_rejection(c));
            }
            assert forall|a: RewardAddress, c: u64, w: Principal|
                #![trigger self.spec_pending(a, c, w)]
                #![trigger self.spec_committed(a, c, w)]
                self.spec_pending(a, c, w) == mid.spec_pending(a, c, w) && self.spec_committed(
                    a,
                    c,
                    w,
                ) == mid.spec_committed(a, c, w) by {}
        }
        Ok(unlock_height)
    }

    /// Whether adding `delta` to the delegate's share of `cycle` would
    /// overflow: the cycle's total where the share was committed already, the
    /// pending amount where it was not.
    pub open spec fn spec_raise_overflows(
        &self,
        reward_address: RewardAddress,
        cycle: u64,
        delegate: Principal,
        delta: u128,
    ) -> bool {
        match self.spec_committed(reward_address, cycle, delegate) {
            Some(_) => self.spec_total(cycle) + delta > u128::MAX,
            None => self.spec_pending(reward_address, cycle, delegate) + delta > u128::MAX,
        }
    }

    /// Whether the ledger is `before` with `delta` added to the delegate's
    /// share of each of the `count` cycles from `first` on that comes after
    /// `tip_cycle`: to the committed aggregate entry and the cycle's total
    /// where there is one, to the pending amount where there is none.
    pub open spec fn delegated_raised(
        &self,
        before: &Ledger,
        reward_address: RewardAddress,
        first: u64,
        count: int,
        tip_cycle: int,
        delegate: Principal,
        delta: u128,
    ) -> bool {
        &&& forall|c: u64|
            #![trigger self.spec_entries(c)]
            #![trigger self.spec_total(c)]
            if first <= c < first + count && c > tip_cycle && before.spec_committed(
                reward_address,
                c,
                delegate,
            ) is Some {
                let i = before.spec_committed(reward_address, c, delegate).unwrap() as int;
                &&& self.spec_entries(c) == before.spec_entries(c).update(
                    i,
                    before.spec_entries(c)[i].spec_increased(delta),
                )
                &&& self.spec_total(c) == before.spec_total(c) + delta
            } else {
                &&& self.spec_entries(c) == before.spec_entries(c)
                &&& self.spec_total(c) == before.spec_total(c)
            }
        &&& forall|a: RewardAddress, c: u64, w: Principal|
            #![trigger self.spec_pending(a, c, w)]
            #![trigger self.spec_committed(a, c, w)]
            {
                &&& self.spec_committed(a, c, w) == before.spec_committed(a, c, w)
                &&& self.spec_pending(a, c, w) == if a == reward_address && w == delegate && first
                    <= c < first + count && c > tip_cycle && before.spec_committed(a, c, w)
                    is None {
                    before.spec_pending(a, c, w) + delta
                } else {
                    before.spec_pending(a, c, w) as int
                }
            }
    }

    /// Adds `delta` to the delegate's share of one cycle.
    fn raise_delegated_cycle(
        &mut self,
        reward_address: RewardAddress,
        cycle: u64,
        delegate: Principal,
        delta: u128,
    ) -> (r: Result<(), LedgerError>)
        requires
            old(self).wf(),
        ensures
            final(self).wf(),
            r is Ok <==> !old(self).spec_raise_overflows(reward_address, cycle, delegate, delta),
            r is Err ==> final(self).unchanged(old(self)),
            r is Ok ==> final(self).delegated_raised(
                old(self),
                reward_address,
                cycle,
                1,
                cycle - 1,
                delegate,
                delta,
            ),
            final(self).same_accounts(old(self)),
            final(self).same_stacking(old(self)),
            final(self).same_delegations(old(self)),
            final(self).same_settings(old(self)),
    {
        proof {
            old(self).lemma_wf();
        }
        let ghost before = *self;
        let who = Principal { id: 0 };
        assert(before.commit_consistent(reward_address, cycle, delegate));
        match self.partial.committed_index(reward_address, cycle, delegate) {
            Some(index) => {
                let raised = self.cycles.increase_entry(cycle, index, delta);
                match raised {
                    Err(_) => {
                        proof {
                            before.lemma_same_views(self);
                        }
                        return Err(LedgerError::ArithmeticOverflow);
                    },
                    Ok(()) => {},
                }
                proof {
                    before.cycles.lemma_total_reconciles(cycle);
                    assert forall|c: u64, i: int| 0 <= i < before.spec_entries(c).len() implies {
                        let b = #[trigger] before.spec_entries(c)[i];
                        let a = self.spec_entries(c)[i];
                        &&& i < self.spec_entries(c).len()
                        &&& a == b || b.stacker == Some(who) || (b.stacker is None
                            && a.stacker is None && a.reward_address == b.reward_address
                            && a.amount_stacked >= b.amount_stacked)
                    } by {
                        if c != cycle {
                            assert(self.spec_entries(c) == before.spec_entries(c));
                        }
                    }
                    assert forall|k: int|
                        #![trigger before.spec_stacking(who).unwrap().reward_set_indexes[k]]
                        0 <= k < before.spec_stacking(who).unwrap().reward_set_indexes.len()
                            && before.spec_stacking(who) is Some implies {
                        let state = before.spec_stacking(who).unwrap();
                        let c = (state.first_reward_cycle + k) as u64;
                        let i = state.reward_set_indexes[k] as int;
                        i < before.spec_entries(c).len() ==> i < self.spec_entries(c).len()
                            && self.spec_entries(c)[i] == before.spec_entries(c)[i]
                    } by {
                        let state = before.spec_stacking(who).unwrap();
                        let c = (state.first_reward_cycle + k) as u64;
                        assert(before.link_holds(who, state, before.spec_account(who), k));
                        if c != cycle {
                            assert(self.spec_entries(c) == before.spec_entries(c));
                        }
                    }
                    before.lemma_stacker_carried(self, who);
                    if self.spec_account(who).lock.lock_version == LockVersion::V1 {
                        assert(before.accounts@.contains_key(who.id));
                    }
                    before.lemma_ledger_updated(self, who);
                }
                Ok(())
            },
            None => {
                let added = self.partial.add_pending(reward_address, cycle, delegate, delta);
                proof {
                    before.lemma_same_views(self);
                }
                match added {
                    Err(_) => Err(LedgerError::ArithmeticOverflow),
                    Ok(()) => Ok(()),
                }
            },
        }
    }

    /// Why `delegate_increase` refuses its arguments, if it does; the first
    /// reason that applies, in this order. The lock must be one that this
    /// delegate placed: a target that stacks for itself is refused, and so is
    /// a lock that runs out after the height up to which the delegation was
    /// given.
    pub open spec fn spec_delegate_increase_refusal(
        &self,
        delegate: Principal,
        target: Principal,
        reward_address: RewardAddress,
        delta: u128,
        height: u64,
    ) -> Option<LedgerError> {
        let account = self.spec_account(target);
        if delta == 0 {
            Some(LedgerError::InvalidAmount)
        } else if height < self.spec_params().transition_height {
            Some(LedgerError::ProtocolNotActive)
        } else {
            match self.spec_stacking(target) {
                None => Some(LedgerError::NotStacking),
                Some(state) => if state.delegated_to is None {
                    Some(LedgerError::AlreadyStacking)
                } else if state.delegated_to != Some(delegate) {
                    Some(LedgerError::NoDelegation)
                } else if delta > account.spendable {
                    Some(LedgerError::InsufficientFunds)
                } else if self.spec_delegation_refusal(
                    delegate,
                    target,
                    account.lock.locked_amount + delta,
                    reward_address,
                ) is Some {
                    self.spec_delegation_refusal(
                        delegate,
                        target,
                        account.lock.locked_amount + delta,
                        reward_address,
                    )
                } else if self.spec_height_refused(target, account.lock.unlock_height as int) {
                    Some(LedgerError::InvalidHeight)
                } else if state.reward_address != reward_address {
                    Some(LedgerError::DelegationAddressMismatch)
                } else if exists|c: u64|
                    state.first_reward_cycle <= c < state.end_cycle() && c > self.spec_tip_cycle(
                        height,
                    ) && #[trigger] self.spec_raise_overflows(reward_address, c, delegate, delta) {
                    Some(LedgerError::ArithmeticOverflow)
                } else {
                    None
                },
            }
        }
    }

    /// Adds `delta` spendable tokens of `target` to the lock that `delegate`
    /// placed, and to the delegate's share of every covered cycle after the
    /// one that contains `height`: to the aggregate entry where the delegate
    /// has committed the cycle under `reward_address`, to the pending amount
    /// where not. Gives back the amount locked after the increase.
    pub fn delegate_increase(
        &mut self,
        delegate: Principal,
        target: Principal,
        reward_address: RewardAddress,
        delta: u128,
        height: u64,
    ) -> (r: Result<u128, LedgerError>)
        requires
            old(self).wf(),
        ensures
            final(self).wf(),
            r is Ok <==> old(self).spec_delegate_increase_refusal(
                delegate,
                target,
                reward_address,
                delta,
                height,
            ) is None,
            r matches Err(e) ==> old(self).spec_delegate_increase_refusal(
                delegate,
                target,
                reward_address,
                delta,
                height,
            ) == Some(e) && final(self).unchanged(old(self)),
            r matches Ok(locked) ==> {
                let state = old(self).spec_stacking(target).unwrap();
                let account = old(self).spec_account(target);
                &&& locked == account.lock.locked_amount + delta
                &&& final(self).spec_account(target) == (Account {
                    spendable: (account.spendable - delta) as u128,
                    lock: AccountLock { locked_amount: locked, ..account.lock },
                })
                &&& final(self).delegated_raised(
                    old(self),
                    reward_address,
                    state.first_reward_cycle,
                    state.lock_period as int,
                    old(self).spec_tip_cycle(height),
                    delegate,
                    delta,
                )
                &&& final(self).slots_stable(old(self))
                &&& final(self).spec_stacking(target) == Some(
                    state.spec_increased_in(old(self).spec_tip_cycle(height) as u64),
                )
                &&& final(self).same_accounts_but(old(self), target)
                &&& final(self).same_stacking_but(old(self), target)
                &&& final(self).same_delegations(old(self))
                &&& final(self).same_settings(old(self))
            },
    {
        proof {
            old(self).lemma_wf();
        }
        if delta == 0 {
            return Err(LedgerError::InvalidAmount);
        }
        if height < self.params.transition_height {
            return Err(LedgerError::ProtocolNotActive);
        }
        let account = self.account(target);
        let (first, count, recorded_address) = match self.stacking.get(&target.id) {
            None => {
                return Err(LedgerError::NotStacking);
            },
            Some(state) => {
                match state.delegated_to {
                    None => {
                        return Err(LedgerError::AlreadyStacking);
                    },
                    Some(placer) => {
                        if placer != delegate {
                            return Err(LedgerError::NoDelegation);
                        }
                    },
                }
                (state.first_reward_cycle, state.lock_period, state.reward_address)
            },
        };
        assert(old(self).stacker_consistent(target));
        if delta > account.spendable {
            return Err(LedgerError::InsufficientFunds);
        }
        match self.check_delegation(
            delegate,
            target,
            account.lock.locked_amount,
            delta,
            reward_address,
        ) {
            Err(e) => {
                return Err(e);
            },
            Ok(()) => {},
        }
        if self.height_refused(target, account.lock.unlock_height) {
            return Err(LedgerError::InvalidHeight);
        }
        if recorded_address != reward_address {
            return Err(LedgerError::DelegationAddressMismatch);
        }
        let tip_cycle = match self.params.cycles.cycle_of(height) {
            Ok(c) => c,
            Err(_) => 0,
        };
        assert(tip_cycle == old(self).spec_tip_cycle(height));
        let mut k: u64 = 0;
        while k < count
            invariant
                first + count <= u64::MAX,
                k <= count,
                *self == *old(self),
                self.wf(),
                tip_cycle == self.spec_tip_cycle(height),
                delta > 0,
                height >= self.spec_params().transition_height,
                self.spec_delegation_refusal(
                    delegate,
                    target,
                    self.spec_account(target).lock.locked_amount + delta,
                    reward_address,
                ) is None,
                self.spec_stacking(target) is Some,
                self.spec_stacking(target).unwrap().delegated_to == Some(delegate),
                self.spec_stacking(target).unwrap().reward_set_indexes.len() == 0,
                !self.spec_height_refused(
                    target,
                    self.spec_account(target).lock.unlock_height as int,
                ),
                self.spec_stacking(target).unwrap().reward_address == reward_address,
                self.spec_stacking(target).unwrap().first_reward_cycle == first,
                self.spec_stacking(target).unwrap().lock_period == count,
                delta <= self.spec_account(target).spendable,
                forall|c: u64|
                    first <= c < first + k && c > tip_cycle ==> !#[trigger] self.spec_raise_overflows(
                        reward_address,
                        c,
                        delegate,
                        delta,
                    ),
            decreases count - k,
        {
            let cycle = first + k;
            let full = cycle > tip_cycle && match self.partial.committed_index(
                reward_address,
                cycle,
                delegate,
            ) {
                Some(_) => delta > u128::MAX - self.cycles.total(cycle),
                None => delta > u128::MAX - self.partial.pending(reward_address, cycle, delegate),
            };
            if full {
                assert(self.spec_raise_overflows(reward_address, cycle, delegate, delta));
                return Err(LedgerError::ArithmeticOverflow);
            }
            k += 1;
        }
        let ghost before = *self;
        let mut k: u64 = 0;
        while k < count
            invariant
                first + count <= u64::MAX,
                k <= count,
                self.wf(),
                before.wf(),
                forall|c: u64|
                    first <= c < first + count && c > tip_cycle
                        ==> !#[trigger] before.spec_raise_overflows(
                        reward_address,
                        c,
                        delegate,
                        delta,
                    ),
                self.delegated_raised(
                    &before,
                    reward_address,
                    first,
                    k as int,
                    tip_cycle as int,
                    delegate,
                    delta,
                ),
                self.same_accounts(&before),
                self.same_stacking(&before),
                self.same_delegations(&before),
                self.same_settings(&before),
            decreases count - k,
        {
            let cycle = first + k;
            if cycle <= tip_cycle {
                k += 1;
                continue;
            }
            let ghost mid = *self;
            proof {
                assert(!before.spec_raise_overflows(reward_address, cycle, delegate, delta));
                assert(mid.spec_committed(reward_address, cycle, delegate)
                    == before.spec_committed(reward_address, cycle, delegate));
                assert(mid.spec_pending(reward_address, cycle, delegate) == before.spec_pending(
                    reward_address,
                    cycle,
                    delegate,
                ));
                assert(mid.spec_total(cycle) == before.spec_total(cycle));
                assert(mid.spec_entries(cycle) == before.spec_entries(cycle));
            }
            let raised = self.raise_delegated_cycle(reward_address, cycle, delegate, delta);
            assert(raised is Ok);
            proof {
                assert forall|c: u64|
                    #![trigger self.spec_entries(c)]
                    #![trigger self.spec_total(c)]
                    if first <= c < first + (k + 1) && c > tip_cycle && before.spec_committed(
                        reward_address,
                        c,
                        delegate,
                    ) is Some {
                        let i = before.spec_committed(reward_address, c, delegate).unwrap() as int;
                        &&& self.spec_entries(c) == before.spec_entries(c).update(
                            i,
                            before.spec_entries(c)[i].spec_increased(delta),
                        )
                        &&& self.spec_total(c) == before.spec_total(c) + delta
                    } else {
                        &&& self.spec_entries(c) == before.spec_entries(c)
                        &&& self.spec_total(c) == before.spec_total(c)
                    } by {
                    let through = (mid.spec_entries(c), mid.spec_total(c));
                }
                assert forall|a: RewardAddress, c: u64, w: Principal|
                    #![trigger self.spec_pending(a, c, w)]
                    #![trigger self.spec_committed(a, c, w)]
                    {
                        &&& self.spec_committed(a, c, w) == before.spec_committed(a, c, w)
                        &&& self.spec_pending(a, c, w) == if a == reward_address && w == delegate
                            && first <= c < first + (k + 1) && c > tip_cycle
                            && before.spec_committed(a, c, w) is None {
                            before.spec_pending(a, c, w) + delta
                        } else {
                            before.spec_pending(a, c, w) as int
                        }
                    } by {
                    let through = (mid.spec_pending(a, c, w), mid.spec_committed(a, c, w));
                }
                assert forall|q: Principal| #[trigger] self.spec_account(q) == before.spec_account(
                    q,
                ) by {
                    assert(mid.spec_account(q) == before.spec_account(q));
                }
                assert forall|q: Principal| #[trigger] self.spec_stacking(q) == before.spec_stacking(
                    q,
                ) by {
                    assert(mid.spec_stacking(q) == before.spec_stacking(q));
                }
                assert forall|q: Principal| #[trigger] self.spec_delegation(q)
                    == before.spec_delegation(q) by {
                    assert(mid.spec_delegation(q) == before.spec_delegation(q));
                }
                assert forall|c: u64| #[trigger] self.spec_rejection(c) == before.spec_rejection(
                    c,
                ) by {
                    assert(mid.spec_rejection(c) == before.spec_rejection(c));
                }
            }
            k += 1;
        }
        let ghost mid = *self;
        proof {
            let state = before.spec_stacking(target).unwrap();
            let held = before.spec_account(target);
            assert(before.stacker_consistent(target));
            assert(mid.spec_stacking(target) == before.spec_stacking(target));
            assert(mid.spec_account(target) == before.spec_account(target));
            assert forall|c: u64|
                state.first_reward_cycle <= c < state.end_cycle() && state.spec_increased_in(
                    tip_cycle,
                ).holds_whole_lock(c) implies mid.spec_committed(state.reward_address, c, delegate)
                is Some || #[trigger] mid.spec_pending(state.reward_address, c, delegate)
                >= held.lock.locked_amount + delta by {
                assert(c > tip_cycle);
                assert(state.holds_whole_lock(c));
                assert(before.pool_covers(state, held, c));
                assert(mid.spec_committed(reward_address, c, delegate) == before.spec_committed(
                    reward_address,
                    c,
                    delegate,
                ));
            }
        }
        let locked = self.raise_delegated_lock(target, delta, tip_cycle);
        proof {
            assert forall|q: Principal| q != target implies #[trigger] self.spec_account(q)
                == before.spec_account(q) by {
                assert(mid.spec_account(q) == before.spec_account(q));
            }
            assert(mid.spec_stacking(target) == before.spec_stacking(target));
            assert forall|q: Principal| q != target implies #[trigger] self.spec_stacking(q)
                == before.spec_stacking(q) by {
                assert(mid.spec_stacking(q) == before.spec_stacking(q));
            }
            assert forall|q: Principal| #[trigger] self.spec_delegation(q) == before.spec_delegation(
                q,
            ) by {
                assert(mid.spec_delegation(q) == before.spec_delegation(q));
            }
            assert forall|c: u64| #[trigger] self.spec_rejection(c) == before.spec_rejection(c) by {
                assert(mid.spec_rejection(c) == before.spec_rejection(c));
            }
            assert forall|c: u64|
                #![trigger self.spec_entries(c)]
                #![trigger self.spec_total(c)]
                self.spec_entries(c) == mid.spec_entries(c) && self.spec_total(c) == mid.spec_total(
                    c,
                ) by {}
            assert forall|a: RewardAddress, c: u64, w: Principal|
                #![trigger self.spec_pending(a, c, w)]
                #![trigger self.spec_committed(a, c, w)]
                self.spec_pending(a, c, w) == mid.spec_pending(a, c, w) && self.spec_committed(
                    a,
                    c,
                    w,
                ) == mid.spec_committed(a, c, w) by {}
            before.lemma_wf();
            assert forall|c: u64, i: int| 0 <= i < before.spec_entries(c).len() implies {
                let b = #[trigger] before.spec_entries(c)[i];
                let a = self.spec_entries(c)[i];
                &&& i < self.spec_entries(c).len()
                &&& a.cycle == b.cycle
                &&& a.index == b.index
                &&& a.reward_address == b.reward_address
                &&& a.stacker == b.stacker
                &&& a.amount_stacked >= b.amount_stacked
            } by {
                assert(self.spec_entries(c) == mid.spec_entries(c));
                assert(before.commit_consistent(reward_address, c, delegate));
                before.cycles.lemma_total_reconciles(c);
                assert(!before.spec_raise_overflows(reward_address, c, delegate, delta) || !(first
                    <= c < first + count && c > tip_cycle));
            }
        }
        Ok(locked)
    }

    /// Why `aggregate_commit` refuses its arguments, if it does; the first
    /// reason that applies, in this order.
    pub open spec fn spec_commit_refusal(
        &self,
        delegate: Principal,
        reward_address: RewardAddress,
        cycle: u64,
        height: u64,
    ) -> Option<LedgerError> {
        if height < self.spec_params().transition_height {
            Some(LedgerError::ProtocolNotActive)
        } else if self.spec_pending(reward_address, cycle, delegate) == 0 {
            Some(LedgerError::NothingToCommit)
        } else if self.spec_total(cycle) + self.spec_pending(reward_address, cycle, delegate)
            > u128::MAX {
            Some(LedgerError::ArithmeticOverflow)
        } else {
            None
        }
    }

    /// Commits what `delegate` has gathered for `reward_address` in `cycle`:
    /// appends one aggregate entry, without a stacker, to the cycle's address
    /// list and clears the pending amount. Gives back the entry's index.
    pub fn aggregate_commit(
        &mut self,
        delegate: Principal,
        reward_address: RewardAddress,
        cycle: u64,
        height: u64,
    ) -> (r: Result<u64, LedgerError>)
        requires
            old(self).wf(),
        ensures
            final(self).wf(),
            r is Ok <==> old(self).spec_commit_refusal(delegate, reward_address, cycle, height)
                is None,
            r matches Err(e) ==> old(self).spec_commit_refusal(delegate, reward_address, cycle, height)
                == Some(e) && final(self).unchanged(old(self)),
            r matches Ok(index) ==> {
                let amount = old(self).spec_pending(reward_address, cycle, delegate);
                &&& index == old(self).spec_entries(cycle).len()
                &&& final(self).spec_entries(cycle) == old(self).spec_entries(cycle).push(
                    RewardCycleAddressListEntry {
                        cycle,
                        index,
                        reward_address,
                        amount_stacked: amount,
                        stacker: None,
                    },
                )
                &&& final(self).spec_total(cycle) == old(self).spec_total(cycle) + amount
                &&& final(self).spec_pending(reward_address, cycle, delegate) == 0
                &&& final(self).spec_committed(reward_address, cycle, delegate) == Some(index)
                &&& final(self).same_cycles_but(old(self), cycle)
                &&& final(self).slots_stable(old(self))
                &&& final(self).same_partial_but(old(self), reward_address, cycle, delegate)
                &&& final(self).same_accounts(old(self))
                &&& final(self).same_stacking(old(self))
                &&& final(self).same_delegations(old(self))
                &&& final(self).same_settings(old(self))
            },
    {
        proof {
            old(self).lemma_wf();
        }
        if height < self.params.transition_height {
            return Err(LedgerError::ProtocolNotActive);
        }
        let amount = self.partial.pending(reward_address, cycle, delegate);
        if amount == 0 {
            return Err(LedgerError::NothingToCommit);
        }
        let index = match self.cycles.append(cycle, reward_address, amount, None) {
            Err(e) => {
                proof {
                    old(self).lemma_same_views(self);
                }
                return Err(e);
            },
            Ok(index) => index,
        };
        let settled = self.partial.settle(reward_address, cycle, delegate, index);
        assert(settled is Ok);
        proof {
            let before = old(self);
            let who = Principal { id: 0 };
            assert forall|c: u64, i: int| 0 <= i < before.spec_entries(c).len() implies {
                let b = #[trigger] before.spec_entries(c)[i];
                let a = self.spec_entries(c)[i];
                &&& i < self.spec_entries(c).len()
                &&& a == b
            } by {
                if c != cycle {
                    assert(self.spec_entries(c) == before.spec_entries(c));
                }
            }
            before.lemma_stacker_carried(self, who);
            assert forall|a: RewardAddress, c: u64, w: Principal|
                #![trigger self.spec_committed(a, c, w)]
                self.spec_committed(a, c, w) == before.spec_committed(a, c, w)
                    || self.commit_consistent(a, c, w) by {
                if !(a == reward_address && c == cycle && w == delegate) {
                    assert(self.spec_committed(a, c, w) == before.spec_committed(a, c, w));
                }
            }
            if self.spec_account(who).lock.lock_version == LockVersion::V1 {
                assert(before.accounts@.contains_key(who.id));
            }
            before.lemma_ledger_updated(self, who);
        }
        Ok(index)
    }
}

} // verus!
