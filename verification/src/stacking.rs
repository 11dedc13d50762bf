//! Stacking by a principal for itself: lock, extend, increase, release, and
//! the recording of a cycle's address-list entry.

use vstd::prelude::*;
use crate::account::{Account, AccountLock};
use crate::cycle::{spec_cycle_of, spec_start_height_of, CycleError};
use crate::ledger::Ledger;
use crate::records::{PoxParams, StackingState, StackingStateView};
use crate::types::{LedgerError, LockVersion, PoxVersion, Principal, RewardAddress};

verus! {

broadcast use vstd::std_specs::hash::group_hash_axioms;

/// What a successful `stack` locked in.
#[derive(Clone, Copy, Debug, PartialEq, Eq, Structural)]
pub struct StackReceipt {
    pub first_reward_cycle: u64,
    pub unlock_height: u64,
}

/// A cycle's start height is at least the cycle's number, and grows with it.
pub proof fn lemma_start_height_grows(params: PoxParams, a: int, b: int)
    requires
        params.wf(),
        0 <= a <= b,
    ensures
        spec_start_height_of(params.cycles, a) <= spec_start_height_of(params.cycles, b),
        a < b ==> spec_start_height_of(params.cycles, a) < spec_start_height_of(params.cycles, b),
        a <= spec_start_height_of(params.cycles, a),
{
    let len = params.cycles.cycle_length as int;
    assert(a * len <= b * len) by (nonlinear_arith)
        requires
            0 <= a <= b,
            len > 0,
    ;
    assert(a < b ==> a * len < b * len) by (nonlinear_arith)
        requires
            0 <= a <= b,
            len > 0,
    ;
    assert(a <= a * len) by (nonlinear_arith)
        requires
            0 <= a,
            len > 0,
    ;
}

impl Ledger {
    /// The first reward cycle of a lock requested at `start_height`: the cycle
    /// after the one that contains the height.
    pub open spec fn spec_first_cycle(&self, start_height: u64) -> int {
        spec_cycle_of(self.spec_params().cycles, start_height as int) + 1
    }

    /// The height at which a lock over `lock_period` cycles from
    /// `first_cycle` on runs out.
    pub open spec fn spec_unlock_height(&self, first_cycle: int, lock_period: int) -> int {
        spec_start_height_of(self.spec_params().cycles, first_cycle + lock_period)
    }

    /// Why the protocol generation `version` cannot be used at `height`, if
    /// it cannot: the first generation is retired from the transition height
    /// on, the second is not active before it.
    pub open spec fn spec_version_refusal(&self, version: PoxVersion, height: u64) -> Option<
        LedgerError,
    > {
        match version {
            PoxVersion::V1 => if height >= self.spec_params().transition_height {
                Some(LedgerError::ProtocolRetired)
            } else {
                None
            },
            PoxVersion::V2 => if height < self.spec_params().transition_height {
                Some(LedgerError::ProtocolNotActive)
            } else {
                None
            },
        }
    }

    /// Why `stack` refuses its arguments, if it does; the first reason that
    /// applies, in this order.
    pub open spec fn spec_stack_refusal(
        &self,
        who: Principal,
        amount: u128,
        lock_period: u64,
        start_height: u64,
        version: PoxVersion,
    ) -> Option<LedgerError> {
        let params = self.spec_params();
        let account = self.spec_account(who);
        if lock_period == 0 || lock_period > params.max_lock_period {
            Some(LedgerError::InvalidLockPeriod)
        } else if self.spec_version_refusal(version, start_height) is Some {
            self.spec_version_refusal(version, start_height)
        } else if self.spec_stacking(who) is Some {
            Some(LedgerError::AlreadyStacking)
        } else if amount < self.spec_threshold() {
            Some(LedgerError::BelowMinimum)
        } else if start_height < params.cycles.first_burn_height {
            Some(LedgerError::InvalidHeight)
        } else if self.spec_unlock_height(self.spec_first_cycle(start_height), lock_period as int)
            > u64::MAX {
            Some(LedgerError::ArithmeticOverflow)
        } else if account.lock.is_active() {
            Some(LedgerError::AlreadyLocked)
        } else if amount == 0 {
            Some(LedgerError::InvalidAmount)
        } else if amount > account.spendable {
            Some(LedgerError::InsufficientFunds)
        } else {
            None
        }
    }

    /// Whether `version` can be used at `height`.
    pub fn check_version(&self, version: PoxVersion, height: u64) -> (r: Result<(), LedgerError>)
        ensures
            r is Ok <==> self.spec_version_refusal(version, height) is None,
            r matches Err(e) ==> self.spec_version_refusal(version, height) == Some(e),
    {
        match version {
            PoxVersion::V1 => if height >= self.params.transition_height {
                Err(LedgerError::ProtocolRetired)
            } else {
                Ok(())
            },
            PoxVersion::V2 => if height < self.params.transition_height {
                Err(LedgerError::ProtocolNotActive)
            } else {
                Ok(())
            },
        }
    }

    /// The unlock height of a lock over `lock_period` cycles from
    /// `first_cycle` on; `None` where the height does not fit in 64 bits.
    pub(crate) fn lock_span(&self, first_cycle: u64, lock_period: u64) -> (r: Option<u64>)
        requires
            self.spec_params().wf(),
        ensures
            r is Some <==> self.spec_unlock_height(first_cycle as int, lock_period as int)
                <= u64::MAX,
            r matches Some(h) ==> h == self.spec_unlock_height(
                first_cycle as int,
                lock_period as int,
            ) && first_cycle + lock_period <= u64::MAX,
    {
        proof {
            lemma_start_height_grows(self.params, first_cycle + lock_period, first_cycle + lock_period);
        }
        match first_cycle.checked_add(lock_period) {
            None => None,
            Some(end) => match self.params.cycles.start_height_of(end) {
                Err(_) => None,
                Ok(h) => Some(h),
            },
        }
    }

    /// Tests the arguments of `stack` against the ledger, without changing
    /// it. Gives back what a lock with these arguments would span.
    pub fn check_stack(
        &self,
        who: Principal,
        amount: u128,
        lock_period: u64,
        start_height: u64,
        version: PoxVersion,
    ) -> (r: Result<StackReceipt, LedgerError>)
        requires
            self.wf(),
        ensures
            r is Ok <==> self.spec_stack_refusal(who, amount, lock_period, start_height, version)
                is None,
            r matches Err(e) ==> self.spec_stack_refusal(
                who,
                amount,
                lock_period,
                start_height,
                version,
            ) == Some(e),
            r matches Ok(receipt) ==> {
                &&& receipt.first_reward_cycle == self.spec_first_cycle(start_height)
                &&& receipt.unlock_height == self.spec_unlock_height(
                    receipt.first_reward_cycle as int,
                    lock_period as int,
                )
                &&& receipt.first_reward_cycle + lock_period <= u64::MAX
                &&& receipt.unlock_height > 0
            },
    {
        proof {
            self.lemma_wf();
        }
        if lock_period == 0 || lock_period > self.params.max_lock_period {
            return Err(LedgerError::InvalidLockPeriod);
        }
        match self.check_version(version, start_height) {
            Err(e) => {
                return Err(e);
            },
            Ok(()) => {},
        }
        if self.stacking.contains_key(&who.id) {
            return Err(LedgerError::AlreadyStacking);
        }
        if amount < self.threshold {
            return Err(LedgerError::BelowMinimum);
        }
        let current = match self.params.cycles.cycle_of(start_height) {
            Err(_) => {
                return Err(LedgerError::InvalidHeight);
            },
            Ok(c) => c,
        };
        proof {
            lemma_start_height_grows(
                self.params,
                current + 1 + lock_period,
                current + 1 + lock_period,
            );
            lemma_start_height_grows(self.params, 1, current + 1 + lock_period);
        }
        if current == u64::MAX {
            return Err(LedgerError::ArithmeticOverflow);
        }
        let first_cycle = current + 1;
        let unlock_height = match self.lock_span(first_cycle, lock_period) {
            None => {
                return Err(LedgerError::ArithmeticOverflow);
            },
            Some(h) => h,
        };
        let account = self.account(who);
        if account.lock.locked_amount > 0 {
            return Err(LedgerError::AlreadyLocked);
        }
        if amount == 0 {
            return Err(LedgerError::InvalidAmount);
        }
        if amount > account.spendable {
            return Err(LedgerError::InsufficientFunds);
        }
        Ok(StackReceipt { first_reward_cycle: first_cycle, unlock_height })
    }

    /// Whether the ledger is `before` with a new lock of `who` as `receipt`
    /// describes it, and a stacking record without entries that names
    /// `placed_by` as the delegate who placed the lock, if one did.
    pub open spec fn stacked_from(
        &self,
        before: &Ledger,
        who: Principal,
        amount: u128,
        reward_address: RewardAddress,
        lock_period: u64,
        receipt: StackReceipt,
        version: PoxVersion,
        placed_by: Option<Principal>,
    ) -> bool {
        &&& self.spec_account(who) == (Account {
            spendable: (before.spec_account(who).spendable - amount) as u128,
            lock: AccountLock {
                locked_amount: amount,
                unlock_height: receipt.unlock_height,
                lock_version: version.spec_lock_version(),
            },
        })
        &&& self.spec_stacking(who) == Some(
            StackingStateView {
                reward_address,
                first_reward_cycle: receipt.first_reward_cycle,
                lock_period,
                reward_set_indexes: Seq::empty(),
                delegated_to: placed_by,
                last_increase_cycle: None,
            },
        )
        &&& self.same_accounts_but(before, who)
        &&& self.same_stacking_but(before, who)
        &&& self.same_delegations(before)
        &&& self.same_cycles(before)
        &&& self.same_settings(before)
    }

    /// Carries out a lock that `check_stack` has accepted.
    pub(crate) fn apply_stack(
        &mut self,
        who: Principal,
        amount: u128,
        reward_address: RewardAddress,
        lock_period: u64,
        receipt: StackReceipt,
        version: PoxVersion,
        placed_by: Option<Principal>,
    )
        requires
            old(self).wf(),
            lock_period >= 1,
            old(self).spec_stacking(who) is None,
            !old(self).spec_account(who).lock.is_active(),
            0 < amount <= old(self).spec_account(who).spendable,
            receipt.first_reward_cycle + lock_period <= u64::MAX,
            receipt.unlock_height > 0,
            receipt.unlock_height == old(self).spec_unlock_height(
                receipt.first_reward_cycle as int,
                lock_period as int,
            ),
            placed_by matches Some(delegate) ==> forall|c: u64|
                receipt.first_reward_cycle <= c < receipt.first_reward_cycle + lock_period ==> old(
                    self,
                ).spec_committed(reward_address, c, delegate) is Some || #[trigger] old(
                    self,
                ).spec_pending(reward_address, c, delegate) >= amount,
        ensures
            final(self).wf(),
            final(self).stacked_from(
                old(self),
                who,
                amount,
                reward_address,
                lock_period,
                receipt,
                version,
                placed_by,
            ),
            final(self).partial == old(self).partial,
    {
        proof {
            old(self).lemma_wf();
        }
        let mut account = self.account(who);
        let locked = account.lock(amount, receipt.unlock_height, version);
        assert(locked is Ok);
        self.accounts.insert(who.id, account);
        self.stacking.insert(
            who.id,
            StackingState {
                reward_address,
                first_reward_cycle: receipt.first_reward_cycle,
                lock_period,
                reward_set_indexes: Vec::new(),
                delegated_to: placed_by,
                last_increase_cycle: None,
            },
        );
        match version {
            PoxVersion::V1 => {
                self.v1_lockers.push(who.id);
                assert(self.v1_lockers@[self.v1_lockers@.len() - 1] == who.id);
                assert forall|id: u64| old(self).v1_lockers@.contains(id) implies self.v1_lockers@.contains(id) by {
                    let i = choose|i: int| 0 <= i < old(self).v1_lockers@.len() && old(self).v1_lockers@[i] == id;
                    assert(self.v1_lockers@[i] == id);
                }
            },
            PoxVersion::V2 => {},
        }
        proof {
            let now = self.spec_stacking(who).unwrap();
            assert forall|c: u64|
                now.first_reward_cycle <= c < now.end_cycle() && now.holds_whole_lock(
                    c,
                ) implies #[trigger] self.pool_covers(now, account, c) by {
                match placed_by {
                    Some(delegate) => {
                        assert(old(self).spec_committed(reward_address, c, delegate) is Some
                            || old(self).spec_pending(reward_address, c, delegate) >= amount);
                    },
                    None => {},
                }
            }
            old(self).lemma_principal_updated(self, who);
        }
    }

    /// Locks `amount` of the tokens of `who` for `lock_period` reward cycles,
    /// from the cycle after the one that contains `start_height`, and creates
    /// the stacking record, with no address-list entry recorded yet. A lock
    /// that has run out still counts until `unlock` has released it.
    pub fn stack(
        &mut self,
        who: Principal,
        amount: u128,
        reward_address: RewardAddress,
        lock_period: u64,
        start_height: u64,
        version: PoxVersion,
    ) -> (r: Result<StackReceipt, LedgerError>)
        requires
            old(self).wf(),
        ensures
            final(self).wf(),
            r is Ok <==> old(self).spec_stack_refusal(who, amount, lock_period, start_height, version)
                is None,
            r matches Err(e) ==> old(self).spec_stack_refusal(
                who,
                amount,
                lock_period,
                start_height,
                version,
            ) == Some(e) && final(self).unchanged(old(self)),
            r matches Ok(receipt) ==> {
                &&& receipt.first_reward_cycle == old(self).spec_first_cycle(start_height)
                &&& receipt.unlock_height == old(self).spec_unlock_height(
                    receipt.first_reward_cycle as int,
                    lock_period as int,
                )
                &&& final(self).stacked_from(
                    old(self),
                    who,
                    amount,
                    reward_address,
                    lock_period,
                    receipt,
                    version,
                    None,
                )
                &&& final(self).same_partial(old(self))
            },
    {
        match self.check_stack(who, amount, lock_period, start_height, version) {
            Err(e) => Err(e),
            Ok(receipt) => {
                self.apply_stack(who, amount, reward_address, lock_period, receipt, version, None);
                Ok(receipt)
            },
        }
    }

    /// Why `extend` refuses its arguments, if it does; the first reason that
    /// applies, in this order. A lock that a delegate placed is not the
    /// principal's own to extend.
    pub open spec fn spec_extend_refusal(
        &self,
        who: Principal,
        extend_by: u64,
        reward_address: RewardAddress,
        height: u64,
    ) -> Option<LedgerError> {
        if extend_by == 0 {
            Some(LedgerError::InvalidExtension)
        } else if height < self.spec_params().transition_height {
            Some(LedgerError::ProtocolNotActive)
        } else {
            match self.spec_stacking(who) {
                None => Some(LedgerError::NotStacking),
                Some(state) => if state.delegated_to is Some {
                    Some(LedgerError::NotStacking)
                } else if state.reward_set_indexes.len() > 0 && state.reward_address
                    != reward_address {
                    Some(LedgerError::InvalidExtension)
                } else if self.spec_unlock_height(
                    state.first_reward_cycle as int,
                    state.lock_period + extend_by,
                ) > u64::MAX {
                    Some(LedgerError::ArithmeticOverflow)
                } else {
                    None
                },
            }
        }
    }

    /// Whether the ledger is `before` with the lock of `who` made
    /// `extend_by` cycles longer, up to `unlock_height`: the record has the
    /// longer period and `reward_address`, the lock has the new unlock height
    /// and the second generation's tag, and accounts, records, delegations,
    /// lists and settings are otherwise as they were.
    pub open spec fn extended_from(
        &self,
        before: &Ledger,
        who: Principal,
        extend_by: u64,
        reward_address: RewardAddress,
        unlock_height: u64,
    ) -> bool {
        let state = before.spec_stacking(who).unwrap();
        &&& unlock_height == before.spec_unlock_height(
            state.first_reward_cycle as int,
            state.lock_period + extend_by,
        )
        &&& self.spec_stacking(who) == Some(
            StackingStateView {
                reward_address,
                lock_period: (state.lock_period + extend_by) as u64,
                ..state
            },
        )
        &&& self.spec_account(who) == (Account {
            lock: AccountLock {
                unlock_height,
                lock_version: LockVersion::V2,
                ..before.spec_account(who).lock
            },
            ..before.spec_account(who)
        })
        &&& self.same_accounts_but(before, who)
        &&& self.same_stacking_but(before, who)
        &&& self.same_delegations(before)
        &&& self.same_cycles(before)
        &&& self.same_settings(before)
    }

    /// Carries out an extension whose arguments were tested.
    pub(crate) fn apply_extend(
        &mut self,
        who: Principal,
        extend_by: u64,
        reward_address: RewardAddress,
    ) -> (unlock_height: u64)
        requires
            old(self).wf(),
            extend_by > 0,
            old(self).spec_stacking(who) is Some,
            old(self).spec_stacking(who).unwrap().reward_set_indexes.len() == 0 || old(
                self,
            ).spec_stacking(who).unwrap().reward_address == reward_address,
            old(self).spec_unlock_height(
                old(self).spec_stacking(who).unwrap().first_reward_cycle as int,
                old(self).spec_stacking(who).unwrap().lock_period + extend_by,
            ) <= u64::MAX,
            old(self).spec_stacking(who).unwrap().delegated_to matches Some(delegate) ==> {
                &&& old(self).spec_stacking(who).unwrap().reward_address == reward_address
                &&& forall|c: u64|
                    old(self).spec_stacking(who).unwrap().end_cycle() <= c < old(
                        self,
                    ).spec_stacking(who).unwrap().end_cycle() + extend_by ==> old(
                        self,
                    ).spec_committed(reward_address, c, delegate) is Some || #[trigger] old(
                        self,
                    ).spec_pending(reward_address, c, delegate) >= old(self).spec_account(
                        who,
                    ).lock.locked_amount
            },
        ensures
            final(self).wf(),
            final(self).extended_from(old(self), who, extend_by, reward_address, unlock_height),
            final(self).partial == old(self).partial,
    {
        proof {
            old(self).lemma_wf();
        }
        let ghost old_state = old(self).spec_stacking(who).unwrap();
        let ghost old_account = old(self).spec_account(who);
        assert(old(self).stacker_consistent(who));
        proof {
            lemma_start_height_grows(
                self.params,
                old_state.first_reward_cycle + old_state.lock_period,
                old_state.first_reward_cycle + old_state.lock_period + extend_by,
            );
            lemma_start_height_grows(
                self.params,
                old_state.first_reward_cycle + old_state.lock_period + extend_by,
                old_state.first_reward_cycle + old_state.lock_period + extend_by,
            );
        }
        let taken = self.stacking.remove(&who.id);
        let mut state = taken.unwrap();
        let longer = state.lock_period + extend_by;
        let span = self.lock_span(state.first_reward_cycle, longer);
        let unlock_height = span.unwrap();
        let mut account = self.account(who);
        let extended = account.extend(unlock_height);
        assert(extended is Ok);
        account.lock.lock_version = LockVersion::V2;
        state.lock_period = longer;
        state.reward_address = reward_address;
        self.accounts.insert(who.id, account);
        self.stacking.insert(who.id, state);
        proof {
            let new_state = self.spec_stacking(who).unwrap();
            assert(new_state.reward_set_indexes == old_state.reward_set_indexes);
            assert forall|k: int| 0 <= k < new_state.reward_set_indexes.len() implies #[trigger]
            self.link_holds(who, new_state, account, k) by {
                assert(old(self).link_holds(who, old_state, old_account, k));
            }
            assert forall|c: u64|
                new_state.first_reward_cycle <= c < new_state.end_cycle()
                    && new_state.holds_whole_lock(c) implies #[trigger] self.pool_covers(
                new_state,
                account,
                c,
            ) by {
                if c < old_state.end_cycle() {
                    assert(old(self).pool_covers(old_state, old_account, c));
                }
            }
            old(self).lemma_principal_updated(self, who);
        }
        unlock_height
    }

    /// Makes the lock of `who` last `extend_by` cycles longer. The entries
    /// recorded so far stay; `reward_address` becomes the record's address,
    /// and must be the present one where an entry was recorded already.
    /// Extending is an operation of the second protocol generation: the
    /// extended lock carries that generation's tag, whichever it carried
    /// before. Gives back the new unlock height.
    pub fn extend(&mut self, who: Principal, extend_by: u64, reward_address: RewardAddress, height: u64) -> (r:
        Result<u64, LedgerError>)
        requires
            old(self).wf(),
        ensures
            final(self).wf(),
            r is Ok <==> old(self).spec_extend_refusal(who, extend_by, reward_address, height) is None,
            r matches Err(e) ==> old(self).spec_extend_refusal(who, extend_by, reward_address, height)
                == Some(e) && final(self).unchanged(old(self)),
            r matches Ok(unlock_height) ==> {
                &&& final(self).extended_from(
                    old(self),
                    who,
                    extend_by,
                    reward_address,
                    unlock_height,
                )
                &&& final(self).same_partial(old(self))
            },
    {
        proof {
            old(self).lemma_wf();
        }
        if extend_by == 0 {
            return Err(LedgerError::InvalidExtension);
        }
        if height < self.params.transition_height {
            return Err(LedgerError::ProtocolNotActive);
        }
        let (first_cycle, lock_period) = match self.stacking.get(&who.id) {
            None => {
                return Err(LedgerError::NotStacking);
            },
            Some(state) => {
                if state.delegated_to.is_some() {
                    return Err(LedgerError::NotStacking);
                }
                if state.reward_set_indexes.len() > 0 && state.reward_address != reward_address {
                    return Err(LedgerError::InvalidExtension);
                }
                (state.first_reward_cycle, state.lock_period)
            },
        };
        assert(old(self).stacker_consistent(who));
        proof {
            lemma_start_height_grows(
                self.params,
                first_cycle + lock_period + extend_by,
                first_cycle + lock_period + extend_by,
            );
        }
        let longer = match lock_period.checked_add(extend_by) {
            None => {
                return Err(LedgerError::ArithmeticOverflow);
            },
            Some(p) => p,
        };
        match self.lock_span(first_cycle, longer) {
            None => {
                return Err(LedgerError::ArithmeticOverflow);
            },
            Some(_) => {},
        }
        Ok(self.apply_extend(who, extend_by, reward_address))
    }

    /// The release of a lock that has run out: from the unlock height on,
    /// clears the lock of `who`, returns the tokens to the spendable balance
    /// and deletes the stacking record. Address-list entries stay, as history.
    /// Before the unlock height, and on an account without a lock, nothing
    /// changes. Gives back the amount released.
    pub fn unlock(&mut self, who: Principal, height: u64) -> (released: u128)
        requires
            old(self).wf(),
        ensures
            final(self).wf(),
            final(self).same_accounts_but(old(self), who),
            final(self).same_stacking_but(old(self), who),
            final(self).same_delegations(old(self)),
            final(self).same_cycles(old(self)),
            final(self).same_partial(old(self)),
            final(self).same_settings(old(self)),
            old(self).spec_unlock_due(who, height) ==> {
                &&& released == old(self).spec_account(who).lock.locked_amount
                &&& final(self).spec_account(who) == old(self).spec_account(who).spec_unlock()
                &&& final(self).spec_stacking(who) is None
            },
            !old(self).spec_unlock_due(who, height) ==> {
                &&& released == 0
                &&& final(self).spec_account(who) == old(self).spec_account(who)
                &&& final(self).spec_stacking(who) == old(self).spec_stacking(who)
            },
            !final(self).spec_unlock_due(who, height),
    {
        proof {
            old(self).lemma_wf();
        }
        let mut account = self.account(who);
        if account.lock.locked_amount == 0 || height < account.lock.unlock_height {
            proof {
                old(self).lemma_frame(self);
            }
            return 0;
        }
        let released = account.unlock();
        self.accounts.insert(who.id, account);
        self.stacking.remove(&who.id);
        proof {
            old(self).lemma_principal_updated(self, who);
        }
        released
    }

    /// The reward cycle that contains `height`.
    pub open spec fn spec_tip_cycle(&self, height: u64) -> int {
        spec_cycle_of(self.spec_params().cycles, height as int)
    }

    /// Whether the address lists are those of `before` with `delta` added to
    /// every entry that `state` has recorded for a cycle after `tip_cycle`,
    /// and to those cycles' totals. Entries of the tip's cycle and of
    /// earlier ones stay as they were.
    pub open spec fn cycles_raised(
        &self,
        before: &Ledger,
        state: StackingStateView,
        tip_cycle: int,
        delta: u128,
    ) -> bool {
        forall|c: u64|
            #![trigger self.spec_entries(c)]
            #![trigger self.spec_total(c)]
            if state.is_committed(c) && c > tip_cycle {
                let i = state.index_for(c) as int;
                &&& self.spec_entries(c) == before.spec_entries(c).update(
                    i,
                    before.spec_entries(c)[i].spec_increased(delta),
                )
                &&& self.spec_total(c) == before.spec_total(c) + delta
            } else {
                &&& self.spec_entries(c) == before.spec_entries(c)
                &&& self.spec_total(c) == before.spec_total(c)
            }
    }

    /// Why `increase` refuses its arguments, if it does; the first reason
    /// that applies, in this order. A lock that a delegate placed is not the
    /// principal's own to raise.
    pub open spec fn spec_increase_refusal(&self, who: Principal, delta: u128, height: u64) -> Option<
        LedgerError,
    > {
        if delta == 0 {
            Some(LedgerError::InvalidAmount)
        } else if height < self.spec_params().transition_height {
            Some(LedgerError::ProtocolNotActive)
        } else {
            match self.spec_stacking(who) {
                None => Some(LedgerError::NotStacking),
                Some(state) => if state.delegated_to is Some {
                    Some(LedgerError::NotStacking)
                } else if delta > self.spec_account(who).spendable {
                    Some(LedgerError::InsufficientFunds)
                } else if exists|c: u64|
                    state.is_committed(c) && c > self.spec_tip_cycle(height)
                        && #[trigger] self.spec_total(c) + delta > u128::MAX {
                    Some(LedgerError::ArithmeticOverflow)
                } else {
                    None
                },
            }
        }
    }

    /// Adds `delta` spendable tokens of `who` to the lock, and to every
    /// address-list entry recorded for a cycle after the one that contains
    /// `height`. Entries of the running cycle and of past ones keep their
    /// amounts, and the record notes the cycle of the increase; cycles
    /// without an entry yet get theirs with the raised amount when they are
    /// recorded. Gives back the amount locked after the increase.
    pub fn increase(&mut self, who: Principal, delta: u128, height: u64) -> (r: Result<
        u128,
        LedgerError,
    >)
        requires
            old(self).wf(),
        ensures
            final(self).wf(),
            r is Ok <==> old(self).spec_increase_refusal(who, delta, height) is None,
            r matches Err(e) ==> old(self).spec_increase_refusal(who, delta, height) == Some(e)
                && final(self).unchanged(old(self)),
            r matches Ok(locked) ==> {
                let account = old(self).spec_account(who);
                &&& locked == account.lock.locked_amount + delta
                &&& final(self).spec_account(who) == (Account {
                    spendable: (account.spendable - delta) as u128,
                    lock: AccountLock { locked_amount: locked, ..account.lock },
                })
                &&& final(self).spec_stacking(who) == Some(
                    old(self).spec_stacking(who).unwrap().spec_increased_in(
                        old(self).spec_tip_cycle(height) as u64,
                    ),
                )
                &&& final(self).cycles_raised(
                    old(self),
                    old(self).spec_stacking(who).unwrap(),
                    old(self).spec_tip_cycle(height),
                    delta,
                )
                &&& final(self).slots_stable(old(self))
                &&& final(self).same_accounts_but(old(self), who)
                &&& final(self).same_stacking_but(old(self), who)
                &&& final(self).same_delegations(old(self))
                &&& final(self).same_partial(old(self))
                &&& final(self).same_settings(old(self))
            },
    {
        proof {
            old(self).lemma_wf();
        }
        if delta == 0 {
            return Err(LedgerError::InvalidAmount);
        }
        if height < self.params.transition_height {
            return Err(LedgerError::ProtocolNotActive);
        }
        let mut account = self.account(who);
        let ghost old_account = account;
        let state = match self.stacking.get(&who.id) {
            None => {
                return Err(LedgerError::NotStacking);
            },
            Some(state) => state,
        };
        let ghost view = state@;
        assert(old(self).stacker_consistent(who));
        if state.delegated_to.is_some() {
            return Err(LedgerError::NotStacking);
        }
        if delta > account.spendable {
            return Err(LedgerError::InsufficientFunds);
        }
        proof {
            assert forall|k: int| 0 <= k < view.reward_set_indexes.len() implies old(
                self,
            ).cycles.spec_has_entry(
                (view.first_reward_cycle + k) as u64,
                #[trigger] view.reward_set_indexes[k],
            ) by {
                assert(old(self).link_holds(who, view, old_account, k));
            }
        }
        let tip_cycle = match self.params.cycles.cycle_of(height) {
            Ok(c) => c,
            Err(_) => 0,
        };
        assert(tip_cycle == old(self).spec_tip_cycle(height));
        let raised = self.cycles.increase_entries(
            state.first_reward_cycle,
            &state.reward_set_indexes,
            tip_cycle,
            delta,
        );
        match raised {
            Err(e) => {
                proof {
                    let k = choose|k: int|
                        0 <= k < view.reward_set_indexes.len() && view.first_reward_cycle + k
                            > tip_cycle && #[trigger] old(self).cycles.spec_total(
                            (view.first_reward_cycle + k) as u64,
                        ) + delta > u128::MAX;
                    let c = (view.first_reward_cycle + k) as u64;
                    assert(view.is_committed(c) && c > tip_cycle && old(self).spec_total(c) + delta
                        > u128::MAX);
                    old(self).lemma_same_views(self);
                }
                return Err(e);
            },
            Ok(()) => {},
        }
        proof {
            if exists|c: u64|
                view.is_committed(c) && c > tip_cycle && #[trigger] old(self).spec_total(c)
                    + delta > u128::MAX {
                let c = choose|c: u64|
                    view.is_committed(c) && c > tip_cycle && #[trigger] old(self).spec_total(c)
                        + delta > u128::MAX;
                let k = c - view.first_reward_cycle;
                assert(old(self).cycles.spec_total((view.first_reward_cycle + k) as u64) + delta
                    > u128::MAX);
            }
        }
        let increased = account.increase(delta);
        assert(increased is Ok);
        self.accounts.insert(who.id, account);
        let taken = self.stacking.remove(&who.id);
        let mut noted = taken.unwrap();
        noted.last_increase_cycle = Some(
            match noted.last_increase_cycle {
                Some(raised_in) => if raised_in > tip_cycle {
                    raised_in
                } else {
                    tip_cycle
                },
                None => tip_cycle,
            },
        );
        self.stacking.insert(who.id, noted);
        proof {
            let before = old(self);
            let now = view.spec_increased_in(tip_cycle);
            assert(self.spec_stacking(who) == Some(now));
            assert(self.cycles_raised(before, view, tip_cycle as int, delta));
            assert forall|k: int| 0 <= k < now.reward_set_indexes.len() implies #[trigger]
            self.link_holds(who, now, account, k) by {
                assert(before.link_holds(who, view, old_account, k));
                let c = (view.first_reward_cycle + k) as u64;
                assert(view.is_committed(c));
                before.cycles.lemma_total_reconciles(c);
                let i = view.reward_set_indexes[k] as int;
                if c > tip_cycle {
                    assert(self.spec_entries(c)[i] == before.spec_entries(c)[i].spec_increased(
                        delta,
                    ));
                } else {
                    assert(self.spec_entries(c) == before.spec_entries(c));
                }
            }
            assert forall|c: u64, i: int| 0 <= i < before.spec_entries(c).len() implies {
                let b = #[trigger] before.spec_entries(c)[i];
                let a = self.spec_entries(c)[i];
                &&& i < self.spec_entries(c).len()
                &&& a == b || b.stacker == Some(who) || (b.stacker is None && a.stacker is None
                    && a.reward_address == b.reward_address && a.amount_stacked
                    >= b.amount_stacked)
            } by {
                if view.is_committed(c) {
                    let k = c - view.first_reward_cycle;
                    assert(before.link_holds(who, view, old_account, k));
                }
            }
            if account.lock.lock_version == LockVersion::V1 {
                assert(before.accounts@.contains_key(who.id));
            }
            before.lemma_ledger_updated(self, who);
            assert forall|c: u64, i: int| 0 <= i < before.spec_entries(c).len() implies {
                let b = #[trigger] before.spec_entries(c)[i];
                let a = self.spec_entries(c)[i];
                &&& i < self.spec_entries(c).len()
                &&& a.cycle == b.cycle
                &&& a.index == b.index
                &&& a.reward_address == b.reward_address
                &&& a.stacker == b.stacker
                &&& a.amount_stacked >= b.amount_stacked
            } by {
                if view.is_committed(c) {
                    let k = c - view.first_reward_cycle;
                    assert(before.link_holds(who, view, old_account, k));
                    before.cycles.lemma_total_reconciles(c);
                }
            }
        }
        Ok(account.lock.locked_amount)
    }

    /// Why `record_reward_set_index` refuses, if it does; the first reason
    /// that applies, in this order. A lock that a delegate placed gets no
    /// entry of its own.
    pub open spec fn spec_record_refusal(&self, who: Principal) -> Option<LedgerError> {
        match self.spec_stacking(who) {
            None => Some(LedgerError::NotStacking),
            Some(state) => if state.delegated_to is Some {
                Some(LedgerError::NotStacking)
            } else if state.reward_set_indexes.len() == state.lock_period {
                Some(LedgerError::NothingToCommit)
            } else if self.spec_total(
                (state.first_reward_cycle + state.reward_set_indexes.len()) as u64,
            ) + self.spec_account(who).lock.locked_amount > u128::MAX {
                Some(LedgerError::ArithmeticOverflow)
            } else {
                None
            },
        }
    }

    /// Records the next covered cycle of `who` that has no entry yet: appends
    /// an entry for the stacker, holding what the account has locked, to that
    /// cycle's address list, and writes the entry's index back to the
    /// stacking record. Gives back the index.
    pub fn record_reward_set_index(&mut self, who: Principal) -> (r: Result<u64, LedgerError>)
        requires
            old(self).wf(),
        ensures
            final(self).wf(),
            r is Ok <==> old(self).spec_record_refusal(who) is None,
            r matches Err(e) ==> old(self).spec_record_refusal(who) == Some(e) && final(self).unchanged(old(self)),
            r matches Ok(index) ==> {
                let state = old(self).spec_stacking(who).unwrap();
                let cycle = (state.first_reward_cycle + state.reward_set_indexes.len()) as u64;
                let amount = old(self).spec_account(who).lock.locked_amount;
                &&& index == old(self).spec_entries(cycle).len()
                &&& final(self).spec_entries(cycle) == old(self).spec_entries(cycle).push(
                    crate::reward_list::RewardCycleAddressListEntry {
                        cycle,
                        index,
                        reward_address: state.reward_address,
                        amount_stacked: amount,
                        stacker: Some(who),
                    },
                )
                &&& final(self).spec_total(cycle) == old(self).spec_total(cycle) + amount
                &&& final(self).spec_stacking(who) == Some(
                    StackingStateView {
                        reward_set_indexes: state.reward_set_indexes.push(index),
                        ..state
                    },
                )
                &&& final(self).same_cycles_but(old(self), cycle)
                &&& final(self).slots_stable(old(self))
                &&& final(self).same_accounts(old(self))
                &&& final(self).same_stacking_but(old(self), who)
                &&& final(self).same_delegations(old(self))
                &&& final(self).same_partial(old(self))
                &&& final(self).same_settings(old(self))
            },
    {
        proof {
            old(self).lemma_wf();
        }
        let account = self.account(who);
        let (cycle, reward_address) = match self.stacking.get(&who.id) {
            None => {
                return Err(LedgerError::NotStacking);
            },
            Some(state) => {
                if state.delegated_to.is_some() {
                    return Err(LedgerError::NotStacking);
                }
                let recorded = state.reward_set_indexes.len() as u64;
                if recorded == state.lock_period {
                    return Err(LedgerError::NothingToCommit);
                }
                (state.first_reward_cycle + recorded, state.reward_address)
            },
        };
        let ghost view = old(self).spec_stacking(who).unwrap();
        assert(old(self).stacker_consistent(who));
        let appended = self.cycles.append(
            cycle,
            reward_address,
            account.lock.locked_amount,
            Some(who),
        );
        let index = match appended {
            Err(e) => {
                proof {
                    old(self).lemma_same_views(self);
                }
                return Err(e);
            },
            Ok(index) => index,
        };
        let taken = self.stacking.remove(&who.id);
        let mut state = taken.unwrap();
        state.reward_set_indexes.push(index);
        self.stacking.insert(who.id, state);
        proof {
            let before = old(self);
            let now = self.spec_stacking(who).unwrap();
            assert(now.reward_set_indexes == view.reward_set_indexes.push(index));
            assert forall|k: int| 0 <= k < now.reward_set_indexes.len() implies #[trigger]
            self.link_holds(who, now, account, k) by {
                if k < view.reward_set_indexes.len() {
                    assert(before.link_holds(who, view, account, k));
                    let c = (view.first_reward_cycle + k) as u64;
                    assert(c != cycle);
                    assert(self.spec_entries(c) == before.spec_entries(c));
                }
            }
            assert forall|c: u64, i: int| 0 <= i < before.spec_entries(c).len() implies {
                let b = #[trigger] before.spec_entries(c)[i];
                let a = self.spec_entries(c)[i];
                &&& i < self.spec_entries(c).len()
                &&& a == b || b.stacker == Some(who) || (b.stacker is None && a.stacker is None
                    && a.reward_address == b.reward_address && a.amount_stacked
                    >= b.amount_stacked)
            } by {
                if c != cycle {
                    assert(self.spec_entries(c) == before.spec_entries(c));
                }
            }
            if account.lock.lock_version == LockVersion::V1 {
                assert(before.accounts@.contains_key(who.id));
            }
            before.lemma_ledger_updated(self, who);
            assert forall|c: u64, i: int| 0 <= i < before.spec_entries(c).len() implies {
                let b = #[trigger] before.spec_entries(c)[i];
                let a = self.spec_entries(c)[i];
                &&& i < self.spec_entries(c).len()
                &&& a == b
            } by {
                if c != cycle {
                    assert(self.spec_entries(c) == before.spec_entries(c));
                }
            }
        }
        Ok(index)
    }

    /// Whether the lock of `who` has run out at `height` and waits to be released.
    pub open spec fn spec_unlock_due(&self, who: Principal, height: u64) -> bool {
        self.spec_account(who).lock.is_active() && height >= self.spec_account(
            who,
        ).lock.unlock_height
    }
}

} // verus!
