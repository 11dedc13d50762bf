//! Account lock state: a token balance with at most one active lock.

use vstd::prelude::*;
use crate::types::{LedgerError, LockVersion, PoxVersion};

verus! {

/// The lock on an account. An account without a lock has all three fields at
/// their zero value.
#[derive(Clone, Copy, Debug, PartialEq, Eq, Structural)]
pub struct AccountLock {
    pub locked_amount: u128,
    /// The height at which the funds become spendable again; 0 when unlocked.
    pub unlock_height: u64,
    pub lock_version: LockVersion,
}

/// A principal's tokens: what can be spent now, and what is locked.
#[derive(Clone, Copy, Debug, PartialEq, Eq, Structural)]
pub struct Account {
    pub spendable: u128,
    pub lock: AccountLock,
}

impl AccountLock {
    /// The absent lock.
    pub open spec fn spec_none() -> AccountLock {
        AccountLock { locked_amount: 0, unlock_height: 0, lock_version: LockVersion::NoLock }
    }

    /// Amount, height and tag are all set, or all clear.
    pub open spec fn wf(&self) -> bool {
        &&& self.locked_amount > 0 <==> self.unlock_height > 0
        &&& self.locked_amount > 0 <==> self.lock_version != LockVersion::NoLock
    }

    pub open spec fn is_active(&self) -> bool {
        self.locked_amount > 0
    }
}

impl Account {
    /// The lock is consistent and the whole balance fits its machine type.
    pub open spec fn wf(&self) -> bool {
        &&& self.lock.wf()
        &&& self.spendable + self.lock.locked_amount <= u128::MAX
    }

    /// All tokens of the account, locked or not.
    pub open spec fn spec_total(&self) -> int {
        self.spendable + self.lock.locked_amount
    }

    /// The amount that is locked at `height`: the locked amount until the
    /// unlock height is reached, nothing from then on.
    pub open spec fn spec_locked_at(&self, height: u64) -> u128 {
        if height < self.lock.unlock_height {
            self.lock.locked_amount
        } else {
            0
        }
    }

    /// The amount that can be spent at `height`.
    pub open spec fn spec_unlocked_at(&self, height: u64) -> int {
        self.spec_total() - self.spec_locked_at(height)
    }

    /// The account that holds nothing.
    pub open spec fn spec_empty() -> Account {
        Account { spendable: 0, lock: AccountLock::spec_none() }
    }

    /// The account with its lock cleared and the locked tokens spendable again.
    pub open spec fn spec_unlock(&self) -> Account {
        Account {
            spendable: (self.spendable + self.lock.locked_amount) as u128,
            lock: AccountLock::spec_none(),
        }
    }

    /// An account that holds `balance` spendable tokens and no lock.
    pub fn new(balance: u128) -> (r: Account)
        ensures
            r.wf(),
            r.spendable == balance,
            r.lock == AccountLock::spec_none(),
    {
        Account {
            spendable: balance,
            lock: AccountLock { locked_amount: 0, unlock_height: 0, lock_version: LockVersion::NoLock },
        }
    }

    /// Whether the account has an active lock.
    pub fn is_locked(&self) -> (r: bool)
        ensures
            r == self.lock.is_active(),
    {
        self.lock.locked_amount > 0
    }

    /// Locks `amount` of the spendable balance until `unlock_height`.
    pub fn lock(&mut self, amount: u128, unlock_height: u64, version: PoxVersion) -> (r: Result<
        (),
        LedgerError,
    >)
        requires
            old(self).wf(),
        ensures
            final(self).wf(),
            r is Err ==> *final(self) == *old(self),
            r == Err::<(), LedgerError>(LedgerError::AlreadyLocked) <==> old(self).lock.is_active(),
            r == Err::<(), LedgerError>(LedgerError::InvalidAmount) <==> !old(self).lock.is_active()
                && amount == 0,
            r == Err::<(), LedgerError>(LedgerError::InvalidHeight) <==> !old(self).lock.is_active()
                && amount > 0 && unlock_height == 0,
            r == Err::<(), LedgerError>(LedgerError::InsufficientFunds) <==> !old(
                self,
            ).lock.is_active() && amount > 0 && unlock_height > 0 && amount > old(self).spendable,
            r is Ok <==> !old(self).lock.is_active() && amount > 0 && unlock_height > 0 && amount
                <= old(self).spendable,
            r is Ok ==> final(self).spendable == old(self).spendable - amount && final(self).lock == (
            AccountLock {
                locked_amount: amount,
                unlock_height,
                lock_version: version.spec_lock_version(),
            }),
    {
        if self.lock.locked_amount > 0 {
            return Err(LedgerError::AlreadyLocked);
        }
        if amount == 0 {
            return Err(LedgerError::InvalidAmount);
        }
        if unlock_height == 0 {
            return Err(LedgerError::InvalidHeight);
        }
        if amount > self.spendable {
            return Err(LedgerError::InsufficientFunds);
        }
        self.spendable = self.spendable - amount;
        self.lock = AccountLock {
            locked_amount: amount,
            unlock_height,
            lock_version: version.lock_version(),
        };
        Ok(())
    }

    /// Moves the unlock height of the active lock up to `new_unlock_height`.
    /// A height that does not lie above the present one is refused.
    pub fn extend(&mut self, new_unlock_height: u64) -> (r: Result<(), LedgerError>)
        requires
            old(self).wf(),
        ensures
            final(self).wf(),
            r is Err ==> *final(self) == *old(self),
            r == Err::<(), LedgerError>(LedgerError::NotLocked) <==> !old(self).lock.is_active(),
            r == Err::<(), LedgerError>(LedgerError::InvalidHeight) <==> old(self).lock.is_active()
                && new_unlock_height <= old(self).lock.unlock_height,
            r is Ok <==> old(self).lock.is_active() && new_unlock_height > old(
                self,
            ).lock.unlock_height,
            r is Ok ==> final(self).spendable == old(self).spendable && final(self).lock == (
            AccountLock { unlock_height: new_unlock_height, ..old(self).lock }),
    {
        if self.lock.locked_amount == 0 {
            return Err(LedgerError::NotLocked);
        }
        if new_unlock_height <= self.lock.unlock_height {
            return Err(LedgerError::InvalidHeight);
        }
        self.lock.unlock_height = new_unlock_height;
        Ok(())
    }

    /// Adds `delta` spendable tokens to the active lock.
    pub fn increase(&mut self, delta: u128) -> (r: Result<(), LedgerError>)
        requires
            old(self).wf(),
        ensures
            final(self).wf(),
            r is Err ==> *final(self) == *old(self),
            r == Err::<(), LedgerError>(LedgerError::InvalidAmount) <==> delta == 0,
            r == Err::<(), LedgerError>(LedgerError::NotLocked) <==> delta > 0 && !old(
                self,
            ).lock.is_active(),
            r == Err::<(), LedgerError>(LedgerError::InsufficientFunds) <==> delta > 0 && old(
                self,
            ).lock.is_active() && delta > old(self).spendable,
            r is Ok <==> delta > 0 && old(self).lock.is_active() && delta <= old(self).spendable,
            r is Ok ==> final(self).spendable == old(self).spendable - delta && final(self).lock == (
            AccountLock {
                locked_amount: (old(self).lock.locked_amount + delta) as u128,
                ..old(self).lock
            }),
    {
        if delta == 0 {
            return Err(LedgerError::InvalidAmount);
        }
        if self.lock.locked_amount == 0 {
            return Err(LedgerError::NotLocked);
        }
        if delta > self.spendable {
            return Err(LedgerError::InsufficientFunds);
        }
        self.spendable = self.spendable - delta;
        self.lock.locked_amount = self.lock.locked_amount + delta;
        Ok(())
    }

    /// Clears the lock and returns the locked tokens to the spendable balance.
    /// Gives back the amount released, which is 0 on an unlocked account.
    pub fn unlock(&mut self) -> (released: u128)
        requires
            old(self).wf(),
        ensures
            final(self).wf(),
            released == old(self).lock.locked_amount,
            *final(self) == old(self).spec_unlock(),
    {
        let released = self.lock.locked_amount;
        self.spendable = self.spendable + released;
        self.lock = AccountLock {
            locked_amount: 0,
            unlock_height: 0,
            lock_version: LockVersion::NoLock,
        };
        released
    }

    /// The amount held by the lock, whatever the height.
    pub fn balance_locked(&self) -> (r: u128)
        ensures
            r == self.lock.locked_amount,
    {
        self.lock.locked_amount
    }

    /// The spendable amount, not counting a lock that has run out but was not
    /// cleared yet.
    pub fn balance_unlocked(&self) -> (r: u128)
        ensures
            r == self.spendable,
    {
        self.spendable
    }

    /// The amount that is locked at `height`.
    pub fn balance_locked_at(&self, height: u64) -> (r: u128)
        ensures
            r == self.spec_locked_at(height),
    {
        if height < self.lock.unlock_height {
            self.lock.locked_amount
        } else {
            0
        }
    }

    /// The amount that can be spent at `height`: the spendable balance, and the
    /// locked amount once the unlock height is reached.
    pub fn balance_unlocked_at(&self, height: u64) -> (r: u128)
        requires
            self.wf(),
        ensures
            r == self.spec_unlocked_at(height),
    {
        if height < self.lock.unlock_height {
            self.spendable
        } else {
            self.spendable + self.lock.locked_amount
        }
    }
}

/// Unlocking is idempotent: unlocking twice in a row leaves the account as
/// unlocking once does, and no tokens are gained or lost by it.
pub proof fn lemma_unlock_idempotent(account: Account)
    requires
        account.wf(),
    ensures
        account.spec_unlock().wf(),
        account.spec_unlock().spec_unlock() == account.spec_unlock(),
        account.spec_unlock().spec_total() == account.spec_total(),
{
}

} // verus!
