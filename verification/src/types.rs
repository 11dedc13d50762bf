//! Plain values shared by every part of the ledger.

use vstd::prelude::*;

verus! {

/// An account or contract, known to the ledger only by its identity.
#[derive(Clone, Copy, Debug, PartialEq, Eq, Structural)]
pub struct Principal {
    pub id: u64,
}

/// A payout destination: an address-format tag and the hash it commits to.
/// Two addresses are equal when the tag and every hash byte agree.
#[derive(Clone, Copy, Debug)]
pub struct RewardAddress {
    pub version: u8,
    pub hash: [u8; 20],
}

impl PartialEq for RewardAddress {
    fn eq(&self, other: &Self) -> (r: bool) {
        if self.version != other.version {
            return false;
        }
        let mut i: usize = 0;
        while i < 20
            invariant
                i <= 20,
                forall|j: int| 0 <= j < i ==> self.hash[j] == other.hash[j],
            decreases 20 - i,
        {
            if self.hash[i] != other.hash[i] {
                return false;
            }
            i += 1;
        }
        proof {
            assert(self.hash =~= other.hash);
        }
        true
    }
}

impl Eq for RewardAddress {

}

impl vstd::std_specs::cmp::PartialEqSpecImpl for RewardAddress {
    open spec fn obeys_eq_spec() -> bool {
        true
    }

    open spec fn eq_spec(&self, other: &Self) -> bool {
        *self == *other
    }
}

/// The protocol generation that created a lock.
#[derive(Clone, Copy, Debug, PartialEq, Eq, Structural)]
pub enum LockVersion {
    NoLock,
    V1,
    V2,
}

/// The protocol generation under which an operation is requested.
#[derive(Clone, Copy, Debug, PartialEq, Eq, Structural)]
pub enum PoxVersion {
    V1,
    V2,
}

impl PoxVersion {
    /// The tag that a lock created under this generation carries.
    pub open spec fn spec_lock_version(self) -> LockVersion {
        match self {
            PoxVersion::V1 => LockVersion::V1,
            PoxVersion::V2 => LockVersion::V2,
        }
    }

    /// The tag that a lock created under this generation carries.
    pub fn lock_version(self) -> (r: LockVersion)
        ensures
            r == self.spec_lock_version(),
    {
        match self {
            PoxVersion::V1 => LockVersion::V1,
            PoxVersion::V2 => LockVersion::V2,
        }
    }
}

/// Why an operation was refused. A refused operation changes nothing.
#[derive(Clone, Copy, Debug, PartialEq, Eq, Structural)]
pub enum LedgerError {
    /// A height lies before the first reward cycle, or is not usable as an
    /// unlock height: it is zero, does not raise the lock, or lies beyond
    /// the height up to which a delegation was given.
    InvalidHeight,
    /// The account already has an active lock.
    AlreadyLocked,
    /// The account has no active lock.
    NotLocked,
    /// The principal already has a stacking record.
    AlreadyStacking,
    /// The principal has no stacking record, or none of a lock that it
    /// placed itself.
    NotStacking,
    /// The amount exceeds the spendable balance.
    InsufficientFunds,
    /// The amount is zero.
    InvalidAmount,
    /// The lock period is zero or longer than the protocol allows.
    InvalidLockPeriod,
    /// The extension is zero cycles, or makes the lock longer than the protocol allows.
    InvalidExtension,
    /// The amount is below the stacking threshold.
    BelowMinimum,
    /// No entry exists at the given cycle and index.
    NoSuchEntry,
    /// The target has not delegated to this delegate.
    NoDelegation,
    /// The amount exceeds what the delegation allows.
    DelegationAmountExceeded,
    /// The delegation names another reward address.
    DelegationAddressMismatch,
    /// There is no pending delegated amount to commit.
    NothingToCommit,
    /// The requested protocol generation is not active yet.
    ProtocolNotActive,
    /// The requested protocol generation has been retired.
    ProtocolRetired,
    /// An amount or a height would leave the range of its machine type.
    ArithmeticOverflow,
}

} // verus!
