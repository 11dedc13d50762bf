//! The records that the ledger keeps per principal, and the protocol's
//! fixed parameters.

use vstd::prelude::*;
use crate::cycle::CycleParams;
use crate::types::{Principal, RewardAddress};

verus! {

/// A stacker's record: which cycles the lock covers, where the rewards go,
/// and which address-list entries were created for it so far.
#[derive(Debug, PartialEq, Eq)]
pub struct StackingState {
    pub reward_address: RewardAddress,
    pub first_reward_cycle: u64,
    /// The number of cycles covered, at least 1.
    pub lock_period: u64,
    /// `reward_set_indexes[k]` is this stacker's index in the address list of
    /// cycle `first_reward_cycle + k`. Cycles are committed in order, so the
    /// length says how many of the covered cycles have an entry.
    pub reward_set_indexes: Vec<u64>,
    /// The delegate that placed the lock; `None` where the principal stacks
    /// for itself. A lock that a delegate placed has no entries of its own:
    /// its amount goes into what the delegate gathers.
    pub delegated_to: Option<Principal>,
    /// The cycle in which the lock was last increased, if it ever was. The
    /// entries of that cycle and of earlier ones were not raised with the
    /// lock; every later entry holds exactly what is locked.
    pub last_increase_cycle: Option<u64>,
}

/// A stacking record as a mathematical value.
pub struct StackingStateView {
    pub reward_address: RewardAddress,
    pub first_reward_cycle: u64,
    pub lock_period: u64,
    pub reward_set_indexes: Seq<u64>,
    pub delegated_to: Option<Principal>,
    pub last_increase_cycle: Option<u64>,
}

impl View for StackingState {
    type V = StackingStateView;

    open spec fn view(&self) -> StackingStateView {
        StackingStateView {
            reward_address: self.reward_address,
            first_reward_cycle: self.first_reward_cycle,
            lock_period: self.lock_period,
            reward_set_indexes: self.reward_set_indexes@,
            delegated_to: self.delegated_to,
            last_increase_cycle: self.last_increase_cycle,
        }
    }
}

impl StackingStateView {
    /// Whether `cycle` is covered and already has its entry recorded.
    pub open spec fn is_committed(&self, cycle: u64) -> bool {
        self.first_reward_cycle <= cycle < self.first_reward_cycle + self.reward_set_indexes.len()
    }

    /// The index recorded for a committed cycle.
    pub open spec fn index_for(&self, cycle: u64) -> u64
        recommends
            self.is_committed(cycle),
    {
        self.reward_set_indexes[cycle - self.first_reward_cycle]
    }

    /// Whether `cycle` comes after every increase of the lock, so that its
    /// entry holds the whole of what is locked.
    pub open spec fn holds_whole_lock(&self, cycle: u64) -> bool {
        match self.last_increase_cycle {
            Some(raised_in) => cycle > raised_in,
            None => true,
        }
    }

    /// The record after an increase of the lock in `tip_cycle`.
    pub open spec fn spec_increased_in(&self, tip_cycle: u64) -> StackingStateView {
        StackingStateView {
            last_increase_cycle: Some(
                match self.last_increase_cycle {
                    Some(raised_in) => if raised_in > tip_cycle {
                        raised_in
                    } else {
                        tip_cycle
                    },
                    None => tip_cycle,
                },
            ),
            ..*self
        }
    }

    /// The first cycle after the lock.
    pub open spec fn end_cycle(&self) -> int {
        self.first_reward_cycle + self.lock_period
    }
}

impl StackingState {
    /// A copy of the record.
    pub fn duplicate(&self) -> (r: StackingState)
        ensures
            r@ == self@,
    {
        let mut indexes: Vec<u64> = Vec::new();
        let mut i: usize = 0;
        while i < self.reward_set_indexes.len()
            invariant
                i <= self.reward_set_indexes@.len(),
                indexes@ == self.reward_set_indexes@.subrange(0, i as int),
            decreases self.reward_set_indexes@.len() - i,
        {
            indexes.push(self.reward_set_indexes[i]);
            assert(self.reward_set_indexes@.subrange(0, i as int).push(
                self.reward_set_indexes@[i as int],
            ) =~= self.reward_set_indexes@.subrange(0, i as int + 1));
            i += 1;
        }
        assert(self.reward_set_indexes@.subrange(0, i as int) =~= self.reward_set_indexes@);
        StackingState {
            reward_address: self.reward_address,
            first_reward_cycle: self.first_reward_cycle,
            lock_period: self.lock_period,
            reward_set_indexes: indexes,
            delegated_to: self.delegated_to,
            last_increase_cycle: self.last_increase_cycle,
        }
    }
}

/// A principal's authorization of a delegate, with its optional bounds.
#[derive(Clone, Copy, Debug, PartialEq, Eq)]
pub struct DelegationRelation {
    pub delegate: Principal,
    /// The most that the delegate may lock for the principal.
    pub amount_constraint: Option<u128>,
    /// The height up to which the delegation was given: no lock that the
    /// delegate places or lengthens may run out later.
    pub height_constraint: Option<u64>,
    /// The only reward address that the delegate may use.
    pub address_constraint: Option<RewardAddress>,
}

impl DelegationRelation {
    /// Whether the delegation lets the delegate have `total` locked for the principal.
    pub open spec fn spec_allows_amount(&self, total: int) -> bool {
        match self.amount_constraint {
            Some(limit) => total <= limit,
            None => true,
        }
    }

    /// Whether the delegation lets the delegate use `reward_address`.
    pub open spec fn spec_allows_address(&self, reward_address: RewardAddress) -> bool {
        match self.address_constraint {
            Some(only) => only == reward_address,
            None => true,
        }
    }

    /// Whether the delegation lets a lock of the principal run out at
    /// `unlock_height`.
    pub open spec fn spec_allows_height(&self, unlock_height: int) -> bool {
        match self.height_constraint {
            Some(limit) => unlock_height <= limit,
            None => true,
        }
    }

    /// Whether the delegation lets a lock of the principal run out at
    /// `unlock_height`.
    pub fn allows_height(&self, unlock_height: u64) -> (r: bool)
        ensures
            r == self.spec_allows_height(unlock_height as int),
    {
        match self.height_constraint {
            Some(limit) => unlock_height <= limit,
            None => true,
        }
    }

    /// Whether the delegation lets the delegate use `reward_address`.
    pub fn allows_address(&self, reward_address: RewardAddress) -> (r: bool)
        ensures
            r == self.spec_allows_address(reward_address),
    {
        match self.address_constraint {
            Some(only) => only == reward_address,
            None => true,
        }
    }
}

/// The protocol's fixed parameters.
#[derive(Clone, Copy, Debug, PartialEq, Eq, Structural)]
pub struct PoxParams {
    pub cycles: CycleParams,
    /// The longest lock, in cycles, that `stack` accepts.
    pub max_lock_period: u64,
    /// The height from which the second protocol generation is active and the
    /// first one retired.
    pub transition_height: u64,
    /// The height at which first-generation locks that reach beyond it are
    /// released.
    pub v1_unlock_height: u64,
}

impl PoxParams {
    pub open spec fn wf(&self) -> bool {
        &&& self.cycles.wf()
        &&& self.max_lock_period >= 1
        &&& self.cycles.first_burn_height <= self.transition_height <= self.v1_unlock_height
    }

    /// The first cycle whose entries a release of first-generation locks takes back.
    pub open spec fn spec_v1_unlock_cycle(&self) -> int {
        crate::cycle::spec_cycle_of(self.cycles, self.v1_unlock_height as int)
    }
}

} // verus!
