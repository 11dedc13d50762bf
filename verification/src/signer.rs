//! The decisions of a block proposer that waits for signatures: which slot a
//! message goes to, and what to do once the signers' weights come in.

use vstd::prelude::*;

verus! {

/// Why a message slot could not be chosen.
#[derive(Clone, Copy, Debug, PartialEq, Eq, Structural)]
pub enum SlotError {
    /// The miner's range holds too few slots for this kind of message.
    NotEnoughSlots,
}

/// The slot for a message of kind `miner_slot` in the miner's range from
/// `slot_start` up to, not including, `slot_end`.
pub open spec fn spec_miner_slot(slot_start: u32, slot_end: u32, miner_slot: u8) -> Option<u32> {
    if slot_start + miner_slot < slot_end {
        Some((slot_start + miner_slot) as u32)
    } else {
        None
    }
}

/// The slot for a message of kind `miner_slot` in the miner's range from
/// `slot_start` up to, not including, `slot_end`.
pub fn miner_slot_id(slot_start: u32, slot_end: u32, miner_slot: u8) -> (r: Result<u32, SlotError>)
    ensures
        r is Ok <==> spec_miner_slot(slot_start, slot_end, miner_slot) is Some,
        r matches Ok(slot) ==> Some(slot) == spec_miner_slot(slot_start, slot_end, miner_slot),
        r matches Err(e) ==> e == SlotError::NotEnoughSlots,
{
    let offset: u32 = miner_slot.into();
    let slot_id = if offset > u32::MAX - slot_start {
        u32::MAX
    } else {
        slot_start + offset
    };
    if slot_id < slot_start || slot_id >= slot_end {
        return Err(SlotError::NotEnoughSlots);
    }
    Ok(slot_id)
}

/// The version to write a slot with: one more than the last version written,
/// or 1 for a slot never written; the count stops at the largest value.
pub fn next_slot_version(last: Option<u32>) -> (r: u32)
    ensures
        r == match last {
            Some(v) => if v == u32::MAX {
                u32::MAX
            } else {
                (v + 1) as u32
            },
            None => 1u32,
        },
{
    match last {
        Some(v) => if v == u32::MAX {
            u32::MAX
        } else {
            v + 1
        },
        None => 1,
    }
}

/// The signing weights gathered for a block so far.
#[derive(Clone, Copy, Debug, PartialEq, Eq, Structural)]
pub struct BlockStatus {
    pub total_weight_signed: u32,
    pub total_reject_weight: u32,
}

/// What the weights gathered for a block say.
#[derive(Clone, Copy, Debug, PartialEq, Eq, Structural)]
pub enum BlockVerdict {
    /// The rejecting weight makes the threshold unreachable.
    Rejected,
    /// The signed weight has reached the threshold.
    Accepted,
    /// Neither: more votes are needed.
    Undecided,
}

/// The sum of two weights, stopping at the largest value.
pub open spec fn spec_saturating_sum(a: u32, b: u32) -> u32 {
    if a + b > u32::MAX {
        u32::MAX
    } else {
        (a + b) as u32
    }
}

/// What the weights say: rejected once the rejecting weight and the
/// threshold together exceed the total weight, else accepted once the signed
/// weight reaches the threshold.
pub open spec fn spec_verdict(status: BlockStatus, weight_threshold: u32, total_weight: u32) -> BlockVerdict {
    if spec_saturating_sum(status.total_reject_weight, weight_threshold) > total_weight {
        BlockVerdict::Rejected
    } else if status.total_weight_signed >= weight_threshold {
        BlockVerdict::Accepted
    } else {
        BlockVerdict::Undecided
    }
}

/// What the weights gathered so far say.
pub fn block_verdict(status: BlockStatus, weight_threshold: u32, total_weight: u32) -> (r:
    BlockVerdict)
    ensures
        r == spec_verdict(status, weight_threshold, total_weight),
{
    let reject_reach = if weight_threshold > u32::MAX - status.total_reject_weight {
        u32::MAX
    } else {
        status.total_reject_weight + weight_threshold
    };
    if reject_reach > total_weight {
        BlockVerdict::Rejected
    } else if status.total_weight_signed >= weight_threshold {
        BlockVerdict::Accepted
    } else {
        BlockVerdict::Undecided
    }
}

/// Whether the proposer goes on waiting for votes on this status.
pub fn still_waiting(status: BlockStatus, weight_threshold: u32, total_weight: u32) -> (r: bool)
    ensures
        r == (spec_verdict(status, weight_threshold, total_weight) == BlockVerdict::Undecided),
{
    match block_verdict(status, weight_threshold, total_weight) {
        BlockVerdict::Undecided => true,
        _ => false,
    }
}

/// What the proposer learns while it waits.
#[derive(Clone, Copy, Debug, PartialEq, Eq, Structural)]
pub enum WaitEvent {
    /// The listener handed over a status that is no longer undecided, or
    /// that it stopped waiting on.
    Status(BlockStatus),
    /// The wait timed out. `stored` says whether the block turned up in the
    /// staging store meanwhile, `tip_changed` whether the burn chain tip moved.
    Timeout { stored: bool, tip_changed: bool },
}

/// What the proposer does next.
#[derive(Clone, Copy, Debug, PartialEq, Eq, Structural)]
pub enum WaitAction {
    /// Hand out the signatures gathered by the listener.
    AcceptGathered,
    /// Hand out the signatures of the stored block.
    AcceptStored,
    /// Give up: the signers rejected the block.
    FailRejected,
    /// Give up: the burn chain tip moved.
    FailTipChanged,
    /// Give up: the wait ended without a decision.
    FailUndecided,
    /// Wait again.
    KeepWaiting,
}

/// The proposer's next step on `event`. A stored block wins over a moved
/// tip; a status is judged by its weights.
pub open spec fn spec_next_action(event: WaitEvent, weight_threshold: u32, total_weight: u32) -> WaitAction {
    match event {
        WaitEvent::Timeout { stored, tip_changed } => if stored {
            WaitAction::AcceptStored
        } else if tip_changed {
            WaitAction::FailTipChanged
        } else {
            WaitAction::KeepWaiting
        },
        WaitEvent::Status(status) => match spec_verdict(status, weight_threshold, total_weight) {
            BlockVerdict::Rejected => WaitAction::FailRejected,
            BlockVerdict::Accepted => WaitAction::AcceptGathered,
            BlockVerdict::Undecided => WaitAction::FailUndecided,
        },
    }
}

/// The proposer's next step on `event`.
pub fn next_action(event: WaitEvent, weight_threshold: u32, total_weight: u32) -> (r: WaitAction)
    ensures
        r == spec_next_action(event, weight_threshold, total_weight),
{
    match event {
        WaitEvent::Timeout { stored, tip_changed } => if stored {
            WaitAction::AcceptStored
        } else if tip_changed {
            WaitAction::FailTipChanged
        } else {
            WaitAction::KeepWaiting
        },
        WaitEvent::Status(status) => match block_verdict(status, weight_threshold, total_weight) {
            BlockVerdict::Rejected => WaitAction::FailRejected,
            BlockVerdict::Accepted => WaitAction::AcceptGathered,
            BlockVerdict::Undecided => WaitAction::FailUndecided,
        },
    }
}

} // verus!
