//! Reward-cycle arithmetic: the mapping between chain heights and reward cycles.

use vstd::prelude::*;

verus! {

/// Why a height or a cycle could not be converted.
#[derive(Clone, Copy, Debug, PartialEq, Eq, Structural)]
pub enum CycleError {
    /// The height lies before the first height of cycle 0.
    InvalidHeight,
    /// The start height of the cycle does not fit in 64 bits.
    HeightOverflow,
}

/// The shape of the reward-cycle grid: where cycle 0 starts and how many
/// heights each cycle spans.
#[derive(Clone, Copy, Debug, PartialEq, Eq, Structural)]
pub struct CycleParams {
    pub first_burn_height: u64,
    pub cycle_length: u64,
}

/// The reward cycle that contains `height`, as a mathematical integer.
pub open spec fn spec_cycle_of(params: CycleParams, height: int) -> int {
    (height - params.first_burn_height) / (params.cycle_length as int)
}

/// The first height of `cycle`, as a mathematical integer.
pub open spec fn spec_start_height_of(params: CycleParams, cycle: int) -> int {
    params.first_burn_height + cycle * params.cycle_length
}

impl CycleParams {
    /// A grid is usable when its cycles are not empty.
    pub open spec fn wf(&self) -> bool {
        self.cycle_length > 0
    }

    /// Builds a grid; `None` when `cycle_length` is zero.
    pub fn new(first_burn_height: u64, cycle_length: u64) -> (r: Option<CycleParams>)
        ensures
            cycle_length == 0 <==> r is None,
            r matches Some(p) ==> p.wf() && p.first_burn_height == first_burn_height
                && p.cycle_length == cycle_length,
    {
        if cycle_length == 0 {
            None
        } else {
            Some(CycleParams { first_burn_height, cycle_length })
        }
    }

    /// The reward cycle that contains `height`.
    pub fn cycle_of(&self, height: u64) -> (r: Result<u64, CycleError>)
        requires
            self.wf(),
        ensures
            height < self.first_burn_height <==> r == Err::<u64, CycleError>(
                CycleError::InvalidHeight,
            ),
            height >= self.first_burn_height <==> r is Ok,
            r matches Ok(c) ==> c == spec_cycle_of(*self, height as int),
    {
        if height < self.first_burn_height {
            Err(CycleError::InvalidHeight)
        } else {
            Ok((height - self.first_burn_height) / self.cycle_length)
        }
    }

    /// The first height of `cycle`.
    pub fn start_height_of(&self, cycle: u64) -> (r: Result<u64, CycleError>)
        requires
            self.wf(),
        ensures
            spec_start_height_of(*self, cycle as int) > u64::MAX <==> r == Err::<u64, CycleError>(
                CycleError::HeightOverflow,
            ),
            spec_start_height_of(*self, cycle as int) <= u64::MAX <==> r is Ok,
            r matches Ok(h) ==> h == spec_start_height_of(*self, cycle as int),
    {
        match cycle.checked_mul(self.cycle_length) {
            None => Err(CycleError::HeightOverflow),
            Some(span) => match self.first_burn_height.checked_add(span) {
                None => Err(CycleError::HeightOverflow),
                Some(h) => Ok(h),
            },
        }
    }
}

/// A cycle's start height lies in that cycle: `cycle_of` undoes `start_height_of`.
pub proof fn lemma_cycle_of_start_height(params: CycleParams, cycle: int)
    requires
        params.wf(),
        cycle >= 0,
    ensures
        spec_start_height_of(params, cycle) >= params.first_burn_height,
        spec_cycle_of(params, spec_start_height_of(params, cycle)) == cycle,
{
    let len = params.cycle_length as int;
    assert(cycle * len >= 0) by (nonlinear_arith)
        requires
            cycle >= 0,
            len > 0,
    ;
    assert((cycle * len) / len == cycle) by (nonlinear_arith)
        requires
            len > 0,
    ;
}

/// Every height of a cycle maps back to it: heights from a cycle's start up to
/// the next cycle's start belong to that cycle.
pub proof fn lemma_cycle_of_within(params: CycleParams, cycle: int, height: int)
    requires
        params.wf(),
        cycle >= 0,
        spec_start_height_of(params, cycle) <= height < spec_start_height_of(params, cycle + 1),
    ensures
        spec_cycle_of(params, height) == cycle,
{
    let len = params.cycle_length as int;
    let off = height - params.first_burn_height;
    assert(off / len == cycle) by (nonlinear_arith)
        requires
            len > 0,
            cycle * len <= off < (cycle + 1) * len,
    ;
}

} // verus!
