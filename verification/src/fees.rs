//! The fee arithmetic around transaction simulation: the lamports a priority
//! fee costs, the padded compute budget with its floor fee, and the compute
//! units read out of a simulation response.

use vstd::prelude::*;

verus! {

/// The compute units padding added before a transaction is sent.
pub const COMPUTE_PADDING: u32 = 20_000;

/// A priority fee: the per-unit fee and the compute-unit budget.
#[derive(Clone, Copy, Debug, PartialEq, Eq, Structural)]
pub struct PriorityFee {
    pub fee: u64,
    pub compute: u32,
}

/// Why a simulation response yields no compute figure.
#[derive(Clone, Copy, Debug, PartialEq, Eq, Structural)]
pub enum SimulationError {
    /// The simulation response carried no consumed-units figure.
    MissingUnitsConsumed,
}

/// The lamports the priority fee costs: fee times units, scaled down by a
/// million, and at least one lamport.
pub open spec fn spec_priority_fee_lamports(max_fee: u64, compute_units: u32) -> int {
    let scaled = (max_fee * compute_units) / 1_000_000;
    if scaled >= 1 {
        scaled
    } else {
        1
    }
}

/// The lamports cost of a priority fee of `max_fee` over `compute_units`.
pub fn priority_fee_lamports(max_fee: u64, compute_units: u32) -> (r: u64)
    requires
        max_fee * compute_units <= u64::MAX,
    ensures
        r == spec_priority_fee_lamports(max_fee, compute_units),
{
    let prod = max_fee * (compute_units as u64);
    let scaled = prod / 1_000_000;
    if scaled >= 1 {
        scaled
    } else {
        1
    }
}

/// The padded compute budget and its fee: the given maximum observed fee,
/// floored so that fee times compute covers at least 1.4 million.
pub fn calculate_priority_fees(max_fee: u64, compute_units: u32) -> (r: PriorityFee)
    requires
        compute_units + COMPUTE_PADDING <= u32::MAX,
    ensures
        r.compute == compute_units + COMPUTE_PADDING,
        r.fee == ({
            let floor = 1_400_000 as u64 / (compute_units + COMPUTE_PADDING) as u64;
            if max_fee >= floor {
                max_fee
            } else {
                floor
            }
        }),
{
    let compute = compute_units + COMPUTE_PADDING;
    let floor = 1_400_000u64 / (compute as u64);
    let fee = if max_fee >= floor {
        max_fee
    } else {
        floor
    };
    PriorityFee { fee, compute }
}

/// The compute units a simulation reports, narrowed to 32 bits; an absent
/// figure is the one error.
pub fn calculate_units_consumed(units_consumed: Option<u64>) -> (r: Result<u32, SimulationError>)
    ensures
        match units_consumed {
            Some(u) => r == Ok::<u32, SimulationError>(u as u32),
            None => r == Err::<u32, SimulationError>(SimulationError::MissingUnitsConsumed),
        },
{
    match units_consumed {
        Some(u) => Ok(#[verifier::truncate] (u as u32)),
        None => Err(SimulationError::MissingUnitsConsumed),
    }
}

} // verus!
