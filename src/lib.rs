//! Sealed-bid batch auction: order intake with escrow, commitment checks,
//! uniform-price clearing, settlement and the round lifecycle.
use vstd::prelude::*;

pub mod types;
pub mod clearing;
pub mod escrow;
pub mod commitment;
pub mod auction;
pub mod queries;

verus! {

} // verus!
