//! Conveyor-belt lines for a factory simulation: items ride along a belt,
//! keep a minimum separation, and close up gaps as the belt ticks.
use vstd::prelude::*;

pub mod belt;
pub(crate) mod inventory;
pub(crate) mod polyfill;
pub mod util;

verus! {

/// Adds two numbers.
pub fn add(left: u64, right: u64) -> (sum: u64)
    requires
        left + right <= u64::MAX,
    ensures
        sum == left + right,
{
    left + right
}

} // verus!
