//! Positional numeral systems whose base is the dominant root of a
//! recurrence rule, with exact, integer-only carry normalization of digit
//! tapes.

use vstd::prelude::*;

pub mod poly;
pub mod rule;
pub mod tape;

verus! {

/// A digit on a tape, and a coefficient of a rule.
pub type Value = u32;

} // verus!
