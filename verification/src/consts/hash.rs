use vstd::prelude::*;

verus! {

/// Initial value of the string hash.
pub const FIRST: u32 = 37;

/// Multiplier applied to the running hash.
pub const A: u32 = 54059;

/// Multiplier applied to each character's code point.
pub const B: u32 = 76963;

} // verus!
