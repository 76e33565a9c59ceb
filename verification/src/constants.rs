use vstd::prelude::*;

verus! {

/// Number of decimal digits stored in one block. A u64 holds at most 20
/// decimal digits; 18 leaves room for a carry bit, so that
/// (BLOCK_DIVISION_FACTOR - 1) + (BLOCK_DIVISION_FACTOR - 1) + 1 cannot
/// overflow a u64.
pub const DIGITS_PER_BLOCK: usize = 18;

/// The numeric base of one block: 10 to the power DIGITS_PER_BLOCK.
pub const BLOCK_DIVISION_FACTOR: u64 = 1000000000000000000;

} // verus!
