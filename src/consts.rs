use vstd::prelude::*;

verus! {

/// Default multiplier of the rolling hash: one step per possible byte value.
pub const BASE: u64 = 256;

/// Default prime modulus of the rolling hash.
pub const PRIME: u64 = 1_000_000_007;

} // verus!
