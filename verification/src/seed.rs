//! Derivation of the two random streams from the recorded suite seed.

use vstd::prelude::*;

verus! {

/// The bytes of `schedule` as one big-endian word.
pub const SCHEDULE: u64 = 0x7363_6865_6475_6c65;

/// The bytes of `post_rng` as one big-endian word.
pub const POSTERIOR: u64 = 0x706f_7374_5f72_6e67;

/// The seed of the run-order stream of a suite.
pub fn schedule(seed: u64) -> (derived: u64)
    ensures
        derived == seed ^ SCHEDULE,
        derived == seed ^ 0x7363_6865_6475_6c65,
{
    seed ^ SCHEDULE
}

/// The seed of the bootstrap stream of a suite.
pub fn posterior(seed: u64) -> (derived: u64)
    ensures
        derived == seed ^ POSTERIOR,
        derived == seed ^ 0x706f_7374_5f72_6e67,
{
    seed ^ POSTERIOR
}

/// No suite seed makes the two streams start from the same seed.
pub proof fn streams_are_distinct(seed: u64)
    ensures
        seed ^ SCHEDULE != seed ^ POSTERIOR,
{
    assert(seed ^ 0x7363_6865_6475_6c65u64 != seed ^ 0x706f_7374_5f72_6e67u64) by (bit_vector);
}

/// Deriving is invertible, so different suite seeds never share a stream.
pub proof fn derivation_is_injective(one: u64, other: u64)
    requires
        one != other,
    ensures
        one ^ SCHEDULE != other ^ SCHEDULE,
        one ^ POSTERIOR != other ^ POSTERIOR,
{
    assert(one ^ 0x7363_6865_6475_6c65u64 != other ^ 0x7363_6865_6475_6c65u64) by (bit_vector)
        requires
            one != other,
    ;
    assert(one ^ 0x706f_7374_5f72_6e67u64 != other ^ 0x706f_7374_5f72_6e67u64) by (bit_vector)
        requires
            one != other,
    ;
}

} // verus!
