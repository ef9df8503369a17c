//! The analysis of a benchmark's repetitions.

use crate::generator::{self, generator_state, seeded_state};
use crate::metric::Time;
use crate::posterior::Posterior;
use crate::seed::{self, POSTERIOR};
use crate::summary::Summary;
use rand::rngs::Xoshiro256PlusPlus;
use vstd::prelude::*;

verus! {

/// A sampled posterior and its summary at the requested interval widths.
pub struct Analysis {
    pub posterior: Posterior<Time>,
    pub summary: Summary<Time>,
}

/// The generator that the draws of a suite with a seed come from. It starts
/// anew for each benchmark, and it shares no stream with the run orders.
pub fn posterior_generator(seed: u64) -> (generator: Xoshiro256PlusPlus)
    ensures
        generator_state(generator) == seeded_state(seed ^ POSTERIOR),
        generator_state(generator) == seeded_state(seed ^ 0x706f_7374_5f72_6e67),
{
    generator::seeded(seed::posterior(seed))
}

} // verus!
