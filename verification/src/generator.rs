//! The seeded random generator behind the run-order schedule.

use rand::rngs::Xoshiro256PlusPlus;
use rand::seq::SliceRandom;
use rand::{RngExt, SeedableRng};
use vstd::prelude::*;

verus! {

/// The generator of rand, xoshiro256++, as an opaque value.
#[verifier::external_type_specification]
#[verifier::external_body]
pub struct ExXoshiro256PlusPlus(Xoshiro256PlusPlus);

/// The words of state that a generator holds. All that it returns follows
/// from them.
pub uninterp spec fn generator_state(generator: Xoshiro256PlusPlus) -> Seq<u64>;

/// The state that `SeedableRng::seed_from_u64` gives a seed.
pub uninterp spec fn seeded_state(seed: u64) -> Seq<u64>;

/// What one random `bool` is, and the state that follows it.
pub uninterp spec fn coin_flip(state: Seq<u64>) -> (bool, Seq<u64>);

/// Where `SliceRandom::shuffle` takes each item of a slice of a length from,
/// and the state that follows it.
pub uninterp spec fn shuffle_positions(state: Seq<u64>, len: nat) -> (Seq<int>, Seq<u64>);

/// `Xoshiro256PlusPlus::seed_from_u64` makes a generator whose state is a
/// function of the seed alone.
#[verifier::external_body]
pub(crate) fn seeded(seed: u64) -> (generator: Xoshiro256PlusPlus)
    ensures
        generator_state(generator) == seeded_state(seed),
{
    Xoshiro256PlusPlus::seed_from_u64(seed)
}

/// `RngExt::random` for a `bool`: the answer and the state that follows are
/// functions of the state before.
#[verifier::external_body]
pub(crate) fn flip(generator: &mut Xoshiro256PlusPlus) -> (heads: bool)
    ensures
        (heads, generator_state(*final(generator))) == coin_flip(generator_state(*old(generator))),
{
    generator.random()
}

/// Whether `positions` names every position of a sequence of `len` items once.
pub open spec fn is_arrangement(positions: Seq<int>, len: nat) -> bool {
    &&& positions.len() == len
    &&& positions.no_duplicates()
    &&& forall|i: int| 0 <= i < len ==> 0 <= #[trigger] positions[i] < len
}

/// `items` as `positions` arranges them.
pub open spec fn arranged<T>(items: Seq<T>, positions: Seq<int>) -> Seq<T> {
    Seq::new(positions.len(), |i: int| items[positions[i]])
}

/// `SliceRandom::shuffle` arranges the items of a slice anew. The arrangement
/// and the state that follows are functions of the state before and of the
/// length, and the arrangement takes every item once.
#[verifier::external_body]
pub(crate) fn shuffle<T>(items: &mut Vec<T>, generator: &mut Xoshiro256PlusPlus)
    ensures
        is_arrangement(
            shuffle_positions(generator_state(*old(generator)), old(items)@.len()).0,
            final(items)@.len(),
        ),
        final(items)@.len() == old(items)@.len(),
        final(items)@ == arranged(
            old(items)@,
            shuffle_positions(generator_state(*old(generator)), old(items)@.len()).0,
        ),
        generator_state(*final(generator)) == shuffle_positions(
            generator_state(*old(generator)),
            old(items)@.len(),
        ).1,
{
    items.shuffle(generator)
}

} // verus!
