use foil::analysis::posterior_generator;
use foil::seed::{posterior, schedule};
use rand::rngs::Xoshiro256PlusPlus;
use rand::{RngExt, SeedableRng};

#[test]
fn domain_seeds_are_pinned() {
    assert_eq!(schedule(42), 0x7363_6865_6475_6c4f);
    assert_eq!(posterior(42), 0x706f_7374_5f72_6e4d);
    assert_ne!(schedule(42), posterior(42));
}

#[test]
fn streams_of_one_seed_differ() {
    for seed in [0, 1, u64::MAX, 0x7363_6865_6475_6c65] {
        assert_ne!(schedule(seed), posterior(seed));
    }
}

#[test]
fn different_seeds_stay_different() {
    assert_ne!(schedule(1), schedule(2));
    assert_ne!(posterior(1), posterior(2));
}

#[test]
fn the_posterior_generator_is_seeded_for_its_domain() {
    let mut made = posterior_generator(9);
    let mut expected = Xoshiro256PlusPlus::seed_from_u64(9 ^ 0x706f_7374_5f72_6e67);
    for _ in 0..8 {
        assert_eq!(made.random::<u64>(), expected.random::<u64>());
    }
}
