use foil::repetition::{
    suite_schedule, Pair, Repetition, Repetitions, RepetitionsError, RunOrder, Side,
};
use foil::seed;
use rand::rngs::Xoshiro256PlusPlus;
use rand::SeedableRng;

fn schedule(repetitions: usize, block_size: usize, seed: u64) -> Vec<RunOrder> {
    RunOrder::schedule(
        repetitions,
        block_size,
        &mut Xoshiro256PlusPlus::seed_from_u64(seed),
    )
}

fn baseline_firsts(orders: &[RunOrder]) -> usize {
    orders
        .iter()
        .filter(|&&order| order == RunOrder::BaselineFirst)
        .count()
}

fn repetitions(orders: &[RunOrder]) -> Vec<Repetition<u32>> {
    orders
        .iter()
        .enumerate()
        .map(|(position, &order)| Repetition {
            outputs: Pair {
                baseline: position as u32,
                candidate: position as u32 + 100,
            },
            order,
        })
        .collect()
}

#[test]
fn sides_and_from_execution_order_agree() {
    let labelled = Pair {
        baseline: Side::Baseline,
        candidate: Side::Candidate,
    };
    for order in [RunOrder::BaselineFirst, RunOrder::CandidateFirst] {
        assert_eq!(Pair::from_execution_order(order.sides(), order), labelled);
    }
}

#[test]
fn schedules_are_balanced() {
    for repetitions in [Repetitions::<()>::MINIMUM, Repetitions::<()>::MINIMUM + 1] {
        let orders = schedule(repetitions, 4, 0);
        let first = baseline_firsts(&orders);
        assert_eq!(orders.len(), repetitions);
        assert!(first.abs_diff(repetitions - first) <= 1);
    }
}

#[test]
fn full_blocks_are_balanced() {
    for block in schedule(14, 4, 0)[..12].chunks_exact(4) {
        assert_eq!(baseline_firsts(block), 2);
    }
}

#[test]
fn odd_blocks_balance_their_surplus_before_shuffling() {
    for block_size in [1, 3, 5] {
        for seed in 0..64 {
            let orders = schedule(60, block_size, seed);
            assert_eq!(baseline_firsts(&orders), orders.len() / 2);
            assert!(orders.chunks(block_size).all(|block| {
                baseline_firsts(block).abs_diff(block.len() - baseline_firsts(block)) <= 1
            }));
        }
    }
}

#[test]
fn the_odd_repetition_falls_on_either_side() {
    let counts: Vec<_> = (0..16)
        .map(|seed| baseline_firsts(&schedule(Repetitions::<()>::MINIMUM + 1, 4, seed)))
        .collect();
    assert!(counts.contains(&5) && counts.contains(&6));
}

#[test]
fn an_unidentifiable_order_design_is_rejected() {
    for order in [RunOrder::BaselineFirst, RunOrder::CandidateFirst] {
        let error = Repetitions::try_from(repetitions(&[order; 10])).err();
        assert_eq!(error, Some(RepetitionsError::MissingOrder));
    }
    assert_eq!(
        RepetitionsError::MissingOrder.message(),
        "Both run orders are required."
    );
}

#[test]
fn too_few_repetitions_are_rejected() {
    let mut orders = vec![RunOrder::BaselineFirst; 8];
    orders.push(RunOrder::CandidateFirst);
    let error = Repetitions::try_from(repetitions(&orders)).err();
    assert_eq!(error, Some(RepetitionsError::TooFew { count: 9 }));
    assert_eq!(
        RepetitionsError::TooFew { count: 9 }.message(),
        "At least 10 repetitions are required, got 9."
    );
}

#[test]
fn accepted_repetitions_keep_their_order() {
    let mut orders = vec![RunOrder::BaselineFirst; 9];
    orders.push(RunOrder::CandidateFirst);
    let accepted = Repetitions::try_from(repetitions(&orders)).ok().unwrap();
    assert_eq!(accepted.len(), 10);
    for position in 0..10 {
        assert_eq!(accepted.get(position).outputs.baseline, position as u32);
        assert_eq!(accepted.get(position).order, orders[position]);
    }
}

#[test]
fn a_suite_schedule_depends_on_the_seed_alone() {
    let orders = suite_schedule(7, 40, 4);
    assert_eq!(orders, suite_schedule(7, 40, 4));
    assert_eq!(orders, schedule(40, 4, seed::schedule(7)));
    assert_ne!(orders, suite_schedule(8, 40, 4));
    assert_ne!(orders, schedule(40, 4, 7));
}

#[test]
fn a_shuffle_moves_items() {
    let orders = schedule(100, 100, 1);
    let mut alternating = Vec::new();
    for _ in 0..50 {
        alternating.push(RunOrder::BaselineFirst);
        alternating.push(RunOrder::CandidateFirst);
    }
    assert_ne!(orders, alternating);
    assert_eq!(baseline_firsts(&orders), 50);
}

#[test]
fn an_order_says_who_runs_first() {
    assert_eq!(
        RunOrder::BaselineFirst.sides(),
        (Side::Baseline, Side::Candidate)
    );
    assert_eq!(
        RunOrder::CandidateFirst.sides(),
        (Side::Candidate, Side::Baseline)
    );
    assert_eq!(RunOrder::BaselineFirst.effect_code(), 1);
    assert_eq!(RunOrder::CandidateFirst.effect_code(), -1);
    assert_eq!(Side::Baseline.name(), "baseline");
    assert_eq!(Side::Candidate.name(), "candidate");
    let pair = Pair {
        baseline: 1,
        candidate: 2,
    };
    assert_eq!(*pair.get(Side::Baseline), 1);
    assert_eq!(*pair.get(Side::Candidate), 2);
}
