//! Paired repetitions and the order in which each pair runs.

use crate::generator::{
    self, arranged, coin_flip, generator_state, is_arrangement, seeded_state, shuffle_positions,
};
use crate::seed::{self, SCHEDULE};
use crate::text::{decimal, decimal_text};
use rand::rngs::Xoshiro256PlusPlus;
use vstd::prelude::*;

verus! {

/// One of the two revisions that a repetition compares.
#[derive(Clone, Copy, Debug, PartialEq, Eq, Structural)]
pub enum Side {
    Baseline,
    Candidate,
}

impl Side {
    /// The name of a side in reports, logs and errors.
    pub open spec fn label(self) -> Seq<char> {
        match self {
            Side::Baseline => "baseline"@,
            Side::Candidate => "candidate"@,
        }
    }

    /// The name of a side in reports, logs and errors.
    pub fn name(self) -> (name: &'static str)
        ensures
            name@ == self.label(),
            self is Baseline ==> name@ == "baseline"@,
            self is Candidate ==> name@ == "candidate"@,
    {
        match self {
            Side::Baseline => "baseline",
            Side::Candidate => "candidate",
        }
    }
}

/// A value for each side.
#[derive(Clone, Copy, Debug, PartialEq)]
pub struct Pair<T> {
    pub baseline: T,
    pub candidate: T,
}

impl<T> Pair<T> {
    /// The value of one side.
    pub open spec fn of(self, side: Side) -> T {
        match side {
            Side::Baseline => self.baseline,
            Side::Candidate => self.candidate,
        }
    }

    /// The value of one side.
    pub fn get(&self, side: Side) -> (value: &T)
        ensures
            *value == self.of(side),
            side is Baseline ==> *value == self.baseline,
            side is Candidate ==> *value == self.candidate,
    {
        match side {
            Side::Baseline => &self.baseline,
            Side::Candidate => &self.candidate,
        }
    }

    /// Sorts the values of a first and a second run to the sides that ran.
    pub fn from_execution_order(values: (T, T), order: RunOrder) -> (pair: Self)
        ensures
            pair.of(order.first_side()) == values.0,
            pair.of(order.second_side()) == values.1,
            order is BaselineFirst ==> pair.baseline == values.0 && pair.candidate == values.1,
            order is CandidateFirst ==> pair.candidate == values.0 && pair.baseline == values.1,
    {
        match order {
            RunOrder::BaselineFirst => Pair { baseline: values.0, candidate: values.1 },
            RunOrder::CandidateFirst => Pair { baseline: values.1, candidate: values.0 },
        }
    }
}

/// Which side of a repetition runs first.
#[derive(Clone, Copy, Debug, PartialEq, Eq, Structural)]
pub enum RunOrder {
    CandidateFirst,
    BaselineFirst,
}

/// What an order adds to the surplus of baseline-first repetitions.
pub open spec fn contrast(order: RunOrder) -> int {
    match order {
        RunOrder::CandidateFirst => -1,
        RunOrder::BaselineFirst => 1,
    }
}

/// How many more repetitions run the baseline first than the candidate.
pub open spec fn surplus(orders: Seq<RunOrder>) -> int
    decreases orders.len(),
{
    if orders.len() == 0 {
        0
    } else {
        surplus(orders.drop_last()) + contrast(orders.last())
    }
}

/// How many repetitions run the baseline first.
pub open spec fn baseline_firsts(orders: Seq<RunOrder>) -> nat
    decreases orders.len(),
{
    if orders.len() == 0 {
        0
    } else {
        baseline_firsts(orders.drop_last()) + if orders.last() == RunOrder::BaselineFirst {
            1nat
        } else {
            0nat
        }
    }
}

/// Whether the two orders occur equally often, give or take one.
pub open spec fn balanced(orders: Seq<RunOrder>) -> bool {
    -1 <= surplus(orders) <= 1
}

/// As many baseline-first as candidate-first repetitions, taking turns.
pub open spec fn alternating(pairs: nat) -> Seq<RunOrder>
    decreases pairs,
{
    if pairs == 0 {
        Seq::empty()
    } else {
        alternating((pairs - 1) as nat).push(RunOrder::BaselineFirst).push(RunOrder::CandidateFirst)
    }
}

/// The order that a coin decides on.
pub open spec fn coin_order(heads: bool) -> RunOrder {
    if heads {
        RunOrder::BaselineFirst
    } else {
        RunOrder::CandidateFirst
    }
}

/// How many blocks of `repetitions` repetitions have an odd number of them.
pub open spec fn odd_blocks(repetitions: nat, block_size: nat) -> nat {
    (repetitions / block_size) * (block_size % 2) + (repetitions % block_size) % 2
}

/// Orders after a shuffle, and the generator state that follows it.
pub open spec fn shuffled(orders: Seq<RunOrder>, state: Seq<u64>) -> (Seq<RunOrder>, Seq<u64>) {
    let outcome = shuffle_positions(state, orders.len());
    (arranged(orders, outcome.0), outcome.1)
}

/// The orders that the odd blocks get beyond their even part, and the
/// generator state that follows: as many of the one as of the other, a coin
/// deciding on the last of an odd number, in shuffled order.
pub open spec fn surplus_orders(count: nat, state: Seq<u64>) -> (Seq<RunOrder>, Seq<u64>) {
    if count % 2 == 1 {
        let (heads, next) = coin_flip(state);
        shuffled(alternating(count / 2).push(coin_order(heads)), next)
    } else {
        shuffled(alternating(count / 2), state)
    }
}

/// A block before its shuffle: its even part, and the next surplus order
/// where its size is odd.
pub open spec fn unshuffled_block(size: nat, surpluses: Seq<RunOrder>) -> Seq<RunOrder> {
    if size % 2 == 1 {
        alternating(size / 2).push(surpluses[0])
    } else {
        alternating(size / 2)
    }
}

/// The size of the next block.
pub open spec fn next_size(left: nat, block_size: nat) -> nat {
    if left < block_size {
        left
    } else {
        block_size
    }
}

/// The shuffled blocks of the repetitions that are left, and the generator
/// state that follows them.
pub open spec fn block_orders(
    left: nat,
    block_size: nat,
    surpluses: Seq<RunOrder>,
    state: Seq<u64>,
) -> (Seq<RunOrder>, Seq<u64>)
    decreases left,
{
    if left == 0 || block_size == 0 {
        (Seq::empty(), state)
    } else {
        let size = next_size(left, block_size);
        let (block, next) = shuffled(unshuffled_block(size, surpluses), state);
        let (rest, end) = block_orders(
            (left - size) as nat,
            block_size,
            surpluses.skip((size % 2) as int),
            next,
        );
        (block + rest, end)
    }
}

/// The run orders of a number of repetitions, and the generator state that
/// follows drawing them.
pub open spec fn schedule_orders(
    repetitions: nat,
    block_size: nat,
    state: Seq<u64>,
) -> (Seq<RunOrder>, Seq<u64>) {
    let (surpluses, next) = surplus_orders(odd_blocks(repetitions, block_size), state);
    block_orders(repetitions, block_size, surpluses, next)
}

/// The end of the block that starts at a position.
pub open spec fn block_end(start: int, block_size: int, len: int) -> int {
    if start + block_size < len {
        start + block_size
    } else {
        len
    }
}

/// Whether every block of a schedule, the last and shorter one too, is balanced.
pub open spec fn blocks_balanced(orders: Seq<RunOrder>, block_size: int) -> bool {
    forall|start: int|
        0 <= start < orders.len() && start % block_size == 0 ==> balanced(
            #[trigger] orders.subrange(start, block_end(start, block_size, orders.len() as int)),
        )
}

proof fn surplus_of_concatenation(one: Seq<RunOrder>, other: Seq<RunOrder>)
    ensures
        surplus(one + other) == surplus(one) + surplus(other),
    decreases other.len(),
{
    if other.len() == 0 {
        assert(one + other =~= one);
    } else {
        assert((one + other).drop_last() =~= one + other.drop_last());
        surplus_of_concatenation(one, other.drop_last());
    }
}

proof fn surplus_without_one(orders: Seq<RunOrder>, position: int)
    requires
        0 <= position < orders.len(),
    ensures
        surplus(orders) == surplus(orders.remove(position)) + contrast(orders[position]),
    decreases orders.len(),
{
    if position == orders.len() - 1 {
        assert(orders.remove(position) =~= orders.drop_last());
    } else {
        surplus_without_one(orders.drop_last(), position);
        assert(orders.remove(position).drop_last() =~= orders.drop_last().remove(position));
        assert(orders.remove(position).last() == orders.last());
    }
}

/// Arranging orders differently does not change how they balance.
proof fn surplus_of_arrangement(orders: Seq<RunOrder>, positions: Seq<int>)
    requires
        is_arrangement(positions, orders.len()),
    ensures
        surplus(arranged(orders, positions)) == surplus(orders),
    decreases orders.len(),
{
    if orders.len() == 0 {
        assert(arranged(orders, positions) =~= orders);
    } else {
        let last = positions.last();
        let fewer = orders.remove(last);
        let others = Seq::new(
            (positions.len() - 1) as nat,
            |i: int| if positions[i] < last { positions[i] } else { positions[i] - 1 },
        );
        assert forall|i: int, j: int| 0 <= i < others.len() && 0 <= j < others.len() && i != j
            implies others[i] != others[j] by {
            assert(positions[i] != positions[j]);
            assert(positions[i] != last && positions[j] != last) by {
                assert(positions[positions.len() - 1] == last);
            }
        }
        assert forall|i: int| 0 <= i < others.len() implies 0 <= #[trigger] others[i]
            < fewer.len() by {
            assert(positions[i] != last) by {
                assert(positions[positions.len() - 1] == last);
            }
            assert(0 <= positions[i] < orders.len());
        }
        surplus_of_arrangement(fewer, others);
        assert(arranged(fewer, others) =~= arranged(orders, positions).drop_last()) by {
            assert forall|i: int| 0 <= i < others.len() implies #[trigger] arranged(
                fewer,
                others,
            )[i] == arranged(orders, positions)[i] by {
                assert(positions[i] != last) by {
                    assert(positions[positions.len() - 1] == last);
                }
                assert(0 <= positions[i] < orders.len());
            }
        }
        surplus_without_one(orders, last);
    }
}

proof fn surplus_of_alternating(pairs: nat)
    ensures
        surplus(alternating(pairs)) == 0,
        alternating(pairs).len() == 2 * pairs,
    decreases pairs,
{
    if pairs > 0 {
        surplus_of_alternating((pairs - 1) as nat);
        let shorter = alternating((pairs - 1) as nat);
        let longer = shorter.push(RunOrder::BaselineFirst);
        assert(longer.drop_last() =~= shorter);
        assert(alternating(pairs).drop_last() =~= longer);
        assert(surplus(longer) == 1);
    }
}

/// The surplus and the number of baseline-first repetitions say the same.
pub proof fn surplus_counts(orders: Seq<RunOrder>)
    ensures
        surplus(orders) == 2 * baseline_firsts(orders) - orders.len(),
        balanced(orders) && orders.len() % 2 == 0 ==> baseline_firsts(orders) == orders.len() / 2,
    decreases orders.len(),
{
    if orders.len() > 0 {
        surplus_counts(orders.drop_last());
    }
}

proof fn odd_blocks_step(left: nat, block_size: nat)
    requires
        block_size > 0,
        left > 0,
    ensures
        odd_blocks(left, block_size) == odd_blocks(
            (left - next_size(left, block_size)) as nat,
            block_size,
        ) + next_size(left, block_size) % 2,
{
    if left < block_size {
        vstd::arithmetic::div_mod::lemma_small_mod(left, block_size);
        vstd::arithmetic::div_mod::lemma_basic_div(left as int, block_size as int);
        vstd::arithmetic::div_mod::lemma_small_mod(0, block_size);
        vstd::arithmetic::div_mod::lemma_basic_div(0, block_size as int);
        assert(0 * (block_size % 2) == 0) by (nonlinear_arith);
    } else {
        let rest = (left - block_size) as nat;
        vstd::arithmetic::div_mod::lemma_div_minus_one(left as int, block_size as int);
        vstd::arithmetic::div_mod::lemma_mod_sub_multiples_vanish(left as int, block_size as int);
        assert((rest / block_size + 1) * (block_size % 2) == (rest / block_size) * (block_size % 2)
            + block_size % 2) by (nonlinear_arith);
    }
}

proof fn odd_blocks_bounded(left: nat, block_size: nat)
    requires
        block_size > 0,
    ensures
        odd_blocks(left, block_size) <= left,
    decreases left,
{
    if left > 0 {
        odd_blocks_step(left, block_size);
        odd_blocks_bounded((left - next_size(left, block_size)) as nat, block_size);
    } else {
        vstd::arithmetic::div_mod::lemma_small_mod(0, block_size);
        vstd::arithmetic::div_mod::lemma_basic_div(0, block_size as int);
        assert(0 * (block_size % 2) == 0) by (nonlinear_arith);
    }
}

proof fn block_starts_apart(start: int, done: int, block_size: int)
    requires
        block_size > 0,
        0 <= start < done,
        start % block_size == 0,
        done % block_size == 0,
    ensures
        start + block_size <= done,
{
    let gap = done - start;
    vstd::arithmetic::div_mod::lemma_mod_sub_multiples_vanish(done, block_size);
    assert(gap % block_size == 0) by {
        vstd::arithmetic::div_mod::lemma_sub_mod_noop(done, start, block_size);
        vstd::arithmetic::div_mod::lemma_small_mod(0, block_size as nat);
    }
    if gap < block_size {
        vstd::arithmetic::div_mod::lemma_small_mod(gap as nat, block_size as nat);
    }
}

/// A balanced block behind balanced blocks leaves every block balanced.
proof fn blocks_stay_balanced(done: Seq<RunOrder>, block: Seq<RunOrder>, block_size: int)
    requires
        block_size > 0,
        blocks_balanced(done, block_size),
        done.len() % block_size as nat == 0,
        0 < block.len() <= block_size,
        balanced(block),
    ensures
        blocks_balanced(done + block, block_size),
{
    let orders = done + block;
    assert forall|start: int| 0 <= start < orders.len() && start % block_size == 0 implies balanced(
        #[trigger] orders.subrange(start, block_end(start, block_size, orders.len() as int)),
    ) by {
        if start < done.len() {
            block_starts_apart(start, done.len() as int, block_size);
            assert(orders.subrange(start, block_end(start, block_size, orders.len() as int))
                =~= done.subrange(start, block_end(start, block_size, done.len() as int)));
        } else if start == done.len() {
            assert(orders.subrange(start, block_end(start, block_size, orders.len() as int))
                =~= block);
        } else {
            block_starts_apart(done.len() as int, start, block_size);
        }
    }
}

proof fn alternating_takes_turns(pairs: nat)
    ensures
        alternating(pairs).len() == 2 * pairs,
        forall|i: int|
            0 <= i < 2 * pairs ==> #[trigger] alternating(pairs)[i] == if i % 2 == 0 {
                RunOrder::BaselineFirst
            } else {
                RunOrder::CandidateFirst
            },
    decreases pairs,
{
    if pairs > 0 {
        alternating_takes_turns((pairs - 1) as nat);
    }
}

/// The position of an item inside its block, once the first block is gone.
proof fn positions_shift(position: int, block_size: int)
    requires
        block_size > 0,
        position >= block_size,
    ensures
        (position - block_size) / block_size == position / block_size - 1,
        (position - block_size) % block_size == position % block_size,
        position / block_size >= 1,
        (position / block_size - 1) * block_size == (position / block_size) * block_size
            - block_size,
{
    vstd::arithmetic::div_mod::lemma_div_minus_one(position, block_size);
    vstd::arithmetic::div_mod::lemma_mod_sub_multiples_vanish(position, block_size);
    vstd::arithmetic::div_mod::lemma_div_pos_is_pos(position - block_size, block_size);
    assert((position / block_size - 1) * block_size == (position / block_size) * block_size
        - block_size) by (nonlinear_arith);
}

/// Where blocks are of odd size, the block at a position has a surplus order
/// unless it is a last one of even size.
proof fn odd_block_has_surplus(left: nat, block_size: nat, k: int)
    requires
        block_size % 2 == 1,
        0 <= k,
        k * block_size < left,
    ensures
        k < odd_blocks(left, block_size) || (left - k * block_size < block_size && (left - k
            * block_size) % 2 == 0),
{
    let whole = (left / block_size) as int;
    vstd::arithmetic::div_mod::lemma_fundamental_div_mod(left as int, block_size as int);
    vstd::arithmetic::div_mod::lemma_mod_bound(left as int, block_size as int);
    assert((left / block_size) * (block_size % 2) == whole) by (nonlinear_arith)
        requires
            block_size % 2 == 1,
            whole == left / block_size,
    ;
    if k > whole {
        assert(k * block_size >= (whole + 1) * block_size) by (nonlinear_arith)
            requires
                k >= whole + 1,
        ;
        assert((whole + 1) * block_size == block_size * whole + block_size) by (nonlinear_arith);
    } else if k == whole {
        assert(k * block_size == block_size * whole) by (nonlinear_arith)
            requires
                k == whole,
        ;
    }
}

#[verifier::rlimit(60)]
proof fn blocks_by_position(
    left: nat,
    block_size: nat,
    surpluses: Seq<RunOrder>,
    state: Seq<u64>,
) -> (states: spec_fn(int) -> Seq<u64>)
    requires
        block_size > 0,
        surpluses.len() >= odd_blocks(left, block_size),
        forall|before: Seq<u64>, len: nat| #[trigger]
            is_arrangement(shuffle_positions(before, len).0, len),
    ensures
        block_orders(left, block_size, surpluses, state).0.len() == left,
        states(0) == state,
        forall|k: int|
            0 <= k && k * block_size < left ==> states(k + 1) == shuffle_positions(
                #[trigger] states(k),
                if left - k * block_size < block_size {
                    (left - k * block_size) as nat
                } else {
                    block_size
                },
            ).1,
        forall|k: int|
            0 <= k && left <= k * block_size && (k == 0 || (k - 1) * block_size < left)
                ==> #[trigger] states(k) == block_orders(left, block_size, surpluses, state).1,
        forall|position: int|
            0 <= position < left ==> #[trigger] block_orders(
                left,
                block_size,
                surpluses,
                state,
            ).0[position] == ({
                let k = position / block_size as int;
                let size = if left - k * block_size < block_size {
                    (left - k * block_size) as nat
                } else {
                    block_size
                };
                let from = shuffle_positions(states(k), size).0[position % block_size as int];
                if from >= size - size % 2 {
                    surpluses[k * (block_size % 2)]
                } else if from % 2 == 0 {
                    RunOrder::BaselineFirst
                } else {
                    RunOrder::CandidateFirst
                }
            }),
    decreases left,
{
    let bs = block_size as int;
    if left == 0 {
        assert forall|k: int| 0 <= k implies #[trigger] (k * bs) >= 0 by {
            assert(0 <= k * bs) by (nonlinear_arith)
                requires
                    0 <= k,
                    bs > 0,
            ;
        }
        |k: int| state
    } else {
        let size = next_size(left, block_size);
        let base = unshuffled_block(size, surpluses);
        let positions = shuffle_positions(state, size).0;
        let next = shuffle_positions(state, size).1;
        let rest_left = (left - size) as nat;
        let others = surpluses.skip((size % 2) as int);
        alternating_takes_turns(size / 2);
        odd_blocks_step(left, block_size);
        assert(base.len() == size);
        assert(is_arrangement(positions, size));
        let later = blocks_by_position(rest_left, block_size, others, next);
        let rest = block_orders(rest_left, block_size, others, next).0;
        let orders = block_orders(left, block_size, surpluses, state).0;
        assert(orders == arranged(base, positions) + rest);
        let states = |k: int|
            if k == 0 {
                state
            } else {
                later(k - 1)
            };
        assert(0 * bs == 0) by (nonlinear_arith);
        assert forall|k: int| 0 <= k && k * block_size < left implies states(k + 1)
            == shuffle_positions(
            #[trigger] states(k),
            if left - k * block_size < block_size {
                (left - k * block_size) as nat
            } else {
                block_size
            },
        ).1 by {
            if k == 0 {
                assert(later(0) == next);
            } else {
                assert((k - 1) * bs == k * bs - bs) by (nonlinear_arith);
                assert(bs <= k * bs) by (nonlinear_arith)
                    requires
                        k >= 1,
                        bs > 0,
                ;
                assert(size == block_size);
                assert(later(k - 1 + 1) == shuffle_positions(
                    later(k - 1),
                    if rest_left - (k - 1) * block_size < block_size {
                        (rest_left - (k - 1) * block_size) as nat
                    } else {
                        block_size
                    },
                ).1);
            }
        }
        assert forall|k: int| 0 <= k && left <= k * block_size && (k == 0 || (k - 1) * block_size
            < left) implies #[trigger] states(k) == block_orders(
            left,
            block_size,
            surpluses,
            state,
        ).1 by {
            assert(k > 0);
            assert((k - 1) * bs == k * bs - bs) by (nonlinear_arith);
            assert((k - 2) * bs == k * bs - 2 * bs) by (nonlinear_arith);
            if size < block_size {
                if k > 1 {
                    assert(bs <= (k - 1) * bs) by (nonlinear_arith)
                        requires
                            k > 1,
                            bs > 0,
                    ;
                }
                assert(k == 1);
            }
            assert(rest_left <= (k - 1) * block_size);
            assert(k - 1 == 0 || (k - 1 - 1) * block_size < rest_left);
            assert(later(k - 1) == block_orders(rest_left, block_size, others, next).1);
        }
        assert forall|position: int| 0 <= position < left implies #[trigger] orders[position] == ({
            let k = position / block_size as int;
            let size = if left - k * block_size < block_size {
                (left - k * block_size) as nat
            } else {
                block_size
            };
            let from = shuffle_positions(states(k), size).0[position % block_size as int];
            if from >= size - size % 2 {
                surpluses[k * (block_size % 2)]
            } else if from % 2 == 0 {
                RunOrder::BaselineFirst
            } else {
                RunOrder::CandidateFirst
            }
        }) by {
            if position < size {
                vstd::arithmetic::div_mod::lemma_basic_div(position, bs);
                vstd::arithmetic::div_mod::lemma_small_mod(position as nat, block_size);
                assert(orders[position] == base[positions[position]]);
                assert(0 * (block_size % 2) == 0) by (nonlinear_arith);
            } else {
                assert(size == block_size);
                positions_shift(position, bs);
                let k = position / bs;
                vstd::arithmetic::div_mod::lemma_fundamental_div_mod(position, bs);
                vstd::arithmetic::div_mod::lemma_mod_bound(position, bs);
                assert(bs * k == k * bs) by (nonlinear_arith);
                let length = if left - k * block_size < block_size {
                    (left - k * block_size) as nat
                } else {
                    block_size
                };
                assert(position % bs < length);
                assert(is_arrangement(shuffle_positions(states(k), length).0, length));
                assert(shuffle_positions(states(k), length).0[position % bs] < length);
                assert(orders[position] == rest[position - bs]);
                assert((k - 1) * (block_size % 2) + block_size % 2 == k * (block_size % 2))
                    by (nonlinear_arith);
                assert(0 <= (k - 1) * (block_size % 2)) by (nonlinear_arith)
                    requires
                        k >= 1,
                ;
                if block_size % 2 == 0 {
                    assert(others =~= surpluses);
                    assert((k - 1) * 0 == 0 && k * 0 == 0);
                } else {
                    assert(k * 1 == k && (k - 1) * 1 == k - 1);
                    odd_block_has_surplus(left, block_size, k);
                }
                assert(states(k) == later(k - 1));
            }
        }
        states
    }
}

/// The order of every repetition is what its block's own shuffle makes it. A
/// block is taken before its shuffle as baseline-first and candidate-first
/// repetitions taking turns, and where its size is odd a surplus order behind
/// them. Block `k` is shuffled with the state that the blocks before it left,
/// and leaves the state that follows its shuffle. The surplus orders take turns
/// as well, a coin deciding on the last of an odd number of them, and are
/// shuffled before the first block.
pub proof fn every_block_is_shuffled(
    repetitions: nat,
    block_size: nat,
    state: Seq<u64>,
    orders: Seq<RunOrder>,
    end: Seq<u64>,
) -> (trace: (Seq<RunOrder>, spec_fn(int) -> Seq<u64>))
    requires
        block_size > 0,
        (orders, end) == schedule_orders(repetitions, block_size, state),
        forall|before: Seq<u64>, len: nat| #[trigger]
            is_arrangement(shuffle_positions(before, len).0, len),
    ensures
        orders.len() == repetitions,
        ({
            let odd = (repetitions / block_size) * (block_size % 2) + (repetitions % block_size) % 2;
            let (heads, flipped) = coin_flip(state);
            let before = if odd % 2 == 1 {
                flipped
            } else {
                state
            };
            let (positions, after) = shuffle_positions(before, odd);
            &&& trace.0.len() == odd
            &&& trace.1(0) == after
            &&& forall|i: int|
                0 <= i < odd ==> #[trigger] trace.0[i] == if odd % 2 == 1 && positions[i] == odd - 1 {
                    if heads {
                        RunOrder::BaselineFirst
                    } else {
                        RunOrder::CandidateFirst
                    }
                } else if positions[i] % 2 == 0 {
                    RunOrder::BaselineFirst
                } else {
                    RunOrder::CandidateFirst
                }
        }),
        forall|k: int|
            0 <= k && k * block_size < repetitions ==> trace.1(k + 1) == shuffle_positions(
                #[trigger] trace.1(k),
                if repetitions - k * block_size < block_size {
                    (repetitions - k * block_size) as nat
                } else {
                    block_size
                },
            ).1,
        forall|k: int|
            0 <= k && repetitions <= k * block_size && (k == 0 || (k - 1) * block_size
                < repetitions) ==> #[trigger] trace.1(k) == end,
        forall|position: int|
            0 <= position < repetitions ==> #[trigger] orders[position] == ({
                let k = position / block_size as int;
                let size = if repetitions - k * block_size < block_size {
                    (repetitions - k * block_size) as nat
                } else {
                    block_size
                };
                let from = shuffle_positions(trace.1(k), size).0[position % block_size as int];
                if from >= size - size % 2 {
                    trace.0[k * (block_size % 2)]
                } else if from % 2 == 0 {
                    RunOrder::BaselineFirst
                } else {
                    RunOrder::CandidateFirst
                }
            }),
{
    let odd = odd_blocks(repetitions, block_size);
    let (surpluses, next) = surplus_orders(odd, state);
    alternating_takes_turns(odd / 2);
    let before = if odd % 2 == 1 {
        coin_flip(state).1
    } else {
        state
    };
    assert(is_arrangement(shuffle_positions(before, odd).0, odd));
    let states = blocks_by_position(repetitions, block_size, surpluses, next);
    (surpluses, states)
}

/// As many baseline-first as candidate-first repetitions, taking turns.
fn take_turns(pairs: usize) -> (orders: Vec<RunOrder>)
    requires
        2 * pairs <= usize::MAX,
    ensures
        orders@ == alternating(pairs as nat),
{
    let mut orders: Vec<RunOrder> = Vec::new();
    let mut done: usize = 0;
    while done < pairs
        invariant
            done <= pairs,
            orders@ == alternating(done as nat),
        decreases pairs - done,
    {
        orders.push(RunOrder::BaselineFirst);
        orders.push(RunOrder::CandidateFirst);
        done += 1;
    }
    orders
}

impl RunOrder {
    /// The side that runs first.
    pub open spec fn first_side(self) -> Side {
        match self {
            RunOrder::BaselineFirst => Side::Baseline,
            RunOrder::CandidateFirst => Side::Candidate,
        }
    }

    /// The side that runs second.
    pub open spec fn second_side(self) -> Side {
        match self {
            RunOrder::BaselineFirst => Side::Candidate,
            RunOrder::CandidateFirst => Side::Baseline,
        }
    }

    /// The two sides in the order in which they run.
    pub fn sides(self) -> (sides: (Side, Side))
        ensures
            sides == (self.first_side(), self.second_side()),
            self is BaselineFirst ==> sides == (Side::Baseline, Side::Candidate),
            self is CandidateFirst ==> sides == (Side::Candidate, Side::Baseline),
    {
        match self {
            RunOrder::BaselineFirst => (Side::Baseline, Side::Candidate),
            RunOrder::CandidateFirst => (Side::Candidate, Side::Baseline),
        }
    }

    /// Effect coding of the order contrast that the regressions use.
    pub fn effect_code(self) -> (code: i8)
        ensures
            code == contrast(self),
            self is BaselineFirst ==> code == 1,
            self is CandidateFirst ==> code == -1,
    {
        match self {
            RunOrder::CandidateFirst => -1,
            RunOrder::BaselineFirst => 1,
        }
    }

    /// Draws the run orders of a number of repetitions, block by block.
    pub fn schedule(
        repetitions: usize,
        block_size: usize,
        generator: &mut Xoshiro256PlusPlus,
    ) -> (orders: Vec<RunOrder>)
        requires
            block_size > 0,
        ensures
            (orders@, generator_state(*final(generator))) == schedule_orders(
                repetitions as nat,
                block_size as nat,
                generator_state(*old(generator)),
            ),
            orders@.len() == repetitions,
            balanced(orders@),
            blocks_balanced(orders@, block_size as int),
    {
        let full_blocks = repetitions / block_size;
        let remainder = repetitions % block_size;
        let ghost start = generator_state(*generator);
        proof {
            odd_blocks_bounded(repetitions as nat, block_size as nat);
            assert(full_blocks * (block_size % 2) <= full_blocks * 1) by (nonlinear_arith);
            vstd::arithmetic::div_mod::lemma_div_is_ordered_by_denominator(
                repetitions as int,
                1,
                block_size as int,
            );
            assert(0 <= full_blocks * (block_size % 2)) by (nonlinear_arith);
        }
        let odd: usize = full_blocks * (block_size % 2) + remainder % 2;
        assert(odd == odd_blocks(repetitions as nat, block_size as nat));
        let mut surpluses = take_turns(odd / 2);
        proof {
            surplus_of_alternating((odd / 2) as nat);
        }
        if odd % 2 == 1 {
            let heads = generator::flip(generator);
            let order = if heads {
                RunOrder::BaselineFirst
            } else {
                RunOrder::CandidateFirst
            };
            let ghost even = surpluses@;
            surpluses.push(order);
            assert(surpluses@.drop_last() =~= even);
        }
        let ghost unshuffled = surpluses@;
        let ghost before = generator_state(*generator);
        generator::shuffle(&mut surpluses, generator);
        proof {
            surplus_of_arrangement(unshuffled, shuffle_positions(before, unshuffled.len()).0);
            assert((surpluses@, generator_state(*generator)) == surplus_orders(odd as nat, start));
        }
        let ghost middle = generator_state(*generator);
        let mut used: usize = 0;
        let mut orders: Vec<RunOrder> = Vec::new();
        proof {
            assert(surpluses@.skip(0) =~= surpluses@);
            assert(surpluses@.take(0) =~= Seq::<RunOrder>::empty());
            assert(orders@ + block_orders(
                repetitions as nat,
                block_size as nat,
                surpluses@,
                middle,
            ).0 =~= block_orders(repetitions as nat, block_size as nat, surpluses@, middle).0);
            vstd::arithmetic::div_mod::lemma_small_mod(0, block_size as nat);
        }
        while orders.len() < repetitions
            invariant
                block_size > 0,
                orders@.len() <= repetitions,
                orders@.len() < repetitions ==> orders@.len() % block_size as nat == 0,
                used <= surpluses@.len(),
                surpluses@.len() - used == odd_blocks(
                    (repetitions - orders@.len()) as nat,
                    block_size as nat,
                ),
                surplus(orders@) == surplus(surpluses@.take(used as int)),
                blocks_balanced(orders@, block_size as int),
                ({
                    let (all, end) = block_orders(
                        repetitions as nat,
                        block_size as nat,
                        surpluses@,
                        middle,
                    );
                    let (rest, rest_end) = block_orders(
                        (repetitions - orders@.len()) as nat,
                        block_size as nat,
                        surpluses@.skip(used as int),
                        generator_state(*generator),
                    );
                    all == orders@ + rest && end == rest_end
                }),
            decreases repetitions - orders.len(),
        {
            let left = repetitions - orders.len();
            let size: usize = if left < block_size { left } else { block_size };
            let ghost now = generator_state(*generator);
            let ghost unused = surpluses@.skip(used as int);
            let ghost done = orders@;
            proof {
                odd_blocks_step(left as nat, block_size as nat);
                surplus_of_alternating((size / 2) as nat);
            }
            let mut block = take_turns(size / 2);
            let ghost even = block@;
            let ghost taken = surpluses@.take(used as int);
            if size % 2 == 1 {
                assert(used < surpluses.len());
                block.push(surpluses[used]);
                used += 1;
                assert(block@.drop_last() =~= even);
                assert(surpluses@.take(used as int).drop_last() =~= taken);
            }
            assert(block@ == unshuffled_block(size as nat, unused));
            assert(surpluses@.skip(used as int) =~= unused.skip((size % 2) as int));
            let ghost unshuffled = block@;
            generator::shuffle(&mut block, generator);
            proof {
                surplus_of_arrangement(unshuffled, shuffle_positions(now, unshuffled.len()).0);
                assert((block@, generator_state(*generator)) == shuffled(unshuffled, now));
                blocks_stay_balanced(done, block@, block_size as int);
                surplus_of_concatenation(done, block@);
            }
            let ghost added = block@;
            orders.append(&mut block);
            proof {
                assert(orders@ == done + added);
                if size == block_size {
                    vstd::arithmetic::div_mod::lemma_mod_add_multiples_vanish(
                        done.len() as int,
                        block_size as int,
                    );
                }
                let rest = block_orders(
                    (left - size) as nat,
                    block_size as nat,
                    surpluses@.skip(used as int),
                    generator_state(*generator),
                );
                assert(done + (added + rest.0) =~= orders@ + rest.0);
            }
        }
        proof {
            vstd::arithmetic::div_mod::lemma_small_mod(0, block_size as nat);
            vstd::arithmetic::div_mod::lemma_basic_div(0, block_size as int);
            assert(0 * (block_size % 2) == 0) by (nonlinear_arith);
            assert(surpluses@.take(used as int) =~= surpluses@);
            assert(orders@ + Seq::<RunOrder>::empty() =~= orders@);
        }
        orders
    }
}

/// The run orders of one benchmark of a suite. The suite seed alone decides
/// them, so each benchmark of a suite, and each repeat of it, starts from the
/// same stream.
pub fn suite_schedule(seed: u64, repetitions: usize, block_size: usize) -> (orders: Vec<RunOrder>)
    requires
        block_size > 0,
    ensures
        orders@ == schedule_orders(
            repetitions as nat,
            block_size as nat,
            seeded_state(seed ^ SCHEDULE),
        ).0,
        orders@ == schedule_orders(
            repetitions as nat,
            block_size as nat,
            seeded_state(seed ^ 0x7363_6865_6475_6c65),
        ).0,
        orders@.len() == repetitions,
        balanced(orders@),
        blocks_balanced(orders@, block_size as int),
{
    let mut generator = generator::seeded(seed::schedule(seed));
    RunOrder::schedule(repetitions, block_size, &mut generator)
}

/// Baseline and candidate measured back to back, in a known order.
#[derive(Clone, Copy, Debug, PartialEq)]
pub struct Repetition<T> {
    pub outputs: Pair<T>,
    pub order: RunOrder,
}

/// Why repetitions cannot be analyzed.
#[derive(Clone, Copy, Debug, PartialEq, Eq, Structural)]
pub enum RepetitionsError {
    TooFew { count: usize },
    MissingOrder,
}

/// The fewest repetitions that an analysis accepts.
pub const MINIMUM_REPETITIONS: usize = 10;

impl RepetitionsError {
    /// What is said of the error.
    pub fn message(self) -> (text: String)
        ensures
            text@ == (match self {
                RepetitionsError::TooFew { count } => "At least "@ + decimal_text(
                    MINIMUM_REPETITIONS as nat,
                ) + " repetitions are required, got "@ + decimal_text(count as nat) + "."@,
                RepetitionsError::MissingOrder => "Both run orders are required."@,
            }),
            self matches RepetitionsError::TooFew { count } ==> text@ == "At least "@
                + decimal_text(10) + " repetitions are required, got "@ + decimal_text(count as nat)
                + "."@,
    {
        match self {
            RepetitionsError::TooFew { count } => "At least ".to_owned().concat(
                decimal(MINIMUM_REPETITIONS as u64).as_str(),
            ).concat(" repetitions are required, got ").concat(
                decimal(count as u64).as_str(),
            ).concat("."),
            RepetitionsError::MissingOrder => "Both run orders are required.".to_owned(),
        }
    }
}

/// A validated set of paired repetitions.
pub struct Repetitions<T> {
    repetitions: Vec<Repetition<T>>,
}

/// Whether some repetition ran in an order.
pub open spec fn has_order<T>(repetitions: Seq<Repetition<T>>, order: RunOrder) -> bool {
    exists|i: int| 0 <= i < repetitions.len() && (#[trigger] repetitions[i]).order == order
}

impl<T> View for Repetitions<T> {
    type V = Seq<Repetition<T>>;

    closed spec fn view(&self) -> Seq<Repetition<T>> {
        self.repetitions@
    }
}

impl<T> Repetitions<T> {
    /// The fewest repetitions that an analysis accepts.
    pub const MINIMUM: usize = MINIMUM_REPETITIONS;

    #[verifier::type_invariant]
    closed spec fn valid(self) -> bool {
        &&& self.repetitions@.len() >= MINIMUM_REPETITIONS
        &&& has_order(self.repetitions@, RunOrder::BaselineFirst)
        &&& has_order(self.repetitions@, RunOrder::CandidateFirst)
    }

    /// Accepts repetitions that are many enough and ran in both orders.
    pub fn try_from(repetitions: Vec<Repetition<T>>) -> (result: Result<
        Repetitions<T>,
        RepetitionsError,
    >)
        ensures
            match result {
                Ok(valid) => {
                    &&& valid@ == repetitions@
                    &&& repetitions@.len() >= MINIMUM_REPETITIONS
                    &&& has_order(repetitions@, RunOrder::BaselineFirst)
                    &&& has_order(repetitions@, RunOrder::CandidateFirst)
                },
                Err(RepetitionsError::TooFew { count }) => {
                    &&& count == repetitions@.len()
                    &&& count < MINIMUM_REPETITIONS
                },
                Err(RepetitionsError::MissingOrder) => {
                    &&& repetitions@.len() >= MINIMUM_REPETITIONS
                    &&& !(has_order(repetitions@, RunOrder::BaselineFirst) && has_order(
                        repetitions@,
                        RunOrder::CandidateFirst,
                    ))
                },
            },
            result is Ok <==> {
                &&& repetitions@.len() >= 10
                &&& exists|i: int|
                    0 <= i < repetitions@.len() && (
                    #[trigger] repetitions@[i]).order is BaselineFirst
                &&& exists|i: int|
                    0 <= i < repetitions@.len() && (
                    #[trigger] repetitions@[i]).order is CandidateFirst
            },
            result matches Err(error) ==> (error is TooFew <==> repetitions@.len() < 10),
    {
        if repetitions.len() < MINIMUM_REPETITIONS {
            return Err(RepetitionsError::TooFew { count: repetitions.len() });
        }
        let mut baseline_first = false;
        let mut candidate_first = false;
        let mut position: usize = 0;
        while position < repetitions.len()
            invariant
                position <= repetitions@.len(),
                baseline_first == has_order(
                    repetitions@.take(position as int),
                    RunOrder::BaselineFirst,
                ),
                candidate_first == has_order(
                    repetitions@.take(position as int),
                    RunOrder::CandidateFirst,
                ),
            decreases repetitions@.len() - position,
        {
            let ghost shorter = repetitions@.take(position as int);
            let ghost longer = repetitions@.take(position as int + 1);
            assert(forall|i: int| 0 <= i < position ==> longer[i] == #[trigger] shorter[i]);
            assert(longer[position as int] == repetitions@[position as int]);
            match repetitions[position].order {
                RunOrder::BaselineFirst => {
                    baseline_first = true;
                },
                RunOrder::CandidateFirst => {
                    candidate_first = true;
                },
            }
            position += 1;
            assert forall|order: RunOrder| #[trigger]
                has_order(longer, order) == (has_order(shorter, order) || repetitions@[position
                - 1].order == order) by {
                if has_order(longer, order) {
                    let i = choose|i: int|
                        0 <= i < longer.len() && (#[trigger] longer[i]).order == order;
                    if i < shorter.len() {
                        assert(shorter[i].order == order);
                    }
                }
                if has_order(shorter, order) {
                    let i = choose|i: int|
                        0 <= i < shorter.len() && (#[trigger] shorter[i]).order == order;
                    assert(longer[i].order == order);
                }
            }
        }
        assert(repetitions@.take(position as int) =~= repetitions@);
        if !baseline_first || !candidate_first {
            return Err(RepetitionsError::MissingOrder);
        }
        Ok(Repetitions { repetitions })
    }

    /// How many repetitions there are, at least the minimum.
    pub fn len(&self) -> (count: usize)
        ensures
            count == self@.len(),
            count >= MINIMUM_REPETITIONS,
            count >= 10,
    {
        proof {
            use_type_invariant(self);
        }
        self.repetitions.len()
    }

    /// One repetition by its position.
    pub fn get(&self, position: usize) -> (repetition: &Repetition<T>)
        requires
            position < self@.len(),
        ensures
            *repetition == self@[position as int],
    {
        &self.repetitions[position]
    }
}

} // verus!
