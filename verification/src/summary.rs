//! Credible intervals and the quantiles that they are read from.

use crate::metric::Metric;
use crate::posterior::Draw;
use crate::scalar::{Scalar, ONE};
use vstd::prelude::*;
use vstd::std_specs::cmp::PartialEqSpec;

verus! {

/// Width of a central credible interval, strictly between 0 and 1.
#[derive(Clone, Copy, Debug)]
pub struct Interval {
    width: Scalar,
}

impl PartialEq for Interval {
    fn eq(&self, other: &Interval) -> (answer: bool) {
        self.width == other.width
    }
}

impl vstd::std_specs::cmp::PartialEqSpecImpl for Interval {
    open spec fn obeys_eq_spec() -> bool {
        true
    }

    open spec fn eq_spec(&self, other: &Interval) -> bool {
        self@.equals(other@)
    }
}

/// A width that is not between 0 and 1.
#[derive(Clone, Copy, Debug, PartialEq)]
pub struct InvalidInterval {
    pub width: Scalar,
}

impl InvalidInterval {
    /// What is said of the width, as it is shown.
    pub fn message(&self, shown: &str) -> (text: String)
        ensures
            text@ == "Interval width must be between 0 and 1, got "@ + shown@ + "."@,
    {
        "Interval width must be between 0 and 1, got ".to_owned().concat(shown).concat(".")
    }
}

/// Whether a number lies strictly between 0 and 1.
pub open spec fn proper_fraction(number: Scalar) -> bool {
    number.finite() && 0 < number.units() < (Scalar { bits: ONE }).units()
}

impl View for Interval {
    type V = Scalar;

    closed spec fn view(&self) -> Scalar {
        self.width
    }
}

impl Interval {
    #[verifier::type_invariant]
    closed spec fn valid(self) -> bool {
        proper_fraction(self.width)
    }

    /// Accepts a width strictly between 0 and 1.
    pub fn new(width: Scalar) -> (result: Result<Interval, InvalidInterval>)
        ensures
            match result {
                Ok(interval) => interval@ == width && proper_fraction(width),
                Err(error) => error.width == width && !proper_fraction(width),
            },
            result is Ok <==> 0 < width.bits < 0x3FF0_0000_0000_0000,
    {
        let zero = Scalar { bits: 0 };
        let one = Scalar { bits: ONE };
        proof {
            crate::scalar::units_follow_position(zero, width);
            crate::scalar::units_follow_position(width, one);
        }
        if zero.is_below(width) && width.is_below(one) {
            Ok(Interval { width })
        } else {
            Err(InvalidInterval { width })
        }
    }

    /// The width.
    pub fn get(self) -> (width: Scalar)
        ensures
            width == self@,
            proper_fraction(width),
    {
        proof {
            use_type_invariant(&self);
        }
        self.width
    }
}

/// A lower and an upper value.
#[derive(Clone, Copy, Debug)]
pub struct Range<T> {
    pub lower: T,
    pub upper: T,
}

impl<T: PartialEq> PartialEq for Range<T> {
    fn eq(&self, other: &Range<T>) -> (answer: bool) {
        self.lower == other.lower && self.upper == other.upper
    }
}

impl<T: PartialEq> vstd::std_specs::cmp::PartialEqSpecImpl for Range<T> {
    open spec fn obeys_eq_spec() -> bool {
        <T as PartialEqSpec>::obeys_eq_spec()
    }

    open spec fn eq_spec(&self, other: &Range<T>) -> bool {
        PartialEqSpec::eq_spec(&self.lower, &other.lower) && PartialEqSpec::eq_spec(&self.upper, &other.upper)
    }
}

impl<T> Range<T> {
    /// Converts both ends.
    pub fn map<U, F: Fn(T) -> U>(self, convert: F) -> (range: Range<U>)
        requires
            convert.requires((self.lower,)),
            convert.requires((self.upper,)),
        ensures
            convert.ensures((self.lower,), range.lower),
            convert.ensures((self.upper,), range.upper),
    {
        Range { lower: convert(self.lower), upper: convert(self.upper) }
    }
}

/// The bounds of a change at one interval width.
#[derive(Clone, Copy, Debug)]
pub struct ChangeBounds<M> {
    pub interval: Interval,
    pub absolute: Range<M>,
    pub relative: Option<Range<Scalar>>,
}

impl<M: PartialEq> PartialEq for ChangeBounds<M> {
    fn eq(&self, other: &ChangeBounds<M>) -> (answer: bool) {
        self.interval == other.interval && self.absolute == other.absolute && self.relative
            == other.relative
    }
}

impl<M: PartialEq> vstd::std_specs::cmp::PartialEqSpecImpl for ChangeBounds<M> {
    open spec fn obeys_eq_spec() -> bool {
        <M as PartialEqSpec>::obeys_eq_spec()
    }

    open spec fn eq_spec(&self, other: &ChangeBounds<M>) -> bool {
        &&& PartialEqSpec::eq_spec(&self.interval, &other.interval)
        &&& PartialEqSpec::eq_spec(&self.absolute, &other.absolute)
        &&& PartialEqSpec::eq_spec(&self.relative, &other.relative)
    }
}

/// The change from the baseline to the candidate.
#[derive(Clone, Debug)]
pub struct Change<M> {
    pub absolute_median: M,
    pub relative_median: Option<Scalar>,
    pub intervals: Vec<ChangeBounds<M>>,
}

/// Whether two lists of bounds are equal, one by one.
pub open spec fn bounds_equal<M: PartialEq>(
    one: Seq<ChangeBounds<M>>,
    other: Seq<ChangeBounds<M>>,
) -> bool {
    &&& one.len() == other.len()
    &&& forall|i: int|
        0 <= i < one.len() ==> PartialEqSpec::eq_spec(&(#[trigger] one[i]), &other[i])
}

fn are_bounds_equal<M: PartialEq>(
    one: &Vec<ChangeBounds<M>>,
    other: &Vec<ChangeBounds<M>>,
) -> (answer: bool)
    ensures
        <M as PartialEqSpec>::obeys_eq_spec() ==> answer == bounds_equal(one@, other@),
{
    if one.len() != other.len() {
        return false;
    }
    for i in 0..one.len()
        invariant
            one@.len() == other@.len(),
            <M as PartialEqSpec>::obeys_eq_spec() ==> forall|j: int|
                0 <= j < i ==> PartialEqSpec::eq_spec(&(#[trigger] one@[j]), &other@[j]),
    {
        if one[i] != other[i] {
            return false;
        }
    }
    true
}

impl<M: PartialEq> PartialEq for Change<M> {
    fn eq(&self, other: &Change<M>) -> (answer: bool) {
        self.absolute_median == other.absolute_median && self.relative_median
            == other.relative_median && are_bounds_equal(&self.intervals, &other.intervals)
    }
}

impl<M: PartialEq> vstd::std_specs::cmp::PartialEqSpecImpl for Change<M> {
    open spec fn obeys_eq_spec() -> bool {
        <M as PartialEqSpec>::obeys_eq_spec()
    }

    open spec fn eq_spec(&self, other: &Change<M>) -> bool {
        &&& PartialEqSpec::eq_spec(&self.absolute_median, &other.absolute_median)
        &&& PartialEqSpec::eq_spec(&self.relative_median, &other.relative_median)
        &&& bounds_equal(self.intervals@, other.intervals@)
    }
}

/// What a posterior says of the two sides and of the change between them.
#[derive(Clone, Debug)]
pub struct Summary<M> {
    pub baseline: M,
    pub candidate: M,
    pub change: Change<M>,
    pub probability_candidate_lower: Scalar,
    pub draws: usize,
}

impl<M: PartialEq> PartialEq for Summary<M> {
    fn eq(&self, other: &Summary<M>) -> (answer: bool) {
        self.baseline == other.baseline && self.candidate == other.candidate && self.change
            == other.change && self.probability_candidate_lower
            == other.probability_candidate_lower && self.draws == other.draws
    }
}

impl<M: PartialEq> vstd::std_specs::cmp::PartialEqSpecImpl for Summary<M> {
    open spec fn obeys_eq_spec() -> bool {
        <M as PartialEqSpec>::obeys_eq_spec()
    }

    open spec fn eq_spec(&self, other: &Summary<M>) -> bool {
        &&& PartialEqSpec::eq_spec(&self.baseline, &other.baseline)
        &&& PartialEqSpec::eq_spec(&self.candidate, &other.candidate)
        &&& PartialEqSpec::eq_spec(&self.change, &other.change)
        &&& self.probability_candidate_lower.equals(other.probability_candidate_lower)
        &&& self.draws == other.draws
    }
}

/// A quantile that a summary asks for: the median, or an end of a central
/// interval.
#[derive(Clone, Copy, Debug)]
pub enum Level {
    Median,
    Lower(Interval),
    Upper(Interval),
}

/// Whether `locate` finds each quantile between two values of a series, however
/// long the series is.
pub open spec fn locates<L: Fn(usize, Level) -> (usize, usize, Scalar)>(locate: L) -> bool {
    &&& forall|len: usize, level: Level| len > 0 ==> #[trigger] locate.requires((len, level))
    &&& forall|len: usize, level: Level, found: (usize, usize, Scalar)|
        #[trigger] locate.ensures((len, level), found) && len > 0 ==> found.0 < len && found.1 < len
}

/// Whether a value is a quantile of an ordered series: `locate` says for the
/// length of a series which two values the quantile lies between and where
/// between them. The quantile is that value where both are the same one, else
/// `blend` gives it.
pub open spec fn is_quantile<
    L: Fn(usize, Level) -> (usize, usize, Scalar),
    B: Fn(Scalar, Scalar, Scalar) -> Scalar,
>(values: Seq<Scalar>, level: Level, locate: L, blend: B, value: Scalar) -> bool {
    exists|found: (usize, usize, Scalar)|
        {
            &&& #[trigger] locate.ensures((values.len() as usize, level), found)
            &&& if found.0 == found.1 {
                value == values[found.0 as int]
            } else {
                blend.ensures((values[found.0 as int], values[found.1 as int], found.2), value)
            }
        }
}

/// Whether the first `count` values of a series are those below a threshold.
pub open spec fn splits(values: Seq<Scalar>, threshold: Scalar, count: int) -> bool {
    &&& 0 <= count <= values.len()
    &&& forall|i: int|
        0 <= i < values.len() ==> ((#[trigger] values[i]).below(threshold) <==> i < count)
}

/// Why a posterior series has no quantiles.
#[derive(Clone, Copy, Debug, PartialEq, Eq, Structural)]
pub enum QuantilesError {
    Empty,
    NotANumber,
}

impl QuantilesError {
    /// What is said of the error.
    pub fn message(self) -> (text: &'static str)
        ensures
            text@ == (match self {
                QuantilesError::Empty => "Posterior is empty."@,
                QuantilesError::NotANumber => "Posterior contains NaN."@,
            }),
    {
        match self {
            QuantilesError::Empty => "Posterior is empty.",
            QuantilesError::NotANumber => "Posterior contains NaN.",
        }
    }
}

/// Whether some value of a series is not a number.
pub open spec fn holds_nan(values: Seq<Scalar>) -> bool {
    exists|i: int| 0 <= i < values.len() && (#[trigger] values[i]).nan()
}

/// Whether a series is in the total order of numbers.
pub open spec fn in_order(values: Seq<Scalar>) -> bool {
    forall|i: int, j: int|
        0 <= i <= j < values.len() ==> (#[trigger] values[i]).total_rank() <= (
        #[trigger] values[j]).total_rank()
}

/// The ranks of a series.
pub open spec fn ranks(values: Seq<Scalar>) -> Seq<i64> {
    Seq::new(values.len(), |i: int| values[i].total_rank() as i64)
}

/// `<[i64]>::sort` puts numbers in ascending order and keeps each of them.
#[verifier::external_body]
fn sort_ranks(ranks: &mut Vec<i64>)
    ensures
        final(ranks)@.to_multiset() == old(ranks)@.to_multiset(),
        forall|i: int, j: int|
            0 <= i <= j < final(ranks)@.len() ==> final(ranks)@[i] <= final(ranks)@[j],
{
    ranks.sort()
}

/// One posterior series in order, so that a quantile is a lookup. It is never
/// empty and holds numbers only.
pub struct Quantiles {
    values: Vec<Scalar>,
}

impl View for Quantiles {
    type V = Seq<Scalar>;

    closed spec fn view(&self) -> Seq<Scalar> {
        self.values@
    }
}

/// Ranks occur as often as the values that have them.
proof fn rank_counts(values: Seq<Scalar>, value: Scalar)
    ensures
        ranks(values).to_multiset().count(value.total_rank() as i64)
            == values.to_multiset().count(value),
    decreases values.len(),
{
    broadcast use vstd::seq_lib::group_to_multiset_ensures;

    if values.len() == 0 {
        assert(ranks(values) =~= Seq::<i64>::empty());
    } else {
        let shorter = values.drop_last();
        rank_counts(shorter, value);
        assert(values =~= shorter.push(values.last()));
        assert(ranks(values) =~= ranks(shorter).push(values.last().total_rank() as i64));
        crate::scalar::total_rank_is_injective(values.last(), value);
    }
}

/// Series whose ranks are the same items hold the same values.
proof fn ranks_tell_values(one: Seq<Scalar>, other: Seq<Scalar>)
    requires
        ranks(one).to_multiset() == ranks(other).to_multiset(),
    ensures
        one.to_multiset() == other.to_multiset(),
        one.len() == other.len(),
{
    broadcast use vstd::seq_lib::group_to_multiset_ensures;

    assert forall|value: Scalar| one.to_multiset().count(value) == other.to_multiset().count(
        value,
    ) by {
        rank_counts(one, value);
        rank_counts(other, value);
    }
    assert(one.to_multiset() =~= other.to_multiset());
    vstd::seq_lib::to_multiset_len(one);
    vstd::seq_lib::to_multiset_len(other);
}

impl Quantiles {
    #[verifier::type_invariant]
    closed spec fn valid(self) -> bool {
        &&& self.values@.len() > 0
        &&& in_order(self.values@)
        &&& !holds_nan(self.values@)
    }

    /// Puts a series in order; one that is empty or holds a value that is not
    /// a number is refused.
    pub fn new(values: Vec<Scalar>) -> (result: Result<Quantiles, QuantilesError>)
        ensures
            match result {
                Ok(quantiles) => {
                    &&& values@.len() > 0
                    &&& !holds_nan(values@)
                    &&& quantiles@.to_multiset() == values@.to_multiset()
                    &&& quantiles@.len() == values@.len()
                    &&& in_order(quantiles@)
                    &&& !holds_nan(quantiles@)
                },
                Err(QuantilesError::Empty) => values@.len() == 0,
                Err(QuantilesError::NotANumber) => values@.len() > 0 && holds_nan(values@),
            },
            result is Ok <==> values@.len() > 0 && forall|i: int|
                0 <= i < values@.len() ==> !(#[trigger] values@[i]).nan(),
            result matches Ok(quantiles) ==> forall|i: int, j: int|
                0 <= i <= j < quantiles@.len() ==> (#[trigger] quantiles@[i]).total_rank() <= (
                #[trigger] quantiles@[j]).total_rank(),
    {
        if values.len() == 0 {
            return Err(QuantilesError::Empty);
        }
        let mut sorted: Vec<i64> = Vec::new();
        let mut position: usize = 0;
        while position < values.len()
            invariant
                position <= values@.len(),
                forall|i: int| 0 <= i < position ==> !(#[trigger] values@[i]).nan(),
                sorted@ == ranks(values@.take(position as int)),
            decreases values@.len() - position,
        {
            if values[position].is_nan() {
                assert(values@[position as int].nan());
                return Err(QuantilesError::NotANumber);
            }
            sorted.push(values[position].rank());
            position += 1;
            assert(sorted@ =~= ranks(values@.take(position as int)));
        }
        assert(values@.take(position as int) =~= values@);
        sort_ranks(&mut sorted);
        let mut ordered: Vec<Scalar> = Vec::new();
        let mut done: usize = 0;
        while done < sorted.len()
            invariant
                done <= sorted@.len(),
                ordered@.len() == done,
                forall|i: int| 0 <= i < done ==> (#[trigger] ordered@[i]).total_rank() == sorted@[i],
            decreases sorted@.len() - done,
        {
            ordered.push(Scalar::from_rank(sorted[done]));
            done += 1;
        }
        proof {
            broadcast use vstd::seq_lib::group_to_multiset_ensures;

            assert(ranks(ordered@) =~= sorted@);
            ranks_tell_values(ordered@, values@);
            if holds_nan(ordered@) {
                let i = choose|i: int| 0 <= i < ordered@.len() && (#[trigger] ordered@[i]).nan();
                assert(ordered@.contains(ordered@[i]));
                assert(values@.to_multiset().count(ordered@[i]) > 0);
                assert(values@.contains(ordered@[i]));
            }
            assert(in_order(ordered@));
        }
        Ok(Quantiles { values: ordered })
    }

    /// How many values the series has.
    pub fn len(&self) -> (count: usize)
        ensures
            count == self@.len(),
            count > 0,
    {
        proof {
            use_type_invariant(self);
        }
        self.values.len()
    }

    /// The value at a position of the ordered series.
    pub fn value(&self, position: usize) -> (value: Scalar)
        requires
            position < self@.len(),
        ensures
            value == self@[position as int],
    {
        self.values[position]
    }

    /// A quantile of the series, as `locate` and `blend` compute it.
    pub fn at<
        L: Fn(usize, Level) -> (usize, usize, Scalar),
        B: Fn(Scalar, Scalar, Scalar) -> Scalar,
    >(&self, level: Level, locate: L, blend: B) -> (value: Scalar)
        requires
            locates(locate),
            forall|lower: Scalar, upper: Scalar, part: Scalar| #[trigger]
                blend.requires((lower, upper, part)),
        ensures
            is_quantile(self@, level, locate, blend, value),
    {
        proof {
            use_type_invariant(self);
        }
        let len: usize = self.values.len();
        let found = locate(len, level);
        assert(locate.ensures((self@.len() as usize, level), found));
        let lower = self.values[found.0];
        if found.0 == found.1 {
            lower
        } else {
            blend(lower, self.values[found.1], found.2)
        }
    }

    /// How many values are below a threshold: the first so many of the series.
    pub fn count_below(&self, threshold: Scalar) -> (count: usize)
        ensures
            splits(self@, threshold, count as int),
            count <= self@.len(),
            forall|i: int| 0 <= i < count ==> (#[trigger] self@[i]).below(threshold),
            forall|i: int| count <= i < self@.len() ==> !(#[trigger] self@[i]).below(threshold),
    {
        proof {
            use_type_invariant(self);
        }
        let mut low: usize = 0;
        let mut high: usize = self.values.len();
        while low < high
            invariant
                in_order(self.values@),
                !holds_nan(self.values@),
                low <= high <= self.values@.len(),
                forall|i: int| 0 <= i < low ==> (#[trigger] self.values@[i]).below(threshold),
                forall|i: int|
                    high <= i < self.values@.len() ==> !(#[trigger] self.values@[i]).below(
                        threshold,
                    ),
            decreases high - low,
        {
            let middle: usize = low + (high - low) / 2;
            let ghost pivot = self.values@[middle as int];
            if self.values[middle].is_below(threshold) {
                assert forall|i: int| 0 <= i <= middle implies (#[trigger] self.values@[i]).below(
                    threshold,
                ) by {
                    assert(self.values@[i].total_rank() <= pivot.total_rank());
                    assert(!self.values@[i].nan());
                }
                low = middle + 1;
            } else {
                assert forall|i: int| middle <= i < self.values@.len() implies !(
                #[trigger] self.values@[i]).below(threshold) by {
                    assert(pivot.total_rank() <= self.values@[i].total_rank());
                    assert(!pivot.nan());
                }
                high = middle;
            }
        }
        low
    }
}

/// The base values of one side of the draws.
pub open spec fn side_values<M: Metric>(draws: Seq<Draw<M>>, baseline: bool) -> Seq<Scalar> {
    Seq::new(
        draws.len(),
        |i: int|
            if baseline {
                draws[i].baseline.base_value()
            } else {
                draws[i].candidate.base_value()
            },
    )
}

/// Whether every draw has a baseline to relate its change to.
pub open spec fn has_relative<M: Metric>(draws: Seq<Draw<M>>) -> bool {
    forall|i: int| 0 <= i < draws.len() ==> (#[trigger] draws[i]).baseline.base_value().position() != 0
}

/// The ordered series that a summary of draws is read from.
pub struct Series {
    pub baseline: Quantiles,
    pub candidate: Quantiles,
    pub absolute: Quantiles,
    pub relative: Option<Quantiles>,
}

/// Whether `series` is the order of `values`.
pub open spec fn orders(series: Quantiles, values: Seq<Scalar>) -> bool {
    &&& series@.to_multiset() == values.to_multiset()
    &&& series@.len() == values.len()
    &&& in_order(series@)
}

/// What stands in the way of an ordered series of values.
pub open spec fn series_fault(values: Seq<Scalar>) -> Option<QuantilesError> {
    if values.len() == 0 {
        Some(QuantilesError::Empty)
    } else if holds_nan(values) {
        Some(QuantilesError::NotANumber)
    } else {
        None
    }
}

/// The first fault of the series that a summary needs.
pub open spec fn summary_fault<M: Metric>(
    draws: Seq<Draw<M>>,
    absolute: Seq<Scalar>,
    relative: Seq<Scalar>,
) -> Option<QuantilesError> {
    if series_fault(side_values(draws, true)) is Some {
        series_fault(side_values(draws, true))
    } else if series_fault(side_values(draws, false)) is Some {
        series_fault(side_values(draws, false))
    } else if series_fault(absolute) is Some {
        series_fault(absolute)
    } else if has_relative(draws) {
        series_fault(relative)
    } else {
        None
    }
}

/// Whether each value is the change that `change` gives for the candidate and
/// the baseline value of the draw at its position.
pub open spec fn are_changes<M: Metric, F: Fn(Scalar, Scalar) -> Scalar>(
    draws: Seq<Draw<M>>,
    change: F,
    values: Seq<Scalar>,
) -> bool {
    &&& values.len() == draws.len()
    &&& forall|i: int|
        0 <= i < draws.len() ==> change.ensures(
            (draws[i].candidate.base_value(), draws[i].baseline.base_value()),
            #[trigger] values[i],
        )
}

/// Whether `result` is what comes of ordering the series of draws whose changes
/// are `absolute` and, where every draw has one, `relative`.
pub open spec fn ordered_from<
    M: Metric,
    F: Fn(Scalar, Scalar) -> Scalar,
    G: Fn(Scalar, Scalar) -> Scalar,
>(
    draws: Seq<Draw<M>>,
    subtract: F,
    percent: G,
    absolute: Seq<Scalar>,
    relative: Seq<Scalar>,
    result: Result<Series, QuantilesError>,
) -> bool {
    &&& are_changes(draws, subtract, absolute)
    &&& has_relative(draws) ==> are_changes(draws, percent, relative)
    &&& match result {
        Ok(series) => {
            &&& summary_fault(draws, absolute, relative) is None
            &&& orders(series.baseline, side_values(draws, true))
            &&& orders(series.candidate, side_values(draws, false))
            &&& orders(series.absolute, absolute)
            &&& series.relative is Some <==> has_relative(draws)
            &&& series.relative matches Some(changes) ==> orders(changes, relative)
        },
        Err(fault) => summary_fault(draws, absolute, relative) == Some(fault),
    }
}

/// Whether `result` is what comes of ordering the series of draws, with the
/// changes that `subtract` and `percent` compute.
pub open spec fn series_of<
    M: Metric,
    F: Fn(Scalar, Scalar) -> Scalar,
    G: Fn(Scalar, Scalar) -> Scalar,
>(
    draws: Seq<Draw<M>>,
    subtract: F,
    percent: G,
    result: Result<Series, QuantilesError>,
) -> bool {
    exists|absolute: Seq<Scalar>, relative: Seq<Scalar>| #[trigger]
        ordered_from(draws, subtract, percent, absolute, relative, result)
}

impl Series {
    /// Orders the series of a summary: both sides, the changes, and the
    /// relative changes where every draw has one.
    pub fn from_draws<
        M: Metric,
        F: Fn(Scalar, Scalar) -> Scalar + Copy,
        G: Fn(Scalar, Scalar) -> Scalar + Copy,
    >(draws: &[Draw<M>], subtract: F, percent: G) -> (result: Result<Series, QuantilesError>)
        requires
            forall|one: Scalar, other: Scalar| #[trigger] subtract.requires((one, other)),
            forall|one: Scalar, other: Scalar|
                other.position() != 0 ==> #[trigger] percent.requires((one, other)),
        ensures
            series_of(draws@, subtract, percent, result),
            match result {
                Ok(series) => {
                    &&& series.baseline@.len() == draws@.len()
                    &&& series.baseline@.to_multiset() == Seq::new(
                        draws@.len(),
                        |i: int| draws@[i].baseline.base_value(),
                    ).to_multiset()
                    &&& forall|i: int, j: int|
                        0 <= i <= j < series.baseline@.len() ==> (
                        #[trigger] series.baseline@[i]).total_rank() <= (
                        #[trigger] series.baseline@[j]).total_rank()
                    &&& series.candidate@.len() == draws@.len()
                    &&& series.candidate@.to_multiset() == Seq::new(
                        draws@.len(),
                        |i: int| draws@[i].candidate.base_value(),
                    ).to_multiset()
                    &&& forall|i: int, j: int|
                        0 <= i <= j < series.candidate@.len() ==> (
                        #[trigger] series.candidate@[i]).total_rank() <= (
                        #[trigger] series.candidate@[j]).total_rank()
                    &&& series.absolute@.len() == draws@.len()
                    &&& series.relative is Some <==> forall|i: int|
                        0 <= i < draws@.len() ==> (
                        #[trigger] draws@[i]).baseline.base_value().position() != 0
                    &&& series.relative matches Some(changes) ==> changes@.len() == draws@.len()
                },
                Err(fault) => fault is Empty <==> draws@.len() == 0,
            },
    {
        let mut baselines: Vec<Scalar> = Vec::new();
        let mut candidates: Vec<Scalar> = Vec::new();
        let mut absolutes: Vec<Scalar> = Vec::new();
        let mut relatives: Vec<Scalar> = Vec::new();
        let mut related = true;
        let mut position: usize = 0;
        while position < draws.len()
            invariant
                forall|one: Scalar, other: Scalar| #[trigger] subtract.requires((one, other)),
                forall|one: Scalar, other: Scalar|
                    other.position() != 0 ==> #[trigger] percent.requires((one, other)),
                position <= draws@.len(),
                baselines@ == side_values(draws@.take(position as int), true),
                candidates@ == side_values(draws@.take(position as int), false),
                are_changes(draws@.take(position as int), subtract, absolutes@),
                related == has_relative(draws@.take(position as int)),
                related ==> are_changes(draws@.take(position as int), percent, relatives@),
            decreases draws@.len() - position,
        {
            let draw = draws[position];
            let ghost shorter = draws@.take(position as int);
            let ghost longer = draws@.take(position as int + 1);
            assert(forall|i: int| 0 <= i < position ==> longer[i] == #[trigger] shorter[i]);
            assert(longer[position as int] == draws@[position as int]);
            assert(has_relative(longer) ==> has_relative(shorter)) by {
                if has_relative(longer) {
                    assert forall|i: int| 0 <= i < shorter.len() implies (
                    #[trigger] shorter[i]).baseline.base_value().position() != 0 by {
                        assert(longer[i] == shorter[i]);
                    }
                }
            }
            baselines.push(draw.baseline.base());
            candidates.push(draw.candidate.base());
            absolutes.push(draw.absolute(subtract).base());
            if related {
                match draw.relative(percent) {
                    Some(change) => {
                        relatives.push(change);
                    },
                    None => {
                        related = false;
                    },
                }
            }
            position += 1;
            assert(baselines@ =~= side_values(longer, true));
            assert(candidates@ =~= side_values(longer, false));
        }
        assert(draws@.take(position as int) =~= draws@);
        let ghost absolute = absolutes@;
        let ghost relative = relatives@;
        let baseline = match Quantiles::new(baselines) {
            Ok(series) => series,
            Err(fault) => {
                assert(ordered_from(draws@, subtract, percent, absolute, relative, Err(fault)));
                return Err(fault);
            },
        };
        let candidate = match Quantiles::new(candidates) {
            Ok(series) => series,
            Err(fault) => {
                assert(ordered_from(draws@, subtract, percent, absolute, relative, Err(fault)));
                return Err(fault);
            },
        };
        let change = match Quantiles::new(absolutes) {
            Ok(series) => series,
            Err(fault) => {
                assert(ordered_from(draws@, subtract, percent, absolute, relative, Err(fault)));
                return Err(fault);
            },
        };
        let relation = if related {
            match Quantiles::new(relatives) {
                Ok(series) => Some(series),
                Err(fault) => {
                    assert(ordered_from(draws@, subtract, percent, absolute, relative, Err(fault)));
                    return Err(fault);
                },
            }
        } else {
            None
        };
        let series = Series { baseline, candidate, absolute: change, relative: relation };
        assert(ordered_from(draws@, subtract, percent, absolute, relative, Ok(series)));
        assert(side_values(draws@, true) =~= Seq::new(
            draws@.len(),
            |i: int| draws@[i].baseline.base_value(),
        ));
        assert(side_values(draws@, false) =~= Seq::new(
            draws@.len(),
            |i: int| draws@[i].candidate.base_value(),
        ));
        Ok(series)
    }
}

/// Whether a measurement shows a quantile of a series.
pub open spec fn shows<
    M: Metric,
    L: Fn(usize, Level) -> (usize, usize, Scalar),
    B: Fn(Scalar, Scalar, Scalar) -> Scalar,
>(measurement: M, values: Seq<Scalar>, level: Level, locate: L, blend: B) -> bool {
    &&& measurement == M::of_base(measurement.base_value())
    &&& is_quantile(values, level, locate, blend, measurement.base_value())
}

/// Whether bounds show the ends of an interval: of the changes, and of the
/// relative changes where there are any.
pub open spec fn bounds_show<
    M: Metric,
    L: Fn(usize, Level) -> (usize, usize, Scalar),
    B: Fn(Scalar, Scalar, Scalar) -> Scalar,
>(bounds: ChangeBounds<M>, interval: Interval, series: Series, locate: L, blend: B) -> bool {
    &&& bounds.interval == interval
    &&& shows(bounds.absolute.lower, series.absolute@, Level::Lower(interval), locate, blend)
    &&& shows(bounds.absolute.upper, series.absolute@, Level::Upper(interval), locate, blend)
    &&& match (bounds.relative, series.relative) {
        (Some(range), Some(changes)) => {
            &&& is_quantile(changes@, Level::Lower(interval), locate, blend, range.lower)
            &&& is_quantile(changes@, Level::Upper(interval), locate, blend, range.upper)
        },
        (None, None) => true,
        _ => false,
    }
}

/// Whether `share` gives a number as the part of a series that is below zero.
pub open spec fn is_share_below_zero<S: Fn(usize, usize) -> Scalar>(
    values: Seq<Scalar>,
    share: S,
    number: Scalar,
) -> bool {
    exists|below: usize|
        {
            &&& splits(values, Scalar { bits: 0 }, below as int)
            &&& #[trigger] share.ensures((below, values.len() as usize), number)
        }
}

/// Whether a summary says what ordered series hold: the medians, the given
/// intervals in their order, and how much of the changes is below zero.
pub open spec fn summary_shows<
    M: Metric,
    L: Fn(usize, Level) -> (usize, usize, Scalar),
    B: Fn(Scalar, Scalar, Scalar) -> Scalar,
    S: Fn(usize, usize) -> Scalar,
>(
    summary: Summary<M>,
    series: Series,
    intervals: Seq<Interval>,
    locate: L,
    blend: B,
    share: S,
) -> bool {
    &&& shows(summary.baseline, series.baseline@, Level::Median, locate, blend)
    &&& shows(summary.candidate, series.candidate@, Level::Median, locate, blend)
    &&& shows(summary.change.absolute_median, series.absolute@, Level::Median, locate, blend)
    &&& match (summary.change.relative_median, series.relative) {
        (Some(median), Some(changes)) => is_quantile(
            changes@,
            Level::Median,
            locate,
            blend,
            median,
        ),
        (None, None) => true,
        _ => false,
    }
    &&& summary.change.intervals@.len() == intervals.len()
    &&& forall|i: int|
        0 <= i < intervals.len() ==> bounds_show(
            #[trigger] summary.change.intervals@[i],
            intervals[i],
            series,
            locate,
            blend,
        )
    &&& is_share_below_zero(series.absolute@, share, summary.probability_candidate_lower)
    &&& summary.draws == series.baseline@.len()
}

/// Whether `result` is what comes of summarizing draws.
pub open spec fn summary_of<
    M: Metric,
    F: Fn(Scalar, Scalar) -> Scalar,
    G: Fn(Scalar, Scalar) -> Scalar,
    L: Fn(usize, Level) -> (usize, usize, Scalar),
    B: Fn(Scalar, Scalar, Scalar) -> Scalar,
    S: Fn(usize, usize) -> Scalar,
>(
    draws: Seq<Draw<M>>,
    intervals: Seq<Interval>,
    subtract: F,
    percent: G,
    locate: L,
    blend: B,
    share: S,
    result: Result<Summary<M>, QuantilesError>,
) -> bool {
    exists|ordered: Result<Series, QuantilesError>|
        {
            &&& #[trigger] series_of(draws, subtract, percent, ordered)
            &&& match (ordered, result) {
                (Ok(series), Ok(summary)) => summary_shows(
                    summary,
                    series,
                    intervals,
                    locate,
                    blend,
                    share,
                ),
                (Err(fault), Err(said)) => fault == said,
                _ => false,
            }
        }
}

impl<M: Metric> Summary<M> {
    /// Reads a summary off ordered series.
    pub fn from_series<
        L: Fn(usize, Level) -> (usize, usize, Scalar) + Copy,
        B: Fn(Scalar, Scalar, Scalar) -> Scalar + Copy,
        S: Fn(usize, usize) -> Scalar,
    >(
        series: &Series,
        intervals: &Vec<Interval>,
        locate: L,
        blend: B,
        share: S,
    ) -> (summary: Summary<M>)
        requires
            locates(locate),
            forall|lower: Scalar, upper: Scalar, part: Scalar| #[trigger]
                blend.requires((lower, upper, part)),
            forall|part: usize, whole: usize|
                part <= whole && whole > 0 ==> #[trigger] share.requires((part, whole)),
        ensures
            summary_shows(summary, *series, intervals@, locate, blend, share),
    {
        let mut bounds: Vec<ChangeBounds<M>> = Vec::new();
        for i in 0..intervals.len()
            invariant
                locates(locate),
                forall|lower: Scalar, upper: Scalar, part: Scalar| #[trigger]
                    blend.requires((lower, upper, part)),
                bounds@.len() == i,
                forall|j: int|
                    0 <= j < i ==> bounds_show(
                        #[trigger] bounds@[j],
                        intervals@[j],
                        *series,
                        locate,
                        blend,
                    ),
        {
            let interval = intervals[i];
            let absolute = Range {
                lower: M::from_base(series.absolute.at(Level::Lower(interval), locate, blend)),
                upper: M::from_base(series.absolute.at(Level::Upper(interval), locate, blend)),
            };
            let relative = match &series.relative {
                Some(changes) => Some(
                    Range {
                        lower: changes.at(Level::Lower(interval), locate, blend),
                        upper: changes.at(Level::Upper(interval), locate, blend),
                    },
                ),
                None => None,
            };
            bounds.push(ChangeBounds { interval, absolute, relative });
        }
        let relative_median = match &series.relative {
            Some(changes) => Some(changes.at(Level::Median, locate, blend)),
            None => None,
        };
        let below: usize = series.absolute.count_below(Scalar { bits: 0 });
        let whole: usize = series.absolute.len();
        let probability_candidate_lower = share(below, whole);
        assert(share.ensures((below, series.absolute@.len() as usize), probability_candidate_lower));
        Summary {
            baseline: M::from_base(series.baseline.at(Level::Median, locate, blend)),
            candidate: M::from_base(series.candidate.at(Level::Median, locate, blend)),
            change: Change {
                absolute_median: M::from_base(series.absolute.at(Level::Median, locate, blend)),
                relative_median,
                intervals: bounds,
            },
            probability_candidate_lower,
            draws: series.baseline.len(),
        }
    }

    /// Summarizes draws: `subtract` and `percent` compute the change of each
    /// draw, `locate` and `blend` the quantiles, and `share` how much one number
    /// is of another.
    pub fn from_draws<
        F: Fn(Scalar, Scalar) -> Scalar + Copy,
        G: Fn(Scalar, Scalar) -> Scalar + Copy,
        L: Fn(usize, Level) -> (usize, usize, Scalar) + Copy,
        B: Fn(Scalar, Scalar, Scalar) -> Scalar + Copy,
        S: Fn(usize, usize) -> Scalar,
    >(
        draws: &[Draw<M>],
        intervals: &Vec<Interval>,
        subtract: F,
        percent: G,
        locate: L,
        blend: B,
        share: S,
    ) -> (result: Result<Summary<M>, QuantilesError>)
        requires
            forall|one: Scalar, other: Scalar| #[trigger] subtract.requires((one, other)),
            forall|one: Scalar, other: Scalar|
                other.position() != 0 ==> #[trigger] percent.requires((one, other)),
            locates(locate),
            forall|lower: Scalar, upper: Scalar, part: Scalar| #[trigger]
                blend.requires((lower, upper, part)),
            forall|part: usize, whole: usize|
                part <= whole && whole > 0 ==> #[trigger] share.requires((part, whole)),
        ensures
            summary_of(
                draws@,
                intervals@,
                subtract,
                percent,
                locate,
                blend,
                share,
                result,
            ),
    {
        let ordered = Series::from_draws(draws, subtract, percent);
        match &ordered {
            Ok(series) => Ok(Summary::from_series(series, intervals, locate, blend, share)),
            Err(fault) => Err(*fault),
        }
    }
}

/// Whether a computation gives one result for the same arguments.
pub open spec fn is_function<Args: std::marker::Tuple, Output, F: FnOnce<Args, Output = Output>>(
    computation: F,
) -> bool {
    forall|args: Args, one: Output, other: Output| #[trigger]
        call_ensures(computation, args, one) && #[trigger] call_ensures(computation, args, other)
            ==> one == other
}

/// Whether two orderings came to the same: the same series, or the same fault.
pub open spec fn same_series(
    one: Result<Series, QuantilesError>,
    other: Result<Series, QuantilesError>,
) -> bool {
    match (one, other) {
        (Ok(one), Ok(other)) => {
            &&& one.baseline@ == other.baseline@
            &&& one.candidate@ == other.candidate@
            &&& one.absolute@ == other.absolute@
            &&& match (one.relative, other.relative) {
                (Some(changes), Some(others)) => changes@ == others@,
                (None, None) => true,
                _ => false,
            }
        },
        (Err(fault), Err(said)) => fault == said,
        _ => false,
    }
}

/// Whether two summaries came to the same: the same values in every part, or
/// the same fault.
pub open spec fn same_summary<M>(
    one: Result<Summary<M>, QuantilesError>,
    other: Result<Summary<M>, QuantilesError>,
) -> bool {
    match (one, other) {
        (Ok(one), Ok(other)) => {
            &&& one.baseline == other.baseline
            &&& one.candidate == other.candidate
            &&& one.change.absolute_median == other.change.absolute_median
            &&& one.change.relative_median == other.change.relative_median
            &&& one.change.intervals@ == other.change.intervals@
            &&& one.probability_candidate_lower == other.probability_candidate_lower
            &&& one.draws == other.draws
        },
        (Err(fault), Err(said)) => fault == said,
        _ => false,
    }
}

proof fn mapped_multisets<A, V>(one: Seq<A>, other: Seq<A>, f: spec_fn(A) -> V)
    requires
        one.to_multiset() == other.to_multiset(),
    ensures
        one.map_values(f).to_multiset() == other.map_values(f).to_multiset(),
    decreases one.len(),
{
    broadcast use vstd::multiset::group_multiset_axioms;
    broadcast use vstd::seq_lib::group_to_multiset_ensures;

    vstd::seq_lib::to_multiset_len(one);
    vstd::seq_lib::to_multiset_len(other);
    if one.len() == 0 {
        assert(one.map_values(f) =~= other.map_values(f));
    } else {
        let last = one.len() - 1;
        assert(one.contains(one[last]));
        assert(one.to_multiset().count(one[last]) > 0);
        assert(other.contains(one[last]));
        let j = choose|j: int| 0 <= j < other.len() && other[j] == one[last];
        vstd::seq_lib::to_multiset_remove(one, last);
        vstd::seq_lib::to_multiset_remove(other, j);
        mapped_multisets(one.remove(last), other.remove(j), f);
        let image = one.map_values(f);
        let others = other.map_values(f);
        assert(one.remove(last).map_values(f) =~= image.remove(last));
        assert(other.remove(j).map_values(f) =~= others.remove(j));
        vstd::seq_lib::to_multiset_remove(image, last);
        vstd::seq_lib::to_multiset_remove(others, j);
        assert(image.contains(image[last]));
        assert(others.contains(others[j]));
        assert(image.to_multiset() =~= image.to_multiset().remove(image[last]).insert(image[last]));
        assert(others.to_multiset() =~= others.to_multiset().remove(others[j]).insert(others[j]));
    }
}

/// The order of a series is determined by its values.
proof fn order_is_unique(one: Seq<Scalar>, other: Seq<Scalar>)
    requires
        in_order(one),
        in_order(other),
        one.to_multiset() == other.to_multiset(),
    ensures
        one == other,
{
    let at_most = |a: Scalar, b: Scalar| a.total_rank() <= b.total_rank();
    assert forall|a: Scalar, b: Scalar| #[trigger] at_most(a, b) && #[trigger] at_most(
        b,
        a,
    ) implies a == b by {
        crate::scalar::total_rank_is_injective(a, b);
    }
    assert(vstd::relations::total_ordering(at_most));
    assert(vstd::relations::sorted_by(one, at_most));
    assert(vstd::relations::sorted_by(other, at_most));
    vstd::seq_lib::lemma_sorted_unique(one, other, at_most);
}

/// Whether a series can be ordered is determined by its values.
proof fn same_values_same_fault(one: Seq<Scalar>, other: Seq<Scalar>)
    requires
        one.to_multiset() == other.to_multiset(),
    ensures
        series_fault(one) == series_fault(other),
{
    if holds_nan(one) {
        nan_is_shared(one, other);
    }
    if holds_nan(other) {
        nan_is_shared(other, one);
    }
    vstd::seq_lib::to_multiset_len(one);
    vstd::seq_lib::to_multiset_len(other);
}

proof fn nan_is_shared(one: Seq<Scalar>, other: Seq<Scalar>)
    requires
        one.to_multiset() == other.to_multiset(),
        holds_nan(one),
    ensures
        holds_nan(other),
{
    broadcast use vstd::seq_lib::group_to_multiset_ensures;

    let i = choose|i: int| 0 <= i < one.len() && (#[trigger] one[i]).nan();
    assert(one.contains(one[i]));
    assert(one.to_multiset().count(one[i]) > 0);
    assert(other.contains(one[i]));
}

proof fn relation_is_shared<M: Metric>(one: Seq<Draw<M>>, other: Seq<Draw<M>>)
    requires
        one.to_multiset() == other.to_multiset(),
        has_relative(one),
    ensures
        has_relative(other),
{
    broadcast use vstd::seq_lib::group_to_multiset_ensures;

    assert forall|i: int| 0 <= i < other.len() implies (
    #[trigger] other[i]).baseline.base_value().position() != 0 by {
        assert(other.contains(other[i]));
        assert(other.to_multiset().count(other[i]) > 0);
        assert(one.contains(other[i]));
    }
}

proof fn same_draws_same_changes<M: Metric, F: Fn(Scalar, Scalar) -> Scalar>(
    one: Seq<Draw<M>>,
    other: Seq<Draw<M>>,
    change: F,
    values: Seq<Scalar>,
    others: Seq<Scalar>,
)
    requires
        one.to_multiset() == other.to_multiset(),
        is_function(change),
        are_changes(one, change, values),
        are_changes(other, change, others),
    ensures
        values.to_multiset() == others.to_multiset(),
{
    let f = |draw: Draw<M>|
        choose|value: Scalar| #[trigger]
            call_ensures(
                change,
                (draw.candidate.base_value(), draw.baseline.base_value()),
                value,
            );
    mapped_multisets(one, other, f);
    assert forall|i: int| 0 <= i < one.len() implies values[i] == #[trigger] f(one[i]) by {
        assert(call_ensures(
            change,
            (one[i].candidate.base_value(), one[i].baseline.base_value()),
            values[i],
        ));
    }
    assert forall|i: int| 0 <= i < other.len() implies others[i] == #[trigger] f(other[i]) by {
        assert(call_ensures(
            change,
            (other[i].candidate.base_value(), other[i].baseline.base_value()),
            others[i],
        ));
    }
    assert(values =~= one.map_values(f));
    assert(others =~= other.map_values(f));
}

proof fn same_draws_same_sides<M: Metric>(
    one: Seq<Draw<M>>,
    other: Seq<Draw<M>>,
    baseline: bool,
)
    requires
        one.to_multiset() == other.to_multiset(),
    ensures
        side_values(one, baseline).to_multiset() == side_values(other, baseline).to_multiset(),
{
    let f = |draw: Draw<M>|
        if baseline {
            draw.baseline.base_value()
        } else {
            draw.candidate.base_value()
        };
    mapped_multisets(one, other, f);
    assert(side_values(one, baseline) =~= one.map_values(f));
    assert(side_values(other, baseline) =~= other.map_values(f));
}

/// The order of the draws does not matter to the series: the same draws give
/// the same series, or the same fault, wherever the changes are computed by
/// functions.
pub proof fn series_ignore_the_order_of_draws<
    M: Metric,
    F: Fn(Scalar, Scalar) -> Scalar,
    G: Fn(Scalar, Scalar) -> Scalar,
>(
    one: Seq<Draw<M>>,
    other: Seq<Draw<M>>,
    subtract: F,
    percent: G,
    first: Result<Series, QuantilesError>,
    second: Result<Series, QuantilesError>,
)
    requires
        one.to_multiset() == other.to_multiset(),
        is_function(subtract),
        is_function(percent),
        series_of(one, subtract, percent, first),
        series_of(other, subtract, percent, second),
    ensures
        same_series(first, second),
{
    let (absolute, relative) = choose|absolute: Seq<Scalar>, relative: Seq<Scalar>| #[trigger]
        ordered_from(one, subtract, percent, absolute, relative, first);
    let (absolutes, relatives) = choose|absolute: Seq<Scalar>, relative: Seq<Scalar>| #[trigger]
        ordered_from(other, subtract, percent, absolute, relative, second);
    same_draws_same_sides(one, other, true);
    same_draws_same_sides(one, other, false);
    same_draws_same_changes(one, other, subtract, absolute, absolutes);
    same_values_same_fault(side_values(one, true), side_values(other, true));
    same_values_same_fault(side_values(one, false), side_values(other, false));
    same_values_same_fault(absolute, absolutes);
    if has_relative(one) || has_relative(other) {
        if has_relative(one) {
            relation_is_shared(one, other);
        } else {
            relation_is_shared(other, one);
        }
        same_draws_same_changes(one, other, percent, relative, relatives);
        same_values_same_fault(relative, relatives);
    }
    if let (Ok(a), Ok(b)) = (first, second) {
        order_is_unique(a.baseline@, b.baseline@);
        order_is_unique(a.candidate@, b.candidate@);
        order_is_unique(a.absolute@, b.absolute@);
        if let (Some(changes), Some(others)) = (a.relative, b.relative) {
            order_is_unique(changes@, others@);
        }
    }
}

proof fn quantile_is_unique<
    L: Fn(usize, Level) -> (usize, usize, Scalar),
    B: Fn(Scalar, Scalar, Scalar) -> Scalar,
>(values: Seq<Scalar>, level: Level, locate: L, blend: B, one: Scalar, other: Scalar)
    requires
        is_function(locate),
        is_function(blend),
        is_quantile(values, level, locate, blend, one),
        is_quantile(values, level, locate, blend, other),
    ensures
        one == other,
{
}

proof fn share_is_unique<S: Fn(usize, usize) -> Scalar>(
    values: Seq<Scalar>,
    share: S,
    one: Scalar,
    other: Scalar,
)
    requires
        is_function(share),
        is_share_below_zero(values, share, one),
        is_share_below_zero(values, share, other),
    ensures
        one == other,
{
    let zero = Scalar { bits: 0 };
    let below = choose|below: usize|
        splits(values, zero, below as int) && #[trigger] share.ensures(
            (below, values.len() as usize),
            one,
        );
    let others = choose|below: usize|
        splits(values, zero, below as int) && #[trigger] share.ensures(
            (below, values.len() as usize),
            other,
        );
    if below < others {
        assert(values[below as int].below(zero));
    }
    if others < below {
        assert(values[others as int].below(zero));
    }
}

/// The order of the draws does not matter to a summary: the same draws give the
/// same values in every part of it, or the same fault, wherever the numbers are
/// computed by functions.
pub proof fn summaries_ignore_the_order_of_draws<
    M: Metric,
    F: Fn(Scalar, Scalar) -> Scalar,
    G: Fn(Scalar, Scalar) -> Scalar,
    L: Fn(usize, Level) -> (usize, usize, Scalar),
    B: Fn(Scalar, Scalar, Scalar) -> Scalar,
    S: Fn(usize, usize) -> Scalar,
>(
    one: Seq<Draw<M>>,
    other: Seq<Draw<M>>,
    intervals: Seq<Interval>,
    subtract: F,
    percent: G,
    locate: L,
    blend: B,
    share: S,
    first: Result<Summary<M>, QuantilesError>,
    second: Result<Summary<M>, QuantilesError>,
)
    requires
        one.to_multiset() == other.to_multiset(),
        is_function(subtract),
        is_function(percent),
        is_function(locate),
        is_function(blend),
        is_function(share),
        summary_of(one, intervals, subtract, percent, locate, blend, share, first),
        summary_of(other, intervals, subtract, percent, locate, blend, share, second),
    ensures
        same_summary(first, second),
{
    let ordered = choose|ordered: Result<Series, QuantilesError>|
        {
            &&& #[trigger] series_of(one, subtract, percent, ordered)
            &&& match (ordered, first) {
                (Ok(series), Ok(summary)) => summary_shows(
                    summary,
                    series,
                    intervals,
                    locate,
                    blend,
                    share,
                ),
                (Err(fault), Err(said)) => fault == said,
                _ => false,
            }
        };
    let reordered = choose|ordered: Result<Series, QuantilesError>|
        {
            &&& #[trigger] series_of(other, subtract, percent, ordered)
            &&& match (ordered, second) {
                (Ok(series), Ok(summary)) => summary_shows(
                    summary,
                    series,
                    intervals,
                    locate,
                    blend,
                    share,
                ),
                (Err(fault), Err(said)) => fault == said,
                _ => false,
            }
        };
    series_ignore_the_order_of_draws(one, other, subtract, percent, ordered, reordered);
    if let (Ok(series), Ok(others), Ok(a), Ok(b)) = (ordered, reordered, first, second) {
        let median = Level::Median;
        let (x, y) = (a.baseline.base_value(), b.baseline.base_value());
        quantile_is_unique(series.baseline@, median, locate, blend, x, y);
        let (x, y) = (a.candidate.base_value(), b.candidate.base_value());
        quantile_is_unique(series.candidate@, median, locate, blend, x, y);
        let (x, y) = (
            a.change.absolute_median.base_value(),
            b.change.absolute_median.base_value(),
        );
        quantile_is_unique(series.absolute@, median, locate, blend, x, y);
        if let (Some(x), Some(y), Some(changes)) = (
            a.change.relative_median,
            b.change.relative_median,
            series.relative,
        ) {
            quantile_is_unique(changes@, median, locate, blend, x, y);
        }
        share_is_unique(
            series.absolute@,
            share,
            a.probability_candidate_lower,
            b.probability_candidate_lower,
        );
        assert forall|i: int| 0 <= i < intervals.len() implies #[trigger] a.change.intervals@[i]
            == b.change.intervals@[i] by {
            let bounds = a.change.intervals@[i];
            let others = b.change.intervals@[i];
            let lower = Level::Lower(intervals[i]);
            let upper = Level::Upper(intervals[i]);
            let (x, y) = (bounds.absolute.lower.base_value(), others.absolute.lower.base_value());
            quantile_is_unique(series.absolute@, lower, locate, blend, x, y);
            let (x, y) = (bounds.absolute.upper.base_value(), others.absolute.upper.base_value());
            quantile_is_unique(series.absolute@, upper, locate, blend, x, y);
            if let (Some(x), Some(y), Some(changes)) = (
                bounds.relative,
                others.relative,
                series.relative,
            ) {
                quantile_is_unique(changes@, lower, locate, blend, x.lower, y.lower);
                quantile_is_unique(changes@, upper, locate, blend, x.upper, y.upper);
            }
        }
        assert(a.change.intervals@ =~= b.change.intervals@);
    }
}

/// A summary lists the given intervals in their order, and it speaks of
/// relative changes everywhere where every draw has a baseline to relate its
/// change to, else nowhere.
pub proof fn summaries_list_their_intervals<
    M: Metric,
    F: Fn(Scalar, Scalar) -> Scalar,
    G: Fn(Scalar, Scalar) -> Scalar,
    L: Fn(usize, Level) -> (usize, usize, Scalar),
    B: Fn(Scalar, Scalar, Scalar) -> Scalar,
    S: Fn(usize, usize) -> Scalar,
>(
    draws: Seq<Draw<M>>,
    intervals: Seq<Interval>,
    subtract: F,
    percent: G,
    locate: L,
    blend: B,
    share: S,
    summary: Summary<M>,
)
    requires
        summary_of(draws, intervals, subtract, percent, locate, blend, share, Ok(summary)),
    ensures
        summary.change.intervals@.map_values(|bounds: ChangeBounds<M>| bounds.interval)
            == intervals,
        summary.change.relative_median is Some <==> has_relative(draws),
        forall|i: int|
            0 <= i < intervals.len() ==> ((
            #[trigger] summary.change.intervals@[i]).relative is Some <==> has_relative(draws)),
        summary.draws == draws.len(),
{
    assert(summary.change.intervals@.map_values(|bounds: ChangeBounds<M>| bounds.interval)
        =~= intervals);
}

/// Whether one quantile stands at or below another: the lower end of a wider
/// interval below that of a narrower one, then the median, then the upper ends.
pub open spec fn at_or_below(one: Level, other: Level) -> bool {
    match (one, other) {
        (Level::Lower(wide), Level::Lower(narrow)) => narrow@.position() <= wide@.position(),
        (Level::Lower(_), _) => true,
        (Level::Median, Level::Lower(_)) => false,
        (Level::Median, _) => true,
        (Level::Upper(narrow), Level::Upper(wide)) => narrow@.position() <= wide@.position(),
        (Level::Upper(_), _) => false,
    }
}

/// Whether what `locate` finds in a series of a length rises with the quantile:
/// a quantile above another lies beyond its two values, or between the same two
/// and not nearer to the first.
pub open spec fn places_rise<L: Fn(usize, Level) -> (usize, usize, Scalar)>(
    locate: L,
    len: usize,
) -> bool {
    forall|
        one: Level,
        other: Level,
        found: (usize, usize, Scalar),
        beyond: (usize, usize, Scalar),
    |
        #[trigger] locate.ensures((len, one), found) && #[trigger] locate.ensures(
            (len, other),
            beyond,
        ) && at_or_below(one, other) ==> {
            &&& found.0 <= found.1
            &&& beyond.0 <= beyond.1
            &&& found.1 <= beyond.0 || (found.0 == beyond.0 && found.1 == beyond.1
                && found.2.at_most(beyond.2))
        }
}

/// Whether `blend` stays between the two values that a quantile of a series was
/// found between.
pub open spec fn blend_stays_between<
    L: Fn(usize, Level) -> (usize, usize, Scalar),
    B: Fn(Scalar, Scalar, Scalar) -> Scalar,
>(values: Seq<Scalar>, locate: L, blend: B) -> bool {
    forall|level: Level, found: (usize, usize, Scalar), value: Scalar|
        #[trigger] locate.ensures((values.len() as usize, level), found) && found.0 != found.1
            && #[trigger] blend.ensures(
            (values[found.0 as int], values[found.1 as int], found.2),
            value,
        ) ==> values[found.0 as int].at_most(value) && value.at_most(values[found.1 as int])
}

/// Whether `blend` rises with the part, for two quantiles of a series that were
/// found between the same two values.
pub open spec fn blend_rises<
    L: Fn(usize, Level) -> (usize, usize, Scalar),
    B: Fn(Scalar, Scalar, Scalar) -> Scalar,
>(values: Seq<Scalar>, locate: L, blend: B) -> bool {
    forall|
        one: Level,
        other: Level,
        lower: usize,
        upper: usize,
        part: Scalar,
        more: Scalar,
        value: Scalar,
        beyond: Scalar,
    |
        #[trigger] locate.ensures((values.len() as usize, one), (lower, upper, part))
            && #[trigger] locate.ensures((values.len() as usize, other), (lower, upper, more))
            && lower != upper && part.at_most(more) && #[trigger] blend.ensures(
            (values[lower as int], values[upper as int], part),
            value,
        ) && #[trigger] blend.ensures((values[lower as int], values[upper as int], more), beyond)
            ==> value.at_most(beyond)
}

/// A quantile lies between the two values that it was found between.
proof fn quantile_lies_between<
    L: Fn(usize, Level) -> (usize, usize, Scalar),
    B: Fn(Scalar, Scalar, Scalar) -> Scalar,
>(values: Seq<Scalar>, level: Level, locate: L, blend: B, value: Scalar) -> (found: (
    usize,
    usize,
    Scalar,
))
    requires
        0 < values.len() <= usize::MAX,
        in_order(values),
        !holds_nan(values),
        locates(locate),
        places_rise(locate, values.len() as usize),
        blend_stays_between(values, locate, blend),
        is_quantile(values, level, locate, blend, value),
    ensures
        locate.ensures((values.len() as usize, level), found),
        found.0 <= found.1 < values.len(),
        values[found.0 as int].at_most(value),
        value.at_most(values[found.1 as int]),
        found.0 == found.1 ==> value == values[found.0 as int],
        found.0 != found.1 ==> blend.ensures(
            (values[found.0 as int], values[found.1 as int], found.2),
            value,
        ),
{
    let found = choose|found: (usize, usize, Scalar)|
        {
            &&& #[trigger] locate.ensures((values.len() as usize, level), found)
            &&& if found.0 == found.1 {
                value == values[found.0 as int]
            } else {
                blend.ensures((values[found.0 as int], values[found.1 as int], found.2), value)
            }
        };
    assert(at_or_below(level, level));
    assert(!values[found.0 as int].nan());
    found
}

/// An ordered series of numbers rises.
proof fn values_rise(values: Seq<Scalar>, i: int, j: int)
    requires
        in_order(values),
        !holds_nan(values),
        0 <= i <= j < values.len(),
    ensures
        values[i].at_most(values[j]),
{
    assert(values[i].total_rank() <= values[j].total_rank());
    assert(!values[i].nan() && !values[j].nan());
}

/// A quantile never leaves the data: it is at least the least value and at most
/// the greatest one.
pub proof fn quantiles_stay_within_the_data<
    L: Fn(usize, Level) -> (usize, usize, Scalar),
    B: Fn(Scalar, Scalar, Scalar) -> Scalar,
>(values: Seq<Scalar>, level: Level, locate: L, blend: B, value: Scalar)
    requires
        0 < values.len() <= usize::MAX,
        in_order(values),
        !holds_nan(values),
        locates(locate),
        places_rise(locate, values.len() as usize),
        blend_stays_between(values, locate, blend),
        is_quantile(values, level, locate, blend, value),
    ensures
        values[0].at_most(value),
        value.at_most(values.last()),
{
    let found = quantile_lies_between(values, level, locate, blend, value);
    values_rise(values, 0, found.0 as int);
    values_rise(values, found.1 as int, values.len() - 1);
}

/// Quantiles rise with their level.
pub proof fn quantiles_rise<
    L: Fn(usize, Level) -> (usize, usize, Scalar),
    B: Fn(Scalar, Scalar, Scalar) -> Scalar,
>(
    values: Seq<Scalar>,
    one: Level,
    other: Level,
    locate: L,
    blend: B,
    value: Scalar,
    beyond: Scalar,
)
    requires
        0 < values.len() <= usize::MAX,
        in_order(values),
        !holds_nan(values),
        locates(locate),
        places_rise(locate, values.len() as usize),
        blend_stays_between(values, locate, blend),
        blend_rises(values, locate, blend),
        at_or_below(one, other),
        is_quantile(values, one, locate, blend, value),
        is_quantile(values, other, locate, blend, beyond),
    ensures
        value.at_most(beyond),
{
    let found = quantile_lies_between(values, one, locate, blend, value);
    let further = quantile_lies_between(values, other, locate, blend, beyond);
    if found.1 <= further.0 {
        values_rise(values, found.1 as int, further.0 as int);
    } else {
        assert(found.0 == further.0 && found.1 == further.1 && found.2.at_most(further.2));
        assert(found == (found.0, found.1, found.2));
        assert(further == (found.0, found.1, further.2));
        let len = values.len() as usize;
        assert(locate.ensures((len, one), (found.0, found.1, found.2)));
        assert(locate.ensures((len, other), (found.0, found.1, further.2)));
    }
}

/// A wider central interval holds a narrower one, and neither leaves the data.
pub proof fn wider_intervals_hold_narrower_ones<
    L: Fn(usize, Level) -> (usize, usize, Scalar),
    B: Fn(Scalar, Scalar, Scalar) -> Scalar,
>(
    values: Seq<Scalar>,
    narrow: Interval,
    wide: Interval,
    locate: L,
    blend: B,
    inner: Range<Scalar>,
    outer: Range<Scalar>,
)
    requires
        0 < values.len() <= usize::MAX,
        in_order(values),
        !holds_nan(values),
        locates(locate),
        places_rise(locate, values.len() as usize),
        blend_stays_between(values, locate, blend),
        blend_rises(values, locate, blend),
        narrow@.position() <= wide@.position(),
        is_quantile(values, Level::Lower(narrow), locate, blend, inner.lower),
        is_quantile(values, Level::Upper(narrow), locate, blend, inner.upper),
        is_quantile(values, Level::Lower(wide), locate, blend, outer.lower),
        is_quantile(values, Level::Upper(wide), locate, blend, outer.upper),
    ensures
        values[0].at_most(outer.lower),
        outer.lower.at_most(inner.lower),
        inner.lower.at_most(inner.upper),
        inner.upper.at_most(outer.upper),
        outer.upper.at_most(values.last()),
{
    let (low, high) = (Level::Lower(narrow), Level::Upper(narrow));
    let (lowest, highest) = (Level::Lower(wide), Level::Upper(wide));
    quantiles_stay_within_the_data(values, lowest, locate, blend, outer.lower);
    quantiles_stay_within_the_data(values, highest, locate, blend, outer.upper);
    quantiles_rise(values, lowest, low, locate, blend, outer.lower, inner.lower);
    quantiles_rise(values, low, high, locate, blend, inner.lower, inner.upper);
    quantiles_rise(values, high, highest, locate, blend, inner.upper, outer.upper);
}

/// Where every difference is what `subtract` gives, the ordered differences are
/// the series that a summary reads its changes from.
proof fn ordered_series<
    M: Metric,
    F: Fn(Scalar, Scalar) -> Scalar,
    G: Fn(Scalar, Scalar) -> Scalar,
    L: Fn(usize, Level) -> (usize, usize, Scalar),
    B: Fn(Scalar, Scalar, Scalar) -> Scalar,
    S: Fn(usize, usize) -> Scalar,
>(
    draws: Seq<Draw<M>>,
    intervals: Seq<Interval>,
    subtract: F,
    percent: G,
    locate: L,
    blend: B,
    share: S,
    baselines: Seq<Scalar>,
    candidates: Seq<Scalar>,
    differences: Seq<Scalar>,
    changes: Seq<Scalar>,
    summary: Summary<M>,
) -> (series: Series)
    requires
        is_function(subtract),
        summary_of(draws, intervals, subtract, percent, locate, blend, share, Ok(summary)),
        in_order(baselines),
        baselines.to_multiset() == side_values(draws, true).to_multiset(),
        in_order(candidates),
        candidates.to_multiset() == side_values(draws, false).to_multiset(),
        are_changes(draws, subtract, differences),
        in_order(changes),
        changes.to_multiset() == differences.to_multiset(),
    ensures
        summary_shows(summary, series, intervals, locate, blend, share),
        series_of(draws, subtract, percent, Ok(series)),
        series.baseline@ == baselines,
        series.candidate@ == candidates,
        series.absolute@ == changes,
        baselines.len() == draws.len(),
        candidates.len() == draws.len(),
        changes.len() == draws.len(),
{
    let ordered = choose|ordered: Result<Series, QuantilesError>|
        {
            &&& #[trigger] series_of(draws, subtract, percent, ordered)
            &&& match (ordered, Ok::<Summary<M>, QuantilesError>(summary)) {
                (Ok(series), Ok(summary)) => summary_shows(
                    summary,
                    series,
                    intervals,
                    locate,
                    blend,
                    share,
                ),
                (Err(fault), Err(said)) => fault == said,
                _ => false,
            }
        };
    let series = ordered->Ok_0;
    let (absolute, relative) = choose|absolute: Seq<Scalar>, relative: Seq<Scalar>| #[trigger]
        ordered_from(draws, subtract, percent, absolute, relative, ordered);
    assert forall|i: int| 0 <= i < draws.len() implies #[trigger] absolute[i] == differences[i] by {
        assert(call_ensures(
            subtract,
            (draws[i].candidate.base_value(), draws[i].baseline.base_value()),
            absolute[i],
        ));
        assert(call_ensures(
            subtract,
            (draws[i].candidate.base_value(), draws[i].baseline.base_value()),
            differences[i],
        ));
    }
    assert(absolute =~= differences);
    order_is_unique(series.baseline@, baselines);
    order_is_unique(series.candidate@, candidates);
    order_is_unique(series.absolute@, changes);
    series
}

/// What a summary shows, in terms of its draws alone. The baseline is the median
/// of the baseline values in order, the candidate that of the candidate values,
/// and the change that of the differences. The bounds at an interval are the two
/// ends of that interval in the ordered differences. A quantile is the value at
/// the place that `locate` gives for as many values as there are draws, or what
/// `blend` makes of the two values around it.
pub proof fn a_summary_reads_its_draws_in_order<
    M: Metric,
    F: Fn(Scalar, Scalar) -> Scalar,
    G: Fn(Scalar, Scalar) -> Scalar,
    L: Fn(usize, Level) -> (usize, usize, Scalar),
    B: Fn(Scalar, Scalar, Scalar) -> Scalar,
    S: Fn(usize, usize) -> Scalar,
>(
    draws: Seq<Draw<M>>,
    intervals: Seq<Interval>,
    subtract: F,
    percent: G,
    locate: L,
    blend: B,
    share: S,
    baselines: Seq<Scalar>,
    candidates: Seq<Scalar>,
    differences: Seq<Scalar>,
    changes: Seq<Scalar>,
    summary: Summary<M>,
)
    requires
        is_function(subtract),
        summary_of(draws, intervals, subtract, percent, locate, blend, share, Ok(summary)),
        baselines.to_multiset() == draws.map_values(
            |draw: Draw<M>| draw.baseline.base_value(),
        ).to_multiset(),
        forall|i: int, j: int|
            0 <= i <= j < baselines.len() ==> (#[trigger] baselines[i]).total_rank() <= (
            #[trigger] baselines[j]).total_rank(),
        candidates.to_multiset() == draws.map_values(
            |draw: Draw<M>| draw.candidate.base_value(),
        ).to_multiset(),
        forall|i: int, j: int|
            0 <= i <= j < candidates.len() ==> (#[trigger] candidates[i]).total_rank() <= (
            #[trigger] candidates[j]).total_rank(),
        differences.len() == draws.len(),
        forall|i: int|
            0 <= i < draws.len() ==> subtract.ensures(
                (draws[i].candidate.base_value(), draws[i].baseline.base_value()),
                #[trigger] differences[i],
            ),
        changes.to_multiset() == differences.to_multiset(),
        forall|i: int, j: int|
            0 <= i <= j < changes.len() ==> (#[trigger] changes[i]).total_rank() <= (
            #[trigger] changes[j]).total_rank(),
    ensures
        summary.baseline == M::of_base(summary.baseline.base_value()),
        summary.candidate == M::of_base(summary.candidate.base_value()),
        summary.change.absolute_median == M::of_base(summary.change.absolute_median.base_value()),
        exists|found: (usize, usize, Scalar)|
            {
                &&& #[trigger] locate.ensures((draws.len() as usize, Level::Median), found)
                &&& if found.0 == found.1 {
                    summary.baseline.base_value() == baselines[found.0 as int]
                } else {
                    blend.ensures((baselines[found.0 as int], baselines[found.1 as int], found.2), summary.baseline.base_value())
                }
            },
        exists|found: (usize, usize, Scalar)|
            {
                &&& #[trigger] locate.ensures((draws.len() as usize, Level::Median), found)
                &&& if found.0 == found.1 {
                    summary.candidate.base_value() == candidates[found.0 as int]
                } else {
                    blend.ensures((candidates[found.0 as int], candidates[found.1 as int], found.2), summary.candidate.base_value())
                }
            },
        exists|found: (usize, usize, Scalar)|
            {
                &&& #[trigger] locate.ensures((draws.len() as usize, Level::Median), found)
                &&& if found.0 == found.1 {
                    summary.change.absolute_median.base_value() == changes[found.0 as int]
                } else {
                    blend.ensures((changes[found.0 as int], changes[found.1 as int], found.2), summary.change.absolute_median.base_value())
                }
            },
        summary.change.intervals@.len() == intervals.len(),
        forall|i: int|
            #![trigger summary.change.intervals@[i]]
            0 <= i < intervals.len() ==> summary.change.intervals@[i].interval == intervals[i] && exists|
                found: (usize, usize, Scalar),
            |
            {
                &&& #[trigger] locate.ensures((draws.len() as usize, Level::Lower(intervals[i])), found)
                &&& if found.0 == found.1 {
                    summary.change.intervals@[i].absolute.lower.base_value() == changes[found.0 as int]
                } else {
                    blend.ensures((changes[found.0 as int], changes[found.1 as int], found.2), summary.change.intervals@[i].absolute.lower.base_value())
                }
            },
        forall|i: int|
            #![trigger summary.change.intervals@[i]]
            0 <= i < intervals.len() ==> summary.change.intervals@[i].interval == intervals[i] && exists|
                found: (usize, usize, Scalar),
            |
            {
                &&& #[trigger] locate.ensures((draws.len() as usize, Level::Upper(intervals[i])), found)
                &&& if found.0 == found.1 {
                    summary.change.intervals@[i].absolute.upper.base_value() == changes[found.0 as int]
                } else {
                    blend.ensures((changes[found.0 as int], changes[found.1 as int], found.2), summary.change.intervals@[i].absolute.upper.base_value())
                }
            },
        exists|below: usize|
            {
                &&& below == differences.filter(
                    |difference: Scalar| difference.below(Scalar { bits: 0 }),
                ).len()
                &&& #[trigger] share.ensures(
                    (below, draws.len() as usize),
                    summary.probability_candidate_lower,
                )
            },
        summary.draws == draws.len(),
{
    assert(side_values(draws, true) =~= draws.map_values(
        |draw: Draw<M>| draw.baseline.base_value(),
    ));
    assert(side_values(draws, false) =~= draws.map_values(
        |draw: Draw<M>| draw.candidate.base_value(),
    ));
    assert(in_order(baselines));
    assert(in_order(candidates));
    assert(in_order(changes));
    assert(are_changes(draws, subtract, differences));
    let series = ordered_series(
        draws,
        intervals,
        subtract,
        percent,
        locate,
        blend,
        share,
        baselines,
        candidates,
        differences,
        changes,
        summary,
    );
    let zero = Scalar { bits: 0 };
    let below = choose|below: usize|
        {
            &&& splits(series.absolute@, zero, below as int)
            &&& #[trigger] share.ensures(
                (below, series.absolute@.len() as usize),
                summary.probability_candidate_lower,
            )
        };
    let is_below = |difference: Scalar| difference.below(zero);
    same_values_same_count(differences, changes, is_below);
    split_counts(changes, zero, below as int);
    assert forall|i: int|
        #![trigger summary.change.intervals@[i]]
        0 <= i < intervals.len() implies exists|found: (usize, usize, Scalar)|
        {
            &&& #[trigger] locate.ensures((draws.len() as usize, Level::Lower(intervals[i])), found)
            &&& if found.0 == found.1 {
                summary.change.intervals@[i].absolute.lower.base_value() == changes[found.0 as int]
            } else {
                blend.ensures((changes[found.0 as int], changes[found.1 as int], found.2), summary.change.intervals@[i].absolute.lower.base_value())
            }
        } by {
        assert(bounds_show(summary.change.intervals@[i], intervals[i], series, locate, blend));
        assert(is_quantile(
            changes,
            Level::Lower(intervals[i]),
            locate,
            blend,
            summary.change.intervals@[i].absolute.lower.base_value(),
        ));
    }
    assert forall|i: int|
        #![trigger summary.change.intervals@[i]]
        0 <= i < intervals.len() implies exists|found: (usize, usize, Scalar)|
        {
            &&& #[trigger] locate.ensures((draws.len() as usize, Level::Upper(intervals[i])), found)
            &&& if found.0 == found.1 {
                summary.change.intervals@[i].absolute.upper.base_value() == changes[found.0 as int]
            } else {
                blend.ensures((changes[found.0 as int], changes[found.1 as int], found.2), summary.change.intervals@[i].absolute.upper.base_value())
            }
        } by {
        assert(bounds_show(summary.change.intervals@[i], intervals[i], series, locate, blend));
        assert(is_quantile(
            changes,
            Level::Upper(intervals[i]),
            locate,
            blend,
            summary.change.intervals@[i].absolute.upper.base_value(),
        ));
    }
}

/// As many values of a series meet a test as of any arrangement of it.
proof fn same_values_same_count(one: Seq<Scalar>, other: Seq<Scalar>, test: spec_fn(Scalar) -> bool)
    requires
        one.to_multiset() == other.to_multiset(),
    ensures
        one.filter(test).len() == other.filter(test).len(),
    decreases one.len(),
{
    broadcast use vstd::multiset::group_multiset_axioms;
    broadcast use vstd::seq_lib::group_to_multiset_ensures;

    vstd::seq_lib::to_multiset_len(one);
    vstd::seq_lib::to_multiset_len(other);
    if one.len() == 0 {
        assert(one =~= other);
    } else {
        let last = one.len() - 1;
        assert(one.contains(one[last]));
        assert(one.to_multiset().count(one[last]) > 0);
        assert(other.contains(one[last]));
        let j = choose|j: int| 0 <= j < other.len() && other[j] == one[last];
        vstd::seq_lib::to_multiset_remove(one, last);
        vstd::seq_lib::to_multiset_remove(other, j);
        same_values_same_count(one.remove(last), other.remove(j), test);
        count_without_one(one, last, test);
        count_without_one(other, j, test);
    }
}

proof fn count_without_one(values: Seq<Scalar>, at: int, test: spec_fn(Scalar) -> bool)
    requires
        0 <= at < values.len(),
    ensures
        values.filter(test).len() == values.remove(at).filter(test).len() + if test(values[at]) {
            1nat
        } else {
            0nat
        },
{
    let before = values.take(at);
    let item = seq![values[at]];
    let after = values.skip(at + 1);
    assert(values =~= before + item + after);
    assert(values.remove(at) =~= before + after);
    Seq::<Scalar>::filter_distributes_over_add(before + item, after, test);
    Seq::<Scalar>::filter_distributes_over_add(before, item, test);
    Seq::<Scalar>::filter_distributes_over_add(before, after, test);
    reveal(Seq::filter);
    assert(item.drop_last() =~= Seq::<Scalar>::empty());
    assert(item.drop_last().filter(test) =~= Seq::<Scalar>::empty());
    assert(item.last() == values[at]);
}

/// Where the first values are those below a threshold, so many are.
proof fn split_counts(values: Seq<Scalar>, threshold: Scalar, count: int)
    requires
        splits(values, threshold, count),
    ensures
        values.filter(|value: Scalar| value.below(threshold)).len() == count,
    decreases values.len(),
{
    reveal(Seq::filter);
    let test = |value: Scalar| value.below(threshold);
    if values.len() > 0 {
        let shorter = values.drop_last();
        assert forall|i: int| 0 <= i < shorter.len() implies #[trigger] shorter[i] == values[i] by {}
        let fewer = if count == values.len() {
            count - 1
        } else {
            count
        };
        assert(values[values.len() - 1].below(threshold) <==> count == values.len());
        assert forall|i: int| 0 <= i < shorter.len() implies ((#[trigger] shorter[i]).below(
            threshold,
        ) <==> i < fewer) by {
            assert(values[i].below(threshold) <==> i < count);
        }
        split_counts(shorter, threshold, fewer);
    }
}

/// The relative changes that a summary shows, in terms of its draws alone: where
/// no baseline is zero, the median and the ends of each interval in the ordered
/// percentages; else none at all.
pub proof fn a_summary_relates_its_changes<
    M: Metric,
    F: Fn(Scalar, Scalar) -> Scalar,
    G: Fn(Scalar, Scalar) -> Scalar,
    L: Fn(usize, Level) -> (usize, usize, Scalar),
    B: Fn(Scalar, Scalar, Scalar) -> Scalar,
    S: Fn(usize, usize) -> Scalar,
>(
    draws: Seq<Draw<M>>,
    intervals: Seq<Interval>,
    subtract: F,
    percent: G,
    locate: L,
    blend: B,
    share: S,
    percentages: Seq<Scalar>,
    changes: Seq<Scalar>,
    summary: Summary<M>,
)
    requires
        is_function(percent),
        summary_of(draws, intervals, subtract, percent, locate, blend, share, Ok(summary)),
        percentages.len() == draws.len(),
        forall|i: int|
            0 <= i < draws.len() ==> percent.ensures(
                (draws[i].candidate.base_value(), draws[i].baseline.base_value()),
                #[trigger] percentages[i],
            ),
        changes.to_multiset() == percentages.to_multiset(),
        forall|i: int, j: int|
            0 <= i <= j < changes.len() ==> (#[trigger] changes[i]).total_rank() <= (
            #[trigger] changes[j]).total_rank(),
    ensures
        (exists|i: int|
            0 <= i < draws.len() && (#[trigger] draws[i]).baseline.base_value().position() == 0)
            ==> summary.change.relative_median is None && forall|i: int|
            0 <= i < intervals.len() ==> (#[trigger] summary.change.intervals@[i]).relative is None,
        (forall|i: int|
            0 <= i < draws.len() ==> (#[trigger] draws[i]).baseline.base_value().position() != 0)
            ==> summary.change.relative_median is Some && (exists|found: (usize, usize, Scalar)|
            {
                &&& #[trigger] locate.ensures((draws.len() as usize, Level::Median), found)
                &&& if found.0 == found.1 {
                    summary.change.relative_median->0 == changes[found.0 as int]
                } else {
                    blend.ensures((changes[found.0 as int], changes[found.1 as int], found.2), summary.change.relative_median->0)
                }
            }),
        forall|i: int|
            #![trigger summary.change.intervals@[i]]
            0 <= i < intervals.len() && (forall|j: int|
                0 <= j < draws.len() ==> (#[trigger] draws[j]).baseline.base_value().position()
                    != 0) ==> summary.change.intervals@[i].relative is Some && (exists|found: (usize, usize, Scalar)|
            {
                &&& #[trigger] locate.ensures((draws.len() as usize, Level::Lower(intervals[i])), found)
                &&& if found.0 == found.1 {
                    summary.change.intervals@[i].relative->0.lower == changes[found.0 as int]
                } else {
                    blend.ensures((changes[found.0 as int], changes[found.1 as int], found.2), summary.change.intervals@[i].relative->0.lower)
                }
            }) && (exists|found: (usize, usize, Scalar)|
            {
                &&& #[trigger] locate.ensures((draws.len() as usize, Level::Upper(intervals[i])), found)
                &&& if found.0 == found.1 {
                    summary.change.intervals@[i].relative->0.upper == changes[found.0 as int]
                } else {
                    blend.ensures((changes[found.0 as int], changes[found.1 as int], found.2), summary.change.intervals@[i].relative->0.upper)
                }
            }),
{
    let ordered = choose|ordered: Result<Series, QuantilesError>|
        {
            &&& #[trigger] series_of(draws, subtract, percent, ordered)
            &&& match (ordered, Ok::<Summary<M>, QuantilesError>(summary)) {
                (Ok(series), Ok(summary)) => summary_shows(
                    summary,
                    series,
                    intervals,
                    locate,
                    blend,
                    share,
                ),
                (Err(fault), Err(said)) => fault == said,
                _ => false,
            }
        };
    let series = ordered->Ok_0;
    let (absolute, relative) = choose|absolute: Seq<Scalar>, relative: Seq<Scalar>| #[trigger]
        ordered_from(draws, subtract, percent, absolute, relative, ordered);
    assert(in_order(changes));
    if has_relative(draws) {
        assert forall|i: int| 0 <= i < draws.len() implies #[trigger] relative[i]
            == percentages[i] by {
            assert(call_ensures(
                percent,
                (draws[i].candidate.base_value(), draws[i].baseline.base_value()),
                relative[i],
            ));
            assert(call_ensures(
                percent,
                (draws[i].candidate.base_value(), draws[i].baseline.base_value()),
                percentages[i],
            ));
        }
        assert(relative =~= percentages);
        order_is_unique(series.relative->0@, changes);
    }
    assert forall|i: int| 0 <= i < intervals.len() implies bounds_show(
        #[trigger] summary.change.intervals@[i],
        intervals[i],
        series,
        locate,
        blend,
    ) by {}
}

/// A summary stays within its draws: the baseline it shows is at least some
/// draw's baseline value and at most some draw's, and the candidate likewise of
/// the candidate values. Where all draws agree on a side, that side is shown as
/// they have it.
pub proof fn a_summary_stays_within_its_draws<
    M: Metric,
    F: Fn(Scalar, Scalar) -> Scalar,
    G: Fn(Scalar, Scalar) -> Scalar,
    L: Fn(usize, Level) -> (usize, usize, Scalar),
    B: Fn(Scalar, Scalar, Scalar) -> Scalar,
    S: Fn(usize, usize) -> Scalar,
>(
    draws: Seq<Draw<M>>,
    intervals: Seq<Interval>,
    subtract: F,
    percent: G,
    locate: L,
    blend: B,
    share: S,
    baselines: Seq<Scalar>,
    candidates: Seq<Scalar>,
    differences: Seq<Scalar>,
    changes: Seq<Scalar>,
    summary: Summary<M>,
)
    requires
        is_function(subtract),
        draws.len() <= usize::MAX,
        summary_of(draws, intervals, subtract, percent, locate, blend, share, Ok(summary)),
        baselines.to_multiset() == draws.map_values(
            |draw: Draw<M>| draw.baseline.base_value(),
        ).to_multiset(),
        forall|i: int, j: int|
            0 <= i <= j < baselines.len() ==> (#[trigger] baselines[i]).total_rank() <= (
            #[trigger] baselines[j]).total_rank(),
        candidates.to_multiset() == draws.map_values(
            |draw: Draw<M>| draw.candidate.base_value(),
        ).to_multiset(),
        forall|i: int, j: int|
            0 <= i <= j < candidates.len() ==> (#[trigger] candidates[i]).total_rank() <= (
            #[trigger] candidates[j]).total_rank(),
        differences.len() == draws.len(),
        forall|i: int|
            0 <= i < draws.len() ==> subtract.ensures(
                (draws[i].candidate.base_value(), draws[i].baseline.base_value()),
                #[trigger] differences[i],
            ),
        changes.to_multiset() == differences.to_multiset(),
        forall|i: int, j: int|
            0 <= i <= j < changes.len() ==> (#[trigger] changes[i]).total_rank() <= (
            #[trigger] changes[j]).total_rank(),
        locates(locate),
        places_rise(locate, draws.len() as usize),
        blend_stays_between(baselines, locate, blend),
        blend_stays_between(candidates, locate, blend),
        blend_stays_between(changes, locate, blend),
    ensures
        exists|i: int|
            0 <= i < draws.len() && (#[trigger] draws[i]).candidate.base_value().at_most(
                summary.candidate.base_value(),
            ),
        exists|i: int|
            0 <= i < draws.len() && summary.candidate.base_value().at_most(
                (#[trigger] draws[i]).candidate.base_value(),
            ),
        exists|i: int|
            0 <= i < draws.len() && (#[trigger] draws[i]).baseline.base_value().at_most(
                summary.baseline.base_value(),
            ),
        exists|i: int|
            0 <= i < draws.len() && summary.baseline.base_value().at_most(
                (#[trigger] draws[i]).baseline.base_value(),
            ),
        exists|i: int|
            0 <= i < draws.len() && (#[trigger] differences[i]).at_most(
                summary.change.absolute_median.base_value(),
            ),
        exists|i: int|
            0 <= i < draws.len() && summary.change.absolute_median.base_value().at_most(
                #[trigger] differences[i],
            ),
        forall|value: Scalar|
            (forall|i: int| 0 <= i < draws.len() ==> (#[trigger] draws[i]).candidate.base_value() == value)
                ==> #[trigger] summary.candidate.base_value().equals(value),
        forall|value: Scalar|
            (forall|i: int| 0 <= i < draws.len() ==> (#[trigger] draws[i]).baseline.base_value() == value)
                ==> #[trigger] summary.baseline.base_value().equals(value),
        forall|value: Scalar|
            (forall|i: int| 0 <= i < draws.len() ==> #[trigger] differences[i] == value)
                ==> #[trigger] summary.change.absolute_median.base_value().equals(value),
{
    let of_baseline = |draw: Draw<M>| draw.baseline.base_value();
    let of_candidate = |draw: Draw<M>| draw.candidate.base_value();
    assert(side_values(draws, true) =~= draws.map_values(of_baseline));
    assert(side_values(draws, false) =~= draws.map_values(of_candidate));
    assert(in_order(baselines));
    assert(in_order(candidates));
    assert(in_order(changes));
    assert(are_changes(draws, subtract, differences));
    let series = ordered_series(
        draws,
        intervals,
        subtract,
        percent,
        locate,
        blend,
        share,
        baselines,
        candidates,
        differences,
        changes,
        summary,
    );
    let (absolute, relative) = choose|absolute: Seq<Scalar>, relative: Seq<Scalar>| #[trigger]
        ordered_from(
            draws,
            subtract,
            percent,
            absolute,
            relative,
            Ok::<Series, QuantilesError>(series),
        );
    assert(absolute.to_multiset() == changes.to_multiset());
    if holds_nan(baselines) {
        nan_is_shared(baselines, side_values(draws, true));
    }
    if holds_nan(candidates) {
        nan_is_shared(candidates, side_values(draws, false));
    }
    if holds_nan(changes) {
        nan_is_shared(changes, absolute);
    }
    let median = Level::Median;
    let shown = summary.baseline.base_value();
    quantiles_stay_within_the_data(baselines, median, locate, blend, shown);
    let (least, greatest) = ends_occur(baselines, side_values(draws, true));
    assert(draws[least].baseline.base_value().at_most(shown));
    assert(shown.at_most(draws[greatest].baseline.base_value()));
    let shown = summary.candidate.base_value();
    quantiles_stay_within_the_data(candidates, median, locate, blend, shown);
    let (least, greatest) = ends_occur(candidates, side_values(draws, false));
    assert(draws[least].candidate.base_value().at_most(shown));
    assert(shown.at_most(draws[greatest].candidate.base_value()));
    let shown = summary.change.absolute_median.base_value();
    quantiles_stay_within_the_data(changes, median, locate, blend, shown);
    let (least, greatest) = ends_occur(changes, differences);
    assert(differences[least].at_most(shown));
    assert(shown.at_most(differences[greatest]));
}

/// Where the least and the greatest value of a series stood before it was put in
/// order.
proof fn ends_occur(ordered: Seq<Scalar>, values: Seq<Scalar>) -> (ends: (int, int))
    requires
        ordered.len() > 0,
        ordered.to_multiset() == values.to_multiset(),
    ensures
        0 <= ends.0 < values.len(),
        0 <= ends.1 < values.len(),
        values[ends.0] == ordered[0],
        values[ends.1] == ordered.last(),
{
    broadcast use vstd::seq_lib::group_to_multiset_ensures;

    assert(ordered.contains(ordered[0]));
    assert(ordered.contains(ordered[ordered.len() - 1]));
    assert(ordered.to_multiset().count(ordered[0]) > 0);
    assert(ordered.to_multiset().count(ordered.last()) > 0);
    assert(values.contains(ordered[0]));
    assert(values.contains(ordered.last()));
    let least = choose|i: int| 0 <= i < values.len() && values[i] == ordered[0];
    let greatest = choose|i: int| 0 <= i < values.len() && values[i] == ordered.last();
    (least, greatest)
}

/// Draws are summarized unless there are none or some number is not one: a value
/// of a side, a difference, or, where no baseline is zero, a percentage.
pub proof fn only_numbers_are_summarized<
    M: Metric,
    F: Fn(Scalar, Scalar) -> Scalar,
    G: Fn(Scalar, Scalar) -> Scalar,
    L: Fn(usize, Level) -> (usize, usize, Scalar),
    B: Fn(Scalar, Scalar, Scalar) -> Scalar,
    S: Fn(usize, usize) -> Scalar,
>(
    draws: Seq<Draw<M>>,
    intervals: Seq<Interval>,
    subtract: F,
    percent: G,
    locate: L,
    blend: B,
    share: S,
    differences: Seq<Scalar>,
    percentages: Seq<Scalar>,
    result: Result<Summary<M>, QuantilesError>,
)
    requires
        is_function(subtract),
        is_function(percent),
        summary_of(draws, intervals, subtract, percent, locate, blend, share, result),
        differences.len() == draws.len(),
        forall|i: int|
            0 <= i < draws.len() ==> subtract.ensures(
                (draws[i].candidate.base_value(), draws[i].baseline.base_value()),
                #[trigger] differences[i],
            ),
        percentages.len() == draws.len(),
        forall|i: int|
            0 <= i < draws.len() ==> percent.ensures(
                (draws[i].candidate.base_value(), draws[i].baseline.base_value()),
                #[trigger] percentages[i],
            ),
    ensures
        result == Err::<Summary<M>, QuantilesError>(QuantilesError::Empty) <==> draws.len() == 0,
        result == Err::<Summary<M>, QuantilesError>(QuantilesError::NotANumber) <==> {
            ||| exists|i: int|
                0 <= i < draws.len() && (#[trigger] draws[i]).baseline.base_value().nan()
            ||| exists|i: int|
                0 <= i < draws.len() && (#[trigger] draws[i]).candidate.base_value().nan()
            ||| exists|i: int| 0 <= i < draws.len() && (#[trigger] differences[i]).nan()
            ||| (exists|i: int| 0 <= i < draws.len() && (#[trigger] percentages[i]).nan()) && forall|
                i: int,
            |
                0 <= i < draws.len() ==> (#[trigger] draws[i]).baseline.base_value().position() != 0
        },
{
    let ordered = choose|ordered: Result<Series, QuantilesError>|
        {
            &&& #[trigger] series_of(draws, subtract, percent, ordered)
            &&& match (ordered, result) {
                (Ok(series), Ok(summary)) => summary_shows(
                    summary,
                    series,
                    intervals,
                    locate,
                    blend,
                    share,
                ),
                (Err(fault), Err(said)) => fault == said,
                _ => false,
            }
        };
    let (absolute, relative) = choose|absolute: Seq<Scalar>, relative: Seq<Scalar>| #[trigger]
        ordered_from(draws, subtract, percent, absolute, relative, ordered);
    assert forall|i: int| 0 <= i < draws.len() implies #[trigger] absolute[i] == differences[i] by {
        assert(call_ensures(
            subtract,
            (draws[i].candidate.base_value(), draws[i].baseline.base_value()),
            absolute[i],
        ));
        assert(call_ensures(
            subtract,
            (draws[i].candidate.base_value(), draws[i].baseline.base_value()),
            differences[i],
        ));
    }
    assert(absolute =~= differences);
    if has_relative(draws) {
        assert forall|i: int| 0 <= i < draws.len() implies #[trigger] relative[i]
            == percentages[i] by {
            assert(call_ensures(
                percent,
                (draws[i].candidate.base_value(), draws[i].baseline.base_value()),
                relative[i],
            ));
            assert(call_ensures(
                percent,
                (draws[i].candidate.base_value(), draws[i].baseline.base_value()),
                percentages[i],
            ));
        }
        assert(relative =~= percentages);
    }
    let baselines = side_values(draws, true);
    let candidates = side_values(draws, false);
    assert forall|i: int| 0 <= i < draws.len() implies #[trigger] baselines[i]
        == draws[i].baseline.base_value() && candidates[i] == draws[i].candidate.base_value() by {}
    assert(holds_nan(baselines) <==> exists|i: int|
        0 <= i < draws.len() && (#[trigger] draws[i]).baseline.base_value().nan()) by {
        if exists|i: int|
            0 <= i < draws.len() && (#[trigger] draws[i]).baseline.base_value().nan() {
            let i = choose|i: int|
                0 <= i < draws.len() && (#[trigger] draws[i]).baseline.base_value().nan();
            assert(baselines[i].nan());
        }
        if holds_nan(baselines) {
            let i = choose|i: int| 0 <= i < baselines.len() && (#[trigger] baselines[i]).nan();
            assert(draws[i].baseline.base_value().nan());
        }
    }
    assert(holds_nan(candidates) <==> exists|i: int|
        0 <= i < draws.len() && (#[trigger] draws[i]).candidate.base_value().nan()) by {
        if exists|i: int|
            0 <= i < draws.len() && (#[trigger] draws[i]).candidate.base_value().nan() {
            let i = choose|i: int|
                0 <= i < draws.len() && (#[trigger] draws[i]).candidate.base_value().nan();
            assert(candidates[i].nan());
        }
        if holds_nan(candidates) {
            let i = choose|i: int| 0 <= i < candidates.len() && (#[trigger] candidates[i]).nan();
            assert(draws[i].candidate.base_value().nan());
        }
    }
}

/// Widths, ranges, bounds, changes and summaries are equal where all of their
/// parts are, and bounds only where there are as many, one by one.
pub proof fn summaries_are_equal_by_their_parts<M: PartialEq>(
    widths: (Interval, Interval),
    ranges: (Range<M>, Range<M>),
    bounds: (ChangeBounds<M>, ChangeBounds<M>),
    changes: (Change<M>, Change<M>),
    summaries: (Summary<M>, Summary<M>),
)
    ensures
        PartialEqSpec::eq_spec(&widths.0, &widths.1) <==> widths.0@.equals(widths.1@),
        PartialEqSpec::eq_spec(&ranges.0, &ranges.1) <==> PartialEqSpec::eq_spec(
            &ranges.0.lower,
            &ranges.1.lower,
        ) && PartialEqSpec::eq_spec(&ranges.0.upper, &ranges.1.upper),
        PartialEqSpec::eq_spec(&bounds.0, &bounds.1) <==> PartialEqSpec::eq_spec(
            &bounds.0.interval,
            &bounds.1.interval,
        ) && PartialEqSpec::eq_spec(&bounds.0.absolute, &bounds.1.absolute)
            && PartialEqSpec::eq_spec(&bounds.0.relative, &bounds.1.relative),
        PartialEqSpec::eq_spec(&changes.0, &changes.1) <==> PartialEqSpec::eq_spec(
            &changes.0.absolute_median,
            &changes.1.absolute_median,
        ) && PartialEqSpec::eq_spec(&changes.0.relative_median, &changes.1.relative_median)
            && changes.0.intervals@.len() == changes.1.intervals@.len() && forall|i: int|
            0 <= i < changes.0.intervals@.len() ==> PartialEqSpec::eq_spec(
                &(#[trigger] changes.0.intervals@[i]),
                &changes.1.intervals@[i],
            ),
        PartialEqSpec::eq_spec(&summaries.0, &summaries.1) <==> PartialEqSpec::eq_spec(
            &summaries.0.baseline,
            &summaries.1.baseline,
        ) && PartialEqSpec::eq_spec(&summaries.0.candidate, &summaries.1.candidate)
            && PartialEqSpec::eq_spec(&summaries.0.change, &summaries.1.change)
            && summaries.0.probability_candidate_lower.equals(
            summaries.1.probability_candidate_lower,
        ) && summaries.0.draws == summaries.1.draws,
{
}

} // verus!
