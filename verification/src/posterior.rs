//! Bootstrap draws of the adjusted means, and how they are collected.

use crate::metric::Metric;
use crate::scalar::Scalar;
use crate::summary::{locates, summary_of, Interval, Level, QuantilesError, Summary};
use vstd::prelude::*;
use vstd::std_specs::cmp::PartialEqSpec;

verus! {

/// A prior count of no-change pseudo-observations, finite and nonnegative.
#[derive(Clone, Copy, Debug)]
pub struct Shrinkage {
    value: Scalar,
}

impl PartialEq for Shrinkage {
    fn eq(&self, other: &Shrinkage) -> (answer: bool) {
        self.value == other.value
    }
}

impl vstd::std_specs::cmp::PartialEqSpecImpl for Shrinkage {
    open spec fn obeys_eq_spec() -> bool {
        true
    }

    open spec fn eq_spec(&self, other: &Shrinkage) -> bool {
        self@.equals(other@)
    }
}

/// A value that is no count of pseudo-observations.
#[derive(Clone, Copy, Debug, PartialEq)]
pub struct InvalidShrinkage {
    pub value: Scalar,
}

impl InvalidShrinkage {
    /// What is said of the value, as it is shown.
    pub fn message(&self, shown: &str) -> (text: String)
        ensures
            text@ == "Shrinkage must be finite and nonnegative, got "@ + shown@ + "."@,
    {
        "Shrinkage must be finite and nonnegative, got ".to_owned().concat(shown).concat(".")
    }
}

impl View for Shrinkage {
    type V = Scalar;

    closed spec fn view(&self) -> Scalar {
        self.value
    }
}

impl Shrinkage {
    #[verifier::type_invariant]
    closed spec fn valid(self) -> bool {
        self.value.finite() && self.value.units() >= 0
    }

    /// No shrinkage.
    pub fn none() -> (shrinkage: Shrinkage)
        ensures
            shrinkage@ == (Scalar { bits: 0 }),
            shrinkage@.units() == 0,
    {
        Shrinkage { value: Scalar { bits: 0 } }
    }

    /// Accepts a finite, nonnegative count.
    pub fn new(value: Scalar) -> (result: Result<Shrinkage, InvalidShrinkage>)
        ensures
            match result {
                Ok(shrinkage) => shrinkage@ == value && value.finite() && value.units() >= 0,
                Err(error) => error.value == value && !(value.finite() && value.units() >= 0),
            },
            result is Ok <==> value.bits < 0x7FF0_0000_0000_0000 || value.bits
                == 0x8000_0000_0000_0000,
    {
        let zero = Scalar { bits: 0 };
        proof {
            crate::scalar::units_follow_position(value, zero);
        }
        if value.is_finite() && !value.is_below(zero) {
            Ok(Shrinkage { value })
        } else {
            Err(InvalidShrinkage { value })
        }
    }

    /// The count.
    pub fn get(self) -> (value: Scalar)
        ensures
            value == self@,
            value.finite(),
            value.units() >= 0,
    {
        proof {
            use_type_invariant(&self);
        }
        self.value
    }

    /// Whether nothing is shrunk, so that no prior weight is drawn.
    pub fn is_none(self) -> (answer: bool)
        ensures
            answer == (self@.units() == 0),
            answer <==> self@.bits == 0 || self@.bits == 0x8000_0000_0000_0000,
    {
        proof {
            use_type_invariant(&self);
        }
        self.value.is_zero()
    }
}

/// One bootstrap draw of the drift and order adjusted mean baseline and
/// candidate value.
#[derive(Clone, Copy, Debug)]
pub struct Draw<M> {
    pub baseline: M,
    pub candidate: M,
}

impl<M: PartialEq> PartialEq for Draw<M> {
    fn eq(&self, other: &Draw<M>) -> (answer: bool) {
        self.baseline == other.baseline && self.candidate == other.candidate
    }
}

impl<M: PartialEq> vstd::std_specs::cmp::PartialEqSpecImpl for Draw<M> {
    open spec fn obeys_eq_spec() -> bool {
        <M as PartialEqSpec>::obeys_eq_spec()
    }

    open spec fn eq_spec(&self, other: &Draw<M>) -> bool {
        PartialEqSpec::eq_spec(&self.baseline, &other.baseline) && PartialEqSpec::eq_spec(&self.candidate, &other.candidate)
    }
}

impl<M: Metric> Draw<M> {
    /// The candidate value less the baseline value, as `subtract` computes it.
    pub fn absolute<F: Fn(Scalar, Scalar) -> Scalar>(self, subtract: F) -> (change: M)
        requires
            subtract.requires((self.candidate.base_value(), self.baseline.base_value())),
        ensures
            subtract.ensures(
                (self.candidate.base_value(), self.baseline.base_value()),
                change.base_value(),
            ),
            change == M::of_base(change.base_value()),
    {
        let difference = subtract(self.candidate.base(), self.baseline.base());
        M::from_base(difference)
    }

    /// The change in percent of the baseline value, as `percent` computes it
    /// from the candidate and the baseline value; nothing where the baseline
    /// value is zero.
    pub fn relative<F: Fn(Scalar, Scalar) -> Scalar>(self, percent: F) -> (change: Option<Scalar>)
        requires
            self.baseline.base_value().position() != 0 ==> percent.requires(
                (self.candidate.base_value(), self.baseline.base_value()),
            ),
        ensures
            match change {
                Some(change) => {
                    &&& self.baseline.base_value().position() != 0
                    &&& percent.ensures(
                        (self.candidate.base_value(), self.baseline.base_value()),
                        change,
                    )
                },
                None => self.baseline.base_value().position() == 0,
            },
    {
        let baseline = self.baseline.base();
        if baseline.is_zero() {
            None
        } else {
            Some(percent(self.candidate.base(), baseline))
        }
    }
}

/// Posterior draws of one metric's adjusted means.
pub struct Posterior<M> {
    draws: Vec<Draw<M>>,
}

impl<M> View for Posterior<M> {
    type V = Seq<Draw<M>>;

    closed spec fn view(&self) -> Seq<Draw<M>> {
        self.draws@
    }
}

impl<M> Posterior<M> {
    #[verifier::type_invariant]
    closed spec fn valid(self) -> bool {
        self.draws@.len() > 0
    }

    /// The draws in the order in which they were made; never empty.
    pub fn draws(&self) -> (draws: &[Draw<M>])
        ensures
            draws@ == self@,
            draws@.len() > 0,
    {
        proof {
            use_type_invariant(self);
        }
        self.draws.as_slice()
    }
}

/// Why a posterior cannot be summarized.
#[derive(Clone, Copy, Debug, PartialEq, Eq, Structural)]
pub enum SummaryError {
    NoIntervals,
    Unordered(QuantilesError),
}

impl SummaryError {
    /// What is said of the error.
    pub fn message(self) -> (text: &'static str)
        ensures
            text@ == (match self {
                SummaryError::NoIntervals => "At least one interval is required."@,
                SummaryError::Unordered(QuantilesError::Empty) => "Posterior is empty."@,
                SummaryError::Unordered(QuantilesError::NotANumber) => "Posterior contains NaN."@,
            }),
    {
        match self {
            SummaryError::NoIntervals => "At least one interval is required.",
            SummaryError::Unordered(fault) => fault.message(),
        }
    }
}

impl<M: Metric> Posterior<M> {
    /// Summarizes the posterior at some interval widths. `subtract` and
    /// `percent` compute the change of each draw, `locate` and `blend` the
    /// quantiles, and `share` how much one number is of another.
    pub fn summarize<
        F: Fn(Scalar, Scalar) -> Scalar + Copy,
        G: Fn(Scalar, Scalar) -> Scalar + Copy,
        L: Fn(usize, Level) -> (usize, usize, Scalar) + Copy,
        B: Fn(Scalar, Scalar, Scalar) -> Scalar + Copy,
        S: Fn(usize, usize) -> Scalar,
    >(
        &self,
        intervals: &Vec<Interval>,
        subtract: F,
        percent: G,
        locate: L,
        blend: B,
        share: S,
    ) -> (result: Result<Summary<M>, SummaryError>)
        requires
            forall|one: Scalar, other: Scalar| #[trigger] subtract.requires((one, other)),
            forall|one: Scalar, other: Scalar|
                other.position() != 0 ==> #[trigger] percent.requires((one, other)),
            locates(locate),
            forall|lower: Scalar, upper: Scalar, part: Scalar| #[trigger]
                blend.requires((lower, upper, part)),
            forall|part: usize, whole: usize|
                part <= whole && whole > 0 ==> #[trigger] share.requires((part, whole)),
        ensures
            match result {
                Ok(summary) => {
                    &&& intervals@.len() > 0
                    &&& summary_of(
                        self@,
                        intervals@,
                        subtract,
                        percent,
                        locate,
                        blend,
                        share,
                        Ok(summary),
                    )
                },
                Err(SummaryError::NoIntervals) => intervals@.len() == 0,
                Err(SummaryError::Unordered(fault)) => {
                    &&& intervals@.len() > 0
                    &&& summary_of(
                        self@,
                        intervals@,
                        subtract,
                        percent,
                        locate,
                        blend,
                        share,
                        Err(fault),
                    )
                },
            },
    {
        if intervals.len() == 0 {
            return Err(SummaryError::NoIntervals);
        }
        let draws = self.draws.as_slice();
        match Summary::from_draws(draws, intervals, subtract, percent, locate, blend, share) {
            Ok(summary) => Ok(summary),
            Err(fault) => Err(SummaryError::Unordered(fault)),
        }
    }
}

/// What the bootstrap does next.
#[derive(Clone, Copy, Debug, PartialEq, Eq, Structural)]
pub enum BootstrapStep {
    /// See whether the run was cancelled.
    Check,
    /// Make a draw.
    Sample,
    /// Nothing: all draws are made.
    Finish,
}

/// Draws being collected, with a check for cancellation before each.
pub struct Bootstrap<M> {
    wanted: usize,
    draws: Vec<Draw<M>>,
    checked: bool,
}

impl<M> Bootstrap<M> {
    #[verifier::type_invariant]
    closed spec fn valid(self) -> bool {
        &&& self.wanted > 0
        &&& self.draws@.len() <= self.wanted
        &&& self.checked ==> self.draws@.len() < self.wanted
    }

    /// How many draws are wanted.
    pub closed spec fn total(self) -> nat {
        self.wanted as nat
    }

    /// The draws made so far.
    pub closed spec fn made(self) -> Seq<Draw<M>> {
        self.draws@
    }

    /// Whether the check before the next draw was passed.
    pub closed spec fn cleared(self) -> bool {
        self.checked
    }

    /// What comes next: a check and then a draw until all draws are made.
    pub open spec fn step(self) -> BootstrapStep {
        if self.made().len() >= self.total() {
            BootstrapStep::Finish
        } else if self.cleared() {
            BootstrapStep::Sample
        } else {
            BootstrapStep::Check
        }
    }

    /// Starts to collect draws.
    pub fn new(draws: usize) -> (bootstrap: Bootstrap<M>)
        requires
            draws > 0,
        ensures
            bootstrap.total() == draws,
            bootstrap.made() == Seq::<Draw<M>>::empty(),
            !bootstrap.cleared(),
    {
        Bootstrap { wanted: draws, draws: Vec::new(), checked: false }
    }

    /// What comes next.
    pub fn next(&self) -> (step: BootstrapStep)
        ensures
            step == self.step(),
            step is Finish <==> self.made().len() >= self.total(),
            step is Sample <==> self.made().len() < self.total() && self.cleared(),
            step is Check <==> self.made().len() < self.total() && !self.cleared(),
    {
        if self.draws.len() >= self.wanted {
            BootstrapStep::Finish
        } else if self.checked {
            BootstrapStep::Sample
        } else {
            BootstrapStep::Check
        }
    }

    /// Goes on after a check that found no cancellation.
    pub fn pass(&mut self)
        requires
            old(self).step() == BootstrapStep::Check,
        ensures
            final(self).total() == old(self).total(),
            final(self).made() == old(self).made(),
            final(self).cleared(),
    {
        self.checked = true;
    }

    /// Takes the next draw.
    pub fn sample(&mut self, draw: Draw<M>)
        requires
            old(self).step() == BootstrapStep::Sample,
        ensures
            final(self).total() == old(self).total(),
            final(self).made() == old(self).made().push(draw),
            !final(self).cleared(),
    {
        proof {
            use_type_invariant(&*self);
        }
        let mut draws: Vec<Draw<M>> = Vec::new();
        std::mem::swap(&mut draws, &mut self.draws);
        draws.push(draw);
        self.checked = false;
        self.draws = draws;
    }

    /// The posterior of all draws.
    pub fn finish(self) -> (posterior: Posterior<M>)
        requires
            self.step() == BootstrapStep::Finish,
        ensures
            posterior@ == self.made(),
            posterior@.len() == self.total(),
    {
        proof {
            use_type_invariant(&self);
        }
        Posterior { draws: self.draws }
    }
}

/// A bootstrap checks for cancellation before each draw and makes no draw
/// without a check; once it has all the draws that it wants it is done.
pub proof fn every_draw_is_checked_for<M>(bootstrap: Bootstrap<M>)
    ensures
        bootstrap.step() is Finish <==> bootstrap.made().len() >= bootstrap.total(),
        bootstrap.step() is Sample <==> bootstrap.made().len() < bootstrap.total()
            && bootstrap.cleared(),
        bootstrap.step() is Check <==> bootstrap.made().len() < bootstrap.total()
            && !bootstrap.cleared(),
{
}

/// Shrinkages are equal where their counts are, and draws where both of their
/// values are.
pub proof fn draws_are_equal_by_their_values<M: PartialEq>(
    counts: (Shrinkage, Shrinkage),
    draws: (Draw<M>, Draw<M>),
)
    ensures
        PartialEqSpec::eq_spec(&counts.0, &counts.1) <==> counts.0@.equals(counts.1@),
        PartialEqSpec::eq_spec(&draws.0, &draws.1) <==> PartialEqSpec::eq_spec(
            &draws.0.baseline,
            &draws.1.baseline,
        ) && PartialEqSpec::eq_spec(&draws.0.candidate, &draws.1.candidate),
{
}

} // verus!
