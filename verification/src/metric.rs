//! What a run is measured by, and the units that a measurement is shown in.

use crate::scalar::{Scalar, ONE};
use crate::text::same;
use vstd::prelude::*;
use vstd::std_specs::cmp::PartialEqSpec;

verus! {

/// The pattern of a thousand.
pub const THOUSAND: u64 = 0x408F_4000_0000_0000;

/// The pattern of a million.
pub const MILLION: u64 = 0x412E_8480_0000_0000;

/// The pattern of a billion.
pub const BILLION: u64 = 0x41CD_CD65_0000_0000;

/// The pattern of a thousandth.
pub const THOUSANDTH: u64 = 0x3F50_624D_D2F1_A9FC;

/// The pattern of a millionth.
pub const MILLIONTH: u64 = 0x3EB0_C6F7_A0B5_ED8D;

/// The pattern of a billionth.
pub const BILLIONTH: u64 = 0x3E11_2E0B_E826_D695;

/// A unit that a measurement is shown in: what its base value is multiplied
/// by, and the symbol behind it.
#[derive(Clone, Copy, Debug)]
pub struct Unit {
    pub scale: Scalar,
    pub symbol: &'static str,
}

impl PartialEq for Unit {
    fn eq(&self, other: &Unit) -> (answer: bool) {
        self.scale == other.scale && same(self.symbol, other.symbol)
    }
}

impl vstd::std_specs::cmp::PartialEqSpecImpl for Unit {
    open spec fn obeys_eq_spec() -> bool {
        true
    }

    open spec fn eq_spec(&self, other: &Unit) -> bool {
        self.scale.equals(other.scale) && self.symbol@ == other.symbol@
    }
}

/// A quantity that runs are compared by.
pub trait Metric: Copy {
    /// The value in base units.
    spec fn base_value(self) -> Scalar;

    /// The measurement that has a value in base units.
    spec fn of_base(value: Scalar) -> Self;

    /// What a candidate with the lower value is called.
    spec fn lower_name() -> Seq<char>;

    /// The name of the base unit.
    spec fn base_name() -> Seq<char>;

    /// The scale of the unit that a value is shown in.
    spec fn shown_scale(value: Scalar) -> Scalar;

    /// The symbol of the unit that a value is shown in.
    spec fn shown_symbol(value: Scalar) -> Seq<char>;

    fn lower() -> (name: &'static str)
        ensures
            name@ == Self::lower_name(),
    ;

    fn base_unit() -> (name: &'static str)
        ensures
            name@ == Self::base_name(),
    ;

    fn from_base(value: Scalar) -> (measurement: Self)
        ensures
            measurement == Self::of_base(value),
            measurement.base_value() == value,
    ;

    fn base(self) -> (value: Scalar)
        ensures
            value == self.base_value(),
    ;

    fn display_unit(magnitude: Self) -> (unit: Unit)
        ensures
            unit.scale == Self::shown_scale(magnitude.base_value()),
            unit.symbol@ == Self::shown_symbol(magnitude.base_value()),
    ;
}

/// Elapsed time in seconds.
#[derive(Clone, Copy, Debug)]
pub struct Time {
    seconds: Scalar,
}

impl PartialEq for Time {
    fn eq(&self, other: &Time) -> (answer: bool) {
        self.seconds == other.seconds
    }
}

impl vstd::std_specs::cmp::PartialEqSpecImpl for Time {
    open spec fn obeys_eq_spec() -> bool {
        true
    }

    open spec fn eq_spec(&self, other: &Time) -> bool {
        self.base_value().equals(other.base_value())
    }
}

impl Metric for Time {
    closed spec fn base_value(self) -> Scalar {
        self.seconds
    }

    closed spec fn of_base(value: Scalar) -> Time {
        Time { seconds: value }
    }

    open spec fn lower_name() -> Seq<char> {
        "faster"@
    }

    open spec fn base_name() -> Seq<char> {
        "seconds"@
    }

    /// Seconds from one second on, then a thousandth at a time.
    open spec fn shown_scale(value: Scalar) -> Scalar {
        if value.reaches(ONE as nat) {
            Scalar { bits: ONE }
        } else if value.reaches(THOUSANDTH as nat) {
            Scalar { bits: THOUSAND }
        } else if value.reaches(MILLIONTH as nat) {
            Scalar { bits: MILLION }
        } else {
            Scalar { bits: BILLION }
        }
    }

    open spec fn shown_symbol(value: Scalar) -> Seq<char> {
        if value.reaches(ONE as nat) {
            "s"@
        } else if value.reaches(THOUSANDTH as nat) {
            "ms"@
        } else if value.reaches(MILLIONTH as nat) {
            "\u{b5}s"@
        } else {
            "ns"@
        }
    }

    fn lower() -> (name: &'static str) {
        "faster"
    }

    fn base_unit() -> (name: &'static str) {
        "seconds"
    }

    fn from_base(value: Scalar) -> (measurement: Time) {
        Time { seconds: value }
    }

    fn base(self) -> (value: Scalar) {
        self.seconds
    }

    fn display_unit(magnitude: Time) -> (unit: Unit) {
        let seconds = magnitude.seconds;
        if seconds.is_at_least(ONE) {
            Unit { scale: Scalar { bits: ONE }, symbol: "s" }
        } else if seconds.is_at_least(THOUSANDTH) {
            Unit { scale: Scalar { bits: THOUSAND }, symbol: "ms" }
        } else if seconds.is_at_least(MILLIONTH) {
            Unit { scale: Scalar { bits: MILLION }, symbol: "\u{b5}s" }
        } else {
            Unit { scale: Scalar { bits: BILLION }, symbol: "ns" }
        }
    }
}

/// Peak memory in bytes.
#[derive(Clone, Copy, Debug)]
pub struct PeakMemory {
    bytes: Scalar,
}

impl PartialEq for PeakMemory {
    fn eq(&self, other: &PeakMemory) -> (answer: bool) {
        self.bytes == other.bytes
    }
}

impl vstd::std_specs::cmp::PartialEqSpecImpl for PeakMemory {
    open spec fn obeys_eq_spec() -> bool {
        true
    }

    open spec fn eq_spec(&self, other: &PeakMemory) -> bool {
        self.base_value().equals(other.base_value())
    }
}

impl Metric for PeakMemory {
    closed spec fn base_value(self) -> Scalar {
        self.bytes
    }

    closed spec fn of_base(value: Scalar) -> PeakMemory {
        PeakMemory { bytes: value }
    }

    open spec fn lower_name() -> Seq<char> {
        "smaller"@
    }

    open spec fn base_name() -> Seq<char> {
        "bytes"@
    }

    /// Decimal, matching the names: `KB` is 1000 bytes, not 1024.
    open spec fn shown_scale(value: Scalar) -> Scalar {
        if value.reaches(BILLION as nat) {
            Scalar { bits: BILLIONTH }
        } else if value.reaches(MILLION as nat) {
            Scalar { bits: MILLIONTH }
        } else if value.reaches(THOUSAND as nat) {
            Scalar { bits: THOUSANDTH }
        } else {
            Scalar { bits: ONE }
        }
    }

    open spec fn shown_symbol(value: Scalar) -> Seq<char> {
        if value.reaches(BILLION as nat) {
            "GB"@
        } else if value.reaches(MILLION as nat) {
            "MB"@
        } else if value.reaches(THOUSAND as nat) {
            "KB"@
        } else {
            "B"@
        }
    }

    fn lower() -> (name: &'static str) {
        "smaller"
    }

    fn base_unit() -> (name: &'static str) {
        "bytes"
    }

    fn from_base(value: Scalar) -> (measurement: PeakMemory) {
        PeakMemory { bytes: value }
    }

    fn base(self) -> (value: Scalar) {
        self.bytes
    }

    fn display_unit(magnitude: PeakMemory) -> (unit: Unit) {
        let bytes = magnitude.bytes;
        if bytes.is_at_least(BILLION) {
            Unit { scale: Scalar { bits: BILLIONTH }, symbol: "GB" }
        } else if bytes.is_at_least(MILLION) {
            Unit { scale: Scalar { bits: MILLIONTH }, symbol: "MB" }
        } else if bytes.is_at_least(THOUSAND) {
            Unit { scale: Scalar { bits: THOUSANDTH }, symbol: "KB" }
        } else {
            Unit { scale: Scalar { bits: ONE }, symbol: "B" }
        }
    }
}

/// The unit that suits the larger of two measurements, for showing both in.
pub open spec fn larger_value(one: Scalar, other: Scalar) -> Scalar {
    if !one.nan() && !other.nan() && one.magnitude() >= other.magnitude() {
        one
    } else {
        other
    }
}

/// The unit that suits the larger of two measurements, for showing both in.
pub fn shared<M: Metric>(one: M, other: M) -> (unit: Unit)
    ensures
        unit.scale == M::shown_scale(larger_value(one.base_value(), other.base_value())),
        unit.symbol@ == M::shown_symbol(larger_value(one.base_value(), other.base_value())),
        ({
            let first = one.base_value();
            let second = other.base_value();
            if !first.nan() && !second.nan() && first.magnitude() >= second.magnitude() {
                unit.scale == M::shown_scale(first) && unit.symbol@ == M::shown_symbol(first)
            } else {
                unit.scale == M::shown_scale(second) && unit.symbol@ == M::shown_symbol(second)
            }
        }),
{
    let first = one.base();
    let second = other.base();
    if !first.is_nan() && !second.is_nan() && first.absolute_bits() >= second.absolute_bits() {
        M::display_unit(one)
    } else {
        M::display_unit(other)
    }
}

/// A fall is shown in the unit that a rise of the same size is shown in.
pub proof fn units_ignore_the_sign(fall: Scalar, rise: Scalar)
    requires
        fall.magnitude() == rise.magnitude(),
    ensures
        Time::shown_scale(fall) == Time::shown_scale(rise),
        Time::shown_symbol(fall) == Time::shown_symbol(rise),
        PeakMemory::shown_scale(fall) == PeakMemory::shown_scale(rise),
        PeakMemory::shown_symbol(fall) == PeakMemory::shown_symbol(rise),
{
}

/// The units that times and amounts of memory are shown in, by the patterns of
/// the bounds and of the scales: a time in seconds from one second on, in
/// thousandths from one of these on, then in millionths and else in billionths;
/// memory in bytes below a thousand, then in thousands, millions and billions.
pub proof fn these_are_the_units(value: Scalar)
    ensures
        value.reaches(0x3FF0_0000_0000_0000) ==> Time::shown_scale(value) == (Scalar {
            bits: 0x3FF0_0000_0000_0000,
        }) && Time::shown_symbol(value) == "s"@,
        value.reaches(0x3F50_624D_D2F1_A9FC) && !value.reaches(0x3FF0_0000_0000_0000) ==> Time::shown_scale(value) == (Scalar {
            bits: 0x408F_4000_0000_0000,
        }) && Time::shown_symbol(value) == "ms"@,
        value.reaches(0x3EB0_C6F7_A0B5_ED8D) && !value.reaches(0x3F50_624D_D2F1_A9FC) ==> Time::shown_scale(value) == (Scalar {
            bits: 0x412E_8480_0000_0000,
        }) && Time::shown_symbol(value) == "\u{b5}s"@,
        !value.reaches(0x3EB0_C6F7_A0B5_ED8D) ==> Time::shown_scale(value) == (Scalar {
            bits: 0x41CD_CD65_0000_0000,
        }) && Time::shown_symbol(value) == "ns"@,
        value.reaches(0x41CD_CD65_0000_0000) ==> PeakMemory::shown_scale(value) == (Scalar {
            bits: 0x3E11_2E0B_E826_D695,
        }) && PeakMemory::shown_symbol(value) == "GB"@,
        value.reaches(0x412E_8480_0000_0000) && !value.reaches(0x41CD_CD65_0000_0000) ==> PeakMemory::shown_scale(value) == (Scalar {
            bits: 0x3EB0_C6F7_A0B5_ED8D,
        }) && PeakMemory::shown_symbol(value) == "MB"@,
        value.reaches(0x408F_4000_0000_0000) && !value.reaches(0x412E_8480_0000_0000) ==> PeakMemory::shown_scale(value) == (Scalar {
            bits: 0x3F50_624D_D2F1_A9FC,
        }) && PeakMemory::shown_symbol(value) == "KB"@,
        !value.reaches(0x408F_4000_0000_0000) ==> PeakMemory::shown_scale(value) == (Scalar {
            bits: 0x3FF0_0000_0000_0000,
        }) && PeakMemory::shown_symbol(value) == "B"@,
        Time::lower_name() == "faster"@,
        Time::base_name() == "seconds"@,
        PeakMemory::lower_name() == "smaller"@,
        PeakMemory::base_name() == "bytes"@,
{
}

/// Measurements and units are equal where their numbers are, and units only
/// where their symbols are, too.
pub proof fn measurements_are_equal_by_their_numbers(
    times: (Time, Time),
    amounts: (PeakMemory, PeakMemory),
    units: (Unit, Unit),
)
    ensures
        PartialEqSpec::eq_spec(&times.0, &times.1) <==> times.0.base_value().equals(
            times.1.base_value(),
        ),
        PartialEqSpec::eq_spec(&amounts.0, &amounts.1) <==> amounts.0.base_value().equals(
            amounts.1.base_value(),
        ),
        PartialEqSpec::eq_spec(&units.0, &units.1) <==> units.0.scale.equals(units.1.scale)
            && units.0.symbol@ == units.1.symbol@,
{
}

} // verus!
