//! Floating-point numbers by their bit patterns: which ones are finite, and
//! how they are ordered.

use vstd::arithmetic::power2::pow2;
use vstd::prelude::*;

verus! {

/// The bit that marks a negative number.
pub const SIGN: u64 = 0x8000_0000_0000_0000;

/// The pattern of positive infinity; larger magnitudes are not numbers.
pub const INFINITY: u64 = 0x7FF0_0000_0000_0000;

/// The pattern of the number one.
pub const ONE: u64 = 0x3FF0_0000_0000_0000;

/// How many magnitudes share an exponent.
pub const FRACTIONS: u64 = 0x0010_0000_0000_0000;

/// An IEEE 754 binary64 number, held as its bit pattern. Two values are equal
/// where the numbers are: the zeros are, and a pattern that is not a number
/// equals nothing, not even itself.
#[derive(Clone, Copy, Debug)]
pub struct Scalar {
    pub bits: u64,
}

impl PartialEq for Scalar {
    fn eq(&self, other: &Scalar) -> (answer: bool) {
        !self.is_nan() && !other.is_nan() && (self.bits == other.bits || (self.absolute_bits() == 0
            && other.absolute_bits() == 0))
    }
}

impl vstd::std_specs::cmp::PartialEqSpecImpl for Scalar {
    open spec fn obeys_eq_spec() -> bool {
        true
    }

    open spec fn eq_spec(&self, other: &Scalar) -> bool {
        self.equals(*other)
    }
}

/// The number that a magnitude pattern encodes, in units of the smallest
/// positive number.
pub open spec fn magnitude_units(magnitude: nat) -> nat {
    let exponent = magnitude / FRACTIONS as nat;
    let fraction = magnitude % FRACTIONS as nat;
    if exponent == 0 {
        fraction
    } else {
        (FRACTIONS as nat + fraction) * pow2((exponent - 1) as nat)
    }
}

impl Scalar {
    /// The pattern without its sign.
    pub open spec fn magnitude(self) -> nat {
        if self.bits < SIGN {
            self.bits as nat
        } else {
            (self.bits - SIGN) as nat
        }
    }

    /// Whether the pattern encodes no number at all.
    pub open spec fn nan(self) -> bool {
        self.magnitude() > INFINITY
    }

    /// Whether the pattern encodes a finite number.
    pub open spec fn finite(self) -> bool {
        self.magnitude() < INFINITY
    }

    /// The number that a finite pattern encodes, in units of the smallest
    /// positive number, which is two to the power of minus 1074.
    pub open spec fn units(self) -> int {
        if self.bits < SIGN {
            magnitude_units(self.magnitude()) as int
        } else {
            -(magnitude_units(self.magnitude()) as int)
        }
    }

    /// Where a pattern stands in the order of numbers; both zeros stand at 0.
    pub open spec fn position(self) -> int {
        if self.bits < SIGN {
            self.magnitude() as int
        } else {
            -(self.magnitude() as int)
        }
    }

    /// Whether one number is below another; never so of a pattern that is not
    /// a number.
    pub open spec fn below(self, other: Scalar) -> bool {
        !self.nan() && !other.nan() && self.position() < other.position()
    }

    /// Whether two numbers are equal; never so of a pattern that is not a
    /// number.
    pub open spec fn equals(self, other: Scalar) -> bool {
        !self.nan() && !other.nan() && self.position() == other.position()
    }

    /// Whether one number is at most another; never so of a pattern that is not
    /// a number.
    pub open spec fn at_most(self, other: Scalar) -> bool {
        !self.nan() && !other.nan() && self.position() <= other.position()
    }

    /// Where a pattern stands in the total order, in which negative zero
    /// comes before positive zero.
    pub open spec fn total_rank(self) -> int {
        if self.bits < SIGN {
            self.magnitude() as int
        } else {
            -(self.magnitude() as int) - 1
        }
    }

    /// Whether the magnitude is a number of at least another magnitude.
    pub open spec fn reaches(self, bound: nat) -> bool {
        !self.nan() && self.magnitude() >= bound
    }

    /// The pattern without its sign.
    pub fn absolute_bits(self) -> (bits: u64)
        ensures
            bits == self.magnitude(),
            self.bits < 0x8000_0000_0000_0000 ==> bits == self.bits,
            self.bits >= 0x8000_0000_0000_0000 ==> bits == self.bits - 0x8000_0000_0000_0000,
    {
        if self.bits < SIGN {
            self.bits
        } else {
            self.bits - SIGN
        }
    }

    /// Whether the pattern encodes no number at all.
    pub fn is_nan(self) -> (answer: bool)
        ensures
            answer == self.nan(),
            answer <==> 0x7FF0_0000_0000_0000 < self.bits < 0x8000_0000_0000_0000 || self.bits > 0xFFF0_0000_0000_0000,
    {
        self.absolute_bits() > INFINITY
    }

    /// Whether the pattern encodes a finite number.
    pub fn is_finite(self) -> (answer: bool)
        ensures
            answer == self.finite(),
            answer <==> self.bits < 0x7FF0_0000_0000_0000 || 0x8000_0000_0000_0000 <= self.bits < 0xFFF0_0000_0000_0000,
    {
        self.absolute_bits() < INFINITY
    }

    /// Whether the number is zero, of either sign.
    pub fn is_zero(self) -> (answer: bool)
        ensures
            answer == (self.position() == 0),
            answer <==> self.bits == 0 || self.bits == 0x8000_0000_0000_0000,
            self.finite() ==> answer == (self.units() == 0),
    {
        proof {
            units_follow_position(self, Scalar { bits: 0 });
            units_follow_position(Scalar { bits: 0 }, self);
        }
        self.absolute_bits() == 0
    }

    /// Whether the magnitude is a number of at least another magnitude.
    pub fn is_at_least(self, bound: u64) -> (answer: bool)
        ensures
            answer == self.reaches(bound as nat),
    {
        !self.is_nan() && self.absolute_bits() >= bound
    }

    /// Whether one number is below another.
    pub fn is_below(self, other: Scalar) -> (answer: bool)
        ensures
            answer == self.below(other),
    {
        if self.is_nan() || other.is_nan() {
            return false;
        }
        let own = self.absolute_bits();
        let others = other.absolute_bits();
        if self.bits < SIGN {
            other.bits < SIGN && own < others
        } else if other.bits < SIGN {
            own > 0 || others > 0
        } else {
            others < own
        }
    }

    /// Where the pattern stands in the total order.
    pub fn rank(self) -> (rank: i64)
        ensures
            rank == self.total_rank(),
            self.bits < 0x8000_0000_0000_0000 ==> rank == self.bits,
            self.bits >= 0x8000_0000_0000_0000 ==> rank == 0x8000_0000_0000_0000 - self.bits - 1,
    {
        if self.bits < SIGN {
            self.bits as i64
        } else {
            -((self.bits - SIGN) as i64) - 1
        }
    }

    /// The pattern that stands at a position of the total order.
    pub fn from_rank(rank: i64) -> (scalar: Scalar)
        ensures
            scalar.total_rank() == rank,
    {
        if rank >= 0 {
            Scalar { bits: rank as u64 }
        } else {
            Scalar { bits: SIGN + (-(rank + 1)) as u64 }
        }
    }
}

/// The total order tells any two patterns apart.
pub proof fn total_rank_is_injective(one: Scalar, other: Scalar)
    ensures
        one.total_rank() == other.total_rank() ==> one == other,
{
}

/// The next larger magnitude encodes a larger number.
proof fn units_step(magnitude: nat)
    ensures
        magnitude_units(magnitude) < magnitude_units(magnitude + 1),
{
    let size = FRACTIONS as nat;
    let exponent = magnitude / size;
    let fraction = magnitude % size;
    assert(magnitude == exponent * size + fraction && fraction < size) by {
        vstd::arithmetic::div_mod::lemma_fundamental_div_mod(magnitude as int, size as int);
        vstd::arithmetic::div_mod::lemma_mod_bound(magnitude as int, size as int);
        vstd::arithmetic::mul::lemma_mul_is_commutative(size as int, exponent as int);
    }
    if fraction + 1 < size {
        vstd::arithmetic::div_mod::lemma_fundamental_div_mod_converse(
            magnitude as int + 1,
            size as int,
            exponent as int,
            fraction as int + 1,
        );
        assert((magnitude + 1) / size == exponent && (magnitude + 1) % size == fraction + 1);
        if exponent > 0 {
            let scale = pow2((exponent - 1) as nat);
            vstd::arithmetic::power2::lemma_pow2_pos((exponent - 1) as nat);
            assert((size + fraction) * scale < (size + (fraction + 1)) * scale) by (nonlinear_arith)
                requires
                    scale > 0,
            ;
        }
    } else {
        assert((exponent + 1) * size == exponent * size + size) by (nonlinear_arith);
        vstd::arithmetic::div_mod::lemma_fundamental_div_mod_converse(
            magnitude as int + 1,
            size as int,
            exponent as int + 1,
            0,
        );
        assert((magnitude + 1) / size == exponent + 1 && (magnitude + 1) % size == 0);
        assert(magnitude_units(magnitude + 1) == size * pow2(exponent));
        vstd::arithmetic::power2::lemma2_to64();
        if exponent > 0 {
            let scale = pow2((exponent - 1) as nat);
            vstd::arithmetic::power2::lemma_pow2_pos((exponent - 1) as nat);
            vstd::arithmetic::power2::lemma_pow2_unfold(exponent);
            assert((size + fraction) * scale < size * (2 * scale)) by (nonlinear_arith)
                requires
                    scale > 0,
                    fraction + 1 == size,
            ;
        }
    }
}

proof fn units_grow(smaller: nat, larger: nat)
    requires
        smaller <= larger,
    ensures
        magnitude_units(smaller) <= magnitude_units(larger),
        smaller < larger ==> magnitude_units(smaller) < magnitude_units(larger),
    decreases larger - smaller,
{
    if smaller < larger {
        units_grow(smaller, (larger - 1) as nat);
        units_step((larger - 1) as nat);
    }
}

/// Finite patterns stand in the order of the numbers that they encode.
pub proof fn units_follow_position(one: Scalar, other: Scalar)
    ensures
        one.position() < other.position() <==> one.units() < other.units(),
        one.position() == other.position() <==> one.units() == other.units(),
{
    let a = one.magnitude();
    let b = other.magnitude();
    if a <= b {
        units_grow(a, b);
    } else {
        units_grow(b, a);
    }
    units_grow(0, a);
    units_grow(0, b);
    assert(magnitude_units(0) == 0);
}

/// The pattern of one encodes as many smallest units as its exponent says.
pub proof fn units_of_one()
    ensures
        (Scalar { bits: ONE }).units() == FRACTIONS * pow2(1022),
        (Scalar { bits: ONE }).finite(),
{
    assert(ONE as nat / FRACTIONS as nat == 1023);
    assert(ONE as nat % FRACTIONS as nat == 0);
}

/// What is said of a text that is no number.
pub fn not_a_number(text: &str) -> (said: String)
    ensures
        said@ == "`"@ + text@ + "` is not a number."@,
{
    "`".to_owned().concat(text).concat("` is not a number.")
}

/// How numbers compare, by their patterns. A pattern that is not a number is
/// neither below, nor equal to, nor at most anything. Of others, one without a
/// sign is larger the larger its pattern is, one with a sign the smaller, and
/// none with a sign is above one without; both zeros are equal.
pub proof fn numbers_compare_by_their_patterns(one: Scalar, other: Scalar)
    ensures
        one.nan() <==> 0x7FF0_0000_0000_0000 < one.bits < 0x8000_0000_0000_0000 || one.bits > 0xFFF0_0000_0000_0000,
        one.finite() <==> one.bits < 0x7FF0_0000_0000_0000 || 0x8000_0000_0000_0000 <= one.bits < 0xFFF0_0000_0000_0000,
        one.nan() || other.nan() ==> !one.below(other) && !one.equals(other) && !one.at_most(other),
        !one.nan() && !other.nan() ==> {
            &&& one.bits < 0x8000_0000_0000_0000 && other.bits < 0x8000_0000_0000_0000 ==> (one.below(other) <==> one.bits < other.bits)
            &&& one.bits >= 0x8000_0000_0000_0000 && other.bits >= 0x8000_0000_0000_0000 ==> (one.below(other) <==> one.bits
                > other.bits)
            &&& one.bits < 0x8000_0000_0000_0000 && other.bits >= 0x8000_0000_0000_0000 ==> !one.below(other)
            &&& one.bits >= 0x8000_0000_0000_0000 && other.bits < 0x8000_0000_0000_0000 ==> (one.below(other) <==> !(one.bits == 0x8000_0000_0000_0000
                && other.bits == 0))
            &&& one.equals(other) <==> one.bits == other.bits || (one.bits + other.bits == 0x8000_0000_0000_0000 && (
            one.bits == 0 || other.bits == 0))
            &&& one.at_most(other) <==> !other.below(one)
        },
        vstd::std_specs::cmp::PartialEqSpec::eq_spec(&one, &other) == one.equals(other),
{
}

/// Whether a magnitude reaches a bound is told by the pattern without its sign.
pub proof fn magnitudes_reach_by_their_patterns(value: Scalar, bound: nat)
    ensures
        value.nan() ==> !value.reaches(bound),
        value.bits <= 0x7FF0_0000_0000_0000 ==> (value.reaches(bound) <==> value.bits >= bound),
        0x8000_0000_0000_0000 <= value.bits <= 0xFFF0_0000_0000_0000 ==> (value.reaches(bound) <==> value.bits - 0x8000_0000_0000_0000 >= bound),
        value.bits < 0x8000_0000_0000_0000 ==> value.magnitude() == value.bits,
        value.bits >= 0x8000_0000_0000_0000 ==> value.magnitude() == value.bits - 0x8000_0000_0000_0000,
{
}

/// What a pattern encodes: without an exponent its fraction, else one and the
/// fraction, doubled once for each step of the exponent above the first; with
/// the sign bit the number is negated.
pub proof fn patterns_encode_numbers(exponent: nat, fraction: nat)
    requires
        exponent < 2047,
        fraction < 0x0010_0000_0000_0000,
    ensures
        ({
            let pattern = exponent * 0x0010_0000_0000_0000 + fraction;
            let number = if exponent == 0 {
                fraction
            } else {
                (0x0010_0000_0000_0000 + fraction) * pow2((exponent - 1) as nat)
            };
            &&& (Scalar { bits: pattern as u64 }).units() == number
            &&& (Scalar { bits: (0x8000_0000_0000_0000 + pattern) as u64 }).units() == -number
        }),
{
    let size = FRACTIONS as nat;
    let pattern = exponent * size + fraction;
    vstd::arithmetic::div_mod::lemma_fundamental_div_mod_converse(
        pattern as int,
        size as int,
        exponent as int,
        fraction as int,
    );
}

} // verus!
