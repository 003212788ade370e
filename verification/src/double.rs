//! Double-precision values carried by their bit pattern.
//!
//! The detector compares, ranks and classifies scores, and those decisions are made here on
//! integers. A [`Double`] holds the 64 bits of an IEEE 754 binary64 value; the arithmetic that
//! produces such values belongs to the caller.

use crate::order::Ranked;
use vstd::arithmetic::power2::*;
use vstd::prelude::*;

verus! {

/// Weight of the sign bit.
pub const SIGN_WEIGHT: u64 = 0x8000_0000_0000_0000;

/// Magnitude of an infinity; every larger magnitude is a NaN.
pub const INFINITE_MAGNITUDE: u64 = 0x7ff0_0000_0000_0000;

/// Weight of the lowest exponent bit.
pub const EXPONENT_WEIGHT: u64 = 0x0010_0000_0000_0000;

/// Bits of the number one.
pub const ONE_BITS: u64 = 0x3ff0_0000_0000_0000;

/// Bits of the distance between one and the next larger number, which is 2^-52.
pub const EPSILON_BITS: u64 = 0x3cb0_0000_0000_0000;

/// An IEEE 754 binary64 value, given by its bits.
#[derive(Clone, Copy, Debug)]
pub struct Double {
    pub bits: u64,
}

/// What a finite magnitude stands for, as a multiple of the smallest subnormal.
pub open spec fn magnitude_value(magnitude: int) -> int {
    let exponent = magnitude / EXPONENT_WEIGHT as int;
    let fraction = magnitude % EXPONENT_WEIGHT as int;
    if exponent == 0 {
        fraction
    } else {
        (EXPONENT_WEIGHT + fraction) * pow2((exponent - 1) as nat)
    }
}

impl Double {
    pub open spec fn negative(self) -> bool {
        self.bits >= SIGN_WEIGHT
    }

    pub open spec fn magnitude(self) -> int {
        if self.negative() {
            self.bits - SIGN_WEIGHT
        } else {
            self.bits as int
        }
    }

    pub open spec fn nan(self) -> bool {
        self.magnitude() > INFINITE_MAGNITUDE
    }

    pub open spec fn finite(self) -> bool {
        self.magnitude() < INFINITE_MAGNITUDE
    }

    /// Position in the numeric order; both zeros have rank zero.
    pub open spec fn rank(self) -> int {
        if self.negative() {
            -self.magnitude()
        } else {
            self.magnitude()
        }
    }

    /// Position in the total order, which also orders the zeros and the NaNs.
    pub open spec fn total_rank(self) -> int {
        if self.negative() {
            -self.magnitude() - 1
        } else {
            self.magnitude()
        }
    }

    /// The value of a finite number, as a multiple of the smallest subnormal.
    pub open spec fn scaled(self) -> int {
        if self.negative() {
            -magnitude_value(self.magnitude())
        } else {
            magnitude_value(self.magnitude())
        }
    }

    /// `self < other`, which no NaN satisfies.
    pub open spec fn below(self, other: Double) -> bool {
        !self.nan() && !other.nan() && self.rank() < other.rank()
    }

    /// `self <= other`, which no NaN satisfies.
    pub open spec fn at_most(self, other: Double) -> bool {
        !self.nan() && !other.nan() && self.rank() <= other.rank()
    }

    /// `self == other`: both zeros are equal, and a NaN equals nothing.
    pub open spec fn same_number(self, other: Double) -> bool {
        !self.nan() && !other.nan() && self.rank() == other.rank()
    }

    /// A number from zero to one.
    pub open spec fn in_unit_interval(self) -> bool {
        self.finite() && 0 <= self.rank() <= ONE_BITS
    }

    /// A finite number that is not below zero.
    pub open spec fn finite_nonnegative(self) -> bool {
        self.finite() && 0 <= self.rank()
    }

    pub fn from_bits(bits: u64) -> (r: Double)
        ensures
            r.bits == bits,
    {
        Double { bits }
    }

    pub fn to_bits(self) -> (r: u64)
        ensures
            r == self.bits,
    {
        self.bits
    }

    pub fn zero() -> (r: Double)
        ensures
            r.bits == 0,
    {
        Double { bits: 0 }
    }

    pub fn one() -> (r: Double)
        ensures
            r.bits == ONE_BITS,
    {
        Double { bits: ONE_BITS }
    }

    pub fn infinity() -> (r: Double)
        ensures
            r.bits == INFINITE_MAGNITUDE,
    {
        Double { bits: INFINITE_MAGNITUDE }
    }

    fn exec_magnitude(self) -> (r: u64)
        ensures
            r == self.magnitude(),
    {
        if self.bits >= SIGN_WEIGHT {
            self.bits - SIGN_WEIGHT
        } else {
            self.bits
        }
    }

    fn exec_rank(self) -> (r: i128)
        ensures
            r == self.rank(),
    {
        let magnitude: i128 = self.exec_magnitude() as i128;
        if self.bits >= SIGN_WEIGHT {
            -magnitude
        } else {
            magnitude
        }
    }

    fn exec_total_rank(self) -> (r: i128)
        ensures
            r == self.total_rank(),
    {
        let magnitude: i128 = self.exec_magnitude() as i128;
        if self.bits >= SIGN_WEIGHT {
            -magnitude - 1
        } else {
            magnitude
        }
    }

    pub fn is_nan(self) -> (r: bool)
        ensures
            r == self.nan(),
    {
        self.exec_magnitude() > INFINITE_MAGNITUDE
    }

    pub fn is_finite(self) -> (r: bool)
        ensures
            r == self.finite(),
    {
        self.exec_magnitude() < INFINITE_MAGNITUDE
    }

    /// `self < other`.
    pub fn lt(self, other: Double) -> (r: bool)
        ensures
            r == self.below(other),
    {
        !self.is_nan() && !other.is_nan() && self.exec_rank() < other.exec_rank()
    }

    /// `self <= other`.
    pub fn le(self, other: Double) -> (r: bool)
        ensures
            r == self.at_most(other),
    {
        !self.is_nan() && !other.is_nan() && self.exec_rank() <= other.exec_rank()
    }

    /// `self > other`.
    pub fn gt(self, other: Double) -> (r: bool)
        ensures
            r == other.below(self),
    {
        other.lt(self)
    }

    /// `self >= other`.
    pub fn ge(self, other: Double) -> (r: bool)
        ensures
            r == other.at_most(self),
    {
        other.le(self)
    }

    /// Whether `self` comes before `other` in the total order.
    pub fn total_lt(self, other: Double) -> (r: bool)
        ensures
            r == (self.total_rank() < other.total_rank()),
    {
        self.exec_total_rank() < other.exec_total_rank()
    }

    /// The number equal to the integer `n`.
    pub fn from_u64(n: u64) -> (r: Double)
        requires
            n < 2 * EXPONENT_WEIGHT,
        ensures
            r.equals_integer(n as int),
            r == integer(n as int),
    {
        if n == 0 {
            proof {
                assert(0 * pow2(1074) == 0) by (nonlinear_arith);
                lemma_integer_is_unique(Double { bits: 0 }, 0);
            }
            return Double { bits: 0 };
        }
        let mut significand: u64 = n;
        let mut exponent: u64 = 1075;
        proof {
            lemma2_to64();
        }
        while significand < EXPONENT_WEIGHT
            invariant
                1 <= significand < 2 * EXPONENT_WEIGHT,
                1 <= exponent <= 1075,
                significand * pow2((exponent - 1) as nat) == n * pow2(1074),
                significand >= pow2((1075 - exponent) as nat),
            decreases 2 * EXPONENT_WEIGHT - significand,
        {
            proof {
                if exponent <= 1023 {
                    lemma_pow2_above_52((1075 - exponent) as nat);
                }
                lemma_pow2_unfold((exponent - 1) as nat);
                lemma_pow2_unfold((1076 - exponent) as nat);
                let half = pow2((exponent - 2) as nat);
                assert(significand * (2 * half) == (significand * 2) * half) by (nonlinear_arith);
            }
            significand = significand * 2;
            exponent = exponent - 1;
        }
        proof {
            if exponent <= 1022 {
                lemma_pow2_above_52((1075 - exponent) as nat);
            }
        }
        let bits: u64 = exponent * EXPONENT_WEIGHT + (significand - EXPONENT_WEIGHT);
        proof {
            lemma_integer_is_unique(Double { bits }, n as int);
        }
        Double { bits }
    }

    /// The number, with a positive sign if it is zero, that equals the integer `n`.
    pub open spec fn equals_integer(self, n: int) -> bool {
        self.finite() && !self.negative() && self.scaled() == n * pow2(1074)
    }
}

impl PartialEq for Double {
    fn eq(&self, other: &Double) -> (r: bool) {
        !self.is_nan() && !other.is_nan() && self.exec_rank() == other.exec_rank()
    }
}

impl vstd::std_specs::cmp::PartialEqSpecImpl for Double {
    open spec fn obeys_eq_spec() -> bool {
        true
    }

    open spec fn eq_spec(&self, other: &Double) -> bool {
        self.same_number(*other)
    }
}

/// The number equal to the natural number `n`.
pub open spec fn integer(n: int) -> Double {
    choose|value: Double| #[trigger] value.equals_integer(n)
}

proof fn lemma_integer_is_unique(value: Double, n: int)
    requires
        value.equals_integer(n),
    ensures
        value == integer(n),
{
    let other = integer(n);
    comparison_is_numeric(value, other);
    comparison_is_numeric(other, value);
}

proof fn lemma_pow2_above_52(e: nat)
    requires
        e >= 52,
    ensures
        pow2(e) >= EXPONENT_WEIGHT,
    decreases e,
{
    if e == 52 {
        lemma2_to64_rest();
    } else {
        lemma_pow2_above_52((e - 1) as nat);
        lemma_pow2_unfold(e);
    }
}

proof fn lemma_magnitude_value_increases(low: int, high: int)
    requires
        0 <= low < high,
    ensures
        0 <= magnitude_value(low) < magnitude_value(high),
{
    let weight = EXPONENT_WEIGHT as int;
    let low_exponent = low / weight;
    let high_exponent = high / weight;
    let low_fraction = low % weight;
    let high_fraction = high % weight;
    assert(low_exponent <= high_exponent);
    if high_exponent > 0 {
        let high_scale = pow2((high_exponent - 1) as nat) as int;
        lemma_pow2_pos((high_exponent - 1) as nat);
        assert(magnitude_value(high) >= weight * high_scale) by (nonlinear_arith)
            requires
                magnitude_value(high) == (weight + high_fraction) * high_scale,
                high_fraction >= 0,
                high_scale > 0,
        ;
        if low_exponent == 0 {
            assert(weight * high_scale >= weight) by (nonlinear_arith)
                requires
                    high_scale >= 1,
                    weight > 0,
            ;
        } else {
            let low_scale = pow2((low_exponent - 1) as nat) as int;
            lemma_pow2_pos((low_exponent - 1) as nat);
            assert(0 <= magnitude_value(low) < weight * (2 * low_scale)) by (nonlinear_arith)
                requires
                    magnitude_value(low) == (weight + low_fraction) * low_scale,
                    0 <= low_fraction < weight,
                    low_scale > 0,
            ;
            if low_exponent == high_exponent {
                assert(magnitude_value(low) < magnitude_value(high)) by (nonlinear_arith)
                    requires
                        magnitude_value(low) == (weight + low_fraction) * low_scale,
                        magnitude_value(high) == (weight + high_fraction) * low_scale,
                        low_fraction < high_fraction,
                        low_scale > 0,
                ;
            } else {
                lemma_pow2_unfold(low_exponent as nat);
                if low_exponent < high_exponent - 1 {
                    lemma_pow2_strictly_increases(low_exponent as nat, (high_exponent - 1) as nat);
                }
                assert(weight * (2 * low_scale) <= weight * high_scale) by (nonlinear_arith)
                    requires
                        2 * low_scale <= high_scale,
                        weight > 0,
                ;
            }
        }
    }
}

/// The comparisons agree with the numeric order of the values.
pub proof fn comparison_is_numeric(left: Double, right: Double)
    requires
        left.finite(),
        right.finite(),
    ensures
        left.below(right) <==> left.scaled() < right.scaled(),
        left.at_most(right) <==> left.scaled() <= right.scaled(),
{
    let l = left.magnitude();
    let r = right.magnitude();
    assert(magnitude_value(0) == 0);
    if 0 < l {
        lemma_magnitude_value_increases(0, l);
    }
    if 0 < r {
        lemma_magnitude_value_increases(0, r);
    }
    if l < r {
        lemma_magnitude_value_increases(l, r);
    }
    if r < l {
        lemma_magnitude_value_increases(r, l);
    }
}

/// The total order refines the comparisons and tells every two bit patterns apart.
pub proof fn total_order_refines_comparison(left: Double, right: Double)
    ensures
        left.below(right) ==> left.total_rank() < right.total_rank(),
        left.total_rank() == right.total_rank() ==> left == right,
{
}

/// Integers keep their order as doubles.
pub proof fn integers_keep_their_order(m: u64, n: u64, left: Double, right: Double)
    requires
        left.equals_integer(m as int),
        right.equals_integer(n as int),
    ensures
        left.below(right) <==> m < n,
{
    comparison_is_numeric(left, right);
    lemma_pow2_pos(1074);
    let unit = pow2(1074) as int;
    assert(m * unit < n * unit <==> m < n) by (nonlinear_arith)
        requires
            unit > 0,
    ;
}

/// The total order.
impl Ranked for Double {
    open spec fn no_later(self, other: Double) -> bool {
        self.total_rank() <= other.total_rank()
    }

    proof fn no_later_is_total(a: Double, b: Double) {
    }

    proof fn no_later_is_transitive(a: Double, b: Double, c: Double) {
    }

    fn is_no_later(self, other: Double) -> (r: bool) {
        !other.total_lt(self)
    }
}

/// The sum of two numbers, rounded to a number, is at most 2^-52.
///
/// Next to 2^-52 numbers lie 2^-104 apart above it, and a sum half-way to the next one is rounded
/// down to it. In multiples of 2^-105 that is a sum of at most 2^53 + 1.
pub open spec fn sum_is_tiny(a: Double, b: Double) -> bool {
    a.scaled() + b.scaled() <= 0x20_0000_0000_0001 * pow2(969)
}

/// A number of at most 2^-52, as a multiple of 2^-105, rounded up.
fn in_small_units(value: Double) -> (r: u64)
    requires
        value.bits <= EPSILON_BITS,
    ensures
        r <= 2 * EXPONENT_WEIGHT,
        value.scaled() <= r * pow2(969),
        r > 0 ==> (r - 1) * pow2(969) < value.scaled(),
        value.bits >= 970 * EXPONENT_WEIGHT ==> value.scaled() == r * pow2(969),
{
    let exponent: u64 = value.bits / EXPONENT_WEIGHT;
    let fraction: u64 = value.bits % EXPONENT_WEIGHT;
    let ghost unit = pow2(969) as int;
    proof {
        lemma_pow2_pos(969);
    }
    if exponent == 971 {
        proof {
            assert(fraction == 0);
            lemma_pow2_unfold(970);
            assert(EXPONENT_WEIGHT * (2 * unit) == (2 * EXPONENT_WEIGHT) * unit)
                by (nonlinear_arith);
            assert((2 * EXPONENT_WEIGHT - 1) * unit < (2 * EXPONENT_WEIGHT) * unit)
                by (nonlinear_arith)
                requires
                    unit > 0,
            ;
        }
        return 2 * EXPONENT_WEIGHT;
    }
    if exponent == 970 {
        let significand: u64 = EXPONENT_WEIGHT + fraction;
        proof {
            assert((significand - 1) * unit < significand * unit) by (nonlinear_arith)
                requires
                    unit > 0,
            ;
        }
        return significand;
    }
    let mut significand: u64 = if exponent == 0 {
        fraction
    } else {
        EXPONENT_WEIGHT + fraction
    };
    let mut power: u64 = if exponent == 0 {
        0
    } else {
        exponent - 1
    };
    let ghost value_scaled = value.scaled();
    proof {
        lemma2_to64();
        let scale = pow2(power as nat) as int;
        lemma_pow2_pos(power as nat);
        if exponent == 0 {
            assert(fraction * scale == fraction) by (nonlinear_arith)
                requires
                    scale == 1,
            ;
        }
        assert((significand - 1) * scale < significand * scale) by (nonlinear_arith)
            requires
                scale > 0,
        ;
    }
    while power < 969
        invariant
            power <= 969,
            significand <= 2 * EXPONENT_WEIGHT,
            value_scaled == value.scaled(),
            value_scaled <= significand * pow2(power as nat),
            significand > 0 ==> (significand - 1) * pow2(power as nat) < value_scaled,
        decreases 969 - power,
    {
        let half: u64 = significand / 2 + significand % 2;
        proof {
            let scale = pow2(power as nat) as int;
            lemma_pow2_pos(power as nat);
            lemma_pow2_unfold((power + 1) as nat);
            assert(significand * scale <= half * (2 * scale)) by (nonlinear_arith)
                requires
                    significand <= 2 * half,
                    scale > 0,
            ;
            if half > 0 {
                assert((half - 1) * (2 * scale) <= (significand - 1) * scale) by (nonlinear_arith)
                    requires
                        2 * (half - 1) <= significand - 1,
                        scale > 0,
                ;
            }
        }
        significand = half;
        power = power + 1;
    }
    significand
}

/// Whether `a + b`, in the arithmetic of doubles, is at most 2^-52.
pub fn sum_at_most_epsilon(a: Double, b: Double) -> (r: bool)
    requires
        a.finite_nonnegative(),
        b.finite_nonnegative(),
    ensures
        r == sum_is_tiny(a, b),
{
    // A negative zero counts as zero.
    let a = if a.bits == SIGN_WEIGHT {
        Double::zero()
    } else {
        a
    };
    let b = if b.bits == SIGN_WEIGHT {
        Double::zero()
    } else {
        b
    };
    let (large, small) = if a.bits >= b.bits {
        (a, b)
    } else {
        (b, a)
    };
    let ghost unit = pow2(969) as int;
    proof {
        assert(magnitude_value(0) == 0);
        lemma_pow2_pos(969);
        if small.bits > 0 {
            lemma_magnitude_value_increases(0, small.magnitude());
        }
        if large.bits > EPSILON_BITS {
            let next = EPSILON_BITS + 1;
            assert(next / EXPONENT_WEIGHT as int == 971 && next % EXPONENT_WEIGHT as int == 1);
            lemma_pow2_unfold(970);
            assert(magnitude_value(next) == (EXPONENT_WEIGHT + 1) * pow2(970));
            assert((EXPONENT_WEIGHT + 1) * (2 * unit) > 0x20_0000_0000_0001 * unit)
                by (nonlinear_arith)
                requires
                    unit > 0,
                    EXPONENT_WEIGHT == 0x10_0000_0000_0000,
            ;
            if large.magnitude() > next {
                lemma_magnitude_value_increases(next, large.magnitude());
            }
        }
    }
    if large.bits > EPSILON_BITS {
        return false;
    }
    let high: u64 = in_small_units(large);
    let low: u64 = in_small_units(small);
    proof {
        assert(high * unit + low * unit == (high + low) * unit) by (nonlinear_arith);
        if high + low <= 0x20_0000_0000_0001 {
            assert((high + low) * unit <= 0x20_0000_0000_0001 * unit) by (nonlinear_arith)
                requires
                    high + low <= 0x20_0000_0000_0001,
                    unit > 0,
            ;
        } else {
            if large.bits < 970 * EXPONENT_WEIGHT {
                lemma_below_small_binade(large);
                if small.bits < large.bits {
                    lemma_magnitude_value_increases(small.bits as int, large.bits as int);
                }
                assert(high <= EXPONENT_WEIGHT) by {
                    if high > EXPONENT_WEIGHT {
                        assert((high - 1) * unit >= EXPONENT_WEIGHT * unit) by (nonlinear_arith)
                            requires
                                high - 1 >= EXPONENT_WEIGHT,
                                unit > 0,
                        ;
                    }
                }
                assert(low <= EXPONENT_WEIGHT) by {
                    if low > EXPONENT_WEIGHT {
                        assert((low - 1) * unit >= EXPONENT_WEIGHT * unit) by (nonlinear_arith)
                            requires
                                low - 1 >= EXPONENT_WEIGHT,
                                unit > 0,
                        ;
                    }
                }
                assert(false);
            }
            assert(low > 0);
            assert(high * unit + (low - 1) * unit >= 0x20_0000_0000_0001 * unit)
                by (nonlinear_arith)
                requires
                    high + (low - 1) >= 0x20_0000_0000_0001,
                    unit > 0,
            ;
        }
    }
    high + low <= 0x20_0000_0000_0001
}

/// Below 2^-53 a number is less than 2^52 multiples of 2^-105.
proof fn lemma_below_small_binade(value: Double)
    requires
        value.bits < 970 * EXPONENT_WEIGHT,
    ensures
        value.scaled() < EXPONENT_WEIGHT * pow2(969),
{
    let bound = 970 * EXPONENT_WEIGHT;
    assert(bound / EXPONENT_WEIGHT as int == 970 && bound % EXPONENT_WEIGHT as int == 0);
    assert(magnitude_value(bound) == EXPONENT_WEIGHT * pow2(969));
    lemma_magnitude_value_increases(value.bits as int, bound);
}

/// A sum with a number of at least one half in it is not tiny.
pub proof fn numbers_from_a_half_are_not_tiny(a: Double, b: Double)
    requires
        a.finite_nonnegative(),
        b.finite_nonnegative(),
        a.rank() >= 1022 * EXPONENT_WEIGHT,
    ensures
        !sum_is_tiny(a, b),
{
    let half = 1022 * EXPONENT_WEIGHT;
    assert(half / EXPONENT_WEIGHT as int == 1022 && half % EXPONENT_WEIGHT as int == 0);
    assert(magnitude_value(half) == EXPONENT_WEIGHT * pow2(1021));
    if a.magnitude() > half {
        lemma_magnitude_value_increases(half, a.magnitude());
    }
    assert(magnitude_value(0) == 0);
    if b.magnitude() > 0 {
        lemma_magnitude_value_increases(0, b.magnitude());
    }
    lemma_pow2_unfold(970);
    lemma_pow2_unfold(971);
    lemma_pow2_strictly_increases(971, 1021);
    let unit = pow2(969) as int;
    let scale = pow2(1021) as int;
    lemma_pow2_pos(969);
    assert(EXPONENT_WEIGHT * scale > 0x20_0000_0000_0001 * unit) by (nonlinear_arith)
        requires
            scale > 4 * unit,
            unit > 0,
            EXPONENT_WEIGHT == 0x10_0000_0000_0000,
    ;
}

/// What is not a number is neither below, nor at most, nor equal to anything.
pub proof fn undefined_numbers_compare_with_nothing(undefined: Double, other: Double)
    requires
        undefined.bits % SIGN_WEIGHT > INFINITE_MAGNITUDE,
    ensures
        !undefined.below(other) && !other.below(undefined),
        !undefined.at_most(other) && !other.at_most(undefined),
        !undefined.same_number(other) && !other.same_number(undefined),
        !undefined.finite(),
{
}

/// Of two numbers one is at most the other, and both are only where they are equal.
pub proof fn numbers_are_comparable(a: Double, b: Double)
    requires
        a.bits % SIGN_WEIGHT <= INFINITE_MAGNITUDE,
        b.bits % SIGN_WEIGHT <= INFINITE_MAGNITUDE,
    ensures
        a.at_most(b) || b.below(a),
        !(a.at_most(b) && b.below(a)),
        a.at_most(b) && b.at_most(a) <==> a.same_number(b),
        a.bits < b.bits < SIGN_WEIGHT ==> a.below(b),
        SIGN_WEIGHT < a.bits && b.bits < SIGN_WEIGHT ==> a.below(b),
{
}

/// The number whose bits are those of one equals the integer one.
pub proof fn one_is_an_integer()
    ensures
        integer(1) == (Double { bits: ONE_BITS }),
{
    let one = Double { bits: ONE_BITS };
    assert(ONE_BITS as int / EXPONENT_WEIGHT as int == 1023);
    assert(ONE_BITS as int % EXPONENT_WEIGHT as int == 0);
    lemma2_to64();
    lemma2_to64_rest();
    lemma_pow2_adds(52, 1022);
    lemma_integer_is_unique(one, 1);
}

/// A sum of up to 2^-52 is tiny, and a sum of 2^-51 or more is not.
pub proof fn tiny_sums_are_below_two_epsilons(a: Double, b: Double)
    ensures
        a.scaled() + b.scaled() <= pow2(1022) ==> sum_is_tiny(a, b),
        a.scaled() + b.scaled() >= pow2(1023) ==> !sum_is_tiny(a, b),
{
    lemma2_to64();
    lemma2_to64_rest();
    lemma_pow2_pos(969);
    lemma_pow2_adds(53, 969);
    lemma_pow2_adds(54, 969);
    let unit = pow2(969) as int;
    assert(0x20_0000_0000_0001 * unit == 0x20_0000_0000_0000 * unit + unit) by (nonlinear_arith);
    assert(0x40_0000_0000_0000 * unit > 0x20_0000_0000_0001 * unit) by (nonlinear_arith)
        requires
            unit > 0,
    ;
}

} // verus!
